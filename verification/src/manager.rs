//! The resource manager: the syscall surface that creates synchronization
//! objects, routes acquire/release operations through the bookkeeping and —
//! when detection is enabled — through the safety checker, and keeps the
//! state well-formed at every step.

use vstd::prelude::*;
use crate::state::{AcquireOutcome, Kind, MutexMeta, Request, SemMeta, SyncManager};
use crate::state::{
    alloc_of, condvar_inv, condvar_live_at, dims_ok, is_req, matrix_get, matrix_set, mutex_inv,
    mutex_live, pending_ok, queue_elems_bounded, queue_len, queue_pop_front, queue_push, sem_inv,
    sem_live, task_count, task_runnable, wf,
};
use crate::safety::safe_after_request;
use crate::tally::{
    col_total, lemma_col_sum_element, lemma_col_sum_two_elements, lemma_col_sum_update,
    lemma_col_sum_zero, lemma_col_total_push, lemma_occurrences_member, lemma_occurrences_push,
    occurrences,
};

verus! {

/// The numeric return convention of the boundary: 0 for a granted
/// acquisition, the distinguished refusal sentinel for one the safety
/// checker turned down.  A blocked call has no code: at the boundary it
/// simply does not return until the resource is granted.
pub fn outcome_code(r: AcquireOutcome) -> (c: isize)
    requires
        !(r is Blocked),
    ensures
        r is Granted ==> c == 0,
        r is Refused ==> c == -0xDEAD,
{
    match r {
        AcquireOutcome::Granted => 0,
        AcquireOutcome::Refused => -0xDEAD,
        AcquireOutcome::Blocked => vstd::pervasive::unreached(),
    }
}

/// `m` with the detection flag set to `on` and everything else as it was.
pub open spec fn with_detection(m: SyncManager, on: bool) -> SyncManager {
    SyncManager {
        mutexes: m.mutexes,
        mutex_waiters: m.mutex_waiters,
        semaphores: m.semaphores,
        sem_waiters: m.sem_waiters,
        condvar_live: m.condvar_live,
        condvar_waiters: m.condvar_waiters,
        alloc_mutex: m.alloc_mutex,
        alloc_sem: m.alloc_sem,
        pending: m.pending,
        detection_enabled: on,
    }
}

/// Toggling idempotence: setting the detection flag twice to the same value
/// leaves the same state as setting it once.
pub proof fn lemma_detection_toggle_idempotent(m: SyncManager, on: bool)
    ensures
        with_detection(with_detection(m, on), on) == with_detection(m, on),
{
}

/// Well-formedness does not depend on the detection flag.
proof fn lemma_wf_detection_irrelevant(m: SyncManager, on: bool)
    requires
        wf(m),
    ensures
        wf(with_detection(m, on)),
{
    let m2 = with_detection(m, on);
    assert forall|t: int| 0 <= t < task_count(m2) implies pending_ok(m2, t) by {
        assert(pending_ok(m, t));
    }
    assert forall|i: int| 0 <= i < m2.mutexes@.len() implies mutex_inv(m2, i) by {
        assert(mutex_inv(m, i));
    }
    assert forall|i: int| 0 <= i < m2.semaphores@.len() implies sem_inv(m2, i) by {
        assert(sem_inv(m, i));
    }
    assert forall|c: int| 0 <= c < m2.condvar_live@.len() implies condvar_inv(m2, c) by {
        assert(condvar_inv(m, c));
    }
    assert(dims_ok(m));
    assert forall|t: int| 0 <= t < task_count(m2) implies (#[trigger] m2.alloc_mutex@[t])@.len()
        == m2.mutexes@.len() && m2.alloc_sem@[t]@.len() == m2.semaphores@.len() by {
        assert(m.alloc_mutex@[t]@.len() == m.mutexes@.len());
    }
    assert(dims_ok(m2));
    assert(wf(m2));
}

/// A row of zeroes for a freshly registered task.
fn zero_row(n: usize) -> (v: Vec<usize>)
    ensures
        v@.len() == n,
        forall|i: int| 0 <= i < n ==> v@[i] == 0,
{
    let mut v: Vec<usize> = Vec::new();
    let mut j: usize = 0;
    while j < n
        invariant
            v@.len() == j,
            j <= n,
            forall|i: int| 0 <= i < j ==> v@[i] == 0,
        decreases n - j,
    {
        v.push(0);
        j += 1;
    }
    v
}


/// Widens every task's allocation row of one kind by a zero entry for a
/// newly appended slot.
fn extend_rows(v: &mut Vec<Vec<usize>>)
    ensures
        final(v)@.len() == old(v)@.len(),
        forall|x: int| 0 <= x < old(v)@.len() ==> (#[trigger] final(v)@[x])@ == old(v)@[x]@.push(0),
{
    let n = v.len();
    let mut t: usize = 0;
    while t < n
        invariant
            v@.len() == n,
            n == old(v)@.len(),
            t <= n,
            forall|x: int| 0 <= x < t ==> (#[trigger] v@[x])@ == old(v)@[x]@.push(0),
            forall|x: int| t <= x < n ==> (#[trigger] v@[x]) == old(v)@[x],
        decreases n - t,
    {
        let ghost before = v@;
        let mut row = v.remove(t);
        row.push(0);
        v.insert(t, row);
        proof {
            assert(v@ =~= before.update(t as int, v@[t as int]));
        }
        t += 1;
    }
}

impl SyncManager {
    /// An empty process: no objects, no tasks, detection disabled.
    pub fn new() -> (m: SyncManager)
        ensures
            wf(m),
            task_count(m) == 0,
            m.mutexes@.len() == 0,
            m.semaphores@.len() == 0,
            m.condvar_live@.len() == 0,
            !m.detection_enabled,
    {
        SyncManager {
            mutexes: Vec::new(),
            mutex_waiters: Vec::new(),
            semaphores: Vec::new(),
            sem_waiters: Vec::new(),
            condvar_live: Vec::new(),
            condvar_waiters: Vec::new(),
            alloc_mutex: Vec::new(),
            alloc_sem: Vec::new(),
            pending: Vec::new(),
            detection_enabled: false,
        }
    }

    /// Registers one more task with the process: it starts holding nothing
    /// and asking for nothing.  Returns the task's index.
    pub fn add_task(&mut self) -> (t: usize)
        requires
            wf(*old(self)),
            task_count(*old(self)) < usize::MAX,
        ensures
            wf(*final(self)),
            t as int == task_count(*old(self)),
            task_count(*final(self)) == task_count(*old(self)) + 1,
            final(self).pending@ == old(self).pending@.push(Option::None),
            final(self).alloc_mutex@.len() == task_count(*old(self)) + 1,
            final(self).alloc_sem@.len() == task_count(*old(self)) + 1,
            forall|x: int|
                0 <= x < task_count(*old(self)) ==> (#[trigger] final(self).alloc_mutex@[x])
                    == old(self).alloc_mutex@[x] && final(self).alloc_sem@[x]
                    == old(self).alloc_sem@[x],
            forall|i: int|
                0 <= i < old(self).mutexes@.len() ==> (#[trigger] final(self).alloc_mutex@[
                    t as int
                ]@[i]) == 0,
            forall|i: int|
                0 <= i < old(self).semaphores@.len() ==> (#[trigger] final(self).alloc_sem@[
                    t as int
                ]@[i]) == 0,
            final(self).mutexes == old(self).mutexes,
            final(self).mutex_waiters == old(self).mutex_waiters,
            final(self).semaphores == old(self).semaphores,
            final(self).sem_waiters == old(self).sem_waiters,
            final(self).condvar_live == old(self).condvar_live,
            final(self).condvar_waiters == old(self).condvar_waiters,
            final(self).detection_enabled == old(self).detection_enabled,
    {
        let ghost m = *self;
        let t = self.pending.len();
        let row_m = zero_row(self.mutexes.len());
        let row_s = zero_row(self.semaphores.len());
        self.alloc_mutex.push(row_m);
        self.alloc_sem.push(row_s);
        self.pending.push(Option::None);
        proof {
            let m2 = *self;
            let n = task_count(m);
            assert forall|i: int| 0 <= i < m2.mutexes@.len() implies mutex_inv(m2, i) by {
                assert(mutex_inv(m, i));
                lemma_col_total_push(m.alloc_mutex@, m2.alloc_mutex@[n], i);
                assert(m2.alloc_mutex@[n]@[i] == 0);
                assert forall|x: int| 0 <= x < n + 1 implies occurrences(
                    m2.mutex_waiters@[i]@,
                    x,
                ) == (if is_req(m2.pending@[x], Kind::Mutex, i) {
                    1int
                } else {
                    0int
                }) by {
                    if x < n {
                        assert(occurrences(m.mutex_waiters@[i]@, x) == (if is_req(
                            m.pending@[x],
                            Kind::Mutex,
                            i,
                        ) {
                            1int
                        } else {
                            0int
                        }));
                    } else {
                        crate::state::lemma_fresh_task_not_queued(m.mutex_waiters@[i]@, n, x);
                    }
                }
            }
            assert forall|i: int| 0 <= i < m2.semaphores@.len() implies sem_inv(m2, i) by {
                assert(sem_inv(m, i));
                lemma_col_total_push(m.alloc_sem@, m2.alloc_sem@[n], i);
                assert(m2.alloc_sem@[n]@[i] == 0);
                assert forall|x: int| 0 <= x < n + 1 implies occurrences(m2.sem_waiters@[i]@, x)
                    == (if is_req(m2.pending@[x], Kind::Semaphore, i) {
                    1int
                } else {
                    0int
                }) by {
                    if x < n {
                        assert(occurrences(m.sem_waiters@[i]@, x) == (if is_req(
                            m.pending@[x],
                            Kind::Semaphore,
                            i,
                        ) {
                            1int
                        } else {
                            0int
                        }));
                    } else {
                        crate::state::lemma_fresh_task_not_queued(m.sem_waiters@[i]@, n, x);
                    }
                }
            }
            assert forall|c: int| 0 <= c < m2.condvar_live@.len() implies condvar_inv(m2, c) by {
                assert(condvar_inv(m, c));
            }
            assert forall|x: int| 0 <= x < task_count(m2) implies pending_ok(m2, x) by {
                if x < n {
                    assert(pending_ok(m, x));
                }
            }
            assert(wf(m2));
        }
        t
    }


    /// Creates a mutex of the chosen variant in the lowest free slot (or a
    /// new one), with capacity one unit, and returns its id.
    pub fn sys_mutex_create(&mut self, blocking: bool) -> (id: usize)
        requires
            wf(*old(self)),
            old(self).mutexes@.len() < usize::MAX,
        ensures
            wf(*final(self)),
            (id as int) <= old(self).mutexes@.len(),
            forall|j: int| 0 <= j < id ==> old(self).mutexes@[j] is Some,
            (id as int) < old(self).mutexes@.len() ==> old(self).mutexes@[id as int] is None,
            final(self).mutexes@.len() == if (id as int) < old(self).mutexes@.len() {
                old(self).mutexes@.len() as int
            } else {
                old(self).mutexes@.len() as int + 1
            },
            (final(self).mutexes@[id as int] matches Option::Some(meta) && meta.blocking
                == blocking && meta.owner is None),
            forall|j: int|
                0 <= j < old(self).mutexes@.len() && j != id ==> final(self).mutexes@[j] == old(self).mutexes@[j] && final(self).mutex_waiters@[j] == old(self).mutex_waiters@[j],
            final(self).mutex_waiters@.len() == final(self).mutexes@.len(),
            final(self).mutex_waiters@[id as int]@.len() == 0,
            (id as int) < old(self).mutexes@.len() ==> final(self).alloc_mutex == old(self).alloc_mutex,
            id as int == old(self).mutexes@.len() ==> final(self).alloc_mutex@.len() == old(self).alloc_mutex@.len() && forall|x: int|
                0 <= x < old(self).alloc_mutex@.len() ==> (#[trigger] final(self).alloc_mutex@[x])@
                    == old(self).alloc_mutex@[x]@.push(0),
            final(self).semaphores == old(self).semaphores,
            final(self).sem_waiters == old(self).sem_waiters,
            final(self).condvar_live == old(self).condvar_live,
            final(self).condvar_waiters == old(self).condvar_waiters,
            final(self).alloc_sem == old(self).alloc_sem,
            final(self).pending == old(self).pending,
            final(self).detection_enabled == old(self).detection_enabled,
    {
        let ghost m = *self;
        let n_m = self.mutexes.len();
        let mut id: usize = 0;
        while id < n_m && self.mutexes[id].is_some()
            invariant
                *self == m,
                id <= n_m,
                n_m == m.mutexes@.len(),
                forall|j: int| 0 <= j < id ==> m.mutexes@[j] is Some,
            decreases n_m - id,
        {
            id += 1;
        }
        let meta = MutexMeta { blocking, owner: Option::None };
        if id < n_m {
            self.mutexes.set(id, Option::Some(meta));
            proof {
                let m2 = *self;
                assert(mutex_inv(m, id as int));
                assert forall|i: int| 0 <= i < m2.mutexes@.len() implies mutex_inv(m2, i) by {
                    assert(mutex_inv(m, i));
                }
                assert forall|i: int| 0 <= i < m2.semaphores@.len() implies sem_inv(m2, i) by {
                    assert(sem_inv(m, i));
                }
                assert forall|c: int| 0 <= c < m2.condvar_live@.len() implies condvar_inv(m2, c) by {
                    assert(condvar_inv(m, c));
                }
                assert forall|t: int| 0 <= t < task_count(m2) implies pending_ok(m2, t) by {
                    assert(pending_ok(m, t));
                }
                assert forall|t: int| 0 <= t < task_count(m2) implies (#[trigger] m2.alloc_mutex@[
                    t
                ])@.len() == m2.mutexes@.len() && m2.alloc_sem@[t]@.len() == m2.semaphores@.len()
                    by {
                    assert(m.alloc_mutex@[t]@.len() == m.mutexes@.len());
                }
                assert(wf(m2));
            }
        } else {
            self.mutexes.push(Option::Some(meta));
            self.mutex_waiters.push(Vec::new());
            extend_rows(&mut self.alloc_mutex);
            proof {
                let m2 = *self;
                let w = m.mutexes@.len() as int;
                let n = task_count(m);
                assert forall|t: int| 0 <= t < task_count(m2) implies (#[trigger] m2.alloc_mutex@[
                    t
                ])@.len() == m2.mutexes@.len() && m2.alloc_sem@[t]@.len() == m2.semaphores@.len()
                    by {
                    assert(m.alloc_mutex@[t]@.len() == m.mutexes@.len());
                    assert(m2.alloc_mutex@[t]@ == m.alloc_mutex@[t]@.push(0));
                }
                assert forall|t: int| 0 <= t < task_count(m2) implies pending_ok(m2, t) by {
                    assert(pending_ok(m, t));
                }
                assert forall|i: int| 0 <= i < m2.mutexes@.len() implies mutex_inv(m2, i) by {
                    if i < w {
                        assert(mutex_inv(m, i));
                        assert forall|t: int| 0 <= t < n implies (#[trigger] m2.alloc_mutex@[t])@[i]
                            == m.alloc_mutex@[t]@[i] by {
                            assert(m2.alloc_mutex@[t]@ == m.alloc_mutex@[t]@.push(0));
                            assert(m.alloc_mutex@[t]@.len() == w);
                        }
                        crate::tally::lemma_col_sum_congruent(
                            m2.alloc_mutex@,
                            i,
                            m.alloc_mutex@,
                            i,
                            n,
                        );
                    } else {
                        assert forall|t: int| 0 <= t < n implies (#[trigger] m2.alloc_mutex@[t])@[i]
                            == 0 by {
                            assert(m2.alloc_mutex@[t]@ == m.alloc_mutex@[t]@.push(0));
                            assert(m.alloc_mutex@[t]@.len() == w);
                        }
                        lemma_col_sum_zero(m2.alloc_mutex@, i, n);
                        assert(m2.mutex_waiters@[i]@.len() == 0);
                        assert forall|t: int| 0 <= t < n implies occurrences(
                            m2.mutex_waiters@[i]@,
                            t,
                        ) == (if is_req(m2.pending@[t], Kind::Mutex, i) {
                            1int
                        } else {
                            0int
                        }) by {
                            assert(pending_ok(m, t));
                            assert(!is_req(m2.pending@[t], Kind::Mutex, i));
                        }
                    }
                }
                assert forall|i: int| 0 <= i < m2.semaphores@.len() implies sem_inv(m2, i) by {
                    assert(sem_inv(m, i));
                }
                assert forall|c: int| 0 <= c < m2.condvar_live@.len() implies condvar_inv(m2, c) by {
                    assert(condvar_inv(m, c));
                }
                assert(wf(m2));
            }
        }
        id
    }

    /// Creates a counting semaphore with `res_count` free units in the
    /// lowest free slot (or a new one) and returns its id.
    pub fn sys_semaphore_create(&mut self, res_count: usize) -> (id: usize)
        requires
            wf(*old(self)),
            old(self).semaphores@.len() < usize::MAX,
        ensures
            wf(*final(self)),
            (id as int) <= old(self).semaphores@.len(),
            forall|j: int| 0 <= j < id ==> old(self).semaphores@[j] is Some,
            (id as int) < old(self).semaphores@.len() ==> old(self).semaphores@[id as int] is None,
            final(self).semaphores@.len() == if (id as int) < old(self).semaphores@.len() {
                old(self).semaphores@.len() as int
            } else {
                old(self).semaphores@.len() as int + 1
            },
            (final(self).semaphores@[id as int] matches Option::Some(meta) && meta.capacity
                == res_count && meta.available == res_count),
            forall|j: int|
                0 <= j < old(self).semaphores@.len() && j != id ==> final(self).semaphores@[j]
                    == old(self).semaphores@[j] && final(self).sem_waiters@[j] == old(self).sem_waiters@[j],
            final(self).sem_waiters@.len() == final(self).semaphores@.len(),
            final(self).sem_waiters@[id as int]@.len() == 0,
            (id as int) < old(self).semaphores@.len() ==> final(self).alloc_sem == old(self).alloc_sem,
            id as int == old(self).semaphores@.len() ==> final(self).alloc_sem@.len() == old(self).alloc_sem@.len() && forall|x: int|
                0 <= x < old(self).alloc_sem@.len() ==> (#[trigger] final(self).alloc_sem@[x])@
                    == old(self).alloc_sem@[x]@.push(0),
            final(self).mutexes == old(self).mutexes,
            final(self).mutex_waiters == old(self).mutex_waiters,
            final(self).condvar_live == old(self).condvar_live,
            final(self).condvar_waiters == old(self).condvar_waiters,
            final(self).alloc_mutex == old(self).alloc_mutex,
            final(self).pending == old(self).pending,
            final(self).detection_enabled == old(self).detection_enabled,
    {
        let ghost m = *self;
        let n_s = self.semaphores.len();
        let mut id: usize = 0;
        while id < n_s && self.semaphores[id].is_some()
            invariant
                *self == m,
                id <= n_s,
                n_s == m.semaphores@.len(),
                forall|j: int| 0 <= j < id ==> m.semaphores@[j] is Some,
            decreases n_s - id,
        {
            id += 1;
        }
        let meta = SemMeta { capacity: res_count, available: res_count };
        if id < n_s {
            self.semaphores.set(id, Option::Some(meta));
            proof {
                let m2 = *self;
                assert(sem_inv(m, id as int));
                assert forall|i: int| 0 <= i < m2.semaphores@.len() implies sem_inv(m2, i) by {
                    assert(sem_inv(m, i));
                }
                assert forall|i: int| 0 <= i < m2.mutexes@.len() implies mutex_inv(m2, i) by {
                    assert(mutex_inv(m, i));
                }
                assert forall|c: int| 0 <= c < m2.condvar_live@.len() implies condvar_inv(m2, c) by {
                    assert(condvar_inv(m, c));
                }
                assert forall|t: int| 0 <= t < task_count(m2) implies pending_ok(m2, t) by {
                    assert(pending_ok(m, t));
                }
                assert forall|t: int| 0 <= t < task_count(m2) implies (#[trigger] m2.alloc_mutex@[
                    t
                ])@.len() == m2.mutexes@.len() && m2.alloc_sem@[t]@.len() == m2.semaphores@.len()
                    by {
                    assert(m.alloc_mutex@[t]@.len() == m.mutexes@.len());
                }
                assert(wf(m2));
            }
        } else {
            self.semaphores.push(Option::Some(meta));
            self.sem_waiters.push(Vec::new());
            extend_rows(&mut self.alloc_sem);
            proof {
                let m2 = *self;
                let w = m.semaphores@.len() as int;
                let n = task_count(m);
                assert forall|t: int| 0 <= t < task_count(m2) implies (#[trigger] m2.alloc_mutex@[
                    t
                ])@.len() == m2.mutexes@.len() && m2.alloc_sem@[t]@.len() == m2.semaphores@.len()
                    by {
                    assert(m.alloc_mutex@[t]@.len() == m.mutexes@.len());
                    assert(m2.alloc_sem@[t]@ == m.alloc_sem@[t]@.push(0));
                }
                assert forall|t: int| 0 <= t < task_count(m2) implies pending_ok(m2, t) by {
                    assert(pending_ok(m, t));
                }
                assert forall|i: int| 0 <= i < m2.semaphores@.len() implies sem_inv(m2, i) by {
                    if i < w {
                        assert(sem_inv(m, i));
                        assert forall|t: int| 0 <= t < n implies (#[trigger] m2.alloc_sem@[t])@[i]
                            == m.alloc_sem@[t]@[i] by {
                            assert(m.alloc_mutex@[t]@.len() == m.mutexes@.len());
                            assert(m2.alloc_sem@[t]@ == m.alloc_sem@[t]@.push(0));
                            assert(m.alloc_sem@[t]@.len() == w);
                        }
                        crate::tally::lemma_col_sum_congruent(
                            m2.alloc_sem@,
                            i,
                            m.alloc_sem@,
                            i,
                            n,
                        );
                    } else {
                        assert forall|t: int| 0 <= t < n implies (#[trigger] m2.alloc_sem@[t])@[i]
                            == 0 by {
                            assert(m.alloc_mutex@[t]@.len() == m.mutexes@.len());
                            assert(m2.alloc_sem@[t]@ == m.alloc_sem@[t]@.push(0));
                            assert(m.alloc_sem@[t]@.len() == w);
                        }
                        lemma_col_sum_zero(m2.alloc_sem@, i, n);
                        assert(m2.sem_waiters@[i]@.len() == 0);
                        assert forall|t: int| 0 <= t < n implies occurrences(
                            m2.sem_waiters@[i]@,
                            t,
                        ) == (if is_req(m2.pending@[t], Kind::Semaphore, i) {
                            1int
                        } else {
                            0int
                        }) by {
                            assert(pending_ok(m, t));
                            assert(!is_req(m2.pending@[t], Kind::Semaphore, i));
                        }
                    }
                }
                assert forall|i: int| 0 <= i < m2.mutexes@.len() implies mutex_inv(m2, i) by {
                    assert(mutex_inv(m, i));
                }
                assert forall|c: int| 0 <= c < m2.condvar_live@.len() implies condvar_inv(m2, c) by {
                    assert(condvar_inv(m, c));
                }
                assert(wf(m2));
            }
        }
        id
    }

    /// Creates a condition variable in the lowest free slot (or a new one)
    /// and returns its id.  The argument of the boundary call is unused.
    pub fn sys_condvar_create(&mut self, _arg: usize) -> (id: usize)
        requires
            wf(*old(self)),
            old(self).condvar_live@.len() < usize::MAX,
        ensures
            wf(*final(self)),
            (id as int) <= old(self).condvar_live@.len(),
            forall|j: int| 0 <= j < id ==> old(self).condvar_live@[j],
            (id as int) < old(self).condvar_live@.len() ==> !old(self).condvar_live@[id as int],
            final(self).condvar_live@.len() == if (id as int) < old(self).condvar_live@.len() {
                old(self).condvar_live@.len() as int
            } else {
                old(self).condvar_live@.len() as int + 1
            },
            final(self).condvar_live@[id as int],
            forall|j: int|
                0 <= j < old(self).condvar_live@.len() && j != id ==> final(self).condvar_live@[j]
                    == old(self).condvar_live@[j] && final(self).condvar_waiters@[j] == old(self).condvar_waiters@[j],
            final(self).condvar_waiters@.len() == final(self).condvar_live@.len(),
            final(self).condvar_waiters@[id as int]@.len() == 0,
            final(self).mutexes == old(self).mutexes,
            final(self).mutex_waiters == old(self).mutex_waiters,
            final(self).semaphores == old(self).semaphores,
            final(self).sem_waiters == old(self).sem_waiters,
            final(self).alloc_mutex == old(self).alloc_mutex,
            final(self).alloc_sem == old(self).alloc_sem,
            final(self).pending == old(self).pending,
            final(self).detection_enabled == old(self).detection_enabled,
    {
        let ghost m = *self;
        let n_c = self.condvar_live.len();
        let mut id: usize = 0;
        while id < n_c && self.condvar_live[id]
            invariant
                *self == m,
                id <= n_c,
                n_c == m.condvar_live@.len(),
                forall|j: int| 0 <= j < id ==> m.condvar_live@[j],
            decreases n_c - id,
        {
            id += 1;
        }
        if id < n_c {
            self.condvar_live.set(id, true);
            proof {
                let m2 = *self;
                assert(condvar_inv(m, id as int));
                assert forall|c: int| 0 <= c < m2.condvar_live@.len() implies condvar_inv(m2, c) by {
                    assert(condvar_inv(m, c));
                }
                assert forall|i: int| 0 <= i < m2.mutexes@.len() implies mutex_inv(m2, i) by {
                    assert(mutex_inv(m, i));
                }
                assert forall|i: int| 0 <= i < m2.semaphores@.len() implies sem_inv(m2, i) by {
                    assert(sem_inv(m, i));
                }
                assert forall|t: int| 0 <= t < task_count(m2) implies pending_ok(m2, t) by {
                    assert(pending_ok(m, t));
                }
                assert forall|t: int| 0 <= t < task_count(m2) implies (#[trigger] m2.alloc_mutex@[
                    t
                ])@.len() == m2.mutexes@.len() && m2.alloc_sem@[t]@.len() == m2.semaphores@.len()
                    by {
                    assert(m.alloc_mutex@[t]@.len() == m.mutexes@.len());
                }
                assert(wf(m2));
            }
        } else {
            self.condvar_live.push(true);
            self.condvar_waiters.push(Vec::new());
            proof {
                let m2 = *self;
                assert forall|c: int| 0 <= c < m2.condvar_live@.len() implies condvar_inv(m2, c) by {
                    if c < m.condvar_live@.len() {
                        assert(condvar_inv(m, c));
                    } else {
                        assert(m2.condvar_waiters@[c]@.len() == 0);
                    }
                }
                assert forall|i: int| 0 <= i < m2.mutexes@.len() implies mutex_inv(m2, i) by {
                    assert(mutex_inv(m, i));
                }
                assert forall|i: int| 0 <= i < m2.semaphores@.len() implies sem_inv(m2, i) by {
                    assert(sem_inv(m, i));
                }
                assert forall|t: int| 0 <= t < task_count(m2) implies pending_ok(m2, t) by {
                    assert(pending_ok(m, t));
                }
                assert forall|t: int| 0 <= t < task_count(m2) implies (#[trigger] m2.alloc_mutex@[
                    t
                ])@.len() == m2.mutexes@.len() && m2.alloc_sem@[t]@.len() == m2.semaphores@.len()
                    by {
                    assert(m.alloc_mutex@[t]@.len() == m.mutexes@.len());
                }
                assert(wf(m2));
            }
        }
        id
    }


    /// Locks mutex `mutex_id` for `task`.  With detection enabled the
    /// request is first checked: an unsafe grant is refused outright and the
    /// state is left exactly as it was.  A free mutex is granted at once; a
    /// held one suspends the caller on the wait queue with its request
    /// recorded.
    pub fn sys_mutex_lock(&mut self, task: usize, mutex_id: usize) -> (r: AcquireOutcome)
        requires
            wf(*old(self)),
            task_runnable(*old(self), task as int),
            mutex_live(*old(self), mutex_id as int),
        ensures
            wf(*final(self)),
            (r is Refused) <==> (old(self).detection_enabled && !safe_after_request(
                *old(self),
                task as int,
                (Request { kind: Kind::Mutex, id: mutex_id, amount: 1 }),
            )),
            r is Refused ==> *final(self) == *old(self),
            !(r is Refused) ==> ((r is Granted) <==> crate::state::mutex_owner(
                *old(self),
                mutex_id as int,
            ) is None),
            r is Granted ==> final(self).mutexes@ == old(self).mutexes@.update(
                mutex_id as int,
                Option::Some(
                    (MutexMeta {
                        blocking: crate::state::mutex_blocking(*old(self), mutex_id as int),
                        owner: Option::Some(task),
                    }),
                ),
            ) && final(self).alloc_mutex@.len() == old(self).alloc_mutex@.len() && final(self).alloc_mutex@[task as int]@ == old(self).alloc_mutex@[task as int]@.update(
                mutex_id as int,
                (alloc_of(*old(self), task as int, Kind::Mutex, mutex_id as int) + 1) as usize,
            ) && (forall|x: int|
                0 <= x < task_count(*old(self)) && x != task ==> (#[trigger] final(self).alloc_mutex@[x]) == old(self).alloc_mutex@[x]) && final(self).pending == old(self).pending && final(self).mutex_waiters == old(self).mutex_waiters,
            r is Blocked ==> final(self).pending@ == old(self).pending@.update(
                task as int,
                Option::Some((Request { kind: Kind::Mutex, id: mutex_id, amount: 1 })),
            ) && final(self).mutex_waiters@.len() == old(self).mutex_waiters@.len() && final(self).mutex_waiters@[mutex_id as int]@ == old(self).mutex_waiters@[mutex_id as int]@.push(
                task,
            ) && (forall|j: int|
                0 <= j < old(self).mutex_waiters@.len() && j != mutex_id ==> (#[trigger] final(self).mutex_waiters@[j]) == old(self).mutex_waiters@[j]) && final(self).mutexes == old(self).mutexes && final(self).alloc_mutex == old(self).alloc_mutex,
            final(self).semaphores == old(self).semaphores,
            final(self).sem_waiters == old(self).sem_waiters,
            final(self).condvar_live == old(self).condvar_live,
            final(self).condvar_waiters == old(self).condvar_waiters,
            final(self).alloc_sem == old(self).alloc_sem,
            final(self).detection_enabled == old(self).detection_enabled,
            task_count(*final(self)) == task_count(*old(self)),
    {
        let rq = Request { kind: Kind::Mutex, id: mutex_id, amount: 1 };
        if self.detection_enabled {
            if self.detect_will_deadlock(task, rq) {
                return AcquireOutcome::Refused;
            }
        }
        let ghost m = *self;
        let meta = self.mutexes[mutex_id].unwrap();
        match meta.owner {
            Option::None => {
                proof {
                    assert(mutex_inv(m, mutex_id as int));
                    lemma_col_sum_element(
                        m.alloc_mutex@,
                        mutex_id as int,
                        task_count(m),
                        task as int,
                    );
                    crate::tally::lemma_col_sum_nonneg(
                        m.alloc_mutex@,
                        mutex_id as int,
                        task_count(m),
                    );
                }
                self.mutexes.set(
                    mutex_id,
                    Option::Some(MutexMeta { blocking: meta.blocking, owner: Option::Some(task) }),
                );
                let a = matrix_get(&self.alloc_mutex, task, mutex_id);
                matrix_set(&mut self.alloc_mutex, task, mutex_id, a + 1);
                proof {
                    let m2 = *self;
                    let n = task_count(m);
                    let i0 = mutex_id as int;
                    assert(a == 0);
                    assert forall|t: int| 0 <= t < task_count(m2) implies (
                    #[trigger] m2.alloc_mutex@[t])@.len() == m2.mutexes@.len()
                        && m2.alloc_sem@[t]@.len() == m2.semaphores@.len() by {
                        assert(m.alloc_mutex@[t]@.len() == m.mutexes@.len());
                    }
                    assert forall|t: int| 0 <= t < task_count(m2) implies pending_ok(m2, t) by {
                        assert(pending_ok(m, t));
                    }
                    assert(m2.alloc_mutex@ =~= m.alloc_mutex@.update(
                        task as int,
                        m2.alloc_mutex@[task as int],
                    ));
                    assert forall|i: int| 0 <= i < m2.mutexes@.len() implies mutex_inv(m2, i) by {
                        assert(mutex_inv(m, i));
                        lemma_col_sum_update(
                            m.alloc_mutex@,
                            task as int,
                            m2.alloc_mutex@[task as int],
                            i,
                            n,
                        );
                        assert forall|t: int| 0 <= t < n implies occurrences(
                            m2.mutex_waiters@[i]@,
                            t,
                        ) == (if is_req(m2.pending@[t], Kind::Mutex, i) {
                            1int
                        } else {
                            0int
                        }) by {
                            assert(occurrences(m.mutex_waiters@[i]@, t) == (if is_req(
                                m.pending@[t],
                                Kind::Mutex,
                                i,
                            ) {
                                1int
                            } else {
                                0int
                            }));
                        }
                    }
                    assert forall|i: int| 0 <= i < m2.semaphores@.len() implies sem_inv(m2, i) by {
                        assert(sem_inv(m, i));
                    }
                    assert forall|c: int| 0 <= c < m2.condvar_live@.len() implies condvar_inv(
                        m2,
                        c,
                    ) by {
                        assert(condvar_inv(m, c));
                    }
                    assert(wf(m2));
                }
                AcquireOutcome::Granted
            },
            Option::Some(_) => {
                self.pending.set(task, Option::Some(rq));
                queue_push(&mut self.mutex_waiters, mutex_id, task);
                proof {
                    let m2 = *self;
                    let n = task_count(m);
                    let i0 = mutex_id as int;
                    assert forall|t: int| 0 <= t < task_count(m2) implies (
                    #[trigger] m2.alloc_mutex@[t])@.len() == m2.mutexes@.len()
                        && m2.alloc_sem@[t]@.len() == m2.semaphores@.len() by {
                        assert(m.alloc_mutex@[t]@.len() == m.mutexes@.len());
                    }
                    assert forall|t: int| 0 <= t < task_count(m2) implies pending_ok(m2, t) by {
                        assert(pending_ok(m, t));
                    }
                    assert forall|i: int| 0 <= i < m2.mutexes@.len() implies mutex_inv(m2, i) by {
                        assert(mutex_inv(m, i));
                        assert forall|t: int| 0 <= t < n implies occurrences(
                            m2.mutex_waiters@[i]@,
                            t,
                        ) == (if is_req(m2.pending@[t], Kind::Mutex, i) {
                            1int
                        } else {
                            0int
                        }) by {
                            assert(occurrences(m.mutex_waiters@[i]@, t) == (if is_req(
                                m.pending@[t],
                                Kind::Mutex,
                                i,
                            ) {
                                1int
                            } else {
                                0int
                            }));
                            if i == i0 {
                                lemma_occurrences_push(m.mutex_waiters@[i]@, task, t);
                            }
                        }
                    }
                    assert forall|i: int| 0 <= i < m2.semaphores@.len() implies sem_inv(m2, i) by {
                        assert(sem_inv(m, i));
                        assert forall|t: int| 0 <= t < n implies occurrences(
                            m2.sem_waiters@[i]@,
                            t,
                        ) == (if is_req(m2.pending@[t], Kind::Semaphore, i) {
                            1int
                        } else {
                            0int
                        }) by {
                            assert(occurrences(m.sem_waiters@[i]@, t) == (if is_req(
                                m.pending@[t],
                                Kind::Semaphore,
                                i,
                            ) {
                                1int
                            } else {
                                0int
                            }));
                        }
                    }
                    assert forall|c: int| 0 <= c < m2.condvar_live@.len() implies condvar_inv(
                        m2,
                        c,
                    ) by {
                        assert(condvar_inv(m, c));
                    }
                    assert(wf(m2));
                }
                AcquireOutcome::Blocked
            },
        }
    }

    /// Unlocks mutex `mutex_id`, held by `task`: the caller's unit is
    /// released first, then the first waiter (if any) is woken, becomes the
    /// owner, and its pending request is committed.
    pub fn sys_mutex_unlock(&mut self, task: usize, mutex_id: usize) -> (r: isize)
        requires
            wf(*old(self)),
            task_runnable(*old(self), task as int),
            mutex_live(*old(self), mutex_id as int),
            alloc_of(*old(self), task as int, Kind::Mutex, mutex_id as int) >= 1,
        ensures
            wf(*final(self)),
            r == 0,
            final(self).alloc_mutex@.len() == old(self).alloc_mutex@.len(),
            final(self).alloc_mutex@[task as int]@ == old(self).alloc_mutex@[task as int]@.update(
                mutex_id as int,
                (alloc_of(*old(self), task as int, Kind::Mutex, mutex_id as int) - 1) as usize,
            ),
            old(self).mutex_waiters@[mutex_id as int]@.len() == 0 ==> final(self).mutexes@ == old(self).mutexes@.update(
                mutex_id as int,
                Option::Some(
                    (MutexMeta {
                        blocking: crate::state::mutex_blocking(*old(self), mutex_id as int),
                        owner: Option::None,
                    }),
                ),
            ) && final(self).mutex_waiters == old(self).mutex_waiters && final(self).pending
                == old(self).pending && (forall|x: int|
                0 <= x < task_count(*old(self)) && x != task ==> (#[trigger] final(self).alloc_mutex@[x]) == old(self).alloc_mutex@[x]),
            old(self).mutex_waiters@[mutex_id as int]@.len() > 0 ==> ({
                let w = old(self).mutex_waiters@[mutex_id as int]@[0] as int;
                &&& final(self).mutexes@ == old(self).mutexes@.update(
                    mutex_id as int,
                    Option::Some(
                        (MutexMeta {
                            blocking: crate::state::mutex_blocking(*old(self), mutex_id as int),
                            owner: Option::Some(old(self).mutex_waiters@[mutex_id as int]@[0]),
                        }),
                    ),
                )
                &&& final(self).mutex_waiters@.len() == old(self).mutex_waiters@.len()
                &&& final(self).mutex_waiters@[mutex_id as int]@ == old(self).mutex_waiters@[
                    mutex_id as int
                ]@.drop_first()
                &&& (forall|j: int|
                    0 <= j < old(self).mutex_waiters@.len() && j != mutex_id ==> (#[trigger] final(self).mutex_waiters@[j]) == old(self).mutex_waiters@[j])
                &&& final(self).pending@ == old(self).pending@.update(w, Option::None)
                &&& final(self).alloc_mutex@[w]@ == old(self).alloc_mutex@[w]@.update(
                    mutex_id as int,
                    (alloc_of(*old(self), w, Kind::Mutex, mutex_id as int) + 1) as usize,
                )
                &&& w != task
                &&& (forall|x: int|
                    0 <= x < task_count(*old(self)) && x != task && x != w ==> (#[trigger] final(self).alloc_mutex@[x]) == old(self).alloc_mutex@[x])
            }),
            final(self).semaphores == old(self).semaphores,
            final(self).sem_waiters == old(self).sem_waiters,
            final(self).condvar_live == old(self).condvar_live,
            final(self).condvar_waiters == old(self).condvar_waiters,
            final(self).alloc_sem == old(self).alloc_sem,
            final(self).detection_enabled == old(self).detection_enabled,
            task_count(*final(self)) == task_count(*old(self)),
    {
        let ghost m = *self;
        let ghost n = task_count(m);
        let ghost i0 = mutex_id as int;
        proof {
            assert(mutex_inv(m, i0));
            lemma_col_sum_element(m.alloc_mutex@, i0, n, task as int);
            // the caller holds a unit, so the mutex is held — by the caller
            let o = crate::state::mutex_owner(m, i0)->0;
            if o != task {
                lemma_col_sum_two_elements(m.alloc_mutex@, i0, n, o as int, task as int);
            }
            assert(crate::state::mutex_owner(m, i0) == Option::Some(task));
            assert(alloc_of(m, task as int, Kind::Mutex, i0) == 1);
        }
        let a = matrix_get(&self.alloc_mutex, task, mutex_id);
        matrix_set(&mut self.alloc_mutex, task, mutex_id, a - 1);
        let ghost m1 = *self;
        proof {
            assert(m1.alloc_mutex@ =~= m.alloc_mutex@.update(
                task as int,
                m1.alloc_mutex@[task as int],
            ));
            lemma_col_sum_update(m.alloc_mutex@, task as int, m1.alloc_mutex@[task as int], i0, n);
            assert(col_total(m1.alloc_mutex@, i0) == 0);
        }
        let meta = self.mutexes[mutex_id].unwrap();
        let qn = queue_len(&self.mutex_waiters, mutex_id);
        if qn > 0 {
            let w = queue_pop_front(&mut self.mutex_waiters, mutex_id);
            proof {
                assert(queue_elems_bounded(m.mutex_waiters@[i0]@, n));
                assert((w as int) < n);
                lemma_occurrences_member(m.mutex_waiters@[i0]@, 0);
                assert(is_req(m.pending@[w as int], Kind::Mutex, i0));
                assert(w != task);
            }
            self.pending.set(w, Option::None);
            self.mutexes.set(
                mutex_id,
                Option::Some(MutexMeta { blocking: meta.blocking, owner: Option::Some(w) }),
            );
            proof {
                lemma_col_sum_element(m1.alloc_mutex@, i0, n, w as int);
                crate::tally::lemma_col_sum_nonneg(m1.alloc_mutex@, i0, n);
                assert(alloc_of(m1, w as int, Kind::Mutex, i0) == 0);
            }
            let aw = matrix_get(&self.alloc_mutex, w, mutex_id);
            matrix_set(&mut self.alloc_mutex, w, mutex_id, aw + 1);
            proof {
                let m2 = *self;
                assert(m2.alloc_mutex@ =~= m1.alloc_mutex@.update(
                    w as int,
                    m2.alloc_mutex@[w as int],
                ));
                assert forall|t: int| 0 <= t < task_count(m2) implies (
                #[trigger] m2.alloc_mutex@[t])@.len() == m2.mutexes@.len()
                    && m2.alloc_sem@[t]@.len() == m2.semaphores@.len() by {
                    assert(m.alloc_mutex@[t]@.len() == m.mutexes@.len());
                }
                assert forall|t: int| 0 <= t < task_count(m2) implies pending_ok(m2, t) by {
                    assert(pending_ok(m, t));
                }
                assert forall|i: int| 0 <= i < m2.mutexes@.len() implies mutex_inv(m2, i) by {
                    assert(mutex_inv(m, i));
                    lemma_col_sum_update(
                        m.alloc_mutex@,
                        task as int,
                        m1.alloc_mutex@[task as int],
                        i,
                        n,
                    );
                    lemma_col_sum_update(
                        m1.alloc_mutex@,
                        w as int,
                        m2.alloc_mutex@[w as int],
                        i,
                        n,
                    );
                    assert forall|t: int| 0 <= t < n implies occurrences(
                        m2.mutex_waiters@[i]@,
                        t,
                    ) == (if is_req(m2.pending@[t], Kind::Mutex, i) {
                        1int
                    } else {
                        0int
                    }) by {
                        assert(occurrences(m.mutex_waiters@[i]@, t) == (if is_req(
                            m.pending@[t],
                            Kind::Mutex,
                            i,
                        ) {
                            1int
                        } else {
                            0int
                        }));
                        if i == i0 {
                            assert(m2.mutex_waiters@[i]@ == m.mutex_waiters@[i]@.drop_first());
                            assert(occurrences(m.mutex_waiters@[i]@, t) == (if m.mutex_waiters@[
                                i
                            ]@[0] as int == t {
                                1int
                            } else {
                                0int
                            }) + occurrences(m2.mutex_waiters@[i]@, t));
                        }
                    }
                }
                assert forall|i: int| 0 <= i < m2.semaphores@.len() implies sem_inv(m2, i) by {
                    assert(sem_inv(m, i));
                    assert forall|t: int| 0 <= t < n implies occurrences(m2.sem_waiters@[i]@, t)
                        == (if is_req(m2.pending@[t], Kind::Semaphore, i) {
                        1int
                    } else {
                        0int
                    }) by {
                        assert(occurrences(m.sem_waiters@[i]@, t) == (if is_req(
                            m.pending@[t],
                            Kind::Semaphore,
                            i,
                        ) {
                            1int
                        } else {
                            0int
                        }));
                    }
                }
                assert forall|c: int| 0 <= c < m2.condvar_live@.len() implies condvar_inv(
                    m2,
                    c,
                ) by {
                    assert(condvar_inv(m, c));
                }
                assert(wf(m2));
            }
            0
        } else {
            self.mutexes.set(
                mutex_id,
                Option::Some(MutexMeta { blocking: meta.blocking, owner: Option::None }),
            );
            proof {
                let m2 = *self;
                assert forall|t: int| 0 <= t < task_count(m2) implies (
                #[trigger] m2.alloc_mutex@[t])@.len() == m2.mutexes@.len()
                    && m2.alloc_sem@[t]@.len() == m2.semaphores@.len() by {
                    assert(m.alloc_mutex@[t]@.len() == m.mutexes@.len());
                }
                assert forall|t: int| 0 <= t < task_count(m2) implies pending_ok(m2, t) by {
                    assert(pending_ok(m, t));
                }
                assert forall|i: int| 0 <= i < m2.mutexes@.len() implies mutex_inv(m2, i) by {
                    assert(mutex_inv(m, i));
                    lemma_col_sum_update(
                        m.alloc_mutex@,
                        task as int,
                        m1.alloc_mutex@[task as int],
                        i,
                        n,
                    );
                    assert forall|t: int| 0 <= t < n implies occurrences(
                        m2.mutex_waiters@[i]@,
                        t,
                    ) == (if is_req(m2.pending@[t], Kind::Mutex, i) {
                        1int
                    } else {
                        0int
                    }) by {
                        assert(occurrences(m.mutex_waiters@[i]@, t) == (if is_req(
                            m.pending@[t],
                            Kind::Mutex,
                            i,
                        ) {
                            1int
                        } else {
                            0int
                        }));
                    }
                }
                assert forall|i: int| 0 <= i < m2.semaphores@.len() implies sem_inv(m2, i) by {
                    assert(sem_inv(m, i));
                }
                assert forall|c: int| 0 <= c < m2.condvar_live@.len() implies condvar_inv(
                    m2,
                    c,
                ) by {
                    assert(condvar_inv(m, c));
                }
                assert(wf(m2));
            }
            0
        }
    }


    /// Takes one unit of semaphore `sem_id` for `task`.  With detection
    /// enabled the request is first checked and an unsafe grant refused with
    /// the state untouched.  A free unit is granted at once; with none free
    /// the caller is suspended on the wait queue with its request recorded.
    pub fn sys_semaphore_down(&mut self, task: usize, sem_id: usize) -> (r: AcquireOutcome)
        requires
            wf(*old(self)),
            task_runnable(*old(self), task as int),
            sem_live(*old(self), sem_id as int),
        ensures
            wf(*final(self)),
            (r is Refused) <==> (old(self).detection_enabled && !safe_after_request(
                *old(self),
                task as int,
                (Request { kind: Kind::Semaphore, id: sem_id, amount: 1 }),
            )),
            r is Refused ==> *final(self) == *old(self),
            !(r is Refused) ==> ((r is Granted) <==> crate::state::sem_available(
                *old(self),
                sem_id as int,
            ) > 0),
            r is Granted ==> final(self).semaphores@.len() == old(self).semaphores@.len()
                && sem_live(*final(self), sem_id as int) && crate::state::sem_available(
                *final(self),
                sem_id as int,
            ) == crate::state::sem_available(*old(self), sem_id as int) - 1
                && crate::state::sem_capacity(*final(self), sem_id as int)
                == crate::state::sem_capacity(*old(self), sem_id as int) && (forall|j: int|
                0 <= j < old(self).semaphores@.len() && j != sem_id ==> (#[trigger] final(self).semaphores@[j]) == old(self).semaphores@[j]) && final(self).alloc_sem@.len()
                == old(self).alloc_sem@.len() && final(self).alloc_sem@[task as int]@ == old(self).alloc_sem@[task as int]@.update(
                sem_id as int,
                (alloc_of(*old(self), task as int, Kind::Semaphore, sem_id as int) + 1) as usize,
            ) && (forall|x: int|
                0 <= x < task_count(*old(self)) && x != task ==> (#[trigger] final(self).alloc_sem@[x]) == old(self).alloc_sem@[x]) && final(self).pending == old(self).pending && final(self).sem_waiters == old(self).sem_waiters,
            r is Blocked ==> final(self).pending@ == old(self).pending@.update(
                task as int,
                Option::Some((Request { kind: Kind::Semaphore, id: sem_id, amount: 1 })),
            ) && final(self).sem_waiters@.len() == old(self).sem_waiters@.len() && final(self).sem_waiters@[sem_id as int]@ == old(self).sem_waiters@[sem_id as int]@.push(task)
                && (forall|j: int|
                0 <= j < old(self).sem_waiters@.len() && j != sem_id ==> (#[trigger] final(self).sem_waiters@[j]) == old(self).sem_waiters@[j]) && final(self).semaphores == old(self).semaphores && final(self).alloc_sem == old(self).alloc_sem,
            final(self).mutexes == old(self).mutexes,
            final(self).mutex_waiters == old(self).mutex_waiters,
            final(self).condvar_live == old(self).condvar_live,
            final(self).condvar_waiters == old(self).condvar_waiters,
            final(self).alloc_mutex == old(self).alloc_mutex,
            final(self).detection_enabled == old(self).detection_enabled,
            task_count(*final(self)) == task_count(*old(self)),
    {
        let rq = Request { kind: Kind::Semaphore, id: sem_id, amount: 1 };
        if self.detection_enabled {
            if self.detect_will_deadlock(task, rq) {
                return AcquireOutcome::Refused;
            }
        }
        let ghost m = *self;
        let ghost n = task_count(m);
        let ghost i0 = sem_id as int;
        let meta = self.semaphores[sem_id].unwrap();
        if meta.available > 0 {
            proof {
                assert(sem_inv(m, i0));
                assert(m.alloc_mutex@[task as int]@.len() == m.mutexes@.len());
                lemma_col_sum_element(m.alloc_sem@, i0, n, task as int);
                crate::tally::lemma_col_sum_nonneg(m.alloc_sem@, i0, n);
            }
            self.semaphores.set(
                sem_id,
                Option::Some(
                    SemMeta { capacity: meta.capacity, available: meta.available - 1 },
                ),
            );
            let a = matrix_get(&self.alloc_sem, task, sem_id);
            matrix_set(&mut self.alloc_sem, task, sem_id, a + 1);
            proof {
                let m2 = *self;
                assert forall|t: int| 0 <= t < task_count(m2) implies (
                #[trigger] m2.alloc_mutex@[t])@.len() == m2.mutexes@.len()
                    && m2.alloc_sem@[t]@.len() == m2.semaphores@.len() by {
                    assert(m.alloc_mutex@[t]@.len() == m.mutexes@.len());
                }
                assert forall|t: int| 0 <= t < task_count(m2) implies pending_ok(m2, t) by {
                    assert(pending_ok(m, t));
                }
                assert(m2.alloc_sem@ =~= m.alloc_sem@.update(
                    task as int,
                    m2.alloc_sem@[task as int],
                ));
                assert forall|i: int| 0 <= i < m2.semaphores@.len() implies sem_inv(m2, i) by {
                    assert(sem_inv(m, i));
                    lemma_col_sum_update(
                        m.alloc_sem@,
                        task as int,
                        m2.alloc_sem@[task as int],
                        i,
                        n,
                    );
                    assert forall|t: int| 0 <= t < n implies occurrences(m2.sem_waiters@[i]@, t)
                        == (if is_req(m2.pending@[t], Kind::Semaphore, i) {
                        1int
                    } else {
                        0int
                    }) by {
                        assert(occurrences(m.sem_waiters@[i]@, t) == (if is_req(
                            m.pending@[t],
                            Kind::Semaphore,
                            i,
                        ) {
                            1int
                        } else {
                            0int
                        }));
                    }
                }
                assert forall|i: int| 0 <= i < m2.mutexes@.len() implies mutex_inv(m2, i) by {
                    assert(mutex_inv(m, i));
                }
                assert forall|c: int| 0 <= c < m2.condvar_live@.len() implies condvar_inv(
                    m2,
                    c,
                ) by {
                    assert(condvar_inv(m, c));
                }
                assert(wf(m2));
            }
            AcquireOutcome::Granted
        } else {
            self.pending.set(task, Option::Some(rq));
            queue_push(&mut self.sem_waiters, sem_id, task);
            proof {
                let m2 = *self;
                assert forall|t: int| 0 <= t < task_count(m2) implies (
                #[trigger] m2.alloc_mutex@[t])@.len() == m2.mutexes@.len()
                    && m2.alloc_sem@[t]@.len() == m2.semaphores@.len() by {
                    assert(m.alloc_mutex@[t]@.len() == m.mutexes@.len());
                }
                assert forall|t: int| 0 <= t < task_count(m2) implies pending_ok(m2, t) by {
                    assert(pending_ok(m, t));
                }
                assert forall|i: int| 0 <= i < m2.semaphores@.len() implies sem_inv(m2, i) by {
                    assert(sem_inv(m, i));
                    assert forall|t: int| 0 <= t < n implies occurrences(m2.sem_waiters@[i]@, t)
                        == (if is_req(m2.pending@[t], Kind::Semaphore, i) {
                        1int
                    } else {
                        0int
                    }) by {
                        assert(occurrences(m.sem_waiters@[i]@, t) == (if is_req(
                            m.pending@[t],
                            Kind::Semaphore,
                            i,
                        ) {
                            1int
                        } else {
                            0int
                        }));
                        if i == i0 {
                            lemma_occurrences_push(m.sem_waiters@[i]@, task, t);
                        }
                    }
                }
                assert forall|i: int| 0 <= i < m2.mutexes@.len() implies mutex_inv(m2, i) by {
                    assert(mutex_inv(m, i));
                    assert forall|t: int| 0 <= t < n implies occurrences(
                        m2.mutex_waiters@[i]@,
                        t,
                    ) == (if is_req(m2.pending@[t], Kind::Mutex, i) {
                        1int
                    } else {
                        0int
                    }) by {
                        assert(occurrences(m.mutex_waiters@[i]@, t) == (if is_req(
                            m.pending@[t],
                            Kind::Mutex,
                            i,
                        ) {
                            1int
                        } else {
                            0int
                        }));
                    }
                }
                assert forall|c: int| 0 <= c < m2.condvar_live@.len() implies condvar_inv(
                    m2,
                    c,
                ) by {
                    assert(condvar_inv(m, c));
                }
                assert(wf(m2));
            }
            AcquireOutcome::Blocked
        }
    }

    /// Returns one unit of semaphore `sem_id` held by `task`: the caller's
    /// unit is released first, then the first waiter (if any) is woken and
    /// its pending request committed; with no waiter the free count grows.
    pub fn sys_semaphore_up(&mut self, task: usize, sem_id: usize) -> (r: isize)
        requires
            wf(*old(self)),
            task_runnable(*old(self), task as int),
            sem_live(*old(self), sem_id as int),
            alloc_of(*old(self), task as int, Kind::Semaphore, sem_id as int) >= 1,
        ensures
            wf(*final(self)),
            r == 0,
            final(self).alloc_sem@.len() == old(self).alloc_sem@.len(),
            final(self).alloc_sem@[task as int]@ == old(self).alloc_sem@[task as int]@.update(
                sem_id as int,
                (alloc_of(*old(self), task as int, Kind::Semaphore, sem_id as int) - 1) as usize,
            ),
            final(self).semaphores@.len() == old(self).semaphores@.len(),
            sem_live(*final(self), sem_id as int),
            crate::state::sem_capacity(*final(self), sem_id as int) == crate::state::sem_capacity(
                *old(self),
                sem_id as int,
            ),
            forall|j: int|
                0 <= j < old(self).semaphores@.len() && j != sem_id ==> (#[trigger] final(self).semaphores@[j]) == old(self).semaphores@[j],
            old(self).sem_waiters@[sem_id as int]@.len() == 0 ==> crate::state::sem_available(
                *final(self),
                sem_id as int,
            ) == crate::state::sem_available(*old(self), sem_id as int) + 1 && final(self).sem_waiters == old(self).sem_waiters && final(self).pending == old(self).pending && (
            forall|x: int|
                0 <= x < task_count(*old(self)) && x != task ==> (#[trigger] final(self).alloc_sem@[x]) == old(self).alloc_sem@[x]),
            old(self).sem_waiters@[sem_id as int]@.len() > 0 ==> ({
                let w = old(self).sem_waiters@[sem_id as int]@[0] as int;
                &&& crate::state::sem_available(*final(self), sem_id as int)
                    == crate::state::sem_available(*old(self), sem_id as int)
                &&& final(self).sem_waiters@.len() == old(self).sem_waiters@.len()
                &&& final(self).sem_waiters@[sem_id as int]@ == old(self).sem_waiters@[
                    sem_id as int
                ]@.drop_first()
                &&& (forall|j: int|
                    0 <= j < old(self).sem_waiters@.len() && j != sem_id ==> (#[trigger] final(self).sem_waiters@[j]) == old(self).sem_waiters@[j])
                &&& final(self).pending@ == old(self).pending@.update(w, Option::None)
                &&& final(self).alloc_sem@[w]@ == old(self).alloc_sem@[w]@.update(
                    sem_id as int,
                    (alloc_of(*old(self), w, Kind::Semaphore, sem_id as int) + 1) as usize,
                )
                &&& w != task
                &&& (forall|x: int|
                    0 <= x < task_count(*old(self)) && x != task && x != w ==> (#[trigger] final(self).alloc_sem@[x]) == old(self).alloc_sem@[x])
            }),
            final(self).mutexes == old(self).mutexes,
            final(self).mutex_waiters == old(self).mutex_waiters,
            final(self).condvar_live == old(self).condvar_live,
            final(self).condvar_waiters == old(self).condvar_waiters,
            final(self).alloc_mutex == old(self).alloc_mutex,
            final(self).detection_enabled == old(self).detection_enabled,
            task_count(*final(self)) == task_count(*old(self)),
    {
        let ghost m = *self;
        let ghost n = task_count(m);
        let ghost i0 = sem_id as int;
        proof {
            assert(sem_inv(m, i0));
            assert(m.alloc_mutex@[task as int]@.len() == m.mutexes@.len());
            lemma_col_sum_element(m.alloc_sem@, i0, n, task as int);
        }
        let a = matrix_get(&self.alloc_sem, task, sem_id);
        matrix_set(&mut self.alloc_sem, task, sem_id, a - 1);
        let ghost m1 = *self;
        proof {
            assert(m1.alloc_sem@ =~= m.alloc_sem@.update(task as int, m1.alloc_sem@[task as int]));
            lemma_col_sum_update(m.alloc_sem@, task as int, m1.alloc_sem@[task as int], i0, n);
        }
        let meta = self.semaphores[sem_id].unwrap();
        let qn = queue_len(&self.sem_waiters, sem_id);
        if qn > 0 {
            let w = queue_pop_front(&mut self.sem_waiters, sem_id);
            proof {
                assert(queue_elems_bounded(m.sem_waiters@[i0]@, n));
                assert((w as int) < n);
                lemma_occurrences_member(m.sem_waiters@[i0]@, 0);
                assert(is_req(m.pending@[w as int], Kind::Semaphore, i0));
                assert(w != task);
                lemma_col_sum_two_elements(m.alloc_sem@, i0, n, task as int, w as int);
                lemma_col_sum_element(m1.alloc_sem@, i0, n, w as int);
                assert(m.alloc_mutex@[w as int]@.len() == m.mutexes@.len());
            }
            self.pending.set(w, Option::None);
            let aw = matrix_get(&self.alloc_sem, w, sem_id);
            matrix_set(&mut self.alloc_sem, w, sem_id, aw + 1);
            proof {
                let m2 = *self;
                assert(m2.alloc_sem@ =~= m1.alloc_sem@.update(w as int, m2.alloc_sem@[w as int]));
                assert forall|t: int| 0 <= t < task_count(m2) implies (
                #[trigger] m2.alloc_mutex@[t])@.len() == m2.mutexes@.len()
                    && m2.alloc_sem@[t]@.len() == m2.semaphores@.len() by {
                    assert(m.alloc_mutex@[t]@.len() == m.mutexes@.len());
                }
                assert forall|t: int| 0 <= t < task_count(m2) implies pending_ok(m2, t) by {
                    assert(pending_ok(m, t));
                }
                assert forall|i: int| 0 <= i < m2.semaphores@.len() implies sem_inv(m2, i) by {
                    assert(sem_inv(m, i));
                    lemma_col_sum_update(
                        m.alloc_sem@,
                        task as int,
                        m1.alloc_sem@[task as int],
                        i,
                        n,
                    );
                    lemma_col_sum_update(m1.alloc_sem@, w as int, m2.alloc_sem@[w as int], i, n);
                    assert forall|t: int| 0 <= t < n implies occurrences(m2.sem_waiters@[i]@, t)
                        == (if is_req(m2.pending@[t], Kind::Semaphore, i) {
                        1int
                    } else {
                        0int
                    }) by {
                        assert(occurrences(m.sem_waiters@[i]@, t) == (if is_req(
                            m.pending@[t],
                            Kind::Semaphore,
                            i,
                        ) {
                            1int
                        } else {
                            0int
                        }));
                        if i == i0 {
                            assert(m2.sem_waiters@[i]@ == m.sem_waiters@[i]@.drop_first());
                            assert(occurrences(m.sem_waiters@[i]@, t) == (if m.sem_waiters@[i]@[
                                0
                            ] as int == t {
                                1int
                            } else {
                                0int
                            }) + occurrences(m2.sem_waiters@[i]@, t));
                        }
                    }
                }
                assert forall|i: int| 0 <= i < m2.mutexes@.len() implies mutex_inv(m2, i) by {
                    assert(mutex_inv(m, i));
                    assert forall|t: int| 0 <= t < n implies occurrences(
                        m2.mutex_waiters@[i]@,
                        t,
                    ) == (if is_req(m2.pending@[t], Kind::Mutex, i) {
                        1int
                    } else {
                        0int
                    }) by {
                        assert(occurrences(m.mutex_waiters@[i]@, t) == (if is_req(
                            m.pending@[t],
                            Kind::Mutex,
                            i,
                        ) {
                            1int
                        } else {
                            0int
                        }));
                    }
                }
                assert forall|c: int| 0 <= c < m2.condvar_live@.len() implies condvar_inv(
                    m2,
                    c,
                ) by {
                    assert(condvar_inv(m, c));
                }
                assert(wf(m2));
            }
            0
        } else {
            proof {
                crate::tally::lemma_col_sum_nonneg(m1.alloc_sem@, i0, n);
            }
            self.semaphores.set(
                sem_id,
                Option::Some(
                    SemMeta { capacity: meta.capacity, available: meta.available + 1 },
                ),
            );
            proof {
                let m2 = *self;
                assert forall|t: int| 0 <= t < task_count(m2) implies (
                #[trigger] m2.alloc_mutex@[t])@.len() == m2.mutexes@.len()
                    && m2.alloc_sem@[t]@.len() == m2.semaphores@.len() by {
                    assert(m.alloc_mutex@[t]@.len() == m.mutexes@.len());
                }
                assert forall|t: int| 0 <= t < task_count(m2) implies pending_ok(m2, t) by {
                    assert(pending_ok(m, t));
                }
                assert forall|i: int| 0 <= i < m2.semaphores@.len() implies sem_inv(m2, i) by {
                    assert(sem_inv(m, i));
                    lemma_col_sum_update(
                        m.alloc_sem@,
                        task as int,
                        m1.alloc_sem@[task as int],
                        i,
                        n,
                    );
                    assert forall|t: int| 0 <= t < n implies occurrences(m2.sem_waiters@[i]@, t)
                        == (if is_req(m2.pending@[t], Kind::Semaphore, i) {
                        1int
                    } else {
                        0int
                    }) by {
                        assert(occurrences(m.sem_waiters@[i]@, t) == (if is_req(
                            m.pending@[t],
                            Kind::Semaphore,
                            i,
                        ) {
                            1int
                        } else {
                            0int
                        }));
                    }
                }
                assert forall|i: int| 0 <= i < m2.mutexes@.len() implies mutex_inv(m2, i) by {
                    assert(mutex_inv(m, i));
                }
                assert forall|c: int| 0 <= c < m2.condvar_live@.len() implies condvar_inv(
                    m2,
                    c,
                ) by {
                    assert(condvar_inv(m, c));
                }
                assert(wf(m2));
            }
            0
        }
    }


    /// Wakes at most one waiter of condition variable `condvar_id`: the
    /// first task of its queue, if any, is released from the queue.
    pub fn sys_condvar_signal(&mut self, condvar_id: usize) -> (r: isize)
        requires
            wf(*old(self)),
            condvar_live_at(*old(self), condvar_id as int),
        ensures
            wf(*final(self)),
            r == 0,
            old(self).condvar_waiters@[condvar_id as int]@.len() == 0 ==> *final(self) == *old(self),
            old(self).condvar_waiters@[condvar_id as int]@.len() > 0 ==> final(self).condvar_waiters@.len() == old(self).condvar_waiters@.len() && final(self).condvar_waiters@[condvar_id as int]@ == old(self).condvar_waiters@[
                condvar_id as int
            ]@.drop_first() && (forall|j: int|
                0 <= j < old(self).condvar_waiters@.len() && j != condvar_id ==> (#[trigger] final(self).condvar_waiters@[j]) == old(self).condvar_waiters@[j]) && final(self).mutexes
                == old(self).mutexes && final(self).mutex_waiters == old(self).mutex_waiters
                && final(self).semaphores == old(self).semaphores && final(self).sem_waiters
                == old(self).sem_waiters && final(self).condvar_live == old(self).condvar_live
                && final(self).alloc_mutex == old(self).alloc_mutex && final(self).alloc_sem
                == old(self).alloc_sem && final(self).pending == old(self).pending && final(self).detection_enabled == old(self).detection_enabled,
    {
        let ghost m = *self;
        let qn = queue_len(&self.condvar_waiters, condvar_id);
        if qn > 0 {
            let _w = queue_pop_front(&mut self.condvar_waiters, condvar_id);
            proof {
                let m2 = *self;
                let c0 = condvar_id as int;
                assert forall|t: int| 0 <= t < task_count(m2) implies (
                #[trigger] m2.alloc_mutex@[t])@.len() == m2.mutexes@.len()
                    && m2.alloc_sem@[t]@.len() == m2.semaphores@.len() by {
                    assert(m.alloc_mutex@[t]@.len() == m.mutexes@.len());
                }
                assert forall|t: int| 0 <= t < task_count(m2) implies pending_ok(m2, t) by {
                    assert(pending_ok(m, t));
                }
                assert forall|i: int| 0 <= i < m2.mutexes@.len() implies mutex_inv(m2, i) by {
                    assert(mutex_inv(m, i));
                }
                assert forall|i: int| 0 <= i < m2.semaphores@.len() implies sem_inv(m2, i) by {
                    assert(sem_inv(m, i));
                }
                assert forall|c: int| 0 <= c < m2.condvar_live@.len() implies condvar_inv(
                    m2,
                    c,
                ) by {
                    assert(condvar_inv(m, c));
                    if c == c0 {
                        assert(m2.condvar_waiters@[c]@ == m.condvar_waiters@[c]@.drop_first());
                        assert forall|k: int| 0 <= k < m2.condvar_waiters@[c]@.len() implies (
                        #[trigger] m2.condvar_waiters@[c]@[k]) < task_count(m2) by {
                            assert(m.condvar_waiters@[c]@[k + 1] < task_count(m));
                        }
                    }
                }
                assert(wf(m2));
            }
        }
        0
    }

    /// Suspends `task` on condition variable `condvar_id` until a signal.
    /// The release and reacquisition of `mutex_id` around the suspension is
    /// the blocking primitive's combined atomic step; condition variables
    /// take no part in deadlock accounting, so the caller's hold on the
    /// mutex stays recorded throughout.
    pub fn sys_condvar_wait(&mut self, task: usize, condvar_id: usize, mutex_id: usize) -> (r:
        isize)
        requires
            wf(*old(self)),
            task_runnable(*old(self), task as int),
            condvar_live_at(*old(self), condvar_id as int),
            mutex_live(*old(self), mutex_id as int),
        ensures
            wf(*final(self)),
            r == 0,
            final(self).condvar_waiters@.len() == old(self).condvar_waiters@.len(),
            final(self).condvar_waiters@[condvar_id as int]@ == old(self).condvar_waiters@[
                condvar_id as int
            ]@.push(task),
            forall|j: int|
                0 <= j < old(self).condvar_waiters@.len() && j != condvar_id ==> (#[trigger] final(self).condvar_waiters@[j]) == old(self).condvar_waiters@[j],
            final(self).mutexes == old(self).mutexes,
            final(self).mutex_waiters == old(self).mutex_waiters,
            final(self).semaphores == old(self).semaphores,
            final(self).sem_waiters == old(self).sem_waiters,
            final(self).condvar_live == old(self).condvar_live,
            final(self).alloc_mutex == old(self).alloc_mutex,
            final(self).alloc_sem == old(self).alloc_sem,
            final(self).pending == old(self).pending,
            final(self).detection_enabled == old(self).detection_enabled,
    {
        let ghost m = *self;
        queue_push(&mut self.condvar_waiters, condvar_id, task);
        proof {
            let m2 = *self;
            let c0 = condvar_id as int;
            assert forall|t: int| 0 <= t < task_count(m2) implies (#[trigger] m2.alloc_mutex@[
                t
            ])@.len() == m2.mutexes@.len() && m2.alloc_sem@[t]@.len() == m2.semaphores@.len() by {
                assert(m.alloc_mutex@[t]@.len() == m.mutexes@.len());
            }
            assert forall|t: int| 0 <= t < task_count(m2) implies pending_ok(m2, t) by {
                assert(pending_ok(m, t));
            }
            assert forall|i: int| 0 <= i < m2.mutexes@.len() implies mutex_inv(m2, i) by {
                assert(mutex_inv(m, i));
            }
            assert forall|i: int| 0 <= i < m2.semaphores@.len() implies sem_inv(m2, i) by {
                assert(sem_inv(m, i));
            }
            assert forall|c: int| 0 <= c < m2.condvar_live@.len() implies condvar_inv(m2, c) by {
                assert(condvar_inv(m, c));
                if c == c0 {
                    assert(m2.condvar_waiters@[c]@ == m.condvar_waiters@[c]@.push(task));
                    assert forall|k: int| 0 <= k < m2.condvar_waiters@[c]@.len() implies (
                    #[trigger] m2.condvar_waiters@[c]@[k]) < task_count(m2) by {
                        if k < m.condvar_waiters@[c]@.len() {
                            assert(m.condvar_waiters@[c]@[k] < task_count(m));
                        }
                    }
                }
            }
            assert(wf(m2));
        }
        0
    }

    /// The sleep operation registers a timer and suspends the caller; it
    /// touches no resource bookkeeping and reports plain success.
    pub fn sys_sleep(&self, _ms: usize) -> (r: isize)
        ensures
            r == 0,
    {
        0
    }

    /// Turns proactive deadlock detection on (`1`) or off (`0`); any other
    /// control value is an invalid argument and changes nothing.
    pub fn sys_enable_deadlock_detect(&mut self, enabled: usize) -> (r: isize)
        requires
            wf(*old(self)),
        ensures
            wf(*final(self)),
            enabled == 0 ==> r == 0 && *final(self) == with_detection(*old(self), false),
            enabled == 1 ==> r == 0 && *final(self) == with_detection(*old(self), true),
            enabled > 1 ==> r == -1 && *final(self) == *old(self),
    {
        let ghost m = *self;
        if enabled == 0 {
            self.detection_enabled = false;
            proof {
                lemma_wf_detection_irrelevant(m, false);
            }
            0
        } else if enabled == 1 {
            self.detection_enabled = true;
            proof {
                lemma_wf_detection_irrelevant(m, true);
            }
            0
        } else {
            -1
        }
    }
}

} // verus!
