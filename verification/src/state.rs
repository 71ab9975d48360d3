//! The data model: synchronization object kinds, slot tables, per-task
//! allocation matrices and pending requests, and the well-formedness
//! invariant that every operation of the manager preserves.

use vstd::prelude::*;
use crate::tally::{col_total, occurrences};
use crate::tally::lemma_col_sum_element;

verus! {

/// The two kinds of synchronization object that take part in deadlock
/// accounting.  Condition variables are managed by the same slot mechanism
/// but hold no resource units.
#[derive(Clone, Copy, PartialEq, Eq, Structural, Debug)]
pub enum Kind {
    Mutex,
    Semaphore,
}

/// One outstanding acquisition: the resource asked for and how many units.
#[derive(Clone, Copy, PartialEq, Eq, Structural, Debug)]
pub struct Request {
    pub kind: Kind,
    pub id: usize,
    pub amount: usize,
}

/// A live mutex slot: its blocking/spinning variant and the task holding it.
#[derive(Clone, Copy, Debug)]
pub struct MutexMeta {
    pub blocking: bool,
    pub owner: Option<usize>,
}

/// A live semaphore slot: its creation-time capacity and the free units.
#[derive(Clone, Copy, Debug)]
pub struct SemMeta {
    pub capacity: usize,
    pub available: usize,
}

/// How an acquire-type operation ended for the caller.
#[derive(Clone, Copy, PartialEq, Eq, Structural, Debug)]
pub enum AcquireOutcome {
    /// The resource was free and is now held by the caller.
    Granted,
    /// Deadlock detection predicted an unsafe state; nothing changed.
    Refused,
    /// The caller joined the wait queue and is suspended until a release.
    Blocked,
}

/// Per-process manager state: slot tables, wait queues, per-task allocation
/// matrices (`[task][object id]`), pending requests, and the detection flag.
pub struct SyncManager {
    pub mutexes: Vec<Option<MutexMeta>>,
    pub mutex_waiters: Vec<Vec<usize>>,
    pub semaphores: Vec<Option<SemMeta>>,
    pub sem_waiters: Vec<Vec<usize>>,
    pub condvar_live: Vec<bool>,
    pub condvar_waiters: Vec<Vec<usize>>,
    pub alloc_mutex: Vec<Vec<usize>>,
    pub alloc_sem: Vec<Vec<usize>>,
    pub pending: Vec<Option<Request>>,
    pub detection_enabled: bool,
}

pub open spec fn task_count(m: SyncManager) -> int {
    m.pending@.len() as int
}

pub open spec fn mutex_live(m: SyncManager, i: int) -> bool {
    0 <= i < m.mutexes@.len() && m.mutexes@[i] is Some
}

pub open spec fn sem_live(m: SyncManager, i: int) -> bool {
    0 <= i < m.semaphores@.len() && m.semaphores@[i] is Some
}

pub open spec fn condvar_live_at(m: SyncManager, c: int) -> bool {
    0 <= c < m.condvar_live@.len() && m.condvar_live@[c]
}

/// Does `p` ask for exactly one unit of resource `i` of kind `k`?
pub open spec fn is_req(p: Option<Request>, k: Kind, i: int) -> bool {
    match p {
        Option::Some(r) => r.kind == k && r.id == i && r.amount == 1,
        Option::None => false,
    }
}

/// The rows of the allocation matrix of kind `k`.
pub open spec fn alloc_rows(m: SyncManager, k: Kind) -> Seq<Vec<usize>> {
    match k {
        Kind::Mutex => m.alloc_mutex@,
        Kind::Semaphore => m.alloc_sem@,
    }
}

/// How many ids the slot table of kind `k` has.
pub open spec fn kind_width(m: SyncManager, k: Kind) -> int {
    match k {
        Kind::Mutex => m.mutexes@.len() as int,
        Kind::Semaphore => m.semaphores@.len() as int,
    }
}

/// Total units of resource `i` of kind `k`: 1 for a live mutex, the creation
/// count for a live semaphore, 0 for a freed slot.
pub open spec fn kind_capacity(m: SyncManager, k: Kind, i: int) -> int {
    match k {
        Kind::Mutex => match m.mutexes@[i] {
            Option::Some(_) => 1,
            Option::None => 0,
        },
        Kind::Semaphore => match m.semaphores@[i] {
            Option::Some(s) => s.capacity as int,
            Option::None => 0,
        },
    }
}

/// Units of resource `i` of kind `k` held by task `t`.
pub open spec fn alloc_of(m: SyncManager, t: int, k: Kind, i: int) -> int {
    alloc_rows(m, k)[t]@[i] as int
}

/// Units of resource `i` of kind `k` held over all tasks.
pub open spec fn total_allocated(m: SyncManager, k: Kind, i: int) -> int {
    col_total(alloc_rows(m, k), i)
}

/// Currently free units of resource `i` of kind `k`.
pub open spec fn free_units(m: SyncManager, k: Kind, i: int) -> int {
    kind_capacity(m, k, i) - total_allocated(m, k, i)
}

/// The task holding mutex `i`, if the slot is live and held.
pub open spec fn mutex_owner(m: SyncManager, i: int) -> Option<usize> {
    match m.mutexes@[i] {
        Option::Some(meta) => meta.owner,
        Option::None => Option::None,
    }
}

/// The blocking/spinning variant mutex `i` was created with.
pub open spec fn mutex_blocking(m: SyncManager, i: int) -> bool {
    match m.mutexes@[i] {
        Option::Some(meta) => meta.blocking,
        Option::None => false,
    }
}

/// The free units of semaphore `i` (0 for a freed slot).
pub open spec fn sem_available(m: SyncManager, i: int) -> int {
    match m.semaphores@[i] {
        Option::Some(meta) => meta.available as int,
        Option::None => 0,
    }
}

/// The creation-time capacity of semaphore `i` (0 for a freed slot).
pub open spec fn sem_capacity(m: SyncManager, i: int) -> int {
    match m.semaphores@[i] {
        Option::Some(meta) => meta.capacity as int,
        Option::None => 0,
    }
}

/// The wait queue of resource `i` of kind `k`.
pub open spec fn waiter_queue(m: SyncManager, k: Kind, i: int) -> Seq<usize> {
    match k {
        Kind::Mutex => m.mutex_waiters@[i]@,
        Kind::Semaphore => m.sem_waiters@[i]@,
    }
}

pub open spec fn queue_elems_bounded(q: Seq<usize>, n: int) -> bool {
    forall|k: int| 0 <= k < q.len() ==> (#[trigger] q[k]) < n
}

/// A pending request, if any, names one unit of a live object.
pub open spec fn pending_ok(m: SyncManager, t: int) -> bool {
    match m.pending@[t] {
        Option::Some(r) => r.amount == 1 && match r.kind {
            Kind::Mutex => mutex_live(m, r.id as int),
            Kind::Semaphore => sem_live(m, r.id as int),
        },
        Option::None => true,
    }
}

/// All tables agree on the number of tasks and of slots.
pub open spec fn dims_ok(m: SyncManager) -> bool {
    &&& m.mutex_waiters@.len() == m.mutexes@.len()
    &&& m.sem_waiters@.len() == m.semaphores@.len()
    &&& m.condvar_waiters@.len() == m.condvar_live@.len()
    &&& m.alloc_mutex@.len() == task_count(m)
    &&& m.alloc_sem@.len() == task_count(m)
    &&& forall|t: int|
        0 <= t < task_count(m) ==> (#[trigger] m.alloc_mutex@[t])@.len() == m.mutexes@.len()
            && m.alloc_sem@[t]@.len() == m.semaphores@.len()
}

/// The invariant of mutex slot `i`: the column total matches the owner flag,
/// the owner holds exactly one unit, a free mutex has no waiter, and a task
/// stands in the queue exactly when its pending request names this mutex.
pub open spec fn mutex_inv(m: SyncManager, i: int) -> bool {
    &&& match m.mutexes@[i] {
        Option::Some(meta) => {
            &&& total_allocated(m, Kind::Mutex, i) == (if meta.owner is Some {
                1int
            } else {
                0int
            })
            &&& (meta.owner matches Option::Some(o) ==> 0 <= o < task_count(m)
                && m.alloc_mutex@[o as int]@[i] == 1)
            &&& (meta.owner is None ==> m.mutex_waiters@[i]@.len() == 0)
        },
        Option::None => {
            &&& total_allocated(m, Kind::Mutex, i) == 0
            &&& m.mutex_waiters@[i]@.len() == 0
        },
    }
    &&& queue_elems_bounded(m.mutex_waiters@[i]@, task_count(m))
    &&& forall|t: int|
        0 <= t < task_count(m) ==> #[trigger] occurrences(m.mutex_waiters@[i]@, t) == (if is_req(
            m.pending@[t],
            Kind::Mutex,
            i,
        ) {
            1int
        } else {
            0int
        })
}

/// The invariant of semaphore slot `i`: free units plus allocated units give
/// the capacity, waiters exist only when nothing is free, and queue
/// membership matches the pending requests.
pub open spec fn sem_inv(m: SyncManager, i: int) -> bool {
    &&& match m.semaphores@[i] {
        Option::Some(meta) => {
            &&& meta.available + total_allocated(m, Kind::Semaphore, i) == meta.capacity
            &&& (meta.available > 0 ==> m.sem_waiters@[i]@.len() == 0)
        },
        Option::None => {
            &&& total_allocated(m, Kind::Semaphore, i) == 0
            &&& m.sem_waiters@[i]@.len() == 0
        },
    }
    &&& queue_elems_bounded(m.sem_waiters@[i]@, task_count(m))
    &&& forall|t: int|
        0 <= t < task_count(m) ==> #[trigger] occurrences(m.sem_waiters@[i]@, t) == (if is_req(
            m.pending@[t],
            Kind::Semaphore,
            i,
        ) {
            1int
        } else {
            0int
        })
}

/// The invariant of condition-variable slot `c`.
pub open spec fn condvar_inv(m: SyncManager, c: int) -> bool {
    &&& queue_elems_bounded(m.condvar_waiters@[c]@, task_count(m))
    &&& (!m.condvar_live@[c] ==> m.condvar_waiters@[c]@.len() == 0)
}

/// Is task `t` suspended on some condition variable?
pub open spec fn condvar_waiting(m: SyncManager, t: int) -> bool {
    exists|c: int|
        0 <= c < m.condvar_waiters@.len() && occurrences(#[trigger] m.condvar_waiters@[c]@, t) >= 1
}

/// Task `t` exists and is running: it has no request in flight and is not
/// suspended on a condition variable, so it may enter the manager.
pub open spec fn task_runnable(m: SyncManager, t: int) -> bool {
    &&& 0 <= t < task_count(m)
    &&& m.pending@[t] is None
    &&& !condvar_waiting(m, t)
}

/// Well-formedness of the whole manager state.
pub open spec fn wf(m: SyncManager) -> bool {
    &&& dims_ok(m)
    &&& forall|t: int| 0 <= t < task_count(m) ==> #[trigger] pending_ok(m, t)
    &&& forall|i: int| 0 <= i < m.mutexes@.len() ==> #[trigger] mutex_inv(m, i)
    &&& forall|i: int| 0 <= i < m.semaphores@.len() ==> #[trigger] sem_inv(m, i)
    &&& forall|c: int| 0 <= c < m.condvar_live@.len() ==> #[trigger] condvar_inv(m, c)
}

/// Capacity bound: in a well-formed state no resource is over-allocated —
/// the allocations of all tasks together never exceed the capacity.
pub proof fn lemma_capacity_bound(m: SyncManager, k: Kind, i: int)
    requires
        wf(m),
        0 <= i < kind_width(m, k),
    ensures
        total_allocated(m, k, i) <= kind_capacity(m, k, i),
        total_allocated(m, k, i) >= 0,
{
    crate::tally::lemma_col_sum_nonneg(alloc_rows(m, k), i, alloc_rows(m, k).len() as int);
    match k {
        Kind::Mutex => {
            assert(mutex_inv(m, i));
        },
        Kind::Semaphore => {
            assert(sem_inv(m, i));
        },
    }
}

/// Single outstanding request: a task found in two wait queues is in the
/// same queue twice over — the queues are determined by the one pending
/// request, which the state holds as a single optional record per task.
pub proof fn lemma_single_wait_queue(
    m: SyncManager,
    t: int,
    k1: Kind,
    i1: int,
    k2: Kind,
    i2: int,
)
    requires
        wf(m),
        0 <= t < task_count(m),
        0 <= i1 < kind_width(m, k1),
        0 <= i2 < kind_width(m, k2),
        occurrences(waiter_queue(m, k1, i1), t) >= 1,
        occurrences(waiter_queue(m, k2, i2), t) >= 1,
    ensures
        k1 == k2,
        i1 == i2,
        occurrences(waiter_queue(m, k1, i1), t) == 1,
        is_req(m.pending@[t], k1, i1),
{
    match k1 {
        Kind::Mutex => {
            assert(mutex_inv(m, i1));
        },
        Kind::Semaphore => {
            assert(sem_inv(m, i1));
        },
    }
    match k2 {
        Kind::Mutex => {
            assert(mutex_inv(m, i2));
        },
        Kind::Semaphore => {
            assert(sem_inv(m, i2));
        },
    }
}

/// In a well-formed state every task's holding of a resource is bounded by
/// the whole column, hence by the capacity.
pub proof fn lemma_task_alloc_bounded(m: SyncManager, t: int, k: Kind, i: int)
    requires
        wf(m),
        0 <= t < task_count(m),
        0 <= i < kind_width(m, k),
    ensures
        0 <= alloc_of(m, t, k, i) <= kind_capacity(m, k, i),
{
    lemma_col_sum_element(alloc_rows(m, k), i, alloc_rows(m, k).len() as int, t);
    lemma_capacity_bound(m, k, i);
}

/// Reads one entry of an allocation matrix.
pub fn matrix_get(v: &Vec<Vec<usize>>, t: usize, i: usize) -> (r: usize)
    requires
        t < v@.len(),
        i < v@[t as int]@.len(),
    ensures
        r == v@[t as int]@[i as int],
{
    v[t][i]
}

/// Writes one entry of an allocation matrix, leaving every other row as it
/// was.
pub fn matrix_set(v: &mut Vec<Vec<usize>>, t: usize, i: usize, val: usize)
    requires
        t < old(v)@.len(),
        i < old(v)@[t as int]@.len(),
    ensures
        final(v)@.len() == old(v)@.len(),
        final(v)@[t as int]@ == old(v)@[t as int]@.update(i as int, val),
        forall|x: int| 0 <= x < old(v)@.len() && x != t ==> final(v)@[x] == old(v)@[x],
{
    let ghost before = v@;
    let mut row = v.remove(t);
    row.set(i, val);
    v.insert(t, row);
    proof {
        assert(v@ =~= before.update(t as int, v@[t as int]));
    }
}

/// Appends a task id to the wait queue of slot `i`.
pub fn queue_push(qs: &mut Vec<Vec<usize>>, i: usize, t: usize)
    requires
        i < old(qs)@.len(),
    ensures
        final(qs)@.len() == old(qs)@.len(),
        final(qs)@[i as int]@ == old(qs)@[i as int]@.push(t),
        forall|x: int| 0 <= x < old(qs)@.len() && x != i ==> final(qs)@[x] == old(qs)@[x],
{
    let ghost before = qs@;
    let mut q = qs.remove(i);
    q.push(t);
    qs.insert(i, q);
    proof {
        assert(qs@ =~= before.update(i as int, qs@[i as int]));
    }
}

/// Removes and returns the first waiter of slot `i`.
pub fn queue_pop_front(qs: &mut Vec<Vec<usize>>, i: usize) -> (w: usize)
    requires
        i < old(qs)@.len(),
        old(qs)@[i as int]@.len() > 0,
    ensures
        final(qs)@.len() == old(qs)@.len(),
        w == old(qs)@[i as int]@[0],
        final(qs)@[i as int]@ == old(qs)@[i as int]@.drop_first(),
        forall|x: int| 0 <= x < old(qs)@.len() && x != i ==> final(qs)@[x] == old(qs)@[x],
{
    let ghost before = qs@;
    let mut q = qs.remove(i);
    let w = q.remove(0);
    qs.insert(i, q);
    proof {
        assert(qs@ =~= before.update(i as int, qs@[i as int]));
        assert(qs@[i as int]@ =~= before[i as int]@.drop_first());
    }
    w
}

/// Length of the wait queue of slot `i`.
pub fn queue_len(qs: &Vec<Vec<usize>>, i: usize) -> (n: usize)
    requires
        i < qs@.len(),
    ensures
        n == qs@[i as int]@.len(),
{
    qs[i].len()
}

/// Occurrence count of `t` in queue `q` is zero when every element is below
/// `n` and `t` is not: a fresh task waits nowhere.
pub proof fn lemma_fresh_task_not_queued(q: Seq<usize>, n: int, t: int)
    requires
        queue_elems_bounded(q, n),
        t >= n,
    ensures
        occurrences(q, t) == 0,
{
    crate::tally::lemma_occurrences_absent(q, t);
}

} // verus!
