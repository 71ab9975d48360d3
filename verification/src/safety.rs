//! The safety checker: decides, before a task blocks, whether the state in
//! which its request is recorded is still safe — whether some order lets
//! every task's outstanding need be met and every task run to completion.
//!
//! The answer is stated as a bounded fixpoint (`passes`): starting from
//! no task finished, repeatedly sweep over the tasks, finishing each task
//! whose need is satisfiable from the currently free units plus everything
//! already-finished tasks would release.  A state is safe when every task
//! finishes.  `lemma_safe_grant_drainable` shows the answer sound: a safe
//! state has a concrete finishing order whose every step is satisfiable.

use vstd::prelude::*;
use crate::state::{Kind, Request, SyncManager};
use crate::state::{
    alloc_rows, free_units, kind_capacity, mutex_inv, pending_ok, sem_inv, task_count, wf,
    matrix_get,
};
use crate::tally::{
    col_total, col_unfin, lemma_col_unfin_all_false, lemma_col_unfin_flip, lemma_col_unfin_nonneg,
};

verus! {

/// The need of task `t` once the hypothetical request `rq` of task `task`
/// is recorded: the requester's new request, every other task's own pending
/// request.
pub open spec fn need_of(m: SyncManager, task: int, rq: Request, t: int) -> Option<Request> {
    if t == task {
        Option::Some(rq)
    } else {
        m.pending@[t]
    }
}

/// Is the need of task `t` fully satisfiable from the units left free by
/// the tasks not yet finished under `fin`?
pub open spec fn need_sat(m: SyncManager, task: int, rq: Request, t: int, fin: Seq<bool>) -> bool {
    match need_of(m, task, rq, t) {
        Option::Some(r) => r.amount as int <= kind_capacity(m, r.kind, r.id as int) - col_unfin(
            alloc_rows(m, r.kind),
            fin,
            r.id as int,
        ),
        Option::None => true,
    }
}

/// One left-to-right sweep from task `t` on: finish every task whose need
/// is satisfiable at the moment the sweep reaches it.
pub open spec fn sweep(m: SyncManager, task: int, rq: Request, fin: Seq<bool>, t: int) -> Seq<bool>
    decreases task_count(m) - t,
{
    if t < 0 || t >= task_count(m) {
        fin
    } else {
        let fin2 = if !fin[t] && need_sat(m, task, rq, t, fin) {
            fin.update(t, true)
        } else {
            fin
        };
        sweep(m, task, rq, fin2, t + 1)
    }
}

/// The finished set after `k` sweeps, starting from no task finished.
pub open spec fn passes(m: SyncManager, task: int, rq: Request, k: int) -> Seq<bool>
    decreases k,
{
    if k <= 0 {
        Seq::new(task_count(m) as nat, |t: int| false)
    } else {
        sweep(m, task, rq, passes(m, task, rq, k - 1), 0)
    }
}

/// The safety answer: after as many sweeps as there are tasks (each sweep
/// that changes anything finishes at least one task), every task has
/// finished.
pub open spec fn safe_after_request(m: SyncManager, task: int, rq: Request) -> bool {
    forall|t: int| 0 <= t < task_count(m) ==> passes(m, task, rq, task_count(m))[t]
}

/// The requested id lies inside the slot table of its kind.
pub open spec fn req_in_range(m: SyncManager, rq: Request) -> bool {
    match rq.kind {
        Kind::Mutex => (rq.id as int) < m.mutexes@.len(),
        Kind::Semaphore => (rq.id as int) < m.semaphores@.len(),
    }
}

/// The work vectors mirror, per resource, the units free once the tasks
/// finished under `fin` have released everything they hold.
pub open spec fn work_ok(
    m: SyncManager,
    fin: Seq<bool>,
    work_m: Seq<usize>,
    work_s: Seq<usize>,
) -> bool {
    &&& work_m.len() == m.mutexes@.len()
    &&& work_s.len() == m.semaphores@.len()
    &&& forall|x: int|
        0 <= x < m.mutexes@.len() ==> (#[trigger] work_m[x]) as int == kind_capacity(
            m,
            Kind::Mutex,
            x,
        ) - col_unfin(m.alloc_mutex@, fin, x)
    &&& forall|x: int|
        0 <= x < m.semaphores@.len() ==> (#[trigger] work_s[x]) as int == kind_capacity(
            m,
            Kind::Semaphore,
            x,
        ) - col_unfin(m.alloc_sem@, fin, x)
}

/// Units of column `i` released by the first `j` tasks of a finishing order.
pub open spec fn order_prefix_sum(rows: Seq<Vec<usize>>, order: Seq<int>, j: int, i: int) -> int
    decreases j,
{
    if j <= 0 {
        0
    } else {
        order_prefix_sum(rows, order, j - 1, i) + rows[order[j - 1]]@[i]
    }
}

/// Free units of resource `i` of kind `k` at step `j` of a drain: those free
/// at the start plus everything the tasks finishing earlier released.
pub open spec fn drain_work(m: SyncManager, order: Seq<int>, j: int, k: Kind, i: int) -> int {
    free_units(m, k, i) + order_prefix_sum(alloc_rows(m, k), order, j, i)
}

/// At step `j` of the drain, the need of the task finishing then is fully
/// satisfiable from the units free at that moment.
pub open spec fn drain_step_ok(
    m: SyncManager,
    task: int,
    rq: Request,
    order: Seq<int>,
    j: int,
) -> bool {
    match need_of(m, task, rq, order[j]) {
        Option::Some(r) => r.amount as int <= drain_work(m, order, j, r.kind, r.id as int),
        Option::None => true,
    }
}

/// A finishing order that never deadlocks: real tasks, none twice, and every
/// step satisfiable when its turn comes.
pub open spec fn drain_ok(m: SyncManager, task: int, rq: Request, order: Seq<int>) -> bool {
    &&& forall|j: int| 0 <= j < order.len() ==> 0 <= #[trigger] order[j] < task_count(m)
    &&& order.no_duplicates()
    &&& forall|j: int| 0 <= j < order.len() ==> #[trigger] drain_step_ok(m, task, rq, order, j)
}

/// A complete drain: a finishing order that never deadlocks and in which
/// every task of the process finishes.
pub open spec fn full_drain(m: SyncManager, task: int, rq: Request, order: Seq<int>) -> bool {
    &&& drain_ok(m, task, rq, order)
    &&& forall|t: int| 0 <= t < task_count(m) ==> order.contains(t)
}

/// Prefix sums of an order only read the order below `j`.
proof fn lemma_order_prefix_congruent(
    rows: Seq<Vec<usize>>,
    order1: Seq<int>,
    order2: Seq<int>,
    j: int,
    i: int,
)
    requires
        forall|x: int| 0 <= x < j ==> #[trigger] order1[x] == order2[x],
    ensures
        order_prefix_sum(rows, order1, j, i) == order_prefix_sum(rows, order2, j, i),
    decreases j,
{
    if j > 0 {
        lemma_order_prefix_congruent(rows, order1, order2, j - 1, i);
    }
}

/// Ties a finished set to a finishing order that discovered it: the order
/// holds exactly the finished tasks, each of its steps was satisfiable, and
/// what it has released so far is what the finished tasks held.
spec fn fin_order_matches(
    m: SyncManager,
    task: int,
    rq: Request,
    fin: Seq<bool>,
    order: Seq<int>,
) -> bool {
    &&& fin.len() == task_count(m)
    &&& drain_ok(m, task, rq, order)
    &&& forall|t: int| 0 <= t < task_count(m) ==> (fin[t] <==> #[trigger] order.contains(t))
    &&& forall|i: int|
        0 <= i < m.mutexes@.len() ==> order_prefix_sum(m.alloc_mutex@, order, order.len() as int, i)
            == col_total(m.alloc_mutex@, i) - #[trigger] col_unfin(m.alloc_mutex@, fin, i)
    &&& forall|i: int|
        0 <= i < m.semaphores@.len() ==> order_prefix_sum(m.alloc_sem@, order, order.len() as int, i)
            == col_total(m.alloc_sem@, i) - #[trigger] col_unfin(m.alloc_sem@, fin, i)
}

/// Finishing one more task whose need is satisfiable extends the order.
proof fn lemma_drain_extend(
    m: SyncManager,
    task: int,
    rq: Request,
    fin: Seq<bool>,
    order: Seq<int>,
    t: int,
)
    requires
        wf(m),
        0 <= task < task_count(m),
        m.pending@[task] is None,
        req_in_range(m, rq),
        fin_order_matches(m, task, rq, fin, order),
        0 <= t < task_count(m),
        !fin[t],
        need_sat(m, task, rq, t, fin),
    ensures
        fin_order_matches(m, task, rq, fin.update(t, true), order.push(t)),
{
    let fin2 = fin.update(t, true);
    let order2 = order.push(t);
    let n = task_count(m);

    assert(!order.contains(t));
    assert(forall|x: int| 0 <= x < order.len() ==> #[trigger] order[x] != t);

    // membership after the push
    assert forall|x: int| 0 <= x < n implies (fin2[x] <==> order2.contains(x)) by {
        if x == t {
            assert(order2[order.len() as int] == t);
            assert(order2.contains(t));
        } else {
            if order.contains(x) {
                let idx = choose|idx: int| 0 <= idx < order.len() && order[idx] == x;
                assert(order2[idx] == x);
                assert(order2.contains(x));
            }
            if order2.contains(x) {
                let idx = choose|idx: int| 0 <= idx < order2.len() && order2[idx] == x;
                assert(idx < order.len());
                assert(order.contains(x));
            }
        }
    }

    // released sums after the push
    assert forall|i: int| 0 <= i < m.mutexes@.len() implies order_prefix_sum(
        m.alloc_mutex@,
        order2,
        order2.len() as int,
        i,
    ) == col_total(m.alloc_mutex@, i) - col_unfin(m.alloc_mutex@, fin2, i) by {
        lemma_order_prefix_congruent(m.alloc_mutex@, order2, order, order.len() as int, i);
        crate::tally::lemma_col_unfin_flip(
            m.alloc_mutex@,
            fin,
            t,
            i,
            m.alloc_mutex@.len() as int,
        );
        assert(m.alloc_mutex@.len() == n);
        assert(order2[order.len() as int] == t);
        assert(order_prefix_sum(m.alloc_mutex@, order2, order2.len() as int, i)
            == order_prefix_sum(m.alloc_mutex@, order2, order.len() as int, i)
                + m.alloc_mutex@[t]@[i]);
        assert(order_prefix_sum(m.alloc_mutex@, order, order.len() as int, i) == col_total(
            m.alloc_mutex@,
            i,
        ) - col_unfin(m.alloc_mutex@, fin, i));
    }
    assert forall|i: int| 0 <= i < m.semaphores@.len() implies order_prefix_sum(
        m.alloc_sem@,
        order2,
        order2.len() as int,
        i,
    ) == col_total(m.alloc_sem@, i) - col_unfin(m.alloc_sem@, fin2, i) by {
        lemma_order_prefix_congruent(m.alloc_sem@, order2, order, order.len() as int, i);
        crate::tally::lemma_col_unfin_flip(m.alloc_sem@, fin, t, i, m.alloc_sem@.len() as int);
        assert(m.alloc_sem@.len() == n);
        assert(order2[order.len() as int] == t);
        assert(order_prefix_sum(m.alloc_sem@, order2, order2.len() as int, i)
            == order_prefix_sum(m.alloc_sem@, order2, order.len() as int, i)
                + m.alloc_sem@[t]@[i]);
        assert(order_prefix_sum(m.alloc_sem@, order, order.len() as int, i) == col_total(
            m.alloc_sem@,
            i,
        ) - col_unfin(m.alloc_sem@, fin, i));
    }

    // the old steps stay satisfiable, the new one is by assumption
    assert forall|j: int| 0 <= j < order2.len() implies drain_step_ok(m, task, rq, order2, j) by {
        if j < order.len() {
            assert(drain_step_ok(m, task, rq, order, j));
            match need_of(m, task, rq, order[j]) {
                Option::Some(r) => {
                    lemma_order_prefix_congruent(
                        alloc_rows(m, r.kind),
                        order2,
                        order,
                        j,
                        r.id as int,
                    );
                },
                Option::None => {},
            }
        } else {
            assert(order2[j] == t);
            match need_of(m, task, rq, t) {
                Option::Some(r) => {
                    if t != task {
                        assert(pending_ok(m, t));
                    }
                    let i = r.id as int;
                    lemma_order_prefix_congruent(alloc_rows(m, r.kind), order2, order, j, i);
                    assert(r.amount as int <= kind_capacity(m, r.kind, i) - col_unfin(
                        alloc_rows(m, r.kind),
                        fin,
                        i,
                    ));
                },
                Option::None => {},
            }
        }
    }
}

/// A sweep of the checker preserves the existence of a matching order.
proof fn lemma_sweep_drainable(
    m: SyncManager,
    task: int,
    rq: Request,
    fin: Seq<bool>,
    t: int,
    order: Seq<int>,
)
    requires
        wf(m),
        0 <= task < task_count(m),
        m.pending@[task] is None,
        req_in_range(m, rq),
        fin_order_matches(m, task, rq, fin, order),
        t >= 0,
    ensures
        exists|order2: Seq<int>|
            fin_order_matches(m, task, rq, sweep(m, task, rq, fin, t), order2),
    decreases task_count(m) - t,
{
    if t >= task_count(m) {
        assert(sweep(m, task, rq, fin, t) == fin);
        assert(fin_order_matches(m, task, rq, sweep(m, task, rq, fin, t), order));
    } else {
        if !fin[t] && need_sat(m, task, rq, t, fin) {
            lemma_drain_extend(m, task, rq, fin, order, t);
            lemma_sweep_drainable(m, task, rq, fin.update(t, true), t + 1, order.push(t));
            assert(sweep(m, task, rq, fin, t) == sweep(m, task, rq, fin.update(t, true), t + 1));
        } else {
            lemma_sweep_drainable(m, task, rq, fin, t + 1, order);
            assert(sweep(m, task, rq, fin, t) == sweep(m, task, rq, fin, t + 1));
        }
    }
}

/// Every finished set the checker reaches has a matching finishing order.
proof fn lemma_passes_drainable(m: SyncManager, task: int, rq: Request, k: int)
    requires
        wf(m),
        0 <= task < task_count(m),
        m.pending@[task] is None,
        req_in_range(m, rq),
        k >= 0,
    ensures
        exists|order: Seq<int>| fin_order_matches(m, task, rq, passes(m, task, rq, k), order),
    decreases k,
{
    if k == 0 {
        let fin0 = passes(m, task, rq, 0);
        let order0 = Seq::<int>::empty();
        assert forall|i: int| 0 <= i < m.mutexes@.len() implies order_prefix_sum(
            m.alloc_mutex@,
            order0,
            0,
            i,
        ) == col_total(m.alloc_mutex@, i) - col_unfin(m.alloc_mutex@, fin0, i) by {
            lemma_col_unfin_all_false(m.alloc_mutex@, fin0, i, m.alloc_mutex@.len() as int);
        }
        assert forall|i: int| 0 <= i < m.semaphores@.len() implies order_prefix_sum(
            m.alloc_sem@,
            order0,
            0,
            i,
        ) == col_total(m.alloc_sem@, i) - col_unfin(m.alloc_sem@, fin0, i) by {
            lemma_col_unfin_all_false(m.alloc_sem@, fin0, i, m.alloc_sem@.len() as int);
        }
        assert(fin_order_matches(m, task, rq, passes(m, task, rq, k), order0));
    } else {
        lemma_passes_drainable(m, task, rq, k - 1);
        let prev = choose|order: Seq<int>|
            #[trigger] fin_order_matches(m, task, rq, passes(m, task, rq, k - 1), order);
        lemma_sweep_drainable(m, task, rq, passes(m, task, rq, k - 1), 0, prev);
        assert(passes(m, task, rq, k) == sweep(m, task, rq, passes(m, task, rq, k - 1), 0));
    }
}

/// Safety soundness: when the checker calls the state with `rq` recorded
/// safe, there is a finishing order in which every task of the process can
/// run to completion — releasing resources in that order never deadlocks.
pub proof fn lemma_safe_grant_drainable(m: SyncManager, task: int, rq: Request)
    requires
        wf(m),
        0 <= task < task_count(m),
        m.pending@[task] is None,
        req_in_range(m, rq),
        safe_after_request(m, task, rq),
    ensures
        exists|order: Seq<int>| full_drain(m, task, rq, order),
{
    lemma_passes_drainable(m, task, rq, task_count(m));
    let order = choose|order: Seq<int>|
        #[trigger] fin_order_matches(m, task, rq, passes(m, task, rq, task_count(m)), order);
    assert(full_drain(m, task, rq, order));
}


/// A sweep never unfinishes a task and keeps the mask's length.
proof fn lemma_sweep_grows(m: SyncManager, task: int, rq: Request, fin: Seq<bool>, t: int)
    requires
        fin.len() == task_count(m),
    ensures
        sweep(m, task, rq, fin, t).len() == fin.len(),
        forall|x: int| 0 <= x < fin.len() && fin[x] ==> sweep(m, task, rq, fin, t)[x],
    decreases task_count(m) - t,
{
    if !(t < 0 || t >= task_count(m)) {
        let fin2 = if !fin[t] && need_sat(m, task, rq, t, fin) {
            fin.update(t, true)
        } else {
            fin
        };
        lemma_sweep_grows(m, task, rq, fin2, t + 1);
        assert(sweep(m, task, rq, fin, t) == sweep(m, task, rq, fin2, t + 1));
        assert(fin2.len() == fin.len());
        assert forall|x: int| 0 <= x < fin.len() && fin[x] implies sweep(m, task, rq, fin, t)[x] by {
            assert(fin2[x]);
        }
    } else {
        assert(sweep(m, task, rq, fin, t) == fin);
    }
}

/// Satisfiability of a need only improves as more tasks finish.
proof fn lemma_need_sat_mono(
    m: SyncManager,
    task: int,
    rq: Request,
    t: int,
    fin1: Seq<bool>,
    fin2: Seq<bool>,
)
    requires
        forall|x: int| 0 <= x < fin1.len() && fin1[x] ==> fin2[x],
        need_sat(m, task, rq, t, fin1),
        fin1.len() >= task_count(m),
        wf(m),
    ensures
        need_sat(m, task, rq, t, fin2),
{
    match need_of(m, task, rq, t) {
        Option::Some(r) => {
            crate::tally::lemma_col_unfin_mono(
                alloc_rows(m, r.kind),
                fin1,
                fin2,
                r.id as int,
                alloc_rows(m, r.kind).len() as int,
            );
        },
        Option::None => {},
    }
}

/// A task whose need is satisfiable when a sweep starts is finished by it.
proof fn lemma_sweep_finishes(
    m: SyncManager,
    task: int,
    rq: Request,
    fin: Seq<bool>,
    t: int,
    x: int,
)
    requires
        wf(m),
        0 <= t <= x < task_count(m),
        fin.len() == task_count(m),
        need_sat(m, task, rq, x, fin),
    ensures
        sweep(m, task, rq, fin, t)[x],
    decreases task_count(m) - t,
{
    let fin2 = if !fin[t] && need_sat(m, task, rq, t, fin) {
        fin.update(t, true)
    } else {
        fin
    };
    if t == x {
        assert(fin2[x]);
        lemma_sweep_grows(m, task, rq, fin2, t + 1);
    } else {
        lemma_need_sat_mono(m, task, rq, x, fin, fin2);
        lemma_sweep_finishes(m, task, rq, fin2, t + 1, x);
    }
    assert(sweep(m, task, rq, fin, t) == sweep(m, task, rq, fin2, t + 1));
}

/// Each sweep only adds finished tasks, so the fixpoint grows with `k`.
proof fn lemma_passes_mono(m: SyncManager, task: int, rq: Request, k1: int, k2: int)
    requires
        0 <= k1 <= k2,
    ensures
        passes(m, task, rq, k1).len() == task_count(m),
        passes(m, task, rq, k2).len() == task_count(m),
        forall|x: int|
            0 <= x < task_count(m) && passes(m, task, rq, k1)[x] ==> passes(m, task, rq, k2)[x],
    decreases k2,
{
    if k2 == 0 {
    } else if k1 == k2 {
        lemma_passes_mono(m, task, rq, k1 - 1, k2 - 1);
        lemma_sweep_grows(m, task, rq, passes(m, task, rq, k2 - 1), 0);
    } else {
        lemma_passes_mono(m, task, rq, k1, k2 - 1);
        lemma_sweep_grows(m, task, rq, passes(m, task, rq, k2 - 1), 0);
    }
}

/// What a finishing order's prefix releases is at most what the tasks
/// finished so far hold together.
proof fn lemma_prefix_sum_le_released(
    rows: Seq<Vec<usize>>,
    order: Seq<int>,
    fin: Seq<bool>,
    j: int,
    i: int,
)
    requires
        0 <= j <= order.len(),
        fin.len() == rows.len(),
        forall|x: int| 0 <= x < order.len() ==> 0 <= #[trigger] order[x] < rows.len(),
        order.no_duplicates(),
        forall|x: int| 0 <= x < j ==> fin[#[trigger] order[x]],
    ensures
        order_prefix_sum(rows, order, j, i) <= col_total(rows, i) - col_unfin(rows, fin, i),
    decreases j,
{
    if j == 0 {
        crate::tally::lemma_col_unfin_le_sum(rows, fin, i, rows.len() as int);
    } else {
        let t = order[j - 1];
        let fin0 = fin.update(t, false);
        assert(fin0.update(t, true) =~= fin);
        crate::tally::lemma_col_unfin_flip(rows, fin0, t, i, rows.len() as int);
        assert(forall|x: int| 0 <= x < j - 1 ==> #[trigger] order[x] != t);
        lemma_prefix_sum_le_released(rows, order, fin0, j - 1, i);
    }
}

/// Every prefix of a deadlock-free finishing order is finished by as many
/// sweeps of the checker.
proof fn lemma_drain_prefix_finished(
    m: SyncManager,
    task: int,
    rq: Request,
    order: Seq<int>,
    j: int,
)
    requires
        wf(m),
        drain_ok(m, task, rq, order),
        0 <= j <= order.len(),
    ensures
        forall|x: int| 0 <= x < j ==> passes(m, task, rq, j)[#[trigger] order[x]],
    decreases j,
{
    if j > 0 {
        lemma_drain_prefix_finished(m, task, rq, order, j - 1);
        let prev = passes(m, task, rq, j - 1);
        lemma_passes_mono(m, task, rq, j - 1, j - 1);
        lemma_sweep_grows(m, task, rq, prev, 0);
        let t = order[j - 1];
        assert(drain_step_ok(m, task, rq, order, j - 1));
        match need_of(m, task, rq, t) {
            Option::Some(r) => {
                let rows = alloc_rows(m, r.kind);
                assert(rows.len() == task_count(m));
                lemma_prefix_sum_le_released(rows, order, prev, j - 1, r.id as int);
                assert(need_sat(m, task, rq, t, prev));
            },
            Option::None => {},
        }
        lemma_sweep_finishes(m, task, rq, prev, 0, t);
        assert forall|x: int| 0 <= x < j implies passes(m, task, rq, j)[#[trigger] order[x]] by {
            if x < j - 1 {
                assert(prev[order[x]]);
            }
        }
    }
}

/// Safety completeness: a state with a complete deadlock-free finishing
/// order is one the checker calls safe — refusals happen only where no
/// such order is left.
pub proof fn lemma_drainable_grant_safe(m: SyncManager, task: int, rq: Request, order: Seq<int>)
    requires
        wf(m),
        full_drain(m, task, rq, order),
        order.len() <= task_count(m),
    ensures
        safe_after_request(m, task, rq),
{
    lemma_drain_prefix_finished(m, task, rq, order, order.len() as int);
    assert forall|t: int| 0 <= t < task_count(m) implies passes(
        m,
        task,
        rq,
        task_count(m),
    )[t] by {
        assert(order.contains(t));
        let x = choose|x: int| 0 <= x < order.len() && order[x] == t;
        assert(passes(m, task, rq, order.len() as int)[t]);
        lemma_passes_mono(m, task, rq, order.len() as int, task_count(m));
    }
}

impl SyncManager {
    /// Runs the safety algorithm over the current allocation state with the
    /// hypothetical request `rq` of `task` recorded, and reports `true`
    /// exactly when granting would leave the system unsafe.
    pub fn detect_will_deadlock(&self, task: usize, rq: Request) -> (r: bool)
        requires
            wf(*self),
            (task as int) < task_count(*self),
            self.pending@[task as int] is None,
            req_in_range(*self, rq),
        ensures
            r == !safe_after_request(*self, task as int, rq),
    {
        let ghost m = *self;
        let n = self.pending.len();
        let nm = self.mutexes.len();
        let ns = self.semaphores.len();

        let mut fin: Vec<bool> = Vec::new();
        let mut j: usize = 0;
        while j < n
            invariant
                fin@.len() == j,
                j <= n,
                forall|x: int| 0 <= x < j ==> !(#[trigger] fin@[x]),
            decreases n - j,
        {
            fin.push(false);
            j += 1;
        }
        proof {
            assert(fin@ =~= passes(m, task as int, rq, 0));
        }

        let mut work_m: Vec<usize> = Vec::new();
        let mut i: usize = 0;
        while i < nm
            invariant
                *self == m,
                wf(m),
                nm == m.mutexes@.len(),
                work_m@.len() == i,
                i <= nm,
                forall|x: int|
                    0 <= x < i ==> (#[trigger] work_m@[x]) as int == kind_capacity(
                        m,
                        Kind::Mutex,
                        x,
                    ) - col_total(m.alloc_mutex@, x),
            decreases nm - i,
        {
            let w: usize = match self.mutexes[i] {
                Option::Some(meta) => if meta.owner.is_some() {
                    0
                } else {
                    1
                },
                Option::None => 0,
            };
            proof {
                assert(mutex_inv(m, i as int));
            }
            work_m.push(w);
            i += 1;
        }

        let mut work_s: Vec<usize> = Vec::new();
        let mut i2: usize = 0;
        while i2 < ns
            invariant
                *self == m,
                wf(m),
                ns == m.semaphores@.len(),
                work_s@.len() == i2,
                i2 <= ns,
                forall|x: int|
                    0 <= x < i2 ==> (#[trigger] work_s@[x]) as int == kind_capacity(
                        m,
                        Kind::Semaphore,
                        x,
                    ) - col_total(m.alloc_sem@, x),
            decreases ns - i2,
        {
            let w: usize = match self.semaphores[i2] {
                Option::Some(meta) => meta.available,
                Option::None => 0,
            };
            proof {
                assert(sem_inv(m, i2 as int));
            }
            work_s.push(w);
            i2 += 1;
        }

        proof {
            assert forall|x: int| 0 <= x < m.mutexes@.len() implies col_unfin(
                m.alloc_mutex@,
                fin@,
                x,
            ) == col_total(m.alloc_mutex@, x) by {
                lemma_col_unfin_all_false(m.alloc_mutex@, fin@, x, m.alloc_mutex@.len() as int);
            }
            assert forall|x: int| 0 <= x < m.semaphores@.len() implies col_unfin(
                m.alloc_sem@,
                fin@,
                x,
            ) == col_total(m.alloc_sem@, x) by {
                lemma_col_unfin_all_false(m.alloc_sem@, fin@, x, m.alloc_sem@.len() as int);
            }
            assert(work_ok(m, fin@, work_m@, work_s@));
        }

        let mut pass: usize = 0;
        while pass < n
            invariant
                *self == m,
                wf(m),
                n == task_count(m),
                nm == m.mutexes@.len(),
                ns == m.semaphores@.len(),
                (task as int) < task_count(m),
                m.pending@[task as int] is None,
                req_in_range(m, rq),
                fin@.len() == n,
                pass <= n,
                fin@ == passes(m, task as int, rq, pass as int),
                work_ok(m, fin@, work_m@, work_s@),
            decreases n - pass,
        {
            let ghost fin_start = fin@;
            let mut t: usize = 0;
            while t < n
                invariant
                    *self == m,
                    wf(m),
                    n == task_count(m),
                    nm == m.mutexes@.len(),
                    ns == m.semaphores@.len(),
                    (task as int) < task_count(m),
                    m.pending@[task as int] is None,
                    req_in_range(m, rq),
                    fin@.len() == n,
                    t <= n,
                    work_ok(m, fin@, work_m@, work_s@),
                    sweep(m, task as int, rq, fin_start, 0) == sweep(
                        m,
                        task as int,
                        rq,
                        fin@,
                        t as int,
                    ),
                decreases n - t,
            {
                let ghost fin_before = fin@;
                if !fin[t] {
                    let need: Option<Request> = if t == task {
                        Option::Some(rq)
                    } else {
                        self.pending[t]
                    };
                    proof {
                        if t != task {
                            assert(pending_ok(m, t as int));
                        }
                    }
                    let sat: bool = match need {
                        Option::None => true,
                        Option::Some(r) => match r.kind {
                            Kind::Mutex => r.amount <= work_m[r.id],
                            Kind::Semaphore => r.amount <= work_s[r.id],
                        },
                    };
                    proof {
                        assert(sat == need_sat(m, task as int, rq, t as int, fin@));
                    }
                    if sat {
                        fin.set(t, true);
                        let mut x: usize = 0;
                        while x < nm
                            invariant
                                *self == m,
                                wf(m),
                                n == task_count(m),
                                nm == m.mutexes@.len(),
                                t < n,
                                x <= nm,
                                fin@.len() == n,
                                fin@ == fin_before.update(t as int, true),
                                !fin_before[t as int],
                                fin_before.len() == n,
                                work_m@.len() == nm,
                                forall|y: int|
                                    0 <= y < x ==> (#[trigger] work_m@[y]) as int == kind_capacity(
                                        m,
                                        Kind::Mutex,
                                        y,
                                    ) - col_unfin(m.alloc_mutex@, fin@, y),
                                forall|y: int|
                                    x <= y < nm ==> (#[trigger] work_m@[y]) as int
                                        == kind_capacity(m, Kind::Mutex, y) - col_unfin(
                                        m.alloc_mutex@,
                                        fin_before,
                                        y,
                                    ),
                            decreases nm - x,
                        {
                            let a = matrix_get(&self.alloc_mutex, t, x);
                            let cur = work_m[x];
                            proof {
                                lemma_col_unfin_flip(
                                    m.alloc_mutex@,
                                    fin_before,
                                    t as int,
                                    x as int,
                                    m.alloc_mutex@.len() as int,
                                );
                                lemma_col_unfin_nonneg(
                                    m.alloc_mutex@,
                                    fin@,
                                    x as int,
                                    m.alloc_mutex@.len() as int,
                                );
                            }
                            work_m.set(x, cur + a);
                            x += 1;
                        }
                        let mut x2: usize = 0;
                        while x2 < ns
                            invariant
                                *self == m,
                                wf(m),
                                n == task_count(m),
                                ns == m.semaphores@.len(),
                                t < n,
                                x2 <= ns,
                                fin@.len() == n,
                                fin@ == fin_before.update(t as int, true),
                                !fin_before[t as int],
                                fin_before.len() == n,
                                work_s@.len() == ns,
                                forall|y: int|
                                    0 <= y < x2 ==> (#[trigger] work_s@[y]) as int == kind_capacity(
                                        m,
                                        Kind::Semaphore,
                                        y,
                                    ) - col_unfin(m.alloc_sem@, fin@, y),
                                forall|y: int|
                                    x2 <= y < ns ==> (#[trigger] work_s@[y]) as int
                                        == kind_capacity(m, Kind::Semaphore, y) - col_unfin(
                                        m.alloc_sem@,
                                        fin_before,
                                        y,
                                    ),
                            decreases ns - x2,
                        {
                            proof {
                                assert(m.alloc_mutex@[t as int]@.len() == m.mutexes@.len());
                            }
                            let a = matrix_get(&self.alloc_sem, t, x2);
                            let cur = work_s[x2];
                            proof {
                                lemma_col_unfin_flip(
                                    m.alloc_sem@,
                                    fin_before,
                                    t as int,
                                    x2 as int,
                                    m.alloc_sem@.len() as int,
                                );
                                lemma_col_unfin_nonneg(
                                    m.alloc_sem@,
                                    fin@,
                                    x2 as int,
                                    m.alloc_sem@.len() as int,
                                );
                            }
                            work_s.set(x2, cur + a);
                            x2 += 1;
                        }
                    }
                }
                proof {
                    assert(sweep(m, task as int, rq, fin_before, t as int) == sweep(
                        m,
                        task as int,
                        rq,
                        fin@,
                        t as int + 1,
                    ));
                }
                t += 1;
            }
            proof {
                assert(sweep(m, task as int, rq, fin@, n as int) == fin@);
                assert(fin@ == passes(m, task as int, rq, pass as int + 1));
            }
            pass += 1;
        }

        let mut all_done = true;
        let mut t2: usize = 0;
        while t2 < n
            invariant
                t2 <= n,
                fin@.len() == n,
                all_done == (forall|x: int| 0 <= x < t2 ==> (#[trigger] fin@[x])),
            decreases n - t2,
        {
            if !fin[t2] {
                all_done = false;
            }
            t2 += 1;
        }
        proof {
            assert(fin@ == passes(m, task as int, rq, task_count(m)));
        }
        !all_done
    }
}

} // verus!
