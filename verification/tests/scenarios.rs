//! End-to-end scenarios of the resource manager: contention, cross requests
//! with and without detection, semaphore counting, and wake order.

use sync_manager::manager::outcome_code;
use sync_manager::state::{AcquireOutcome, SyncManager};

fn two_tasks() -> (SyncManager, usize, usize) {
    let mut m = SyncManager::new();
    let a = m.add_task();
    let b = m.add_task();
    (m, a, b)
}

#[test]
fn scenario_contention_blocks_without_refusal() {
    // One mutex; A holds it, B asks for it with detection enabled.  Mere
    // contention is no cycle, so B blocks instead of being refused.
    let (mut m, a, b) = two_tasks();
    let id = m.sys_mutex_create(true);
    assert_eq!(id, 0);
    assert_eq!(m.sys_enable_deadlock_detect(1), 0);
    let ra = m.sys_mutex_lock(a, 0);
    assert_eq!(ra, AcquireOutcome::Granted);
    assert_eq!(outcome_code(ra), 0);
    let rb = m.sys_mutex_lock(b, 0);
    assert_eq!(rb, AcquireOutcome::Blocked);
    assert!(m.pending[b].is_some());
    assert_eq!(m.mutex_waiters[0], vec![b]);
}

#[test]
fn scenario_cross_requests_refused() {
    // A holds mutex 0 and asks for 1; B holds 1 and asks for 0.  With
    // detection enabled the second of the two lock calls is refused.
    let (mut m, a, b) = two_tasks();
    assert_eq!(m.sys_mutex_create(true), 0);
    assert_eq!(m.sys_mutex_create(true), 1);
    assert_eq!(m.sys_enable_deadlock_detect(1), 0);
    assert_eq!(m.sys_mutex_lock(a, 0), AcquireOutcome::Granted);
    assert_eq!(m.sys_mutex_lock(b, 1), AcquireOutcome::Granted);
    assert_eq!(m.sys_mutex_lock(a, 1), AcquireOutcome::Blocked);
    let rb = m.sys_mutex_lock(b, 0);
    assert_eq!(rb, AcquireOutcome::Refused);
    assert_eq!(outcome_code(rb), -0xDEAD);
}

#[test]
fn scenario_refusal_leaves_state_unchanged() {
    // After the refused acquisition, B's allocation, its pending record and
    // every availability are exactly what they were before the call.
    let (mut m, a, b) = two_tasks();
    assert_eq!(m.sys_mutex_create(true), 0);
    assert_eq!(m.sys_mutex_create(true), 1);
    assert_eq!(m.sys_enable_deadlock_detect(1), 0);
    assert_eq!(m.sys_mutex_lock(a, 0), AcquireOutcome::Granted);
    assert_eq!(m.sys_mutex_lock(b, 1), AcquireOutcome::Granted);
    assert_eq!(m.sys_mutex_lock(a, 1), AcquireOutcome::Blocked);
    let alloc_before = m.alloc_mutex.clone();
    let pending_before = m.pending.clone();
    let mutexes_owned_before: Vec<Option<usize>> =
        m.mutexes.iter().map(|s| s.unwrap().owner).collect();
    assert_eq!(m.sys_mutex_lock(b, 0), AcquireOutcome::Refused);
    assert_eq!(m.alloc_mutex, alloc_before);
    assert_eq!(m.pending, pending_before);
    let mutexes_owned_after: Vec<Option<usize>> =
        m.mutexes.iter().map(|s| s.unwrap().owner).collect();
    assert_eq!(mutexes_owned_after, mutexes_owned_before);
}

#[test]
fn scenario_semaphore_two_units_third_waits() {
    // A semaphore of two units: two downs succeed at once, the third blocks
    // and is woken, and committed, only by an up.
    let mut m = SyncManager::new();
    let a = m.add_task();
    let b = m.add_task();
    let c = m.add_task();
    assert_eq!(m.sys_semaphore_create(2), 0);
    assert_eq!(m.sys_semaphore_down(a, 0), AcquireOutcome::Granted);
    assert_eq!(m.sys_semaphore_down(b, 0), AcquireOutcome::Granted);
    assert_eq!(m.alloc_sem[a][0] + m.alloc_sem[b][0], 2);
    assert_eq!(m.semaphores[0].unwrap().available, 0);
    assert_eq!(m.sys_semaphore_down(c, 0), AcquireOutcome::Blocked);
    assert!(m.pending[c].is_some());
    assert_eq!(m.sys_semaphore_up(a, 0), 0);
    assert!(m.pending[c].is_none());
    assert_eq!(m.alloc_sem[c][0], 1);
    assert_eq!(m.semaphores[0].unwrap().available, 0);
}

#[test]
fn scenario_detection_off_both_block_and_wedge() {
    // The cross-request pattern with detection disabled: neither call is
    // refused, both tasks block, and the system is genuinely wedged — every
    // task waits and no runnable task is left to release anything.
    let (mut m, a, b) = two_tasks();
    assert_eq!(m.sys_mutex_create(true), 0);
    assert_eq!(m.sys_mutex_create(true), 1);
    assert_eq!(m.sys_enable_deadlock_detect(0), 0);
    assert_eq!(m.sys_mutex_lock(a, 0), AcquireOutcome::Granted);
    assert_eq!(m.sys_mutex_lock(b, 1), AcquireOutcome::Granted);
    assert_eq!(m.sys_mutex_lock(a, 1), AcquireOutcome::Blocked);
    assert_eq!(m.sys_mutex_lock(b, 0), AcquireOutcome::Blocked);
    assert!(m.pending[a].is_some());
    assert!(m.pending[b].is_some());
    assert_eq!(m.mutex_waiters[0], vec![b]);
    assert_eq!(m.mutex_waiters[1], vec![a]);
}

#[test]
fn unlock_wakes_first_waiter_in_queue_order() {
    let mut m = SyncManager::new();
    let a = m.add_task();
    let b = m.add_task();
    let c = m.add_task();
    assert_eq!(m.sys_mutex_create(true), 0);
    assert_eq!(m.sys_mutex_lock(a, 0), AcquireOutcome::Granted);
    assert_eq!(m.sys_mutex_lock(b, 0), AcquireOutcome::Blocked);
    assert_eq!(m.sys_mutex_lock(c, 0), AcquireOutcome::Blocked);
    assert_eq!(m.sys_mutex_unlock(a, 0), 0);
    assert_eq!(m.mutexes[0].unwrap().owner, Some(b));
    assert!(m.pending[b].is_none());
    assert_eq!(m.alloc_mutex[b][0], 1);
    assert_eq!(m.mutex_waiters[0], vec![c]);
    assert_eq!(m.alloc_mutex[a][0], 0);
}

#[test]
fn up_without_waiter_restores_available_unit() {
    let mut m = SyncManager::new();
    let a = m.add_task();
    assert_eq!(m.sys_semaphore_create(3), 0);
    assert_eq!(m.sys_semaphore_down(a, 0), AcquireOutcome::Granted);
    assert_eq!(m.semaphores[0].unwrap().available, 2);
    assert_eq!(m.sys_semaphore_up(a, 0), 0);
    assert_eq!(m.semaphores[0].unwrap().available, 3);
    assert_eq!(m.alloc_sem[a][0], 0);
}
