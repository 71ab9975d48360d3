//! Control and bookkeeping operations: the detection toggle, slot creation,
//! condition variables, the sleep stub and the safety checker itself.

use sync_manager::manager::outcome_code;
use sync_manager::state::{AcquireOutcome, Kind, Request, SyncManager};

#[test]
fn toggle_accepts_zero_and_one_only() {
    let mut m = SyncManager::new();
    assert!(!m.detection_enabled);
    assert_eq!(m.sys_enable_deadlock_detect(1), 0);
    assert!(m.detection_enabled);
    assert_eq!(m.sys_enable_deadlock_detect(0), 0);
    assert!(!m.detection_enabled);
    assert_eq!(m.sys_enable_deadlock_detect(2), -1);
    assert!(!m.detection_enabled);
    assert_eq!(m.sys_enable_deadlock_detect(usize::MAX), -1);
    assert!(!m.detection_enabled);
}

#[test]
fn toggle_twice_equals_toggle_once() {
    let mut once = SyncManager::new();
    assert_eq!(once.sys_enable_deadlock_detect(1), 0);
    let mut twice = SyncManager::new();
    assert_eq!(twice.sys_enable_deadlock_detect(1), 0);
    assert_eq!(twice.sys_enable_deadlock_detect(1), 0);
    assert_eq!(once.detection_enabled, twice.detection_enabled);
    let mut off_twice = SyncManager::new();
    assert_eq!(off_twice.sys_enable_deadlock_detect(0), 0);
    assert_eq!(off_twice.sys_enable_deadlock_detect(0), 0);
    assert!(!off_twice.detection_enabled);
}

#[test]
fn creation_hands_out_sequential_ids_per_kind() {
    let mut m = SyncManager::new();
    assert_eq!(m.sys_mutex_create(false), 0);
    assert_eq!(m.sys_mutex_create(true), 1);
    assert_eq!(m.sys_semaphore_create(5), 0);
    assert_eq!(m.sys_semaphore_create(0), 1);
    assert_eq!(m.sys_condvar_create(0), 0);
    assert_eq!(m.sys_condvar_create(7), 1);
    assert!(!m.mutexes[0].unwrap().blocking);
    assert!(m.mutexes[1].unwrap().blocking);
    assert_eq!(m.semaphores[0].unwrap().capacity, 5);
    assert_eq!(m.semaphores[0].unwrap().available, 5);
    assert_eq!(m.semaphores[1].unwrap().capacity, 0);
}

#[test]
fn created_mutex_has_capacity_one_and_no_owner() {
    let mut m = SyncManager::new();
    let a = m.add_task();
    assert_eq!(m.sys_mutex_create(true), 0);
    assert!(m.mutexes[0].unwrap().owner.is_none());
    assert_eq!(m.sys_mutex_lock(a, 0), AcquireOutcome::Granted);
    assert_eq!(m.mutexes[0].unwrap().owner, Some(a));
    assert_eq!(m.alloc_mutex[a][0], 1);
}

#[test]
fn condvar_signal_wakes_at_most_one_waiter() {
    let mut m = SyncManager::new();
    let a = m.add_task();
    let b = m.add_task();
    assert_eq!(m.sys_mutex_create(true), 0);
    assert_eq!(m.sys_condvar_create(0), 0);
    assert_eq!(m.sys_mutex_lock(a, 0), AcquireOutcome::Granted);
    assert_eq!(m.sys_condvar_wait(a, 0, 0), 0);
    assert_eq!(m.sys_condvar_wait(b, 0, 0), 0);
    assert_eq!(m.condvar_waiters[0], vec![a, b]);
    // waiting is not a resource hold: the tracker still sees A on the mutex
    assert_eq!(m.alloc_mutex[a][0], 1);
    assert_eq!(m.sys_condvar_signal(0), 0);
    assert_eq!(m.condvar_waiters[0], vec![b]);
    assert_eq!(m.sys_condvar_signal(0), 0);
    assert!(m.condvar_waiters[0].is_empty());
    // a signal with nobody waiting still reports success
    assert_eq!(m.sys_condvar_signal(0), 0);
}

#[test]
fn sleep_reports_success_and_touches_nothing() {
    let mut m = SyncManager::new();
    let a = m.add_task();
    assert_eq!(m.sys_mutex_create(true), 0);
    assert_eq!(m.sys_mutex_lock(a, 0), AcquireOutcome::Granted);
    assert_eq!(m.sys_sleep(250), 0);
    assert_eq!(m.alloc_mutex[a][0], 1);
}

#[test]
fn detector_answers_match_the_state() {
    // In the crossed state, granting B's request for mutex 0 cannot drain:
    // the checker says so.  A request for a free third mutex stays safe.
    let mut m = SyncManager::new();
    let a = m.add_task();
    let b = m.add_task();
    assert_eq!(m.sys_mutex_create(true), 0);
    assert_eq!(m.sys_mutex_create(true), 1);
    assert_eq!(m.sys_mutex_create(true), 2);
    assert_eq!(m.sys_mutex_lock(a, 0), AcquireOutcome::Granted);
    assert_eq!(m.sys_mutex_lock(b, 1), AcquireOutcome::Granted);
    assert_eq!(m.sys_mutex_lock(a, 1), AcquireOutcome::Blocked);
    assert!(m.detect_will_deadlock(b, Request { kind: Kind::Mutex, id: 0, amount: 1 }));
    assert!(!m.detect_will_deadlock(b, Request { kind: Kind::Mutex, id: 2, amount: 1 }));
}

#[test]
fn refusal_code_is_the_distinguished_sentinel() {
    assert_eq!(outcome_code(AcquireOutcome::Granted), 0);
    assert_eq!(outcome_code(AcquireOutcome::Refused), -0xDEAD);
    assert_eq!(-0xDEAD as isize, -57005);
}

#[test]
fn zero_capacity_semaphore_blocks_first_down() {
    let mut m = SyncManager::new();
    let a = m.add_task();
    assert_eq!(m.sys_semaphore_create(0), 0);
    assert_eq!(m.sys_semaphore_down(a, 0), AcquireOutcome::Blocked);
    assert_eq!(m.sem_waiters[0], vec![a]);
}

#[test]
fn crossed_semaphore_downs_refused_with_detection() {
    let mut m = SyncManager::new();
    let a = m.add_task();
    let b = m.add_task();
    assert_eq!(m.sys_semaphore_create(1), 0);
    assert_eq!(m.sys_semaphore_create(1), 1);
    assert_eq!(m.sys_enable_deadlock_detect(1), 0);
    assert_eq!(m.sys_semaphore_down(a, 0), AcquireOutcome::Granted);
    assert_eq!(m.sys_semaphore_down(b, 1), AcquireOutcome::Granted);
    assert_eq!(m.sys_semaphore_down(a, 1), AcquireOutcome::Blocked);
    let rb = m.sys_semaphore_down(b, 0);
    assert_eq!(rb, AcquireOutcome::Refused);
    assert_eq!(outcome_code(rb), -0xDEAD);
    assert!(m.pending[b].is_none());
    assert_eq!(m.alloc_sem[b][0], 0);
}
