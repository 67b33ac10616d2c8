use lib::banker::ResourceTable;
use lib::mutex::{LockOutcome, Mutex, MutexBlocking, MutexSpin, UnlockOutcome, DEADLOCK_DETECTED};

/// Two tasks, one mutex that is free.
fn one_free_mutex() -> ResourceTable {
    ResourceTable {
        available: vec![1],
        allocation: vec![vec![0], vec![0]],
        need: vec![vec![0], vec![0]],
    }
}

#[test]
fn spin_lock_free_takes_unit() {
    let mut m = MutexSpin::new();
    let mut t = one_free_mutex();
    assert_eq!(m.lock(&mut t, 0, Some(0)), LockOutcome::Acquired);
    assert_eq!(t.available, vec![0]);
    assert_eq!(t.allocation, vec![vec![1], vec![0]]);
    assert_eq!(t.need, vec![vec![0], vec![0]]);
}

#[test]
fn spin_lock_taken_records_wait_then_relock() {
    let mut m = MutexSpin::new();
    let mut t = one_free_mutex();
    assert_eq!(m.lock(&mut t, 0, Some(0)), LockOutcome::Acquired);
    assert_eq!(m.lock(&mut t, 1, Some(0)), LockOutcome::Retry);
    assert_eq!(t.need, vec![vec![0], vec![1]]);
    assert_eq!(m.relock(&mut t, 1, Some(0)), LockOutcome::Retry);
    assert_eq!(t.need, vec![vec![0], vec![1]]);
    assert_eq!(m.unlock(&mut t, 0, Some(0)), UnlockOutcome::Released);
    assert_eq!(t.available, vec![1]);
    assert_eq!(t.allocation, vec![vec![0], vec![0]]);
    assert_eq!(m.relock(&mut t, 1, Some(0)), LockOutcome::Acquired);
    assert_eq!(t.available, vec![0]);
    assert_eq!(t.allocation, vec![vec![0], vec![1]]);
    assert_eq!(t.need, vec![vec![0], vec![0]]);
}

#[test]
fn spin_without_id_leaves_table() {
    let mut m = MutexSpin::new();
    let mut t = one_free_mutex();
    assert_eq!(m.lock(&mut t, 0, None), LockOutcome::Acquired);
    assert_eq!(m.lock(&mut t, 1, None), LockOutcome::Retry);
    assert_eq!(m.unlock(&mut t, 0, None), UnlockOutcome::Released);
    assert_eq!(m.relock(&mut t, 1, None), LockOutcome::Acquired);
    assert_eq!(t.available, vec![1]);
    assert_eq!(t.allocation, vec![vec![0], vec![0]]);
    assert_eq!(t.need, vec![vec![0], vec![0]]);
}

#[test]
fn spin_wait_lock_unlock_restores_table() {
    let mut m = MutexSpin::new();
    let mut t = one_free_mutex();
    m.lock(&mut t, 0, Some(0));
    m.lock(&mut t, 1, Some(0));
    m.unlock(&mut t, 0, Some(0));
    m.relock(&mut t, 1, Some(0));
    m.unlock(&mut t, 1, Some(0));
    let fresh = one_free_mutex();
    assert_eq!(t.available, fresh.available);
    assert_eq!(t.allocation, fresh.allocation);
    assert_eq!(t.need, fresh.need);
}

#[test]
fn try_lock_free_mutex_is_none() {
    let m = MutexSpin::new();
    let t = one_free_mutex();
    assert_eq!(m.try_lock(&t, true, 0, Some(0)), None);
    let b = MutexBlocking::new();
    assert_eq!(b.try_lock(&t, true, 0, Some(0)), None);
}

/// Task 0 holds mutex 0 and waits for mutex 1; task 1 holds mutex 1.
fn crossed() -> ResourceTable {
    ResourceTable {
        available: vec![0, 0],
        allocation: vec![vec![1, 0], vec![0, 1]],
        need: vec![vec![0, 1], vec![0, 0]],
    }
}

#[test]
fn try_lock_reports_deadlock() {
    let mut m = MutexSpin::new();
    let mut scratch = one_free_mutex();
    m.lock(&mut scratch, 0, None);
    let t = crossed();
    assert_eq!(m.try_lock(&t, true, 1, Some(0)), Some(DEADLOCK_DETECTED));
    assert_eq!(DEADLOCK_DETECTED, -0xdead);
    assert_eq!(m.try_lock(&t, false, 1, Some(0)), None);

    let mut b = MutexBlocking::new();
    b.lock(&mut scratch, 0, None);
    assert_eq!(b.try_lock(&t, true, 1, Some(0)), Some(-0xdead));
    assert_eq!(b.try_lock(&t, false, 1, Some(0)), None);
}

#[test]
fn try_lock_taken_without_deadlock_is_none() {
    let mut m = MutexBlocking::new();
    let mut t = one_free_mutex();
    m.lock(&mut t, 0, Some(0));
    assert_eq!(m.try_lock(&t, true, 1, Some(0)), None);
}

#[test]
fn blocking_lock_queues_and_hands_over_in_order() {
    let mut m = MutexBlocking::new();
    let mut t = ResourceTable {
        available: vec![1],
        allocation: vec![vec![0], vec![0], vec![0]],
        need: vec![vec![0], vec![0], vec![0]],
    };
    assert_eq!(m.lock(&mut t, 0, Some(0)), LockOutcome::Acquired);
    assert_eq!(t.available, vec![0]);
    assert_eq!(m.lock(&mut t, 2, Some(0)), LockOutcome::Blocked);
    assert_eq!(m.lock(&mut t, 1, Some(0)), LockOutcome::Blocked);
    assert_eq!(t.need, vec![vec![0], vec![1], vec![1]]);
    assert_eq!(m.unlock(&mut t, 0, Some(0)), UnlockOutcome::HandedOver(2));
    assert_eq!(t.allocation, vec![vec![1], vec![0], vec![1]]);
    assert_eq!(t.need, vec![vec![0], vec![1], vec![0]]);
    assert_eq!(m.unlock(&mut t, 2, Some(0)), UnlockOutcome::HandedOver(1));
    assert_eq!(t.need, vec![vec![0], vec![0], vec![0]]);
    assert_eq!(m.unlock(&mut t, 1, Some(0)), UnlockOutcome::Released);
    assert_eq!(t.available, vec![1]);
    // the releasing tasks' holdings are not taken back by the blocking mutex
    assert_eq!(t.allocation, vec![vec![1], vec![1], vec![1]]);
    assert_eq!(m.lock(&mut t, 0, None), LockOutcome::Acquired);
}

#[test]
fn blocking_without_id_leaves_table() {
    let mut m = MutexBlocking::new();
    let mut t = one_free_mutex();
    assert_eq!(m.lock(&mut t, 0, None), LockOutcome::Acquired);
    assert_eq!(m.lock(&mut t, 1, None), LockOutcome::Blocked);
    assert_eq!(m.unlock(&mut t, 0, None), UnlockOutcome::HandedOver(1));
    assert_eq!(m.unlock(&mut t, 1, None), UnlockOutcome::Released);
    assert_eq!(m.lock(&mut t, 1, None), LockOutcome::Acquired);
    let fresh = one_free_mutex();
    assert_eq!(t.available, fresh.available);
    assert_eq!(t.allocation, fresh.allocation);
    assert_eq!(t.need, fresh.need);
}

#[test]
fn held_and_next_waiting_follow_operations() {
    let mut s = MutexSpin::new();
    let mut t = one_free_mutex();
    assert!(!s.is_held());
    s.lock(&mut t, 0, None);
    assert!(s.is_held());
    s.unlock(&mut t, 0, None);
    assert!(!s.is_held());

    let mut b = MutexBlocking::new();
    assert!(!b.is_held());
    assert_eq!(b.next_waiting(), None);
    b.lock(&mut t, 0, None);
    b.lock(&mut t, 1, None);
    assert!(b.is_held());
    assert_eq!(b.next_waiting(), Some(1));
    b.unlock(&mut t, 0, None);
    assert_eq!(b.next_waiting(), None);
    assert!(b.is_held());
    b.unlock(&mut t, 1, None);
    assert!(!b.is_held());
}

#[test]
fn spin_mutual_exclusion() {
    let mut m = MutexSpin::new();
    let mut t = one_free_mutex();
    let mut acquired = 0;
    for tid in [0usize, 1, 0, 1, 1] {
        if m.relock(&mut t, tid, None) == LockOutcome::Acquired {
            acquired += 1;
        }
    }
    assert_eq!(acquired, 1);
}

#[test]
fn blocking_free_only_without_sleepers() {
    let mut b = MutexBlocking::new();
    let mut t = one_free_mutex();
    b.lock(&mut t, 0, None);
    b.lock(&mut t, 1, None);
    b.unlock(&mut t, 0, None);
    assert!(b.is_held());
    assert_eq!(b.next_waiting(), None);
    b.unlock(&mut t, 1, None);
    assert!(!b.is_held());
    assert_eq!(b.next_waiting(), None);
}
