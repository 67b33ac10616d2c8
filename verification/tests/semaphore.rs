use lib::banker::ResourceTable;
use lib::mutex::{LockOutcome, UnlockOutcome};
use lib::semaphore::Semaphore;

fn two_units() -> ResourceTable {
    ResourceTable {
        available: vec![2],
        allocation: vec![vec![0], vec![0], vec![0]],
        need: vec![vec![0], vec![0], vec![0]],
    }
}

#[test]
fn new_semaphore_counts_units() {
    let s = Semaphore::new(3);
    assert_eq!(s.inner.count, 3);
    assert!(s.inner.wait_queue.is_empty());
    let s = Semaphore::new(0);
    assert_eq!(s.inner.count, 0);
}

#[test]
fn down_takes_units_then_blocks() {
    let mut s = Semaphore::new(2);
    let mut t = two_units();
    assert_eq!(s.down(&mut t, 0, 0), LockOutcome::Acquired);
    assert_eq!(s.down(&mut t, 1, 0), LockOutcome::Acquired);
    assert_eq!(t.available, vec![0]);
    assert_eq!(t.allocation, vec![vec![1], vec![1], vec![0]]);
    assert_eq!(s.down(&mut t, 2, 0), LockOutcome::Blocked);
    assert_eq!(s.inner.count, -1);
    assert_eq!(s.inner.wait_queue.iter().copied().collect::<Vec<usize>>(), vec![2]);
    assert_eq!(t.need, vec![vec![0], vec![0], vec![1]]);
}

#[test]
fn up_hands_unit_to_first_sleeper() {
    let mut s = Semaphore::new(1);
    let mut t = two_units();
    s.down(&mut t, 0, 0);
    s.down(&mut t, 1, 0);
    s.down(&mut t, 2, 0);
    assert_eq!(s.inner.count, -2);
    assert_eq!(s.up(&mut t, 0), UnlockOutcome::HandedOver(1));
    assert_eq!(s.inner.count, -1);
    assert_eq!(t.allocation, vec![vec![1], vec![1], vec![0]]);
    assert_eq!(t.need, vec![vec![0], vec![0], vec![1]]);
    assert_eq!(s.up(&mut t, 0), UnlockOutcome::HandedOver(2));
    assert_eq!(s.inner.count, 0);
    assert_eq!(s.up(&mut t, 0), UnlockOutcome::Released);
    assert_eq!(s.inner.count, 1);
    assert_eq!(t.available, vec![2]);
}

#[test]
fn up_on_non_positive_count_with_empty_queue_changes_only_count() {
    let mut s = Semaphore::new(0);
    s.inner.count = -1;
    let mut t = two_units();
    assert_eq!(s.up(&mut t, 0), UnlockOutcome::Released);
    assert_eq!(s.inner.count, 0);
    assert_eq!(t.available, vec![2]);
}

#[test]
fn down_then_up_restores_count() {
    let mut s = Semaphore::new(5);
    let mut t = two_units();
    s.down(&mut t, 0, 0);
    s.up(&mut t, 0);
    assert_eq!(s.inner.count, 5);
    assert_eq!(t.available, vec![2]);
    assert_eq!(t.allocation, vec![vec![1], vec![0], vec![0]]);
}

#[test]
fn try_down_checks_only_without_free_units() {
    let crossed = ResourceTable {
        available: vec![0, 0],
        allocation: vec![vec![1, 0], vec![0, 1]],
        need: vec![vec![0, 1], vec![0, 0]],
    };
    let s = Semaphore::new(1);
    assert_eq!(s.try_down(&crossed, true, 1, 0), None);
    let s = Semaphore::new(0);
    assert_eq!(s.try_down(&crossed, true, 1, 0), Some(-0xdead));
    assert_eq!(s.try_down(&crossed, false, 1, 0), None);
}

#[test]
fn semaphore_stays_balanced() {
    let mut s = Semaphore::new(1);
    let mut t = ResourceTable { available: vec![1], allocation: vec![vec![0]; 4], need: vec![vec![0]; 4] };
    let check = |s: &Semaphore, t: &ResourceTable| {
        let c = s.inner.count;
        assert_eq!(s.inner.wait_queue.len() as isize, if c < 0 { -c } else { 0 });
        assert_eq!(t.available[0] as isize, if c > 0 { c } else { 0 });
    };
    check(&s, &t);
    for tid in 0..4 {
        s.down(&mut t, tid, 0);
        check(&s, &t);
    }
    for _ in 0..5 {
        s.up(&mut t, 0);
        check(&s, &t);
    }
}

#[test]
fn semaphore_wakes_in_sleep_order() {
    let mut s = Semaphore::new(0);
    let mut t = ResourceTable { available: vec![0], allocation: vec![vec![0]; 3], need: vec![vec![0]; 3] };
    s.down(&mut t, 2, 0);
    s.down(&mut t, 0, 0);
    s.down(&mut t, 1, 0);
    assert_eq!(s.up(&mut t, 0), UnlockOutcome::HandedOver(2));
    assert_eq!(s.up(&mut t, 0), UnlockOutcome::HandedOver(0));
    assert_eq!(s.up(&mut t, 0), UnlockOutcome::HandedOver(1));
}

#[test]
fn down_undoes_up() {
    let mut s = Semaphore::new(2);
    let mut t = ResourceTable { available: vec![2], allocation: vec![vec![0]], need: vec![vec![0]] };
    s.up(&mut t, 0);
    assert_eq!(s.down(&mut t, 0, 0), LockOutcome::Acquired);
    assert_eq!(s.inner.count, 2);
    assert!(s.inner.wait_queue.is_empty());
    assert_eq!(t.available, vec![2]);
    assert_eq!(t.allocation, vec![vec![1]]);
}
