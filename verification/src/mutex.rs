//! Mutexes (spinning and blocking) that keep a process's resource table up to date.
use vstd::prelude::*;
use std::collections::VecDeque;
use crate::banker::{detect_deadlock, request_deadlocks, ResourceTable, TableView};

verus! {

/// What `try_lock` and `Semaphore::try_down` answer when waiting would deadlock.
pub const DEADLOCK_DETECTED: isize = -0xdead;

/// What the calling task does after asking for a lock.
#[derive(PartialEq, Eq, Structural, Debug, Clone, Copy)]
pub enum LockOutcome {
    /// The task holds the lock now.
    Acquired,
    /// The lock is taken: yield the processor, then ask again.
    Retry,
    /// The lock is taken: the task is queued and sleeps until it is handed the lock.
    Blocked,
}

/// What the calling task does after giving a lock (or a semaphore unit) back.
#[derive(PartialEq, Eq, Structural, Debug, Clone, Copy)]
pub enum UnlockOutcome {
    /// Nobody waited: the lock is free (or the unit counted free).
    Released,
    /// The task with this id waited first: it now holds the lock and must be woken.
    HandedOver(usize),
}

/// How asking for a mutex changes the resource table: with `Some(id)`, task `tid` takes a unit
/// of `id` when the mutex is free and waits for one more when it is held; with `None`, nothing.
pub open spec fn lock_effect(table: TableView, locked: bool, tid: int, id_op: Option<usize>) -> TableView {
    match id_op {
        None => table,
        Some(id) => if locked {
            table.with_need(tid, id as int, 1)
        } else {
            table.grant(tid, id as int)
        },
    }
}

/// A mutex that records, in a process's resource table, who holds and who waits for it.
/// `id_op` names the mutex in the table; with `None` the table is left alone.
pub trait Mutex: Sync + Send {
    /// Whether some task holds the mutex.
    spec fn is_locked(&self) -> bool;

    /// What `lock` needs of the mutex and the table.
    spec fn lock_ready(&self, table: TableView, tid: int, id_op: Option<usize>) -> bool;

    /// What `unlock` needs of the mutex and the table.
    spec fn unlock_ready(&self, table: TableView, tid: int, id_op: Option<usize>) -> bool;

    /// Asks, before waiting, whether task `tid` waiting on this mutex would deadlock the process.
    /// The check runs only when the mutex is taken and `detect` is on.
    fn try_lock(&self, table: &ResourceTable, detect: bool, tid: usize, id_op: Option<usize>) -> (r:
        Option<isize>)
        requires
            id_op is Some,
            self.is_locked() && detect ==> table.indexable(tid as int, id_op->0 as int)
                && table.counts_fit(tid as int, id_op->0 as int),
        ensures
            r == if self.is_locked() && detect && request_deadlocks(
                table@.available,
                table@.need,
                table@.allocation,
                tid as int,
                id_op->0 as int,
            ) {
                Some(DEADLOCK_DETECTED)
            } else {
                None::<isize>
            },
    ;

    /// Task `tid` asks for the mutex.
    fn lock(&mut self, table: &mut ResourceTable, tid: usize, id_op: Option<usize>) -> (r: LockOutcome)
        requires
            old(self).lock_ready(old(table)@, tid as int, id_op),
        ensures
            final(self).is_locked(),
            (r == LockOutcome::Acquired) == !old(self).is_locked(),
            final(table)@ == lock_effect(old(table)@, old(self).is_locked(), tid as int, id_op),
    ;

    /// Task `tid` gives the mutex back.
    fn unlock(&mut self, table: &mut ResourceTable, tid: usize, id_op: Option<usize>) -> (r:
        UnlockOutcome)
        requires
            old(self).unlock_ready(old(table)@, tid as int, id_op),
        ensures
            (r == UnlockOutcome::Released) == !final(self).is_locked(),
    ;
}

/// The deadlock check shared by both mutexes: runs only on a taken mutex with detection on.
fn check_before_wait(locked: bool, table: &ResourceTable, detect: bool, tid: usize, id: usize) -> (r:
    Option<isize>)
    requires
        locked && detect ==> table.indexable(tid as int, id as int) && table.counts_fit(
            tid as int,
            id as int,
        ),
    ensures
        r == if locked && detect && request_deadlocks(
            table@.available,
            table@.need,
            table@.allocation,
            tid as int,
            id as int,
        ) {
            Some(DEADLOCK_DETECTED)
        } else {
            None::<isize>
        },
{
    if locked && detect {
        if detect_deadlock(table, tid, id) {
            return Some(DEADLOCK_DETECTED);
        }
    }
    None
}

/// A mutex that a waiting task spins on, yielding the processor between attempts.
pub struct MutexSpin {
    locked: bool,
}

impl View for MutexSpin {
    type V = bool;

    /// Whether the mutex is held.
    closed spec fn view(&self) -> bool {
        self.locked
    }
}

impl MutexSpin {
    /// A free spinning mutex.
    pub fn new() -> (m: Self)
        ensures
            !m@,
    {
        MutexSpin { locked: false }
    }

    /// Whether some task holds the mutex.
    pub fn is_held(&self) -> (b: bool)
        ensures
            b == self@,
    {
        self.locked
    }

    /// One attempt to take the mutex, for a task whose wait is already recorded.
    /// Taken: `Retry`, nothing changes. Free: the task holds it, and with `Some(id)` it takes a
    /// unit of `id` and stops waiting for it.
    pub fn relock(&mut self, table: &mut ResourceTable, tid: usize, id_op: Option<usize>) -> (r:
        LockOutcome)
        requires
            match id_op {
                None => true,
                Some(id) => !old(self)@ ==> {
                    &&& old(table)@.can_grant(tid as int, id as int)
                    &&& 0 <= tid < old(table)@.need.len()
                    &&& id < old(table)@.need[tid as int].len()
                    &&& old(table)@.need[tid as int][id as int] > 0
                },
            },
        ensures
            r == spin_attempt(old(self)@),
            old(self)@ ==> r == LockOutcome::Retry && final(self)@ && final(table)@ == old(table)@,
            !old(self)@ ==> r == LockOutcome::Acquired && final(self)@ && final(table)@ == match id_op {
                None => old(table)@,
                Some(id) => old(table)@.grant(tid as int, id as int).with_need(tid as int, id as int, -1),
            },
    {
        if self.locked {
            return LockOutcome::Retry;
        }
        match id_op {
            None => {},
            Some(id) => {
                table.grant(tid, id);
                table.withdraw(tid, id);
            },
        }
        self.locked = true;
        LockOutcome::Acquired
    }
}

impl Mutex for MutexSpin {
    open spec fn is_locked(&self) -> bool {
        self@
    }

    open spec fn lock_ready(&self, table: TableView, tid: int, id_op: Option<usize>) -> bool {
        match id_op {
            None => true,
            Some(id) => {
                &&& table.can_request(tid, id as int)
                &&& !self@ ==> table.can_grant(tid, id as int)
            },
        }
    }

    open spec fn unlock_ready(&self, table: TableView, tid: int, id_op: Option<usize>) -> bool {
        match id_op {
            None => true,
            Some(id) => table.can_release(tid, id as int),
        }
    }

    fn try_lock(&self, table: &ResourceTable, detect: bool, tid: usize, id_op: Option<usize>) -> (r:
        Option<isize>) {
        let id = id_op.unwrap();
        check_before_wait(self.locked, table, detect, tid, id)
    }

    /// Taken: `Retry` (with `Some(id)` the task's wait for `id` is recorded; it then calls
    /// `relock` after yielding). Free: the task holds it and, with `Some(id)`, a unit of `id`.
    fn lock(&mut self, table: &mut ResourceTable, tid: usize, id_op: Option<usize>) -> (r: LockOutcome)
        ensures
            r == spin_attempt(old(self)@),
            old(self)@ ==> r == LockOutcome::Retry && final(self)@ && final(table)@ == match id_op {
                None => old(table)@,
                Some(id) => old(table)@.with_need(tid as int, id as int, 1),
            },
            !old(self)@ ==> r == LockOutcome::Acquired && final(self)@ && final(table)@ == match id_op {
                None => old(table)@,
                Some(id) => old(table)@.grant(tid as int, id as int),
            },
    {
        match id_op {
            None => {},
            Some(id) => {
                table.request(tid, id);
            },
        }
        let r = self.relock(table, tid, id_op);
        proof {
            if let Some(id) = id_op {
                if !old(self)@ {
                    assert(table@ =~~= old(table)@.grant(tid as int, id as int));
                }
            }
        }
        r
    }

    /// Frees the mutex; with `Some(id)` task `tid` gives its unit of `id` back.
    fn unlock(&mut self, table: &mut ResourceTable, tid: usize, id_op: Option<usize>) -> (r:
        UnlockOutcome)
        ensures
            r == UnlockOutcome::Released,
            !final(self)@,
            final(table)@ == match id_op {
                None => old(table)@,
                Some(id) => old(table)@.release(tid as int, id as int),
            },
    {
        match id_op {
            None => {},
            Some(id) => {
                table.release(tid, id);
            },
        }
        self.locked = false;
        UnlockOutcome::Released
    }
}

/// The state of a blocking mutex: whether it is held, and the ids of the tasks asleep on it,
/// first come first.
pub struct MutexBlockingInner {
    locked: bool,
    wait_queue: VecDeque<usize>,
}

/// A mutex whose waiting tasks sleep in a queue and are handed the lock in turn.
pub struct MutexBlocking {
    inner: MutexBlockingInner,
}

impl MutexBlocking {
    /// Whether the mutex is held.
    pub closed spec fn locked(&self) -> bool {
        self.inner.locked
    }

    /// The ids of the tasks asleep on the mutex, first come first.
    pub closed spec fn waiting(&self) -> Seq<usize> {
        self.inner.wait_queue@
    }

    /// Tasks sleep on the mutex only while it is held.
    pub open spec fn sleepers_only_while_held(&self) -> bool {
        !self.locked() ==> self.waiting().len() == 0
    }

    /// A free blocking mutex with nobody waiting.
    pub fn new() -> (m: Self)
        ensures
            !m.locked(),
            m.waiting() == Seq::<usize>::empty(),
            m.sleepers_only_while_held(),
    {
        MutexBlocking { inner: MutexBlockingInner { locked: false, wait_queue: VecDeque::new() } }
    }

    /// Whether some task holds the mutex.
    pub fn is_held(&self) -> (b: bool)
        ensures
            b == self.locked(),
    {
        self.inner.locked
    }

    /// The task that waited longest for the mutex, if any.
    pub fn next_waiting(&self) -> (r: Option<usize>)
        ensures
            r == if self.waiting().len() > 0 {
                Some(self.waiting()[0])
            } else {
                None::<usize>
            },
    {
        if self.inner.wait_queue.len() > 0 {
            Some(self.inner.wait_queue[0])
        } else {
            None
        }
    }
}

impl Mutex for MutexBlocking {
    open spec fn is_locked(&self) -> bool {
        self.locked()
    }

    open spec fn lock_ready(&self, table: TableView, tid: int, id_op: Option<usize>) -> bool {
        match id_op {
            None => true,
            Some(id) => if self.locked() {
                table.can_request(tid, id as int)
            } else {
                table.can_grant(tid, id as int)
            },
        }
    }

    open spec fn unlock_ready(&self, table: TableView, tid: int, id_op: Option<usize>) -> bool {
        &&& self.locked()
        &&& match id_op {
            None => true,
            Some(id) => if self.waiting().len() > 0 {
                table.can_hand_over(self.waiting()[0] as int, id as int)
            } else {
                table.can_free(id as int)
            },
        }
    }

    fn try_lock(&self, table: &ResourceTable, detect: bool, tid: usize, id_op: Option<usize>) -> (r:
        Option<isize>) {
        let id = id_op.unwrap();
        check_before_wait(self.inner.locked, table, detect, tid, id)
    }

    /// Taken: task `tid` joins the end of the queue and sleeps (`Blocked`); with `Some(id)` its
    /// wait for `id` is recorded. Free: it holds the mutex and, with `Some(id)`, a unit of `id`.
    fn lock(&mut self, table: &mut ResourceTable, tid: usize, id_op: Option<usize>) -> (r: LockOutcome)
        ensures
            final(self).locked(),
            final(self).sleepers_only_while_held(),
            old(self).locked() ==> {
                &&& r == LockOutcome::Blocked
                &&& final(self).waiting() == old(self).waiting().push(tid)
                &&& final(table)@ == match id_op {
                    None => old(table)@,
                    Some(id) => old(table)@.with_need(tid as int, id as int, 1),
                }
            },
            !old(self).locked() ==> {
                &&& r == LockOutcome::Acquired
                &&& final(self).waiting() == old(self).waiting()
                &&& final(table)@ == match id_op {
                    None => old(table)@,
                    Some(id) => old(table)@.grant(tid as int, id as int),
                }
            },
    {
        if self.inner.locked {
            match id_op {
                None => {},
                Some(id) => {
                    table.request(tid, id);
                },
            }
            self.inner.wait_queue.push_back(tid);
            LockOutcome::Blocked
        } else {
            match id_op {
                None => {},
                Some(id) => {
                    table.grant(tid, id);
                },
            }
            self.inner.locked = true;
            LockOutcome::Acquired
        }
    }

    /// Hands the mutex to the first sleeping task, which leaves the queue (and, with `Some(id)`,
    /// is given the unit of `id` it waited for); with nobody waiting the mutex becomes free
    /// (and, with `Some(id)`, a unit of `id` is counted free).
    fn unlock(&mut self, table: &mut ResourceTable, tid: usize, id_op: Option<usize>) -> (r:
        UnlockOutcome)
        ensures
            final(self).sleepers_only_while_held(),
            old(self).waiting().len() > 0 ==> {
                &&& r == UnlockOutcome::HandedOver(old(self).waiting()[0])
                &&& final(self).locked()
                &&& final(self).waiting() == old(self).waiting().drop_first()
                &&& final(table)@ == match id_op {
                    None => old(table)@,
                    Some(id) => old(table)@.hand_over(old(self).waiting()[0] as int, id as int),
                }
            },
            old(self).waiting().len() == 0 ==> {
                &&& r == UnlockOutcome::Released
                &&& !final(self).locked()
                &&& final(self).waiting() == old(self).waiting()
                &&& final(table)@ == match id_op {
                    None => old(table)@,
                    Some(id) => old(table)@.with_available(id as int, 1),
                }
            },
    {
        match self.inner.wait_queue.pop_front() {
            Some(waking) => {
                match id_op {
                    None => {},
                    Some(id) => {
                        table.hand_over(waking, id);
                    },
                }
                UnlockOutcome::HandedOver(waking)
            },
            None => {
                match id_op {
                    None => {},
                    Some(id) => {
                        table.free_unit(id);
                    },
                }
                self.inner.locked = false;
                UnlockOutcome::Released
            },
        }
    }
}

/// A task that waits on a spinning mutex, then takes it and gives it back, leaves the resource
/// table as it was.
pub proof fn law_spin_wait_lock_unlock_restores_table(table: TableView, t: int, j: int)
    requires
        table.can_request(t, j),
        table.can_grant(t, j),
    ensures
        table.with_need(t, j, 1).grant(t, j).with_need(t, j, -1).release(t, j) == table,
{
    let after = table.with_need(t, j, 1).grant(t, j).with_need(t, j, -1).release(t, j);
    assert(after.need =~~= table.need);
    assert(after.allocation =~~= table.allocation);
    assert(after.available =~= table.available);
}

/// A task that blocks on a mutex (or semaphore) and is then handed it ends up holding one
/// more unit and waiting for nothing more than before it blocked.
pub proof fn law_blocked_then_handed_over_holds(table: TableView, t: int, j: int)
    requires
        table.can_request(t, j),
        0 <= t < table.allocation.len(),
        0 <= j < table.allocation[t].len(),
        table.allocation[t][j] < usize::MAX,
    ensures
        table.with_need(t, j, 1).hand_over(t, j) == table.with_allocation(t, j, 1),
{
    let after = table.with_need(t, j, 1).hand_over(t, j);
    assert(after.need =~~= table.need);
    assert(after.allocation =~~= table.with_allocation(t, j, 1).allocation);
}

/// What one attempt on a spinning mutex returns: `Retry` while it is held, `Acquired` when it
/// is free (after which it is held either way).
pub open spec fn spin_attempt(locked: bool) -> LockOutcome {
    if locked {
        LockOutcome::Retry
    } else {
        LockOutcome::Acquired
    }
}

/// What a run of `n` attempts on a spinning mutex (`lock` or `relock`, by any tasks, with no
/// `unlock` between) returns, starting from a mutex that is held (`locked`) or free.
pub open spec fn spin_attempts(locked: bool, n: nat) -> Seq<LockOutcome>
    decreases n,
{
    if n == 0 {
        Seq::empty()
    } else {
        seq![spin_attempt(locked)] + spin_attempts(true, (n - 1) as nat)
    }
}

/// Mutual exclusion of the spinning mutex: until it is unlocked, at most one attempt takes it
/// (the first, and only if it was free); every other attempt is told to retry.
pub proof fn law_spin_mutual_exclusion(locked: bool, n: nat)
    ensures
        spin_attempts(locked, n).len() == n,
        forall|k: int|
            0 <= k < n ==> (#[trigger] spin_attempts(locked, n)[k] == LockOutcome::Acquired <==> (k == 0
                && !locked)),
    decreases n,
{
    if n > 0 {
        law_spin_mutual_exclusion(true, (n - 1) as nat);
        let rest = spin_attempts(true, (n - 1) as nat);
        let first = spin_attempt(locked);
        assert forall|k: int| 0 < k < n implies #[trigger] spin_attempts(locked, n)[k] == rest[k - 1] by {
            assert(spin_attempts(locked, n) == seq![first] + rest);
        }
        assert(spin_attempts(locked, n)[0] == first);
    }
}

} // verus!
