//! Counting semaphores that keep a process's resource table up to date.
use vstd::prelude::*;
use std::collections::VecDeque;
use crate::banker::{detect_deadlock, request_deadlocks, ResourceTable, TableView};
use crate::mutex::{LockOutcome, UnlockOutcome, DEADLOCK_DETECTED};

verus! {

/// The state of a semaphore: its count (free units when positive, sleeping tasks when
/// negative) and the ids of the tasks asleep on it, first come first.
pub struct SemaphoreInner {
    pub count: isize,
    pub wait_queue: VecDeque<usize>,
}

/// How `up` changes a semaphore (count `c`, queue `q`) and the table `t` for semaphore `id`:
/// the count grows by one; if it is still not positive, the first sleeping task (if any) leaves
/// the queue and is handed the unit it waited for; otherwise the unit is counted free.
pub open spec fn up_step(
    c: int,
    q: Seq<usize>,
    t: TableView,
    id: int,
    c2: int,
    q2: Seq<usize>,
    t2: TableView,
) -> bool {
    &&& c2 == c + 1
    &&& if c + 1 <= 0 && q.len() > 0 {
        q2 == q.drop_first() && t2 == t.hand_over(q[0] as int, id)
    } else if c + 1 <= 0 {
        q2 == q && t2 == t
    } else {
        q2 == q && t2 == t.with_available(id, 1)
    }
}

/// What `up` returns: the task handed the unit, if one was waiting and the count says so.
pub open spec fn up_outcome(c: int, q: Seq<usize>) -> UnlockOutcome {
    if c + 1 <= 0 && q.len() > 0 {
        UnlockOutcome::HandedOver(q[0])
    } else {
        UnlockOutcome::Released
    }
}

/// How `down` by task `tid` changes a semaphore (count `c`, queue `q`) and the table `t` for
/// semaphore `id`: the count drops by one; if it turns negative the task joins the end of the
/// queue with its wait recorded, otherwise it takes a unit.
pub open spec fn down_step(
    c: int,
    q: Seq<usize>,
    t: TableView,
    tid: int,
    id: int,
    c2: int,
    q2: Seq<usize>,
    t2: TableView,
) -> bool {
    &&& c2 == c - 1
    &&& if c - 1 < 0 {
        q2 == q.push(tid as usize) && t2 == t.with_need(tid, id, 1)
    } else {
        q2 == q && t2 == t.grant(tid, id)
    }
}

/// What `down` returns: `Blocked` when the count turns negative, `Acquired` otherwise.
pub open spec fn down_outcome(c: int) -> LockOutcome {
    if c - 1 < 0 {
        LockOutcome::Blocked
    } else {
        LockOutcome::Acquired
    }
}

/// The semaphore's count agrees with its queue and the free units of resource `id`: as many
/// tasks sleep as the count is below zero, and as many units are free as it is above.
pub open spec fn balanced(c: int, q: Seq<usize>, t: TableView, id: int) -> bool {
    &&& q.len() == if c < 0 { -c } else { 0 }
    &&& t.available[id] == if c > 0 { c } else { 0 }
}

/// A counting semaphore; `id` names it in the process's resource table.
pub struct Semaphore {
    pub inner: SemaphoreInner,
}

impl Semaphore {
    /// A semaphore with `res_count` free units and nobody waiting.
    pub fn new(res_count: usize) -> (s: Self)
        ensures
            s.inner.count == res_count as isize,
            s.inner.wait_queue@ == Seq::<usize>::empty(),
    {
        Semaphore { inner: SemaphoreInner { count: res_count as isize, wait_queue: VecDeque::new() } }
    }

    /// Gives a unit back. The count grows by one; if it is still not positive, the first sleeping
    /// task (if any) leaves the queue and is handed the unit it waited for; otherwise the unit
    /// is counted free in the table.
    pub fn up(&mut self, table: &mut ResourceTable, id: usize) -> (r: UnlockOutcome)
        requires
            old(self).inner.count < isize::MAX,
            old(self).inner.count + 1 <= 0 && old(self).inner.wait_queue@.len() > 0
                ==> old(table)@.can_hand_over(old(self).inner.wait_queue@[0] as int, id as int),
            old(self).inner.count + 1 > 0 ==> old(table)@.can_free(id as int),
        ensures
            up_step(
                old(self).inner.count as int,
                old(self).inner.wait_queue@,
                old(table)@,
                id as int,
                final(self).inner.count as int,
                final(self).inner.wait_queue@,
                final(table)@,
            ),
            r == up_outcome(old(self).inner.count as int, old(self).inner.wait_queue@),
            r matches UnlockOutcome::HandedOver(w) ==> {
                &&& old(self).inner.wait_queue@.len() > 0
                &&& w == old(self).inner.wait_queue@[0]
                &&& final(self).inner.wait_queue@ == old(self).inner.wait_queue@.drop_first()
                &&& final(table)@ == old(table)@.hand_over(w as int, id as int)
            },
            r == UnlockOutcome::Released ==> final(self).inner.wait_queue@ == old(self).inner.wait_queue@,
    {
        self.inner.count = self.inner.count + 1;
        if self.inner.count <= 0 {
            if let Some(task) = self.inner.wait_queue.pop_front() {
                table.hand_over(task, id);
                return UnlockOutcome::HandedOver(task);
            }
        } else {
            table.free_unit(id);
        }
        UnlockOutcome::Released
    }

    /// Asks, before waiting, whether task `tid` waiting on this semaphore would deadlock the
    /// process. The check runs only when no unit is free and `detect` is on.
    pub fn try_down(&self, table: &ResourceTable, detect: bool, tid: usize, id: usize) -> (r: Option<
        isize,
    >)
        requires
            self.inner.count <= 0 && detect ==> table.indexable(tid as int, id as int)
                && table.counts_fit(tid as int, id as int),
        ensures
            r == if self.inner.count <= 0 && detect && request_deadlocks(
                table@.available,
                table@.need,
                table@.allocation,
                tid as int,
                id as int,
            ) {
                Some(DEADLOCK_DETECTED)
            } else {
                None::<isize>
            },
    {
        if self.inner.count <= 0 && detect {
            if detect_deadlock(table, tid, id) {
                return Some(DEADLOCK_DETECTED);
            }
        }
        None
    }

    /// Task `tid` takes a unit. The count drops by one; if it turns negative, the task joins the
    /// end of the queue and sleeps (`Blocked`) with its wait recorded, otherwise it holds a unit
    /// (`Acquired`).
    pub fn down(&mut self, table: &mut ResourceTable, tid: usize, id: usize) -> (r: LockOutcome)
        requires
            old(self).inner.count > isize::MIN,
            old(self).inner.count - 1 < 0 ==> old(table)@.can_request(tid as int, id as int),
            old(self).inner.count - 1 >= 0 ==> old(table)@.can_grant(tid as int, id as int),
        ensures
            down_step(
                old(self).inner.count as int,
                old(self).inner.wait_queue@,
                old(table)@,
                tid as int,
                id as int,
                final(self).inner.count as int,
                final(self).inner.wait_queue@,
                final(table)@,
            ),
            r == down_outcome(old(self).inner.count as int),
            (r == LockOutcome::Blocked) == (final(self).inner.count < 0),
            r == LockOutcome::Blocked ==> final(self).inner.wait_queue@ == old(self).inner.wait_queue@.push(tid)
                && final(table)@ == old(table)@.with_need(tid as int, id as int, 1),
            r == LockOutcome::Acquired ==> final(self).inner.wait_queue@ == old(self).inner.wait_queue@
                && final(table)@ == old(table)@.grant(tid as int, id as int),
    {
        self.inner.count = self.inner.count - 1;
        if self.inner.count < 0 {
            table.request(tid, id);
            self.inner.wait_queue.push_back(tid);
            LockOutcome::Blocked
        } else {
            table.grant(tid, id);
            LockOutcome::Acquired
        }
    }
}

/// `up` and `down` keep a semaphore's count, queue and free units in agreement; in
/// particular `up` finds a sleeping task exactly when the new count is not positive.
pub proof fn law_semaphore_stays_balanced(
    c: int,
    q: Seq<usize>,
    t: TableView,
    tid: int,
    id: int,
    c2: int,
    q2: Seq<usize>,
    t2: TableView,
)
    requires
        balanced(c, q, t, id),
        0 <= id < t.available.len(),
        t.available[id] < usize::MAX,
    ensures
        up_step(c, q, t, id, c2, q2, t2) ==> balanced(c2, q2, t2, id) && (up_outcome(c, q)
            is HandedOver <==> c2 <= 0),
        down_step(c, q, t, tid, id, c2, q2, t2) ==> balanced(c2, q2, t2, id),
{
}

/// Sleeping tasks are woken in the order they went to sleep: `up` wakes the task at the front,
/// and neither `up` nor `down` reorders those that stay queued.
pub proof fn law_semaphore_wakes_in_order(
    c: int,
    q: Seq<usize>,
    t: TableView,
    tid: int,
    id: int,
    c2: int,
    q2: Seq<usize>,
    t2: TableView,
    i: int,
    j: int,
)
    requires
        0 <= i < j < q.len(),
    ensures
        up_step(c, q, t, id, c2, q2, t2) ==> {
            &&& up_outcome(c, q) is HandedOver ==> up_outcome(c, q) == UnlockOutcome::HandedOver(q[0])
                && (i > 0 ==> q2[i - 1] == q[i]) && q2[j - 1] == q[j]
            &&& !(up_outcome(c, q) is HandedOver) ==> q2[i] == q[i] && q2[j] == q[j]
        },
        down_step(c, q, t, tid, id, c2, q2, t2) ==> q2[i] == q[i] && q2[j] == q[j],
{
}

/// With no task asleep, `up` followed by `down` gives the semaphore back its count, queue and
/// free units; the task that went down now holds a unit and did not block.
pub proof fn law_down_undoes_up(
    c: int,
    q: Seq<usize>,
    t: TableView,
    tid: int,
    id: int,
    c1: int,
    q1: Seq<usize>,
    t1: TableView,
    c2: int,
    q2: Seq<usize>,
    t2: TableView,
)
    requires
        c >= 0,
        0 <= id < t.available.len(),
        t.available[id] < usize::MAX,
        up_step(c, q, t, id, c1, q1, t1),
        down_step(c1, q1, t1, tid, id, c2, q2, t2),
    ensures
        down_outcome(c1) == LockOutcome::Acquired,
        c2 == c,
        q2 == q,
        t2.available == t.available,
        t2 == t.with_allocation(tid, id, 1),
{
    assert(t2.available =~= t.available);
    assert(t2 =~= t.with_allocation(tid, id, 1));
}

/// `down` tells the caller to sleep exactly when the count it leaves is negative, which is
/// exactly when it joins the queue with its wait recorded; otherwise it holds a granted unit.
pub proof fn law_down_blocks_exactly_when_count_negative(
    c: int,
    q: Seq<usize>,
    t: TableView,
    tid: int,
    id: int,
    c2: int,
    q2: Seq<usize>,
    t2: TableView,
)
    requires
        down_step(c, q, t, tid, id, c2, q2, t2),
    ensures
        c2 == c - 1,
        (down_outcome(c) == LockOutcome::Blocked) == (c2 < 0),
        (down_outcome(c) == LockOutcome::Blocked) == (q2.len() == q.len() + 1),
        down_outcome(c) == LockOutcome::Blocked ==> q2 == q.push(tid as usize) && t2 == t.with_need(tid, id, 1),
        down_outcome(c) == LockOutcome::Acquired ==> q2 == q && t2 == t.grant(tid, id),
{
}

/// Whenever `up` hands a unit to a sleeping task, that task is the front of the queue, it
/// leaves the queue, and the table records it holding the unit instead of waiting for it,
/// whatever count remains; when `up` wakes nobody, the queue stays as it was.
pub proof fn law_up_hand_over_updates_table(
    c: int,
    q: Seq<usize>,
    t: TableView,
    id: int,
    c2: int,
    q2: Seq<usize>,
    t2: TableView,
)
    requires
        up_step(c, q, t, id, c2, q2, t2),
    ensures
        c2 == c + 1,
        up_outcome(c, q) matches UnlockOutcome::HandedOver(w) ==> {
            &&& c2 <= 0
            &&& q.len() > 0
            &&& w == q[0]
            &&& q2 == q.drop_first()
            &&& t2 == t.hand_over(w as int, id)
        },
        up_outcome(c, q) == UnlockOutcome::Released ==> q2 == q,
        c2 <= 0 && q.len() > 0 ==> up_outcome(c, q) == UnlockOutcome::HandedOver(q[0]),
        c2 > 0 ==> up_outcome(c, q) == UnlockOutcome::Released && t2 == t.with_available(id, 1),
{
}

} // verus!
