//! Deadlock detection over the per-process resource matrices (the banker's safety check).
use vstd::prelude::*;
use vstd::set_lib::lemma_len_subset;

verus! {

/// The bookkeeping a process keeps for one kind of resource (its mutexes, or its semaphores):
/// how many units of each resource are free, and for each task how many units of each
/// resource it holds and how many more it is waiting for.
pub struct ResourceTable {
    /// `available[j]`: free units of resource `j`.
    pub available: Vec<usize>,
    /// `allocation[t][j]`: units of resource `j` held by task `t`.
    pub allocation: Vec<Vec<usize>>,
    /// `need[t][j]`: units of resource `j` task `t` is waiting for.
    pub need: Vec<Vec<usize>>,
}

/// The contents of a [`ResourceTable`], as sequences.
#[verifier::ext_equal]
pub struct TableView {
    pub available: Seq<usize>,
    pub allocation: Seq<Seq<usize>>,
    pub need: Seq<Seq<usize>>,
}

impl View for ResourceTable {
    type V = TableView;

    open spec fn view(&self) -> TableView {
        TableView {
            available: self.available@,
            allocation: self.allocation.deep_view(),
            need: self.need.deep_view(),
        }
    }
}

impl TableView {
    /// Task `t` waits for `delta` more units of resource `j`.
    pub open spec fn with_need(self, t: int, j: int, delta: int) -> TableView {
        TableView { need: bumped(self.need, t, j, delta), ..self }
    }

    /// Task `t` holds `delta` more units of resource `j`.
    pub open spec fn with_allocation(self, t: int, j: int, delta: int) -> TableView {
        TableView { allocation: bumped(self.allocation, t, j, delta), ..self }
    }

    /// `delta` more units of resource `j` are free.
    pub open spec fn with_available(self, j: int, delta: int) -> TableView {
        TableView {
            available: self.available.update(j, (self.available[j] + delta) as usize),
            ..self
        }
    }

    /// Task `t` takes a free unit of resource `j`.
    pub open spec fn grant(self, t: int, j: int) -> TableView {
        self.with_allocation(t, j, 1).with_available(j, -1)
    }

    /// Task `t` gives a unit of resource `j` back.
    pub open spec fn release(self, t: int, j: int) -> TableView {
        self.with_allocation(t, j, -1).with_available(j, 1)
    }

    /// Task `t`, which waited for a unit of resource `j`, is handed one.
    pub open spec fn hand_over(self, t: int, j: int) -> TableView {
        self.with_allocation(t, j, 1).with_need(t, j, -1)
    }

    /// Every task's allocation row has an entry for every resource.
    pub open spec fn rows_cover_resources(self) -> bool {
        forall|i: int| 0 <= i < self.allocation.len() ==> #[trigger] self.allocation[i].len() == self.available.len()
    }

    /// Task `t` can wait for one more unit of resource `j`: the entry exists and can grow.
    pub open spec fn can_request(self, t: int, j: int) -> bool {
        &&& 0 <= t < self.need.len()
        &&& 0 <= j < self.need[t].len()
        &&& self.need[t][j] < usize::MAX
    }

    /// Task `t` can take a unit of resource `j`: one is free and its holding can grow.
    pub open spec fn can_grant(self, t: int, j: int) -> bool {
        &&& 0 <= t < self.allocation.len()
        &&& 0 <= j < self.allocation[t].len()
        &&& self.allocation[t][j] < usize::MAX
        &&& 0 <= j < self.available.len()
        &&& self.available[j] > 0
    }

    /// Task `t` can give back a unit of resource `j`: it holds one and the free count can grow.
    pub open spec fn can_release(self, t: int, j: int) -> bool {
        &&& 0 <= t < self.allocation.len()
        &&& 0 <= j < self.allocation[t].len()
        &&& self.allocation[t][j] > 0
        &&& 0 <= j < self.available.len()
        &&& self.available[j] < usize::MAX
    }

    /// One more unit of resource `j` can be counted free.
    pub open spec fn can_free(self, j: int) -> bool {
        &&& 0 <= j < self.available.len()
        &&& self.available[j] < usize::MAX
    }

    /// Task `t`, waiting for resource `j`, can be handed a unit of it.
    pub open spec fn can_hand_over(self, t: int, j: int) -> bool {
        &&& 0 <= t < self.allocation.len()
        &&& 0 <= j < self.allocation[t].len()
        &&& self.allocation[t][j] < usize::MAX
        &&& 0 <= t < self.need.len()
        &&& 0 <= j < self.need[t].len()
        &&& self.need[t][j] > 0
    }
}

/// Units of resource `j` held, all together, by the tasks of `done` among the tasks `0..upto`.
pub open spec fn held(alloc: Seq<Seq<usize>>, done: Set<int>, j: int, upto: int) -> int
    decreases upto,
{
    if upto <= 0 {
        0
    } else {
        held(alloc, done, j, upto - 1) + if done.contains(upto - 1) {
            alloc[upto - 1][j] as int
        } else {
            0
        }
    }
}

/// Free units of resource `j` once every task of `done` has run to completion and given back
/// what it holds.
pub open spec fn work_after(
    available: Seq<usize>,
    alloc: Seq<Seq<usize>>,
    done: Set<int>,
    j: int,
) -> int {
    available[j] + held(alloc, done, j, alloc.len() as int)
}

/// Task `i` can run to completion once the tasks of `done` have: every resource it waits for
/// is free by then.
pub open spec fn can_finish(
    available: Seq<usize>,
    need: Seq<Seq<usize>>,
    alloc: Seq<Seq<usize>>,
    done: Set<int>,
    i: int,
) -> bool {
    forall|j: int|
        0 <= j < available.len() ==> need[i][j] <= #[trigger] work_after(available, alloc, done, j)
}

/// `order` lists distinct tasks, each of which can run to completion once the ones before it
/// have.
pub open spec fn safe_sequence(
    available: Seq<usize>,
    need: Seq<Seq<usize>>,
    alloc: Seq<Seq<usize>>,
    order: Seq<int>,
) -> bool {
    &&& order.no_duplicates()
    &&& forall|k: int| 0 <= k < order.len() ==> 0 <= #[trigger] order[k] < alloc.len()
    &&& forall|k: int|
        0 <= k < order.len() ==> #[trigger] can_finish(
            available,
            need,
            alloc,
            order.take(k).to_set(),
            order[k],
        )
}

/// Some `count` distinct tasks can run to completion one after another.
pub open spec fn can_complete(
    available: Seq<usize>,
    need: Seq<Seq<usize>>,
    alloc: Seq<Seq<usize>>,
    count: nat,
) -> bool {
    exists|order: Seq<int>| order.len() == count && safe_sequence(available, need, alloc, order)
}

/// Matrix `m` with entry (`t`, `j`) moved by `delta`.
pub open spec fn bumped(m: Seq<Seq<usize>>, t: int, j: int, delta: int) -> Seq<Seq<usize>> {
    m.update(t, m[t].update(j, (m[t][j] + delta) as usize))
}

/// The need matrix once task `tid` asks for one more unit of resource `id`.
pub open spec fn need_with_request(need: Seq<Seq<usize>>, tid: int, id: int) -> Seq<Seq<usize>> {
    bumped(need, tid, id, 1)
}

/// The verdict of the check on a request of task `tid` for one more unit of resource `id`:
/// a deadlock unless as many tasks as there are resources can run to completion in turn.
pub open spec fn request_deadlocks(
    available: Seq<usize>,
    need: Seq<Seq<usize>>,
    alloc: Seq<Seq<usize>>,
    tid: int,
    id: int,
) -> bool {
    !can_complete(available, need_with_request(need, tid, id), alloc, available.len())
}

impl ResourceTable {
    /// The shape that the check indexes: a need row and an allocation row for every task,
    /// each with an entry for every resource, and the request's own entry.
    pub open spec fn indexable(&self, tid: int, id: int) -> bool {
        &&& self.need.len() >= self.allocation.len()
        &&& forall|i: int|
            0 <= i < self.allocation.len() ==> #[trigger] self.need@[i].len()
                >= self.available.len()
        &&& forall|i: int|
            0 <= i < self.allocation.len() ==> #[trigger] self.allocation@[i].len()
                >= self.available.len()
        &&& 0 <= tid < self.need.len()
        &&& 0 <= id < self.need@[tid as int].len()
    }

    /// No count the check computes goes past `usize::MAX`: the requested entry can grow by one,
    /// and each resource's free units plus all units held of it fit in a `usize`.
    pub open spec fn counts_fit(&self, tid: int, id: int) -> bool {
        &&& self.need@[tid as int]@[id as int] < usize::MAX
        &&& forall|j: int|
            0 <= j < self.available.len() ==> #[trigger] work_after(
                self.available@,
                self.allocation.deep_view(),
                Set::full(),
                j,
            ) <= usize::MAX
    }
}

/// Moves entry (`t`, `j`) of `m` one up or one down.
fn step_entry(m: &mut Vec<Vec<usize>>, t: usize, j: usize, up: bool)
    requires
        t < old(m).len(),
        j < old(m)@[t as int].len(),
        up ==> old(m)@[t as int]@[j as int] < usize::MAX,
        !up ==> old(m)@[t as int]@[j as int] > 0,
    ensures
        final(m).deep_view() == bumped(old(m).deep_view(), t as int, j as int, if up { 1 } else { -1 }),
        final(m).len() == old(m).len(),
        forall|i: int| 0 <= i < final(m).len() ==> #[trigger] final(m)@[i].len() == old(m)@[i].len(),
{
    let v = if up { m[t][j] + 1 } else { m[t][j] - 1 };
    m[t][j] = v;
    proof {
        assert(m@[t as int].deep_view() =~= old(m)@[t as int].deep_view().update(j as int, v));
        assert(m.deep_view() =~= bumped(old(m).deep_view(), t as int, j as int, if up { 1 } else { -1 }));
    }
}

impl ResourceTable {
    /// Task `t` waits for one unit more (`up`) or one unit less of resource `j`.
    pub(crate) fn step_need(&mut self, t: usize, j: usize, up: bool)
        requires
            t < old(self).need.len(),
            j < old(self).need@[t as int].len(),
            up ==> old(self).need@[t as int]@[j as int] < usize::MAX,
            !up ==> old(self).need@[t as int]@[j as int] > 0,
        ensures
            final(self)@ == old(self)@.with_need(t as int, j as int, if up { 1 } else { -1 }),
            final(self).need.len() == old(self).need.len(),
            forall|i: int| 0 <= i < final(self).need.len() ==> #[trigger] final(self).need@[i].len() == old(self).need@[i].len(),
            final(self).allocation == old(self).allocation,
            final(self).available == old(self).available,
    {
        step_entry(&mut self.need, t, j, up);
    }

    /// Task `t` holds one unit more (`up`) or one unit less of resource `j`.
    pub(crate) fn step_allocation(&mut self, t: usize, j: usize, up: bool)
        requires
            t < old(self).allocation.len(),
            j < old(self).allocation@[t as int].len(),
            up ==> old(self).allocation@[t as int]@[j as int] < usize::MAX,
            !up ==> old(self).allocation@[t as int]@[j as int] > 0,
        ensures
            final(self)@ == old(self)@.with_allocation(t as int, j as int, if up { 1 } else { -1 }),
            final(self).allocation.len() == old(self).allocation.len(),
            forall|i: int| 0 <= i < final(self).allocation.len() ==> #[trigger] final(self).allocation@[i].len() == old(self).allocation@[i].len(),
            final(self).need == old(self).need,
            final(self).available == old(self).available,
    {
        step_entry(&mut self.allocation, t, j, up);
    }

    /// One unit more (`up`) or one unit less of resource `j` is free.
    pub(crate) fn step_available(&mut self, j: usize, up: bool)
        requires
            j < old(self).available.len(),
            up ==> old(self).available@[j as int] < usize::MAX,
            !up ==> old(self).available@[j as int] > 0,
        ensures
            final(self)@ == old(self)@.with_available(j as int, if up { 1 } else { -1 }),
            final(self).available.len() == old(self).available.len(),
            final(self).need == old(self).need,
            final(self).allocation == old(self).allocation,
    {
        let v = if up { self.available[j] + 1 } else { self.available[j] - 1 };
        self.available.set(j, v);
    }
}

impl ResourceTable {
    /// Task `t` starts waiting for one more unit of resource `j`.
    pub(crate) fn request(&mut self, t: usize, j: usize)
        requires
            old(self)@.can_request(t as int, j as int),
        ensures
            final(self)@ == old(self)@.with_need(t as int, j as int, 1),
    {
        assert(self.need@[t as int].deep_view()[j as int] == self.need@[t as int]@[j as int]);
        self.step_need(t, j, true);
    }

    /// Task `t` stops waiting for one unit of resource `j`.
    pub(crate) fn withdraw(&mut self, t: usize, j: usize)
        requires
            0 <= t < old(self)@.need.len(),
            0 <= j < old(self)@.need[t as int].len(),
            old(self)@.need[t as int][j as int] > 0,
        ensures
            final(self)@ == old(self)@.with_need(t as int, j as int, -1),
    {
        assert(self.need@[t as int].deep_view()[j as int] == self.need@[t as int]@[j as int]);
        self.step_need(t, j, false);
    }

    /// Task `t` takes a free unit of resource `j`.
    pub(crate) fn grant(&mut self, t: usize, j: usize)
        requires
            old(self)@.can_grant(t as int, j as int),
        ensures
            final(self)@ == old(self)@.grant(t as int, j as int),
    {
        assert(self.allocation@[t as int].deep_view()[j as int] == self.allocation@[t as int]@[j as int]);
        self.step_allocation(t, j, true);
        self.step_available(j, false);
    }

    /// Task `t` gives a unit of resource `j` back to the free pool.
    pub(crate) fn release(&mut self, t: usize, j: usize)
        requires
            old(self)@.can_release(t as int, j as int),
        ensures
            final(self)@ == old(self)@.release(t as int, j as int),
    {
        assert(self.allocation@[t as int].deep_view()[j as int] == self.allocation@[t as int]@[j as int]);
        self.step_allocation(t, j, false);
        self.step_available(j, true);
    }

    /// Task `t`, which waited for resource `j`, is handed a unit of it directly.
    pub(crate) fn hand_over(&mut self, t: usize, j: usize)
        requires
            old(self)@.can_hand_over(t as int, j as int),
        ensures
            final(self)@ == old(self)@.hand_over(t as int, j as int),
    {
        assert(self.allocation@[t as int].deep_view()[j as int] == self.allocation@[t as int]@[j as int]);
        assert(self.need@[t as int].deep_view()[j as int] == self.need@[t as int]@[j as int]);
        self.step_allocation(t, j, true);
        self.step_need(t, j, false);
    }

    /// One more unit of resource `j` is counted free.
    pub(crate) fn free_unit(&mut self, j: usize)
        requires
            old(self)@.can_free(j as int),
        ensures
            final(self)@ == old(self)@.with_available(j as int, 1),
    {
        self.step_available(j, true);
    }
}

/// Holding more tasks never means fewer units held.
proof fn lemma_held_mono(alloc: Seq<Seq<usize>>, a: Set<int>, b: Set<int>, j: int, upto: int)
    requires
        a.subset_of(b),
    ensures
        held(alloc, a, j, upto) <= held(alloc, b, j, upto),
    decreases upto,
{
    if upto > 0 {
        lemma_held_mono(alloc, a, b, j, upto - 1);
    }
}

/// Nothing is held by no task.
proof fn lemma_held_empty(alloc: Seq<Seq<usize>>, j: int, upto: int)
    ensures
        held(alloc, Set::empty(), j, upto) == 0,
    decreases upto,
{
    if upto > 0 {
        lemma_held_empty(alloc, j, upto - 1);
    }
}

/// Adding a task that was not yet counted adds what it holds.
proof fn lemma_held_insert(alloc: Seq<Seq<usize>>, a: Set<int>, x: int, j: int, upto: int)
    requires
        !a.contains(x),
        0 <= x,
    ensures
        held(alloc, a.insert(x), j, upto) == held(alloc, a, j, upto) + if x < upto {
            alloc[x][j] as int
        } else {
            0
        },
    decreases upto,
{
    if upto > 0 {
        lemma_held_insert(alloc, a, x, j, upto - 1);
    }
}

/// If the tasks outside `order` cannot run once those of `order` have, every element of a
/// safe sequence up to `k` lies in `order`.
proof fn lemma_prefix_in_order(
    available: Seq<usize>,
    need: Seq<Seq<usize>>,
    alloc: Seq<Seq<usize>>,
    order: Seq<int>,
    s: Seq<int>,
    k: int,
)
    requires
        forall|i: int|
            0 <= i < alloc.len() && !order.contains(i) ==> !#[trigger] can_finish(
                available,
                need,
                alloc,
                order.to_set(),
                i,
            ),
        safe_sequence(available, need, alloc, s),
        0 <= k <= s.len(),
    ensures
        forall|t: int| 0 <= t < k ==> order.contains(#[trigger] s[t]),
    decreases k,
{
    if k > 0 {
        lemma_prefix_in_order(available, need, alloc, order, s, k - 1);
        let before = s.take(k - 1).to_set();
        assert(before.subset_of(order.to_set())) by {
            assert forall|x: int| before.contains(x) implies order.to_set().contains(x) by {
                let t = choose|t: int| 0 <= t < k - 1 && #[trigger] s.take(k - 1)[t] == x;
                assert(s[t] == x);
            }
        }
        let x = s[k - 1];
        assert(can_finish(available, need, alloc, before, x));
        assert forall|j: int| 0 <= j < available.len() implies need[x][j] <= #[trigger] work_after(
            available,
            alloc,
            order.to_set(),
            j,
        ) by {
            assert(need[x][j] <= work_after(available, alloc, before, j));
            lemma_held_mono(alloc, before, order.to_set(), j, alloc.len() as int);
        }
        assert(can_finish(available, need, alloc, order.to_set(), x));
        assert(order.contains(x));
    }
}

/// Once no task outside `order` can run, no safe sequence is longer than `order`.
proof fn lemma_stuck_bounds_safe_sequences(
    available: Seq<usize>,
    need: Seq<Seq<usize>>,
    alloc: Seq<Seq<usize>>,
    order: Seq<int>,
    s: Seq<int>,
)
    requires
        order.no_duplicates(),
        forall|i: int|
            0 <= i < alloc.len() && !order.contains(i) ==> !#[trigger] can_finish(
                available,
                need,
                alloc,
                order.to_set(),
                i,
            ),
        safe_sequence(available, need, alloc, s),
    ensures
        s.len() <= order.len(),
{
    lemma_prefix_in_order(available, need, alloc, order, s, s.len() as int);
    assert(s.to_set().subset_of(order.to_set()));
    s.unique_seq_to_set();
    order.unique_seq_to_set();
    lemma_len_subset(s.to_set(), order.to_set());
}

/// Adds `row` to `work`, entry by entry.
fn add_row(work: &mut Vec<usize>, row: &Vec<usize>)
    requires
        row.len() >= old(work).len(),
        forall|j: int| 0 <= j < old(work).len() ==> old(work)@[j] + row@[j] <= usize::MAX,
    ensures
        final(work).len() == old(work).len(),
        forall|j: int|
            0 <= j < old(work).len() ==> #[trigger] final(work)@[j] == old(work)@[j] + row@[j],
{
    let m = work.len();
    let mut k: usize = 0;
    while k < m
        invariant
            m == work.len(),
            m == old(work).len(),
            k <= m,
            row.len() >= m,
            forall|j: int| 0 <= j < m ==> old(work)@[j] + row@[j] <= usize::MAX,
            forall|j: int| 0 <= j < k ==> #[trigger] work@[j] == old(work)@[j] + row@[j],
            forall|j: int| k <= j < m ==> #[trigger] work@[j] == old(work)@[j],
        decreases m - k,
    {
        let v = work[k] + row[k];
        work.set(k, v);
        k = k + 1;
    }
}

/// Row `i` of the need matrix, with the request counted, fits in `work`.
pub open spec fn fits(need: Seq<Seq<usize>>, i: int, work: Seq<usize>) -> bool {
    forall|j: int| 0 <= j < work.len() ==> need[i][j] <= #[trigger] work[j]
}

/// The first unfinished task whose need, with task `tid`'s request for one more unit of
/// resource `id` counted, fits in `work`; none when there are no resources at all.
fn find_runnable(
    need: &Vec<Vec<usize>>,
    work: &Vec<usize>,
    finish: &Vec<bool>,
    tid: usize,
    id: usize,
) -> (r: Option<usize>)
    requires
        finish.len() <= need.len(),
        forall|i: int| 0 <= i < finish.len() ==> #[trigger] need@[i].len() >= work.len(),
        tid < need.len(),
        id < need@[tid as int].len(),
        need@[tid as int]@[id as int] < usize::MAX,
    ensures
        match r {
            Some(i) => {
                &&& i < finish.len()
                &&& !finish@[i as int]
                &&& work.len() > 0
                &&& fits(need_with_request(need.deep_view(), tid as int, id as int), i as int, work@)
            },
            None => forall|i: int|
                0 <= i < finish.len() && !finish@[i] ==> !(work.len() > 0 && #[trigger] fits(
                    need_with_request(need.deep_view(), tid as int, id as int),
                    i,
                    work@,
                )),
        },
{
    let ghost nr = need_with_request(need.deep_view(), tid as int, id as int);
    let n = finish.len();
    let m = work.len();
    let mut i: usize = 0;
    while i < n
        invariant
            n == finish.len(),
            m == work.len(),
            i <= n,
            n <= need.len(),
            forall|t: int| 0 <= t < n ==> #[trigger] need@[t].len() >= m,
            tid < need.len(),
            id < need@[tid as int].len(),
            need@[tid as int]@[id as int] < usize::MAX,
            nr == need_with_request(need.deep_view(), tid as int, id as int),
            forall|t: int| 0 <= t < i && !finish@[t] ==> !(m > 0 && #[trigger] fits(nr, t, work@)),
        decreases n - i,
    {
        if !finish[i] {
            let mut ok = true;
            let mut j: usize = 0;
            while j < m
                invariant
                    m == work.len(),
                    i < n,
                    n <= need.len(),
                    need@[i as int].len() >= m,
                    j <= m,
                    tid < need.len(),
                    id < need@[tid as int].len(),
                    need@[tid as int]@[id as int] < usize::MAX,
                    nr == need_with_request(need.deep_view(), tid as int, id as int),
                    ok == (forall|jj: int| 0 <= jj < j ==> nr[i as int][jj] <= #[trigger] work@[jj]),
                decreases m - j,
            {
                let want = if i == tid && j == id {
                    need[i][j] + 1
                } else {
                    need[i][j]
                };
                assert(want == nr[i as int][j as int]);
                if want > work[j] {
                    ok = false;
                }
                j = j + 1;
            }
            if ok && m > 0 {
                return Some(i);
            }
        }
        i = i + 1;
    }
    None
}

/// The safety check a task runs before it waits on a resource: with task `tid` asking for one
/// more unit of resource `id`, it hands resources out greedily to tasks whose needs can be met
/// and reports a deadlock (`true`) unless as many tasks as there are resources can run to
/// completion in turn.
pub fn detect_deadlock(table: &ResourceTable, tid: usize, id: usize) -> (deadlock: bool)
    requires
        table.indexable(tid as int, id as int),
        table.counts_fit(tid as int, id as int),
    ensures
        deadlock == request_deadlocks(
            table.available@,
            table.need.deep_view(),
            table.allocation.deep_view(),
            tid as int,
            id as int,
        ),
{
    let ghost avail = table.available@;
    let ghost alloc = table.allocation.deep_view();
    let ghost nr = need_with_request(table.need.deep_view(), tid as int, id as int);
    let m = table.available.len();
    let n = table.allocation.len();
    let mut work: Vec<usize> = Vec::new();
    let mut k: usize = 0;
    while k < m
        invariant
            m == table.available.len(),
            k <= m,
            work.len() == k,
            forall|j: int| 0 <= j < k ==> #[trigger] work@[j] == table.available@[j],
        decreases m - k,
    {
        work.push(table.available[k]);
        k = k + 1;
    }
    let mut finish: Vec<bool> = Vec::new();
    let mut k: usize = 0;
    while k < n
        invariant
            k <= n,
            finish.len() == k,
            forall|i: int| 0 <= i < k ==> !#[trigger] finish@[i],
        decreases n - k,
    {
        finish.push(false);
        k = k + 1;
    }
    let mut unfinish_num: usize = m;
    let ghost mut order: Seq<int> = Seq::empty();
    proof {
        assert forall|j: int| 0 <= j < m implies #[trigger] work@[j] == work_after(
            avail,
            alloc,
            order.to_set(),
            j,
        ) by {
            assert(order.to_set() =~= Set::<int>::empty());
            lemma_held_empty(alloc, j, n as int);
        }
    }
    loop
        invariant_except_break
            m == 0 || unfinish_num > 0,
        invariant
            table.indexable(tid as int, id as int),
            table.counts_fit(tid as int, id as int),
            avail == table.available@,
            alloc == table.allocation.deep_view(),
            nr == need_with_request(table.need.deep_view(), tid as int, id as int),
            m == table.available.len(),
            n == table.allocation.len(),
            work.len() == m,
            finish.len() == n,
            unfinish_num + order.len() == m,
            order.no_duplicates(),
            forall|t: int| 0 <= t < order.len() ==> 0 <= #[trigger] order[t] < n,
            forall|i: int| 0 <= i < n ==> (#[trigger] finish@[i] <==> order.contains(i)),
            safe_sequence(avail, nr, alloc, order),
            forall|j: int|
                0 <= j < m ==> #[trigger] work@[j] == work_after(avail, alloc, order.to_set(), j),
        ensures
            unfinish_num == 0 || (m > 0 && forall|i: int|
                0 <= i < n && !order.contains(i) ==> !#[trigger] can_finish(
                    avail,
                    nr,
                    alloc,
                    order.to_set(),
                    i,
                )),
        decreases unfinish_num,
    {
        let found = find_runnable(&table.need, &work, &finish, tid, id);
        match found {
            None => {
                proof {
                    if m > 0 {
                        assert forall|i: int|
                            0 <= i < n && !order.contains(i) implies !#[trigger] can_finish(
                            avail,
                            nr,
                            alloc,
                            order.to_set(),
                            i,
                        ) by {
                            assert(!finish@[i]);
                            if can_finish(avail, nr, alloc, order.to_set(), i) {
                                assert forall|j: int| 0 <= j < work.len() implies nr[i][j]
                                    <= #[trigger] work@[j] by {
                                    assert(nr[i][j] <= work_after(avail, alloc, order.to_set(), j));
                                }
                                assert(fits(nr, i, work@));
                            }
                        }
                    }
                }
                break ;
            },
            Some(i) => {
                let ghost done = order.to_set();
                proof {
                    assert(!order.contains(i as int));
                    assert forall|j: int| 0 <= j < m implies work@[j] + table.allocation@[i as int]@[j]
                        <= usize::MAX by {
                        lemma_held_insert(alloc, done, i as int, j, n as int);
                        lemma_held_mono(alloc, done.insert(i as int), Set::full(), j, n as int);
                        assert(work_after(avail, alloc, Set::full(), j) <= usize::MAX);
                        assert(table.allocation@[i as int].len() >= m);
                        assert(alloc[i as int] == table.allocation@[i as int].deep_view());
                    }
                }
                let ghost old_work = work@;
                add_row(&mut work, &table.allocation[i]);
                finish.set(i, true);
                proof {
                    let new_order = order.push(i as int);
                    order.lemma_push_to_set_commute(i as int);
                    assert(new_order.to_set() =~= done.insert(i as int));
                    assert forall|j: int| 0 <= j < m implies #[trigger] work@[j] == work_after(
                        avail,
                        alloc,
                        new_order.to_set(),
                        j,
                    ) by {
                        lemma_held_insert(alloc, done, i as int, j, n as int);
                        assert(table.allocation@[i as int].len() >= m);
                        assert(alloc[i as int] == table.allocation@[i as int].deep_view());
                    }
                    assert(can_finish(avail, nr, alloc, done, i as int)) by {
                        assert forall|j: int| 0 <= j < avail.len() implies nr[i as int][j]
                            <= #[trigger] work_after(avail, alloc, done, j) by {
                            assert(nr[i as int][j] <= old_work[j]);
                        }
                    }
                    assert forall|t: int| 0 <= t < new_order.len() implies #[trigger] can_finish(
                        avail,
                        nr,
                        alloc,
                        new_order.take(t).to_set(),
                        new_order[t],
                    ) by {
                        if t < order.len() {
                            assert(new_order.take(t) =~= order.take(t));
                            assert(can_finish(avail, nr, alloc, order.take(t).to_set(), order[t]));
                        } else {
                            assert(new_order.take(t) =~= order);
                        }
                    }
                    assert forall|x: int| 0 <= x < n implies (#[trigger] finish@[x]
                        <==> new_order.contains(x)) by {
                        if x == i as int {
                            assert(new_order[new_order.len() - 1] == x);
                        } else {
                            if order.contains(x) {
                                let t = choose|t: int| 0 <= t < order.len() && order[t] == x;
                                assert(new_order[t] == x);
                            }
                            if new_order.contains(x) {
                                let t = choose|t: int| 0 <= t < new_order.len() && new_order[t] == x;
                                assert(order[t] == x);
                            }
                        }
                    }
                    order = new_order;
                }
                unfinish_num = unfinish_num - 1;
                if unfinish_num == 0 {
                    break ;
                }
            },
        }
    }
    proof {
        if unfinish_num == 0 {
            assert(order.len() == avail.len());
            assert(can_complete(avail, nr, alloc, avail.len()));
        } else {
            assert forall|s: Seq<int>|
                s.len() == avail.len() implies !safe_sequence(avail, nr, alloc, s) by {
                if safe_sequence(avail, nr, alloc, s) {
                    lemma_stuck_bounds_safe_sequences(avail, nr, alloc, order, s);
                }
            }
        }
    }
    unfinish_num != 0
}

/// Units held in all, after entry (`t`, `k`) moved by `delta`.
proof fn lemma_held_bumped(alloc: Seq<Seq<usize>>, t: int, k: int, delta: int, j: int, upto: int)
    requires
        0 <= t < alloc.len(),
        0 <= k < alloc[t].len(),
        0 <= alloc[t][k] + delta <= usize::MAX,
        0 <= j < alloc[t].len(),
        upto <= alloc.len(),
    ensures
        held(bumped(alloc, t, k, delta), Set::full(), j, upto) == held(alloc, Set::full(), j, upto)
            + if j == k && 0 <= t < upto {
            delta
        } else {
            0
        },
    decreases upto,
{
    if upto > 0 {
        lemma_held_bumped(alloc, t, k, delta, j, upto - 1);
    }
}

/// Held units are never negative.
proof fn lemma_held_nonneg(alloc: Seq<Seq<usize>>, done: Set<int>, j: int, upto: int)
    ensures
        held(alloc, done, j, upto) >= 0,
    decreases upto,
{
    if upto > 0 {
        lemma_held_nonneg(alloc, done, j, upto - 1);
    }
}

/// Taking a free unit and giving it back leaves the table as it was.
pub proof fn law_release_undoes_grant(table: TableView, t: int, j: int)
    requires
        table.can_grant(t, j),
    ensures
        table.grant(t, j).release(t, j) == table,
{
    assert(table.grant(t, j).release(t, j).allocation =~~= table.allocation);
    assert(table.grant(t, j).release(t, j).available =~= table.available);
}

/// Waiting for a unit and then no longer waiting for it leaves the table as it was.
pub proof fn law_withdraw_undoes_request(table: TableView, t: int, j: int)
    requires
        table.can_request(t, j),
    ensures
        table.with_need(t, j, 1).with_need(t, j, -1) == table,
{
    assert(table.with_need(t, j, 1).with_need(t, j, -1).need =~~= table.need);
}

/// Taking a free unit, or giving one back, keeps the units of every resource, free plus held,
/// as they were.
pub proof fn law_grant_and_release_keep_units(table: TableView, t: int, k: int, j: int)
    requires
        table.rows_cover_resources(),
        0 <= j < table.available.len(),
    ensures
        table.can_grant(t, k) ==> work_after(table.grant(t, k).available, table.grant(t, k).allocation, Set::full(), j)
            == work_after(table.available, table.allocation, Set::full(), j),
        table.can_release(t, k) ==> work_after(table.release(t, k).available, table.release(t, k).allocation, Set::full(), j)
            == work_after(table.available, table.allocation, Set::full(), j),
{
    let n = table.allocation.len() as int;
    if table.can_grant(t, k) {
        lemma_held_bumped(table.allocation, t, k, 1, j, n);
    }
    if table.can_release(t, k) {
        lemma_held_bumped(table.allocation, t, k, -1, j, n);
    }
}

/// When the free units already cover what every task waits for, request included, and there
/// are at least as many tasks as resources, the check reports no deadlock.
pub proof fn law_no_deadlock_when_all_fit(
    available: Seq<usize>,
    need: Seq<Seq<usize>>,
    alloc: Seq<Seq<usize>>,
    tid: int,
    id: int,
)
    requires
        alloc.len() >= available.len(),
        forall|i: int, j: int|
            0 <= i < alloc.len() && 0 <= j < available.len() ==> #[trigger] need_with_request(
                need,
                tid,
                id,
            )[i][j] <= available[j],
    ensures
        !request_deadlocks(available, need, alloc, tid, id),
{
    let nr = need_with_request(need, tid, id);
    let m = available.len();
    let order = Seq::new(m, |k: int| k);
    assert forall|k: int| 0 <= k < order.len() implies #[trigger] can_finish(
        available,
        nr,
        alloc,
        order.take(k).to_set(),
        order[k],
    ) by {
        assert forall|j: int| 0 <= j < available.len() implies nr[k][j] <= #[trigger] work_after(
            available,
            alloc,
            order.take(k).to_set(),
            j,
        ) by {
            lemma_held_nonneg(alloc, order.take(k).to_set(), j, alloc.len() as int);
            assert(nr[k][j] <= available[j]);
        }
    }
    assert(safe_sequence(available, nr, alloc, order));
}

} // verus!
