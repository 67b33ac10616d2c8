//! Per-task counts of system calls.
use vstd::prelude::*;

verus! {

/// How many times a task made each system call: `ids[k]` was called `counts[k]` times.
pub struct TraceContext {
    ids: Vec<usize>,
    counts: Vec<usize>,
}

/// How often `syscall_id` was called, by the counts of `calls` (0 if it never was).
pub open spec fn count_in(calls: Map<usize, usize>, syscall_id: usize) -> usize {
    if calls.contains_key(syscall_id) {
        calls[syscall_id]
    } else {
        0
    }
}

/// The counts once `syscall_id` has been called once more.
pub open spec fn traced(calls: Map<usize, usize>, syscall_id: usize) -> Map<usize, usize> {
    calls.insert(syscall_id, (count_in(calls, syscall_id) + 1) as usize)
}

impl View for TraceContext {
    type V = Map<usize, usize>;

    /// Each traced system call id, with its count.
    closed spec fn view(&self) -> Map<usize, usize> {
        Map::new(
            |id: usize| self.ids@.contains(id),
            |id: usize| self.counts@[self.ids@.index_of(id)],
        )
    }
}

impl TraceContext {
    /// The two rows line up and no id is listed twice.
    pub closed spec fn wf(&self) -> bool {
        &&& self.ids.len() == self.counts.len()
        &&& self.ids@.no_duplicates()
    }

    /// A context in which no system call has been counted yet.
    pub fn new() -> (t: Self)
        ensures
            t.wf(),
            t@ == Map::<usize, usize>::empty(),
    {
        let t = TraceContext { ids: Vec::new(), counts: Vec::new() };
        assert(t@ =~= Map::<usize, usize>::empty());
        t
    }

    /// Counts one more call of `syscall_id`.
    pub fn trace_syscall(&mut self, syscall_id: usize)
        requires
            old(self).wf(),
            count_in(old(self)@, syscall_id) < usize::MAX,
        ensures
            final(self).wf(),
            final(self)@ == traced(old(self)@, syscall_id),
    {
        let n = self.ids.len();
        let mut i: usize = 0;
        while i < n
            invariant
                n == self.ids.len(),
                self.ids.len() == self.counts.len(),
                self.ids@.no_duplicates(),
                i <= n,
                forall|k: int| 0 <= k < i ==> self.ids@[k] != syscall_id,
                *self == *old(self),
                count_in(old(self)@, syscall_id) < usize::MAX,
            decreases n - i,
        {
            if self.ids[i] == syscall_id {
                proof {
                    assert(self.ids@.index_of(syscall_id) == i as int);
                    assert(self@.contains_key(syscall_id));
                }
                let c = self.counts[i] + 1;
                let ghost before = *self;
                self.counts.set(i, c);
                proof {
                    assert forall|id: usize| #[trigger] self.ids@.contains(id) && id != syscall_id implies self.counts@[self.ids@.index_of(id)] == before.counts@[before.ids@.index_of(id)] by {
                        let k = self.ids@.index_of(id);
                        assert(self.ids@[k] == id);
                    }
                    assert(self@ =~= traced(old(self)@, syscall_id));
                }
                return;
            }
            i = i + 1;
        }
        let ghost before = *self;
        proof {
            assert(!self.ids@.contains(syscall_id));
        }
        self.ids.push(syscall_id);
        self.counts.push(1);
        proof {
            assert forall|a: int, b: int| 0 <= a < self.ids.len() && 0 <= b < self.ids.len() && a != b implies self.ids@[a] != self.ids@[b] by {
                if b == n as int {
                    assert(before.ids@[a] != syscall_id);
                } else if a == n as int {
                    assert(before.ids@[b] != syscall_id);
                }
            }
            assert(self.ids@.no_duplicates());
            assert(self.ids@[n as int] == syscall_id);
            assert(self.ids@.index_of(syscall_id) == n as int);
            assert forall|id: usize| #[trigger] self.ids@.contains(id) && id != syscall_id implies (before.ids@.contains(id) && self.counts@[self.ids@.index_of(id)] == before.counts@[before.ids@.index_of(id)]) by {
                let k = self.ids@.index_of(id);
                assert(self.ids@[k] == id);
                assert(k < n);
                assert(before.ids@[k] == id);
                assert(before.ids@.index_of(id) == k);
            }
            assert forall|id: usize| #[trigger] before.ids@.contains(id) implies self.ids@.contains(id) by {
                let k = before.ids@.index_of(id);
                assert(self.ids@[k] == id);
            }
            assert(self@ =~= traced(old(self)@, syscall_id));
        }
    }

    /// How many times `syscall_id` was counted (0 if never).
    pub fn get_count(&self, syscall_id: usize) -> (r: usize)
        requires
            self.wf(),
        ensures
            r == count_in(self@, syscall_id),
    {
        let n = self.ids.len();
        let mut i: usize = 0;
        while i < n
            invariant
                n == self.ids.len(),
                self.ids.len() == self.counts.len(),
                self.ids@.no_duplicates(),
                i <= n,
                forall|k: int| 0 <= k < i ==> self.ids@[k] != syscall_id,
            decreases n - i,
        {
            if self.ids[i] == syscall_id {
                proof {
                    assert(self.ids@.index_of(syscall_id) == i as int);
                }
                return self.counts[i];
            }
            i = i + 1;
        }
        0
    }
}

/// Tracing a system call counts it exactly once more, and leaves every other count as it was.
pub proof fn law_trace_counts_once(calls: Map<usize, usize>, syscall_id: usize, other: usize)
    requires
        count_in(calls, syscall_id) < usize::MAX,
    ensures
        count_in(traced(calls, syscall_id), syscall_id) == count_in(calls, syscall_id) + 1,
        other != syscall_id ==> count_in(traced(calls, syscall_id), other) == count_in(calls, other),
{
}

/// A fresh context counts every system call as never made.
pub proof fn law_new_counts_nothing(syscall_id: usize)
    ensures
        count_in(Map::<usize, usize>::empty(), syscall_id) == 0,
{
}

/// Every system call that has a count has been counted at least once.
pub open spec fn all_counted(calls: Map<usize, usize>) -> bool {
    forall|id: usize| #[trigger] calls.contains_key(id) ==> calls[id] >= 1
}

/// Tracing keeps every count at least 1, and the traced call now has a count.
pub proof fn law_traced_counts_positive(calls: Map<usize, usize>, syscall_id: usize)
    requires
        all_counted(calls),
        count_in(calls, syscall_id) < usize::MAX,
    ensures
        all_counted(traced(calls, syscall_id)),
        traced(calls, syscall_id).contains_key(syscall_id),
{
}

/// The counts after tracing the calls of `s`, in order, starting from `calls`.
pub open spec fn traced_all(calls: Map<usize, usize>, s: Seq<usize>) -> Map<usize, usize>
    decreases s.len(),
{
    if s.len() == 0 {
        calls
    } else {
        traced(traced_all(calls, s.drop_last()), s.last())
    }
}

/// How many entries of `s` are `syscall_id`.
pub open spec fn occurrences(s: Seq<usize>, syscall_id: usize) -> nat
    decreases s.len(),
{
    if s.len() == 0 {
        0
    } else {
        occurrences(s.drop_last(), syscall_id) + if s.last() == syscall_id {
            1nat
        } else {
            0nat
        }
    }
}

/// Every call of `s`, traced in order from a fresh context, finds its count below
/// `usize::MAX` (what `trace_syscall` asks of each call).
pub open spec fn traceable(s: Seq<usize>) -> bool {
    forall|k: int|
        0 <= k < s.len() ==> #[trigger] count_in(traced_all(Map::empty(), s.take(k)), s[k])
            < usize::MAX
}

/// From a fresh context, the count of a call is how often it was traced, whatever the order of
/// the calls.
pub proof fn law_count_is_occurrences(s: Seq<usize>, syscall_id: usize)
    requires
        traceable(s),
    ensures
        count_in(traced_all(Map::empty(), s), syscall_id) == occurrences(s, syscall_id),
    decreases s.len(),
{
    if s.len() > 0 {
        let rest = s.drop_last();
        assert forall|k: int| 0 <= k < rest.len() implies #[trigger] count_in(
            traced_all(Map::empty(), rest.take(k)),
            rest[k],
        ) < usize::MAX by {
            assert(rest.take(k) =~= s.take(k));
            assert(count_in(traced_all(Map::empty(), s.take(k)), s[k]) < usize::MAX);
        }
        law_count_is_occurrences(rest, syscall_id);
        law_count_is_occurrences(rest, s.last());
        let k = s.len() - 1;
        assert(s.take(k) =~= rest);
        assert(count_in(traced_all(Map::empty(), s.take(k)), s[k]) < usize::MAX);
    }
}

} // verus!
