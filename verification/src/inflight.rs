//! Which repos have a write running right now, for the UI's busy indicator.
//! A count rather than a flag: a second write on a repo queues behind the
//! first, so two begins and two ends must announce one start and one finish.
use vstd::prelude::*;

use crate::ids::IdMap;

verus! {

/// The number of writes in flight per repo id; a repo with none has no entry.
pub struct InFlightWrites {
    depth: IdMap<usize>,
}

/// After a write begins on `k`: its count one higher, and whether it is the
/// first (the moment the frontend needs telling).
pub open spec fn begin_spec(m: Map<Seq<char>, usize>, k: Seq<char>) -> (Map<Seq<char>, usize>, bool) {
    if m.contains_key(k) {
        (m.insert(k, (m[k] + 1) as usize), false)
    } else {
        (m.insert(k, 1), true)
    }
}

/// After a write ends on `k`: its count one lower, the entry gone at zero, and
/// whether that was the last one. An end with no begin changes nothing.
pub open spec fn end_spec(m: Map<Seq<char>, usize>, k: Seq<char>) -> (Map<Seq<char>, usize>, bool) {
    if !m.contains_key(k) {
        (m, false)
    } else if m[k] <= 1 {
        (m.remove(k), true)
    } else {
        (m.insert(k, (m[k] - 1) as usize), false)
    }
}

/// Every count kept is at least one.
pub open spec fn counts_positive(m: Map<Seq<char>, usize>) -> bool {
    forall|k: Seq<char>| #[trigger] m.contains_key(k) ==> m[k] >= 1
}

impl InFlightWrites {
    #[verifier::type_invariant]
    closed spec fn positive(&self) -> bool {
        counts_positive(self.depth@)
    }

    pub closed spec fn counts(&self) -> Map<Seq<char>, usize> {
        self.depth@
    }
}

impl View for InFlightWrites {
    type V = Map<Seq<char>, usize>;

    open spec fn view(&self) -> Map<Seq<char>, usize> {
        self.counts()
    }
}

impl Default for InFlightWrites {
    fn default() -> (w: Self)
        ensures
            w@ == Map::<Seq<char>, usize>::empty(),
    {
        InFlightWrites { depth: IdMap::new() }
    }
}

impl InFlightWrites {
    /// How many writes are in flight on `repo_id`.
    pub fn depth(&self, repo_id: &str) -> (n: usize)
        ensures
            n == (if self@.contains_key(repo_id@) {
                self@[repo_id@]
            } else {
                0
            }),
    {
        match self.depth.get(repo_id) {
            Some(n) => *n,
            None => 0,
        }
    }

    /// Counts a write beginning on `repo_id`; `true` when it is the first.
    pub fn begin(&mut self, repo_id: &str) -> (first: bool)
        requires
            old(self)@.contains_key(repo_id@) ==> old(self)@[repo_id@] < usize::MAX,
        ensures
            (final(self)@, first) == begin_spec(old(self)@, repo_id@),
    {
        proof {
            use_type_invariant(&*self);
        }
        let n = self.depth(repo_id);
        let mut d = IdMap::new();
        std::mem::swap(&mut d, &mut self.depth);
        d.insert(repo_id.to_owned(), n + 1);
        self.depth = d;
        n == 0
    }

    /// Counts a write ending on `repo_id`; `true` when it was the last.
    pub fn end(&mut self, repo_id: &str) -> (last: bool)
        ensures
            (final(self)@, last) == end_spec(old(self)@, repo_id@),
    {
        proof {
            use_type_invariant(&*self);
        }
        let n = self.depth(repo_id);
        if n == 0 {
            return false;
        }
        let mut d = IdMap::new();
        std::mem::swap(&mut d, &mut self.depth);
        if n == 1 {
            d.remove(repo_id);
            self.depth = d;
            true
        } else {
            d.insert(repo_id.to_owned(), n - 1);
            self.depth = d;
            false
        }
    }
}

/// A write that begins and then ends leaves the counts as they were, and the
/// end announces a finish exactly when the begin announced a start.
pub proof fn law_begin_then_end_restores(m: Map<Seq<char>, usize>, k: Seq<char>)
    requires
        counts_positive(m),
        m.contains_key(k) ==> m[k] < usize::MAX,
    ensures
        end_spec(begin_spec(m, k).0, k).0 == m,
        end_spec(begin_spec(m, k).0, k).1 == begin_spec(m, k).1,
{
    let (b, _) = begin_spec(m, k);
    if m.contains_key(k) {
        assert(b.insert(k, (b[k] - 1) as usize) =~= m);
    } else {
        assert(b.remove(k) =~= m);
    }
}

/// An end with no matching begin announces nothing and changes nothing.
pub proof fn law_unbalanced_end_is_inert(m: Map<Seq<char>, usize>, k: Seq<char>)
    requires
        !m.contains_key(k),
    ensures
        end_spec(m, k) == (m, false),
{
}

/// Beginning and ending keep every count at least one, so the invariant the
/// counter relies on holds in every reachable state.
pub proof fn law_counts_stay_positive(m: Map<Seq<char>, usize>, k: Seq<char>)
    requires
        counts_positive(m),
        m.contains_key(k) ==> m[k] < usize::MAX,
    ensures
        counts_positive(begin_spec(m, k).0),
        counts_positive(end_spec(m, k).0),
{
}

/// A call on the counter, naming its repo.
pub enum WriteCall {
    Begin(Seq<char>),
    End(Seq<char>),
}

/// The counts after one call, as `begin` and `end` state them.
pub open spec fn after_call(m: Map<Seq<char>, usize>, c: WriteCall) -> Map<Seq<char>, usize> {
    match c {
        WriteCall::Begin(k) => begin_spec(m, k).0,
        WriteCall::End(k) => end_spec(m, k).0,
    }
}

/// The counts after a run of calls, in order.
pub open spec fn after_calls(m: Map<Seq<char>, usize>, calls: Seq<WriteCall>) -> Map<Seq<char>, usize>
    decreases calls.len(),
{
    if calls.len() == 0 {
        m
    } else {
        after_call(after_calls(m, calls.drop_last()), calls.last())
    }
}

/// A repo's count, zero when it has no entry.
pub open spec fn count_of(m: Map<Seq<char>, usize>, k: Seq<char>) -> int {
    if m.contains_key(k) {
        m[k] as int
    } else {
        0
    }
}

/// What the calls on `k` alone make of its count: one up for each begin, one
/// down for each end that found a write to end.
pub open spec fn depth_of(calls: Seq<WriteCall>, k: Seq<char>) -> int
    decreases calls.len(),
{
    if calls.len() == 0 {
        0
    } else {
        let d = depth_of(calls.drop_last(), k);
        match calls.last() {
            WriteCall::Begin(j) => if j == k {
                d + 1
            } else {
                d
            },
            WriteCall::End(j) => if j == k && d > 0 {
                d - 1
            } else {
                d
            },
        }
    }
}

/// From a fresh counter, after any run of begins and ends: no count is ever
/// zero (a repo at zero has no entry), and each repo's count is its begins
/// less the ends that found a write, whatever the other repos did.
pub proof fn law_counts_over_any_run(calls: Seq<WriteCall>)
    requires
        calls.len() < usize::MAX,
    ensures
        counts_positive(after_calls(Map::empty(), calls)),
        forall|k: Seq<char>|
            #[trigger] count_of(after_calls(Map::empty(), calls), k) == depth_of(calls, k),
        forall|k: Seq<char>| 0 <= #[trigger] depth_of(calls, k) <= calls.len(),
    decreases calls.len(),
{
    if calls.len() == 0 {
        assert forall|k: Seq<char>| 0 <= #[trigger] depth_of(calls, k) <= calls.len() by {}
    } else {
        let prev = calls.drop_last();
        law_counts_over_any_run(prev);
        let m = after_calls(Map::empty(), prev);
        let m2 = after_calls(Map::empty(), calls);
        assert(m2 == after_call(m, calls.last()));
        assert forall|k: Seq<char>| #[trigger] count_of(m2, k) == depth_of(calls, k)
            && 0 <= depth_of(calls, k) <= calls.len() by {
            assert(count_of(m, k) == depth_of(prev, k));
            assert(0 <= depth_of(prev, k) <= prev.len());
        }
        assert forall|k: Seq<char>| 0 <= #[trigger] depth_of(calls, k) <= calls.len() by {
            assert(0 <= depth_of(prev, k) <= prev.len());
        }
        assert forall|k: Seq<char>| #[trigger] m2.contains_key(k) implies m2[k] >= 1 by {
            assert(count_of(m, k) == depth_of(prev, k));
            if m.contains_key(k) {
                assert(m[k] >= 1);
            }
        }
    }
}

} // verus!
