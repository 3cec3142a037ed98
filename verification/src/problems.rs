//! Recent Problems: the failures that were actually returned to someone,
//! newest kept, oldest dropped past a fixed capacity.
use vstd::prelude::*;

verus! {

/// About a bad morning's worth of failures.
pub const CAPACITY: usize = 50;

#[derive(Debug, Clone)]
pub struct Problem {
    /// Increasing within the process, so two identical failures in the same
    /// second are still two entries.
    pub seq: u64,
    /// Unix seconds.
    pub at: i64,
    /// `None` for a failure that belongs to no single repo.
    pub repo_id: Option<String>,
    /// What the user asked for, in their words: "Push", "Pull", "Commit".
    pub operation: String,
    /// The raw error, untruncated.
    pub message: String,
}

pub struct ProblemModel {
    pub seq: u64,
    pub at: i64,
    pub repo_id: Option<Seq<char>>,
    pub operation: Seq<char>,
    pub message: Seq<char>,
}

impl Problem {
    pub open spec fn model(&self) -> ProblemModel {
        ProblemModel {
            seq: self.seq,
            at: self.at,
            repo_id: match self.repo_id {
                Some(r) => Some(r@),
                None => None,
            },
            operation: self.operation@,
            message: self.message@,
        }
    }
}

pub open spec fn problem_models(v: Seq<Problem>) -> Seq<ProblemModel> {
    v.map_values(|p: Problem| p.model())
}

/// Oldest first, at most `CAPACITY`, with the sequence number the next one
/// will get.
pub struct ProblemRing {
    entries: Vec<Problem>,
    next_seq: u64,
}

/// Sequence numbers strictly increasing, all below `next`.
pub open spec fn ordered(es: Seq<ProblemModel>, next: u64) -> bool {
    &&& forall|i: int, j: int| 0 <= i < j < es.len() ==> es[i].seq < es[j].seq
    &&& forall|i: int| 0 <= i < es.len() ==> #[trigger] es[i].seq < next
}

/// The entries after one more is recorded: the oldest dropped when full.
pub open spec fn with_recorded(es: Seq<ProblemModel>, p: ProblemModel) -> Seq<ProblemModel> {
    if es.len() >= CAPACITY {
        es.skip(1).push(p)
    } else {
        es.push(p)
    }
}

impl ProblemRing {
    #[verifier::type_invariant]
    closed spec fn well_kept(&self) -> bool {
        &&& self.entries@.len() <= CAPACITY
        &&& self.next_seq >= 1
        &&& ordered(problem_models(self.entries@), self.next_seq)
    }

    /// The entries, oldest first.
    pub closed spec fn entries_spec(&self) -> Seq<ProblemModel> {
        problem_models(self.entries@)
    }

    /// The sequence number the next problem gets.
    pub closed spec fn next_spec(&self) -> u64 {
        self.next_seq
    }
}

/// An empty ring whose first problem gets sequence number 1.
pub fn ring() -> (r: ProblemRing)
    ensures
        r.entries_spec() == Seq::<ProblemModel>::empty(),
        r.next_spec() == 1,
{
    let r = ProblemRing { entries: Vec::new(), next_seq: 1 };
    assert(r.entries_spec() =~= Seq::<ProblemModel>::empty());
    r
}

/// The sequence number the next problem gets.
pub fn next_seq(ring: &ProblemRing) -> (n: u64)
    ensures
        n == ring.next_spec(),
{
    ring.next_seq
}

fn copy_problem(p: &Problem) -> (q: Problem)
    ensures
        q.model() == p.model(),
{
    Problem {
        seq: p.seq,
        at: p.at,
        repo_id: match &p.repo_id {
            Some(r) => Some(r.clone()),
            None => None,
        },
        operation: p.operation.clone(),
        message: p.message.clone(),
    }
}

/// Records a failure that was surfaced to the user, at Unix time `at`, newest
/// last; returns the entry so every window can be told of it.
pub fn record(
    ring: &mut ProblemRing,
    repo_id: Option<String>,
    operation: &str,
    message: &str,
    at: i64,
) -> (p: Problem)
    requires
        old(ring).next_spec() < u64::MAX,
    ensures
        p.model() == (ProblemModel {
            seq: old(ring).next_spec(),
            at,
            repo_id: match repo_id {
                Some(r) => Some(r@),
                None => None,
            },
            operation: operation@,
            message: message@,
        }),
        final(ring).next_spec() == old(ring).next_spec() + 1,
        final(ring).entries_spec() == with_recorded(old(ring).entries_spec(), p.model()),
        final(ring).entries_spec().len() <= CAPACITY,
        ordered(final(ring).entries_spec(), final(ring).next_spec()),
{
    proof {
        use_type_invariant(&*ring);
    }
    let seq = ring.next_seq;
    let problem = Problem {
        seq,
        at,
        repo_id,
        operation: operation.to_owned(),
        message: message.to_owned(),
    };
    let mut es: Vec<Problem> = Vec::new();
    std::mem::swap(&mut es, &mut ring.entries);
    let ghost old_es = problem_models(es@);
    if es.len() >= CAPACITY {
        es.remove(0);
        assert(problem_models(es@) =~= old_es.skip(1));
    }
    let ghost mid = problem_models(es@);
    es.push(copy_problem(&problem));
    proof {
        assert(problem_models(es@) =~= mid.push(problem.model()));
        assert(problem_models(es@) =~= with_recorded(old_es, problem.model()));
        let ms = problem_models(es@);
        assert forall|i: int, j: int| 0 <= i < j < ms.len() implies ms[i].seq < ms[j].seq by {
            if j == ms.len() - 1 {
                assert(ms[i] == mid[i]);
            } else {
                assert(ms[i] == mid[i] && ms[j] == mid[j]);
            }
        }
        assert forall|i: int| 0 <= i < ms.len() implies #[trigger] ms[i].seq < seq + 1 by {
            if i < ms.len() - 1 {
                assert(ms[i] == mid[i]);
            }
        }
    }
    ring.next_seq = seq + 1;
    ring.entries = es;
    problem
}

/// Newest first — the order the list is read in.
pub fn recent(ring: &ProblemRing) -> (r: Vec<Problem>)
    ensures
        problem_models(r@) == ring.entries_spec().reverse(),
        forall|i: int, j: int| 0 <= i < j < r@.len() ==> r@[i].seq > r@[j].seq,
        r@.len() <= CAPACITY,
{
    proof {
        use_type_invariant(ring);
    }
    let n = ring.entries.len();
    let ghost es = problem_models(ring.entries@);
    let mut out: Vec<Problem> = Vec::new();
    let mut i: usize = 0;
    while i < n
        invariant
            i <= n,
            n == ring.entries@.len(),
            es == problem_models(ring.entries@),
            ordered(es, ring.next_seq),
            problem_models(out@) == es.reverse().take(i as int),
        decreases n - i,
    {
        let ghost prev = out@;
        out.push(copy_problem(&ring.entries[n - 1 - i]));
        proof {
            assert(problem_models(out@) =~= problem_models(prev).push(es[n - 1 - i]));
            assert(es.reverse().take(i + 1) =~= es.reverse().take(i as int).push(
                es.reverse()[i as int],
            ));
        }
        i = i + 1;
    }
    proof {
        assert(es.reverse().take(n as int) =~= es.reverse());
        assert forall|a: int, b: int| 0 <= a < b < out@.len() implies out@[a].seq > out@[b].seq by {
            assert(problem_models(out@)[a] == es[n - 1 - a]);
            assert(problem_models(out@)[b] == es[n - 1 - b]);
        }
    }
    out
}

/// Empties the list. Sequence numbers carry on from where they were, so an
/// entry recorded after a clear is never confused with one before it.
pub fn clear(ring: &mut ProblemRing)
    ensures
        final(ring).entries_spec() == Seq::<ProblemModel>::empty(),
        final(ring).next_spec() == old(ring).next_spec(),
{
    proof {
        use_type_invariant(&*ring);
    }
    ring.entries = Vec::new();
    assert(ring.entries_spec() =~= Seq::<ProblemModel>::empty());
}

/// Recording never lets the list grow past its capacity, keeps the newest
/// entry last, and keeps every entry it had (but the oldest, when full) in
/// order before it.
pub proof fn law_ring_keeps_the_newest(es: Seq<ProblemModel>, p: ProblemModel)
    requires
        es.len() <= CAPACITY,
    ensures
        with_recorded(es, p).len() <= CAPACITY,
        with_recorded(es, p).last() == p,
        with_recorded(es, p).drop_last() == (if es.len() == CAPACITY {
            es.skip(1)
        } else {
            es
        }),
{
    let r = with_recorded(es, p);
    if es.len() == CAPACITY {
        assert(r.drop_last() =~= es.skip(1));
    } else {
        assert(r.drop_last() =~= es);
    }
}

/// Recording keeps sequence numbers strictly increasing, so two identical
/// failures are always two distinct entries.
pub proof fn law_seqs_stay_ordered(es: Seq<ProblemModel>, next: u64, p: ProblemModel)
    requires
        ordered(es, next),
        p.seq == next,
        next < u64::MAX,
    ensures
        ordered(with_recorded(es, p), (next + 1) as u64),
{
    let base = if es.len() >= CAPACITY {
        es.skip(1)
    } else {
        es
    };
    let r = with_recorded(es, p);
    assert(r == base.push(p));
    assert forall|i: int, j: int| 0 <= i < j < r.len() implies r[i].seq < r[j].seq by {
        if es.len() >= CAPACITY {
            assert(r[i] == es[i + 1]);
            if j < r.len() - 1 {
                assert(r[j] == es[j + 1]);
            }
        } else {
            assert(r[i] == es[i]);
            if j < r.len() - 1 {
                assert(r[j] == es[j]);
            }
        }
    }
    assert forall|i: int| 0 <= i < r.len() implies #[trigger] r[i].seq < next + 1 by {
        if i < r.len() - 1 {
            if es.len() >= CAPACITY {
                assert(r[i] == es[i + 1]);
            } else {
                assert(r[i] == es[i]);
            }
        }
    }
}

/// A call on the list, as far as numbering goes.
pub enum RingCall {
    /// `record`: hands out the next number and moves it on by one.
    Record,
    /// `recent`: reads the list and leaves it as it was.
    Recent,
    /// `clear`: empties the list and leaves the next number as it was.
    Clear,
}

/// The next number after `call`, as `record`, `recent` and `clear` state it.
pub open spec fn next_after(next: int, call: RingCall) -> int {
    match call {
        RingCall::Record => next + 1,
        _ => next,
    }
}

/// The numbers the `record` calls among `calls` hand out, in order, starting
/// from `next`.
pub open spec fn issued(next: int, calls: Seq<RingCall>) -> Seq<int>
    decreases calls.len(),
{
    if calls.len() == 0 {
        seq![]
    } else {
        let rest = issued(next_after(next, calls[0]), calls.skip(1));
        match calls[0] {
            RingCall::Record => seq![next] + rest,
            _ => rest,
        }
    }
}

proof fn lemma_issued_from(next: int, calls: Seq<RingCall>)
    ensures
        forall|i: int| 0 <= i < issued(next, calls).len() ==> #[trigger] issued(next, calls)[i] >= next,
        forall|i: int, j: int|
            0 <= i < j < issued(next, calls).len() ==> issued(next, calls)[i] < issued(next, calls)[j],
    decreases calls.len(),
{
    if calls.len() > 0 {
        let n2 = next_after(next, calls[0]);
        lemma_issued_from(n2, calls.skip(1));
        let rest = issued(n2, calls.skip(1));
        match calls[0] {
            RingCall::Record => {
                let all = seq![next] + rest;
                assert(issued(next, calls) == all);
                assert forall|i: int| 0 <= i < all.len() implies #[trigger] all[i] >= next by {
                    if i > 0 {
                        assert(all[i] == rest[i - 1]);
                    }
                }
                assert forall|i: int, j: int| 0 <= i < j < all.len() implies all[i] < all[j] by {
                    assert(all[j] == rest[j - 1]);
                    if i > 0 {
                        assert(all[i] == rest[i - 1]);
                    }
                }
            },
            _ => {
                assert(issued(next, calls) == rest);
            },
        }
    }
}

/// Across any run of `record`, `recent` and `clear` calls, every `record`
/// hands out a larger number than every `record` before it: numbers are never
/// reused and a clear does not reset them, so two identical failures are
/// always two entries.
pub proof fn law_seqs_rise_across_calls(next: int, calls: Seq<RingCall>)
    ensures
        forall|i: int, j: int|
            0 <= i < j < issued(next, calls).len() ==> issued(next, calls)[i] < issued(next, calls)[j],
{
    lemma_issued_from(next, calls);
}

} // verus!
