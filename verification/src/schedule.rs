//! Timing and ordering decisions around the sweeps: the recent-roots list,
//! the jittered fetch interval, which scope a status tick covers, and how a
//! background fetch's outcome is filed.
use vstd::prelude::*;

use crate::git::READ_TIMEOUT;
use crate::remote::{looks_like_auth_failure, mentions_auth_failure_spec};
use crate::root_state::Scope;
use crate::text::{keep_some, lemma_keep_some_step, lowercase, strings};
use crate::watch::{plain_path, segments};

verus! {

/// How many roots *File → Open Recent* remembers.
pub const MAX_RECENT_ROOTS: usize = 10;

/// Seconds a status sweep waits for slow repos before publishing without
/// them; the rest are folded in as they land.
pub const SWEEP_PATIENCE: u64 = 3;

/// Every this-many status ticks covers every repo rather than only the
/// unwatched ones.
pub const RECONCILE_EVERY: u32 = 5;

/// How many background fetches run at once.
pub const FETCH_CONCURRENCY: usize = 4;

/// Each recent root that is not the same root as `root`, the others marked
/// absent; `same[i]` says whether `recent[i]` is.
pub open spec fn others_by(recent: Seq<Seq<char>>, same: Seq<bool>) -> Seq<Option<Seq<char>>> {
    Seq::new(
        recent.len(),
        |i: int|
            if same[i] {
                None
            } else {
                Some(recent[i])
            },
    )
}

/// The recent roots after opening `root`: it first, any earlier mention of
/// it dropped, the rest in their order, at most `MAX_RECENT_ROOTS` in all.
pub open spec fn remembered_by(recent: Seq<Seq<char>>, same: Seq<bool>, root: Seq<char>) -> Seq<
    Seq<char>,
> {
    let l = seq![root] + keep_some(others_by(recent, same));
    if l.len() > MAX_RECENT_ROOTS {
        l.take(MAX_RECENT_ROOTS as int)
    } else {
        l
    }
}

/// Two plain paths name the same place when both or neither start at the
/// root and their `/`-pieces agree.
pub open spec fn same_plain(a: Seq<char>, b: Seq<char>) -> bool {
    &&& (a.len() > 0 && a[0] == '/') == (b.len() > 0 && b[0] == '/')
    &&& segments(a) == segments(b)
}

/// Whether `same` says of each recent root what comparing it with `root` as
/// paths says: the same text is always the same root, and plain paths are the
/// same when `same_plain` says so.
pub open spec fn compared_as_paths(recent: Seq<Seq<char>>, same: Seq<bool>, root: Seq<char>) -> bool {
    &&& same.len() == recent.len()
    &&& forall|i: int| 0 <= i < recent.len() ==> (#[trigger] recent[i] == root ==> same[i])
    &&& forall|i: int|
        0 <= i < recent.len() ==> (plain_path(#[trigger] recent[i]) && plain_path(root) ==> same[i]
            == same_plain(recent[i], root))
}

/// `Path::new(a) == Path::new(b)`: paths compared component by component. A
/// path equals itself; on plain paths the components are the root, when the
/// text starts with `/`, and the `/`-pieces, as `Path::components` documents.
/// How other texts split is the platform's, and nothing is claimed of them.
#[verifier::external_body]
fn same_path(a: &str, b: &str) -> (r: bool)
    ensures
        a@ == b@ ==> r,
        plain_path(a@) && plain_path(b@) ==> r == same_plain(a@, b@),
{
    std::path::Path::new(a) == std::path::Path::new(b)
}

/// The recent roots after opening `root`, given for each recent root whether
/// it is the same root.
pub fn remember_root_by(recent: Vec<String>, same: Vec<bool>, root: &str) -> (r: Vec<String>)
    requires
        same@.len() == recent@.len(),
    ensures
        strings(r@) == remembered_by(strings(recent@), same@, root@),
{
    let ghost all = others_by(strings(recent@), same@);
    let mut out: Vec<String> = Vec::new();
    out.push(root.to_owned());
    let mut i: usize = 0;
    assert(strings(out@) =~= seq![root@] + keep_some(all.take(0)));
    while i < recent.len()
        invariant
            i <= recent@.len(),
            same@.len() == recent@.len(),
            all == others_by(strings(recent@), same@),
            strings(out@) == seq![root@] + keep_some(all.take(i as int)),
        decreases recent.len() - i,
    {
        proof {
            lemma_keep_some_step(all, i as int);
            assert(strings(recent@)[i as int] == recent@[i as int]@);
        }
        if !same[i] {
            let ghost prev = out@;
            out.push(recent[i].clone());
            assert(strings(out@) =~= strings(prev).push(recent@[i as int]@));
        }
        i = i + 1;
    }
    assert(all.take(all.len() as int) =~= all);
    if out.len() > MAX_RECENT_ROOTS {
        out.truncate(MAX_RECENT_ROOTS);
        assert(strings(out@) =~= remembered_by(strings(recent@), same@, root@));
    }
    out
}

/// The recent roots after opening `root`, each earlier root compared with it
/// as a path, the way `Path`'s `==` does.
pub fn remember_root(recent: Vec<String>, root: &str) -> (r: Vec<String>)
    ensures
        exists|same: Seq<bool>|
            compared_as_paths(strings(recent@), same, root@) && strings(r@) == remembered_by(
                strings(recent@),
                same,
                root@,
            ),
{
    let mut same: Vec<bool> = Vec::new();
    let mut i: usize = 0;
    while i < recent.len()
        invariant
            i <= recent@.len(),
            same@.len() == i,
            compared_as_paths(strings(recent@).take(i as int), same@, root@),
        decreases recent.len() - i,
    {
        let s = same_path(recent[i].as_str(), root);
        let ghost prev = same@;
        same.push(s);
        proof {
            let rv = strings(recent@);
            assert(rv[i as int] == recent@[i as int]@);
            assert forall|j: int| 0 <= j < i + 1 implies (#[trigger] rv.take(i + 1)[j] == root@ ==> same@[j]) by {
                if j < i {
                    assert(rv.take(i + 1)[j] == rv.take(i as int)[j]);
                }
            }
            assert forall|j: int| 0 <= j < i + 1 implies (plain_path(#[trigger] rv.take(i + 1)[j]) && plain_path(root@) ==> same@[j]
                == same_plain(rv.take(i + 1)[j], root@)) by {
                if j < i {
                    assert(rv.take(i + 1)[j] == rv.take(i as int)[j]);
                }
            }
        }
        i = i + 1;
    }
    proof {
        assert(strings(recent@).take(recent@.len() as int) =~= strings(recent@));
    }
    let r = remember_root_by(recent, same, root);
    r
}

proof fn lemma_keep_some_excludes(s: Seq<Option<Seq<char>>>, x: Seq<char>)
    requires
        forall|i: int| 0 <= i < s.len() ==> #[trigger] s[i] != Some(x),
    ensures
        !keep_some(s).contains(x),
    decreases s.len(),
{
    if s.len() > 0 {
        let d = s.drop_last();
        assert forall|i: int| 0 <= i < d.len() implies #[trigger] d[i] != Some(x) by {
            assert(d[i] == s[i]);
        }
        lemma_keep_some_excludes(d, x);
        let k = keep_some(s);
        assert(s[s.len() - 1] != Some(x));
        if let Some(a) = s.last() {
            assert forall|j: int| 0 <= j < k.len() implies k[j] != x by {
                if j < k.len() - 1 {
                    assert(k[j] == keep_some(d)[j]);
                }
            }
        }
    }
}

/// The root just opened heads the list, no later entry is the same text,
/// and the list never grows past its cap.
pub proof fn law_recent_roots(recent: Seq<Seq<char>>, same: Seq<bool>, root: Seq<char>)
    requires
        compared_as_paths(recent, same, root),
    ensures
        remembered_by(recent, same, root)[0] == root,
        !remembered_by(recent, same, root).skip(1).contains(root),
        remembered_by(recent, same, root).len() <= MAX_RECENT_ROOTS,
{
    let all = others_by(recent, same);
    assert forall|i: int| 0 <= i < all.len() implies #[trigger] all[i] != Some(root) by {
        if recent[i] == root {
            assert(same[i]);
        }
    }
    lemma_keep_some_excludes(all, root);
    let kept = keep_some(all);
    let l = seq![root] + kept;
    let r = remembered_by(recent, same, root);
    assert(l.skip(1) =~= kept);
    assert(!kept.contains(root));
    if l.len() > MAX_RECENT_ROOTS {
        assert(r == l.take(MAX_RECENT_ROOTS as int));
        assert forall|j: int| 0 <= j < r.skip(1).len() implies r.skip(1)[j] != root by {
            assert(r.skip(1)[j] == r[j + 1]);
            assert(r[j + 1] == l[j + 1]);
            assert(l[j + 1] == kept[j]);
            if kept[j] == root {
                assert(kept.contains(root));
            }
        }
    } else {
        assert(r == l);
        assert(r.skip(1) == kept);
    }
}

/// The gap before the next background fetch: the base interval (at least a
/// second) plus up to as much again, taken from the low part of the clock's
/// nanoseconds.
pub open spec fn jitter_spec(base_secs: u64, nanos: u128) -> int {
    let base: int = if base_secs >= 1 {
        base_secs as int
    } else {
        1
    };
    base + (nanos as int % (base * 1_000_000_000)) / 1_000_000_000
}

pub fn jittered_interval(base_secs: u64, nanos: u128) -> (secs: u64)
    requires
        jitter_spec(base_secs, nanos) <= u64::MAX,
    ensures
        secs == jitter_spec(base_secs, nanos),
{
    let base: u64 = if base_secs >= 1 {
        base_secs
    } else {
        1
    };
    let span: u128 = (base as u128) * 1_000_000_000;
    let extra: u128 = (nanos % span) / 1_000_000_000;
    proof {
        assert(extra < base) by (nonlinear_arith)
            requires
                span == base * 1_000_000_000,
                extra == (nanos % span) / 1_000_000_000,
                base >= 1,
        ;
    }
    base + (extra as u64)
}

/// The next fetch comes between one and two base intervals away.
pub proof fn law_jitter_within_one_to_two_intervals(base_secs: u64, nanos: u128)
    ensures
        ({
            let base: int = if base_secs >= 1 {
                base_secs as int
            } else {
                1
            };
            base <= jitter_spec(base_secs, nanos) < 2 * base
        }),
{
    let base: int = if base_secs >= 1 {
        base_secs as int
    } else {
        1
    };
    let span = base * 1_000_000_000;
    let r = nanos as int % span;
    assert(0 <= r < span) by (nonlinear_arith)
        requires
            span == base * 1_000_000_000,
            base >= 1,
            r == nanos as int % span,
    ;
    assert(r / 1_000_000_000 < base) by (nonlinear_arith)
        requires
            0 <= r < base * 1_000_000_000,
            base >= 1,
    ;
    assert(r / 1_000_000_000 >= 0) by (nonlinear_arith)
        requires
            0 <= r,
    ;
}

/// Which repos status tick number `tick` covers: every repo on every
/// `RECONCILE_EVERY`th tick, otherwise only the unwatched ones.
pub fn sweep_scope(tick: u32) -> (s: Scope)
    ensures
        s == (if tick % RECONCILE_EVERY == 0 {
            Scope::All
        } else {
            Scope::Unwatched
        }),
{
    if tick % RECONCILE_EVERY == 0 {
        Scope::All
    } else {
        Scope::Unwatched
    }
}

/// The sweep's patience sits between a healthy pass over every repo (well
/// under two seconds) and the point where a read is killed, so a slow read
/// can outlive it and still be folded in.
pub proof fn law_patience_sits_below_the_read_timeout()
    ensures
        2 <= SWEEP_PATIENCE < READ_TIMEOUT,
{
}

/// How one repo's background fetch is filed.
#[derive(Debug, Clone, Copy, PartialEq, Eq)]
pub enum FetchVerdict {
    /// Fetched, or failed for a reason other than credentials.
    Attempted,
    /// Failed on what looks like a credential problem.
    AuthNeeded,
    /// Not tried: no remote, or a write held the repo.
    NotTried,
}

pub open spec fn verdict_spec(result: Option<Result<(), String>>) -> FetchVerdict {
    match result {
        None => FetchVerdict::NotTried,
        Some(Ok(())) => FetchVerdict::Attempted,
        Some(Err(e)) => if mentions_auth_failure_spec(lowercase(e@)) {
            FetchVerdict::AuthNeeded
        } else {
            FetchVerdict::Attempted
        },
    }
}

pub fn classify_fetch(result: &Option<Result<(), String>>) -> (v: FetchVerdict)
    ensures
        v == verdict_spec(*result),
{
    match result {
        None => FetchVerdict::NotTried,
        Some(Ok(())) => FetchVerdict::Attempted,
        Some(Err(e)) => if looks_like_auth_failure(e.as_str()) {
            FetchVerdict::AuthNeeded
        } else {
            FetchVerdict::Attempted
        },
    }
}

} // verus!
