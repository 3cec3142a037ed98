//! File-system watching: which changes are build output and not worth a
//! read, and the per-repo throttle that keeps a busy repo to one status read
//! per interval without dropping the change that arrived too soon. The
//! watchers themselves are the caller's.
use vstd::prelude::*;

use crate::ids::IdMap;
use crate::text::{contains, keep_some, split, str_eq};

verus! {

/// How long a burst of events is gathered before it is delivered.
pub const DEBOUNCE_MS: u64 = 200;

/// The least time, in milliseconds, between two status reads of one repo.
pub const MIN_INTERVAL_MS: u64 = 2000;

/// Directory names whose contents are build output or dependencies.
pub open spec fn ignored_dirs() -> Seq<Seq<char>> {
    seq![
        "node_modules"@,
        "target"@,
        ".next"@,
        "dist"@,
        "build"@,
        "obj"@,
        "bin"@,
        ".venv"@,
    ]
}

fn ignored_dir(i: usize) -> (r: &'static str)
    requires
        i < 8,
    ensures
        r@ == ignored_dirs()[i as int],
{
    match i {
        0 => "node_modules",
        1 => "target",
        2 => ".next",
        3 => "dist",
        4 => "build",
        5 => "obj",
        6 => "bin",
        _ => ".venv",
    }
}

/// Whether `name` is one of the ignored directory names.
pub fn is_ignored_dir(name: &str) -> (r: bool)
    ensures
        r == ignored_dirs().contains(name@),
{
    let mut i: usize = 0;
    while i < 8
        invariant
            i <= 8,
            forall|k: int| 0 <= k < i ==> ignored_dirs()[k] != name@,
        decreases 8 - i,
    {
        if str_eq(ignored_dir(i), name) {
            assert(ignored_dirs()[i as int] == name@);
            return true;
        }
        i = i + 1;
    }
    assert(ignored_dirs().len() == 8);
    false
}

/// Whether some component of a changed path, taken below the repo root, is
/// an ignored directory; a component that is not valid text never is.
pub open spec fn names_ignored_spec(components: Seq<Option<String>>) -> bool {
    exists|i: int|
        0 <= i < components.len() && (#[trigger] components[i] matches Some(n)
            && ignored_dirs().contains(n@))
}

pub fn names_ignored(components: &Vec<Option<String>>) -> (r: bool)
    ensures
        r == names_ignored_spec(components@),
{
    let mut i: usize = 0;
    while i < components.len()
        invariant
            i <= components@.len(),
            forall|k: int| 0 <= k < i ==> !(#[trigger] components@[k] matches Some(n)
                && ignored_dirs().contains(n@)),
        decreases components.len() - i,
    {
        match &components[i] {
            Some(n) => {
                if is_ignored_dir(n.as_str()) {
                    return true;
                }
            },
            None => {},
        }
        i = i + 1;
    }
    false
}

/// Whether `s` has one of the ignored directory names somewhere in its text.
pub open spec fn mentions_ignored_dir(s: Seq<char>) -> bool {
    exists|j: int| 0 <= j < ignored_dirs().len() && contains(s, #[trigger] ignored_dirs()[j])
}

/// The non-empty pieces of `s` between `/`s, in order.
pub open spec fn segments(s: Seq<char>) -> Seq<Seq<char>> {
    keep_some(
        split(s, '/').map_values(
            |g: Seq<char>|
                if g.len() > 0 {
                    Some(g)
                } else {
                    None
                },
        ),
    )
}

/// A path every platform splits the same way: `/` its only separator, no `\`
/// or `:` in it, no `.` or `..` piece, and not opening with two separators.
/// Such a path's components are its root (when it starts with `/`) and its
/// `segments`, as `Path::components` documents: repeated and trailing
/// separators are ignored.
pub open spec fn plain_path(s: Seq<char>) -> bool {
    &&& forall|i: int| 0 <= i < s.len() ==> s[i] != '\\' && s[i] != ':'
    &&& !(s.len() >= 2 && s[0] == '/' && s[1] == '/')
    &&& forall|i: int|
        0 <= i < split(s, '/').len() ==> #[trigger] split(s, '/')[i] != seq!['.'] && split(s, '/')[i]
            != seq!['.', '.']
}

/// A plain repo root with at least one named piece, and below it a plain
/// relative part: the inputs on which every platform agrees.
pub open spec fn plain_below(root: Seq<char>, changed: Seq<char>, rel: Seq<char>) -> bool {
    &&& plain_path(root)
    &&& segments(root).len() > 0
    &&& plain_path(rel)
    &&& changed == root + seq!['/'] + rel
}

pub open spec fn texts(cs: Seq<Option<String>>) -> Seq<Option<Seq<char>>> {
    cs.map_values(
        |c: Option<String>|
            match c {
                Some(t) => Some(t@),
                None => None,
            },
    )
}

/// On plain inputs, the components below the root are the relative part's
/// `/`-pieces, each as text.
pub open spec fn splits_plainly(root: Seq<char>, changed: Seq<char>, r: Option<Vec<Option<String>>>) -> bool {
    forall|rel: Seq<char>|
        #[trigger] plain_below(root, changed, rel) ==> (r matches Some(cs) && texts(cs@)
            == segments(rel).map_values(|g: Seq<char>| Some(g)))
}

/// `Path::strip_prefix(root)` on `changed`, then the remaining path's
/// `components()`: for a `Component::Normal`, its text where it is valid
/// Unicode, and `None` for every other kind (a prefix, the root, `.`, `..`),
/// none of which can be a directory's name. `None` when `changed` is not under
/// `root`. `strip_prefix` hands back a `&Path` borrowed from `changed`, and
/// `Normal` holds an `&OsStr` borrowed from that path, so each text is a run
/// of `changed`'s own characters. On plain paths the docs fix the rest:
/// `strip_prefix` matches whole components and leaves the part that, joined
/// onto `root`, gives `changed`, and `components` of that part are its
/// non-empty `/`-pieces, each a `Normal` one. Elsewhere how a path splits is
/// the platform's, and nothing more is claimed.
#[verifier::external_body]
fn components_below(root: &str, changed: &str) -> (r: Option<Vec<Option<String>>>)
    ensures
        r matches Some(cs) ==> forall|i: int|
            0 <= i < cs@.len() ==> (#[trigger] cs@[i] matches Some(t) ==> contains(changed@, t@)),
        splits_plainly(root@, changed@, r),
{
    std::path::Path::new(changed).strip_prefix(root).ok().map(|rel| {
        rel.components()
            .map(|c| match c {
                std::path::Component::Normal(name) => name.to_str().map(str::to_owned),
                _ => None,
            })
            .collect()
    })
}

/// Whether a change at `changed` inside the repo at `repo_root` is build
/// output: some directory below the repo root on its path is an ignored one.
/// A path outside the repo is not noise, an ignored name above the repo root
/// does not count, and a path whose text names no ignored directory never is.
pub fn is_noise(repo_root: &str, changed: &str) -> (r: bool)
    ensures
        r ==> mentions_ignored_dir(changed@),
        forall|rel: Seq<char>|
            #[trigger] plain_below(repo_root@, changed@, rel) ==> (r <==> exists|i: int|
                0 <= i < segments(rel).len() && ignored_dirs().contains(#[trigger] segments(rel)[i])),
{
    match components_below(repo_root, changed) {
        Some(components) => {
            let r = names_ignored(&components);
            proof {
                assert forall|rel: Seq<char>| #[trigger] plain_below(repo_root@, changed@, rel) implies (r
                    <==> exists|i: int|
                    0 <= i < segments(rel).len() && ignored_dirs().contains(
                        #[trigger] segments(rel)[i],
                    )) by {
                    let segs = segments(rel);
                    let cs = components@;
                    assert(texts(cs) == segs.map_values(|g: Seq<char>| Some(g)));
                    assert(cs.len() == segs.len());
                    if r {
                        let k = choose|k: int|
                            0 <= k < cs.len() && (#[trigger] cs[k] matches Some(n)
                                && ignored_dirs().contains(n@));
                        assert(texts(cs)[k] == Some(segs[k]));
                    }
                    if exists|i: int| 0 <= i < segs.len() && ignored_dirs().contains(#[trigger] segs[i]) {
                        let i = choose|i: int| 0 <= i < segs.len() && ignored_dirs().contains(#[trigger] segs[i]);
                        assert(texts(cs)[i] == Some(segs[i]));
                        assert(cs[i] matches Some(n) && ignored_dirs().contains(n@));
                    }
                }
                if r {
                    let k = choose|k: int|
                        0 <= k < components@.len() && (#[trigger] components@[k] matches Some(n)
                            && ignored_dirs().contains(n@));
                    if let Some(n) = components@[k] {
                        assert(contains(changed@, n@));
                        let j = choose|j: int| 0 <= j < ignored_dirs().len() && ignored_dirs()[j] == n@;
                        assert(contains(changed@, ignored_dirs()[j]));
                    }
                }
            }
            r
        },
        None => false,
    }
}

/// What a change notification may do about a repo's status read.
#[derive(Debug, Clone, Copy, PartialEq, Eq)]
pub enum Claim {
    /// Read now.
    Now,
    /// Read after this many milliseconds; this change is the one deferred.
    After(u64),
    /// A deferred read is already waiting and will see this change too.
    Queued,
}

/// When a repo was last read (milliseconds on a monotonic clock) and whether
/// a deferred read is waiting.
#[derive(Debug, Clone, Copy, PartialEq, Eq)]
pub struct ReadState {
    pub last_ms: u64,
    pub pending: bool,
}

/// What claiming a read of `k` at `now` decides, and the state after it.
pub open spec fn claim_spec(
    m: Map<Seq<char>, ReadState>,
    k: Seq<char>,
    now: u64,
) -> (Map<Seq<char>, ReadState>, Claim) {
    if !m.contains_key(k) {
        (m.insert(k, ReadState { last_ms: now, pending: false }), Claim::Now)
    } else {
        let st = m[k];
        let since: int = if now >= st.last_ms {
            now - st.last_ms
        } else {
            0
        };
        if since >= MIN_INTERVAL_MS {
            (m.insert(k, ReadState { last_ms: now, pending: false }), Claim::Now)
        } else if st.pending {
            (m, Claim::Queued)
        } else {
            (m.insert(k, ReadState { last_ms: st.last_ms, pending: true }), Claim::After(
                (MIN_INTERVAL_MS - since) as u64,
            ))
        }
    }
}

/// The state after a deferred read's wait ends at `now`: the waiting slot is
/// released either way, and the read is recorded only when the repo is still
/// watched and so is read.
pub open spec fn finish_spec(
    m: Map<Seq<char>, ReadState>,
    k: Seq<char>,
    watched: bool,
    now: u64,
) -> Map<Seq<char>, ReadState> {
    if m.contains_key(k) {
        m.insert(
            k,
            ReadState {
                last_ms: if watched {
                    now
                } else {
                    m[k].last_ms
                },
                pending: false,
            },
        )
    } else {
        m
    }
}

/// The per-repo throttle on status reads triggered by file changes.
pub struct ReadThrottle {
    reads: IdMap<ReadState>,
}

impl View for ReadThrottle {
    type V = Map<Seq<char>, ReadState>;

    open spec fn view(&self) -> Map<Seq<char>, ReadState> {
        self.reads_spec()
    }
}

impl ReadThrottle {
    pub closed spec fn reads_spec(&self) -> Map<Seq<char>, ReadState> {
        self.reads@
    }

    /// No repo read yet.
    pub fn new() -> (t: Self)
        ensures
            t@ == Map::<Seq<char>, ReadState>::empty(),
    {
        ReadThrottle { reads: IdMap::new() }
    }

    /// Decides whether a change to `repo_id` at `now_ms` is read now, later,
    /// or by a read already waiting, recording the read or the wait in the
    /// same step as the check.
    pub fn claim(&mut self, repo_id: &str, now_ms: u64) -> (c: Claim)
        ensures
            (final(self)@, c) == claim_spec(old(self)@, repo_id@, now_ms),
    {
        let current: Option<ReadState> = match self.reads.get(repo_id) {
            Some(st) => Some(*st),
            None => None,
        };
        match current {
            None => {
                self.reads.insert(repo_id.to_owned(), ReadState { last_ms: now_ms, pending: false });
                Claim::Now
            },
            Some(st) => {
                let since: u64 = if now_ms >= st.last_ms {
                    now_ms - st.last_ms
                } else {
                    0
                };
                if since >= MIN_INTERVAL_MS {
                    self.reads.insert(repo_id.to_owned(), ReadState { last_ms: now_ms, pending: false });
                    Claim::Now
                } else if st.pending {
                    Claim::Queued
                } else {
                    self.reads.insert(repo_id.to_owned(), ReadState { last_ms: st.last_ms, pending: true });
                    Claim::After(MIN_INTERVAL_MS - since)
                }
            },
        }
    }

    /// Ends the wait a `Claim::After` handed out; whether the deferred read
    /// should still happen, which it should only while the repo is watched.
    pub fn finish_deferred(&mut self, repo_id: &str, watched: bool, now_ms: u64) -> (go: bool)
        ensures
            go == watched,
            final(self)@ == finish_spec(old(self)@, repo_id@, watched, now_ms),
    {
        let current: Option<ReadState> = match self.reads.get(repo_id) {
            Some(st) => Some(*st),
            None => None,
        };
        if let Some(st) = current {
            let last_ms = if watched {
                now_ms
            } else {
                st.last_ms
            };
            self.reads.insert(repo_id.to_owned(), ReadState { last_ms, pending: false });
        }
        watched
    }
}

/// A repo read at `t` is not read again before the interval is up: a claim
/// that let a read go ahead makes every claim for the same repo in the
/// following interval wait or join the waiting read.
pub proof fn law_read_once_per_interval(m: Map<Seq<char>, ReadState>, k: Seq<char>, t: u64, t2: u64)
    requires
        t <= t2 < t + MIN_INTERVAL_MS,
    ensures
        ({
            let (m1, c1) = claim_spec(m, k, t);
            c1 == Claim::Now ==> claim_spec(m1, k, t2).1 != Claim::Now
        }),
{
}

} // verus!
