//! The open root's state and every rule that changes it: adopting a rescan,
//! folding a sweep's results in, recording fetches, pins and selection, and
//! choosing which repos a sweep, a fetch or a bulk pull reaches.
use vstd::prelude::*;

use crate::cache::RootCache;
use crate::discovery::Repo;
use crate::ids::{contains_id, lemma_to_set_push, IdMap, IdSet};
use crate::roots::RootSettings;
use crate::status::{can_pull, can_pull_spec, needs_publish, publish_rule, RepoStatus};
use crate::text::{keep_some, lemma_keep_some_step, str_eq, strings};

verus! {

/// One window's open root.
pub struct RootState {
    /// Bumped on every open, so a sweep that outlives its root never writes
    /// over the next one.
    pub generation: u64,
    pub path: String,
    pub repos: Vec<Repo>,
    pub statuses: IdMap<RepoStatus>,
    /// A repo whose status could not be read: unknown, not clean.
    pub errors: IdMap<String>,
    /// Unix seconds of each repo's last fetch attempt.
    pub last_fetch_at: IdMap<i64>,
    /// Repos whose background fetch last failed on what looks like a
    /// credential problem; the fetch sweep leaves them alone.
    pub auth_needed: IdSet,
    /// The user's own pins — never pruned by a rescan.
    pub pins: IdSet,
    /// Repos no watcher could be set up for: the only ones the frequent
    /// sweep still visits.
    pub unwatched: IdSet,
    pub selected: Option<String>,
}

/// The ids of a list of repos.
pub open spec fn ids_of(repos: Seq<Repo>) -> Set<Seq<char>> {
    Set::new(|k: Seq<char>| exists|i: int| 0 <= i < repos.len() && repos[i].id@ == k)
}

pub open spec fn opt_text(o: Option<String>) -> Option<Seq<char>> {
    match o {
        Some(s) => Some(s@),
        None => None,
    }
}

/// A copy of a repo entry.
pub fn copy_repo(r: &Repo) -> (c: Repo)
    ensures
        c == *r,
{
    Repo { id: r.id.clone(), name: r.name.clone(), path: r.path.clone() }
}

/// The ids of `repos`, in order.
pub fn repo_ids(repos: &Vec<Repo>) -> (ids: Vec<String>)
    ensures
        strings(ids@).to_set() == ids_of(repos@),
        strings(ids@) == repos@.map_values(|r: Repo| r.id@),
{
    let mut ids: Vec<String> = Vec::new();
    let mut i: usize = 0;
    while i < repos.len()
        invariant
            i <= repos@.len(),
            strings(ids@) == repos@.take(i as int).map_values(|r: Repo| r.id@),
        decreases repos.len() - i,
    {
        let ghost prev = ids@;
        ids.push(repos[i].id.clone());
        proof {
            assert(strings(ids@) =~= strings(prev).push(repos@[i as int].id@));
            assert(repos@.take(i + 1).map_values(|r: Repo| r.id@) =~= repos@.take(
                i as int,
            ).map_values(|r: Repo| r.id@).push(repos@[i as int].id@));
        }
        i = i + 1;
    }
    proof {
        assert(repos@.take(repos@.len() as int) =~= repos@);
        assert forall|k: Seq<char>| strings(ids@).to_set().contains(k) <==> ids_of(repos@).contains(k) by {
            if strings(ids@).contains(k) {
                let j = choose|j: int| 0 <= j < strings(ids@).len() && strings(ids@)[j] == k;
                assert(repos@[j].id@ == k);
            }
            if ids_of(repos@).contains(k) {
                let j = choose|j: int| 0 <= j < repos@.len() && repos@[j].id@ == k;
                assert(strings(ids@)[j] == k);
            }
        }
        assert(strings(ids@).to_set() =~= ids_of(repos@));
    }
    ids
}

/// Whether `id` is one of `repos`' ids.
pub fn has_repo_id(repos: &Vec<Repo>, id: &str) -> (r: bool)
    ensures
        r == ids_of(repos@).contains(id@),
{
    let mut i: usize = 0;
    while i < repos.len()
        invariant
            i <= repos@.len(),
            forall|j: int| 0 <= j < i ==> repos@[j].id@ != id@,
        decreases repos.len() - i,
    {
        if str_eq(repos[i].id.as_str(), id) {
            return true;
        }
        i = i + 1;
    }
    false
}

/// A selection survives a rescan only if its repo is still there.
pub open spec fn kept_selection(selected: Option<String>, known: Set<Seq<char>>) -> Option<String> {
    match selected {
        Some(s) => if known.contains(s@) {
            Some(s)
        } else {
            None
        },
        None => None,
    }
}

/// What the status map becomes when a sweep brings statuses `s` and errors
/// `e`: the new statuses added or replaced, and every repo that just failed
/// dropped from it.
pub open spec fn merged_statuses(
    st: Map<Seq<char>, RepoStatus>,
    s: Map<Seq<char>, RepoStatus>,
    e: Map<Seq<char>, String>,
) -> Map<Seq<char>, RepoStatus> {
    st.union_prefer_right(s).remove_keys(e.dom())
}

/// What the error map becomes: every repo that just succeeded dropped from
/// it, and the new errors added or replaced.
pub open spec fn merged_errors(
    er: Map<Seq<char>, String>,
    s: Map<Seq<char>, RepoStatus>,
    e: Map<Seq<char>, String>,
) -> Map<Seq<char>, String> {
    er.remove_keys(s.dom()).union_prefer_right(e)
}

/// `now` for every id in `ids`.
pub open spec fn stamped(ids: Set<Seq<char>>, now: i64) -> Map<Seq<char>, i64> {
    Map::new(|k: Seq<char>| ids.contains(k), |k: Seq<char>| now)
}

/// Which repos a status sweep covers.
#[derive(Debug, Clone, Copy, PartialEq, Eq)]
pub enum Scope {
    All,
    Unwatched,
}

/// Which repos are due a background fetch: not waiting on credentials, and
/// never fetched or last fetched at least `interval` seconds before `now`.
pub open spec fn fetch_is_due(
    r: Repo,
    auth: Set<Seq<char>>,
    last: Map<Seq<char>, i64>,
    now: i64,
    interval: u64,
) -> bool {
    !auth.contains(r.id@) && (!last.contains_key(r.id@) || now - last[r.id@] >= (
    interval as i64))
}

pub open spec fn due_repos(
    repos: Seq<Repo>,
    auth: Set<Seq<char>>,
    last: Map<Seq<char>, i64>,
    now: i64,
    interval: u64,
) -> Seq<Repo> {
    keep_some(
        repos.map_values(
            |r: Repo|
                if fetch_is_due(r, auth, last, now, interval) {
                    Some(r)
                } else {
                    None
                },
        ),
    )
}

/// The repos among `repos` whose ids are in `ids`, in list order.
pub open spec fn repos_among(repos: Seq<Repo>, ids: Set<Seq<char>>) -> Seq<Repo> {
    keep_some(
        repos.map_values(
            |r: Repo|
                if ids.contains(r.id@) {
                    Some(r)
                } else {
                    None
                },
        ),
    )
}

/// The repos *Pull All Behind* reaches: those whose known status is behind.
pub open spec fn behind_repos(repos: Seq<Repo>, st: Map<Seq<char>, RepoStatus>) -> Seq<Repo> {
    keep_some(
        repos.map_values(
            |r: Repo|
                if st.contains_key(r.id@) && can_pull_spec(st[r.id@].model()) {
                    Some(r)
                } else {
                    None
                },
        ),
    )
}

/// What a sweep's results came to.
#[derive(Debug, Clone, Copy, PartialEq, Eq)]
pub enum SweepFate {
    /// Folded into this root.
    Published,
    /// The root was reopened since the sweep started; nothing was written.
    Stale,
}

impl RootState {
    /// The state of a freshly opened root: repos as scanned, statuses and
    /// fetch times seeded from the cache for the repos that are still there,
    /// pins exactly as stored (never filtered by one scan), the last
    /// selection when its repo is still there, and a generation one past the
    /// previous root's.
    pub fn open(
        previous_generation: u64,
        path: String,
        repos: Vec<Repo>,
        cached: RootCache,
        settings: RootSettings,
    ) -> (s: RootState)
        requires
            previous_generation < u64::MAX,
        ensures
            s.generation == previous_generation + 1,
            s.path == path,
            s.repos@ == repos@,
            s.statuses@ == cached.statuses@.restrict(ids_of(repos@)),
            s.last_fetch_at@ == cached.last_fetch_at@.restrict(ids_of(repos@)),
            s.errors@ == Map::<Seq<char>, String>::empty(),
            s.auth_needed@ == Set::<Seq<char>>::empty(),
            s.unwatched@ == Set::<Seq<char>>::empty(),
            s.pins@ == settings.pins@,
            s.selected == kept_selection(settings.last_selected, ids_of(repos@)),
    {
        let ids = repo_ids(&repos);
        let mut statuses = cached.statuses;
        statuses.retain_ids(&ids);
        let mut last_fetch_at = cached.last_fetch_at;
        last_fetch_at.retain_ids(&ids);
        let selected = match settings.last_selected {
            Some(s) => if contains_id(&ids, s.as_str()) {
                Some(s)
            } else {
                None
            },
            None => None,
        };
        RootState {
            generation: previous_generation + 1,
            path,
            repos,
            statuses,
            errors: IdMap::new(),
            last_fetch_at,
            auth_needed: IdSet::new(),
            pins: settings.pins,
            unwatched: IdSet::new(),
            selected,
        }
    }

    /// Adopts a fresh discovery scan. Everything a sweep can regenerate is
    /// dropped for repos that are gone; the pins are not, because a repo
    /// missing from one scan may only be on a disconnected drive. A selection
    /// on a vanished repo is cleared.
    pub fn adopt_repos(&mut self, repos: Vec<Repo>)
        ensures
            final(self).repos@ == repos@,
            final(self).statuses@ == old(self).statuses@.restrict(ids_of(repos@)),
            final(self).errors@ == old(self).errors@.restrict(ids_of(repos@)),
            final(self).last_fetch_at@ == old(self).last_fetch_at@.restrict(ids_of(repos@)),
            final(self).auth_needed@ == old(self).auth_needed@.intersect(ids_of(repos@)),
            final(self).unwatched@ == old(self).unwatched@.intersect(ids_of(repos@)),
            final(self).pins@ == old(self).pins@,
            final(self).selected == kept_selection(old(self).selected, ids_of(repos@)),
            final(self).generation == old(self).generation,
            final(self).path == old(self).path,
    {
        let ids = repo_ids(&repos);
        self.statuses.retain_ids(&ids);
        self.errors.retain_ids(&ids);
        self.last_fetch_at.retain_ids(&ids);
        self.auth_needed.retain_ids(&ids);
        self.unwatched.retain_ids(&ids);
        let keep = match &self.selected {
            Some(s) => contains_id(&ids, s.as_str()),
            None => true,
        };
        if !keep {
            self.selected = None;
        }
        self.repos = repos;
    }

    /// Folds one sweep's results in. A merge, not a replace: a repo the sweep
    /// skipped because a write held it keeps what it had. A repo that just
    /// succeeded loses its old error, and one that just failed loses its old
    /// status.
    pub fn merge_sweep_results(&mut self, statuses: IdMap<RepoStatus>, errors: IdMap<String>)
        ensures
            final(self).statuses@ == merged_statuses(old(self).statuses@, statuses@, errors@),
            final(self).errors@ == merged_errors(old(self).errors@, statuses@, errors@),
            final(self).repos == old(self).repos,
            final(self).last_fetch_at == old(self).last_fetch_at,
            final(self).pins == old(self).pins,
            final(self).selected == old(self).selected,
            final(self).generation == old(self).generation,
            final(self).path == old(self).path,
            final(self).auth_needed == old(self).auth_needed,
            final(self).unwatched == old(self).unwatched,
    {
        let ghost st0 = self.statuses@;
        let ghost er0 = self.errors@;
        let ghost s = statuses@;
        let ghost e = errors@;
        let sp = statuses.into_pairs();
        let mut i: usize = 0;
        let ghost done: Set<Seq<char>> = Set::empty();
        assert(st0.union_prefer_right(s.restrict(done)) =~= st0);
        assert(er0.remove_keys(done) =~= er0);
        while i < sp.len()
            invariant
                i <= sp@.len(),
                forall|j: int| 0 <= j < sp@.len() ==> s.contains_key(#[trigger] sp@[j].0@) && s[sp@[j].0@] == sp@[j].1,
                forall|k: Seq<char>| s.contains_key(k) ==> exists|j: int| 0 <= j < sp@.len() && #[trigger] sp@[j].0@ == k,
                done == Set::new(|k: Seq<char>| exists|j: int| 0 <= j < i && #[trigger] sp@[j].0@ == k),
                self.statuses@ == st0.union_prefer_right(s.restrict(done)),
                self.errors@ == er0.remove_keys(done),
                self.repos == old(self).repos,
                self.last_fetch_at == old(self).last_fetch_at,
                self.pins == old(self).pins,
                self.selected == old(self).selected,
                self.generation == old(self).generation,
                self.path == old(self).path,
                self.auth_needed == old(self).auth_needed,
                self.unwatched == old(self).unwatched,
            decreases sp.len() - i,
        {
            let ghost d0 = done;
            let (id, status) = copy_pair(&sp[i]);
            let ghost k = id@;
            self.errors.remove(id.as_str());
            self.statuses.insert(id, status);
            proof {
                done = Set::new(|x: Seq<char>| exists|j: int| 0 <= j < i + 1 && #[trigger] sp@[j].0@ == x);
                assert(done =~= d0.insert(k)) by {
                    assert(sp@[i as int].0@ == k);
                }
                assert(self.statuses@ =~= st0.union_prefer_right(s.restrict(done)));
                assert(self.errors@ =~= er0.remove_keys(done));
            }
            i = i + 1;
        }
        proof {
            assert(done =~= s.dom()) by {
                assert forall|k: Seq<char>| s.contains_key(k) implies done.contains(k) by {
                    let j = choose|j: int| 0 <= j < sp@.len() && #[trigger] sp@[j].0@ == k;
                }
            }
            assert(s.restrict(done) =~= s);
        }
        let ghost st1 = self.statuses@;
        let ghost er1 = self.errors@;
        let ep = errors.into_pairs();
        let mut m: usize = 0;
        let ghost done2: Set<Seq<char>> = Set::empty();
        assert(er1.union_prefer_right(e.restrict(done2)) =~= er1);
        assert(st1.remove_keys(done2) =~= st1);
        while m < ep.len()
            invariant
                m <= ep@.len(),
                forall|j: int| 0 <= j < ep@.len() ==> e.contains_key(#[trigger] ep@[j].0@) && e[ep@[j].0@] == ep@[j].1,
                forall|k: Seq<char>| e.contains_key(k) ==> exists|j: int| 0 <= j < ep@.len() && #[trigger] ep@[j].0@ == k,
                done2 == Set::new(|k: Seq<char>| exists|j: int| 0 <= j < m && #[trigger] ep@[j].0@ == k),
                self.errors@ == er1.union_prefer_right(e.restrict(done2)),
                self.statuses@ == st1.remove_keys(done2),
                self.repos == old(self).repos,
                self.last_fetch_at == old(self).last_fetch_at,
                self.pins == old(self).pins,
                self.selected == old(self).selected,
                self.generation == old(self).generation,
                self.path == old(self).path,
                self.auth_needed == old(self).auth_needed,
                self.unwatched == old(self).unwatched,
            decreases ep.len() - m,
        {
            let ghost d0 = done2;
            let id = ep[m].0.clone();
            let err = ep[m].1.clone();
            let ghost k = id@;
            self.statuses.remove(id.as_str());
            self.errors.insert(id, err);
            proof {
                done2 = Set::new(|x: Seq<char>| exists|j: int| 0 <= j < m + 1 && #[trigger] ep@[j].0@ == x);
                assert(done2 =~= d0.insert(k)) by {
                    assert(ep@[m as int].0@ == k);
                }
                assert(self.errors@ =~= er1.union_prefer_right(e.restrict(done2)));
                assert(self.statuses@ =~= st1.remove_keys(done2));
            }
            m = m + 1;
        }
        proof {
            assert(done2 =~= e.dom()) by {
                assert forall|k: Seq<char>| e.contains_key(k) implies done2.contains(k) by {
                    let j = choose|j: int| 0 <= j < ep@.len() && #[trigger] ep@[j].0@ == k;
                }
            }
            assert(e.restrict(done2) =~= e);
            assert(self.statuses@ =~= merged_statuses(st0, s, e));
            assert(self.errors@ =~= merged_errors(er0, s, e));
        }
    }

    /// Folds a sweep's results in only when they belong to this root.
    pub fn accept_sweep(
        &mut self,
        generation: u64,
        statuses: IdMap<RepoStatus>,
        errors: IdMap<String>,
    ) -> (fate: SweepFate)
        ensures
            fate == (if generation == old(self).generation {
                SweepFate::Published
            } else {
                SweepFate::Stale
            }),
            fate == SweepFate::Published ==> final(self).statuses@ == merged_statuses(
                old(self).statuses@,
                statuses@,
                errors@,
            ) && final(self).errors@ == merged_errors(old(self).errors@, statuses@, errors@),
            fate == SweepFate::Stale ==> final(self).statuses@ == old(self).statuses@
                && final(self).errors@ == old(self).errors@,
            final(self).generation == old(self).generation,
            final(self).repos == old(self).repos,
            final(self).path == old(self).path,
            final(self).last_fetch_at == old(self).last_fetch_at,
            final(self).auth_needed == old(self).auth_needed,
            final(self).unwatched == old(self).unwatched,
            final(self).pins == old(self).pins,
            final(self).selected == old(self).selected,
    {
        if generation != self.generation {
            return SweepFate::Stale;
        }
        self.merge_sweep_results(statuses, errors);
        SweepFate::Published
    }

    /// One repo's fresh read: its status, or the error that replaced it.
    pub fn apply_repo_status(&mut self, repo_id: &str, result: Result<RepoStatus, String>)
        ensures
            match result {
                Ok(s) => final(self).statuses@ == old(self).statuses@.insert(repo_id@, s)
                    && final(self).errors@ == old(self).errors@.remove(repo_id@),
                Err(e) => final(self).errors@ == old(self).errors@.insert(repo_id@, e)
                    && final(self).statuses@ == old(self).statuses@.remove(repo_id@),
            },
            final(self).repos == old(self).repos,
            final(self).generation == old(self).generation,
            final(self).path == old(self).path,
            final(self).last_fetch_at == old(self).last_fetch_at,
            final(self).auth_needed == old(self).auth_needed,
            final(self).pins == old(self).pins,
            final(self).unwatched == old(self).unwatched,
            final(self).selected == old(self).selected,
    {
        match result {
            Ok(s) => {
                self.statuses.insert(repo_id.to_owned(), s);
                self.errors.remove(repo_id);
            },
            Err(e) => {
                self.errors.insert(repo_id.to_owned(), e);
                self.statuses.remove(repo_id);
            },
        }
    }

    /// Whether `repo_id` is one of this root's repos.
    pub fn has_repo(&self, repo_id: &str) -> (r: bool)
        ensures
            r == ids_of(self.repos@).contains(repo_id@),
    {
        has_repo_id(&self.repos, repo_id)
    }

    /// A repo's folder, or the error every mutating command starts with when
    /// it is no longer open.
    pub fn repo_path(&self, repo_id: &str) -> (r: Result<String, String>)
        ensures
            match r {
                Ok(p) => exists|i: int|
                    0 <= i < self.repos@.len() && self.repos@[i].id@ == repo_id@ && self.repos@[i].path
                        == p && forall|j: int| 0 <= j < i ==> self.repos@[j].id@ != repo_id@,
                Err(e) => !ids_of(self.repos@).contains(repo_id@) && e@
                    == "That repository is no longer open"@,
            },
    {
        let mut i: usize = 0;
        while i < self.repos.len()
            invariant
                i <= self.repos@.len(),
                forall|j: int| 0 <= j < i ==> self.repos@[j].id@ != repo_id@,
            decreases self.repos.len() - i,
        {
            if str_eq(self.repos[i].id.as_str(), repo_id) {
                return Ok(self.repos[i].path.clone());
            }
            i = i + 1;
        }
        Err("That repository is no longer open".to_owned())
    }

    /// The checked-out branch as last read, or the refusal for a detached
    /// HEAD (or a repo with no status yet).
    pub fn current_branch(&self, repo_id: &str) -> (r: Result<String, String>)
        ensures
            match r {
                Ok(b) => self.statuses@.contains_key(repo_id@) && self.statuses@[repo_id@].branch
                    == Some(b),
                Err(e) => !(self.statuses@.contains_key(repo_id@) && self.statuses@[repo_id@].branch
                    is Some) && e@ == "No branch to publish (detached HEAD)"@,
            },
    {
        match self.statuses.get(repo_id) {
            Some(st) => match &st.branch {
                Some(b) => Ok(b.clone()),
                None => Err("No branch to publish (detached HEAD)".to_owned()),
            },
            None => Err("No branch to publish (detached HEAD)".to_owned()),
        }
    }

    /// Whether Commit & Push must publish rather than push, asked of the
    /// status as last read.
    pub fn publish_needed(&self, repo_id: &str) -> (r: Result<bool, String>)
        ensures
            !self.statuses@.contains_key(repo_id@) ==> (r matches Err(e) && e@
                == "That repository has no status yet"@),
            self.statuses@.contains_key(repo_id@) ==> match self.statuses@[repo_id@].branch {
                None => r matches Err(e) && e@ == "No branch to publish (detached HEAD)"@,
                Some(b) => r == Ok::<bool, String>(
                    publish_rule(b@, opt_text(self.statuses@[repo_id@].upstream)),
                ),
            },
    {
        match self.statuses.get(repo_id) {
            None => Err("That repository has no status yet".to_owned()),
            Some(st) => match &st.branch {
                None => Err("No branch to publish (detached HEAD)".to_owned()),
                Some(b) => {
                    let up: Option<&str> = match &st.upstream {
                        Some(u) => Some(u.as_str()),
                        None => None,
                    };
                    Ok(needs_publish(b.as_str(), up))
                },
            },
        }
    }

    /// Pins or unpins a repo that is open.
    pub fn toggle_pin(&mut self, repo_id: String) -> (r: Result<(), String>)
        ensures
            r is Ok <==> ids_of(old(self).repos@).contains(repo_id@),
            r is Ok ==> final(self).pins@ == (if old(self).pins@.contains(repo_id@) {
                old(self).pins@.remove(repo_id@)
            } else {
                old(self).pins@.insert(repo_id@)
            }),
            r matches Err(e) ==> e@ == "That repository is no longer open"@ && final(self).pins@
                == old(self).pins@,
            final(self).repos == old(self).repos,
            final(self).selected == old(self).selected,
            final(self).generation == old(self).generation,
            final(self).path == old(self).path,
            final(self).statuses == old(self).statuses,
            final(self).errors == old(self).errors,
            final(self).last_fetch_at == old(self).last_fetch_at,
            final(self).auth_needed == old(self).auth_needed,
            final(self).unwatched == old(self).unwatched,
    {
        if !self.has_repo(repo_id.as_str()) {
            return Err("That repository is no longer open".to_owned());
        }
        if self.pins.contains(repo_id.as_str()) {
            self.pins.remove(repo_id.as_str());
        } else {
            self.pins.insert(repo_id);
        }
        Ok(())
    }

    /// Unpins everything at once.
    pub fn clear_pins(&mut self)
        ensures
            final(self).pins@ == Set::<Seq<char>>::empty(),
            final(self).repos == old(self).repos,
            final(self).selected == old(self).selected,
            final(self).generation == old(self).generation,
            final(self).path == old(self).path,
            final(self).statuses == old(self).statuses,
            final(self).errors == old(self).errors,
            final(self).last_fetch_at == old(self).last_fetch_at,
            final(self).auth_needed == old(self).auth_needed,
            final(self).unwatched == old(self).unwatched,
    {
        self.pins = IdSet::new();
    }

    /// Records a fetch attempt on one repo at `now`: its fetch time, and —
    /// since the user was there to answer any prompt — no credential flag.
    pub fn record_fetch_attempt(&mut self, repo_id: &str, now: i64)
        ensures
            final(self).last_fetch_at@ == old(self).last_fetch_at@.insert(repo_id@, now),
            final(self).auth_needed@ == old(self).auth_needed@.remove(repo_id@),
            final(self).statuses == old(self).statuses,
            final(self).repos == old(self).repos,
            final(self).generation == old(self).generation,
            final(self).path == old(self).path,
            final(self).errors == old(self).errors,
            final(self).pins == old(self).pins,
            final(self).unwatched == old(self).unwatched,
            final(self).selected == old(self).selected,
    {
        self.last_fetch_at.insert(repo_id.to_owned(), now);
        self.auth_needed.remove(repo_id);
    }

    /// Records a failed fetch in a bulk run, which never prompts: its fetch
    /// time, and the credential flag when the failure looked like one — never
    /// cleared here, since nothing new was learned.
    pub fn record_bulk_fetch_failure(&mut self, repo_id: &str, now: i64, auth_failed: bool)
        ensures
            final(self).last_fetch_at@ == old(self).last_fetch_at@.insert(repo_id@, now),
            final(self).auth_needed@ == (if auth_failed {
                old(self).auth_needed@.insert(repo_id@)
            } else {
                old(self).auth_needed@
            }),
            final(self).statuses == old(self).statuses,
            final(self).repos == old(self).repos,
            final(self).generation == old(self).generation,
            final(self).path == old(self).path,
            final(self).errors == old(self).errors,
            final(self).pins == old(self).pins,
            final(self).unwatched == old(self).unwatched,
            final(self).selected == old(self).selected,
    {
        self.last_fetch_at.insert(repo_id.to_owned(), now);
        if auth_failed {
            self.auth_needed.insert(repo_id.to_owned());
        }
    }

    /// Records a background fetch sweep: every repo it reached gets `now` as
    /// its fetch time; those that failed on credentials are flagged and the
    /// others cleared.
    pub fn record_fetch_sweep(&mut self, attempted: &Vec<String>, auth_failed: &Vec<String>, now: i64)
        ensures
            final(self).last_fetch_at@ == old(self).last_fetch_at@.union_prefer_right(
                stamped(strings(attempted@).to_set().union(strings(auth_failed@).to_set()), now),
            ),
            final(self).auth_needed@ == old(self).auth_needed@.difference(
                strings(attempted@).to_set(),
            ).union(strings(auth_failed@).to_set()),
            final(self).statuses == old(self).statuses,
            final(self).repos == old(self).repos,
            final(self).generation == old(self).generation,
            final(self).path == old(self).path,
            final(self).errors == old(self).errors,
            final(self).pins == old(self).pins,
            final(self).unwatched == old(self).unwatched,
            final(self).selected == old(self).selected,
    {
        let ghost last0 = self.last_fetch_at@;
        let ghost auth0 = self.auth_needed@;
        let mut i: usize = 0;
        assert(strings(attempted@.take(0)).to_set() =~= Set::<Seq<char>>::empty());
        assert(last0.union_prefer_right(stamped(Set::empty(), now)) =~= last0);
        assert(auth0.difference(Set::empty()) =~= auth0);
        while i < attempted.len()
            invariant
                i <= attempted@.len(),
                self.last_fetch_at@ == last0.union_prefer_right(
                    stamped(strings(attempted@.take(i as int)).to_set(), now),
                ),
                self.auth_needed@ == auth0.difference(strings(attempted@.take(i as int)).to_set()),
                self.statuses == old(self).statuses,
                self.repos == old(self).repos,
                self.generation == old(self).generation,
                self.path == old(self).path,
                self.errors == old(self).errors,
                self.pins == old(self).pins,
                self.unwatched == old(self).unwatched,
                self.selected == old(self).selected,
            decreases attempted.len() - i,
        {
            let ghost t0 = strings(attempted@.take(i as int));
            let ghost x = attempted@[i as int]@;
            self.last_fetch_at.insert(attempted[i].clone(), now);
            self.auth_needed.remove(attempted[i].as_str());
            proof {
                assert(strings(attempted@.take(i + 1)) =~= t0.push(x));
                lemma_to_set_push(t0, x);
                assert(self.last_fetch_at@ =~= last0.union_prefer_right(
                    stamped(t0.to_set().insert(x), now),
                ));
                assert(self.auth_needed@ =~= auth0.difference(t0.to_set().insert(x)));
            }
            i = i + 1;
        }
        assert(attempted@.take(attempted@.len() as int) =~= attempted@);
        let ghost att = strings(attempted@).to_set();
        let mut m: usize = 0;
        assert(strings(auth_failed@.take(0)).to_set() =~= Set::<Seq<char>>::empty());
        assert(att.union(Set::empty()) =~= att);
        assert(auth0.difference(att).union(Set::empty()) =~= auth0.difference(att));
        while m < auth_failed.len()
            invariant
                m <= auth_failed@.len(),
                att == strings(attempted@).to_set(),
                self.last_fetch_at@ == last0.union_prefer_right(
                    stamped(att.union(strings(auth_failed@.take(m as int)).to_set()), now),
                ),
                self.auth_needed@ == auth0.difference(att).union(
                    strings(auth_failed@.take(m as int)).to_set(),
                ),
                self.statuses == old(self).statuses,
                self.repos == old(self).repos,
                self.generation == old(self).generation,
                self.path == old(self).path,
                self.errors == old(self).errors,
                self.pins == old(self).pins,
                self.unwatched == old(self).unwatched,
                self.selected == old(self).selected,
            decreases auth_failed.len() - m,
        {
            let ghost t0 = strings(auth_failed@.take(m as int));
            let ghost x = auth_failed@[m as int]@;
            self.last_fetch_at.insert(auth_failed[m].clone(), now);
            self.auth_needed.insert(auth_failed[m].clone());
            proof {
                assert(strings(auth_failed@.take(m + 1)) =~= t0.push(x));
                lemma_to_set_push(t0, x);
                assert(self.last_fetch_at@ =~= last0.union_prefer_right(
                    stamped(att.union(t0.to_set().insert(x)), now),
                ));
                assert(self.auth_needed@ =~= auth0.difference(att).union(t0.to_set().insert(x)));
            }
            m = m + 1;
        }
        assert(auth_failed@.take(auth_failed@.len() as int) =~= auth_failed@);
    }

    /// The repos a status sweep of `scope` visits, in list order.
    pub fn sweep_targets(&self, scope: Scope) -> (r: Vec<Repo>)
        ensures
            scope == Scope::All ==> r@ == self.repos@,
            scope == Scope::Unwatched ==> r@ == repos_among(self.repos@, self.unwatched@),
    {
        match scope {
            Scope::All => {
                let mut out: Vec<Repo> = Vec::new();
                let mut i: usize = 0;
                while i < self.repos.len()
                    invariant
                        i <= self.repos@.len(),
                        out@ == self.repos@.take(i as int),
                    decreases self.repos.len() - i,
                {
                    out.push(copy_repo(&self.repos[i]));
                    assert(self.repos@.take(i + 1) =~= self.repos@.take(i as int).push(self.repos@[i as int]));
                    i = i + 1;
                }
                assert(self.repos@.take(self.repos@.len() as int) =~= self.repos@);
                out
            },
            Scope::Unwatched => {
                let ghost all = self.repos@.map_values(
                    |r: Repo|
                        if self.unwatched@.contains(r.id@) {
                            Some(r)
                        } else {
                            None
                        },
                );
                let mut out: Vec<Repo> = Vec::new();
                let mut i: usize = 0;
                while i < self.repos.len()
                    invariant
                        i <= self.repos@.len(),
                        all == self.repos@.map_values(
                            |r: Repo|
                                if self.unwatched@.contains(r.id@) {
                                    Some(r)
                                } else {
                                    None
                                },
                        ),
                        out@ == keep_some(all.take(i as int)),
                    decreases self.repos.len() - i,
                {
                    proof {
                        lemma_keep_some_step(all, i as int);
                    }
                    if self.unwatched.contains(self.repos[i].id.as_str()) {
                        out.push(copy_repo(&self.repos[i]));
                    }
                    i = i + 1;
                }
                assert(all.take(all.len() as int) =~= all);
                out
            },
        }
    }

    /// The open repos whose ids are among `repo_ids`, in list order.
    pub fn repos_by_id(&self, repo_ids: &Vec<String>) -> (r: Vec<Repo>)
        ensures
            r@ == repos_among(self.repos@, strings(repo_ids@).to_set()),
    {
        let ghost wanted = strings(repo_ids@).to_set();
        let ghost all = self.repos@.map_values(
            |r: Repo|
                if wanted.contains(r.id@) {
                    Some(r)
                } else {
                    None
                },
        );
        let mut out: Vec<Repo> = Vec::new();
        let mut i: usize = 0;
        while i < self.repos.len()
            invariant
                i <= self.repos@.len(),
                wanted == strings(repo_ids@).to_set(),
                all == self.repos@.map_values(
                    |r: Repo|
                        if wanted.contains(r.id@) {
                            Some(r)
                        } else {
                            None
                        },
                ),
                out@ == keep_some(all.take(i as int)),
            decreases self.repos.len() - i,
        {
            proof {
                lemma_keep_some_step(all, i as int);
            }
            if contains_id(repo_ids, self.repos[i].id.as_str()) {
                out.push(copy_repo(&self.repos[i]));
            }
            i = i + 1;
        }
        assert(all.take(all.len() as int) =~= all);
        out
    }

    /// The repos *Pull All Behind* pulls: every open repo whose last known
    /// status is behind, whatever the filter box shows.
    pub fn pull_targets(&self) -> (r: Vec<Repo>)
        ensures
            r@ == behind_repos(self.repos@, self.statuses@),
    {
        let ghost st = self.statuses@;
        let ghost all = self.repos@.map_values(
            |r: Repo|
                if st.contains_key(r.id@) && can_pull_spec(st[r.id@].model()) {
                    Some(r)
                } else {
                    None
                },
        );
        let mut out: Vec<Repo> = Vec::new();
        let mut i: usize = 0;
        while i < self.repos.len()
            invariant
                i <= self.repos@.len(),
                st == self.statuses@,
                all == self.repos@.map_values(
                    |r: Repo|
                        if st.contains_key(r.id@) && can_pull_spec(st[r.id@].model()) {
                            Some(r)
                        } else {
                            None
                        },
                ),
                out@ == keep_some(all.take(i as int)),
            decreases self.repos.len() - i,
        {
            proof {
                lemma_keep_some_step(all, i as int);
            }
            let behind = match self.statuses.get(self.repos[i].id.as_str()) {
                Some(s) => can_pull(s),
                None => false,
            };
            if behind {
                out.push(copy_repo(&self.repos[i]));
            }
            i = i + 1;
        }
        assert(all.take(all.len() as int) =~= all);
        out
    }

    /// The repos the background fetch sweep fetches at `now`: not flagged for
    /// credentials, and never fetched or not within the last `interval_secs`.
    pub fn fetch_due(&self, now: i64, interval_secs: u64) -> (r: Vec<Repo>)
        requires
            forall|k: Seq<char>|
                #[trigger] self.last_fetch_at@.contains_key(k) ==> i64::MIN <= now
                    - self.last_fetch_at@[k] <= i64::MAX,
        ensures
            r@ == due_repos(self.repos@, self.auth_needed@, self.last_fetch_at@, now, interval_secs),
    {
        let ghost auth = self.auth_needed@;
        let ghost last = self.last_fetch_at@;
        let ghost all = self.repos@.map_values(
            |r: Repo|
                if fetch_is_due(r, auth, last, now, interval_secs) {
                    Some(r)
                } else {
                    None
                },
        );
        let interval = interval_secs as i64;
        let mut out: Vec<Repo> = Vec::new();
        let mut i: usize = 0;
        while i < self.repos.len()
            invariant
                i <= self.repos@.len(),
                auth == self.auth_needed@,
                last == self.last_fetch_at@,
                interval == interval_secs as i64,
                forall|k: Seq<char>|
                    #[trigger] last.contains_key(k) ==> i64::MIN <= now - last[k] <= i64::MAX,
                all == self.repos@.map_values(
                    |r: Repo|
                        if fetch_is_due(r, auth, last, now, interval_secs) {
                            Some(r)
                        } else {
                            None
                        },
                ),
                out@ == keep_some(all.take(i as int)),
            decreases self.repos.len() - i,
        {
            proof {
                lemma_keep_some_step(all, i as int);
            }
            let id = self.repos[i].id.as_str();
            let due = if self.auth_needed.contains(id) {
                false
            } else {
                match self.last_fetch_at.get(id) {
                    None => true,
                    Some(l) => now - *l >= interval,
                }
            };
            if due {
                out.push(copy_repo(&self.repos[i]));
            }
            i = i + 1;
        }
        assert(all.take(all.len() as int) =~= all);
        out
    }

    /// The selected repo, when it is among the repos a sweep just read: the
    /// one whose file list is re-read right after.
    pub fn reconcile_target(&self, swept: &Vec<Repo>) -> (r: Option<Repo>)
        ensures
            match r {
                Some(repo) => self.selected matches Some(s) && repo.id@ == s@ && exists|i: int|
                    0 <= i < swept@.len() && swept@[i] == repo,
                None => match self.selected {
                    Some(s) => !ids_of(swept@).contains(s@),
                    None => true,
                },
            },
    {
        let id = match &self.selected {
            Some(s) => s,
            None => {
                return None;
            },
        };
        let mut i: usize = 0;
        while i < swept.len()
            invariant
                i <= swept@.len(),
                self.selected == Some(*id),
                forall|j: int| 0 <= j < i ==> swept@[j].id@ != id@,
            decreases swept.len() - i,
        {
            if str_eq(swept[i].id.as_str(), id.as_str()) {
                return Some(copy_repo(&swept[i]));
            }
            i = i + 1;
        }
        None
    }
}

fn copy_pair(p: &(String, RepoStatus)) -> (r: (String, RepoStatus))
    ensures
        r.0 == p.0,
        r.1 == p.1,
{
    (p.0.clone(), copy_status(&p.1))
}

/// A copy of a status.
pub fn copy_status(s: &RepoStatus) -> (c: RepoStatus)
    ensures
        c == *s,
{
    RepoStatus {
        branch: match &s.branch {
            Some(b) => Some(b.clone()),
            None => None,
        },
        head: match &s.head {
            Some(b) => Some(b.clone()),
            None => None,
        },
        upstream: match &s.upstream {
            Some(b) => Some(b.clone()),
            None => None,
        },
        ahead: s.ahead,
        behind: s.behind,
        staged: s.staged,
        unstaged: s.unstaged,
        untracked: s.untracked,
        conflicted: s.conflicted,
        changed_files: s.changed_files,
    }
}

/// After any sweep, no repo is both in the status map and in the error map,
/// provided none was before: the row never shows a clean dot and an unknown
/// state at once.
pub proof fn law_sweep_keeps_maps_exclusive(
    st: Map<Seq<char>, RepoStatus>,
    er: Map<Seq<char>, String>,
    s: Map<Seq<char>, RepoStatus>,
    e: Map<Seq<char>, String>,
)
    requires
        st.dom().disjoint(er.dom()),
    ensures
        merged_statuses(st, s, e).dom().disjoint(merged_errors(er, s, e).dom()),
{
    let a = merged_statuses(st, s, e).dom();
    let b = merged_errors(er, s, e).dom();
    assert forall|k: Seq<char>| a.contains(k) implies !b.contains(k) by {
        assert(!e.contains_key(k));
        if s.contains_key(k) {
        } else {
            assert(st.contains_key(k));
            assert(!er.contains_key(k));
        }
    }
}

/// One repo's fresh read keeps the two maps apart as well: the repo lands in
/// exactly the map its outcome names and leaves the other.
pub proof fn law_single_read_keeps_maps_exclusive(
    st: Map<Seq<char>, RepoStatus>,
    er: Map<Seq<char>, String>,
    k: Seq<char>,
    result: Result<RepoStatus, String>,
)
    requires
        st.dom().disjoint(er.dom()),
    ensures
        match result {
            Ok(s) => st.insert(k, s).dom().disjoint(er.remove(k).dom()),
            Err(e) => st.remove(k).dom().disjoint(er.insert(k, e).dom()),
        },
{
}

/// So does a rescan, which only ever drops repos from both maps.
pub proof fn law_rescan_keeps_maps_exclusive(
    st: Map<Seq<char>, RepoStatus>,
    er: Map<Seq<char>, String>,
    ids: Set<Seq<char>>,
)
    requires
        st.dom().disjoint(er.dom()),
    ensures
        st.restrict(ids).dom().disjoint(er.restrict(ids).dom()),
{
}

/// A repo the sweep did not read — skipped because a write held it — keeps
/// exactly what it had in both maps.
pub proof fn law_skipped_repo_keeps_its_state(
    st: Map<Seq<char>, RepoStatus>,
    er: Map<Seq<char>, String>,
    s: Map<Seq<char>, RepoStatus>,
    e: Map<Seq<char>, String>,
    k: Seq<char>,
)
    requires
        !s.contains_key(k),
        !e.contains_key(k),
    ensures
        merged_statuses(st, s, e).contains_key(k) == st.contains_key(k),
        st.contains_key(k) ==> merged_statuses(st, s, e)[k] == st[k],
        merged_errors(er, s, e).contains_key(k) == er.contains_key(k),
        er.contains_key(k) ==> merged_errors(er, s, e)[k] == er[k],
{
}

/// A sweep that read nothing changes nothing.
pub proof fn law_empty_sweep_changes_nothing(st: Map<Seq<char>, RepoStatus>, er: Map<Seq<char>, String>)
    ensures
        merged_statuses(st, Map::empty(), Map::empty()) == st,
        merged_errors(er, Map::empty(), Map::empty()) == er,
{
    assert(merged_statuses(st, Map::empty(), Map::empty()) =~= st);
    assert(merged_errors(er, Map::empty(), Map::empty()) =~= er);
}

/// Pinning twice leaves the pins as they were.
pub proof fn law_toggle_pin_twice_restores(pins: Set<Seq<char>>, k: Seq<char>)
    ensures
        ({
            let once = if pins.contains(k) {
                pins.remove(k)
            } else {
                pins.insert(k)
            };
            let twice = if once.contains(k) {
                once.remove(k)
            } else {
                once.insert(k)
            };
            twice == pins
        }),
{
    let once = if pins.contains(k) {
        pins.remove(k)
    } else {
        pins.insert(k)
    };
    if pins.contains(k) {
        assert(once.insert(k) =~= pins);
    } else {
        assert(once.remove(k) =~= pins);
    }
}

} // verus!
