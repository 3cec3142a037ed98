use corgit::cache::RootCache;
use corgit::discovery::Repo;
use corgit::ids::{IdMap, IdSet};
use corgit::root_state::{RootState, Scope, SweepFate};
use corgit::roots::RootSettings;
use corgit::status::RepoStatus;

fn repo(id: &str) -> Repo {
    Repo { id: id.to_string(), name: id.to_string(), path: id.to_string() }
}

fn set_of(ids: &[&str]) -> IdSet {
    IdSet::from_vec(ids.iter().map(|id| id.to_string()).collect())
}

fn root_with(repos: &[&str], pins: &[&str], selected: Option<&str>) -> RootState {
    let mut statuses = IdMap::new();
    let mut last_fetch_at = IdMap::new();
    for id in repos {
        statuses.insert(id.to_string(), RepoStatus::default());
        last_fetch_at.insert(id.to_string(), 1_700_000_000);
    }
    RootState {
        generation: 1,
        path: "root".to_string(),
        repos: repos.iter().map(|id| repo(id)).collect(),
        statuses,
        errors: IdMap::new(),
        last_fetch_at,
        auth_needed: IdSet::new(),
        unwatched: IdSet::new(),
        pins: set_of(pins),
        selected: selected.map(str::to_string),
    }
}

fn status_with(branch: &str) -> RepoStatus {
    RepoStatus { branch: Some(branch.to_string()), ..RepoStatus::default() }
}

fn statuses_of(entries: &[(&str, RepoStatus)]) -> IdMap<RepoStatus> {
    let mut m = IdMap::new();
    for (id, s) in entries {
        m.insert(id.to_string(), s.clone());
    }
    m
}

fn errors_of(entries: &[(&str, &str)]) -> IdMap<String> {
    let mut m = IdMap::new();
    for (id, e) in entries {
        m.insert(id.to_string(), e.to_string());
    }
    m
}

#[test]
fn a_repo_missing_from_a_rescan_keeps_its_pin() {
    let mut root = root_with(&["api", "billing"], &["api", "billing"], None);

    root.adopt_repos(vec![repo("billing")]);

    assert!(root.pins.contains("api"), "a pin is the user's own choice, not a cache");
    assert!(root.pins.contains("billing"));
}

#[test]
fn a_repo_missing_from_a_rescan_loses_its_regenerable_state() {
    let mut root = root_with(&["api", "billing"], &[], None);
    root.errors.insert("api".to_string(), "boom".to_string());
    root.auth_needed.insert("api".to_string());

    root.adopt_repos(vec![repo("billing")]);

    assert!(!root.statuses.contains_key("api"));
    assert!(!root.errors.contains_key("api"));
    assert!(!root.last_fetch_at.contains_key("api"));
    assert!(!root.auth_needed.contains("api"));
    assert_eq!(root.repos, vec![repo("billing")]);
}

#[test]
fn a_selection_on_a_vanished_repo_is_cleared_but_one_still_present_is_kept() {
    let mut root = root_with(&["api", "billing"], &[], Some("api"));
    root.adopt_repos(vec![repo("billing")]);
    assert_eq!(root.selected, None);

    let mut root = root_with(&["api", "billing"], &[], Some("billing"));
    root.adopt_repos(vec![repo("billing")]);
    assert_eq!(root.selected.as_deref(), Some("billing"));
}

#[test]
fn a_pin_with_no_matching_repo_contributes_nothing_to_the_hot_set() {
    let root = root_with(&["billing"], &["api", "billing"], None);

    let hot: Vec<&str> = root
        .repos
        .iter()
        .filter(|repo| root.pins.contains(&repo.id) || root.selected.as_deref() == Some(repo.id.as_str()))
        .map(|repo| repo.id.as_str())
        .collect();

    assert_eq!(hot, vec!["billing"]);
}

#[test]
fn a_repo_the_sweep_skipped_keeps_the_status_it_had() {
    let mut root = root_with(&["api", "billing"], &[], None);
    root.statuses.insert("api".to_string(), status_with("main"));
    root.statuses.insert("billing".to_string(), status_with("main"));

    let swept = statuses_of(&[("billing", status_with("release"))]);
    root.merge_sweep_results(swept, IdMap::new());

    assert_eq!(root.statuses.get("api").unwrap().branch.as_deref(), Some("main"), "a skipped repo must not be erased");
    assert_eq!(root.statuses.get("billing").unwrap().branch.as_deref(), Some("release"));
}

#[test]
fn a_repo_is_never_in_both_statuses_and_errors() {
    let mut root = root_with(&["api"], &[], None);

    root.errors.insert("api".to_string(), "boom".to_string());
    root.merge_sweep_results(statuses_of(&[("api", status_with("main"))]), IdMap::new());
    assert!(!root.errors.contains_key("api"), "a repo that just succeeded still carries its old error");
    assert!(root.statuses.contains_key("api"));

    root.merge_sweep_results(IdMap::new(), errors_of(&[("api", "boom")]));
    assert!(!root.statuses.contains_key("api"), "a repo that just failed still shows its old status");
    assert!(root.errors.contains_key("api"));
}

#[test]
fn a_sweep_that_read_nothing_changes_nothing() {
    let mut root = root_with(&["api"], &[], None);
    root.statuses.insert("api".to_string(), status_with("main"));
    root.errors.insert("billing".to_string(), "boom".to_string());

    root.merge_sweep_results(IdMap::new(), IdMap::new());

    assert_eq!(root.statuses.get("api").unwrap().branch.as_deref(), Some("main"));
    assert_eq!(root.errors.get("billing").map(String::as_str), Some("boom"));
}

#[test]
fn a_sweep_for_an_older_root_is_not_folded_in() {
    let mut root = root_with(&["api"], &[], None);
    let fate = root.accept_sweep(7, IdMap::new(), errors_of(&[("api", "boom")]));
    assert_eq!(fate, SweepFate::Stale);
    assert!(root.statuses.contains_key("api"));
    assert_eq!(root.accept_sweep(1, IdMap::new(), errors_of(&[("api", "boom")])), SweepFate::Published);
    assert!(root.errors.contains_key("api"));
}

#[test]
fn opening_a_root_seeds_from_the_cache_and_keeps_every_pin() {
    let mut cached = RootCache::default();
    cached.statuses.insert("api".into(), status_with("main"));
    cached.statuses.insert("gone".into(), status_with("old"));
    cached.last_fetch_at.insert("gone".into(), 5);
    let settings = RootSettings { version: 1, pins: set_of(&["gone", "api"]), last_selected: Some("gone".into()) };

    let root = RootState::open(3, "C:/dev".into(), vec![repo("api")], cached, settings);

    assert_eq!(root.generation, 4);
    assert!(root.statuses.contains_key("api"));
    assert!(!root.statuses.contains_key("gone"));
    assert!(!root.last_fetch_at.contains_key("gone"));
    assert!(root.pins.contains("gone"), "pins are never filtered by one scan");
    assert_eq!(root.selected, None);
}

#[test]
fn pinning_toggles_and_refuses_a_repo_that_is_gone() {
    let mut root = root_with(&["api"], &[], None);
    assert!(root.toggle_pin("api".into()).is_ok());
    assert!(root.pins.contains("api"));
    assert!(root.toggle_pin("api".into()).is_ok());
    assert!(!root.pins.contains("api"));
    assert_eq!(root.toggle_pin("nope".into()), Err("That repository is no longer open".to_string()));
    root.pins.insert("api".into());
    root.clear_pins();
    assert!(!root.pins.contains("api"));
}

#[test]
fn the_fetch_sweep_skips_recent_and_credential_blocked_repos() {
    let mut root = root_with(&["a", "b", "c"], &[], None);
    root.last_fetch_at.insert("a".into(), 1_000);
    root.last_fetch_at.insert("b".into(), 1_250);
    root.last_fetch_at.remove("c");
    root.auth_needed.insert("c".into());
    let due: Vec<String> = root.fetch_due(1_300, 300).into_iter().map(|r| r.id).collect();
    assert_eq!(due, vec!["a"]);
}

#[test]
fn fetch_results_stamp_the_time_and_set_the_credential_flag() {
    let mut root = root_with(&["a", "b"], &[], None);
    root.auth_needed.insert("a".into());
    root.record_fetch_sweep(&vec!["a".into()], &vec!["b".into()], 99);
    assert_eq!(root.last_fetch_at.get("a"), Some(&99));
    assert_eq!(root.last_fetch_at.get("b"), Some(&99));
    assert!(!root.auth_needed.contains("a"));
    assert!(root.auth_needed.contains("b"));

    root.record_bulk_fetch_failure("a", 100, false);
    assert!(!root.auth_needed.contains("a"), "a bulk failure never clears or invents the flag");
    root.record_fetch_attempt("b", 101);
    assert!(!root.auth_needed.contains("b"));
}

#[test]
fn pull_all_reaches_only_the_repos_behind() {
    let mut root = root_with(&["a", "b"], &[], None);
    root.statuses.insert("b".into(), RepoStatus { behind: 3, ..RepoStatus::default() });
    let ids: Vec<String> = root.pull_targets().into_iter().map(|r| r.id).collect();
    assert_eq!(ids, vec!["b"]);
}

#[test]
fn the_unwatched_scope_covers_only_unwatched_repos() {
    let mut root = root_with(&["a", "b"], &[], Some("b"));
    root.unwatched.insert("b".into());
    let ids: Vec<String> = root.sweep_targets(Scope::Unwatched).into_iter().map(|r| r.id).collect();
    assert_eq!(ids, vec!["b"]);
    assert_eq!(root.sweep_targets(Scope::All).len(), 2);
    assert_eq!(root.reconcile_target(&vec![repo("b")]).map(|r| r.id), Some("b".to_string()));
    assert!(root.reconcile_target(&vec![repo("a")]).is_none());
}

#[test]
fn publishing_is_decided_from_the_known_status() {
    let mut root = root_with(&["a"], &[], None);
    assert_eq!(root.publish_needed("a"), Err("No branch to publish (detached HEAD)".to_string()));
    assert_eq!(root.publish_needed("zz"), Err("That repository has no status yet".to_string()));
    root.statuses.insert("a".into(), RepoStatus { branch: Some("x".into()), upstream: Some("origin/x".into()), ..RepoStatus::default() });
    assert_eq!(root.publish_needed("a"), Ok(false));
    assert_eq!(root.current_branch("a"), Ok("x".to_string()));
    assert_eq!(root.repo_path("a"), Ok("a".to_string()));
    assert!(root.repo_path("zz").is_err());
}

#[test]
fn a_single_read_moves_a_repo_between_the_two_maps() {
    let mut root = root_with(&["api"], &[], None);

    root.apply_repo_status("api", Err("boom".to_string()));
    assert!(!root.statuses.contains_key("api"));
    assert_eq!(root.errors.get("api").map(String::as_str), Some("boom"));

    root.apply_repo_status("api", Ok(status_with("main")));
    assert!(!root.errors.contains_key("api"));
    assert_eq!(root.statuses.get("api").and_then(|s| s.branch.as_deref()), Some("main"));
}

#[test]
fn a_rescan_drops_a_vanished_repo_from_both_maps() {
    let mut root = root_with(&["api", "billing"], &[], None);
    root.apply_repo_status("billing", Err("boom".to_string()));

    root.adopt_repos(vec![repo("api")]);

    assert!(root.statuses.contains_key("api"));
    assert!(!root.statuses.contains_key("billing"));
    assert!(!root.errors.contains_key("billing"));
}
