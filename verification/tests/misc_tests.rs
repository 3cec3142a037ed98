use corgit::cache::{current_cache, file_name, hash_root, legacy_hash_root, RootCache, CACHE_VERSION};
use corgit::discovery::{order_repos, Repo};
use corgit::menu::{about_message, menu_action, MenuAction, PaneVisibility};
use corgit::roots::{current_settings, RootSettings, ROOTS_VERSION};
use corgit::root_state::Scope;
use corgit::schedule::{
    classify_fetch, jittered_interval, remember_root, sweep_scope, FetchVerdict, MAX_RECENT_ROOTS, SWEEP_PATIENCE,
};
use corgit::shell::{explorer_arg, path_extensions};
use corgit::watch::{is_noise, Claim, ReadThrottle, MIN_INTERVAL_MS};

fn nanos_now() -> u128 {
    std::time::SystemTime::now().duration_since(std::time::UNIX_EPOCH).map(|d| d.as_nanos()).unwrap_or(0)
}

#[test]
fn cache_different_roots_hash_to_different_files() {
    assert_ne!(file_name(r"C:\dev\a"), file_name(r"C:\dev\b"));
}

#[test]
fn same_root_different_case_hashes_the_same() {
    assert_eq!(file_name(r"C:\dev\Code"), file_name(r"C:\DEV\code"));
}

#[test]
fn hash_root_is_pinned_to_known_answers() {
    assert_eq!(hash_root(r"C:\dev\code"), "1e1d7bda2697f2ec");
    assert_eq!(hash_root(r"C:\dev\a"), "807c970460408824");
}

#[test]
fn sibling_roots_do_not_collide() {
    assert_ne!(hash_root(r"C:\dev\a"), hash_root(r"C:\dev\b"));
}

#[test]
fn the_legacy_key_is_not_the_current_key() {
    let root = r"C:\dev\code";
    assert_ne!(hash_root(root), legacy_hash_root(root));
    assert_eq!(legacy_hash_root(root).len(), 16);
}

#[test]
fn a_cache_of_another_version_is_not_used() {
    let mut old = RootCache::default();
    old.version = 1;
    assert!(current_cache(Some(old)).is_none());
    let mut current = RootCache::default();
    current.version = CACHE_VERSION;
    assert!(current_cache(Some(current)).is_some());
    assert!(current_cache(None).is_none());
}

#[test]
fn root_settings_of_another_version_reset_to_no_pins() {
    let mut s = RootSettings::default();
    s.pins.insert("x".into());
    s.version = 99;
    let used = current_settings(Some(s));
    assert_eq!(used.version, ROOTS_VERSION);
    assert!(!used.pins.contains("x"));
    let mut ok = RootSettings::default();
    ok.pins.insert("x".into());
    assert!(current_settings(Some(ok)).pins.contains("x"));
}

#[test]
fn explorer_arg_flips_git_slashes() {
    let target = format!("{}/{}", r"C:\dev\corgit", "src/lib/repos.svelte.ts");
    assert_eq!(explorer_arg(&target), r"C:\dev\corgit\src\lib\repos.svelte.ts");
}

#[test]
fn the_extension_list_can_always_find_a_cmd_shim() {
    for pathext in [None, Some(""), Some("   "), Some(".COM;.EXE;.BAT;.CMD")] {
        let extensions = path_extensions(pathext);
        assert!(
            extensions.iter().any(|extension| extension.eq_ignore_ascii_case(".cmd")),
            "{pathext:?} resolved to {extensions:?}, which cannot find code.cmd"
        );
    }
}

#[test]
fn the_extension_list_keeps_the_order_pathext_gave() {
    assert_eq!(path_extensions(Some(".CMD;.EXE")), [".CMD", ".EXE"]);
    assert_eq!(path_extensions(Some(".EXE;.CMD")), [".EXE", ".CMD"]);
}

#[test]
fn the_extension_list_drops_blank_entries_and_surrounding_space() {
    assert_eq!(path_extensions(Some(".EXE; .CMD ;;")), [".EXE", ".CMD"]);
}

#[test]
fn fetch_jitter_stays_within_one_to_two_times_the_base_interval() {
    for _ in 0..20 {
        let interval = jittered_interval(300, nanos_now());
        assert!(interval >= 300, "{interval:?} is below the base interval");
        assert!(interval < 600, "{interval:?} is at or beyond double the base interval");
    }
}

#[test]
fn fetch_jitter_never_divides_by_zero_at_a_zero_base() {
    let interval = jittered_interval(0, nanos_now());
    assert!(interval >= 1, "base_secs is floored at 1");
}

#[test]
fn jitter_is_read_from_the_nanoseconds() {
    assert_eq!(jittered_interval(300, 0), 300);
    assert_eq!(jittered_interval(300, 299_999_999_999), 599);
    assert_eq!(jittered_interval(300, 300_000_000_000), 300);
}

#[test]
fn sweep_patience_sits_between_a_healthy_pass_and_a_killed_read() {
    assert!(SWEEP_PATIENCE < corgit::git::READ_TIMEOUT, "a read that cannot outlive the patience can never straggle");
    assert!(SWEEP_PATIENCE >= 2, "a full pass over 69 repos costs ~1.2 s; splitting that one is noise, not news");
}

#[test]
fn every_fifth_tick_reconciles_everything() {
    assert_eq!(sweep_scope(5), Scope::All);
    assert_eq!(sweep_scope(0), Scope::All);
    assert_eq!(sweep_scope(3), Scope::Unwatched);
}

#[test]
fn the_most_recent_root_comes_first_once() {
    let recent: Vec<String> = (0..10).map(|n| format!("r{n}")).collect();
    let next = remember_root(recent, "r5");
    assert_eq!(next[0], "r5");
    assert_eq!(next.iter().filter(|r| *r == "r5").count(), 1);
    assert_eq!(next.len(), MAX_RECENT_ROOTS);
    let grown = remember_root(next, "new");
    assert_eq!(grown.len(), MAX_RECENT_ROOTS);
    assert_eq!(grown[0], "new");
    assert_eq!(grown[1], "r5");
}

#[test]
fn a_fetch_failure_is_filed_by_what_it_says() {
    assert_eq!(classify_fetch(&None), FetchVerdict::NotTried);
    assert_eq!(classify_fetch(&Some(Ok(()))), FetchVerdict::Attempted);
    assert_eq!(classify_fetch(&Some(Err("fatal: Authentication failed".into()))), FetchVerdict::AuthNeeded);
    assert_eq!(classify_fetch(&Some(Err("fatal: could not resolve host".into()))), FetchVerdict::Attempted);
}

#[test]
fn build_output_is_ignored() {
    let root = "C:/dev/code/thing";
    assert!(is_noise(root, &format!("{root}/node_modules/react/index.js")));
    assert!(is_noise(root, &format!("{root}/target/debug/app.exe")));
    assert!(is_noise(root, &format!("{root}/src/../obj/gen.cs")));
}

#[test]
fn source_and_git_metadata_are_not_ignored() {
    let root = "C:/dev/code/thing";
    assert!(!is_noise(root, &format!("{root}/src/main.rs")));
    assert!(!is_noise(root, &format!("{root}/.git/index")));
    assert!(!is_noise(root, &format!("{root}/.git/refs/heads/main")));
}

#[test]
fn an_ignored_name_above_the_repo_root_does_not_silence_it() {
    let root = "C:/build/node_modules/thing";
    assert!(!is_noise(root, &format!("{root}/src/main.rs")));
}

#[test]
fn a_path_outside_the_repo_is_not_noise() {
    assert!(!is_noise("C:/dev/code/thing", "C:/elsewhere/file.txt"));
}

#[test]
fn one_repo_is_read_once_per_interval() {
    let mut watchers = ReadThrottle::new();
    assert!(matches!(watchers.claim("repo-a", 10_000), Claim::Now));
    assert!(matches!(watchers.claim("repo-a", 10_001), Claim::After(_)));
    assert!(matches!(watchers.claim("repo-a", 10_002), Claim::Queued));
    assert!(matches!(watchers.claim("repo-b", 10_003), Claim::Now));
}

#[test]
fn a_throttled_change_is_deferred_not_dropped() {
    let mut watchers = ReadThrottle::new();
    assert!(matches!(watchers.claim("repo-a", 10_000), Claim::Now));
    let Claim::After(wait) = watchers.claim("repo-a", 10_100) else {
        panic!("a refusal must hand out the wait, not end the matter");
    };
    assert!(wait <= MIN_INTERVAL_MS && wait != 0);
    assert!(!watchers.finish_deferred("repo-a", false, 10_100 + wait));
    assert!(matches!(watchers.claim("repo-a", 10_101), Claim::After(_)));
}

#[test]
fn clearing_the_watchers_does_not_reset_the_throttle() {
    let mut watchers = ReadThrottle::new();
    assert!(matches!(watchers.claim("repo-a", 10_000), Claim::Now));
    assert!(
        matches!(watchers.claim("repo-a", 10_500), Claim::After(_)),
        "a blur is not a reason to forget a recent read",
    );
}

#[test]
fn a_read_after_the_interval_goes_ahead() {
    let mut watchers = ReadThrottle::new();
    assert!(matches!(watchers.claim("repo-a", 0), Claim::Now));
    assert_eq!(watchers.claim("repo-a", 500), Claim::After(1_500));
    assert!(watchers.finish_deferred("repo-a", true, 2_000));
    assert!(matches!(watchers.claim("repo-a", 4_000), Claim::Now));
}

#[test]
fn repos_are_listed_by_name_without_regard_to_case() {
    let repo = |id: &str, name: &str| Repo { id: id.into(), name: name.into(), path: id.into() };
    let ordered = order_repos(vec![
        repo("/r/billing", "billing"),
        repo("/r/Api", "Api"),
        repo("/r/api-gateway", "api-gateway"),
        repo("/r/Api", "Api"),
    ]);
    let names: Vec<&str> = ordered.iter().map(|r| r.name.as_str()).collect();
    assert_eq!(names, vec!["Api", "api-gateway", "billing"]);
}

#[test]
fn menu_items_name_their_actions() {
    assert_eq!(menu_action("toggle-repo-list"), MenuAction::ToggleRepoList);
    assert_eq!(menu_action("exit"), MenuAction::Exit);
    assert_eq!(menu_action("nope"), MenuAction::Unknown);
    let v = PaneVisibility::default();
    assert!(v.repo_list && v.commit_pane);
    let hidden = v.toggled(MenuAction::ToggleCommitPane);
    assert!(hidden.repo_list && !hidden.commit_pane);
    assert_eq!(hidden.toggled(MenuAction::ToggleCommitPane), v);
}

#[test]
fn the_about_box_names_both_versions() {
    assert_eq!(about_message("0.1.0", Some("2.51.0"), Some("/usr/bin/git")), "Corgit 0.1.0\nGit 2.51.0 (/usr/bin/git)");
    assert_eq!(about_message("0.1.0", Some("2.51.0"), None), "Corgit 0.1.0\nGit 2.51.0 (git)");
    assert_eq!(about_message("0.1.0", None, None), "Corgit 0.1.0\nGit not found");
}

#[test]
fn the_legacy_key_ignores_case_and_names_the_legacy_file() {
    assert_eq!(legacy_hash_root(r"C:\Dev\Code"), legacy_hash_root(r"c:\dev\code"));
    assert_eq!(
        corgit::roots::legacy_file_name(r"C:\dev\code"),
        format!("{}.json", legacy_hash_root(r"C:\dev\code"))
    );
}

#[test]
fn a_root_written_with_a_trailing_slash_is_the_same_root() {
    let recent = vec!["/home/me/code/".to_string(), "/home/me/other".to_string()];
    let next = remember_root(recent, "/home/me/code");
    assert_eq!(next, vec!["/home/me/code".to_string(), "/home/me/other".to_string()]);
}

#[test]
fn build_output_below_a_plain_root_is_noise_and_source_is_not() {
    let root = "/home/me/code";
    assert!(is_noise(root, "/home/me/code/target/debug/app"));
    assert!(is_noise(root, "/home/me/code/web/node_modules/react/index.js"));
    assert!(!is_noise(root, "/home/me/code/src/main.rs"));
    assert!(!is_noise(root, "/home/me/code/src/targets.rs"));
}
