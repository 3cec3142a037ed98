use corgit::git::Output;
use corgit::remote::{
    background_env, background_fetch_args, looks_like_auth_failure, mentions_auth_failure, publish_args, pull_args,
    remote_listed, remote_outcome,
};

#[test]
fn recognises_common_auth_failure_messages() {
    assert!(looks_like_auth_failure("fatal: Authentication failed for 'https://example.com/repo.git'"));
    assert!(looks_like_auth_failure(
        "fatal: could not read Username for 'https://github.com': terminal prompts disabled"
    ));
    assert!(looks_like_auth_failure("Permission denied (publickey).\nfatal: Could not read from remote repository."));
    assert!(looks_like_auth_failure("remote: The requested URL returned error: 403"));
}

#[test]
fn does_not_flag_unrelated_failures() {
    assert!(!looks_like_auth_failure("fatal: unable to access: Could not resolve host"));
    assert!(!looks_like_auth_failure("error: failed to push some refs"));
}

#[test]
fn the_phrase_match_itself_is_case_sensitive() {
    assert!(mentions_auth_failure("fatal: access denied"));
    assert!(!mentions_auth_failure("Fatal: Access Denied"));
}

#[test]
fn the_background_fetch_never_prompts() {
    assert_eq!(
        background_fetch_args(),
        ["-c", "credential.interactive=never", "fetch", "--prune", "--no-tags", "--quiet"]
    );
    let env = background_env();
    assert!(env.iter().any(|(k, v)| k == "GIT_TERMINAL_PROMPT" && v == "0"));
    assert_eq!(env.len(), 4);
}

#[test]
fn pull_is_always_a_merge_and_publish_sets_the_upstream() {
    assert_eq!(pull_args(), ["pull", "--no-rebase"]);
    assert_eq!(publish_args(), ["push", "-u", "origin", "HEAD"]);
}

#[test]
fn a_remote_listing_counts_only_when_it_names_one() {
    assert!(remote_listed(&Output { ok: true, stdout: "origin\n".into(), stderr: String::new() }));
    assert!(!remote_listed(&Output { ok: true, stdout: "  \n".into(), stderr: String::new() }));
    assert!(!remote_listed(&Output { ok: false, stdout: "origin\n".into(), stderr: String::new() }));
}

#[test]
fn a_failed_remote_operation_reports_its_first_line() {
    let failed = Output { ok: false, stdout: String::new(), stderr: "\nfatal: rejected\nmore\n".into() };
    assert_eq!(remote_outcome(&failed), Err("fatal: rejected".to_string()));
    let silent = Output { ok: false, stdout: String::new(), stderr: String::new() };
    assert_eq!(remote_outcome(&silent), Err("git failed".to_string()));
}
