use corgit::branch::{
    after_track_attempt, create_args, delete_args, delete_message, local_name, merge_args, merge_message, names_args,
    names_message, parse_names, switch_args, track_args, BranchSets, TrackingStep,
};
use corgit::git::Output;

#[test]
fn local_name_strips_the_remote() {
    assert_eq!(local_name("origin/feature-x"), "feature-x");
}

#[test]
fn local_name_keeps_slashes_past_the_first() {
    assert_eq!(local_name("origin/feature/x"), "feature/x");
}

#[test]
fn local_name_with_no_slash_is_returned_as_is() {
    assert_eq!(local_name("main"), "main");
}

#[test]
fn creating_without_checkout_leaves_head_alone() {
    assert_eq!(create_args("feature-x", "main", false), ["branch", "--no-track", "feature-x", "main"]);
}

#[test]
fn creating_with_checkout_is_one_atomic_switch() {
    assert_eq!(create_args("feature-x", "main", true), ["switch", "--no-track", "-c", "feature-x", "main"]);
}

#[test]
fn creating_from_a_remote_ref_does_not_set_an_upstream() {
    for checkout in [true, false] {
        let args = create_args("feature-x", "origin/feature-x", checkout);
        assert!(args.iter().any(|a| a == "--no-track"), "{args:?} would inherit origin/feature-x as upstream");
    }
}

#[test]
fn creating_from_head_names_no_branch() {
    assert_eq!(create_args("fix/auth", "HEAD", true), ["switch", "--no-track", "-c", "fix/auth", "HEAD"]);
    assert_eq!(create_args("fix/auth", "HEAD", false), ["branch", "--no-track", "fix/auth", "HEAD"]);
}

#[test]
fn branch_names_are_read_from_plumbing() {
    assert_eq!(names_args(), ["for-each-ref", "--format=%(refname)", "refs/heads", "refs/remotes"]);
}

#[test]
fn a_local_branch_named_like_a_remote_one_stays_local() {
    let sets = parse_names("refs/heads/origin/develop\nrefs/remotes/origin/develop\n");
    assert_eq!(sets.local, ["origin/develop"]);
    assert_eq!(sets.remote, ["develop"]);
}

#[test]
fn a_branch_on_two_remotes_is_named_once() {
    assert_eq!(parse_names("refs/remotes/origin/develop\nrefs/remotes/upstream/develop\n").remote, ["develop"]);
}

#[test]
fn the_remotes_head_pointer_is_not_a_branch() {
    assert_eq!(parse_names("refs/remotes/origin/HEAD\nrefs/remotes/origin/main\n").remote, ["main"]);
}

#[test]
fn switching_asks_git_to_resolve_the_name() {
    assert_eq!(switch_args("develop"), ["switch", "--guess", "develop"]);
}

#[test]
fn branch_names_drop_blank_lines_and_surrounding_space() {
    let sets = parse_names("refs/heads/main\nrefs/heads/feature/x\n\n  refs/heads/release/3.2  \n");
    assert_eq!(sets.local, ["main", "feature/x", "release/3.2"]);
    assert!(sets.remote.is_empty());
}

#[test]
fn a_repo_with_no_branches_parses_to_an_empty_list() {
    assert_eq!(parse_names(""), BranchSets::default());
}

#[test]
fn a_silent_branch_listing_failure_still_says_something() {
    assert_eq!(names_message("  \n"), "could not list branches");
}

#[test]
fn a_plain_delete_is_the_safe_one() {
    assert_eq!(delete_args("feature-x", false), ["branch", "-d", "feature-x"]);
}

#[test]
fn a_forced_delete_is_the_capital_one() {
    assert_eq!(delete_args("feature-x", true), ["branch", "-D", "feature-x"]);
}

#[test]
fn the_not_fully_merged_refusal_survives_whole() {
    let message = delete_message("error: the branch 'feature-x' is not fully merged.\n");
    assert_eq!(message, "error: the branch 'feature-x' is not fully merged.");
}

#[test]
fn a_silent_delete_failure_still_says_something() {
    assert_eq!(delete_message("  \n"), "could not delete the branch");
}

#[test]
fn merging_never_opens_an_editor() {
    assert_eq!(merge_args("feature-x"), ["merge", "--no-edit", "feature-x"]);
}

#[test]
fn a_conflict_report_survives_an_empty_stderr() {
    let message = merge_message("CONFLICT (content): Merge conflict in f.txt\n", "");
    assert_eq!(message, "CONFLICT (content): Merge conflict in f.txt");
}

#[test]
fn both_streams_are_kept_in_the_order_git_wrote_them() {
    let message = merge_message("Auto-merging f.txt\n", "error: Your local changes would be overwritten\n");
    assert_eq!(message, "Auto-merging f.txt\nerror: Your local changes would be overwritten");
}

#[test]
fn a_silent_merge_failure_still_says_something() {
    assert_eq!(merge_message("", "  \n"), "git merge failed");
}

#[test]
fn a_tracking_switch_creates_then_falls_back_on_an_existing_branch() {
    assert_eq!(track_args("origin/feature"), ["switch", "-c", "feature", "--track", "origin/feature"]);
    let done = Output { ok: true, stdout: String::new(), stderr: String::new() };
    assert_eq!(after_track_attempt(&done), TrackingStep::Done);
    let exists = Output {
        ok: false,
        stdout: String::new(),
        stderr: "fatal: a branch named 'feature' already exists\n".into(),
    };
    assert_eq!(after_track_attempt(&exists), TrackingStep::SwitchToExisting);
    let other = Output { ok: false, stdout: String::new(), stderr: "fatal: invalid reference\n".into() };
    assert_eq!(after_track_attempt(&other), TrackingStep::Failed("fatal: invalid reference".into()));
}
