use corgit::commit::{clean_flags, discard_flags, full_message, literal_pathspec, pathspec_args};

#[test]
fn discard_restores_the_worktree_from_the_index_only() {
    assert_eq!(discard_flags(), ["--worktree", "--"]);
    assert!(
        !discard_flags().iter().any(|f| f == "--staged"),
        "discard must never reach the index: that restores from HEAD and takes staged work"
    );
}

#[test]
fn clean_never_recurses_into_directories_or_reaches_ignored_files() {
    assert_eq!(clean_flags(), ["--force", "--"]);
    for flag in ["-d", "-x", "-X", "--directory"] {
        assert!(
            !clean_flags().iter().any(|f| f == flag),
            "clean must stay file-scoped and never touch ignored files: {flag} would take \
             whole build directories off disk from a two-row selection"
        );
    }
}

#[test]
fn every_path_is_passed_as_a_literal_pathspec() {
    assert_eq!(literal_pathspec("report[1].txt"), ":(literal)report[1].txt");
    assert_eq!(literal_pathspec("draft*.md"), ":(literal)draft*.md");
    assert_eq!(literal_pathspec(":weird.txt"), ":(literal):weird.txt");
}

#[test]
fn an_empty_selection_builds_no_command() {
    assert!(pathspec_args("restore", &discard_flags(), &[]).is_none());
    assert!(pathspec_args("clean", &clean_flags(), &[]).is_none());
}

#[test]
fn a_selection_becomes_one_command_of_literal_paths() {
    let args = pathspec_args("restore", &discard_flags(), &["a b.txt".to_string(), "x[1].md".to_string()]).unwrap();
    assert_eq!(args, ["restore", "--worktree", "--", ":(literal)a b.txt", ":(literal)x[1].md"]);
    let stage = pathspec_args("add", &["--".to_string()], &["f.rs".to_string()]).unwrap();
    assert_eq!(stage, ["add", "--", ":(literal)f.rs"]);
}

#[test]
fn a_silent_write_failure_still_says_something() {
    assert_eq!(full_message(" \n"), "git failed");
    assert_eq!(full_message("  error: pathspec did not match\n"), "error: pathspec did not match");
}
