use corgit::status::{needs_publish, parse, parse_files, parseable, FileEntry, RepoStatus, MAX_FILES_PER_SECTION};

fn joined(records: &[&str]) -> String {
    records.iter().map(|r| format!("{r}\0")).collect()
}

fn is_dirty(status: &RepoStatus) -> bool {
    status.staged + status.unstaged + status.untracked + status.conflicted > 0
}

fn parse_checked(raw: &str) -> RepoStatus {
    assert!(parseable(raw));
    parse(raw)
}

#[test]
fn no_upstream_needs_publishing() {
    assert!(needs_publish("enhance-quality", None));
}

#[test]
fn tracking_its_own_name_is_already_published() {
    assert!(!needs_publish("feature-x", Some("origin/feature-x")));
    assert!(!needs_publish("feature-x", Some("fork/feature-x")));
}

#[test]
fn tracking_a_differently_named_branch_needs_publishing() {
    assert!(needs_publish("Update_the_titlebar", Some("origin/main")));
}

#[test]
fn a_slash_in_the_branch_name_is_not_a_mismatch() {
    assert!(!needs_publish("jk/retry", Some("origin/jk/retry")));
}

#[test]
fn a_shared_prefix_is_still_a_mismatch() {
    assert!(needs_publish("retry", Some("origin/jk/retry")));
}

#[test]
fn reads_branch_upstream_and_divergence() {
    let status = parse_checked(&joined(&[
        "# branch.oid a3f9c21ee0c1a5b8d4e7f2039182736451a9c0de",
        "# branch.head feature/retry",
        "# branch.upstream origin/feature/retry",
        "# branch.ab +3 -12",
    ]));

    assert_eq!(status.branch.as_deref(), Some("feature/retry"));
    assert_eq!(status.head.as_deref(), Some("a3f9c21"));
    assert_eq!(status.upstream.as_deref(), Some("origin/feature/retry"));
    assert_eq!((status.ahead, status.behind), (3, 12));
    assert!(!is_dirty(&status));
}

#[test]
fn detached_head_has_no_branch() {
    let status = parse_checked(&joined(&["# branch.head (detached)"]));
    assert_eq!(status.branch, None);
}

#[test]
fn repo_with_no_commits_has_no_head() {
    let status = parse_checked(&joined(&["# branch.oid (initial)", "# branch.head main"]));
    assert_eq!(status.head, None);
    assert_eq!(status.branch.as_deref(), Some("main"));
}

#[test]
fn counts_staged_unstaged_and_untracked_separately() {
    let status = parse_checked(&joined(&[
        "1 M. N... 100644 100644 100644 aaa bbb src/main.rs",
        "1 .M N... 100644 100644 100644 ccc ddd README.md",
        "1 MM N... 100644 100644 100644 eee fff src/lib.rs",
        "? notes.txt",
    ]));

    assert_eq!(status.staged, 2);
    assert_eq!(status.unstaged, 2);
    assert_eq!(status.untracked, 1);
    assert!(is_dirty(&status));
}

#[test]
fn a_partly_staged_file_counts_as_one_changed_file() {
    let status = parse_checked(&joined(&[
        "1 M. N... 100644 100644 100644 aaa bbb src/main.rs",
        "1 .M N... 100644 100644 100644 ccc ddd README.md",
        "1 MM N... 100644 100644 100644 eee fff src/lib.rs",
        "? notes.txt",
    ]));

    assert_eq!(status.staged + status.unstaged + status.untracked, 5);
    assert_eq!(status.changed_files, 4);
}

#[test]
fn conflicts_and_untracked_files_are_counted() {
    let status = parse_checked(&joined(&[
        "u UU N... 100644 100644 100644 100644 aaa bbb ccc src/conflict.rs",
        "? notes.txt",
    ]));

    assert_eq!(status.changed_files, 2);
}

#[test]
fn nothing_is_dirty_without_a_changed_file() {
    for record in [
        "1 M. N... 100644 100644 100644 aaa bbb src/main.rs",
        "1 .M N... 100644 100644 100644 aaa bbb src/main.rs",
        "1 MM N... 100644 100644 100644 aaa bbb src/main.rs",
        "u UU N... 100644 100644 100644 100644 aaa bbb ccc src/main.rs",
        "? notes.txt",
    ] {
        let status = parse_checked(&joined(&[record]));
        assert!(is_dirty(&status), "{record}");
        assert!(status.changed_files > 0, "{record}");
    }
}

#[test]
fn rename_original_path_is_not_read_as_a_record() {
    let status = parse_checked(&joined(&[
        "2 R. N... 100644 100644 100644 aaa bbb R100 src/new.rs",
        "1-old-name.rs",
        "? notes.txt",
    ]));

    assert_eq!(status.staged, 1);
    assert_eq!(status.unstaged, 0);
    assert_eq!(status.untracked, 1);
    assert_eq!(status.changed_files, 2);
}

#[test]
fn unmerged_paths_are_conflicts() {
    let status = parse_checked(&joined(&[
        "u UU N... 100644 100644 100644 100644 aaa bbb ccc src/conflict.rs",
    ]));

    assert_eq!(status.conflicted, 1);
    assert_eq!(status.staged, 0);
}

#[test]
fn clean_repo_parses_to_defaults() {
    let status = parse_checked(&joined(&["# branch.head main", "# branch.ab +0 -0"]));
    assert_eq!(status, RepoStatus { branch: Some("main".into()), ..Default::default() });
}

#[test]
fn empty_output_does_not_panic() {
    assert_eq!(parse_checked(""), RepoStatus::default());
}

#[test]
fn file_lists_split_by_staged_and_unstaged_side() {
    let files = parse_files(&joined(&[
        "1 M. N... 100644 100644 100644 aaa bbb src/main.rs",
        "1 .M N... 100644 100644 100644 ccc ddd README.md",
        "1 MM N... 100644 100644 100644 eee fff src/lib.rs",
        "? notes.txt",
    ]));

    assert_eq!(
        files.staged,
        vec![
            FileEntry { path: "src/main.rs".into(), status: 'M' },
            FileEntry { path: "src/lib.rs".into(), status: 'M' },
        ]
    );
    assert_eq!(
        files.unstaged,
        vec![
            FileEntry { path: "README.md".into(), status: 'M' },
            FileEntry { path: "src/lib.rs".into(), status: 'M' },
            FileEntry { path: "notes.txt".into(), status: '?' },
        ]
    );
    assert_eq!((files.staged_total, files.unstaged_total), (2, 3));
}

#[test]
fn rename_reads_the_new_path_not_the_score_field() {
    let files = parse_files(&joined(&[
        "2 R. N... 100644 100644 100644 aaa bbb R100 src/new.rs",
        "1-old-name.rs",
    ]));

    assert_eq!(files.staged, vec![FileEntry { path: "src/new.rs".into(), status: 'R' }]);
}

#[test]
fn unmerged_paths_are_listed_as_conflicts() {
    let files = parse_files(&joined(&[
        "u UU N... 100644 100644 100644 100644 aaa bbb ccc src/conflict.rs",
    ]));

    assert_eq!(files.conflicted, vec![FileEntry { path: "src/conflict.rs".into(), status: 'U' }]);
    assert!(files.staged.is_empty());
    assert!(files.unstaged.is_empty());
}

#[test]
fn file_lists_are_capped_but_totals_are_not() {
    let records: Vec<String> = (0..150)
        .map(|n| format!("1 M. N... 100644 100644 100644 aaa bbb file-{n}.rs"))
        .collect();
    let raw: String = records.iter().map(|r| format!("{r}\0")).collect();

    let files = parse_files(&raw);

    assert_eq!(files.staged.len(), MAX_FILES_PER_SECTION);
    assert_eq!(files.staged_total, 150);
}

#[test]
fn the_badge_counts_exactly_the_paths_the_pane_lists() {
    let raw = joined(&[
        "# branch.head main",
        "1 M. N... 100644 100644 100644 aaa bbb src/main.rs",
        "1 .M N... 100644 100644 100644 ccc ddd README.md",
        "1 MM N... 100644 100644 100644 eee fff src/lib.rs",
        "2 R. N... 100644 100644 100644 aaa bbb R100 src/new.rs",
        "1-old-name.rs",
        "u UU N... 100644 100644 100644 100644 aaa bbb ccc src/conflict.rs",
        "? notes.txt",
    ]);

    let status = parse_checked(&raw);
    let files = parse_files(&raw);

    let listed: std::collections::HashSet<&str> = files
        .staged
        .iter()
        .chain(&files.unstaged)
        .chain(&files.conflicted)
        .map(|entry| entry.path.as_str())
        .collect();

    assert_eq!(status.changed_files as usize, listed.len());
}

#[test]
fn branch_headers_are_not_read_as_files() {
    let files = parse_files(&joined(&[
        "# branch.oid a3f9c21ee0c1a5b8d4e7f2039182736451a9c0de",
        "# branch.head main",
        "# branch.upstream origin/main",
        "# branch.ab +3 -12",
        "? notes.txt",
    ]));

    assert_eq!(files.unstaged, vec![FileEntry { path: "notes.txt".into(), status: '?' }]);
    assert!(files.staged.is_empty());
}

#[test]
fn paths_containing_spaces_are_not_truncated() {
    let files = parse_files(&joined(&["1 M. N... 100644 100644 100644 aaa bbb my notes.txt"]));
    assert_eq!(files.staged, vec![FileEntry { path: "my notes.txt".into(), status: 'M' }]);
}

#[test]
fn a_branch_ab_field_that_would_not_split_is_reported_unparseable() {
    assert!(!parseable(&joined(&["# branch.ab \u{e9}3 -1"])));
    assert!(parseable(&joined(&["# branch.ab +3 -1"])));
}

#[test]
fn only_a_repo_behind_its_upstream_can_be_pulled() {
    let behind = RepoStatus { behind: 2, ..Default::default() };
    let ahead = RepoStatus { ahead: 2, ..Default::default() };
    assert!(corgit::status::can_pull(&behind));
    assert!(!corgit::status::can_pull(&ahead));
}

#[test]
fn a_failed_status_read_carries_the_whole_stderr() {
    let failed = corgit::git::Output { ok: false, stdout: String::new(), stderr: "  fatal: not a git repository\n".into() };
    assert_eq!(corgit::status::status_output(&failed), Err("fatal: not a git repository".to_string()));
    let silent = corgit::git::Output { ok: false, stdout: String::new(), stderr: " ".into() };
    assert_eq!(corgit::status::status_output(&silent), Err("git status failed".to_string()));
    assert_eq!(corgit::status::status_args(), ["status", "--porcelain=v2", "--branch", "-uall", "-z"]);
}
