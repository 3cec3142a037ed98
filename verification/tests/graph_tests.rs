use corgit::git::Output;
use corgit::graph::{
    details_from_outputs, diff_tree_args, log_args, page_from_output, parse_commit, parse_log, parse_raw_and_numstat,
    parse_refs, parse_show, CommitFileEntry, RefBadge, RefKind, PAGE_SIZE,
};

fn joined(records: &[&str]) -> String {
    records.iter().map(|r| format!("{r}\0")).collect()
}

fn nul_joined(tokens: &[&str]) -> String {
    tokens.iter().map(|t| format!("{t}\0")).collect()
}

#[test]
fn parses_a_normal_commit() {
    let commits = parse_log(&joined(&[
        "a3f9c21ee0c1a5b8d4e7f2039182736451a9c0de\u{1f}bc0debc0debc0debc0debc0debc0debc0debc0de\u{1f}1786744977\u{1f}Jeppe\u{1f}feat: add retry logic",
    ]));

    assert_eq!(commits.len(), 1);
    assert_eq!(commits[0].hash, "a3f9c21ee0c1a5b8d4e7f2039182736451a9c0de");
    assert_eq!(commits[0].parents, vec!["bc0debc0debc0debc0debc0debc0debc0debc0de".to_string()]);
    assert_eq!(commits[0].timestamp, 1786744977);
    assert_eq!(commits[0].author, "Jeppe");
    assert_eq!(commits[0].subject, "feat: add retry logic");
}

#[test]
fn root_commit_has_no_parents() {
    let commits = parse_log(&joined(&[
        "a3f9c21ee0c1a5b8d4e7f2039182736451a9c0de\u{1f}\u{1f}1786744977\u{1f}Jeppe\u{1f}initial commit",
    ]));

    assert!(commits[0].parents.is_empty());
}

#[test]
fn merge_commit_has_two_parents() {
    let commits = parse_log(&joined(&[
        "a3f9c21ee0c1a5b8d4e7f2039182736451a9c0de\u{1f}bbbbbbbbbbbbbbbbbbbbbbbbbbbbbbbbbbbbbbbb ccccccccccccccccccccccccccccccccccccccc\u{1f}1786744977\u{1f}Jeppe\u{1f}Merge branch 'feature'",
    ]));

    assert_eq!(commits[0].parents.len(), 2);
}

#[test]
fn a_subject_containing_the_field_separator_is_not_possible_but_missing_trailing_fields_do_not_panic() {
    assert!(parse_log("").is_empty());
    assert!(parse_commit("not-enough-fields").is_none());
}

#[test]
fn empty_output_yields_no_commits() {
    assert!(parse_log("").is_empty());
}

#[test]
fn a_full_page_signals_there_is_more() {
    let records: Vec<String> = (0..PAGE_SIZE)
        .map(|n| format!("hash{n}\u{1f}\u{1f}1700000000\u{1f}Jeppe\u{1f}commit {n}"))
        .collect();
    let raw: String = records.iter().map(|r| format!("{r}\0")).collect();

    let commits = parse_log(&raw);
    assert_eq!(commits.len(), PAGE_SIZE);

    let page = page_from_output(&Output { ok: true, stdout: raw, stderr: String::new() }).unwrap();
    assert!(page.has_more);
}

#[test]
fn reads_local_and_remote_branches() {
    let refs = parse_refs(
        "refs/heads/main\u{1f}aaaaaaaaaaaaaaaaaaaaaaaaaaaaaaaaaaaaaaaa\n\
         refs/remotes/origin/main\u{1f}aaaaaaaaaaaaaaaaaaaaaaaaaaaaaaaaaaaaaaaa\n",
    );

    assert_eq!(
        refs,
        vec![
            RefBadge {
                name: "main".into(),
                commit: "aaaaaaaaaaaaaaaaaaaaaaaaaaaaaaaaaaaaaaaa".into(),
                kind: RefKind::Local,
            },
            RefBadge {
                name: "origin/main".into(),
                commit: "aaaaaaaaaaaaaaaaaaaaaaaaaaaaaaaaaaaaaaaa".into(),
                kind: RefKind::Remote,
            },
        ]
    );
}

#[test]
fn a_remote_head_symbolic_ref_is_skipped() {
    let refs = parse_refs("refs/remotes/origin/HEAD\u{1f}aaaaaaaaaaaaaaaaaaaaaaaaaaaaaaaaaaaaaaaa\n");
    assert!(refs.is_empty());
}

#[test]
fn empty_ref_output_is_not_an_error() {
    assert!(parse_refs("").is_empty());
}

#[test]
fn raw_and_numstat_zip_by_position() {
    let files = parse_raw_and_numstat(&nul_joined(&[
        ":100644 100644 aaaaaaa bbbbbbb M",
        "src/main.rs",
        ":000000 100644 0000000 ccccccc A",
        "src/retry.rs",
        "5\t0\tsrc/main.rs",
        "12\t0\tsrc/retry.rs",
    ]));

    assert_eq!(
        files,
        vec![
            CommitFileEntry { path: "src/main.rs".into(), status: 'M', insertions: Some(5), deletions: Some(0) },
            CommitFileEntry { path: "src/retry.rs".into(), status: 'A', insertions: Some(12), deletions: Some(0) },
        ]
    );
}

#[test]
fn raw_and_numstat_rename_reads_the_new_path_and_stays_in_sync() {
    let files = parse_raw_and_numstat(&nul_joined(&[
        ":100644 100644 aaaaaaa bbbbbbb R100",
        "src/old.rs",
        "src/new.rs",
        "10\t2\t",
        "src/old.rs",
        "src/new.rs",
    ]));

    assert_eq!(
        files,
        vec![CommitFileEntry { path: "src/new.rs".into(), status: 'R', insertions: Some(10), deletions: Some(2) }]
    );
}

#[test]
fn raw_and_numstat_binary_file_has_no_counts() {
    let files = parse_raw_and_numstat(&nul_joined(&[
        ":100644 100644 aaaaaaa bbbbbbb M",
        "image.png",
        "-\t-\timage.png",
    ]));

    assert_eq!(files, vec![CommitFileEntry { path: "image.png".into(), status: 'M', insertions: None, deletions: None }]);
}

#[test]
fn raw_and_numstat_empty_output_is_not_an_error() {
    assert!(parse_raw_and_numstat("").is_empty());
}

#[test]
fn show_parses_metadata_and_a_multiline_message() {
    let raw = "a3f9c21ee0c1a5b8d4e7f2039182736451a9c0de\u{1f}Jeppe Kronborg\u{1f}jeppe@example.com\u{1f}1786744977\u{1f}feat: add retry logic\n\nLonger body here.\n";
    let details = parse_show(raw, vec![]).unwrap();

    assert_eq!(details.hash, "a3f9c21ee0c1a5b8d4e7f2039182736451a9c0de");
    assert_eq!(details.author, "Jeppe Kronborg");
    assert_eq!(details.email, "jeppe@example.com");
    assert_eq!(details.timestamp, 1786744977);
    assert_eq!(details.message, "feat: add retry logic\n\nLonger body here.");
}

#[test]
fn show_with_no_output_is_an_error() {
    assert!(parse_show("", vec![]).is_err());
}

#[test]
fn diff_tree_covers_merges_and_the_root_commit() {
    let args = diff_tree_args("a3f9c21");

    assert!(args.iter().any(|a| a == "-m"), "a merge diffs against no parent without -m");
    assert!(args.iter().any(|a| a == "--first-parent"), "-m alone repeats every path once per parent");
    assert!(args.iter().any(|a| a == "--root"), "the root commit has no parent to diff against");
    assert!(!args.iter().any(|a| a == "--cc"), "--cc breaks the raw/numstat positional zip");
    assert_eq!(args.last().map(String::as_str), Some("a3f9c21"), "the revision stays last");
}

#[test]
fn the_log_page_asks_for_one_page_from_the_offset() {
    assert_eq!(
        log_args(600),
        ["log", "--all", "--date-order", "-z", "-n", "300", "--skip", "600", "--format=%H%x1f%P%x1f%ct%x1f%an%x1f%s"]
    );
}

#[test]
fn a_failed_log_reports_its_first_line() {
    let failed = Output { ok: false, stdout: String::new(), stderr: "\n  fatal: bad object\nhint: x\n".into() };
    assert_eq!(page_from_output(&failed), Err("fatal: bad object".to_string()));
    let silent = Output { ok: false, stdout: String::new(), stderr: String::new() };
    assert_eq!(page_from_output(&silent), Err("git log failed".to_string()));
}

#[test]
fn details_report_the_first_failure_in_order() {
    let bad_files = Output { ok: false, stdout: String::new(), stderr: "fatal: files\n".into() };
    let bad_meta = Output { ok: false, stdout: String::new(), stderr: "fatal: meta\n".into() };
    let good_files = Output { ok: true, stdout: nul_joined(&[":100644 100644 a b M", "x.rs", "1\t2\tx.rs"]), stderr: String::new() };
    let good_meta = Output { ok: true, stdout: "abc\u{1f}A\u{1f}a@x\u{1f} 12 \u{1f}msg\n".into(), stderr: String::new() };
    assert_eq!(details_from_outputs(&bad_files, Ok(bad_meta.clone())), Err("fatal: files".to_string()));
    assert_eq!(details_from_outputs(&good_files, Err("spawn failed".into())), Err("spawn failed".to_string()));
    assert_eq!(details_from_outputs(&good_files, Ok(bad_meta)), Err("fatal: meta".to_string()));
    let d = details_from_outputs(&good_files, Ok(good_meta)).unwrap();
    assert_eq!((d.hash.as_str(), d.timestamp, d.message.as_str()), ("abc", 12, "msg"));
    assert_eq!(d.files, vec![CommitFileEntry { path: "x.rs".into(), status: 'M', insertions: Some(1), deletions: Some(2) }]);
}
