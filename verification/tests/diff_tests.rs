use corgit::diff::{
    diff_args, diff_from_output, oversized_untracked, parse_hunk_header, parse_patch, untracked_diff, DiffLine,
    DiffSource, MAX_DIFF_LINES,
};
use corgit::git::Output;

fn line(kind: char, text: &str) -> DiffLine {
    DiffLine { kind, text: text.to_string() }
}

#[test]
fn parses_a_single_hunk() {
    let raw = "diff --git a/src/main.rs b/src/main.rs\n\
               index 1234567..89abcde 100644\n\
               --- a/src/main.rs\n\
               +++ b/src/main.rs\n\
               @@ -12,4 +12,5 @@ fn main() {\n\
               \x20    let a = 1;\n\
               -    old();\n\
               +    new();\n\
               +    extra();\n\
               \x20    let b = 2;\n";

    let diff = parse_patch("src/main.rs", raw);

    assert_eq!(diff.hunks.len(), 1);
    assert_eq!(diff.insertions, 2);
    assert_eq!(diff.deletions, 1);
    let hunk = &diff.hunks[0];
    assert_eq!((hunk.old_start, hunk.old_count, hunk.new_start, hunk.new_count), (12, 4, 12, 5));
    assert_eq!(
        hunk.lines,
        vec![
            line(' ', "    let a = 1;"),
            line('-', "    old();"),
            line('+', "    new();"),
            line('+', "    extra();"),
            line(' ', "    let b = 2;"),
        ]
    );
}

#[test]
fn parses_several_hunks() {
    let raw = "@@ -1,2 +1,2 @@\n\
               -a\n\
               +A\n\
               \x20b\n\
               @@ -20,2 +20,2 @@\n\
               -c\n\
               +C\n\
               \x20d\n";

    let diff = parse_patch("f.txt", raw);

    assert_eq!(diff.hunks.len(), 2);
    assert_eq!(diff.hunks[1].old_start, 20);
    assert_eq!(diff.insertions, 2);
    assert_eq!(diff.deletions, 2);
}

#[test]
fn an_empty_context_line_stays_inside_the_hunk() {
    let raw = "@@ -1,3 +1,3 @@\n\
               -a\n\
               \n\
               +A\n";

    let diff = parse_patch("f.txt", raw);

    assert_eq!(diff.hunks.len(), 1);
    assert_eq!(diff.hunks[0].lines, vec![line('-', "a"), line(' ', ""), line('+', "A")]);
}

#[test]
fn a_new_file_has_no_old_side() {
    let raw = "diff --git a/new.txt b/new.txt\n\
               new file mode 100644\n\
               index 0000000..1234567\n\
               --- /dev/null\n\
               +++ b/new.txt\n\
               @@ -0,0 +1,2 @@\n\
               +one\n\
               +two\n";

    let diff = parse_patch("new.txt", raw);

    let hunk = &diff.hunks[0];
    assert_eq!((hunk.old_start, hunk.old_count), (0, 0));
    assert_eq!(diff.insertions, 2);
    assert_eq!(diff.deletions, 0);
}

#[test]
fn a_deleted_file_has_no_new_side() {
    let raw = "@@ -1,2 +0,0 @@\n-one\n-two\n";
    let diff = parse_patch("gone.txt", raw);

    assert_eq!(diff.hunks[0].new_count, 0);
    assert_eq!(diff.deletions, 2);
    assert_eq!(diff.insertions, 0);
}

#[test]
fn a_header_with_omitted_counts_means_one_line() {
    let raw = "@@ -1 +1 @@\n-a\n+b\n";
    let diff = parse_patch("f.txt", raw);

    let hunk = &diff.hunks[0];
    assert_eq!((hunk.old_start, hunk.old_count, hunk.new_start, hunk.new_count), (1, 1, 1, 1));
    assert_eq!(hunk.lines.len(), 2);
}

#[test]
fn a_binary_file_is_flagged_and_has_no_hunks() {
    let raw = "diff --git a/logo.png b/logo.png\n\
               index 1234567..89abcde 100644\n\
               Binary files a/logo.png and b/logo.png differ\n";

    let diff = parse_patch("logo.png", raw);

    assert!(diff.binary);
    assert!(diff.hunks.is_empty());
}

#[test]
fn a_no_newline_marker_is_not_a_line() {
    let raw = "@@ -1 +1 @@\n-a\n\\ No newline at end of file\n+b\n";
    let diff = parse_patch("f.txt", raw);

    assert_eq!(diff.hunks[0].lines, vec![line('-', "a"), line('+', "b")]);
}

#[test]
fn crlf_output_parses_the_same_as_lf() {
    let lf = parse_patch("f.txt", "@@ -1 +1 @@\n-a\n+b\n");
    let crlf = parse_patch("f.txt", "@@ -1 +1 @@\r\n-a\r\n+b\r\n");

    assert_eq!(lf, crlf);
}

#[test]
fn empty_output_is_no_changes_rather_than_an_error() {
    let diff = parse_patch("f.txt", "");

    assert!(diff.hunks.is_empty());
    assert!(!diff.binary);
    assert!(!diff.truncated);
}

#[test]
fn a_diff_past_the_cap_is_truncated_rather_than_rendered() {
    let body: String = (0..MAX_DIFF_LINES + 500).map(|n| format!("+line {n}\n")).collect();
    let raw = format!("@@ -0,0 +1,{} @@\n{body}", MAX_DIFF_LINES + 500);

    let diff = parse_patch("huge.txt", &raw);

    assert!(diff.truncated);
    assert_eq!(diff.hunks[0].lines.len(), MAX_DIFF_LINES);
}

#[test]
fn a_hunk_header_that_is_not_one_is_skipped_rather_than_panicking() {
    assert!(parse_hunk_header(" nonsense @@").is_none());
    assert!(parse_hunk_header(" -x,y +1,2 @@").is_none());
    assert!(parse_patch("f.txt", "@@ garbage @@\n+a\n").hunks.is_empty());
}

#[test]
fn a_hunk_header_reads_both_ranges_and_ignores_the_heading() {
    assert_eq!(parse_hunk_header(" -12,7 +12,9 @@ fn main() {"), Some((12, 7, 12, 9)));
    assert_eq!(parse_hunk_header(" -3 +4,0 @@"), Some((3, 1, 4, 0)));
}

#[test]
fn each_side_is_asked_for_with_its_own_arguments() {
    assert_eq!(
        diff_args("src/a.rs", &DiffSource::Unstaged).unwrap(),
        ["diff", "--no-ext-diff", "--no-color", "--no-renames", "-U3", "--", "src/a.rs"]
    );
    assert_eq!(
        diff_args("src/a.rs", &DiffSource::Staged).unwrap(),
        ["diff", "--cached", "--no-ext-diff", "--no-color", "--no-renames", "-U3", "--", "src/a.rs"]
    );
    assert_eq!(
        diff_args("src/a.rs", &DiffSource::Commit { hash: "abc123".into() }).unwrap(),
        [
            "diff-tree", "--no-commit-id", "-p", "-r", "--no-ext-diff", "--no-color", "--no-renames", "-U3",
            "abc123", "--", "src/a.rs"
        ]
    );
    assert!(diff_args("src/a.rs", &DiffSource::Untracked).is_none());
}

#[test]
fn a_failed_diff_carries_the_whole_stderr() {
    let failed = Output { ok: false, stdout: String::new(), stderr: "fatal: bad revision\nmore\n".into() };
    assert_eq!(diff_from_output("f.txt", &failed), Err("fatal: bad revision\nmore".to_string()));
    let silent = Output { ok: false, stdout: String::new(), stderr: "\n".into() };
    assert_eq!(diff_from_output("f.txt", &silent), Err("git diff failed".to_string()));
    let fine = Output { ok: true, stdout: "@@ -1 +1 @@\n-a\n+b\n".into(), stderr: String::new() };
    assert_eq!(diff_from_output("f.txt", &fine).unwrap().insertions, 1);
}

#[test]
fn an_untracked_file_is_one_hunk_of_additions() {
    let diff = untracked_diff("notes.txt", b"one\r\ntwo\n");
    assert_eq!(diff.hunks.len(), 1);
    let hunk = &diff.hunks[0];
    assert_eq!((hunk.old_start, hunk.old_count, hunk.new_start, hunk.new_count), (0, 0, 1, 2));
    assert_eq!(hunk.lines, vec![line('+', "one"), line('+', "two")]);
    assert_eq!((diff.insertions, diff.deletions), (2, 0));
    assert!(!diff.binary && !diff.truncated);
}

#[test]
fn an_untracked_file_with_a_nul_is_binary() {
    let diff = untracked_diff("blob.bin", b"abc\0def");
    assert!(diff.binary);
    assert!(diff.hunks.is_empty());
    assert!(!untracked_diff("late.bin", &[b'a'; 9000].iter().copied().chain([0u8]).collect::<Vec<u8>>()).binary);
}

#[test]
fn an_empty_untracked_file_has_no_hunk() {
    let diff = untracked_diff("empty.txt", b"");
    assert!(diff.hunks.is_empty());
    assert_eq!(diff.insertions, 0);
}

#[test]
fn invalid_utf8_in_an_untracked_file_is_replaced_not_dropped() {
    let diff = untracked_diff("latin1.txt", b"caf\xe9\n");
    assert_eq!(diff.hunks[0].lines, vec![line('+', "caf\u{fffd}")]);
}

#[test]
fn an_untracked_file_past_the_size_cap_is_truncated_unread() {
    let d = oversized_untracked("big.bin", 5 * 1024 * 1024 + 1).unwrap();
    assert!(d.truncated && d.hunks.is_empty() && !d.binary);
    assert!(oversized_untracked("small.txt", 5 * 1024 * 1024).is_none());
}

#[test]
fn an_untracked_file_past_the_line_cap_is_truncated() {
    let text: String = (0..MAX_DIFF_LINES + 3).map(|n| format!("l{n}\n")).collect();
    let diff = untracked_diff("long.txt", text.as_bytes());
    assert!(diff.truncated);
    assert_eq!(diff.hunks[0].lines.len(), MAX_DIFF_LINES);
    assert_eq!(diff.insertions as usize, MAX_DIFF_LINES);
}
