use corgit::ignore::{already_ignored, with_patterns};

fn patterns(lines: &[&str]) -> Vec<String> {
    lines.iter().map(|line| (*line).to_string()).collect()
}

#[test]
fn appends_to_a_file_that_ends_in_a_newline() {
    let text = with_patterns("target/\n", &patterns(&["/notes.txt"])).unwrap();
    assert_eq!(text, "target/\n/notes.txt\n");
}

#[test]
fn terminates_a_file_that_does_not_end_in_a_newline() {
    let text = with_patterns("target/", &patterns(&["/notes.txt"])).unwrap();
    assert_eq!(text, "target/\n/notes.txt\n");
}

#[test]
fn starts_an_empty_file_without_a_leading_blank_line() {
    let text = with_patterns("", &patterns(&["/notes.txt", "*.log"])).unwrap();
    assert_eq!(text, "/notes.txt\n*.log\n");
}

#[test]
fn keeps_a_crlf_file_crlf() {
    let text = with_patterns("target/\r\n", &patterns(&["/notes.txt"])).unwrap();
    assert_eq!(text, "target/\r\n/notes.txt\r\n");
}

#[test]
fn terminates_an_unterminated_crlf_file_with_crlf() {
    let text = with_patterns("a/\r\nb/", &patterns(&["/c.txt"])).unwrap();
    assert_eq!(text, "a/\r\nb/\r\n/c.txt\r\n");
}

#[test]
fn skips_a_pattern_the_file_already_carries() {
    assert!(with_patterns("target/\n/notes.txt\n", &patterns(&["/notes.txt"])).is_none());
}

#[test]
fn matches_an_existing_line_across_line_endings_and_trailing_space() {
    assert!(with_patterns("/notes.txt\r\n", &patterns(&["/notes.txt"])).is_none());
    assert!(with_patterns("/notes.txt  \n", &patterns(&["/notes.txt"])).is_none());
}

#[test]
fn appends_only_the_patterns_that_are_missing() {
    let text = with_patterns("/a.txt\n", &patterns(&["/a.txt", "/b.txt"])).unwrap();
    assert_eq!(text, "/a.txt\n/b.txt\n");
}

#[test]
fn leaves_existing_comments_and_spacing_alone() {
    let existing = "# build output\ntarget/\n\n# editors\n.vscode/\n";
    let text = with_patterns(existing, &patterns(&["/notes.txt"])).unwrap();
    assert_eq!(text, format!("{existing}/notes.txt\n"));
}

#[test]
fn an_empty_pattern_list_changes_nothing() {
    assert!(with_patterns("target/\n", &[]).is_none());
}

#[test]
fn re_ignoring_what_was_just_appended_is_a_no_op() {
    let text = with_patterns("a/", &patterns(&["/x", "/y  "])).unwrap();
    assert!(with_patterns(&text, &patterns(&["/x", "/y"])).is_none());
    assert!(already_ignored(&text, "/y"));
    assert!(!already_ignored(&text, "/z"));
}

#[test]
fn none_means_every_pattern_is_already_a_line_and_some_means_more_text() {
    let existing = "target/\n*.log\n";
    assert_eq!(with_patterns(existing, &patterns(&["*.log", "target/"])), None);
    assert!(already_ignored(existing, "*.log") && already_ignored(existing, "target/"));
    let grown = with_patterns(existing, &patterns(&["*.log", "dist/"])).unwrap();
    assert!(grown.len() > existing.len() && grown.starts_with(existing));
}
