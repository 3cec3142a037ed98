use corgit::git::{
    at_least, outcome, output_from, probe_info, read_args, timed_out_message, Output, FSMONITOR_MIN_VERSION,
    LOCAL_WRITE_TIMEOUT, NETWORK_TIMEOUT, PROBE_TIMEOUT, READ_TIMEOUT,
};

#[test]
fn a_timeout_message_stays_translatable_by_the_frontend() {
    let message = timed_out_message(NETWORK_TIMEOUT);
    assert!(message.to_lowercase().contains("timed out"), "{message}");
}

#[test]
fn a_timeout_message_names_the_budget_it_exceeded() {
    assert!(timed_out_message(120).contains("120"));
}

#[test]
fn budgets_are_ordered_by_how_long_the_work_can_honestly_take() {
    assert!(PROBE_TIMEOUT < READ_TIMEOUT, "the probe blocks startup; it must be the tightest");
    assert!(READ_TIMEOUT < NETWORK_TIMEOUT, "a local read must not outlive a fetch");
    assert!(NETWORK_TIMEOUT < LOCAL_WRITE_TIMEOUT, "hooks make commit the most generous case");
}

#[test]
fn version_gate_reads_major_minor() {
    assert!(at_least("2.51.0.windows.1", FSMONITOR_MIN_VERSION));
    assert!(at_least("2.37.0", FSMONITOR_MIN_VERSION));
    assert!(at_least("3.0.0", FSMONITOR_MIN_VERSION));
}

#[test]
fn version_gate_rejects_older_and_unparseable() {
    assert!(!at_least("2.36.9", FSMONITOR_MIN_VERSION));
    assert!(!at_least("1.9.5", FSMONITOR_MIN_VERSION));
    assert!(!at_least("", FSMONITOR_MIN_VERSION));
    assert!(!at_least("banana", FSMONITOR_MIN_VERSION));
}

#[test]
fn a_timeout_message_reads_exactly() {
    assert_eq!(timed_out_message(30), "git timed out after 30s and was stopped");
}

#[test]
fn the_probe_reads_the_version_and_the_fsmonitor_gate() {
    let out = Output { ok: true, stdout: "git version 2.51.0.windows.1\n".into(), stderr: String::new() };
    let info = probe_info(&out, "/usr/bin/git");
    assert!(info.available);
    assert_eq!(info.version.as_deref(), Some("2.51.0.windows.1"));
    assert!(info.supports_fsmonitor);
    assert_eq!(info.read_binary.as_deref(), Some("/usr/bin/git"));

    let old = probe_info(&Output { ok: true, stdout: "git version 2.30.1".into(), stderr: String::new() }, "git");
    assert!(!old.supports_fsmonitor);

    let failed = probe_info(&Output { ok: false, stdout: String::new(), stderr: "nope".into() }, "git");
    assert!(!failed.available && failed.version.is_none() && failed.read_binary.is_none());
}

#[test]
fn a_read_never_takes_the_index_lock() {
    assert_eq!(read_args(&["status".to_string(), "-z".to_string()]), ["--no-optional-locks", "status", "-z"]);
}

#[test]
fn output_streams_are_decoded_leniently() {
    let out = output_from(true, b"ok\n", b"bad \xff byte");
    assert!(out.ok);
    assert_eq!(out.stdout, "ok\n");
    assert_eq!(out.stderr, "bad \u{fffd} byte");
}

#[test]
fn a_refused_write_reports_the_whole_stderr_or_the_fallback() {
    let failed = Output { ok: false, stdout: String::new(), stderr: "  error: one\nerror: two\n".into() };
    assert_eq!(outcome(&failed, "git failed"), Err("error: one\nerror: two".to_string()));
    let silent = Output { ok: false, stdout: String::new(), stderr: String::new() };
    assert_eq!(outcome(&silent, "git failed"), Err("git failed".to_string()));
    let fine = Output { ok: true, stdout: String::new(), stderr: "warning".into() };
    assert_eq!(outcome(&fine, "git failed"), Ok(()));
}
