use corgit::inflight::InFlightWrites;

#[test]
fn the_first_write_signals_and_the_last_one_does_too() {
    let mut writes = InFlightWrites::default();
    assert!(writes.begin("repo-1"));
    assert!(writes.end("repo-1"));
}

#[test]
fn a_queued_second_write_publishes_nothing_until_both_are_done() {
    let mut writes = InFlightWrites::default();
    assert!(writes.begin("repo-1"));
    assert!(!writes.begin("repo-1"), "the row is already showing busy");
    assert!(!writes.end("repo-1"), "one write is still running");
    assert!(writes.end("repo-1"));
}

#[test]
fn repos_are_counted_apart() {
    let mut writes = InFlightWrites::default();
    assert!(writes.begin("repo-a"));
    assert!(writes.begin("repo-b"));
    assert!(writes.end("repo-a"));
    assert!(writes.end("repo-b"));
}

#[test]
fn an_unbalanced_end_is_inert() {
    let mut writes = InFlightWrites::default();
    assert!(!writes.end("repo-1"));
    assert!(writes.begin("repo-1"), "and the map is still usable afterwards");
}

#[test]
fn a_begin_then_end_leaves_no_count_behind() {
    let mut writes = InFlightWrites::default();
    writes.begin("repo-1");
    writes.begin("repo-1");
    assert_eq!(writes.depth("repo-1"), 2);
    writes.end("repo-1");
    writes.end("repo-1");
    assert_eq!(writes.depth("repo-1"), 0);
}

#[test]
fn a_count_is_begins_less_the_ends_that_found_a_write() {
    let mut w = InFlightWrites::default();
    w.begin("a");
    w.begin("b");
    w.begin("a");
    w.end("b");
    w.end("b");
    w.end("a");
    assert_eq!(w.depth("a"), 1);
    assert_eq!(w.depth("b"), 0);
    assert!(w.begin("b"));
}
