use corgit::problems::{clear, next_seq, recent, record, ring, CAPACITY};

#[test]
fn ring_evicts_oldest_and_reports_newest_first() {
    let mut problems = ring();
    clear(&mut problems);

    for n in 0..CAPACITY + 10 {
        record(&mut problems, Some(format!("repo-{n}")), "Push", "rejected", 1_700_000_000);
    }

    let recent = recent(&problems);
    assert_eq!(recent.len(), CAPACITY, "the ring must not grow past its cap");
    assert_eq!(recent[0].repo_id.as_deref(), Some("repo-59"));
    assert_eq!(recent[CAPACITY - 1].repo_id.as_deref(), Some("repo-10"));
}

#[test]
fn seq_distinguishes_identical_failures() {
    let mut problems = ring();
    clear(&mut problems);

    let first = record(&mut problems, Some("a".into()), "Pull", "boom", 1_700_000_000);
    let second = record(&mut problems, Some("a".into()), "Pull", "boom", 1_700_000_000);
    assert_ne!(first.seq, second.seq);
}

#[test]
fn a_record_carries_what_it_was_given() {
    let mut problems = ring();
    let p = record(&mut problems, None, "Open folder", "no such folder", 42);
    assert_eq!((p.seq, p.at, p.repo_id.clone(), p.operation.as_str(), p.message.as_str()), (1, 42, None, "Open folder", "no such folder"));
    assert_eq!(next_seq(&problems), 2);
}

#[test]
fn clearing_empties_the_list_but_keeps_counting() {
    let mut problems = ring();
    record(&mut problems, None, "Push", "x", 0);
    clear(&mut problems);
    assert!(recent(&problems).is_empty());
    let p = record(&mut problems, None, "Push", "y", 0);
    assert_eq!(p.seq, 2);
}

#[test]
fn numbers_rise_across_reads_and_clears() {
    let mut r = ring();
    let first = record(&mut r, None, "Fetch", "boom", 1).seq;
    let _ = recent(&r);
    clear(&mut r);
    let second = record(&mut r, None, "Fetch", "boom", 1).seq;
    assert!(first < second);
    assert!(recent(&r).len() <= CAPACITY);
}
