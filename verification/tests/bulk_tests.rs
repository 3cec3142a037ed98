use corgit::bulk::{tally, BulkFailure, BulkOp, BulkResult};

fn failure(repo_id: &str) -> BulkFailure {
    BulkFailure { repo_id: repo_id.to_string(), name: repo_id.to_string(), message: "boom".to_string() }
}

#[test]
fn every_repo_lands_in_exactly_one_column() {
    let outcome = tally(
        "Pull",
        5,
        vec![
            BulkResult::Succeeded,
            BulkResult::Failed(failure("api")),
            BulkResult::Skipped,
            BulkResult::Succeeded,
            BulkResult::Skipped,
        ],
    );

    assert_eq!(outcome.succeeded, 2);
    assert_eq!(outcome.skipped, 2);
    assert_eq!(outcome.failed.len(), 1);
    assert_eq!(
        outcome.succeeded + outcome.skipped + outcome.failed.len() as u32,
        outcome.total,
        "the three columns do not add up to the run",
    );
}

#[test]
fn a_stopped_run_reports_skips_rather_than_failures() {
    let outcome = tally(
        "Fetch",
        4,
        vec![BulkResult::Succeeded, BulkResult::Skipped, BulkResult::Skipped, BulkResult::Skipped],
    );

    assert_eq!(outcome.skipped, 3);
    assert!(outcome.failed.is_empty(), "a repo Stop got to first was reported as a failure");
}

#[test]
fn a_failure_carries_what_the_banner_needs_to_name_it() {
    let outcome = tally("Pull", 1, vec![BulkResult::Failed(failure("api"))]);

    let reported = &outcome.failed[0];
    assert_eq!(reported.repo_id, "api");
    assert_eq!(reported.name, "api");
    assert_eq!(reported.message, "boom");
    assert_eq!(outcome.operation, "Pull");
}

#[test]
fn an_empty_run_is_not_a_failure() {
    let outcome = tally("Fetch", 0, Vec::new());

    assert_eq!(outcome.total, 0);
    assert_eq!(outcome.succeeded, 0);
    assert_eq!(outcome.skipped, 0);
    assert!(outcome.failed.is_empty());
}

#[test]
fn a_switch_run_that_never_pulls_is_not_called_switch_and_pull() {
    assert_eq!(BulkOp::SwitchPull { name: "dev".into(), pull: true }.label(), "Switch & pull");
    assert_eq!(BulkOp::SwitchPull { name: "dev".into(), pull: false }.label(), "Switch");
    assert_eq!(BulkOp::Branch { name: "x".into(), checkout: true }.label(), "Branch");
    assert_eq!(BulkOp::Fetch.label(), "Fetch");
    assert_eq!(BulkOp::Pull.label(), "Pull");
}

#[test]
fn each_run_makes_the_git_calls_it_names() {
    assert_eq!(BulkOp::Branch { name: "fix".into(), checkout: false }.commands(), vec![vec!["branch", "--no-track", "fix", "HEAD"]]);
    assert_eq!(
        BulkOp::SwitchPull { name: "dev".into(), pull: true }.commands(),
        vec![vec!["switch", "--guess", "dev"], vec!["pull", "--no-rebase"]]
    );
    assert_eq!(BulkOp::SwitchPull { name: "dev".into(), pull: false }.commands(), vec![vec!["switch", "--guess", "dev"]]);
    assert_eq!(
        BulkOp::Fetch.commands(),
        vec![vec!["-c", "credential.interactive=never", "fetch", "--prune", "--no-tags", "--quiet"]]
    );
}
