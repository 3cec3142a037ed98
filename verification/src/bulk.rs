//! Multi-repo runs: what each kind of run asks git to do in one repo, the
//! word it is reported under, and the tally of a finished run. Scheduling
//! the repos, the write queue and the progress events are the caller's.
use vstd::prelude::*;

use crate::branch::{create_args, create_args_spec, switch_args, switch_args_spec};
use crate::remote::{background_fetch_args, background_fetch_args_spec, pull_args, pull_args_spec};
use crate::text::strings;

verus! {

/// How many repos a run works on at once: half the global budget, so the
/// window keeps answering while a run is under way.
pub const BULK_CONCURRENCY: usize = 4;

/// The bulk runs.
#[derive(Debug, Clone)]
pub enum BulkOp {
    Fetch,
    Pull,
    /// A new branch of this name in every repo, cut from `HEAD`.
    Branch { name: String, checkout: bool },
    /// Switch every repo to this existing branch, then pull unless `pull` is
    /// off.
    SwitchPull { name: String, pull: bool },
}

pub open spec fn label_spec(op: BulkOp) -> Seq<char> {
    match op {
        BulkOp::Fetch => "Fetch"@,
        BulkOp::Pull => "Pull"@,
        BulkOp::Branch { .. } => "Branch"@,
        BulkOp::SwitchPull { pull, .. } => if pull {
            "Switch & pull"@
        } else {
            "Switch"@
        },
    }
}

/// The git invocations one repo's share of a run makes, in order. The fetch
/// is the non-interactive one; a branch is cut from `HEAD`, resolved in the
/// repo, never from a possibly stale branch name.
pub open spec fn commands_spec(op: BulkOp) -> Seq<Seq<Seq<char>>> {
    match op {
        BulkOp::Fetch => seq![background_fetch_args_spec()],
        BulkOp::Pull => seq![pull_args_spec()],
        BulkOp::Branch { name, checkout } => seq![create_args_spec(name@, "HEAD"@, checkout)],
        BulkOp::SwitchPull { name, pull } => if pull {
            seq![switch_args_spec(name@), pull_args_spec()]
        } else {
            seq![switch_args_spec(name@)]
        },
    }
}

impl BulkOp {
    /// The user's word for the operation, which the busy row, the Problems
    /// record and the failure banner all print. A switch run that was never
    /// going to pull is not called "Switch & pull".
    pub fn label(&self) -> (l: &'static str)
        ensures
            l@ == label_spec(*self),
    {
        match self {
            BulkOp::Fetch => "Fetch",
            BulkOp::Pull => "Pull",
            BulkOp::Branch { .. } => "Branch",
            BulkOp::SwitchPull { pull, .. } => {
                if *pull {
                    "Switch & pull"
                } else {
                    "Switch"
                }
            },
        }
    }

    /// The argument lists of the git invocations this run makes in one repo,
    /// run in order, stopping at the first that fails.
    pub fn commands(&self) -> (c: Vec<Vec<String>>)
        ensures
            c@.map_values(|v: Vec<String>| strings(v@)) == commands_spec(*self),
    {
        let mut c: Vec<Vec<String>> = Vec::new();
        match self {
            BulkOp::Fetch => {
                c.push(background_fetch_args());
            },
            BulkOp::Pull => {
                c.push(pull_args());
            },
            BulkOp::Branch { name, checkout } => {
                c.push(create_args(name.as_str(), "HEAD", *checkout));
            },
            BulkOp::SwitchPull { name, pull } => {
                c.push(switch_args(name.as_str()));
                if *pull {
                    c.push(pull_args());
                }
            },
        }
        assert(c@.map_values(|v: Vec<String>| strings(v@)) =~= commands_spec(*self));
        c
    }
}

/// A repo the run could not bring along, carried with the name and message
/// the banner prints.
#[derive(Debug, Clone)]
pub struct BulkFailure {
    pub repo_id: String,
    pub name: String,
    pub message: String,
}

/// One repo's share of a run: done, never started (Stop got there first), or
/// failed.
#[derive(Debug, Clone)]
pub enum BulkResult {
    Succeeded,
    Skipped,
    Failed(BulkFailure),
}

/// What a run is handed back with.
#[derive(Debug, Clone)]
pub struct BulkOutcome {
    pub operation: String,
    pub total: u32,
    pub succeeded: u32,
    /// Repos Stop reached before they started: not failures.
    pub skipped: u32,
    pub failed: Vec<BulkFailure>,
}

pub open spec fn count_ok(rs: Seq<BulkResult>) -> nat
    decreases rs.len(),
{
    if rs.len() == 0 {
        0
    } else {
        count_ok(rs.drop_last()) + if rs.last() is Succeeded {
            1nat
        } else {
            0nat
        }
    }
}

pub open spec fn count_skipped(rs: Seq<BulkResult>) -> nat
    decreases rs.len(),
{
    if rs.len() == 0 {
        0
    } else {
        count_skipped(rs.drop_last()) + if rs.last() is Skipped {
            1nat
        } else {
            0nat
        }
    }
}

/// The failures among `rs`, in order.
pub open spec fn failures(rs: Seq<BulkResult>) -> Seq<BulkFailure>
    decreases rs.len(),
{
    if rs.len() == 0 {
        seq![]
    } else {
        match rs.last() {
            BulkResult::Failed(f) => failures(rs.drop_last()).push(f),
            _ => failures(rs.drop_last()),
        }
    }
}

proof fn lemma_columns_add_up(rs: Seq<BulkResult>)
    ensures
        count_ok(rs) + count_skipped(rs) + failures(rs).len() == rs.len(),
    decreases rs.len(),
{
    if rs.len() > 0 {
        lemma_columns_add_up(rs.drop_last());
    }
}

/// Folds one result per repo into the run's outcome.
pub fn tally(operation: &str, total: u32, results: Vec<BulkResult>) -> (o: BulkOutcome)
    requires
        results@.len() <= u32::MAX,
    ensures
        o.operation@ == operation@,
        o.total == total,
        o.succeeded == count_ok(results@),
        o.skipped == count_skipped(results@),
        o.failed@ == failures(results@),
{
    let ghost rs = results@;
    let mut failed: Vec<BulkFailure> = Vec::new();
    let mut succeeded: u32 = 0;
    let mut skipped: u32 = 0;
    let mut rest = results;
    let ghost done: Seq<BulkResult> = Seq::empty();
    proof {
        assert(rs =~= done + rest@);
    }
    while rest.len() > 0
        invariant
            rs == done + rest@,
            rs.len() <= u32::MAX,
            succeeded == count_ok(done),
            skipped == count_skipped(done),
            failed@ == failures(done),
        decreases rest.len(),
    {
        let r = rest.remove(0);
        let ghost prev = done;
        proof {
            lemma_columns_add_up(done);
            done = done.push(r);
            assert(rs =~= done + rest@);
            assert(done.drop_last() =~= prev);
            assert(done.last() == r);
            assert(done.len() <= rs.len());
        }
        match r {
            BulkResult::Succeeded => {
                succeeded = succeeded + 1;
            },
            BulkResult::Skipped => {
                skipped = skipped + 1;
            },
            BulkResult::Failed(f) => {
                failed.push(f);
            },
        }
    }
    proof {
        assert(done =~= rs);
    }
    BulkOutcome { operation: operation.to_owned(), total, succeeded, skipped, failed }
}

/// Every repo dispatched lands in exactly one of the three columns, so the
/// banner's arithmetic adds up to the run.
pub proof fn law_every_repo_lands_in_one_column(rs: Seq<BulkResult>)
    ensures
        count_ok(rs) + count_skipped(rs) + failures(rs).len() == rs.len(),
{
    lemma_columns_add_up(rs);
}

/// A run that Stop reached is reported as skips, never as failures: a
/// result that is not `Failed` contributes nothing to the failure list.
pub proof fn law_skips_are_not_failures(rs: Seq<BulkResult>)
    requires
        forall|i: int| 0 <= i < rs.len() ==> !(#[trigger] rs[i] is Failed),
    ensures
        failures(rs).len() == 0,
    decreases rs.len(),
{
    if rs.len() > 0 {
        assert forall|i: int| 0 <= i < rs.drop_last().len() implies !(#[trigger] rs.drop_last()[i] is Failed) by {
            assert(rs.drop_last()[i] == rs[i]);
        }
        law_skips_are_not_failures(rs.drop_last());
        assert(!(rs[rs.len() - 1] is Failed));
    }
}

} // verus!
