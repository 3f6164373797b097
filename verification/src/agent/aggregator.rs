use vstd::prelude::*;

use crate::agent::solver::{SolverResult, SolverStatus};
use crate::text::{decimal, push_decimal, push_str, string_of};

verus! {

/// Summary of a batch of solver results.
#[derive(Debug, Clone)]
pub struct AggregatedResult {
    pub total_steps: usize,
    pub successful_steps: usize,
    pub failed_steps: usize,
    pub outputs: Vec<SolverResult>,
    pub summary: String,
}

/// Collects solver results into an `AggregatedResult`.
pub struct ResultAggregator;

/// Number of results with the given status.
pub open spec fn count_status(results: Seq<SolverResult>, status: SolverStatus) -> nat
    decreases results.len(),
{
    if results.len() == 0 {
        0
    } else {
        count_status(results.drop_last(), status) + if results.last().status == status { 1nat } else { 0nat }
    }
}

/// `a` summarises `results`: all steps, the successful and the failed ones,
/// and the summary line.
pub open spec fn aggregate_of(a: AggregatedResult, results: Seq<SolverResult>) -> bool {
    &&& a.total_steps == results.len()
    &&& a.successful_steps == count_status(results, SolverStatus::Success)
    &&& a.failed_steps == count_status(results, SolverStatus::Failed)
    &&& a.outputs@ == results
    &&& a.summary@ == summary_text(count_status(results, SolverStatus::Success), results.len())
}

/// "<successful>/<total> steps completed successfully".
pub open spec fn summary_text(successful: nat, total: nat) -> Seq<char> {
    decimal(successful) + "/"@ + decimal(total) + " steps completed successfully"@
}

/// The summary line for `successful` of `total` steps.
fn summary_line(successful: usize, total: usize) -> (s: String)
    ensures
        s@ == summary_text(successful as nat, total as nat),
{
    let mut v: Vec<char> = Vec::new();
    push_decimal(&mut v, successful as u128);
    push_str(&mut v, "/");
    push_decimal(&mut v, total as u128);
    push_str(&mut v, " steps completed successfully");
    string_of(&v)
}

impl ResultAggregator {
    /// An aggregator.
    pub fn new() -> (a: Self)
        ensures
            a == ResultAggregator,
    {
        ResultAggregator
    }

    /// Counts successful and failed steps, keeps the results in order, and
    /// summarises "<successful>/<total> steps completed successfully".
    pub fn aggregate(&self, results: Vec<SolverResult>) -> (a: AggregatedResult)
        ensures
            aggregate_of(a, results@),
    {
        let total = results.len();
        let mut successful: usize = 0;
        let mut failed: usize = 0;
        let mut i: usize = 0;
        while i < total
            invariant
                total == results@.len(),
                i <= total,
                successful == count_status(results@.take(i as int), SolverStatus::Success),
                failed == count_status(results@.take(i as int), SolverStatus::Failed),
                successful <= i,
                failed <= i,
            decreases total - i,
        {
            assert(results@.take(i + 1).drop_last() =~= results@.take(i as int));
            match results[i].status {
                SolverStatus::Success => { successful += 1; },
                SolverStatus::Failed => { failed += 1; },
                SolverStatus::Partial => {},
            }
            i += 1;
        }
        assert(results@.take(total as int) =~= results@);
        let summary = summary_line(successful, total);
        AggregatedResult {
            total_steps: total,
            successful_steps: successful,
            failed_steps: failed,
            outputs: results,
            summary,
        }
    }
}

impl Default for ResultAggregator {
    fn default() -> (a: Self)
        ensures
            a == ResultAggregator,
    {
        ResultAggregator::new()
    }
}

/// Successful and failed steps never outnumber all steps.
pub proof fn lemma_counts_bounded(results: Seq<SolverResult>)
    ensures
        count_status(results, SolverStatus::Success) + count_status(results, SolverStatus::Failed) <= results.len(),
    decreases results.len(),
{
    if results.len() > 0 {
        lemma_counts_bounded(results.drop_last());
    }
}

} // verus!
