use vstd::prelude::*;

use crate::agent::aggregator::{aggregate_of, AggregatedResult, ResultAggregator};
use crate::agent::classifier::{TaskSpec, WorkloadClassifier};
use crate::agent::error::{error_text, AgentError};
use crate::agent::router::{
    builtin_fails, builtin_result, domain_debug, domain_name, route_domain, spec_route, task_domain,
};
use crate::agent::solver::{CircuitEstimate, SolverResult};

verus! {

/// Classifies tasks, routes each to the first built-in solver for its
/// domain, runs it and aggregates the results.
pub struct OrchestrationEngine {
    pub classifier: WorkloadClassifier,
    pub aggregator: ResultAggregator,
}

/// A task of a workflow fails: no solver handles its domain, or its solver
/// fails.
pub open spec fn step_fails(task: TaskSpec, estimate: Result<CircuitEstimate, AgentError>) -> bool {
    match spec_route(task_domain(task)) {
        None => true,
        Some(s) => builtin_fails(s, estimate),
    }
}

/// Step `k` is the first failing step of the workflow.
pub open spec fn first_failing_step(
    tasks: Seq<TaskSpec>,
    estimates: Seq<Result<CircuitEstimate, AgentError>>,
    k: int,
) -> bool {
    &&& 0 <= k < tasks.len()
    &&& step_fails(tasks[k], estimates[k])
    &&& forall|j: int| 0 <= j < k ==> !step_fails(#[trigger] tasks[j], estimates[j])
}

/// Adds the outcome of one workflow step: its result is appended, or its
/// error ends the workflow as a failed step carrying the error's message.
pub fn workflow_step(results: Vec<SolverResult>, step: Result<SolverResult, AgentError>) -> (r: Result<
    Vec<SolverResult>,
    AgentError,
>)
    ensures
        step matches Ok(s) ==> (r matches Ok(v) && v@ == results@.push(s)),
        step matches Err(e) ==> (r matches Err(AgentError::WorkflowStepFailed(m)) && m@ == error_text(e)),
{
    match step {
        Ok(s) => {
            let mut v = results;
            v.push(s);
            Ok(v)
        },
        Err(e) => Err(AgentError::WorkflowStepFailed(e.message())),
    }
}

impl OrchestrationEngine {
    /// An engine with the keyword classifier and the built-in solvers.
    pub fn new() -> (e: Self)
        ensures
            e.classifier == WorkloadClassifier && e.aggregator == ResultAggregator,
    {
        OrchestrationEngine { classifier: WorkloadClassifier::new(), aggregator: ResultAggregator::new() }
    }

    /// Classifies `task`, runs the first built-in solver for its domain and
    /// aggregates the single result. `estimate` is what the resource
    /// estimation of the task's circuit gave; only the simulation solver uses
    /// it, and its error is passed on unchanged.
    pub fn process_task(&self, task: TaskSpec, estimate: Result<CircuitEstimate, AgentError>) -> (r: Result<
        AggregatedResult,
        AgentError,
    >)
        ensures
            spec_route(task_domain(task)) is None ==> (r matches Err(AgentError::UnknownDomain(n)) && n@
                == domain_name(task_domain(task))),
            spec_route(task_domain(task)) is Some && !builtin_fails(spec_route(task_domain(task))->0, estimate) ==> (
            r matches Ok(a) && a.outputs@.len() == 1 && builtin_result(
                spec_route(task_domain(task))->0,
                task,
                estimate,
                a.outputs@[0],
            ) && aggregate_of(a, a.outputs@)),
            spec_route(task_domain(task)) is Some && builtin_fails(spec_route(task_domain(task))->0, estimate) ==> r
                == Err::<AggregatedResult, AgentError>(estimate->Err_0),
    {
        let domain = self.classifier.classify(&task);
        let solver = match route_domain(domain) {
            Some(s) => s,
            None => {
                return Err(AgentError::UnknownDomain(domain_debug(domain)));
            },
        };
        let result = match solver.solve(&task, estimate) {
            Ok(res) => res,
            Err(e) => {
                return Err(e);
            },
        };
        let mut results: Vec<SolverResult> = Vec::new();
        results.push(result);
        Ok(self.aggregator.aggregate(results))
    }

    /// Runs the tasks in order, as `process_task` does, with `estimates[i]`
    /// for task `i`. The first step without a solver ends the workflow with
    /// `UnknownDomain`; the first failing solver ends it with
    /// `WorkflowStepFailed` and the solver error's message. Otherwise all the
    /// results are aggregated, in order.
    pub fn process_workflow(&self, tasks: Vec<TaskSpec>, estimates: Vec<Result<CircuitEstimate, AgentError>>) -> (r:
        Result<AggregatedResult, AgentError>)
        requires
            estimates@.len() == tasks@.len(),
        ensures
            (forall|i: int| 0 <= i < tasks@.len() ==> !step_fails(#[trigger] tasks@[i], estimates@[i])) ==> (r matches Ok(
                a,
            ) && a.outputs@.len() == tasks@.len() && aggregate_of(a, a.outputs@) && forall|i: int|
                0 <= i < tasks@.len() ==> builtin_result(
                    spec_route(task_domain(#[trigger] tasks@[i]))->0,
                    tasks@[i],
                    estimates@[i],
                    a.outputs@[i],
                )),
            forall|k: int|
                #![trigger first_failing_step(tasks@, estimates@, k)]
                first_failing_step(tasks@, estimates@, k) ==> {
                    &&& spec_route(task_domain(tasks@[k])) is None ==> (r matches Err(AgentError::UnknownDomain(n))
                        && n@ == domain_name(task_domain(tasks@[k])))
                    &&& spec_route(task_domain(tasks@[k])) is Some ==> (r matches Err(
                        AgentError::WorkflowStepFailed(m),
                    ) && m@ == error_text(estimates@[k]->Err_0))
                },
    {
        let ghost all_estimates = estimates@;
        let mut pending = estimates;
        let mut results: Vec<SolverResult> = Vec::new();
        let mut i: usize = 0;
        while i < tasks.len()
            invariant
                pending@.len() + i == tasks@.len(),
                all_estimates == estimates@,
                all_estimates.len() == tasks@.len(),
                pending@ == all_estimates.subrange(i as int, all_estimates.len() as int),
                i <= tasks@.len(),
                results@.len() == i,
                forall|j: int| 0 <= j < i ==> !step_fails(#[trigger] tasks@[j], all_estimates[j]),
                forall|j: int|
                    0 <= j < i ==> builtin_result(
                        spec_route(task_domain(#[trigger] tasks@[j]))->0,
                        tasks@[j],
                        all_estimates[j],
                        results@[j],
                    ),
            decreases tasks@.len() - i,
        {
            let task = &tasks[i];
            assert(*task == tasks@[i as int]);
            let domain = self.classifier.classify(task);
            let solver = match route_domain(domain) {
                Some(s) => s,
                None => {
                    proof {
                        assert(step_fails(tasks@[i as int], all_estimates[i as int]));
                        assert forall|k: int| first_failing_step(tasks@, all_estimates, k) implies k == i by {
                            if k < i {
                                assert(!step_fails(tasks@[k], all_estimates[k]));
                            }
                            if k > i {
                                assert(!step_fails(tasks@[i as int], all_estimates[i as int]));
                            }
                        }
                    }
                    return Err(AgentError::UnknownDomain(domain_debug(domain)));
                },
            };
            let estimate = pending.remove(0);
            assert(estimate == all_estimates[i as int]);
            let step = solver.solve(task, estimate);
            let ghost before = results@;
            results = match workflow_step(results, step) {
                Ok(v) => v,
                Err(e) => {
                    proof {
                        assert(step_fails(tasks@[i as int], all_estimates[i as int]));
                        assert forall|k: int| first_failing_step(tasks@, all_estimates, k) implies k == i by {
                            if k < i {
                                assert(!step_fails(tasks@[k], all_estimates[k]));
                            }
                            if k > i {
                                assert(!step_fails(tasks@[i as int], all_estimates[i as int]));
                            }
                        }
                    }
                    return Err(e);
                },
            };
            assert(pending@ =~= all_estimates.subrange(i + 1, all_estimates.len() as int));
            assert forall|j: int| 0 <= j < i + 1 implies builtin_result(
                spec_route(task_domain(#[trigger] tasks@[j]))->0,
                tasks@[j],
                all_estimates[j],
                results@[j],
            ) by {
                if j < i {
                    assert(results@[j] == before[j]);
                }
            }
            i += 1;
        }
        Ok(self.aggregator.aggregate(results))
    }
}

impl Default for OrchestrationEngine {
    fn default() -> (e: Self)
        ensures
            e.classifier == WorkloadClassifier && e.aggregator == ResultAggregator,
    {
        OrchestrationEngine::new()
    }
}

} // verus!
