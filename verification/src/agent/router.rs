use std::collections::hash_map::RandomState;

use vstd::prelude::*;
use vstd::std_specs::hash::{builds_valid_hashers, obeys_key_model};

use crate::agent::classifier::{spec_classify, spec_lowercase, TaskDomain, TaskSpec};
use crate::agent::error::AgentError;
use crate::agent::solver::{
    simulation_output, task_metadata, CircuitEstimate, OptimizationSolver, SimulationSolver, SolverResult,
    SolverStatus, VerificationSolver,
};
use crate::text::{push_str, string_of};

verus! {

/// The built-in solvers, in the order in which routing tries them.
#[derive(Debug, Clone, Copy, PartialEq, Eq, Structural)]
pub enum BuiltinSolver {
    Simulation,
    Optimization,
    Verification,
}

/// Whether built-in solver `s` handles tasks of `domain`.
pub open spec fn spec_handles(s: BuiltinSolver, domain: TaskDomain) -> bool {
    match s {
        BuiltinSolver::Simulation => domain == TaskDomain::Simulation || domain == TaskDomain::ResourceEstimation,
        BuiltinSolver::Optimization => domain == TaskDomain::Optimization,
        BuiltinSolver::Verification => domain == TaskDomain::Verification || domain == TaskDomain::ErrorCorrection,
    }
}

/// The first of Simulation, Optimization and Verification that handles
/// `domain`, if any.
pub open spec fn spec_route(domain: TaskDomain) -> Option<BuiltinSolver> {
    if spec_handles(BuiltinSolver::Simulation, domain) {
        Some(BuiltinSolver::Simulation)
    } else if spec_handles(BuiltinSolver::Optimization, domain) {
        Some(BuiltinSolver::Optimization)
    } else if spec_handles(BuiltinSolver::Verification, domain) {
        Some(BuiltinSolver::Verification)
    } else {
        None
    }
}

/// The name a built-in solver reports.
pub open spec fn builtin_name(s: BuiltinSolver) -> Seq<char> {
    match s {
        BuiltinSolver::Simulation => "SimulationSolver"@,
        BuiltinSolver::Optimization => "OptimizationSolver"@,
        BuiltinSolver::Verification => "VerificationSolver"@,
    }
}

/// The domain a task is processed under: its explicit domain, otherwise the
/// domain of its lower-cased description.
pub open spec fn task_domain(task: TaskSpec) -> TaskDomain {
    match task.domain {
        Some(explicit) => explicit,
        None => spec_classify(spec_lowercase(task.description@)),
    }
}

/// How a domain is written in messages (its variant name).
pub open spec fn domain_name(d: TaskDomain) -> Seq<char> {
    match d {
        TaskDomain::Simulation => "Simulation"@,
        TaskDomain::Optimization => "Optimization"@,
        TaskDomain::Verification => "Verification"@,
        TaskDomain::ErrorCorrection => "ErrorCorrection"@,
        TaskDomain::ResourceEstimation => "ResourceEstimation"@,
    }
}

/// `r` is what built-in solver `s` returns for `task`, given what the
/// resource estimation of the task's circuit gave (used by the simulation
/// solver only, which fails with the estimation's error).
pub open spec fn builtin_result(
    s: BuiltinSolver,
    task: TaskSpec,
    estimate: Result<CircuitEstimate, AgentError>,
    r: SolverResult,
) -> bool {
    &&& r.solver_name@ == builtin_name(s)
    &&& r.status == SolverStatus::Success
    &&& match s {
        BuiltinSolver::Simulation => estimate matches Ok(e) && r.output@ == simulation_output(
            task.circuit_json is Some,
            e,
        ) && r.metadata@.len() == 0,
        BuiltinSolver::Optimization => r.output@ == "optimization analysis completed"@ && (obeys_key_model::<
            String,
        >() && builds_valid_hashers::<RandomState>() ==> task_metadata(r.metadata@, task.description@)),
        BuiltinSolver::Verification => r.output@ == "verification analysis completed"@ && (obeys_key_model::<
            String,
        >() && builds_valid_hashers::<RandomState>() ==> task_metadata(r.metadata@, task.description@)),
    }
}

/// Solver `s` fails on a task: only the simulation solver does, when the
/// resource estimation failed.
pub open spec fn builtin_fails(s: BuiltinSolver, estimate: Result<CircuitEstimate, AgentError>) -> bool {
    s == BuiltinSolver::Simulation && estimate is Err
}

impl BuiltinSolver {
    /// "SimulationSolver", "OptimizationSolver" or "VerificationSolver".
    pub fn name(&self) -> (n: &'static str)
        ensures
            n@ == builtin_name(*self),
    {
        match self {
            BuiltinSolver::Simulation => SimulationSolver.name(),
            BuiltinSolver::Optimization => OptimizationSolver.name(),
            BuiltinSolver::Verification => VerificationSolver.name(),
        }
    }

    /// Whether this solver handles tasks of `domain`.
    pub fn can_handle(&self, domain: TaskDomain) -> (b: bool)
        ensures
            b == spec_handles(*self, domain),
    {
        match self {
            BuiltinSolver::Simulation => SimulationSolver.can_handle(domain),
            BuiltinSolver::Optimization => OptimizationSolver.can_handle(domain),
            BuiltinSolver::Verification => VerificationSolver.can_handle(domain),
        }
    }

    /// Runs this solver on `task`. The simulation solver reports on the
    /// given resource estimate, or fails with the error the estimation gave.
    pub fn solve(&self, task: &TaskSpec, estimate: Result<CircuitEstimate, AgentError>) -> (res: Result<
        SolverResult,
        AgentError,
    >)
        ensures
            !builtin_fails(*self, estimate) ==> (res matches Ok(r) && builtin_result(*self, *task, estimate, r)),
            builtin_fails(*self, estimate) ==> res == Err::<SolverResult, AgentError>(estimate->Err_0),
    {
        match self {
            BuiltinSolver::Simulation => match estimate {
                Ok(e) => SimulationSolver.solve_with(task, e),
                Err(err) => Err(err),
            },
            BuiltinSolver::Optimization => OptimizationSolver.solve(task),
            BuiltinSolver::Verification => VerificationSolver.solve(task),
        }
    }
}

/// The first built-in solver that handles `domain`.
pub fn route_domain(domain: TaskDomain) -> (s: Option<BuiltinSolver>)
    ensures
        s == spec_route(domain),
{
    if BuiltinSolver::Simulation.can_handle(domain) {
        Some(BuiltinSolver::Simulation)
    } else if BuiltinSolver::Optimization.can_handle(domain) {
        Some(BuiltinSolver::Optimization)
    } else if BuiltinSolver::Verification.can_handle(domain) {
        Some(BuiltinSolver::Verification)
    } else {
        None
    }
}

/// Position of the first solver that handles the domain, given for each
/// registered solver, in order, whether it does.
pub fn route_index(handles: &Vec<bool>) -> (r: Option<usize>)
    ensures
        r is None <==> forall|i: int| 0 <= i < handles@.len() ==> !handles@[i],
        r matches Some(i) ==> i < handles@.len() && handles@[i as int] && forall|j: int| 0 <= j < i ==> !handles@[j],
{
    let mut i: usize = 0;
    while i < handles.len()
        invariant
            i <= handles@.len(),
            forall|j: int| 0 <= j < i ==> !handles@[j],
        decreases handles@.len() - i,
    {
        if handles[i] {
            return Some(i);
        }
        i += 1;
    }
    None
}

/// The variant name of a domain, as error messages write it.
pub fn domain_debug(d: TaskDomain) -> (s: String)
    ensures
        s@ == domain_name(d),
{
    let mut v: Vec<char> = Vec::new();
    match d {
        TaskDomain::Simulation => push_str(&mut v, "Simulation"),
        TaskDomain::Optimization => push_str(&mut v, "Optimization"),
        TaskDomain::Verification => push_str(&mut v, "Verification"),
        TaskDomain::ErrorCorrection => push_str(&mut v, "ErrorCorrection"),
        TaskDomain::ResourceEstimation => push_str(&mut v, "ResourceEstimation"),
    }
    string_of(&v)
}

/// Every domain has a built-in solver.
pub proof fn lemma_every_domain_routed(domain: TaskDomain)
    ensures
        spec_route(domain) is Some,
        spec_handles(spec_route(domain)->0, domain),
{
}

} // verus!
