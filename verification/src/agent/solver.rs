use std::collections::hash_map::RandomState;
use std::collections::HashMap;

use vstd::prelude::*;
use vstd::std_specs::hash::{builds_valid_hashers, obeys_key_model};

use crate::agent::classifier::{TaskDomain, TaskSpec};
use crate::agent::error::AgentError;

verus! {

/// Outcome of one solver run.
#[derive(Debug, Clone)]
pub struct SolverResult {
    pub solver_name: String,
    pub status: SolverStatus,
    pub output: String,
    pub metadata: HashMap<String, String>,
}

/// Completion status of a solver run.
#[derive(Debug, Clone, Copy, PartialEq, Eq, Structural)]
pub enum SolverStatus {
    Success,
    Partial,
    Failed,
}

/// What became of the circuit attached to a simulation task: it did not
/// parse, or it parsed and its resource estimate was encoded (or encoding it
/// failed).
#[derive(Debug, Clone, PartialEq, Eq)]
pub enum CircuitEstimate {
    InvalidCircuit,
    Encoded(String),
    EncodingFailed,
}

/// Handles simulation and resource-estimation tasks.
pub struct SimulationSolver;

/// Handles optimization tasks.
pub struct OptimizationSolver;

/// Handles verification and error-correction tasks.
pub struct VerificationSolver;

/// Output of the simulation solver for a task with or without a circuit.
pub open spec fn simulation_output(has_circuit: bool, estimate: CircuitEstimate) -> Seq<char> {
    if !has_circuit {
        "simulation completed (no circuit provided)"@
    } else {
        match estimate {
            CircuitEstimate::InvalidCircuit => "simulation completed (no valid circuit provided)"@,
            CircuitEstimate::Encoded(s) => s@,
            CircuitEstimate::EncodingFailed => "resource estimation completed"@,
        }
    }
}

/// `m` maps exactly one key, "task", to `value`.
pub open spec fn task_metadata(m: Map<String, String>, value: Seq<char>) -> bool {
    &&& m.len() == 1
    &&& exists|k: String| k@ == "task"@ && #[trigger] m.contains_key(k) && m[k]@ == value
}

/// Metadata recording the task description under "task".
fn task_metadata_map(description: &String) -> (m: HashMap<String, String>)
    ensures
        obeys_key_model::<String>() && builds_valid_hashers::<RandomState>() ==> task_metadata(m@, description@),
{
    let mut m: HashMap<String, String> = HashMap::new();
    let key = "task".to_owned();
    let value = description.clone();
    m.insert(key, value);
    proof {
        if obeys_key_model::<String>() && builds_valid_hashers::<RandomState>() {
            assert(m@ == Map::<String, String>::empty().insert(key, value));
            assert(m@.dom() =~= set![key]);
            assert(m@.contains_key(key));
        }
    }
    m
}

impl SimulationSolver {
    /// "SimulationSolver".
    pub fn name(&self) -> (n: &'static str)
        ensures
            n@ == "SimulationSolver"@,
    {
        "SimulationSolver"
    }

    /// Simulation and resource-estimation tasks.
    pub fn can_handle(&self, domain: TaskDomain) -> (b: bool)
        ensures
            b == (domain == TaskDomain::Simulation || domain == TaskDomain::ResourceEstimation),
    {
        match domain {
            TaskDomain::Simulation | TaskDomain::ResourceEstimation => true,
            _ => false,
        }
    }

    /// Successful result whose output reports on the attached circuit, given
    /// what became of it (ignored when the task has no circuit).
    pub fn solve_with(&self, task: &TaskSpec, estimate: CircuitEstimate) -> (res: Result<SolverResult, AgentError>)
        ensures
            res matches Ok(r) && r.solver_name@ == "SimulationSolver"@ && r.status == SolverStatus::Success
                && r.output@ == simulation_output(task.circuit_json is Some, estimate) && r.metadata@.len() == 0,
    {
        let output = if task.circuit_json.is_some() {
            match estimate {
                CircuitEstimate::InvalidCircuit => "simulation completed (no valid circuit provided)".to_owned(),
                CircuitEstimate::Encoded(s) => s,
                CircuitEstimate::EncodingFailed => "resource estimation completed".to_owned(),
            }
        } else {
            "simulation completed (no circuit provided)".to_owned()
        };
        let metadata: HashMap<String, String> = HashMap::new();
        Ok(SolverResult { solver_name: self.name().to_owned(), status: SolverStatus::Success, output, metadata })
    }
}

impl OptimizationSolver {
    /// "OptimizationSolver".
    pub fn name(&self) -> (n: &'static str)
        ensures
            n@ == "OptimizationSolver"@,
    {
        "OptimizationSolver"
    }

    /// Optimization tasks only.
    pub fn can_handle(&self, domain: TaskDomain) -> (b: bool)
        ensures
            b == (domain == TaskDomain::Optimization),
    {
        match domain {
            TaskDomain::Optimization => true,
            _ => false,
        }
    }

    /// Successful analysis recording the task description as metadata.
    pub fn solve(&self, task: &TaskSpec) -> (res: Result<SolverResult, AgentError>)
        ensures
            res matches Ok(r) && r.solver_name@ == "OptimizationSolver"@ && r.status == SolverStatus::Success
                && r.output@ == "optimization analysis completed"@ && (obeys_key_model::<String>()
                && builds_valid_hashers::<RandomState>() ==> task_metadata(r.metadata@, task.description@)),
    {
        let metadata = task_metadata_map(&task.description);
        Ok(SolverResult {
            solver_name: self.name().to_owned(),
            status: SolverStatus::Success,
            output: "optimization analysis completed".to_owned(),
            metadata,
        })
    }
}

impl VerificationSolver {
    /// "VerificationSolver".
    pub fn name(&self) -> (n: &'static str)
        ensures
            n@ == "VerificationSolver"@,
    {
        "VerificationSolver"
    }

    /// Verification and error-correction tasks.
    pub fn can_handle(&self, domain: TaskDomain) -> (b: bool)
        ensures
            b == (domain == TaskDomain::Verification || domain == TaskDomain::ErrorCorrection),
    {
        match domain {
            TaskDomain::Verification | TaskDomain::ErrorCorrection => true,
            _ => false,
        }
    }

    /// Successful analysis recording the task description as metadata.
    pub fn solve(&self, task: &TaskSpec) -> (res: Result<SolverResult, AgentError>)
        ensures
            res matches Ok(r) && r.solver_name@ == "VerificationSolver"@ && r.status == SolverStatus::Success
                && r.output@ == "verification analysis completed"@ && (obeys_key_model::<String>()
                && builds_valid_hashers::<RandomState>() ==> task_metadata(r.metadata@, task.description@)),
    {
        let metadata = task_metadata_map(&task.description);
        Ok(SolverResult {
            solver_name: self.name().to_owned(),
            status: SolverStatus::Success,
            output: "verification analysis completed".to_owned(),
            metadata,
        })
    }
}

} // verus!
