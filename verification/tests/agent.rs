use std::collections::HashMap;

use quantaforge::agent::classifier::{TaskDomain, TaskSpec, WorkloadClassifier};

fn make_task(description: &str) -> TaskSpec {
    TaskSpec {
        description: description.to_string(),
        domain: None,
        circuit_json: None,
        parameters: HashMap::new(),
    }
}

fn make_task_with_domain(description: &str, domain: TaskDomain) -> TaskSpec {
    TaskSpec {
        description: description.to_string(),
        domain: Some(domain),
        circuit_json: None,
        parameters: HashMap::new(),
    }
}

#[test]
fn classifier_simulate() {
    let classifier = WorkloadClassifier::new();
    let task = make_task("simulate this circuit");
    assert_eq!(classifier.classify(&task), TaskDomain::Simulation);
}

#[test]
fn classifier_optimize() {
    let classifier = WorkloadClassifier::new();
    let task = make_task("optimize gate count");
    assert_eq!(classifier.classify(&task), TaskDomain::Optimization);
}

#[test]
fn classifier_verify() {
    let classifier = WorkloadClassifier::new();
    let task = make_task("verify correctness");
    assert_eq!(classifier.classify(&task), TaskDomain::Verification);
}

#[test]
fn classifier_error_correction() {
    let classifier = WorkloadClassifier::new();
    let task = make_task("error correction experiment");
    assert_eq!(classifier.classify(&task), TaskDomain::ErrorCorrection);
}

#[test]
fn classifier_explicit_domain_overrides() {
    let classifier = WorkloadClassifier::new();
    let task = make_task_with_domain("optimize gate count", TaskDomain::Verification);
    assert_eq!(classifier.classify(&task), TaskDomain::Verification);
}

// ── Further cases ─────────────────────────────────────────────────

use quantaforge::agent::aggregator::ResultAggregator;
use quantaforge::agent::classifier::{classify_description, contains_text};
use quantaforge::agent::error::AgentError;
use quantaforge::agent::solver::{
    CircuitEstimate, OptimizationSolver, SimulationSolver, SolverResult, SolverStatus, VerificationSolver,
};

#[test]
fn classifier_lowercases_before_matching() {
    let classifier = WorkloadClassifier::new();
    assert_eq!(classifier.classify(&make_task("OPTIMIZE gate count")), TaskDomain::Optimization);
    assert_eq!(classifier.classify(&make_task("Estimate the COST")), TaskDomain::ResourceEstimation);
    assert_eq!(classifier.classify(&make_task("do something unrelated")), TaskDomain::Simulation);
}

#[test]
fn keyword_groups_in_order() {
    // "run" (simulation) wins over "verify"
    assert_eq!(classify_description("verify and run"), TaskDomain::Simulation);
    assert_eq!(classify_description("surface code qec"), TaskDomain::ErrorCorrection);
    assert!(contains_text("abcdef", "cde"));
    assert!(!contains_text("abc", "abcd"));
    assert!(contains_text("abc", ""));
}

#[test]
fn builtin_solvers() {
    let task = make_task("optimize gate count");
    let r = OptimizationSolver.solve(&task).unwrap();
    assert_eq!(r.solver_name, "OptimizationSolver");
    assert_eq!(r.output, "optimization analysis completed");
    assert_eq!(r.metadata.get("task"), Some(&"optimize gate count".to_string()));
    assert_eq!(r.metadata.len(), 1);
    let v = VerificationSolver.solve(&task).unwrap();
    assert_eq!(v.output, "verification analysis completed");
    assert!(VerificationSolver.can_handle(TaskDomain::ErrorCorrection));
    assert!(!OptimizationSolver.can_handle(TaskDomain::Simulation));
    assert!(SimulationSolver.can_handle(TaskDomain::ResourceEstimation));
    let s = SimulationSolver.solve_with(&task, CircuitEstimate::EncodingFailed).unwrap();
    assert_eq!(s.output, "simulation completed (no circuit provided)");
    let mut with_circuit = make_task("simulate");
    with_circuit.circuit_json = Some("{}".to_string());
    let s = SimulationSolver.solve_with(&with_circuit, CircuitEstimate::InvalidCircuit).unwrap();
    assert_eq!(s.output, "simulation completed (no valid circuit provided)");
    let s = SimulationSolver.solve_with(&with_circuit, CircuitEstimate::Encoded("est".to_string())).unwrap();
    assert_eq!(s.output, "est");
    assert_eq!(s.status, SolverStatus::Success);
}

fn result(status: SolverStatus) -> SolverResult {
    SolverResult { solver_name: "s".to_string(), status, output: String::new(), metadata: HashMap::new() }
}

#[test]
fn aggregation_counts_and_summary() {
    let agg = ResultAggregator::new();
    let a = agg.aggregate(vec![
        result(SolverStatus::Success),
        result(SolverStatus::Failed),
        result(SolverStatus::Partial),
        result(SolverStatus::Success),
    ]);
    assert_eq!(a.total_steps, 4);
    assert_eq!(a.successful_steps, 2);
    assert_eq!(a.failed_steps, 1);
    assert!(a.successful_steps + a.failed_steps <= a.total_steps);
    assert_eq!(a.summary, "2/4 steps completed successfully");
    let empty = agg.aggregate(vec![]);
    assert_eq!(empty.summary, "0/0 steps completed successfully");
}

#[test]
fn agent_error_messages() {
    assert_eq!(AgentError::UnknownDomain("X".to_string()).message(), "unknown task domain: X");
    assert_eq!(AgentError::SolverFailure("a".to_string(), "b".to_string()).message(), "solver a failed: b");
    assert_eq!(AgentError::WorkflowStepFailed("e".to_string()).message(), "workflow step e failed");
}

use quantaforge::agent::engine::{workflow_step, OrchestrationEngine};
use quantaforge::agent::router::{domain_debug, route_domain, route_index, BuiltinSolver};

fn no_estimate() -> Result<CircuitEstimate, AgentError> {
    Ok(CircuitEstimate::InvalidCircuit)
}

fn estimation_failed() -> Result<CircuitEstimate, AgentError> {
    Err(AgentError::SolverFailure("SimulationSolver".to_string(), "no scheduler".to_string()))
}

#[test]
fn router_simulation_to_simulation_solver() {
    let solver = route_domain(TaskDomain::Simulation).unwrap();
    assert_eq!(solver.name(), "SimulationSolver");
}

#[test]
fn engine_process_task_success() {
    let engine = OrchestrationEngine::new();
    let task = make_task("simulate this circuit");
    let result = engine.process_task(task, no_estimate()).unwrap();
    assert_eq!(result.total_steps, 1);
    assert_eq!(result.successful_steps, 1);
    assert_eq!(result.failed_steps, 0);
    assert_eq!(result.outputs.len(), 1);
    assert_eq!(result.outputs[0].status, SolverStatus::Success);
}

#[test]
fn engine_process_workflow_three_tasks() {
    let engine = OrchestrationEngine::new();
    let tasks = vec![
        make_task("simulate this circuit"),
        make_task("optimize gate count"),
        make_task("verify correctness"),
    ];
    let result = engine.process_workflow(tasks, vec![no_estimate(), no_estimate(), no_estimate()]).unwrap();
    assert_eq!(result.total_steps, 3);
    assert_eq!(result.successful_steps, 3);
    assert_eq!(result.outputs.len(), 3);
}

#[test]
fn engine_unknown_domain_falls_back_to_simulation() {
    let engine = OrchestrationEngine::new();
    let task = make_task("do something unrelated");
    let result = engine.process_task(task, no_estimate()).unwrap();
    assert_eq!(result.total_steps, 1);
    assert_eq!(result.successful_steps, 1);
    assert_eq!(result.outputs[0].solver_name, "SimulationSolver");
}

#[test]
fn routing_covers_every_domain_in_solver_order() {
    assert_eq!(route_domain(TaskDomain::ResourceEstimation), Some(BuiltinSolver::Simulation));
    assert_eq!(route_domain(TaskDomain::Optimization), Some(BuiltinSolver::Optimization));
    assert_eq!(route_domain(TaskDomain::Verification), Some(BuiltinSolver::Verification));
    assert_eq!(route_domain(TaskDomain::ErrorCorrection), Some(BuiltinSolver::Verification));
    assert_eq!(domain_debug(TaskDomain::ErrorCorrection), "ErrorCorrection");
}

#[test]
fn route_index_picks_first_handler() {
    assert_eq!(route_index(&vec![]), None);
    assert_eq!(route_index(&vec![false, false]), None);
    assert_eq!(route_index(&vec![false, true, true]), Some(1));
}

#[test]
fn workflow_step_appends_or_reports_the_failure() {
    let ok = OptimizationSolver.solve(&make_task("optimize")).unwrap();
    let grown = workflow_step(Vec::new(), Ok(ok)).unwrap();
    assert_eq!(grown.len(), 1);
    let err = workflow_step(grown, Err(AgentError::UnknownDomain("X".to_string())));
    assert_eq!(err.unwrap_err(), AgentError::WorkflowStepFailed("unknown task domain: X".to_string()));
}

#[test]
fn engine_passes_estimation_errors_on() {
    let engine = OrchestrationEngine::new();
    let task = make_task("simulate this circuit");
    assert_eq!(engine.process_task(task, estimation_failed()).unwrap_err(), estimation_failed().unwrap_err());
    // Only the simulation solver uses the estimate.
    let task = make_task("optimize gate count");
    assert_eq!(engine.process_task(task, estimation_failed()).unwrap().outputs[0].solver_name, "OptimizationSolver");
    let tasks = vec![make_task("optimize gate count"), make_task("simulate this circuit"), make_task("verify")];
    let result = engine.process_workflow(tasks, vec![no_estimate(), estimation_failed(), no_estimate()]);
    assert_eq!(
        result.unwrap_err(),
        AgentError::WorkflowStepFailed("solver SimulationSolver failed: no scheduler".to_string())
    );
}
