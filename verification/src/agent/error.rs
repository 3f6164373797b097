use vstd::prelude::*;

use crate::text::{push_str, string_of};

verus! {

/// Errors raised while orchestrating tasks.
#[derive(Debug, Clone, PartialEq, Eq)]
pub enum AgentError {
    /// No solver handles the task's domain.
    UnknownDomain(String),
    /// A solver failed: solver name and reason.
    SolverFailure(String, String),
    /// A workflow step failed.
    WorkflowStepFailed(String),
}

/// The message an error reads as.
pub open spec fn error_text(e: AgentError) -> Seq<char> {
    match e {
        AgentError::UnknownDomain(d) => "unknown task domain: "@ + d@,
        AgentError::SolverFailure(name, reason) => "solver "@ + name@ + " failed: "@ + reason@,
        AgentError::WorkflowStepFailed(step) => "workflow step "@ + step@ + " failed"@,
    }
}

impl AgentError {
    /// The error's message: "unknown task domain: <d>", "solver <name>
    /// failed: <reason>" or "workflow step <step> failed".
    pub fn message(&self) -> (s: String)
        ensures
            s@ == error_text(*self),
    {
        let mut v: Vec<char> = Vec::new();
        match self {
            AgentError::UnknownDomain(d) => {
                push_str(&mut v, "unknown task domain: ");
                push_str(&mut v, d.as_str());
            },
            AgentError::SolverFailure(name, reason) => {
                push_str(&mut v, "solver ");
                push_str(&mut v, name.as_str());
                push_str(&mut v, " failed: ");
                push_str(&mut v, reason.as_str());
            },
            AgentError::WorkflowStepFailed(step) => {
                push_str(&mut v, "workflow step ");
                push_str(&mut v, step.as_str());
                push_str(&mut v, " failed");
            },
        }
        string_of(&v)
    }
}

} // verus!
