//! Rules-based workload classification and result aggregation for the
//! multi-agent orchestration layer.
pub mod aggregator;
pub mod classifier;
pub mod engine;
pub mod error;
pub mod router;
pub mod solver;
