//! Logical qubits encoded in error-correcting codes, with state tracking for
//! logical gates and resource estimates.
pub mod error;
pub mod qubit;
pub mod operations;
