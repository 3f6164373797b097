//! Verified core of a quantum error-correction and orchestration toolkit:
//! GF(2) parity-check matrices and LDPC/CSS codes, the rotated surface code
//! with syndrome extraction and greedy decoding, logical-qubit state
//! tracking, the rules-based workload classifier, and quantum circuits with
//! their text formats.
pub mod ldpc;
pub mod surface;
pub mod logical;
pub mod agent;
pub mod circuit;
pub mod text;
