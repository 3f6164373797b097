//! Quantum circuits: gates, instructions, circuits with their depth and gate
//! statistics, a fluent builder, and the line-oriented text format.
pub mod builder;
pub mod circuit;
pub mod error;
pub mod gate;
pub mod instruction;
pub mod parser;
pub mod gate_spec;
pub mod compose;
