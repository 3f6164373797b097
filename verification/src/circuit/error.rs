use vstd::prelude::*;

use crate::text::{decimal, push_decimal, push_str, string_of};

verus! {

/// Errors raised while building or reading circuits.
#[derive(Debug, Clone, PartialEq, Eq)]
pub enum CircuitError {
    /// An instruction names a qubit the circuit does not have.
    QubitOutOfRange { index: usize, num_qubits: usize },
    /// An instruction has the wrong number of qubits for its gate.
    WrongQubitCount { expected: usize, got: usize },
    /// A circuit needs at least one qubit.
    ZeroQubits,
    /// The circuit text is malformed; the message names the line.
    ParseError(String),
    /// Encoding or decoding a circuit failed.
    SerializationError(String),
}

/// The message an error reads as.
pub open spec fn circuit_error_text(e: CircuitError) -> Seq<char> {
    match e {
        CircuitError::QubitOutOfRange { index, num_qubits } => "qubit index "@ + decimal(index as nat) + " out of range for "@
            + decimal(num_qubits as nat) + "-qubit circuit"@,
        CircuitError::WrongQubitCount { expected, got } => "gate requires "@ + decimal(expected as nat) + " qubits, got "@
            + decimal(got as nat),
        CircuitError::ZeroQubits => "circuit must have at least 1 qubit"@,
        CircuitError::ParseError(m) => "parse error: "@ + m@,
        CircuitError::SerializationError(m) => "serialization error: "@ + m@,
    }
}

impl CircuitError {
    /// The error's message, such as "qubit index 5 out of range for 2-qubit
    /// circuit" or "parse error: line 3: unknown gate 'FOO'".
    pub fn message(&self) -> (s: String)
        ensures
            s@ == circuit_error_text(*self),
    {
        let mut v: Vec<char> = Vec::new();
        match self {
            CircuitError::QubitOutOfRange { index, num_qubits } => {
                push_str(&mut v, "qubit index ");
                push_decimal(&mut v, *index as u128);
                push_str(&mut v, " out of range for ");
                push_decimal(&mut v, *num_qubits as u128);
                push_str(&mut v, "-qubit circuit");
            },
            CircuitError::WrongQubitCount { expected, got } => {
                push_str(&mut v, "gate requires ");
                push_decimal(&mut v, *expected as u128);
                push_str(&mut v, " qubits, got ");
                push_decimal(&mut v, *got as u128);
            },
            CircuitError::ZeroQubits => {
                push_str(&mut v, "circuit must have at least 1 qubit");
            },
            CircuitError::ParseError(m) => {
                push_str(&mut v, "parse error: ");
                push_str(&mut v, m.as_str());
            },
            CircuitError::SerializationError(m) => {
                push_str(&mut v, "serialization error: ");
                push_str(&mut v, m.as_str());
            },
        }
        string_of(&v)
    }
}

} // verus!
