use vstd::prelude::*;

use crate::circuit::error::CircuitError;
use crate::circuit::gate::{arity, Gate};

verus! {

/// A gate applied to specific qubits.
#[derive(Debug, Clone)]
pub struct Instruction {
    pub gate: Gate,
    pub qubits: Vec<usize>,
}

impl Instruction {
    /// An instruction, provided the number of qubits matches what `gate` acts on.
    pub fn new(gate: Gate, qubits: Vec<usize>) -> (res: Result<Self, CircuitError>)
        ensures
            qubits@.len() == arity(gate) ==> (res matches Ok(i) && i.gate == gate && i.qubits@ == qubits@),
            qubits@.len() != arity(gate) ==> res == Err::<Self, CircuitError>(CircuitError::WrongQubitCount {
                expected: arity(gate) as usize,
                got: qubits@.len() as usize,
            }),
    {
        let expected = gate.num_qubits();
        if qubits.len() != expected {
            return Err(CircuitError::WrongQubitCount { expected, got: qubits.len() });
        }
        Ok(Instruction { gate, qubits })
    }
}

} // verus!
