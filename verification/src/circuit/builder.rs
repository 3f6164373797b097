use vstd::prelude::*;

use crate::circuit::circuit::{all_below, first_out_of_range, Circuit};
use crate::circuit::error::CircuitError;
use crate::circuit::gate::Gate;
use crate::circuit::instruction::Instruction;

verus! {

/// Fluent construction of a circuit, one gate at a time.
pub struct CircuitBuilder {
    circuit: Circuit,
}

/// `after` is `before` with one more instruction at the end, applying `g`
/// to the qubits `qs`.
pub open spec fn appended(before: Circuit, after: Circuit, g: Gate, qs: Seq<usize>) -> bool {
    &&& after.wf()
    &&& after.spec_num_qubits() == before.spec_num_qubits()
    &&& after.spec_name() == before.spec_name()
    &&& after.ops().len() == before.ops().len() + 1
    &&& after.ops().take(before.ops().len() as int) == before.ops()
    &&& after.ops().last().gate == g
    &&& after.ops().last().qubits@ == qs
}

/// Outcome of adding `g` on `qs` to a builder of `before`: the extended
/// builder when every qubit exists, otherwise the first missing qubit.
pub open spec fn add_outcome(before: Circuit, g: Gate, qs: Seq<usize>, res: Result<CircuitBuilder, CircuitError>) -> bool {
    if all_below(qs, before.spec_num_qubits()) {
        res matches Ok(b) && appended(before, b.spec_circuit(), g, qs)
    } else {
        res matches Err(CircuitError::QubitOutOfRange { index, num_qubits }) && num_qubits == before.spec_num_qubits()
            && first_out_of_range(qs, before.spec_num_qubits(), index)
    }
}

impl CircuitBuilder {
    /// The circuit built so far.
    pub closed spec fn spec_circuit(&self) -> Circuit {
        self.circuit
    }

    /// A builder for an empty circuit on `num_qubits` qubits (at least one).
    pub fn new(num_qubits: usize) -> (res: Result<Self, CircuitError>)
        ensures
            num_qubits == 0 ==> res == Err::<Self, CircuitError>(CircuitError::ZeroQubits),
            num_qubits > 0 ==> (res matches Ok(b) && b.spec_circuit().wf() && b.spec_circuit().spec_num_qubits()
                == num_qubits && b.spec_circuit().ops().len() == 0 && b.spec_circuit().spec_name() is None),
    {
        Ok(CircuitBuilder { circuit: Circuit::new(num_qubits)? })
    }

    fn add(self, gate: Gate, qubits: Vec<usize>) -> (res: Result<Self, CircuitError>)
        requires
            self.spec_circuit().wf(),
            qubits@.len() == crate::circuit::gate::arity(gate),
        ensures
            add_outcome(self.spec_circuit(), gate, qubits@, res),
    {
        let mut builder = self;
        let ghost before = builder.circuit;
        let instr = Instruction::new(gate, qubits)?;
        builder.circuit.add_instruction(instr)?;
        proof {
            assert(builder.circuit.ops().take(before.ops().len() as int) =~= before.ops());
        }
        Ok(builder)
    }

    /// Appends a Hadamard gate on `qubit`.
    pub fn h(self, qubit: usize) -> (res: Result<Self, CircuitError>)
        requires
            self.spec_circuit().wf(),
        ensures
            add_outcome(self.spec_circuit(), Gate::H, seq![qubit], res),
    {
        let qs = vec![qubit];
        assert(qs@ =~= seq![qubit]);
        self.add(Gate::H, qs)
    }

    /// Appends a Pauli X gate on `qubit`.
    pub fn x(self, qubit: usize) -> (res: Result<Self, CircuitError>)
        requires
            self.spec_circuit().wf(),
        ensures
            add_outcome(self.spec_circuit(), Gate::X, seq![qubit], res),
    {
        let qs = vec![qubit];
        assert(qs@ =~= seq![qubit]);
        self.add(Gate::X, qs)
    }

    /// Appends a Pauli Y gate on `qubit`.
    pub fn y(self, qubit: usize) -> (res: Result<Self, CircuitError>)
        requires
            self.spec_circuit().wf(),
        ensures
            add_outcome(self.spec_circuit(), Gate::Y, seq![qubit], res),
    {
        let qs = vec![qubit];
        assert(qs@ =~= seq![qubit]);
        self.add(Gate::Y, qs)
    }

    /// Appends a Pauli Z gate on `qubit`.
    pub fn z(self, qubit: usize) -> (res: Result<Self, CircuitError>)
        requires
            self.spec_circuit().wf(),
        ensures
            add_outcome(self.spec_circuit(), Gate::Z, seq![qubit], res),
    {
        let qs = vec![qubit];
        assert(qs@ =~= seq![qubit]);
        self.add(Gate::Z, qs)
    }

    /// Appends a phase (S) gate on `qubit`.
    pub fn s(self, qubit: usize) -> (res: Result<Self, CircuitError>)
        requires
            self.spec_circuit().wf(),
        ensures
            add_outcome(self.spec_circuit(), Gate::S, seq![qubit], res),
    {
        let qs = vec![qubit];
        assert(qs@ =~= seq![qubit]);
        self.add(Gate::S, qs)
    }

    /// Appends a T gate on `qubit`.
    pub fn t(self, qubit: usize) -> (res: Result<Self, CircuitError>)
        requires
            self.spec_circuit().wf(),
        ensures
            add_outcome(self.spec_circuit(), Gate::T, seq![qubit], res),
    {
        let qs = vec![qubit];
        assert(qs@ =~= seq![qubit]);
        self.add(Gate::T, qs)
    }

    /// Appends an X rotation on `qubit` by the angle with bit pattern `theta`.
    pub fn rx(self, qubit: usize, theta: u64) -> (res: Result<Self, CircuitError>)
        requires
            self.spec_circuit().wf(),
        ensures
            add_outcome(self.spec_circuit(), Gate::Rx(theta), seq![qubit], res),
    {
        let qs = vec![qubit];
        assert(qs@ =~= seq![qubit]);
        self.add(Gate::Rx(theta), qs)
    }

    /// Appends a Y rotation on `qubit` by the angle with bit pattern `theta`.
    pub fn ry(self, qubit: usize, theta: u64) -> (res: Result<Self, CircuitError>)
        requires
            self.spec_circuit().wf(),
        ensures
            add_outcome(self.spec_circuit(), Gate::Ry(theta), seq![qubit], res),
    {
        let qs = vec![qubit];
        assert(qs@ =~= seq![qubit]);
        self.add(Gate::Ry(theta), qs)
    }

    /// Appends a Z rotation on `qubit` by the angle with bit pattern `theta`.
    pub fn rz(self, qubit: usize, theta: u64) -> (res: Result<Self, CircuitError>)
        requires
            self.spec_circuit().wf(),
        ensures
            add_outcome(self.spec_circuit(), Gate::Rz(theta), seq![qubit], res),
    {
        let qs = vec![qubit];
        assert(qs@ =~= seq![qubit]);
        self.add(Gate::Rz(theta), qs)
    }

    /// Appends a CNOT with the given control and target.
    pub fn cnot(self, control: usize, target: usize) -> (res: Result<Self, CircuitError>)
        requires
            self.spec_circuit().wf(),
        ensures
            add_outcome(self.spec_circuit(), Gate::CNOT, seq![control, target], res),
    {
        let qs = vec![control, target];
        assert(qs@ =~= seq![control, target]);
        self.add(Gate::CNOT, qs)
    }

    /// Appends a CZ on the two qubits.
    pub fn cz(self, q1: usize, q2: usize) -> (res: Result<Self, CircuitError>)
        requires
            self.spec_circuit().wf(),
        ensures
            add_outcome(self.spec_circuit(), Gate::CZ, seq![q1, q2], res),
    {
        let qs = vec![q1, q2];
        assert(qs@ =~= seq![q1, q2]);
        self.add(Gate::CZ, qs)
    }

    /// Appends a measurement of `qubit`.
    pub fn measure(self, qubit: usize) -> (res: Result<Self, CircuitError>)
        requires
            self.spec_circuit().wf(),
        ensures
            add_outcome(self.spec_circuit(), Gate::Measure, seq![qubit], res),
    {
        let qs = vec![qubit];
        assert(qs@ =~= seq![qubit]);
        self.add(Gate::Measure, qs)
    }

    /// Appends a measurement of every qubit, in order; this cannot fail.
    pub fn measure_all(self) -> (res: Result<Self, CircuitError>)
        requires
            self.spec_circuit().wf(),
        ensures
            res matches Ok(b) && {
                let before = self.spec_circuit();
                let after = b.spec_circuit();
                let n = before.spec_num_qubits();
                let m = before.ops().len();
                &&& after.wf()
                &&& after.spec_num_qubits() == n
                &&& after.spec_name() == before.spec_name()
                &&& after.ops().len() == m + n
                &&& after.ops().take(m as int) == before.ops()
                &&& forall|k: int| 0 <= k < n ==> (#[trigger] after.ops()[m + k]).gate == Gate::Measure
                    && after.ops()[m + k].qubits@ == seq![k as usize]
            },
    {
        let mut builder = self;
        let ghost before = builder.circuit;
        let ghost m = before.ops().len();
        let n = builder.circuit.num_qubits();
        let mut q: usize = 0;
        while q < n
            invariant
                n == before.spec_num_qubits(),
                q <= n,
                builder.circuit.wf(),
                builder.circuit.spec_num_qubits() == n,
                builder.circuit.spec_name() == before.spec_name(),
                builder.circuit.ops().len() == m + q,
                builder.circuit.ops().take(m as int) == before.ops(),
                forall|k: int| 0 <= k < q ==> (#[trigger] builder.circuit.ops()[m + k]).gate == Gate::Measure
                    && builder.circuit.ops()[m + k].qubits@ == seq![k as usize],
            decreases n - q,
        {
            let qs = vec![q];
            assert(qs@ =~= seq![q]);
            let ghost prev = builder.circuit.ops();
            let instr = Instruction::new(Gate::Measure, qs)?;
            let r = builder.circuit.add_instruction(instr);
            assert(r is Ok);
            proof {
                let now = builder.circuit.ops();
                assert(now == prev.push(instr));
                assert(now.take(m as int) =~= prev.take(m as int));
                assert forall|k: int| 0 <= k < q + 1 implies (#[trigger] now[m + k]).gate == Gate::Measure
                    && now[m + k].qubits@ == seq![k as usize] by {
                    if k < q {
                        assert(now[m + k] == prev[m + k]);
                    }
                }
            }
            q += 1;
        }
        Ok(builder)
    }

    /// The finished circuit.
    pub fn build(self) -> (c: Circuit)
        ensures
            c == self.spec_circuit(),
    {
        self.circuit
    }
}

} // verus!
