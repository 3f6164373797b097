use vstd::prelude::*;

use crate::circuit::error::CircuitError;
use crate::circuit::gate::{clifford, Gate};
use crate::circuit::instruction::Instruction;

verus! {

/// A quantum circuit: a number of qubits, an ordered list of instructions
/// on them, and an optional name.
#[derive(Debug, Clone)]
pub struct Circuit {
    num_qubits: usize,
    instructions: Vec<Instruction>,
    name: Option<String>,
}

/// Every qubit named in `qs` is below `n`.
pub open spec fn all_below(qs: Seq<usize>, n: nat) -> bool {
    forall|i: int| 0 <= i < qs.len() ==> qs[i] < n
}

/// `q` is the first qubit of `qs` that is not below `n`.
pub open spec fn first_out_of_range(qs: Seq<usize>, n: nat, q: usize) -> bool {
    exists|i: int|
        0 <= i < qs.len() && #[trigger] qs[i] == q && q >= n && forall|k: int| 0 <= k < i ==> qs[k] < n
}

/// Largest of the first `m` entries of `s` (0 when `m` is 0).
pub open spec fn max_of(s: Seq<nat>, m: nat) -> nat
    decreases m,
{
    if m == 0 {
        0
    } else {
        let rest = max_of(s, (m - 1) as nat);
        if s[m - 1] > rest { s[m - 1] } else { rest }
    }
}

/// Largest layer among the first `m` qubits of `qs` (0 when `m` is 0).
pub open spec fn max_layer(layers: Seq<nat>, qs: Seq<usize>, m: nat) -> nat
    decreases m,
{
    if m == 0 {
        0
    } else {
        let rest = max_layer(layers, qs, (m - 1) as nat);
        let v = layers[qs[m - 1] as int];
        if v > rest { v } else { rest }
    }
}

/// Layer of each of the `n` qubits after the first `k` instructions: an
/// instruction lands one layer above the highest of its qubits, and moves
/// all of them there.
pub open spec fn qubit_layers(n: nat, ops: Seq<Instruction>, k: nat) -> Seq<nat>
    decreases k,
{
    if k == 0 {
        Seq::new(n, |q: int| 0nat)
    } else {
        let prev = qubit_layers(n, ops, (k - 1) as nat);
        let qs = ops[k - 1].qubits@;
        let layer = max_layer(prev, qs, qs.len()) + 1;
        Seq::new(n, |q: int| if qs.contains(q as usize) { layer } else { prev[q] })
    }
}

/// Depth of a circuit: the highest layer any qubit reaches.
pub open spec fn spec_depth(n: nat, ops: Seq<Instruction>) -> nat {
    max_of(qubit_layers(n, ops, ops.len()), n)
}

impl Circuit {
    /// Number of qubits.
    pub closed spec fn spec_num_qubits(&self) -> nat {
        self.num_qubits as nat
    }

    /// The instructions, in order.
    pub closed spec fn ops(&self) -> Seq<Instruction> {
        self.instructions@
    }

    /// The circuit's name, if it has one.
    pub closed spec fn spec_name(&self) -> Option<Seq<char>> {
        match self.name {
            Some(s) => Some(s@),
            None => None,
        }
    }

    /// At least one qubit, and every instruction acts on existing qubits.
    pub closed spec fn wf(&self) -> bool {
        &&& self.num_qubits >= 1
        &&& forall|i: int| 0 <= i < self.instructions@.len() ==> all_below(#[trigger] self.instructions@[i].qubits@, self.num_qubits as nat)
    }

    /// What well-formedness states.
    pub proof fn lemma_wf(&self)
        requires
            self.wf(),
        ensures
            self.spec_num_qubits() >= 1,
            forall|i: int| 0 <= i < self.ops().len() ==> all_below(#[trigger] self.ops()[i].qubits@, self.spec_num_qubits()),
    {
    }

    /// An empty, unnamed circuit on `num_qubits` qubits (at least one).
    pub fn new(num_qubits: usize) -> (res: Result<Self, CircuitError>)
        ensures
            num_qubits == 0 ==> res == Err::<Self, CircuitError>(CircuitError::ZeroQubits),
            num_qubits > 0 ==> (res matches Ok(c) && c.wf() && c.spec_num_qubits() == num_qubits && c.ops().len() == 0
                && c.spec_name() is None),
    {
        if num_qubits == 0 {
            return Err(CircuitError::ZeroQubits);
        }
        Ok(Circuit { num_qubits, instructions: Vec::new(), name: None })
    }

    /// An empty circuit on `num_qubits` qubits (at least one) with a name.
    pub fn with_name(num_qubits: usize, name: &str) -> (res: Result<Self, CircuitError>)
        ensures
            num_qubits == 0 ==> res == Err::<Self, CircuitError>(CircuitError::ZeroQubits),
            num_qubits > 0 ==> (res matches Ok(c) && c.wf() && c.spec_num_qubits() == num_qubits && c.ops().len() == 0
                && c.spec_name() == Some(name@)),
    {
        let mut c = Self::new(num_qubits)?;
        c.name = Some(name.to_owned());
        Ok(c)
    }

    /// Appends an instruction, provided all its qubits exist; otherwise
    /// reports the first qubit that does not and leaves the circuit as it was.
    pub fn add_instruction(&mut self, instr: Instruction) -> (res: Result<(), CircuitError>)
        requires
            old(self).wf(),
        ensures
            final(self).wf(),
            all_below(instr.qubits@, old(self).spec_num_qubits()) ==> res is Ok && final(self).ops() == old(
                self,
            ).ops().push(instr) && final(self).spec_num_qubits() == old(self).spec_num_qubits()
                && final(self).spec_name() == old(self).spec_name(),
            !all_below(instr.qubits@, old(self).spec_num_qubits()) ==> *final(self) == *old(self) && (res matches Err(
                CircuitError::QubitOutOfRange { index, num_qubits },
            ) && num_qubits == old(self).spec_num_qubits() && first_out_of_range(
                instr.qubits@,
                old(self).spec_num_qubits(),
                index,
            )),
    {
        let n = instr.qubits.len();
        let mut i: usize = 0;
        while i < n
            invariant
                self.wf(),
                n == instr.qubits@.len(),
                i <= n,
                forall|k: int| 0 <= k < i ==> instr.qubits@[k] < self.num_qubits,
            decreases n - i,
        {
            let q = instr.qubits[i];
            if q >= self.num_qubits {
                assert(instr.qubits@[i as int] == q);
                return Err(CircuitError::QubitOutOfRange { index: q, num_qubits: self.num_qubits });
            }
            i += 1;
        }
        let ghost before = self.instructions@;
        self.instructions.push(instr);
        assert forall|j: int| 0 <= j < self.instructions@.len() implies all_below(
            #[trigger] self.instructions@[j].qubits@,
            self.num_qubits as nat,
        ) by {
            if j < before.len() {
                assert(self.instructions@[j] == before[j]);
            }
        }
        Ok(())
    }

    /// The circuit's name, if it has one.
    pub fn name(&self) -> (r: &Option<String>)
        ensures
            match r {
                Some(s) => self.spec_name() == Some(s@),
                None => self.spec_name() is None,
            },
    {
        &self.name
    }

    /// Number of qubits.
    pub fn num_qubits(&self) -> (n: usize)
        ensures
            n == self.spec_num_qubits(),
    {
        self.num_qubits
    }

    /// The instructions, in order.
    pub fn instructions(&self) -> (s: &[Instruction])
        ensures
            s@ == self.ops(),
    {
        self.instructions.as_slice()
    }

    /// Circuit depth: the maximum number of layers any qubit takes part in,
    /// where each instruction sits one layer above the latest of its qubits.
    pub fn depth(&self) -> (d: usize)
        requires
            self.wf(),
        ensures
            d == spec_depth(self.spec_num_qubits(), self.ops()),
    {
        let n = self.num_qubits;
        let ops = &self.instructions;
        let mut qubit_depth: Vec<usize> = Vec::new();
        let mut q: usize = 0;
        while q < n
            invariant
                q <= n,
                qubit_depth@.len() == q,
                forall|j: int| 0 <= j < q ==> qubit_depth@[j] == 0,
            decreases n - q,
        {
            qubit_depth.push(0);
            q += 1;
        }
        assert(qubit_depth@.map_values(|v: usize| v as nat) =~= qubit_layers(n as nat, ops@, 0));
        let mut k: usize = 0;
        while k < ops.len()
            invariant
                self.wf(),
                n == self.num_qubits,
                ops@ == self.instructions@,
                k <= ops@.len(),
                qubit_depth@.len() == n,
                qubit_depth@.map_values(|v: usize| v as nat) == qubit_layers(n as nat, ops@, k as nat),
                forall|j: int| 0 <= j < n ==> qubit_depth@[j] <= k,
            decreases ops@.len() - k,
        {
            let qs = &ops[k].qubits;
            assert(all_below(qs@, n as nat)) by {
                assert(all_below(self.instructions@[k as int].qubits@, n as nat));
            }
            let ghost prev = qubit_layers(n as nat, ops@, k as nat);
            let mut top: usize = 0;
            let mut j: usize = 0;
            while j < qs.len()
                invariant
                    all_below(qs@, n as nat),
                    qubit_depth@.len() == n,
                    qubit_depth@.map_values(|v: usize| v as nat) == prev,
                    forall|t: int| 0 <= t < n ==> qubit_depth@[t] <= k,
                    j <= qs@.len(),
                    top == max_layer(prev, qs@, j as nat),
                    top <= k,
                decreases qs@.len() - j,
            {
                let v = qubit_depth[qs[j]];
                assert(prev[qs@[j as int] as int] == v);
                if v > top {
                    top = v;
                }
                j += 1;
            }
            assert(k < ops@.len());
            let layer = top + 1;
            let mut j: usize = 0;
            while j < qs.len()
                invariant
                    all_below(qs@, n as nat),
                    qubit_depth@.len() == n,
                    prev.len() == n,
                    layer == max_layer(prev, qs@, qs@.len()) + 1,
                    layer <= k + 1,
                    j <= qs@.len(),
                    forall|t: int| 0 <= t < n ==> #[trigger] qubit_depth@[t] as nat == if qs@.take(j as int).contains(t as usize) {
                        layer as nat
                    } else {
                        prev[t]
                    },
                    forall|t: int| 0 <= t < n ==> prev[t] <= k,
                decreases qs@.len() - j,
            {
                let target = qs[j];
                qubit_depth.set(target, layer);
                proof {
                    assert forall|t: int| 0 <= t < n implies #[trigger] qubit_depth@[t] as nat == if qs@.take(j + 1).contains(
                        t as usize,
                    ) {
                        layer as nat
                    } else {
                        prev[t]
                    } by {
                        assert(qs@.take(j + 1) =~= qs@.take(j as int).push(target));
                        if t == target as int {
                            assert(qs@.take(j + 1)[j as int] == target);
                        }
                    }
                }
                j += 1;
            }
            proof {
                assert(qs@.take(qs@.len() as int) =~= qs@);
                assert(qubit_depth@.map_values(|v: usize| v as nat) =~= qubit_layers(n as nat, ops@, (k + 1) as nat));
            }
            k += 1;
        }
        let mut best: usize = 0;
        let mut t: usize = 0;
        while t < n
            invariant
                qubit_depth@.len() == n,
                qubit_depth@.map_values(|v: usize| v as nat) == qubit_layers(n as nat, ops@, ops@.len()),
                t <= n,
                best == max_of(qubit_layers(n as nat, ops@, ops@.len()), t as nat),
            decreases n - t,
        {
            let v = qubit_depth[t];
            assert(qubit_layers(n as nat, ops@, ops@.len())[t as int] == v);
            if v > best {
                best = v;
            }
            t += 1;
        }
        best
    }

    /// Number of instructions.
    pub fn gate_count(&self) -> (n: usize)
        ensures
            n == self.ops().len(),
    {
        self.instructions.len()
    }

    /// Whether any instruction is a measurement.
    pub fn has_measurements(&self) -> (b: bool)
        ensures
            b == exists|i: int| 0 <= i < self.ops().len() && #[trigger] self.ops()[i].gate == Gate::Measure,
    {
        let mut i: usize = 0;
        while i < self.instructions.len()
            invariant
                i <= self.instructions@.len(),
                forall|k: int| 0 <= k < i ==> #[trigger] self.instructions@[k].gate != Gate::Measure,
            decreases self.instructions@.len() - i,
        {
            if self.instructions[i].gate.is_measurement() {
                return true;
            }
            i += 1;
        }
        false
    }

    /// Whether every instruction is a Clifford gate (H, S, X, Y, Z, CNOT, CZ)
    /// or a measurement.
    pub fn is_clifford_only(&self) -> (b: bool)
        ensures
            b == forall|i: int| 0 <= i < self.ops().len() ==> clifford(#[trigger] self.ops()[i].gate),
    {
        let mut i: usize = 0;
        while i < self.instructions.len()
            invariant
                i <= self.instructions@.len(),
                forall|k: int| 0 <= k < i ==> clifford(#[trigger] self.instructions@[k].gate),
            decreases self.instructions@.len() - i,
        {
            let ok = match self.instructions[i].gate {
                Gate::H | Gate::S | Gate::X | Gate::Y | Gate::Z | Gate::CNOT | Gate::CZ | Gate::Measure => true,
                _ => false,
            };
            if !ok {
                assert(!clifford(self.instructions@[i as int].gate));
                return false;
            }
            i += 1;
        }
        true
    }
}

proof fn lemma_max_layer_bound(layers: Seq<nat>, qs: Seq<usize>, m: nat, b: nat)
    requires
        m <= qs.len(),
        forall|j: int| 0 <= j < m ==> layers[qs[j] as int] <= b,
    ensures
        max_layer(layers, qs, m) <= b,
    decreases m,
{
    if m > 0 {
        lemma_max_layer_bound(layers, qs, (m - 1) as nat, b);
    }
}

proof fn lemma_max_of_bound(s: Seq<nat>, m: nat, b: nat)
    requires
        m <= s.len(),
        forall|j: int| 0 <= j < m ==> s[j] <= b,
    ensures
        max_of(s, m) <= b,
    decreases m,
{
    if m > 0 {
        lemma_max_of_bound(s, (m - 1) as nat, b);
    }
}

proof fn lemma_layers_bounded(n: nat, ops: Seq<Instruction>, k: nat)
    requires
        k <= ops.len(),
        forall|i: int| 0 <= i < ops.len() ==> all_below(#[trigger] ops[i].qubits@, n),
    ensures
        qubit_layers(n, ops, k).len() == n,
        forall|q: int| 0 <= q < n ==> #[trigger] qubit_layers(n, ops, k)[q] <= k,
    decreases k,
{
    if k > 0 {
        lemma_layers_bounded(n, ops, (k - 1) as nat);
        let prev = qubit_layers(n, ops, (k - 1) as nat);
        let qs = ops[k - 1].qubits@;
        assert(all_below(qs, n));
        lemma_max_layer_bound(prev, qs, qs.len(), (k - 1) as nat);
    }
}

/// A circuit is never deeper than it has instructions.
pub proof fn lemma_depth_at_most_gate_count(c: &Circuit)
    requires
        c.wf(),
    ensures
        spec_depth(c.spec_num_qubits(), c.ops()) <= c.ops().len(),
{
    c.lemma_wf();
    lemma_layers_bounded(c.spec_num_qubits(), c.ops(), c.ops().len());
    lemma_max_of_bound(qubit_layers(c.spec_num_qubits(), c.ops(), c.ops().len()), c.spec_num_qubits(), c.ops().len());
}

/// Number of the first `k` instructions that act on qubit `q`.
pub open spec fn gates_on(ops: Seq<Instruction>, q: usize, k: nat) -> nat
    decreases k,
{
    if k == 0 {
        0
    } else {
        gates_on(ops, q, (k - 1) as nat) + if ops[k - 1].qubits@.contains(q) {
            1nat
        } else {
            0nat
        }
    }
}

proof fn lemma_max_layer_ge(layers: Seq<nat>, qs: Seq<usize>, m: nat, t: int)
    requires
        0 <= t < m <= qs.len(),
    ensures
        max_layer(layers, qs, m) >= layers[qs[t] as int],
    decreases m,
{
    if t < m - 1 {
        lemma_max_layer_ge(layers, qs, (m - 1) as nat, t);
    }
}

proof fn lemma_max_of_ge(s: Seq<nat>, m: nat, q: int)
    requires
        0 <= q < m,
    ensures
        max_of(s, m) >= s[q],
    decreases m,
{
    if q < m - 1 {
        lemma_max_of_ge(s, (m - 1) as nat, q);
    }
}

/// An instruction moves all the qubits it acts on to one common layer,
/// strictly above the layer each of them had before it; every other qubit
/// keeps its layer.
pub proof fn lemma_instruction_layer(n: nat, ops: Seq<Instruction>, k: nat)
    requires
        k < ops.len(),
        forall|t: int| 0 <= t < ops[k as int].qubits@.len() ==> (#[trigger] ops[k as int].qubits@[t]) < n,
    ensures
        forall|a: int, b: int|
            0 <= a < ops[k as int].qubits@.len() && 0 <= b < ops[k as int].qubits@.len() ==> {
                &&& qubit_layers(n, ops, k + 1)[ops[k as int].qubits@[a] as int] == qubit_layers(n, ops, k + 1)[ops[k as int].qubits@[b] as int]
                &&& qubit_layers(n, ops, k + 1)[ops[k as int].qubits@[a] as int] > qubit_layers(n, ops, k)[ops[k as int].qubits@[b] as int]
            },
        forall|q: int|
            0 <= q < n && !ops[k as int].qubits@.contains(q as usize) ==> qubit_layers(n, ops, k + 1)[q] == qubit_layers(
                n,
                ops,
                k,
            )[q],
{
    let qs = ops[k as int].qubits@;
    let prev = qubit_layers(n, ops, k);
    assert(qubit_layers(n, ops, k + 1) == Seq::new(
        n,
        |q: int| if qs.contains(q as usize) { max_layer(prev, qs, qs.len()) + 1 } else { prev[q] },
    ));
    assert forall|a: int, b: int| 0 <= a < qs.len() && 0 <= b < qs.len() implies {
        &&& qubit_layers(n, ops, k + 1)[qs[a] as int] == qubit_layers(n, ops, k + 1)[qs[b] as int]
        &&& qubit_layers(n, ops, k + 1)[qs[a] as int] > prev[qs[b] as int]
    } by {
        assert(qs[a] < n && qs[b] < n);
        assert(qs.contains(qs[a]));
        assert(qs.contains(qs[b]));
        lemma_max_layer_ge(prev, qs, qs.len(), b);
    }
}

/// Every qubit's layer is at least the number of instructions that act on
/// it, so a circuit is at least as deep as the number of instructions on any
/// one of its qubits.
pub proof fn lemma_depth_counts_gates_per_qubit(n: nat, ops: Seq<Instruction>, q: usize)
    requires
        q < n,
    ensures
        spec_depth(n, ops) >= gates_on(ops, q, ops.len()),
{
    lemma_layer_counts_gates(n, ops, q, ops.len());
    lemma_max_of_ge(qubit_layers(n, ops, ops.len()), n, q as int);
}

proof fn lemma_layer_counts_gates(n: nat, ops: Seq<Instruction>, q: usize, k: nat)
    requires
        q < n,
        k <= ops.len(),
    ensures
        qubit_layers(n, ops, k)[q as int] >= gates_on(ops, q, k),
    decreases k,
{
    if k > 0 {
        let k1 = (k - 1) as nat;
        lemma_layer_counts_gates(n, ops, q, k1);
        let qs = ops[k1 as int].qubits@;
        let prev = qubit_layers(n, ops, k1);
        if qs.contains(q) {
            let t = choose|t: int| 0 <= t < qs.len() && qs[t] == q;
            lemma_max_layer_ge(prev, qs, qs.len(), t);
        }
    }
}

} // verus!
