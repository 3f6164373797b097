//! Whole circuits assembled from gate lists and gate requests, and circuits
//! completed with a final measurement of every qubit.
use vstd::prelude::*;

use crate::circuit::builder::CircuitBuilder;
use crate::circuit::circuit::{all_below, Circuit};
use crate::circuit::error::CircuitError;
use crate::circuit::gate::{arity, Gate};
use crate::circuit::gate_spec::{
    add_to_builder, build_gate, read_gate_spec, spec_angle_text, spec_build_gate,
};
use crate::circuit::instruction::Instruction;
use crate::circuit::parser::{ops_view, oor_index, reader_gave};
use crate::text::{chars_of, split_on, split_words, words_of};

verus! {

/// Each instruction cut down to the qubits its gate acts on.
pub open spec fn arity_prefix(ops: Seq<(Gate, Seq<usize>)>) -> Seq<(Gate, Seq<usize>)> {
    ops.map_values(|p: (Gate, Seq<usize>)| (p.0, p.1.take(arity(p.0) as int)))
}

/// A measurement of each of the qubits 0 .. n, in order.
pub open spec fn measure_each(n: nat) -> Seq<(Gate, Seq<usize>)> {
    Seq::new(n, |k: int| (Gate::Measure, seq![k as usize]))
}

/// Every instruction has at least as many qubits as its gate acts on.
pub open spec fn enough_qubits(ops: Seq<Instruction>) -> bool {
    forall|i: int| 0 <= i < ops.len() ==> (#[trigger] ops[i]).qubits@.len() >= arity(ops[i].gate)
}

/// The circuit itself when it measures anything; otherwise the circuit
/// rebuilt (unnamed) with a measurement of every qubit at the end.
pub fn ensure_measured(circuit: Circuit) -> (res: Result<Circuit, CircuitError>)
    requires
        circuit.wf(),
        enough_qubits(circuit.ops()),
    ensures
        (exists|i: int| 0 <= i < circuit.ops().len() && #[trigger] circuit.ops()[i].gate == Gate::Measure) ==> res
            == Ok::<Circuit, CircuitError>(circuit),
        !(exists|i: int| 0 <= i < circuit.ops().len() && #[trigger] circuit.ops()[i].gate == Gate::Measure) ==> (res matches Ok(
            c,
        ) && c.wf() && c.spec_num_qubits() == circuit.spec_num_qubits() && c.spec_name() is None && ops_view(c.ops())
            == arity_prefix(ops_view(circuit.ops())) + measure_each(circuit.spec_num_qubits())),
{
    if circuit.has_measurements() {
        return Ok(circuit);
    }
    proof {
        circuit.lemma_wf();
    }
    let n = circuit.num_qubits();
    let ops = circuit.instructions();
    let ghost target = arity_prefix(ops_view(circuit.ops()));
    let mut builder = match CircuitBuilder::new(n) {
        Ok(b) => b,
        Err(e) => { return Err(e); },
    };
    assert(ops_view(builder.spec_circuit().ops()) =~= target.take(0));
    assert(target.len() == ops@.len());
    let mut k: usize = 0;
    while k < ops.len()
        invariant
            ops@ == circuit.ops(),
            n == circuit.spec_num_qubits(),
            enough_qubits(circuit.ops()),
            forall|i: int| 0 <= i < circuit.ops().len() ==> all_below(#[trigger] circuit.ops()[i].qubits@, n as nat),
            target == arity_prefix(ops_view(circuit.ops())),
            target.len() == ops@.len(),
            k <= ops@.len(),
            builder.spec_circuit().wf(),
            builder.spec_circuit().spec_num_qubits() == n,
            builder.spec_circuit().spec_name() is None,
            ops_view(builder.spec_circuit().ops()) == target.take(k as int),
        decreases ops@.len() - k,
    {
        let ghost before = builder.spec_circuit();
        let instr = &ops[k];
        assert(instr.qubits@.len() >= arity(instr.gate));
        let ghost qs = instr.qubits@.take(arity(instr.gate) as int);
        assert(all_below(qs, n as nat)) by {
            assert(all_below(circuit.ops()[k as int].qubits@, n as nat));
        }
        let r = add_to_builder(builder, &instr.gate, instr.qubits.as_slice());
        assert(crate::circuit::builder::add_outcome(before, instr.gate, qs, r));
        assert(r is Ok);
        builder = match r {
            Ok(b) => b,
            Err(e) => { return Err(e); },
        };
        proof {
            let after = builder.spec_circuit();
            assert(crate::circuit::builder::appended(before, after, instr.gate, qs));
            assert(ops_view(before.ops()).len() == before.ops().len());
            assert(before.ops().len() == k);
            assert(after.ops() == before.ops().push(after.ops().last())) by {
                assert(after.ops() =~= after.ops().take(before.ops().len() as int).push(after.ops().last()));
            }
            assert(ops@[k as int] == circuit.ops()[k as int]);
            assert(target[k as int] == (instr.gate, qs));
            assert forall|i: int| 0 <= i < k + 1 implies ops_view(after.ops())[i] == target.take(k + 1)[i] by {
                if i < k {
                    assert(after.ops()[i] == before.ops()[i]);
                    assert(ops_view(before.ops())[i] == target.take(k as int)[i]);
                }
            }
            assert(ops_view(after.ops()) =~= target.take(k + 1));
        }
        k += 1;
    }
    let ghost m = builder.spec_circuit().ops().len();
    let ghost before = builder.spec_circuit();
    let builder = match builder.measure_all() {
        Ok(b) => b,
        Err(e) => { return Err(e); },
    };
    let c = builder.build();
    proof {
        assert(target.take(ops@.len() as int) =~= target);
        assert(ops_view(c.ops()) =~= target + measure_each(n as nat)) by {
            assert forall|i: int| 0 <= i < ops_view(c.ops()).len() implies ops_view(c.ops())[i] == (target
                + measure_each(n as nat))[i] by {
                if i < m {
                    assert(c.ops()[i] == c.ops().take(m as int)[i]);
                    assert(before.ops()[i] == c.ops()[i]);
                } else {
                    let k = i - m;
                    assert(c.ops()[m + k].gate == Gate::Measure);
                }
            }
        }
    }
    Ok(c)
}

// ---------------------------------------------------------------------------
// Gate lists: gate specifications separated by `;`, blank ones skipped.
// ---------------------------------------------------------------------------

/// Why a gate list could not be turned into a circuit.
#[derive(Debug)]
pub enum GateListError {
    /// The circuit could not be made or a gate could not be added to it.
    Circuit(CircuitError),
    /// A gate specification is malformed.
    Gate(String),
}

/// Why reading a gate list stopped, in terms of the text.
pub enum ListFailure {
    /// A gate specification is malformed, with this message.
    Gate(Seq<char>),
    /// A gate names this qubit, the first it names that the circuit lacks.
    OutOfRange(usize),
}

/// Instructions read so far, extended by what one piece of a gate list
/// says, given what the angle reader made of its angle (if it read one).
pub open spec fn piece_step(ops: Seq<(Gate, Seq<usize>)>, piece: Seq<char>, angle: Option<u64>, n: nat) -> Result<
    Seq<(Gate, Seq<usize>)>,
    ListFailure,
> {
    if split_words(piece).len() == 0 {
        Ok(ops)
    } else {
        match read_gate_spec(piece, angle) {
            Err(m) => Err(ListFailure::Gate(m)),
            Ok((g, qs)) => if all_below(qs, n) {
                Ok(ops.push((g, qs)))
            } else {
                Err(ListFailure::OutOfRange(oor_index(qs, n)))
            },
        }
    }
}

/// Reading the pieces of a gate list in order into instructions on `n`
/// qubits, where `angles[k]` is what the angle reader made of piece k's
/// angle, if it read one.
pub open spec fn read_gate_list(pieces: Seq<Seq<char>>, n: nat, angles: Seq<Option<u64>>) -> Result<
    Seq<(Gate, Seq<usize>)>,
    ListFailure,
>
    decreases pieces.len(),
{
    if pieces.len() == 0 {
        Ok(Seq::empty())
    } else {
        let k = pieces.len() - 1;
        match read_gate_list(pieces.drop_last(), n, angles) {
            Err(e) => Err(e),
            Ok(ops) => piece_step(ops, pieces[k], angles[k], n),
        }
    }
}

/// `angles` records what the reader gave for the angle of every piece that
/// reading reached and read an angle for.
pub open spec fn list_angles_from<F: Fn(&str) -> Option<u64>>(
    f: F,
    pieces: Seq<Seq<char>>,
    n: nat,
    angles: Seq<Option<u64>>,
) -> bool {
    &&& angles.len() == pieces.len()
    &&& forall|k: int|
        0 <= k < pieces.len() && read_gate_list(pieces.take(k), n, angles) is Ok && (#[trigger] spec_angle_text(
            pieces[k],
        )) is Some ==> reader_gave(f, spec_angle_text(pieces[k])->0, angles[k])
}

/// `res` is what reading a gate list gave, for a circuit on `n` qubits.
pub open spec fn list_outcome(res: Result<Circuit, GateListError>, r: Result<Seq<(Gate, Seq<usize>)>, ListFailure>, n: nat) -> bool {
    match r {
        Ok(ops) => res matches Ok(c) && c.wf() && c.spec_num_qubits() == n && c.spec_name() is None && ops_view(c.ops())
            == ops,
        Err(ListFailure::Gate(m)) => res matches Err(GateListError::Gate(s)) && s@ == m,
        Err(ListFailure::OutOfRange(q)) => res == Err::<Circuit, GateListError>(
            GateListError::Circuit(CircuitError::QubitOutOfRange { index: q, num_qubits: n as usize }),
        ),
    }
}

proof fn lemma_list_angles_irrelevant(pieces: Seq<Seq<char>>, n: nat, a1: Seq<Option<u64>>, a2: Seq<Option<u64>>)
    requires
        forall|k: int| 0 <= k < pieces.len() ==> a1[k] == a2[k],
    ensures
        read_gate_list(pieces, n, a1) == read_gate_list(pieces, n, a2),
    decreases pieces.len(),
{
    if pieces.len() > 0 {
        lemma_list_angles_irrelevant(pieces.drop_last(), n, a1, a2);
    }
}

proof fn lemma_list_error_stays(pieces: Seq<Seq<char>>, n: nat, angles: Seq<Option<u64>>, m: int)
    requires
        0 <= m <= pieces.len(),
        read_gate_list(pieces.take(m), n, angles) is Err,
    ensures
        read_gate_list(pieces, n, angles) == read_gate_list(pieces.take(m), n, angles),
    decreases pieces.len(),
{
    if m == pieces.len() {
        assert(pieces.take(m) =~= pieces);
    } else {
        assert(pieces.drop_last().take(m) =~= pieces.take(m));
        lemma_list_error_stays(pieces.drop_last(), n, angles, m);
    }
}

proof fn lemma_list_finish<F: Fn(&str) -> Option<u64>>(
    f: F,
    pieces: Seq<Seq<char>>,
    n: nat,
    angles: Seq<Option<u64>>,
    m: int,
)
    requires
        0 <= m <= pieces.len(),
        list_angles_from(f, pieces.take(m), n, angles),
        read_gate_list(pieces.take(m), n, angles) is Err || m == pieces.len(),
    ensures
        exists|a2: Seq<Option<u64>>| #[trigger] list_angles_from(f, pieces, n, a2) && read_gate_list(pieces, n, a2)
            == read_gate_list(pieces.take(m), n, angles),
{
    let a2 = angles + Seq::new((pieces.len() - m) as nat, |i: int| None::<u64>);
    lemma_list_angles_irrelevant(pieces.take(m), n, a2, angles);
    if m == pieces.len() {
        assert(pieces.take(m) =~= pieces);
    } else {
        lemma_list_error_stays(pieces, n, a2, m);
    }
    assert forall|k: int|
        0 <= k < pieces.len() && read_gate_list(pieces.take(k), n, a2) is Ok && (#[trigger] spec_angle_text(
            pieces[k],
        )) is Some implies reader_gave(f, spec_angle_text(pieces[k])->0, a2[k]) by {
        if k < m {
            assert(pieces.take(m).take(k) =~= pieces.take(k));
            lemma_list_angles_irrelevant(pieces.take(k), n, a2, angles);
            assert(pieces.take(m)[k] == pieces[k]);
        } else {
            assert(pieces.take(k).take(m) =~= pieces.take(m));
            lemma_list_error_stays(pieces.take(k), n, a2, m);
        }
    }
    assert(list_angles_from(f, pieces, n, a2));
}

/// Reads one piece of a gate list into the builder.
fn take_piece<F: Fn(&str) -> Option<u64>>(builder: CircuitBuilder, piece: &Vec<char>, parse_angle: &F) -> (r: (
    Result<CircuitBuilder, GateListError>,
    Ghost<Option<u64>>,
))
    requires
        forall|t: &str| parse_angle.requires((t,)),
        builder.spec_circuit().wf(),
    ensures
        spec_angle_text(piece@) matches Some(t) ==> reader_gave(*parse_angle, t, r.1@),
        match piece_step(ops_view(builder.spec_circuit().ops()), piece@, r.1@, builder.spec_circuit().spec_num_qubits()) {
            Ok(ops) => r.0 matches Ok(b) && b.spec_circuit().wf() && b.spec_circuit().spec_num_qubits()
                == builder.spec_circuit().spec_num_qubits() && b.spec_circuit().spec_name()
                == builder.spec_circuit().spec_name() && ops_view(b.spec_circuit().ops()) == ops,
            Err(ListFailure::Gate(m)) => r.0 matches Err(GateListError::Gate(s)) && s@ == m,
            Err(ListFailure::OutOfRange(q)) => r.0 matches Err(GateListError::Circuit(e)) && e == (CircuitError::QubitOutOfRange {
                index: q,
                num_qubits: builder.spec_circuit().spec_num_qubits() as usize,
            }),
        },
{
    let words = words_of(piece);
    if words.len() == 0 {
        assert(split_words(piece@).len() == 0);
        return (Ok(builder), Ghost(None));
    }
    let ghost before = builder.spec_circuit();
    let (r, Ghost(a)) = crate::circuit::gate_spec::read_spec(piece, parse_angle);
    match r {
        Err(m) => (Err(GateListError::Gate(crate::text::string_of(&m))), Ghost(a)),
        Ok((g, qs)) => {
            assert(qs@.take(arity(g) as int) =~= qs@);
            match add_to_builder(builder, &g, qs.as_slice()) {
                Ok(b) => {
                    proof {
                        let after = b.spec_circuit();
                        assert(after.ops() =~= before.ops().push(after.ops().last()));
                        assert(ops_view(after.ops()) =~= ops_view(before.ops()).push((g, qs@)));
                    }
                    (Ok(b), Ghost(a))
                },
                Err(e) => {
                    proof {
                        crate::circuit::parser::lemma_first_out_of_range_unique(qs@, before.spec_num_qubits());
                    }
                    (Err(GateListError::Circuit(e)), Ghost(a))
                },
            }
        },
    }
}

/// The circuit on `num_qubits` qubits that a gate list describes: gate
/// specifications (as `parse_gate_str` reads them) separated by `;`, blank
/// ones skipped, stopping at the first that is malformed or names a missing
/// qubit.
pub fn circuit_from_gate_list<F: Fn(&str) -> Option<u64>>(num_qubits: usize, gates: &str, parse_angle: F) -> (res: Result<
    Circuit,
    GateListError,
>)
    requires
        forall|t: &str| parse_angle.requires((t,)),
    ensures
        num_qubits == 0 ==> res == Err::<Circuit, GateListError>(GateListError::Circuit(CircuitError::ZeroQubits)),
        num_qubits > 0 ==> exists|angles: Seq<Option<u64>>|
            #[trigger] list_angles_from(parse_angle, split_on(gates@, ';'), num_qubits as nat, angles) && list_outcome(
                res,
                read_gate_list(split_on(gates@, ';'), num_qubits as nat, angles),
                num_qubits as nat,
            ),
{
    let mut builder = match CircuitBuilder::new(num_qubits) {
        Ok(b) => b,
        Err(e) => { return Err(GateListError::Circuit(e)); },
    };
    let ghost nq = num_qubits as nat;
    let ghost pieces = split_on(gates@, ';');
    let chars = chars_of(gates);
    let n = chars.len();
    let mut piece: Vec<char> = Vec::new();
    let ghost mut done: Seq<Seq<char>> = Seq::empty();
    let ghost mut angles: Seq<Option<u64>> = Seq::empty();
    let mut i: usize = 0;
    assert(ops_view(builder.spec_circuit().ops()) =~= Seq::<(Gate, Seq<usize>)>::empty());
    while i < n
        invariant
            forall|t: &str| parse_angle.requires((t,)),
            pieces == split_on(gates@, ';'),
            chars@ == gates@,
            n == chars@.len(),
            i <= n,
            split_on(gates@.take(i as int), ';') == done.push(piece@),
            nq == num_qubits,
            num_qubits > 0,
            builder.spec_circuit().wf(),
            builder.spec_circuit().spec_num_qubits() == nq,
            builder.spec_circuit().spec_name() is None,
            list_angles_from(parse_angle, done, nq, angles),
            read_gate_list(done, nq, angles) == Ok::<Seq<(Gate, Seq<usize>)>, ListFailure>(
                ops_view(builder.spec_circuit().ops()),
            ),
        decreases n - i,
    {
        let ghost cur = gates@.take(i + 1);
        assert(cur.drop_last() =~= gates@.take(i as int));
        if chars[i] == ';' {
            proof {
                crate::text::lemma_split_on_prefix(gates@, ';', i as int);
            }
            let (r, Ghost(a)) = take_piece(builder, &piece, &parse_angle);
            let ghost done2 = done.push(piece@);
            let ghost angles2 = angles.push(a);
            proof {
                assert(done2.drop_last() =~= done);
                lemma_list_angles_irrelevant(done, nq, angles2, angles);
                assert forall|k: int|
                    0 <= k < done2.len() && read_gate_list(done2.take(k), nq, angles2) is Ok && (#[trigger] spec_angle_text(
                        done2[k],
                    )) is Some implies reader_gave(parse_angle, spec_angle_text(done2[k])->0, angles2[k]) by {
                    if k < done.len() {
                        assert(done2.take(k) =~= done.take(k));
                        lemma_list_angles_irrelevant(done.take(k), nq, angles2, angles);
                        assert(done2[k] == done[k]);
                    } else {
                        assert(done2[k] == piece@);
                    }
                }
            }
            builder = match r {
                Ok(b) => b,
                Err(e) => {
                    proof {
                        assert(pieces.take(done2.len() as int) == done2);
                        lemma_list_finish(parse_angle, pieces, nq, angles2, done2.len() as int);
                    }
                    return Err(e);
                },
            };
            proof {
                done = done2;
                angles = angles2;
            }
            piece = Vec::new();
            assert(split_on(cur, ';') =~= done.push(piece@));
        } else {
            piece.push(chars[i]);
            assert(split_on(cur, ';') =~= done.push(piece@));
        }
        i += 1;
    }
    proof {
        assert(gates@.take(n as int) =~= gates@);
    }
    let (r, Ghost(a)) = take_piece(builder, &piece, &parse_angle);
    let ghost done2 = done.push(piece@);
    let ghost angles2 = angles.push(a);
    proof {
        assert(done2.drop_last() =~= done);
        lemma_list_angles_irrelevant(done, nq, angles2, angles);
        assert forall|k: int|
            0 <= k < done2.len() && read_gate_list(done2.take(k), nq, angles2) is Ok && (#[trigger] spec_angle_text(
                done2[k],
            )) is Some implies reader_gave(parse_angle, spec_angle_text(done2[k])->0, angles2[k]) by {
            if k < done.len() {
                assert(done2.take(k) =~= done.take(k));
                lemma_list_angles_irrelevant(done.take(k), nq, angles2, angles);
                assert(done2[k] == done[k]);
            } else {
                assert(done2[k] == piece@);
            }
        }
        assert(pieces == done2);
        assert(pieces.take(pieces.len() as int) =~= pieces);
        lemma_list_finish(parse_angle, pieces, nq, angles2, pieces.len() as int);
    }
    match r {
        Ok(b) => Ok(b.build()),
        Err(e) => Err(e),
    }
}

// ---------------------------------------------------------------------------
// Gate requests: a gate by name, its qubits and an optional angle.
// ---------------------------------------------------------------------------

/// One gate of a circuit request.
pub struct GateRequest {
    /// Gate name, in any case.
    pub gate: String,
    /// The qubits it acts on.
    pub qubits: Vec<usize>,
    /// Bit pattern of the binary64 angle of a rotation.
    pub parameter: Option<u64>,
}

/// Why a circuit request was refused.
#[derive(Debug)]
pub enum RequestError {
    /// The circuit could not be made.
    InvalidCircuit(CircuitError),
    /// A gate name is unknown or a rotation lacks its angle.
    InvalidGate(String),
    /// A gate has the wrong number of qubits.
    InvalidInstruction(CircuitError),
    /// A gate names a qubit the circuit lacks.
    AddFailed(CircuitError),
}

/// Why reading gate requests stopped.
pub enum RequestFailure {
    /// Unknown gate or missing angle, with this message.
    Gate(Seq<char>),
    /// A gate acting on `expected` qubits was given `got`.
    Count(nat, nat),
    /// A gate names this qubit, the first it names that the circuit lacks.
    OutOfRange(usize),
}

/// Instructions read so far, extended by one gate request.
pub open spec fn request_step(ops: Seq<(Gate, Seq<usize>)>, req: GateRequest, n: nat) -> Result<
    Seq<(Gate, Seq<usize>)>,
    RequestFailure,
> {
    match spec_build_gate(req.gate@, req.qubits@, req.parameter) {
        Err(m) => Err(RequestFailure::Gate(m)),
        Ok((g, qs)) => if qs.len() != arity(g) {
            Err(RequestFailure::Count(arity(g), qs.len()))
        } else if !all_below(qs, n) {
            Err(RequestFailure::OutOfRange(oor_index(qs, n)))
        } else {
            Ok(ops.push((g, qs)))
        },
    }
}

/// Reading gate requests in order into instructions on `n` qubits.
pub open spec fn read_requests(reqs: Seq<GateRequest>, n: nat) -> Result<Seq<(Gate, Seq<usize>)>, RequestFailure>
    decreases reqs.len(),
{
    if reqs.len() == 0 {
        Ok(Seq::empty())
    } else {
        match read_requests(reqs.drop_last(), n) {
            Err(e) => Err(e),
            Ok(ops) => request_step(ops, reqs.last(), n),
        }
    }
}

/// `res` is what reading the requests gave, for a circuit on `n` qubits.
pub open spec fn request_outcome(res: Result<Circuit, RequestError>, r: Result<Seq<(Gate, Seq<usize>)>, RequestFailure>, n: nat) -> bool {
    match r {
        Ok(ops) => res matches Ok(c) && c.wf() && c.spec_num_qubits() == n && c.spec_name() is None && ops_view(c.ops())
            == ops,
        Err(RequestFailure::Gate(m)) => res matches Err(RequestError::InvalidGate(s)) && s@ == m,
        Err(RequestFailure::Count(e, g)) => res == Err::<Circuit, RequestError>(
            RequestError::InvalidInstruction(CircuitError::WrongQubitCount { expected: e as usize, got: g as usize }),
        ),
        Err(RequestFailure::OutOfRange(q)) => res == Err::<Circuit, RequestError>(
            RequestError::AddFailed(CircuitError::QubitOutOfRange { index: q, num_qubits: n as usize }),
        ),
    }
}

proof fn lemma_requests_error_stays(reqs: Seq<GateRequest>, n: nat, m: int)
    requires
        0 <= m <= reqs.len(),
        read_requests(reqs.take(m), n) is Err,
    ensures
        read_requests(reqs, n) == read_requests(reqs.take(m), n),
    decreases reqs.len(),
{
    if m == reqs.len() {
        assert(reqs.take(m) =~= reqs);
    } else {
        assert(reqs.drop_last().take(m) =~= reqs.take(m));
        lemma_requests_error_stays(reqs.drop_last(), n, m);
    }
}

/// The circuit on `num_qubits` qubits that a list of gate requests describes, in
/// order, stopping at the first request that names an unknown gate, lacks
/// an angle, has the wrong number of qubits or names a missing qubit.
pub fn circuit_from_requests(num_qubits: usize, requests: &Vec<GateRequest>) -> (res: Result<Circuit, RequestError>)
    ensures
        num_qubits == 0 ==> res == Err::<Circuit, RequestError>(RequestError::InvalidCircuit(CircuitError::ZeroQubits)),
        num_qubits > 0 ==> request_outcome(res, read_requests(requests@, num_qubits as nat), num_qubits as nat),
{
    let mut builder = match CircuitBuilder::new(num_qubits) {
        Ok(b) => b,
        Err(e) => { return Err(RequestError::InvalidCircuit(e)); },
    };
    let ghost nq = num_qubits as nat;
    assert(ops_view(builder.spec_circuit().ops()) =~= Seq::<(Gate, Seq<usize>)>::empty());
    assert(requests@.take(0) =~= Seq::<GateRequest>::empty());
    let mut k: usize = 0;
    while k < requests.len()
        invariant
            nq == num_qubits,
            num_qubits > 0,
            k <= requests@.len(),
            builder.spec_circuit().wf(),
            builder.spec_circuit().spec_num_qubits() == nq,
            builder.spec_circuit().spec_name() is None,
            read_requests(requests@.take(k as int), nq) == Ok::<Seq<(Gate, Seq<usize>)>, RequestFailure>(
                ops_view(builder.spec_circuit().ops()),
            ),
        decreases requests@.len() - k,
    {
        let req = &requests[k];
        let ghost before = builder.spec_circuit();
        let ghost pre = requests@.take(k as int);
        let ghost cur = requests@.take(k + 1);
        assert(cur.drop_last() =~= pre);
        assert(cur.last() == *req);
        let (g, qs) = match build_gate(req.gate.as_str(), req.qubits.as_slice(), req.parameter) {
            Ok(p) => p,
            Err(m) => {
                proof {
                    lemma_requests_error_stays(requests@, nq, k + 1);
                }
                return Err(RequestError::InvalidGate(m));
            },
        };
        let ghost qv = qs@;
        let instr = match Instruction::new(g, qs) {
            Ok(i) => i,
            Err(e) => {
                proof {
                    lemma_requests_error_stays(requests@, nq, k + 1);
                }
                return Err(RequestError::InvalidInstruction(e));
            },
        };
        assert(instr.qubits@.take(arity(g) as int) =~= qv);
        builder = match crate::circuit::gate_spec::builder_add_instruction(builder, instr) {
            Ok(b) => b,
            Err(e) => {
                proof {
                    crate::circuit::parser::lemma_first_out_of_range_unique(qv, nq);
                    lemma_requests_error_stays(requests@, nq, k + 1);
                }
                return Err(RequestError::AddFailed(e));
            },
        };
        proof {
            let after = builder.spec_circuit();
            assert(after.ops() =~= before.ops().push(after.ops().last()));
            assert(ops_view(after.ops()) =~= ops_view(before.ops()).push((g, qv)));
        }
        k += 1;
    }
    assert(requests@.take(requests@.len() as int) =~= requests@);
    Ok(builder.build())
}

} // verus!
