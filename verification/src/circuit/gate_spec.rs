//! Gates written one at a time: the `GATE q [q2 | angle]` specifications of
//! a semicolon-separated gate list, and gates given by name, qubits and an
//! optional angle.
use vstd::prelude::*;

use crate::circuit::builder::{add_outcome, CircuitBuilder};
use crate::circuit::error::CircuitError;
use crate::circuit::gate::{arity, Gate};
use crate::circuit::instruction::Instruction;
use crate::circuit::parser::{reader_gave, rotation_gate, rotation_name};
use crate::text::{
    eq_str, parse_usize, push_chars, push_str, spec_parse_usize, spec_uppercase, split_words, string_of, uppercase,
    views, words_of,
};

verus! {

/// A one-qubit gate without an angle, by upper-case name; a measurement is
/// written `MEASURE` or `M`.
pub open spec fn single_gate(name: Seq<char>) -> Option<Gate> {
    if name == "H"@ {
        Some(Gate::H)
    } else if name == "X"@ {
        Some(Gate::X)
    } else if name == "Y"@ {
        Some(Gate::Y)
    } else if name == "Z"@ {
        Some(Gate::Z)
    } else if name == "S"@ {
        Some(Gate::S)
    } else if name == "T"@ {
        Some(Gate::T)
    } else if name == "MEASURE"@ || name == "M"@ {
        Some(Gate::Measure)
    } else {
        None
    }
}

/// The qubit index in word `k`, or the message for a missing or invalid one.
pub open spec fn index_word(w: Seq<Seq<char>>, k: int, missing: Seq<char>, invalid: Seq<char>) -> Result<usize, Seq<char>> {
    if w.len() <= k {
        Err(missing)
    } else {
        match spec_parse_usize(w[k]) {
            Some(q) => Ok(q),
            None => Err(invalid),
        }
    }
}

/// The angle text of a rotation specification that gets as far as reading
/// its angle.
pub open spec fn spec_angle_text(token: Seq<char>) -> Option<Seq<char>> {
    let w = split_words(token);
    if w.len() > 0 && single_gate(spec_uppercase(w[0])) is None && rotation_name(spec_uppercase(w[0])) && index_word(
        w,
        1,
        "Missing qubit index"@,
        "Invalid qubit index"@,
    ) is Ok && w.len() > 2 {
        Some(w[2])
    } else {
        None
    }
}

/// What a gate specification says, given what the angle reader made of its
/// angle text (if it got that far): a gate and its qubits, or a message.
pub open spec fn read_gate_spec(token: Seq<char>, angle: Option<u64>) -> Result<(Gate, Seq<usize>), Seq<char>> {
    let w = split_words(token);
    if w.len() == 0 {
        Err("Empty gate specification"@)
    } else {
        let name = spec_uppercase(w[0]);
        if single_gate(name) is Some {
            match index_word(w, 1, "Missing qubit index"@, "Invalid qubit index"@) {
                Err(m) => Err(m),
                Ok(q) => Ok((single_gate(name)->0, seq![q])),
            }
        } else if rotation_name(name) {
            match index_word(w, 1, "Missing qubit index"@, "Invalid qubit index"@) {
                Err(m) => Err(m),
                Ok(q) => if w.len() <= 2 {
                    Err("Missing angle parameter"@)
                } else {
                    match angle {
                        None => Err("Invalid angle"@),
                        Some(a) => Ok((rotation_gate(name, a), seq![q])),
                    }
                },
            }
        } else if name == "CNOT"@ || name == "CX"@ {
            match index_word(w, 1, "Missing control qubit"@, "Invalid control qubit"@) {
                Err(m) => Err(m),
                Ok(c) => match index_word(w, 2, "Missing target qubit"@, "Invalid target qubit"@) {
                    Err(m) => Err(m),
                    Ok(t) => Ok((Gate::CNOT, seq![c, t])),
                },
            }
        } else if name == "CZ"@ {
            match index_word(w, 1, "Missing first qubit"@, "Invalid qubit"@) {
                Err(m) => Err(m),
                Ok(q1) => match index_word(w, 2, "Missing second qubit"@, "Invalid qubit"@) {
                    Err(m) => Err(m),
                    Ok(q2) => Ok((Gate::CZ, seq![q1, q2])),
                },
            }
        } else {
            Err("Unknown gate: "@ + name)
        }
    }
}

/// `res` is what reading a specification gave.
pub open spec fn gate_spec_outcome(res: Result<(Gate, Vec<usize>), String>, r: Result<(Gate, Seq<usize>), Seq<char>>) -> bool {
    match r {
        Ok((g, qs)) => res matches Ok(p) && p.0 == g && p.1@ == qs,
        Err(m) => res matches Err(s) && s@ == m,
    }
}

fn index_word_exec(words: &Vec<Vec<char>>, k: usize, missing: &str, invalid: &str) -> (r: Result<usize, Vec<char>>)
    ensures
        match index_word(views(words@), k as int, missing@, invalid@) {
            Ok(q) => r == Ok::<usize, Vec<char>>(q),
            Err(m) => r matches Err(v) && v@ == m,
        },
{
    if words.len() <= k {
        let mut m: Vec<char> = Vec::new();
        push_str(&mut m, missing);
        return Err(m);
    }
    assert(views(words@)[k as int] == words@[k as int]@);
    match parse_usize(&words[k]) {
        Some(q) => Ok(q),
        None => {
            let mut m: Vec<char> = Vec::new();
            push_str(&mut m, invalid);
            Err(m)
        },
    }
}

fn message(s: &str) -> (v: Vec<char>)
    ensures
        v@ == s@,
{
    let mut v: Vec<char> = Vec::new();
    push_str(&mut v, s);
    assert(v@ =~= s@);
    v
}

pub(crate) fn read_spec<F: Fn(&str) -> Option<u64>>(chars: &Vec<char>, parse_angle: &F) -> (r: (
    Result<(Gate, Vec<usize>), Vec<char>>,
    Ghost<Option<u64>>,
))
    requires
        forall|t: &str| parse_angle.requires((t,)),
    ensures
        spec_angle_text(chars@) matches Some(t) ==> reader_gave(*parse_angle, t, r.1@),
        match read_gate_spec(chars@, r.1@) {
            Ok((g, qs)) => r.0 matches Ok(p) && p.0 == g && p.1@ == qs && qs.len() == arity(g),
            Err(m) => r.0 matches Err(v) && v@ == m,
        },
{
    let words = words_of(chars);
    if words.len() == 0 {
        return (Err(message("Empty gate specification")), Ghost(None));
    }
    assert(views(words@)[0] == words@[0]@);
    let name = uppercase(&words[0]);
    let single = if eq_str(&name, "H") {
        Some(Gate::H)
    } else if eq_str(&name, "X") {
        Some(Gate::X)
    } else if eq_str(&name, "Y") {
        Some(Gate::Y)
    } else if eq_str(&name, "Z") {
        Some(Gate::Z)
    } else if eq_str(&name, "S") {
        Some(Gate::S)
    } else if eq_str(&name, "T") {
        Some(Gate::T)
    } else if eq_str(&name, "MEASURE") || eq_str(&name, "M") {
        Some(Gate::Measure)
    } else {
        None
    };
    assert(single == single_gate(name@));
    if let Some(g) = single {
        return match index_word_exec(&words, 1, "Missing qubit index", "Invalid qubit index") {
            Err(m) => (Err(m), Ghost(None)),
            Ok(q) => {
                let qs = vec![q];
                assert(qs@ =~= seq![q]);
                (Ok((g, qs)), Ghost(None))
            },
        };
    }
    if eq_str(&name, "RX") || eq_str(&name, "RY") || eq_str(&name, "RZ") {
        let q = match index_word_exec(&words, 1, "Missing qubit index", "Invalid qubit index") {
            Err(m) => { return (Err(m), Ghost(None)); },
            Ok(q) => q,
        };
        if words.len() <= 2 {
            return (Err(message("Missing angle parameter")), Ghost(None));
        }
        assert(views(words@)[2] == words@[2]@);
        let text = string_of(&words[2]);
        let a = parse_angle(text.as_str());
        return match a {
            None => (Err(message("Invalid angle")), Ghost(a)),
            Some(bits) => {
                let g = if eq_str(&name, "RX") {
                    Gate::Rx(bits)
                } else if eq_str(&name, "RY") {
                    Gate::Ry(bits)
                } else {
                    Gate::Rz(bits)
                };
                let qs = vec![q];
                assert(qs@ =~= seq![q]);
                (Ok((g, qs)), Ghost(a))
            },
        };
    }
    if eq_str(&name, "CNOT") || eq_str(&name, "CX") {
        let c = match index_word_exec(&words, 1, "Missing control qubit", "Invalid control qubit") {
            Err(m) => { return (Err(m), Ghost(None)); },
            Ok(c) => c,
        };
        let t = match index_word_exec(&words, 2, "Missing target qubit", "Invalid target qubit") {
            Err(m) => { return (Err(m), Ghost(None)); },
            Ok(t) => t,
        };
        let qs = vec![c, t];
        assert(qs@ =~= seq![c, t]);
        return (Ok((Gate::CNOT, qs)), Ghost(None));
    }
    if eq_str(&name, "CZ") {
        let q1 = match index_word_exec(&words, 1, "Missing first qubit", "Invalid qubit") {
            Err(m) => { return (Err(m), Ghost(None)); },
            Ok(q) => q,
        };
        let q2 = match index_word_exec(&words, 2, "Missing second qubit", "Invalid qubit") {
            Err(m) => { return (Err(m), Ghost(None)); },
            Ok(q) => q,
        };
        let qs = vec![q1, q2];
        assert(qs@ =~= seq![q1, q2]);
        return (Ok((Gate::CZ, qs)), Ghost(None));
    }
    let mut m = message("Unknown gate: ");
    push_chars(&mut m, &name);
    (Err(m), Ghost(None))
}

/// Reads one gate specification, `GATE q` for the one-qubit gates (a
/// measurement as `MEASURE q` or `M q`), `RX q angle` (likewise RY, RZ) and `CNOT c t` / `CX c t` / `CZ q1 q2`,
/// with names in any case and extra words ignored; `parse_angle`
/// turns an angle's text into the bit pattern of its binary64 value, or
/// `None` when it is not a number.
pub fn parse_gate_str<F: Fn(&str) -> Option<u64>>(token: &str, parse_angle: &F) -> (res: Result<(Gate, Vec<usize>), String>)
    requires
        forall|t: &str| parse_angle.requires((t,)),
    ensures
        exists|a: Option<u64>|
            (spec_angle_text(token@) matches Some(t) ==> reader_gave(*parse_angle, t, a)) && #[trigger] gate_spec_outcome(
                res,
                read_gate_spec(token@, a),
            ),
{
    let chars = crate::text::chars_of(token);
    let (r, Ghost(a)) = read_spec(&chars, parse_angle);
    let res = match r {
        Ok(p) => Ok(p),
        Err(m) => Err(string_of(&m)),
    };
    assert(gate_spec_outcome(res, read_gate_spec(token@, a)));
    res
}

/// What a gate named `name` (in any case) on `qubits`, with an optional
/// angle, stands for: a gate and the qubits as given, or a message.
pub open spec fn spec_build_gate(name: Seq<char>, qubits: Seq<usize>, parameter: Option<u64>) -> Result<
    (Gate, Seq<usize>),
    Seq<char>,
> {
    let n = spec_uppercase(name);
    if n == "H"@ {
        Ok((Gate::H, qubits))
    } else if n == "X"@ {
        Ok((Gate::X, qubits))
    } else if n == "Y"@ {
        Ok((Gate::Y, qubits))
    } else if n == "Z"@ {
        Ok((Gate::Z, qubits))
    } else if n == "S"@ {
        Ok((Gate::S, qubits))
    } else if n == "T"@ {
        Ok((Gate::T, qubits))
    } else if n == "RX"@ {
        match parameter {
            None => Err("RX requires a parameter"@),
            Some(t) => Ok((Gate::Rx(t), qubits)),
        }
    } else if n == "RY"@ {
        match parameter {
            None => Err("RY requires a parameter"@),
            Some(t) => Ok((Gate::Ry(t), qubits)),
        }
    } else if n == "RZ"@ {
        match parameter {
            None => Err("RZ requires a parameter"@),
            Some(t) => Ok((Gate::Rz(t), qubits)),
        }
    } else if n == "CNOT"@ || n == "CX"@ {
        Ok((Gate::CNOT, qubits))
    } else if n == "CZ"@ {
        Ok((Gate::CZ, qubits))
    } else if n == "MEASURE"@ {
        Ok((Gate::Measure, qubits))
    } else {
        Err("Unknown gate: "@ + n)
    }
}

/// A gate named `name` (in any case) on `qubits`; rotations take the bit
/// pattern of their angle from `parameter`. The number of qubits is not
/// checked here.
pub fn build_gate(name: &str, qubits: &[usize], parameter: Option<u64>) -> (res: Result<(Gate, Vec<usize>), String>)
    ensures
        gate_spec_outcome(res, spec_build_gate(name@, qubits@, parameter)),
{
    let chars = crate::text::chars_of(name);
    let n = uppercase(&chars);
    let qs = vstd::slice::slice_to_vec(qubits);
    if eq_str(&n, "H") {
        Ok((Gate::H, qs))
    } else if eq_str(&n, "X") {
        Ok((Gate::X, qs))
    } else if eq_str(&n, "Y") {
        Ok((Gate::Y, qs))
    } else if eq_str(&n, "Z") {
        Ok((Gate::Z, qs))
    } else if eq_str(&n, "S") {
        Ok((Gate::S, qs))
    } else if eq_str(&n, "T") {
        Ok((Gate::T, qs))
    } else if eq_str(&n, "RX") {
        match parameter {
            None => Err(string_of(&message("RX requires a parameter"))),
            Some(t) => Ok((Gate::Rx(t), qs)),
        }
    } else if eq_str(&n, "RY") {
        match parameter {
            None => Err(string_of(&message("RY requires a parameter"))),
            Some(t) => Ok((Gate::Ry(t), qs)),
        }
    } else if eq_str(&n, "RZ") {
        match parameter {
            None => Err(string_of(&message("RZ requires a parameter"))),
            Some(t) => Ok((Gate::Rz(t), qs)),
        }
    } else if eq_str(&n, "CNOT") || eq_str(&n, "CX") {
        Ok((Gate::CNOT, qs))
    } else if eq_str(&n, "CZ") {
        Ok((Gate::CZ, qs))
    } else if eq_str(&n, "MEASURE") {
        Ok((Gate::Measure, qs))
    } else {
        let mut m = message("Unknown gate: ");
        push_chars(&mut m, &n);
        Err(string_of(&m))
    }
}

/// Adds `gate` on the first qubits of `qubits` (as many as it acts on) to
/// the builder.
pub fn add_to_builder(builder: CircuitBuilder, gate: &Gate, qubits: &[usize]) -> (res: Result<CircuitBuilder, CircuitError>)
    requires
        builder.spec_circuit().wf(),
        qubits@.len() >= arity(*gate),
    ensures
        add_outcome(builder.spec_circuit(), *gate, qubits@.take(arity(*gate) as int), res),
{
    assert(qubits@.take(1) =~= seq![qubits@[0]]);
    match gate {
        Gate::H => builder.h(qubits[0]),
        Gate::X => builder.x(qubits[0]),
        Gate::Y => builder.y(qubits[0]),
        Gate::Z => builder.z(qubits[0]),
        Gate::S => builder.s(qubits[0]),
        Gate::T => builder.t(qubits[0]),
        Gate::Rx(t) => builder.rx(qubits[0], *t),
        Gate::Ry(t) => builder.ry(qubits[0], *t),
        Gate::Rz(t) => builder.rz(qubits[0], *t),
        Gate::CNOT => {
            assert(qubits@.take(2) =~= seq![qubits@[0], qubits@[1]]);
            builder.cnot(qubits[0], qubits[1])
        },
        Gate::CZ => {
            assert(qubits@.take(2) =~= seq![qubits@[0], qubits@[1]]);
            builder.cz(qubits[0], qubits[1])
        },
        Gate::Measure => builder.measure(qubits[0]),
    }
}

/// Adds the instruction's gate on the first qubits of the instruction (as
/// many as it acts on) to the builder.
pub fn builder_add_instruction(builder: CircuitBuilder, instr: Instruction) -> (res: Result<CircuitBuilder, CircuitError>)
    requires
        builder.spec_circuit().wf(),
        instr.qubits@.len() >= arity(instr.gate),
    ensures
        add_outcome(builder.spec_circuit(), instr.gate, instr.qubits@.take(arity(instr.gate) as int), res),
{
    add_to_builder(builder, &instr.gate, instr.qubits.as_slice())
}

} // verus!
