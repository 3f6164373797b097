use vstd::prelude::*;

use crate::circuit::circuit::{all_below, first_out_of_range, Circuit};
use crate::circuit::error::CircuitError;
use crate::circuit::gate::{arity, gate_name, Gate};
use crate::circuit::instruction::Instruction;
use crate::text::{
    chars_of, decimal, eq_str, push_chars, push_decimal, push_str, spec_parse_usize, spec_uppercase, split_on,
    split_words, string_of, uppercase, views, words_of, parse_usize,
};

verus! {

// ---------------------------------------------------------------------------
// The text format: one instruction per line, `GATE q...` for the fixed gates
// and `RX q angle` (likewise RY, RZ) for rotations; gate names are read
// case-insensitively, extra words at the end of a line are ignored, and
// blank lines and lines starting with `#` are skipped. Angles are read by a
// caller-supplied reader that turns the angle's text into the bit pattern of
// its binary64 value.
// ---------------------------------------------------------------------------

/// What one line of circuit text says.
pub enum LineReading {
    /// A blank line or a comment.
    Skip,
    /// An instruction: a gate and the qubits it acts on.
    Read(Gate, Seq<usize>),
    /// A malformed line, with its message (without the line number).
    Malformed(Seq<char>),
}

/// Why reading circuit text stopped.
pub enum ReadError {
    /// A line is malformed; the message names the line.
    Message(Seq<char>),
    /// An instruction names this qubit, the first it names that the circuit
    /// does not have.
    OutOfRange(usize),
}

/// What a fixed (angle-free) gate name stands for.
pub open spec fn fixed_gate(name: Seq<char>) -> Option<Gate> {
    if name == "H"@ {
        Some(Gate::H)
    } else if name == "X"@ {
        Some(Gate::X)
    } else if name == "Y"@ {
        Some(Gate::Y)
    } else if name == "Z"@ {
        Some(Gate::Z)
    } else if name == "S"@ {
        Some(Gate::S)
    } else if name == "T"@ {
        Some(Gate::T)
    } else if name == "CNOT"@ || name == "CX"@ {
        Some(Gate::CNOT)
    } else if name == "CZ"@ {
        Some(Gate::CZ)
    } else if name == "MEASURE"@ {
        Some(Gate::Measure)
    } else {
        None
    }
}

/// A rotation gate name.
pub open spec fn rotation_name(name: Seq<char>) -> bool {
    name == "RX"@ || name == "RY"@ || name == "RZ"@
}

/// The rotation a rotation name stands for, by the given angle.
pub open spec fn rotation_gate(name: Seq<char>, angle: u64) -> Gate {
    if name == "RX"@ {
        Gate::Rx(angle)
    } else if name == "RY"@ {
        Gate::Ry(angle)
    } else {
        Gate::Rz(angle)
    }
}

/// The qubit indices the words spell, or the first word that is not one.
pub open spec fn parse_indices(toks: Seq<Seq<char>>) -> Result<Seq<usize>, Seq<char>>
    decreases toks.len(),
{
    if toks.len() == 0 {
        Ok(Seq::empty())
    } else {
        match spec_parse_usize(toks[0]) {
            None => Err(toks[0]),
            Some(q) => match parse_indices(toks.drop_first()) {
                Ok(rest) => Ok(seq![q] + rest),
                Err(t) => Err(t),
            },
        }
    }
}

/// Gate `g` on the qubits the words spell.
pub open spec fn with_indices(g: Gate, toks: Seq<Seq<char>>) -> LineReading {
    match parse_indices(toks) {
        Ok(qs) => LineReading::Read(g, qs),
        Err(t) => LineReading::Malformed("invalid qubit index '"@ + t + "'"@),
    }
}

/// The line is neither blank nor a comment.
pub open spec fn has_content(line: Seq<char>) -> bool {
    let w = split_words(line);
    w.len() > 0 && w[0][0] != '#'
}

/// A fixed gate with fewer qubit indices than it acts on.
pub open spec fn line_too_short(line: Seq<char>) -> bool {
    let w = split_words(line);
    has_content(line) && (fixed_gate(spec_uppercase(w[0])) matches Some(g) && w.len() < 1 + arity(g))
}

/// The angle text of a rotation line that has one.
pub open spec fn angle_token(line: Seq<char>) -> Option<Seq<char>> {
    let w = split_words(line);
    let name = spec_uppercase(w[0]);
    if has_content(line) && fixed_gate(name) is None && rotation_name(name) && w.len() >= 3 {
        Some(w[2])
    } else {
        None
    }
}

/// The meaning of the words of a line, given the capitalised form of the
/// first word and the angle of a rotation as the angle reader gave it (other
/// gates ignore the angle).
pub open spec fn read_named(name: Seq<char>, w: Seq<Seq<char>>, angle: Option<u64>) -> LineReading {
    match fixed_gate(name) {
        Some(g) => if w.len() < 1 + arity(g) {
            LineReading::Malformed(
                gate_name(g) + " requires "@ + decimal(arity(g)) + " qubit(s), got "@ + decimal((w.len() - 1) as nat),
            )
        } else {
            with_indices(g, w.subrange(1, 1 + arity(g) as int))
        },
        None => if rotation_name(name) {
            if w.len() < 3 {
                LineReading::Malformed(name + " requires qubit and angle"@)
            } else {
                match angle {
                    None => LineReading::Malformed("invalid angle '"@ + w[2] + "'"@),
                    Some(a) => with_indices(rotation_gate(name, a), w.subrange(1, 2)),
                }
            }
        } else {
            LineReading::Malformed("unknown gate '"@ + name + "'"@)
        },
    }
}

/// What a line says, given what the angle reader made of its angle text (if
/// it has one).
pub open spec fn read_line(line: Seq<char>, angle: Option<u64>) -> LineReading {
    let w = split_words(line);
    if !has_content(line) {
        LineReading::Skip
    } else {
        read_named(spec_uppercase(w[0]), w, angle)
    }
}

/// The first qubit of `qs` that is not below `n`.
pub open spec fn oor_index(qs: Seq<usize>, n: nat) -> usize {
    choose|q: usize| first_out_of_range(qs, n, q)
}

/// "line <k>: <msg>".
pub open spec fn line_message(k: nat, msg: Seq<char>) -> Seq<char> {
    "line "@ + decimal(k) + ": "@ + msg
}

/// Instructions read so far, extended by the reading of line `k` (counted
/// from 1) of a circuit on `n` qubits.
pub open spec fn read_step(ops: Seq<(Gate, Seq<usize>)>, k: nat, r: LineReading, n: nat) -> Result<
    Seq<(Gate, Seq<usize>)>,
    ReadError,
> {
    match r {
        LineReading::Skip => Ok(ops),
        LineReading::Read(g, qs) => if all_below(qs, n) {
            Ok(ops.push((g, qs)))
        } else {
            Err(ReadError::OutOfRange(oor_index(qs, n)))
        },
        LineReading::Malformed(m) => Err(ReadError::Message(line_message(k, m))),
    }
}

/// Reading the lines in order into instructions on `n` qubits, where
/// `angles[k]` is what the angle reader made of line k's angle, if any.
pub open spec fn read_lines(lines: Seq<Seq<char>>, n: nat, angles: Seq<Option<u64>>) -> Result<
    Seq<(Gate, Seq<usize>)>,
    ReadError,
>
    decreases lines.len(),
{
    if lines.len() == 0 {
        Ok(Seq::empty())
    } else {
        let k = lines.len() - 1;
        match read_lines(lines.drop_last(), n, angles) {
            Err(e) => Err(e),
            Ok(ops) => read_step(ops, (k + 1) as nat, read_line(lines[k], angles[k]), n),
        }
    }
}

/// The angle reader gave `a` for some text `tok`.
pub open spec fn reader_gave<F: Fn(&str) -> Option<u64>>(f: F, tok: Seq<char>, a: Option<u64>) -> bool {
    exists|t: &str| t@ == tok && #[trigger] f.ensures((t,), a)
}

/// `angles` records what the reader gave for the angle of every line that
/// reading reached.
pub open spec fn angles_from<F: Fn(&str) -> Option<u64>>(
    f: F,
    lines: Seq<Seq<char>>,
    n: nat,
    angles: Seq<Option<u64>>,
) -> bool {
    &&& angles.len() == lines.len()
    &&& forall|k: int|
        0 <= k < lines.len() && read_lines(lines.take(k), n, angles) is Ok && (#[trigger] angle_token(lines[k])) is Some
            ==> reader_gave(f, angle_token(lines[k])->0, angles[k])
}

/// The (gate, qubits) pairs of instructions.
pub open spec fn ops_view(s: Seq<Instruction>) -> Seq<(Gate, Seq<usize>)> {
    s.map_values(|i: Instruction| (i.gate, i.qubits@))
}

/// `res` is what reading gave, for a circuit on `n` qubits.
pub open spec fn parse_outcome(res: Result<Circuit, CircuitError>, r: Result<Seq<(Gate, Seq<usize>)>, ReadError>, n: nat) -> bool {
    match r {
        Ok(ops) => res matches Ok(c) && c.wf() && c.spec_num_qubits() == n && c.spec_name() is None && ops_view(c.ops())
            == ops,
        Err(ReadError::Message(m)) => res matches Err(CircuitError::ParseError(s)) && s@ == m,
        Err(ReadError::OutOfRange(q)) => res == Err::<Circuit, CircuitError>(
            CircuitError::QubitOutOfRange { index: q, num_qubits: n as usize },
        ),
    }
}

/// What a line says, as built in executable code.
#[derive(Debug)]
pub enum Reading {
    Skip,
    Read(Gate, Vec<usize>),
    Malformed(Vec<char>),
}

pub open spec fn reading_view(r: Reading) -> LineReading {
    match r {
        Reading::Skip => LineReading::Skip,
        Reading::Read(g, qs) => LineReading::Read(g, qs@),
        Reading::Malformed(m) => LineReading::Malformed(m@),
    }
}

/// `r` extended by a result `q`.
spec fn prepend(q: Seq<usize>, r: Result<Seq<usize>, Seq<char>>) -> Result<Seq<usize>, Seq<char>> {
    match r {
        Ok(rest) => Ok(q + rest),
        Err(t) => Err(t),
    }
}

/// The qubit indices spelled by words `from .. to`, or the position of the
/// first word that is not one.
fn read_indices(words: &Vec<Vec<char>>, from: usize, to: usize) -> (r: Result<Vec<usize>, usize>)
    requires
        from <= to <= words@.len(),
    ensures
        match r {
            Ok(v) => parse_indices(views(words@).subrange(from as int, to as int)) == Ok::<Seq<usize>, Seq<char>>(v@),
            Err(j) => from <= j < to && parse_indices(views(words@).subrange(from as int, to as int))
                == Err::<Seq<usize>, Seq<char>>(words@[j as int]@),
        },
{
    let ghost all = views(words@).subrange(from as int, to as int);
    let mut qs: Vec<usize> = Vec::new();
    let mut j: usize = from;
    assert(all.skip(0) =~= all);
    while j < to
        invariant
            from <= j <= to <= words@.len(),
            all == views(words@).subrange(from as int, to as int),
            parse_indices(all) == prepend(qs@, parse_indices(all.skip(j - from))),
        decreases to - j,
    {
        let ghost rest = all.skip(j - from);
        assert(rest[0] == words@[j as int]@);
        assert(rest.drop_first() =~= all.skip(j + 1 - from));
        match parse_usize(&words[j]) {
            None => {
                assert(parse_indices(rest) == Err::<Seq<usize>, Seq<char>>(words@[j as int]@));
                return Err(j);
            },
            Some(q) => {
                let ghost before = qs@;
                qs.push(q);
                proof {
                    match parse_indices(all.skip(j + 1 - from)) {
                        Ok(tail) => {
                            assert(before + (seq![q] + tail) =~= qs@ + tail);
                        },
                        Err(_) => {},
                    }
                }
            },
        }
        j += 1;
    }
    assert(all.skip(to - from).len() == 0);
    assert(qs@ + Seq::<usize>::empty() =~= qs@);
    Ok(qs)
}

/// What a fixed gate name stands for.
fn fixed_gate_of(name: &Vec<char>) -> (g: Option<Gate>)
    ensures
        g == fixed_gate(name@),
{
    if eq_str(name, "H") {
        Some(Gate::H)
    } else if eq_str(name, "X") {
        Some(Gate::X)
    } else if eq_str(name, "Y") {
        Some(Gate::Y)
    } else if eq_str(name, "Z") {
        Some(Gate::Z)
    } else if eq_str(name, "S") {
        Some(Gate::S)
    } else if eq_str(name, "T") {
        Some(Gate::T)
    } else if eq_str(name, "CNOT") || eq_str(name, "CX") {
        Some(Gate::CNOT)
    } else if eq_str(name, "CZ") {
        Some(Gate::CZ)
    } else if eq_str(name, "MEASURE") {
        Some(Gate::Measure)
    } else {
        None
    }
}

/// Gate `g` on the qubits spelled by words `from .. to`.
fn gate_on(g: Gate, words: &Vec<Vec<char>>, from: usize, to: usize) -> (r: Reading)
    requires
        from <= to <= words@.len(),
    ensures
        reading_view(r) == with_indices(g, views(words@).subrange(from as int, to as int)),
{
    match read_indices(words, from, to) {
        Ok(qs) => Reading::Read(g, qs),
        Err(j) => {
            let mut m: Vec<char> = Vec::new();
            push_str(&mut m, "invalid qubit index '");
            push_chars(&mut m, &words[j]);
            push_str(&mut m, "'");
            Reading::Malformed(m)
        },
    }
}

/// Interprets the words of a line, given the capitalised form of the first
/// word and the angle of a rotation as the angle reader gave it (other gates
/// ignore the angle).
pub fn read_gate_words(name: &Vec<char>, words: &Vec<Vec<char>>, angle: Option<u64>) -> (r: Reading)
    requires
        words@.len() >= 1,
    ensures
        reading_view(r) == read_named(name@, views(words@), angle),
{
    match fixed_gate_of(name) {
        Some(g) => {
            let need = 1 + g.num_qubits();
            if words.len() < need {
                let mut m: Vec<char> = Vec::new();
                push_str(&mut m, g.name());
                push_str(&mut m, " requires ");
                push_decimal(&mut m, g.num_qubits() as u128);
                push_str(&mut m, " qubit(s), got ");
                push_decimal(&mut m, (words.len() - 1) as u128);
                return Reading::Malformed(m);
            }
            gate_on(g, words, 1, need)
        },
        None => {
            if eq_str(name, "RX") || eq_str(name, "RY") || eq_str(name, "RZ") {
                if words.len() < 3 {
                    let mut m: Vec<char> = Vec::new();
                    push_chars(&mut m, name);
                    push_str(&mut m, " requires qubit and angle");
                    return Reading::Malformed(m);
                }
                assert(views(words@)[2] == words@[2]@);
                match angle {
                    None => {
                        let mut m: Vec<char> = Vec::new();
                        push_str(&mut m, "invalid angle '");
                        push_chars(&mut m, &words[2]);
                        push_str(&mut m, "'");
                        Reading::Malformed(m)
                    },
                    Some(bits) => {
                        let g = if eq_str(name, "RX") {
                            Gate::Rx(bits)
                        } else if eq_str(name, "RY") {
                            Gate::Ry(bits)
                        } else {
                            Gate::Rz(bits)
                        };
                        gate_on(g, words, 1, 2)
                    },
                }
            } else {
                let mut m: Vec<char> = Vec::new();
                push_str(&mut m, "unknown gate '");
                push_chars(&mut m, name);
                push_str(&mut m, "'");
                Reading::Malformed(m)
            }
        },
    }
}

/// Reads one line, asking `parse_angle` for the angle of a rotation; also
/// gives what the reader answered (if it was asked).
fn read_one<F: Fn(&str) -> Option<u64>>(line: &Vec<char>, parse_angle: &F) -> (r: (Reading, Ghost<Option<u64>>))
    requires
        forall|t: &str| parse_angle.requires((t,)),
    ensures
        reading_view(r.0) == read_line(line@, r.1@),
        angle_token(line@) matches Some(tok) ==> reader_gave(*parse_angle, tok, r.1@),
{
    let words = words_of(line);
    proof {
        crate::text::lemma_words_nonempty(line@);
    }
    if words.len() == 0 {
        return (Reading::Skip, Ghost(None));
    }
    assert(views(words@)[0] == words@[0]@);
    if words[0][0] == '#' {
        return (Reading::Skip, Ghost(None));
    }
    let name = uppercase(&words[0]);
    let rotation = fixed_gate_of(&name).is_none() && (eq_str(&name, "RX") || eq_str(&name, "RY") || eq_str(
        &name,
        "RZ",
    ));
    let angle = if rotation && words.len() >= 3 {
        assert(views(words@)[2] == words@[2]@);
        let tok = string_of(&words[2]);
        parse_angle(tok.as_str())
    } else {
        None
    };
    (read_gate_words(&name, &words, angle), Ghost(angle))
}

/// Reading depends only on the angles of the lines read.
proof fn lemma_angles_irrelevant(lines: Seq<Seq<char>>, n: nat, a1: Seq<Option<u64>>, a2: Seq<Option<u64>>)
    requires
        forall|k: int| 0 <= k < lines.len() ==> a1[k] == a2[k],
    ensures
        read_lines(lines, n, a1) == read_lines(lines, n, a2),
    decreases lines.len(),
{
    if lines.len() > 0 {
        lemma_angles_irrelevant(lines.drop_last(), n, a1, a2);
    }
}

/// Once reading a prefix fails, reading the whole fails the same way.
proof fn lemma_error_stays(lines: Seq<Seq<char>>, n: nat, angles: Seq<Option<u64>>, m: int)
    requires
        0 <= m <= lines.len(),
        read_lines(lines.take(m), n, angles) is Err,
    ensures
        read_lines(lines, n, angles) == read_lines(lines.take(m), n, angles),
    decreases lines.len(),
{
    if m == lines.len() {
        assert(lines.take(m) =~= lines);
    } else {
        assert(lines.drop_last().take(m) =~= lines.take(m));
        lemma_error_stays(lines.drop_last(), n, angles, m);
    }
}

/// Reading the first `m` lines decides reading them all, when it failed or
/// read every line; the recorded angles extend to all lines.
proof fn lemma_finish<F: Fn(&str) -> Option<u64>>(
    f: F,
    lines: Seq<Seq<char>>,
    n: nat,
    angles: Seq<Option<u64>>,
    m: int,
)
    requires
        0 <= m <= lines.len(),
        angles_from(f, lines.take(m), n, angles),
        read_lines(lines.take(m), n, angles) is Err || m == lines.len(),
    ensures
        exists|a2: Seq<Option<u64>>| #[trigger] angles_from(f, lines, n, a2) && read_lines(lines, n, a2) == read_lines(
            lines.take(m),
            n,
            angles,
        ),
{
    let a2 = angles + Seq::new((lines.len() - m) as nat, |i: int| None::<u64>);
    assert forall|k: int| 0 <= k < m implies a2[k] == angles[k] by {}
    lemma_angles_irrelevant(lines.take(m), n, a2, angles);
    if m == lines.len() {
        assert(lines.take(m) =~= lines);
    } else {
        lemma_error_stays(lines, n, a2, m);
    }
    assert forall|k: int|
        0 <= k < lines.len() && read_lines(lines.take(k), n, a2) is Ok && (#[trigger] angle_token(lines[k])) is Some
        implies reader_gave(f, angle_token(lines[k])->0, a2[k]) by {
        if k < m {
            assert(lines.take(m).take(k) =~= lines.take(k));
            lemma_angles_irrelevant(lines.take(k), n, a2, angles);
            assert(lines.take(m)[k] == lines[k]);
        } else {
            assert(lines.take(k).take(m) =~= lines.take(m));
            lemma_error_stays(lines.take(k), n, a2, m);
        }
    }
    assert(angles_from(f, lines, n, a2));
}

/// Reads one line into the circuit.
fn take_line<F: Fn(&str) -> Option<u64>>(
    circuit: &mut Circuit,
    line: &Vec<char>,
    line_no: usize,
    parse_angle: &F,
) -> (r: (Result<(), CircuitError>, Ghost<Option<u64>>))
    requires
        forall|t: &str| parse_angle.requires((t,)),
        old(circuit).wf(),
    ensures
        final(circuit).wf(),
        final(circuit).spec_num_qubits() == old(circuit).spec_num_qubits(),
        final(circuit).spec_name() == old(circuit).spec_name(),
        angle_token(line@) matches Some(tok) ==> reader_gave(*parse_angle, tok, r.1@),
        match read_step(
            ops_view(old(circuit).ops()),
            (line_no + 1) as nat,
            read_line(line@, r.1@),
            old(circuit).spec_num_qubits(),
        ) {
            Ok(ops) => r.0 is Ok && ops_view(final(circuit).ops()) == ops,
            Err(ReadError::Message(m)) => r.0 matches Err(CircuitError::ParseError(s)) && s@ == m,
            Err(ReadError::OutOfRange(q)) => r.0 == Err::<(), CircuitError>(
                CircuitError::QubitOutOfRange { index: q, num_qubits: old(circuit).spec_num_qubits() as usize },
            ),
        },
{
    let (reading, Ghost(a)) = read_one(line, parse_angle);
    match reading {
        Reading::Skip => (Ok(()), Ghost(a)),
        Reading::Read(g, qs) => {
            let ghost before = circuit.ops();
            let ghost qv = qs@;
            let instr = Instruction { gate: g, qubits: qs };
            let r = circuit.add_instruction(instr);
            proof {
                if all_below(qv, old(circuit).spec_num_qubits()) {
                    assert(ops_view(circuit.ops()) =~= ops_view(before).push((g, qv)));
                } else {
                    lemma_first_out_of_range_unique(qv, old(circuit).spec_num_qubits());
                }
            }
            (r, Ghost(a))
        },
        Reading::Malformed(m) => {
            let mut msg: Vec<char> = Vec::new();
            push_str(&mut msg, "line ");
            push_decimal(&mut msg, line_no as u128 + 1);
            push_str(&mut msg, ": ");
            push_chars(&mut msg, &m);
            (Err(CircuitError::ParseError(string_of(&msg))), Ghost(a))
        },
    }
}

/// The first out-of-range qubit is unique.
pub(crate) proof fn lemma_first_out_of_range_unique(qs: Seq<usize>, n: nat)
    ensures
        forall|q1: usize, q2: usize| first_out_of_range(qs, n, q1) && first_out_of_range(qs, n, q2) ==> q1 == q2,
{
    assert forall|q1: usize, q2: usize| first_out_of_range(qs, n, q1) && first_out_of_range(qs, n, q2) implies q1
        == q2 by {
        let i1 = choose|i: int| 0 <= i < qs.len() && #[trigger] qs[i] == q1 && q1 >= n && forall|k: int| 0 <= k < i ==> qs[k] < n;
        let i2 = choose|i: int| 0 <= i < qs.len() && #[trigger] qs[i] == q2 && q2 >= n && forall|k: int| 0 <= k < i ==> qs[k] < n;
        if i1 < i2 {
            assert(qs[i1] < n);
        } else if i2 < i1 {
            assert(qs[i2] < n);
        }
    }
}

/// No line names a fixed gate with fewer qubit indices than it acts on.
pub open spec fn lines_complete(input: Seq<char>) -> bool {
    forall|k: int| 0 <= k < split_on(input, '\n').len() ==> !line_too_short(#[trigger] split_on(input, '\n')[k])
}

/// The first line of `input` that names a fixed gate with fewer qubit
/// indices than it acts on, with its index, if there is one.
fn first_short_line(input: &str) -> (r: Option<(usize, Vec<char>)>)
    ensures
        r is None <==> lines_complete(input@),
        r matches Some((k, l)) ==> first_short(split_on(input@, '\n'), k as int) && l@ == split_on(input@, '\n')[k as int],
{
    let chars = chars_of(input);
    let n = chars.len();
    let mut line: Vec<char> = Vec::new();
    let mut line_no: usize = 0;
    let ghost mut done: Seq<Seq<char>> = Seq::empty();
    let mut i: usize = 0;
    while i < n
        invariant
            chars@ == input@,
            n == chars@.len(),
            i <= n,
            line_no == done.len(),
            line_no <= i,
            split_on(input@.take(i as int), '\n') == done.push(line@),
            forall|k: int| 0 <= k < done.len() ==> !line_too_short(#[trigger] done[k]),
        decreases n - i,
    {
        let ghost cur = input@.take(i + 1);
        assert(cur.drop_last() =~= input@.take(i as int));
        if chars[i] == '\n' {
            proof {
                crate::text::lemma_split_on_prefix(input@, '\n', i as int);
                assert(split_on(input@, '\n')[done.len() as int] == split_on(input@.take(i as int), '\n')[done.len() as int]);
                let pre = split_on(input@.take(i as int), '\n');
                assert forall|k: int| 0 <= k < done.len() implies split_on(input@, '\n')[k] == done[k] by {
                    assert(split_on(input@, '\n').take(pre.len() as int)[k] == split_on(input@, '\n')[k]);
                    assert(pre[k] == done.push(line@)[k]);
                }
                assert(pre[done.len() as int] == line@);
                assert(split_on(input@, '\n')[done.len() as int] == line@);
                assert forall|j: int| 0 <= j < done.len() implies !line_too_short(#[trigger] split_on(input@, '\n')[j]) by {
                    assert(split_on(input@, '\n')[j] == done[j]);
                }
            }
            if too_short(&line) {
                assert(split_on(input@, '\n')[done.len() as int] == line@);
                return Some((line_no, line));
            }
            proof {
                done = done.push(line@);
            }
            line = Vec::new();
            line_no += 1;
            assert(split_on(cur, '\n') =~= done.push(line@));
        } else {
            line.push(chars[i]);
            assert(split_on(cur, '\n') =~= done.push(line@));
        }
        i += 1;
    }
    proof {
        assert(input@.take(n as int) =~= input@);
    }
    assert forall|k: int| 0 <= k < done.len() implies split_on(input@, '\n')[k] == done[k] by {
        assert(split_on(input@, '\n')[k] == done.push(line@)[k]);
    }
    assert forall|j: int| 0 <= j < done.len() implies !line_too_short(#[trigger] split_on(input@, '\n')[j]) by {
        assert(split_on(input@, '\n')[j] == done[j]);
    }
    if too_short(&line) {
        assert(split_on(input@, '\n')[done.len() as int] == line@);
        return Some((line_no, line));
    }
    assert forall|k: int| 0 <= k < split_on(input@, '\n').len() implies !line_too_short(#[trigger] split_on(input@, '\n')[k]) by {
        if k < done.len() {
            assert(split_on(input@, '\n')[k] == done[k]);
        }
    }
    None
}

/// Line `k` is the first that names a fixed gate with fewer qubit indices
/// than it acts on.
pub open spec fn first_short(lines: Seq<Seq<char>>, k: int) -> bool {
    &&& 0 <= k < lines.len()
    &&& line_too_short(lines[k])
    &&& forall|j: int| 0 <= j < k ==> !line_too_short(#[trigger] lines[j])
}

/// Whether no line of `input` names a fixed gate with fewer qubit indices
/// than it acts on.
pub fn check_lines_complete(input: &str) -> (b: bool)
    ensures
        b == lines_complete(input@),
{
    first_short_line(input).is_none()
}

/// Whether a line names a fixed gate with fewer qubit indices than it acts on.
fn too_short(line: &Vec<char>) -> (b: bool)
    ensures
        b == line_too_short(line@),
{
    let words = words_of(line);
    proof {
        crate::text::lemma_words_nonempty(line@);
    }
    if words.len() == 0 {
        return false;
    }
    assert(views(words@)[0] == words@[0]@);
    if words[0][0] == '#' {
        return false;
    }
    let name = uppercase(&words[0]);
    match fixed_gate_of(&name) {
        Some(g) => words.len() < 1 + g.num_qubits(),
        None => false,
    }
}

/// Reads a circuit on `num_qubits` qubits from its text, one instruction per
/// line, stopping at the first line that is malformed or names a missing
/// qubit; a line whose gate lacks some of its qubit indices reads as
/// malformed, "<GATE> requires <n> qubit(s), got <m>". `parse_angle` turns
/// the text of a rotation's angle into the bit pattern of its binary64
/// value, or `None` when the text is not a number.
pub fn parse_circuit_checked<F: Fn(&str) -> Option<u64>>(input: &str, num_qubits: usize, parse_angle: F) -> (res: Result<
    Circuit,
    CircuitError,
>)
    requires
        forall|t: &str| parse_angle.requires((t,)),
    ensures
        num_qubits == 0 ==> res == Err::<Circuit, CircuitError>(CircuitError::ZeroQubits),
        num_qubits > 0 ==> exists|angles: Seq<Option<u64>>|
            #[trigger] angles_from(parse_angle, split_on(input@, '\n'), num_qubits as nat, angles) && parse_outcome(
                res,
                read_lines(split_on(input@, '\n'), num_qubits as nat, angles),
                num_qubits as nat,
            ),
{
    let mut circuit = Circuit::new(num_qubits)?;
    let ghost nq = num_qubits as nat;
    let ghost lines = split_on(input@, '\n');
    let chars = chars_of(input);
    let n = chars.len();
    let mut line: Vec<char> = Vec::new();
    let mut line_no: usize = 0;
    let ghost mut done: Seq<Seq<char>> = Seq::empty();
    let ghost mut angles: Seq<Option<u64>> = Seq::empty();
    let mut i: usize = 0;
    assert(ops_view(circuit.ops()) =~= Seq::<(Gate, Seq<usize>)>::empty());
    while i < n
        invariant
            forall|t: &str| parse_angle.requires((t,)),
            lines == split_on(input@, '\n'),
            chars@ == input@,
            n == chars@.len(),
            i <= n,
            split_on(input@.take(i as int), '\n') == done.push(line@),
            line_no == done.len(),
            line_no <= i,
            nq == num_qubits,
            num_qubits > 0,
            circuit.wf(),
            circuit.spec_num_qubits() == nq,
            circuit.spec_name() is None,
            angles_from(parse_angle, done, nq, angles),
            read_lines(done, nq, angles) == Ok::<Seq<(Gate, Seq<usize>)>, ReadError>(ops_view(circuit.ops())),
        decreases n - i,
    {
        let ghost cur = input@.take(i + 1);
        assert(cur.drop_last() =~= input@.take(i as int));
        if chars[i] == '\n' {
            proof {
                crate::text::lemma_split_on_prefix(input@, '\n', i as int);
                assert(lines.take(done.len() + 1int) == done.push(line@));
                assert(lines.take(done.len() + 1int)[done.len() as int] == lines[done.len() as int]);
                assert(lines[done.len() as int] == line@);
            }
            let ghost before = circuit.ops();
            let (r, Ghost(a)) = take_line(&mut circuit, &line, line_no, &parse_angle);
            let ghost done2 = done.push(line@);
            let ghost angles2 = angles.push(a);
            proof {
                assert(done2.drop_last() =~= done);
                lemma_angles_irrelevant(done, nq, angles2, angles);
                assert forall|k: int|
                    0 <= k < done2.len() && read_lines(done2.take(k), nq, angles2) is Ok && (#[trigger] angle_token(
                        done2[k],
                    )) is Some implies reader_gave(parse_angle, angle_token(done2[k])->0, angles2[k]) by {
                    if k < done.len() {
                        assert(done2.take(k) =~= done.take(k));
                        lemma_angles_irrelevant(done.take(k), nq, angles2, angles);
                        assert(done2[k] == done[k]);
                    } else {
                        assert(done2[k] == line@);
                    }
                }
            }
            match r {
                Err(e) => {
                    proof {
                        lemma_finish(parse_angle, lines, nq, angles2, done2.len() as int);
                    }
                    return Err(e);
                },
                Ok(()) => {},
            }
            proof {
                done = done2;
                angles = angles2;
            }
            line = Vec::new();
            line_no += 1;
            assert(split_on(cur, '\n') =~= done.push(line@));
        } else {
            line.push(chars[i]);
            assert(split_on(cur, '\n') =~= done.push(line@));
        }
        i += 1;
    }
    proof {
        assert(input@.take(n as int) =~= input@);
        assert(lines == done.push(line@));
        assert(lines[done.len() as int] == line@);
    }
    let (r, Ghost(a)) = take_line(&mut circuit, &line, line_no, &parse_angle);
    let ghost done2 = done.push(line@);
    let ghost angles2 = angles.push(a);
    proof {
        assert(done2.drop_last() =~= done);
        lemma_angles_irrelevant(done, nq, angles2, angles);
        assert forall|k: int|
            0 <= k < done2.len() && read_lines(done2.take(k), nq, angles2) is Ok && (#[trigger] angle_token(done2[k]))
                is Some implies reader_gave(parse_angle, angle_token(done2[k])->0, angles2[k]) by {
            if k < done.len() {
                assert(done2.take(k) =~= done.take(k));
                lemma_angles_irrelevant(done.take(k), nq, angles2, angles);
                assert(done2[k] == done[k]);
            } else {
                assert(done2[k] == line@);
            }
        }
        assert(lines.take(lines.len() as int) =~= lines);
        lemma_finish(parse_angle, lines, nq, angles2, lines.len() as int);
    }
    match r {
        Err(e) => Err(e),
        Ok(()) => Ok(circuit),
    }
}

/// Reads a circuit on `num_qubits` qubits from its text, one instruction per
/// line, stopping at the first line that is malformed or names a missing
/// qubit, on text where every gate has the qubit indices it acts on.
/// `parse_angle` turns the text of a rotation's angle into the bit pattern of
/// its binary64 value, or `None` when the text is not a number.
pub fn parse_circuit<F: Fn(&str) -> Option<u64>>(input: &str, num_qubits: usize, parse_angle: F) -> (res: Result<
    Circuit,
    CircuitError,
>)
    requires
        forall|t: &str| parse_angle.requires((t,)),
        lines_complete(input@),
    ensures
        num_qubits == 0 ==> res == Err::<Circuit, CircuitError>(CircuitError::ZeroQubits),
        num_qubits > 0 ==> exists|angles: Seq<Option<u64>>|
            #[trigger] angles_from(parse_angle, split_on(input@, '\n'), num_qubits as nat, angles) && parse_outcome(
                res,
                read_lines(split_on(input@, '\n'), num_qubits as nat, angles),
                num_qubits as nat,
            ),
{
    parse_circuit_checked(input, num_qubits, parse_angle)
}

} // verus!
