use vstd::prelude::*;

use crate::surface::code::{stabs_of, supports_within, SurfaceCode};
use crate::surface::error::QecError;
use crate::surface::syndrome::{spec_flags, Syndrome};

verus! {

/// Result of decoding.
#[derive(Debug, Clone)]
pub struct DecoderResult {
    pub x_correction: Vec<bool>,
    pub z_correction: Vec<bool>,
    pub success: bool,
}

/// A surface-code decoder.
pub trait Decoder {
    /// Inputs on which `decode` returns.
    spec fn decode_requires(&self, code: &SurfaceCode, syndrome: &Syndrome) -> bool;

    /// Corrections for the given syndrome, one bit per data qubit.
    fn decode(&self, code: &SurfaceCode, syndrome: &Syndrome) -> (res: Result<DecoderResult, QecError>)
        requires
            self.decode_requires(code, syndrome),
        ensures
            res matches Ok(r) ==> r.x_correction@.len() == code.spec_data().len() && r.z_correction@.len()
                == code.spec_data().len(),
    ;

    /// Name of the decoder.
    fn name(&self) -> (n: &str);
}

// ---------------------------------------------------------------------------
// Specification of greedy peeling.
//
// The state is (correction, remaining syndrome). In each round the candidate
// qubits are the supports of the flagged stabilizers, in stabilizer order.
// The chosen qubit has the largest net gain 2 * flagged - total (flagged:
// flagged stabilizers containing it; total: all stabilizers containing it),
// ties going to the smaller total and then to the earlier candidate. Its
// correction bit is toggled, and so is the flag of every stabilizer that
// contains it. The process stops when there is no candidate.
// ---------------------------------------------------------------------------

/// Number of stabilizers `idx < n` that contain `q` and are flagged.
pub open spec fn flagged_count(table: Seq<Seq<usize>>, rem: Seq<bool>, q: usize, n: nat) -> nat
    decreases n,
{
    if n == 0 {
        0
    } else {
        let idx = n - 1;
        flagged_count(table, rem, q, (n - 1) as nat) + if rem[idx] && table[idx].contains(q) { 1nat } else { 0nat }
    }
}

/// Number of stabilizers `idx < n` that contain `q`.
pub open spec fn total_count(table: Seq<Seq<usize>>, q: usize, n: nat) -> nat
    decreases n,
{
    if n == 0 {
        0
    } else {
        let idx = n - 1;
        total_count(table, q, (n - 1) as nat) + if table[idx].contains(q) { 1nat } else { 0nat }
    }
}

/// Net number of flags cleared by toggling `q`.
pub open spec fn net_gain(table: Seq<Seq<usize>>, rem: Seq<bool>, q: usize) -> int {
    2 * flagged_count(table, rem, q, table.len()) - total_count(table, q, table.len())
}

/// Supports of the flagged stabilizers among the first `n`, in order.
pub open spec fn candidates(table: Seq<Seq<usize>>, rem: Seq<bool>, n: nat) -> Seq<usize>
    decreases n,
{
    if n == 0 {
        Seq::empty()
    } else {
        let si = n - 1;
        candidates(table, rem, (n - 1) as nat) + if rem[si] { table[si] } else { Seq::empty() }
    }
}

/// The best candidate: largest net gain, then smallest total, then earliest.
pub open spec fn pick(table: Seq<Seq<usize>>, rem: Seq<bool>, cands: Seq<usize>) -> Option<usize>
    decreases cands.len(),
{
    if cands.len() == 0 {
        None
    } else {
        let q = cands.last();
        match pick(table, rem, cands.drop_last()) {
            None => Some(q),
            Some(p) => if net_gain(table, rem, q) > net_gain(table, rem, p) || (net_gain(table, rem, q)
                == net_gain(table, rem, p) && total_count(table, q, table.len()) < total_count(table, p, table.len())) {
                Some(q)
            } else {
                Some(p)
            },
        }
    }
}

/// The qubit chosen in state `rem`, if any.
pub open spec fn choice(table: Seq<Seq<usize>>, rem: Seq<bool>) -> Option<usize> {
    pick(table, rem, candidates(table, rem, rem.len()))
}

/// Toggle the flag of every stabilizer containing `q`.
pub open spec fn toggle_flags(table: Seq<Seq<usize>>, rem: Seq<bool>, q: usize) -> Seq<bool> {
    Seq::new(rem.len(), |idx: int| if idx < table.len() && table[idx].contains(q) { !rem[idx] } else { rem[idx] })
}

/// One round of peeling on the state (correction, remaining flags).
pub open spec fn greedy_step(table: Seq<Seq<usize>>, s: (Seq<bool>, Seq<bool>)) -> (Seq<bool>, Seq<bool>) {
    match choice(table, s.1) {
        None => s,
        Some(q) => (s.0.update(q as int, !s.0[q as int]), toggle_flags(table, s.1, q)),
    }
}

/// Peeling has stopped: no candidate is left.
pub open spec fn greedy_done(table: Seq<Seq<usize>>, s: (Seq<bool>, Seq<bool>)) -> bool {
    choice(table, s.1) is None
}

/// The state after at most `k` rounds.
pub open spec fn greedy_iter(table: Seq<Seq<usize>>, s: (Seq<bool>, Seq<bool>), k: nat) -> (Seq<bool>, Seq<bool>)
    decreases k,
{
    if k == 0 || greedy_done(table, s) {
        s
    } else {
        greedy_iter(table, greedy_step(table, s), (k - 1) as nat)
    }
}

/// The all-false vector of length `n`.
pub open spec fn no_flags(n: nat) -> Seq<bool> {
    Seq::new(n, |i: int| false)
}

/// Peeling from the all-zero correction stops after finitely many rounds.
pub open spec fn greedy_terminates(table: Seq<Seq<usize>>, syn: Seq<bool>, n: nat) -> bool {
    exists|k: nat| greedy_done(table, #[trigger] greedy_iter(table, (no_flags(n), syn), k))
}

/// The correction that peeling ends with.
pub open spec fn spec_greedy_correction(table: Seq<Seq<usize>>, syn: Seq<bool>, n: nat) -> Seq<bool> {
    greedy_iter(table, (no_flags(n), syn), choose|k: nat| greedy_done(table, #[trigger] greedy_iter(table, (no_flags(n), syn), k))).0
}

/// Inputs on which peeling never indexes out of range: flags only for
/// existing stabilizers (and one per stabilizer once any is set), supports
/// on the `n` data qubits, and counts that fit the signed arithmetic.
pub open spec fn greedy_inputs_ok(table: Seq<Seq<usize>>, syn: Seq<bool>, n: nat) -> bool {
    &&& forall|i: int| 0 <= i < syn.len() && #[trigger] syn[i] ==> i < table.len()
    &&& (exists|i: int| 0 <= i < syn.len() && #[trigger] syn[i]) ==> syn.len() >= table.len()
    &&& supports_within(table, n)
    &&& 2 * table.len() <= isize::MAX
}

/// Greedy peeling decoder: a simple heuristic, not minimum-weight matching.
pub struct GreedyDecoder;

impl Decoder for GreedyDecoder {
    /// A well-formed code, and syndromes on which peeling stays in range.
    open spec fn decode_requires(&self, code: &SurfaceCode, syndrome: &Syndrome) -> bool {
        &&& code.wf()
        &&& greedy_inputs_ok(code.z_stabs(), syndrome.z_syndrome@, code.spec_data().len())
        &&& greedy_inputs_ok(code.x_stabs(), syndrome.x_syndrome@, code.spec_data().len())
    }

    /// Peels the Z syndrome against the Z stabilizers for the X correction,
    /// and the X syndrome against the X stabilizers for the Z correction.
    fn decode(&self, code: &SurfaceCode, syndrome: &Syndrome) -> (res: Result<DecoderResult, QecError>)
        ensures
            res matches Ok(r) && r.success && r.x_correction@ == spec_greedy_correction(
                code.z_stabs(),
                syndrome.z_syndrome@,
                code.spec_data().len(),
            ) && r.z_correction@ == spec_greedy_correction(code.x_stabs(), syndrome.x_syndrome@, code.spec_data().len()),
            // one correction bit per data qubit
            res matches Ok(r) && r.x_correction@.len() == code.spec_data().len() && r.z_correction@.len()
                == code.spec_data().len(),
            // a correction raises exactly the syndrome it was computed from
            syndrome.z_syndrome@.len() == code.z_stabs().len() ==> (res matches Ok(r) && spec_flags(
                code.z_stabs(),
                r.x_correction@,
            ) == syndrome.z_syndrome@),
            syndrome.x_syndrome@.len() == code.x_stabs().len() ==> (res matches Ok(r) && spec_flags(
                code.x_stabs(),
                r.z_correction@,
            ) == syndrome.x_syndrome@),
    {
        let n = code.num_data_qubits();
        proof {
            code.lemma_wf();
            let d = code.spec_distance();
            crate::surface::peel_geometry::lemma_surface_peelable(d, true);
            crate::surface::peel_geometry::lemma_surface_peelable(d, false);
            crate::surface::peeling::lemma_peeling_stops(
                code.z_stabs(),
                crate::surface::peel_geometry::surface_pots(d, false),
                (no_flags(n as nat), syndrome.z_syndrome@),
            );
            crate::surface::peeling::lemma_peeling_stops(
                code.x_stabs(),
                crate::surface::peel_geometry::surface_pots(d, true),
                (no_flags(n as nat), syndrome.x_syndrome@),
            );
            crate::surface::peel_geometry::lemma_surface_supports_distinct(d, true);
            crate::surface::peel_geometry::lemma_surface_supports_distinct(d, false);
            if syndrome.z_syndrome@.len() == code.z_stabs().len() {
                crate::surface::peeling::lemma_greedy_correction_explains(
                    code.z_stabs(),
                    syndrome.z_syndrome@,
                    n as nat,
                );
            }
            if syndrome.x_syndrome@.len() == code.x_stabs().len() {
                crate::surface::peeling::lemma_greedy_correction_explains(
                    code.x_stabs(),
                    syndrome.x_syndrome@,
                    n as nat,
                );
            }
        }
        let x_correction = Self::correct_with_syndrome(syndrome.z_syndrome.as_slice(), code.z_stabilizer_table(), n);
        let z_correction = Self::correct_with_syndrome(syndrome.x_syndrome.as_slice(), code.x_stabilizer_table(), n);
        Ok(DecoderResult { x_correction, z_correction, success: true })
    }

    /// "greedy".
    fn name(&self) -> (n: &str)
        ensures
            n@ == "greedy"@,
    {
        "greedy"
    }
}

/// Whether `s` holds `q`.
fn holds(s: &Vec<usize>, q: usize) -> (b: bool)
    ensures
        b == s@.contains(q),
{
    let mut i: usize = 0;
    while i < s.len()
        invariant
            i <= s@.len(),
            forall|k: int| 0 <= k < i ==> s@[k] != q,
        decreases s.len() - i,
    {
        if s[i] == q {
            assert(s@[i as int] == q);
            return true;
        }
        i += 1;
    }
    false
}

/// Flagged and total number of stabilizers containing `q`.
fn stabilizer_counts(table: &[Vec<usize>], rem: &Vec<bool>, q: usize) -> (res: (usize, usize))
    requires
        rem@.len() >= table@.len(),
    ensures
        res.0 == flagged_count(stabs_of(table@), rem@, q, table@.len()),
        res.1 == total_count(stabs_of(table@), q, table@.len()),
        res.0 <= table@.len(),
        res.1 <= table@.len(),
{
    let ghost st = stabs_of(table@);
    let mut fc: usize = 0;
    let mut tc: usize = 0;
    let mut idx: usize = 0;
    while idx < table.len()
        invariant
            st == stabs_of(table@),
            rem@.len() >= table@.len(),
            idx <= table@.len(),
            fc == flagged_count(st, rem@, q, idx as nat),
            tc == total_count(st, q, idx as nat),
            fc <= idx,
            tc <= idx,
        decreases table.len() - idx,
    {
        assert(table@[idx as int]@ == st[idx as int]);
        let c = holds(&table[idx], q);
        if c {
            tc += 1;
            if rem[idx] {
                fc += 1;
            }
        }
        idx += 1;
    }
    (fc, tc)
}

proof fn lemma_candidates_extend(table: Seq<Seq<usize>>, rem: Seq<bool>, si: nat)
    requires
        si < rem.len(),
    ensures
        candidates(table, rem, si + 1) == candidates(table, rem, si) + if rem[si as int] {
            table[si as int]
        } else {
            Seq::empty()
        },
{
}

proof fn lemma_pick_extend(table: Seq<Seq<usize>>, rem: Seq<bool>, prefix: Seq<usize>, q: usize)
    ensures
        pick(table, rem, prefix.push(q)) == match pick(table, rem, prefix) {
            None => Some(q),
            Some(p) => if net_gain(table, rem, q) > net_gain(table, rem, p) || (net_gain(table, rem, q)
                == net_gain(table, rem, p) && total_count(table, q, table.len()) < total_count(table, p, table.len())) {
                Some(q)
            } else {
                Some(p)
            },
        },
{
    assert(prefix.push(q).drop_last() =~= prefix);
}

proof fn lemma_iter_done(table: Seq<Seq<usize>>, s: (Seq<bool>, Seq<bool>), k: nat)
    requires
        greedy_done(table, s),
    ensures
        greedy_iter(table, s, k) == s,
{
}

impl GreedyDecoder {
    /// Greedy peeling of one syndrome type against its stabilizer table.
    fn correct_with_syndrome(syndrome_bits: &[bool], stabilizer_table: &[Vec<usize>], num_data_qubits: usize) -> (correction: Vec<bool>)
        requires
            greedy_inputs_ok(stabs_of(stabilizer_table@), syndrome_bits@, num_data_qubits as nat),
            greedy_terminates(stabs_of(stabilizer_table@), syndrome_bits@, num_data_qubits as nat),
        ensures
            correction@ == spec_greedy_correction(stabs_of(stabilizer_table@), syndrome_bits@, num_data_qubits as nat),
            correction@.len() == num_data_qubits,
    {
        let ghost table = stabs_of(stabilizer_table@);
        let ghost n = num_data_qubits as nat;
        let mut correction: Vec<bool> = Vec::new();
        let mut i: usize = 0;
        while i < num_data_qubits
            invariant
                i <= num_data_qubits,
                correction@ == Seq::new(i as nat, |k: int| false),
            decreases num_data_qubits - i,
        {
            correction.push(false);
            i += 1;
        }
        let mut remaining: Vec<bool> = Vec::new();
        let mut i: usize = 0;
        while i < syndrome_bits.len()
            invariant
                i <= syndrome_bits@.len(),
                remaining@ == syndrome_bits@.take(i as int),
            decreases syndrome_bits.len() - i,
        {
            remaining.push(syndrome_bits[i]);
            assert(remaining@ =~= syndrome_bits@.take(i + 1));
            i += 1;
        }
        assert(remaining@ =~= syndrome_bits@);
        assert(correction@ =~= no_flags(n));
        let ghost init = (no_flags(n), syndrome_bits@);
        let ghost k0 = choose|k: nat| greedy_done(table, #[trigger] greedy_iter(table, init, k));
        let ghost goal = greedy_iter(table, init, k0);
        let ghost mut fuel: nat = k0;
        loop
            invariant
                table == stabs_of(stabilizer_table@),
                n == num_data_qubits,
                supports_within(table, n),
                2 * table.len() <= isize::MAX,
                correction@.len() == n,
                remaining@.len() == syndrome_bits@.len(),
                forall|i: int| 0 <= i < remaining@.len() && #[trigger] remaining@[i] ==> i < table.len(),
                (exists|i: int| 0 <= i < remaining@.len() && #[trigger] remaining@[i]) ==> remaining@.len() >= table.len(),
                greedy_iter(table, (correction@, remaining@), fuel) == goal,
                greedy_done(table, goal),
                goal.0 == spec_greedy_correction(table, syndrome_bits@, n),
            decreases fuel,
        {
            let ghost rem = remaining@;
            // choose the best candidate among the supports of flagged stabilizers
            let mut best: Option<usize> = None;
            let mut best_net: isize = 0;
            let mut best_total: usize = 0;
            let mut si: usize = 0;
            while si < remaining.len()
                invariant
                    table == stabs_of(stabilizer_table@),
                    rem == remaining@,
                    2 * table.len() <= isize::MAX,
                    forall|i: int| 0 <= i < rem.len() && #[trigger] rem[i] ==> i < table.len(),
                    (exists|i: int| 0 <= i < rem.len() && #[trigger] rem[i]) ==> rem.len() >= table.len(),
                    si <= rem.len(),
                    best == pick(table, rem, candidates(table, rem, si as nat)),
                    best matches Some(p) ==> best_net == net_gain(table, rem, p) && best_total == total_count(
                        table,
                        p,
                        table.len(),
                    ),
                decreases remaining.len() - si,
            {
                proof { lemma_candidates_extend(table, rem, si as nat); }
                if remaining[si] {
                    let support = &stabilizer_table[si];
                    assert(support@ == table[si as int]);
                    let ghost before = candidates(table, rem, si as nat);
                    let mut j: usize = 0;
                    assert(before + support@.take(0) =~= before);
                    while j < support.len()
                        invariant
                            table == stabs_of(stabilizer_table@),
                            rem == remaining@,
                            2 * table.len() <= isize::MAX,
                            si < rem.len(),
                            rem[si as int],
                            rem.len() >= table.len(),
                            support@ == table[si as int],
                            before == candidates(table, rem, si as nat),
                            j <= support@.len(),
                            best == pick(table, rem, before + support@.take(j as int)),
                            best matches Some(p) ==> best_net == net_gain(table, rem, p) && best_total == total_count(
                                table,
                                p,
                                table.len(),
                            ),
                        decreases support.len() - j,
                    {
                        let q = support[j];
                        let (fc, tc) = stabilizer_counts(stabilizer_table, &remaining, q);
                        let net: isize = 2 * (fc as isize) - (tc as isize);
                        assert(net == net_gain(table, rem, q));
                        proof {
                            assert((before + support@.take(j + 1)) =~= (before + support@.take(j as int)).push(q));
                            lemma_pick_extend(table, rem, before + support@.take(j as int), q);
                        }
                        let better = match best {
                            None => true,
                            Some(_) => net > best_net || (net == best_net && tc < best_total),
                        };
                        if better {
                            best = Some(q);
                            best_net = net;
                            best_total = tc;
                        }
                        j += 1;
                    }
                    assert(support@.take(support@.len() as int) =~= support@);
                }
                si += 1;
            }
            match best {
                None => {
                    proof { lemma_iter_done(table, (correction@, remaining@), fuel); }
                    return correction;
                },
                Some(q) => {
                    let ghost state = (correction@, remaining@);
                    assert(choice(table, rem) == Some(q));
                    assert(fuel > 0) by {
                        if fuel == 0 {
                            assert(greedy_iter(table, state, 0) == state);
                        }
                    }
                    // q lies in the support of a flagged stabilizer, hence on a data qubit
                    proof {
                        lemma_pick_member(table, rem, candidates(table, rem, rem.len()));
                        lemma_candidate_member(table, rem, rem.len(), q);
                        let (si, j) = choose|si: int, j: int| 0 <= si < rem.len() && rem[si] && 0 <= j < table[si].len()
                            && #[trigger] table[si][j] == q;
                        assert(remaining@[si]);
                        assert(si < table.len());
                        assert(q < n);
                    }
                    let flipped = !correction[q];
                    correction.set(q, flipped);
                    let mut idx: usize = 0;
                    while idx < stabilizer_table.len()
                        invariant
                            table == stabs_of(stabilizer_table@),
                            rem.len() >= table.len(),
                            remaining@.len() == rem.len(),
                            idx <= table.len(),
                            forall|k: int| 0 <= k < idx ==> #[trigger] remaining@[k] == toggle_flags(table, rem, q)[k],
                            forall|k: int| idx <= k < rem.len() ==> #[trigger] remaining@[k] == rem[k],
                        decreases stabilizer_table.len() - idx,
                    {
                        assert(stabilizer_table@[idx as int]@ == table[idx as int]);
                        if holds(&stabilizer_table[idx], q) {
                            let v = !remaining[idx];
                            remaining.set(idx, v);
                        }
                        idx += 1;
                    }
                    assert(remaining@ =~= toggle_flags(table, rem, q));
                    assert((correction@, remaining@) == greedy_step(table, state));
                    proof { fuel = (fuel - 1) as nat; }
                },
            }
        }
    }
}

/// The chosen candidate is one of the candidates.
pub(crate) proof fn lemma_pick_member(table: Seq<Seq<usize>>, rem: Seq<bool>, cands: Seq<usize>)
    ensures
        pick(table, rem, cands) matches Some(q) ==> cands.contains(q),
    decreases cands.len(),
{
    if cands.len() > 0 {
        lemma_pick_member(table, rem, cands.drop_last());
        if let Some(p) = pick(table, rem, cands.drop_last()) {
            let i = choose|i: int| 0 <= i < cands.drop_last().len() && cands.drop_last()[i] == p;
            assert(cands[i] == p);
        }
        assert(cands[cands.len() - 1] == cands.last());
    }
}

/// Every candidate comes from the support of a flagged stabilizer.
pub(crate) proof fn lemma_candidate_member(table: Seq<Seq<usize>>, rem: Seq<bool>, n: nat, q: usize)
    requires
        candidates(table, rem, n).contains(q),
    ensures
        exists|si: int, j: int| 0 <= si < n && rem[si] && 0 <= j < table[si].len() && #[trigger] table[si][j] == q,
    decreases n,
{
    let m = (n - 1) as nat;
    let prev = candidates(table, rem, m);
    let i = choose|i: int| 0 <= i < candidates(table, rem, n).len() && candidates(table, rem, n)[i] == q;
    if i < prev.len() {
        assert(prev[i] == q);
        lemma_candidate_member(table, rem, m, q);
    } else {
        let j = i - prev.len();
        assert(rem[m as int]);
        assert(table[m as int][j] == q);
    }
}

} // verus!
