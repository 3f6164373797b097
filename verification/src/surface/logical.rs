use vstd::prelude::*;

use crate::surface::code::{lemma_qubit_counts, lemma_supports_on_data, SurfaceCode};
use crate::surface::commute::{column, count_upto, lemma_stabilizers_even_on_lines, occurrences, overlap, overlap_upto, row};
use crate::surface::syndrome::hit_count;
use crate::surface::decoder::{candidates, choice, greedy_done, no_flags, spec_greedy_correction, Decoder, GreedyDecoder};
use crate::surface::syndrome::{extract_syndrome, lemma_no_error_no_flag, spec_flags, Syndrome};

verus! {

/// Tracks whether a logical error remains after error and correction.
///
/// Logical X is X on a whole row of the lattice, logical Z is Z on a
/// whole column. Every X stabilizer overlaps every column evenly and every Z
/// stabilizer every row, so the parity of the residual on column 0 (for X)
/// or row 0 (for Z) tells whether a logical error occurred.
#[derive(Debug, Clone)]
pub struct LogicalErrorTracker {
    distance: usize,
}

/// Parity of the positions `p` in `positions` where `a[p]` and `b[p]` differ.
pub open spec fn residual_parity(positions: Seq<int>, a: Seq<bool>, b: Seq<bool>) -> bool
    decreases positions.len(),
{
    if positions.len() == 0 {
        false
    } else {
        let p = positions.last();
        residual_parity(positions.drop_last(), a, b) != (a[p] != b[p])
    }
}

/// Data qubits of column 0: IDs r * d.
pub open spec fn column_zero(d: nat) -> Seq<int> {
    Seq::new(d, |r: int| r * d)
}

/// Data qubits of row 0: IDs c.
pub open spec fn row_zero(d: nat) -> Seq<int> {
    Seq::new(d, |c: int| c)
}

impl LogicalErrorTracker {
    /// A tracker for a code of the given distance.
    pub fn new(distance: usize) -> (t: Self)
        ensures
            t.spec_distance() == distance,
    {
        LogicalErrorTracker { distance }
    }

    /// The code distance.
    pub closed spec fn spec_distance(&self) -> nat {
        self.distance as nat
    }

    /// The code distance.
    pub fn distance(&self) -> (d: usize)
        ensures
            d == self.spec_distance(),
    {
        self.distance
    }

    /// True when X errors combined with the X correction have odd parity on
    /// column 0, i.e. form a logical X operator.
    pub fn has_logical_x_error(&self, x_errors: &[bool], x_correction: &[bool]) -> (b: bool)
        requires
            self.spec_distance() > 0 ==> (self.spec_distance() - 1) * self.spec_distance() < x_errors@.len(),
            self.spec_distance() > 0 ==> (self.spec_distance() - 1) * self.spec_distance() < x_correction@.len(),
        ensures
            b == residual_parity(column_zero(self.spec_distance()), x_errors@, x_correction@),
    {
        let d = self.distance;
        let ghost pos = column_zero(d as nat);
        let mut parity = false;
        let mut r: usize = 0;
        while r < d
            invariant
                d == self.spec_distance(),
                pos == column_zero(d as nat),
                d > 0 ==> (d - 1) * d < x_errors@.len(),
                d > 0 ==> (d - 1) * d < x_correction@.len(),
                r <= d,
                parity == residual_parity(pos.take(r as int), x_errors@, x_correction@),
            decreases d - r,
        {
            assert(r * d <= (d - 1) * d) by (nonlinear_arith)
                requires
                    r < d;
            assert(pos.take(r + 1).drop_last() =~= pos.take(r as int));
            assert(x_errors@.len() == x_errors.len());
            let i = r * d;
            parity = parity != (x_errors[i] != x_correction[i]);
            r += 1;
        }
        assert(pos.take(d as int) =~= pos);
        parity
    }

    /// True when Z errors combined with the Z correction have odd parity on
    /// row 0, i.e. form a logical Z operator.
    pub fn has_logical_z_error(&self, z_errors: &[bool], z_correction: &[bool]) -> (b: bool)
        requires
            self.spec_distance() <= z_errors@.len(),
            self.spec_distance() <= z_correction@.len(),
        ensures
            b == residual_parity(row_zero(self.spec_distance()), z_errors@, z_correction@),
    {
        let d = self.distance;
        let ghost pos = row_zero(d as nat);
        let mut parity = false;
        let mut c: usize = 0;
        while c < d
            invariant
                d == self.spec_distance(),
                pos == row_zero(d as nat),
                d <= z_errors@.len(),
                d <= z_correction@.len(),
                c <= d,
                parity == residual_parity(pos.take(c as int), z_errors@, z_correction@),
            decreases d - c,
        {
            assert(pos.take(c + 1).drop_last() =~= pos.take(c as int));
            parity = parity != (z_errors[c] != z_correction[c]);
            c += 1;
        }
        assert(pos.take(d as int) =~= pos);
        parity
    }
}

/// A correction that agrees with the error on the checked qubits leaves no
/// logical error; in particular no error and no correction never do.
pub proof fn lemma_matching_correction_no_logical_error(positions: Seq<int>, errors: Seq<bool>, correction: Seq<bool>)
    requires
        forall|i: int| 0 <= i < positions.len() ==> errors[#[trigger] positions[i]] == correction[positions[i]],
    ensures
        !residual_parity(positions, errors, correction),
    decreases positions.len(),
{
    if positions.len() > 0 {
        let p = positions.drop_last();
        assert forall|i: int| 0 <= i < p.len() implies errors[#[trigger] p[i]] == correction[p[i]] by {
            assert(p[i] == positions[i]);
        }
        lemma_matching_correction_no_logical_error(p, errors, correction);
        assert(errors[positions[positions.len() - 1]] == correction[positions[positions.len() - 1]]);
    }
}

/// A trial fails when the greedy correction of the syndrome of its error
/// pattern leaves a logical X error (odd residual on column 0) or a logical Z
/// error (odd residual on row 0).
pub open spec fn greedy_trial_fails(code: SurfaceCode, d: nat, x_errors: Seq<bool>, z_errors: Seq<bool>) -> bool {
    let n = code.spec_data().len();
    ||| residual_parity(
        column_zero(d),
        x_errors,
        spec_greedy_correction(code.z_stabs(), spec_flags(code.z_stabs(), x_errors), n),
    )
    ||| residual_parity(
        row_zero(d),
        z_errors,
        spec_greedy_correction(code.x_stabs(), spec_flags(code.x_stabs(), z_errors), n),
    )
}

/// Number of failing trials among the first `k`.
pub open spec fn greedy_failures(code: SurfaceCode, d: nat, trials: Seq<(Vec<bool>, Vec<bool>)>, k: nat) -> nat
    decreases k,
{
    if k == 0 {
        0
    } else {
        greedy_failures(code, d, trials, (k - 1) as nat) + if greedy_trial_fails(
            code,
            d,
            trials[k - 1].0@,
            trials[k - 1].1@,
        ) {
            1nat
        } else {
            0nat
        }
    }
}

/// The tracker's checked qubits (column 0 and row 0) lie among `n` data qubits.
pub open spec fn tracker_fits(d: nat, n: nat) -> bool {
    &&& d > 0 ==> (d - 1) * d < n
    &&& d <= n
}

impl LogicalErrorTracker {
    /// Decodes the syndrome of each drawn error pattern (X errors, Z errors)
    /// with the greedy decoder and counts the trials that fail: decoding
    /// returns an error or leaves a logical error.
    pub fn count_greedy_failures(&self, code: &SurfaceCode, trials: &[(Vec<bool>, Vec<bool>)]) -> (count: usize)
        requires
            code.wf(),
            tracker_fits(self.spec_distance(), code.spec_data().len()),
            forall|t: int| 0 <= t < trials@.len() ==> (#[trigger] trials@[t]).0@.len() == code.spec_data().len()
                && trials@[t].1@.len() == code.spec_data().len(),
        ensures
            count == greedy_failures(*code, self.spec_distance(), trials@, trials@.len()),
            count <= trials@.len(),
    {
        let ghost n = code.spec_data().len();
        proof {
            code.lemma_wf();
            lemma_qubit_counts(code);
            lemma_supports_on_data(code);
            lemma_stab_count_fits(code.spec_distance());
        }
        let mut count: usize = 0;
        let mut i: usize = 0;
        while i < trials.len()
            invariant
                code.wf(),
                n == code.spec_data().len(),
                n == code.spec_distance() * code.spec_distance(),
                2 * code.spec_distance() * code.spec_distance() <= usize::MAX,
                code.x_stabs().len() == (code.spec_distance() * code.spec_distance() - 1) / 2,
                code.z_stabs().len() == (code.spec_distance() * code.spec_distance() - 1) / 2,
                crate::surface::code::supports_within(code.x_stabs(), n),
                crate::surface::code::supports_within(code.z_stabs(), n),
                tracker_fits(self.spec_distance(), n),
                2 * code.x_stabs().len() <= isize::MAX,
                forall|t: int| 0 <= t < trials@.len() ==> (#[trigger] trials@[t]).0@.len() == n && trials@[t].1@.len() == n,
                i <= trials@.len(),
                count == greedy_failures(*code, self.spec_distance(), trials@, i as nat),
                count <= i,
            decreases trials@.len() - i,
        {
            let x_errors = &trials[i].0;
            let z_errors = &trials[i].1;
            assert(trials@[i as int] == trials[i as int]);
            let syndrome = extract_syndrome(code, x_errors.as_slice(), z_errors.as_slice());
            assert(syndrome.x_syndrome@.len() == code.x_stabs().len());
            assert(syndrome.z_syndrome@.len() == code.z_stabs().len());
            match GreedyDecoder.decode(code, &syndrome) {
                Ok(result) => {
                    if self.has_logical_x_error(x_errors.as_slice(), result.x_correction.as_slice())
                        || self.has_logical_z_error(z_errors.as_slice(), result.z_correction.as_slice()) {
                        count += 1;
                    }
                },
                Err(_) => {
                    count += 1;
                },
            }
            i += 1;
        }
        count
    }
}

proof fn lemma_stab_count_fits(d: nat)
    requires
        2 * d * d <= usize::MAX,
    ensures
        2 * ((d * d - 1) / 2) <= isize::MAX,
{
    assert(usize::MAX == 2 * isize::MAX + 1) by {
        assert(usize::BITS == 32 || usize::BITS == 64);
    }
    let dd = d * d;
    assert(2 * ((dd - 1) / 2) <= dd);
    assert(2 * d * d == 2 * dd) by (nonlinear_arith)
        requires
            dd == d * d;
}

impl LogicalErrorTracker {
    /// Decodes the syndrome of each drawn error pattern (X errors, Z errors)
    /// with `decoder` and counts the trials that fail: decoding returns an
    /// error or leaves a logical error. The decoder must accept every
    /// syndrome with one bit per stabilizer.
    pub fn count_failures<D: Decoder>(&self, code: &SurfaceCode, decoder: &D, trials: &[(Vec<bool>, Vec<bool>)]) -> (count:
        usize)
        requires
            code.wf(),
            tracker_fits(self.spec_distance(), code.spec_data().len()),
            forall|t: int| 0 <= t < trials@.len() ==> (#[trigger] trials@[t]).0@.len() == code.spec_data().len()
                && trials@[t].1@.len() == code.spec_data().len(),
            forall|s: Syndrome|
                s.x_syndrome@.len() == code.x_stabs().len() && s.z_syndrome@.len() == code.z_stabs().len()
                    ==> #[trigger] decoder.decode_requires(code, &s),
        ensures
            count <= trials@.len(),
    {
        let ghost n = code.spec_data().len();
        proof {
            lemma_supports_on_data(code);
            lemma_qubit_counts(code);
        }
        let mut count: usize = 0;
        let mut i: usize = 0;
        while i < trials.len()
            invariant
                code.wf(),
                n == code.spec_data().len(),
                n == code.spec_distance() * code.spec_distance(),
                crate::surface::code::supports_within(code.x_stabs(), n),
                crate::surface::code::supports_within(code.z_stabs(), n),
                tracker_fits(self.spec_distance(), n),
                forall|t: int| 0 <= t < trials@.len() ==> (#[trigger] trials@[t]).0@.len() == n && trials@[t].1@.len() == n,
                forall|s: Syndrome|
                    s.x_syndrome@.len() == code.x_stabs().len() && s.z_syndrome@.len() == code.z_stabs().len()
                        ==> #[trigger] decoder.decode_requires(code, &s),
                i <= trials@.len(),
                count <= i,
            decreases trials@.len() - i,
        {
            let x_errors = &trials[i].0;
            let z_errors = &trials[i].1;
            assert(trials@[i as int] == trials[i as int]);
            let syndrome = extract_syndrome(code, x_errors.as_slice(), z_errors.as_slice());
            assert(decoder.decode_requires(code, &syndrome));
            match decoder.decode(code, &syndrome) {
                Ok(result) => {
                    if self.has_logical_x_error(x_errors.as_slice(), result.x_correction.as_slice())
                        || self.has_logical_z_error(z_errors.as_slice(), result.z_correction.as_slice()) {
                        count += 1;
                    }
                },
                Err(_) => {
                    count += 1;
                },
            }
            i += 1;
        }
        count
    }
}

/// The greedy decoder accepts every syndrome with one bit per stabilizer of
/// a well-formed code.
pub proof fn lemma_greedy_accepts_full_syndromes(code: &SurfaceCode)
    requires
        code.wf(),
    ensures
        forall|s: Syndrome|
            s.x_syndrome@.len() == code.x_stabs().len() && s.z_syndrome@.len() == code.z_stabs().len()
                ==> #[trigger] GreedyDecoder.decode_requires(code, &s),
{
    code.lemma_wf();
    lemma_qubit_counts(code);
    lemma_supports_on_data(code);
    lemma_stab_count_fits(code.spec_distance());
}

/// Peeling an all-clear syndrome toggles nothing.
proof fn lemma_greedy_no_flags(table: Seq<Seq<usize>>, syn: Seq<bool>, n: nat)
    requires
        forall|i: int| 0 <= i < syn.len() ==> !#[trigger] syn[i],
    ensures
        spec_greedy_correction(table, syn, n) == no_flags(n),
{
    lemma_no_candidates(table, syn, syn.len());
    assert(choice(table, syn) is None);
    let s = (no_flags(n), syn);
    assert(greedy_done(table, crate::surface::decoder::greedy_iter(table, s, 0)));
    let k = choose|k: nat| greedy_done(table, #[trigger] crate::surface::decoder::greedy_iter(table, s, k));
    assert(crate::surface::decoder::greedy_iter(table, s, k) == s);
}

proof fn lemma_no_candidates(table: Seq<Seq<usize>>, rem: Seq<bool>, k: nat)
    requires
        k <= rem.len(),
        forall|i: int| 0 <= i < rem.len() ==> !#[trigger] rem[i],
    ensures
        candidates(table, rem, k).len() == 0,
    decreases k,
{
    if k > 0 {
        lemma_no_candidates(table, rem, (k - 1) as nat);
    }
}

/// A trial without any error never fails.
pub proof fn lemma_error_free_trial_succeeds(code: &SurfaceCode, d: nat, x_errors: Seq<bool>, z_errors: Seq<bool>)
    requires
        code.wf(),
        tracker_fits(d, code.spec_data().len()),
        x_errors.len() == code.spec_data().len(),
        z_errors.len() == code.spec_data().len(),
        forall|k: int| 0 <= k < x_errors.len() ==> !#[trigger] x_errors[k],
        forall|k: int| 0 <= k < z_errors.len() ==> !#[trigger] z_errors[k],
    ensures
        !greedy_trial_fails(*code, d, x_errors, z_errors),
{
    let n = code.spec_data().len();
    lemma_qubit_counts(code);
    lemma_supports_on_data(code);
    lemma_no_error_no_flag(code.z_stabs(), x_errors);
    lemma_no_error_no_flag(code.x_stabs(), z_errors);
    lemma_greedy_no_flags(code.z_stabs(), spec_flags(code.z_stabs(), x_errors), n);
    lemma_greedy_no_flags(code.x_stabs(), spec_flags(code.x_stabs(), z_errors), n);
    let cz = column_zero(d);
    let rz = row_zero(d);
    assert forall|i: int| 0 <= i < cz.len() implies x_errors[#[trigger] cz[i]] == no_flags(n)[cz[i]] by {
        assert(i * d <= (d - 1) * d) by (nonlinear_arith)
            requires
                0 <= i < d;
    }
    assert forall|i: int| 0 <= i < rz.len() implies z_errors[#[trigger] rz[i]] == no_flags(n)[rz[i]] by {}
    lemma_matching_correction_no_logical_error(cz, x_errors, no_flags(n));
    lemma_matching_correction_no_logical_error(rz, z_errors, no_flags(n));
}

/// A logical error of either kind fails a trial on its own: an odd X
/// residual on column 0 does, whatever the Z errors, and an odd Z residual on
/// row 0 does, whatever the X errors.
pub proof fn lemma_either_logical_error_fails(code: SurfaceCode, d: nat, x_errors: Seq<bool>, z_errors: Seq<bool>)
    ensures
        residual_parity(
            column_zero(d),
            x_errors,
            spec_greedy_correction(code.z_stabs(), spec_flags(code.z_stabs(), x_errors), code.spec_data().len()),
        ) ==> greedy_trial_fails(code, d, x_errors, z_errors),
        residual_parity(
            row_zero(d),
            z_errors,
            spec_greedy_correction(code.x_stabs(), spec_flags(code.x_stabs(), z_errors), code.spec_data().len()),
        ) ==> greedy_trial_fails(code, d, x_errors, z_errors),
{
}

/// Errors on every data qubit of column `c` of a `d x d` lattice.
pub open spec fn column_errors(d: nat, c: int) -> Seq<bool> {
    Seq::new(d * d, |q: int| q % (d as int) == c)
}

/// Errors on every data qubit of row `r` of a `d x d` lattice.
pub open spec fn row_errors(d: nat, r: int) -> Seq<bool> {
    Seq::new(d * d, |q: int| q / (d as int) == r)
}

proof fn lemma_cell_id(d: nat, r: int, c: int, x: int)
    requires
        d > 0,
        0 <= c < d,
        0 <= r,
        0 <= x,
    ensures
        (r * d + c == x) == (x % (d as int) == c && x / (d as int) == r),
{
    if r * d + c == x {
        vstd::arithmetic::div_mod::lemma_fundamental_div_mod_converse(x, d as int, r, c);
    }
    if x % (d as int) == c && x / (d as int) == r {
        vstd::arithmetic::div_mod::lemma_fundamental_div_mod(x, d as int);
        assert(d * r == r * d) by (nonlinear_arith);
    }
}

/// How often a data qubit occurs in a column or a row: once when it lies on
/// it.
proof fn lemma_line_occurrences(d: nat, k: int, x: usize, vertical: bool, n: int)
    requires
        d > 0,
        0 <= k < d,
        0 <= n <= d,
        x < d * d,
        2 * d * d <= usize::MAX,
    ensures
        count_upto(x, if vertical { column(d, k) } else { row(d, k) }, n) == if vertical {
            if x as int % (d as int) == k && x as int / (d as int) < n { 1nat } else { 0nat }
        } else {
            if x as int / (d as int) == k && x as int % (d as int) < n { 1nat } else { 0nat }
        },
    decreases n,
{
    if n > 0 {
        lemma_line_occurrences(d, k, x, vertical, n - 1);
        let m = n - 1;
        assert(m * d + k <= (d - 1) * d + (d - 1)) by (nonlinear_arith)
            requires
                0 <= m < d,
                0 <= k < d,
        ;
        assert(k * d + m <= (d - 1) * d + (d - 1)) by (nonlinear_arith)
            requires
                0 <= m < d,
                0 <= k < d,
        ;
        assert((d - 1) * d + (d - 1) < d * d) by (nonlinear_arith)
            requires
                d > 0,
        ;
        assert(d * d <= usize::MAX) by (nonlinear_arith)
            requires
                2 * d * d <= usize::MAX,
        ;
        lemma_cell_id(d, m, k, x as int);
        lemma_cell_id(d, k, m, x as int);
        if vertical {
            assert(column(d, k)[m] == (m * d + k) as usize);
            assert(((m * d + k) as usize == x) == (m * d + k == x as int));
            assert((column(d, k)[m] == x) == (x as int % (d as int) == k && x as int / (d as int) == m));
        } else {
            assert(row(d, k)[m] == (k * d + m) as usize);
            assert(((k * d + m) as usize == x) == (k * d + m == x as int));
            assert((row(d, k)[m] == x) == (x as int / (d as int) == k && x as int % (d as int) == m));
        }
    }
}

proof fn lemma_overlap_prefix(s: Seq<usize>, t: Seq<usize>, m: int)
    requires
        0 <= m < s.len(),
    ensures
        overlap_upto(s, t, m) == overlap_upto(s.drop_last(), t, m),
    decreases m,
{
    if m > 0 {
        lemma_overlap_prefix(s, t, m - 1);
    }
}

/// The errors on a whole line hit a support as often as the support
/// overlaps the line.
proof fn lemma_line_hits(d: nat, k: int, vertical: bool, sup: Seq<usize>)
    requires
        d > 0,
        0 <= k < d,
        2 * d * d <= usize::MAX,
        forall|j: int| 0 <= j < sup.len() ==> #[trigger] sup[j] < d * d,
    ensures
        hit_count(sup, if vertical { column_errors(d, k) } else { row_errors(d, k) }) == overlap(
            sup,
            if vertical { column(d, k) } else { row(d, k) },
        ),
    decreases sup.len(),
{
    if sup.len() > 0 {
        let line = if vertical { column(d, k) } else { row(d, k) };
        let errs = if vertical { column_errors(d, k) } else { row_errors(d, k) };
        let last = sup.last();
        lemma_line_hits(d, k, vertical, sup.drop_last());
        lemma_overlap_prefix(sup, line, sup.len() - 1);
        lemma_line_occurrences(d, k, last, vertical, d as int);
        assert(last as int / (d as int) < d) by {
            vstd::arithmetic::div_mod::lemma_multiply_divide_lt(last as int, d as int, d as int);
        }
        assert(last as int % (d as int) < d) by {
            vstd::arithmetic::div_mod::lemma_mod_bound(last as int, d as int);
        }
        assert(occurrences(last, line) == count_upto(last, line, d as int));
    }
}

proof fn lemma_parity_one(pos: Seq<int>, a: Seq<bool>, b: Seq<bool>, t: int)
    requires
        0 <= t < pos.len(),
        forall|k: int| 0 <= k < pos.len() ==> (a[#[trigger] pos[k]] != b[pos[k]]) == (k == t),
    ensures
        residual_parity(pos, a, b),
    decreases pos.len(),
{
    let p = pos.drop_last();
    if t == pos.len() - 1 {
        assert forall|i: int| 0 <= i < p.len() implies a[#[trigger] p[i]] == b[p[i]] by {
            assert(p[i] == pos[i]);
        }
        lemma_matching_correction_no_logical_error(p, a, b);
    } else {
        assert forall|k: int| 0 <= k < p.len() implies (a[#[trigger] p[k]] != b[p[k]]) == (k == t) by {
            assert(p[k] == pos[k]);
        }
        lemma_parity_one(p, a, b, t);
    }
    assert(a[pos[pos.len() - 1]] != b[pos[pos.len() - 1]] <==> pos.len() - 1 == t);
}

/// At the code's own distance, Z errors on a whole column of the lattice with
/// no X errors make a failing trial: every X stabilizer meets the column an
/// even number of times, so nothing is flagged and nothing corrected, and the
/// column crosses row 0 once, a logical Z. Likewise X errors on a whole row
/// with no Z errors are a logical X.
pub proof fn lemma_logical_chains_fail(code: &SurfaceCode, line: int)
    requires
        code.wf(),
        0 <= line < code.spec_distance(),
    ensures
        greedy_trial_fails(
            *code,
            code.spec_distance(),
            no_flags(code.spec_data().len()),
            column_errors(code.spec_distance(), line),
        ),
        greedy_trial_fails(
            *code,
            code.spec_distance(),
            row_errors(code.spec_distance(), line),
            no_flags(code.spec_data().len()),
        ),
{
    code.lemma_wf();
    lemma_qubit_counts(code);
    lemma_supports_on_data(code);
    let d = code.spec_distance();
    let n = code.spec_data().len();
    let nf = no_flags(n);
    assert(d > 0);
    assert(d <= d * d) by (nonlinear_arith)
        requires
            d > 0,
    ;
    // Z errors on column `line`.
    let zc = column_errors(d, line);
    assert forall|i: int| 0 <= i < code.x_stabs().len() implies !#[trigger] spec_flags(code.x_stabs(), zc)[i] by {
        lemma_line_hits(d, line, true, code.x_stabs()[i]);
        lemma_stabilizers_even_on_lines(code, i, line);
    }
    lemma_greedy_no_flags(code.x_stabs(), spec_flags(code.x_stabs(), zc), n);
    assert forall|k: int| 0 <= k < row_zero(d).len() implies (zc[#[trigger] row_zero(d)[k]] != nf[row_zero(d)[k]]) == (k
        == line) by {
        vstd::arithmetic::div_mod::lemma_small_mod(k as nat, d);
    }
    lemma_parity_one(row_zero(d), zc, nf, line);
    // X errors on row `line`.
    let xr = row_errors(d, line);
    assert forall|i: int| 0 <= i < code.z_stabs().len() implies !#[trigger] spec_flags(code.z_stabs(), xr)[i] by {
        lemma_line_hits(d, line, false, code.z_stabs()[i]);
        lemma_stabilizers_even_on_lines(code, i, line);
    }
    lemma_greedy_no_flags(code.z_stabs(), spec_flags(code.z_stabs(), xr), n);
    assert forall|k: int| 0 <= k < column_zero(d).len() implies (xr[#[trigger] column_zero(d)[k]] != nf[column_zero(
        d,
    )[k]]) == (k == line) by {
        vstd::arithmetic::div_mod::lemma_fundamental_div_mod_converse(k * d, d as int, k, 0);
        assert(k * d < d * d) by (nonlinear_arith)
            requires
                0 <= k < d,
        ;
        assert(k * d >= 0) by (nonlinear_arith)
            requires
                0 <= k,
                d > 0,
        ;
    }
    lemma_parity_one(column_zero(d), xr, nf, line);
}

} // verus!
