//! Linear algebra over GF(2): what the elimination in `gf2_rank` computes.
//!
//! Vectors over GF(2) are sequences of booleans (`true` is 1, `!=` is
//! addition). The laws at the end of this file show that the number of pivots
//! found by `spec_gf2_rank` is the largest number of rows of the matrix that
//! are linearly independent over GF(2), and that it equals the rank of the
//! transposed matrix.
use vstd::prelude::*;
use vstd::relations::injective_on;
use vstd::set_lib::{lemma_len_subset, lemma_map_size, lemma_map_size_bound, lemma_set_disjoint_lens};

use crate::ldpc::code::{
    clear_column, elim_from, elim_step, first_pivot, lemma_first_pivot_bounds, lemma_step_binary,
    spec_gf2_rank, swap_rows, xor_rows,
};
use crate::ldpc::parity_check::{is_binary_matrix, spec_transpose};

verus! {

// ---------------------------------------------------------------------------
// Vectors and sums of rows over GF(2).
// ---------------------------------------------------------------------------

/// The zero vector of length `n`.
pub open spec fn zeros(n: nat) -> Seq<bool> {
    Seq::new(n, |i: int| false)
}

/// The vector of length `n` with a single 1 at position `k`.
pub open spec fn unit(n: nat, k: int) -> Seq<bool> {
    Seq::new(n, |i: int| i == k)
}

/// Sum of two vectors over GF(2).
pub open spec fn xor_vec(a: Seq<bool>, b: Seq<bool>) -> Seq<bool> {
    Seq::new(a.len(), |i: int| a[i] != b[i])
}

/// Entry `j` of the GF(2) sum of those rows `i < n` of `m` for which
/// `pick[i]` holds.
pub open spec fn sum_bit(m: Seq<Seq<bool>>, pick: Seq<bool>, j: int, n: nat) -> bool
    decreases n,
{
    if n == 0 {
        false
    } else {
        sum_bit(m, pick, j, (n - 1) as nat) != (pick[n - 1] && m[n - 1][j])
    }
}

/// The GF(2) sum of the rows of `m` picked by `pick`, as a vector of length `cols`.
pub open spec fn combo(m: Seq<Seq<bool>>, pick: Seq<bool>, cols: nat) -> Seq<bool> {
    Seq::new(cols, |j: int| sum_bit(m, pick, j, m.len()))
}

/// `v` is a GF(2) sum of some of the rows of `m`.
pub open spec fn in_span(m: Seq<Seq<bool>>, v: Seq<bool>, cols: nat) -> bool {
    exists|pick: Seq<bool>| pick.len() == m.len() && #[trigger] combo(m, pick, cols) == v
}

/// Every row of `v` is a GF(2) sum of rows of `m`.
pub open spec fn spans(m: Seq<Seq<bool>>, v: Seq<Seq<bool>>, cols: nat) -> bool {
    forall|i: int| 0 <= i < v.len() ==> in_span(m, #[trigger] v[i], cols)
}

/// No nonempty selection of the rows of `m` sums to zero over GF(2).
pub open spec fn independent(m: Seq<Seq<bool>>, cols: nat) -> bool {
    forall|pick: Seq<bool>|
        pick.len() == m.len() && #[trigger] combo(m, pick, cols) == zeros(cols) ==> pick == zeros(m.len())
}

/// Every row of `m` has length `cols`.
pub open spec fn well_sized(m: Seq<Seq<bool>>, cols: nat) -> bool {
    forall|i: int| 0 <= i < m.len() ==> (#[trigger] m[i]).len() == cols
}

/// A 0/1 matrix read as a matrix over GF(2).
pub open spec fn bits(m: Seq<Seq<u8>>, cols: nat) -> Seq<Seq<bool>> {
    Seq::new(m.len(), |i: int| Seq::new(cols, |j: int| m[i][j] == 1))
}

/// The rows of `m` listed in `idx`, in that order.
pub open spec fn pick_rows<T>(m: Seq<T>, idx: Seq<int>) -> Seq<T> {
    Seq::new(idx.len(), |t: int| m[idx[t]])
}

/// `idx` lists distinct row indices below `rows`.
pub open spec fn distinct_indices(idx: Seq<int>, rows: nat) -> bool {
    &&& forall|t: int| 0 <= t < idx.len() ==> 0 <= #[trigger] idx[t] < rows
    &&& forall|s: int, t: int| 0 <= s < t < idx.len() ==> idx[s] != idx[t]
}

/// The rows of the 0/1 matrix `m` listed in `idx` are distinct rows that are
/// linearly independent over GF(2): no nonempty selection of them sums to the
/// zero vector mod 2.
pub open spec fn independent_rows(m: Seq<Seq<u8>>, idx: Seq<int>, cols: nat) -> bool {
    &&& distinct_indices(idx, m.len())
    &&& independent(bits(pick_rows(m, idx), cols), cols)
}

// ---------------------------------------------------------------------------
// Basic facts about sums of rows.
// ---------------------------------------------------------------------------

proof fn lemma_sum_bit_xor(m: Seq<Seq<bool>>, p: Seq<bool>, q: Seq<bool>, j: int, n: nat)
    requires
        n <= p.len(),
        p.len() == q.len(),
    ensures
        sum_bit(m, xor_vec(p, q), j, n) == (sum_bit(m, p, j, n) != sum_bit(m, q, j, n)),
    decreases n,
{
    if n > 0 {
        lemma_sum_bit_xor(m, p, q, j, (n - 1) as nat);
    }
}

proof fn lemma_sum_bit_zero(m: Seq<Seq<bool>>, k: nat, j: int, n: nat)
    requires
        n <= k,
    ensures
        !sum_bit(m, zeros(k), j, n),
    decreases n,
{
    if n > 0 {
        lemma_sum_bit_zero(m, k, j, (n - 1) as nat);
    }
}

proof fn lemma_sum_bit_unit(m: Seq<Seq<bool>>, k: nat, t: int, j: int, n: nat)
    requires
        n <= k,
    ensures
        sum_bit(m, unit(k, t), j, n) == (0 <= t < n && m[t][j]),
    decreases n,
{
    if n > 0 {
        lemma_sum_bit_unit(m, k, t, j, (n - 1) as nat);
    }
}

/// Only row `t` has a 1 in column `j`: the sum in that column is `pick[t]`.
proof fn lemma_sum_bit_pivot(m: Seq<Seq<bool>>, p: Seq<bool>, t: int, j: int, n: nat)
    requires
        forall|i: int| 0 <= i < n ==> m[i][j] == (i == t),
    ensures
        sum_bit(m, p, j, n) == (0 <= t < n && p[t]),
    decreases n,
{
    if n > 0 {
        lemma_sum_bit_pivot(m, p, t, j, (n - 1) as nat);
    }
}

proof fn lemma_combo_zero(m: Seq<Seq<bool>>, cols: nat)
    ensures
        combo(m, zeros(m.len()), cols) == zeros(cols),
{
    assert forall|j: int| 0 <= j < cols implies !#[trigger] sum_bit(m, zeros(m.len()), j, m.len()) by {
        lemma_sum_bit_zero(m, m.len(), j, m.len());
    }
    assert(combo(m, zeros(m.len()), cols) =~= zeros(cols));
}

proof fn lemma_combo_unit(m: Seq<Seq<bool>>, t: int, cols: nat)
    requires
        0 <= t < m.len(),
        m[t].len() == cols,
    ensures
        combo(m, unit(m.len(), t), cols) == m[t],
        in_span(m, m[t], cols),
{
    assert forall|j: int| 0 <= j < cols implies #[trigger] sum_bit(m, unit(m.len(), t), j, m.len()) == m[t][j] by {
        lemma_sum_bit_unit(m, m.len(), t, j, m.len());
    }
    assert(combo(m, unit(m.len(), t), cols) =~= m[t]);
}

proof fn lemma_combo_xor(m: Seq<Seq<bool>>, p: Seq<bool>, q: Seq<bool>, cols: nat)
    requires
        p.len() == m.len(),
        q.len() == m.len(),
    ensures
        combo(m, xor_vec(p, q), cols) == xor_vec(combo(m, p, cols), combo(m, q, cols)),
{
    assert forall|j: int| 0 <= j < cols implies #[trigger] sum_bit(m, xor_vec(p, q), j, m.len()) == (sum_bit(
        m,
        p,
        j,
        m.len(),
    ) != sum_bit(m, q, j, m.len())) by {
        lemma_sum_bit_xor(m, p, q, j, m.len());
    }
    assert(combo(m, xor_vec(p, q), cols) =~= xor_vec(combo(m, p, cols), combo(m, q, cols)));
}

/// Adding one more row `x` with coefficient `b`.
proof fn lemma_combo_push(m: Seq<Seq<bool>>, p: Seq<bool>, x: Seq<bool>, b: bool, cols: nat)
    requires
        p.len() == m.len(),
    ensures
        combo(m.push(x), p.push(b), cols) == Seq::new(cols, |j: int| combo(m, p, cols)[j] != (b && x[j])),
{
    let m2 = m.push(x);
    let p2 = p.push(b);
    assert forall|j: int| 0 <= j < cols implies #[trigger] sum_bit(m2, p2, j, m2.len()) == (sum_bit(
        m,
        p,
        j,
        m.len(),
    ) != (b && x[j])) by {
        lemma_sum_bit_swap(m2, p2, m, p, j, j, m.len());
    }
    assert(combo(m2, p2, cols) =~= Seq::new(cols, |j: int| combo(m, p, cols)[j] != (b && x[j])));
}

/// If every row of `v` is the sum of rows of `w` picked by `d`, a sum of rows
/// of `v` is the sum of rows of `w` picked by the matching sum of the `d`s.
proof fn lemma_sum_bit_compose(
    w: Seq<Seq<bool>>,
    v: Seq<Seq<bool>>,
    d: Seq<Seq<bool>>,
    p: Seq<bool>,
    cols: nat,
    j: int,
    n: nat,
)
    requires
        d.len() == v.len(),
        n <= v.len(),
        0 <= j < cols,
        forall|t: int| 0 <= t < v.len() ==> (#[trigger] d[t]).len() == w.len(),
        forall|t: int| 0 <= t < v.len() ==> combo(w, #[trigger] d[t], cols) == v[t],
    ensures
        sum_bit(v, p, j, n) == sum_bit(w, Seq::new(w.len(), |s: int| sum_bit(d, p, s, n)), j, w.len()),
    decreases n,
{
    let e = Seq::new(w.len(), |s: int| sum_bit(d, p, s, n));
    if n == 0 {
        assert(e =~= zeros(w.len()));
        lemma_sum_bit_zero(w, w.len(), j, w.len());
    } else {
        let n1 = (n - 1) as nat;
        lemma_sum_bit_compose(w, v, d, p, cols, j, n1);
        let e1 = Seq::new(w.len(), |s: int| sum_bit(d, p, s, n1));
        let b = Seq::new(w.len(), |s: int| p[n1 as int] && d[n1 as int][s]);
        assert(e =~= xor_vec(e1, b));
        lemma_sum_bit_xor(w, e1, b, j, w.len());
        if p[n1 as int] {
            assert(b =~= d[n1 as int]);
            assert(combo(w, d[n1 as int], cols)[j] == v[n1 as int][j]);
        } else {
            assert(b =~= zeros(w.len()));
            lemma_sum_bit_zero(w, w.len(), j, w.len());
        }
    }
}

/// Picks, for every row of `v`, rows of `w` that sum to it.
spec fn span_coeffs(w: Seq<Seq<bool>>, v: Seq<Seq<bool>>, cols: nat) -> Seq<Seq<bool>> {
    Seq::new(v.len(), |t: int| choose|p: Seq<bool>| p.len() == w.len() && #[trigger] combo(w, p, cols) == v[t])
}

proof fn lemma_span_coeffs(w: Seq<Seq<bool>>, v: Seq<Seq<bool>>, cols: nat)
    requires
        spans(w, v, cols),
    ensures
        span_coeffs(w, v, cols).len() == v.len(),
        forall|t: int| 0 <= t < v.len() ==> (#[trigger] span_coeffs(w, v, cols)[t]).len() == w.len(),
        forall|t: int| 0 <= t < v.len() ==> combo(w, #[trigger] span_coeffs(w, v, cols)[t], cols) == v[t],
{
    assert forall|t: int| 0 <= t < v.len() implies (#[trigger] span_coeffs(w, v, cols)[t]).len() == w.len()
        && combo(w, span_coeffs(w, v, cols)[t], cols) == v[t] by {
        assert(in_span(w, v[t], cols));
    }
}

proof fn lemma_combo_compose(w: Seq<Seq<bool>>, v: Seq<Seq<bool>>, p: Seq<bool>, cols: nat)
    requires
        spans(w, v, cols),
    ensures
        combo(v, p, cols) == combo(w, combo(span_coeffs(w, v, cols), p, w.len()), cols),
        combo(span_coeffs(w, v, cols), p, w.len()).len() == w.len(),
{
    let d = span_coeffs(w, v, cols);
    lemma_span_coeffs(w, v, cols);
    assert forall|j: int| 0 <= j < cols implies #[trigger] combo(v, p, cols)[j] == combo(
        w,
        combo(d, p, w.len()),
        cols,
    )[j] by {
        lemma_sum_bit_compose(w, v, d, p, cols, j, v.len());
        assert(combo(d, p, w.len()) =~= Seq::new(w.len(), |s: int| sum_bit(d, p, s, v.len())));
    }
    assert(combo(v, p, cols) =~= combo(w, combo(d, p, w.len()), cols));
}

/// A sum of vectors that are sums of rows of `w` is itself a sum of rows of `w`.
proof fn lemma_in_span_trans(w: Seq<Seq<bool>>, v: Seq<Seq<bool>>, x: Seq<bool>, cols: nat)
    requires
        spans(w, v, cols),
        in_span(v, x, cols),
    ensures
        in_span(w, x, cols),
{
    let p = choose|p: Seq<bool>| p.len() == v.len() && #[trigger] combo(v, p, cols) == x;
    lemma_combo_compose(w, v, p, cols);
}

proof fn lemma_spans_trans(u: Seq<Seq<bool>>, v: Seq<Seq<bool>>, w: Seq<Seq<bool>>, cols: nat)
    requires
        spans(u, v, cols),
        spans(v, w, cols),
    ensures
        spans(u, w, cols),
{
    assert forall|i: int| 0 <= i < w.len() implies in_span(u, #[trigger] w[i], cols) by {
        lemma_in_span_trans(u, v, w[i], cols);
    }
}

/// Every row picked from `m` is a sum of rows of `m`.
proof fn lemma_spans_picked(m: Seq<Seq<bool>>, idx: Seq<int>, cols: nat)
    requires
        well_sized(m, cols),
        forall|t: int| 0 <= t < idx.len() ==> 0 <= #[trigger] idx[t] < m.len(),
    ensures
        spans(m, pick_rows(m, idx), cols),
{
    assert forall|t: int| 0 <= t < idx.len() implies in_span(m, #[trigger] pick_rows(m, idx)[t], cols) by {
        lemma_combo_unit(m, idx[t], cols);
    }
}

// ---------------------------------------------------------------------------
// Counting: k independent vectors in the span of r vectors force k <= r.
// ---------------------------------------------------------------------------

spec fn two_pow(n: nat) -> nat
    decreases n,
{
    if n == 0 {
        1
    } else {
        2 * two_pow((n - 1) as nat)
    }
}

proof fn lemma_two_pow_grows(a: nat, b: nat)
    requires
        a < b,
    ensures
        two_pow(a) < two_pow(b),
    decreases b,
{
    if a + 1 < b {
        lemma_two_pow_grows(a, (b - 1) as nat);
    }
    lemma_two_pow_pos((b - 1) as nat);
}

proof fn lemma_two_pow_pos(a: nat)
    ensures
        two_pow(a) > 0,
    decreases a,
{
    if a > 0 {
        lemma_two_pow_pos((a - 1) as nat);
    }
}

/// All vectors of length `n`.
spec fn all_vectors(n: nat) -> Set<Seq<bool>> {
    Set::new(|p: Seq<bool>| p.len() == n)
}

proof fn lemma_all_vectors(n: nat)
    ensures
        all_vectors(n).finite(),
        all_vectors(n).len() == two_pow(n),
    decreases n,
{
    if n == 0 {
        assert(all_vectors(0) =~= Set::<Seq<bool>>::empty().insert(Seq::<bool>::empty())) by {
            assert forall|p: Seq<bool>| all_vectors(0).contains(p) implies p == Seq::<bool>::empty() by {
                assert(p =~= Seq::<bool>::empty());
            }
        }
    } else {
        let n1 = (n - 1) as nat;
        lemma_all_vectors(n1);
        let lo = |p: Seq<bool>| p.push(false);
        let hi = |p: Seq<bool>| p.push(true);
        let a = all_vectors(n1).map(lo);
        let b = all_vectors(n1).map(hi);
        assert forall|p1: Seq<bool>, p2: Seq<bool>| #[trigger] lo(p1) == #[trigger] lo(p2) implies p1 == p2 by {
            assert(p1 =~= lo(p1).drop_last());
            assert(p2 =~= lo(p2).drop_last());
        }
        assert forall|p1: Seq<bool>, p2: Seq<bool>| #[trigger] hi(p1) == #[trigger] hi(p2) implies p1 == p2 by {
            assert(p1 =~= hi(p1).drop_last());
            assert(p2 =~= hi(p2).drop_last());
        }
        assert(injective_on(lo, all_vectors(n1)));
        assert(injective_on(hi, all_vectors(n1)));
        lemma_map_size(all_vectors(n1), a, lo);
        lemma_map_size(all_vectors(n1), b, hi);
        assert(a.disjoint(b)) by {
            assert forall|q: Seq<bool>| a.contains(q) implies !b.contains(q) by {
                let p1 = choose|p: Seq<bool>| all_vectors(n1).contains(p) && lo(p) == q;
                if b.contains(q) {
                    let p2 = choose|p: Seq<bool>| all_vectors(n1).contains(p) && hi(p) == q;
                    assert(lo(p1).last() != hi(p2).last());
                }
            }
        }
        assert(all_vectors(n) =~= a.union(b)) by {
            assert forall|q: Seq<bool>| all_vectors(n).contains(q) implies a.union(b).contains(q) by {
                let r = q.drop_last();
                assert(all_vectors(n1).contains(r));
                if q.last() {
                    assert(hi(r) =~= q);
                } else {
                    assert(lo(r) =~= q);
                }
            }
        }
        lemma_set_disjoint_lens(a, b);
    }
}

/// `k` vectors that are independent over GF(2) and all lie in the span of
/// `r` vectors number at most `r`.
proof fn lemma_independent_bounded(w: Seq<Seq<bool>>, v: Seq<Seq<bool>>, cols: nat)
    requires
        independent(v, cols),
        spans(w, v, cols),
    ensures
        v.len() <= w.len(),
{
    let k = v.len();
    let f = |p: Seq<bool>| combo(v, p, cols);
    let g = |p: Seq<bool>| combo(w, p, cols);
    assert forall|p1: Seq<bool>, p2: Seq<bool>|
        all_vectors(k).contains(p1) && all_vectors(k).contains(p2) && #[trigger] f(p1) == #[trigger] f(p2) implies p1
        == p2 by {
        lemma_combo_xor(v, p1, p2, cols);
        assert(combo(v, xor_vec(p1, p2), cols) =~= zeros(cols));
        assert(xor_vec(p1, p2) == zeros(k));
        assert forall|i: int| 0 <= i < k implies p1[i] == p2[i] by {
            assert(xor_vec(p1, p2)[i] == zeros(k)[i]);
        }
        assert(p1 =~= p2);
    }
    lemma_all_vectors(k);
    lemma_all_vectors(w.len());
    let img = all_vectors(k).map(f);
    let big = all_vectors(w.len()).map(g);
    lemma_map_size(all_vectors(k), img, f);
    lemma_map_size_bound(all_vectors(w.len()), big, g);
    assert(img.subset_of(big)) by {
        assert forall|x: Seq<bool>| img.contains(x) implies big.contains(x) by {
            let p = choose|p: Seq<bool>| all_vectors(k).contains(p) && f(p) == x;
            lemma_combo_compose(w, v, p, cols);
            let e = combo(span_coeffs(w, v, cols), p, w.len());
            assert(all_vectors(w.len()).contains(e));
            assert(g(e) == x);
        }
    }
    lemma_len_subset(img, big);
    if k > w.len() {
        lemma_two_pow_grows(w.len(), k);
    }
}

// ---------------------------------------------------------------------------
// A largest independent set of rows, chosen greedily.
// ---------------------------------------------------------------------------

/// Rows `0 .. n` of `m` scanned in order, keeping each row that is not a sum
/// of the rows kept before it.
spec fn greedy(m: Seq<Seq<bool>>, n: nat, cols: nat) -> Seq<int>
    decreases n,
{
    if n == 0 {
        Seq::empty()
    } else {
        let kept = greedy(m, (n - 1) as nat, cols);
        if in_span(pick_rows(m, kept), m[n - 1], cols) {
            kept
        } else {
            kept.push(n - 1)
        }
    }
}

proof fn lemma_greedy(m: Seq<Seq<bool>>, n: nat, cols: nat)
    requires
        well_sized(m, cols),
        n <= m.len(),
    ensures
        forall|t: int| 0 <= t < greedy(m, n, cols).len() ==> 0 <= #[trigger] greedy(m, n, cols)[t] < n,
        forall|s: int, t: int| 0 <= s < t < greedy(m, n, cols).len() ==> greedy(m, n, cols)[s] < greedy(m, n, cols)[t],
        independent(pick_rows(m, greedy(m, n, cols)), cols),
        spans(pick_rows(m, greedy(m, n, cols)), m.take(n as int), cols),
    decreases n,
{
    if n == 0 {
        let p = pick_rows(m, greedy(m, 0, cols));
        assert forall|pick: Seq<bool>| pick.len() == p.len() && #[trigger] combo(p, pick, cols) == zeros(cols) implies pick
            == zeros(p.len()) by {
            assert(pick =~= zeros(p.len()));
        }
    } else {
        let n1 = (n - 1) as nat;
        lemma_greedy(m, n1, cols);
        let kept = greedy(m, n1, cols);
        let p = pick_rows(m, kept);
        let x = m[n1 as int];
        if in_span(p, x, cols) {
            assert forall|i: int| 0 <= i < n implies in_span(p, #[trigger] m.take(n as int)[i], cols) by {
                if i < n1 {
                    assert(m.take(n1 as int)[i] == m.take(n as int)[i]);
                }
            }
        } else {
            let kept2 = kept.push(n1 as int);
            let p2 = pick_rows(m, kept2);
            assert(p2 =~= p.push(x));
            assert forall|pick: Seq<bool>| pick.len() == p2.len() && #[trigger] combo(p2, pick, cols) == zeros(cols) implies pick
                == zeros(p2.len()) by {
                let q = pick.drop_last();
                assert(pick =~= q.push(pick.last()));
                lemma_combo_push(p, q, x, pick.last(), cols);
                if pick.last() {
                    assert(combo(p, q, cols) =~= x) by {
                        assert forall|j: int| 0 <= j < cols implies combo(p, q, cols)[j] == x[j] by {
                            assert(combo(p2, pick, cols)[j] == zeros(cols)[j]);
                        }
                    }
                    assert(in_span(p, x, cols));
                } else {
                    assert(combo(p, q, cols) =~= zeros(cols)) by {
                        assert forall|j: int| 0 <= j < cols implies combo(p, q, cols)[j] == zeros(cols)[j] by {
                            assert(combo(p2, pick, cols)[j] == zeros(cols)[j]);
                        }
                    }
                    assert(q == zeros(p.len()));
                    assert(pick =~= zeros(p2.len()));
                }
            }
            assert forall|i: int| 0 <= i < n implies in_span(p2, #[trigger] m.take(n as int)[i], cols) by {
                if i < n1 {
                    assert(m.take(n1 as int)[i] == m.take(n as int)[i]);
                    assert(in_span(p, m[i], cols));
                    let pick = choose|pick: Seq<bool>| pick.len() == p.len() && #[trigger] combo(p, pick, cols) == m[i];
                    lemma_combo_push(p, pick, x, false, cols);
                    assert(combo(p2, pick.push(false), cols) =~= m[i]);
                } else {
                    lemma_combo_push(p, zeros(p.len()), x, true, cols);
                    lemma_combo_zero(p, cols);
                    assert(combo(p2, zeros(p.len()).push(true), cols) =~= x);
                }
            }
        }
    }
}

/// Some set of distinct rows of `m` is independent and spans every row of `m`.
proof fn lemma_basis_exists(m: Seq<Seq<bool>>, cols: nat) -> (idx: Seq<int>)
    requires
        well_sized(m, cols),
    ensures
        forall|t: int| 0 <= t < idx.len() ==> 0 <= #[trigger] idx[t] < m.len(),
        forall|s: int, t: int| 0 <= s < t < idx.len() ==> idx[s] != idx[t],
        independent(pick_rows(m, idx), cols),
        spans(pick_rows(m, idx), m, cols),
{
    lemma_greedy(m, m.len(), cols);
    assert(m.take(m.len() as int) =~= m);
    greedy(m, m.len(), cols)
}

// ---------------------------------------------------------------------------
// What the elimination keeps: the span of the rows, and an echelon shape.
// ---------------------------------------------------------------------------

proof fn lemma_spans_self(m: Seq<Seq<bool>>, cols: nat)
    requires
        well_sized(m, cols),
    ensures
        spans(m, m, cols),
{
    assert forall|i: int| 0 <= i < m.len() implies in_span(m, #[trigger] m[i], cols) by {
        lemma_combo_unit(m, i, cols);
    }
}

proof fn lemma_xor_in_span(m: Seq<Seq<bool>>, i: int, k: int, cols: nat)
    requires
        well_sized(m, cols),
        0 <= i < m.len(),
        0 <= k < m.len(),
    ensures
        in_span(m, xor_vec(m[i], m[k]), cols),
{
    let n = m.len();
    lemma_combo_xor(m, unit(n, i), unit(n, k), cols);
    lemma_combo_unit(m, i, cols);
    lemma_combo_unit(m, k, cols);
    assert(combo(m, xor_vec(unit(n, i), unit(n, k)), cols) == xor_vec(m[i], m[k]));
}

proof fn lemma_bits_sized(m: Seq<Seq<u8>>, cols: nat)
    ensures
        well_sized(bits(m, cols), cols),
{
}

proof fn lemma_bits_xor_rows(a: Seq<u8>, b: Seq<u8>, cols: nat)
    requires
        a.len() == cols,
        b.len() == cols,
        forall|c: int| 0 <= c < cols ==> a[c] <= 1 && b[c] <= 1,
    ensures
        Seq::new(cols, |c: int| xor_rows(a, b)[c] == 1) == xor_vec(
            Seq::new(cols, |c: int| a[c] == 1),
            Seq::new(cols, |c: int| b[c] == 1),
        ),
{
    assert forall|c: int| 0 <= c < cols implies (#[trigger] xor_rows(a, b)[c] == 1) == ((a[c] == 1) != (b[c] == 1)) by {
        assert(a[c] == 0 || a[c] == 1);
        assert(b[c] == 0 || b[c] == 1);
    }
    assert(Seq::new(cols, |c: int| xor_rows(a, b)[c] == 1) =~= xor_vec(
        Seq::new(cols, |c: int| a[c] == 1),
        Seq::new(cols, |c: int| b[c] == 1),
    ));
}

/// One elimination step changes neither the span of the rows nor, read the
/// other way, the rows' membership in the new span.
proof fn lemma_step_spans(m: Seq<Seq<u8>>, rank: nat, col: int, cols: nat)
    requires
        is_binary_matrix(m, m.len(), cols),
        0 <= col < cols,
        rank <= m.len(),
    ensures
        spans(bits(m, cols), bits(elim_step(m, rank, col).0, cols), cols),
        spans(bits(elim_step(m, rank, col).0, cols), bits(m, cols), cols),
{
    let bm = bits(m, cols);
    lemma_first_pivot_bounds(m, col, rank as int);
    lemma_step_binary(m, rank, col, cols);
    match first_pivot(m, col, rank as int) {
        None => {
            lemma_spans_self(bm, cols);
        },
        Some(p) => {
            let r = rank as int;
            let s = swap_rows(m, r, p);
            let e = clear_column(s, r, col);
            let bs = bits(s, cols);
            let be = bits(e, cols);
            assert forall|i: int| 0 <= i < bs.len() implies in_span(bm, #[trigger] bs[i], cols) by {
                let src = if i == p { r } else if i == r { p } else { i };
                assert(bs[i] =~= bm[src]);
                lemma_combo_unit(bm, src, cols);
            }
            assert forall|i: int| 0 <= i < bm.len() implies in_span(bs, #[trigger] bm[i], cols) by {
                let src = if i == p { r } else if i == r { p } else { i };
                assert(bm[i] =~= bs[src]);
                lemma_combo_unit(bs, src, cols);
            }
            assert forall|i: int| 0 <= i < be.len() implies in_span(bs, #[trigger] be[i], cols) by {
                assert(s[i].len() == cols && s[r].len() == cols);
                if i != r && s[i][col] == 1 {
                    lemma_bits_xor_rows(s[i], s[r], cols);
                    assert(be[i] =~= xor_vec(bs[i], bs[r]));
                    lemma_xor_in_span(bs, i, r, cols);
                } else {
                    assert(be[i] =~= bs[i]);
                    lemma_combo_unit(bs, i, cols);
                }
            }
            assert forall|i: int| 0 <= i < bs.len() implies in_span(be, #[trigger] bs[i], cols) by {
                assert(s[i].len() == cols && s[r].len() == cols);
                assert(be[r] =~= bs[r]);
                if i != r && s[i][col] == 1 {
                    lemma_bits_xor_rows(s[i], s[r], cols);
                    assert(be[i] =~= xor_vec(bs[i], bs[r]));
                    assert(bs[i] =~= xor_vec(be[i], be[r]));
                    lemma_xor_in_span(be, i, r, cols);
                } else {
                    assert(be[i] =~= bs[i]);
                    lemma_combo_unit(be, i, cols);
                }
            }
            lemma_spans_trans(bm, bs, be, cols);
            lemma_spans_trans(be, bs, bm, cols);
        },
    }
}

/// Rows `rank ..` vanish in the columns before `col`; row `t < rank` is the
/// only row with a 1 in its pivot column `pc[t] < col`.
spec fn echelon(m: Seq<Seq<u8>>, rank: nat, col: nat, pc: Seq<int>) -> bool {
    &&& pc.len() == rank
    &&& rank <= m.len()
    &&& forall|t: int| 0 <= t < rank ==> 0 <= #[trigger] pc[t] < col
    &&& forall|t: int, i: int| 0 <= t < rank && 0 <= i < m.len() ==> (#[trigger] m[i][pc[t]] == 1) == (i == t)
    &&& forall|i: int, c: int| rank <= i < m.len() && 0 <= c < col ==> #[trigger] m[i][c] == 0
}

proof fn lemma_first_pivot_absent(m: Seq<Seq<u8>>, col: int, from: int)
    requires
        first_pivot(m, col, from) is None,
        0 <= from,
    ensures
        forall|r: int| from <= r < m.len() ==> #[trigger] m[r][col] != 1,
    decreases m.len() - from,
{
    if from < m.len() {
        lemma_first_pivot_absent(m, col, from + 1);
    }
}

proof fn lemma_step_echelon(m: Seq<Seq<u8>>, rank: nat, col: nat, cols: nat, pc: Seq<int>) -> (pc2: Seq<int>)
    requires
        is_binary_matrix(m, m.len(), cols),
        col < cols,
        echelon(m, rank, col, pc),
    ensures
        echelon(elim_step(m, rank, col as int).0, elim_step(m, rank, col as int).1, col + 1, pc2),
{
    let r = rank as int;
    let c0 = col as int;
    lemma_first_pivot_bounds(m, c0, r);
    match first_pivot(m, c0, r) {
        None => {
            lemma_first_pivot_absent(m, c0, r);
            assert forall|i: int, c: int| rank <= i < m.len() && 0 <= c < col + 1 implies #[trigger] m[i][c] == 0 by {
                if c == c0 {
                    assert(m[i].len() == cols);
                    assert(m[i][c0] <= 1);
                }
            }
            pc
        },
        Some(p) => {
            let s = swap_rows(m, r, p);
            let e = clear_column(s, r, c0);
            let pc2 = pc.push(c0);
            assert forall|i: int| 0 <= i < m.len() implies (#[trigger] s[i]) == (if i == p { m[r] } else if i == r {
                m[p]
            } else {
                m[i]
            }) by {}
            assert forall|i: int, c: int| r <= i < m.len() && 0 <= c < col implies #[trigger] s[i][c] == 0 by {}
            assert forall|i: int, c: int| 0 <= i < m.len() && 0 <= c < cols implies #[trigger] s[i][c] <= 1 && s[i].len() == cols by {}
            assert forall|t: int| 0 <= t < rank + 1 implies 0 <= #[trigger] pc2[t] < col + 1 by {}
            assert forall|t: int, i: int| 0 <= t < rank + 1 && 0 <= i < m.len() implies (#[trigger] e[i][pc2[t]] == 1) == (i
                == t) by {
                let c = pc2[t];
                assert(s[i].len() == cols && s[r].len() == cols);
                if t < rank {
                    assert(c == pc[t]);
                    assert(s[r][c] == 0);
                    if i != r && s[i][c0] == 1 {
                        assert(e[i][c] == ((s[i][c] + s[r][c]) % 2) as u8);
                    }
                    assert(e[i][c] == s[i][c]);
                    if i < rank {
                        assert(s[i] == m[i]);
                    } else {
                        assert(s[i][c] == 0);
                    }
                } else {
                    assert(c == c0);
                    assert(s[r][c0] == 1);
                    if i != r && s[i][c0] == 1 {
                        assert(e[i][c0] == ((s[i][c0] + s[r][c0]) % 2) as u8);
                    }
                }
            }
            assert forall|i: int, c: int| rank + 1 <= i < m.len() && 0 <= c < col + 1 implies #[trigger] e[i][c] == 0 by {
                assert(s[i].len() == cols && s[r].len() == cols);
                if c < col {
                    assert(s[i][c] == 0 && s[r][c] == 0);
                    if s[i][c0] == 1 {
                        assert(e[i][c] == ((s[i][c] + s[r][c]) % 2) as u8);
                    }
                } else {
                    assert(s[r][c0] == 1);
                    assert(s[i][c0] <= 1);
                    if s[i][c0] == 1 {
                        assert(e[i][c0] == ((s[i][c0] + s[r][c0]) % 2) as u8);
                    }
                }
            }
            pc2
        },
    }
}

proof fn lemma_elim(m: Seq<Seq<u8>>, rank: nat, col: nat, cols: nat, pc: Seq<int>) -> (pc2: Seq<int>)
    requires
        is_binary_matrix(m, m.len(), cols),
        col <= cols,
        echelon(m, rank, col, pc),
    ensures
        is_binary_matrix(elim_from(m, rank, col, cols).0, m.len(), cols),
        echelon(elim_from(m, rank, col, cols).0, elim_from(m, rank, col, cols).1, cols, pc2),
        spans(bits(m, cols), bits(elim_from(m, rank, col, cols).0, cols), cols),
        spans(bits(elim_from(m, rank, col, cols).0, cols), bits(m, cols), cols),
    decreases cols - col,
{
    if col >= cols {
        lemma_bits_sized(m, cols);
        lemma_spans_self(bits(m, cols), cols);
        pc
    } else {
        let step = elim_step(m, rank, col as int);
        lemma_step_binary(m, rank, col as int, cols);
        lemma_step_spans(m, rank, col as int, cols);
        let pc1 = lemma_step_echelon(m, rank, col, cols, pc);
        let pc2 = lemma_elim(step.0, step.1, col + 1, cols, pc1);
        let e = elim_from(step.0, step.1, col + 1, cols).0;
        lemma_spans_trans(bits(m, cols), bits(step.0, cols), bits(e, cols), cols);
        lemma_spans_trans(bits(e, cols), bits(step.0, cols), bits(m, cols), cols);
        pc2
    }
}

/// The pivot rows left by the elimination: independent, as many as
/// `spec_gf2_rank` counts, and spanning exactly what the rows of `m` span.
proof fn lemma_rank_basis(m: Seq<Seq<u8>>, cols: nat) -> (top: Seq<Seq<bool>>)
    requires
        is_binary_matrix(m, m.len(), cols),
    ensures
        top.len() == spec_gf2_rank(m, cols),
        well_sized(top, cols),
        independent(top, cols),
        spans(top, bits(m, cols), cols),
        spans(bits(m, cols), top, cols),
{
    let pc = lemma_elim(m, 0, 0, cols, Seq::empty());
    let res = elim_from(m, 0, 0, cols);
    let e = res.0;
    let r = res.1;
    let be = bits(e, cols);
    let top = be.take(r as int);
    assert forall|pick: Seq<bool>| pick.len() == top.len() && #[trigger] combo(top, pick, cols) == zeros(cols) implies pick
        == zeros(top.len()) by {
        assert forall|t: int| 0 <= t < r implies pick[t] == false by {
            let c = pc[t];
            assert forall|i: int| 0 <= i < r implies top[i][c] == (i == t) by {
                assert(e[i][pc[t]] == 1 <==> i == t);
            }
            lemma_sum_bit_pivot(top, pick, t, c, r);
            assert(combo(top, pick, cols)[c] == zeros(cols)[c]);
        }
        assert(pick =~= zeros(top.len()));
    }
    assert forall|i: int| 0 <= i < be.len() implies in_span(top, #[trigger] be[i], cols) by {
        if i < r {
            assert(top[i] == be[i]);
            lemma_combo_unit(top, i, cols);
        } else {
            assert(be[i] =~= zeros(cols));
            lemma_combo_zero(top, cols);
        }
    }
    assert forall|i: int| 0 <= i < top.len() implies in_span(be, #[trigger] top[i], cols) by {
        lemma_combo_unit(be, i, cols);
    }
    lemma_spans_trans(top, be, bits(m, cols), cols);
    lemma_spans_trans(bits(m, cols), be, top, cols);
    top
}

// ---------------------------------------------------------------------------
// Laws.
// ---------------------------------------------------------------------------

/// The rank that elimination finds is the GF(2) rank of `m`: some
/// `spec_gf2_rank(m, cols)` distinct rows of `m` are linearly independent over
/// GF(2), and no larger set of rows is.
pub proof fn lemma_gf2_rank_is_max_independent(m: Seq<Seq<u8>>, cols: nat)
    requires
        is_binary_matrix(m, m.len(), cols),
    ensures
        exists|idx: Seq<int>| idx.len() == spec_gf2_rank(m, cols) && #[trigger] independent_rows(m, idx, cols),
        forall|idx: Seq<int>| #[trigger] independent_rows(m, idx, cols) ==> idx.len() <= spec_gf2_rank(m, cols),
{
    let bm = bits(m, cols);
    let top = lemma_rank_basis(m, cols);
    assert forall|idx: Seq<int>| #[trigger] independent_rows(m, idx, cols) implies idx.len() <= spec_gf2_rank(m, cols) by {
        let sel = bits(pick_rows(m, idx), cols);
        assert(sel =~= pick_rows(bm, idx));
        lemma_spans_picked(bm, idx, cols);
        lemma_spans_trans(top, bm, sel, cols);
        lemma_independent_bounded(top, sel, cols);
    }
    let idx = lemma_basis_exists(bm, cols);
    let basis = pick_rows(bm, idx);
    lemma_spans_trans(basis, bm, top, cols);
    lemma_independent_bounded(basis, top, cols);
    assert(bits(pick_rows(m, idx), cols) =~= basis);
    assert(independent_rows(m, idx, cols));
}

/// Rank of the transpose is at most the rank.
proof fn lemma_gf2_rank_transpose_le(m: Seq<Seq<u8>>, rows: nat, cols: nat)
    requires
        is_binary_matrix(m, rows, cols),
    ensures
        spec_gf2_rank(spec_transpose(m, rows, cols), rows) <= spec_gf2_rank(m, cols),
{
    let bm = bits(m, cols);
    let top = lemma_rank_basis(m, cols);
    let r = top.len();
    let d = span_coeffs(top, bm, cols);
    lemma_span_coeffs(top, bm, cols);
    let mt = spec_transpose(m, rows, cols);
    let bt = bits(mt, rows);
    let dt = Seq::new(r, |t: int| Seq::new(rows, |i: int| d[i][t]));
    assert forall|j: int| 0 <= j < bt.len() implies in_span(dt, #[trigger] bt[j], rows) by {
        let y = Seq::new(r, |t: int| top[t][j]);
        assert forall|i: int| 0 <= i < rows implies #[trigger] combo(dt, y, rows)[i] == bt[j][i] by {
            lemma_sum_bit_swap(dt, y, top, d[i], i, j, r);
            assert(combo(top, d[i], cols)[j] == bm[i][j]);
        }
        assert(combo(dt, y, rows) =~= bt[j]);
    }
    let top_t = lemma_rank_basis(mt, rows);
    lemma_spans_trans(dt, bt, top_t, rows);
    lemma_independent_bounded(dt, top_t, rows);
}

proof fn lemma_sum_bit_swap(a: Seq<Seq<bool>>, p: Seq<bool>, b: Seq<Seq<bool>>, q: Seq<bool>, ja: int, jb: int, n: nat)
    requires
        forall|t: int| 0 <= t < n ==> (p[t] && a[t][ja]) == (q[t] && b[t][jb]),
    ensures
        sum_bit(a, p, ja, n) == sum_bit(b, q, jb, n),
    decreases n,
{
    if n > 0 {
        lemma_sum_bit_swap(a, p, b, q, ja, jb, (n - 1) as nat);
    }
}

/// Row rank equals column rank: transposing a 0/1 matrix keeps its GF(2) rank.
pub proof fn lemma_gf2_rank_transpose(m: Seq<Seq<u8>>, rows: nat, cols: nat)
    requires
        is_binary_matrix(m, rows, cols),
    ensures
        spec_gf2_rank(spec_transpose(m, rows, cols), rows) == spec_gf2_rank(m, cols),
{
    let mt = spec_transpose(m, rows, cols);
    lemma_gf2_rank_transpose_le(m, rows, cols);
    assert(is_binary_matrix(mt, cols, rows));
    lemma_gf2_rank_transpose_le(mt, cols, rows);
    assert(spec_transpose(mt, cols, rows) =~= m) by {
        assert forall|i: int| 0 <= i < rows implies #[trigger] spec_transpose(mt, cols, rows)[i] =~= m[i] by {}
    }
}

} // verus!
