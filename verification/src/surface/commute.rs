//! Commutation of the X and Z stabilizers of the rotated surface code: every
//! X support shares an even number of data qubits with every Z support, and
//! with every column; every Z support, with every row.
use vstd::prelude::*;

use crate::surface::code::{
    anchors, half, lemma_anchor_counts, lemma_cell_bound, lemma_half, lemma_interior_in_grid,
    lemma_interior_len, num_interior, qid, stab_support, valid_distance, SurfaceCode,
};

verus! {

/// Number of positions j < n of `t` that hold `x`.
pub open spec fn count_upto<A>(x: A, t: Seq<A>, n: int) -> nat
    decreases n,
{
    if n <= 0 {
        0
    } else {
        count_upto(x, t, n - 1) + if t[n - 1] == x { 1nat } else { 0nat }
    }
}

/// Number of positions of `t` that hold `x`.
pub open spec fn occurrences<A>(x: A, t: Seq<A>) -> nat {
    count_upto(x, t, t.len() as int)
}

/// Number of pairs (i, j) with i < n and s[i] == t[j].
pub open spec fn overlap_upto<A>(s: Seq<A>, t: Seq<A>, n: int) -> nat
    decreases n,
{
    if n <= 0 {
        0
    } else {
        overlap_upto(s, t, n - 1) + occurrences(s[n - 1], t)
    }
}

/// Number of pairs of positions (i, j) with s[i] == t[j]; for two supports
/// without repeated qubits, the number of qubits they share.
pub open spec fn overlap<A>(s: Seq<A>, t: Seq<A>) -> nat {
    overlap_upto(s, t, s.len() as int)
}

/// Cell (r, c) lies on the d x d grid.
pub(crate) open spec fn in_grid(d: nat, p: (int, int)) -> bool {
    0 <= p.0 < d && 0 <= p.1 < d
}

/// Data-qubit IDs of a sequence of cells.
pub(crate) open spec fn ids(d: nat, s: Seq<(int, int)>) -> Seq<usize> {
    s.map_values(|p: (int, int)| qid(d, p.0, p.1))
}

/// Cells of the stabilizer anchored at `a` (index `i` of its type).
pub(crate) open spec fn stab_cells(d: nat, is_x: bool, i: int, a: (int, int)) -> Seq<(int, int)> {
    if i < num_interior(d) {
        seq![(a.0, a.1), (a.0, a.1 + 1), (a.0 + 1, a.1), (a.0 + 1, a.1 + 1)]
    } else if is_x {
        seq![(a.0, a.1), (a.0 + 1, a.1)]
    } else {
        seq![(a.0, a.1), (a.0, a.1 + 1)]
    }
}

/// Where the anchor of the i-th stabilizer of a type lies: an interior face of
/// the right colour, or a boundary pair on its side.
pub(crate) open spec fn anchor_shape(d: int, is_x: bool, ni: int, h: int, i: int, a: (int, int)) -> bool {
    if i < ni {
        &&& 0 <= a.0 <= d - 2
        &&& 0 <= a.1 <= d - 2
        &&& (a.0 + a.1) % 2 == if is_x { 0int } else { 1int }
    } else if is_x {
        if i < ni + h {
            a.1 == 0 && a.0 % 2 == 1 && 1 <= a.0 <= d - 2
        } else {
            a.1 == d - 1 && a.0 % 2 == 0 && 0 <= a.0 <= d - 3
        }
    } else {
        if i < ni + h {
            a.0 == 0 && a.1 % 2 == 0 && 0 <= a.1 <= d - 3
        } else {
            a.0 == d - 1 && a.1 % 2 == 1 && 1 <= a.1 <= d - 2
        }
    }
}

pub(crate) proof fn lemma_anchor_shape(d: nat, is_x: bool, i: int)
    requires
        valid_distance(d),
        0 <= i < anchors(d, is_x).len(),
    ensures
        anchor_shape(d as int, is_x, num_interior(d) as int, half(d) as int, i, anchors(d, is_x)[i]),
{
    lemma_half(d);
    lemma_anchor_counts(d);
    let q: int = if is_x { 0 } else { 1 };
    lemma_interior_len(d, q, (d - 1) as nat);
    if i < num_interior(d) {
        lemma_interior_in_grid(d, q, (d - 1) as nat, i);
    }
}

pub(crate) proof fn lemma_qid_injective(d: nat, p: (int, int), q: (int, int))
    requires
        d * d <= usize::MAX,
        in_grid(d, p),
        in_grid(d, q),
    ensures
        qid(d, p.0, p.1) == qid(d, q.0, q.1) <==> p == q,
{
    lemma_cell_bound(d as int, p.0, p.1);
    lemma_cell_bound(d as int, q.0, q.1);
    let x = p.0 * d + p.1;
    let y = q.0 * d + q.1;
    if x == y {
        assert(p.0 == q.0) by (nonlinear_arith)
            requires
                p.0 * d + p.1 == q.0 * d + q.1,
                0 <= p.1 < d,
                0 <= q.1 < d,
        {
            if p.0 > q.0 {
                assert(p.0 * d >= q.0 * d + d);
            } else if p.0 < q.0 {
                assert(q.0 * d >= p.0 * d + d);
            }
        }
    }
}

proof fn lemma_count_ids(d: nat, x: (int, int), t: Seq<(int, int)>, n: int)
    requires
        d * d <= usize::MAX,
        in_grid(d, x),
        0 <= n <= t.len(),
        forall|j: int| 0 <= j < t.len() ==> in_grid(d, #[trigger] t[j]),
    ensures
        count_upto(qid(d, x.0, x.1), ids(d, t), n) == count_upto(x, t, n),
    decreases n,
{
    if n > 0 {
        lemma_count_ids(d, x, t, n - 1);
        lemma_qid_injective(d, t[n - 1], x);
    }
}

proof fn lemma_overlap_ids(d: nat, s: Seq<(int, int)>, t: Seq<(int, int)>, n: int)
    requires
        d * d <= usize::MAX,
        0 <= n <= s.len(),
        forall|j: int| 0 <= j < s.len() ==> in_grid(d, #[trigger] s[j]),
        forall|j: int| 0 <= j < t.len() ==> in_grid(d, #[trigger] t[j]),
    ensures
        overlap_upto(ids(d, s), ids(d, t), n) == overlap_upto(s, t, n),
    decreases n,
{
    if n > 0 {
        lemma_overlap_ids(d, s, t, n - 1);
        lemma_count_ids(d, s[n - 1], t, t.len() as int);
    }
}

spec fn face_cells(a: (int, int)) -> Seq<(int, int)> {
    seq![(a.0, a.1), (a.0, a.1 + 1), (a.0 + 1, a.1), (a.0 + 1, a.1 + 1)]
}

proof fn lemma_face_face(a: (int, int), b: (int, int))
    requires
        (a.0 + a.1) % 2 == 0,
        (b.0 + b.1) % 2 == 1,
    ensures
        overlap(face_cells(a), face_cells(b)) % 2 == 0,
{
    reveal_with_fuel(count_upto, 5);
    reveal_with_fuel(overlap_upto, 5);
}

proof fn lemma_cells_overlap_even(d: int, ni: int, h: int, i: int, a: (int, int), j: int, b: (int, int))
    requires
        d >= 3,
        d % 2 == 1,
        ni == num_interior(d as nat),
        anchor_shape(d, true, ni, h, i, a),
        anchor_shape(d, false, ni, h, j, b),
    ensures
        overlap(stab_cells(d as nat, true, i, a), stab_cells(d as nat, false, j, b)) % 2 == 0,
{
    if i < ni && j < ni {
        assert(stab_cells(d as nat, true, i, a) == face_cells(a));
        assert(stab_cells(d as nat, false, j, b) == face_cells(b));
        lemma_face_face(a, b);
    } else {
        reveal_with_fuel(count_upto, 5);
        reveal_with_fuel(overlap_upto, 5);
    }
}

/// Every X stabilizer commutes with every Z stabilizer: their supports share
/// an even number of data qubits.
pub proof fn lemma_stabilizers_commute(code: &SurfaceCode, i: int, j: int)
    requires
        code.wf(),
        0 <= i < code.x_stabs().len(),
        0 <= j < code.z_stabs().len(),
    ensures
        overlap(code.x_stabs()[i], code.z_stabs()[j]) % 2 == 0,
{
    code.lemma_wf();
    let d = code.spec_distance();
    lemma_half(d);
    lemma_anchor_counts(d);
    let a = anchors(d, true)[i];
    let b = anchors(d, false)[j];
    lemma_anchor_shape(d, true, i);
    lemma_anchor_shape(d, false, j);
    let s = stab_cells(d, true, i, a);
    let t = stab_cells(d, false, j, b);
    assert(d * d <= usize::MAX) by (nonlinear_arith)
        requires
            2 * d * d <= usize::MAX;
    assert forall|k: int| 0 <= k < s.len() implies in_grid(d, #[trigger] s[k]) by {}
    assert forall|k: int| 0 <= k < t.len() implies in_grid(d, #[trigger] t[k]) by {}
    assert(ids(d, s) =~= stab_support(d, true, i, a));
    assert(ids(d, t) =~= stab_support(d, false, j, b));
    lemma_overlap_ids(d, s, t, s.len() as int);
    lemma_cells_overlap_even(d as int, num_interior(d) as int, half(d) as int, i, a, j, b);
}

/// Data qubits of column `c`, top to bottom.
pub open spec fn column(d: nat, c: int) -> Seq<usize> {
    Seq::new(d, |r: int| qid(d, r, c))
}

/// Data qubits of row `r`, left to right.
pub open spec fn row(d: nat, r: int) -> Seq<usize> {
    Seq::new(d, |c: int| qid(d, r, c))
}

/// Cells of column `c` (`vertical`) or row `c`, in order.
spec fn line_cells(d: nat, c: int, vertical: bool) -> Seq<(int, int)> {
    Seq::new(d, |k: int| if vertical { (k, c) } else { (c, k) })
}

proof fn lemma_line_count(d: nat, c: int, vertical: bool, x: (int, int), n: int)
    requires
        0 <= n <= d,
    ensures
        count_upto(x, line_cells(d, c, vertical), n) == (if vertical {
            if x.1 == c && 0 <= x.0 < n { 1nat } else { 0nat }
        } else {
            if x.0 == c && 0 <= x.1 < n { 1nat } else { 0nat }
        }),
    decreases n,
{
    if n > 0 {
        lemma_line_count(d, c, vertical, x, n - 1);
    }
}

proof fn lemma_line_overlap_even(d: nat, is_x: bool, i: int, c: int)
    requires
        valid_distance(d),
        2 * d * d <= usize::MAX,
        0 <= i < anchors(d, is_x).len(),
        0 <= c < d,
    ensures
        overlap(stab_support(d, is_x, i, anchors(d, is_x)[i]), if is_x { column(d, c) } else { row(d, c) }) % 2 == 0,
{
    lemma_half(d);
    lemma_anchor_counts(d);
    lemma_anchor_shape(d, is_x, i);
    let a = anchors(d, is_x)[i];
    let s = stab_cells(d, is_x, i, a);
    let t = line_cells(d, c, is_x);
    assert(d * d <= usize::MAX) by (nonlinear_arith)
        requires
            2 * d * d <= usize::MAX;
    assert forall|k: int| 0 <= k < s.len() implies in_grid(d, #[trigger] s[k]) by {}
    assert forall|k: int| 0 <= k < t.len() implies in_grid(d, #[trigger] t[k]) by {}
    assert(ids(d, s) =~= stab_support(d, is_x, i, a));
    assert(ids(d, t) =~= if is_x { column(d, c) } else { row(d, c) });
    lemma_overlap_ids(d, s, t, s.len() as int);
    assert forall|k: int| 0 <= k < s.len() implies #[trigger] occurrences(s[k], t) == (if is_x {
        if s[k].1 == c && 0 <= s[k].0 < d { 1nat } else { 0nat }
    } else {
        if s[k].0 == c && 0 <= s[k].1 < d { 1nat } else { 0nat }
    }) by {
        lemma_line_count(d, c, is_x, s[k], d as int);
    }
    reveal_with_fuel(overlap_upto, 5);
    assert(overlap(s, t) % 2 == 0) by {
        if s.len() == 4 {
            assert(occurrences(s[0], t) + occurrences(s[1], t) + occurrences(s[2], t) + occurrences(s[3], t) == overlap(s, t));
        } else {
            assert(occurrences(s[0], t) + occurrences(s[1], t) == overlap(s, t));
        }
    }
}

/// Every X stabilizer shares an even number of data qubits with every
/// column, and every Z stabilizer with every row; so adding stabilizers to
/// a residual error never changes its parity on a column (X) or a row (Z).
pub proof fn lemma_stabilizers_even_on_lines(code: &SurfaceCode, i: int, c: int)
    requires
        code.wf(),
        0 <= c < code.spec_distance(),
    ensures
        0 <= i < code.x_stabs().len() ==> overlap(code.x_stabs()[i], column(code.spec_distance(), c)) % 2 == 0,
        0 <= i < code.z_stabs().len() ==> overlap(code.z_stabs()[i], row(code.spec_distance(), c)) % 2 == 0,
{
    code.lemma_wf();
    let d = code.spec_distance();
    if 0 <= i < code.x_stabs().len() {
        lemma_line_overlap_even(d, true, i, c);
    }
    if 0 <= i < code.z_stabs().len() {
        lemma_line_overlap_even(d, false, i, c);
    }
}

} // verus!
