//! The rotated surface code has the shape greedy peeling needs: the first
//! qubit of every stabilizer lies in at most one other stabilizer of its
//! type, and that one is anchored up or to the left.
use vstd::prelude::*;

use crate::surface::commute::{anchor_shape, ids, in_grid, lemma_anchor_shape, lemma_qid_injective, stab_cells};
use crate::surface::decoder::total_count;
use crate::surface::peeling::{peelable, supports_distinct};
use crate::surface::code::{
    anchors, face_col, half, interior_anchors, lemma_anchor_counts, lemma_half, lemma_interior_len, num_interior,
    qid, spec_stabilizers, stab_support, valid_distance,
};

verus! {

/// Where anchor `j` of a type lies, by its index.
pub(crate) open spec fn anchor_formula(d: nat, is_x: bool, j: int) -> (int, int) {
    let h = half(d) as int;
    let ni = num_interior(d) as int;
    let q: int = if is_x { 0 } else { 1 };
    if j < ni {
        (j / h, face_col(j / h, q, j % h))
    } else if j < ni + h {
        let k = j - ni;
        if is_x { (1 + 2 * k, 0) } else { (0, 2 * k) }
    } else {
        let k = j - ni - h;
        if is_x { (2 * k, d - 1) } else { (d - 1, 1 + 2 * k) }
    }
}

proof fn lemma_interior_at(d: nat, q: int, n: nat, j: int)
    requires
        valid_distance(d),
        0 <= q <= 1,
        0 <= j < n * half(d),
    ensures
        interior_anchors(d, q, n)[j] == (j / half(d) as int, face_col(j / half(d) as int, q, j % half(d) as int)),
    decreases n,
{
    lemma_half(d);
    let h = half(d) as int;
    if n == 0 {
        assert(n * h == 0) by (nonlinear_arith)
            requires
                n == 0;
    } else {
        let m = (n - 1) as nat;
        lemma_interior_len(d, q, m);
        assert(n * h == m * h + h) by (nonlinear_arith)
            requires
                n == m + 1;
        if j < m * h {
            lemma_interior_at(d, q, m, j);
        } else {
            let k = j - m * h;
            assert(0 <= k < h);
            vstd::arithmetic::div_mod::lemma_fundamental_div_mod_converse(j, h, m as int, k);
        }
    }
}

pub(crate) proof fn lemma_anchor_at(d: nat, is_x: bool, j: int)
    requires
        valid_distance(d),
        0 <= j < anchors(d, is_x).len(),
    ensures
        anchors(d, is_x)[j] == anchor_formula(d, is_x, j),
{
    lemma_half(d);
    lemma_anchor_counts(d);
    let q: int = if is_x { 0 } else { 1 };
    lemma_interior_len(d, q, (d - 1) as nat);
    if j < num_interior(d) {
        lemma_interior_at(d, q, (d - 1) as nat, j);
    }
}

/// Distinct stabilizers of a type have distinct anchors.
pub(crate) proof fn lemma_anchors_injective(d: nat, is_x: bool, j1: int, j2: int)
    requires
        valid_distance(d),
        0 <= j1 < anchors(d, is_x).len(),
        0 <= j2 < anchors(d, is_x).len(),
        anchors(d, is_x)[j1] == anchors(d, is_x)[j2],
    ensures
        j1 == j2,
{
    lemma_half(d);
    lemma_anchor_counts(d);
    crate::surface::commute::lemma_anchor_shape(d, is_x, j1);
    crate::surface::commute::lemma_anchor_shape(d, is_x, j2);
    lemma_anchor_at(d, is_x, j1);
    lemma_anchor_at(d, is_x, j2);
    let h = half(d) as int;
    let ni = num_interior(d) as int;
    if j1 < ni && j2 < ni {
        vstd::arithmetic::div_mod::lemma_fundamental_div_mod(j1, h);
        vstd::arithmetic::div_mod::lemma_fundamental_div_mod(j2, h);
        assert(j1 / h == j2 / h);
        assert(j1 % h == j2 % h);
    }
}

/// The other anchor whose stabilizer may hold the cell at anchor `a`: one
/// row up and one column left, or straight up on the left edge (X type),
/// or straight left on the top edge (Z type).
pub(crate) open spec fn partner(is_x: bool, a: (int, int)) -> (int, int) {
    if is_x {
        if a.1 == 0 { (a.0 - 1, 0) } else { (a.0 - 1, a.1 - 1) }
    } else {
        if a.0 == 0 { (0, a.1 - 1) } else { (a.0 - 1, a.1 - 1) }
    }
}

/// A stabilizer of the same type that holds the cell at anchor `a` is
/// anchored at `a` or at its partner, no further down or right.
pub(crate) proof fn lemma_cell_partner(
    d: int,
    is_x: bool,
    ni: int,
    h: int,
    i: int,
    a: (int, int),
    j: int,
    b: (int, int),
    k: int,
)
    requires
        d >= 3,
        d % 2 == 1,
        ni == num_interior(d as nat),
        anchor_shape(d, is_x, ni, h, i, a),
        anchor_shape(d, is_x, ni, h, j, b),
        0 <= k < stab_cells(d as nat, is_x, j, b).len(),
        stab_cells(d as nat, is_x, j, b)[k] == a,
    ensures
        b == a || b == partner(is_x, a),
        b != a ==> b.0 + b.1 < a.0 + a.1,
{
}

/// Number of anchors among the first `m` equal to `u`.
spec fn eq_count(s: Seq<(int, int)>, u: (int, int), m: nat) -> nat
    decreases m,
{
    if m == 0 {
        0
    } else {
        eq_count(s, u, (m - 1) as nat) + if s[m - 1] == u { 1nat } else { 0nat }
    }
}

proof fn lemma_eq_count_zero(s: Seq<(int, int)>, u: (int, int), m: nat)
    requires
        forall|j: int| 0 <= j < m ==> s[j] != u,
    ensures
        eq_count(s, u, m) == 0,
    decreases m,
{
    if m > 0 {
        lemma_eq_count_zero(s, u, (m - 1) as nat);
    }
}

proof fn lemma_eq_count_at_most_one(d: nat, is_x: bool, u: (int, int), m: nat)
    requires
        valid_distance(d),
        m <= anchors(d, is_x).len(),
    ensures
        eq_count(anchors(d, is_x), u, m) <= 1,
    decreases m,
{
    if m > 0 {
        let s = anchors(d, is_x);
        if s[m - 1] == u {
            assert forall|j: int| 0 <= j < m - 1 implies s[j] != u by {
                if s[j] == u {
                    lemma_anchors_injective(d, is_x, j, m - 1);
                }
            }
            lemma_eq_count_zero(s, u, (m - 1) as nat);
        } else {
            lemma_eq_count_at_most_one(d, is_x, u, (m - 1) as nat);
        }
    }
}

/// A stabilizer holds the qubit at an in-grid cell only if one of its
/// cells is that cell.
proof fn lemma_holds_cell(d: nat, is_x: bool, j: int, c: (int, int))
    requires
        valid_distance(d),
        2 * d * d <= usize::MAX,
        0 <= j < anchors(d, is_x).len(),
        in_grid(d, c),
        spec_stabilizers(d, is_x)[j].contains(qid(d, c.0, c.1)),
    ensures
        exists|k: int|
            0 <= k < stab_cells(d, is_x, j, anchors(d, is_x)[j]).len() && #[trigger] stab_cells(
                d,
                is_x,
                j,
                anchors(d, is_x)[j],
            )[k] == c,
{
    lemma_half(d);
    lemma_anchor_counts(d);
    lemma_anchor_shape(d, is_x, j);
    let b = anchors(d, is_x)[j];
    let t = stab_cells(d, is_x, j, b);
    assert(d * d <= usize::MAX) by (nonlinear_arith)
        requires
            2 * d * d <= usize::MAX;
    assert forall|k: int| 0 <= k < t.len() implies in_grid(d, #[trigger] t[k]) by {}
    assert(ids(d, t) =~= stab_support(d, is_x, j, b));
    let k = choose|k: int| 0 <= k < ids(d, t).len() && ids(d, t)[k] == qid(d, c.0, c.1);
    lemma_qid_injective(d, t[k], c);
}

proof fn lemma_total_count_bound(d: nat, is_x: bool, a: (int, int), i: int, m: nat)
    requires
        valid_distance(d),
        2 * d * d <= usize::MAX,
        0 <= i < anchors(d, is_x).len(),
        a == anchors(d, is_x)[i],
        m <= anchors(d, is_x).len(),
    ensures
        total_count(spec_stabilizers(d, is_x), qid(d, a.0, a.1), m) <= eq_count(anchors(d, is_x), a, m) + eq_count(
            anchors(d, is_x),
            partner(is_x, a),
            m,
        ),
    decreases m,
{
    if m > 0 {
        lemma_total_count_bound(d, is_x, a, i, (m - 1) as nat);
        let j = m - 1;
        lemma_half(d);
        lemma_anchor_counts(d);
        lemma_anchor_shape(d, is_x, i);
        lemma_anchor_shape(d, is_x, j);
        if spec_stabilizers(d, is_x)[j].contains(qid(d, a.0, a.1)) {
            lemma_holds_cell(d, is_x, j, a);
            let b = anchors(d, is_x)[j];
            let k = choose|k: int| 0 <= k < stab_cells(d, is_x, j, b).len() && #[trigger] stab_cells(d, is_x, j, b)[k] == a;
            lemma_cell_partner(d as int, is_x, num_interior(d) as int, half(d) as int, i, a, j, b, k);
        }
    }
}

/// Potential of each stabilizer: the row plus the column of its anchor.
pub open spec fn surface_pots(d: nat, is_x: bool) -> Seq<nat> {
    Seq::new(anchors(d, is_x).len(), |i: int| (anchors(d, is_x)[i].0 + anchors(d, is_x)[i].1) as nat)
}

/// The stabilizers of each type of the rotated surface code have the shape
/// on which greedy peeling stops.
pub proof fn lemma_surface_peelable(d: nat, is_x: bool)
    requires
        valid_distance(d),
        2 * d * d <= usize::MAX,
    ensures
        peelable(spec_stabilizers(d, is_x), surface_pots(d, is_x)),
{
    lemma_half(d);
    lemma_anchor_counts(d);
    let table = spec_stabilizers(d, is_x);
    let pots = surface_pots(d, is_x);
    let an = anchors(d, is_x);
    assert forall|i: int| 0 <= i < table.len() implies #[trigger] table[i].len() > 0 && table[i][0] == qid(
        d,
        an[i].0,
        an[i].1,
    ) by {}
    assert forall|i: int| 0 <= i < table.len() implies total_count(table, #[trigger] table[i][0], table.len()) <= 2 by {
        assert(table[i][0] == qid(d, an[i].0, an[i].1));
        lemma_total_count_bound(d, is_x, an[i], i, table.len());
        lemma_eq_count_at_most_one(d, is_x, an[i], table.len());
        lemma_eq_count_at_most_one(d, is_x, partner(is_x, an[i]), table.len());
    }
    assert forall|i: int, j: int|
        0 <= i < table.len() && 0 <= j < table.len() && j != i && #[trigger] table[j].contains(#[trigger] table[i][0])
            implies pots[j] < pots[i] by {
        assert(table[i][0] == qid(d, an[i].0, an[i].1));
        lemma_anchor_shape(d, is_x, i);
        lemma_anchor_shape(d, is_x, j);
        lemma_holds_cell(d, is_x, j, an[i]);
        let k = choose|k: int| 0 <= k < stab_cells(d, is_x, j, an[j]).len() && #[trigger] stab_cells(d, is_x, j, an[j])[k] == an[i];
        lemma_cell_partner(d as int, is_x, num_interior(d) as int, half(d) as int, i, an[i], j, an[j], k);
        if an[j] == an[i] {
            lemma_anchors_injective(d, is_x, i, j);
        }
    }
}

/// No stabilizer support lists a qubit twice.
pub proof fn lemma_surface_supports_distinct(d: nat, is_x: bool)
    requires
        valid_distance(d),
        2 * d * d <= usize::MAX,
    ensures
        supports_distinct(spec_stabilizers(d, is_x)),
        forall|i: int| 0 <= i < spec_stabilizers(d, is_x).len() ==> #[trigger] spec_stabilizers(d, is_x)[i].len() > 0,
{
    lemma_half(d);
    lemma_anchor_counts(d);
    let table = spec_stabilizers(d, is_x);
    assert(d * d <= usize::MAX) by (nonlinear_arith)
        requires
            2 * d * d <= usize::MAX;
    assert forall|i: int, j1: int, j2: int|
        0 <= i < table.len() && 0 <= j1 < table[i].len() && 0 <= j2 < table[i].len() && j1 != j2
            implies #[trigger] table[i][j1] != #[trigger] table[i][j2] by {
        lemma_anchor_shape(d, is_x, i);
        let b = anchors(d, is_x)[i];
        let t = stab_cells(d, is_x, i, b);
        assert forall|k: int| 0 <= k < t.len() implies in_grid(d, #[trigger] t[k]) by {}
        assert(ids(d, t) =~= stab_support(d, is_x, i, b));
        lemma_qid_injective(d, t[j1], t[j2]);
    }
}

} // verus!
