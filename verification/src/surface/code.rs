use vstd::prelude::*;

use crate::surface::error::QecError;

verus! {

/// Qubit role in the surface code lattice.
#[derive(Debug, Clone, Copy, PartialEq, Eq, Structural)]
pub enum QubitRole {
    Data,
    MeasureX,
    MeasureZ,
}

/// A qubit in the surface code.
#[derive(Debug, Clone, Copy, PartialEq, Eq, Structural)]
pub struct SurfaceQubit {
    pub id: usize,
    pub role: QubitRole,
    pub row: usize,
    pub col: usize,
}

// ---------------------------------------------------------------------------
// Layout of the rotated surface code of odd distance d >= 3.
//
// Data qubit (r, c) of the d x d grid has ID r * d + c. With h = (d - 1) / 2:
// - X stabilizers: the faces (r, c) with r + c even (row by row, h per row),
//   then the left boundary pairs at column 0 below odd rows r = 1, 3, .., d - 2,
//   then the right boundary pairs at column d - 1 below even rows 0, 2, .., d - 3;
// - Z stabilizers: the faces with r + c odd, then the top boundary pairs on
//   row 0 right of even columns 0, 2, .., d - 3, then the bottom boundary
//   pairs on row d - 1 right of odd columns 1, 3, .., d - 2.
// A face (r, c) acts on (r, c), (r, c + 1), (r + 1, c), (r + 1, c + 1).
// Each stabilizer has a measurement qubit placed at its anchor cell; their IDs
// follow the data qubits: X ancillas first, then Z ancillas.
// ---------------------------------------------------------------------------

/// Number of faces of each type per row, and of boundary pairs per side.
pub open spec fn half(d: nat) -> nat {
    ((d - 1) as nat) / 2
}

/// ID of data qubit (r, c).
pub open spec fn qid(d: nat, r: int, c: int) -> usize {
    (r * d + c) as usize
}

/// The four data qubits around face (r, c).
pub open spec fn face_support(d: nat, r: int, c: int) -> Seq<usize> {
    seq![qid(d, r, c), qid(d, r, c + 1), qid(d, r + 1, c), qid(d, r + 1, c + 1)]
}

/// Data qubits (r, c) and (r + 1, c).
pub open spec fn vertical_pair(d: nat, r: int, c: int) -> Seq<usize> {
    seq![qid(d, r, c), qid(d, r + 1, c)]
}

/// Data qubits (r, c) and (r, c + 1).
pub open spec fn horizontal_pair(d: nat, r: int, c: int) -> Seq<usize> {
    seq![qid(d, r, c), qid(d, r, c + 1)]
}

/// Column of the k-th face in row r whose type has parity q
/// (q = 0: r + c even, X type; q = 1: r + c odd, Z type).
pub open spec fn face_col(r: int, q: int, k: int) -> int {
    2 * k + (r + q) % 2
}

/// Anchors of the interior faces of parity q in rows 0 .. n, row by row.
pub open spec fn interior_anchors(d: nat, q: int, n: nat) -> Seq<(int, int)>
    decreases n,
{
    if n == 0 {
        Seq::empty()
    } else {
        let r = n - 1;
        interior_anchors(d, q, (n - 1) as nat) + Seq::new(half(d), |k: int| (r, face_col(r, q, k)))
    }
}

/// Anchors of the `half(d)` boundary pairs on one side: starting at
/// `(r0, c0)` and stepping by 2 down the side (vertical) or along it.
pub open spec fn side_anchors(d: nat, r0: int, c0: int, vertical: bool) -> Seq<(int, int)> {
    Seq::new(half(d), |k: int| if vertical { (r0 + 2 * k, c0) } else { (r0, c0 + 2 * k) })
}

/// Anchors of the X stabilizers (`is_x`) or Z stabilizers, in construction
/// order: interior faces, then the two boundary sides.
pub open spec fn anchors(d: nat, is_x: bool) -> Seq<(int, int)> {
    if is_x {
        interior_anchors(d, 0, (d - 1) as nat) + side_anchors(d, 1, 0, true) + side_anchors(d, 0, d - 1, true)
    } else {
        interior_anchors(d, 1, (d - 1) as nat) + side_anchors(d, 0, 0, false) + side_anchors(d, d - 1, 1, false)
    }
}

/// Number of interior faces of each type.
pub open spec fn num_interior(d: nat) -> nat {
    ((d - 1) * half(d)) as nat
}

/// Support of the i-th stabilizer of its type, anchored at `a`: a face for
/// the interior ones, a vertical (X) or horizontal (Z) pair on the boundary.
pub open spec fn stab_support(d: nat, is_x: bool, i: int, a: (int, int)) -> Seq<usize> {
    if i < num_interior(d) {
        face_support(d, a.0, a.1)
    } else if is_x {
        vertical_pair(d, a.0, a.1)
    } else {
        horizontal_pair(d, a.0, a.1)
    }
}

/// Supports of the X stabilizers (`is_x`) or Z stabilizers.
pub open spec fn spec_stabilizers(d: nat, is_x: bool) -> Seq<Seq<usize>> {
    Seq::new(anchors(d, is_x).len(), |i: int| stab_support(d, is_x, i, anchors(d, is_x)[i]))
}

/// Role of the measurement qubits of one type.
pub open spec fn ancilla_role(is_x: bool) -> QubitRole {
    if is_x {
        QubitRole::MeasureX
    } else {
        QubitRole::MeasureZ
    }
}

/// The d * d data qubits in row-major order.
pub open spec fn spec_data_qubits(d: nat) -> Seq<SurfaceQubit> {
    Seq::new(d * d, |i: int| SurfaceQubit { id: i as usize, role: QubitRole::Data, row: (i / d as int) as usize, col: (i % d as int) as usize })
}

/// Measurement qubits placed at the given anchors, numbered from `first_id`.
pub open spec fn ancillas(anchors: Seq<(int, int)>, role: QubitRole, first_id: nat) -> Seq<SurfaceQubit> {
    Seq::new(anchors.len(), |i: int| SurfaceQubit {
        id: (first_id + i) as usize,
        role,
        row: anchors[i].0 as usize,
        col: anchors[i].1 as usize,
    })
}

/// X-type measurement qubits.
pub open spec fn spec_measure_x(d: nat) -> Seq<SurfaceQubit> {
    ancillas(anchors(d, true), QubitRole::MeasureX, d * d)
}

/// Z-type measurement qubits.
pub open spec fn spec_measure_z(d: nat) -> Seq<SurfaceQubit> {
    ancillas(anchors(d, false), QubitRole::MeasureZ, d * d + anchors(d, true).len())
}

/// A valid code distance.
pub open spec fn valid_distance(d: nat) -> bool {
    d >= 3 && d % 2 == 1
}

pub open spec fn stabs_of(v: Seq<Vec<usize>>) -> Seq<Seq<usize>> {
    v.map_values(|s: Vec<usize>| s@)
}

/// Rotated surface code with a given (odd, at least 3) code distance.
#[derive(Debug, Clone)]
pub struct SurfaceCode {
    pub distance: usize,
    pub data_qubits: Vec<SurfaceQubit>,
    pub measure_x_qubits: Vec<SurfaceQubit>,
    pub measure_z_qubits: Vec<SurfaceQubit>,
    x_stabilizers: Vec<Vec<usize>>,
    z_stabilizers: Vec<Vec<usize>>,
}

impl SurfaceCode {
    /// Supports of the X stabilizers.
    pub closed spec fn x_stabs(&self) -> Seq<Seq<usize>> {
        stabs_of(self.x_stabilizers@)
    }

    /// Supports of the Z stabilizers.
    pub closed spec fn z_stabs(&self) -> Seq<Seq<usize>> {
        stabs_of(self.z_stabilizers@)
    }

    /// The code distance.
    pub closed spec fn spec_distance(&self) -> nat {
        self.distance as nat
    }

    /// The data qubits.
    pub closed spec fn spec_data(&self) -> Seq<SurfaceQubit> {
        self.data_qubits@
    }

    /// The X-type measurement qubits.
    pub closed spec fn spec_mx(&self) -> Seq<SurfaceQubit> {
        self.measure_x_qubits@
    }

    /// The Z-type measurement qubits.
    pub closed spec fn spec_mz(&self) -> Seq<SurfaceQubit> {
        self.measure_z_qubits@
    }

    /// The code is the rotated surface code of its distance.
    pub closed spec fn wf(&self) -> bool {
        &&& valid_distance(self.distance as nat)
        &&& 2 * self.distance * self.distance <= usize::MAX
        &&& self.data_qubits@ == spec_data_qubits(self.distance as nat)
        &&& self.measure_x_qubits@ == spec_measure_x(self.distance as nat)
        &&& self.measure_z_qubits@ == spec_measure_z(self.distance as nat)
        &&& self.x_stabs() == spec_stabilizers(self.distance as nat, true)
        &&& self.z_stabs() == spec_stabilizers(self.distance as nat, false)
    }

    /// What well-formedness states.
    pub proof fn lemma_wf(&self)
        requires
            self.wf(),
        ensures
            valid_distance(self.spec_distance()),
            2 * self.spec_distance() * self.spec_distance() <= usize::MAX,
            self.spec_data() == spec_data_qubits(self.spec_distance()),
            self.spec_mx() == spec_measure_x(self.spec_distance()),
            self.spec_mz() == spec_measure_z(self.spec_distance()),
            self.x_stabs() == spec_stabilizers(self.spec_distance(), true),
            self.z_stabs() == spec_stabilizers(self.spec_distance(), false),
    {
    }

}

/// Supports of the stabilizers anchored at `a` (the first ones of their type).
pub open spec fn supports_of(d: nat, is_x: bool, a: Seq<(int, int)>) -> Seq<Seq<usize>> {
    Seq::new(a.len(), |i: int| stab_support(d, is_x, i, a[i]))
}

/// Parity of the columns holding faces of type q in row r.
pub open spec fn row_parity(r: int, q: int) -> int {
    (r + q) % 2
}

/// Number of columns c' < c with the parity of the faces of type q in row r.
pub open spec fn faces_before(r: int, q: int, c: int) -> int {
    (c + 1 - row_parity(r, q)) / 2
}

/// Interior face anchors of row r.
pub open spec fn row_anchors(d: nat, r: int, q: int) -> Seq<(int, int)> {
    Seq::new(half(d), |k: int| (r, face_col(r, q, k)))
}

pub(crate) proof fn lemma_cell_bound(d: int, r: int, c: int)
    by (nonlinear_arith)
    requires
        0 <= r < d,
        0 <= c < d,
    ensures
        0 <= r * d + c < d * d,
        r * d + c + 1 <= d * d,
        (r + 1) * d == r * d + d,
        (r + 1) * d <= d * d,
        0 <= r * d,
{
}

proof fn lemma_square_bound(d: int)
    by (nonlinear_arith)
    requires
        d >= 0,
    ensures
        d * d <= 2 * d * d,
        d <= d * d,
        2 * d * d == d * d + d * d,
{
}

pub(crate) proof fn lemma_interior_len(d: nat, q: int, n: nat)
    ensures
        interior_anchors(d, q, n).len() == n * half(d),
    decreases n,
{
    if n > 0 {
        let m = (n - 1) as nat;
        lemma_interior_len(d, q, m);
        let h = half(d);
        assert(m * h + h == n * h) by (nonlinear_arith)
            requires
                n == m + 1;
        assert(interior_anchors(d, q, n).len() == interior_anchors(d, q, m).len() + h);
    } else {
        assert(0 * half(d) == 0);
    }
}

pub(crate) proof fn lemma_half(d: nat)
    requires
        valid_distance(d),
    ensures
        d == 2 * half(d) + 1,
        half(d) >= 1,
        num_interior(d) == (d - 1) * half(d),
        num_interior(d) + 2 * half(d) == (d * d - 1) / 2,
{
    assert((d - 1) * half(d) + 2 * half(d) == (d + 1) * half(d)) by (nonlinear_arith);
    assert((d + 1) * half(d) * 2 == (d + 1) * (d - 1)) by (nonlinear_arith)
        requires
            d == 2 * half(d) + 1;
    assert((d + 1) * (d - 1) == d * d - 1) by (nonlinear_arith);
}

/// The data qubits of the d x d grid.
fn build_data_qubits(d: usize) -> (v: Vec<SurfaceQubit>)
    requires
        valid_distance(d as nat),
        2 * d * d <= usize::MAX,
    ensures
        v@ == spec_data_qubits(d as nat),
{
    let ghost target = spec_data_qubits(d as nat);
    proof { lemma_square_bound(d as int); }
    let mut v: Vec<SurfaceQubit> = Vec::new();
    let mut r: usize = 0;
    while r < d
        invariant
            valid_distance(d as nat),
            2 * d * d <= usize::MAX,
            d * d <= usize::MAX,
            target == spec_data_qubits(d as nat),
            r <= d,
            r * d <= d * d,
            v@ == target.take(r * d),
        decreases d - r,
    {
        let mut c: usize = 0;
        while c < d
            invariant
                valid_distance(d as nat),
                2 * d * d <= usize::MAX,
                d * d <= usize::MAX,
                target == spec_data_qubits(d as nat),
                r < d,
                c <= d,
                v@ == target.take(r * d + c),
            decreases d - c,
        {
            proof {
                lemma_cell_bound(d as int, r as int, c as int);
                vstd::arithmetic::div_mod::lemma_fundamental_div_mod_converse_div((r * d + c) as int, d as int, r as int, c as int);
                vstd::arithmetic::div_mod::lemma_fundamental_div_mod_converse_mod((r * d + c) as int, d as int, r as int, c as int);
            }
            let id = r * d + c;
            v.push(SurfaceQubit { id, role: QubitRole::Data, row: r, col: c });
            assert(v@ =~= target.take(r * d + c + 1));
            c += 1;
        }
        proof { lemma_cell_bound(d as int, r as int, 0); }
        assert(r * d + d == (r + 1) * d);
        r += 1;
    }
    assert(v@ =~= target);
    v
}

/// Appends the stabilizer anchored at `a` (index `i` of its type) and its
/// measurement qubit.
fn push_stabilizer(
    d: usize,
    is_x: bool,
    first_id: usize,
    stabs: &mut Vec<Vec<usize>>,
    anc: &mut Vec<SurfaceQubit>,
    r: usize,
    c: usize,
    face: bool,
    Ghost(a): Ghost<Seq<(int, int)>>,
)
    requires
        valid_distance(d as nat),
        2 * d * d <= usize::MAX,
        first_id + a.len() <= usize::MAX,
        a.len() < d * d,
        stabs_of(old(stabs)@) == supports_of(d as nat, is_x, a),
        old(anc)@ == ancillas(a, ancilla_role(is_x), first_id as nat),
        face <==> a.len() < num_interior(d as nat),
        face ==> r + 1 < d && c + 1 < d,
        !face && is_x ==> r + 1 < d && c < d,
        !face && !is_x ==> r < d && c + 1 < d,
    ensures
        stabs_of(final(stabs)@) == supports_of(d as nat, is_x, a.push((r as int, c as int))),
        final(anc)@ == ancillas(a.push((r as int, c as int)), ancilla_role(is_x), first_id as nat),
{
    let ghost a2 = a.push((r as int, c as int));
    proof {
        lemma_square_bound(d as int);
        lemma_cell_bound(d as int, r as int, c as int);
        if r + 1 < d {
            lemma_cell_bound(d as int, (r + 1) as int, c as int);
        }
        if c + 1 < d {
            lemma_cell_bound(d as int, r as int, (c + 1) as int);
        }
        if r + 1 < d && c + 1 < d {
            lemma_cell_bound(d as int, (r + 1) as int, (c + 1) as int);
        }
    }
    let support: Vec<usize> = if face {
        vec![r * d + c, r * d + c + 1, (r + 1) * d + c, (r + 1) * d + c + 1]
    } else if is_x {
        vec![r * d + c, (r + 1) * d + c]
    } else {
        vec![r * d + c, r * d + c + 1]
    };
    assert(support@ == stab_support(d as nat, is_x, a.len() as int, (r as int, c as int)));
    let id = first_id + anc.len();
    let role = if is_x { QubitRole::MeasureX } else { QubitRole::MeasureZ };
    let ghost old_stabs = stabs@;
    assert(stabs_of(old_stabs).len() == old_stabs.len());
    assert(old_stabs.len() == a.len());
    stabs.push(support);
    anc.push(SurfaceQubit { id, role, row: r, col: c });
    assert forall|i: int| 0 <= i < a2.len() implies #[trigger] stabs_of(stabs@)[i] == supports_of(d as nat, is_x, a2)[i] by {
        if i < a.len() {
            assert(stabs@[i] == old_stabs[i]);
            assert(stabs_of(old_stabs)[i] == supports_of(d as nat, is_x, a)[i]);
        }
    }
    assert(stabs_of(stabs@) =~= supports_of(d as nat, is_x, a2));
    assert(anc@ =~= ancillas(a2, ancilla_role(is_x), first_id as nat));
}

proof fn lemma_faces_before(r: int, q: int, c: int)
    requires
        r >= 0,
        0 <= q <= 1,
        c >= 0,
    ensures
        faces_before(r, q, 0) == 0,
        (r + c) % 2 == q ==> face_col(r, q, faces_before(r, q, c)) == c && faces_before(r, q, c + 1)
            == faces_before(r, q, c) + 1,
        (r + c) % 2 != q ==> faces_before(r, q, c + 1) == faces_before(r, q, c),
        0 <= faces_before(r, q, c),
        2 * faces_before(r, q, c) <= c + 1,
{
    let p = row_parity(r, q);
    assert(p == 0 || p == 1);
    assert((r + c) % 2 == q <==> c % 2 == p) by {
        assert(r % 2 == 0 || r % 2 == 1);
        assert(c % 2 == 0 || c % 2 == 1);
    }
}

proof fn lemma_faces_full_row(d: nat, r: int, q: int)
    requires
        valid_distance(d),
        r >= 0,
        0 <= q <= 1,
    ensures
        faces_before(r, q, d - 1) == half(d),
{
    lemma_half(d);
    let p = row_parity(r, q);
    assert(p == 0 || p == 1);
}

/// The stabilizer supports of one type, and their measurement qubits numbered
/// from `first_id`.
fn build_stabilizers(d: usize, is_x: bool, first_id: usize) -> (res: (Vec<Vec<usize>>, Vec<SurfaceQubit>))
    requires
        valid_distance(d as nat),
        2 * d * d <= usize::MAX,
        first_id + (d * d - 1) / 2 <= usize::MAX,
    ensures
        stabs_of(res.0@) == spec_stabilizers(d as nat, is_x),
        res.1@ == ancillas(anchors(d as nat, is_x), ancilla_role(is_x), first_id as nat),
{
    proof {
        lemma_half(d as nat);
        lemma_square_bound(d as int);
    }
    let q: usize = if is_x { 0 } else { 1 };
    let h: usize = (d - 1) / 2;
    let ghost dn = d as nat;
    let mut stabs: Vec<Vec<usize>> = Vec::new();
    let mut anc: Vec<SurfaceQubit> = Vec::new();
    let ghost mut a: Seq<(int, int)> = Seq::empty();
    assert(stabs_of(stabs@) =~= supports_of(dn, is_x, a));
    assert(anc@ =~= ancillas(a, ancilla_role(is_x), first_id as nat));
    let mut r: usize = 0;
    while r < d - 1
        invariant
            valid_distance(dn),
            dn == d,
            2 * d * d <= usize::MAX,
            d * d <= usize::MAX,
            first_id + (d * d - 1) / 2 <= usize::MAX,
            q as int == if is_x { 0int } else { 1int },
            h == half(dn),
            d == 2 * h + 1,
            num_interior(dn) == (d - 1) * h,
            num_interior(dn) + 2 * h == (d * d - 1) / 2,
            r <= d - 1,
            a == interior_anchors(dn, q as int, r as nat),
            a.len() == r * h,
            stabs_of(stabs@) == supports_of(dn, is_x, a),
            anc@ == ancillas(a, ancilla_role(is_x), first_id as nat),
        decreases d - 1 - r,
    {
        let ghost prefix = interior_anchors(dn, q as int, r as nat);
        let ghost row = row_anchors(dn, r as int, q as int);
        proof { lemma_faces_before(r as int, q as int, 0); }
        assert(a =~= prefix + row.take(0));
        let mut c: usize = 0;
        while c < d - 1
            invariant
                valid_distance(dn),
                dn == d,
                2 * d * d <= usize::MAX,
                d * d <= usize::MAX,
                first_id + (d * d - 1) / 2 <= usize::MAX,
                q as int == if is_x { 0int } else { 1int },
                h == half(dn),
                d == 2 * h + 1,
                num_interior(dn) == (d - 1) * h,
                num_interior(dn) + 2 * h == (d * d - 1) / 2,
                r < d - 1,
                c <= d - 1,
                prefix == interior_anchors(dn, q as int, r as nat),
                row == row_anchors(dn, r as int, q as int),
                prefix.len() == r * h,
                0 <= faces_before(r as int, q as int, c as int) <= h,
                a == prefix + row.take(faces_before(r as int, q as int, c as int)),
                stabs_of(stabs@) == supports_of(dn, is_x, a),
                anc@ == ancillas(a, ancilla_role(is_x), first_id as nat),
            decreases d - 1 - c,
        {
            proof {
                lemma_faces_before(r as int, q as int, c as int);
                lemma_faces_full_row(dn, r as int, q as int);
            }
            if (r + c) % 2 == q {
                let ghost fb = faces_before(r as int, q as int, c as int);
                assert(fb < h) by {
                    assert(2 * fb <= c + 1);
                }
                assert(a.len() < num_interior(dn)) by {
                    assert(a.len() == r * h + fb);
                    assert(r * h + fb < (r + 1) * h) by (nonlinear_arith)
                        requires
                            fb < h;
                    assert((r + 1) * h <= (d - 1) * h) by (nonlinear_arith)
                        requires
                            r + 1 <= d - 1;
                }
                assert(a.len() < d * d);
                push_stabilizer(d, is_x, first_id, &mut stabs, &mut anc, r, c, true, Ghost(a));
                proof {
                    assert(row[fb] == (r as int, c as int));
                    assert(a.push((r as int, c as int)) =~= prefix + row.take(fb + 1));
                    a = a.push((r as int, c as int));
                }
            }
            c += 1;
        }
        proof {
            lemma_faces_full_row(dn, r as int, q as int);
            assert(row.take(h as int) =~= row);
            assert(a =~= interior_anchors(dn, q as int, (r + 1) as nat));
            assert(a.len() == (r + 1) * h) by (nonlinear_arith)
                requires
                    a.len() == r * h + h;
        }
        r += 1;
    }
    // the first boundary side
    let ghost interior = a;
    let ghost side1 = if is_x { side_anchors(dn, 1, 0, true) } else { side_anchors(dn, 0, 0, false) };
    assert(a =~= interior + side1.take(0));
    let mut k: usize = 0;
    while k < h
        invariant
            valid_distance(dn),
            dn == d,
            2 * d * d <= usize::MAX,
            d * d <= usize::MAX,
            first_id + (d * d - 1) / 2 <= usize::MAX,
            h == half(dn),
            d == 2 * h + 1,
            num_interior(dn) == (d - 1) * h,
            num_interior(dn) + 2 * h == (d * d - 1) / 2,
            interior.len() == num_interior(dn),
            side1 == if is_x { side_anchors(dn, 1, 0, true) } else { side_anchors(dn, 0, 0, false) },
            k <= h,
            a == interior + side1.take(k as int),
            stabs_of(stabs@) == supports_of(dn, is_x, a),
            anc@ == ancillas(a, ancilla_role(is_x), first_id as nat),
        decreases h - k,
    {
        let (r, c) = if is_x { (1 + 2 * k, 0) } else { (0, 2 * k) };
        push_stabilizer(d, is_x, first_id, &mut stabs, &mut anc, r, c, false, Ghost(a));
        proof {
            assert(side1[k as int] == (r as int, c as int));
            assert(a.push((r as int, c as int)) =~= interior + side1.take(k + 1));
            a = a.push((r as int, c as int));
        }
        k += 1;
    }
    // the second boundary side
    let ghost before = a;
    let ghost side2 = if is_x { side_anchors(dn, 0, d - 1, true) } else { side_anchors(dn, d - 1, 1, false) };
    assert(side1.take(h as int) =~= side1);
    assert(a =~= before + side2.take(0));
    let mut k: usize = 0;
    while k < h
        invariant
            valid_distance(dn),
            dn == d,
            2 * d * d <= usize::MAX,
            d * d <= usize::MAX,
            first_id + (d * d - 1) / 2 <= usize::MAX,
            h == half(dn),
            d == 2 * h + 1,
            num_interior(dn) == (d - 1) * h,
            num_interior(dn) + 2 * h == (d * d - 1) / 2,
            before.len() == num_interior(dn) + h,
            side2 == if is_x { side_anchors(dn, 0, d - 1, true) } else { side_anchors(dn, d - 1, 1, false) },
            k <= h,
            a == before + side2.take(k as int),
            stabs_of(stabs@) == supports_of(dn, is_x, a),
            anc@ == ancillas(a, ancilla_role(is_x), first_id as nat),
        decreases h - k,
    {
        let (r, c) = if is_x { (2 * k, d - 1) } else { (d - 1, 1 + 2 * k) };
        push_stabilizer(d, is_x, first_id, &mut stabs, &mut anc, r, c, false, Ghost(a));
        proof {
            assert(side2[k as int] == (r as int, c as int));
            assert(a.push((r as int, c as int)) =~= before + side2.take(k + 1));
            a = a.push((r as int, c as int));
        }
        k += 1;
    }
    assert(side2.take(h as int) =~= side2);
    assert(a =~= anchors(dn, is_x));
    (stabs, anc)
}

impl SurfaceCode {
    /// Builds the rotated surface code of the given distance, which must be
    /// odd and at least 3.
    pub fn new(distance: usize) -> (res: Result<Self, QecError>)
        requires
            valid_distance(distance as nat) ==> 2 * distance * distance <= usize::MAX,
        ensures
            !valid_distance(distance as nat) ==> res == Err::<Self, QecError>(QecError::InvalidDistance(distance)),
            valid_distance(distance as nat) ==> (res matches Ok(code) && code.wf() && code.spec_distance()
                == distance),
    {
        if distance < 3 || distance % 2 == 0 {
            return Err(QecError::InvalidDistance(distance));
        }
        let d = distance;
        proof {
            lemma_half(d as nat);
            lemma_square_bound(d as int);
        }
        let data_qubits = build_data_qubits(d);
        let (x_stabilizers, measure_x_qubits) = build_stabilizers(d, true, d * d);
        let nx = measure_x_qubits.len();
        assert(nx == anchors(d as nat, true).len());
        proof {
            lemma_anchor_counts(d as nat);
            lemma_odd_square(d as nat);
        }
        let (z_stabilizers, measure_z_qubits) = build_stabilizers(d, false, d * d + nx);
        Ok(SurfaceCode { distance: d, data_qubits, measure_x_qubits, measure_z_qubits, x_stabilizers, z_stabilizers })
    }

    /// Number of data qubits.
    pub fn num_data_qubits(&self) -> (n: usize)
        ensures
            n == self.spec_data().len(),
    {
        self.data_qubits.len()
    }

    /// Number of measurement (ancilla) qubits.
    pub fn num_ancilla_qubits(&self) -> (n: usize)
        requires
            self.spec_mx().len() + self.spec_mz().len() <= usize::MAX,
        ensures
            n == self.spec_mx().len() + self.spec_mz().len(),
    {
        self.measure_x_qubits.len() + self.measure_z_qubits.len()
    }

    /// Number of data and measurement qubits together.
    pub fn total_qubits(&self) -> (n: usize)
        requires
            self.spec_data().len() + self.spec_mx().len() + self.spec_mz().len() <= usize::MAX,
        ensures
            n == self.spec_data().len() + self.spec_mx().len() + self.spec_mz().len(),
    {
        self.num_data_qubits() + self.num_ancilla_qubits()
    }

    /// Number of X stabilizers.
    pub fn num_x_stabilizers(&self) -> (n: usize)
        ensures
            n == self.x_stabs().len(),
    {
        self.x_stabilizers.len()
    }

    /// Number of Z stabilizers.
    pub fn num_z_stabilizers(&self) -> (n: usize)
        ensures
            n == self.z_stabs().len(),
    {
        self.z_stabilizers.len()
    }

    /// Data-qubit IDs acted on by the given X stabilizer.
    pub fn x_stabilizer_qubits(&self, stabilizer_index: usize) -> (v: Vec<usize>)
        requires
            stabilizer_index < self.x_stabs().len(),
        ensures
            v@ == self.x_stabs()[stabilizer_index as int],
    {
        let v = self.x_stabilizers[stabilizer_index].clone();
        assert(v@ =~= self.x_stabs()[stabilizer_index as int]);
        v
    }

    /// Data-qubit IDs acted on by the given Z stabilizer.
    pub fn z_stabilizer_qubits(&self, stabilizer_index: usize) -> (v: Vec<usize>)
        requires
            stabilizer_index < self.z_stabs().len(),
        ensures
            v@ == self.z_stabs()[stabilizer_index as int],
    {
        let v = self.z_stabilizers[stabilizer_index].clone();
        assert(v@ =~= self.z_stabs()[stabilizer_index as int]);
        v
    }

    /// The full table of X-stabilizer supports.
    pub fn x_stabilizer_table(&self) -> (t: &[Vec<usize>])
        ensures
            stabs_of(t@) == self.x_stabs(),
    {
        self.x_stabilizers.as_slice()
    }

    /// The full table of Z-stabilizer supports.
    pub fn z_stabilizer_table(&self) -> (t: &[Vec<usize>])
        ensures
            stabs_of(t@) == self.z_stabs(),
    {
        self.z_stabilizers.as_slice()
    }
}

proof fn lemma_odd_square(d: nat)
    requires
        valid_distance(d),
    ensures
        d * d == 2 * ((d * d - 1) / 2) + 1,
{
    lemma_half(d);
    let h = half(d);
    let t = 2 * h * h + 2 * h;
    assert(d * d == 2 * t + 1) by (nonlinear_arith)
        requires
            d == 2 * h + 1,
            t == 2 * h * h + 2 * h;
    assert((d * d - 1) / 2 == t);
}

pub(crate) proof fn lemma_anchor_counts(d: nat)
    requires
        valid_distance(d),
    ensures
        anchors(d, true).len() == (d * d - 1) / 2,
        anchors(d, false).len() == (d * d - 1) / 2,
{
    lemma_half(d);
    lemma_interior_len(d, 0, (d - 1) as nat);
    lemma_interior_len(d, 1, (d - 1) as nat);
}

/// A distance-d code has d^2 data qubits, (d^2 - 1) / 2 stabilizers (and
/// measurement qubits) of each type, d^2 - 1 measurement qubits and
/// 2 d^2 - 1 qubits in all.
pub proof fn lemma_qubit_counts(code: &SurfaceCode)
    requires
        code.wf(),
    ensures
        code.spec_data().len() == code.spec_distance() * code.spec_distance(),
        code.x_stabs().len() == (code.spec_distance() * code.spec_distance() - 1) / 2,
        code.z_stabs().len() == (code.spec_distance() * code.spec_distance() - 1) / 2,
        code.spec_mx().len() == code.x_stabs().len(),
        code.spec_mz().len() == code.z_stabs().len(),
        code.spec_mx().len() + code.spec_mz().len() == code.spec_distance() * code.spec_distance() - 1,
        code.spec_data().len() + code.spec_mx().len() + code.spec_mz().len() == 2 * code.spec_distance()
            * code.spec_distance() - 1,
{
    code.lemma_wf();
    let d = code.spec_distance();
    lemma_anchor_counts(d);
    lemma_half(d);
    let h = half(d);
    let t = 2 * h * h + 2 * h;
    assert(d * d == 2 * t + 1) by (nonlinear_arith)
        requires
            d == 2 * h + 1,
            t == 2 * h * h + 2 * h;
    assert((d * d - 1) / 2 == t);
    assert(2 * d * d == d * d + d * d) by (nonlinear_arith);
}

/// Every qubit ID in every support is below `n`.
pub open spec fn supports_within(stabs: Seq<Seq<usize>>, n: nat) -> bool {
    forall|i: int, j: int| 0 <= i < stabs.len() && 0 <= j < stabs[i].len() ==> #[trigger] stabs[i][j] < n
}

/// Anchor `a` of the i-th stabilizer of its type lies where its support fits
/// in the grid.
pub open spec fn anchor_in_grid(d: nat, is_x: bool, i: int, a: (int, int)) -> bool {
    if i < num_interior(d) {
        0 <= a.0 <= d - 2 && 0 <= a.1 <= d - 2
    } else if is_x {
        0 <= a.0 <= d - 2 && 0 <= a.1 <= d - 1
    } else {
        0 <= a.0 <= d - 1 && 0 <= a.1 <= d - 2
    }
}

pub(crate) proof fn lemma_interior_in_grid(d: nat, q: int, n: nat, i: int)
    requires
        valid_distance(d),
        0 <= q <= 1,
        n <= d - 1,
        0 <= i < interior_anchors(d, q, n).len(),
    ensures
        0 <= interior_anchors(d, q, n)[i].0 <= d - 2,
        0 <= interior_anchors(d, q, n)[i].1 <= d - 2,
        (interior_anchors(d, q, n)[i].0 + interior_anchors(d, q, n)[i].1) % 2 == q,
    decreases n,
{
    lemma_half(d);
    let m = (n - 1) as nat;
    lemma_interior_len(d, q, m);
    if i < interior_anchors(d, q, m).len() {
        lemma_interior_in_grid(d, q, m, i);
    } else {
        let k = i - interior_anchors(d, q, m).len();
        assert(0 <= k < half(d));
        assert(face_col(m as int, q, k) <= d - 2);
        assert((m + face_col(m as int, q, k)) % 2 == q) by {
            assert(m % 2 == 0 || m % 2 == 1);
        }
    }
}

pub(crate) proof fn lemma_anchors_in_grid(d: nat, is_x: bool, i: int)
    requires
        valid_distance(d),
        0 <= i < anchors(d, is_x).len(),
    ensures
        anchor_in_grid(d, is_x, i, anchors(d, is_x)[i]),
{
    lemma_half(d);
    let q: int = if is_x { 0 } else { 1 };
    lemma_interior_len(d, q, (d - 1) as nat);
    if i < num_interior(d) {
        lemma_interior_in_grid(d, q, (d - 1) as nat, i);
    }
}

/// Every stabilizer acts only on data qubits: all IDs in its support are
/// below d^2.
pub proof fn lemma_supports_on_data(code: &SurfaceCode)
    requires
        code.wf(),
    ensures
        supports_within(code.x_stabs(), code.spec_distance() * code.spec_distance()),
        supports_within(code.z_stabs(), code.spec_distance() * code.spec_distance()),
{
    code.lemma_wf();
    let d = code.spec_distance();
    lemma_spec_supports_within(d, true);
    lemma_spec_supports_within(d, false);
}

proof fn lemma_spec_supports_within(d: nat, is_x: bool)
    requires
        valid_distance(d),
    ensures
        supports_within(spec_stabilizers(d, is_x), d * d),
{
    let st = spec_stabilizers(d, is_x);
    assert forall|i: int, j: int| 0 <= i < st.len() && 0 <= j < st[i].len() implies #[trigger] st[i][j] < d * d by {
        lemma_anchors_in_grid(d, is_x, i);
        let a = anchors(d, is_x)[i];
        lemma_cell_bound(d as int, a.0, a.1);
        if a.0 + 1 < d {
            lemma_cell_bound(d as int, a.0 + 1, a.1);
        }
        if a.1 + 1 < d {
            lemma_cell_bound(d as int, a.0, a.1 + 1);
        }
        if a.0 + 1 < d && a.1 + 1 < d {
            lemma_cell_bound(d as int, a.0 + 1, a.1 + 1);
        }
    }
}

} // verus!
