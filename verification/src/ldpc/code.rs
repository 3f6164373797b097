use vstd::prelude::*;

use crate::ldpc::error::LdpcError;
use crate::ldpc::parity_check::{
    gf2_dot, is_binary_matrix, is_ldpc_matrix, row_parity, rows_of, ParityCheckMatrix,
};

verus! {

/// A classical LDPC code given by its parity-check matrix.
#[derive(Debug, Clone)]
pub struct ClassicalLdpcCode {
    pub parity_check: ParityCheckMatrix,
    pub name: String,
}

/// CSS (Calderbank-Shor-Steane) code built from two classical codes.
#[derive(Debug, Clone)]
pub struct CssCode {
    pub hx: ParityCheckMatrix,
    pub hz: ParityCheckMatrix,
    pub name: String,
}

/// Every row of `hx` has even overlap with every row of `hz`:
/// Hx * Hz^T = 0 over GF(2).
pub open spec fn css_orthogonal(hx: Seq<Seq<u8>>, hz: Seq<Seq<u8>>) -> bool {
    forall|r: int, c: int| 0 <= r < hx.len() && 0 <= c < hz.len() ==> #[trigger] gf2_dot(hx[r], hz[c]) % 2 == 0
}

impl CssCode {
    /// The CSS code with check matrices `hx` and `hz`; both must act on the
    /// same number of qubits and satisfy Hx * Hz^T = 0 (mod 2).
    pub fn new(hx: ParityCheckMatrix, hz: ParityCheckMatrix, name: &str) -> (res: Result<Self, LdpcError>)
        requires
            hx.wf(),
            hz.wf(),
        ensures
            hx.num_cols() != hz.num_cols() ==> res == Err::<Self, LdpcError>(LdpcError::CssDimensionMismatch {
                hx_cols: hx.num_cols() as usize,
                hz_cols: hz.num_cols() as usize,
            }),
            hx.num_cols() == hz.num_cols() && !css_orthogonal(hx@, hz@) ==> res == Err::<Self, LdpcError>(
                LdpcError::CssOrthogonalityViolated),
            hx.num_cols() == hz.num_cols() && css_orthogonal(hx@, hz@) ==> (res matches Ok(code) && code.hx == hx
                && code.hz == hz && code.name@ == name@),
    {
        if hx.cols() != hz.cols() {
            return Err(LdpcError::CssDimensionMismatch { hx_cols: hx.cols(), hz_cols: hz.cols() });
        }
        proof {
            hx.lemma_wf();
            hz.lemma_wf();
        }
        let hx_rows = hx.data();
        let hz_rows = hz.data();
        let mut r: usize = 0;
        while r < hx.rows()
            invariant
                hx.wf(),
                hz.wf(),
                hx.num_cols() == hz.num_cols(),
                is_binary_matrix(hx@, hx.num_rows(), hx.num_cols()),
                is_binary_matrix(hz@, hz.num_rows(), hz.num_cols()),
                rows_of(hx_rows@) == hx@,
                rows_of(hz_rows@) == hz@,
                r <= hx.num_rows(),
                forall|i: int, j: int| 0 <= i < r && 0 <= j < hz@.len() ==> #[trigger] gf2_dot(hx@[i], hz@[j]) % 2 == 0,
            decreases hx.num_rows() - r,
        {
            let mut c: usize = 0;
            while c < hz.rows()
                invariant
                    hx.wf(),
                    hz.wf(),
                    hx.num_cols() == hz.num_cols(),
                    is_binary_matrix(hx@, hx.num_rows(), hx.num_cols()),
                    is_binary_matrix(hz@, hz.num_rows(), hz.num_cols()),
                    rows_of(hx_rows@) == hx@,
                    rows_of(hz_rows@) == hz@,
                    r < hx.num_rows(),
                    c <= hz.num_rows(),
                    forall|j: int| 0 <= j < c ==> #[trigger] gf2_dot(hx@[r as int], hz@[j]) % 2 == 0,
                decreases hz.num_rows() - c,
            {
                let a = &hx_rows[r];
                let b = &hz_rows[c];
                assert(a@ == hx@[r as int]);
                assert(b@ == hz@[c as int]);
                let dot = row_parity(a, b.as_slice());
                if dot != 0 {
                    return Err(LdpcError::CssOrthogonalityViolated);
                }
                c += 1;
            }
            r += 1;
        }
        Ok(CssCode { hx, hz, name: name.to_owned() })
    }

    /// Number of physical qubits (columns of Hx).
    pub fn num_physical_qubits(&self) -> (n: usize)
        ensures
            n == self.hx.num_cols(),
    {
        self.hx.cols()
    }

    /// Number of X checks (rows of Hx).
    pub fn num_x_checks(&self) -> (n: usize)
        ensures
            n == self.hx.num_rows(),
    {
        self.hx.rows()
    }

    /// Number of Z checks (rows of Hz).
    pub fn num_z_checks(&self) -> (n: usize)
        ensures
            n == self.hz.num_rows(),
    {
        self.hz.rows()
    }

    /// n - rank(Hx) - rank(Hz), or 0 when the ranks add up to more than n.
    pub fn num_logical_qubits(&self) -> (k: usize)
        requires
            self.hx.wf(),
            self.hz.wf(),
            self.hx.num_rows() + self.hz.num_rows() <= usize::MAX,
        ensures
            k == if spec_gf2_rank(self.hx@, self.hx.num_cols()) + spec_gf2_rank(self.hz@, self.hz.num_cols())
                <= self.hx.num_cols() {
                self.hx.num_cols() - spec_gf2_rank(self.hx@, self.hx.num_cols()) - spec_gf2_rank(
                    self.hz@,
                    self.hz.num_cols(),
                )
            } else {
                0
            },
    {
        let n = self.num_physical_qubits();
        let rx = gf2_rank(&self.hx);
        let rz = gf2_rank(&self.hz);
        n.saturating_sub(rx + rz)
    }
}

/// Quantum LDPC code: a CSS code whose check matrices have bounded weight.
#[derive(Debug, Clone)]
pub struct QLdpcCode {
    pub css: CssCode,
    pub max_weight: usize,
}

impl QLdpcCode {
    /// Wraps `css` when every row and column of Hx and Hz has weight at most
    /// `max_weight`.
    pub fn new(css: CssCode, max_weight: usize) -> (res: Result<Self, LdpcError>)
        requires
            css.hx.wf(),
            css.hz.wf(),
        ensures
            (is_ldpc_matrix(css.hx@, css.hx.num_cols(), max_weight as nat) && is_ldpc_matrix(
                css.hz@,
                css.hz.num_cols(),
                max_weight as nat,
            )) ==> res == Ok::<Self, LdpcError>(QLdpcCode { css, max_weight }),
            !(is_ldpc_matrix(css.hx@, css.hx.num_cols(), max_weight as nat) && is_ldpc_matrix(
                css.hz@,
                css.hz.num_cols(),
                max_weight as nat,
            )) ==> res == Err::<Self, LdpcError>(LdpcError::WeightConstraintViolated { max_weight }),
    {
        if !css.hx.is_ldpc(max_weight) || !css.hz.is_ldpc(max_weight) {
            return Err(LdpcError::WeightConstraintViolated { max_weight });
        }
        Ok(QLdpcCode { css, max_weight })
    }
}

// ---------------------------------------------------------------------------
// Rank over GF(2) by Gauss-Jordan elimination.
// ---------------------------------------------------------------------------

/// Row-wise sum of two rows over GF(2).
pub open spec fn xor_rows(a: Seq<u8>, b: Seq<u8>) -> Seq<u8> {
    Seq::new(a.len(), |c: int| ((a[c] + b[c]) % 2) as u8)
}

/// First row index `p >= from` whose entry in column `col` is 1.
pub open spec fn first_pivot(m: Seq<Seq<u8>>, col: int, from: int) -> Option<int>
    decreases m.len() - from,
{
    if from < 0 || from >= m.len() {
        None
    } else if m[from][col] == 1 {
        Some(from)
    } else {
        first_pivot(m, col, from + 1)
    }
}

/// Exchange rows `i` and `j`.
pub open spec fn swap_rows(m: Seq<Seq<u8>>, i: int, j: int) -> Seq<Seq<u8>> {
    m.update(i, m[j]).update(j, m[i])
}

/// Add the pivot row to every other row with a 1 in column `col`.
pub open spec fn clear_column(m: Seq<Seq<u8>>, pivot: int, col: int) -> Seq<Seq<u8>> {
    Seq::new(m.len(), |i: int| if i != pivot && m[i][col] == 1 { xor_rows(m[i], m[pivot]) } else { m[i] })
}

/// One elimination step on column `col` with `rank` pivots found so far.
pub open spec fn elim_step(m: Seq<Seq<u8>>, rank: nat, col: int) -> (Seq<Seq<u8>>, nat) {
    match first_pivot(m, col, rank as int) {
        None => (m, rank),
        Some(p) => (clear_column(swap_rows(m, rank as int, p), rank as int, col), rank + 1),
    }
}

/// Elimination of columns `col .. cols`.
pub open spec fn elim_from(m: Seq<Seq<u8>>, rank: nat, col: nat, cols: nat) -> (Seq<Seq<u8>>, nat)
    decreases cols - col,
{
    if col >= cols {
        (m, rank)
    } else {
        let step = elim_step(m, rank, col as int);
        elim_from(step.0, step.1, col + 1, cols)
    }
}

/// Rank over GF(2): the number of pivot columns found when Gauss-Jordan
/// elimination reduces `m` to reduced row-echelon form.
pub open spec fn spec_gf2_rank(m: Seq<Seq<u8>>, cols: nat) -> nat {
    elim_from(m, 0, 0, cols).1
}

pub(crate) proof fn lemma_first_pivot_bounds(m: Seq<Seq<u8>>, col: int, from: int)
    ensures
        first_pivot(m, col, from) matches Some(p) ==> from <= p < m.len() && m[p][col] == 1,
    decreases m.len() - from,
{
    if from >= 0 && from < m.len() && m[from][col] != 1 {
        lemma_first_pivot_bounds(m, col, from + 1);
    }
}

pub(crate) proof fn lemma_step_binary(m: Seq<Seq<u8>>, rank: nat, col: int, cols: nat)
    requires
        is_binary_matrix(m, m.len(), cols),
        0 <= col < cols,
        rank <= m.len(),
    ensures
        is_binary_matrix(elim_step(m, rank, col).0, m.len(), cols),
        elim_step(m, rank, col).1 <= m.len(),
        elim_step(m, rank, col).1 <= rank + 1,
{
    lemma_first_pivot_bounds(m, col, rank as int);
    match first_pivot(m, col, rank as int) {
        None => {},
        Some(p) => {
            let s = swap_rows(m, rank as int, p);
            let e = clear_column(s, rank as int, col);
            assert forall|r: int| 0 <= r < m.len() implies (#[trigger] e[r]).len() == cols by {
                assert(s[r].len() == cols);
            }
            assert forall|r: int, c: int| 0 <= r < m.len() && 0 <= c < cols implies #[trigger] e[r][c] <= 1 by {
                assert(s[r].len() == cols);
                assert(s[r][c] <= 1);
            }
        },
    }
}

/// The rank never exceeds the number of rows or the number of columns.
pub proof fn lemma_gf2_rank_bounds(m: Seq<Seq<u8>>, cols: nat)
    requires
        is_binary_matrix(m, m.len(), cols),
    ensures
        spec_gf2_rank(m, cols) <= m.len(),
        spec_gf2_rank(m, cols) <= cols,
{
    lemma_elim_from_bounds(m, 0, 0, cols);
}

proof fn lemma_elim_from_bounds(m: Seq<Seq<u8>>, rank: nat, col: nat, cols: nat)
    requires
        is_binary_matrix(m, m.len(), cols),
        rank <= m.len(),
        rank <= col,
        col <= cols,
    ensures
        elim_from(m, rank, col, cols).1 <= m.len(),
        elim_from(m, rank, col, cols).1 <= cols,
        elim_from(m, rank, col, cols).0.len() == m.len(),
    decreases cols - col,
{
    if col < cols {
        lemma_step_binary(m, rank, col as int, cols);
        let step = elim_step(m, rank, col as int);
        lemma_elim_from_bounds(step.0, step.1, col + 1, cols);
    }
}

proof fn lemma_first_pivot_none(m: Seq<Seq<u8>>, col: int, from: int)
    requires
        forall|r: int| from <= r < m.len() ==> #[trigger] m[r][col] != 1,
    ensures
        first_pivot(m, col, from) is None,
    decreases m.len() - from,
{
    if from >= 0 && from < m.len() {
        lemma_first_pivot_none(m, col, from + 1);
    }
}

proof fn lemma_first_pivot_some(m: Seq<Seq<u8>>, col: int, from: int, r: int)
    requires
        0 <= from <= r < m.len(),
        m[r][col] == 1,
    ensures
        first_pivot(m, col, from) is Some,
    decreases r - from,
{
    if m[from][col] != 1 {
        lemma_first_pivot_some(m, col, from + 1, r);
    }
}

proof fn lemma_elim_monotone(m: Seq<Seq<u8>>, rank: nat, col: nat, cols: nat)
    ensures
        elim_from(m, rank, col, cols).1 >= rank,
    decreases cols - col,
{
    if col < cols {
        let step = elim_step(m, rank, col as int);
        lemma_elim_monotone(step.0, step.1, col + 1, cols);
    }
}

proof fn lemma_elim_zero(m: Seq<Seq<u8>>, col: nat, cols: nat)
    requires
        forall|r: int, c: int| 0 <= r < m.len() && col <= c < cols ==> #[trigger] m[r][c] != 1,
    ensures
        elim_from(m, 0, col, cols).1 == 0,
    decreases cols - col,
{
    if col < cols {
        lemma_first_pivot_none(m, col as int, 0);
        lemma_elim_zero(m, col + 1, cols);
    }
}

proof fn lemma_elim_nonzero(m: Seq<Seq<u8>>, col: nat, cols: nat, r: int, c: int)
    requires
        0 <= r < m.len(),
        col <= c < cols,
        m[r][c] == 1,
    ensures
        elim_from(m, 0, col, cols).1 >= 1,
    decreases cols - col,
{
    let step = elim_step(m, 0, col as int);
    if col == c {
        lemma_first_pivot_some(m, col as int, 0, r);
        lemma_elim_monotone(step.0, step.1, col + 1, cols);
    } else {
        match first_pivot(m, col as int, 0) {
            None => {
                lemma_elim_nonzero(m, col + 1, cols, r, c);
            },
            Some(_) => {
                lemma_elim_monotone(step.0, step.1, col + 1, cols);
            },
        }
    }
}

/// A matrix has rank 0 over GF(2) exactly when all its entries are 0.
pub proof fn lemma_gf2_rank_zero_iff(m: Seq<Seq<u8>>, cols: nat)
    requires
        is_binary_matrix(m, m.len(), cols),
    ensures
        spec_gf2_rank(m, cols) == 0 <==> forall|r: int, c: int| 0 <= r < m.len() && 0 <= c < cols ==> #[trigger] m[r][c] == 0,
{
    if forall|r: int, c: int| 0 <= r < m.len() && 0 <= c < cols ==> #[trigger] m[r][c] == 0 {
        lemma_elim_zero(m, 0, cols);
    } else {
        let (r, c) = choose|r: int, c: int| 0 <= r < m.len() && 0 <= c < cols && #[trigger] m[r][c] != 0;
        assert(m[r].len() == cols);
        assert(m[r][c] <= 1);
        lemma_elim_nonzero(m, 0, cols, r, c);
    }
}

proof fn lemma_xor_binary(a: u8, b: u8)
    by (bit_vector)
    requires
        a <= 1,
        b <= 1,
    ensures
        a ^ b == (a + b) % 2,
{
}

/// Rank of the matrix over GF(2), by Gauss-Jordan elimination.
/// `rank::lemma_gf2_rank_is_max_independent` shows the result is the largest
/// number of rows that are independent over GF(2), and
/// `rank::lemma_gf2_rank_transpose` that the transpose has the same rank.
pub fn gf2_rank(matrix: &ParityCheckMatrix) -> (rank: usize)
    requires
        matrix.wf(),
    ensures
        rank == spec_gf2_rank(matrix@, matrix.num_cols()),
        rank <= matrix.num_rows(),
        rank <= matrix.num_cols(),
{
    proof {
        matrix.lemma_wf();
        lemma_gf2_rank_bounds(matrix@, matrix.num_cols());
    }
    let rows = matrix.rows();
    let cols = matrix.cols();
    let src = matrix.data();
    let mut m: Vec<Vec<u8>> = src.clone();
    assert(rows_of(m@) =~= matrix@) by {
        assert forall|i: int| 0 <= i < rows implies #[trigger] rows_of(m@)[i] == matrix@[i] by {
            assert(rows_of(src@)[i] == src@[i]@);
            assert(m@[i]@ =~= src@[i]@);
        }
    }
    let ghost goal = spec_gf2_rank(matrix@, cols as nat);
    let mut rank: usize = 0;
    let mut col: usize = 0;
    while col < cols
        invariant
            rows == matrix.num_rows(),
            cols == matrix.num_cols(),
            m@.len() == rows,
            is_binary_matrix(rows_of(m@), rows as nat, cols as nat),
            rank <= rows,
            rank <= col,
            col <= cols,
            elim_from(rows_of(m@), rank as nat, col as nat, cols as nat).1 == goal,
        decreases cols - col,
    {
        let ghost before = rows_of(m@);
        proof { lemma_first_pivot_bounds(before, col as int, rank as int); }
        // find the pivot row
        let mut p: usize = rank;
        while p < rows && m[p][col] != 1
            invariant
                rows == m@.len(),
                before == rows_of(m@),
                is_binary_matrix(before, rows as nat, cols as nat),
                col < cols,
                rank <= p <= rows,
                first_pivot(before, col as int, rank as int) == first_pivot(before, col as int, p as int),
            decreases rows - p,
        {
            assert(m@[p as int]@ == before[p as int]);
            p += 1;
        }
        if p < rows {
            assert(m@[p as int]@ == before[p as int]);
            assert(first_pivot(before, col as int, p as int) == Some(p as int));
            // swap rows rank and p
            let row_r = m[rank].clone();
            let row_p = m[p].clone();
            assert(row_r@ =~= before[rank as int]) by { assert(m@[rank as int]@ == before[rank as int]); }
            assert(row_p@ =~= before[p as int]);
            m.set(rank, row_p);
            m.set(p, row_r);
            let ghost swapped = swap_rows(before, rank as int, p as int);
            assert(rows_of(m@) =~= swapped);
            // eliminate the column everywhere else
            let pivot_row = m[rank].clone();
            assert(pivot_row@ =~= swapped[rank as int]);
            let ghost cleared = clear_column(swapped, rank as int, col as int);
            let mut i: usize = 0;
            while i < rows
                invariant
                    rows == m@.len(),
                    is_binary_matrix(swapped, rows as nat, cols as nat),
                    rank < rows,
                    col < cols,
                    pivot_row@ == swapped[rank as int],
                    cleared == clear_column(swapped, rank as int, col as int),
                    i <= rows,
                    forall|k: int| 0 <= k < i ==> (#[trigger] m@[k])@ == cleared[k],
                    forall|k: int| i <= k < rows ==> (#[trigger] m@[k])@ == swapped[k],
                decreases rows - i,
            {
                assert(m@[i as int]@ == swapped[i as int]);
                if i != rank && m[i][col] == 1 {
                    let old_row = m[i].clone();
                    assert(old_row@ =~= swapped[i as int]);
                    let mut new_row: Vec<u8> = Vec::new();
                    let mut c: usize = 0;
                    while c < old_row.len()
                        invariant
                            old_row@ == swapped[i as int],
                            pivot_row@ == swapped[rank as int],
                            is_binary_matrix(swapped, rows as nat, cols as nat),
                            i < rows,
                            rank < rows,
                            c <= cols,
                            old_row@.len() == cols,
                            new_row@ == xor_rows(old_row@, pivot_row@).take(c as int),
                        decreases cols - c,
                    {
                        let a = old_row[c];
                        let b = pivot_row[c];
                        proof { lemma_xor_binary(a, b); }
                        new_row.push(a ^ b);
                        assert(new_row@ =~= xor_rows(old_row@, pivot_row@).take(c + 1));
                        c += 1;
                    }
                    assert(new_row@ =~= cleared[i as int]);
                    m.set(i, new_row);
                } else {
                    assert(m@[i as int]@ == cleared[i as int]);
                }
                i += 1;
            }
            assert(rows_of(m@) =~= cleared);
            proof {
                lemma_step_binary(before, rank as nat, col as int, cols as nat);
            }
            rank += 1;
        } else {
            assert(first_pivot(before, col as int, p as int) is None);
        }
        col += 1;
    }
    rank
}

} // verus!
