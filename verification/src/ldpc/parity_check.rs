use vstd::prelude::*;
use vstd::arithmetic::power2::pow2;

use crate::ldpc::error::LdpcError;

verus! {

// ---------------------------------------------------------------------------
// Mathematical model: a binary matrix is a sequence of rows of 0/1 bytes.
// ---------------------------------------------------------------------------

/// `m` has `rows` rows of `cols` entries each, every entry 0 or 1.
pub open spec fn is_binary_matrix(m: Seq<Seq<u8>>, rows: nat, cols: nat) -> bool {
    &&& m.len() == rows
    &&& forall|r: int| 0 <= r < rows ==> (#[trigger] m[r]).len() == cols
    &&& forall|r: int, c: int| 0 <= r < rows && 0 <= c < cols ==> #[trigger] m[r][c] <= 1
}

/// Number of entries equal to 1.
pub open spec fn count_ones(s: Seq<u8>) -> nat
    decreases s.len(),
{
    if s.len() == 0 {
        0
    } else {
        count_ones(s.drop_last()) + if s.last() == 1 { 1nat } else { 0nat }
    }
}

/// Column `c` of the matrix `m`.
pub open spec fn column(m: Seq<Seq<u8>>, c: int) -> Seq<u8> {
    Seq::new(m.len(), |r: int| m[r][c])
}

/// Number of positions `i < a.len()` where both `a[i]` and `b[i]` are odd:
/// the integer dot product of the low bits, whose parity is the GF(2) product.
pub open spec fn gf2_dot(a: Seq<u8>, b: Seq<u8>) -> nat
    decreases a.len(),
{
    if a.len() == 0 {
        0
    } else {
        let i = a.len() - 1;
        gf2_dot(a.drop_last(), b) + if a[i] % 2 == 1 && b[i] % 2 == 1 { 1nat } else { 0nat }
    }
}

/// H * e (mod 2): one parity bit per row of `h`.
pub open spec fn spec_syndrome(h: Seq<Seq<u8>>, e: Seq<u8>) -> Seq<u8> {
    Seq::new(h.len(), |r: int| (gf2_dot(h[r], e) % 2) as u8)
}

/// The transpose of a `rows x cols` matrix.
pub open spec fn spec_transpose(m: Seq<Seq<u8>>, rows: nat, cols: nat) -> Seq<Seq<u8>> {
    Seq::new(cols, |c: int| Seq::new(rows, |r: int| m[r][c]))
}

/// Parity-check matrix of the repetition code of length `n`:
/// row `r` checks bits `r` and `r + 1`.
pub open spec fn spec_repetition(n: nat) -> Seq<Seq<u8>> {
    Seq::new((n - 1) as nat, |r: int| Seq::new(n, |c: int| if c == r || c == r + 1 { 1u8 } else { 0u8 }))
}

/// Parity-check matrix of the Hamming code with `r` check bits: column `c`
/// holds the binary digits of `c + 1`, most significant bit in row 0.
pub open spec fn spec_hamming(r: nat) -> Seq<Seq<u8>> {
    Seq::new(r, |row: int| Seq::new((pow2(r) - 1) as nat, |col: int|
        (((col + 1) / pow2((r - 1 - row) as nat) as int) % 2) as u8))
}

pub open spec fn rows_of(data: Seq<Vec<u8>>) -> Seq<Seq<u8>> {
    data.map_values(|row: Vec<u8>| row@)
}

/// A binary parity-check matrix H with at least one row and one column.
#[derive(Debug, Clone, PartialEq)]
pub struct ParityCheckMatrix {
    rows: usize,
    cols: usize,
    data: Vec<Vec<u8>>,
}

impl View for ParityCheckMatrix {
    type V = Seq<Seq<u8>>;

    closed spec fn view(&self) -> Seq<Seq<u8>> {
        rows_of(self.data@)
    }
}

impl ParityCheckMatrix {
    /// Number of rows (checks).
    pub closed spec fn num_rows(&self) -> nat {
        self.rows as nat
    }

    /// Number of columns (bits).
    pub closed spec fn num_cols(&self) -> nat {
        self.cols as nat
    }

    /// Well-formedness: the stored dimensions match the data, which is a
    /// non-empty binary matrix.
    pub closed spec fn wf(&self) -> bool {
        &&& self.rows >= 1
        &&& self.cols >= 1
        &&& is_binary_matrix(self@, self.rows as nat, self.cols as nat)
    }

    /// What well-formedness means for the view.
    pub proof fn lemma_wf(&self)
        requires
            self.wf(),
        ensures
            self.num_rows() >= 1,
            self.num_cols() >= 1,
            self.num_rows() <= usize::MAX,
            self.num_cols() <= usize::MAX,
            is_binary_matrix(self@, self.num_rows(), self.num_cols()),
    {
    }

    /// An all-zero `rows x cols` matrix; both dimensions must be positive.
    pub fn new(rows: usize, cols: usize) -> (res: Result<Self, LdpcError>)
        ensures
            (rows == 0 || cols == 0) <==> res is Err,
            res matches Err(e) ==> e == (LdpcError::InvalidDimensions { rows, cols }),
            res matches Ok(m) ==> {
                &&& m.wf()
                &&& m.num_rows() == rows
                &&& m.num_cols() == cols
                &&& forall|r: int, c: int| 0 <= r < rows && 0 <= c < cols ==> #[trigger] m@[r][c] == 0
            },
    {
        if rows == 0 || cols == 0 {
            return Err(LdpcError::InvalidDimensions { rows, cols });
        }
        let mut data: Vec<Vec<u8>> = Vec::new();
        let mut r: usize = 0;
        while r < rows
            invariant
                r <= rows,
                data@.len() == r,
                forall|i: int| 0 <= i < r ==> (#[trigger] data@[i])@ == Seq::new(cols as nat, |c: int| 0u8),
            decreases rows - r,
        {
            data.push(zero_row(cols));
            r += 1;
        }
        let m = ParityCheckMatrix { rows, cols, data };
        proof {
            assert forall|i: int| 0 <= i < rows implies (#[trigger] m@[i]).len() == cols by {
                assert(m@[i] == data@[i]@);
            }
            assert forall|i: int, c: int| 0 <= i < rows && 0 <= c < cols implies #[trigger] m@[i][c] == 0 by {
                assert(m@[i] == data@[i]@);
            }
        }
        Ok(m)
    }

    /// Builds a matrix from its rows. Fails on an empty matrix or empty first
    /// row, then scans the rows in order: the first row of the wrong length
    /// gives `InconsistentRowLengths`, the first entry above 1 (in a row of the
    /// right length) gives `InvalidValue`.
    pub fn from_dense(data: Vec<Vec<u8>>) -> (res: Result<Self, LdpcError>)
        ensures
            ({
                let d = rows_of(data@);
                if d.len() == 0 {
                    res == Err::<Self, LdpcError>(LdpcError::InvalidDimensions { rows: 0, cols: 0 })
                } else if d[0].len() == 0 {
                    res == Err::<Self, LdpcError>(LdpcError::InvalidDimensions { rows: d.len() as usize, cols: 0 })
                } else {
                    match first_bad_row(d, d[0].len()) {
                        None => res matches Ok(m) && m.wf() && m@ == d && m.num_rows() == d.len()
                            && m.num_cols() == d[0].len(),
                        Some(i) => if d[i].len() != d[0].len() {
                            res == Err::<Self, LdpcError>(LdpcError::InconsistentRowLengths)
                        } else {
                            res == Err::<Self, LdpcError>(LdpcError::InvalidValue(d[i][first_bad_entry(d[i])]))
                        },
                    }
                }
            }),
    {
        let n = data.len();
        if n == 0 {
            return Err(LdpcError::InvalidDimensions { rows: 0, cols: 0 });
        }
        let cols = data[0].len();
        if cols == 0 {
            return Err(LdpcError::InvalidDimensions { rows: n, cols: 0 });
        }
        let ghost d = rows_of(data@);
        let mut i: usize = 0;
        while i < n
            invariant
                n == data@.len(),
                d == rows_of(data@),
                cols == d[0].len(),
                cols > 0,
                i <= n,
                forall|k: int| 0 <= k < i ==> row_ok(#[trigger] d[k], cols as nat),
            decreases n - i,
        {
            let row = &data[i];
            assert(row@ == d[i as int]);
            if row.len() != cols {
                proof { lemma_first_bad_row_is(d, cols as nat, i as int); }
                return Err(LdpcError::InconsistentRowLengths);
            }
            let mut j: usize = 0;
            while j < cols
                invariant
                    n == data@.len(),
                    d == rows_of(data@),
                    cols == d[0].len(),
                    i < n,
                    row@ == d[i as int],
                    forall|k: int| 0 <= k < i ==> row_ok(#[trigger] d[k], cols as nat),
                    j <= cols,
                    row@.len() == cols,
                    forall|k: int| 0 <= k < j ==> #[trigger] row@[k] <= 1,
                decreases cols - j,
            {
                let val = row[j];
                if val > 1 {
                    proof {
                        lemma_first_bad_row_is(d, cols as nat, i as int);
                        lemma_first_bad_entry_is(row@, j as int);
                    }
                    return Err(LdpcError::InvalidValue(val));
                }
                j += 1;
            }
            assert(row_ok(d[i as int], cols as nat));
            i += 1;
        }
        proof {
            lemma_no_bad_row(d, cols as nat);
        }
        let m = ParityCheckMatrix { rows: n, cols, data };
        Ok(m)
    }

    /// Number of rows.
    pub fn rows(&self) -> (r: usize)
        ensures
            r == self.num_rows(),
    {
        self.rows
    }

    /// Number of columns.
    pub fn cols(&self) -> (c: usize)
        ensures
            c == self.num_cols(),
    {
        self.cols
    }

    /// Entry `(row, col)`.
    pub fn get(&self, row: usize, col: usize) -> (v: u8)
        requires
            self.wf(),
            row < self.num_rows(),
            col < self.num_cols(),
        ensures
            v == self@[row as int][col as int],
    {
        assert(self.data@[row as int]@ == self@[row as int]);
        self.data[row][col]
    }
}


impl ParityCheckMatrix {
    /// Sets entry `(row, col)` to the low bit of `val`.
    pub fn set(&mut self, row: usize, col: usize, val: u8)
        requires
            old(self).wf(),
            row < old(self).num_rows(),
            col < old(self).num_cols(),
        ensures
            final(self).wf(),
            final(self).num_rows() == old(self).num_rows(),
            final(self).num_cols() == old(self).num_cols(),
            final(self)@ == old(self)@.update(row as int, old(self)@[row as int].update(col as int, val % 2)),
    {
        let ghost old_m = self@;
        let ghost old_data = self.data@;
        assert(self.data@[row as int]@ == old_m[row as int]);
        let mut r = self.data[row].clone();
        assert(r@ =~= old_m[row as int]);
        let bit = val & 1;
        assert(val & 1 == val % 2) by (bit_vector);
        r.set(col, bit);
        let ghost new_row = r@;
        self.data.set(row, r);
        proof {
            let target = old_m.update(row as int, old_m[row as int].update(col as int, val % 2));
            assert(self.data@ == old_data.update(row as int, self.data@[row as int]));
            assert forall|i: int| 0 <= i < old_m.len() implies #[trigger] self@[i] == target[i] by {
                if i != row {
                    assert(self@[i] == self.data@[i]@);
                    assert(old_m[i] == old_data[i]@);
                } else {
                    assert(self@[i] == new_row);
                }
            }
            assert(self@ =~= target);
        }
    }

    /// Number of ones in row `row`.
    pub fn row_weight(&self, row: usize) -> (w: usize)
        requires
            self.wf(),
            row < self.num_rows(),
        ensures
            w == count_ones(self@[row as int]),
    {
        let r = &self.data[row];
        assert(r@ == self@[row as int]);
        count_ones_exec(r)
    }

    /// Number of ones in column `col`.
    pub fn col_weight(&self, col: usize) -> (w: usize)
        requires
            self.wf(),
            col < self.num_cols(),
        ensures
            w == count_ones(column(self@, col as int)),
    {
        let ghost m = self@;
        let ghost colv = column(m, col as int);
        let mut w: usize = 0;
        let mut r: usize = 0;
        while r < self.rows
            invariant
                self.wf(),
                m == self@,
                colv == column(m, col as int),
                col < self.num_cols(),
                r <= self.rows,
                w == count_ones(colv.take(r as int)),
                w <= r,
            decreases self.rows - r,
        {
            assert(self.data@[r as int]@ == m[r as int]);
            let v = self.data[r][col];
            proof { lemma_count_ones_take_step(colv, r as int); }
            if v == 1 {
                w += 1;
            }
            r += 1;
        }
        assert(colv.take(self.rows as int) =~= colv);
        w
    }

    /// Largest row weight.
    pub fn max_row_weight(&self) -> (w: usize)
        requires
            self.wf(),
        ensures
            forall|r: int| 0 <= r < self.num_rows() ==> count_ones(#[trigger] self@[r]) <= w,
            exists|r: int| 0 <= r < self.num_rows() && count_ones(#[trigger] self@[r]) == w,
    {
        let mut best: usize = self.row_weight(0);
        let mut r: usize = 1;
        while r < self.rows
            invariant
                self.wf(),
                1 <= r <= self.rows,
                forall|k: int| 0 <= k < r ==> count_ones(#[trigger] self@[k]) <= best,
                exists|k: int| 0 <= k < r && count_ones(#[trigger] self@[k]) == best,
            decreases self.rows - r,
        {
            let w = self.row_weight(r);
            if w > best {
                best = w;
            }
            r += 1;
        }
        best
    }

    /// Largest column weight.
    pub fn max_col_weight(&self) -> (w: usize)
        requires
            self.wf(),
        ensures
            forall|c: int| 0 <= c < self.num_cols() ==> count_ones(#[trigger] column(self@, c)) <= w,
            exists|c: int| 0 <= c < self.num_cols() && count_ones(#[trigger] column(self@, c)) == w,
    {
        let mut best: usize = self.col_weight(0);
        let mut c: usize = 1;
        while c < self.cols
            invariant
                self.wf(),
                1 <= c <= self.cols,
                forall|k: int| 0 <= k < c ==> count_ones(#[trigger] column(self@, k)) <= best,
                exists|k: int| 0 <= k < c && count_ones(#[trigger] column(self@, k)) == best,
            decreases self.cols - c,
        {
            let w = self.col_weight(c);
            if w > best {
                best = w;
            }
            c += 1;
        }
        best
    }

    /// True when every row and every column has at most `max_weight` ones.
    pub fn is_ldpc(&self, max_weight: usize) -> (b: bool)
        requires
            self.wf(),
        ensures
            b == is_ldpc_matrix(self@, self.num_cols(), max_weight as nat),
    {
        let mr = self.max_row_weight();
        let mc = self.max_col_weight();
        mr <= max_weight && mc <= max_weight
    }

    /// The syndrome H * error (mod 2); the error needs one entry per column.
    pub fn syndrome(&self, error: &[u8]) -> (res: Result<Vec<u8>, LdpcError>)
        requires
            self.wf(),
        ensures
            (error@.len() != self.num_cols()) <==> res is Err,
            res matches Err(e) ==> e == (LdpcError::SyndromeMismatch {
                expected: self.num_cols() as usize,
                got: error@.len() as usize,
            }),
            res matches Ok(syn) ==> syn@ == spec_syndrome(self@, error@),
    {
        if error.len() != self.cols {
            return Err(LdpcError::SyndromeMismatch { expected: self.cols, got: error.len() });
        }
        let ghost m = self@;
        let mut syn: Vec<u8> = Vec::new();
        let mut r: usize = 0;
        while r < self.rows
            invariant
                self.wf(),
                m == self@,
                error@.len() == self.num_cols(),
                r <= self.rows,
                syn@.len() == r,
                forall|k: int| 0 <= k < r ==> #[trigger] syn@[k] == spec_syndrome(m, error@)[k],
            decreases self.rows - r,
        {
            let row = &self.data[r];
            assert(row@ == m[r as int]);
            let bit = row_parity(row, error);
            syn.push(bit);
            r += 1;
        }
        assert(syn@ =~= spec_syndrome(m, error@));
        Ok(syn)
    }

    /// The transposed matrix.
    pub fn transpose(&self) -> (t: ParityCheckMatrix)
        requires
            self.wf(),
        ensures
            t.wf(),
            t.num_rows() == self.num_cols(),
            t.num_cols() == self.num_rows(),
            t@ == spec_transpose(self@, self.num_rows(), self.num_cols()),
    {
        let ghost m = self@;
        let ghost target = spec_transpose(m, self.rows as nat, self.cols as nat);
        let mut t_data: Vec<Vec<u8>> = Vec::new();
        let mut c: usize = 0;
        while c < self.cols
            invariant
                self.wf(),
                m == self@,
                target == spec_transpose(m, self.rows as nat, self.cols as nat),
                c <= self.cols,
                t_data@.len() == c,
                forall|k: int| 0 <= k < c ==> (#[trigger] t_data@[k])@ == target[k],
            decreases self.cols - c,
        {
            let mut col_vec: Vec<u8> = Vec::new();
            let mut r: usize = 0;
            while r < self.rows
                invariant
                    self.wf(),
                    m == self@,
                    c < self.cols,
                    r <= self.rows,
                    col_vec@ == Seq::new(r as nat, |i: int| m[i][c as int]),
                decreases self.rows - r,
            {
                assert(self.data@[r as int]@ == m[r as int]);
                col_vec.push(self.data[r][c]);
                assert(col_vec@ =~= Seq::new((r + 1) as nat, |i: int| m[i][c as int]));
                r += 1;
            }
            assert(col_vec@ =~= target[c as int]);
            t_data.push(col_vec);
            c += 1;
        }
        let t = ParityCheckMatrix { rows: self.cols, cols: self.rows, data: t_data };
        assert(t@ =~= target);
        t
    }

    /// The rows of the matrix.
    pub fn data(&self) -> (d: &Vec<Vec<u8>>)
        ensures
            rows_of(d@) == self@,
    {
        &self.data
    }
}

/// Every row and every column of the `cols`-column matrix `m` has weight at
/// most `max_weight`.
pub open spec fn is_ldpc_matrix(m: Seq<Seq<u8>>, cols: nat, max_weight: nat) -> bool {
    &&& forall|r: int| 0 <= r < m.len() ==> count_ones(#[trigger] m[r]) <= max_weight
    &&& forall|c: int| 0 <= c < cols ==> count_ones(#[trigger] column(m, c)) <= max_weight
}

proof fn lemma_count_ones_take_step(s: Seq<u8>, j: int)
    requires
        0 <= j < s.len(),
    ensures
        count_ones(s.take(j + 1)) == count_ones(s.take(j)) + if s[j] == 1 { 1nat } else { 0nat },
        count_ones(s.take(j)) <= j,
    decreases j,
{
    assert(s.take(j + 1).drop_last() =~= s.take(j));
    if j > 0 {
        lemma_count_ones_take_step(s, j - 1);
    }
}

proof fn lemma_gf2_dot_take_step(a: Seq<u8>, b: Seq<u8>, j: int)
    requires
        0 <= j < a.len(),
    ensures
        gf2_dot(a.take(j + 1), b) == gf2_dot(a.take(j), b) + if a[j] % 2 == 1 && b[j] % 2 == 1 { 1nat } else { 0nat },
{
    assert(a.take(j + 1).drop_last() =~= a.take(j));
}

proof fn lemma_xor_and_step(acc: u8, h: u8, e: u8)
    by (bit_vector)
    requires
        acc <= 1,
        h <= 1,
    ensures
        (acc ^ (h & e)) <= 1,
        (h == 1 && e & 1 == 1) ==> (acc ^ (h & e)) != acc,
        !(h == 1 && e & 1 == 1) ==> (acc ^ (h & e)) == acc,
{
}

proof fn lemma_low_bit(e: u8)
    by (bit_vector)
    ensures
        (e & 1 == 1) == (e % 2 == 1),
{
}

/// Number of ones in `v`.
fn count_ones_exec(v: &Vec<u8>) -> (w: usize)
    ensures
        w == count_ones(v@),
{
    let mut w: usize = 0;
    let mut j: usize = 0;
    while j < v.len()
        invariant
            j <= v@.len(),
            w == count_ones(v@.take(j as int)),
            w <= j,
        decreases v.len() - j,
    {
        proof { lemma_count_ones_take_step(v@, j as int); }
        if v[j] == 1 {
            w += 1;
        }
        j += 1;
    }
    assert(v@.take(v@.len() as int) =~= v@);
    w
}

/// Parity of the GF(2) product of a 0/1 row with `e`.
pub(crate) fn row_parity(row: &Vec<u8>, e: &[u8]) -> (bit: u8)
    requires
        row@.len() == e@.len(),
        forall|k: int| 0 <= k < row@.len() ==> #[trigger] row@[k] <= 1,
    ensures
        bit == (gf2_dot(row@, e@) % 2) as u8,
{
    let mut acc: u8 = 0;
    let mut c: usize = 0;
    while c < row.len()
        invariant
            row@.len() == e@.len(),
            forall|k: int| 0 <= k < row@.len() ==> #[trigger] row@[k] <= 1,
            c <= row@.len(),
            acc <= 1,
            acc as nat == gf2_dot(row@.take(c as int), e@) % 2,
        decreases row.len() - c,
    {
        let h = row[c];
        let x = e[c];
        proof {
            lemma_gf2_dot_take_step(row@, e@, c as int);
            lemma_xor_and_step(acc, h, x);
            lemma_low_bit(x);
            lemma_low_bit(h);
        }
        acc = acc ^ (h & x);
        c += 1;
    }
    assert(row@.take(row@.len() as int) =~= row@);
    acc
}

/// Parity-check matrix of the length-`n` repetition code: `(n - 1) x n`,
/// row `r` has ones exactly in columns `r` and `r + 1`.
pub fn repetition_code(n: usize) -> (h: ParityCheckMatrix)
    requires
        n >= 2,
    ensures
        h.wf(),
        h.num_rows() == n - 1,
        h.num_cols() == n,
        h@ == spec_repetition(n as nat),
{
    let rows = n - 1;
    let ghost target = spec_repetition(n as nat);
    let mut data: Vec<Vec<u8>> = Vec::new();
    let mut r: usize = 0;
    while r < rows
        invariant
            rows == n - 1,
            target == spec_repetition(n as nat),
            r <= rows,
            data@.len() == r,
            forall|k: int| 0 <= k < r ==> (#[trigger] data@[k])@ == target[k],
        decreases rows - r,
    {
        let mut row: Vec<u8> = Vec::new();
        let mut c: usize = 0;
        while c < n
            invariant
                r < rows,
                rows == n - 1,
                c <= n,
                row@ == Seq::new(c as nat, |j: int| if j == r || j == r + 1 { 1u8 } else { 0u8 }),
            decreases n - c,
        {
            let v: u8 = if c == r || c == r + 1 { 1 } else { 0 };
            row.push(v);
            assert(row@ =~= Seq::new((c + 1) as nat, |j: int| if j == r || j == r + 1 { 1u8 } else { 0u8 }));
            c += 1;
        }
        assert(row@ =~= target[r as int]);
        data.push(row);
        r += 1;
    }
    let h = ParityCheckMatrix { rows, cols: n, data };
    assert(h@ =~= target);
    h
}

/// Parity-check matrix of the Hamming code with `r` check bits:
/// `r x (2^r - 1)`, column `c` holds the binary digits of `c + 1`.
pub fn hamming_code(r: usize) -> (h: ParityCheckMatrix)
    requires
        2 <= r < usize::BITS,
    ensures
        h.wf(),
        h.num_rows() == r,
        h.num_cols() == pow2(r as nat) - 1,
        h@ == spec_hamming(r as nat),
{
    proof {
        vstd::bits::lemma_usize_pow2_no_overflow(r as nat);
        vstd::bits::lemma_usize_shl_is_mul(1, r);
        vstd::arithmetic::power2::lemma_pow2_pos(r as nat);
    }
    let n = (1usize << r) - 1;
    assert(n == pow2(r as nat) - 1);
    assert(n >= 1) by {
        vstd::arithmetic::power2::lemma_pow2_strictly_increases(0, r as nat);
        vstd::arithmetic::power2::lemma2_to64();
    }
    let ghost target = spec_hamming(r as nat);
    let mut data: Vec<Vec<u8>> = Vec::new();
    let mut row: usize = 0;
    while row < r
        invariant
            2 <= r < usize::BITS,
            n == pow2(r as nat) - 1,
            target == spec_hamming(r as nat),
            row <= r,
            data@.len() == row,
            forall|k: int| 0 <= k < row ==> (#[trigger] data@[k])@ == target[k],
        decreases r - row,
    {
        let bit = r - 1 - row;
        let mut line: Vec<u8> = Vec::new();
        let mut col: usize = 0;
        while col < n
            invariant
                2 <= r < usize::BITS,
                row < r,
                bit == r - 1 - row,
                n == pow2(r as nat) - 1,
                col <= n,
                line@ == Seq::new(col as nat, |j: int| (((j + 1) / pow2(bit as nat) as int) % 2) as u8),
            decreases n - col,
        {
            let val = col + 1;
            let shifted = val >> bit;
            let b = shifted & 1;
            proof {
                vstd::bits::lemma_usize_shr_is_div(val, bit);
                assert(shifted & 1 == shifted % 2) by (bit_vector);
            }
            line.push(b as u8);
            assert(line@ =~= Seq::new((col + 1) as nat, |j: int| (((j + 1) / pow2(bit as nat) as int) % 2) as u8));
            col += 1;
        }
        assert(line@ =~= target[row as int]);
        data.push(line);
        row += 1;
    }
    let h = ParityCheckMatrix { rows: r, cols: n, data };
    assert(h@ =~= target);
    h
}

/// Transposing twice gives back the original matrix.
pub proof fn lemma_transpose_involution(m: Seq<Seq<u8>>, rows: nat, cols: nat)
    requires
        is_binary_matrix(m, rows, cols),
    ensures
        is_binary_matrix(spec_transpose(m, rows, cols), cols, rows),
        spec_transpose(spec_transpose(m, rows, cols), cols, rows) == m,
{
    let t = spec_transpose(m, rows, cols);
    let tt = spec_transpose(t, cols, rows);
    assert forall|r: int| 0 <= r < rows implies #[trigger] tt[r] == m[r] by {
        assert(tt[r] =~= m[r]);
    }
    assert(tt =~= m);
}

/// The all-zero error has the all-zero syndrome.
pub proof fn lemma_zero_error_zero_syndrome(h: Seq<Seq<u8>>, e: Seq<u8>)
    requires
        is_binary_matrix(h, h.len(), e.len()),
        forall|i: int| 0 <= i < e.len() ==> #[trigger] e[i] == 0,
    ensures
        forall|r: int| 0 <= r < h.len() ==> #[trigger] spec_syndrome(h, e)[r] == 0,
{
    assert forall|r: int| 0 <= r < h.len() implies #[trigger] spec_syndrome(h, e)[r] == 0 by {
        lemma_gf2_dot_zero(h[r], e);
    }
}

proof fn lemma_gf2_dot_zero(a: Seq<u8>, e: Seq<u8>)
    requires
        a.len() <= e.len(),
        forall|i: int| 0 <= i < e.len() ==> #[trigger] e[i] == 0,
    ensures
        gf2_dot(a, e) == 0,
    decreases a.len(),
{
    if a.len() > 0 {
        lemma_gf2_dot_zero(a.drop_last(), e);
    }
}

/// Row `row` has length `cols` and only 0/1 entries.
pub open spec fn row_ok(row: Seq<u8>, cols: nat) -> bool {
    row.len() == cols && forall|k: int| 0 <= k < cols ==> #[trigger] row[k] <= 1
}

/// Index of the first row that is not `row_ok`, if any.
pub open spec fn first_bad_row(d: Seq<Seq<u8>>, cols: nat) -> Option<int> {
    if exists|i: int| 0 <= i < d.len() && !row_ok(#[trigger] d[i], cols) {
        Some(choose|i: int| 0 <= i < d.len() && !row_ok(#[trigger] d[i], cols)
            && forall|k: int| 0 <= k < i ==> row_ok(#[trigger] d[k], cols))
    } else {
        None
    }
}

/// Index of the first entry above 1.
pub open spec fn first_bad_entry(row: Seq<u8>) -> int {
    choose|j: int| 0 <= j < row.len() && row[j] > 1 && forall|k: int| 0 <= k < j ==> #[trigger] row[k] <= 1
}

proof fn lemma_first_bad_row_is(d: Seq<Seq<u8>>, cols: nat, i: int)
    requires
        0 <= i < d.len(),
        !row_ok(d[i], cols),
        forall|k: int| 0 <= k < i ==> row_ok(#[trigger] d[k], cols),
    ensures
        first_bad_row(d, cols) == Some(i),
{
    let j = choose|j: int| 0 <= j < d.len() && !row_ok(#[trigger] d[j], cols)
        && forall|k: int| 0 <= k < j ==> row_ok(#[trigger] d[k], cols);
    assert(0 <= j < d.len() && !row_ok(d[j], cols) && forall|k: int| 0 <= k < j ==> row_ok(#[trigger] d[k], cols));
    if j < i {
        assert(row_ok(d[j], cols));
    } else if j > i {
        assert(row_ok(d[i], cols));
    }
}

proof fn lemma_first_bad_entry_is(row: Seq<u8>, j: int)
    requires
        0 <= j < row.len(),
        row[j] > 1,
        forall|k: int| 0 <= k < j ==> #[trigger] row[k] <= 1,
    ensures
        first_bad_entry(row) == j,
{
    let j2 = first_bad_entry(row);
    assert(0 <= j2 < row.len() && row[j2] > 1 && forall|k: int| 0 <= k < j2 ==> #[trigger] row[k] <= 1);
    if j2 < j {
        assert(row[j2] <= 1);
    } else if j2 > j {
        assert(row[j] <= 1);
    }
}

proof fn lemma_no_bad_row(d: Seq<Seq<u8>>, cols: nat)
    requires
        forall|k: int| 0 <= k < d.len() ==> row_ok(#[trigger] d[k], cols),
    ensures
        first_bad_row(d, cols) is None,
        is_binary_matrix(d, d.len(), cols),
{
    assert forall|r: int, c: int| 0 <= r < d.len() && 0 <= c < cols implies #[trigger] d[r][c] <= 1 by {
        assert(row_ok(d[r], cols));
    }
}

/// A fresh vector of `n` zero bytes.
fn zero_row(n: usize) -> (v: Vec<u8>)
    ensures
        v@ == Seq::new(n as nat, |c: int| 0u8),
{
    let mut v: Vec<u8> = Vec::new();
    let mut i: usize = 0;
    while i < n
        invariant
            i <= n,
            v@ == Seq::new(i as nat, |c: int| 0u8),
        decreases n - i,
    {
        v.push(0u8);
        i += 1;
    }
    v
}

} // verus!
