use vstd::prelude::*;

use crate::ldpc::error::LdpcError;
use crate::ldpc::parity_check::{is_binary_matrix, spec_syndrome, ParityCheckMatrix};

verus! {

/// A decoder maps a syndrome back to an error estimate for a parity-check
/// matrix.
pub trait Decoder {
    /// Inputs on which `decode` returns normally.
    spec fn decode_requires(&self, parity_check: &ParityCheckMatrix, syndrome: Seq<u8>) -> bool;

    /// An error estimate whose syndrome should match `syndrome`.
    fn decode(&self, parity_check: &ParityCheckMatrix, syndrome: &[u8]) -> (res: Result<Vec<u8>, LdpcError>)
        requires
            self.decode_requires(parity_check, syndrome@),
    ;

    /// Name of the decoder.
    fn name(&self) -> (n: &str);
}

/// Simple bit-flip decoder (Gallager's Algorithm A).
pub struct BitFlipDecoder {
    max_iterations: usize,
}

impl BitFlipDecoder {
    /// A decoder that gives up after `max_iterations` flips.
    pub fn new(max_iterations: usize) -> (d: Self)
        ensures
            d.iterations() == max_iterations,
    {
        BitFlipDecoder { max_iterations }
    }

    /// The iteration budget.
    pub closed spec fn iterations(&self) -> nat {
        self.max_iterations as nat
    }
}

// ---------------------------------------------------------------------------
// Specification of the bit-flip process.
// ---------------------------------------------------------------------------

/// Number of rows `r < n` that are unsatisfied (`cur[r] != target[r]`) and
/// check bit `c`.
pub open spec fn unsat_count(h: Seq<Seq<u8>>, cur: Seq<u8>, target: Seq<u8>, c: int, n: nat) -> nat
    decreases n,
{
    if n == 0 {
        0
    } else {
        let r = n - 1;
        unsat_count(h, cur, target, c, (n - 1) as nat) + if cur[r] != target[r] && h[r][c] == 1 {
            1nat
        } else {
            0nat
        }
    }
}

/// For every bit, the number of unsatisfied checks that involve it.
pub open spec fn unsat_counts(h: Seq<Seq<u8>>, cur: Seq<u8>, target: Seq<u8>, cols: nat) -> Seq<nat> {
    Seq::new(cols, |c: int| unsat_count(h, cur, target, c, h.len()))
}

/// Largest value of `u` (0 for the empty sequence).
pub open spec fn seq_max(u: Seq<nat>) -> nat
    decreases u.len(),
{
    if u.len() == 0 {
        0
    } else {
        let m = seq_max(u.drop_last());
        if u.last() > m {
            u.last()
        } else {
            m
        }
    }
}

/// First index `i >= from` with `u[i] == v` (or `u.len()` when there is none).
pub open spec fn first_index(u: Seq<nat>, v: nat, from: int) -> int
    decreases u.len() - from,
{
    if from < 0 || from >= u.len() {
        u.len() as int
    } else if u[from] == v {
        from
    } else {
        first_index(u, v, from + 1)
    }
}

/// Flip bit `c` of the 0/1 estimate.
pub open spec fn flip_bit(e: Seq<u8>, c: int) -> Seq<u8> {
    e.update(c, ((e[c] + 1) % 2) as u8)
}

/// The bit-flip process from estimate `est` with `iters` iterations left:
/// stop when the syndrome matches or no check is unsatisfied on any bit,
/// otherwise flip the first bit with the most unsatisfied checks; with no
/// iterations left, succeed only when the syndrome matches.
pub open spec fn bitflip_run(h: Seq<Seq<u8>>, target: Seq<u8>, est: Seq<u8>, cols: nat, iters: nat) -> Option<
    Seq<u8>,
>
    decreases iters,
{
    let cur = spec_syndrome(h, est);
    if iters == 0 {
        if cur == target {
            Some(est)
        } else {
            None
        }
    } else if cur == target {
        Some(est)
    } else {
        let u = unsat_counts(h, cur, target, cols);
        let mx = seq_max(u);
        if mx == 0 {
            Some(est)
        } else {
            bitflip_run(h, target, flip_bit(est, first_index(u, mx, 0)), cols, (iters - 1) as nat)
        }
    }
}

/// The decoder's answer: the outcome of the bit-flip process started from the
/// all-zero estimate.
pub open spec fn spec_bitflip_decode(h: Seq<Seq<u8>>, target: Seq<u8>, cols: nat, iters: nat) -> Result<
    Seq<u8>,
    LdpcError,
> {
    match bitflip_run(h, target, zeros(cols), cols, iters) {
        Some(e) => Ok(e),
        None => Err(LdpcError::DidNotConverge(iters as usize)),
    }
}

/// The all-zero vector of length `n`.
pub open spec fn zeros(n: nat) -> Seq<u8> {
    Seq::new(n, |c: int| 0u8)
}

/// Every all-zero row of the matrix has a 0 syndrome bit: the only checks
/// no estimate can satisfy are not flagged.
pub open spec fn zero_rows_unflagged(h: Seq<Seq<u8>>, target: Seq<u8>, cols: nat) -> bool {
    forall|r: int| 0 <= r < h.len() && !row_nonzero(#[trigger] h[r], cols) ==> target[r] == 0
}

/// The row has a 1 among its first `cols` entries.
pub open spec fn row_nonzero(row: Seq<u8>, cols: nat) -> bool {
    exists|c: int| 0 <= c < cols && row[c] == 1
}

impl Decoder for BitFlipDecoder {
    /// Scanning the syndrome reads one entry per row once a flip is tried.
    open spec fn decode_requires(&self, parity_check: &ParityCheckMatrix, syndrome: Seq<u8>) -> bool {
        &&& parity_check.wf()
        &&& self.iterations() > 0 ==> syndrome.len() >= parity_check.num_rows()
    }

    fn decode(&self, parity_check: &ParityCheckMatrix, syndrome: &[u8]) -> (res: Result<Vec<u8>, LdpcError>)
        ensures
            res matches Ok(e) ==> spec_bitflip_decode(parity_check@, syndrome@, parity_check.num_cols(),
                self.iterations()) == Ok::<Seq<u8>, LdpcError>(e@),
            res matches Err(err) ==> spec_bitflip_decode(parity_check@, syndrome@, parity_check.num_cols(),
                self.iterations()) == Err::<Seq<u8>, LdpcError>(err),
            // an accepted estimate explains the syndrome whenever the syndrome
            // has one bit per check and no all-zero check is flagged
            syndrome@.len() == parity_check.num_rows() && zero_rows_unflagged(parity_check@, syndrome@, parity_check.num_cols())
                ==> (res matches Ok(e) ==> spec_syndrome(parity_check@, e@) == syndrome@),
            // an estimate has one bit per column
            res matches Ok(e) ==> e@.len() == parity_check.num_cols() && forall|i: int| 0 <= i < e@.len() ==> #[trigger] e@[i] <= 1,
    {
        proof { parity_check.lemma_wf(); }
        let rows = parity_check.rows();
        let cols = parity_check.cols();
        let ghost h = parity_check@;
        let ghost target = syndrome@;
        let mut estimate: Vec<u8> = Vec::new();
        let mut k: usize = 0;
        while k < cols
            invariant
                k <= cols,
                estimate@ == Seq::new(k as nat, |c: int| 0u8),
            decreases cols - k,
        {
            estimate.push(0u8);
            k += 1;
        }
        assert(estimate@ =~= zeros(cols as nat));
        let ghost goal = bitflip_run(h, target, estimate@, cols as nat, self.max_iterations as nat);
        proof { lemma_run_sound(h, target, estimate@, cols as nat, self.max_iterations as nat); }
        let mut iter: usize = 0;
        while iter < self.max_iterations
            invariant
                parity_check.wf(),
                h == parity_check@,
                target == syndrome@,
                rows == parity_check.num_rows(),
                cols == parity_check.num_cols(),
                is_binary_matrix(h, rows as nat, cols as nat),
                cols >= 1,
                goal == bitflip_run(h, target, zeros(cols as nat), cols as nat, self.max_iterations as nat),
                target.len() == h.len() && zero_rows_unflagged(h, target, cols as nat) ==> (goal matches Some(e) ==> spec_syndrome(h, e)
                    == target),
                self.max_iterations > 0 ==> target.len() >= rows,
                iter <= self.max_iterations,
                estimate@.len() == cols,
                forall|c: int| 0 <= c < cols ==> #[trigger] estimate@[c] <= 1,
                bitflip_run(h, target, estimate@, cols as nat, (self.max_iterations - iter) as nat) == goal,
            decreases self.max_iterations - iter,
        {
            let current = match parity_check.syndrome(estimate.as_slice()) {
                Ok(s) => s,
                Err(e) => { return Err(e); },
            };
            if bytes_equal(&current, syndrome) {
                return Ok(estimate);
            }
            let unsatisfied = count_unsatisfied(parity_check, &current, syndrome);
            assert(unsatisfied@.len() == as_nats(unsatisfied@).len());
            let mx = max_of(&unsatisfied);
            if mx == 0 {
                return Ok(estimate);
            }
            let c = first_index_of(&unsatisfied, mx);
            let ghost u = unsatisfied@.map_values(|x: usize| x as nat);
            assert(c == first_index(u, mx as nat, 0));
            let ghost before = estimate@;
            let flipped: u8 = if estimate[c] == 0 { 1 } else { 0 };
            estimate.set(c, flipped);
            assert(estimate@ =~= flip_bit(before, c as int));
            iter += 1;
        }
        let final_syn = match parity_check.syndrome(estimate.as_slice()) {
            Ok(s) => s,
            Err(e) => { return Err(e); },
        };
        if bytes_equal(&final_syn, syndrome) {
            Ok(estimate)
        } else {
            Err(LdpcError::DidNotConverge(self.max_iterations))
        }
    }

    /// "BitFlipDecoder".
    fn name(&self) -> (n: &str)
        ensures
            n@ == "BitFlipDecoder"@,
    {
        "BitFlipDecoder"
    }
}

/// Whether the two byte sequences are equal.
fn bytes_equal(a: &Vec<u8>, b: &[u8]) -> (eq: bool)
    ensures
        eq == (a@ == b@),
{
    if a.len() != b.len() {
        return false;
    }
    let mut i: usize = 0;
    while i < a.len()
        invariant
            a@.len() == b@.len(),
            i <= a@.len(),
            forall|k: int| 0 <= k < i ==> a@[k] == b@[k],
        decreases a.len() - i,
    {
        if a[i] != b[i] {
            return false;
        }
        i += 1;
    }
    assert(a@ =~= b@);
    true
}

pub open spec fn as_nats(v: Seq<usize>) -> Seq<nat> {
    v.map_values(|x: usize| x as nat)
}

/// For every bit, the number of unsatisfied checks (`current != target`) that
/// involve it.
fn count_unsatisfied(h: &ParityCheckMatrix, current: &Vec<u8>, target: &[u8]) -> (u: Vec<usize>)
    requires
        h.wf(),
        current@.len() == h.num_rows(),
        target@.len() >= h.num_rows(),
    ensures
        as_nats(u@) == unsat_counts(h@, current@, target@, h.num_cols()),
        forall|c: int| 0 <= c < u@.len() ==> #[trigger] u@[c] <= h.num_rows(),
{
    proof { h.lemma_wf(); }
    let rows = h.rows();
    let cols = h.cols();
    let mut u: Vec<usize> = Vec::new();
    let mut k: usize = 0;
    while k < cols
        invariant
            k <= cols,
            u@ == Seq::new(k as nat, |c: int| 0usize),
        decreases cols - k,
    {
        u.push(0usize);
        k += 1;
    }
    let mut r: usize = 0;
    while r < rows
        invariant
            h.wf(),
            rows == h.num_rows(),
            cols == h.num_cols(),
            is_binary_matrix(h@, rows as nat, cols as nat),
            current@.len() == rows,
            target@.len() >= rows,
            r <= rows,
            u@.len() == cols,
            forall|c: int| 0 <= c < cols ==> #[trigger] u@[c] == unsat_count(h@, current@, target@, c, r as nat),
            forall|c: int| 0 <= c < cols ==> #[trigger] u@[c] <= r,
        decreases rows - r,
    {
        if current[r] != target[r] {
            let mut c: usize = 0;
            while c < cols
                invariant
                    h.wf(),
                    rows == h.num_rows(),
                    cols == h.num_cols(),
                    is_binary_matrix(h@, rows as nat, cols as nat),
                    current@.len() == rows,
                    target@.len() >= rows,
                    r < rows,
                    current@[r as int] != target@[r as int],
                    c <= cols,
                    u@.len() == cols,
                    forall|j: int| 0 <= j < c ==> #[trigger] u@[j] == unsat_count(h@, current@, target@, j, (r + 1) as nat),
                    forall|j: int| c <= j < cols ==> #[trigger] u@[j] == unsat_count(h@, current@, target@, j, r as nat),
                    forall|j: int| 0 <= j < c ==> #[trigger] u@[j] <= r + 1,
                    forall|j: int| c <= j < cols ==> #[trigger] u@[j] <= r,
                decreases cols - c,
            {
                if h.get(r, c) == 1 {
                    let x = u[c];
                    u.set(c, x + 1);
                }
                c += 1;
            }
        } else {
            assert forall|c: int| 0 <= c < cols implies #[trigger] u@[c] == unsat_count(h@, current@, target@, c, (r + 1) as nat) by {
                assert(unsat_count(h@, current@, target@, c, (r + 1) as nat) == unsat_count(h@, current@, target@, c, r as nat));
            }
        }
        r += 1;
    }
    assert(as_nats(u@) =~= unsat_counts(h@, current@, target@, cols as nat));
    u
}

/// The largest entry of a non-empty vector.
fn max_of(v: &Vec<usize>) -> (m: usize)
    requires
        v@.len() >= 1,
    ensures
        m == seq_max(as_nats(v@)),
        exists|i: int| 0 <= i < v@.len() && v@[i] == m,
{
    let mut best: usize = v[0];
    let mut i: usize = 1;
    proof {
        reveal_with_fuel(seq_max, 2);
        assert(as_nats(v@).take(1).drop_last() =~= Seq::<nat>::empty());
        assert(as_nats(v@).take(1).last() == v@[0] as nat);
    }
    while i < v.len()
        invariant
            1 <= i <= v@.len(),
            best == seq_max(as_nats(v@).take(i as int)),
            exists|k: int| 0 <= k < i && v@[k] == best,
        decreases v.len() - i,
    {
        assert(as_nats(v@).take(i + 1).drop_last() =~= as_nats(v@).take(i as int));
        assert(as_nats(v@).take(i + 1).last() == v@[i as int] as nat);
        if v[i] > best {
            best = v[i];
        }
        i += 1;
    }
    assert(as_nats(v@).take(v@.len() as int) =~= as_nats(v@));
    best
}

/// Index of the first entry equal to `x`, which must occur.
fn first_index_of(v: &Vec<usize>, x: usize) -> (i: usize)
    requires
        exists|k: int| 0 <= k < v@.len() && v@[k] == x,
    ensures
        i < v@.len(),
        i == first_index(as_nats(v@), x as nat, 0),
{
    let ghost u = as_nats(v@);
    let mut i: usize = 0;
    while v[i] != x
        invariant
            u == as_nats(v@),
            i < v@.len(),
            forall|k: int| 0 <= k < i ==> v@[k] != x,
            exists|k: int| 0 <= k < v@.len() && v@[k] == x,
            first_index(u, x as nat, 0) == first_index(u, x as nat, i as int),
        decreases v.len() - i,
    {
        if i + 1 == v.len() {
            assert(false);
        }
        i += 1;
    }
    i
}

proof fn lemma_unsat_positive(h: Seq<Seq<u8>>, cur: Seq<u8>, target: Seq<u8>, c: int, n: nat, r: int)
    requires
        0 <= r < n,
        cur[r] != target[r],
        h[r][c] == 1,
    ensures
        unsat_count(h, cur, target, c, n) >= 1,
    decreases n,
{
    if r < n - 1 {
        lemma_unsat_positive(h, cur, target, c, (n - 1) as nat, r);
    }
}

proof fn lemma_seq_max_ge(u: Seq<nat>, i: int)
    requires
        0 <= i < u.len(),
    ensures
        seq_max(u) >= u[i],
    decreases u.len(),
{
    if i < u.len() - 1 {
        lemma_seq_max_ge(u.drop_last(), i);
    }
}

/// Whenever the bit-flip process accepts an estimate for a syndrome with one
/// bit per check of a matrix without all-zero rows, that estimate has exactly
/// this syndrome.
pub proof fn lemma_run_sound(h: Seq<Seq<u8>>, target: Seq<u8>, est: Seq<u8>, cols: nat, iters: nat)
    requires
        is_binary_matrix(h, h.len(), cols),
    ensures
        target.len() == h.len() && zero_rows_unflagged(h, target, cols) ==> (bitflip_run(h, target, est, cols, iters) matches Some(
            e,
        ) ==> spec_syndrome(h, e) == target),
    decreases iters,
{
    let cur = spec_syndrome(h, est);
    if iters > 0 && cur != target && target.len() == h.len() && zero_rows_unflagged(h, target, cols) {
        let u = unsat_counts(h, cur, target, cols);
        let mx = seq_max(u);
        assert(cur.len() == target.len());
        let r = choose|r: int| 0 <= r < cur.len() && cur[r] != target[r];
        assert(exists|r: int| 0 <= r < cur.len() && cur[r] != target[r]) by {
            if !(exists|r: int| 0 <= r < cur.len() && cur[r] != target[r]) {
                assert(cur =~= target);
            }
        }
        assert(row_nonzero(h[r], cols)) by {
            if !row_nonzero(h[r], cols) {
                assert(h[r].len() == cols);
                lemma_dot_zero_row(h[r], est);
                assert(cur[r] == 0);
            }
        }
        let c = choose|c: int| 0 <= c < cols && h[r][c] == 1;
        lemma_unsat_positive(h, cur, target, c, h.len(), r);
        lemma_seq_max_ge(u, c);
        lemma_run_sound(h, target, flip_bit(est, first_index(u, mx, 0)), cols, (iters - 1) as nat);
    }
}

/// A row with no 1 has a zero dot product with every vector.
proof fn lemma_dot_zero_row(a: Seq<u8>, e: Seq<u8>)
    requires
        forall|i: int| 0 <= i < a.len() ==> #[trigger] a[i] <= 1,
        !(exists|c: int| 0 <= c < a.len() && a[c] == 1),
    ensures
        crate::ldpc::parity_check::gf2_dot(a, e) == 0,
    decreases a.len(),
{
    if a.len() > 0 {
        assert(a[a.len() - 1] != 1);
        assert(a.drop_last().len() == a.len() - 1);
        assert forall|i: int| 0 <= i < a.drop_last().len() implies #[trigger] a.drop_last()[i] <= 1 by {
            assert(a.drop_last()[i] == a[i]);
        }
        assert(!(exists|c: int| 0 <= c < a.drop_last().len() && a.drop_last()[c] == 1)) by {
            if exists|c: int| 0 <= c < a.drop_last().len() && a.drop_last()[c] == 1 {
                let c = choose|c: int| 0 <= c < a.drop_last().len() && a.drop_last()[c] == 1;
                assert(a[c] == 1);
            }
        }
        lemma_dot_zero_row(a.drop_last(), e);
    }
}

/// A syndrome with no flag decodes to the all-zero estimate.
pub proof fn lemma_zero_syndrome_decodes_to_zero(h: Seq<Seq<u8>>, target: Seq<u8>, cols: nat, iters: nat)
    requires
        is_binary_matrix(h, h.len(), cols),
        target.len() == h.len(),
        forall|r: int| 0 <= r < target.len() ==> #[trigger] target[r] == 0,
    ensures
        spec_bitflip_decode(h, target, cols, iters) == Ok::<Seq<u8>, LdpcError>(zeros(cols)),
{
    crate::ldpc::parity_check::lemma_zero_error_zero_syndrome(h, zeros(cols));
    assert(spec_syndrome(h, zeros(cols)) =~= target);
}

/// The bit chosen in a round: the first bit with the most unsatisfied checks.
pub open spec fn chosen_bit(h: Seq<Seq<u8>>, target: Seq<u8>, est: Seq<u8>, cols: nat) -> int {
    let u = unsat_counts(h, spec_syndrome(h, est), target, cols);
    first_index(u, seq_max(u), 0)
}

proof fn lemma_seq_max_attained(u: Seq<nat>)
    requires
        u.len() > 0,
    ensures
        exists|i: int| 0 <= i < u.len() && u[i] == seq_max(u),
        forall|i: int| 0 <= i < u.len() ==> u[i] <= seq_max(u),
    decreases u.len(),
{
    if u.len() > 1 {
        lemma_seq_max_attained(u.drop_last());
        assert forall|i: int| 0 <= i < u.len() implies u[i] <= seq_max(u) by {
            if i < u.len() - 1 {
                assert(u.drop_last()[i] == u[i]);
            }
        }
        if u.last() <= seq_max(u.drop_last()) {
            let i = choose|i: int| 0 <= i < u.drop_last().len() && u.drop_last()[i] == seq_max(u.drop_last());
            assert(u[i] == seq_max(u));
        } else {
            assert(u[u.len() - 1] == seq_max(u));
        }
    } else {
        assert(u.drop_last().len() == 0);
        assert(seq_max(u.drop_last()) == 0);
        assert(u.last() == u[0]);
        assert(u[0] == seq_max(u));
    }
}

proof fn lemma_first_index_found(u: Seq<nat>, v: nat, from: int, i: int)
    requires
        0 <= from <= i < u.len(),
        u[i] == v,
    ensures
        from <= first_index(u, v, from) <= i,
        u[first_index(u, v, from)] == v,
    decreases i - from,
{
    if u[from] != v {
        lemma_first_index_found(u, v, from + 1, i);
    }
}

/// A round of the bit-flip decoder, when the syndrome does not yet match and
/// some unsatisfied check involves a bit, toggles the chosen bit (the first
/// bit with the most unsatisfied checks) and nothing else: the decoder then
/// goes on from the estimate that differs from the current one exactly in
/// that bit, where it holds 1 minus the current value, with one round less.
pub proof fn lemma_bitflip_round_toggles(
    h: Seq<Seq<u8>>,
    target: Seq<u8>,
    est: Seq<u8>,
    next: Seq<u8>,
    cols: nat,
    iters: nat,
)
    requires
        iters > 0,
        est.len() == cols,
        forall|i: int| 0 <= i < cols ==> est[i] <= 1,
        spec_syndrome(h, est) != target,
        seq_max(unsat_counts(h, spec_syndrome(h, est), target, cols)) > 0,
        next.len() == cols,
        next[chosen_bit(h, target, est, cols)] == 1 - est[chosen_bit(h, target, est, cols)],
        forall|i: int| 0 <= i < cols && i != chosen_bit(h, target, est, cols) ==> next[i] == est[i],
    ensures
        0 <= chosen_bit(h, target, est, cols) < cols,
        next[chosen_bit(h, target, est, cols)] != est[chosen_bit(h, target, est, cols)],
        bitflip_run(h, target, est, cols, iters) == bitflip_run(h, target, next, cols, (iters - 1) as nat),
{
    let u = unsat_counts(h, spec_syndrome(h, est), target, cols);
    let mx = seq_max(u);
    if u.len() == 0 {
        assert(mx == 0);
    }
    lemma_seq_max_attained(u);
    let i = choose|i: int| 0 <= i < u.len() && u[i] == mx;
    lemma_first_index_found(u, mx, 0, i);
    let c = chosen_bit(h, target, est, cols);
    assert(est[c] == 0 || est[c] == 1);
    assert(flip_bit(est, c) =~= next);
}

/// The chosen bit has the most unsatisfied checks of all bits, and every
/// earlier bit has strictly fewer.
pub proof fn lemma_chosen_bit_is_first_maximum(h: Seq<Seq<u8>>, target: Seq<u8>, est: Seq<u8>, cols: nat)
    requires
        cols > 0,
    ensures
        0 <= chosen_bit(h, target, est, cols) < cols,
        forall|i: int|
            0 <= i < cols ==> #[trigger] unsat_count(h, spec_syndrome(h, est), target, i, h.len()) <= unsat_count(
                h,
                spec_syndrome(h, est),
                target,
                chosen_bit(h, target, est, cols),
                h.len(),
            ),
        forall|i: int|
            0 <= i < chosen_bit(h, target, est, cols) ==> #[trigger] unsat_count(h, spec_syndrome(h, est), target, i, h.len())
                < unsat_count(h, spec_syndrome(h, est), target, chosen_bit(h, target, est, cols), h.len()),
{
    let u = unsat_counts(h, spec_syndrome(h, est), target, cols);
    let mx = seq_max(u);
    lemma_seq_max_attained(u);
    let i = choose|i: int| 0 <= i < u.len() && u[i] == mx;
    lemma_first_index_found(u, mx, 0, i);
    lemma_first_index_skips(u, mx, 0, chosen_bit(h, target, est, cols));
    assert forall|j: int| 0 <= j < cols implies unsat_count(h, spec_syndrome(h, est), target, j, h.len()) <= mx by {
        assert(u[j] <= mx);
    }
    assert forall|j: int| 0 <= j < chosen_bit(h, target, est, cols) implies unsat_count(
        h,
        spec_syndrome(h, est),
        target,
        j,
        h.len(),
    ) < mx by {
        assert(u[j] <= mx && u[j] != mx);
    }
}

proof fn lemma_first_index_skips(u: Seq<nat>, v: nat, from: int, found: int)
    requires
        0 <= from,
        found == first_index(u, v, from),
    ensures
        forall|j: int| from <= j < found && j < u.len() ==> u[j] != v,
    decreases u.len() - from,
{
    if from < u.len() && u[from] != v {
        lemma_first_index_skips(u, v, from + 1, found);
    }
}

/// The decoder stops as soon as the estimate reproduces the syndrome, and,
/// with no round left, succeeds exactly when it does.
pub proof fn lemma_bitflip_stops_on_match(h: Seq<Seq<u8>>, target: Seq<u8>, est: Seq<u8>, cols: nat, iters: nat)
    ensures
        spec_syndrome(h, est) == target ==> bitflip_run(h, target, est, cols, iters) == Some(est),
        iters == 0 ==> (bitflip_run(h, target, est, cols, iters) == if spec_syndrome(h, est) == target {
            Some(est)
        } else {
            None::<Seq<u8>>
        }),
{
}

/// A bit's count of unsatisfied checks is positive exactly when some
/// unsatisfied row among the first `n` checks it, and never exceeds `n`.
pub proof fn lemma_unsat_count_meaning(h: Seq<Seq<u8>>, cur: Seq<u8>, target: Seq<u8>, c: int, n: nat)
    ensures
        unsat_count(h, cur, target, c, n) <= n,
        unsat_count(h, cur, target, c, n) > 0 <==> exists|r: int| 0 <= r < n && cur[r] != target[r] && #[trigger] h[r][c] == 1,
    decreases n,
{
    if n > 0 {
        lemma_unsat_count_meaning(h, cur, target, c, (n - 1) as nat);
        let r = n - 1;
        if cur[r] != target[r] && h[r][c] == 1 {
            assert(h[r as int][c] == 1);
        }
        if unsat_count(h, cur, target, c, (n - 1) as nat) > 0 {
            let w = choose|w: int| 0 <= w < n - 1 && cur[w] != target[w] && #[trigger] h[w][c] == 1;
            assert(h[w][c] == 1);
        }
    }
}

} // verus!
