//! Termination of greedy peeling. Each round either clears flags or, when
//! the best move clears as many flags as it raises, moves the flag of the
//! first flagged stabilizer to a stabilizer of lower potential; on the
//! rotated surface code that potential is the row plus the column of a
//! stabilizer's anchor.
use vstd::prelude::*;

use crate::surface::decoder::{
    candidates, choice, flagged_count, greedy_done, greedy_iter, greedy_step, lemma_candidate_member,
    lemma_pick_member, net_gain, pick, toggle_flags, total_count, greedy_inputs_ok, greedy_terminates, no_flags,
    spec_greedy_correction,
};
use crate::surface::code::supports_within;
use crate::surface::syndrome::{hit_count, spec_flags};

verus! {

/// Number of flags among the first `m`.
pub open spec fn nflags(rem: Seq<bool>, m: nat) -> nat
    decreases m,
{
    if m == 0 {
        0
    } else {
        nflags(rem, (m - 1) as nat) + if rem[m - 1] { 1nat } else { 0nat }
    }
}

/// Total potential of the flagged stabilizers among the first `m`.
pub open spec fn phi(rem: Seq<bool>, pots: Seq<nat>, m: nat) -> nat
    decreases m,
{
    if m == 0 {
        0
    } else {
        phi(rem, pots, (m - 1) as nat) + if rem[m - 1] { pots[m - 1] } else { 0nat }
    }
}

/// Total potential of the flagged stabilizers among the first `m` that
/// contain `q`.
pub open spec fn flagged_pot(table: Seq<Seq<usize>>, rem: Seq<bool>, pots: Seq<nat>, q: usize, m: nat) -> nat
    decreases m,
{
    if m == 0 {
        0
    } else {
        flagged_pot(table, rem, pots, q, (m - 1) as nat) + if rem[m - 1] && table[m - 1].contains(q) {
            pots[m - 1]
        } else {
            0nat
        }
    }
}

/// Total potential of the unflagged stabilizers among the first `m` that
/// contain `q`.
pub open spec fn clear_pot(table: Seq<Seq<usize>>, rem: Seq<bool>, pots: Seq<nat>, q: usize, m: nat) -> nat
    decreases m,
{
    if m == 0 {
        0
    } else {
        clear_pot(table, rem, pots, q, (m - 1) as nat) + if !rem[m - 1] && table[m - 1].contains(q) {
            pots[m - 1]
        } else {
            0nat
        }
    }
}

/// Number of unflagged stabilizers among the first `m` that contain `q`.
pub open spec fn clear_count(table: Seq<Seq<usize>>, rem: Seq<bool>, q: usize, m: nat) -> nat
    decreases m,
{
    if m == 0 {
        0
    } else {
        clear_count(table, rem, q, (m - 1) as nat) + if !rem[m - 1] && table[m - 1].contains(q) { 1nat } else { 0nat }
    }
}

/// The stabilizer table has the shape that makes peeling stop: every
/// support is non-empty, its first qubit lies in at most two stabilizers,
/// and every other stabilizer holding that qubit has a lower potential.
pub open spec fn peelable(table: Seq<Seq<usize>>, pots: Seq<nat>) -> bool {
    &&& pots.len() == table.len()
    &&& forall|i: int| 0 <= i < table.len() ==> #[trigger] table[i].len() > 0
    &&& forall|i: int| 0 <= i < table.len() ==> total_count(table, #[trigger] table[i][0], table.len()) <= 2
    &&& forall|i: int, j: int|
        0 <= i < table.len() && 0 <= j < table.len() && j != i && #[trigger] table[j].contains(#[trigger] table[i][0])
            ==> pots[j] < pots[i]
}

/// Flags only for existing stabilizers, and one per stabilizer once any
/// flag is set.
pub open spec fn flags_ok(table: Seq<Seq<usize>>, rem: Seq<bool>) -> bool {
    &&& forall|i: int| 0 <= i < rem.len() && #[trigger] rem[i] ==> i < table.len()
    &&& (exists|i: int| 0 <= i < rem.len() && #[trigger] rem[i]) ==> rem.len() >= table.len()
}

proof fn lemma_toggle_counts(table: Seq<Seq<usize>>, rem: Seq<bool>, pots: Seq<nat>, q: usize, m: nat)
    requires
        m <= table.len(),
        table.len() <= rem.len(),
    ensures
        nflags(toggle_flags(table, rem, q), m) + 2 * flagged_count(table, rem, q, m) == nflags(rem, m) + total_count(
            table,
            q,
            m,
        ),
        phi(toggle_flags(table, rem, q), pots, m) + flagged_pot(table, rem, pots, q, m) == phi(rem, pots, m) + clear_pot(
            table,
            rem,
            pots,
            q,
            m,
        ),
        clear_count(table, rem, q, m) + flagged_count(table, rem, q, m) == total_count(table, q, m),
        clear_pot(table, rem, pots, q, m) + clear_count(table, rem, q, m) <= clear_count(table, rem, q, m) * (
        max_pot_bound(table, rem, pots, q, m)),
    decreases m,
{
    if m > 0 {
        lemma_toggle_counts(table, rem, pots, q, (m - 1) as nat);
        let c = clear_count(table, rem, q, (m - 1) as nat);
        let b = max_pot_bound(table, rem, pots, q, (m - 1) as nat);
        let b2 = max_pot_bound(table, rem, pots, q, m);
        assert(b <= b2);
        assert(c * b <= c * b2) by (nonlinear_arith)
            requires
                b <= b2;
        if !rem[m - 1] && table[m - 1].contains(q) {
            assert((c + 1) * b2 == c * b2 + b2) by (nonlinear_arith);
        }
    }
}

/// One more than the largest potential of an unflagged stabilizer among
/// the first `m` that contains `q` (0 when there is none).
pub open spec fn max_pot_bound(table: Seq<Seq<usize>>, rem: Seq<bool>, pots: Seq<nat>, q: usize, m: nat) -> nat
    decreases m,
{
    if m == 0 {
        0
    } else {
        let rest = max_pot_bound(table, rem, pots, q, (m - 1) as nat);
        if !rem[m - 1] && table[m - 1].contains(q) && pots[m - 1] + 1 > rest {
            pots[m - 1] + 1
        } else {
            rest
        }
    }
}

proof fn lemma_max_pot_bound(table: Seq<Seq<usize>>, rem: Seq<bool>, pots: Seq<nat>, q: usize, m: nat, p: nat)
    requires
        forall|j: int| 0 <= j < m && !rem[j] && #[trigger] table[j].contains(q) ==> pots[j] < p,
    ensures
        max_pot_bound(table, rem, pots, q, m) <= p,
    decreases m,
{
    if m > 0 {
        lemma_max_pot_bound(table, rem, pots, q, (m - 1) as nat, p);
    }
}

proof fn lemma_flagged_member(table: Seq<Seq<usize>>, rem: Seq<bool>, pots: Seq<nat>, q: usize, m: nat, a: int)
    requires
        0 <= a < m,
        rem[a],
        table[a].contains(q),
    ensures
        flagged_pot(table, rem, pots, q, m) >= pots[a],
        flagged_count(table, rem, q, m) >= 1,
    decreases m,
{
    if a < m - 1 {
        lemma_flagged_member(table, rem, pots, q, (m - 1) as nat, a);
    }
}

/// The chosen candidate has the largest net gain of all candidates.
proof fn lemma_pick_max(table: Seq<Seq<usize>>, rem: Seq<bool>, cands: Seq<usize>)
    ensures
        pick(table, rem, cands) matches Some(p) ==> forall|j: int|
            0 <= j < cands.len() ==> net_gain(table, rem, #[trigger] cands[j]) <= net_gain(table, rem, p),
    decreases cands.len(),
{
    if cands.len() > 0 {
        let init = cands.drop_last();
        lemma_pick_max(table, rem, init);
        assert forall|j: int| 0 <= j < init.len() implies init[j] == cands[j] by {}
    }
}

/// The first candidate is chosen when no candidate beats it, or ties with
/// it on net gain while lying in fewer stabilizers.
proof fn lemma_pick_first(table: Seq<Seq<usize>>, rem: Seq<bool>, cands: Seq<usize>)
    requires
        cands.len() > 0,
        forall|j: int|
            0 <= j < cands.len() ==> net_gain(table, rem, #[trigger] cands[j]) < net_gain(table, rem, cands[0]) || (
            net_gain(table, rem, cands[j]) == net_gain(table, rem, cands[0]) && total_count(table, cands[j], table.len())
                >= total_count(table, cands[0], table.len())),
    ensures
        pick(table, rem, cands) == Some(cands[0]),
    decreases cands.len(),
{
    if cands.len() > 1 {
        let init = cands.drop_last();
        assert forall|j: int| 0 <= j < init.len() implies init[j] == cands[j] by {}
        lemma_pick_first(table, rem, init);
        let j = cands.len() - 1;
        assert(cands[j] == cands.last());
        assert(net_gain(table, rem, cands[j]) < net_gain(table, rem, cands[0]) || (net_gain(table, rem, cands[j])
            == net_gain(table, rem, cands[0]) && total_count(table, cands[j], table.len()) >= total_count(
            table,
            cands[0],
            table.len(),
        )));
    } else {
        assert(cands.drop_last().len() == 0);
        assert(pick(table, rem, cands.drop_last()) is None);
    }
}

proof fn lemma_candidates_empty(table: Seq<Seq<usize>>, rem: Seq<bool>, n: nat)
    requires
        n <= rem.len(),
        forall|k: int| 0 <= k < n ==> !rem[k],
    ensures
        candidates(table, rem, n).len() == 0,
    decreases n,
{
    if n > 0 {
        lemma_candidates_empty(table, rem, (n - 1) as nat);
    }
}

proof fn lemma_candidates_first(table: Seq<Seq<usize>>, rem: Seq<bool>, a: int, n: nat)
    requires
        0 <= a < n <= rem.len(),
        rem[a],
        table[a].len() > 0,
        forall|k: int| 0 <= k < a ==> !rem[k],
    ensures
        candidates(table, rem, n).len() > 0,
        candidates(table, rem, n)[0] == table[a][0],
    decreases n,
{
    if n == a + 1 {
        lemma_candidates_empty(table, rem, a as nat);
        assert(candidates(table, rem, n) =~= candidates(table, rem, a as nat) + table[a]);
    } else {
        lemma_candidates_first(table, rem, a, (n - 1) as nat);
    }
}

proof fn lemma_first_flag(rem: Seq<bool>, i: int) -> (a: int)
    requires
        0 <= i < rem.len(),
        rem[i],
    ensures
        0 <= a <= i,
        rem[a],
        forall|k: int| 0 <= k < a ==> !rem[k],
    decreases i,
{
    if exists|k: int| 0 <= k < i && rem[k] {
        let k = choose|k: int| 0 <= k < i && rem[k];
        lemma_first_flag(rem, k)
    } else {
        i
    }
}

proof fn lemma_flags_beyond(table: Seq<Seq<usize>>, rem: Seq<bool>, pots: Seq<nat>, m: nat)
    requires
        flags_ok(table, rem),
        table.len() <= m <= rem.len(),
    ensures
        nflags(rem, m) == nflags(rem, table.len()),
        phi(rem, pots, m) == phi(rem, pots, table.len()),
    decreases m,
{
    if m > table.len() {
        lemma_flags_beyond(table, rem, pots, (m - 1) as nat);
        assert(!rem[m - 1]);
    }
}

/// One round of peeling either clears flags, or keeps their number and
/// lowers their total potential.
proof fn lemma_step_measure(table: Seq<Seq<usize>>, pots: Seq<nat>, rem: Seq<bool>)
    requires
        peelable(table, pots),
        flags_ok(table, rem),
        choice(table, rem) is Some,
    ensures
        flags_ok(table, toggle_flags(table, rem, choice(table, rem)->0)),
        nflags(toggle_flags(table, rem, choice(table, rem)->0), table.len()) < nflags(rem, table.len()) || (nflags(
            toggle_flags(table, rem, choice(table, rem)->0),
            table.len(),
        ) == nflags(rem, table.len()) && phi(toggle_flags(table, rem, choice(table, rem)->0), pots, table.len()) < phi(
            rem,
            pots,
            table.len(),
        )),
{
    let l = table.len();
    let cands = candidates(table, rem, rem.len());
    let q = choice(table, rem)->0;
    let rem2 = toggle_flags(table, rem, q);
    lemma_pick_member(table, rem, cands);
    lemma_candidate_member(table, rem, rem.len(), q);
    let (si, sj) = choose|si: int, j: int| 0 <= si < rem.len() && rem[si] && 0 <= j < table[si].len() && #[trigger] table[si][j] == q;
    assert(table[si].contains(q));
    assert(si < l);
    assert(rem.len() >= l);
    let a = lemma_first_flag(rem, si);
    lemma_candidates_first(table, rem, a, rem.len());
    let q0 = table[a][0];
    assert(cands[0] == q0);
    assert(table[a].contains(q0));
    lemma_flagged_member(table, rem, pots, q0, l, a);
    lemma_flagged_member(table, rem, pots, q, l, si);
    assert(total_count(table, q0, l) <= 2);
    lemma_pick_max(table, rem, cands);
    assert(net_gain(table, rem, q0) <= net_gain(table, rem, q));
    lemma_toggle_counts(table, rem, pots, q, l);
    assert forall|i: int| 0 <= i < rem2.len() && #[trigger] rem2[i] implies i < table.len() by {
        if i >= table.len() {
            assert(rem2[i] == rem[i]);
        }
    }
    if net_gain(table, rem, q) == 0 {
        assert forall|j: int|
            0 <= j < cands.len() implies net_gain(table, rem, #[trigger] cands[j]) < net_gain(table, rem, cands[0]) || (
        net_gain(table, rem, cands[j]) == net_gain(table, rem, cands[0]) && total_count(table, cands[j], table.len())
            >= total_count(table, cands[0], table.len())) by {
            let c = cands[j];
            assert(cands.contains(c));
            lemma_candidate_member(table, rem, rem.len(), c);
            let (ci, cj) = choose|ci: int, cj: int| 0 <= ci < rem.len() && rem[ci] && 0 <= cj < table[ci].len() && #[trigger] table[ci][cj] == c;
            assert(table[ci].contains(c));
            lemma_flagged_member(table, rem, pots, c, l, ci);
        }
        lemma_pick_first(table, rem, cands);
        assert(q == q0);
        assert forall|j: int| 0 <= j < l && !rem[j] && #[trigger] table[j].contains(q0) implies pots[j] < pots[a] by {
            assert(j != a);
        }
        lemma_max_pot_bound(table, rem, pots, q0, l, pots[a]);
        let c = clear_count(table, rem, q0, l);
        let b = max_pot_bound(table, rem, pots, q0, l);
        assert(c == 1);
        assert(c * b <= pots[a]) by (nonlinear_arith)
            requires
                c == 1,
                b <= pots[a];
    }
}

/// Greedy peeling stops on every state whose flags belong to existing
/// stabilizers, on a table of the peelable shape.
pub proof fn lemma_peeling_stops(table: Seq<Seq<usize>>, pots: Seq<nat>, s: (Seq<bool>, Seq<bool>))
    requires
        peelable(table, pots),
        flags_ok(table, s.1),
    ensures
        exists|k: nat| greedy_done(table, #[trigger] greedy_iter(table, s, k)),
    decreases nflags(s.1, table.len()), phi(s.1, pots, table.len()),
{
    if greedy_done(table, s) {
        assert(greedy_done(table, greedy_iter(table, s, 0)));
    } else {
        lemma_step_measure(table, pots, s.1);
        let s2 = greedy_step(table, s);
        lemma_peeling_stops(table, pots, s2);
        let k = choose|k: nat| greedy_done(table, #[trigger] greedy_iter(table, s2, k));
        assert(greedy_iter(table, s, k + 1) == greedy_iter(table, s2, k));
    }
}

// ---------------------------------------------------------------------------
// What peeling computes: the remaining flags are always the syndrome with
// the flags of the correction so far cancelled out, so a finished run ends
// with a correction whose own syndrome is the one it was given.
// ---------------------------------------------------------------------------

/// No support lists a qubit twice.
pub open spec fn supports_distinct(table: Seq<Seq<usize>>) -> bool {
    forall|i: int, j1: int, j2: int|
        0 <= i < table.len() && 0 <= j1 < table[i].len() && 0 <= j2 < table[i].len() && j1 != j2
            ==> #[trigger] table[i][j1] != #[trigger] table[i][j2]
}

/// The remaining flags are the syndrome with the correction's flags
/// cancelled out.
pub open spec fn explains(table: Seq<Seq<usize>>, syn: Seq<bool>, s: (Seq<bool>, Seq<bool>)) -> bool {
    &&& s.1.len() == syn.len()
    &&& forall|i: int| 0 <= i < table.len() ==> #[trigger] s.1[i] == (syn[i] != spec_flags(table, s.0)[i])
}

proof fn lemma_hit_toggle(support: Seq<usize>, errs: Seq<bool>, q: usize)
    requires
        q < errs.len(),
        forall|j: int| 0 <= j < support.len() ==> #[trigger] support[j] < errs.len(),
        forall|j1: int, j2: int| 0 <= j1 < support.len() && 0 <= j2 < support.len() && j1 != j2 ==> support[j1] != support[j2],
    ensures
        (hit_count(support, errs.update(q as int, !errs[q as int])) % 2 == 1) == ((hit_count(support, errs) % 2 == 1)
            != support.contains(q)),
    decreases support.len(),
{
    let e2 = errs.update(q as int, !errs[q as int]);
    if support.len() == 0 {
        assert(!support.contains(q));
    } else {
        let init = support.drop_last();
        assert forall|j1: int, j2: int| 0 <= j1 < init.len() && 0 <= j2 < init.len() && j1 != j2 implies init[j1]
            != init[j2] by {
            assert(init[j1] == support[j1] && init[j2] == support[j2]);
        }
        assert forall|j: int| 0 <= j < init.len() implies #[trigger] init[j] < errs.len() by {
            assert(init[j] == support[j]);
        }
        assert(support[support.len() - 1] < errs.len());
        lemma_hit_toggle(init, errs, q);
        let last = support.last();
        let h1 = hit_count(init, errs);
        let h2 = hit_count(init, e2);
        assert(hit_count(support, errs) == h1 + if errs[last as int] { 1nat } else { 0nat });
        assert(hit_count(support, e2) == h2 + if e2[last as int] { 1nat } else { 0nat });
        assert(support.contains(q) == (init.contains(q) || last == q)) by {
            if support.contains(q) && last != q {
                let j = choose|j: int| 0 <= j < support.len() && support[j] == q;
                assert(j != support.len() - 1);
                assert(init[j] == q);
            }
            if init.contains(q) {
                let j = choose|j: int| 0 <= j < init.len() && init[j] == q;
                assert(support[j] == q);
            }
        }
        if last == q {
            assert(!init.contains(q)) by {
                if init.contains(q) {
                    let j = choose|j: int| 0 <= j < init.len() && init[j] == q;
                    assert(support[j] == support[support.len() - 1]);
                }
            }
            assert(e2[last as int] == !errs[last as int]);
            assert(h2 % 2 == h1 % 2);
        } else {
            assert(e2[last as int] == errs[last as int]);
        }
    }
}

proof fn lemma_step_explains(table: Seq<Seq<usize>>, syn: Seq<bool>, s: (Seq<bool>, Seq<bool>))
    requires
        explains(table, syn, s),
        supports_within(table, s.0.len()),
        supports_distinct(table),
        table.len() == syn.len(),
    ensures
        explains(table, syn, greedy_step(table, s)),
        greedy_step(table, s).0.len() == s.0.len(),
{
    if let Some(q) = choice(table, s.1) {
        let cands = candidates(table, s.1, s.1.len());
        lemma_pick_member(table, s.1, cands);
        lemma_candidate_member(table, s.1, s.1.len(), q);
        let (si, sj) = choose|si: int, j: int| 0 <= si < s.1.len() && s.1[si] && 0 <= j < table[si].len() && #[trigger] table[si][j] == q;
        assert(q < s.0.len());
        let s2 = greedy_step(table, s);
        assert forall|i: int| 0 <= i < table.len() implies #[trigger] s2.1[i] == (syn[i] != spec_flags(table, s2.0)[i]) by {
            assert forall|j: int| 0 <= j < table[i].len() implies #[trigger] table[i][j] < s.0.len() by {}
            lemma_hit_toggle(table[i], s.0, q);
        }
    }
}

proof fn lemma_iter_explains(table: Seq<Seq<usize>>, syn: Seq<bool>, s: (Seq<bool>, Seq<bool>), k: nat)
    requires
        explains(table, syn, s),
        supports_within(table, s.0.len()),
        supports_distinct(table),
        table.len() == syn.len(),
    ensures
        explains(table, syn, greedy_iter(table, s, k)),
    decreases k,
{
    if k > 0 && !greedy_done(table, s) {
        lemma_step_explains(table, syn, s);
        lemma_iter_explains(table, syn, greedy_step(table, s), (k - 1) as nat);
    }
}

/// The correction that greedy peeling ends with raises exactly the given
/// syndrome: it clears every flag.
pub proof fn lemma_greedy_correction_explains(table: Seq<Seq<usize>>, syn: Seq<bool>, n: nat)
    requires
        greedy_inputs_ok(table, syn, n),
        greedy_terminates(table, syn, n),
        syn.len() == table.len(),
        forall|i: int| 0 <= i < table.len() ==> #[trigger] table[i].len() > 0,
        supports_distinct(table),
    ensures
        spec_flags(table, spec_greedy_correction(table, syn, n)) == syn,
{
    let init = (no_flags(n), syn);
    assert forall|i: int| 0 <= i < table.len() implies #[trigger] init.1[i] == (syn[i] != spec_flags(table, init.0)[i]) by {
        crate::surface::syndrome::lemma_hit_count_zero(table[i], init.0);
    }
    let k = choose|k: nat| greedy_done(table, #[trigger] greedy_iter(table, init, k));
    let fin = greedy_iter(table, init, k);
    lemma_iter_explains(table, syn, init, k);
    assert forall|i: int| 0 <= i < table.len() implies !fin.1[i] by {
        if fin.1[i] {
            let a = lemma_first_flag(fin.1, i);
            lemma_candidates_first(table, fin.1, a, fin.1.len());
        }
    }
    assert forall|i: int| 0 <= i < table.len() implies spec_flags(table, fin.0)[i] == syn[i] by {
        assert(!fin.1[i]);
        assert(fin.1[i] == (syn[i] != spec_flags(table, fin.0)[i]));
    }
    assert(spec_flags(table, fin.0) =~= syn);
}

} // verus!
