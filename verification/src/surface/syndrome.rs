use vstd::prelude::*;

use crate::surface::code::{stabs_of, supports_within, SurfaceCode};

verus! {

/// Syndrome: the outcome of measuring every stabilizer.
#[derive(Debug, Clone, PartialEq, Eq)]
pub struct Syndrome {
    /// One bit per X stabilizer (flags when an odd number of Z errors hit its support).
    pub x_syndrome: Vec<bool>,
    /// One bit per Z stabilizer (flags when an odd number of X errors hit its support).
    pub z_syndrome: Vec<bool>,
}

/// Number of positions of `support` whose qubit carries an error.
pub open spec fn hit_count(support: Seq<usize>, errors: Seq<bool>) -> nat
    decreases support.len(),
{
    if support.len() == 0 {
        0
    } else {
        hit_count(support.drop_last(), errors) + if errors[support.last() as int] { 1nat } else { 0nat }
    }
}

/// One flag per stabilizer: an odd number of errors on its support.
pub open spec fn spec_flags(stabs: Seq<Seq<usize>>, errors: Seq<bool>) -> Seq<bool> {
    Seq::new(stabs.len(), |i: int| hit_count(stabs[i], errors) % 2 == 1)
}

/// The syndrome produced by a Pauli error pattern: X stabilizers detect Z
/// errors, Z stabilizers detect X errors.
pub fn extract_syndrome(code: &SurfaceCode, x_errors: &[bool], z_errors: &[bool]) -> (syn: Syndrome)
    requires
        supports_within(code.x_stabs(), z_errors@.len()),
        supports_within(code.z_stabs(), x_errors@.len()),
    ensures
        syn.x_syndrome@ == spec_flags(code.x_stabs(), z_errors@),
        syn.z_syndrome@ == spec_flags(code.z_stabs(), x_errors@),
{
    let x_syndrome = flags(code.x_stabilizer_table(), z_errors);
    let z_syndrome = flags(code.z_stabilizer_table(), x_errors);
    Syndrome { x_syndrome, z_syndrome }
}

/// One parity flag per support.
fn flags(table: &[Vec<usize>], errors: &[bool]) -> (f: Vec<bool>)
    requires
        supports_within(stabs_of(table@), errors@.len()),
    ensures
        f@ == spec_flags(stabs_of(table@), errors@),
{
    let ghost st = stabs_of(table@);
    let mut f: Vec<bool> = Vec::new();
    let mut i: usize = 0;
    while i < table.len()
        invariant
            st == stabs_of(table@),
            supports_within(st, errors@.len()),
            i <= table@.len(),
            f@ == spec_flags(st, errors@).take(i as int),
        decreases table.len() - i,
    {
        let support = &table[i];
        assert(support@ == st[i as int]);
        let mut count: usize = 0;
        let mut j: usize = 0;
        while j < support.len()
            invariant
                st == stabs_of(table@),
                supports_within(st, errors@.len()),
                i < table@.len(),
                support@ == st[i as int],
                j <= support@.len(),
                count == hit_count(support@.take(j as int), errors@),
                count <= j,
            decreases support.len() - j,
        {
            assert(support@.take(j + 1).drop_last() =~= support@.take(j as int));
            let q = support[j];
            assert(q < errors@.len());
            if errors[q] {
                count += 1;
            }
            j += 1;
        }
        assert(support@.take(support@.len() as int) =~= support@);
        f.push(count % 2 == 1);
        assert(f@ =~= spec_flags(st, errors@).take(i + 1));
        i += 1;
    }
    assert(f@ =~= spec_flags(st, errors@));
    f
}

pub(crate) proof fn lemma_hit_count_zero(support: Seq<usize>, errors: Seq<bool>)
    requires
        forall|k: int| 0 <= k < errors.len() ==> !#[trigger] errors[k],
        forall|j: int| 0 <= j < support.len() ==> #[trigger] support[j] < errors.len(),
    ensures
        hit_count(support, errors) == 0,
    decreases support.len(),
{
    if support.len() > 0 {
        lemma_hit_count_zero(support.drop_last(), errors);
    }
}

/// An error-free pattern raises no flag.
pub proof fn lemma_no_error_no_flag(stabs: Seq<Seq<usize>>, errors: Seq<bool>)
    requires
        forall|k: int| 0 <= k < errors.len() ==> !#[trigger] errors[k],
        supports_within(stabs, errors.len()),
    ensures
        forall|i: int| 0 <= i < stabs.len() ==> !#[trigger] spec_flags(stabs, errors)[i],
{
    assert forall|i: int| 0 <= i < stabs.len() implies !#[trigger] spec_flags(stabs, errors)[i] by {
        lemma_hit_count_zero(stabs[i], errors);
    }
}

} // verus!
