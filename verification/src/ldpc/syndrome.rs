use vstd::prelude::*;

use crate::ldpc::error::LdpcError;
use crate::ldpc::parity_check::{spec_syndrome, ParityCheckMatrix};

verus! {

/// The syndrome H * error (mod 2); see `ParityCheckMatrix::syndrome`.
pub fn compute_syndrome(h: &ParityCheckMatrix, error: &[u8]) -> (res: Result<Vec<u8>, LdpcError>)
    requires
        h.wf(),
    ensures
        (error@.len() != h.num_cols()) <==> res is Err,
        res matches Err(e) ==> e == (LdpcError::SyndromeMismatch {
            expected: h.num_cols() as usize,
            got: error@.len() as usize,
        }),
        res matches Ok(syn) ==> syn@ == spec_syndrome(h@, error@),
{
    h.syndrome(error)
}

} // verus!
