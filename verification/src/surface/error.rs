use vstd::prelude::*;

verus! {

/// Errors raised while building or decoding a surface code.
#[derive(Debug, Clone, PartialEq, Eq)]
pub enum QecError {
    /// The code distance is below 3 or even.
    InvalidDistance(usize),
    /// The decoder could not produce a correction.
    DecoderFailure(String),
}

} // verus!
