use vstd::prelude::*;

verus! {

/// Errors raised by parity-check matrices, CSS codes and LDPC decoders.
#[derive(Debug, Clone, Copy, PartialEq, Eq)]
pub enum LdpcError {
    /// A matrix was requested with zero rows or zero columns.
    InvalidDimensions { rows: usize, cols: usize },
    /// An error vector does not have one entry per column.
    SyndromeMismatch { expected: usize, got: usize },
    /// The decoder gave up after the given number of iterations.
    DidNotConverge(usize),
    /// Rows of a dense matrix have different lengths.
    InconsistentRowLengths,
    /// A dense matrix holds an entry other than 0 or 1.
    InvalidValue(u8),
    /// Hx * Hz^T is not the zero matrix over GF(2).
    CssOrthogonalityViolated,
    /// Hx and Hz act on different numbers of qubits.
    CssDimensionMismatch { hx_cols: usize, hz_cols: usize },
    /// A row or column of Hx or Hz is heavier than the allowed weight.
    WeightConstraintViolated { max_weight: usize },
}

} // verus!
