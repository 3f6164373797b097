use vstd::prelude::*;

use crate::ldpc::error::LdpcError;
use crate::surface::error::QecError;

verus! {

/// Errors raised by logical-qubit operations.
#[derive(Debug, Clone, PartialEq, Eq)]
pub enum LogicalError {
    /// The operation cannot act on a single logical qubit of this code.
    UnsupportedOperation(String),
    /// No logical qubit has this index.
    InvalidIndex(usize),
    /// Building the underlying surface code failed.
    QecError(QecError),
    /// Building the underlying LDPC code failed.
    LdpcError(LdpcError),
}

} // verus!
