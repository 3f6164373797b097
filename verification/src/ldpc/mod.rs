//! Classical and quantum LDPC codes over GF(2).
pub mod error;
pub mod parity_check;
pub mod code;
pub mod rank;
pub mod decoder;
pub mod syndrome;
