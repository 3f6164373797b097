//! The rotated surface code: lattice construction, syndrome extraction,
//! greedy decoding and logical-error tracking.
pub mod code;
pub mod commute;
pub mod decoder;
pub mod error;
pub mod logical;
pub mod syndrome;
pub mod peeling;
pub mod peel_geometry;
