//! Searching a slice for a value.

pub mod binary;
pub mod linear;
pub mod positions;
