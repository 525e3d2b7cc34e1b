//! Number sequences defined by recursion.

pub mod factorial;
pub mod fibonacci;
