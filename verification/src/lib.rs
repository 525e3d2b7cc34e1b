//! Verified classroom algorithms: a knight's tour solver with Warnsdorff
//! ordering, a handful of recursive number sequences, sorting and searching.

pub mod random;
pub mod recursion;
pub mod searching;
pub mod sorting;
pub mod text;
pub mod tour;
