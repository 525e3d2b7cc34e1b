//! Knight's tour search: depth-first backtracking over a square board, with
//! moves tried in Warnsdorff order.

pub mod board;
pub mod model;
pub mod moves;
pub mod render;
pub mod search;
pub mod solver;
pub mod theory;
pub mod walk;
pub mod warnsdorff;
