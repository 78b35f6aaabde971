//! An N-Queens solver by iterative repair: the queen with the most conflicts
//! is moved to the column where it has the fewest, and revisited boards are
//! perturbed at random to escape cycles.
pub mod board;
pub mod cost;
pub mod random;
pub mod render;

pub use board::{BoardError, NQueens, MIN_SIZE};
