//! Step-wise generation of perfect mazes on a rectangular grid by a
//! randomized depth-first traversal with an explicit backtracking stack.
pub mod cell;
pub mod completion;
pub mod coords;
pub mod grid;
pub mod model;
pub mod tree;
mod random;

pub use cell::Cell;
pub use coords::index;
pub use grid::{Grid, GridError};

