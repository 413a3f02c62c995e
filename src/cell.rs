//! A single square of the maze: its coordinates, visited flag and four walls.
use vstd::prelude::*;

verus! {

/// One cell of the grid. Each wall flag is `true` while the wall stands.
#[derive(Debug, Clone, Copy, PartialEq, Eq, Structural)]
pub struct Cell {
    pub row: usize,
    pub col: usize,
    pub visited: bool,
    pub top: bool,
    pub bot: bool,
    pub left: bool,
    pub right: bool,
}

impl Cell {
    /// An unvisited cell at `(row, col)` with all four walls standing.
    pub open spec fn fresh_at(row: usize, col: usize) -> Cell {
        Cell { row, col, visited: false, top: true, bot: true, left: true, right: true }
    }

    /// Makes an unvisited cell at `(row, col)` with all four walls standing.
    pub fn new(row: usize, col: usize) -> (c: Cell)
        ensures
            c == Cell::fresh_at(row, col),
    {
        Cell { row, col, ..Default::default() }
    }
}

impl Default for Cell {
    fn default() -> (c: Cell)
        ensures
            c == Cell::fresh_at(0, 0),
    {
        Cell { row: 0, col: 0, visited: false, top: true, bot: true, left: true, right: true }
    }
}

} // verus!
