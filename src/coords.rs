//! Mapping between grid coordinates and flat cell indices.
use vstd::arithmetic::div_mod::lemma_fundamental_div_mod_converse;
use vstd::prelude::*;

verus! {

/// The flat offset of `(row, col)` in a grid with `cols` columns (row-major).
pub open spec fn flat(row: int, col: int, cols: int) -> int {
    row * cols + col
}

/// Whether `(row, col)` lies inside a `rows` by `cols` grid.
pub open spec fn in_bounds(row: int, col: int, rows: int, cols: int) -> bool {
    0 <= row < rows && 0 <= col < cols
}

/// The flat index of `(row, col)` in a `rows` by `cols` grid, or `None` when
/// the coordinates fall outside it.
pub fn index(row: isize, col: isize, rows: usize, cols: usize) -> (r: Option<usize>)
    requires
        rows * cols <= usize::MAX,
    ensures
        r == (if in_bounds(row as int, col as int, rows as int, cols as int) {
            Some(flat(row as int, col as int, cols as int) as usize)
        } else {
            None::<usize>
        }),
{
    if row < 0 || col < 0 {
        return None;
    }
    let r = row as usize;
    let c = col as usize;
    if r >= rows || c >= cols {
        return None;
    }
    proof {
        assert(r * cols + c < rows * cols) by (nonlinear_arith)
            requires r < rows, c < cols;
    }
    Some(r * cols + c)
}


/// Inside the grid, the flat offset of `(row, col)` lies in `0..rows * cols`
/// and maps back to its coordinates: the row by division by `cols`, the
/// column by the remainder. So distinct coordinates get distinct offsets.
pub proof fn lemma_flat_round_trip(row: int, col: int, rows: int, cols: int)
    requires
        in_bounds(row, col, rows, cols),
    ensures
        0 <= flat(row, col, cols) < rows * cols,
        flat(row, col, cols) / cols == row,
        flat(row, col, cols) % cols == col,
{
    assert(0 <= row * cols + col < rows * cols) by (nonlinear_arith)
        requires 0 <= row < rows, 0 <= col < cols;
    lemma_fundamental_div_mod_converse(flat(row, col, cols), cols, row, col);
}

} // verus!
