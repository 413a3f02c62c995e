//! The mathematical model of a grid: its state as plain values, the
//! invariants that every reachable state keeps, and one step of the traversal.
use vstd::prelude::*;
use crate::cell::Cell;
use crate::coords::{flat, in_bounds};
use crate::tree::{lemma_advance_carved, lemma_advance_tree};

verus! {

/// The cell one move away from `(row, col)` in direction `d`
/// (0 up, 1 down, 2 left, 3 right), when it lies inside the grid.
pub open spec fn toward(rows: int, cols: int, row: int, col: int, d: int) -> Option<int> {
    let r = if d == 0 { row - 1 } else if d == 1 { row + 1 } else { row };
    let c = if d == 2 { col - 1 } else if d == 3 { col + 1 } else { col };
    if in_bounds(r, c, rows, cols) {
        Some(flat(r, c, cols))
    } else {
        None
    }
}

/// The walls that come down between two adjacent cells `a` and `b`; the pair
/// is left as it is when the cells are not adjacent.
pub open spec fn carve(a: Cell, b: Cell) -> (Cell, Cell) {
    let dc = a.col as int - b.col as int;
    let dr = a.row as int - b.row as int;
    if dr == 0 && dc == 1 {
        (Cell { left: false, ..a }, Cell { right: false, ..b })
    } else if dr == 0 && dc == -1 {
        (Cell { right: false, ..a }, Cell { left: false, ..b })
    } else if dc == 0 && dr == 1 {
        (Cell { top: false, ..a }, Cell { bot: false, ..b })
    } else if dc == 0 && dr == -1 {
        (Cell { bot: false, ..a }, Cell { top: false, ..b })
    } else {
        (a, b)
    }
}

/// All four walls of the cell stand.
pub open spec fn walls_up(c: Cell) -> bool {
    c.top && c.bot && c.left && c.right
}

/// The sum of `f` over `0..k`.
pub open spec fn sum_to(f: spec_fn(int) -> nat, k: int) -> nat
    decreases k,
{
    if k <= 0 {
        0
    } else {
        sum_to(f, k - 1) + f(k - 1)
    }
}

/// A grid's state as plain values.
pub struct GridView {
    pub rows: int,
    pub cols: int,
    pub cells: Seq<Cell>,
    pub stack: Seq<usize>,
    pub current: int,
    pub next: Option<usize>,
    /// The cell each reached cell was first entered from.
    pub parent: Seq<int>,
    /// How many descents led from the start cell to each reached cell.
    pub depth: Seq<nat>,
    /// The cell the traversal started from.
    pub root: int,
}

impl GridView {
    /// Whether `i` indexes a cell of the grid.
    pub open spec fn valid(self, i: int) -> bool {
        0 <= i < self.cells.len()
    }

    /// The neighbour of cell `i` in direction `d`, if there is one.
    pub open spec fn neighbor(self, i: int, d: int) -> Option<int> {
        toward(self.rows, self.cols, self.cells[i].row as int, self.cells[i].col as int, d)
    }

    /// Whether cell `i` has an unvisited neighbour in direction `d`.
    pub open spec fn open_toward(self, i: int, d: int) -> bool {
        match self.neighbor(i, d) {
            Some(j) => !self.cells[j].visited,
            None => false,
        }
    }

    /// The neighbour of cell `i` in direction `d`, as a one-element list when
    /// it is unvisited, else the empty list.
    pub open spec fn open_in(self, i: int, d: int) -> Seq<usize> {
        if self.open_toward(i, d) {
            seq![self.neighbor(i, d).unwrap() as usize]
        } else {
            Seq::empty()
        }
    }

    /// The unvisited neighbours of cell `i`, in the order up, down, left, right.
    pub open spec fn open_neighbors(self, i: int) -> Seq<usize> {
        self.open_in(i, 0) + self.open_in(i, 1) + self.open_in(i, 2) + self.open_in(i, 3)
    }

    /// Every neighbour of cell `i` has been visited.
    pub open spec fn dead_end(self, i: int) -> bool {
        !self.open_toward(i, 0) && !self.open_toward(i, 1) && !self.open_toward(i, 2)
            && !self.open_toward(i, 3)
    }

    /// Whether `n` is an unvisited neighbour of cell `i`.
    pub open spec fn is_open_neighbor(self, i: int, n: int) -> bool {
        ||| self.open_toward(i, 0) && self.neighbor(i, 0) == Some(n)
        ||| self.open_toward(i, 1) && self.neighbor(i, 1) == Some(n)
        ||| self.open_toward(i, 2) && self.neighbor(i, 2) == Some(n)
        ||| self.open_toward(i, 3) && self.neighbor(i, 3) == Some(n)
    }

    /// Whether `drawn` is a possible outcome of drawing a neighbour of the
    /// current cell: `None` exactly when it has no unvisited neighbour.
    pub open spec fn drawable(self, drawn: Option<usize>) -> bool {
        match drawn {
            None => self.dead_end(self.current),
            Some(n) => self.is_open_neighbor(self.current, n as int),
        }
    }

    /// The traversal is over: nothing left to descend into or backtrack to.
    pub open spec fn is_complete(self) -> bool {
        &&& self.stack.len() == 0
        &&& self.cells[self.current].visited
        &&& self.dead_end(self.current)
    }

    /// Each cell knows its own coordinates, which map back to its index.
    pub open spec fn coords_ok(self) -> bool {
        forall|i: int|
            #![trigger self.cells[i]]
            self.valid(i) ==> {
                &&& self.cells[i].row < self.rows
                &&& self.cells[i].col < self.cols
                &&& flat(self.cells[i].row as int, self.cells[i].col as int, self.cols) == i
            }
    }

    /// The wall between two adjacent cells is down on both sides or on neither.
    pub open spec fn walls_symmetric(self) -> bool {
        &&& forall|i: int|
            #![trigger self.cells[i].right]
            self.valid(i) && self.cells[i].col + 1 < self.cols ==> self.cells[i].right
                == self.cells[i + 1].left
        &&& forall|i: int|
            #![trigger self.cells[i].bot]
            self.valid(i) && self.cells[i].row + 1 < self.rows ==> self.cells[i].bot
                == self.cells[i + self.cols].top
    }

    /// The outer border of the grid stays closed.
    pub open spec fn border_closed(self) -> bool {
        forall|i: int|
            #![trigger self.cells[i]]
            self.valid(i) ==> {
                &&& self.cells[i].row == 0 ==> self.cells[i].top
                &&& self.cells[i].row + 1 == self.rows ==> self.cells[i].bot
                &&& self.cells[i].col == 0 ==> self.cells[i].left
                &&& self.cells[i].col + 1 == self.cols ==> self.cells[i].right
            }
    }

    /// The backtracking stack holds visited cells of the grid.
    pub open spec fn stack_ok(self) -> bool {
        forall|k: int|
            0 <= k < self.stack.len() ==> {
                &&& self.valid(self.stack[k] as int)
                &&& self.cells[self.stack[k] as int].visited
            }
    }

    /// A visited cell that is neither current nor on the stack has no
    /// unvisited neighbour left.
    pub open spec fn frontier_ok(self) -> bool {
        forall|i: int|
            #![trigger self.dead_end(i)]
            self.valid(i) && self.cells[i].visited && i != self.current && !self.stack.contains(
                i as usize,
            ) ==> self.dead_end(i)
    }

    /// Whether the traversal has reached cell `i`: visited, or current.
    pub open spec fn reached(self, i: int) -> bool {
        self.cells[i].visited || i == self.current
    }

    /// A cell not reached yet still has all four walls.
    pub open spec fn unreached_walled(self) -> bool {
        forall|i: int|
            #![trigger self.cells[i]]
            self.valid(i) && !self.reached(i) ==> walls_up(self.cells[i])
    }

    /// Whether the wall between cells `a` and `b` has come down.
    pub open spec fn linked(self, a: int, b: int) -> bool {
        &&& self.valid(a)
        &&& self.valid(b)
        &&& self.linked_within(a, b)
    }

    /// The wall between `a` and `b` is down, read from the right or lower
    /// wall of whichever of the two comes first.
    pub open spec fn linked_within(self, a: int, b: int) -> bool {
        ||| b == a + 1 && self.cells[a].col + 1 < self.cols && !self.cells[a].right
        ||| a == b + 1 && self.cells[b].col + 1 < self.cols && !self.cells[b].right
        ||| b == a + self.cols && self.cells[a].row + 1 < self.rows && !self.cells[a].bot
        ||| a == b + self.cols && self.cells[b].row + 1 < self.rows && !self.cells[b].bot
    }

    /// A walk through cells of the grid that crosses removed walls only.
    pub open spec fn is_path(self, p: Seq<int>) -> bool {
        &&& p.len() >= 1
        &&& forall|k: int| 0 <= k < p.len() ==> self.valid(#[trigger] p[k])
        &&& forall|k: int| 0 <= k < p.len() - 1 ==> #[trigger] self.linked(p[k], p[k + 1])
    }

    /// Cells `a` and `b` are joined by a walk across removed walls.
    pub open spec fn connected(self, a: int, b: int) -> bool {
        exists|p: Seq<int>| self.is_path(p) && p[0] == a && p.last() == b
    }

    /// Any two reached cells are joined across removed walls.
    pub open spec fn reached_connected(self) -> bool {
        forall|a: int, b: int|
            #![trigger self.connected(a, b)]
            self.valid(a) && self.valid(b) && self.reached(a) && self.reached(b)
                ==> self.connected(a, b)
    }

    /// How many walls of cell `i` toward its right and lower neighbours are down.
    pub open spec fn removed_at(self, i: int) -> nat {
        (if self.cells[i].col + 1 < self.cols && !self.cells[i].right {
            1nat
        } else {
            0nat
        }) + (if self.cells[i].row + 1 < self.rows && !self.cells[i].bot {
            1nat
        } else {
            0nat
        })
    }

    /// The number of walls between adjacent cells that have come down.
    pub open spec fn removed_walls(self) -> nat {
        sum_to(|i: int| self.removed_at(i), self.cells.len() as int)
    }

    /// The number of cells the traversal has reached.
    pub open spec fn reached_cells(self) -> nat {
        sum_to(
            |i: int|
                if self.reached(i) {
                    1nat
                } else {
                    0nat
                },
            self.cells.len() as int,
        )
    }

    /// The removed walls form a tree over the reached cells: they join them
    /// all, one wall fewer than there are cells, and touch no other cell.
    pub open spec fn carved_ok(self) -> bool {
        &&& self.unreached_walled()
        &&& self.removed_walls() + 1 == self.reached_cells()
        &&& self.reached_connected()
    }

    /// The removed walls are the links of a tree rooted at the start cell:
    /// each reached cell but the root is linked to its parent, one level
    /// shallower, and every removed wall is such a link between reached cells.
    pub open spec fn tree_ok(self) -> bool {
        &&& self.parent.len() == self.cells.len()
        &&& self.depth.len() == self.cells.len()
        &&& self.valid(self.root)
        &&& self.reached(self.root)
        &&& self.depth[self.root] == 0
        &&& forall|v: int|
            #![trigger self.parent[v]]
            self.valid(v) && self.reached(v) && v != self.root ==> {
                &&& self.valid(self.parent[v])
                &&& self.reached(self.parent[v])
                &&& self.linked(v, self.parent[v])
                &&& self.depth[self.parent[v]] + 1 == self.depth[v]
            }
        &&& forall|a: int, b: int|
            #![trigger self.linked(a, b)]
            self.linked(a, b) ==> {
                &&& self.reached(a)
                &&& self.reached(b)
                &&& (a != self.root && self.parent[a] == b) || (b != self.root && self.parent[b]
                    == a)
            }
    }

    /// A walk of at least three distinct cells across removed walls that
    /// returns to its first cell through one more removed wall.
    pub open spec fn is_cycle(self, p: Seq<int>) -> bool {
        &&& p.len() >= 3
        &&& self.is_path(p)
        &&& self.linked(p.last(), p[0])
        &&& forall|i: int, j: int| 0 <= i < j < p.len() ==> p[i] != p[j]
    }

    /// The invariant of every state that construction and stepping reach.
    pub open spec fn wf(self) -> bool {
        &&& self.rows >= 1
        &&& self.cols >= 1
        &&& self.rows * self.cols <= isize::MAX
        &&& self.cells.len() == self.rows * self.cols
        &&& self.valid(self.current)
        &&& self.coords_ok()
        &&& self.walls_symmetric()
        &&& self.border_closed()
        &&& self.stack_ok()
        &&& self.frontier_ok()
        &&& (self.next matches Some(n) ==> n == self.current)
        &&& self.carved_ok()
        &&& self.tree_ok()
    }

    /// The state after one step, given the neighbour that was drawn.
    pub open spec fn advance(self, drawn: Option<usize>) -> GridView {
        let c = self.current;
        let marked = self.cells.update(c, Cell { visited: true, ..self.cells[c] });
        match drawn {
            Some(n) => {
                let pair = carve(marked[c], marked[n as int]);
                GridView {
                    rows: self.rows,
                    cols: self.cols,
                    cells: marked.update(c, pair.0).update(n as int, pair.1),
                    stack: self.stack.push(c as usize),
                    current: n as int,
                    next: Some(n),
                    parent: self.parent.update(n as int, c),
                    depth: self.depth.update(n as int, self.depth[c] + 1),
                    root: self.root,
                }
            },
            None => {
                if self.stack.len() > 0 {
                    GridView {
                        rows: self.rows,
                        cols: self.cols,
                        cells: marked,
                        stack: self.stack.drop_last(),
                        current: self.stack.last() as int,
                        next: None,
                        parent: self.parent,
                        depth: self.depth,
                        root: self.root,
                    }
                } else {
                    GridView {
                        rows: self.rows,
                        cols: self.cols,
                        cells: marked,
                        stack: self.stack,
                        current: c,
                        next: None,
                        parent: self.parent,
                        depth: self.depth,
                        root: self.root,
                    }
                }
            },
        }
    }
}

/// Within a row of `cols` cells, the flat offset determines the coordinates.
pub proof fn lemma_flat_unique(r1: int, c1: int, r2: int, c2: int, cols: int)
    requires
        0 <= r1,
        0 <= r2,
        0 <= c1 < cols,
        0 <= c2 < cols,
        flat(r1, c1, cols) == flat(r2, c2, cols),
    ensures
        r1 == r2,
        c1 == c2,
{
    if r1 < r2 {
        assert(r1 * cols + c1 < r2 * cols + c2) by (nonlinear_arith)
            requires r1 < r2, 0 <= c1 < cols, 0 <= c2;
    } else if r2 < r1 {
        assert(r2 * cols + c2 < r1 * cols + c1) by (nonlinear_arith)
            requires r2 < r1, 0 <= c2 < cols, 0 <= c1;
    }
}

/// In a well-formed grid, the cell at the flat offset of `(r, c)` has
/// coordinates `(r, c)`.
pub proof fn lemma_cell_at(g: GridView, r: int, c: int)
    requires
        g.cells.len() == g.rows * g.cols,
        g.coords_ok(),
        in_bounds(r, c, g.rows, g.cols),
    ensures
        g.valid(flat(r, c, g.cols)),
        g.cells[flat(r, c, g.cols)].row == r,
        g.cells[flat(r, c, g.cols)].col == c,
{
    let f = flat(r, c, g.cols);
    assert(0 <= r * g.cols + c < g.rows * g.cols) by (nonlinear_arith)
        requires 0 <= r < g.rows, 0 <= c < g.cols;
    let cell = g.cells[f];
    lemma_flat_unique(cell.row as int, cell.col as int, r, c, g.cols);
}


/// In a well-formed grid, the four neighbours of cell `i` sit at the offsets
/// `i - cols`, `i + cols`, `i - 1` and `i + 1`, whenever they exist.
pub proof fn lemma_neighbors_of(g: GridView, i: int)
    requires
        g.cells.len() == g.rows * g.cols,
        g.coords_ok(),
        g.valid(i),
    ensures
        ({
            let r = g.cells[i].row as int;
            let c = g.cells[i].col as int;
            &&& r > 0 ==> g.valid(i - g.cols) && g.cells[i - g.cols].row == r - 1
                && g.cells[i - g.cols].col == c && g.neighbor(i, 0) == Some(i - g.cols)
            &&& r + 1 < g.rows ==> g.valid(i + g.cols) && g.cells[i + g.cols].row == r + 1
                && g.cells[i + g.cols].col == c && g.neighbor(i, 1) == Some(i + g.cols)
            &&& c > 0 ==> g.valid(i - 1) && g.cells[i - 1].row == r && g.cells[i - 1].col == c
                - 1 && g.neighbor(i, 2) == Some(i - 1)
            &&& c + 1 < g.cols ==> g.valid(i + 1) && g.cells[i + 1].row == r && g.cells[i
                + 1].col == c + 1 && g.neighbor(i, 3) == Some(i + 1)
            &&& r == 0 ==> g.neighbor(i, 0) is None
            &&& r + 1 == g.rows ==> g.neighbor(i, 1) is None
            &&& c == 0 ==> g.neighbor(i, 2) is None
            &&& c + 1 == g.cols ==> g.neighbor(i, 3) is None
        }),
{
    let r = g.cells[i].row as int;
    let c = g.cells[i].col as int;
    assert(flat(r, c, g.cols) == i);
    if r > 0 {
        lemma_cell_at(g, r - 1, c);
        assert(flat(r - 1, c, g.cols) == i - g.cols) by (nonlinear_arith)
            requires flat(r, c, g.cols) == i;
    }
    if r + 1 < g.rows {
        lemma_cell_at(g, r + 1, c);
        assert(flat(r + 1, c, g.cols) == i + g.cols) by (nonlinear_arith)
            requires flat(r, c, g.cols) == i;
    }
    if c > 0 {
        lemma_cell_at(g, r, c - 1);
    }
    if c + 1 < g.cols {
        lemma_cell_at(g, r, c + 1);
    }
}


/// The list of unvisited neighbours is empty exactly at a dead end, and holds
/// unvisited neighbours only.
pub proof fn lemma_open_neighbors(g: GridView, i: int)
    requires
        g.wf(),
        g.valid(i),
    ensures
        g.open_neighbors(i).len() == 0 <==> g.dead_end(i),
        forall|k: int|
            0 <= k < g.open_neighbors(i).len() ==> g.is_open_neighbor(
                i,
                g.open_neighbors(i)[k] as int,
            ),
{
    lemma_neighbors_of(g, i);
    let a = g.open_in(i, 0);
    let b = g.open_in(i, 1);
    let c = g.open_in(i, 2);
    let d = g.open_in(i, 3);
    let s = g.open_neighbors(i);
    assert(s == a + b + c + d);
    assert forall|k: int| 0 <= k < s.len() implies g.is_open_neighbor(i, s[k] as int) by {
        if k < a.len() {
            assert(s[k] == a[k]);
        } else if k < a.len() + b.len() {
            assert(s[k] == b[k - a.len()]);
        } else if k < a.len() + b.len() + c.len() {
            assert(s[k] == c[k - a.len() - b.len()]);
        } else {
            assert(s[k] == d[k - a.len() - b.len() - c.len()]);
        }
    }
}

/// One step keeps every cell's coordinates, only ever sets `visited`, and
/// sets it on the current cell alone.
pub proof fn lemma_advance_frame(g: GridView, drawn: Option<usize>)
    requires
        g.wf(),
        g.drawable(drawn),
    ensures
        ({
            let h = g.advance(drawn);
            &&& h.rows == g.rows
            &&& h.cols == g.cols
            &&& h.cells.len() == g.cells.len()
            &&& forall|j: int|
                #![trigger h.cells[j]]
                g.valid(j) ==> {
                    &&& h.cells[j].row == g.cells[j].row
                    &&& h.cells[j].col == g.cells[j].col
                    &&& h.cells[j].visited == (g.cells[j].visited || j == g.current)
                }
            &&& forall|j: int, d: int| #![trigger h.neighbor(j, d)] g.valid(j) ==> h.neighbor(j, d) == g.neighbor(j, d)
            &&& forall|j: int|
                #![trigger h.cells[j]]
                g.valid(j) ==> {
                    &&& !g.cells[j].top ==> !h.cells[j].top
                    &&& !g.cells[j].bot ==> !h.cells[j].bot
                    &&& !g.cells[j].left ==> !h.cells[j].left
                    &&& !g.cells[j].right ==> !h.cells[j].right
                }
        }),
{
    let h = g.advance(drawn);
    lemma_neighbors_of(g, g.current);
    if let Some(n) = drawn {
        assert(g.valid(n as int));
    }
    assert forall|j: int, d: int| #![trigger h.neighbor(j, d)] g.valid(j) implies h.neighbor(j, d) == g.neighbor(j, d) by {
        assert(h.cells[j].row == g.cells[j].row);
        assert(h.cells[j].col == g.cells[j].col);
    }
}

proof fn lemma_advance_walls(g: GridView, drawn: Option<usize>)
    requires
        g.wf(),
        g.drawable(drawn),
    ensures
        g.advance(drawn).walls_symmetric(),
{
    let h = g.advance(drawn);
    lemma_advance_frame(g, drawn);
    lemma_neighbors_of(g, g.current);
    assert forall|i: int| h.valid(i) implies {
        &&& h.cells[i].col + 1 < h.cols ==> h.cells[i].right == h.cells[i + 1].left
        &&& h.cells[i].row + 1 < h.rows ==> h.cells[i].bot == h.cells[i + h.cols].top
    } by {
        lemma_neighbors_of(g, i);
    }
}

proof fn lemma_advance_border(g: GridView, drawn: Option<usize>)
    requires
        g.wf(),
        g.drawable(drawn),
    ensures
        g.advance(drawn).border_closed(),
{
    lemma_advance_frame(g, drawn);
    lemma_neighbors_of(g, g.current);
}

proof fn lemma_advance_stack(g: GridView, drawn: Option<usize>)
    requires
        g.wf(),
        g.drawable(drawn),
    ensures
        g.advance(drawn).stack_ok(),
{
    let h = g.advance(drawn);
    lemma_advance_frame(g, drawn);
    lemma_neighbors_of(g, g.current);
    assert forall|k: int| 0 <= k < h.stack.len() implies {
        &&& h.valid(h.stack[k] as int)
        &&& h.cells[h.stack[k] as int].visited
    } by {
        if drawn is None {
            assert(h.stack[k] == g.stack[k]);
        } else if k < g.stack.len() {
            assert(h.stack[k] == g.stack[k]);
        }
    }
}

proof fn lemma_advance_frontier(g: GridView, drawn: Option<usize>)
    requires
        g.wf(),
        g.drawable(drawn),
    ensures
        g.advance(drawn).frontier_ok(),
{
    let h = g.advance(drawn);
    let c = g.current;
    lemma_advance_frame(g, drawn);
    lemma_neighbors_of(g, c);
    assert forall|i: int|
        #![trigger h.dead_end(i)]
        h.valid(i) && h.cells[i].visited && i != h.current && !h.stack.contains(i as usize)
            implies h.dead_end(i) by {
        if i != c {
            if g.stack.contains(i as usize) {
                let k = choose|k: int| 0 <= k < g.stack.len() && g.stack[k] == i as usize;
                if drawn is Some {
                    assert(h.stack[k] == i as usize);
                } else {
                    assert(g.stack.len() > 0);
                    if k < g.stack.len() - 1 {
                        assert(h.stack[k] == i as usize);
                    }
                }
            }
            assert(g.dead_end(i));
        } else if drawn is Some {
            assert(h.stack[g.stack.len() as int] == c as usize);
        }
        assert(h.neighbor(i, 0) == g.neighbor(i, 0));
        assert(h.neighbor(i, 1) == g.neighbor(i, 1));
        assert(h.neighbor(i, 2) == g.neighbor(i, 2));
        assert(h.neighbor(i, 3) == g.neighbor(i, 3));
        lemma_neighbors_of(g, i);
    }
}

/// One step from a well-formed state, with a drawable neighbour, reaches a
/// well-formed state; in particular the walls stay symmetric.
pub proof fn lemma_advance_wf(g: GridView, drawn: Option<usize>)
    requires
        g.wf(),
        g.drawable(drawn),
    ensures
        g.advance(drawn).wf(),
{
    let h = g.advance(drawn);
    lemma_advance_frame(g, drawn);
    lemma_neighbors_of(g, g.current);
    lemma_advance_walls(g, drawn);
    lemma_advance_border(g, drawn);
    lemma_advance_stack(g, drawn);
    lemma_advance_frontier(g, drawn);
    lemma_advance_carved(g, drawn);
    lemma_advance_tree(g, drawn);
    assert(h.coords_ok());
    if drawn is None && g.stack.len() > 0 {
        assert(g.stack[g.stack.len() - 1] == g.stack.last());
    }
}

} // verus!
