//! The grid and the step-wise randomized depth-first traversal that carves it.
use vstd::prelude::*;
use crate::cell::Cell;
use crate::coords::{flat, index};
use crate::completion::{
    lemma_complete_spanning_tree, lemma_complete_visits_all, lemma_step_progress, progress,
};
use crate::model::{
    carve, lemma_advance_frame, lemma_advance_wf, lemma_neighbors_of, lemma_open_neighbors, GridView,
};
use crate::random::{draw_below, fresh_rng, seeded_rng};
use crate::tree::lemma_fresh_carved;

verus! {

/// A cell index of the model as an executable index.
spec fn as_index(o: Option<int>) -> Option<usize> {
    match o {
        Some(j) => Some(j as usize),
        None => None,
    }
}

/// The two cells with the wall between them taken down on both sides, when
/// they are adjacent; otherwise the two cells unchanged.
fn carve_pair(a: Cell, b: Cell) -> (r: (Cell, Cell))
    ensures
        r == carve(a, b),
{
    let mut a = a;
    let mut b = b;
    if a.row == b.row {
        if a.col > b.col && a.col - b.col == 1 {
            a.left = false;
            b.right = false;
        } else if b.col > a.col && b.col - a.col == 1 {
            a.right = false;
            b.left = false;
        }
    } else if a.col == b.col {
        if a.row > b.row && a.row - b.row == 1 {
            a.top = false;
            b.bot = false;
        } else if b.row > a.row && b.row - a.row == 1 {
            a.bot = false;
            b.top = false;
        }
    }
    (a, b)
}

/// Why a grid cannot be built.
#[derive(Debug, Clone, Copy, PartialEq, Eq, Structural)]
pub enum GridError {
    /// The grid would have no rows or no columns.
    EmptyDimension,
}

/// A rectangular maze under construction: its cells, the backtracking stack
/// and the cursor of the traversal.
pub struct Grid {
    rows: usize,
    cols: usize,
    cells: Vec<Cell>,
    stack: Vec<usize>,
    current: usize,
    next: Option<usize>,
    seed: Option<u64>,
    rng: fastrand::Rng,
    parent: Ghost<Seq<int>>,
    depth: Ghost<Seq<nat>>,
    root: Ghost<int>,
}

impl View for Grid {
    type V = GridView;

    closed spec fn view(&self) -> GridView {
        GridView {
            rows: self.rows as int,
            cols: self.cols as int,
            cells: self.cells@,
            stack: self.stack@,
            current: self.current as int,
            next: self.next,
            parent: self.parent@,
            depth: self.depth@,
            root: self.root@,
        }
    }
}

impl Grid {
    /// The grid's state keeps the invariant of the traversal.
    pub open spec fn wf(&self) -> bool {
        self@.wf()
    }

    /// The seed this grid was built with, if any.
    pub closed spec fn seed_spec(&self) -> Option<u64> {
        self.seed
    }

    /// Builds an all-walled, unvisited `rows` by `cols` grid whose traversal
    /// starts at a random cell, drawn from a generator seeded with `seed`
    /// when one is given.
    pub fn new(rows: usize, cols: usize, seed: Option<u64>) -> (r: Result<Grid, GridError>)
        requires
            rows * cols <= isize::MAX,
        ensures
            r is Err <==> rows == 0 || cols == 0,
            r matches Err(e) ==> e == GridError::EmptyDimension,
            r matches Ok(g) ==> {
                &&& g.wf()
                &&& g@.rows == rows
                &&& g@.cols == cols
                &&& g@.stack.len() == 0
                &&& g@.next is None
                &&& g.seed_spec() == seed
                &&& forall|i: int|
                    #![trigger g@.cells[i]]
                    g@.valid(i) ==> g@.cells[i] == Cell::fresh_at(g@.cells[i].row, g@.cells[i].col)
            },
    {
        if rows == 0 || cols == 0 {
            return Err(GridError::EmptyDimension);
        }
        let mut cells: Vec<Cell> = Vec::new();
        let mut row: usize = 0;
        while row < rows
            invariant
                1 <= cols,
                row <= rows,
                rows * cols <= isize::MAX,
                cells@.len() == row * cols,
                forall|i: int|
                    #![trigger cells@[i]]
                    0 <= i < cells@.len() ==> {
                        &&& cells@[i] == Cell::fresh_at(cells@[i].row, cells@[i].col)
                        &&& cells@[i].row < row
                        &&& cells@[i].col < cols
                        &&& flat(cells@[i].row as int, cells@[i].col as int, cols as int) == i
                    },
            decreases rows - row,
        {
            proof {
                assert((row + 1) * cols <= rows * cols) by (nonlinear_arith)
                    requires row < rows;
                assert((row + 1) * cols == row * cols + cols) by (nonlinear_arith);
            }
            let mut col: usize = 0;
            while col < cols
                invariant
                    row < rows,
                    col <= cols,
                    (row + 1) * cols <= rows * cols,
                    rows * cols <= isize::MAX,
                    cells@.len() == row * cols + col,
                    forall|i: int|
                        #![trigger cells@[i]]
                        0 <= i < cells@.len() ==> {
                            &&& cells@[i] == Cell::fresh_at(cells@[i].row, cells@[i].col)
                            &&& cells@[i].row <= row
                            &&& cells@[i].col < cols
                            &&& flat(cells@[i].row as int, cells@[i].col as int, cols as int)
                                == i
                        },
                decreases cols - col,
            {
                cells.push(Cell::new(row, col));
                col = col + 1;
            }
            row = row + 1;
        }
        let mut rng = match seed {
            Some(s) => seeded_rng(s),
            None => fresh_rng(),
        };
        proof {
            assert(rows * cols > 0) by (nonlinear_arith)
                requires rows > 0, cols > 0;
        }
        let current = draw_below(&mut rng, rows * cols);
        let ghost len = (rows * cols) as nat;
        let g = Grid {
            rows,
            cols,
            cells,
            stack: Vec::new(),
            current,
            next: None,
            seed,
            rng,
            parent: Ghost(Seq::new(len, |i: int| i)),
            depth: Ghost(Seq::new(len, |i: int| 0nat)),
            root: Ghost(current as int),
        };
        assert(g@.coords_ok());
        assert forall|i: int| g@.valid(i) implies {
            &&& g@.cells[i].col + 1 < g@.cols ==> g@.cells[i].right == g@.cells[i + 1].left
            &&& g@.cells[i].row + 1 < g@.rows ==> g@.cells[i].bot == g@.cells[i + g@.cols].top
        } by {
            lemma_neighbors_of(g@, i);
        }
        assert(g@.walls_symmetric());
        assert(g@.frontier_ok());
        proof {
            lemma_fresh_carved(g@);
        }
        Ok(g)
    }

    /// Builds a fresh grid of the same size, with the same seed policy.
    pub fn reset(&mut self)
        requires
            old(self).wf(),
        ensures
            final(self).wf(),
            final(self)@.rows == old(self)@.rows,
            final(self)@.cols == old(self)@.cols,
            final(self)@.stack.len() == 0,
            final(self)@.next is None,
            final(self).seed_spec() == old(self).seed_spec(),
            forall|i: int|
                #![trigger final(self)@.cells[i]]
                final(self)@.valid(i) ==> final(self)@.cells[i] == Cell::fresh_at(
                    final(self)@.cells[i].row,
                    final(self)@.cells[i].col,
                ),
    {
        match Grid::new(self.rows, self.cols, self.seed) {
            Ok(g) => {
                *self = g;
            },
            Err(_) => {},
        }
    }

    /// Appends `cand` to `v` when it names an unvisited cell.
    fn push_if_open(&self, v: &mut Vec<usize>, cand: Option<usize>)
        requires
            cand matches Some(j) ==> j < self.cells@.len(),
        ensures
            final(v)@ == old(v)@ + (match cand {
                Some(j) => if !self@.cells[j as int].visited {
                    seq![j]
                } else {
                    Seq::<usize>::empty()
                },
                None => Seq::<usize>::empty(),
            }),
    {
        if let Some(j) = cand {
            if !self.cells[j].visited {
                v.push(j);
                return;
            }
        }
        assert(v@ =~= old(v)@ + Seq::<usize>::empty());
    }

    /// The unvisited neighbours of the current cell, in the order up, down,
    /// left, right.
    pub fn unvisited_neighbors(&self) -> (r: Vec<usize>)
        requires
            self.wf(),
        ensures
            r@ == self@.open_neighbors(self@.current),
    {
        let ghost g = self@;
        let cur = self.current;
        proof {
            lemma_neighbors_of(g, cur as int);
            assert(self.rows <= self.rows * self.cols) by (nonlinear_arith)
                requires self.cols >= 1;
            assert(self.cols <= self.rows * self.cols) by (nonlinear_arith)
                requires self.rows >= 1;
        }
        let row = self.cells[cur].row as isize;
        let col = self.cells[cur].col as isize;
        let mut v: Vec<usize> = Vec::new();
        let up = index(row - 1, col, self.rows, self.cols);
        assert(up == as_index(g.neighbor(cur as int, 0)));
        self.push_if_open(&mut v, up);
        assert(v@ =~= g.open_in(cur as int, 0));
        let down = index(row + 1, col, self.rows, self.cols);
        assert(down == as_index(g.neighbor(cur as int, 1)));
        self.push_if_open(&mut v, down);
        assert(v@ =~= g.open_in(cur as int, 0) + g.open_in(cur as int, 1));
        let left = index(row, col - 1, self.rows, self.cols);
        assert(left == as_index(g.neighbor(cur as int, 2)));
        self.push_if_open(&mut v, left);
        assert(v@ =~= g.open_in(cur as int, 0) + g.open_in(cur as int, 1) + g.open_in(
            cur as int,
            2,
        ));
        let right = index(row, col + 1, self.rows, self.cols);
        assert(right == as_index(g.neighbor(cur as int, 3)));
        self.push_if_open(&mut v, right);
        assert(v@ =~= g.open_neighbors(cur as int));
        v
    }

    /// Draws one of the unvisited neighbours of the current cell uniformly,
    /// or `None` when there is none. Only the generator changes.
    pub fn get_random_neighbor(&mut self) -> (r: Option<usize>)
        requires
            old(self).wf(),
        ensures
            final(self)@ == old(self)@,
            final(self).seed_spec() == old(self).seed_spec(),
            old(self)@.drawable(r),
            r is None <==> old(self)@.dead_end(old(self)@.current),
            r matches Some(n) ==> n < old(self)@.cells.len() && !old(self)@.cells[n as int].visited,
    {
        let candidates = self.unvisited_neighbors();
        proof {
            lemma_open_neighbors(self@, self.current as int);
            lemma_neighbors_of(self@, self.current as int);
        }
        if candidates.len() == 0 {
            return None;
        }
        let k = draw_below(&mut self.rng, candidates.len());
        Some(candidates[k])
    }

    /// Takes down the wall between the current cell and `next`, on both sides;
    /// leaves the cells as they are when the two are not adjacent.
    fn remove_wall(&mut self, next: usize)
        requires
            old(self).current < old(self).cells@.len(),
            next < old(self).cells@.len(),
        ensures
            ({
                let c = old(self).current as int;
                let pair = carve(old(self).cells@[c], old(self).cells@[next as int]);
                final(self).cells@ == old(self).cells@.update(c, pair.0).update(next as int, pair.1)
            }),
            final(self).rows == old(self).rows,
            final(self).cols == old(self).cols,
            final(self).stack == old(self).stack,
            final(self).current == old(self).current,
            final(self).next == old(self).next,
            final(self).seed == old(self).seed,
            final(self).parent == old(self).parent,
            final(self).depth == old(self).depth,
            final(self).root == old(self).root,
    {
        let cur = self.current;
        let (a, b) = carve_pair(self.cells[cur], self.cells[next]);
        self.cells[cur] = a;
        self.cells[next] = b;
    }

    /// Advances the traversal by one unit, given the neighbour drawn for the
    /// current cell: marks the current cell visited, then descends into
    /// `drawn` through a carved wall, or else backtracks to the cell on top
    /// of the stack; with an empty stack the state stays where it is.
    pub fn step_with(&mut self, drawn: Option<usize>)
        requires
            old(self).wf(),
            old(self)@.drawable(drawn),
        ensures
            final(self).wf(),
            final(self)@ == old(self)@.advance(drawn),
            final(self).seed_spec() == old(self).seed_spec(),
    {
        proof {
            lemma_advance_wf(self@, drawn);
            lemma_advance_frame(self@, drawn);
            lemma_neighbors_of(self@, self.current as int);
        }
        let cur = self.current;
        self.cells[cur].visited = true;
        self.next = drawn;
        match drawn {
            Some(n) => {
                self.stack.push(cur);
                self.remove_wall(n);
                self.current = n;
                self.parent = Ghost(self.parent@.update(n as int, cur as int));
                self.depth = Ghost(self.depth@.update(n as int, self.depth@[cur as int] + 1));
            },
            None => {
                if let Some(top) = self.stack.pop() {
                    self.current = top;
                }
            },
        }
        assert(self@ == old(self)@.advance(drawn));
    }

    /// Advances the traversal by one unit, drawing the next cell at random
    /// among the unvisited neighbours of the current one.
    pub fn step(&mut self)
        requires
            old(self).wf(),
        ensures
            final(self).wf(),
            final(self)@.walls_symmetric(),
            old(self)@.drawable(final(self)@.next),
            final(self)@ == old(self)@.advance(final(self)@.next),
            final(self).seed_spec() == old(self).seed_spec(),
            forall|j: int|
                #![trigger final(self)@.cells[j]]
                old(self)@.valid(j) ==> final(self)@.cells[j].visited == (old(self)@.cells[j].visited
                    || j == old(self)@.current),
    {
        let drawn = self.get_random_neighbor();
        self.step_with(drawn);
        proof {
            lemma_advance_frame(old(self)@, drawn);
        }
    }

    /// Whether the traversal is over: the stack is empty and the current
    /// cell is visited with no unvisited neighbour.
    pub fn is_complete(&self) -> (r: bool)
        requires
            self.wf(),
        ensures
            r == self@.is_complete(),
    {
        if self.stack.len() != 0 || !self.cells[self.current].visited {
            return false;
        }
        let open = self.unvisited_neighbors();
        proof {
            lemma_open_neighbors(self@, self.current as int);
        }
        open.len() == 0
    }

    /// Steps until the traversal is complete. Every cell has then been
    /// visited, and the removed walls form a spanning tree of the grid.
    pub fn run_to_completion(&mut self)
        requires
            old(self).wf(),
        ensures
            final(self).wf(),
            final(self)@.is_complete(),
            forall|i: int|
                #![trigger final(self)@.cells[i]]
                final(self)@.valid(i) ==> final(self)@.cells[i].visited,
            final(self)@.removed_walls() == final(self)@.rows * final(self)@.cols - 1,
            forall|a: int, b: int|
                #![trigger final(self)@.connected(a, b)]
                final(self)@.valid(a) && final(self)@.valid(b) ==> final(self)@.connected(a, b),
            forall|p: Seq<int>| !#[trigger] final(self)@.is_cycle(p),
            final(self)@.rows == old(self)@.rows,
            final(self)@.cols == old(self)@.cols,
            final(self).seed_spec() == old(self).seed_spec(),
    {
        while !self.is_complete()
            invariant
                self.wf(),
                self@.rows == old(self)@.rows,
                self@.cols == old(self)@.cols,
                self.seed_spec() == old(self).seed_spec(),
            decreases progress(self@),
        {
            let ghost before = self@;
            self.step();
            proof {
                lemma_step_progress(before, self@.next);
            }
        }
        proof {
            lemma_complete_visits_all(self@);
            lemma_complete_spanning_tree(self@);
        }
    }

    /// Number of rows.
    pub fn rows(&self) -> (r: usize)
        ensures
            r == self@.rows,
    {
        self.rows
    }

    /// Number of columns.
    pub fn cols(&self) -> (r: usize)
        ensures
            r == self@.cols,
    {
        self.cols
    }

    /// All cells, in row-major order.
    pub fn cells(&self) -> (r: &Vec<Cell>)
        ensures
            r@ == self@.cells,
    {
        &self.cells
    }

    /// Index of the cell being processed.
    pub fn current(&self) -> (r: usize)
        ensures
            r == self@.current,
    {
        self.current
    }

    /// The cell chosen by the last step, if it descended.
    pub fn next(&self) -> (r: Option<usize>)
        ensures
            r == self@.next,
    {
        self.next
    }

    /// The backtracking stack, bottom first.
    pub fn stack(&self) -> (r: &Vec<usize>)
        ensures
            r@ == self@.stack,
    {
        &self.stack
    }
}

} // verus!
