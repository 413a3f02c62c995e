//! What holds of the traversal as a whole: it always makes progress, it ends,
//! and when it ends every cell has been visited and the openings form a
//! spanning tree.
use vstd::prelude::*;
use crate::coords::{flat, in_bounds};
use crate::model::{lemma_advance_frame, lemma_cell_at, lemma_neighbors_of, sum_to, GridView};
use crate::tree::{lemma_no_cycle, lemma_sum_ones};

verus! {

/// Whether cell `i` is still waiting to be entered: unvisited and not current.
pub open spec fn pending_at(g: GridView, i: int) -> bool {
    !g.cells[i].visited && i != g.current
}

/// The number of waiting cells among the first `k`.
pub open spec fn count_pending(g: GridView, k: int) -> nat
    decreases k,
{
    if k <= 0 {
        0
    } else {
        count_pending(g, k - 1) + if pending_at(g, k - 1) {
            1nat
        } else {
            0nat
        }
    }
}

/// One until the traversal is complete, then zero.
#[verifier::opaque]
pub open spec fn unfinished(g: GridView) -> nat {
    if g.is_complete() {
        0nat
    } else {
        1nat
    }
}

/// A measure that every step from an unfinished state decreases.
pub open spec fn progress(g: GridView) -> nat {
    2 * count_pending(g, g.cells.len() as int) + g.stack.len() + unfinished(g)
}

/// Two states that agree on which of the first `k` cells are waiting, except
/// that cell `m` waits in `g` only, count one waiting cell less in `h`.
proof fn lemma_count_one_less(g: GridView, h: GridView, k: int, m: Option<int>)
    requires
        forall|i: int| 0 <= i < k && Some(i) != m ==> pending_at(g, i) == pending_at(h, i),
        m matches Some(j) ==> pending_at(g, j) && !pending_at(h, j),
    ensures
        count_pending(h, k) + (if m matches Some(j) && 0 <= j < k {
            1int
        } else {
            0int
        }) == count_pending(g, k),
    decreases k,
{
    if k > 0 {
        lemma_count_one_less(g, h, k - 1, m);
    }
}

/// A step changes the number of waiting cells only by the drawn cell, which
/// stops waiting once it becomes current.
proof fn lemma_step_pending(g: GridView, drawn: Option<usize>)
    requires
        g.wf(),
        g.drawable(drawn),
    ensures
        count_pending(g.advance(drawn), g.cells.len() as int) + (if drawn is Some {
            1int
        } else {
            0int
        }) == count_pending(g, g.cells.len() as int),
{
    let h = g.advance(drawn);
    lemma_advance_frame(g, drawn);
    let len = g.cells.len() as int;
    lemma_neighbors_of(g, g.current);
    if g.stack.len() > 0 {
        assert(g.stack[g.stack.len() - 1] == g.stack.last());
    }
    let m = match drawn {
        Some(n) => Some(n as int),
        None => None,
    };
    assert forall|i: int| 0 <= i < len && Some(i) != m implies pending_at(g, i) == pending_at(
        h,
        i,
    ) by {
        assert(h.cells[i].visited == (g.cells[i].visited || i == g.current));
    }
    lemma_count_one_less(g, h, len, m);
}

/// Every step from a well-formed state that is not complete decreases
/// `progress`: the traversal reaches completion after finitely many steps.
pub proof fn lemma_step_progress(g: GridView, drawn: Option<usize>)
    requires
        g.wf(),
        g.drawable(drawn),
        !g.is_complete(),
    ensures
        progress(g.advance(drawn)) < progress(g),
{
    let h = g.advance(drawn);
    let len = g.cells.len() as int;
    lemma_step_pending(g, drawn);
    lemma_advance_frame(g, drawn);
    reveal(unfinished);
    let pg = count_pending(g, len);
    let ph = count_pending(h, len);
    assert(h.cells.len() == len);
    if drawn is Some {
        assert(h.stack.len() == g.stack.len() + 1);
        assert(!h.is_complete());
        assert(progress(h) == 2 * ph + h.stack.len() + 1);
    } else if g.stack.len() > 0 {
        assert(h.stack.len() == g.stack.len() - 1);
        assert(progress(h) <= 2 * ph + h.stack.len() + 1);
    } else {
        let c = g.current;
        lemma_neighbors_of(g, c);
        assert(h.neighbor(c, 0) == g.neighbor(c, 0));
        assert(h.neighbor(c, 1) == g.neighbor(c, 1));
        assert(h.neighbor(c, 2) == g.neighbor(c, 2));
        assert(h.neighbor(c, 3) == g.neighbor(c, 3));
        assert(h.is_complete());
        assert(progress(h) == 2 * ph + h.stack.len());
    }
    assert(progress(g) == 2 * pg + g.stack.len() + 1);
}

/// A complete state stays as it is under a further step: no neighbour can
/// be drawn, and cells, stack and current cell are unchanged.
pub proof fn lemma_complete_is_final(g: GridView)
    requires
        g.wf(),
        g.is_complete(),
    ensures
        g.drawable(None),
        g.advance(None).cells == g.cells,
        g.advance(None).stack == g.stack,
        g.advance(None).current == g.current,
{
    assert(g.advance(None).cells =~= g.cells);
}

/// A visited cell of a closed region lets the traversal into every neighbour.
proof fn lemma_move(g: GridView, r: int, c: int, r2: int, c2: int)
    requires
        g.wf(),
        forall|i: int| #![trigger g.dead_end(i)] g.valid(i) && g.cells[i].visited ==> g.dead_end(i),
        in_bounds(r, c, g.rows, g.cols),
        in_bounds(r2, c2, g.rows, g.cols),
        (r2 == r && (c2 == c + 1 || c2 == c - 1)) || (c2 == c && (r2 == r + 1 || r2 == r - 1)),
        g.cells[flat(r, c, g.cols)].visited,
    ensures
        g.cells[flat(r2, c2, g.cols)].visited,
{
    lemma_cell_at(g, r, c);
    lemma_cell_at(g, r2, c2);
    let i = flat(r, c, g.cols);
    assert(g.dead_end(i));
}

proof fn lemma_to_row_start(g: GridView, r: int, c: int)
    requires
        g.wf(),
        forall|i: int| #![trigger g.dead_end(i)] g.valid(i) && g.cells[i].visited ==> g.dead_end(i),
        in_bounds(r, c, g.rows, g.cols),
        g.cells[flat(r, c, g.cols)].visited,
    ensures
        g.cells[flat(r, 0, g.cols)].visited,
    decreases c,
{
    if c > 0 {
        lemma_move(g, r, c, r, c - 1);
        lemma_to_row_start(g, r, c - 1);
    }
}

proof fn lemma_to_top(g: GridView, r: int)
    requires
        g.wf(),
        forall|i: int| #![trigger g.dead_end(i)] g.valid(i) && g.cells[i].visited ==> g.dead_end(i),
        0 <= r < g.rows,
        g.cells[flat(r, 0, g.cols)].visited,
    ensures
        g.cells[flat(0, 0, g.cols)].visited,
    decreases r,
{
    if r > 0 {
        lemma_move(g, r, 0, r - 1, 0);
        lemma_to_top(g, r - 1);
    }
}

proof fn lemma_down_from_top(g: GridView, r: int)
    requires
        g.wf(),
        forall|i: int| #![trigger g.dead_end(i)] g.valid(i) && g.cells[i].visited ==> g.dead_end(i),
        0 <= r < g.rows,
        g.cells[flat(0, 0, g.cols)].visited,
    ensures
        g.cells[flat(r, 0, g.cols)].visited,
    decreases r,
{
    if r > 0 {
        lemma_down_from_top(g, r - 1);
        lemma_move(g, r - 1, 0, r, 0);
    }
}

proof fn lemma_along_row(g: GridView, r: int, c: int)
    requires
        g.wf(),
        forall|i: int| #![trigger g.dead_end(i)] g.valid(i) && g.cells[i].visited ==> g.dead_end(i),
        in_bounds(r, c, g.rows, g.cols),
        g.cells[flat(r, 0, g.cols)].visited,
    ensures
        g.cells[flat(r, c, g.cols)].visited,
    decreases c,
{
    if c > 0 {
        lemma_along_row(g, r, c - 1);
        lemma_move(g, r, c - 1, r, c);
    }
}

/// When the traversal is complete, every cell of the grid has been visited.
pub proof fn lemma_complete_visits_all(g: GridView)
    requires
        g.wf(),
        g.is_complete(),
    ensures
        forall|i: int| #![trigger g.cells[i]] g.valid(i) ==> g.cells[i].visited,
{
    assert forall|i: int| #![trigger g.dead_end(i)] g.valid(i) && g.cells[i].visited implies g.dead_end(
        i,
    ) by {
        if i != g.current {
            assert(!g.stack.contains(i as usize));
        }
    }
    let cur = g.cells[g.current];
    lemma_to_row_start(g, cur.row as int, cur.col as int);
    lemma_to_top(g, cur.row as int);
    assert forall|i: int| #![trigger g.cells[i]] g.valid(i) implies g.cells[i].visited by {
        let cell = g.cells[i];
        lemma_down_from_top(g, cell.row as int);
        lemma_along_row(g, cell.row as int, cell.col as int);
    }
}


/// When the traversal is complete, the openings form a spanning tree of the
/// grid: exactly `rows * cols - 1` walls between adjacent cells are down,
/// they join any two cells, and they enclose no cycle.
pub proof fn lemma_complete_spanning_tree(g: GridView)
    requires
        g.wf(),
        g.is_complete(),
    ensures
        g.removed_walls() == g.rows * g.cols - 1,
        forall|a: int, b: int|
            #![trigger g.connected(a, b)]
            g.valid(a) && g.valid(b) ==> g.connected(a, b),
        forall|p: Seq<int>| !#[trigger] g.is_cycle(p),
{
    assert forall|p: Seq<int>| !#[trigger] g.is_cycle(p) by {
        lemma_no_cycle(g, p);
    }
    lemma_complete_visits_all(g);
    let len = g.cells.len() as int;
    let ind = |i: int| if g.reached(i) { 1nat } else { 0nat };
    assert forall|i: int| #![trigger ind(i)] 0 <= i < len implies ind(i) == 1 by {
        assert(g.cells[i].visited);
    }
    lemma_sum_ones(ind, len);
    assert(g.reached_cells() == sum_to(ind, len));
}

} // verus!
