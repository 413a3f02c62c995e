//! The walls that the traversal takes down form a tree over the cells it has
//! reached: each descent joins one new cell through one new opening.
use vstd::prelude::*;
use crate::model::{lemma_advance_frame, lemma_neighbors_of, sum_to, walls_up, GridView};

verus! {

/// Sums of two functions that agree on `0..k` are equal.
pub proof fn lemma_sum_same(f: spec_fn(int) -> nat, g: spec_fn(int) -> nat, k: int)
    requires
        forall|i: int| #![trigger f(i)] 0 <= i < k ==> f(i) == g(i),
    ensures
        sum_to(f, k) == sum_to(g, k),
    decreases k,
{
    if k > 0 {
        lemma_sum_same(f, g, k - 1);
    }
}

/// When `g` exceeds `f` by one at `m` and agrees with it elsewhere on `0..k`,
/// its sum over `0..k` is one more.
pub proof fn lemma_sum_bump(f: spec_fn(int) -> nat, g: spec_fn(int) -> nat, k: int, m: int)
    requires
        0 <= m < k,
        forall|i: int| #![trigger f(i)] 0 <= i < k && i != m ==> f(i) == g(i),
        g(m) == f(m) + 1,
    ensures
        sum_to(g, k) == sum_to(f, k) + 1,
    decreases k,
{
    if k - 1 == m {
        lemma_sum_same(f, g, k - 1);
    } else {
        lemma_sum_bump(f, g, k - 1, m);
    }
}

/// The sum of a function that is one on all of `0..k` is `k`.
pub proof fn lemma_sum_ones(f: spec_fn(int) -> nat, k: int)
    requires
        0 <= k,
        forall|i: int| #![trigger f(i)] 0 <= i < k ==> f(i) == 1,
    ensures
        sum_to(f, k) == k,
    decreases k,
{
    if k > 0 {
        lemma_sum_ones(f, k - 1);
    }
}

/// The sum of a function that is zero on all of `0..k` is zero.
pub proof fn lemma_sum_zeros(f: spec_fn(int) -> nat, k: int)
    requires
        forall|i: int| #![trigger f(i)] 0 <= i < k ==> f(i) == 0,
    ensures
        sum_to(f, k) == 0,
    decreases k,
{
    if k > 0 {
        lemma_sum_zeros(f, k - 1);
    }
}

/// A walk of `g` stays a walk in `h` when `h` keeps every opening of `g`.
proof fn lemma_path_lift(g: GridView, h: GridView, p: Seq<int>)
    requires
        g.is_path(p),
        h.cells.len() == g.cells.len(),
        forall|a: int, b: int| #[trigger] g.linked(a, b) ==> h.linked(a, b),
    ensures
        h.is_path(p),
{
    assert forall|k: int| 0 <= k < p.len() - 1 implies #[trigger] h.linked(p[k], p[k + 1]) by {
        assert(g.linked(p[k], p[k + 1]));
    }
}

/// A grid with every cell unvisited and walled, rooted at its current cell,
/// satisfies the carving and tree invariants.
pub proof fn lemma_fresh_carved(g: GridView)
    requires
        g.valid(g.current),
        forall|i: int| #![trigger g.cells[i]] g.valid(i) ==> !g.cells[i].visited && walls_up(g.cells[i]),
        g.parent.len() == g.cells.len(),
        g.depth.len() == g.cells.len(),
        g.root == g.current,
        g.depth[g.root] == 0,
    ensures
        g.carved_ok(),
        g.tree_ok(),
{
    assert forall|v: int|
        #![trigger g.parent[v]]
        g.valid(v) && g.reached(v) && v != g.root implies {
        &&& g.valid(g.parent[v])
        &&& g.reached(g.parent[v])
        &&& g.linked(v, g.parent[v])
        &&& g.depth[g.parent[v]] + 1 == g.depth[v]
    } by {}
    assert forall|a: int, b: int| #[trigger] g.linked(a, b) implies {
        &&& g.reached(a)
        &&& g.reached(b)
        &&& (a != g.root && g.parent[a] == b) || (b != g.root && g.parent[b] == a)
    } by {}
    let len = g.cells.len() as int;
    lemma_sum_zeros(|i: int| g.removed_at(i), len);
    let zero = |i: int| 0nat;
    let ind = |i: int| if g.reached(i) { 1nat } else { 0nat };
    lemma_sum_zeros(zero, len);
    lemma_sum_bump(zero, ind, len, g.current);
    assert(g.reached_cells() == sum_to(ind, len));
    assert forall|a: int, b: int|
        #![trigger g.connected(a, b)]
        g.valid(a) && g.valid(b) && g.reached(a) && g.reached(b) implies g.connected(a, b) by {
        let p = seq![a];
        assert(p[0] == a && p.last() == b);
        assert(g.is_path(p));
    }
}

/// One step keeps the carving invariant: a descent opens exactly one wall,
/// toward a cell that was not reached before; a backtrack opens none.
pub proof fn lemma_advance_carved(g: GridView, drawn: Option<usize>)
    requires
        g.wf(),
        g.drawable(drawn),
    ensures
        g.advance(drawn).carved_ok(),
{
    let h = g.advance(drawn);
    let c = g.current;
    let len = g.cells.len() as int;
    lemma_advance_frame(g, drawn);
    lemma_neighbors_of(g, c);
    if g.stack.len() > 0 {
        assert(g.stack[g.stack.len() - 1] == g.stack.last());
    }
    assert forall|a: int, b: int| #[trigger] g.linked(a, b) implies h.linked(a, b) by {}
    // cells not reached after the step were not reached before, and kept their walls
    assert forall|i: int| #![trigger h.cells[i]] h.valid(i) && !h.reached(i) implies walls_up(
        h.cells[i],
    ) by {}
    let rg = |i: int| if g.reached(i) { 1nat } else { 0nat };
    let rh = |i: int| if h.reached(i) { 1nat } else { 0nat };
    let wg = |i: int| g.removed_at(i);
    let wh = |i: int| h.removed_at(i);
    match drawn {
        Some(n) => {
            let n = n as int;
            assert(g.valid(n));
            assert(!g.reached(n));
            assert(walls_up(g.cells[n]));
            // the one wall that comes down is counted at the smaller of the two cells
            let m = if n < c { n } else { c };
            assert forall|i: int| #![trigger wg(i)] 0 <= i < len && i != m implies wg(i) == wh(i) by {}
            assert(wh(m) == wg(m) + 1);
            lemma_sum_bump(wg, wh, len, m);
            assert forall|i: int| #![trigger rg(i)] 0 <= i < len && i != n implies rg(i) == rh(i) by {}
            lemma_sum_bump(rg, rh, len, n);
            assert(h.linked(c, n));
            assert(h.linked(n, c));
            assert forall|a: int, b: int|
                #![trigger h.connected(a, b)]
                h.valid(a) && h.valid(b) && h.reached(a) && h.reached(b) implies h.connected(
                a,
                b,
            ) by {
                if a == n && b == n {
                    let q = seq![n];
                    assert(h.is_path(q));
                    assert(q[0] == a && q.last() == b);
                } else if a == n {
                    assert(g.connected(c, b));
                    let p = choose|p: Seq<int>| g.is_path(p) && p[0] == c && p.last() == b;
                    lemma_path_lift(g, h, p);
                    let q = seq![n] + p;
                    assert(q[1] == p[0]);
                    assert forall|k: int| 0 <= k < q.len() - 1 implies #[trigger] h.linked(
                        q[k],
                        q[k + 1],
                    ) by {
                        if k > 0 {
                            let j = k - 1;
                            assert(q[k] == p[j]);
                            assert(q[k + 1] == p[j + 1]);
                            assert(h.linked(p[j], p[j + 1]));
                        } else {
                            assert(q[0] == n);
                            assert(q[1] == c);
                        }
                    }
                    assert forall|k: int| 0 <= k < q.len() implies h.valid(#[trigger] q[k]) by {
                        if k > 0 {
                            assert(q[k] == p[k - 1]);
                        }
                    }
                    assert(q.last() == p.last());
                    assert(h.is_path(q));
                    assert(q[0] == a && q.last() == b);
                } else if b == n {
                    assert(g.connected(a, c));
                    let p = choose|p: Seq<int>| g.is_path(p) && p[0] == a && p.last() == c;
                    lemma_path_lift(g, h, p);
                    let q = p.push(n);
                    assert forall|k: int| 0 <= k < q.len() - 1 implies #[trigger] h.linked(
                        q[k],
                        q[k + 1],
                    ) by {
                        if k < p.len() - 1 {
                            assert(q[k] == p[k]);
                            assert(q[k + 1] == p[k + 1]);
                        } else {
                            assert(q[k] == c);
                            assert(q[k + 1] == n);
                        }
                    }
                    assert forall|k: int| 0 <= k < q.len() implies h.valid(#[trigger] q[k]) by {
                        if k < p.len() {
                            assert(q[k] == p[k]);
                        }
                    }
                    assert(h.is_path(q));
                    assert(q[0] == a && q.last() == b);
                } else {
                    assert(g.connected(a, b));
                    let p = choose|p: Seq<int>| g.is_path(p) && p[0] == a && p.last() == b;
                    lemma_path_lift(g, h, p);
                    assert(h.is_path(p) && p[0] == a && p.last() == b);
                }
            }
        },
        None => {
            assert forall|i: int| #![trigger wg(i)] 0 <= i < len implies wg(i) == wh(i) by {}
            lemma_sum_same(wg, wh, len);
            assert forall|i: int| #![trigger rg(i)] 0 <= i < len implies rg(i) == rh(i) by {}
            lemma_sum_same(rg, rh, len);
            assert forall|a: int, b: int|
                #![trigger h.connected(a, b)]
                h.valid(a) && h.valid(b) && h.reached(a) && h.reached(b) implies h.connected(
                a,
                b,
            ) by {
                assert(g.connected(a, b));
                let p = choose|p: Seq<int>| g.is_path(p) && p[0] == a && p.last() == b;
                lemma_path_lift(g, h, p);
            }
        },
    }
    assert(h.removed_walls() == sum_to(wh, len));
    assert(g.removed_walls() == sum_to(wg, len));
    assert(h.reached_cells() == sum_to(rh, len));
    assert(g.reached_cells() == sum_to(rg, len));
}


/// One step keeps the walls a tree: a descent links the newly entered cell
/// to the current one, which becomes its parent.
pub proof fn lemma_advance_tree(g: GridView, drawn: Option<usize>)
    requires
        g.wf(),
        g.drawable(drawn),
    ensures
        g.advance(drawn).tree_ok(),
{
    let h = g.advance(drawn);
    let c = g.current;
    lemma_advance_frame(g, drawn);
    lemma_neighbors_of(g, c);
    if g.stack.len() > 0 {
        assert(g.stack[g.stack.len() - 1] == g.stack.last());
    }
    assert forall|a: int, b: int| #[trigger] g.linked(a, b) implies h.linked(a, b) by {}
    assert forall|i: int| g.valid(i) && g.reached(i) implies h.reached(i) by {}
    match drawn {
        Some(n) => {
            let n = n as int;
            assert(g.valid(n));
            assert(!g.reached(n));
            assert(walls_up(g.cells[n]));
            assert(h.linked(n, c));
            assert forall|v: int|
                #![trigger h.parent[v]]
                h.valid(v) && h.reached(v) && v != h.root implies {
                &&& h.valid(h.parent[v])
                &&& h.reached(h.parent[v])
                &&& h.linked(v, h.parent[v])
                &&& h.depth[h.parent[v]] + 1 == h.depth[v]
            } by {
                if v != n {
                    assert(g.reached(v));
                    assert(g.linked(v, g.parent[v]));
                }
            }
            assert forall|a: int, b: int| #[trigger] h.linked(a, b) implies {
                &&& h.reached(a)
                &&& h.reached(b)
                &&& (a != h.root && h.parent[a] == b) || (b != h.root && h.parent[b] == a)
            } by {
                if g.linked(a, b) {
                    assert(a != n && b != n);
                } else {
                    assert((a == c && b == n) || (a == n && b == c));
                }
            }
        },
        None => {
            assert forall|v: int|
                #![trigger h.parent[v]]
                h.valid(v) && h.reached(v) && v != h.root implies {
                &&& h.valid(h.parent[v])
                &&& h.reached(h.parent[v])
                &&& h.linked(v, h.parent[v])
                &&& h.depth[h.parent[v]] + 1 == h.depth[v]
            } by {
                assert(g.linked(v, g.parent[v]));
            }
            assert forall|a: int, b: int| #[trigger] h.linked(a, b) implies {
                &&& h.reached(a)
                &&& h.reached(b)
                &&& (a != h.root && h.parent[a] == b) || (b != h.root && h.parent[b] == a)
            } by {
                assert(g.linked(a, b));
            }
        },
    }
}


/// A position along `p` whose cell is at least as deep as every other.
proof fn lemma_deepest(g: GridView, p: Seq<int>) -> (k: int)
    requires
        p.len() >= 1,
    ensures
        0 <= k < p.len(),
        forall|j: int| 0 <= j < p.len() ==> g.depth[#[trigger] p[j]] <= g.depth[p[k]],
    decreases p.len(),
{
    if p.len() == 1 {
        0
    } else {
        let q = p.drop_last();
        let k0 = lemma_deepest(g, q);
        assert forall|j: int| 0 <= j < q.len() implies p[j] == #[trigger] q[j] by {}
        if g.depth[p[k0]] >= g.depth[p.last()] {
            assert forall|j: int| 0 <= j < p.len() implies g.depth[#[trigger] p[j]] <= g.depth[p[k0]] by {
                if j < q.len() {
                    assert(q[j] == p[j]);
                }
            }
            k0
        } else {
            let k = p.len() - 1;
            assert forall|j: int| 0 <= j < p.len() implies g.depth[#[trigger] p[j]] <= g.depth[p[k]] by {
                if j < q.len() {
                    assert(q[j] == p[j]);
                }
            }
            k
        }
    }
}

/// The removed walls of a well-formed grid enclose no loop: no cycle of
/// three or more distinct cells crosses removed walls only.
pub proof fn lemma_no_cycle(g: GridView, p: Seq<int>)
    requires
        g.wf(),
    ensures
        !g.is_cycle(p),
{
    if g.is_cycle(p) {
        let len = p.len() as int;
        let k = lemma_deepest(g, p);
        let v = p[k];
        let i = if k == 0 { len - 1 } else { k - 1 };
        let j = if k == len - 1 { 0 } else { k + 1 };
        let u = p[i];
        let w = p[j];
        if k == 0 {
            assert(g.linked(p.last(), p[0]));
            assert(g.linked(u, v));
        } else {
            let m = k - 1;
            assert(g.linked(p[m], p[m + 1]));
            assert(g.linked(u, v));
        }
        if k == len - 1 {
            assert(g.linked(p.last(), p[0]));
            assert(g.linked(v, w));
        } else {
            assert(g.linked(p[k], p[k + 1]));
            assert(g.linked(v, w));
        }
        assert(g.depth[u] <= g.depth[v]);
        assert(g.depth[w] <= g.depth[v]);
        // a neighbour whose parent is `v` would lie deeper than `v`
        if u != g.root && g.parent[u] == v {
            assert(g.valid(u));
            assert(g.depth[g.parent[u]] + 1 == g.depth[u]);
        }
        if w != g.root && g.parent[w] == v {
            assert(g.valid(w));
            assert(g.depth[g.parent[w]] + 1 == g.depth[w]);
        }
        assert(g.parent[v] == u);
        assert(g.parent[v] == w);
        assert(i != j);
        if i < j {
            assert(p[i] != p[j]);
        } else {
            assert(p[j] != p[i]);
        }
    }
}

} // verus!
