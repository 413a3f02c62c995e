use puzzler::{index, Cell, Grid, GridError};

fn removed_edges(g: &Grid) -> Vec<(usize, usize)> {
    let cols = g.cols();
    let rows = g.rows();
    let mut edges = Vec::new();
    for (i, c) in g.cells().iter().enumerate() {
        if c.col + 1 < cols && !c.right {
            edges.push((i, i + 1));
        }
        if c.row + 1 < rows && !c.bot {
            edges.push((i, i + cols));
        }
    }
    edges
}

fn find(parent: &mut Vec<usize>, x: usize) -> usize {
    let mut r = x;
    while parent[r] != r {
        r = parent[r];
    }
    let mut y = x;
    while parent[y] != r {
        let n = parent[y];
        parent[y] = r;
        y = n;
    }
    r
}

fn assert_symmetric(g: &Grid) {
    let cols = g.cols();
    let rows = g.rows();
    let cells = g.cells();
    for (i, c) in cells.iter().enumerate() {
        if c.col + 1 < cols {
            assert_eq!(c.right, cells[i + 1].left);
        }
        if c.row + 1 < rows {
            assert_eq!(c.bot, cells[i + cols].top);
        }
    }
}

fn assert_spanning_tree(g: &Grid) {
    let n = g.rows() * g.cols();
    let edges = removed_edges(g);
    assert_eq!(edges.len(), n - 1);
    let mut parent: Vec<usize> = (0..n).collect();
    for &(a, b) in &edges {
        let ra = find(&mut parent, a);
        let rb = find(&mut parent, b);
        assert_ne!(ra, rb, "a removed wall closes a cycle");
        parent[ra] = rb;
    }
    let root = find(&mut parent, 0);
    for i in 0..n {
        assert_eq!(find(&mut parent, i), root);
    }
}

fn step_to_completion(g: &mut Grid) -> usize {
    let mut steps = 0;
    while !g.is_complete() {
        g.step();
        steps += 1;
        assert!(steps <= 4 * g.rows() * g.cols() + 4);
    }
    steps
}

#[test]
fn index_rejects_out_of_range() {
    assert_eq!(index(-1, 0, 3, 4), None);
    assert_eq!(index(0, -1, 3, 4), None);
    assert_eq!(index(3, 0, 3, 4), None);
    assert_eq!(index(0, 4, 3, 4), None);
    assert_eq!(index(0, 0, 3, 4), Some(0));
    assert_eq!(index(2, 3, 3, 4), Some(11));
}

#[test]
fn index_round_trips_on_rectangular_grid() {
    let (rows, cols) = (3usize, 5usize);
    let mut seen = vec![false; rows * cols];
    for r in 0..rows {
        for c in 0..cols {
            let i = index(r as isize, c as isize, rows, cols).unwrap();
            assert_eq!(i / cols, r);
            assert_eq!(i % cols, c);
            assert!(!seen[i]);
            seen[i] = true;
        }
    }
    assert!(seen.iter().all(|&s| s));
    assert_eq!(index(1, 0, 3, 5), Some(5));
}

#[test]
fn cell_starts_with_all_walls() {
    let c = Cell::new(2, 3);
    assert_eq!((c.row, c.col), (2, 3));
    assert!(!c.visited && c.top && c.bot && c.left && c.right);
    assert_eq!(Cell::default(), Cell::new(0, 0));
}

#[test]
fn construction_rejects_empty_dimensions() {
    assert_eq!(Grid::new(0, 3, None).err(), Some(GridError::EmptyDimension));
    assert_eq!(Grid::new(3, 0, Some(1)).err(), Some(GridError::EmptyDimension));
    assert_eq!(Grid::new(0, 0, None).err(), Some(GridError::EmptyDimension));
}

#[test]
fn construction_builds_unvisited_walled_grid() {
    let g = Grid::new(3, 4, Some(7)).unwrap();
    assert_eq!((g.rows(), g.cols()), (3, 4));
    assert_eq!(g.cells().len(), 12);
    assert!(g.current() < 12);
    assert_eq!(g.next(), None);
    assert!(g.stack().is_empty());
    for (i, c) in g.cells().iter().enumerate() {
        assert_eq!((c.row, c.col), (i / 4, i % 4));
        assert!(!c.visited && c.top && c.bot && c.left && c.right);
    }
    assert!(!g.is_complete());
}

#[test]
fn start_cell_stays_inside_grid() {
    for seed in 0..50u64 {
        let g = Grid::new(2, 3, Some(seed)).unwrap();
        assert!(g.current() < 6);
    }
    let g = Grid::new(4, 4, None).unwrap();
    assert!(g.current() < 16);
}

#[test]
fn single_cell_completes_on_first_step() {
    let mut g = Grid::new(1, 1, Some(3)).unwrap();
    assert_eq!(g.current(), 0);
    g.step();
    assert!(g.is_complete());
    assert_eq!(g.next(), None);
    assert!(removed_edges(&g).is_empty());
    let c = g.cells()[0];
    assert!(c.visited && c.top && c.bot && c.left && c.right);
}

#[test]
fn two_by_two_carves_three_walls() {
    for seed in 0..20u64 {
        let mut g = Grid::new(2, 2, Some(seed)).unwrap();
        let mut descents = 0;
        while !g.is_complete() {
            g.step();
            if g.next().is_some() {
                descents += 1;
            }
        }
        assert_eq!(descents, 3);
        assert_eq!(removed_edges(&g).len(), 3);
        // every cell reaches every other through removed walls only
        let edges = removed_edges(&g);
        let mut reach = vec![false; 4];
        reach[0] = true;
        for _ in 0..4 {
            for &(a, b) in &edges {
                if reach[a] || reach[b] {
                    reach[a] = true;
                    reach[b] = true;
                }
            }
        }
        assert!(reach.iter().all(|&r| r));
    }
}

#[test]
fn traversal_visits_every_cell_once() {
    for &(rows, cols) in &[(1usize, 1usize), (1, 6), (6, 1), (3, 4), (5, 5), (2, 9)] {
        let mut g = Grid::new(rows, cols, Some(11)).unwrap();
        let mut times_marked = vec![0usize; rows * cols];
        let mut before: Vec<bool> = g.cells().iter().map(|c| c.visited).collect();
        let mut steps = 0;
        while !g.is_complete() {
            let cur = g.current();
            g.step();
            steps += 1;
            for (i, c) in g.cells().iter().enumerate() {
                if before[i] {
                    assert!(c.visited, "visited flag went back");
                }
                if c.visited && !before[i] {
                    assert_eq!(i, cur);
                    times_marked[i] += 1;
                }
            }
            before = g.cells().iter().map(|c| c.visited).collect();
            assert!(steps <= 4 * rows * cols + 4);
        }
        assert!(times_marked.iter().all(|&t| t == 1));
    }
}

#[test]
fn completed_maze_is_spanning_tree() {
    for &(rows, cols) in &[(1usize, 1usize), (1, 7), (4, 1), (3, 5), (8, 8), (10, 4)] {
        for seed in 0..5u64 {
            let mut g = Grid::new(rows, cols, Some(seed)).unwrap();
            g.run_to_completion();
            assert!(g.is_complete());
            assert!(g.cells().iter().all(|c| c.visited));
            assert_spanning_tree(&g);
        }
    }
}

#[test]
fn walls_stay_symmetric_after_every_step() {
    let mut g = Grid::new(6, 7, Some(5)).unwrap();
    assert_symmetric(&g);
    while !g.is_complete() {
        g.step();
        assert_symmetric(&g);
    }
    // the outer border never opens
    let (rows, cols) = (g.rows(), g.cols());
    for c in g.cells() {
        if c.row == 0 {
            assert!(c.top);
        }
        if c.row + 1 == rows {
            assert!(c.bot);
        }
        if c.col == 0 {
            assert!(c.left);
        }
        if c.col + 1 == cols {
            assert!(c.right);
        }
    }
}

#[test]
fn random_neighbor_is_never_visited() {
    for seed in 0..10u64 {
        let mut g = Grid::new(5, 6, Some(seed)).unwrap();
        while !g.is_complete() {
            let open = g.unvisited_neighbors();
            let drawn = g.get_random_neighbor();
            match drawn {
                Some(n) => {
                    assert!(!g.cells()[n].visited);
                    assert!(open.contains(&n));
                }
                None => assert!(open.is_empty()),
            }
            g.step_with(drawn);
        }
    }
}

#[test]
fn unvisited_neighbors_in_order() {
    let g = (0..10_000u64)
        .map(|seed| Grid::new(3, 3, Some(seed)).unwrap())
        .find(|g| g.current() == 4)
        .unwrap();
    assert_eq!(g.unvisited_neighbors(), vec![1, 7, 3, 5]);
    let corner = (0..10_000u64)
        .map(|seed| Grid::new(3, 3, Some(seed)).unwrap())
        .find(|g| g.current() == 8)
        .unwrap();
    assert_eq!(corner.unvisited_neighbors(), vec![5, 7]);
}

#[test]
fn step_with_descends_and_backtracks() {
    let mut g = Grid::new(1, 2, Some(1)).unwrap();
    let start = g.current();
    let other = 1 - start;
    g.step_with(Some(other));
    assert_eq!(g.current(), other);
    assert_eq!(g.next(), Some(other));
    assert_eq!(g.stack(), &vec![start]);
    let (l, r) = (g.cells()[0], g.cells()[1]);
    assert!(!l.right && !r.left);
    assert!(l.left && l.top && l.bot && r.right && r.top && r.bot);
    g.step_with(None);
    assert_eq!(g.current(), start);
    assert!(g.stack().is_empty());
    assert_eq!(g.next(), None);
    g.step_with(None);
    assert!(g.is_complete());
}

#[test]
fn vertical_carve_opens_top_and_bottom() {
    let mut g = Grid::new(2, 1, Some(9)).unwrap();
    let start = g.current();
    g.step_with(Some(1 - start));
    let (upper, lower) = (g.cells()[0], g.cells()[1]);
    assert!(!upper.bot && !lower.top);
    assert!(upper.top && upper.left && upper.right && lower.bot && lower.left && lower.right);
}

#[test]
fn same_seed_gives_same_run() {
    let mut a = Grid::new(9, 7, Some(42)).unwrap();
    let mut b = Grid::new(9, 7, Some(42)).unwrap();
    assert_eq!(a.current(), b.current());
    while !a.is_complete() {
        a.step();
        b.step();
        assert_eq!((a.current(), a.next()), (b.current(), b.next()));
    }
    assert!(b.is_complete());
    assert_eq!(a.cells(), b.cells());
}

#[test]
fn reset_with_seed_replays_the_run() {
    let mut g = Grid::new(5, 5, Some(8)).unwrap();
    let start = g.current();
    g.run_to_completion();
    let walls = g.cells().clone();
    g.reset();
    assert_eq!(g.current(), start);
    assert!(g.cells().iter().all(|c| !c.visited && c.top && c.bot && c.left && c.right));
    g.run_to_completion();
    assert_eq!(g.cells(), &walls);
}

#[test]
fn complete_grid_stays_put() {
    let mut g = Grid::new(3, 3, Some(2)).unwrap();
    g.run_to_completion();
    let cells = g.cells().clone();
    let cur = g.current();
    g.step();
    g.step();
    assert!(g.is_complete());
    assert_eq!(g.current(), cur);
    assert_eq!(g.cells(), &cells);
}
