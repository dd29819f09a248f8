use maze3d::generator::Generator;
use maze3d::grid::Grid;
use maze3d::rng::Rng;
use maze3d::rng::RngError;

/// Count the passable wall slots of a grid: cells with exactly one odd
/// coordinate that are passable.
fn count_carved(g: &Grid) -> usize {
    let n = g.side_len();
    let mut count = 0;
    for r in 0..n {
        for c in 0..n {
            let slot = (r % 2 == 1) != (c % 2 == 1);
            if slot && g.is_passable(r, c) {
                count += 1;
            }
        }
    }
    count
}

/// Breadth-first search over the logical cells through carved slots;
/// returns the set of logical cells reachable from (0, 0) as a flat
/// boolean matrix.
fn reachable_cells(g: &Grid, l: usize) -> Vec<bool> {
    let mut seen = vec![false; l * l];
    let mut queue = vec![(0usize, 0usize)];
    seen[0] = true;
    while let Some((i, j)) = queue.pop() {
        let mut neighbors: Vec<(usize, usize)> = Vec::new();
        if i > 0 && g.is_passable(2 * i, 2 * j + 1) {
            neighbors.push((i - 1, j));
        }
        if i + 1 < l && g.is_passable(2 * i + 2, 2 * j + 1) {
            neighbors.push((i + 1, j));
        }
        if j > 0 && g.is_passable(2 * i + 1, 2 * j) {
            neighbors.push((i, j - 1));
        }
        if j + 1 < l && g.is_passable(2 * i + 1, 2 * j + 2) {
            neighbors.push((i, j + 1));
        }
        for (a, b) in neighbors {
            if !seen[a * l + b] {
                seen[a * l + b] = true;
                queue.push((a, b));
            }
        }
    }
    seen
}

#[test]
fn dimensions_after_initialize() {
    let g = Grid::new(15);
    assert_eq!(g.side_len(), 31);
    assert_eq!(g.logical_len(), 15);
    for r in 0..31 {
        for c in 0..31 {
            let logical = r % 2 == 1 && c % 2 == 1;
            assert_eq!(g.is_passable(r, c), logical, "cell ({}, {})", r, c);
        }
    }
}

#[test]
fn initialize_is_idempotent() {
    let mut g = Grid::new(3);
    g.set(1, 2, true);
    g.set(2, 1, true);
    g.initialize();
    let fresh = Grid::new(3);
    let n = g.side_len();
    for r in 0..n {
        for c in 0..n {
            assert_eq!(g.is_passable(r, c), fresh.is_passable(r, c));
        }
    }
    g.initialize();
    for r in 0..n {
        for c in 0..n {
            assert_eq!(g.is_passable(r, c), fresh.is_passable(r, c));
        }
    }
}

#[test]
fn carve_opens_exactly_the_midway_slot() {
    let mut g = Grid::new(2);
    let before: Vec<bool> = (0..5)
        .flat_map(|r| (0..5).map(move |c| (r, c)))
        .map(|(r, c)| g.is_passable(r, c))
        .collect();
    g.carve_wall_between((0, 0), (0, 1));
    for r in 0..5 {
        for c in 0..5 {
            let expected = if (r, c) == (1, 2) { true } else { before[r * 5 + c] };
            assert_eq!(g.is_passable(r, c), expected, "cell ({}, {})", r, c);
        }
    }
}

#[test]
fn empty_selection_is_reported() {
    let mut rng = Rng::seed(7);
    let xs: Vec<(usize, usize)> = Vec::new();
    assert_eq!(rng.pick(&xs), Err(RngError::EmptySelection));
}

#[test]
fn pick_returns_an_element() {
    let mut rng = Rng::seed(99);
    let xs = vec![(3usize, 4usize)];
    assert_eq!(rng.pick(&xs), Ok((3, 4)));
    let ys = vec![(1usize, 1usize), (2usize, 2usize), (3usize, 3usize)];
    let got = rng.pick(&ys).unwrap();
    assert!(ys.contains(&got));
}

#[test]
fn seeded_streams_agree() {
    let mut a = Rng::seed(1234567);
    let mut b = Rng::seed(1234567);
    for _ in 0..16 {
        assert_eq!(a.next_u64(), b.next_u64());
    }
}

#[test]
fn single_cell_maze_completes_in_one_step() {
    let mut gen = Generator::new(1, 0);
    assert!(!gen.is_done());
    gen.step();
    assert!(gen.is_done());
    assert_eq!(gen.grid().side_len(), 3);
    assert!(gen.is_visited(0, 0));
    assert_eq!(count_carved(gen.grid()), 0);
}

#[test]
fn four_cell_maze_carves_a_tree() {
    for seed in [0u64, 1, 42, 0xdeadbeef] {
        let mut gen = Generator::new(2, seed);
        gen.run_to_completion();
        let g = gen.grid();
        assert_eq!(g.side_len(), 5);
        assert_eq!(count_carved(g), 3, "seed {}", seed);
        for i in 0..2 {
            for j in 0..2 {
                assert!(gen.is_visited(i, j), "seed {}", seed);
            }
        }
        let seen = reachable_cells(g, 2);
        assert!(seen.iter().all(|&s| s), "seed {}", seed);
    }
}

#[test]
fn maze_15_with_seed_42() {
    let mut gen = Generator::new(15, 42);
    let steps = gen.run_to_completion();
    assert!(steps <= 4 * 15 * 15);
    let g = gen.grid();
    assert_eq!(g.side_len(), 31);
    assert_eq!(count_carved(g), 224);
    assert!(gen.is_visited(0, 0));
    assert!(gen.is_visited(14, 14));
    // connected with exactly 224 = 15*15 - 1 carved slots: a spanning
    // tree, so the path from start to goal exists and is unique
    let seen = reachable_cells(g, 15);
    assert!(seen.iter().all(|&s| s));
}

#[test]
fn repeated_runs_agree_cell_for_cell() {
    let mut first = Generator::new(15, 42);
    first.run_to_completion();
    let mut second = Generator::new(15, 42);
    second.run_to_completion();
    let a = first.grid();
    let b = second.grid();
    let n = a.side_len();
    assert_eq!(n, b.side_len());
    for r in 0..n {
        for c in 0..n {
            assert_eq!(a.is_passable(r, c), b.is_passable(r, c), "cell ({}, {})", r, c);
        }
    }
}

#[test]
fn full_visitation_and_border_intact() {
    for (l, seed) in [(1usize, 3u64), (4, 9), (7, 123456789)] {
        let mut gen = Generator::new(l, seed);
        let steps = gen.run_to_completion();
        assert!(steps <= 4 * l * l);
        for i in 0..l {
            for j in 0..l {
                assert!(gen.is_visited(i, j));
            }
        }
        let g = gen.grid();
        let n = g.side_len();
        assert_eq!(count_carved(g), l * l - 1);
        for k in 0..n {
            assert!(!g.is_passable(0, k));
            assert!(!g.is_passable(n - 1, k));
            assert!(!g.is_passable(k, 0));
            assert!(!g.is_passable(k, n - 1));
        }
    }
}

#[test]
fn stepping_after_done_changes_nothing() {
    let mut gen = Generator::new(2, 5);
    gen.run_to_completion();
    assert!(gen.is_done());
    let before = count_carved(gen.grid());
    gen.step();
    gen.step();
    assert!(gen.is_done());
    assert_eq!(count_carved(gen.grid()), before);
}
