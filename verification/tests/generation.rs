use mazegen::carve::{open_east, open_north};
use mazegen::cell::Cell;
use mazegen::generate::{gen_btree, gen_sidewinder, pick_move, pick_target, Move};
use mazegen::grid::{Grid, MazeError, MAX_DIM};
use mazegen::random::{FixedSource, RandomSource, ThreadSource};

fn cell(n: bool, e: bool, s: bool, w: bool) -> Cell {
    Cell { n, e, s, w }
}

/// A source that counts up from a seed, scrambled a little.
struct Counter {
    state: usize,
}

impl RandomSource for Counter {
    fn next_value(&mut self) -> usize {
        self.state = self.state.wrapping_mul(6364136223846793005).wrapping_add(1442695040888963407);
        self.state >> 33
    }
}

fn symmetric(g: &Grid) -> bool {
    let (rows, cols) = (g.rows(), g.cols());
    for i in 0..rows {
        for j in 0..cols {
            if j + 1 < cols && g.cell(i, j).e != g.cell(i, j + 1).w {
                return false;
            }
            if i + 1 < rows && g.cell(i, j).s != g.cell(i + 1, j).n {
                return false;
            }
        }
    }
    true
}

fn enclosed(g: &Grid) -> bool {
    let (rows, cols) = (g.rows(), g.cols());
    (0..cols).all(|j| !g.cell(0, j).n && !g.cell(rows - 1, j).s)
        && (0..rows).all(|i| !g.cell(i, 0).w && !g.cell(i, cols - 1).e)
}

fn passages(g: &Grid) -> usize {
    let (rows, cols) = (g.rows(), g.cols());
    let mut n = 0;
    for i in 0..rows {
        for j in 0..cols {
            if j + 1 < cols && g.cell(i, j).e {
                n += 1;
            }
            if i + 1 < rows && g.cell(i, j).s {
                n += 1;
            }
        }
    }
    n
}

fn reached_from_corner(g: &Grid) -> usize {
    let (rows, cols) = (g.rows(), g.cols());
    let mut seen = vec![vec![false; cols]; rows];
    let mut stack = vec![(0usize, 0usize)];
    seen[0][0] = true;
    let mut count = 0;
    while let Some((i, j)) = stack.pop() {
        count += 1;
        let c = g.cell(i, j);
        let mut next = Vec::new();
        if c.n && i > 0 {
            next.push((i - 1, j));
        }
        if c.s && i + 1 < rows {
            next.push((i + 1, j));
        }
        if c.w && j > 0 {
            next.push((i, j - 1));
        }
        if c.e && j + 1 < cols {
            next.push((i, j + 1));
        }
        for (a, b) in next {
            if !seen[a][b] {
                seen[a][b] = true;
                stack.push((a, b));
            }
        }
    }
    count
}

fn top_row_open(g: &Grid) -> bool {
    (0..g.cols() - 1).all(|j| g.cell(0, j).e)
}

fn assert_perfect(g: &Grid, rows: usize, cols: usize) {
    assert_eq!(g.rows(), rows);
    assert_eq!(g.cols(), cols);
    assert!(symmetric(g));
    assert!(enclosed(g));
    assert_eq!(passages(g), rows * cols - 1);
    assert_eq!(reached_from_corner(g), rows * cols);
    assert!(top_row_open(g));
}

#[test]
fn default_cell_is_fully_walled() {
    assert_eq!(Cell::default(), cell(false, false, false, false));
}

#[test]
fn new_grid_is_fully_walled() {
    let g = Grid::new(3, 5).ok().unwrap();
    assert_eq!(g.rows(), 3);
    assert_eq!(g.cols(), 5);
    for i in 0..3 {
        for j in 0..5 {
            assert_eq!(g.cell(i, j), Cell::default());
        }
    }
}

#[test]
fn new_grid_rejects_zero_dimension() {
    assert_eq!(Grid::new(0, 4).err(), Some(MazeError::InvalidDimension));
    assert_eq!(Grid::new(4, 0).err(), Some(MazeError::InvalidDimension));
    assert_eq!(Grid::new(0, 0).err(), Some(MazeError::InvalidDimension));
    assert_eq!(Grid::new(0, MAX_DIM + 1).err(), Some(MazeError::InvalidDimension));
}

#[test]
fn new_grid_rejects_oversized_dimension() {
    assert_eq!(Grid::new(MAX_DIM + 1, 1).err(), Some(MazeError::DimensionTooLarge));
    assert_eq!(Grid::new(1, MAX_DIM + 1).err(), Some(MazeError::DimensionTooLarge));
    assert!(Grid::new(1, MAX_DIM).is_ok());
}

#[test]
fn set_cell_replaces_one_cell_only() {
    let mut g = Grid::new(2, 3).ok().unwrap();
    g.set_cell(1, 2, cell(true, false, true, false));
    for i in 0..2 {
        for j in 0..3 {
            let expected = if (i, j) == (1, 2) { cell(true, false, true, false) } else { Cell::default() };
            assert_eq!(g.cell(i, j), expected);
        }
    }
}

#[test]
fn open_north_sets_both_sides() {
    let mut g = Grid::new(2, 2).ok().unwrap();
    open_north(&mut g, 1, 1);
    assert_eq!(g.cell(1, 1), cell(true, false, false, false));
    assert_eq!(g.cell(0, 1), cell(false, false, true, false));
    assert_eq!(g.cell(0, 0), Cell::default());
    assert_eq!(g.cell(1, 0), Cell::default());
}

#[test]
fn open_east_sets_both_sides() {
    let mut g = Grid::new(2, 2).ok().unwrap();
    open_east(&mut g, 0, 0);
    assert_eq!(g.cell(0, 0), cell(false, true, false, false));
    assert_eq!(g.cell(0, 1), cell(false, false, false, true));
    assert_eq!(g.cell(1, 0), Cell::default());
    assert_eq!(g.cell(1, 1), Cell::default());
}

#[test]
fn pick_move_follows_the_forced_rules() {
    // Last column: north, whatever was drawn.
    assert_eq!(pick_move(3, 4, 5, 1), Move::North);
    assert_eq!(pick_move(3, 4, 5, 0), Move::North);
    // Top row: east, whatever was drawn.
    assert_eq!(pick_move(0, 2, 5, 0), Move::East);
    assert_eq!(pick_move(0, 2, 5, 1), Move::East);
    // Elsewhere the parity of the draw decides.
    assert_eq!(pick_move(2, 2, 5, 10), Move::North);
    assert_eq!(pick_move(2, 2, 5, 11), Move::East);
}

#[test]
fn pick_target_stays_in_the_run() {
    assert_eq!(pick_target(2, 2, 12345), 2);
    assert_eq!(pick_target(2, 5, 0), 2);
    assert_eq!(pick_target(2, 5, 3), 5);
    assert_eq!(pick_target(2, 5, 4), 2);
    assert_eq!(pick_target(0, 9, 27), 7);
}

#[test]
fn btree_two_by_two_always_north() {
    let mut rng = FixedSource::new(0);
    let g = gen_btree(2, 2, &mut rng).ok().unwrap();
    assert_eq!(g.cell(0, 0), cell(false, true, true, false));
    assert_eq!(g.cell(0, 1), cell(false, false, true, true));
    assert_eq!(g.cell(1, 0), cell(true, false, false, false));
    assert_eq!(g.cell(1, 1), cell(true, false, false, false));
    assert_perfect(&g, 2, 2);
}

#[test]
fn btree_always_east_runs_to_the_last_column() {
    let mut rng = FixedSource::new(1);
    let g = gen_btree(3, 3, &mut rng).ok().unwrap();
    for i in 0..3 {
        assert!(g.cell(i, 0).e && g.cell(i, 1).e && !g.cell(i, 2).e);
        assert!(!g.cell(i, 0).n && !g.cell(i, 1).n);
        assert_eq!(g.cell(i, 2).n, i > 0);
    }
    assert_perfect(&g, 3, 3);
}

#[test]
fn sidewinder_always_north_opens_every_cell_upwards() {
    let mut rng = FixedSource::new(0);
    let g = gen_sidewinder(3, 3, &mut rng).ok().unwrap();
    for j in 0..3 {
        assert!(g.cell(1, j).n && g.cell(2, j).n);
        assert!(!g.cell(1, j).e && !g.cell(2, j).e);
    }
    assert_perfect(&g, 3, 3);
}

#[test]
fn sidewinder_always_east_opens_one_cell_of_the_row() {
    // Every run spans the whole row and closes at the last column, where the
    // draw 1 picks the column 0 + 1 % 3 = 1.
    let mut rng = FixedSource::new(1);
    let g = gen_sidewinder(3, 3, &mut rng).ok().unwrap();
    for i in 1..3 {
        assert_eq!(g.cell(i, 0).n, false);
        assert_eq!(g.cell(i, 1).n, true);
        assert_eq!(g.cell(i, 2).n, false);
        assert!(g.cell(i, 0).e && g.cell(i, 1).e && !g.cell(i, 2).e);
    }
    assert_perfect(&g, 3, 3);
}

#[test]
fn generators_reject_zero_dimension() {
    let mut rng = FixedSource::new(0);
    assert_eq!(gen_sidewinder(0, 3, &mut rng).err(), Some(MazeError::InvalidDimension));
    assert_eq!(gen_sidewinder(3, 0, &mut rng).err(), Some(MazeError::InvalidDimension));
    assert_eq!(gen_btree(0, 3, &mut rng).err(), Some(MazeError::InvalidDimension));
    assert_eq!(gen_btree(3, 0, &mut rng).err(), Some(MazeError::InvalidDimension));
}

#[test]
fn generators_reject_oversized_dimension() {
    let mut rng = FixedSource::new(0);
    assert_eq!(gen_sidewinder(MAX_DIM + 1, 3, &mut rng).err(), Some(MazeError::DimensionTooLarge));
    assert_eq!(gen_btree(3, MAX_DIM + 1, &mut rng).err(), Some(MazeError::DimensionTooLarge));
}

#[test]
fn single_cell_maze_has_no_passage() {
    let mut rng = FixedSource::new(7);
    let a = gen_sidewinder(1, 1, &mut rng).ok().unwrap();
    let b = gen_btree(1, 1, &mut rng).ok().unwrap();
    assert_eq!(a.cell(0, 0), Cell::default());
    assert_eq!(b.cell(0, 0), Cell::default());
    assert_perfect(&a, 1, 1);
    assert_perfect(&b, 1, 1);
}

#[test]
fn single_row_and_single_column_mazes_are_corridors() {
    let mut rng = Counter { state: 3 };
    let row = gen_sidewinder(1, 6, &mut rng).ok().unwrap();
    assert_perfect(&row, 1, 6);
    let col = gen_sidewinder(6, 1, &mut rng).ok().unwrap();
    assert_perfect(&col, 6, 1);
    for i in 1..6 {
        assert!(col.cell(i, 0).n);
    }
    let row = gen_btree(1, 6, &mut rng).ok().unwrap();
    assert_perfect(&row, 1, 6);
    let col = gen_btree(6, 1, &mut rng).ok().unwrap();
    assert_perfect(&col, 6, 1);
}

#[test]
fn sidewinder_mazes_are_perfect() {
    for seed in 0..20 {
        let mut rng = Counter { state: seed };
        let g = gen_sidewinder(12, 12, &mut rng).ok().unwrap();
        assert_perfect(&g, 12, 12);
        let g = gen_sidewinder(5, 9, &mut rng).ok().unwrap();
        assert_perfect(&g, 5, 9);
    }
}

#[test]
fn btree_mazes_are_perfect() {
    for seed in 0..20 {
        let mut rng = Counter { state: seed };
        let g = gen_btree(12, 12, &mut rng).ok().unwrap();
        assert_perfect(&g, 12, 12);
        let g = gen_btree(9, 5, &mut rng).ok().unwrap();
        assert_perfect(&g, 9, 5);
    }
}

#[test]
fn btree_cells_have_one_way_out() {
    for seed in 0..20 {
        let mut rng = Counter { state: seed };
        let g = gen_btree(8, 11, &mut rng).ok().unwrap();
        for i in 0..8 {
            for j in 0..11 {
                let c = g.cell(i, j);
                if i == 0 && j == 10 {
                    assert!(!c.n && !c.e);
                } else {
                    assert!(c.n != c.e);
                }
            }
        }
    }
}

#[test]
fn sidewinder_runs_open_north_once() {
    for seed in 0..20 {
        let mut rng = Counter { state: seed };
        let g = gen_sidewinder(8, 11, &mut rng).ok().unwrap();
        for i in 1..8 {
            let mut norths = 0;
            for j in 0..11 {
                if g.cell(i, j).n {
                    norths += 1;
                }
                if !g.cell(i, j).e {
                    assert_eq!(norths, 1);
                    norths = 0;
                }
            }
        }
    }
}

#[test]
fn thread_source_mazes_are_perfect() {
    let mut rng = ThreadSource::new();
    let g = gen_sidewinder(12, 12, &mut rng).ok().unwrap();
    assert_perfect(&g, 12, 12);
    let g = gen_btree(12, 12, &mut rng).ok().unwrap();
    assert_perfect(&g, 12, 12);
}

#[test]
fn thread_source_hands_out_different_numbers() {
    let mut rng = ThreadSource::new();
    let first = rng.next_value();
    let mut differs = false;
    for _ in 0..64 {
        if rng.next_value() != first {
            differs = true;
        }
    }
    assert!(differs);
}

#[test]
fn fixed_source_repeats_its_number() {
    let mut rng = FixedSource::new(41);
    assert_eq!(rng.next_value(), 41);
    assert_eq!(rng.next_value(), 41);
}
