//! The two generators: Sidewinder and Binary Tree.

use vstd::prelude::*;
use crate::carve::{
    carved, lemma_carve_east, lemma_carve_north, lemma_carved_perfect, lemma_carved_start,
    lemma_cells_east, lemma_cells_north, lemma_next_row, open_east, open_north, rows_lead_north,
    top_row_open,
};
use crate::cell::Cell;
use crate::graph::{enclosed, passage_count, perfect, symmetric};
use crate::grid::{Grid, MazeError, MAX_DIM};
use crate::random::RandomSource;

verus! {

/// What a generator does at a cell.
#[derive(Clone, Copy, Debug, PartialEq, Eq, Structural)]
pub enum Move {
    /// Open a passage to the row above.
    North,
    /// Open a passage to the next cell of the row.
    East,
}

/// The move at `(i, j)` in a grid of `cols` columns, given the number drawn
/// for it. The top row can only go east and the last column only north;
/// elsewhere an even number means north and an odd one east.
pub open spec fn move_at(i: int, j: int, cols: int, draw: int) -> Move {
    if j == cols - 1 {
        Move::North
    } else if i == 0 {
        Move::East
    } else if draw % 2 == 0 {
        Move::North
    } else {
        Move::East
    }
}

/// Chooses the move at `(i, j)`.
pub fn pick_move(i: usize, j: usize, cols: usize, draw: usize) -> (m: Move)
    requires
        j < cols,
    ensures
        m == move_at(i as int, j as int, cols as int, draw as int),
{
    if j == cols - 1 {
        Move::North
    } else if i == 0 {
        Move::East
    } else if draw % 2 == 0 {
        Move::North
    } else {
        Move::East
    }
}

/// The column at which the run from `run_start` to `j` opens to the north,
/// given the number drawn for it: the draw, reduced modulo the length of the
/// run, counted from the start of the run.
pub open spec fn target_in_run(run_start: int, j: int, draw: int) -> int {
    run_start + draw % (j - run_start + 1)
}

/// Chooses, from the number drawn, the column of the run from `run_start` to
/// `j` at which the run opens to the north.
pub fn pick_target(run_start: usize, j: usize, draw: usize) -> (t: usize)
    requires
        run_start <= j < usize::MAX,
    ensures
        t == target_in_run(run_start as int, j as int, draw as int),
        run_start <= t <= j,
{
    run_start + draw % (j - run_start + 1)
}

/// What both generators promise of the grid they return.
pub open spec fn generated(r: Result<Grid, MazeError>, rows: usize, cols: usize) -> bool {
    &&& (rows == 0 || cols == 0) <==> r == Err::<Grid, MazeError>(MazeError::InvalidDimension)
    &&& (rows > 0 && cols > 0 && (rows > MAX_DIM || cols > MAX_DIM)) <==> r == Err::<
        Grid,
        MazeError,
    >(MazeError::DimensionTooLarge)
    &&& r is Ok <==> 1 <= rows <= MAX_DIM && 1 <= cols <= MAX_DIM
    &&& r is Ok ==> {
        let g = r->Ok_0;
        &&& g.wf()
        &&& g.spec_rows() == rows
        &&& g.spec_cols() == cols
        &&& symmetric(g@)
        &&& perfect(g@)
        &&& enclosed(g@)
        &&& top_row_open(g@)
        &&& rows_lead_north(g@)
    }
}

/// Every cell before `(i, j)`, counted from the bottom row up and in a row
/// from left to right, is open to exactly one of north and east, but for
/// the last cell of the top row.
pub open spec fn branches_before(g: Seq<Seq<Cell>>, rows: int, cols: int, i: int, j: int) -> bool {
    forall|r: int, c: int|
        0 <= r < rows && 0 <= c < cols && (r > i || (r == i && c < j)) && !(r == 0 && c == cols - 1)
            ==> (#[trigger] g[r][c]).n != g[r][c].e
}

/// The shape of a Binary Tree maze: every cell has one way out, north or
/// east, but for the last cell of the top row, which has neither.
pub open spec fn binary_tree(g: Seq<Seq<Cell>>) -> bool {
    branches_before(g, g.len() as int, g[0].len() as int, -1, 0)
}

/// Generates a maze by the Sidewinder algorithm: rows from the bottom up,
/// each from left to right, in runs of cells joined eastwards, each run
/// opened northwards at one of its cells.
pub fn gen_sidewinder<R: RandomSource>(rows: usize, cols: usize, rng: &mut R) -> (r: Result<
    Grid,
    MazeError,
>)
    ensures
        generated(r, rows, cols),
{
    let mut grid = match Grid::new(rows, cols) {
        Ok(g) => g,
        Err(e) => {
            return Err(e);
        },
    };
    proof {
        lemma_carved_start(grid@, rows as int, cols as int);
    }
    let mut i: usize = rows;
    while i > 0
        invariant
            1 <= rows <= MAX_DIM,
            1 <= cols <= MAX_DIM,
            i <= rows,
            grid.wf(),
            grid.spec_rows() == rows,
            grid.spec_cols() == cols,
            i > 0 ==> carved(grid@, rows as int, cols as int, i - 1, 0, 0) && passage_count(grid@)
                == (rows - i) * cols,
            i == 0 ==> carved(grid@, rows as int, cols as int, 0, cols - 1, 0) && passage_count(
                grid@,
            ) + 1 == rows * cols,
        decreases i,
    {
        i = i - 1;
        let mut run_start: usize = 0;
        let mut j: usize = 0;
        while j < cols
            invariant
                1 <= rows <= MAX_DIM,
                1 <= cols <= MAX_DIM,
                i < rows,
                j <= cols,
                grid.wf(),
                grid.spec_rows() == rows,
                grid.spec_cols() == cols,
                i > 0 && j == cols ==> run_start == cols,
                carved(
                    grid@,
                    rows as int,
                    cols as int,
                    i as int,
                    if i == 0 && j == cols {
                        cols - 1
                    } else {
                        j as int
                    },
                    run_start as int,
                ),
                passage_count(grid@) == (rows - 1 - i) * cols + (if i == 0 && j == cols {
                    cols - 1
                } else {
                    j as int
                }),
            decreases cols - j,
        {
            if !(i == 0 && j == cols - 1) {
                let draw = rng.next_value();
                match pick_move(i, j, cols, draw) {
                    Move::North => {
                        let t = pick_target(run_start, j, rng.next_value());
                        proof {
                            lemma_carve_north(
                                grid@,
                                rows as int,
                                cols as int,
                                i as int,
                                j as int,
                                run_start as int,
                                t as int,
                            );
                        }
                        open_north(&mut grid, i, t);
                        run_start = j + 1;
                    },
                    Move::East => {
                        proof {
                            lemma_carve_east(
                                grid@,
                                rows as int,
                                cols as int,
                                i as int,
                                j as int,
                                run_start as int,
                            );
                        }
                        open_east(&mut grid, i, j);
                    },
                }
            }
            j = j + 1;
        }
        proof {
            if i > 0 {
                lemma_next_row(grid@, rows as int, cols as int, i as int);
                assert((rows - 1 - i) * cols + cols == (rows - i) * cols) by (nonlinear_arith);
            } else {
                assert((rows - 1 - 0) * cols + (cols - 1) + 1 == rows * cols) by (nonlinear_arith);
            }
        }
    }
    proof {
        lemma_carved_perfect(grid@, rows as int, cols as int);
    }
    Ok(grid)
}

/// Generates a maze by the Binary Tree algorithm: rows from the bottom up,
/// each from left to right, every cell but the last of the top row opened
/// either northwards or eastwards.
pub fn gen_btree<R: RandomSource>(rows: usize, cols: usize, rng: &mut R) -> (r: Result<
    Grid,
    MazeError,
>)
    ensures
        generated(r, rows, cols),
        r is Ok ==> binary_tree(r->Ok_0@),
{
    let mut grid = match Grid::new(rows, cols) {
        Ok(g) => g,
        Err(e) => {
            return Err(e);
        },
    };
    proof {
        lemma_carved_start(grid@, rows as int, cols as int);
    }
    let mut i: usize = rows;
    while i > 0
        invariant
            1 <= rows <= MAX_DIM,
            1 <= cols <= MAX_DIM,
            i <= rows,
            grid.wf(),
            grid.spec_rows() == rows,
            grid.spec_cols() == cols,
            i > 0 ==> carved(grid@, rows as int, cols as int, i - 1, 0, 0) && passage_count(grid@)
                == (rows - i) * cols,
            i == 0 ==> carved(grid@, rows as int, cols as int, 0, cols - 1, 0) && passage_count(
                grid@,
            ) + 1 == rows * cols,
            branches_before(grid@, rows as int, cols as int, i - 1, 0),
        decreases i,
    {
        i = i - 1;
        let ghost mut run_start: int = 0;
        let mut j: usize = 0;
        while j < cols
            invariant
                1 <= rows <= MAX_DIM,
                1 <= cols <= MAX_DIM,
                i < rows,
                j <= cols,
                grid.wf(),
                grid.spec_rows() == rows,
                grid.spec_cols() == cols,
                i > 0 && j == cols ==> run_start == cols,
                carved(
                    grid@,
                    rows as int,
                    cols as int,
                    i as int,
                    if i == 0 && j == cols {
                        cols - 1
                    } else {
                        j as int
                    },
                    run_start,
                ),
                passage_count(grid@) == (rows - 1 - i) * cols + (if i == 0 && j == cols {
                    cols - 1
                } else {
                    j as int
                }),
                branches_before(grid@, rows as int, cols as int, i as int, j as int),
            decreases cols - j,
        {
            if !(i == 0 && j == cols - 1) {
                let draw = rng.next_value();
                match pick_move(i, j, cols, draw) {
                    Move::North => {
                        proof {
                            lemma_carve_north(
                                grid@,
                                rows as int,
                                cols as int,
                                i as int,
                                j as int,
                                run_start,
                                j as int,
                            );
                            lemma_cells_north(grid@, rows as int, cols as int, i as int, j as int);
                            run_start = j + 1;
                        }
                        open_north(&mut grid, i, j);
                    },
                    Move::East => {
                        proof {
                            lemma_carve_east(
                                grid@,
                                rows as int,
                                cols as int,
                                i as int,
                                j as int,
                                run_start,
                            );
                            lemma_cells_east(grid@, rows as int, cols as int, i as int, j as int);
                        }
                        open_east(&mut grid, i, j);
                    },
                }
            }
            j = j + 1;
        }
        proof {
            if i > 0 {
                lemma_next_row(grid@, rows as int, cols as int, i as int);
                assert((rows - 1 - i) * cols + cols == (rows - i) * cols) by (nonlinear_arith);
            } else {
                assert((rows - 1 - 0) * cols + (cols - 1) + 1 == rows * cols) by (nonlinear_arith);
            }
        }
    }
    proof {
        lemma_carved_perfect(grid@, rows as int, cols as int);
    }
    Ok(grid)
}

} // verus!
