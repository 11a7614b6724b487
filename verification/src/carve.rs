//! Opening passages, and what the carving of a maze keeps true along the way.

use vstd::prelude::*;
use crate::cell::Cell;
use crate::grid::{put, rectangular, Grid};
use crate::graph::{
    cell_passages, connected, enclosed, in_grid, lemma_connected_refl, lemma_connected_sym,
    lemma_connected_trans, lemma_prepend, linked, passage_count, passages_upto, perfect,
    row_passages, symmetric, Pos,
};

verus! {

/// `g` with the passage between `(i, j)` and the cell north of it opened, on
/// both sides.
pub open spec fn carve_north(g: Seq<Seq<Cell>>, i: int, j: int) -> Seq<Seq<Cell>> {
    let a = g[i][j];
    let g1 = put(g, i, j, Cell { n: true, e: a.e, s: a.s, w: a.w });
    let b = g1[i - 1][j];
    put(g1, i - 1, j, Cell { n: b.n, e: b.e, s: true, w: b.w })
}

/// `g` with the passage between `(i, j)` and the cell east of it opened, on
/// both sides.
pub open spec fn carve_east(g: Seq<Seq<Cell>>, i: int, j: int) -> Seq<Seq<Cell>> {
    let a = g[i][j];
    let g1 = put(g, i, j, Cell { n: a.n, e: true, s: a.s, w: a.w });
    let b = g1[i][j + 1];
    put(g1, i, j + 1, Cell { n: b.n, e: b.e, s: b.s, w: true })
}

/// Opens the passage from `(i, j)` to the north.
pub fn open_north(grid: &mut Grid, i: usize, j: usize)
    requires
        old(grid).wf(),
        0 < i < old(grid).spec_rows(),
        j < old(grid).spec_cols(),
    ensures
        final(grid)@ == carve_north(old(grid)@, i as int, j as int),
        final(grid).wf(),
        final(grid).spec_rows() == old(grid).spec_rows(),
        final(grid).spec_cols() == old(grid).spec_cols(),
{
    let a = grid.cell(i, j);
    grid.set_cell(i, j, Cell { n: true, e: a.e, s: a.s, w: a.w });
    let b = grid.cell(i - 1, j);
    grid.set_cell(i - 1, j, Cell { n: b.n, e: b.e, s: true, w: b.w });
}

/// Opens the passage from `(i, j)` to the east.
pub fn open_east(grid: &mut Grid, i: usize, j: usize)
    requires
        old(grid).wf(),
        i < old(grid).spec_rows(),
        j + 1 < old(grid).spec_cols(),
    ensures
        final(grid)@ == carve_east(old(grid)@, i as int, j as int),
        final(grid).wf(),
        final(grid).spec_rows() == old(grid).spec_rows(),
        final(grid).spec_cols() == old(grid).spec_cols(),
{
    let a = grid.cell(i, j);
    grid.set_cell(i, j, Cell { n: a.n, e: true, s: a.s, w: a.w });
    let b = grid.cell(i, j + 1);
    grid.set_cell(i, j + 1, Cell { n: b.n, e: b.e, s: b.s, w: true });
}

/// The top row is one corridor: each of its cells but the last is open to
/// the east.
pub open spec fn top_row_open(g: Seq<Seq<Cell>>) -> bool {
    forall|j: int| 0 <= j < g[0].len() - 1 ==> (#[trigger] g[0][j]).e
}

/// From `(i, j)` a corridor runs along row `i` to column `t`, where the row
/// is open to the north.
pub open spec fn exit_via(g: Seq<Seq<Cell>>, i: int, j: int, t: int) -> bool {
    &&& 0 <= t < g[i].len()
    &&& g[i][t].n
    &&& forall|k: int| (j <= k < t || t <= k < j) ==> (#[trigger] g[i][k]).e
}

/// Some corridor along its row leads from `(i, j)` to a way north.
pub open spec fn has_exit(g: Seq<Seq<Cell>>, i: int, j: int) -> bool {
    exists|t: int| exit_via(g, i, j, t)
}

/// What holds of a grid while it is carved from the bottom row up and, within
/// a row, from left to right. Row `i` is the current one, `j` the next column
/// in it, and `rs` the column at which the current run began.
pub open spec fn carved(g: Seq<Seq<Cell>>, rows: int, cols: int, i: int, j: int, rs: int) -> bool {
    &&& rectangular(g, rows, cols)
    &&& 0 <= i < rows
    &&& 0 <= rs <= j <= cols
    &&& (i == 0 ==> rs == 0)
    &&& symmetric(g)
    &&& enclosed(g)
    &&& forall|r: int, c: int| i < r < rows && 0 <= c < cols ==> #[trigger] has_exit(g, r, c)
    &&& forall|r: int, c: int|
        0 <= r < i && 0 <= c < cols ==> !(#[trigger] g[r][c]).n && !g[r][c].e
    &&& forall|c: int| 0 <= c < rs ==> #[trigger] has_exit(g, i, c)
    &&& forall|c: int| rs <= c < j ==> (#[trigger] g[i][c]).e
    &&& forall|c: int| j <= c < cols ==> !(#[trigger] g[i][c]).e
    &&& forall|c: int| rs <= c < cols ==> !(#[trigger] g[i][c]).n
    &&& (rs > 0 ==> !g[i][rs - 1].e)
    &&& forall|r: int, c: int, t1: int, t2: int|
        i < r < rows && 0 <= c < cols && #[trigger] exit_via(g, r, c, t1) && #[trigger] exit_via(
            g,
            r,
            c,
            t2,
        ) ==> t1 == t2
    &&& forall|c: int, t1: int, t2: int|
        0 <= c < rs && #[trigger] exit_via(g, i, c, t1) && #[trigger] exit_via(g, i, c, t2) ==> t1
            == t2
}

/// `g2` has the shape of `g` and every passage to the north or east that `g`
/// has.
spec fn grows(g: Seq<Seq<Cell>>, g2: Seq<Seq<Cell>>, rows: int, cols: int) -> bool {
    &&& rectangular(g, rows, cols)
    &&& rectangular(g2, rows, cols)
    &&& forall|i: int, j: int|
        0 <= i < rows && 0 <= j < cols ==> ((#[trigger] g[i][j]).n ==> g2[i][j].n) && (g[i][j].e
            ==> g2[i][j].e)
}

proof fn lemma_exit_grows(g: Seq<Seq<Cell>>, g2: Seq<Seq<Cell>>, rows: int, cols: int, i: int, j: int)
    requires
        grows(g, g2, rows, cols),
        0 <= i < rows,
        0 <= j < cols,
        has_exit(g, i, j),
    ensures
        has_exit(g2, i, j),
{
    let t = choose|t: int| exit_via(g, i, j, t);
    assert(g[i][t].n);
    assert forall|k: int| (j <= k < t || t <= k < j) implies (#[trigger] g2[i][k]).e by {
        assert(g[i][k].e);
    }
    assert(exit_via(g2, i, j, t));
}

/// A corridor to a way north that uses only what two grids share is there
/// in both.
proof fn lemma_exit_shared(g: Seq<Seq<Cell>>, g2: Seq<Seq<Cell>>, r: int, c: int, t: int)
    requires
        0 <= r < g.len(),
        g.len() == g2.len(),
        g[r].len() == g2[r].len(),
        exit_via(g2, r, c, t),
        g[r][t].n == g2[r][t].n,
        forall|k: int| (c <= k < t || t <= k < c) ==> (#[trigger] g[r][k]).e == g2[r][k].e,
    ensures
        exit_via(g, r, c, t),
{
    assert forall|k: int| (c <= k < t || t <= k < c) implies (#[trigger] g[r][k]).e by {
        assert(g2[r][k].e);
    }
}

proof fn lemma_row_put(g: Seq<Seq<Cell>>, rows: int, cols: int, i0: int, j0: int, c: Cell, i: int, n: int)
    requires
        rectangular(g, rows, cols),
        0 <= i0 < rows,
        0 <= j0 < cols,
        0 <= i < rows,
        0 <= n <= cols,
    ensures
        (i != i0 || n <= j0) ==> row_passages(put(g, i0, j0, c), i, n) == row_passages(g, i, n),
        (i == i0 && n > j0) ==> row_passages(put(g, i0, j0, c), i, n) + cell_passages(g, i0, j0)
            == row_passages(g, i, n) + cell_passages(put(g, i0, j0, c), i0, j0),
    decreases n,
{
    let g2 = put(g, i0, j0, c);
    if n > 0 {
        lemma_row_put(g, rows, cols, i0, j0, c, i, n - 1);
        assert(g[i].len() == cols);
        assert(g[i0].len() == cols);
        assert(g2 == g.update(i0, g[i0].update(j0, c)));
        assert(g2[i0] == g[i0].update(j0, c));
        if i != i0 {
            assert(g2[i] == g[i]);
        }
        assert(g2[i].len() == cols);
        if i + 1 < rows {
            assert(g2[i + 1].len() == cols);
        }
        if i != i0 || n - 1 != j0 {
            assert(g2[i][n - 1] == g[i][n - 1]);
            assert(cell_passages(g2, i, n - 1) == cell_passages(g, i, n - 1));
        }
    }
}

proof fn lemma_upto_put(g: Seq<Seq<Cell>>, rows: int, cols: int, i0: int, j0: int, c: Cell, m: int)
    requires
        rectangular(g, rows, cols),
        0 <= i0 < rows,
        0 <= j0 < cols,
        0 <= m <= rows,
    ensures
        m <= i0 ==> passages_upto(put(g, i0, j0, c), m) == passages_upto(g, m),
        m > i0 ==> passages_upto(put(g, i0, j0, c), m) + cell_passages(g, i0, j0) == passages_upto(
            g,
            m,
        ) + cell_passages(put(g, i0, j0, c), i0, j0),
    decreases m,
{
    let g2 = put(g, i0, j0, c);
    if m > 0 {
        lemma_upto_put(g, rows, cols, i0, j0, c, m - 1);
        lemma_row_put(g, rows, cols, i0, j0, c, m - 1, cols);
        assert(g2[m - 1].len() == cols);
    }
}

/// Replacing one cell changes the number of passages by what that cell counts.
proof fn lemma_count_put(g: Seq<Seq<Cell>>, rows: int, cols: int, i0: int, j0: int, c: Cell)
    requires
        rectangular(g, rows, cols),
        0 <= i0 < rows,
        0 <= j0 < cols,
    ensures
        rectangular(put(g, i0, j0, c), rows, cols),
        passage_count(put(g, i0, j0, c)) + cell_passages(g, i0, j0) == passage_count(g)
            + cell_passages(put(g, i0, j0, c), i0, j0),
{
    lemma_upto_put(g, rows, cols, i0, j0, c, rows);
    let g2 = put(g, i0, j0, c);
    assert forall|i: int| 0 <= i < rows implies (#[trigger] g2[i]).len() == cols by {
        assert(g[i].len() == cols);
    }
}

/// A grid with every cell walled has no passage.
pub proof fn lemma_walled_count(g: Seq<Seq<Cell>>, rows: int, cols: int, m: int, n: int)
    requires
        rectangular(g, rows, cols),
        forall|i: int, j: int| 0 <= i < rows && 0 <= j < cols ==> (#[trigger] g[i][j]) == Cell::walled(),
        0 <= m <= rows,
        0 <= n <= cols,
    ensures
        passages_upto(g, m) == 0,
        m < rows ==> row_passages(g, m, n) == 0,
    decreases m, n,
{
    if m > 0 {
        lemma_walled_count(g, rows, cols, m - 1, cols);
    }
    if m < rows && n > 0 {
        lemma_walled_count(g, rows, cols, m, n - 1);
        assert(g[m][n - 1] == Cell::walled());
    }
}

/// The fully walled grid is where carving starts.
pub proof fn lemma_carved_start(g: Seq<Seq<Cell>>, rows: int, cols: int)
    requires
        rows >= 1,
        cols >= 1,
        rectangular(g, rows, cols),
        forall|i: int, j: int| 0 <= i < rows && 0 <= j < cols ==> (#[trigger] g[i][j]) == Cell::walled(),
    ensures
        carved(g, rows, cols, rows - 1, 0, 0),
        passage_count(g) == 0,
{
    lemma_walled_count(g, rows, cols, rows, 0);
    assert forall|i: int, j: int| in_grid(g, i, j) implies !(#[trigger] g[i][j]).n && !g[i][j].e
        && !g[i][j].s && !g[i][j].w by {
        assert(g[i].len() == cols);
        assert(g[i][j] == Cell::walled());
    }
}

/// Carving east from the next cell of the current row extends the run.
pub proof fn lemma_carve_east(g: Seq<Seq<Cell>>, rows: int, cols: int, i: int, j: int, rs: int)
    requires
        carved(g, rows, cols, i, j, rs),
        j + 1 < cols,
    ensures
        carved(carve_east(g, i, j), rows, cols, i, j + 1, rs),
        passage_count(carve_east(g, i, j)) == passage_count(g) + 1,
{
    let a = g[i][j];
    let ca = Cell { n: a.n, e: true, s: a.s, w: a.w };
    let g1 = put(g, i, j, ca);
    let b = g1[i][j + 1];
    let cb = Cell { n: b.n, e: b.e, s: b.s, w: true };
    let g2 = put(g1, i, j + 1, cb);
    assert(g2 == carve_east(g, i, j));
    assert(g[i].len() == cols);
    assert(!a.e);
    lemma_count_put(g, rows, cols, i, j, ca);
    lemma_count_put(g1, rows, cols, i, j + 1, cb);
    assert(g1[i].len() == cols);
    assert(g1[i][j] == ca);
    assert(g2[i][j + 1] == cb);
    assert(cell_passages(g1, i, j) == cell_passages(g, i, j) + 1);
    assert(cell_passages(g2, i, j + 1) == cell_passages(g1, i, j + 1));
    lemma_cells_east(g, rows, cols, i, j);
    assert(grows(g, g2, rows, cols));
    assert forall|r: int, c: int| i < r < rows && 0 <= c < cols implies #[trigger] has_exit(
        g2,
        r,
        c,
    ) by {
        assert(has_exit(g, r, c));
        lemma_exit_grows(g, g2, rows, cols, r, c);
    }
    assert forall|c: int| 0 <= c < rs implies #[trigger] has_exit(g2, i, c) by {
        assert(has_exit(g, i, c));
        lemma_exit_grows(g, g2, rows, cols, i, c);
    }
    assert forall|r: int, c: int, t: int|
        0 <= r < rows && 0 <= c < cols && (r > i || c < rs) && #[trigger] exit_via(
            g2,
            r,
            c,
            t,
        ) implies exit_via(g, r, c, t) by {
        assert(g[r].len() == cols);
        assert(g2[r][t].n);
        assert(g[r][t].n);
        lemma_exit_shared(g, g2, r, c, t);
    }
}

/// Cell by cell, what carving east changes.
pub proof fn lemma_cells_east(g: Seq<Seq<Cell>>, rows: int, cols: int, i: int, j: int)
    requires
        rectangular(g, rows, cols),
        0 <= i < rows,
        0 <= j,
        j + 1 < cols,
    ensures
        rectangular(carve_east(g, i, j), rows, cols),
        forall|r: int, c: int|
            0 <= r < rows && 0 <= c < cols ==> (#[trigger] carve_east(g, i, j)[r][c]) == (if r == i
                && c == j {
                Cell { n: g[r][c].n, e: true, s: g[r][c].s, w: g[r][c].w }
            } else if r == i && c == j + 1 {
                Cell { n: g[r][c].n, e: g[r][c].e, s: g[r][c].s, w: true }
            } else {
                g[r][c]
            }),
{
    let g2 = carve_east(g, i, j);
    assert(g[i].len() == cols);
    assert forall|r: int| 0 <= r < rows implies (#[trigger] g2[r]).len() == cols by {
        assert(g[r].len() == cols);
    }
}

/// Cell by cell, what carving north changes.
pub proof fn lemma_cells_north(g: Seq<Seq<Cell>>, rows: int, cols: int, i: int, j: int)
    requires
        rectangular(g, rows, cols),
        0 < i < rows,
        0 <= j < cols,
    ensures
        rectangular(carve_north(g, i, j), rows, cols),
        forall|r: int, c: int|
            0 <= r < rows && 0 <= c < cols ==> (#[trigger] carve_north(g, i, j)[r][c]) == (if r == i
                && c == j {
                Cell { n: true, e: g[r][c].e, s: g[r][c].s, w: g[r][c].w }
            } else if r == i - 1 && c == j {
                Cell { n: g[r][c].n, e: g[r][c].e, s: true, w: g[r][c].w }
            } else {
                g[r][c]
            }),
{
    let g1 = put(g, i, j, Cell { n: true, e: g[i][j].e, s: g[i][j].s, w: g[i][j].w });
    let g2 = carve_north(g, i, j);
    assert(g[i].len() == cols);
    assert(g[i - 1].len() == cols);
    assert(g1[i - 1] == g[i - 1]);
    assert forall|r: int| 0 <= r < rows implies (#[trigger] g2[r]).len() == cols by {
        assert(g[r].len() == cols);
        if r != i {
            assert(g1[r] == g[r]);
        } else {
            assert(g1[r] == g[i].update(j, g1[i][j]));
        }
        assert(g1[r].len() == cols);
    }
}

/// Carving north from a cell of the current run closes the run.
pub proof fn lemma_carve_north(
    g: Seq<Seq<Cell>>,
    rows: int,
    cols: int,
    i: int,
    j: int,
    rs: int,
    t: int,
)
    requires
        carved(g, rows, cols, i, j, rs),
        i > 0,
        j < cols,
        rs <= t <= j,
    ensures
        carved(carve_north(g, i, t), rows, cols, i, j + 1, j + 1),
        passage_count(carve_north(g, i, t)) == passage_count(g) + 1,
{
    let a = g[i][t];
    let ca = Cell { n: true, e: a.e, s: a.s, w: a.w };
    let g1 = put(g, i, t, ca);
    let b = g1[i - 1][t];
    let cb = Cell { n: b.n, e: b.e, s: true, w: b.w };
    let g2 = put(g1, i - 1, t, cb);
    assert(g2 == carve_north(g, i, t));
    assert(g[i].len() == cols);
    assert(g[i - 1].len() == cols);
    assert(!a.n);
    assert(g[i - 1][t].s == g[i][t].n);
    lemma_count_put(g, rows, cols, i, t, ca);
    lemma_count_put(g1, rows, cols, i - 1, t, cb);
    assert(g1[i].len() == cols);
    assert(g1[i - 1].len() == cols);
    assert(g1[i][t] == ca);
    assert(b == g[i - 1][t]);
    assert(g2[i - 1][t] == cb);
    assert(g2[i].len() == cols);
    assert(cell_passages(g1, i, t) == cell_passages(g, i, t));
    assert(cell_passages(g2, i - 1, t) == cell_passages(g1, i - 1, t) + 1);
    lemma_cells_north(g, rows, cols, i, t);
    assert(grows(g, g2, rows, cols));
    assert forall|r: int, c: int| i < r < rows && 0 <= c < cols implies #[trigger] has_exit(
        g2,
        r,
        c,
    ) by {
        assert(has_exit(g, r, c));
        lemma_exit_grows(g, g2, rows, cols, r, c);
    }
    assert forall|c: int| 0 <= c < j + 1 implies #[trigger] has_exit(g2, i, c) by {
        if c < rs {
            assert(has_exit(g, i, c));
            lemma_exit_grows(g, g2, rows, cols, i, c);
        } else {
            assert(g2[i][t].n);
            assert forall|k: int| (c <= k < t || t <= k < c) implies (#[trigger] g2[i][k]).e by {
                assert(g[i][k].e);
            }
            assert(exit_via(g2, i, c, t));
        }
    }
    lemma_north_once(g, rows, cols, i, j, rs, t);
}

/// Closing a run by carving north leaves every cell of the row so far with
/// one way north only.
proof fn lemma_north_once(g: Seq<Seq<Cell>>, rows: int, cols: int, i: int, j: int, rs: int, t: int)
    requires
        carved(g, rows, cols, i, j, rs),
        i > 0,
        j < cols,
        rs <= t <= j,
    ensures
        forall|r: int, c: int, t1: int, t2: int|
            i < r < rows && 0 <= c < cols && #[trigger] exit_via(carve_north(g, i, t), r, c, t1)
                && #[trigger] exit_via(carve_north(g, i, t), r, c, t2) ==> t1 == t2,
        forall|c: int, t1: int, t2: int|
            0 <= c < j + 1 && #[trigger] exit_via(carve_north(g, i, t), i, c, t1)
                && #[trigger] exit_via(carve_north(g, i, t), i, c, t2) ==> t1 == t2,
{
    let g2 = carve_north(g, i, t);
    lemma_cells_north(g, rows, cols, i, t);
    assert(g[i].len() == cols);
    assert(g2[i].len() == cols);
    assert forall|r: int, c: int, u: int|
        i < r < rows && 0 <= c < cols && #[trigger] exit_via(g2, r, c, u) implies exit_via(
        g,
        r,
        c,
        u,
    ) by {
        assert(g[r].len() == cols);
        lemma_exit_shared(g, g2, r, c, u);
    }
    assert forall|c: int, u: int| 0 <= c < j + 1 && #[trigger] exit_via(g2, i, c, u) implies (if c
        < rs {
        exit_via(g, i, c, u)
    } else {
        u == t
    }) by {
        assert(g2[i][u].n);
        if u != t {
            assert(g[i][u].n);
            assert(u < rs);
            if c >= rs {
                assert(g2[i][rs - 1].e);
            } else {
                lemma_exit_shared(g, g2, i, c, u);
            }
        } else {
            if c < rs {
                assert(g2[i][rs - 1].e);
            }
        }
    }
    assert forall|r: int, c: int, t1: int, t2: int|
        i < r < rows && 0 <= c < cols && #[trigger] exit_via(g2, r, c, t1) && #[trigger] exit_via(
            g2,
            r,
            c,
            t2,
        ) implies t1 == t2 by {
        assert(exit_via(g, r, c, t1));
        assert(exit_via(g, r, c, t2));
    }
    assert forall|c: int, t1: int, t2: int|
        0 <= c < j + 1 && #[trigger] exit_via(g2, i, c, t1) && #[trigger] exit_via(
            g2,
            i,
            c,
            t2,
        ) implies t1 == t2 by {
        if c < rs {
            assert(exit_via(g, i, c, t1));
            assert(exit_via(g, i, c, t2));
        }
    }
}

/// A finished row hands over to the row above it.
pub proof fn lemma_next_row(g: Seq<Seq<Cell>>, rows: int, cols: int, i: int)
    requires
        carved(g, rows, cols, i, cols, cols),
        i > 0,
    ensures
        carved(g, rows, cols, i - 1, 0, 0),
{
}

proof fn lemma_walk_east(g: Seq<Seq<Cell>>, i: int, j: int, t: int, b: Pos)
    requires
        0 <= i < g.len(),
        0 <= j <= t < g[i].len(),
        forall|k: int| j <= k < t ==> (#[trigger] g[i][k]).e,
        connected(g, (i, t), b),
    ensures
        connected(g, (i, j), b),
    decreases t - j,
{
    if j < t {
        lemma_walk_east(g, i, j + 1, t, b);
        assert(g[i][j].e);
        assert(linked(g, (i, j), (i, j + 1)));
        lemma_prepend(g, (i, j), (i, j + 1), b);
    }
}

proof fn lemma_walk_west(g: Seq<Seq<Cell>>, i: int, j: int, t: int, b: Pos)
    requires
        symmetric(g),
        0 <= i < g.len(),
        0 <= t <= j < g[i].len(),
        forall|k: int| t <= k < j ==> (#[trigger] g[i][k]).e,
        connected(g, (i, t), b),
    ensures
        connected(g, (i, j), b),
    decreases j - t,
{
    if t < j {
        lemma_walk_west(g, i, j - 1, t, b);
        assert(g[i][j - 1].e);
        assert(g[i][j - 1].e == g[i][j - 1 + 1].w);
        assert(linked(g, (i, j), (i, j - 1)));
        lemma_prepend(g, (i, j), (i, j - 1), b);
    }
}

/// In a carved grid every cell is joined to the last cell of the top row.
proof fn lemma_reach_corner(g: Seq<Seq<Cell>>, rows: int, cols: int, i: int, j: int)
    requires
        carved(g, rows, cols, 0, cols - 1, 0),
        0 <= i < rows,
        0 <= j < cols,
    ensures
        connected(g, (i, j), (0, cols - 1)),
    decreases i,
{
    let corner = (0int, cols - 1);
    assert(g[i].len() == cols);
    assert(g[0].len() == cols);
    if i == 0 {
        lemma_connected_refl(g, corner);
        lemma_walk_east(g, 0, j, cols - 1, corner);
    } else {
        assert(has_exit(g, i, j));
        let t = choose|t: int| exit_via(g, i, j, t);
        lemma_reach_corner(g, rows, cols, i - 1, t);
        assert(g[i - 1].len() == cols);
        assert(linked(g, (i, t), (i - 1, t)));
        lemma_prepend(g, (i, t), (i - 1, t), corner);
        if j <= t {
            lemma_walk_east(g, i, j, t, corner);
        } else {
            lemma_walk_west(g, i, j, t, corner);
        }
    }
}

/// Below the top row, every cell has a corridor along its row to a way
/// north, and to one only: each run of cells joined eastwards opens
/// northwards exactly once.
pub open spec fn rows_lead_north(g: Seq<Seq<Cell>>) -> bool {
    &&& forall|i: int, j: int|
        1 <= i < g.len() && 0 <= j < g[i].len() ==> #[trigger] has_exit(g, i, j)
    &&& forall|i: int, j: int, t1: int, t2: int|
        1 <= i < g.len() && 0 <= j < g[i].len() && #[trigger] exit_via(g, i, j, t1)
            && #[trigger] exit_via(g, i, j, t2) ==> t1 == t2
}

/// A grid carved to the end, with one passage fewer than cells, is a perfect
/// maze whose top row is one corridor and whose other rows lead north.
pub proof fn lemma_carved_perfect(g: Seq<Seq<Cell>>, rows: int, cols: int)
    requires
        carved(g, rows, cols, 0, cols - 1, 0),
        passage_count(g) + 1 == rows * cols,
    ensures
        perfect(g),
        top_row_open(g),
        rows_lead_north(g),
{
    let corner = (0int, cols - 1);
    assert(g[0].len() == cols);
    assert forall|i: int, j: int| 1 <= i < g.len() && 0 <= j < g[i].len() implies #[trigger] has_exit(
        g,
        i,
        j,
    ) by {
        assert(g[i].len() == cols);
    }
    assert forall|i: int, j: int, t1: int, t2: int|
        1 <= i < g.len() && 0 <= j < g[i].len() && #[trigger] exit_via(g, i, j, t1)
            && #[trigger] exit_via(g, i, j, t2) implies t1 == t2 by {
        assert(g[i].len() == cols);
    }
    assert forall|a: Pos, b: Pos|
        in_grid(g, a.0, a.1) && in_grid(g, b.0, b.1) implies #[trigger] connected(g, a, b) by {
        assert(g[a.0].len() == cols);
        assert(g[b.0].len() == cols);
        lemma_reach_corner(g, rows, cols, a.0, a.1);
        lemma_reach_corner(g, rows, cols, b.0, b.1);
        assert((a.0, a.1) == a);
        assert((b.0, b.1) == b);
        lemma_connected_sym(g, b, corner);
        lemma_connected_trans(g, a, corner, b);
    }
}

} // verus!
