//! The grid of cells, held in a two-dimensional `ndarray` array.

use vstd::prelude::*;
use crate::cell::Cell;

verus! {

/// The largest number of rows, and of columns, that a grid may have. It keeps
/// the grid, and the picture drawn from it, within what a 32-bit machine can
/// allocate and index.
pub const MAX_DIM: usize = 16383;

/// Why a grid could not be made.
#[derive(Clone, Copy, Debug, PartialEq, Eq, Structural)]
pub enum MazeError {
    /// A dimension was zero.
    InvalidDimension,
    /// A dimension was above `MAX_DIM`.
    DimensionTooLarge,
}

/// A two-dimensional `ndarray::Array2` of cells. Verus does not look inside;
/// all that is known of it comes from the contracts of the four functions
/// below, which are believed, not proved.
#[verifier::external_body]
pub struct CellArray {
    inner: ndarray::Array2<Cell>,
}

/// The cells that an array holds: one sequence per row, top row first.
pub uninterp spec fn cell_array_rows(a: CellArray) -> Seq<Seq<Cell>>;

/// `ndarray::Array2::default` with the shape `(rows, cols)`: an array of that
/// many rows and columns in which every element is `Cell::default()`. The
/// call panics where the number of elements overflows `isize`, which the
/// bound on both dimensions excludes.
#[verifier::external_body]
fn cell_array_new(rows: usize, cols: usize) -> (a: CellArray)
    requires
        rows <= MAX_DIM,
        cols <= MAX_DIM,
    ensures
        rectangular(cell_array_rows(a), rows as int, cols as int),
        forall|i: int, j: int|
            0 <= i < rows && 0 <= j < cols ==> (#[trigger] cell_array_rows(a)[i][j])
                == Cell::walled(),
{
    CellArray { inner: ndarray::Array2::<Cell>::default((rows, cols)) }
}

/// `ndarray::ArrayBase::dim` of a two-dimensional array: the number of rows
/// and the number of columns.
#[verifier::external_body]
fn cell_array_dim(a: &CellArray) -> (d: (usize, usize))
    ensures
        rectangular(cell_array_rows(*a), d.0 as int, d.1 as int),
{
    a.inner.dim()
}

/// Indexing an `ndarray` array by `(i, j)`: the element in row `i`, column
/// `j`. Out of bounds it panics, so both indices are required in bounds.
#[verifier::external_body]
fn cell_array_get(a: &CellArray, i: usize, j: usize) -> (c: Cell)
    requires
        i < cell_array_rows(*a).len(),
        j < cell_array_rows(*a)[i as int].len(),
    ensures
        c == cell_array_rows(*a)[i as int][j as int],
{
    a.inner[(i, j)]
}

/// Assigning through the mutable index `(i, j)` of an `ndarray` array: that
/// one element is replaced and nothing else changes. Out of bounds it
/// panics, so both indices are required in bounds.
#[verifier::external_body]
fn cell_array_set(a: &mut CellArray, i: usize, j: usize, c: Cell)
    requires
        i < cell_array_rows(*old(a)).len(),
        j < cell_array_rows(*old(a))[i as int].len(),
    ensures
        cell_array_rows(*final(a)) == put(cell_array_rows(*old(a)), i as int, j as int, c),
{
    a.inner[(i, j)] = c;
}

/// `g` has `rows` rows of `cols` cells each.
pub open spec fn rectangular<T>(g: Seq<Seq<T>>, rows: int, cols: int) -> bool {
    &&& g.len() == rows
    &&& forall|i: int| 0 <= i < rows ==> (#[trigger] g[i]).len() == cols
}

/// `g` with the element in row `i`, column `j` replaced by `c`.
pub open spec fn put<T>(g: Seq<Seq<T>>, i: int, j: int, c: T) -> Seq<Seq<T>> {
    g.update(i, g[i].update(j, c))
}

/// A rectangular grid of cells.
pub struct Grid {
    cells: CellArray,
}

impl View for Grid {
    type V = Seq<Seq<Cell>>;

    closed spec fn view(&self) -> Seq<Seq<Cell>> {
        cell_array_rows(self.cells)
    }
}

impl Grid {
    /// The number of rows.
    pub open spec fn spec_rows(&self) -> int {
        self@.len() as int
    }

    /// The number of columns.
    pub open spec fn spec_cols(&self) -> int {
        if self@.len() > 0 {
            self@[0].len() as int
        } else {
            0
        }
    }

    /// A grid is well formed when it is rectangular and each dimension lies
    /// between 1 and `MAX_DIM`.
    pub open spec fn wf(&self) -> bool {
        &&& 1 <= self.spec_rows() <= MAX_DIM
        &&& 1 <= self.spec_cols() <= MAX_DIM
        &&& rectangular(self@, self.spec_rows(), self.spec_cols())
    }

    /// A grid of the given dimensions with every cell fully walled.
    pub fn new(rows: usize, cols: usize) -> (r: Result<Grid, MazeError>)
        ensures
            (rows == 0 || cols == 0) <==> r == Err::<Grid, MazeError>(MazeError::InvalidDimension),
            (rows > 0 && cols > 0 && (rows > MAX_DIM || cols > MAX_DIM)) <==> r == Err::<
                Grid,
                MazeError,
            >(MazeError::DimensionTooLarge),
            r is Ok <==> 1 <= rows <= MAX_DIM && 1 <= cols <= MAX_DIM,
            r is Ok ==> {
                let g = r->Ok_0;
                &&& g.wf()
                &&& g.spec_rows() == rows
                &&& g.spec_cols() == cols
                &&& forall|i: int, j: int|
                    0 <= i < rows && 0 <= j < cols ==> (#[trigger] g@[i][j]) == Cell::walled()
            },
    {
        if rows == 0 || cols == 0 {
            return Err(MazeError::InvalidDimension);
        }
        if rows > MAX_DIM || cols > MAX_DIM {
            return Err(MazeError::DimensionTooLarge);
        }
        Ok(Grid { cells: cell_array_new(rows, cols) })
    }

    /// The number of rows.
    pub fn rows(&self) -> (n: usize)
        requires
            self.wf(),
        ensures
            n == self.spec_rows(),
    {
        cell_array_dim(&self.cells).0
    }

    /// The number of columns.
    pub fn cols(&self) -> (n: usize)
        requires
            self.wf(),
        ensures
            n == self.spec_cols(),
    {
        cell_array_dim(&self.cells).1
    }

    /// The cell in row `i`, column `j`.
    pub fn cell(&self, i: usize, j: usize) -> (c: Cell)
        requires
            self.wf(),
            i < self.spec_rows(),
            j < self.spec_cols(),
        ensures
            c == self@[i as int][j as int],
    {
        cell_array_get(&self.cells, i, j)
    }

    /// Replaces the cell in row `i`, column `j`.
    pub fn set_cell(&mut self, i: usize, j: usize, c: Cell)
        requires
            old(self).wf(),
            i < old(self).spec_rows(),
            j < old(self).spec_cols(),
        ensures
            final(self)@ == put(old(self)@, i as int, j as int, c),
            final(self).wf(),
            final(self).spec_rows() == old(self).spec_rows(),
            final(self).spec_cols() == old(self).spec_cols(),
    {
        cell_array_set(&mut self.cells, i, j, c);
    }
}

} // verus!
