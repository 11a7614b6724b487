//! A maze cell: four flags, one per cardinal direction.

use vstd::prelude::*;

verus! {

/// One cell of the maze. A flag is `true` where the wall on that side has been
/// removed, so that a passage leads to the neighbour on that side.
#[derive(Clone, Copy, Debug, PartialEq, Eq, Structural)]
pub struct Cell {
    pub n: bool,
    pub e: bool,
    pub s: bool,
    pub w: bool,
}

impl Cell {
    /// The fully walled cell.
    pub open spec fn walled() -> Cell {
        Cell { n: false, e: false, s: false, w: false }
    }

    /// The cell with no wall at all.
    pub open spec fn unwalled() -> Cell {
        Cell { n: true, e: true, s: true, w: true }
    }
}

impl Default for Cell {
    fn default() -> (c: Cell)
        ensures
            c == Cell::walled(),
    {
        Cell { n: false, e: false, s: false, w: false }
    }
}

} // verus!
