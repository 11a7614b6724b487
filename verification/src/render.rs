//! The picture of a grid: one junction code for every point where walls can
//! meet, and the lines of glyphs that show them.

use vstd::prelude::*;
use crate::cell::Cell;
use crate::glyph::{
    glyph, glyph_of, lemma_arms_code, lemma_or_codes, rotate_wall_bit, Arms, Direction, Vec2i,
};
use crate::graph::in_grid;
use crate::grid::{put, rectangular, Grid, MAX_DIM};

verus! {

/// A two-dimensional `ndarray::Array2` of junction codes. Verus does not look
/// inside; all that is known of it comes from the contracts of the four
/// functions below, which are believed, not proved.
#[verifier::external_body]
pub struct CodeArray {
    inner: ndarray::Array2<u8>,
}

/// The codes that an array holds: one sequence per row, top row first.
pub uninterp spec fn code_array_rows(a: CodeArray) -> Seq<Seq<u8>>;

/// `ndarray::Array2::zeros` with the shape `(rows, cols)`: an array of that
/// many rows and columns in which every element is 0. The call panics where
/// the number of elements overflows `isize`, which the bound on both
/// dimensions excludes.
#[verifier::external_body]
fn code_array_zeros(rows: usize, cols: usize) -> (a: CodeArray)
    requires
        rows <= 2 * MAX_DIM + 1,
        cols <= 2 * MAX_DIM + 1,
    ensures
        rectangular(code_array_rows(a), rows as int, cols as int),
        forall|i: int, j: int|
            0 <= i < rows && 0 <= j < cols ==> (#[trigger] code_array_rows(a)[i][j]) == 0,
{
    CodeArray { inner: ndarray::Array2::<u8>::zeros((rows, cols)) }
}

/// `ndarray::ArrayBase::dim` of a two-dimensional array: the number of rows
/// and the number of columns.
#[verifier::external_body]
fn code_array_dim(a: &CodeArray) -> (d: (usize, usize))
    ensures
        rectangular(code_array_rows(*a), d.0 as int, d.1 as int),
{
    a.inner.dim()
}

/// Indexing an `ndarray` array by `(i, j)`: the element in row `i`, column
/// `j`. Out of bounds it panics, so both indices are required in bounds.
#[verifier::external_body]
fn code_array_get(a: &CodeArray, i: usize, j: usize) -> (c: u8)
    requires
        i < code_array_rows(*a).len(),
        j < code_array_rows(*a)[i as int].len(),
    ensures
        c == code_array_rows(*a)[i as int][j as int],
{
    a.inner[(i, j)]
}

/// Assigning through the mutable index `(i, j)` of an `ndarray` array: that
/// one element is replaced and nothing else changes. Out of bounds it
/// panics, so both indices are required in bounds.
#[verifier::external_body]
fn code_array_set(a: &mut CodeArray, i: usize, j: usize, c: u8)
    requires
        i < code_array_rows(*old(a)).len(),
        j < code_array_rows(*old(a))[i as int].len(),
    ensures
        code_array_rows(*final(a)) == put(code_array_rows(*old(a)), i as int, j as int, c),
{
    a.inner[(i, j)] = c;
}

/// Whether a cell is open towards `d`.
pub open spec fn open_towards(c: Cell, d: Direction) -> bool {
    match d {
        Direction::North => c.n,
        Direction::East => c.e,
        Direction::South => c.s,
        Direction::West => c.w,
    }
}

/// The cell with its side towards `d` walled.
pub open spec fn walled_towards(c: Cell, d: Direction) -> Cell {
    Cell {
        n: c.n && d != Direction::North,
        e: c.e && d != Direction::East,
        s: c.s && d != Direction::South,
        w: c.w && d != Direction::West,
    }
}

/// There is a cell at `(i, j)` and it has a wall towards `d`.
pub open spec fn wall(g: Seq<Seq<Cell>>, i: int, j: int, d: Direction) -> bool {
    in_grid(g, i, j) && !open_towards(g[i][j], d)
}

/// The walls that meet at the point `(r, c)` of the picture. Cell `(i, j)`
/// has its middle at `(2i + 1, 2j + 1)`, where there is never a wall. Between
/// two middles lies the wall that parts the two cells, drawn when either
/// cell has it; at the points with both coordinates even the walls of up to
/// four cells meet.
pub open spec fn junction(g: Seq<Seq<Cell>>, r: int, c: int) -> Arms {
    let i = r / 2;
    let j = c / 2;
    if r % 2 == 1 && c % 2 == 1 {
        Arms::none()
    } else if r % 2 == 1 {
        let v = wall(g, i, j - 1, Direction::East) || wall(g, i, j, Direction::West);
        Arms { n: v, e: false, s: v, w: false }
    } else if c % 2 == 1 {
        let h = wall(g, i - 1, j, Direction::South) || wall(g, i, j, Direction::North);
        Arms { n: false, e: h, s: false, w: h }
    } else {
        Arms {
            n: wall(g, i - 1, j - 1, Direction::East) || wall(g, i - 1, j, Direction::West),
            e: wall(g, i - 1, j, Direction::South) || wall(g, i, j, Direction::North),
            s: wall(g, i, j - 1, Direction::East) || wall(g, i, j, Direction::West),
            w: wall(g, i - 1, j - 1, Direction::South) || wall(g, i, j - 1, Direction::North),
        }
    }
}

/// `p` is the picture of `g`: twice as many rows and columns and one more,
/// each point holding the code of the walls that meet there.
pub open spec fn depicts(p: Seq<Seq<u8>>, g: Seq<Seq<Cell>>) -> bool {
    &&& g.len() >= 1
    &&& rectangular(p, 2 * g.len() as int + 1, 2 * g[0].len() as int + 1)
    &&& forall|r: int, c: int|
        0 <= r < 2 * g.len() + 1 && 0 <= c < 2 * g[0].len() + 1 ==> (#[trigger] p[r][c])
            == junction(g, r, c).code()
}

/// `depicts`, kept folded while the picture is drawn.
#[verifier::opaque]
spec fn shows(p: Seq<Seq<u8>>, g: Seq<Seq<Cell>>) -> bool {
    depicts(p, g)
}

/// A grid has one picture only: whatever draws the picture of a grid, and
/// however often, the same codes come out.
pub proof fn lemma_picture_unique(p: Seq<Seq<u8>>, q: Seq<Seq<u8>>, g: Seq<Seq<Cell>>)
    requires
        depicts(p, g),
        depicts(q, g),
    ensures
        p == q,
{
    assert forall|r: int| 0 <= r < p.len() implies #[trigger] p[r] == q[r] by {
        assert forall|c: int| 0 <= c < p[r].len() implies p[r][c] == q[r][c] by {
            assert(p[r][c] == junction(g, r, c).code());
            assert(q[r][c] == junction(g, r, c).code());
        }
        assert(p[r] =~= q[r]);
    }
    assert(p =~= q);
}

/// What one wall adds to one point of the picture.
#[derive(Clone, Copy, Debug, PartialEq, Eq, Structural)]
pub struct Contribution {
    pub row: usize,
    pub col: usize,
    pub bits: u8,
}

/// The three contributions of the wall towards `d` of the cell whose middle
/// is at `(r, c)`, in this order: the corner reached by stepping towards `d`
/// and then along the wall one way, the corner the other way, and the point
/// between them. Each corner gets the arm that points along the wall to the
/// other corner, the point between them both arms.
pub open spec fn wall_marks(d: Direction, r: int, c: int) -> Seq<(int, int, Arms)> {
    let (dr, dc) = d.spec_delta();
    let first = d.turned(dr != 0).arm();
    let second = d.turned(dr == 0).arm();
    seq![
        (r + dr + dc, c + dc + dr, first),
        (r + dr - dc, c + dc - dr, second),
        (r + dr, c + dc, first.union(second)),
    ]
}

/// `k` is the `n`-th mark of `marks`.
pub open spec fn is_mark(k: Contribution, marks: Seq<(int, int, Arms)>, n: int) -> bool {
    k.row == marks[n].0 && k.col == marks[n].1 && k.bits == marks[n].2.code()
}

/// Computes the three contributions of one wall of the cell whose middle is
/// at `(r, c)`.
pub fn wall_contributions(d: Direction, r: usize, c: usize) -> (k: (
    Contribution,
    Contribution,
    Contribution,
))
    requires
        1 <= r <= 2 * MAX_DIM,
        1 <= c <= 2 * MAX_DIM,
    ensures
        is_mark(k.0, wall_marks(d, r as int, c as int), 0),
        is_mark(k.1, wall_marks(d, r as int, c as int), 1),
        is_mark(k.2, wall_marks(d, r as int, c as int), 2),
{
    let dir = d.delta();
    let along = Vec2i::new(dir.y, dir.x);
    let middle = Vec2i::new(r as i32, c as i32).plus(dir);
    let one = middle.plus(along);
    let other = middle.minus(along);
    let first: u8 = rotate_wall_bit(d, dir.x != 0);
    let second: u8 = rotate_wall_bit(d, dir.x == 0);
    proof {
        lemma_or_codes(d.turned(dir.x != 0).arm(), d.turned(dir.x == 0).arm());
    }
    (
        Contribution { row: one.x as usize, col: one.y as usize, bits: first },
        Contribution { row: other.x as usize, col: other.y as usize, bits: second },
        Contribution { row: middle.x as usize, col: middle.y as usize, bits: first | second },
    )
}

/// The junction codes of a maze, one for each point of its picture.
pub struct Picture {
    codes: CodeArray,
}

impl View for Picture {
    type V = Seq<Seq<u8>>;

    closed spec fn view(&self) -> Seq<Seq<u8>> {
        code_array_rows(self.codes)
    }
}

impl Picture {
    /// The number of rows.
    pub open spec fn spec_rows(&self) -> int {
        self@.len() as int
    }

    /// The number of columns.
    pub open spec fn spec_cols(&self) -> int {
        if self@.len() > 0 {
            self@[0].len() as int
        } else {
            0
        }
    }

    /// A picture is well formed when it is rectangular, within the size of
    /// the picture of the largest grid, and holds junction codes only.
    pub open spec fn wf(&self) -> bool {
        &&& 1 <= self.spec_rows() <= 2 * MAX_DIM + 1
        &&& 1 <= self.spec_cols() <= 2 * MAX_DIM + 1
        &&& rectangular(self@, self.spec_rows(), self.spec_cols())
        &&& forall|r: int, c: int|
            0 <= r < self.spec_rows() && 0 <= c < self.spec_cols() ==> (#[trigger] self@[r][c]) < 16
    }

    /// The number of rows.
    pub fn rows(&self) -> (n: usize)
        requires
            self.wf(),
        ensures
            n == self.spec_rows(),
    {
        code_array_dim(&self.codes).0
    }

    /// The number of columns.
    pub fn cols(&self) -> (n: usize)
        requires
            self.wf(),
        ensures
            n == self.spec_cols(),
    {
        code_array_dim(&self.codes).1
    }

    /// The junction code at row `r`, column `c`.
    pub fn code(&self, r: usize, c: usize) -> (x: u8)
        requires
            self.wf(),
            r < self.spec_rows(),
            c < self.spec_cols(),
        ensures
            x == self@[r as int][c as int],
            x < 16,
    {
        code_array_get(&self.codes, r, c)
    }

    /// A picture of the given size with the code 0 at every point.
    fn blank(rows: usize, cols: usize) -> (pic: Picture)
        requires
            1 <= rows <= 2 * MAX_DIM + 1,
            1 <= cols <= 2 * MAX_DIM + 1,
        ensures
            rectangular(pic@, rows as int, cols as int),
            forall|r: int, c: int| 0 <= r < rows && 0 <= c < cols ==> (#[trigger] pic@[r][c]) == 0,
    {
        Picture { codes: code_array_zeros(rows, cols) }
    }

    /// Sets the code at one point to 0.
    fn clear(&mut self, r: usize, c: usize)
        requires
            r < old(self)@.len(),
            c < old(self)@[r as int].len(),
        ensures
            final(self)@ == put(old(self)@, r as int, c as int, 0u8),
    {
        code_array_set(&mut self.codes, r, c, 0);
    }

    /// Adds the bits of one contribution to the code at its point.
    fn mark(&mut self, k: Contribution)
        requires
            k.row < old(self)@.len(),
            k.col < old(self)@[k.row as int].len(),
        ensures
            final(self)@ == put(
                old(self)@,
                k.row as int,
                k.col as int,
                old(self)@[k.row as int][k.col as int] | k.bits,
            ),
    {
        let x = code_array_get(&self.codes, k.row, k.col);
        code_array_set(&mut self.codes, k.row, k.col, x | k.bits);
    }

    /// Draws the wall towards `d` of cell `(i, j)` into the picture of a grid
    /// that has no wall there yet.
    #[verifier::rlimit(50)]
    fn add_wall(&mut self, d: Direction, i: usize, j: usize, Ghost(g): Ghost<Seq<Seq<Cell>>>)
        requires
            shows(old(self)@, g),
            g.len() <= MAX_DIM,
            1 <= g[0].len() <= MAX_DIM,
            rectangular(g, g.len() as int, g[0].len() as int),
            in_grid(g, i as int, j as int),
            open_towards(g[i as int][j as int], d),
        ensures
            shows(final(self)@, put(g, i as int, j as int, walled_towards(g[i as int][j as int], d))),
    {
        reveal(shows);
        let ghost g2 = put(g, i as int, j as int, walled_towards(g[i as int][j as int], d));
        let ghost before = self@;
        let ghost marks = wall_marks(d, 2 * i + 1, 2 * j + 1);
        assert(g[i as int].len() == g[0].len());
        let k = wall_contributions(d, 2 * i + 1, 2 * j + 1);
        proof {
            assert(before[k.0.row as int].len() == 2 * g[0].len() + 1);
            assert(before[k.1.row as int].len() == 2 * g[0].len() + 1);
            assert(before[k.2.row as int].len() == 2 * g[0].len() + 1);
        }
        self.mark(k.0);
        let ghost once = self@;
        proof {
            lemma_put_shape(before, 2 * g.len() as int + 1, 2 * g[0].len() as int + 1, k.0.row as int, k.0.col as int, once[k.0.row as int][k.0.col as int]);
        }
        self.mark(k.1);
        let ghost twice = self@;
        proof {
            lemma_put_shape(once, 2 * g.len() as int + 1, 2 * g[0].len() as int + 1, k.1.row as int, k.1.col as int, twice[k.1.row as int][k.1.col as int]);
        }
        self.mark(k.2);
        let ghost after = self@;
        proof {
            lemma_put_shape(twice, 2 * g.len() as int + 1, 2 * g[0].len() as int + 1, k.2.row as int, k.2.col as int, after[k.2.row as int][k.2.col as int]);
            lemma_put_shape(g, g.len() as int, g[0].len() as int, i as int, j as int, g2[i as int][j as int]);
            assert forall|r: int, c: int|
                0 <= r < 2 * g2.len() + 1 && 0 <= c < 2 * g2[0].len() + 1 implies (#[trigger] after[r][c])
                == junction(g2, r, c).code() by {
                assert(before[r][c] == junction(g, r, c).code());
                lemma_mark_junction(g, i as int, j as int, d, r, c);
                lemma_or_codes(junction(g, r, c), marks[0].2);
                lemma_or_codes(junction(g, r, c), marks[1].2);
                lemma_or_codes(junction(g, r, c), marks[2].2);
            }
        }
    }

    /// Draws the wall towards `d` of cell `(i, j)`, which is `c`, if it has
    /// one, into the picture of a grid in which that cell, `cur`, is still
    /// open that way.
    fn draw_side(
        &mut self,
        c: Cell,
        d: Direction,
        i: usize,
        j: usize,
        Ghost(g): Ghost<Seq<Seq<Cell>>>,
        Ghost(cur): Ghost<Cell>,
    )
        requires
            shows(old(self)@, put(g, i as int, j as int, cur)),
            g.len() <= MAX_DIM,
            1 <= g[0].len() <= MAX_DIM,
            rectangular(g, g.len() as int, g[0].len() as int),
            in_grid(g, i as int, j as int),
            open_towards(cur, d),
        ensures
            shows(
                final(self)@,
                put(
                    g,
                    i as int,
                    j as int,
                    if open_towards(c, d) {
                        cur
                    } else {
                        walled_towards(cur, d)
                    },
                ),
            ),
    {
        let open = match d {
            Direction::North => c.n,
            Direction::East => c.e,
            Direction::South => c.s,
            Direction::West => c.w,
        };
        if !open {
            proof {
                let rows = g.len() as int;
                let cols = g[0].len() as int;
                assert(g[i as int].len() == cols);
                lemma_put_shape(g, rows, cols, i as int, j as int, cur);
                lemma_put_again(g, rows, cols, i as int, j as int, cur, walled_towards(cur, d));
                assert(put(g, i as int, j as int, cur)[0].len() == cols);
                assert(put(g, i as int, j as int, cur)[i as int].len() == cols);
            }
            self.add_wall(d, i, j, Ghost(put(g, i as int, j as int, cur)));
        }
    }

    /// Blanks the middle of cell `(i, j)`, where there is never a wall.
    fn blank_middle(&mut self, i: usize, j: usize, Ghost(g): Ghost<Seq<Seq<Cell>>>)
        requires
            shows(old(self)@, g),
            g.len() <= MAX_DIM,
            1 <= g[0].len() <= MAX_DIM,
            in_grid(g, i as int, j as int),
            rectangular(g, g.len() as int, g[0].len() as int),
        ensures
            final(self)@ == put(old(self)@, 2 * i as int + 1, 2 * j as int + 1, 0u8),
            shows(final(self)@, g),
    {
        reveal(shows);
        let ghost drawn = self@;
        proof {
            assert(g[i as int].len() == g[0].len());
            assert(drawn[2 * i + 1].len() == 2 * g[0].len() + 1);
            assert(drawn[2 * i + 1][2 * j + 1] == junction(g, 2 * i + 1, 2 * j + 1).code());
            lemma_put_shape(
                drawn,
                2 * g.len() as int + 1,
                2 * g[0].len() as int + 1,
                2 * i + 1,
                2 * j + 1,
                0u8,
            );
        }
        self.clear(2 * i + 1, 2 * j + 1);
    }

    /// Draws the walls of cell `(i, j)`, which is `c`, into the picture of a
    /// grid in which that cell has no wall yet.
    fn draw_cell(&mut self, c: Cell, i: usize, j: usize, Ghost(g): Ghost<Seq<Seq<Cell>>>)
        requires
            shows(old(self)@, g),
            g.len() <= MAX_DIM,
            1 <= g[0].len() <= MAX_DIM,
            rectangular(g, g.len() as int, g[0].len() as int),
            in_grid(g, i as int, j as int),
            g[i as int][j as int] == Cell::unwalled(),
        ensures
            shows(final(self)@, put(g, i as int, j as int, c)),
    {
        let ghost rows = g.len() as int;
        let ghost cols = g[0].len() as int;
        let ghost c0 = Cell::unwalled();
        let ghost c1 = if c.n { c0 } else { walled_towards(c0, Direction::North) };
        let ghost c2 = if c.e { c1 } else { walled_towards(c1, Direction::East) };
        let ghost c3 = if c.s { c2 } else { walled_towards(c2, Direction::South) };
        proof {
            assert(g[i as int].len() == cols);
            lemma_put_again(g, rows, cols, i as int, j as int, c0, c0);
        }
        self.draw_side(c, Direction::North, i, j, Ghost(g), Ghost(c0));
        self.draw_side(c, Direction::East, i, j, Ghost(g), Ghost(c1));
        self.draw_side(c, Direction::South, i, j, Ghost(g), Ghost(c2));
        self.draw_side(c, Direction::West, i, j, Ghost(g), Ghost(c3));
        proof {
            assert(c == if c.w { c3 } else { walled_towards(c3, Direction::West) });
            lemma_put_shape(g, rows, cols, i as int, j as int, c);
            assert(put(g, i as int, j as int, c)[0].len() == cols);
            assert(put(g, i as int, j as int, c)[i as int].len() == cols);
        }
        self.blank_middle(i, j, Ghost(put(g, i as int, j as int, c)));
    }
}

/// Replacing one element keeps the shape and every other element.
pub proof fn lemma_put_shape<T>(g: Seq<Seq<T>>, rows: int, cols: int, i: int, j: int, x: T)
    requires
        rectangular(g, rows, cols),
        0 <= i < rows,
        0 <= j < cols,
    ensures
        rectangular(put(g, i, j, x), rows, cols),
        forall|r: int, c: int|
            0 <= r < rows && 0 <= c < cols ==> (#[trigger] put(g, i, j, x)[r][c]) == (if r == i && c
                == j {
                x
            } else {
                g[r][c]
            }),
{
    let g2 = put(g, i, j, x);
    assert(g[i].len() == cols);
    assert(g2[i] == g[i].update(j, x));
    assert forall|r: int| 0 <= r < rows implies (#[trigger] g2[r]).len() == cols by {
        assert(g[r].len() == cols);
        if r != i {
            assert(g2[r] == g[r]);
        }
    }
}

/// Walling one side of a cell changes the junctions at the three points of
/// that wall's marks, by the arms of the marks, and no other junction.
#[verifier::rlimit(50)]
proof fn lemma_mark_junction(g: Seq<Seq<Cell>>, i: int, j: int, d: Direction, r: int, c: int)
    requires
        g.len() >= 1,
        rectangular(g, g.len() as int, g[0].len() as int),
        in_grid(g, i, j),
        open_towards(g[i][j], d),
        0 <= r < 2 * g.len() + 1,
        0 <= c < 2 * g[0].len() + 1,
    ensures
        ({
            let g2 = put(g, i, j, walled_towards(g[i][j], d));
            let m = wall_marks(d, 2 * i + 1, 2 * j + 1);
            let at = |n: int| r == m[n].0 && c == m[n].1;
            &&& m[0].0 != m[1].0 || m[0].1 != m[1].1
            &&& m[0].0 != m[2].0 || m[0].1 != m[2].1
            &&& m[1].0 != m[2].0 || m[1].1 != m[2].1
            &&& 0 <= m[0].0 < 2 * g.len() + 1 && 0 <= m[0].1 < 2 * g[0].len() + 1
            &&& 0 <= m[1].0 < 2 * g.len() + 1 && 0 <= m[1].1 < 2 * g[0].len() + 1
            &&& 0 <= m[2].0 < 2 * g.len() + 1 && 0 <= m[2].1 < 2 * g[0].len() + 1
            &&& at(0) ==> junction(g2, r, c) == junction(g, r, c).union(m[0].2)
            &&& at(1) ==> junction(g2, r, c) == junction(g, r, c).union(m[1].2)
            &&& at(2) ==> junction(g2, r, c) == junction(g, r, c).union(m[2].2)
            &&& !at(0) && !at(1) && !at(2) ==> junction(g2, r, c) == junction(g, r, c)
        }),
{
    let g2 = put(g, i, j, walled_towards(g[i][j], d));
    lemma_put_shape(g, g.len() as int, g[0].len() as int, i, j, walled_towards(g[i][j], d));
    assert(g[i].len() == g[0].len());
    assert forall|x: int, y: int, e: Direction| wall(g2, x, y, e) == (wall(g, x, y, e) || (x == i && y == j && e == d)) by {
        if 0 <= x < g.len() {
            assert(g[x].len() == g[0].len());
            assert(g2[x].len() == g[0].len());
            if 0 <= y < g[0].len() {
                assert(g2[x][y] == if x == i && y == j { walled_towards(g[i][j], d) } else { g[x][y] });
            }
        }
    }
}

/// Replacing one element twice is replacing it by the second; replacing it
/// by itself changes nothing.
proof fn lemma_put_again<T>(g: Seq<Seq<T>>, rows: int, cols: int, i: int, j: int, x: T, y: T)
    requires
        rectangular(g, rows, cols),
        0 <= i < rows,
        0 <= j < cols,
    ensures
        put(put(g, i, j, x), i, j, y) == put(g, i, j, y),
        put(g, i, j, g[i][j]) == g,
{
    assert(g[i].len() == cols);
    let g1 = put(g, i, j, x);
    assert(g1[i] == g[i].update(j, x));
    assert(g1[i].update(j, y) =~= g[i].update(j, y));
    assert(put(g1, i, j, y) =~= put(g, i, j, y));
    assert(g[i].update(j, g[i][j]) =~= g[i]);
    assert(put(g, i, j, g[i][j]) =~= g);
}

/// The grid in which the cells before `(i, j)`, row by row, are those of `g`
/// and the others have no wall.
spec fn uncovered(g: Seq<Seq<Cell>>, i: int, j: int) -> Seq<Seq<Cell>> {
    Seq::new(
        g.len(),
        |a: int|
            Seq::new(
                g[0].len(),
                |b: int|
                    if a < i || (a == i && b < j) {
                        g[a][b]
                    } else {
                        Cell::unwalled()
                    },
            ),
    )
}

/// Uncovering one more cell puts that cell in place.
proof fn lemma_uncover_next(g: Seq<Seq<Cell>>, rows: int, cols: int, i: int, j: int)
    requires
        rows >= 1,
        rectangular(g, rows, cols),
        0 <= i < rows,
        0 <= j < cols,
    ensures
        rectangular(uncovered(g, i, j), rows, cols),
        uncovered(g, i, j)[i][j] == Cell::unwalled(),
        uncovered(g, i, j + 1) == put(uncovered(g, i, j), i, j, g[i][j]),
{
    let m = uncovered(g, i, j);
    let next = uncovered(g, i, j + 1);
    let m2 = put(m, i, j, g[i][j]);
    assert(g[0].len() == cols);
    assert(rectangular(m, rows, cols));
    lemma_put_shape(m, rows, cols, i, j, g[i][j]);
    assert forall|a: int| 0 <= a < rows implies #[trigger] m2[a] == next[a] by {
        assert(m2[a].len() == cols);
        assert forall|b: int| 0 <= b < cols implies m2[a][b] == next[a][b] by {
            assert(m[a][b] == if a < i || (a == i && b < j) { g[a][b] } else { Cell::unwalled() });
        }
        assert(m2[a] =~= next[a]);
    }
    assert(m2 =~= next);
}

/// With a whole row uncovered the next row begins; with every row uncovered
/// the grid itself is there.
proof fn lemma_uncover_rows(g: Seq<Seq<Cell>>, rows: int, cols: int, i: int)
    requires
        rows >= 1,
        rectangular(g, rows, cols),
        0 <= i < rows,
    ensures
        uncovered(g, i, cols) == uncovered(g, i + 1, 0),
        uncovered(g, rows, 0) == g,
        rectangular(uncovered(g, 0, 0), rows, cols),
{
    assert(g[0].len() == cols);
    assert(uncovered(g, i, cols) =~~= uncovered(g, i + 1, 0));
    let m = uncovered(g, rows, 0);
    assert forall|a: int| 0 <= a < rows implies #[trigger] m[a] == g[a] by {
        assert(g[a].len() == cols);
        assert(m[a] =~= g[a]);
    }
    assert(m =~= g);
}

/// Draws the picture of a grid: for each cell, each wall it has is marked at
/// the three points of the picture that the wall covers.
pub fn render(grid: &Grid) -> (pic: Picture)
    requires
        grid.wf(),
    ensures
        pic.wf(),
        pic.spec_rows() == 2 * grid.spec_rows() + 1,
        pic.spec_cols() == 2 * grid.spec_cols() + 1,
        depicts(pic@, grid@),
{
    let rows = grid.rows();
    let cols = grid.cols();
    let mut pic = Picture::blank(2 * rows + 1, 2 * cols + 1);
    let ghost g = grid@;
    proof {
        lemma_uncover_rows(g, rows as int, cols as int, 0);
        lemma_blank_depicts(pic@, g, rows as int, cols as int);
        reveal(shows);
    }
    let mut i: usize = 0;
    while i < rows
        invariant
            grid.wf(),
            g == grid@,
            rows == grid.spec_rows(),
            cols == grid.spec_cols(),
            i <= rows,
            shows(pic@, uncovered(g, i as int, 0)),
        decreases rows - i,
    {
        let mut j: usize = 0;
        while j < cols
            invariant
                grid.wf(),
                g == grid@,
                rows == grid.spec_rows(),
                cols == grid.spec_cols(),
                i < rows,
                j <= cols,
                shows(pic@, uncovered(g, i as int, j as int)),
            decreases cols - j,
        {
            let c = grid.cell(i, j);
            proof {
                lemma_uncover_next(g, rows as int, cols as int, i as int, j as int);
                assert(uncovered(g, i as int, j as int)[0].len() == cols);
                assert(uncovered(g, i as int, j as int)[i as int].len() == cols);
            }
            pic.draw_cell(c, i, j, Ghost(uncovered(g, i as int, j as int)));
            j = j + 1;
        }
        proof {
            lemma_uncover_rows(g, rows as int, cols as int, i as int);
        }
        i = i + 1;
    }
    proof {
        reveal(shows);
        lemma_uncover_rows(g, rows as int, cols as int, 0);
        assert forall|r: int, c: int| 0 <= r < 2 * rows + 1 && 0 <= c < 2 * cols + 1 implies (
        #[trigger] pic@[r][c]) < 16 by {
            lemma_arms_code(junction(g, r, c));
        }
        assert(pic@[0].len() == 2 * cols + 1);
    }
    pic
}

/// The blank picture is the picture of the grid without walls.
proof fn lemma_blank_depicts(p: Seq<Seq<u8>>, g: Seq<Seq<Cell>>, rows: int, cols: int)
    requires
        rows >= 1,
        rectangular(g, rows, cols),
        rectangular(p, 2 * rows + 1, 2 * cols + 1),
        forall|r: int, c: int| 0 <= r < 2 * rows + 1 && 0 <= c < 2 * cols + 1 ==> (#[trigger] p[r][c]) == 0,
    ensures
        depicts(p, uncovered(g, 0, 0)),
{
    let m = uncovered(g, 0, 0);
    assert(g[0].len() == cols);
    assert(m[0].len() == cols);
    assert forall|x: int, y: int, e: Direction| !wall(m, x, y, e) by {
        if in_grid(m, x, y) {
            assert(m[x][y] == Cell::unwalled());
        }
    }
    assert forall|r: int, c: int| 0 <= r < 2 * rows + 1 && 0 <= c < 2 * cols + 1 implies (
    #[trigger] p[r][c]) == junction(m, r, c).code() by {
        assert(junction(m, r, c) == Arms::none());
    }
}

/// How many glyphs show the first `n` points of a row: one for a point at an
/// even column, three for one at an odd column.
pub open spec fn line_width(n: int) -> int {
    n + 2 * (n / 2)
}

/// The column of the point that the `k`-th glyph of a line shows.
pub open spec fn shown_column(k: int) -> int {
    2 * (k / 4) + (if k % 4 == 0 { 0int } else { 1int })
}

/// The line of glyphs that shows one row of codes.
pub open spec fn line_of(row: Seq<u8>) -> Seq<char> {
    Seq::new(line_width(row.len() as int) as nat, |k: int| glyph_of(row[shown_column(k)]))
}

/// The lines of glyphs that show a picture, top line first. A point at an
/// even column, a corner or an upright wall, is shown once; one at an odd
/// column, a level wall or the inside of a cell, three times.
pub fn picture_lines(pic: &Picture) -> (lines: Vec<Vec<char>>)
    requires
        pic.wf(),
    ensures
        lines@.len() == pic.spec_rows(),
        forall|r: int| 0 <= r < pic.spec_rows() ==> (#[trigger] lines@[r])@ == line_of(pic@[r]),
{
    let rows = pic.rows();
    let cols = pic.cols();
    let mut lines: Vec<Vec<char>> = Vec::new();
    let mut r: usize = 0;
    while r < rows
        invariant
            pic.wf(),
            rows == pic.spec_rows(),
            cols == pic.spec_cols(),
            r <= rows,
            lines@.len() == r,
            forall|q: int| 0 <= q < r ==> (#[trigger] lines@[q])@ == line_of(pic@[q]),
        decreases rows - r,
    {
        let mut line: Vec<char> = Vec::new();
        let mut c: usize = 0;
        assert(pic@[r as int].len() == cols);
        while c < cols
            invariant
                pic.wf(),
                rows == pic.spec_rows(),
                cols == pic.spec_cols(),
                r < rows,
                c <= cols,
                line@.len() == line_width(c as int),
                forall|k: int|
                    0 <= k < line@.len() ==> (#[trigger] line@[k]) == glyph_of(
                        pic@[r as int][shown_column(k)],
                    ),
            decreases cols - c,
        {
            let ch = glyph(pic.code(r, c));
            line.push(ch);
            if c % 2 == 1 {
                line.push(ch);
                line.push(ch);
            }
            c = c + 1;
        }
        proof {
            assert(line@ =~= line_of(pic@[r as int]));
        }
        lines.push(line);
        r = r + 1;
    }
    lines
}

} // verus!
