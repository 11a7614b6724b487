//! Wall-junction codes and the glyphs that show them.

use vstd::prelude::*;

verus! {

/// The bit of a junction code that says: a wall leaves this point northwards.
pub const NORTH: u8 = 1;

/// The bit for a wall that leaves eastwards.
pub const EAST: u8 = 2;

/// The bit for a wall that leaves southwards.
pub const SOUTH: u8 = 4;

/// The bit for a wall that leaves westwards.
pub const WEST: u8 = 8;

/// The four directions in which walls leave a point of the picture.
#[derive(Clone, Copy, Debug, PartialEq, Eq, Structural)]
pub struct Arms {
    pub n: bool,
    pub e: bool,
    pub s: bool,
    pub w: bool,
}

impl Arms {
    /// The junction code: one bit per direction.
    pub open spec fn code(self) -> u8 {
        ((if self.n { 1int } else { 0 }) + (if self.e { 2int } else { 0 }) + (if self.s { 4int } else { 0 })
            + (if self.w { 8int } else { 0 })) as u8
    }

    /// The arms of either junction.
    pub open spec fn union(self, o: Arms) -> Arms {
        Arms { n: self.n || o.n, e: self.e || o.e, s: self.s || o.s, w: self.w || o.w }
    }

    /// No wall at all.
    pub open spec fn none() -> Arms {
        Arms { n: false, e: false, s: false, w: false }
    }
}

/// The arms that a code below 16 stands for.
pub open spec fn arms_of(code: u8) -> Arms {
    Arms { n: code & 1 == 1, e: code & 2 == 2, s: code & 4 == 4, w: code & 8 == 8 }
}

proof fn lemma_or_bits(a: u8, b: u8)
    by (bit_vector)
    requires
        a < 16,
        b < 16,
    ensures
        (a | b) < 16,
        ((a | b) & 1 == 1) <==> (a & 1 == 1 || b & 1 == 1),
        ((a | b) & 2 == 2) <==> (a & 2 == 2 || b & 2 == 2),
        ((a | b) & 4 == 4) <==> (a & 4 == 4 || b & 4 == 4),
        ((a | b) & 8 == 8) <==> (a & 8 == 8 || b & 8 == 8),
{
}

proof fn lemma_bits_sum(a: u8)
    by (bit_vector)
    requires
        a < 16,
    ensures
        a == (a & 1) + (a & 2) + (a & 4) + (a & 8),
        a & 1 == 0 || a & 1 == 1,
        a & 2 == 0 || a & 2 == 2,
        a & 4 == 0 || a & 4 == 4,
        a & 8 == 0 || a & 8 == 8,
{
}

/// A code below 16 is the code of its arms, and arms are the arms of their
/// code.
pub proof fn lemma_arms_code(x: Arms)
    ensures
        x.code() < 16,
        arms_of(x.code()) == x,
{
    lemma_bits_sum(x.code());
}

/// The bitwise OR of two junction codes is the code of both junctions' arms.
pub proof fn lemma_or_codes(x: Arms, y: Arms)
    ensures
        x.code() | y.code() == x.union(y).code(),
{
    let a = x.code();
    let b = y.code();
    lemma_arms_code(x);
    lemma_arms_code(y);
    lemma_or_bits(a, b);
    lemma_bits_sum(a | b);
}

/// A point of the picture, or a step in it: `x` counts rows downwards, `y`
/// columns to the right.
#[derive(Clone, Copy, Debug, PartialEq, Eq, Structural)]
pub struct Vec2i {
    pub x: i32,
    pub y: i32,
}

impl Vec2i {
    /// The vector with the given components.
    pub fn new(x: i32, y: i32) -> (v: Vec2i)
        ensures
            v.x == x,
            v.y == y,
    {
        Vec2i { x, y }
    }

    /// The sum, component by component.
    pub fn plus(self, o: Vec2i) -> (v: Vec2i)
        requires
            i32::MIN <= self.x + o.x <= i32::MAX,
            i32::MIN <= self.y + o.y <= i32::MAX,
        ensures
            v.x == self.x + o.x,
            v.y == self.y + o.y,
    {
        Vec2i { x: self.x + o.x, y: self.y + o.y }
    }

    /// The difference, component by component.
    pub fn minus(self, o: Vec2i) -> (v: Vec2i)
        requires
            i32::MIN <= self.x - o.x <= i32::MAX,
            i32::MIN <= self.y - o.y <= i32::MAX,
        ensures
            v.x == self.x - o.x,
            v.y == self.y - o.y,
    {
        Vec2i { x: self.x - o.x, y: self.y - o.y }
    }
}

/// A cardinal direction.
#[derive(Clone, Copy, Debug, PartialEq, Eq, Structural)]
pub enum Direction {
    North,
    East,
    South,
    West,
}

impl Direction {
    /// The one arm that points this way.
    pub open spec fn arm(self) -> Arms {
        Arms {
            n: self == Direction::North,
            e: self == Direction::East,
            s: self == Direction::South,
            w: self == Direction::West,
        }
    }

    /// The next direction clockwise, or counter-clockwise.
    pub open spec fn turned(self, clockwise: bool) -> Direction {
        match self {
            Direction::North => if clockwise { Direction::East } else { Direction::West },
            Direction::East => if clockwise { Direction::South } else { Direction::North },
            Direction::South => if clockwise { Direction::West } else { Direction::East },
            Direction::West => if clockwise { Direction::North } else { Direction::South },
        }
    }

    /// The step that this direction takes in the picture: rows grow
    /// southwards, columns eastwards.
    pub open spec fn spec_delta(self) -> (int, int) {
        match self {
            Direction::North => (-1, 0),
            Direction::East => (0, 1),
            Direction::South => (1, 0),
            Direction::West => (0, -1),
        }
    }

    /// The bit of this direction in a junction code.
    pub fn bit(self) -> (b: u8)
        ensures
            b == self.arm().code(),
    {
        match self {
            Direction::North => NORTH,
            Direction::East => EAST,
            Direction::South => SOUTH,
            Direction::West => WEST,
        }
    }

    /// The step that this direction takes in the picture.
    pub fn delta(self) -> (d: Vec2i)
        ensures
            (d.x as int, d.y as int) == self.spec_delta(),
    {
        match self {
            Direction::North => Vec2i::new(-1, 0),
            Direction::East => Vec2i::new(0, 1),
            Direction::South => Vec2i::new(1, 0),
            Direction::West => Vec2i::new(0, -1),
        }
    }
}

/// The bit of the direction a quarter turn from `d`.
pub fn rotate_wall_bit(d: Direction, clockwise: bool) -> (b: u8)
    ensures
        b == d.turned(clockwise).arm().code(),
{
    let b = d.bit();
    if clockwise {
        if b == WEST {
            NORTH
        } else {
            b * 2
        }
    } else {
        if b == NORTH {
            WEST
        } else {
            b / 2
        }
    }
}

/// The glyph for each junction code.
pub open spec fn glyph_of(code: u8) -> char {
    if code == 0 {
        ' '
    } else if code == 1 || code == 4 || code == 5 {
        '\u{2551}'
    } else if code == 2 || code == 8 || code == 10 {
        '\u{2550}'
    } else if code == 3 {
        '\u{255A}'
    } else if code == 6 {
        '\u{2554}'
    } else if code == 7 {
        '\u{2560}'
    } else if code == 9 {
        '\u{255D}'
    } else if code == 11 {
        '\u{2569}'
    } else if code == 12 {
        '\u{2557}'
    } else if code == 13 {
        '\u{2563}'
    } else if code == 14 {
        '\u{2566}'
    } else {
        '\u{256C}'
    }
}

/// The box-drawing glyph that shows a junction code.
pub fn glyph(code: u8) -> (c: char)
    requires
        code < 16,
    ensures
        c == glyph_of(code),
{
    let table: [char; 16] = [
        ' ',
        '\u{2551}',
        '\u{2550}',
        '\u{255A}',
        '\u{2551}',
        '\u{2551}',
        '\u{2554}',
        '\u{2560}',
        '\u{2550}',
        '\u{255D}',
        '\u{2550}',
        '\u{2569}',
        '\u{2557}',
        '\u{2563}',
        '\u{2566}',
        '\u{256C}',
    ];
    table[code as usize]
}

} // verus!
