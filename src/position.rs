//! Board geometry: the coordinate type, the hexagram outline, the six
//! triangles and the six neighbor directions.

use vstd::prelude::*;

verus! {

/// The largest board size whose coordinates all fit in an `i16`.
pub const MAX_SIZE: i16 = 4681;

/// A point of the board, or a displacement between two points.
///
/// The frame is skewed so that it matches a terminal: the origin is the
/// upper-left corner, `x` runs along a row and `y` down the columns.
#[derive(Debug, Hash, PartialEq, Eq, Structural, Clone, Copy)]
pub struct Position {
    pub x: i16,
    pub y: i16,
}

/// Whether `size` is a board size that this library can hold.
pub open spec fn size_ok(size: int) -> bool {
    1 <= size <= MAX_SIZE
}

/// The hexagram outline: the union of an upward and a downward triangle.
pub open spec fn in_hexagram(x: int, y: int, size: int) -> bool {
    (y >= size && y - x <= size && x + y <= 7 * size) || (y <= 3 * size && x + y >= 3 * size
        && x - y <= 3 * size)
}

/// A point of the board: inside the outline and on the lattice of the board.
pub open spec fn on_board(p: Position, size: int) -> bool {
    in_hexagram(p.x as int, p.y as int, size) && (p.x + p.y - size) % 2 == 0
}

/// The triangle a point lies in, by six half-plane tests taken in order:
///
/// ```text
///   0
/// 1   5
/// 2   4
///   3
/// ```
pub open spec fn triangle_of(x: int, y: int, size: int) -> Option<u8> {
    if y < size {
        Some(0u8)
    } else if x + y < 3 * size {
        Some(1u8)
    } else if y - x > size {
        Some(2u8)
    } else if y > 3 * size {
        Some(3u8)
    } else if x + y > 7 * size {
        Some(4u8)
    } else if x - y > 3 * size {
        Some(5u8)
    } else {
        None
    }
}

/// The x component of the step to the neighbor in slot `i`, clockwise from upper-left.
pub open spec fn step_x(i: int) -> int {
    if i == 0 {
        -1
    } else if i == 1 {
        -2
    } else if i == 2 {
        -1
    } else if i == 3 {
        1
    } else if i == 4 {
        2
    } else {
        1
    }
}

/// The y component of the step to the neighbor in slot `i`.
pub open spec fn step_y(i: int) -> int {
    if i == 0 || i == 5 {
        -1
    } else if i == 1 || i == 4 {
        0
    } else {
        1
    }
}

/// The neighbor of `p` in slot `i`, where the board has one.
pub open spec fn neighbor_at(p: Position, i: int, size: int) -> Option<Position> {
    let x = p.x + step_x(i);
    let y = p.y + step_y(i);
    if in_hexagram(x, y, size) {
        Some(Position { x: x as i16, y: y as i16 })
    } else {
        None
    }
}

/// The tip (extreme point) of triangle `t`.
pub open spec fn tip_of(t: int, size: int) -> Position {
    let s = size as i16;
    if t == 0 {
        Position { x: (3 * s) as i16, y: 0 }
    } else if t == 1 {
        Position { x: 0, y: s }
    } else if t == 2 {
        Position { x: 0, y: (3 * s) as i16 }
    } else if t == 3 {
        Position { x: (3 * s) as i16, y: (4 * s) as i16 }
    } else if t == 4 {
        Position { x: (6 * s) as i16, y: (3 * s) as i16 }
    } else {
        Position { x: (6 * s) as i16, y: s }
    }
}

/// A point inside the outline lies within the rectangle of the board.
pub proof fn lemma_hexagram_bounds(x: int, y: int, size: int)
    requires
        size_ok(size),
        in_hexagram(x, y, size),
    ensures
        0 <= x <= 6 * size,
        0 <= y <= 4 * size,
{
}

/// Two slots with the same step are the same slot.
pub proof fn lemma_steps_distinct(i: int, j: int)
    requires
        0 <= i < 6,
        0 <= j < 6,
        step_x(i) == step_x(j),
        step_y(i) == step_y(j),
    ensures
        i == j,
{
}

/// A neighbor of a board point is a board point.
pub proof fn lemma_neighbor_on_board(p: Position, i: int, size: int)
    requires
        size_ok(size),
        on_board(p, size),
        0 <= i < 6,
        neighbor_at(p, i, size) is Some,
    ensures
        on_board(neighbor_at(p, i, size)->0, size),
        neighbor_at(p, i, size)->0.x == p.x + step_x(i),
        neighbor_at(p, i, size)->0.y == p.y + step_y(i),
{
    lemma_hexagram_bounds(p.x + step_x(i), p.y + step_y(i), size);
}

/// Opposite slots point back: where `q` is the neighbor of `p` in slot `i`,
/// `p` is the neighbor of `q` in slot `(i + 3) % 6`.
pub proof fn lemma_neighbor_symmetry(p: Position, i: int, size: int)
    requires
        size_ok(size),
        on_board(p, size),
        0 <= i < 6,
        neighbor_at(p, i, size) is Some,
    ensures
        neighbor_at(neighbor_at(p, i, size)->0, (i + 3) % 6, size) == Some(p),
{
    lemma_neighbor_on_board(p, i, size);
}

impl Position {
    /// Component-wise sum.
    pub fn add(self, rhs: Position) -> (r: Position)
        requires
            i16::MIN <= self.x + rhs.x <= i16::MAX,
            i16::MIN <= self.y + rhs.y <= i16::MAX,
        ensures
            r.x == self.x + rhs.x,
            r.y == self.y + rhs.y,
    {
        Position { x: self.x + rhs.x, y: self.y + rhs.y }
    }

    /// Component-wise difference.
    pub fn sub(self, rhs: Position) -> (r: Position)
        requires
            i16::MIN <= self.x - rhs.x <= i16::MAX,
            i16::MIN <= self.y - rhs.y <= i16::MAX,
        ensures
            r.x == self.x - rhs.x,
            r.y == self.y - rhs.y,
    {
        Position { x: self.x - rhs.x, y: self.y - rhs.y }
    }

    /// This position if it lies inside the hexagram outline, else `None`.
    pub fn validate(self, size: i16) -> (r: Option<Position>)
        ensures
            r == (if in_hexagram(self.x as int, self.y as int, size as int) {
                Some(self)
            } else {
                None
            }),
    {
        let x = self.x as i32;
        let y = self.y as i32;
        let s = size as i32;
        if (y >= s && y - x <= s && x + y <= 7 * s) || (y <= 3 * s && x + y >= 3 * s && x - y <= 3
            * s) {
            Some(self)
        } else {
            None
        }
    }

    /// The index of the triangle that holds this position, or `None` for the
    /// central field.
    pub fn in_triangle(&self, size: i16) -> (r: Option<u8>)
        ensures
            r == triangle_of(self.x as int, self.y as int, size as int),
    {
        let x = self.x as i32;
        let y = self.y as i32;
        let s = size as i32;
        if y < s {
            Some(0)
        } else if x + y < 3 * s {
            Some(1)
        } else if y - x > s {
            Some(2)
        } else if y > 3 * s {
            Some(3)
        } else if x + y > 7 * s {
            Some(4)
        } else if x - y > 3 * s {
            Some(5)
        } else {
            None
        }
    }
}

impl From<(i16, i16)> for Position {
    fn from(value: (i16, i16)) -> (r: Position) {
        Position { x: value.0, y: value.1 }
    }
}

impl vstd::std_specs::convert::FromSpecImpl<(i16, i16)> for Position {
    open spec fn obeys_from_spec() -> bool {
        true
    }

    open spec fn from_spec(v: (i16, i16)) -> Position {
        Position { x: v.0, y: v.1 }
    }
}

} // verus!
