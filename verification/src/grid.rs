//! Cells, directions and the flat coordinate lists that callers hand in.

use vstd::prelude::*;

verus! {

/// A cell of the unbounded integer grid.
pub struct Point {
    pub x: int,
    pub y: int,
}

/// One of the four moves, listed in the order in which ties are broken.
#[derive(Clone, Copy, Debug, PartialEq, Eq, Structural)]
pub enum Direction {
    Up,
    Down,
    Left,
    Right,
}

impl Direction {
    /// Position of the direction in the tie-breaking order.
    pub open spec fn rank(self) -> int {
        match self {
            Direction::Up => 0,
            Direction::Down => 1,
            Direction::Left => 2,
            Direction::Right => 3,
        }
    }

    /// Change of the x coordinate made by one move.
    pub open spec fn dx(self) -> int {
        match self {
            Direction::Up => 0,
            Direction::Down => 0,
            Direction::Left => -1,
            Direction::Right => 1,
        }
    }

    /// Change of the y coordinate made by one move.
    pub open spec fn dy(self) -> int {
        match self {
            Direction::Up => 1,
            Direction::Down => -1,
            Direction::Left => 0,
            Direction::Right => 0,
        }
    }

    /// The number that stands for the direction at a host.
    pub open spec fn code_spec(self) -> int {
        match self {
            Direction::Up => 0,
            Direction::Down => 2,
            Direction::Left => 1,
            Direction::Right => 3,
        }
    }

    /// The number that stands for the direction at a host.
    pub fn code(self) -> (c: i32)
        ensures
            c == self.code_spec(),
    {
        match self {
            Direction::Up => 0,
            Direction::Down => 2,
            Direction::Left => 1,
            Direction::Right => 3,
        }
    }

    /// The direction that stands at place `k` of the tie-breaking order.
    pub fn nth(k: usize) -> (d: Direction)
        requires
            k < 4,
        ensures
            d.rank() == k,
    {
        if k == 0 {
            Direction::Up
        } else if k == 1 {
            Direction::Down
        } else if k == 2 {
            Direction::Left
        } else {
            Direction::Right
        }
    }

    /// Change of the x coordinate made by one move.
    pub fn delta_x(self) -> (d: i64)
        ensures
            d == self.dx(),
    {
        match self {
            Direction::Up => 0,
            Direction::Down => 0,
            Direction::Left => -1,
            Direction::Right => 1,
        }
    }

    /// Change of the y coordinate made by one move.
    pub fn delta_y(self) -> (d: i64)
        ensures
            d == self.dy(),
    {
        match self {
            Direction::Up => 1,
            Direction::Down => -1,
            Direction::Left => 0,
            Direction::Right => 0,
        }
    }
}

impl Point {
    /// The neighbouring cell that one move in direction `d` leads to.
    pub open spec fn step(self, d: Direction) -> Point {
        Point { x: self.x + d.dx(), y: self.y + d.dy() }
    }

    /// Whether the cell lies on the board of side `n`, whose corners are
    /// (1, 1) and (n, n).
    pub open spec fn on_board(self, n: int) -> bool {
        1 <= self.x <= n && 1 <= self.y <= n
    }
}

/// The cell with the given coordinates.
pub open spec fn at(x: int, y: int) -> Point {
    Point { x, y }
}

/// Distance of two numbers on the line.
pub open spec fn gap(a: int, b: int) -> int {
    if a <= b {
        b - a
    } else {
        a - b
    }
}

/// Manhattan distance: the number of moves between two cells of an empty grid.
pub open spec fn manhattan(a: Point, b: Point) -> int {
    gap(a.x, b.x) + gap(a.y, b.y)
}

/// Chebyshev distance at most one: the cells are equal or touch, diagonals
/// included.
pub open spec fn touching(a: Point, b: Point) -> bool {
    gap(a.x, b.x) <= 1 && gap(a.y, b.y) <= 1
}

/// The cells that a flat list spells out, two numbers for each cell: first x,
/// then y. A number left over at the end belongs to no cell.
pub open spec fn cells(flat: Seq<i32>) -> Seq<Point> {
    Seq::new((flat.len() / 2) as nat, |k: int| at(flat[2 * k] as int, flat[2 * k + 1] as int))
}

/// Coordinates that one move away from a 32-bit coordinate can reach.
pub open spec fn near_i32(v: int) -> bool {
    -0x1_0000_0000 <= v <= 0x1_0000_0000
}

/// Distance of two numbers on the line.
pub(crate) fn gap_of(a: i64, b: i64) -> (g: i64)
    requires
        near_i32(a as int),
        near_i32(b as int),
    ensures
        g == gap(a as int, b as int),
        0 <= g <= 0x2_0000_0000,
{
    if a <= b {
        b - a
    } else {
        a - b
    }
}

/// Manhattan distance of the cells (ax, ay) and (bx, by).
pub(crate) fn manhattan_of(ax: i64, ay: i64, bx: i64, by: i64) -> (d: i64)
    requires
        near_i32(ax as int),
        near_i32(ay as int),
        near_i32(bx as int),
        near_i32(by as int),
    ensures
        d == manhattan(at(ax as int, ay as int), at(bx as int, by as int)),
        0 <= d <= 0x4_0000_0000,
{
    gap_of(ax, bx) + gap_of(ay, by)
}

/// A cell whose coordinates fit a machine word.
#[derive(Clone, Copy, Debug, PartialEq, Eq, Structural)]
pub struct Cell {
    pub x: i32,
    pub y: i32,
}

impl View for Cell {
    type V = Point;

    open spec fn view(&self) -> Point {
        at(self.x as int, self.y as int)
    }
}

} // verus!
