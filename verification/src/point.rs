//! 2D lattice points and the move algebra on them.

use vstd::prelude::*;

use crate::movement::Movement;

verus! {

/// A cell of the board: a pair of signed integer coordinates.
#[derive(PartialEq, Eq, Structural, Debug, Copy, Clone, Hash)]
pub struct Point {
    pub x: i32,
    pub y: i32,
}

/// Horizontal displacement of a move.
pub open spec fn move_dx(m: Movement) -> int {
    match m {
        Movement::Right => 1,
        Movement::Left => -1,
        Movement::Up => 0,
        Movement::Down => 0,
    }
}

/// Vertical displacement of a move.
pub open spec fn move_dy(m: Movement) -> int {
    match m {
        Movement::Right => 0,
        Movement::Left => 0,
        Movement::Up => 1,
        Movement::Down => -1,
    }
}

/// The point one step away from `p` in direction `m`.
/// Coordinates are truncated into `i32`; callers stay in range.
pub open spec fn point_after(p: Point, m: Movement) -> Point {
    Point { x: (p.x + move_dx(m)) as i32, y: (p.y + move_dy(m)) as i32 }
}

impl Point {
    /// The neighbouring point in direction `mov`: ordinary integer
    /// addition, no wrap-around.
    pub fn apply_mov(&self, mov: Movement) -> (r: Point)
        requires
            i32::MIN <= self.x + move_dx(mov) <= i32::MAX,
            i32::MIN <= self.y + move_dy(mov) <= i32::MAX,
        ensures
            r == point_after(*self, mov),
            r.x == self.x + move_dx(mov),
            r.y == self.y + move_dy(mov),
    {
        match mov {
            Movement::Right => Point { x: self.x + 1, y: self.y },
            Movement::Left => Point { x: self.x - 1, y: self.y },
            Movement::Up => Point { x: self.x, y: self.y + 1 },
            Movement::Down => Point { x: self.x, y: self.y - 1 },
        }
    }
}

} // verus!
