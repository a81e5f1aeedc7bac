//! The four cardinal moves of the game.

use vstd::prelude::*;

verus! {

/// One of the four cardinal moves a snake can play on a turn.
#[derive(PartialEq, Eq, Structural, Clone, Copy, Debug, Hash)]
pub enum Movement {
    Right,
    Left,
    Up,
    Down,
}

impl Movement {
    /// The move that undoes this one, pairwise: `Right`/`Left`, `Up`/`Down`.
    pub open spec fn opposite_spec(self) -> Movement {
        match self {
            Movement::Right => Movement::Left,
            Movement::Left => Movement::Right,
            Movement::Up => Movement::Down,
            Movement::Down => Movement::Up,
        }
    }

    /// True exactly when `o` is this move's opposite.
    pub fn is_opposite(&self, o: Movement) -> (r: bool)
        ensures
            r == (o == self.opposite_spec()),
    {
        match self {
            Movement::Right => o == Movement::Left,
            Movement::Left => o == Movement::Right,
            Movement::Up => o == Movement::Down,
            Movement::Down => o == Movement::Up,
        }
    }
}

} // verus!
