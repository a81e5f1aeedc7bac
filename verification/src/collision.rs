//! Per-snake collision verdicts, produced by the board once all heads
//! have moved for a turn.

use vstd::prelude::*;

use crate::point::Point;

verus! {

/// What a snake's head ran into this turn, from that snake's viewpoint
/// (`id_1` is always the snake the record was classified for).
#[derive(PartialEq, Eq, Structural, Clone, Copy, Debug, Hash)]
pub enum Collision {
    /// The head left the board.
    Wall { id: usize },
    /// The head landed on one of the snake's own body cells.
    SelfBody { id: usize },
    /// The head landed on a body cell of snake `id_2`, at `loc`.
    OtherBody { id_1: usize, id_2: usize, loc: Point },
    /// The head landed on the head of snake `id_2`, at `loc`;
    /// `src_length` and `dst_length` are the two desired lengths.
    HeadToHead { src_length: usize, dst_length: usize, id_1: usize, id_2: usize, loc: Point },
}

impl Collision {
    /// Whether this verdict kills the snake it was classified for:
    /// walls, own bodies and other bodies always do; a head-to-head kills
    /// it exactly when its length does not exceed the opponent's.
    pub open spec fn causes_death_spec(self) -> bool {
        match self {
            Collision::Wall { .. } => true,
            Collision::SelfBody { .. } => true,
            Collision::OtherBody { .. } => true,
            Collision::HeadToHead { src_length, dst_length, .. } => src_length <= dst_length,
        }
    }

    /// The snake this verdict was classified for.
    pub open spec fn subject(self) -> int {
        match self {
            Collision::Wall { id } => id as int,
            Collision::SelfBody { id } => id as int,
            Collision::OtherBody { id_1, .. } => id_1 as int,
            Collision::HeadToHead { id_1, .. } => id_1 as int,
        }
    }

    /// See [`Collision::causes_death_spec`].
    pub fn causes_death(&self) -> (r: bool)
        ensures
            r == self.causes_death_spec(),
    {
        match *self {
            Collision::Wall { .. } => true,
            Collision::SelfBody { .. } => true,
            Collision::OtherBody { .. } => true,
            Collision::HeadToHead { src_length, dst_length, .. } => src_length <= dst_length,
        }
    }
}

/// Wall and own-body verdicts always kill; a head-to-head with equal
/// lengths kills both viewpoints, with unequal lengths only the shorter.
pub proof fn lemma_causes_death_cases(
    id: usize,
    id_1: usize,
    id_2: usize,
    len_a: usize,
    len_b: usize,
    loc: Point,
)
    ensures
        (Collision::Wall { id }).causes_death_spec(),
        (Collision::SelfBody { id }).causes_death_spec(),
        len_a == len_b ==> (Collision::HeadToHead {
            src_length: len_a,
            dst_length: len_b,
            id_1,
            id_2,
            loc,
        }).causes_death_spec() && (Collision::HeadToHead {
            src_length: len_b,
            dst_length: len_a,
            id_1: id_2,
            id_2: id_1,
            loc,
        }).causes_death_spec(),
        len_a > len_b ==> !(Collision::HeadToHead {
            src_length: len_a,
            dst_length: len_b,
            id_1,
            id_2,
            loc,
        }).causes_death_spec() && (Collision::HeadToHead {
            src_length: len_b,
            dst_length: len_a,
            id_1: id_2,
            id_2: id_1,
            loc,
        }).causes_death_spec(),
{
}

} // verus!
