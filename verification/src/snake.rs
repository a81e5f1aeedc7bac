//! Per-agent state: head, body queue, desired length, health, and the
//! move / feed / kill transitions of one snake.

use vstd::prelude::*;

use std::collections::VecDeque;

use crate::movement::Movement;
use crate::point::{move_dx, move_dy, point_after, Point};

verus! {

/// Health a snake is created with, and restored to by feeding.
pub const DEFAULT_SNAKE_HEALTH: i32 = 100;

/// Desired body length of a freshly created snake.
pub const INITIAL_SNAKE_LENGTH: usize = 3;

/// Mathematical model of a snake.
///
/// `body` is ordered oldest (tail) first, newest (head) last; `length` is
/// the *desired* body length, which drives tail retention, and is `0`
/// exactly for dead snakes.
pub ghost struct SnakeV {
    pub health: int,
    pub body: Seq<Point>,
    pub head: Point,
    pub length: nat,
}

impl SnakeV {
    /// The canonical dead marker: desired length zero.
    pub open spec fn is_dead(self) -> bool {
        self.length == 0
    }

    /// Structural invariant of one snake, apart from any board:
    /// dead snakes have no body; alive snakes have a non-empty body of at
    /// most `length` cells whose newest cell mirrors `head`, and health
    /// within `[0, DEFAULT_SNAKE_HEALTH]` (a snake that just moved may sit
    /// at 0 until starvation is judged at the end of the turn).
    pub open spec fn wf(self) -> bool {
        &&& (self.is_dead() ==> self.body.len() == 0)
        &&& (!self.is_dead() ==> {
            &&& 1 <= self.body.len() <= self.length
            &&& self.body.last() == self.head
            &&& 0 <= self.health <= DEFAULT_SNAKE_HEALTH as int
        })
    }

    /// The snake after playing `m`: the oldest cell is shed iff the body
    /// already reached the desired length, the new head is appended, and
    /// the move costs one life point.
    pub open spec fn after_move(self, m: Movement) -> SnakeV {
        let head2 = point_after(self.head, m);
        let trimmed = if self.body.len() >= self.length {
            self.body.drop_first()
        } else {
            self.body
        };
        SnakeV {
            health: self.health - 1,
            body: trimmed.push(head2),
            head: head2,
            length: self.length,
        }
    }

    /// The snake after feeding: health restored, desired length grown,
    /// body untouched until the next move.
    pub open spec fn after_feed(self) -> SnakeV {
        SnakeV {
            health: DEFAULT_SNAKE_HEALTH as int,
            length: (self.length + 1) as nat,
            ..self
        }
    }

    /// The snake after being killed: body cleared, desired length zero.
    pub open spec fn after_kill(self) -> SnakeV {
        SnakeV { body: Seq::empty(), length: 0, ..self }
    }

    /// The body cells below the head (everything but the newest cell).
    pub open spec fn body_without_head(self) -> Seq<Point> {
        self.body.drop_last()
    }

    /// Whether `p` is one of this snake's body cells.
    pub open spec fn covers(self, p: Point) -> bool {
        exists|k: int| 0 <= k < self.body.len() && self.body[k] == p
    }
}

/// One playing agent.
#[derive(PartialEq, Eq, Debug, Clone)]
pub struct Snake {
    pub health: i32,
    pub body: VecDeque<Point>,
    pub head: Point,
    pub length: usize,
}

impl View for Snake {
    type V = SnakeV;

    open spec fn view(&self) -> SnakeV {
        SnakeV {
            health: self.health as int,
            body: self.body@,
            head: self.head,
            length: self.length as nat,
        }
    }
}

impl Snake {
    /// A snake created on cell `head`: full health, desired length
    /// `INITIAL_SNAKE_LENGTH`, body holding only the head (it grows over
    /// the next turns).
    pub fn new(head: Point) -> (r: Snake)
        ensures
            r@ == (SnakeV {
                health: DEFAULT_SNAKE_HEALTH as int,
                body: seq![head],
                head,
                length: INITIAL_SNAKE_LENGTH as nat,
            }),
            r@.wf(),
            !r@.is_dead(),
    {
        let mut body: VecDeque<Point> = VecDeque::new();
        body.push_back(head);
        proof {
            assert(body@ =~= seq![head]);
        }
        Snake { health: DEFAULT_SNAKE_HEALTH, body, length: INITIAL_SNAKE_LENGTH, head }
    }

    /// A snake rebuilt from externally supplied fields, with the body
    /// given newest (head) first, as a turn payload orders it.
    pub fn new_from(health: i32, body: Vec<Point>, length: usize, head: Point) -> (r: Snake)
        requires
            1 <= health <= DEFAULT_SNAKE_HEALTH as int,
            1 <= body@.len() <= length,
            body@.first() == head,
        ensures
            r@.health == health as int,
            r@.body =~= body@.reverse(),
            r@.head == head,
            r@.length == length as nat,
            r@.wf(),
            !r@.is_dead(),
    {
        let mut b: VecDeque<Point> = VecDeque::new();
        let n = body.len();
        let mut i: usize = 0;
        while i < n
            invariant
                n == body@.len(),
                0 <= i <= n,
                b@.len() == i,
                forall|k: int| 0 <= k < i ==> b@[k] == body@[n - 1 - k],
            decreases n - i,
        {
            b.push_back(body[n - 1 - i]);
            i = i + 1;
        }
        proof {
            assert(b@ =~= body@.reverse());
        }
        Snake { health, body: b, length, head }
    }

    /// True iff this snake is dead.
    pub fn is_dead(&self) -> (r: bool)
        ensures
            r == self@.is_dead(),
    {
        self.length == 0
    }

    /// Plays one move: the oldest body cell is shed iff the body already
    /// reached the desired length, the head advances one cell, the new
    /// head is appended, and one life point is consumed. Returns the shed
    /// tail (if any) and the new head — the displacement an occupancy
    /// matrix needs.
    pub fn apply_move(&mut self, mov: Movement) -> (r: (Option<Point>, Point))
        requires
            old(self)@.wf(),
            !old(self)@.is_dead(),
            old(self)@.health >= 1,
            i32::MIN <= old(self)@.head.x + move_dx(mov) <= i32::MAX,
            i32::MIN <= old(self)@.head.y + move_dy(mov) <= i32::MAX,
        ensures
            final(self)@ == old(self)@.after_move(mov),
            final(self)@.wf(),
            !final(self)@.is_dead(),
            final(self)@.length == old(self)@.length,
            r.1 == final(self)@.head,
            r.0 == (if old(self)@.body.len() >= old(self)@.length {
                Some(old(self)@.body.first())
            } else {
                None::<Point>
            }),
            final(self)@.health == old(self)@.health - 1,
            final(self)@.body.len() == (if old(self)@.body.len() >= old(self)@.length {
                old(self)@.body.len() as int
            } else {
                old(self)@.body.len() + 1 as int
            }),
    {
        let tail: Option<Point> = if self.body.len() >= self.length {
            self.body.pop_front()
        } else {
            None
        };

        self.head = self.head.apply_mov(mov);
        self.body.push_back(self.head);

        self.consume_health();

        (tail, self.head)
    }

    /// Spends one life point.
    pub fn consume_health(&mut self)
        requires
            !old(self)@.is_dead(),
            old(self)@.health >= 1,
        ensures
            final(self)@ == (SnakeV { health: old(self)@.health - 1, ..old(self)@ }),
    {
        self.health = self.health - 1;
    }

    /// Kills this snake: the body is cleared and the desired length drops
    /// to zero, the canonical dead marker.
    pub fn kill(&mut self)
        requires
            !old(self)@.is_dead(),
        ensures
            final(self)@ == old(self)@.after_kill(),
            final(self)@.is_dead(),
            final(self)@.wf(),
    {
        self.body.clear();
        self.length = 0;
    }

    /// Feeds this snake: health is restored to the maximum and the desired
    /// length grows by one. The body is untouched, so the visible length
    /// increases only on the next move.
    pub fn feed(&mut self)
        requires
            old(self)@.wf(),
            !old(self)@.is_dead(),
            old(self).length < usize::MAX,
        ensures
            final(self)@ == old(self)@.after_feed(),
            final(self)@.wf(),
            final(self)@.body == old(self)@.body,
            final(self)@.length == old(self)@.length + 1,
    {
        self.health = DEFAULT_SNAKE_HEALTH;
        self.length = self.length + 1;
    }

    /// Current health.
    pub fn health(&self) -> (r: i32)
        ensures
            r as int == self@.health,
    {
        self.health
    }

    /// Current head cell.
    pub fn head(&self) -> (r: &Point)
        ensures
            *r == self@.head,
    {
        &self.head
    }

    /// Desired body length.
    pub fn length(&self) -> (r: usize)
        ensures
            r as nat == self@.length,
    {
        self.length
    }

    /// The body, oldest cell first.
    pub fn body(&self) -> (r: &VecDeque<Point>)
        ensures
            r@ == self@.body,
    {
        &self.body
    }

    /// The body cells below the head, oldest first.
    pub fn body_without_head(&self) -> (r: Vec<Point>)
        requires
            self@.wf(),
            !self@.is_dead(),
        ensures
            r@ == self@.body_without_head(),
    {
        let mut out: Vec<Point> = Vec::new();
        let n = self.body.len();
        let mut i: usize = 0;
        while i < n - 1
            invariant
                n == self@.body.len(),
                n >= 1,
                0 <= i <= n - 1,
                out@ =~= self@.body.subrange(0, i as int),
            decreases n - 1 - i,
        {
            out.push(self.body[i]);
            i = i + 1;
        }
        proof {
            assert(out@ =~= self@.body.drop_last());
        }
        out
    }
}

/// After a feed the body is unchanged, and the *next* move without a
/// further feed grows the visible body by exactly one cell: the grown
/// desired length retains the tail for one turn.
pub proof fn lemma_feed_then_move_grows_body(s: SnakeV, m: Movement)
    requires
        s.wf(),
        !s.is_dead(),
        s.body.len() == s.length,
    ensures
        s.after_feed().body == s.body,
        s.after_feed().after_move(m).body.len() == s.body.len() + 1,
        s.after_move(m).body.len() == s.body.len(),
{
}

} // verus!
