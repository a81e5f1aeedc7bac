//! The board: snakes, food, occupancy matrix, collisions, and the atomic
//! turn step.

use vstd::prelude::*;

use crate::collision::Collision;
use crate::matrice::{
    apply_writes, bodies_disjoint, cell_at, displacement_writes, in_bounds, override_writes, lemma_owner_exists, lemma_owner_none, lemma_owner_same, no_shared_cell,
    owner_code, owner_of, pt, Displacement, Matrice, MAX_DIM,
};
use crate::movement::Movement;
use crate::point::{move_dx, move_dy, Point};
use crate::snake::{Snake, SnakeV, DEFAULT_SNAKE_HEALTH};

verus! {

/// Stable identifier of a snake: its index in the board's snake vector.
pub type SnakeId = u8;

/// Chance, in thousandths, that one extra food spawns on a turn whose
/// food count already meets the minimum.
pub const FOOD_SPAWN_PERMILLE: u32 = 150;

/// Mathematical model of a board.
pub ghost struct BoardV {
    pub height: int,
    pub width: int,
    pub food: Seq<Point>,
    pub snakes: Seq<SnakeV>,
    pub collisions: Seq<Collision>,
    pub matrix: Seq<u8>,
}

/// Well-formedness of a board between turns: sides in range, at most 255
/// snakes each structurally sound with positive health, alive bodies in
/// bounds and pairwise disjoint, food cells distinct, and the occupancy
/// matrix agreeing with the bodies cell by cell.
#[verifier::opaque]
pub open spec fn board_wf(b: BoardV) -> bool {
    &&& 1 <= b.width <= MAX_DIM
    &&& 1 <= b.height <= MAX_DIM
    &&& 1 <= b.snakes.len() <= 255
    &&& forall|i: int| 0 <= i < b.snakes.len() ==> (#[trigger] b.snakes[i]).wf()
    &&& forall|i: int|
        0 <= i < b.snakes.len() && !b.snakes[i].is_dead() ==> (#[trigger] b.snakes[i]).health >= 1
    &&& forall|i: int, k: int|
        0 <= i < b.snakes.len() && !b.snakes[i].is_dead() && 0 <= k < b.snakes[i].body.len()
            ==> in_bounds(b.width, b.height, #[trigger] b.snakes[i].body[k])
    &&& bodies_disjoint(b.snakes)
    &&& forall|a: int, c: int| 0 <= a < c < b.food.len() ==> b.food[a] != b.food[c]
    &&& b.matrix.len() == b.height * b.width
    &&& forall|x: int, y: int|
        0 <= x < b.width && 0 <= y < b.height ==> cell_at(b.matrix, b.width, x, y) == owner_code(
            b.snakes,
            pt(x, y),
        )
}

/// All snakes advanced by their move; dead snakes are left untouched.
#[verifier::opaque]
pub open spec fn snakes_moved(ss: Seq<SnakeV>, movs: Seq<Movement>) -> Seq<SnakeV> {
    Seq::new(
        ss.len(),
        |i: int|
            if ss[i].is_dead() {
                ss[i]
            } else {
                ss[i].after_move(movs[i])
            },
    )
}

/// Whether `p` is one of `s`'s body cells below the head.
pub open spec fn in_body_without_head(s: SnakeV, p: Point) -> bool {
    exists|k: int| 0 <= k < s.body.len() - 1 && s.body[k] == p
}

/// The first snake from index `j` on that is alive and holds `head` in
/// its body below its own head, if any.
pub open spec fn first_other_body(ss: Seq<SnakeV>, head: Point, j: int) -> Option<int>
    decreases ss.len() - j,
{
    if j < 0 || j >= ss.len() {
        None
    } else if !ss[j].is_dead() && in_body_without_head(ss[j], head) {
        Some(j)
    } else {
        first_other_body(ss, head, j + 1)
    }
}

/// Whether snake `j` is a head-to-head partner of snake `i`: another
/// alive snake whose head landed on the same cell.
pub open spec fn h2h_partner(ss: Seq<SnakeV>, i: int, j: int) -> bool {
    0 <= j < ss.len() && j != i && !ss[j].is_dead() && ss[j].head == ss[i].head
}

/// Scans partners from index `j` on, keeping the first partner of
/// maximal length seen so far in `best`.
pub open spec fn h2h_scan(ss: Seq<SnakeV>, i: int, j: int, best: Option<int>) -> Option<int>
    decreases ss.len() - j,
{
    if j < 0 || j >= ss.len() {
        best
    } else {
        let best2 = if h2h_partner(ss, i, j) && (best is None || ss[j].length
            > ss[best->Some_0].length) {
            Some(j)
        } else {
            best
        };
        h2h_scan(ss, i, j + 1, best2)
    }
}

/// The head-to-head opponent recorded for snake `i`: the first partner
/// of maximal length, so that at most one snake survives a shared cell.
pub open spec fn h2h_best(ss: Seq<SnakeV>, i: int) -> Option<int> {
    h2h_scan(ss, i, 0, None)
}

/// The collision verdict for alive snake `i` after all heads have moved:
/// wall, own body, another body, and head-to-head are checked in this
/// fixed order, and the first match is returned.
#[verifier::opaque]
pub open spec fn collision_of(ss: Seq<SnakeV>, w: int, h: int, i: int) -> Option<Collision> {
    let s = ss[i];
    if !in_bounds(w, h, s.head) {
        Some(Collision::Wall { id: i as usize })
    } else if in_body_without_head(s, s.head) {
        Some(Collision::SelfBody { id: i as usize })
    } else if first_other_body(ss, s.head, 0) is Some {
        Some(
            Collision::OtherBody {
                id_1: i as usize,
                id_2: first_other_body(ss, s.head, 0)->Some_0 as usize,
                loc: s.head,
            },
        )
    } else if h2h_best(ss, i) is Some {
        Some(
            Collision::HeadToHead {
                src_length: s.length as usize,
                dst_length: ss[h2h_best(ss, i)->Some_0].length as usize,
                id_1: i as usize,
                id_2: h2h_best(ss, i)->Some_0 as usize,
                loc: s.head,
            },
        )
    } else {
        None
    }
}

/// The collision vector: the verdicts of the alive snakes among
/// `ss[0..n]`, in id order.
#[verifier::opaque]
pub open spec fn collisions_upto(ss: Seq<SnakeV>, w: int, h: int, n: int) -> Seq<Collision>
    decreases n,
{
    if n <= 0 {
        Seq::empty()
    } else {
        collisions_upto(ss, w, h, n - 1) + (if !ss[n - 1].is_dead() {
            match collision_of(ss, w, h, n - 1) {
                Some(c) => seq![c],
                None => Seq::empty(),
            }
        } else {
            Seq::empty()
        })
    }
}

/// The collision vector of a turn, classified on the moved snakes.
#[verifier::opaque]
pub open spec fn collisions_spec(ss: Seq<SnakeV>, w: int, h: int) -> Seq<Collision> {
    collisions_upto(ss, w, h, ss.len() as int)
}

/// Whether alive snake `i`'s own verdict kills it this turn.
#[verifier::opaque]
pub open spec fn dies_by_collision(ss: Seq<SnakeV>, w: int, h: int, i: int) -> bool {
    &&& !ss[i].is_dead()
    &&& match collision_of(ss, w, h, i) {
        Some(c) => c.causes_death_spec(),
        None => false,
    }
}

/// The snakes after every deadly verdict has been executed.
#[verifier::opaque]
pub open spec fn snakes_after_collisions(ss: Seq<SnakeV>, w: int, h: int) -> Seq<SnakeV> {
    Seq::new(
        ss.len(),
        |i: int|
            if dies_by_collision(ss, w, h, i) {
                ss[i].after_kill()
            } else {
                ss[i]
            },
    )
}

/// Whether alive snake `i`'s head sits on a food cell.
pub open spec fn head_on_food(ss: Seq<SnakeV>, food: Seq<Point>, i: int) -> bool {
    !ss[i].is_dead() && food.contains(ss[i].head)
}

/// The snakes after feeding: every alive snake whose head reached food
/// gets full health and one more desired length.
#[verifier::opaque]
pub open spec fn snakes_after_feed(ss: Seq<SnakeV>, food: Seq<Point>) -> Seq<SnakeV> {
    Seq::new(
        ss.len(),
        |i: int|
            if head_on_food(ss, food, i) {
                ss[i].after_feed()
            } else {
                ss[i]
            },
    )
}

/// Whether `p` is the head of some alive snake.
pub open spec fn is_alive_head(ss: Seq<SnakeV>, p: Point) -> bool {
    exists|i: int| 0 <= i < ss.len() && !ss[i].is_dead() && ss[i].head == p
}

/// The food left after the turn's feeding: every cell an alive head
/// reached is drained.
#[verifier::opaque]
pub open spec fn food_after_feed(ss: Seq<SnakeV>, food: Seq<Point>) -> Seq<Point> {
    food.filter(|p: Point| !is_alive_head(ss, p))
}

/// The snakes after starvation: alive snakes with no health left die.
#[verifier::opaque]
pub open spec fn snakes_after_starve(ss: Seq<SnakeV>) -> Seq<SnakeV> {
    Seq::new(
        ss.len(),
        |i: int|
            if !ss[i].is_dead() && ss[i].health == 0 {
                ss[i].after_kill()
            } else {
                ss[i]
            },
    )
}

/// The snakes at the end of a turn: moved, culled by collisions, fed,
/// then culled by starvation.
#[verifier::opaque]
pub open spec fn step_snakes_spec(
    ss: Seq<SnakeV>,
    movs: Seq<Movement>,
    w: int,
    h: int,
    food: Seq<Point>,
) -> Seq<SnakeV> {
    snakes_after_starve(
        snakes_after_feed(snakes_after_collisions(snakes_moved(ss, movs), w, h), food),
    )
}

/// The collision vector a turn records.
#[verifier::opaque]
pub open spec fn step_collisions_spec(
    ss: Seq<SnakeV>,
    movs: Seq<Movement>,
    w: int,
    h: int,
) -> Seq<Collision> {
    collisions_spec(snakes_moved(ss, movs), w, h)
}

/// The food left at the end of a turn, before any spawning.
#[verifier::opaque]
pub open spec fn step_food_spec(
    ss: Seq<SnakeV>,
    movs: Seq<Movement>,
    w: int,
    h: int,
    food: Seq<Point>,
) -> Seq<Point> {
    food_after_feed(snakes_after_collisions(snakes_moved(ss, movs), w, h), food)
}

/// The ids of the alive snakes among `ss`, in increasing order.
pub open spec fn alive_ids(ss: Seq<SnakeV>) -> Seq<int> {
    Seq::new(ss.len(), |i: int| i).filter(|i: int| !ss[i].is_dead())
}

/// The game board: dimensions, food cells, the snakes indexed by their
/// stable id, the occupancy matrix, and the last turn's collisions.
#[derive(Debug, Clone)]
pub struct Board {
    pub height: i32,
    pub width: i32,
    pub food: Vec<Point>,
    pub snakes: Vec<Snake>,
    pub matrice: Matrice,
    pub collisions: Vec<Collision>,
    pub food_spawn_permille: u32,
    pub food_min_amount: usize,
}

impl View for Board {
    type V = BoardV;

    open spec fn view(&self) -> BoardV {
        BoardV {
            height: self.height as int,
            width: self.width as int,
            food: self.food@,
            snakes: self.snakes@.map_values(|s: Snake| s@),
            collisions: self.collisions@,
            matrix: self.matrice.array@,
        }
    }
}

impl Board {
    /// Well-formedness of the whole aggregate: the model invariant plus
    /// the matrix dimensions mirroring the board's.
    pub open spec fn wf(self) -> bool {
        &&& board_wf(self@)
        &&& self.matrice.wf()
        &&& self.matrice.height as int == self.height as int
        &&& self.matrice.width as int == self.width as int
    }

    /// Preconditions a fresh set of snakes must meet: each structurally
    /// sound, alive ones with positive health and in-bounds, pairwise
    /// disjoint bodies.
    pub open spec fn snakes_ok(snakes: Seq<SnakeV>, w: int, h: int) -> bool {
        &&& 1 <= snakes.len() <= 255
        &&& forall|i: int| 0 <= i < snakes.len() ==> (#[trigger] snakes[i]).wf()
        &&& forall|i: int|
            0 <= i < snakes.len() && !snakes[i].is_dead() ==> (#[trigger] snakes[i]).health >= 1
        &&& forall|i: int, k: int|
            0 <= i < snakes.len() && !snakes[i].is_dead() && 0 <= k < snakes[i].body.len()
                ==> in_bounds(w, h, #[trigger] snakes[i].body[k])
        &&& bodies_disjoint(snakes)
    }

    /// A new board with no food yet.
    pub fn new(width: i32, height: i32, snakes: Vec<Snake>) -> (r: Board)
        requires
            1 <= width <= MAX_DIM as i32,
            1 <= height <= MAX_DIM as i32,
            Board::snakes_ok(snakes@.map_values(|s: Snake| s@), width as int, height as int),
        ensures
            r.wf(),
            r@.width == width as int,
            r@.height == height as int,
            r@.snakes == snakes@.map_values(|s: Snake| s@),
            r@.food == Seq::<Point>::empty(),
            r@.collisions == Seq::<Collision>::empty(),
            r.food_min_amount == snakes@.len() - 1,
            r.food_spawn_permille == FOOD_SPAWN_PERMILLE,
    {
        proof {
            reveal(board_wf);
        }
        proof {
            let ss = snakes@.map_values(|s: Snake| s@);
            assert forall|i: int| 0 <= i < snakes@.len() implies (#[trigger] snakes@[i])@.wf() by {
                assert(ss[i] == snakes@[i]@);
            }
            assert forall|i: int, k: int|
                0 <= i < snakes@.len() && !snakes@[i]@.is_dead() && 0 <= k
                    < snakes@[i]@.body.len() implies in_bounds(
                width as int,
                height as int,
                #[trigger] snakes@[i]@.body[k],
            ) by {
                assert(ss[i] == snakes@[i]@);
                assert(ss[i].body[k] == snakes@[i]@.body[k]);
            }
        }
        let matrice = Matrice::new(&snakes, height as usize, width as usize);
        let food_min_amount = snakes.len() - 1;
        let r = Board {
            food_min_amount,
            matrice,
            height,
            width,
            snakes,
            collisions: Vec::new(),
            food: Vec::new(),
            food_spawn_permille: FOOD_SPAWN_PERMILLE,
        };
        proof {
            assert(r@.food =~= Seq::<Point>::empty());
            assert(r@.collisions =~= Seq::<Collision>::empty());
        }
        r
    }

    /// A new board with the given food cells already on it.
    pub fn new_from(width: i32, height: i32, snakes: Vec<Snake>, food: &[Point]) -> (r: Board)
        requires
            1 <= width <= MAX_DIM as i32,
            1 <= height <= MAX_DIM as i32,
            Board::snakes_ok(snakes@.map_values(|s: Snake| s@), width as int, height as int),
            forall|a: int, c: int| 0 <= a < c < food@.len() ==> food@[a] != food@[c],
        ensures
            r.wf(),
            r@.width == width as int,
            r@.height == height as int,
            r@.snakes == snakes@.map_values(|s: Snake| s@),
            r@.food == food@,
            r@.collisions == Seq::<Collision>::empty(),
            r.food_min_amount == snakes@.len() - 1,
            r.food_spawn_permille == FOOD_SPAWN_PERMILLE,
    {
        proof {
            reveal(board_wf);
        }
        proof {
            let ss = snakes@.map_values(|s: Snake| s@);
            assert forall|i: int| 0 <= i < snakes@.len() implies (#[trigger] snakes@[i])@.wf() by {
                assert(ss[i] == snakes@[i]@);
            }
            assert forall|i: int, k: int|
                0 <= i < snakes@.len() && !snakes@[i]@.is_dead() && 0 <= k
                    < snakes@[i]@.body.len() implies in_bounds(
                width as int,
                height as int,
                #[trigger] snakes@[i]@.body[k],
            ) by {
                assert(ss[i] == snakes@[i]@);
                assert(ss[i].body[k] == snakes@[i]@.body[k]);
            }
        }
        let matrice = Matrice::new(&snakes, height as usize, width as usize);
        let food_min_amount = snakes.len() - 1;
        let mut food_vec: Vec<Point> = Vec::new();
        let mut i: usize = 0;
        while i < food.len()
            invariant
                0 <= i <= food@.len(),
                food_vec@ =~= food@.take(i as int),
            decreases food@.len() - i,
        {
            food_vec.push(food[i]);
            i = i + 1;
        }
        proof {
            assert(food_vec@ =~= food@);
        }
        let r = Board {
            food_min_amount,
            matrice,
            height,
            width,
            snakes,
            collisions: Vec::new(),
            food: food_vec,
            food_spawn_permille: FOOD_SPAWN_PERMILLE,
        };
        proof {
            assert(r@.collisions =~= Seq::<Collision>::empty());
        }
        r
    }

    /// The occupancy matrix.
    pub fn matrice(&self) -> (r: &Matrice)
        ensures
            r == &self.matrice,
    {
        &self.matrice
    }

    /// All snakes, indexed by id.
    pub fn snakes(&self) -> (r: &Vec<Snake>)
        ensures
            r == &self.snakes,
    {
        &self.snakes
    }

    /// The ids of the snakes still alive, in increasing order.
    pub fn alive_snakes(&self) -> (r: Vec<usize>)
        ensures
            r@.map_values(|u: usize| u as int) == alive_ids(self@.snakes),
            forall|k: int|
                0 <= k < r@.len() ==> 0 <= #[trigger] r@[k] < self@.snakes.len()
                    && !self@.snakes[r@[k] as int].is_dead(),
    {
        let ghost idxs = Seq::new(self@.snakes.len(), |i: int| i);
        let mut out: Vec<usize> = Vec::new();
        let n = self.snakes.len();
        let mut i: usize = 0;
        while i < n
            invariant
                n == self@.snakes.len(),
                0 <= i <= n,
                idxs == Seq::new(self@.snakes.len(), |t: int| t),
                out@.map_values(|u: usize| u as int) =~= idxs.take(i as int).filter(
                    |t: int| !self@.snakes[t].is_dead(),
                ),
                forall|k: int|
                    0 <= k < out@.len() ==> 0 <= #[trigger] out@[k] < self@.snakes.len()
                        && !self@.snakes[out@[k] as int].is_dead(),
            decreases n - i,
        {
            proof {
                assert(idxs.take(i as int + 1).drop_last() =~= idxs.take(i as int));
                assert(idxs.take(i as int + 1).last() == i as int);
            }
            let ghost prev = out@;
            if !self.snakes[i].is_dead() {
                out.push(i);
            }
            proof {
                reveal(Seq::filter);
                if !self@.snakes[i as int].is_dead() {
                    assert(out@.map_values(|u: usize| u as int) =~= prev.map_values(
                        |u: usize| u as int,
                    ).push(i as int));
                }
            }
            i = i + 1;
        }
        proof {
            assert(idxs.take(n as int) =~= idxs);
        }
        out
    }

    /// How many snakes are still alive.
    pub fn nb_snakes_alive(&self) -> (r: usize)
        ensures
            r as int == alive_ids(self@.snakes).len(),
    {
        let v = self.alive_snakes();
        v.len()
    }

    /// Board width.
    pub fn width(&self) -> (r: i32)
        ensures
            r as int == self@.width,
    {
        self.width
    }

    /// Board height.
    pub fn height(&self) -> (r: i32)
        ensures
            r as int == self@.height,
    {
        self.height
    }

    /// The last turn's collision vector.
    pub fn collisions(&self) -> (r: &Vec<Collision>)
        ensures
            r@ == self@.collisions,
    {
        &self.collisions
    }

    /// The food cells.
    pub fn food(&self) -> (r: &Vec<Point>)
        ensures
            r@ == self@.food,
    {
        &self.food
    }

    /// Whether `p` lies off the board.
    pub fn is_outside(&self, p: Point) -> (r: bool)
        ensures
            r == !in_bounds(self@.width, self@.height, p),
    {
        p.x < 0 || p.x >= self.width || p.y < 0 || p.y >= self.height
    }
}

/// Whether `p` is among `s`'s body cells below the head.
fn snake_bwh_contains(s: &Snake, p: Point) -> (r: bool)
    ensures
        r == in_body_without_head(s@, p),
{
    let n = s.body.len();
    if n == 0 {
        proof {
            assert(!in_body_without_head(s@, p));
        }
        return false;
    }
    let mut k: usize = 0;
    while k < n - 1
        invariant
            n == s@.body.len(),
            n >= 1,
            0 <= k <= n - 1,
            forall|l: int| 0 <= l < k ==> s@.body[l] != p,
        decreases n - 1 - k,
    {
        if s.body[k] == p {
            return true;
        }
        k = k + 1;
    }
    false
}

/// Whether `p` is one of `s`'s body cells.
fn snake_covers(s: &Snake, p: Point) -> (r: bool)
    ensures
        r == s@.covers(p),
{
    let n = s.body.len();
    let mut k: usize = 0;
    while k < n
        invariant
            n == s@.body.len(),
            0 <= k <= n,
            forall|l: int| 0 <= l < k ==> s@.body[l] != p,
        decreases n - k,
    {
        if s.body[k] == p {
            return true;
        }
        k = k + 1;
    }
    false
}

/// Whether `v` holds the cell `p`.
pub(crate) fn contains_point(v: &Vec<Point>, p: Point) -> (r: bool)
    ensures
        r == v@.contains(p),
{
    let n = v.len();
    let mut k: usize = 0;
    while k < n
        invariant
            n == v@.len(),
            0 <= k <= n,
            forall|l: int| 0 <= l < k ==> v@[l] != p,
        decreases n - k,
    {
        if v[k] == p {
            proof {
                assert(v@.contains(p));
            }
            return true;
        }
        k = k + 1;
    }
    proof {
        if v@.contains(p) {
            let l = choose|l: int| 0 <= l < v@.len() && v@[l] == p;
            assert(false);
        }
    }
    false
}

impl Board {
    /// The wall verdict for snake `snake_id`, if its head left the board.
    fn collides_wall(&self, snake_id: usize) -> (r: Option<Collision>)
        requires
            snake_id < self@.snakes.len(),
        ensures
            r == (if !in_bounds(self@.width, self@.height, self@.snakes[snake_id as int].head) {
                Some(Collision::Wall { id: snake_id })
            } else {
                None::<Collision>
            }),
    {
        let p = self.snakes[snake_id].head;
        if self.is_outside(p) {
            Some(Collision::Wall { id: snake_id })
        } else {
            None
        }
    }

    /// The own-body verdict for snake `snake_id`, if its head landed on
    /// one of its own cells below the head.
    fn collides_self_body(&self, snake_id: usize) -> (r: Option<Collision>)
        requires
            snake_id < self@.snakes.len(),
        ensures
            r == (if in_body_without_head(
                self@.snakes[snake_id as int],
                self@.snakes[snake_id as int].head,
            ) {
                Some(Collision::SelfBody { id: snake_id })
            } else {
                None::<Collision>
            }),
    {
        let head = self.snakes[snake_id].head;
        if snake_bwh_contains(&self.snakes[snake_id], head) {
            Some(Collision::SelfBody { id: snake_id })
        } else {
            None
        }
    }

    /// The other-body verdict for snake `snake_id`: the first alive
    /// snake holding its head in a cell below that snake's own head.
    fn collides_other_body(&self, snake_id: usize) -> (r: Option<Collision>)
        requires
            snake_id < self@.snakes.len(),
        ensures
            r == (match first_other_body(self@.snakes, self@.snakes[snake_id as int].head, 0) {
                Some(j) => Some(
                    Collision::OtherBody {
                        id_1: snake_id,
                        id_2: j as usize,
                        loc: self@.snakes[snake_id as int].head,
                    },
                ),
                None => None::<Collision>,
            }),
    {
        let ghost ss = self@.snakes;
        let head = self.snakes[snake_id].head;
        let n = self.snakes.len();
        let mut j: usize = 0;
        while j < n
            invariant
                ss == self@.snakes,
                n == ss.len(),
                snake_id < n,
                head == ss[snake_id as int].head,
                0 <= j <= n,
                first_other_body(ss, head, 0) == first_other_body(ss, head, j as int),
            decreases n - j,
        {
            if !self.snakes[j].is_dead() && snake_bwh_contains(&self.snakes[j], head) {
                proof {
                    assert(ss[j as int] == self.snakes@[j as int]@);
                    assert(first_other_body(ss, head, j as int) == Some(j as int));
                }
                return Some(Collision::OtherBody { id_1: snake_id, id_2: j, loc: head });
            }
            proof {
                assert(ss[j as int] == self.snakes@[j as int]@);
            }
            j = j + 1;
        }
        None
    }

    /// The head-to-head verdict for snake `snake_id`: among the other
    /// alive snakes whose head landed on the same cell, the first one of
    /// maximal length is recorded as the opponent.
    fn collides_head_to_head(&self, snake_id: usize) -> (r: Option<Collision>)
        requires
            snake_id < self@.snakes.len(),
        ensures
            r == (match h2h_best(self@.snakes, snake_id as int) {
                Some(j) => Some(
                    Collision::HeadToHead {
                        src_length: self@.snakes[snake_id as int].length as usize,
                        dst_length: self@.snakes[j].length as usize,
                        id_1: snake_id,
                        id_2: j as usize,
                        loc: self@.snakes[snake_id as int].head,
                    },
                ),
                None => None::<Collision>,
            }),
    {
        let ghost ss = self@.snakes;
        let head = self.snakes[snake_id].head;
        let n = self.snakes.len();
        let mut best: Option<usize> = None;
        let ghost best_spec = None::<int>;
        let mut j: usize = 0;
        while j < n
            invariant
                ss == self@.snakes,
                n == ss.len(),
                snake_id < n,
                head == ss[snake_id as int].head,
                0 <= j <= n,
                best_spec == (match best {
                    Some(b) => Some(b as int),
                    None => None::<int>,
                }),
                best matches Some(b) ==> b < n,
                h2h_best(ss, snake_id as int) == h2h_scan(ss, snake_id as int, j as int, best_spec),
            decreases n - j,
        {
            proof {
                assert(ss[j as int] == self.snakes@[j as int]@);
            }
            let is_partner = j != snake_id && !self.snakes[j].is_dead() && self.snakes[j].head.x
                == head.x && self.snakes[j].head.y == head.y;
            let longer = match best {
                Some(b) => {
                    proof {
                        assert(ss[b as int] == self.snakes@[b as int]@);
                    }
                    self.snakes[j].length() > self.snakes[b].length()
                },
                None => true,
            };
            proof {
                assert(is_partner == h2h_partner(ss, snake_id as int, j as int)) by {
                    assert(ss[j as int].head == self.snakes@[j as int]@.head);
                }
            }
            if is_partner && longer {
                best = Some(j);
                proof {
                    best_spec = Some(j as int);
                }
            }
            j = j + 1;
        }
        match best {
            Some(b) => {
                proof {
                    assert(ss[b as int] == self.snakes@[b as int]@);
                }
                Some(
                    Collision::HeadToHead {
                        src_length: self.snakes[snake_id].length(),
                        dst_length: self.snakes[b].length(),
                        id_1: snake_id,
                        id_2: b,
                        loc: head,
                    },
                )
            },
            None => None,
        }
    }

    /// The collision verdict of alive snake `snake_id`: wall, own body,
    /// another body, and head-to-head, checked in this order.
    pub fn check_collision(&self, snake_id: usize) -> (r: Option<Collision>)
        requires
            snake_id < self@.snakes.len(),
            !self@.snakes[snake_id as int].is_dead(),
        ensures
            r == collision_of(self@.snakes, self@.width, self@.height, snake_id as int),
    {
        proof {
            reveal(collision_of);
        }
        let r = self.collides_wall(snake_id);
        if r.is_some() {
            return r;
        }
        let r = self.collides_self_body(snake_id);
        if r.is_some() {
            return r;
        }
        let r = self.collides_other_body(snake_id);
        if r.is_some() {
            return r;
        }
        self.collides_head_to_head(snake_id)
    }

    /// Kills the given snakes: each body is removed from the matrix and
    /// the snake cleared. Ids must be distinct, in range and alive.
    #[verifier::loop_isolation(false)]
    pub fn kill_snakes(&mut self, snakes_dead: Vec<usize>)
        requires
            old(self).wf(),
            forall|a: int, b: int|
                0 <= a < b < snakes_dead@.len() ==> snakes_dead@[a] != snakes_dead@[b],
            forall|a: int|
                0 <= a < snakes_dead@.len() ==> #[trigger] snakes_dead@[a]
                    < old(self)@.snakes.len() && !old(self)@.snakes[snakes_dead@[a] as int].is_dead(),
        ensures
            final(self).wf(),
            final(self)@.width == old(self)@.width,
            final(self)@.height == old(self)@.height,
            final(self)@.food == old(self)@.food,
            final(self)@.collisions == old(self)@.collisions,
            final(self).food_min_amount == old(self).food_min_amount,
            final(self).food_spawn_permille == old(self).food_spawn_permille,
            final(self)@.snakes == Seq::new(
                old(self)@.snakes.len(),
                |i: int|
                    if snakes_dead@.contains(i as usize) {
                        old(self)@.snakes[i].after_kill()
                    } else {
                        old(self)@.snakes[i]
                    },
            ),
    {
        proof {
            reveal(board_wf);
        }
        let ghost ss0 = self@.snakes;
        let n = snakes_dead.len();
        let mut t: usize = 0;
        while t < n
            invariant
                n == snakes_dead@.len(),
                0 <= t <= n,
                self.height == old(self).height,
                self.width == old(self).width,
                self@.food == old(self)@.food,
                self@.collisions == old(self)@.collisions,
                self.food_min_amount == old(self).food_min_amount,
                self.food_spawn_permille == old(self).food_spawn_permille,
                self.matrice.wf(),
                self.matrice.height == old(self).matrice.height,
                self.matrice.width == old(self).matrice.width,
                old(self).wf(),
                ss0 == old(self)@.snakes,
                self@.snakes.len() == ss0.len(),
                forall|a: int, b: int|
                    0 <= a < b < snakes_dead@.len() ==> snakes_dead@[a] != snakes_dead@[b],
                forall|a: int|
                    0 <= a < snakes_dead@.len() ==> #[trigger] snakes_dead@[a] < ss0.len()
                        && !ss0[snakes_dead@[a] as int].is_dead(),
                self@.snakes =~= Seq::new(
                    ss0.len(),
                    |i: int|
                        if snakes_dead@.take(t as int).contains(i as usize) {
                            ss0[i].after_kill()
                        } else {
                            ss0[i]
                        },
                ),
                bodies_disjoint(self@.snakes),
                forall|x: int, y: int|
                    0 <= x < self@.width && 0 <= y < self@.height ==> cell_at(
                        self.matrice.array@,
                        self@.width,
                        x,
                        y,
                    ) == owner_code(self@.snakes, pt(x, y)),
            decreases n - t,
        {
            let ghost w = self@.width;
            let ghost h = self@.height;
            let id = snakes_dead[t];
            proof {
                assert(snakes_dead@[t as int] == id);
                assert(id < ss0.len());
                assert(snakes_dead@.take(t as int + 1).drop_last() =~= snakes_dead@.take(t as int));
                assert(!snakes_dead@.take(t as int).contains(id)) by {
                    if snakes_dead@.take(t as int).contains(id) {
                        let a = choose|a: int| 0 <= a < t && #[trigger] snakes_dead@.take(t as int)[a] == id;
                        assert(snakes_dead@[a] == snakes_dead@[t as int]);
                    }
                }
                assert(self@.snakes[id as int] == ss0[id as int]);
                assert(!ss0[id as int].is_dead());
                assert(self.snakes@.len() == ss0.len());
            }
            let ghost pre = self@.snakes;
            self.matrice.remove_points(&self.snakes[id].body);
            proof {
                assert(self@.snakes == pre);
                assert(self@.snakes[id as int] == pre[id as int]);
                assert(!self@.snakes[id as int].is_dead());
            }
            self.snakes[id].kill();
            proof {
                let new_ss = self@.snakes;
                let body = pre[id as int].body;
                assert(new_ss =~= pre.update(id as int, pre[id as int].after_kill()));
                assert(bodies_disjoint(new_ss)) by {
                    assert forall|i: int, j: int|
                        0 <= i < new_ss.len() && 0 <= j < new_ss.len() && i != j
                            && !new_ss[i].is_dead() && !new_ss[j].is_dead() implies no_shared_cell(
                        #[trigger] new_ss[i],
                        #[trigger] new_ss[j],
                    ) by {
                        assert(new_ss[i] == pre[i] && new_ss[j] == pre[j]);
                        assert(no_shared_cell(pre[i], pre[j]));
                    }
                }
                assert forall|x: int, y: int| 0 <= x < w && 0 <= y < h implies cell_at(
                    self.matrice.array@,
                    w,
                    x,
                    y,
                ) == owner_code(new_ss, pt(x, y)) by {
                    let p = pt(x, y);
                    if exists|k: int| 0 <= k < body.len() && body[k] == p {
                        assert(pre[id as int].covers(p));
                        assert(cell_at(self.matrice.array@, w, x, y) == 0u8);
                        assert forall|j: int|
                            0 <= j < new_ss.len() && !(#[trigger] new_ss[j]).is_dead() implies !new_ss[j].covers(
                            p,
                        ) by {
                            if j == id as int {
                                assert(new_ss[j].body.len() == 0);
                                if new_ss[j].covers(p) {
                                    let k = choose|k: int|
                                        0 <= k < new_ss[j].body.len() && new_ss[j].body[k] == p;
                                }
                            } else {
                                if new_ss[j].covers(p) {
                                    assert(pre[j] == new_ss[j]);
                                    assert(no_shared_cell(pre[id as int], pre[j]));
                                    let k = choose|k: int|
                                        0 <= k < pre[id as int].body.len() && pre[id as int].body[k]
                                            == p;
                                    assert(!pre[j].covers(pre[id as int].body[k]));
                                }
                            }
                        }
                        lemma_owner_none(new_ss, p, new_ss.len() as int);
                    } else {
                        assert(!pre[id as int].covers(p));
                        assert(cell_at(self.matrice.array@, w, x, y) == owner_code(pre, pt(x, y)));
                        assert(!new_ss[id as int].covers(p)) by {
                            if new_ss[id as int].covers(p) {
                                let k = choose|k: int|
                                    0 <= k < new_ss[id as int].body.len()
                                        && new_ss[id as int].body[k] == p;
                            }
                        }
                        assert forall|j: int| 0 <= j < pre.len() implies ((!pre[j].is_dead()
                            && pre[j].covers(p)) == (!(#[trigger] new_ss[j]).is_dead()
                            && new_ss[j].covers(p))) by {
                            if j != id as int {
                                assert(new_ss[j] == pre[j]);
                            }
                        }
                        lemma_owner_same(pre, new_ss, p, pre.len() as int);
                    }
                }
                assert(self@.snakes =~= Seq::new(
                    ss0.len(),
                    |i: int|
                        if snakes_dead@.take(t as int + 1).contains(i as usize) {
                            ss0[i].after_kill()
                        } else {
                            ss0[i]
                        },
                )) by {
                    assert forall|i: int| 0 <= i < ss0.len() implies new_ss[i] == (
                    if snakes_dead@.take(t as int + 1).contains(i as usize) {
                        ss0[i].after_kill()
                    } else {
                        ss0[i]
                    }) by {
                        if snakes_dead@.take(t as int + 1).contains(i as usize) {
                            let a = choose|a: int|
                                0 <= a < t + 1 && #[trigger] snakes_dead@.take(t as int + 1)[a] == i as usize;
                            if a < t {
                                assert(snakes_dead@.take(t as int).contains(i as usize));
                            } else {
                                assert(i == id as int);
                            }
                        } else {
                            assert(!snakes_dead@.take(t as int).contains(i as usize)) by {
                                if snakes_dead@.take(t as int).contains(i as usize) {
                                    let a = choose|a: int|
                                        0 <= a < t && #[trigger] snakes_dead@.take(t as int)[a] == i as usize;
                                    assert(snakes_dead@.take(t as int + 1)[a] == i as usize);
                                }
                            }
                            assert(i != id as int) by {
                                if i == id as int {
                                    assert(snakes_dead@.take(t as int + 1)[t as int] == i as usize);
                                }
                            }
                        }
                    }
                }
            }
            t = t + 1;
        }
        proof {
            assert(snakes_dead@.take(n as int) =~= snakes_dead@);
            let fin = Seq::new(
                ss0.len(),
                |i: int|
                    if snakes_dead@.contains(i as usize) {
                        ss0[i].after_kill()
                    } else {
                        ss0[i]
                    },
            );
            assert(self@.snakes =~= fin);
            assert(self.matrice.height as int == self@.height);
            assert(self.matrice.width as int == self@.width);
            assert(self@.matrix.len() == self@.height * self@.width);
            assert(board_wf(self@)) by {
                assert forall|i: int| 0 <= i < self@.snakes.len() implies (
                #[trigger] self@.snakes[i]).wf() by {
                    assert(self@.snakes[i] == ss0[i] || self@.snakes[i] == ss0[i].after_kill());
                    assert(ss0[i].wf());
                }
                assert forall|i: int|
                    0 <= i < self@.snakes.len() && !self@.snakes[i].is_dead() implies (
                #[trigger] self@.snakes[i]).health >= 1 by {
                    assert(self@.snakes[i] == ss0[i] || self@.snakes[i] == ss0[i].after_kill());
                }
                assert forall|i: int, k: int|
                    0 <= i < self@.snakes.len() && !self@.snakes[i].is_dead() && 0 <= k
                        < self@.snakes[i].body.len() implies in_bounds(
                    self@.width,
                    self@.height,
                    #[trigger] self@.snakes[i].body[k],
                ) by {
                    assert(self@.snakes[i] == ss0[i] || self@.snakes[i] == ss0[i].after_kill());
                }
            }
        }
    }
}

/// Every cell of a moved snake's body below its head was a cell of the
/// snake before the move, and the last cell is the new head.
pub proof fn lemma_moved_membership(s: SnakeV, m: Movement)
    requires
        s.wf(),
        !s.is_dead(),
    ensures
        s.after_move(m).body.len() >= 1,
        s.after_move(m).body.last() == s.after_move(m).head,
        forall|k: int|
            0 <= k < s.after_move(m).body.len() - 1 ==> s.covers(#[trigger] s.after_move(m).body[k]),
{
    let b2 = s.after_move(m).body;
    assert forall|k: int| 0 <= k < b2.len() - 1 implies s.covers(#[trigger] b2[k]) by {
        if s.body.len() >= s.length {
            assert(b2[k] == s.body[k + 1]);
        } else {
            assert(b2[k] == s.body[k]);
        }
    }
}

/// A moved snake is still structurally sound, with one less life point.
pub proof fn lemma_moved_wf(s: SnakeV, m: Movement)
    requires
        s.wf(),
        !s.is_dead(),
        s.health >= 1,
    ensures
        s.after_move(m).wf(),
        !s.after_move(m).is_dead(),
        s.after_move(m).health >= 0,
{
}

/// If some alive snake from `j` on holds `head` below its own head, the
/// scan finds one.
pub proof fn lemma_first_other_body_some(ss: Seq<SnakeV>, head: Point, j0: int, j: int)
    requires
        0 <= j0 <= j < ss.len(),
        !ss[j].is_dead(),
        in_body_without_head(ss[j], head),
    ensures
        first_other_body(ss, head, j0) is Some,
    decreases j - j0,
{
    if j0 < j && !(!ss[j0].is_dead() && in_body_without_head(ss[j0], head)) {
        lemma_first_other_body_some(ss, head, j0 + 1, j);
    }
}

/// What a successful scan returns: an alive snake holding `head` below
/// its own head.
pub proof fn lemma_first_other_body_props(ss: Seq<SnakeV>, head: Point, j0: int, j: int)
    requires
        0 <= j0,
        first_other_body(ss, head, j0) == Some(j),
    ensures
        j0 <= j < ss.len(),
        !ss[j].is_dead(),
        in_body_without_head(ss[j], head),
    decreases ss.len() - j0,
{
    if j0 < ss.len() {
        if !(!ss[j0].is_dead() && in_body_without_head(ss[j0], head)) {
            lemma_first_other_body_props(ss, head, j0 + 1, j);
        }
    }
}

/// If no alive snake holds `head` below its own head, the scan fails.
pub proof fn lemma_first_other_body_none(ss: Seq<SnakeV>, head: Point, j0: int)
    requires
        0 <= j0,
        forall|j: int|
            0 <= j < ss.len() && !ss[j].is_dead() ==> !in_body_without_head(
                #[trigger] ss[j],
                head,
            ),
    ensures
        first_other_body(ss, head, j0) is None,
    decreases ss.len() - j0,
{
    if j0 < ss.len() {
        lemma_first_other_body_none(ss, head, j0 + 1);
    }
}

/// The head-to-head scan keeps a partner of maximal length: whatever it
/// returns beats every partner, and it returns one iff any exists.
pub proof fn lemma_h2h_scan_props(ss: Seq<SnakeV>, i: int, j: int, best: Option<int>)
    requires
        0 <= j <= ss.len(),
        match best {
            Some(b) => h2h_partner(ss, i, b) && forall|t: int|
                #[trigger] h2h_partner(ss, i, t) && t < j ==> ss[t].length <= ss[b].length,
            None => forall|t: int| #[trigger] h2h_partner(ss, i, t) ==> t >= j,
        },
    ensures
        match h2h_scan(ss, i, j, best) {
            Some(b2) => h2h_partner(ss, i, b2) && forall|t: int|
                #[trigger] h2h_partner(ss, i, t) ==> ss[t].length <= ss[b2].length,
            None => forall|t: int| !(#[trigger] h2h_partner(ss, i, t)),
        },
    decreases ss.len() - j,
{
    if j < ss.len() {
        let best2 = if h2h_partner(ss, i, j) && (best is None || ss[j].length
            > ss[best->Some_0].length) {
            Some(j)
        } else {
            best
        };
        assert(match best2 {
            Some(b) => h2h_partner(ss, i, b) && forall|t: int|
                #[trigger] h2h_partner(ss, i, t) && t < j + 1 ==> ss[t].length <= ss[b].length,
            None => forall|t: int| #[trigger] h2h_partner(ss, i, t) ==> t >= j + 1,
        }) by {
            if h2h_partner(ss, i, j) && (best is None || ss[j].length > ss[best->Some_0].length) {
                assert forall|t: int| #[trigger] h2h_partner(ss, i, t) && t < j + 1 implies ss[t].length
                    <= ss[j].length by {
                    if t < j {
                        match best {
                            Some(b) => {
                                assert(ss[t].length <= ss[b].length);
                            },
                            None => {},
                        }
                    }
                }
            }
        }
        lemma_h2h_scan_props(ss, i, j + 1, best2);
    }
}

/// What must be true of an alive snake that outlived the collision
/// round: its head stayed on the board and off every body, and it is
/// strictly longer than every snake whose head landed on the same cell.
pub proof fn lemma_survivor_facts(ms: Seq<SnakeV>, w: int, h: int, i: int)
    requires
        0 <= i < ms.len(),
        !ms[i].is_dead(),
        !dies_by_collision(ms, w, h, i),
        forall|t: int| 0 <= t < ms.len() ==> (#[trigger] ms[t]).length <= usize::MAX,
    ensures
        in_bounds(w, h, ms[i].head),
        !in_body_without_head(ms[i], ms[i].head),
        forall|j: int|
            0 <= j < ms.len() && !ms[j].is_dead() ==> !in_body_without_head(
                #[trigger] ms[j],
                ms[i].head,
            ),
        forall|j: int| #[trigger] h2h_partner(ms, i, j) ==> ms[j].length < ms[i].length,
{
    reveal(collision_of);
    reveal(dies_by_collision);
    let head = ms[i].head;
    assert(in_bounds(w, h, head)) by {
        if !in_bounds(w, h, head) {
            assert(collision_of(ms, w, h, i) == Some(Collision::Wall { id: i as usize }));
        }
    }
    assert(!in_body_without_head(ms[i], head)) by {
        if in_body_without_head(ms[i], head) {
            assert(collision_of(ms, w, h, i) == Some(Collision::SelfBody { id: i as usize }));
        }
    }
    assert forall|j: int| 0 <= j < ms.len() && !ms[j].is_dead() implies !in_body_without_head(
        #[trigger] ms[j],
        head,
    ) by {
        if in_body_without_head(ms[j], head) {
            lemma_first_other_body_some(ms, head, 0, j);
            let j2 = first_other_body(ms, head, 0)->Some_0;
            assert(collision_of(ms, w, h, i) == Some(
                Collision::OtherBody { id_1: i as usize, id_2: j2 as usize, loc: head },
            ));
        }
    }
    assert forall|j: int| #[trigger] h2h_partner(ms, i, j) implies ms[j].length < ms[i].length by {
        lemma_first_other_body_none(ms, head, 0);
        lemma_h2h_scan_props(ms, i, 0, None);
        let b = h2h_best(ms, i)->Some_0;
        assert(h2h_partner(ms, i, b));
        assert(ms[j].length <= ms[b].length);
        assert(collision_of(ms, w, h, i) == Some(
            Collision::HeadToHead {
                src_length: ms[i].length as usize,
                dst_length: ms[b].length as usize,
                id_1: i as usize,
                id_2: b as usize,
                loc: head,
            },
        ));
        assert(!(ms[i].length as usize <= ms[b].length as usize));
        assert(ms[b].length < ms[i].length);
    }
}

/// The snakes at the end of a turn are still a sound population: each
/// one structurally sound, alive ones with positive health and in-bounds
/// bodies, and all alive bodies pairwise disjoint.
pub proof fn lemma_step_snakes_sound(
    ss: Seq<SnakeV>,
    movs: Seq<Movement>,
    w: int,
    h: int,
    food: Seq<Point>,
)
    requires
        movs.len() == ss.len(),
        1 <= w <= MAX_DIM,
        1 <= h <= MAX_DIM,
        forall|i: int| 0 <= i < ss.len() ==> (#[trigger] ss[i]).wf(),
        forall|i: int| 0 <= i < ss.len() && !ss[i].is_dead() ==> (#[trigger] ss[i]).health >= 1,
        forall|i: int, k: int|
            0 <= i < ss.len() && !ss[i].is_dead() && 0 <= k < ss[i].body.len() ==> in_bounds(
                w,
                h,
                #[trigger] ss[i].body[k],
            ),
        bodies_disjoint(ss),
        forall|i: int| 0 <= i < ss.len() ==> (#[trigger] ss[i]).length <= usize::MAX,
    ensures
        ({
            let fin = step_snakes_spec(ss, movs, w, h, food);
            &&& fin.len() == ss.len()
            &&& forall|i: int| 0 <= i < fin.len() ==> (#[trigger] fin[i]).wf()
            &&& forall|i: int|
                0 <= i < fin.len() && !fin[i].is_dead() ==> (#[trigger] fin[i]).health >= 1
            &&& forall|i: int, k: int|
                0 <= i < fin.len() && !fin[i].is_dead() && 0 <= k < fin[i].body.len()
                    ==> in_bounds(w, h, #[trigger] fin[i].body[k])
            &&& bodies_disjoint(fin)
        }),
{
    reveal(snakes_moved);
    reveal(dies_by_collision);
    reveal(snakes_after_collisions);
    reveal(snakes_after_feed);
    reveal(food_after_feed);
    reveal(snakes_after_starve);
    reveal(step_snakes_spec);
    let ms = snakes_moved(ss, movs);
    let ks = snakes_after_collisions(ms, w, h);
    let fs = snakes_after_feed(ks, food);
    let fin = snakes_after_starve(fs);

    assert forall|i: int| 0 <= i < ms.len() implies (#[trigger] ms[i]).wf() && (!ms[i].is_dead()
        ==> ms[i].health >= 0) && ms[i].length == ss[i].length by {
        if !ss[i].is_dead() {
            lemma_moved_wf(ss[i], movs[i]);
        }
    }
    assert(forall|t: int| 0 <= t < ms.len() ==> (#[trigger] ms[t]).length <= usize::MAX);

    // Facts about the collision survivors.
    assert forall|i: int| 0 <= i < ks.len() && !(#[trigger] ks[i]).is_dead() implies ks[i]
        == ms[i] && !ms[i].is_dead() && !dies_by_collision(ms, w, h, i) by {
        if dies_by_collision(ms, w, h, i) {
            assert(ks[i] == ms[i].after_kill());
        }
    }

    // Survivor bodies are in bounds.
    assert forall|i: int, k: int|
        0 <= i < ks.len() && !ks[i].is_dead() && 0 <= k < ks[i].body.len() implies in_bounds(
        w,
        h,
        #[trigger] ks[i].body[k],
    ) by {
        lemma_survivor_facts(ms, w, h, i);
        if !ss[i].is_dead() {
            lemma_moved_membership(ss[i], movs[i]);
            if k < ks[i].body.len() - 1 {
                assert(ss[i].covers(ms[i].body[k]));
                let l = choose|l: int| 0 <= l < ss[i].body.len() && ss[i].body[l] == ms[i].body[k];
                assert(in_bounds(w, h, ss[i].body[l]));
            } else {
                assert(ms[i].body[k] == ms[i].body.last());
                assert(ms[i].body.last() == ms[i].head);
            }
        }
    }

    // Survivor bodies are pairwise disjoint.
    assert(bodies_disjoint(ks)) by {
        assert forall|i: int, j: int|
            0 <= i < ks.len() && 0 <= j < ks.len() && i != j && !ks[i].is_dead()
                && !ks[j].is_dead() implies no_shared_cell(#[trigger] ks[i], #[trigger] ks[j]) by {
            lemma_survivor_facts(ms, w, h, i);
            lemma_survivor_facts(ms, w, h, j);
            lemma_moved_membership(ss[i], movs[i]);
            lemma_moved_membership(ss[j], movs[j]);
            assert forall|k: int| 0 <= k < ks[i].body.len() implies !ks[j].covers(
                #[trigger] ks[i].body[k],
            ) by {
                let c = ms[i].body[k];
                if ks[j].covers(c) {
                    let l = choose|l: int| 0 <= l < ms[j].body.len() && ms[j].body[l] == c;
                    if k < ms[i].body.len() - 1 && l < ms[j].body.len() - 1 {
                        // both cells predate the move: contradicts the old disjointness
                        assert(ss[i].covers(c));
                        assert(ss[j].covers(c));
                        let ki = choose|t: int| 0 <= t < ss[i].body.len() && ss[i].body[t] == c;
                        assert(no_shared_cell(ss[i], ss[j]));
                        assert(!ss[j].covers(ss[i].body[ki]));
                    } else if k == ms[i].body.len() - 1 && l < ms[j].body.len() - 1 {
                        // i's head on j's older body: i would have died
                        assert(c == ms[i].head);
                        assert(in_body_without_head(ms[j], ms[i].head));
                    } else if k < ms[i].body.len() - 1 && l == ms[j].body.len() - 1 {
                        // j's head on i's older body: j would have died
                        assert(ms[j].body[l] == ms[j].head);
                        assert(ss[i].covers(c));
                        let t = choose|t: int| 0 <= t < ss[i].body.len() && ss[i].body[t] == c;
                        assert(t < ss[i].body.len());
                        assert(in_body_without_head(ms[i], ms[j].head)) by {
                            // c is below i's moved head because k is not the last index
                            assert(ms[i].body[k] == ms[j].head);
                        }
                    } else {
                        // heads met: the shorter dies, so both surviving is absurd
                        assert(c == ms[i].head && c == ms[j].head);
                        assert(h2h_partner(ms, i, j));
                        assert(h2h_partner(ms, j, i));
                        assert(ms[j].length < ms[i].length);
                        assert(ms[i].length < ms[j].length);
                    }
                }
            }
        }
    }

    // Feeding changes neither bodies nor aliveness.
    assert forall|i: int| 0 <= i < fs.len() implies (#[trigger] fs[i]).body == ks[i].body && (
    fs[i].is_dead() == ks[i].is_dead()) && fs[i].wf() && fs[i].head == ks[i].head by {
        assert(ks[i].wf());
        if head_on_food(ks, food, i) {
            assert(fs[i] == ks[i].after_feed());
        }
    }

    assert(bodies_disjoint(fs)) by {
        assert forall|i: int, j: int|
            0 <= i < fs.len() && 0 <= j < fs.len() && i != j && !fs[i].is_dead()
                && !fs[j].is_dead() implies no_shared_cell(#[trigger] fs[i], #[trigger] fs[j]) by {
            assert(no_shared_cell(ks[i], ks[j]));
            assert forall|k: int| 0 <= k < fs[i].body.len() implies !fs[j].covers(
                #[trigger] fs[i].body[k],
            ) by {
                assert(!ks[j].covers(ks[i].body[k]));
            }
        }
    }

    // Starvation only kills.
    assert forall|i: int| 0 <= i < fin.len() implies (#[trigger] fin[i]).wf() && (!fin[i].is_dead()
        ==> fin[i].health >= 1 && fin[i].body == fs[i].body) by {
        assert(fs[i].wf());
        if !fs[i].is_dead() && fs[i].health == 0 {
            assert(fin[i] == fs[i].after_kill());
        } else {
            assert(fin[i] == fs[i]);
            if !fin[i].is_dead() {
                assert(fs[i].health != 0);
                if head_on_food(ks, food, i) {
                    assert(fs[i].health == DEFAULT_SNAKE_HEALTH as int);
                } else {
                    assert(fs[i] == ks[i] || fs[i] == ks[i]);
                }
            }
        }
    }

    assert(bodies_disjoint(fin)) by {
        assert forall|i: int, j: int|
            0 <= i < fin.len() && 0 <= j < fin.len() && i != j && !fin[i].is_dead()
                && !fin[j].is_dead() implies no_shared_cell(#[trigger] fin[i], #[trigger] fin[j]) by {
            assert(fin[i] == fs[i] && fin[j] == fs[j]);
            assert(no_shared_cell(fs[i], fs[j]));
        }
    }

    assert forall|i: int, k: int|
        0 <= i < fin.len() && !fin[i].is_dead() && 0 <= k < fin[i].body.len() implies in_bounds(
        w,
        h,
        #[trigger] fin[i].body[k],
    ) by {
        assert(fin[i] == fs[i]);
        assert(fs[i].body == ks[i].body);
        assert(!ks[i].is_dead());
        assert(in_bounds(w, h, ks[i].body[k]));
    }
}

/// The points of row `y`, left to right.
pub open spec fn row_points(w: int, y: int) -> Seq<Point> {
    Seq::new(w as nat, |x: int| pt(x, y))
}

/// All cells of the first `y` rows of a `w`-wide board, row-major.
pub open spec fn grid_upto(w: int, y: int) -> Seq<Point>
    decreases y,
{
    if y <= 0 {
        Seq::empty()
    } else {
        grid_upto(w, y - 1) + row_points(w, y - 1)
    }
}

/// Whether cell `p` is free: no alive body holds it, no food sits on it.
pub open spec fn cell_free(ss: Seq<SnakeV>, food: Seq<Point>, p: Point) -> bool {
    owner_of(ss, p) is None && !food.contains(p)
}

/// Every free cell of the board, in row-major order: the cells food may
/// spawn on.
pub open spec fn free_cells_spec(ss: Seq<SnakeV>, food: Seq<Point>, w: int, h: int) -> Seq<
    Point,
> {
    grid_upto(w, h).filter(|p: Point| cell_free(ss, food, p))
}

impl Board {
    /// Whether some alive snake's body covers `p`.
    fn covered_by_alive(&self, p: Point) -> (r: bool)
        ensures
            r == (owner_of(self@.snakes, p) is Some),
    {
        let ghost ss = self@.snakes;
        let n = self.snakes.len();
        let mut j: usize = 0;
        while j < n
            invariant
                ss == self@.snakes,
                n == ss.len(),
                0 <= j <= n,
                forall|t: int|
                    0 <= t < j ==> ((#[trigger] ss[t]).is_dead() || !ss[t].covers(p)),
            decreases n - j,
        {
            proof {
                assert(ss[j as int] == self.snakes@[j as int]@);
            }
            if !self.snakes[j].is_dead() && snake_covers(&self.snakes[j], p) {
                proof {
                    lemma_owner_exists(ss, p, ss.len() as int, j as int);
                }
                return true;
            }
            j = j + 1;
        }
        proof {
            lemma_owner_none(ss, p, ss.len() as int);
        }
        false
    }

    /// Whether `p` is the head of some alive snake.
    fn alive_head_at(&self, p: Point) -> (r: bool)
        ensures
            r == is_alive_head(self@.snakes, p),
    {
        let ghost ss = self@.snakes;
        let n = self.snakes.len();
        let mut j: usize = 0;
        while j < n
            invariant
                ss == self@.snakes,
                n == ss.len(),
                0 <= j <= n,
                forall|t: int|
                    0 <= t < j ==> ((#[trigger] ss[t]).is_dead() || ss[t].head != p),
            decreases n - j,
        {
            proof {
                assert(ss[j as int] == self.snakes@[j as int]@);
            }
            if !self.snakes[j].is_dead() && self.snakes[j].head.x == p.x && self.snakes[j].head.y
                == p.y {
                proof {
                    assert(ss[j as int].head == p);
                }
                return true;
            }
            j = j + 1;
        }
        proof {
            if is_alive_head(ss, p) {
                let t = choose|t: int| 0 <= t < ss.len() && !ss[t].is_dead() && ss[t].head == p;
                assert(false);
            }
        }
        false
    }

    /// Every cell that no alive body holds and no food sits on:
    /// exactly the free cells, complete and in row-major order.
    #[verifier::loop_isolation(false)]
    fn unoccupied_points(&self) -> (r: Vec<Point>)
        requires
            1 <= self@.width <= MAX_DIM,
            1 <= self@.height <= MAX_DIM,
        ensures
            r@ == free_cells_spec(self@.snakes, self@.food, self@.width, self@.height),
            forall|k: int|
                0 <= k < r@.len() ==> in_bounds(self@.width, self@.height, #[trigger] r@[k])
                    && owner_of(self@.snakes, r@[k]) is None && !self@.food.contains(r@[k]),
            forall|a: int, c: int| 0 <= a < c < r@.len() ==> r@[a] != r@[c],
    {
        let ghost ss = self@.snakes;
        let ghost food = self@.food;
        let ghost pred = |p: Point| cell_free(ss, food, p);
        let w = self.width;
        let h = self.height;
        let mut out: Vec<Point> = Vec::new();
        let mut y: i32 = 0;
        while y < h
            invariant
                0 <= y <= h,
                out@ =~= grid_upto(w as int, y as int).filter(pred),
                forall|k: int|
                    0 <= k < out@.len() ==> in_bounds(self@.width, self@.height, #[trigger] out@[k])
                        && owner_of(self@.snakes, out@[k]) is None && !self@.food.contains(
                        out@[k],
                    ),
                forall|k: int| 0 <= k < out@.len() ==> (#[trigger] out@[k]).y < y,
                forall|a: int, c: int| 0 <= a < c < out@.len() ==> out@[a] != out@[c],
            decreases h - y,
        {
            let ghost row = row_points(w as int, y as int);
            let mut x: i32 = 0;
            while x < w
                invariant
                    0 <= y < h,
                    0 <= x <= w,
                    row == row_points(w as int, y as int),
                    out@ =~= grid_upto(w as int, y as int).filter(pred) + row.take(
                        x as int,
                    ).filter(pred),
                    forall|k: int|
                        0 <= k < out@.len() ==> in_bounds(
                            self@.width,
                            self@.height,
                            #[trigger] out@[k],
                        ) && owner_of(self@.snakes, out@[k]) is None && !self@.food.contains(
                            out@[k],
                        ),
                    forall|k: int|
                        0 <= k < out@.len() ==> (#[trigger] out@[k]).y < y || (out@[k].y == y
                            && out@[k].x < x),
                    forall|a: int, c: int| 0 <= a < c < out@.len() ==> out@[a] != out@[c],
                decreases w - x,
            {
                let p = Point { x, y };
                let free = !self.covered_by_alive(p) && !contains_point(&self.food, p);
                proof {
                    reveal(Seq::filter);
                    assert(row.take(x as int + 1).drop_last() =~= row.take(x as int));
                    assert(row.take(x as int + 1).last() == pt(x as int, y as int));
                    assert(pt(x as int, y as int) == p);
                    assert(free == pred(p));
                    assert(row.take(x as int + 1).filter(pred) =~= (if pred(p) {
                        row.take(x as int).filter(pred).push(p)
                    } else {
                        row.take(x as int).filter(pred)
                    }));
                }
                if free {
                    proof {
                        assert forall|k: int| 0 <= k < out@.len() implies #[trigger] out@[k] != p
                            by {}
                    }
                    out.push(p);
                }
                x = x + 1;
            }
            proof {
                assert(row.take(w as int) =~= row);
                assert(grid_upto(w as int, y as int + 1) == grid_upto(w as int, y as int) + row);
                vstd::seq::Seq::filter_distributes_over_add(
                    grid_upto(w as int, y as int),
                    row,
                    pred,
                );
                assert forall|k: int| 0 <= k < out@.len() implies (#[trigger] out@[k]).y < y + 1
                    by {}
            }
            y = y + 1;
        }
        proof {
            assert(out@ =~= free_cells_spec(ss, food, w as int, h as int));
        }
        out
    }

    /// Puts `n` food items on cells chosen at random among the
    /// unoccupied ones (fewer if not enough cells are free).
    fn spawn_food_rnd(&mut self, n: usize)
        requires
            1 <= old(self)@.width <= MAX_DIM,
            1 <= old(self)@.height <= MAX_DIM,
            forall|a: int, c: int|
                0 <= a < c < old(self)@.food.len() ==> old(self)@.food[a] != old(self)@.food[c],
        ensures
            final(self).height == old(self).height,
            final(self).width == old(self).width,
            final(self).snakes == old(self).snakes,
            final(self).matrice == old(self).matrice,
            final(self).collisions == old(self).collisions,
            final(self).food_min_amount == old(self).food_min_amount,
            final(self).food_spawn_permille == old(self).food_spawn_permille,
            old(self)@.food.is_prefix_of(final(self)@.food),
            forall|k: int|
                old(self)@.food.len() <= k < final(self)@.food.len() ==> in_bounds(
                    old(self)@.width,
                    old(self)@.height,
                    #[trigger] final(self)@.food[k],
                ) && owner_of(old(self)@.snakes, final(self)@.food[k]) is None && !old(self)@.food.contains(final(self)@.food[k]),
            forall|a: int, c: int|
                0 <= a < c < final(self)@.food.len() ==> final(self)@.food[a] != final(self)@.food[c],
            final(self)@.food.len() == old(self)@.food.len() + vstd::math::min(
                n as int,
                free_cells_spec(
                    old(self)@.snakes,
                    old(self)@.food,
                    old(self)@.width,
                    old(self)@.height,
                ).len() as int,
            ),
    {
        let ghost food0 = self@.food;
        let candidates = self.unoccupied_points();
        let mut rng = crate::rng::new_rng();
        let chosen = crate::rng::choose_multiple_points(&mut rng, &candidates, n);
        let m = chosen.len();
        let mut t: usize = 0;
        while t < m
            invariant
                m == chosen@.len(),
                0 <= t <= m,
                self.height == old(self).height,
                self.width == old(self).width,
                self.snakes == old(self).snakes,
                self.matrice == old(self).matrice,
                self.collisions == old(self).collisions,
                self.food_min_amount == old(self).food_min_amount,
                self.food_spawn_permille == old(self).food_spawn_permille,
                food0 == old(self)@.food,
                food0.is_prefix_of(self@.food),
                self@.food.len() == food0.len() + t,
                forall|k: int|
                    food0.len() <= k < self@.food.len() ==> #[trigger] self@.food[k] == chosen@[k
                        - food0.len()],
                forall|k: int|
                    0 <= k < chosen@.len() ==> in_bounds(
                        old(self)@.width,
                        old(self)@.height,
                        #[trigger] chosen@[k],
                    ) && owner_of(old(self)@.snakes, chosen@[k]) is None && !food0.contains(
                        chosen@[k],
                    ),
                forall|a: int, c: int| 0 <= a < c < chosen@.len() ==> chosen@[a] != chosen@[c],
                forall|a: int, c: int|
                    0 <= a < c < self@.food.len() ==> self@.food[a] != self@.food[c],
            decreases m - t,
        {
            let p = chosen[t];
            proof {
                assert(chosen@[t as int] == p);
                assert forall|a: int| 0 <= a < self@.food.len() implies #[trigger] self@.food[a]
                    != p by {
                    if a < food0.len() {
                        assert(self@.food[a] == food0[a]);
                        assert(food0.contains(food0[a]));
                    } else {
                        assert(self@.food[a] == chosen@[a - food0.len()]);
                    }
                }
            }
            self.food.push(p);
            t = t + 1;
        }
        proof {
            assert forall|k: int|
                food0.len() <= k < self@.food.len() implies in_bounds(
                old(self)@.width,
                old(self)@.height,
                #[trigger] self@.food[k],
            ) && owner_of(old(self)@.snakes, self@.food[k]) is None && !food0.contains(
                self@.food[k],
            ) by {
                assert(self@.food[k] == chosen@[k - food0.len()]);
            }
        }
    }

    /// Spawns food for a real turn: tops the count up to the minimum, or
    /// otherwise adds one item with the configured chance.
    fn spawn_food(&mut self)
        requires
            1 <= old(self)@.width <= MAX_DIM,
            1 <= old(self)@.height <= MAX_DIM,
            forall|a: int, c: int|
                0 <= a < c < old(self)@.food.len() ==> old(self)@.food[a] != old(self)@.food[c],
        ensures
            final(self).height == old(self).height,
            final(self).width == old(self).width,
            final(self).snakes == old(self).snakes,
            final(self).matrice == old(self).matrice,
            final(self).collisions == old(self).collisions,
            final(self).food_min_amount == old(self).food_min_amount,
            final(self).food_spawn_permille == old(self).food_spawn_permille,
            old(self)@.food.is_prefix_of(final(self)@.food),
            forall|k: int|
                old(self)@.food.len() <= k < final(self)@.food.len() ==> in_bounds(
                    old(self)@.width,
                    old(self)@.height,
                    #[trigger] final(self)@.food[k],
                ) && owner_of(old(self)@.snakes, final(self)@.food[k]) is None && !old(self)@.food.contains(final(self)@.food[k]),
            forall|a: int, c: int|
                0 <= a < c < final(self)@.food.len() ==> final(self)@.food[a] != final(self)@.food[c],
            ({
                let free = free_cells_spec(
                    old(self)@.snakes,
                    old(self)@.food,
                    old(self)@.width,
                    old(self)@.height,
                ).len() as int;
                &&& old(self)@.food.len() < old(self).food_min_amount ==> final(self)@.food.len()
                    == old(self)@.food.len() + vstd::math::min(
                    old(self).food_min_amount - old(self)@.food.len(),
                    free,
                )
                &&& old(self)@.food.len() >= old(self).food_min_amount ==> (final(self)@.food.len()
                    == old(self)@.food.len() || final(self)@.food.len() == old(self)@.food.len()
                    + vstd::math::min(1, free))
            }),
    {
        let nb_curr_food = self.food.len();
        if nb_curr_food < self.food_min_amount {
            let missing = self.food_min_amount - nb_curr_food;
            self.spawn_food_rnd(missing);
        } else {
            let mut rng = crate::rng::new_rng();
            let roll = crate::rng::rng_below(&mut rng, 1000);
            if roll < self.food_spawn_permille {
                self.spawn_food_rnd(1);
            } else {
                proof {
                    assert(self@.food.is_prefix_of(self@.food));
                }
            }
        }
    }
}

impl Board {
    /// One atomic turn: every alive snake plays its move, collisions are
    /// classified and their victims killed, food is eaten, starved
    /// snakes die, food may spawn on a real turn, and the occupancy
    /// matrix is re-derived from the surviving bodies.
    ///
    /// In simulation mode (`is_simulation == true`) no food spawns and
    /// the whole result is the deterministic function of the inputs
    /// given by `step_snakes_spec`, `step_collisions_spec` and
    /// `step_food_spec`; on a real turn only the food may additionally
    /// grow, by unoccupied in-bounds cells.
    #[verifier::loop_isolation(false)]
    pub fn step(&mut self, movs: Vec<Movement>, is_simulation: bool)
        requires
            old(self).wf(),
            movs@.len() == old(self)@.snakes.len(),
            forall|i: int|
                0 <= i < old(self)@.snakes.len() && !old(self)@.snakes[i].is_dead() ==> (
                #[trigger] old(self)@.snakes[i]).length < usize::MAX,
        ensures
            final(self).wf(),
            final(self)@.width == old(self)@.width,
            final(self)@.height == old(self)@.height,
            final(self).food_min_amount == old(self).food_min_amount,
            final(self).food_spawn_permille == old(self).food_spawn_permille,
            final(self)@.snakes == step_snakes_spec(
                old(self)@.snakes,
                movs@,
                old(self)@.width,
                old(self)@.height,
                old(self)@.food,
            ),
            final(self)@.collisions == step_collisions_spec(
                old(self)@.snakes,
                movs@,
                old(self)@.width,
                old(self)@.height,
            ),
            is_simulation ==> final(self)@.food == step_food_spec(
                old(self)@.snakes,
                movs@,
                old(self)@.width,
                old(self)@.height,
                old(self)@.food,
            ),
            !is_simulation ==> ({
                let base = step_food_spec(
                    old(self)@.snakes,
                    movs@,
                    old(self)@.width,
                    old(self)@.height,
                    old(self)@.food,
                );
                let free = free_cells_spec(
                    step_snakes_spec(
                        old(self)@.snakes,
                        movs@,
                        old(self)@.width,
                        old(self)@.height,
                        old(self)@.food,
                    ),
                    base,
                    old(self)@.width,
                    old(self)@.height,
                ).len() as int;
                &&& base.is_prefix_of(final(self)@.food)
                &&& forall|k: int|
                    base.len() <= k < final(self)@.food.len() ==> in_bounds(
                        old(self)@.width,
                        old(self)@.height,
                        #[trigger] final(self)@.food[k],
                    ) && owner_of(final(self)@.snakes, final(self)@.food[k]) is None
                        && !base.contains(final(self)@.food[k])
                &&& base.len() < old(self).food_min_amount ==> final(self)@.food.len()
                    == base.len() + vstd::math::min(
                    old(self).food_min_amount - base.len(),
                    free,
                )
                &&& base.len() >= old(self).food_min_amount ==> (final(self)@.food.len()
                    == base.len() || final(self)@.food.len() == base.len() + vstd::math::min(
                    1,
                    free,
                ))
            }),
    {
        proof {
            reveal(board_wf);
            reveal(snakes_moved);
            reveal(collision_of);
            reveal(collisions_upto);
            reveal(collisions_spec);
            reveal(dies_by_collision);
            reveal(snakes_after_collisions);
            reveal(snakes_after_feed);
            reveal(food_after_feed);
            reveal(snakes_after_starve);
            reveal(step_snakes_spec);
            reveal(step_collisions_spec);
            reveal(step_food_spec);
        }
        let ghost ss0 = self@.snakes;
        let ghost w = self@.width;
        let ghost h = self@.height;
        let ghost food0 = self@.food;
        let n = self.snakes.len();

        // Move all alive snakes.
        let mut i: usize = 0;
        while i < n
            invariant
                n == ss0.len(),
                self@.snakes.len() == n,
                0 <= i <= n,
                movs@.len() == n,
                self.height == old(self).height,
                self.width == old(self).width,
                self.matrice == old(self).matrice,
                self@.food == food0,
                self@.collisions == old(self)@.collisions,
                self.food_min_amount == old(self).food_min_amount,
                self.food_spawn_permille == old(self).food_spawn_permille,
                ss0 == old(self)@.snakes,
                w == old(self)@.width,
                h == old(self)@.height,
                food0 == old(self)@.food,
                old(self).wf(),
                forall|k: int|
                    0 <= k < i ==> self@.snakes[k] == (if ss0[k].is_dead() {
                        ss0[k]
                    } else {
                        (#[trigger] ss0[k]).after_move(movs@[k])
                    }),
                forall|k: int| i <= k < n ==> self@.snakes[k] == ss0[k],
            decreases n - i,
        {
            proof {
                assert(self@.snakes[i as int] == ss0[i as int]);
                assert(self.snakes@[i as int]@ == ss0[i as int]);
                assert(ss0[i as int].wf());
            }
            if !self.snakes[i].is_dead() {
                proof {
                    assert(!ss0[i as int].is_dead());
                    assert(ss0[i as int].health >= 1);
                    let b = ss0[i as int].body;
                    assert(in_bounds(w, h, b[b.len() - 1]));
                    assert(ss0[i as int].head == b[b.len() - 1]);
                }
                let m = movs[i];
                self.snakes[i].apply_move(m);
            }
            i = i + 1;
        }
        proof {
            assert(self@.snakes =~= snakes_moved(ss0, movs@));
        }
        let ghost ms = snakes_moved(ss0, movs@);

        // Classify collisions.
        let mut new_collisions: Vec<Collision> = Vec::new();
        let mut i: usize = 0;
        while i < n
            invariant
                n == ss0.len(),
                self@.snakes == ms,
                ms == snakes_moved(ss0, movs@),
                self@.snakes.len() == n,
                0 <= i <= n,
                self.height == old(self).height,
                self.width == old(self).width,
                self.food_min_amount == old(self).food_min_amount,
                self.food_spawn_permille == old(self).food_spawn_permille,
                self@.food == food0,
                w == old(self)@.width,
                h == old(self)@.height,
                w == self@.width,
                h == self@.height,
                new_collisions@ =~= collisions_upto(ms, w, h, i as int),
            decreases n - i,
        {
            if !self.snakes[i].is_dead() {
                proof {
                    assert(self@.snakes[i as int] == ms[i as int]);
                }
                let c = self.check_collision(i);
                match c {
                    Some(cc) => {
                        new_collisions.push(cc);
                    },
                    None => {},
                }
            }
            proof {
                assert(self@.snakes[i as int] == ms[i as int]);
                assert(collisions_upto(ms, w, h, i as int + 1) == collisions_upto(
                    ms,
                    w,
                    h,
                    i as int,
                ) + (if !ms[i as int].is_dead() {
                    match collision_of(ms, w, h, i as int) {
                        Some(c) => seq![c],
                        None => Seq::empty(),
                    }
                } else {
                    Seq::empty()
                }));
                assert(new_collisions@ =~= collisions_upto(ms, w, h, i as int + 1));
            }
            i = i + 1;
        }
        proof {
            assert(new_collisions@ == collisions_spec(ms, w, h));
        }
        self.collisions = new_collisions;

        // Kill the snakes whose verdict is deadly.
        let ghost cs = self@.collisions;
        proof {
            lemma_collisions_shape(ms, w, h, n as int);
        }
        let ncoll = self.collisions.len();
        let mut t: usize = 0;
        while t < ncoll
            invariant
                n == ss0.len(),
                self@.snakes.len() == n,
                ncoll == cs.len(),
                0 <= t <= ncoll,
                cs == self@.collisions,
                ms == snakes_moved(ss0, movs@),
                self.height == old(self).height,
                self.width == old(self).width,
                self.food_min_amount == old(self).food_min_amount,
                self.food_spawn_permille == old(self).food_spawn_permille,
                w == self@.width,
                h == self@.height,
                self@.food == food0,
                collisions_shape_ok(ms, w, h, cs),
                self@.snakes =~= Seq::new(
                    n as nat,
                    |q: int|
                        if exists|k: int|
                            0 <= k < t && (#[trigger] cs[k]).subject() == q
                                && cs[k].causes_death_spec() {
                            ms[q].after_kill()
                        } else {
                            ms[q]
                        },
                ),
            decreases ncoll - t,
        {
            let c = self.collisions[t].clone();
            let ghost pre = self@.snakes;
            if c.causes_death() {
                let id = match c {
                    Collision::Wall { id } => id,
                    Collision::SelfBody { id } => id,
                    Collision::OtherBody { id_1, .. } => id_1,
                    Collision::HeadToHead { id_1, .. } => id_1,
                };
                proof {
                    assert(cs[t as int].subject() == id as int);
                    assert(0 <= id < n);
                    assert(!ms[id as int].is_dead());
                    assert(!(exists|k: int|
                        0 <= k < t && (#[trigger] cs[k]).subject() == id as int
                            && cs[k].causes_death_spec())) by {
                        if exists|k: int|
                            0 <= k < t && (#[trigger] cs[k]).subject() == id as int
                                && cs[k].causes_death_spec() {
                            let k = choose|k: int|
                                0 <= k < t && (#[trigger] cs[k]).subject() == id as int
                                    && cs[k].causes_death_spec();
                            assert(cs[k].subject() < cs[t as int].subject());
                        }
                    }
                    assert(pre[id as int] == ms[id as int]);
                }
                self.snakes[id].kill();
                proof {
                    assert forall|q: int| 0 <= q < n implies self@.snakes[q] == (
                    if exists|k: int|
                        0 <= k < t + 1 && (#[trigger] cs[k]).subject() == q
                            && cs[k].causes_death_spec() {
                        ms[q].after_kill()
                    } else {
                        ms[q]
                    }) by {
                        if q == id as int {
                            assert(cs[t as int].subject() == q && cs[t as int].causes_death_spec());
                        } else {
                            assert(self@.snakes[q] == pre[q]);
                            if exists|k: int|
                                0 <= k < t + 1 && (#[trigger] cs[k]).subject() == q
                                    && cs[k].causes_death_spec() {
                                let k = choose|k: int|
                                    0 <= k < t + 1 && (#[trigger] cs[k]).subject() == q
                                        && cs[k].causes_death_spec();
                                assert(k < t);
                            }
                        }
                    }
                    assert(self@.snakes =~= Seq::new(
                        n as nat,
                        |q: int|
                            if exists|k: int|
                                0 <= k < t + 1 && (#[trigger] cs[k]).subject() == q
                                    && cs[k].causes_death_spec() {
                                ms[q].after_kill()
                            } else {
                                ms[q]
                            },
                    ));
                }
            } else {
                proof {
                    assert forall|q: int| 0 <= q < n implies self@.snakes[q] == (
                    if exists|k: int|
                        0 <= k < t + 1 && (#[trigger] cs[k]).subject() == q
                            && cs[k].causes_death_spec() {
                        ms[q].after_kill()
                    } else {
                        ms[q]
                    }) by {
                        if exists|k: int|
                            0 <= k < t + 1 && (#[trigger] cs[k]).subject() == q
                                && cs[k].causes_death_spec() {
                            let k = choose|k: int|
                                0 <= k < t + 1 && (#[trigger] cs[k]).subject() == q
                                    && cs[k].causes_death_spec();
                            assert(k < t);
                        }
                    }
                    assert(self@.snakes =~= Seq::new(
                        n as nat,
                        |q: int|
                            if exists|k: int|
                                0 <= k < t + 1 && (#[trigger] cs[k]).subject() == q
                                    && cs[k].causes_death_spec() {
                                ms[q].after_kill()
                            } else {
                                ms[q]
                            },
                    ));
                }
            }
            t = t + 1;
        }
        proof {
            assert forall|q: int| 0 <= q < n implies self@.snakes[q] == (
            if dies_by_collision(ms, w, h, q) {
                ms[q].after_kill()
            } else {
                ms[q]
            }) by {
                if dies_by_collision(ms, w, h, q) {
                    assert(exists|k: int|
                        0 <= k < cs.len() && (#[trigger] cs[k]).subject() == q
                            && cs[k].causes_death_spec());
                } else {
                    if exists|k: int|
                        0 <= k < cs.len() && (#[trigger] cs[k]).subject() == q
                            && cs[k].causes_death_spec() {
                        let k = choose|k: int|
                            0 <= k < cs.len() && (#[trigger] cs[k]).subject() == q
                                && cs[k].causes_death_spec();
                        assert(dies_by_collision(ms, w, h, q));
                    }
                }
            }
            assert(self@.snakes =~= snakes_after_collisions(ms, w, h));
        }
        let ghost ks = snakes_after_collisions(ms, w, h);

        // Feed the snakes whose head reached food.
        proof {
            lemma_step_snakes_sound(ss0, movs@, w, h, food0);
            assert forall|q: int| 0 <= q < n && !(#[trigger] ks[q]).is_dead() implies ks[q].wf()
                && ks[q].length < usize::MAX by {
                assert(ks[q] == ms[q]);
                assert(!ms[q].is_dead());
                assert(!ss0[q].is_dead());
                if !ss0[q].is_dead() {
                    lemma_moved_wf(ss0[q], movs@[q]);
                }
            }
        }
        let mut i: usize = 0;
        while i < n
            invariant
                n == ss0.len(),
                self@.snakes.len() == n,
                0 <= i <= n,
                ks == snakes_after_collisions(ms, w, h),
                ms == snakes_moved(ss0, movs@),
                self.height == old(self).height,
                self.width == old(self).width,
                self.food_min_amount == old(self).food_min_amount,
                self.food_spawn_permille == old(self).food_spawn_permille,
                w == self@.width,
                h == self@.height,
                self@.food == food0,
                self@.collisions == cs,
                forall|q: int|
                    0 <= q < n && !(#[trigger] ks[q]).is_dead() ==> ks[q].wf() && ks[q].length
                        < usize::MAX,
                forall|k: int|
                    0 <= k < i ==> self@.snakes[k] == (if head_on_food(ks, food0, k) {
                        (#[trigger] ks[k]).after_feed()
                    } else {
                        ks[k]
                    }),
                forall|k: int| i <= k < n ==> self@.snakes[k] == ks[k],
            decreases n - i,
        {
            proof {
                assert(self@.snakes[i as int] == ks[i as int]);
                assert(self.snakes@[i as int]@ == ks[i as int]);
            }
            if !self.snakes[i].is_dead() {
                let head = self.snakes[i].head;
                if contains_point(&self.food, head) {
                    proof {
                        assert(head_on_food(ks, food0, i as int));
                    }
                    self.snakes[i].feed();
                } else {
                    proof {
                        assert(!head_on_food(ks, food0, i as int));
                    }
                }
            } else {
                proof {
                    assert(!head_on_food(ks, food0, i as int));
                }
            }
            i = i + 1;
        }
        proof {
            assert(self@.snakes =~= snakes_after_feed(ks, food0));
        }
        let ghost fs = snakes_after_feed(ks, food0);

        // Drain the food that was eaten.
        proof {
            assert forall|p: Point| is_alive_head(fs, p) == is_alive_head(ks, p) by {
                if is_alive_head(fs, p) {
                    let q = choose|q: int|
                        0 <= q < fs.len() && !fs[q].is_dead() && fs[q].head == p;
                    assert(!ks[q].is_dead() && ks[q].head == p);
                }
                if is_alive_head(ks, p) {
                    let q = choose|q: int|
                        0 <= q < ks.len() && !ks[q].is_dead() && ks[q].head == p;
                    assert(!fs[q].is_dead() && fs[q].head == p);
                }
            }
        }
        let nf = self.food.len();
        let mut new_food: Vec<Point> = Vec::new();
        let mut t: usize = 0;
        while t < nf
            invariant
                nf == food0.len(),
                0 <= t <= nf,
                self@.food == food0,
                self@.snakes == fs,
                fs == snakes_after_feed(ks, food0),
                ks == snakes_after_collisions(ms, w, h),
                self.height == old(self).height,
                self.width == old(self).width,
                self.food_min_amount == old(self).food_min_amount,
                self.food_spawn_permille == old(self).food_spawn_permille,
                self@.collisions == cs,
                forall|p: Point| is_alive_head(fs, p) == is_alive_head(ks, p),
                new_food@ =~= food0.take(t as int).filter(|p: Point| !is_alive_head(ks, p)),
            decreases nf - t,
        {
            proof {
                assert(food0.take(t as int + 1).drop_last() =~= food0.take(t as int));
                assert(food0.take(t as int + 1).last() == food0[t as int]);
                reveal(Seq::filter);
            }
            let p = self.food[t];
            if !self.alive_head_at(p) {
                new_food.push(p);
            }
            t = t + 1;
        }
        proof {
            assert(food0.take(nf as int) =~= food0);
            assert(new_food@ == food_after_feed(ks, food0));
        }
        self.food = new_food;

        // Kill the snakes that starved.
        let ghost fs2 = self@.snakes;
        let mut i: usize = 0;
        while i < n
            invariant
                n == ss0.len(),
                self@.snakes.len() == n,
                0 <= i <= n,
                fs2 == fs,
                fs == snakes_after_feed(ks, food0),
                ks == snakes_after_collisions(ms, w, h),
                ms == snakes_moved(ss0, movs@),
                self.height == old(self).height,
                self.width == old(self).width,
                self.food_min_amount == old(self).food_min_amount,
                self.food_spawn_permille == old(self).food_spawn_permille,
                w == self@.width,
                h == self@.height,
                self@.food == food_after_feed(ks, food0),
                self@.collisions == cs,
                forall|k: int|
                    0 <= k < i ==> self@.snakes[k] == (if !(#[trigger] fs[k]).is_dead()
                        && fs[k].health == 0 {
                        fs[k].after_kill()
                    } else {
                        fs[k]
                    }),
                forall|k: int| i <= k < n ==> self@.snakes[k] == fs[k],
            decreases n - i,
        {
            proof {
                assert(self@.snakes[i as int] == fs[i as int]);
                assert(self.snakes@[i as int]@ == fs[i as int]);
            }
            if !self.snakes[i].is_dead() && self.snakes[i].health() == 0 {
                self.snakes[i].kill();
            }
            i = i + 1;
        }
        proof {
            assert(self@.snakes =~= snakes_after_starve(fs));
            assert(self@.snakes == step_snakes_spec(ss0, movs@, w, h, food0));
        }

        // Spawn food on a real turn.
        proof {
            assert(forall|a: int, c: int|
                0 <= a < c < self@.food.len() ==> self@.food[a] != self@.food[c]) by {
                lemma_filter_distinct(food0, |p: Point| !is_alive_head(ks, p));
            }
        }
        if !is_simulation {
            self.spawn_food();
        }

        // Re-derive the occupancy matrix from the surviving bodies.
        proof {
            let fin = step_snakes_spec(ss0, movs@, w, h, food0);
            assert(self@.snakes == fin);
            assert(self.snakes@.map_values(|s: Snake| s@) == fin);
            assert forall|q: int| 0 <= q < n implies (#[trigger] self.snakes@[q]@).wf() by {
                assert(self.snakes@[q]@ == fin[q]);
            }
            assert forall|q: int, k: int|
                0 <= q < n && !self.snakes@[q]@.is_dead() && 0 <= k
                    < self.snakes@[q]@.body.len() implies in_bounds(
                self.width as int,
                self.height as int,
                #[trigger] self.snakes@[q]@.body[k],
            ) by {
                assert(self.snakes@[q]@ == fin[q]);
                assert(in_bounds(w, h, fin[q].body[k]));
            }
        }
        let matrice = Matrice::new(&self.snakes, self.height as usize, self.width as usize);
        self.matrice = matrice;
        proof {
            assert(board_wf(self@));
        }
    }
}

/// The shape of a collision vector produced by `collisions_upto`: each
/// record belongs to an alive snake, is that snake's own verdict, and
/// the subjects strictly increase.
pub open spec fn collisions_shape_ok(ms: Seq<SnakeV>, w: int, h: int, cs: Seq<Collision>) -> bool {
    &&& forall|k: int|
        0 <= k < cs.len() ==> 0 <= (#[trigger] cs[k]).subject() < ms.len()
            && !ms[cs[k].subject()].is_dead() && collision_of(ms, w, h, cs[k].subject()) == Some(
            cs[k],
        )
    &&& forall|k: int, l: int| 0 <= k < l < cs.len() ==> cs[k].subject() < cs[l].subject()
    &&& forall|q: int|
        0 <= q < ms.len() ==> (dies_by_collision(ms, w, h, q) <==> exists|k: int|
            0 <= k < cs.len() && (#[trigger] cs[k]).subject() == q && cs[k].causes_death_spec())
}

/// `collisions_upto` produces a vector of the shape above.
pub proof fn lemma_collisions_shape(ms: Seq<SnakeV>, w: int, h: int, n: int)
    requires
        0 <= n <= ms.len(),
        ms.len() <= usize::MAX,
    ensures
        forall|k: int|
            0 <= k < collisions_upto(ms, w, h, n).len() ==> 0 <= (#[trigger] collisions_upto(
                ms,
                w,
                h,
                n,
            )[k]).subject() < n && !ms[collisions_upto(ms, w, h, n)[k].subject()].is_dead()
                && collision_of(ms, w, h, collisions_upto(ms, w, h, n)[k].subject()) == Some(
                collisions_upto(ms, w, h, n)[k],
            ),
        forall|k: int, l: int|
            0 <= k < l < collisions_upto(ms, w, h, n).len() ==> collisions_upto(
                ms,
                w,
                h,
                n,
            )[k].subject() < collisions_upto(ms, w, h, n)[l].subject(),
        forall|q: int|
            0 <= q < n ==> (dies_by_collision(ms, w, h, q) <==> exists|k: int|
                0 <= k < collisions_upto(ms, w, h, n).len() && (#[trigger] collisions_upto(
                    ms,
                    w,
                    h,
                    n,
                )[k]).subject() == q && collisions_upto(ms, w, h, n)[k].causes_death_spec()),
        n == ms.len() ==> collisions_shape_ok(ms, w, h, collisions_upto(ms, w, h, n)),
    decreases n,
{
    reveal(collision_of);
    reveal(collisions_upto);
    reveal(collisions_spec);
    reveal(dies_by_collision);
    if n > 0 {
        lemma_collisions_shape(ms, w, h, n - 1);
        let prev = collisions_upto(ms, w, h, n - 1);
        let cur = collisions_upto(ms, w, h, n);
        if !ms[n - 1].is_dead() {
            match collision_of(ms, w, h, n - 1) {
                Some(c) => {
                    assert(c.subject() == n - 1) by {
                        let s = ms[n - 1];
                        if !in_bounds(w, h, s.head) {
                        } else if in_body_without_head(s, s.head) {
                        } else if first_other_body(ms, s.head, 0) is Some {
                        } else {
                        }
                    }
                    assert(cur =~= prev.push(c));
                    assert forall|q: int| 0 <= q < n implies (dies_by_collision(ms, w, h, q)
                        <==> exists|k: int|
                        0 <= k < cur.len() && (#[trigger] cur[k]).subject() == q
                            && cur[k].causes_death_spec()) by {
                        if q < n - 1 {
                            if dies_by_collision(ms, w, h, q) {
                                let k = choose|k: int|
                                    0 <= k < prev.len() && (#[trigger] prev[k]).subject() == q
                                        && prev[k].causes_death_spec();
                                assert(cur[k].subject() == q && cur[k].causes_death_spec());
                            } else {
                                if exists|k: int|
                                    0 <= k < cur.len() && (#[trigger] cur[k]).subject() == q
                                        && cur[k].causes_death_spec() {
                                    let k = choose|k: int|
                                        0 <= k < cur.len() && (#[trigger] cur[k]).subject() == q
                                            && cur[k].causes_death_spec();
                                    assert(k < prev.len());
                                    assert(prev[k].subject() == q
                                        && prev[k].causes_death_spec());
                                }
                            }
                        } else {
                            if dies_by_collision(ms, w, h, q) {
                                assert(cur[cur.len() - 1].subject() == q
                                    && cur[cur.len() - 1].causes_death_spec());
                            } else {
                                if exists|k: int|
                                    0 <= k < cur.len() && (#[trigger] cur[k]).subject() == q
                                        && cur[k].causes_death_spec() {
                                    let k = choose|k: int|
                                        0 <= k < cur.len() && (#[trigger] cur[k]).subject() == q
                                            && cur[k].causes_death_spec();
                                    if k < prev.len() {
                                        assert(prev[k].subject() < n - 1);
                                    } else {
                                        assert(cur[k] == c);
                                    }
                                }
                            }
                        }
                    }
                },
                None => {
                    assert(cur =~= prev);
                    assert forall|q: int| 0 <= q < n implies (dies_by_collision(ms, w, h, q)
                        <==> exists|k: int|
                        0 <= k < cur.len() && (#[trigger] cur[k]).subject() == q
                            && cur[k].causes_death_spec()) by {
                        if q == n - 1 {
                            assert(!dies_by_collision(ms, w, h, q));
                            if exists|k: int|
                                0 <= k < cur.len() && (#[trigger] cur[k]).subject() == q
                                    && cur[k].causes_death_spec() {
                                let k = choose|k: int|
                                    0 <= k < cur.len() && (#[trigger] cur[k]).subject() == q
                                        && cur[k].causes_death_spec();
                                assert(cur[k].subject() < n - 1);
                            }
                        }
                    }
                },
            }
        } else {
            assert(cur =~= prev);
            assert forall|q: int| 0 <= q < n implies (dies_by_collision(ms, w, h, q)
                <==> exists|k: int|
                0 <= k < cur.len() && (#[trigger] cur[k]).subject() == q
                    && cur[k].causes_death_spec()) by {
                if q == n - 1 {
                    assert(!dies_by_collision(ms, w, h, q));
                    if exists|k: int|
                        0 <= k < cur.len() && (#[trigger] cur[k]).subject() == q
                            && cur[k].causes_death_spec() {
                        let k = choose|k: int|
                            0 <= k < cur.len() && (#[trigger] cur[k]).subject() == q
                                && cur[k].causes_death_spec();
                        assert(cur[k].subject() < n - 1);
                    }
                }
            }
        }
    }
}

/// Every element of a filtered sequence is an element of the original.
pub proof fn lemma_filter_members(s: Seq<Point>, pred: spec_fn(Point) -> bool, i: int)
    requires
        0 <= i < s.filter(pred).len(),
    ensures
        s.contains(s.filter(pred)[i]),
    decreases s.len(),
{
    reveal(Seq::filter);
    if s.len() > 0 {
        let fp = s.drop_last().filter(pred);
        if pred(s.last()) && i == s.filter(pred).len() - 1 {
            assert(s.filter(pred)[i] == s.last());
            assert(s[s.len() - 1] == s.last());
        } else {
            lemma_filter_members(s.drop_last(), pred, i);
            let t = choose|t: int| 0 <= t < s.drop_last().len() && s.drop_last()[t] == fp[i];
            assert(s[t] == fp[i]);
        }
    }
}

/// Filtering keeps the elements of a duplicate-free sequence distinct.
pub proof fn lemma_filter_distinct(s: Seq<Point>, pred: spec_fn(Point) -> bool)
    requires
        forall|a: int, c: int| 0 <= a < c < s.len() ==> s[a] != s[c],
    ensures
        forall|a: int, c: int|
            0 <= a < c < s.filter(pred).len() ==> s.filter(pred)[a] != s.filter(pred)[c],
    decreases s.len(),
{
    reveal(Seq::filter);
    if s.len() > 0 {
        lemma_filter_distinct(s.drop_last(), pred);
        let f = s.filter(pred);
        let fp = s.drop_last().filter(pred);
        assert forall|a: int, c: int| 0 <= a < c < f.len() implies f[a] != f[c] by {
            if pred(s.last()) {
                assert(f == fp.push(s.last()));
                if c < f.len() - 1 {
                    assert(f[a] == fp[a] && f[c] == fp[c]);
                } else {
                    assert(f[c] == s.last());
                    assert(f[a] == fp[a]);
                    assert(s.drop_last().contains(fp[a])) by {
                        lemma_filter_members(s.drop_last(), pred, a);
                    }
                    let t = choose|t: int|
                        0 <= t < s.drop_last().len() && s.drop_last()[t] == fp[a];
                    assert(s[t] == fp[a]);
                    assert(s[t] != s.last());
                }
            } else {
                assert(f == fp);
            }
        }
    }
}

impl Board {
    /// Applies one turn's displacements to the occupancy index by hand:
    /// displacements of snakes that have died are dropped, and the rest
    /// are handed to the matrix together with the collision overrides.
    pub fn update_matrice(&mut self, displacements: Vec<Displacement>)
        requires
            old(self).matrice.wf(),
            forall|i: int|
                0 <= i < old(self)@.collisions.len() ==> match #[trigger] old(
                    self,
                )@.collisions[i] {
                    Collision::OtherBody { id_2, loc, .. } => id_2 < 255 && in_bounds(
                        old(self).matrice.width as int,
                        old(self).matrice.height as int,
                        loc,
                    ),
                    Collision::HeadToHead { id_1, id_2, loc, .. } => id_1 < 255 && id_2 < 255
                        && in_bounds(
                        old(self).matrice.width as int,
                        old(self).matrice.height as int,
                        loc,
                    ),
                    _ => true,
                },
            forall|i: int|
                0 <= i < displacements@.len() ==> (#[trigger] displacements@[i]).0 < 255 && (
                displacements@[i].0 as int) < old(self)@.snakes.len() && in_bounds(
                    old(self).matrice.width as int,
                    old(self).matrice.height as int,
                    displacements@[i].1.1,
                ) && (displacements@[i].1.0 matches Some(t) ==> in_bounds(
                    old(self).matrice.width as int,
                    old(self).matrice.height as int,
                    t,
                )),
        ensures
            final(self).matrice.wf(),
            final(self).matrice.height == old(self).matrice.height,
            final(self).matrice.width == old(self).matrice.width,
            final(self).snakes == old(self).snakes,
            final(self).food == old(self).food,
            final(self).collisions == old(self).collisions,
            final(self).height == old(self).height,
            final(self).width == old(self).width,
            final(self).food_min_amount == old(self).food_min_amount,
            final(self).food_spawn_permille == old(self).food_spawn_permille,
            final(self).matrice.array@ == apply_writes(
                old(self).matrice.array@,
                old(self).matrice.width as int,
                override_writes(old(self)@.collisions) + displacement_writes(
                    displacements@.filter(
                        |d: Displacement| !old(self)@.snakes[d.0 as int].is_dead(),
                    ),
                ),
            ),
    {
        let ghost pred = |d: Displacement| !old(self)@.snakes[d.0 as int].is_dead();
        let mut kept: Vec<Displacement> = Vec::new();
        let nd = displacements.len();
        let mut i: usize = 0;
        while i < nd
            invariant
                nd == displacements@.len(),
                0 <= i <= nd,
                self == old(self),
                pred == |d: Displacement| !old(self)@.snakes[d.0 as int].is_dead(),
                kept@ =~= displacements@.take(i as int).filter(pred),
                forall|k: int|
                    0 <= k < displacements@.len() ==> (#[trigger] displacements@[k]).0 < 255 && (
                    displacements@[k].0 as int) < old(self)@.snakes.len() && in_bounds(
                        old(self).matrice.width as int,
                        old(self).matrice.height as int,
                        displacements@[k].1.1,
                    ) && (displacements@[k].1.0 matches Some(t) ==> in_bounds(
                        old(self).matrice.width as int,
                        old(self).matrice.height as int,
                        t,
                    )),
            decreases nd - i,
        {
            proof {
                assert(displacements@.take(i as int + 1).drop_last() =~= displacements@.take(
                    i as int,
                ));
                assert(displacements@.take(i as int + 1).last() == displacements@[i as int]);
                reveal(Seq::filter);
            }
            let d = displacements[i];
            let id = d.0;
            proof {
                assert(self@.snakes[id as int] == self.snakes@[id as int]@);
            }
            if !self.snakes[id as usize].is_dead() {
                kept.push(d);
            }
            i = i + 1;
        }
        proof {
            assert(displacements@.take(nd as int) =~= displacements@);
            assert forall|k: int| 0 <= k < kept@.len() implies (#[trigger] kept@[k]).0 < 255
                && in_bounds(
                self.matrice.width as int,
                self.matrice.height as int,
                kept@[k].1.1,
            ) && (kept@[k].1.0 matches Some(t) ==> in_bounds(
                self.matrice.width as int,
                self.matrice.height as int,
                t,
            )) by {
                lemma_filter_disp_members(displacements@, pred, k);
                let t = choose|t: int|
                    0 <= t < displacements@.len() && displacements@[t] == displacements@.filter(
                        pred,
                    )[k];
            }
        }
        let ghost kept_view = kept@;
        proof {
            assert(self.collisions@ == old(self)@.collisions);
            assert forall|k: int| 0 <= k < self.collisions@.len() implies match #[trigger] self.collisions@[k] {
                Collision::OtherBody { id_2, loc, .. } => id_2 < 255 && in_bounds(
                    self.matrice.width as int,
                    self.matrice.height as int,
                    loc,
                ),
                Collision::HeadToHead { id_1, id_2, loc, .. } => id_1 < 255 && id_2 < 255
                    && in_bounds(self.matrice.width as int, self.matrice.height as int, loc),
                _ => true,
            } by {
                assert(self.collisions@[k] == old(self)@.collisions[k]);
            }
        }
        self.matrice.update(kept, &self.collisions);
        proof {
            assert(kept_view == displacements@.filter(pred));
        }
    }
}

/// Every element of a filtered displacement vector is an element of the
/// original vector.
pub proof fn lemma_filter_disp_members(
    s: Seq<Displacement>,
    pred: spec_fn(Displacement) -> bool,
    i: int,
)
    requires
        0 <= i < s.filter(pred).len(),
    ensures
        exists|t: int| 0 <= t < s.len() && s[t] == s.filter(pred)[i],
    decreases s.len(),
{
    reveal(Seq::filter);
    if s.len() > 0 {
        let fp = s.drop_last().filter(pred);
        if pred(s.last()) && i == s.filter(pred).len() - 1 {
            assert(s[s.len() - 1] == s.filter(pred)[i]);
        } else {
            lemma_filter_disp_members(s.drop_last(), pred, i);
            let t = choose|t: int| 0 <= t < s.drop_last().len() && s.drop_last()[t] == fp[i];
            assert(s[t] == fp[i]);
        }
    }
}

/// Two well-formed boards carrying the same snakes on the same
/// dimensions carry the same occupancy matrix: the matrix is a function
/// of the bodies.
pub proof fn lemma_matrix_determined(b1: BoardV, b2: BoardV)
    requires
        board_wf(b1),
        board_wf(b2),
        b1.snakes == b2.snakes,
        b1.width == b2.width,
        b1.height == b2.height,
    ensures
        b1.matrix =~= b2.matrix,
{
    reveal(board_wf);
    assert forall|idx: int| 0 <= idx < b1.matrix.len() implies b1.matrix[idx] == b2.matrix[idx]
        by {
        let w = b1.width;
        let y = idx / w;
        let x = idx % w;
        vstd::arithmetic::div_mod::lemma_fundamental_div_mod(idx, w);
        vstd::arithmetic::div_mod::lemma_mod_bound(idx, w);
        assert(0 <= y < b1.height && idx == y * w + x) by (nonlinear_arith)
            requires
                idx == w * y + x,
                0 <= x < w,
                0 <= idx,
                idx < b1.height * w,
                1 <= w,
        ;
        assert(cell_at(b1.matrix, w, x, y) == owner_code(b1.snakes, pt(x, y)));
        assert(cell_at(b2.matrix, w, x, y) == owner_code(b2.snakes, pt(x, y)));
    }
}

/// One turn is a pure function of the starting position and the move
/// vector: together with the contract of `Board::step` (which pins the
/// snakes, collisions and food of a simulation step to these spec
/// functions, and the matrix through well-formedness and
/// `lemma_matrix_determined`), two identical boards stepped with
/// identical move vectors in simulation mode end identical.
pub proof fn lemma_step_deterministic(
    b1: BoardV,
    b2: BoardV,
    movs1: Seq<Movement>,
    movs2: Seq<Movement>,
)
    requires
        b1.snakes == b2.snakes,
        b1.food == b2.food,
        b1.width == b2.width,
        b1.height == b2.height,
        movs1 == movs2,
    ensures
        step_snakes_spec(b1.snakes, movs1, b1.width, b1.height, b1.food) == step_snakes_spec(
            b2.snakes,
            movs2,
            b2.width,
            b2.height,
            b2.food,
        ),
        step_collisions_spec(b1.snakes, movs1, b1.width, b1.height) == step_collisions_spec(
            b2.snakes,
            movs2,
            b2.width,
            b2.height,
        ),
        step_food_spec(b1.snakes, movs1, b1.width, b1.height, b1.food) == step_food_spec(
            b2.snakes,
            movs2,
            b2.width,
            b2.height,
            b2.food,
        ),
{
}

} // verus!
