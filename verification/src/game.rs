//! The search-facing wrapper of a board: a designated current player,
//! legal-move enumeration, and the transition the tree search applies.

use vstd::prelude::*;

use crate::board::{
    board_wf, step_collisions_spec, step_food_spec, step_snakes_spec, Board, BoardV,
};
use crate::collision::Collision;
use crate::matrice::{in_bounds, lemma_owner_covers, owner_of, Matrice};
use crate::movement::Movement;
use crate::point::{point_after, Point};
use crate::snake::{Snake, SnakeV};

verus! {

/// Mathematical model of a game in progress.
pub ghost struct GameV {
    pub current_player: int,
    pub board: BoardV,
}

/// Whether move `m` is open to snake `id`: the head would stay on the
/// board and land on a cell no alive body holds.
pub open spec fn move_ok(b: BoardV, id: int, m: Movement) -> bool {
    let p2 = point_after(b.snakes[id].head, m);
    in_bounds(b.width, b.height, p2) && owner_of(b.snakes, p2) is None
}

/// The open moves of snake `id`, in the fixed candidate order
/// `Down, Left, Up, Right`.
pub open spec fn open_moves(b: BoardV, id: int) -> Seq<Movement> {
    (if move_ok(b, id, Movement::Down) {
        seq![Movement::Down]
    } else {
        Seq::empty()
    }) + (if move_ok(b, id, Movement::Left) {
        seq![Movement::Left]
    } else {
        Seq::empty()
    }) + (if move_ok(b, id, Movement::Up) {
        seq![Movement::Up]
    } else {
        Seq::empty()
    }) + (if move_ok(b, id, Movement::Right) {
        seq![Movement::Right]
    } else {
        Seq::empty()
    })
}

/// The moves offered to snake `id`: none for a dead snake; its open
/// moves; or the single doomed `Up` when every move loses, so that a
/// search always has a move to play.
#[verifier::opaque]
pub open spec fn available_moves_spec(b: BoardV, id: int) -> Seq<Movement> {
    if b.snakes[id].is_dead() {
        Seq::empty()
    } else if open_moves(b, id).len() == 0 {
        seq![Movement::Up]
    } else {
        open_moves(b, id)
    }
}

/// One step of the 64-bit FNV-1a byte mix: xor the byte in, multiply by
/// the FNV prime, and keep the low 64 bits.
pub open spec fn fnv1a_mix(acc: u64, b: u8) -> u64 {
    ((((acc ^ (b as u64)) as u128) * 0x100000001b3) as u64)
}

/// The 64-bit FNV-1a digest of the first `n` bytes of `s`.
pub open spec fn fnv1a_upto(s: Seq<u8>, n: int) -> u64
    decreases n,
{
    if n <= 0 {
        0xcbf29ce484222325u64
    } else {
        fnv1a_mix(fnv1a_upto(s, n - 1), s[n - 1])
    }
}

/// The digest of a whole occupancy matrix: the game's transposition
/// hash is a deterministic function of board topology alone.
pub open spec fn matrix_hash(s: Seq<u8>) -> u64 {
    fnv1a_upto(s, s.len() as int)
}

/// A board with a designated player the search optimizes for.
#[derive(Debug, Clone)]
pub struct SnakeGame {
    pub current_player: usize,
    pub board: Board,
}

impl View for SnakeGame {
    type V = GameV;

    open spec fn view(&self) -> GameV {
        GameV { current_player: self.current_player as int, board: self.board@ }
    }
}

impl SnakeGame {
    /// Well-formedness: a sound board and a designated player in range.
    #[verifier::opaque]
    pub open spec fn wf(self) -> bool {
        &&& self.board.wf()
        &&& 0 <= self@.current_player < self@.board.snakes.len()
    }

    /// Wraps a board; the designated player starts as snake `0`.
    pub fn new(board: Board) -> (r: SnakeGame)
        requires
            board.wf(),
        ensures
            r.wf(),
            r@.board == board@,
            r@.current_player == 0,
    {
        proof {
            reveal(SnakeGame::wf);
            reveal(crate::board::board_wf);
        }
        SnakeGame { current_player: 0, board }
    }

    /// Designates the snake the search plays for.
    pub fn set_player(&mut self, id: usize)
        requires
            old(self).wf(),
            id < old(self)@.board.snakes.len(),
        ensures
            final(self).wf(),
            final(self)@.board == old(self)@.board,
            final(self)@.current_player == id as int,
            final(self).board == old(self).board,
    {
        proof {
            reveal(SnakeGame::wf);
        }
        self.current_player = id;
    }

    /// The moves offered to snake `id` this turn: every move whose
    /// target cell is on the board and unoccupied; the single doomed
    /// `Up` if there is none; nothing for a dead snake.
    #[verifier::loop_isolation(false)]
    pub fn available_moves_snake(&self, id: usize) -> (r: Vec<Movement>)
        requires
            self.board.wf(),
            id < self@.board.snakes.len(),
        ensures
            r@ == available_moves_spec(self@.board, id as int),
    {
        proof {
            reveal(crate::board::board_wf);
        }
        let ghost b = self@.board;
        let s_dead = self.board.snakes()[id].is_dead();
        proof {
            assert(self.board.snakes@[id as int]@ == b.snakes[id as int]);
        }
        if s_dead {
            let r: Vec<Movement> = Vec::new();
            proof {
                reveal(available_moves_spec);
                assert(r@ =~= available_moves_spec(b, id as int));
            }
            return r;
        }
        let head = self.board.snakes()[id].head;
        let mut out: Vec<Movement> = Vec::new();
        let cands: [Movement; 4] = [Movement::Down, Movement::Left, Movement::Up, Movement::Right];
        let mut t: usize = 0;
        while t < 4
            invariant
                0 <= t <= 4,
                b == self@.board,
                self.board.wf(),
                id < b.snakes.len(),
                !b.snakes[id as int].is_dead(),
                head == b.snakes[id as int].head,
                cands@ =~= seq![Movement::Down, Movement::Left, Movement::Up, Movement::Right],
                out@ =~= open_moves_upto(b, id as int, t as int),
            decreases 4 - t,
        {
            let m = cands[t];
            proof {
                assert(in_bounds(b.width, b.height, head)) by {
                    let s = b.snakes[id as int];
                    assert(!s.is_dead());
                    assert(s.wf());
                    assert(in_bounds(b.width, b.height, s.body[s.body.len() - 1]));
                }
            }
            let new_position = head.apply_mov(m);
            let mut ok = !self.board.is_outside(new_position);
            if ok {
                let cell = self.board.matrice().get(new_position);
                proof {
                    lemma_cell_zero_iff_owner_none(b, new_position);
                }
                ok = cell.is_none();
            }
            proof {
                assert(ok == move_ok(b, id as int, m));
            }
            if ok {
                out.push(m);
            }
            proof {
                reveal(available_moves_spec);
                assert(out@ =~= open_moves_upto(b, id as int, t as int + 1));
            }
            t = t + 1;
        }
        proof {
            reveal(available_moves_spec);
            assert(open_moves_upto(b, id as int, 4) =~= open_moves(b, id as int));
        }
        if out.len() == 0 {
            let mut doomed: Vec<Movement> = Vec::new();
            doomed.push(Movement::Up);
            proof {
                assert(doomed@ =~= seq![Movement::Up]);
            }
            doomed
        } else {
            out
        }
    }

    /// The wrapped board.
    pub fn board(&self) -> (r: &Board)
        ensures
            r == &self.board,
    {
        &self.board
    }

    /// Advances the game one real turn (food may spawn).
    pub fn step(&mut self, mov: Vec<Movement>)
        requires
            old(self).wf(),
            mov@.len() == old(self)@.board.snakes.len(),
            forall|i: int|
                0 <= i < old(self)@.board.snakes.len() && !old(self)@.board.snakes[i].is_dead()
                    ==> (#[trigger] old(self)@.board.snakes[i]).length < usize::MAX,
        ensures
            final(self).wf(),
            final(self)@.current_player == old(self)@.current_player,
            final(self)@.board.snakes == step_snakes_spec(
                old(self)@.board.snakes,
                mov@,
                old(self)@.board.width,
                old(self)@.board.height,
                old(self)@.board.food,
            ),
            final(self)@.board.collisions == step_collisions_spec(
                old(self)@.board.snakes,
                mov@,
                old(self)@.board.width,
                old(self)@.board.height,
            ),
            final(self)@.board.width == old(self)@.board.width,
            final(self)@.board.height == old(self)@.board.height,
            ({
                // a real turn: the eaten food is drained and the spawning
                // pass may top the larder up, exactly as Board::step says
                let base = step_food_spec(
                    old(self)@.board.snakes,
                    mov@,
                    old(self)@.board.width,
                    old(self)@.board.height,
                    old(self)@.board.food,
                );
                let free = crate::board::free_cells_spec(
                    step_snakes_spec(
                        old(self)@.board.snakes,
                        mov@,
                        old(self)@.board.width,
                        old(self)@.board.height,
                        old(self)@.board.food,
                    ),
                    base,
                    old(self)@.board.width,
                    old(self)@.board.height,
                ).len() as int;
                &&& base.is_prefix_of(final(self)@.board.food)
                &&& forall|k: int|
                    base.len() <= k < final(self)@.board.food.len() ==> in_bounds(
                        old(self)@.board.width,
                        old(self)@.board.height,
                        #[trigger] final(self)@.board.food[k],
                    ) && owner_of(final(self)@.board.snakes, final(self)@.board.food[k]) is None
                        && !base.contains(final(self)@.board.food[k])
                &&& base.len() < old(self).board.food_min_amount ==> final(self)@.board.food.len() == base.len() + vstd::math::min(
                    old(self).board.food_min_amount - base.len(),
                    free,
                )
                &&& base.len() >= old(self).board.food_min_amount ==> (final(self)@.board.food.len() == base.len() || final(self)@.board.food.len() == base.len()
                    + vstd::math::min(1, free))
            }),
    {
        proof {
            reveal(SnakeGame::wf);
        }
        self.board.step(mov, false);
        proof {
            reveal(crate::board::step_snakes_spec);
            reveal(crate::board::snakes_after_starve);
            reveal(crate::board::snakes_after_feed);
            reveal(crate::board::snakes_after_collisions);
            reveal(crate::board::snakes_moved);
            assert(self@.board.snakes.len() == old(self)@.board.snakes.len());
        }
    }

    /// The designated player.
    pub fn current_player(&self) -> (r: usize)
        ensures
            r as int == self@.current_player,
    {
        self.current_player
    }

    /// The moves offered to the designated player.
    pub fn available_moves(&self) -> (r: Vec<Movement>)
        requires
            self.wf(),
        ensures
            r@ == available_moves_spec(self@.board, self@.current_player),
    {
        proof {
            reveal(SnakeGame::wf);
        }
        self.available_moves_snake(self.current_player)
    }

    /// The transition the search applies: the designated player plays
    /// `mov`, every other alive snake plays a move drawn from its own
    /// available moves (`Up` if dead), and the board advances one
    /// simulation turn, deterministically given those draws.
    pub fn make_move(&mut self, mov: Movement)
        requires
            old(self).wf(),
            forall|i: int|
                0 <= i < old(self)@.board.snakes.len() && !old(self)@.board.snakes[i].is_dead()
                    ==> (#[trigger] old(self)@.board.snakes[i]).length < usize::MAX,
        ensures
            final(self).wf(),
            final(self)@.current_player == old(self)@.current_player,
            final(self)@.board.width == old(self)@.board.width,
            final(self)@.board.height == old(self)@.board.height,
            exists|ms: Seq<Movement>|
                {
                    &&& ms.len() == old(self)@.board.snakes.len()
                    &&& ms[old(self)@.current_player] == mov
                    &&& (forall|i: int|
                        0 <= i < ms.len() && i != old(self)@.current_player && !old(
                            self,
                        )@.board.snakes[i].is_dead() ==> available_moves_spec(
                            old(self)@.board,
                            i,
                        ).contains(#[trigger] ms[i]))
                    &&& final(self)@.board.snakes == step_snakes_spec(
                        old(self)@.board.snakes,
                        ms,
                        old(self)@.board.width,
                        old(self)@.board.height,
                        old(self)@.board.food,
                    )
                    &&& final(self)@.board.collisions == step_collisions_spec(
                        old(self)@.board.snakes,
                        ms,
                        old(self)@.board.width,
                        old(self)@.board.height,
                    )
                    &&& final(self)@.board.food == step_food_spec(
                        old(self)@.board.snakes,
                        ms,
                        old(self)@.board.width,
                        old(self)@.board.height,
                        old(self)@.board.food,
                    )
                },
    {
        proof {
            reveal(SnakeGame::wf);
        }
        let ghost b0 = self@.board;
        let n = self.board.snakes().len();
        let mut sample: Vec<Movement> = Vec::new();
        let mut rng = crate::rng::new_rng();
        let mut id: usize = 0;
        while id < n
            invariant
                self == old(self),
                n == b0.snakes.len(),
                b0 == self@.board,
                old(self).wf(),
                self.board.wf(),
                0 <= self@.current_player < n,
                0 <= id <= n,
                sample@.len() == id,
                sample@.len() <= n,
                forall|i: int|
                    0 <= i < id && i == self@.current_player ==> #[trigger] sample@[i] == mov,
                forall|i: int|
                    0 <= i < id && i != self@.current_player && !b0.snakes[i].is_dead()
                        ==> available_moves_spec(b0, i).contains(#[trigger] sample@[i]),
            decreases n - id,
        {
            if id == self.current_player {
                sample.push(mov);
            } else {
                let avail = self.available_moves_snake(id);
                if avail.len() > 0 {
                    proof {
                        reveal(available_moves_spec);
                        assert(avail@.len() <= 4);
                    }
                    let pick = crate::rng::rng_below(&mut rng, avail.len() as u32);
                    let m = avail[pick as usize];
                    proof {
                        assert(avail@.contains(avail@[pick as int]));
                    }
                    sample.push(m);
                } else {
                    sample.push(Movement::Up);
                    proof {
                        reveal(available_moves_spec);
                        assert(available_moves_spec(b0, id as int) =~= Seq::<Movement>::empty()
                            || b0.snakes[id as int].is_dead()) by {
                            if available_moves_spec(b0, id as int).len() != 0 {
                                assert(b0.snakes[id as int].is_dead());
                            }
                        }
                    }
                }
            }
            id = id + 1;
        }
        proof {
            reveal(available_moves_spec);
            assert forall|i: int|
                0 <= i < n && i != self@.current_player && !b0.snakes[i].is_dead() implies available_moves_spec(
                b0,
                i,
            ).contains(#[trigger] sample@[i]) by {
                if available_moves_spec(b0, i).len() == 0 {
                    assert(!b0.snakes[i].is_dead());
                    assert(false);
                }
            }
        }
        let ghost ms = sample@;
        self.board.step(sample, true);
        proof {
            reveal(crate::board::step_snakes_spec);
            reveal(crate::board::snakes_after_starve);
            reveal(crate::board::snakes_after_feed);
            reveal(crate::board::snakes_after_collisions);
            reveal(crate::board::snakes_moved);
            assert(ms[old(self)@.current_player] == mov);
        }
    }

    /// A deterministic digest of the occupancy matrix: boards with the
    /// same topology hash alike, food and health deliberately excluded.
    #[verifier::rlimit(50)]
    pub fn hash(&self) -> (r: u64)
        ensures
            r == matrix_hash(self@.board.matrix),
    {
        let a = self.board.matrice().array();
        let nb = a.len();
        let mut acc: u64 = 0xcbf29ce484222325;
        let mut i: usize = 0;
        while i < nb
            invariant
                nb == a@.len(),
                a@ == self@.board.matrix,
                0 <= i <= nb,
                acc == fnv1a_upto(a@, i as int),
            decreases nb - i,
        {
            let b = a[i];
            let ghost accp = acc;
            acc = fnv_mix(acc, b);
            proof {
                assert(a@[i as int] == b);
                assert(fnv1a_upto(a@, i as int + 1) == fnv1a_mix(fnv1a_upto(a@, i as int), b));
            }
            i = i + 1;
        }
        acc
    }

    /// A deep copy whose model is identical; playouts mutate copies,
    /// never the shared root state.
    pub fn duplicate(&self) -> (r: SnakeGame)
        ensures
            r@ == self@,
            r.wf() == self.wf(),
    {
        let b = &self.board;
        let mut snakes: Vec<Snake> = Vec::new();
        let ns = b.snakes.len();
        let mut i: usize = 0;
        while i < ns
            invariant
                ns == b.snakes@.len(),
                0 <= i <= ns,
                snakes@.len() == i,
                forall|k: int| 0 <= k < i ==> #[trigger] snakes@[k]@ == b.snakes@[k]@,
            decreases ns - i,
        {
            let s = &b.snakes[i];
            let mut body: std::collections::VecDeque<Point> = std::collections::VecDeque::new();
            let nb = s.body.len();
            let mut k: usize = 0;
            while k < nb
                invariant
                    nb == s.body@.len(),
                    0 <= k <= nb,
                    body@ =~= s.body@.take(k as int),
                decreases nb - k,
            {
                body.push_back(s.body[k]);
                k = k + 1;
            }
            proof {
                assert(body@ =~= s.body@);
            }
            let s2 = Snake { health: s.health, body, head: s.head, length: s.length };
            snakes.push(s2);
            i = i + 1;
        }
        proof {
            assert(snakes@.map_values(|s: Snake| s@) =~= b.snakes@.map_values(|s: Snake| s@));
        }
        let mut food: Vec<Point> = Vec::new();
        let nf = b.food.len();
        let mut i: usize = 0;
        while i < nf
            invariant
                nf == b.food@.len(),
                0 <= i <= nf,
                food@ =~= b.food@.take(i as int),
            decreases nf - i,
        {
            food.push(b.food[i]);
            i = i + 1;
        }
        proof {
            assert(food@ =~= b.food@);
        }
        let mut collisions: Vec<Collision> = Vec::new();
        let nc = b.collisions.len();
        let mut i: usize = 0;
        while i < nc
            invariant
                nc == b.collisions@.len(),
                0 <= i <= nc,
                collisions@ =~= b.collisions@.take(i as int),
            decreases nc - i,
        {
            collisions.push(b.collisions[i]);
            i = i + 1;
        }
        proof {
            assert(collisions@ =~= b.collisions@);
        }
        let mut array: Vec<u8> = Vec::new();
        let na = b.matrice.array.len();
        let mut i: usize = 0;
        while i < na
            invariant
                na == b.matrice.array@.len(),
                0 <= i <= na,
                array@ =~= b.matrice.array@.take(i as int),
            decreases na - i,
        {
            array.push(b.matrice.array[i]);
            i = i + 1;
        }
        proof {
            assert(array@ =~= b.matrice.array@);
        }
        proof {
            reveal(SnakeGame::wf);
        }
        let matrice = Matrice { height: b.matrice.height, width: b.matrice.width, array };
        let board = Board {
            height: b.height,
            width: b.width,
            food,
            snakes,
            matrice,
            collisions,
            food_spawn_permille: b.food_spawn_permille,
            food_min_amount: b.food_min_amount,
        };
        SnakeGame { current_player: self.current_player, board }
    }
}

/// One executable step of the FNV-1a mix.
fn fnv_mix(acc: u64, b: u8) -> (r: u64)
    ensures
        r == fnv1a_mix(acc, b),
{
    let y: u64 = acc ^ (b as u64);
    proof {
        assert((y as u128) * 0x100000001b3u128 < 0x10000000000000000000000000000u128)
            by (nonlinear_arith)
            requires
                (y as u128) < 0x10000000000000000u128,
        ;
    }
    let p128: u128 = (y as u128) * 0x100000001b3;
    let r: u64 = #[verifier::truncate] (p128 as u64);
    r
}

/// The open moves among the first `t` candidates of the fixed order.
pub open spec fn open_moves_upto(b: BoardV, id: int, t: int) -> Seq<Movement> {
    (if t >= 1 && move_ok(b, id, Movement::Down) {
        seq![Movement::Down]
    } else {
        Seq::empty()
    }) + (if t >= 2 && move_ok(b, id, Movement::Left) {
        seq![Movement::Left]
    } else {
        Seq::empty()
    }) + (if t >= 3 && move_ok(b, id, Movement::Up) {
        seq![Movement::Up]
    } else {
        Seq::empty()
    }) + (if t >= 4 && move_ok(b, id, Movement::Right) {
        seq![Movement::Right]
    } else {
        Seq::empty()
    })
}

/// Under well-formedness the matrix cell of `p` is zero exactly when no
/// alive snake covers `p`.
pub proof fn lemma_cell_zero_iff_owner_none(b: BoardV, p: Point)
    requires
        board_wf(b),
        in_bounds(b.width, b.height, p),
    ensures
        (crate::matrice::cell_at(b.matrix, b.width, p.x as int, p.y as int) == 0) <==> (owner_of(
            b.snakes,
            p,
        ) is None),
{
    reveal(crate::board::board_wf);
    assert(crate::matrice::pt(p.x as int, p.y as int) == p);
    assert(crate::matrice::cell_at(b.matrix, b.width, p.x as int, p.y as int)
        == crate::matrice::owner_code(b.snakes, p));
    match owner_of(b.snakes, p) {
        Some(i) => {
            lemma_owner_covers(b.snakes, p, b.snakes.len() as int, i);
            assert(0 <= i < b.snakes.len() <= 255);
            assert(crate::matrice::owner_code(b.snakes, p) == (i + 1) as u8);
            assert((i + 1) as u8 != 0);
        },
        None => {},
    }
}

} // verus!
