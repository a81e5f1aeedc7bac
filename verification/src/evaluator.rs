//! The heuristic leaf evaluator: flood-fill territory plus health,
//! length-balance, death and collision shaping terms, and the scalar
//! interpretation of a score vector for one player.

use vstd::prelude::*;

use crate::board::BoardV;
use crate::collision::Collision;
use crate::game::SnakeGame;
use crate::matrice::{in_bounds, lemma_dims_fit, lemma_rm_index, Matrice, MAX_DIM};
use crate::movement::Movement;
use crate::point::{point_after, Point};
use crate::snake::{Snake, SnakeV, DEFAULT_SNAKE_HEALTH};

verus! {

/// Largest body length, desired length or collision count the evaluator
/// accepts: keeps every score term comfortably inside `i64`.
pub const EVAL_MAX: usize = 0x40000000;

/// How many zero bytes `s` holds.
pub open spec fn count_zeros(s: Seq<u8>) -> nat
    decreases s.len(),
{
    if s.len() == 0 {
        0
    } else {
        count_zeros(s.drop_last()) + (if s.last() == 0 {
            1nat
        } else {
            0nat
        })
    }
}

/// Writing a nonzero value over a zero byte lowers the zero count by
/// exactly one.
pub proof fn lemma_count_zeros_update(s: Seq<u8>, i: int, v: u8)
    requires
        0 <= i < s.len(),
        s[i] == 0,
        v != 0,
    ensures
        count_zeros(s) >= 1,
        count_zeros(s.update(i, v)) == count_zeros(s) - 1,
    decreases s.len(),
{
    let s2 = s.update(i, v);
    if i == s.len() - 1 {
        assert(s2.drop_last() =~= s.drop_last());
        assert(s2.last() == v);
        assert(s.last() == 0);
    } else {
        lemma_count_zeros_update(s.drop_last(), i, v);
        assert(s2.drop_last() =~= s.drop_last().update(i, v));
        assert(s2.last() == s.last());
    }
}

/// The fixed order the flood fill probes neighbours in.
pub open spec fn dir_order(d: int) -> Movement {
    if d == 0 {
        Movement::Down
    } else if d == 1 {
        Movement::Up
    } else if d == 2 {
        Movement::Right
    } else {
        Movement::Left
    }
}

/// One neighbour probe of the flood fill: if the cell one step from
/// `pos` in direction `m` is on the board and unclaimed, claim it for
/// snake `id` and enqueue it.
pub open spec fn try_claim(
    st: (Seq<u8>, Seq<(int, Point)>),
    id: int,
    pos: Point,
    m: Movement,
    w: int,
    h: int,
) -> (Seq<u8>, Seq<(int, Point)>) {
    let p = point_after(pos, m);
    if in_bounds(w, h, p) && st.0[p.y as int * w + p.x as int] == 0 {
        (st.0.update(p.y as int * w + p.x as int, claim_code(id)), st.1.push((id, p)))
    } else {
        st
    }
}

/// The byte a claimed cell is marked with: `id + 1`, never zero.
pub open spec fn claim_code(id: int) -> u8 {
    if 0 <= id < 255 {
        (id + 1) as u8
    } else {
        255u8
    }
}

/// All four neighbour probes for one popped queue entry.
pub open spec fn flood_step(
    a: Seq<u8>,
    q: Seq<(int, Point)>,
    id: int,
    pos: Point,
    w: int,
    h: int,
) -> (Seq<u8>, Seq<(int, Point)>) {
    try_claim(
        try_claim(
            try_claim(try_claim((a, q), id, pos, dir_order(0), w, h), id, pos, dir_order(1), w, h),
            id,
            pos,
            dir_order(2),
            w,
            h,
        ),
        id,
        pos,
        dir_order(3),
        w,
        h,
    )
}

/// One probe cannot shrink the queue, keeps the array length, and every
/// enqueued entry claims exactly one zero cell.
pub proof fn lemma_try_claim_counts(
    st: (Seq<u8>, Seq<(int, Point)>),
    id: int,
    pos: Point,
    m: Movement,
    w: int,
    h: int,
)
    requires
        1 <= w <= MAX_DIM,
        1 <= h <= MAX_DIM,
        st.0.len() == h * w,
    ensures
        ({
            let st2 = try_claim(st, id, pos, m, w, h);
            &&& st2.0.len() == st.0.len()
            &&& st2.1.len() >= st.1.len()
            &&& count_zeros(st2.0) + st2.1.len() - st.1.len() == count_zeros(st.0)
            &&& st.1.is_prefix_of(st2.1)
        }),
{
    let p = point_after(pos, m);
    if in_bounds(w, h, p) && st.0[p.y as int * w + p.x as int] == 0 {
        lemma_rm_index(w, h, p.x as int, p.y as int);
        lemma_count_zeros_update(st.0, p.y as int * w + p.x as int, claim_code(id));
    }
}

/// A whole step keeps the balance between queue growth and zero cells.
pub proof fn lemma_flood_step_counts(
    a: Seq<u8>,
    q: Seq<(int, Point)>,
    id: int,
    pos: Point,
    w: int,
    h: int,
)
    requires
        1 <= w <= MAX_DIM,
        1 <= h <= MAX_DIM,
        a.len() == h * w,
    ensures
        ({
            let st2 = flood_step(a, q, id, pos, w, h);
            &&& st2.0.len() == a.len()
            &&& st2.1.len() >= q.len()
            &&& count_zeros(st2.0) + st2.1.len() - q.len() == count_zeros(a)
            &&& q.is_prefix_of(st2.1)
        }),
{
    let s1 = try_claim((a, q), id, pos, dir_order(0), w, h);
    lemma_try_claim_counts((a, q), id, pos, dir_order(0), w, h);
    let s2 = try_claim(s1, id, pos, dir_order(1), w, h);
    lemma_try_claim_counts(s1, id, pos, dir_order(1), w, h);
    let s3 = try_claim(s2, id, pos, dir_order(2), w, h);
    lemma_try_claim_counts(s2, id, pos, dir_order(2), w, h);
    lemma_try_claim_counts(s3, id, pos, dir_order(3), w, h);
}

/// The flood fill itself: pop entries from `qi` on, credit each popped
/// entry's snake with one cell, and claim the unclaimed neighbours.
pub open spec fn flood(
    a: Seq<u8>,
    q: Seq<(int, Point)>,
    qi: int,
    lengths: Seq<int>,
    w: int,
    h: int,
) -> Seq<int>
    decreases count_zeros(a), q.len() - qi,
    when 1 <= w <= MAX_DIM && 1 <= h <= MAX_DIM && a.len() == h * w && 0 <= qi
    via flood_decreases
{
    if qi >= q.len() {
        lengths
    } else {
        let id = q[qi].0;
        let pos = q[qi].1;
        let lengths2 = if 0 <= id < lengths.len() {
            lengths.update(id, lengths[id] + 1)
        } else {
            lengths
        };
        let st2 = flood_step(a, q, id, pos, w, h);
        flood(st2.0, st2.1, qi + 1, lengths2, w, h)
    }
}

#[via_fn]
proof fn flood_decreases(a: Seq<u8>, q: Seq<(int, Point)>, qi: int, lengths: Seq<int>, w: int, h: int) {
    if qi < q.len() {
        let id = q[qi].0;
        let pos = q[qi].1;
        lemma_flood_step_counts(a, q, id, pos, w, h);
    }
}

/// The flood credit of each snake is bounded by its starting credit
/// plus every cell and queue entry there is.
pub proof fn lemma_flood_bound(
    a: Seq<u8>,
    q: Seq<(int, Point)>,
    qi: int,
    lengths: Seq<int>,
    w: int,
    h: int,
    t: int,
)
    requires
        1 <= w <= MAX_DIM,
        1 <= h <= MAX_DIM,
        a.len() == h * w,
        0 <= qi <= q.len(),
        0 <= t < lengths.len(),
    ensures
        flood(a, q, qi, lengths, w, h).len() == lengths.len(),
        lengths[t] <= flood(a, q, qi, lengths, w, h)[t] <= lengths[t] + (q.len() - qi)
            + count_zeros(a),
    decreases count_zeros(a), q.len() - qi,
{
    if qi < q.len() {
        let id = q[qi].0;
        let pos = q[qi].1;
        let lengths2 = if 0 <= id < lengths.len() {
            lengths.update(id, lengths[id] + 1)
        } else {
            lengths
        };
        let st2 = flood_step(a, q, id, pos, w, h);
        lemma_flood_step_counts(a, q, id, pos, w, h);
        lemma_flood_bound(st2.0, st2.1, qi + 1, lengths2, w, h, t);
    }
}

/// The queue the flood fill starts from: the heads of the alive snakes
/// among the first `n`, in id order.
pub open spec fn alive_heads_upto(ss: Seq<SnakeV>, n: int) -> Seq<(int, Point)>
    decreases n,
{
    if n <= 0 {
        Seq::empty()
    } else {
        alive_heads_upto(ss, n - 1) + (if !ss[n - 1].is_dead() {
            seq![(n - 1, ss[n - 1].head)]
        } else {
            Seq::empty()
        })
    }
}

/// The starting credit of each snake: its visible body length.
pub open spec fn init_credits(ss: Seq<SnakeV>) -> Seq<int> {
    Seq::new(ss.len(), |i: int| ss[i].body.len() as int)
}

/// The territory scores of a board: the flood fill run on its occupancy
/// matrix from all alive heads.
pub open spec fn area_scores(b: BoardV) -> Seq<int> {
    flood(b.matrix, alive_heads_upto(b.snakes, b.snakes.len() as int), 0, init_credits(b.snakes), b.width, b.height)
}

/// What one collision record contributes to snake `i`'s score.
pub open spec fn collision_contrib(c: Collision, i: int) -> int {
    match c {
        Collision::Wall { id } => if id == i {
            -100
        } else {
            0int
        },
        Collision::SelfBody { id } => if id == i {
            -100
        } else {
            0int
        },
        Collision::OtherBody { id_1, id_2, .. } => (if id_1 == i {
            -100
        } else {
            0int
        }) + (if id_2 == i {
            10int
        } else {
            0int
        }),
        Collision::HeadToHead { src_length, dst_length, id_1, id_2, .. } => {
            if src_length == dst_length {
                (if id_1 == i {
                    -100
                } else {
                    0int
                }) + (if id_2 == i {
                    -100
                } else {
                    0int
                })
            } else if src_length > dst_length {
                (if id_1 == i {
                    10int
                } else {
                    0int
                }) + (if id_2 == i {
                    -100
                } else {
                    0int
                })
            } else {
                (if id_1 == i {
                    -100
                } else {
                    0int
                }) + (if id_2 == i {
                    10int
                } else {
                    0int
                })
            }
        },
    }
}

/// The collision shaping of snake `i`: the sum over the turn's records.
pub open spec fn collision_score(cs: Seq<Collision>, i: int) -> int
    decreases cs.len(),
{
    if cs.len() == 0 {
        0
    } else {
        collision_score(cs.drop_last(), i) + collision_contrib(cs.last(), i)
    }
}

/// The number of alive snakes among the first `n`.
pub open spec fn alive_count_upto(ss: Seq<SnakeV>, n: int) -> int
    decreases n,
{
    if n <= 0 {
        0
    } else {
        alive_count_upto(ss, n - 1) + (if !ss[n - 1].is_dead() {
            1int
        } else {
            0int
        })
    }
}

/// The summed desired lengths of the alive snakes among the first `n`.
pub open spec fn alive_length_sum_upto(ss: Seq<SnakeV>, n: int) -> int
    decreases n,
{
    if n <= 0 {
        0
    } else {
        alive_length_sum_upto(ss, n - 1) + (if !ss[n - 1].is_dead() {
            ss[n - 1].length as int
        } else {
            0int
        })
    }
}

/// The mean desired length of the alive snakes, rounded half up; zero
/// when no snake is alive.
pub open spec fn mean_alive_length(ss: Seq<SnakeV>) -> int {
    let cnt = alive_count_upto(ss, ss.len() as int);
    let sum = alive_length_sum_upto(ss, ss.len() as int);
    if cnt == 0 {
        0
    } else {
        (2 * sum + cnt) / (2 * cnt)
    }
}

/// The absolute value of an integer.
pub open spec fn abs_int(a: int) -> int {
    if a >= 0 {
        a
    } else {
        -a
    }
}

/// The non-territory shaping of snake `i`: health offset and length
/// balance for alive snakes, the death penalty for dead ones.
pub open spec fn shaping_score(b: BoardV, i: int) -> int {
    if b.snakes[i].is_dead() {
        -100
    } else {
        (b.snakes[i].health - (DEFAULT_SNAKE_HEALTH as int + 1) / 2) - abs_int(
            b.snakes[i].length as int - mean_alive_length(b.snakes),
        )
    }
}

/// The full evaluation of a board: one integer score per snake.
#[verifier::opaque]
pub open spec fn eval_spec(b: BoardV) -> Seq<int> {
    Seq::new(
        b.snakes.len(),
        |i: int| area_scores(b)[i] + collision_score(b.collisions, i) + shaping_score(b, i),
    )
}

/// Integer division by two, rounding toward zero.
pub open spec fn div2_toward_zero(a: int) -> int {
    if a >= 0 {
        a / 2
    } else {
        -((-a) / 2)
    }
}

/// `a` clamped into the `i64` range.
pub open spec fn clamp_i64(a: int) -> int {
    if a > i64::MAX {
        i64::MAX as int
    } else if a < i64::MIN {
        i64::MIN as int
    } else {
        a
    }
}

/// The sum of a score vector.
pub open spec fn sum_scores(e: Seq<i64>) -> int
    decreases e.len(),
{
    if e.len() == 0 {
        0
    } else {
        sum_scores(e.drop_last()) + e.last()
    }
}

/// The scalar a score vector is worth to `player`: its own score minus
/// half the opponents' total, clamped into `i64`.
pub open spec fn interpret_spec(e: Seq<i64>, player: int) -> int {
    clamp_i64(e[player] - div2_toward_zero(sum_scores(e) - e[player]))
}

/// The heuristic evaluator used on the search's leaf states.
pub struct MyEvaluator;

/// Zero cells are never more numerous than cells.
pub proof fn lemma_count_zeros_le_len(s: Seq<u8>)
    ensures
        count_zeros(s) <= s.len(),
    decreases s.len(),
{
    if s.len() > 0 {
        lemma_count_zeros_le_len(s.drop_last());
    }
}

impl MyEvaluator {
    /// The territory pass: every snake's credit starts at its visible
    /// body length; a multi-source breadth-first expansion from all
    /// alive heads claims free cells in a scratch copy of the matrix,
    /// one credit per claimed cell, ties broken by queue order.
    #[verifier::loop_isolation(false)]
    fn expand_conquer_array(matrice: &Matrice, snakes: &Vec<Snake>) -> (r: Vec<i64>)
        requires
            matrice.wf(),
            snakes@.len() <= 255,
            forall|i: int| 0 <= i < snakes@.len() ==> (#[trigger] snakes@[i])@.wf(),
            forall|i: int|
                0 <= i < snakes@.len() && !snakes@[i]@.is_dead() ==> in_bounds(
                    matrice.width as int,
                    matrice.height as int,
                    (#[trigger] snakes@[i])@.head,
                ),
            forall|i: int|
                0 <= i < snakes@.len() ==> (#[trigger] snakes@[i])@.body.len() <= EVAL_MAX,
        ensures
            r@.len() == snakes@.len(),
            r@.map_values(|v: i64| v as int) == flood(
                matrice.array@,
                alive_heads_upto(
                    snakes@.map_values(|s: Snake| s@),
                    snakes@.len() as int,
                ),
                0,
                init_credits(snakes@.map_values(|s: Snake| s@)),
                matrice.width as int,
                matrice.height as int,
            ),
    {
        let ghost ss = snakes@.map_values(|s: Snake| s@);
        let w = matrice.width;
        let h = matrice.height;
        let n = snakes.len();
        proof {
            lemma_dims_fit(h as int, w as int);
        }

        // scratch copy of the matrix
        let mut scratch: Vec<u8> = Vec::new();
        let na = matrice.array.len();
        let mut i: usize = 0;
        while i < na
            invariant
                na == matrice.array@.len(),
                0 <= i <= na,
                scratch@ =~= matrice.array@.take(i as int),
            decreases na - i,
        {
            scratch.push(matrice.array[i]);
            i = i + 1;
        }
        proof {
            assert(scratch@ =~= matrice.array@);
        }

        // starting credits
        let mut lengths: Vec<i64> = Vec::new();
        let mut i: usize = 0;
        while i < n
            invariant
                n == snakes@.len(),
                ss == snakes@.map_values(|s: Snake| s@),
                0 <= i <= n,
                lengths@.len() == i,
                forall|k: int|
                    0 <= k < i ==> #[trigger] lengths@[k] as int == ss[k].body.len() as int,
                forall|k: int|
                    0 <= k < snakes@.len() ==> (#[trigger] snakes@[k])@.body.len() <= EVAL_MAX,
            decreases n - i,
        {
            proof {
                assert(snakes@[i as int]@ == ss[i as int]);
            }
            lengths.push(snakes[i].body.len() as i64);
            i = i + 1;
        }
        proof {
            assert(lengths@.map_values(|v: i64| v as int) =~= init_credits(ss));
        }

        // seed queue: alive heads in id order
        let mut q: Vec<(usize, Point)> = Vec::new();
        let mut i: usize = 0;
        while i < n
            invariant
                n == snakes@.len(),
                ss == snakes@.map_values(|s: Snake| s@),
                0 <= i <= n,
                q@.map_values(|e: (usize, Point)| (e.0 as int, e.1)) =~= alive_heads_upto(
                    ss,
                    i as int,
                ),
                q@.len() <= i,
                forall|k: int| 0 <= k < q@.len() ==> (#[trigger] q@[k]).0 < n,
                forall|k: int|
                    0 <= k < q@.len() ==> in_bounds(w as int, h as int, (#[trigger] q@[k]).1),
                forall|k: int|
                    0 <= k < snakes@.len() && !snakes@[k]@.is_dead() ==> in_bounds(
                        w as int,
                        h as int,
                        (#[trigger] snakes@[k])@.head,
                    ),
            decreases n - i,
        {
            proof {
                assert(snakes@[i as int]@ == ss[i as int]);
            }
            if !snakes[i].is_dead() {
                q.push((i, snakes[i].head));
            }
            proof {
                assert(q@.map_values(|e: (usize, Point)| (e.0 as int, e.1)) =~= alive_heads_upto(
                    ss,
                    i as int + 1,
                ));
            }
            i = i + 1;
        }

        let ghost a0 = scratch@;
        let ghost q0 = q@.map_values(|e: (usize, Point)| (e.0 as int, e.1));
        let ghost l0 = lengths@.map_values(|v: i64| v as int);
        let ghost target = flood(a0, q0, 0, l0, w as int, h as int);
        proof {
            lemma_count_zeros_le_len(a0);
            assert(a0.len() == (h as int) * (w as int));
            assert(q0.len() <= 255);
        }

        let mut qi: usize = 0;
        while qi < q.len()
            invariant
                n == snakes@.len(),
                n <= 255,
                1 <= w <= MAX_DIM,
                1 <= h <= MAX_DIM,
                scratch@.len() == (h as int) * (w as int),
                lengths@.len() == n,
                0 <= qi <= q@.len(),
                q0.len() <= q@.len(),
                forall|k: int| 0 <= k < q@.len() ==> (#[trigger] q@[k]).0 < n,
                forall|k: int|
                    0 <= k < q@.len() ==> in_bounds(w as int, h as int, (#[trigger] q@[k]).1),
                count_zeros(scratch@) + q@.len() == count_zeros(a0) + q0.len(),
                forall|t: int|
                    0 <= t < n ==> l0[t] <= #[trigger] lengths@[t] as int <= l0[t] + qi,
                forall|t: int| 0 <= t < n ==> l0[t] <= EVAL_MAX,
                count_zeros(a0) <= (h as int) * (w as int),
                q0.len() <= 255,
                flood(
                    scratch@,
                    q@.map_values(|e: (usize, Point)| (e.0 as int, e.1)),
                    qi as int,
                    lengths@.map_values(|v: i64| v as int),
                    w as int,
                    h as int,
                ) == target,
            decreases count_zeros(scratch@), q@.len() - qi,
        {
            let ghost a_in = scratch@;
            let ghost q_in = q@.map_values(|e: (usize, Point)| (e.0 as int, e.1));
            let ghost l_in = lengths@.map_values(|v: i64| v as int);
            let (id, pos) = q[qi];
            proof {
                assert(q_in[qi as int] == (id as int, pos));
            }
            let cur = lengths[id];
            proof {
                assert(l_in[id as int] <= l0[id as int] + qi);
                assert(q@.len() <= q0.len() + count_zeros(a0));
                assert(cur as int <= EVAL_MAX + 255 + count_zeros(a0));
                assert(count_zeros(a0) <= (h as int) * (w as int));
                assert((h as int) * (w as int) <= MAX_DIM * MAX_DIM);
            }
            lengths[id] = cur + 1;
            proof {
                assert(lengths@.map_values(|v: i64| v as int) =~= l_in.update(
                    id as int,
                    l_in[id as int] + 1,
                ));
            }

            let ghost st0 = (a_in, q_in);
            let ghost st1 = try_claim(st0, id as int, pos, dir_order(0), w as int, h as int);
            let ghost st2 = try_claim(st1, id as int, pos, dir_order(1), w as int, h as int);
            let ghost st3 = try_claim(st2, id as int, pos, dir_order(2), w as int, h as int);
            let ghost st4 = try_claim(st3, id as int, pos, dir_order(3), w as int, h as int);

            let cands: [Movement; 4] = [
                Movement::Down,
                Movement::Up,
                Movement::Right,
                Movement::Left,
            ];
            let mut d: usize = 0;
            while d < 4
                invariant
                    0 <= d <= 4,
                    n <= 255,
                    id < n,
                    1 <= w <= MAX_DIM,
                    1 <= h <= MAX_DIM,
                    in_bounds(w as int, h as int, pos),
                    cands@ =~= seq![
                        Movement::Down,
                        Movement::Up,
                        Movement::Right,
                        Movement::Left,
                    ],
                    st0 == (a_in, q_in),
                    st1 == try_claim(st0, id as int, pos, dir_order(0), w as int, h as int),
                    st2 == try_claim(st1, id as int, pos, dir_order(1), w as int, h as int),
                    st3 == try_claim(st2, id as int, pos, dir_order(2), w as int, h as int),
                    st4 == try_claim(st3, id as int, pos, dir_order(3), w as int, h as int),
                    a_in.len() == (h as int) * (w as int),
                    scratch@.len() == (h as int) * (w as int),
                    (scratch@, q@.map_values(|e: (usize, Point)| (e.0 as int, e.1))) == (if d == 0 {
                        st0
                    } else if d == 1 {
                        st1
                    } else if d == 2 {
                        st2
                    } else if d == 3 {
                        st3
                    } else {
                        st4
                    }),
                    forall|k: int| 0 <= k < q@.len() ==> (#[trigger] q@[k]).0 < n,
                    forall|k: int|
                        0 <= k < q@.len() ==> in_bounds(w as int, h as int, (#[trigger] q@[k]).1),
                decreases 4 - d,
            {
                let ghost st_pre = (scratch@, q@.map_values(|e: (usize, Point)| (e.0 as int, e.1)));
                proof {
                    lemma_try_claim_counts(st_pre, id as int, pos, dir_order(d as int), w as int, h as int);
                }
                let m = cands[d];
                proof {
                    assert(m == dir_order(d as int));
                }
                let p = pos.apply_mov(m);
                let inside = p.x >= 0 && p.x < w as i32 && p.y >= 0 && p.y < h as i32;
                proof {
                    assert(inside == in_bounds(w as int, h as int, p));
                    if inside {
                        lemma_rm_index(w as int, h as int, p.x as int, p.y as int);
                    }
                }
                if inside {
                    let idx: usize = (p.y as usize) * w + (p.x as usize);
                    if scratch[idx] == 0 {
                        scratch[idx] = (id as u8) + 1;
                        q.push((id, p));
                        proof {
                            assert(claim_code(id as int) == (id + 1) as u8);
                            assert(scratch@ =~= st_pre.0.update(
                                (p.y as int) * (w as int) + (p.x as int),
                                claim_code(id as int),
                            ));
                            assert(q@.map_values(|e: (usize, Point)| (e.0 as int, e.1))
                                =~= st_pre.1.push((id as int, p)));
                        }
                    }
                }
                proof {
                    let st_post = try_claim(st_pre, id as int, pos, dir_order(d as int), w as int, h as int);
                    assert((scratch@, q@.map_values(|e: (usize, Point)| (e.0 as int, e.1)))
                        == st_post);
                }
                d = d + 1;
            }
            proof {
                assert((scratch@, q@.map_values(|e: (usize, Point)| (e.0 as int, e.1))) == st4);
                assert(st4 == flood_step(a_in, q_in, id as int, pos, w as int, h as int));
                lemma_flood_step_counts(a_in, q_in, id as int, pos, w as int, h as int);
                assert(flood(a_in, q_in, qi as int, l_in, w as int, h as int) == flood(
                    st4.0,
                    st4.1,
                    qi as int + 1,
                    l_in.update(id as int, l_in[id as int] + 1),
                    w as int,
                    h as int,
                ));
                assert forall|t: int|
                    0 <= t < n implies l0[t] <= #[trigger] lengths@[t] as int <= l0[t] + (qi + 1)
                    by {
                    if t != id as int {
                        assert(lengths@[t] as int == l_in[t]);
                    }
                }
            }
            qi = qi + 1;
        }
        proof {
            assert(flood(
                scratch@,
                q@.map_values(|e: (usize, Point)| (e.0 as int, e.1)),
                qi as int,
                lengths@.map_values(|v: i64| v as int),
                w as int,
                h as int,
            ) == lengths@.map_values(|v: i64| v as int));
        }
        lengths
    }
}

impl MyEvaluator {
    /// Evaluates a fresh leaf state: one score per snake, the sum of
    /// its flood-fill territory, the turn's collision shaping, and the
    /// health / length-balance / death shaping.
    #[verifier::loop_isolation(false)]
    pub fn evaluate_new_state(&self, state: &SnakeGame) -> (r: Vec<i64>)
        requires
            state.board.wf(),
            forall|i: int|
                0 <= i < state@.board.snakes.len() ==> (
                #[trigger] state@.board.snakes[i]).body.len() <= EVAL_MAX && state@.board.snakes[i].length
                    <= EVAL_MAX,
            state@.board.collisions.len() <= EVAL_MAX,
        ensures
            r@.len() == state@.board.snakes.len(),
            r@.map_values(|v: i64| v as int) == eval_spec(state@.board),
    {
        let ghost b = state@.board;
        let board = state.board();
        let n = board.snakes().len();
        proof {
            reveal(crate::board::board_wf);
            assert(board@ == b);
            assert forall|i: int|
                0 <= i < board.snakes@.len() implies (#[trigger] board.snakes@[i])@.wf() && (
            !board.snakes@[i]@.is_dead() ==> in_bounds(
                board.matrice.width as int,
                board.matrice.height as int,
                board.snakes@[i]@.head,
            )) && board.snakes@[i]@.body.len() <= EVAL_MAX by {
                assert(board.snakes@[i]@ == b.snakes[i]);
                if !b.snakes[i].is_dead() {
                    let s = b.snakes[i];
                    assert(in_bounds(b.width, b.height, s.body[s.body.len() - 1]));
                }
            }
        }
        let area = Self::expand_conquer_array(board.matrice(), board.snakes());
        proof {
            assert(board.snakes@.map_values(|s: Snake| s@) == b.snakes);
            assert(board.matrice.array@ == b.matrix);
            assert(board.matrice.width as int == b.width);
            assert(board.matrice.height as int == b.height);
            assert(area@.map_values(|v: i64| v as int) == area_scores(b));
            lemma_count_zeros_le_len(b.matrix);
            crate::matrice::lemma_dims_fit(b.height, b.width);
        }

        // mean desired length of the alive snakes, rounded half up
        let mut sum_len: i64 = 0;
        let mut cnt: i64 = 0;
        let mut i: usize = 0;
        while i < n
            invariant
                0 <= i <= n,
                sum_len as int == alive_length_sum_upto(b.snakes, i as int),
                cnt as int == alive_count_upto(b.snakes, i as int),
                0 <= cnt <= i,
                0 <= sum_len,
                sum_len as int <= (i as int) * (EVAL_MAX as int),
            decreases n - i,
        {
            proof {
                assert(board.snakes@[i as int]@ == b.snakes[i as int]);
                assert((i as int + 1) * (EVAL_MAX as int) == (i as int) * (EVAL_MAX as int)
                    + EVAL_MAX) by (nonlinear_arith);
            }
            if !board.snakes()[i].is_dead() {
                let l = board.snakes()[i].length();
                sum_len = sum_len + (l as i64);
                cnt = cnt + 1;
            }
            i = i + 1;
        }
        proof {
            assert((n as int) * (EVAL_MAX as int) <= 255 * (EVAL_MAX as int)) by (nonlinear_arith)
                requires
                    n as int <= 255,
            ;
        }
        let avg: i64 = if cnt == 0 {
            0
        } else {
            (2 * sum_len + cnt) / (2 * cnt)
        };
        proof {
            assert(avg as int == mean_alive_length(b.snakes)) by {
                if cnt != 0 {
                    vstd::arithmetic::div_mod::lemma_div_is_ordered(
                        0,
                        2 * (sum_len as int) + (cnt as int),
                        2 * (cnt as int),
                    );
                    vstd::arithmetic::div_mod::lemma_div_is_ordered(
                        2 * (sum_len as int) + (cnt as int),
                        2 * 255 * (EVAL_MAX as int) + 255,
                        2 * (cnt as int),
                    );
                }
            }
            assert(0 <= avg as int <= 2 * 255 * (EVAL_MAX as int) + 255) by {
                if cnt != 0 {
                    let x = 2 * (sum_len as int) + (cnt as int);
                    let d = 2 * (cnt as int);
                    vstd::arithmetic::div_mod::lemma_div_is_ordered(0, x, d);
                    assert(0int / d == 0) by (nonlinear_arith)
                        requires
                            d >= 1,
                    ;
                    vstd::arithmetic::div_mod::lemma_div_is_ordered_by_denominator(x, 1, d);
                    assert(x / 1 == x) by (nonlinear_arith)
                        requires
                            x >= 0,
                    ;
                }
            }
        }

        // assemble the scores
        let cs = board.collisions();
        let ncs = cs.len();
        let mut out: Vec<i64> = Vec::new();
        let mut i: usize = 0;
        while i < n
            invariant
                0 <= i <= n,
                out@.len() == i,
                forall|k: int|
                    0 <= k < i ==> #[trigger] out@[k] as int == area_scores(b)[k]
                        + collision_score(b.collisions, k) + shaping_score(b, k),
            decreases n - i,
        {
            proof {
                assert(board.snakes@[i as int]@ == b.snakes[i as int]);
            }
            // collision shaping for snake i
            let mut coll: i64 = 0;
            let mut t: usize = 0;
            while t < ncs
                invariant
                    0 <= t <= ncs,
                    i < n,
                    coll as int == collision_score(b.collisions.take(t as int), i as int),
                    -200 * (t as int) <= coll as int <= 200 * (t as int),
                decreases ncs - t,
            {
                proof {
                    assert(b.collisions.take(t as int + 1).drop_last() =~= b.collisions.take(
                        t as int,
                    ));
                    assert(b.collisions.take(t as int + 1).last() == b.collisions[t as int]);
                    assert(200 * (t as int + 1) == 200 * (t as int) + 200) by (nonlinear_arith);
                    assert(-200 * (t as int + 1) == -200 * (t as int) - 200) by (nonlinear_arith);
                    assert(200 * (t as int) <= 200 * (EVAL_MAX as int)) by (nonlinear_arith)
                        requires
                            0 <= t as int <= EVAL_MAX as int,
                    ;
                }
                let c = &cs[t];
                let delta: i64 = match *c {
                    Collision::Wall { id } => if id == i {
                        -100
                    } else {
                        0
                    },
                    Collision::SelfBody { id } => if id == i {
                        -100
                    } else {
                        0
                    },
                    Collision::OtherBody { id_1, id_2, .. } => {
                        (if id_1 == i {
                            -100i64
                        } else {
                            0
                        }) + (if id_2 == i {
                            10
                        } else {
                            0
                        })
                    },
                    Collision::HeadToHead { src_length, dst_length, id_1, id_2, .. } => {
                        if src_length == dst_length {
                            (if id_1 == i {
                                -100i64
                            } else {
                                0
                            }) + (if id_2 == i {
                                -100i64
                            } else {
                                0
                            })
                        } else if src_length > dst_length {
                            (if id_1 == i {
                                10i64
                            } else {
                                0
                            }) + (if id_2 == i {
                                -100i64
                            } else {
                                0
                            })
                        } else {
                            (if id_1 == i {
                                -100i64
                            } else {
                                0
                            }) + (if id_2 == i {
                                10i64
                            } else {
                                0
                            })
                        }
                    },
                };
                proof {
                    assert(delta as int == collision_contrib(b.collisions[t as int], i as int));
                }
                coll = coll + delta;
                t = t + 1;
            }
            proof {
                assert(b.collisions.take(ncs as int) =~= b.collisions);
                assert(200 * (ncs as int) <= 200 * (EVAL_MAX as int)) by (nonlinear_arith)
                    requires
                        0 <= ncs as int <= EVAL_MAX as int,
                ;
            }

            // shaping: health offset, length balance, death penalty
            let shaping: i64 = if board.snakes()[i].is_dead() {
                -100
            } else {
                let health = board.snakes()[i].health();
                let l = board.snakes()[i].length() as i64;
                let diff = l - avg;
                let balance = if diff >= 0 {
                    diff
                } else {
                    -diff
                };
                (health as i64) - ((DEFAULT_SNAKE_HEALTH + 1) / 2) as i64 - balance
            };
            proof {
                assert(shaping as int == shaping_score(b, i as int));
            }

            // territory: bound it so the sum stays in range
            let a_i = area[i];
            proof {
                lemma_flood_bound(
                    b.matrix,
                    alive_heads_upto(b.snakes, b.snakes.len() as int),
                    0,
                    init_credits(b.snakes),
                    b.width,
                    b.height,
                    i as int,
                );
                lemma_alive_heads_len(b.snakes, b.snakes.len() as int);
                assert(init_credits(b.snakes)[i as int] <= EVAL_MAX as int);
                assert(0 <= a_i as int);
                assert(a_i as int <= EVAL_MAX as int + 255 + MAX_DIM * MAX_DIM);
            }
            out.push(a_i + coll + shaping);
            i = i + 1;
        }
        proof {
            reveal(eval_spec);
            assert(out@.map_values(|v: i64| v as int) =~= eval_spec(b));
        }
        out
    }

    /// Re-uses a cached evaluation unchanged.
    pub fn evaluate_existing_state(&self, existing_evaln: &Vec<i64>) -> (r: Vec<i64>)
        ensures
            r@ == existing_evaln@,
    {
        let mut out: Vec<i64> = Vec::new();
        let n = existing_evaln.len();
        let mut i: usize = 0;
        while i < n
            invariant
                n == existing_evaln@.len(),
                0 <= i <= n,
                out@ =~= existing_evaln@.take(i as int),
            decreases n - i,
        {
            out.push(existing_evaln[i]);
            i = i + 1;
        }
        proof {
            assert(out@ =~= existing_evaln@);
        }
        out
    }

    /// The scalar a score vector is worth to `player`: its own score
    /// minus half the other snakes' total, clamped into `i64`.
    #[verifier::loop_isolation(false)]
    pub fn interpret_evaluation_for_player(&self, evaluation: &Vec<i64>, player: usize) -> (r: i64)
        requires
            player < evaluation@.len(),
            evaluation@.len() <= EVAL_MAX,
        ensures
            r as int == interpret_spec(evaluation@, player as int),
    {
        let n = evaluation.len();
        let mut sum: i128 = 0;
        let mut i: usize = 0;
        while i < n
            invariant
                0 <= i <= n,
                sum as int == sum_scores(evaluation@.take(i as int)),
                -(i as int) * 0x8000000000000000 <= sum as int <= (i as int) * 0x8000000000000000,
            decreases n - i,
        {
            proof {
                assert(evaluation@.take(i as int + 1).drop_last() =~= evaluation@.take(i as int));
                assert(evaluation@.take(i as int + 1).last() == evaluation@[i as int]);
                assert((i as int + 1) * 0x8000000000000000 == (i as int) * 0x8000000000000000
                    + 0x8000000000000000) by (nonlinear_arith);
                assert((i as int) * 0x8000000000000000 <= (EVAL_MAX as int) * 0x8000000000000000)
                    by (nonlinear_arith)
                    requires
                        0 <= i as int <= EVAL_MAX as int,
                ;
            }
            sum = sum + (evaluation[i] as i128);
            i = i + 1;
        }
        proof {
            assert(evaluation@.take(n as int) =~= evaluation@);
            assert((n as int) * 0x8000000000000000 <= (EVAL_MAX as int) * 0x8000000000000000)
                by (nonlinear_arith)
                requires
                    0 <= n as int <= EVAL_MAX as int,
            ;
        }
        let own = evaluation[player] as i128;
        let others = sum - own;
        let half = if others >= 0 {
            others / 2
        } else {
            -((-others) / 2)
        };
        let diff = own - half;
        proof {
            assert(half as int == div2_toward_zero(others as int));
        }
        if diff > i64::MAX as i128 {
            i64::MAX
        } else if diff < i64::MIN as i128 {
            i64::MIN
        } else {
            diff as i64
        }
    }
}

/// The seed queue is never longer than the snake vector.
pub proof fn lemma_alive_heads_len(ss: Seq<SnakeV>, n: int)
    requires
        0 <= n <= ss.len(),
    ensures
        alive_heads_upto(ss, n).len() <= n,
    decreases n,
{
    if n > 0 {
        lemma_alive_heads_len(ss, n - 1);
    }
}

/// Sums of score vectors that agree except at one index differ by the
/// difference at that index.
pub proof fn lemma_sum_scores_pointwise(e1: Seq<i64>, e2: Seq<i64>, p: int)
    requires
        e1.len() == e2.len(),
        0 <= p < e1.len(),
        forall|j: int| 0 <= j < e1.len() && j != p ==> e1[j] == e2[j],
    ensures
        sum_scores(e2) == sum_scores(e1) + (e2[p] - e1[p]),
    decreases e1.len(),
{
    if e1.len() > 0 {
        if p == e1.len() - 1 {
            assert(sum_scores(e1.drop_last()) == sum_scores(e2.drop_last())) by {
                lemma_sum_scores_same(e1.drop_last(), e2.drop_last());
            }
        } else {
            lemma_sum_scores_pointwise(e1.drop_last(), e2.drop_last(), p);
        }
    }
}

/// Equal score vectors have equal sums.
pub proof fn lemma_sum_scores_same(e1: Seq<i64>, e2: Seq<i64>)
    requires
        e1.len() == e2.len(),
        forall|j: int| 0 <= j < e1.len() ==> e1[j] == e2[j],
    ensures
        sum_scores(e1) == sum_scores(e2),
{
    assert(e1 =~= e2);
}

/// The scalar for a player never shrinks when that player's own score
/// grows and every other score stays put: territory enters a snake's
/// own score one cell at a time, so the scalar is monotone in its
/// territory, all else equal.
pub proof fn lemma_interpret_monotone(e1: Seq<i64>, e2: Seq<i64>, player: int)
    requires
        e1.len() == e2.len(),
        0 <= player < e1.len(),
        e1[player] <= e2[player],
        forall|j: int| 0 <= j < e1.len() && j != player ==> e1[j] == e2[j],
    ensures
        interpret_spec(e1, player) <= interpret_spec(e2, player),
{
    lemma_sum_scores_pointwise(e1, e2, player);
    let o1 = sum_scores(e1) - e1[player];
    let o2 = sum_scores(e2) - e2[player];
    assert(o1 == o2);
}

} // verus!
