//! The Monte-Carlo tree search engine: an arena of nodes indexed by
//! integer handles, UCB1 edge selection in fixed-point arithmetic, lazy
//! expansion, and robust-child selection at the end of the search.

use vstd::prelude::*;

use crate::evaluator::{eval_spec, interpret_spec, MyEvaluator, EVAL_MAX};
use crate::game::{available_moves_spec, SnakeGame};
use crate::movement::Movement;

verus! {

/// Hard cap on completed playouts of one tree: keeps every visit count
/// and reward sum comfortably inside the fixed-width counters.
pub const MAX_PLAYOUTS: u64 = 0x10000000000;

/// Magnitude bound of one backpropagated reward.
pub const REWARD_BOUND: i128 = 0x8000000000000000;

/// The floor of the base-two logarithm.
#[verifier::opaque]
pub open spec fn ilog2_spec(n: int) -> int
    decreases n,
{
    if n < 2 {
        0
    } else {
        1 + ilog2_spec(n / 2)
    }
}

/// The floor of the square root.
#[verifier::opaque]
pub open spec fn isqrt_spec(n: int) -> int
    decreases n,
{
    if n <= 0 {
        0
    } else {
        let r = isqrt_spec(n - 1);
        if (r + 1) * (r + 1) <= n {
            r + 1
        } else {
            r
        }
    }
}

/// `isqrt_spec` really is the integer square root.
#[verifier::rlimit(50)]
pub proof fn lemma_isqrt_spec_bounds(n: int)
    requires
        n >= 0,
    ensures
        isqrt_spec(n) >= 0,
        isqrt_spec(n) * isqrt_spec(n) <= n,
        n < (isqrt_spec(n) + 1) * (isqrt_spec(n) + 1),
    decreases n,
{
    reveal(isqrt_spec);
    if n == 0 {
        assert(isqrt_spec(0) == 0);
        assert(n < (isqrt_spec(n) + 1) * (isqrt_spec(n) + 1)) by (nonlinear_arith)
            requires
                n == 0,
                isqrt_spec(n) == 0,
        ;
    } else {
        lemma_isqrt_spec_bounds(n - 1);
        let r = isqrt_spec(n - 1);
        let s = isqrt_spec(n);
        assert(r >= 0);
        assert(r * r <= n - 1);
        assert(n - 1 < (r + 1) * (r + 1));
        if (r + 1) * (r + 1) <= n {
            assert(s == r + 1);
            assert(s * s <= n);
            assert(n < (s + 1) * (s + 1)) by (nonlinear_arith)
                requires
                    s == r + 1,
                    n <= (r + 1) * (r + 1),
                    r >= 0,
            ;
        } else {
            assert(s == r);
            assert(s * s <= n);
            assert(n < (s + 1) * (s + 1));
        }
        assert(n < (isqrt_spec(n) + 1) * (isqrt_spec(n) + 1));
        assert(isqrt_spec(n) * isqrt_spec(n) <= n);
    }
}

/// Integer square roots are unique.
pub proof fn lemma_isqrt_unique(n: int, r: int)
    requires
        n >= 0,
        r >= 0,
        r * r <= n,
        n < (r + 1) * (r + 1),
    ensures
        r == isqrt_spec(n),
{
    reveal(isqrt_spec);
    lemma_isqrt_spec_bounds(n);
    let s = isqrt_spec(n);
    assert(r == s) by (nonlinear_arith)
        requires
            r >= 0,
            s >= 0,
            r * r <= n,
            n < (r + 1) * (r + 1),
            s * s <= n,
            n < (s + 1) * (s + 1),
    ;
}

/// Division truncating toward zero, as the machine division does.
#[verifier::opaque]
pub open spec fn trunc_div(a: int, b: int) -> int {
    if a >= 0 {
        a / b
    } else {
        -((-a) / b)
    }
}

/// Natural logarithm scaled by 1024, approximated from the base-two
/// logarithm (`ln 2 * 1024` is about `710`).
#[verifier::opaque]
pub open spec fn ln_1024(n: int) -> int {
    ilog2_spec(n) * 710
}

/// The UCB1 priority of an edge, in thousandths: mean reward plus
/// `c * sqrt(ln(parent) / visits)`, computed in integer arithmetic.
#[verifier::opaque]
pub open spec fn ucb_milli(sum: int, visits: int, parent_visits: int, c_milli: int) -> int {
    let q = trunc_div(sum * 1000, visits);
    let ratio = (ln_1024(parent_visits) * 1000000) / (1024 * visits);
    let explore = (c_milli * isqrt_spec(ratio)) / 1000;
    q + explore
}

/// One outgoing edge of a node: the move it plays, the child it leads
/// to once expanded, and its visit statistics.
pub struct MoveEdge {
    pub mov: Movement,
    pub child: Option<usize>,
    pub visits: u64,
    pub sum_rewards: i128,
}

/// One node of the search tree: the game state it stands for, its
/// outgoing edges, and how often playouts passed through it.
pub struct Node {
    pub state: SnakeGame,
    pub edges: Vec<MoveEdge>,
    pub visits: u64,
}

/// The shared search tree: an arena of nodes, the root at handle `0`.
pub struct SearchTree {
    pub nodes: Vec<Node>,
    pub playouts: u64,
    pub exploration_milli: u64,
}

/// Statistics invariant of one edge: visits no higher than its node's,
/// reward sum bounded by one reward per visit, child handle pointing
/// strictly forward in the arena.
pub open spec fn edge_wf(e: MoveEdge, idx: int, total: int, node_visits: u64) -> bool {
    &&& e.visits <= node_visits
    &&& -(e.visits as int) * REWARD_BOUND <= e.sum_rewards as int <= (e.visits as int)
        * REWARD_BOUND
    &&& (e.child matches Some(c) ==> idx < c < total)
}

/// Invariant of one node: a sound game state, visit counts within the
/// playout cap, edges carrying exactly the state's available moves.
#[verifier::opaque]
pub open spec fn node_wf(n: Node, idx: int, total: int) -> bool {
    &&& n.state.wf()
    &&& n.visits <= MAX_PLAYOUTS
    &&& n.edges@.map_values(|e: MoveEdge| e.mov) == available_moves_spec(
        n.state@.board,
        n.state@.current_player,
    )
    &&& forall|k: int| 0 <= k < n.edges@.len() ==> edge_wf(#[trigger] n.edges@[k], idx, total, n.visits)
}

/// Invariant of the whole tree.
pub open spec fn tree_wf(t: SearchTree) -> bool {
    &&& 1 <= t.nodes@.len()
    &&& t.playouts <= MAX_PLAYOUTS
    &&& t.exploration_milli <= 1000000
    &&& forall|i: int|
        0 <= i < t.nodes@.len() ==> node_wf(#[trigger] t.nodes@[i], i, t.nodes@.len() as int)
}

/// The moves of a node's edges.
pub open spec fn edge_moves(edges: Seq<MoveEdge>) -> Seq<Movement> {
    edges.map_values(|e: MoveEdge| e.mov)
}

/// The floor of the base-two logarithm of a positive number.
#[verifier::loop_isolation(false)]
fn ilog2(n: u64) -> (r: u64)
    requires
        n >= 1,
    ensures
        r as int == ilog2_spec(n as int),
        r <= 63,
{
    let mut v: u64 = n;
    let mut r: u64 = 0;
    proof {
        reveal(ilog2_spec);
        vstd::arithmetic::power2::lemma2_to64();
    }
    while v >= 2
        invariant
            1 <= v <= n,
            ilog2_spec(n as int) == r + ilog2_spec(v as int),
            (vstd::arithmetic::power2::pow2(r as nat) as int) * (v as int) <= n as int,
            r <= 63,
        decreases v,
    {
        proof {
            reveal(ilog2_spec);
            assert(ilog2_spec(v as int) == 1 + ilog2_spec(v as int / 2));
            vstd::arithmetic::power2::lemma_pow2_unfold((r + 1) as nat);
            let p = vstd::arithmetic::power2::pow2(r as nat) as int;
            assert((2 * p) * ((v as int) / 2) <= p * (v as int)) by (nonlinear_arith)
                requires
                    p >= 0,
                    v as int >= 2,
            ;
            assert(r + 1 <= 63) by {
                if r + 1 > 63 {
                    assert(r == 63);
                    let p63 = vstd::arithmetic::power2::pow2(63) as int;
                    assert(p63 == 0x8000000000000000);
                    assert(p63 * (v as int) >= p63 * 2) by (nonlinear_arith)
                        requires
                            v as int >= 2,
                            p63 >= 0,
                    ;
                    assert(false);
                }
            }
        }
        v = v / 2;
        r = r + 1;
    }
    r
}

/// The floor of the square root, by bisection.
#[verifier::loop_isolation(false)]
fn isqrt(n: u64) -> (r: u64)
    ensures
        r as int == isqrt_spec(n as int),
{
    let mut lo: u64 = 0;
    let mut hi: u64 = 0x100000000;
    proof {
        assert((0x100000000int) * 0x100000000 > n) by (nonlinear_arith)
            requires
                n <= 0xffffffffffffffffu64,
        ;
    }
    while lo + 1 < hi
        invariant
            lo < hi <= 0x100000000,
            (lo as int) * (lo as int) <= n,
            (n as int) < (hi as int) * (hi as int),
        decreases hi - lo,
    {
        let mid = lo + (hi - lo) / 2;
        proof {
            assert(lo < mid < hi);
        }
        if mid <= 0xffffffff {
            proof {
                assert((mid as int) * (mid as int) < 0x10000000000000000) by (nonlinear_arith)
                    requires
                        0 <= mid as int <= 0xffffffff,
                ;
            }
            if mid * mid <= n {
                lo = mid;
            } else {
                hi = mid;
            }
        } else {
            proof {
                assert((mid as int) * (mid as int) > n) by (nonlinear_arith)
                    requires
                        mid as int >= 0x100000000,
                        n <= 0xffffffffffffffffu64,
                ;
            }
            hi = mid;
        }
    }
    proof {
        lemma_isqrt_unique(n as int, lo as int);
    }
    lo
}

/// The UCB1 priority of a visited edge, in thousandths.
#[verifier::loop_isolation(false)]
fn ucb_exec(sum: i128, visits: u64, parent_visits: u64, c_milli: u64) -> (r: i128)
    requires
        1 <= visits,
        visits <= parent_visits,
        parent_visits <= MAX_PLAYOUTS,
        c_milli <= 1000000,
        -(visits as int) * REWARD_BOUND <= sum as int <= (visits as int) * REWARD_BOUND,
    ensures
        r as int == ucb_milli(sum as int, visits as int, parent_visits as int, c_milli as int),
{
    proof {
        reveal(ucb_milli);
        reveal(trunc_div);
        reveal(ln_1024);
        assert((visits as int) * REWARD_BOUND <= (MAX_PLAYOUTS as int) * REWARD_BOUND)
            by (nonlinear_arith)
            requires
                1 <= visits as int <= MAX_PLAYOUTS as int,
        ;
        assert((MAX_PLAYOUTS as int) * REWARD_BOUND * 1000 < 0x80000000000000000000000000000000)
            by (nonlinear_arith);
    }
    let q: i128 = if sum >= 0 {
        (sum * 1000) / (visits as i128)
    } else {
        -((-(sum * 1000)) / (visits as i128))
    };
    proof {
        assert(q as int == trunc_div((sum as int) * 1000, visits as int)) by {
            if sum >= 0 {
            } else {
                assert((-(sum as int)) * 1000 == -((sum as int) * 1000)) by (nonlinear_arith);
            }
        }
        vstd::arithmetic::div_mod::lemma_div_is_ordered_by_denominator(
            (if sum >= 0 {
                sum as int
            } else {
                -(sum as int)
            }) * 1000,
            1,
            visits as int,
        );
    }
    let lg = ilog2(parent_visits);
    let ln_scaled: u64 = lg * 710;
    let ratio: u64 = ((ln_scaled as u128 * 1000000) / (1024 * (visits as u128))) as u64;
    proof {
        assert((ln_scaled as int) * 1000000 <= 63int * 710 * 1000000) by (nonlinear_arith)
            requires
                ln_scaled as int <= 63 * 710,
        ;
        vstd::arithmetic::div_mod::lemma_div_is_ordered_by_denominator(
            (ln_scaled as int) * 1000000,
            1024,
            1024 * (visits as int),
        );
        vstd::arithmetic::div_mod::lemma_div_is_ordered(
            0,
            (ln_scaled as int) * 1000000,
            1024 * (visits as int),
        );
    }
    let root = isqrt(ratio);
    proof {
        lemma_isqrt_spec_bounds(ratio as int);
        assert(isqrt_spec(ratio as int) <= ratio as int) by (nonlinear_arith)
            requires
                isqrt_spec(ratio as int) >= 0,
                isqrt_spec(ratio as int) * isqrt_spec(ratio as int) <= ratio as int,
        ;
        assert((c_milli as int) * (root as int) <= 1000000int * 0xffffffffffffffff)
            by (nonlinear_arith)
            requires
                c_milli as int <= 1000000,
                0 <= root as int <= 0xffffffffffffffffu64,
        ;
    }
    let explore: i128 = ((c_milli as i128) * (root as i128)) / 1000;
    proof {
        vstd::arithmetic::div_mod::lemma_div_is_ordered(
            0,
            (c_milli as int) * (root as int),
            1000,
        );
        vstd::arithmetic::div_mod::lemma_div_is_ordered_by_denominator(
            (c_milli as int) * (root as int),
            1,
            1000,
        );
    }
    q + explore
}

/// The edge a playout follows from a node: the first unvisited edge if
/// any, otherwise the first edge of maximal UCB1 priority.
#[verifier::loop_isolation(false)]
fn select_edge(edges: &Vec<MoveEdge>, parent_visits: u64, c_milli: u64) -> (r: usize)
    requires
        edges@.len() >= 1,
        parent_visits <= MAX_PLAYOUTS,
        c_milli <= 1000000,
        forall|k: int|
            0 <= k < edges@.len() ==> (#[trigger] edges@[k]).visits <= parent_visits && -(
            edges@[k].visits as int) * REWARD_BOUND <= edges@[k].sum_rewards as int <= (
            edges@[k].visits as int) * REWARD_BOUND,
    ensures
        r < edges@.len(),
        (exists|k: int| 0 <= k < edges@.len() && (#[trigger] edges@[k]).visits == 0) ==> (
        edges@[r as int].visits == 0 && forall|k: int|
            0 <= k < r ==> (#[trigger] edges@[k]).visits > 0),
        (forall|k: int| 0 <= k < edges@.len() ==> (#[trigger] edges@[k]).visits > 0) ==> (forall|
            k: int,
        |
            0 <= k < edges@.len() ==> ucb_milli(
                (#[trigger] edges@[k]).sum_rewards as int,
                edges@[k].visits as int,
                parent_visits as int,
                c_milli as int,
            ) <= ucb_milli(
                edges@[r as int].sum_rewards as int,
                edges@[r as int].visits as int,
                parent_visits as int,
                c_milli as int,
            )) && (forall|k: int|
            0 <= k < r ==> ucb_milli(
                (#[trigger] edges@[k]).sum_rewards as int,
                edges@[k].visits as int,
                parent_visits as int,
                c_milli as int,
            ) < ucb_milli(
                edges@[r as int].sum_rewards as int,
                edges@[r as int].visits as int,
                parent_visits as int,
                c_milli as int,
            )),
{
    let n = edges.len();
    let mut k: usize = 0;
    while k < n
        invariant
            0 <= k <= n,
            forall|t: int| 0 <= t < k ==> (#[trigger] edges@[t]).visits > 0,
        decreases n - k,
    {
        if edges[k].visits == 0 {
            return k;
        }
        k = k + 1;
    }
    let mut best: usize = 0;
    let mut best_score: i128 = ucb_exec(
        edges[0].sum_rewards,
        edges[0].visits,
        parent_visits,
        c_milli,
    );
    let mut k: usize = 1;
    while k < n
        invariant
            1 <= k <= n,
            best < k,
            forall|t: int| 0 <= t < n ==> (#[trigger] edges@[t]).visits > 0,
            best_score as int == ucb_milli(
                edges@[best as int].sum_rewards as int,
                edges@[best as int].visits as int,
                parent_visits as int,
                c_milli as int,
            ),
            forall|t: int|
                0 <= t < k ==> ucb_milli(
                    (#[trigger] edges@[t]).sum_rewards as int,
                    edges@[t].visits as int,
                    parent_visits as int,
                    c_milli as int,
                ) <= best_score as int,
            forall|t: int|
                0 <= t < best ==> ucb_milli(
                    (#[trigger] edges@[t]).sum_rewards as int,
                    edges@[t].visits as int,
                    parent_visits as int,
                    c_milli as int,
                ) < best_score as int,
        decreases n - k,
    {
        let sc = ucb_exec(edges[k].sum_rewards, edges[k].visits, parent_visits, c_milli);
        if sc > best_score {
            best = k;
            best_score = sc;
        }
        k = k + 1;
    }
    best
}


/// Thin wrapper for callers that only need a valid edge index; the
/// UCB1 selection contract lives on `select_edge` itself.
fn select_edge_index(edges: &Vec<MoveEdge>, parent_visits: u64, c_milli: u64) -> (r: usize)
    requires
        edges@.len() >= 1,
        parent_visits <= MAX_PLAYOUTS,
        c_milli <= 1000000,
        forall|k: int|
            0 <= k < edges@.len() ==> (#[trigger] edges@[k]).visits <= parent_visits && -(
            edges@[k].visits as int) * REWARD_BOUND <= edges@[k].sum_rewards as int <= (
            edges@[k].visits as int) * REWARD_BOUND,
    ensures
        r < edges@.len(),
{
    select_edge(edges, parent_visits, c_milli)
}

/// Applies one search transition; the tree only needs the state to stay
/// sound, the full transition contract lives on `SnakeGame::make_move`.
fn apply_search_move(st: &mut SnakeGame, m: Movement)
    requires
        old(st).wf(),
        forall|i: int|
            0 <= i < old(st)@.board.snakes.len() && !old(st)@.board.snakes[i].is_dead() ==> (
            #[trigger] old(st)@.board.snakes[i]).length < usize::MAX,
    ensures
        final(st).wf(),
{
    st.make_move(m);
}

/// The reward one playout backs up: the evaluator's scalar for the
/// designated player, or zero for a state too large to score.
fn leaf_reward(state: &SnakeGame) -> (r: i64)
    requires
        state.wf(),
{
    proof {
        reveal(SnakeGame::wf);
        reveal(crate::board::board_wf);
    }
    if state_bounds_ok(state) {
        let eval = MyEvaluator;
        let ev = eval.evaluate_new_state(&state);
        let player = state.current_player();
        eval.interpret_evaluation_for_player(&ev, player)
    } else {
        0
    }
}

/// A root edge's move is one of the root position's available moves.
proof fn lemma_member_from_moves(t: SearchTree, k: int, m: Movement)
    requires
        tree_wf(t),
        0 <= k < t.nodes@[0].edges@.len(),
        m == t.nodes@[0].edges@[k].mov,
    ensures
        available_moves_spec(
            t.nodes@[0].state@.board,
            t.nodes@[0].state@.current_player,
        ).contains(m),
{
    lemma_node_moves(t, 0);
    let ms = edge_moves(t.nodes@[0].edges@);
    assert(ms[k] == m);
    assert(ms.contains(m));
}

/// Just the move list of one node, from the tree invariant.
pub proof fn lemma_node_moves(t: SearchTree, i: int)
    requires
        tree_wf(t),
        0 <= i < t.nodes@.len(),
    ensures
        t.nodes@[i].state.wf(),
        edge_moves(t.nodes@[i].edges@) == available_moves_spec(
            t.nodes@[i].state@.board,
            t.nodes@[i].state@.current_player,
        ),
{
    reveal(node_wf);
    assert(node_wf(t.nodes@[i], i, t.nodes@.len() as int));
}

/// A tree stays well formed when one node's visit counter rises by one
/// within the cap and nothing else changes.
proof fn lemma_touch_wf(t0: SearchTree, t1: SearchTree, ni: int)
    requires
        tree_wf(t0),
        0 <= ni < t0.nodes@.len(),
        t0.nodes@[ni].visits < MAX_PLAYOUTS,
        t1.nodes@ == t0.nodes@.update(
            ni,
            Node {
                visits: (t0.nodes@[ni].visits + 1) as u64,
                state: t0.nodes@[ni].state,
                edges: t0.nodes@[ni].edges,
            },
        ),
        t1.playouts == t0.playouts,
        t1.exploration_milli == t0.exploration_milli,
    ensures
        tree_wf(t1),
        t1.nodes@[0].state == t0.nodes@[0].state,
        edge_moves(t1.nodes@[0].edges@) == edge_moves(t0.nodes@[0].edges@),
{
    reveal(node_wf);
    assert forall|i: int| 0 <= i < t1.nodes@.len() implies node_wf(
        #[trigger] t1.nodes@[i],
        i,
        t1.nodes@.len() as int,
    ) by {
        assert(node_wf(t0.nodes@[i], i, t0.nodes@.len() as int));
        if i == ni {
            assert forall|k: int| 0 <= k < t1.nodes@[i].edges@.len() implies edge_wf(
                #[trigger] t1.nodes@[i].edges@[k],
                i,
                t1.nodes@.len() as int,
                t1.nodes@[i].visits,
            ) by {
                assert(edge_wf(
                    t0.nodes@[i].edges@[k],
                    i,
                    t0.nodes@.len() as int,
                    t0.nodes@[i].visits,
                ));
            }
        }
    }
}

/// A tree stays well formed when one edge gains a visit and a bounded
/// reward, with the edge's visits staying within its node's.
proof fn lemma_edge_touch_wf(t0: SearchTree, t1: SearchTree, ni: int, ei: int, reward: i64)
    requires
        tree_wf(t0),
        0 <= ni < t0.nodes@.len(),
        0 <= ei < t0.nodes@[ni].edges@.len(),
        t0.nodes@[ni].edges@[ei].visits < t0.nodes@[ni].visits,
        t1.nodes@ == t0.nodes@.update(
            ni,
            Node {
                visits: t0.nodes@[ni].visits,
                state: t0.nodes@[ni].state,
                edges: t1.nodes@[ni].edges,
            },
        ),
        t1.nodes@[ni].edges@ == t0.nodes@[ni].edges@.update(
            ei,
            MoveEdge {
                mov: t0.nodes@[ni].edges@[ei].mov,
                child: t0.nodes@[ni].edges@[ei].child,
                visits: (t0.nodes@[ni].edges@[ei].visits + 1) as u64,
                sum_rewards: (t0.nodes@[ni].edges@[ei].sum_rewards + reward as i128) as i128,
            },
        ),
        t1.playouts == t0.playouts,
        t1.exploration_milli == t0.exploration_milli,
    ensures
        tree_wf(t1),
        t1.nodes@[0].state == t0.nodes@[0].state,
        edge_moves(t1.nodes@[0].edges@) == edge_moves(t0.nodes@[0].edges@),
{
    reveal(node_wf);
    assert forall|i: int| 0 <= i < t1.nodes@.len() implies node_wf(
        #[trigger] t1.nodes@[i],
        i,
        t1.nodes@.len() as int,
    ) by {
        assert(node_wf(t0.nodes@[i], i, t0.nodes@.len() as int));
        if i == ni {
            assert(edge_moves(t1.nodes@[i].edges@) =~= edge_moves(t0.nodes@[i].edges@));
            assert forall|k: int| 0 <= k < t1.nodes@[i].edges@.len() implies edge_wf(
                #[trigger] t1.nodes@[i].edges@[k],
                i,
                t1.nodes@.len() as int,
                t1.nodes@[i].visits,
            ) by {
                assert(edge_wf(
                    t0.nodes@[i].edges@[k],
                    i,
                    t0.nodes@.len() as int,
                    t0.nodes@[i].visits,
                ));
                if k == ei {
                    let oev = t0.nodes@[i].edges@[k].visits as int;
                    assert((oev + 1) * REWARD_BOUND == oev * REWARD_BOUND + REWARD_BOUND)
                        by (nonlinear_arith);
                }
            }
        }
    }
    assert(edge_moves(t1.nodes@[0].edges@) =~= edge_moves(t0.nodes@[0].edges@));
}

/// A tree stays well formed when a fresh unvisited node is appended and
/// one previously childless edge is wired to it.
proof fn lemma_expand_wf(t0: SearchTree, t1: SearchTree, cur: int, e: int)
    requires
        tree_wf(t0),
        t0.nodes@.len() < usize::MAX,
        0 <= cur < t0.nodes@.len(),
        0 <= e < t0.nodes@[cur].edges@.len(),
        t1.playouts == t0.playouts,
        t1.exploration_milli == t0.exploration_milli,
        t1.nodes@.len() == t0.nodes@.len() + 1,
        t1.nodes@[t0.nodes@.len() as int].state.wf(),
        t1.nodes@[t0.nodes@.len() as int].visits == 0,
        edge_moves(t1.nodes@[t0.nodes@.len() as int].edges@) == available_moves_spec(
            t1.nodes@[t0.nodes@.len() as int].state@.board,
            t1.nodes@[t0.nodes@.len() as int].state@.current_player,
        ),
        forall|k: int|
            0 <= k < t1.nodes@[t0.nodes@.len() as int].edges@.len() ==> (#[trigger] t1.nodes@[t0.nodes@.len() as int].edges@[k]).child is None
                && t1.nodes@[t0.nodes@.len() as int].edges@[k].visits == 0
                && t1.nodes@[t0.nodes@.len() as int].edges@[k].sum_rewards == 0,
        forall|i: int|
            0 <= i < t0.nodes@.len() && i != cur ==> #[trigger] t1.nodes@[i] == t0.nodes@[i],
        t1.nodes@[cur].state == t0.nodes@[cur].state,
        t1.nodes@[cur].visits == t0.nodes@[cur].visits,
        t1.nodes@[cur].edges@.len() == t0.nodes@[cur].edges@.len(),
        forall|k: int|
            0 <= k < t0.nodes@[cur].edges@.len() && k != e ==> #[trigger] t1.nodes@[cur].edges@[k]
                == t0.nodes@[cur].edges@[k],
        t1.nodes@[cur].edges@[e] == (MoveEdge {
            mov: t0.nodes@[cur].edges@[e].mov,
            child: Some(t0.nodes@.len() as usize),
            visits: t0.nodes@[cur].edges@[e].visits,
            sum_rewards: t0.nodes@[cur].edges@[e].sum_rewards,
        }),
    ensures
        tree_wf(t1),
        t1.nodes@[0].state == t0.nodes@[0].state,
        edge_moves(t1.nodes@[0].edges@) == edge_moves(t0.nodes@[0].edges@),
{
    reveal(node_wf);
    let total0 = t0.nodes@.len() as int;
    assert forall|i: int| 0 <= i < t1.nodes@.len() implies node_wf(
        #[trigger] t1.nodes@[i],
        i,
        t1.nodes@.len() as int,
    ) by {
        if i < total0 {
            assert(node_wf(t0.nodes@[i], i, total0));
            if i == cur {
                assert(edge_moves(t1.nodes@[i].edges@) =~= edge_moves(t0.nodes@[i].edges@));
                assert forall|k: int| 0 <= k < t1.nodes@[i].edges@.len() implies edge_wf(
                    #[trigger] t1.nodes@[i].edges@[k],
                    i,
                    t1.nodes@.len() as int,
                    t1.nodes@[i].visits,
                ) by {
                    assert(edge_wf(t0.nodes@[i].edges@[k], i, total0, t0.nodes@[i].visits));
                    if k == e {
                        assert(t1.nodes@[i].edges@[k].child == Some(total0 as usize));
                        assert(i < total0 < t1.nodes@.len());
                    }
                }
            } else {
                assert forall|k: int| 0 <= k < t1.nodes@[i].edges@.len() implies edge_wf(
                    #[trigger] t1.nodes@[i].edges@[k],
                    i,
                    t1.nodes@.len() as int,
                    t1.nodes@[i].visits,
                ) by {
                    assert(edge_wf(t0.nodes@[i].edges@[k], i, total0, t0.nodes@[i].visits));
                }
            }
        } else {
            assert(i == total0);
            assert forall|k: int| 0 <= k < t1.nodes@[i].edges@.len() implies edge_wf(
                #[trigger] t1.nodes@[i].edges@[k],
                i,
                t1.nodes@.len() as int,
                t1.nodes@[i].visits,
            ) by {}
        }
    }
    assert(edge_moves(t1.nodes@[0].edges@) =~= edge_moves(t0.nodes@[0].edges@));
}

/// What well-formedness of the tree gives for one node, without
/// exposing the whole invariant to the caller.
pub proof fn lemma_node_facts(t: SearchTree, i: int)
    requires
        tree_wf(t),
        0 <= i < t.nodes@.len(),
    ensures
        t.nodes@[i].state.wf(),
        t.nodes@[i].visits <= MAX_PLAYOUTS,
        edge_moves(t.nodes@[i].edges@) == available_moves_spec(
            t.nodes@[i].state@.board,
            t.nodes@[i].state@.current_player,
        ),
        forall|k: int|
            0 <= k < t.nodes@[i].edges@.len() ==> (#[trigger] t.nodes@[i].edges@[k]).visits
                <= t.nodes@[i].visits && -(t.nodes@[i].edges@[k].visits as int) * REWARD_BOUND
                <= t.nodes@[i].edges@[k].sum_rewards as int <= (
            t.nodes@[i].edges@[k].visits as int) * REWARD_BOUND && (t.nodes@[i].edges@[k].child
                matches Some(c) ==> i < c < t.nodes@.len()),
{
    reveal(node_wf);
    assert(node_wf(t.nodes@[i], i, t.nodes@.len() as int));
    assert forall|k: int|
        0 <= k < t.nodes@[i].edges@.len() implies (#[trigger] t.nodes@[i].edges@[k]).visits
            <= t.nodes@[i].visits && -(t.nodes@[i].edges@[k].visits as int) * REWARD_BOUND
            <= t.nodes@[i].edges@[k].sum_rewards as int <= (t.nodes@[i].edges@[k].visits as int)
            * REWARD_BOUND && (t.nodes@[i].edges@[k].child matches Some(c) ==> i < c
            < t.nodes@.len()) by {
        assert(edge_wf(
            t.nodes@[i].edges@[k],
            i,
            t.nodes@.len() as int,
            t.nodes@[i].visits,
        ));
    }
}

/// What the search does when a simulated path re-enters a state.
#[derive(PartialEq, Eq, Structural, Debug, Clone, Copy)]
pub enum CycleBehaviour {
    /// Cycles are ignored; playout length bounds runaway depth.
    Ignore,
    /// A cached evaluation is reused instead of re-evaluating.
    UseCurrentEvalWhenCycleDetected,
}

/// The search configuration: the fixed policy constants of the engine.
pub struct MyMCTS;

impl MyMCTS {
    /// No virtual loss: root-parallel contention is accepted.
    pub fn virtual_loss(&self) -> (r: i64)
        ensures
            r == 0,
    {
        0
    }

    /// A node is expanded after its first visit.
    pub fn visits_before_expansion(&self) -> (r: u64)
        ensures
            r == 1,
    {
        1
    }

    /// No node budget beyond the address space.
    pub fn node_limit(&self) -> (r: usize)
        ensures
            r == usize::MAX,
    {
        usize::MAX
    }

    /// A single playout never exceeds a million moves.
    pub fn max_playout_length(&self) -> (r: usize)
        ensures
            r == 1000000,
    {
        1000000
    }

    /// Without a transposition table, cycles are ignored.
    pub fn cycle_behaviour(&self) -> (r: CycleBehaviour)
        ensures
            r == CycleBehaviour::Ignore,
    {
        CycleBehaviour::Ignore
    }

    /// The robust-child rule: at the end of the search the edge with
    /// the most visits wins, ties broken by insertion order.
    pub fn select_child_after_search(&self, children: &Vec<MoveEdge>) -> (r: usize)
        requires
            children@.len() >= 1,
        ensures
            r < children@.len(),
            forall|k: int|
                0 <= k < children@.len() ==> (#[trigger] children@[k]).visits
                    <= children@[r as int].visits,
            forall|k: int| 0 <= k < r ==> (#[trigger] children@[k]).visits < children@[r as int].visits,
    {
        let n = children.len();
        let mut best: usize = 0;
        let mut k: usize = 1;
        while k < n
            invariant
                n == children@.len(),
                1 <= k <= n,
                best < k,
                forall|t: int|
                    0 <= t < k ==> (#[trigger] children@[t]).visits <= children@[best as int].visits,
                forall|t: int|
                    0 <= t < best ==> (#[trigger] children@[t]).visits < children@[
                        best as int
                    ].visits,
            decreases n - k,
        {
            if children[k].visits > children[best].visits {
                best = k;
            }
            k = k + 1;
        }
        best
    }
}

/// Whether a game state is small enough for the evaluator's fixed-width
/// arithmetic: body lengths, desired lengths and the collision count
/// within `EVAL_MAX`.
pub open spec fn bounds_ok(g: crate::game::GameV) -> bool {
    &&& forall|i: int|
        0 <= i < g.board.snakes.len() ==> (#[trigger] g.board.snakes[i]).body.len() <= EVAL_MAX
            && g.board.snakes[i].length <= EVAL_MAX
    &&& g.board.collisions.len() <= EVAL_MAX
}

/// See [`bounds_ok`].
fn state_bounds_ok(g: &SnakeGame) -> (r: bool)
    ensures
        r == bounds_ok(g@),
{
    if g.board.collisions.len() > EVAL_MAX {
        return false;
    }
    let n = g.board.snakes.len();
    let mut i: usize = 0;
    while i < n
        invariant
            n == g@.board.snakes.len(),
            0 <= i <= n,
            g@.board.collisions.len() <= EVAL_MAX,
            forall|k: int|
                0 <= k < i ==> (#[trigger] g@.board.snakes[k]).body.len() <= EVAL_MAX
                    && g@.board.snakes[k].length <= EVAL_MAX,
        decreases n - i,
    {
        proof {
            assert(g.board.snakes@[i as int]@ == g@.board.snakes[i as int]);
        }
        if g.board.snakes[i].body.len() > EVAL_MAX || g.board.snakes[i].length > EVAL_MAX {
            return false;
        }
        i = i + 1;
    }
    true
}

impl SearchTree {
    /// Shared path facts of one descent.
    pub open spec fn path_ok(self, path: Seq<(usize, usize)>, cur: int) -> bool {
        &&& forall|t: int|
            0 <= t < path.len() ==> (#[trigger] path[t]).0 < self.nodes@.len() && (path[t]).1
                < self.nodes@[path[t].0 as int].edges@.len() && (path[t]).0 < cur
        &&& forall|t1: int, t2: int| 0 <= t1 < t2 < path.len() ==> path[t1].0 < path[t2].0
    }

    /// A fresh tree rooted at `state`.
    pub fn new(state: SnakeGame, exploration_milli: u64) -> (r: SearchTree)
        requires
            state.wf(),
            exploration_milli <= 1000000,
        ensures
            tree_wf(r),
            r.nodes@.len() == 1,
            r.nodes@[0].state@ == state@,
            r.playouts == 0,
            edge_moves(r.nodes@[0].edges@) == available_moves_spec(
                state@.board,
                state@.current_player,
            ),
    {
        let moves = state.available_moves();
        let mut edges: Vec<MoveEdge> = Vec::new();
        let nm = moves.len();
        let mut k: usize = 0;
        while k < nm
            invariant
                nm == moves@.len(),
                0 <= k <= nm,
                edges@.len() == k,
                forall|t: int|
                    0 <= t < k ==> (#[trigger] edges@[t]).mov == moves@[t] && edges@[t].child
                        is None && edges@[t].visits == 0 && edges@[t].sum_rewards == 0,
            decreases nm - k,
        {
            edges.push(MoveEdge { mov: moves[k], child: None, visits: 0, sum_rewards: 0 });
            k = k + 1;
        }
        proof {
            assert(edge_moves(edges@) =~= moves@);
        }
        let root = Node { state, edges, visits: 0 };
        let mut nodes: Vec<Node> = Vec::new();
        nodes.push(root);
        let r = SearchTree { nodes, playouts: 0, exploration_milli };
        proof {
            reveal(node_wf);
            assert forall|i: int| 0 <= i < r.nodes@.len() implies node_wf(
                #[trigger] r.nodes@[i],
                i,
                r.nodes@.len() as int,
            ) by {
                assert(i == 0);
                assert forall|k2: int| 0 <= k2 < r.nodes@[0].edges@.len() implies edge_wf(
                    #[trigger] r.nodes@[0].edges@[k2],
                    0,
                    1,
                    0u64,
                ) by {}
            }
        }
        r
    }

    /// Credits one playout's reward along its path and at its leaf.
    /// Counters saturate at the playout cap instead of overflowing.
    #[verifier::spinoff_prover]
    fn backprop(&mut self, path: Vec<(usize, usize)>, leaf: usize, reward: i64)
        requires
            tree_wf(*old(self)),
            old(self).playouts < MAX_PLAYOUTS,
            leaf < old(self).nodes@.len(),
            forall|t: int|
                0 <= t < path@.len() ==> (#[trigger] path@[t]).0 < old(self).nodes@.len() && (
                path@[t]).1 < old(self).nodes@[path@[t].0 as int].edges@.len() && (path@[t]).0
                    < leaf,
            forall|t1: int, t2: int| 0 <= t1 < t2 < path@.len() ==> path@[t1].0 < path@[t2].0,
        ensures
            tree_wf(*final(self)),
            final(self).playouts == old(self).playouts + 1,
            final(self).nodes@.len() == old(self).nodes@.len(),
            final(self).exploration_milli == old(self).exploration_milli,
            final(self).nodes@[0].state == old(self).nodes@[0].state,
            edge_moves(final(self).nodes@[0].edges@) == edge_moves(old(self).nodes@[0].edges@),
    {
        let np = path.len();
        let mut t: usize = 0;
        while t < np
            invariant
                np == path@.len(),
                tree_wf(*self),
                0 <= t <= np,
                self.playouts == old(self).playouts,
                self.exploration_milli == old(self).exploration_milli,
                self.nodes@.len() == old(self).nodes@.len(),
                self.nodes@[0].state == old(self).nodes@[0].state,
                edge_moves(self.nodes@[0].edges@) == edge_moves(old(self).nodes@[0].edges@),
                forall|t2: int|
                    0 <= t2 < path@.len() ==> (#[trigger] path@[t2]).0 < self.nodes@.len() && (
                    path@[t2]).1 < self.nodes@[path@[t2].0 as int].edges@.len(),
            decreases np - t,
        {
            let (ni, ei) = path[t];
            self.credit(ni, ei, reward);
            t = t + 1;
        }
        proof {
            lemma_node_facts(*self, leaf as int);
        }
        let lv = self.nodes[leaf].visits;
        if lv < MAX_PLAYOUTS {
            let ghost pre = *self;
            self.nodes[leaf].visits = lv + 1;
            proof {
                lemma_touch_wf(pre, *self, leaf as int);
            }
        }
        self.playouts = self.playouts + 1;
    }

    /// Adds one visit and the reward to edge `ei` of node `ni`,
    /// saturating at the playout cap.
    #[verifier::spinoff_prover]
    fn credit(&mut self, ni: usize, ei: usize, reward: i64)
        requires
            tree_wf(*old(self)),
            ni < old(self).nodes@.len(),
            ei < old(self).nodes@[ni as int].edges@.len(),
        ensures
            tree_wf(*final(self)),
            final(self).playouts == old(self).playouts,
            final(self).exploration_milli == old(self).exploration_milli,
            final(self).nodes@.len() == old(self).nodes@.len(),
            final(self).nodes@[0].state == old(self).nodes@[0].state,
            edge_moves(final(self).nodes@[0].edges@) == edge_moves(old(self).nodes@[0].edges@),
            forall|t2: int|
                0 <= t2 < old(self).nodes@.len() ==> (#[trigger] final(self).nodes@[t2]).edges@.len()
                    == old(self).nodes@[t2].edges@.len(),
    {
        proof {
            lemma_node_facts(*self, ni as int);
        }
        let v = self.nodes[ni].visits;
        if v < MAX_PLAYOUTS {
            let ghost pre = *self;
            self.nodes[ni].visits = v + 1;
            proof {
                assert(self.nodes@ =~= pre.nodes@.update(
                    ni as int,
                    Node {
                        visits: (pre.nodes@[ni as int].visits + 1) as u64,
                        state: pre.nodes@[ni as int].state,
                        edges: pre.nodes@[ni as int].edges,
                    },
                ));
                lemma_touch_wf(pre, *self, ni as int);
            }
        }
        proof {
            lemma_node_facts(*self, ni as int);
        }
        let ev = self.nodes[ni].edges[ei].visits;
        let nv = self.nodes[ni].visits;
        if ev < nv {
            let es = self.nodes[ni].edges[ei].sum_rewards;
            let ghost pre = *self;
            proof {
                let oev = ev as int;
                assert((oev + 1) * REWARD_BOUND == oev * REWARD_BOUND + REWARD_BOUND)
                    by (nonlinear_arith);
            }
            self.nodes[ni].edges[ei].visits = ev + 1;
            self.nodes[ni].edges[ei].sum_rewards = es + (reward as i128);
            proof {
                assert(self.nodes@[ni as int].edges@ =~= pre.nodes@[ni as int].edges@.update(
                    ei as int,
                    MoveEdge {
                        mov: pre.nodes@[ni as int].edges@[ei as int].mov,
                        child: pre.nodes@[ni as int].edges@[ei as int].child,
                        visits: (pre.nodes@[ni as int].edges@[ei as int].visits + 1) as u64,
                        sum_rewards: (pre.nodes@[ni as int].edges@[ei as int].sum_rewards
                            + reward as i128) as i128,
                    },
                ));
                assert(self.nodes@ =~= pre.nodes@.update(
                    ni as int,
                    Node {
                        visits: pre.nodes@[ni as int].visits,
                        state: pre.nodes@[ni as int].state,
                        edges: self.nodes@[ni as int].edges,
                    },
                ));
                lemma_edge_touch_wf(pre, *self, ni as int, ei as int, reward);
            }
        }
    }

    /// Evaluates the state of node `cur` and credits the reward along
    /// the path ending there.
    #[verifier::spinoff_prover]
    fn finish_playout(&mut self, cur: usize, path: Vec<(usize, usize)>)
        requires
            tree_wf(*old(self)),
            old(self).playouts < MAX_PLAYOUTS,
            cur < old(self).nodes@.len(),
            old(self).path_ok(path@, cur as int),
        ensures
            tree_wf(*final(self)),
            final(self).nodes@.len() == old(self).nodes@.len(),
            final(self).playouts == old(self).playouts + 1,
            final(self).nodes@[0].state == old(self).nodes@[0].state,
            edge_moves(final(self).nodes@[0].edges@) == edge_moves(old(self).nodes@[0].edges@),
    {
        proof {
            lemma_node_facts(*self, cur as int);
        }
        let reward: i64 = leaf_reward(&self.nodes[cur].state);
        self.backprop(path, cur, reward);
    }

    /// Appends a fresh leaf for state `st` and wires edge `e` of node
    /// `cur` to it.
    #[verifier::spinoff_prover]
    #[verifier::rlimit(100)]
    fn create_child(&mut self, cur: usize, e: usize, st: SnakeGame) -> (new_idx: usize)
        requires
            tree_wf(*old(self)),
            cur < old(self).nodes@.len(),
            e < old(self).nodes@[cur as int].edges@.len(),
            st.wf(),
        ensures
            tree_wf(*final(self)),
            final(self).playouts == old(self).playouts,
            final(self).exploration_milli == old(self).exploration_milli,
            old(self).nodes@.len() <= final(self).nodes@.len() <= old(self).nodes@.len() + 1,
            new_idx < final(self).nodes@.len(),
            cur as int <= new_idx as int,
            final(self).nodes@[0].state == old(self).nodes@[0].state,
            edge_moves(final(self).nodes@[0].edges@) == edge_moves(old(self).nodes@[0].edges@),
            forall|i: int|
                0 <= i < old(self).nodes@.len() ==> (#[trigger] final(self).nodes@[i]).edges@.len()
                    == old(self).nodes@[i].edges@.len(),
    {
        let moves = st.available_moves();
        let mut edges: Vec<MoveEdge> = Vec::new();
        let nm = moves.len();
        let mut k: usize = 0;
        while k < nm
            invariant
                nm == moves@.len(),
                0 <= k <= nm,
                edges@.len() == k,
                forall|t: int|
                    0 <= t < k ==> (#[trigger] edges@[t]).mov == moves@[t] && edges@[t].child
                        is None && edges@[t].visits == 0 && edges@[t].sum_rewards == 0,
            decreases nm - k,
        {
            edges.push(MoveEdge { mov: moves[k], child: None, visits: 0, sum_rewards: 0 });
            k = k + 1;
        }
        proof {
            assert(edge_moves(edges@) =~= moves@);
        }
        let new_idx = self.nodes.len();
        if new_idx == usize::MAX {
            return cur;
        }
        let node = Node { state: st, edges, visits: 0 };
        let ghost pre = *self;
        self.nodes.push(node);
        self.nodes[cur].edges[e].child = Some(new_idx);
        proof {
            assert(edge_moves(self.nodes@[new_idx as int].edges@) =~= edge_moves(edges@));
            assert forall|i: int|
                0 <= i < pre.nodes@.len() && i != cur as int implies #[trigger] self.nodes@[i]
                == pre.nodes@[i] by {}
            assert(self.nodes@[cur as int].edges@[e as int] == (MoveEdge {
                mov: pre.nodes@[cur as int].edges@[e as int].mov,
                child: Some(pre.nodes@.len() as usize),
                visits: pre.nodes@[cur as int].edges@[e as int].visits,
                sum_rewards: pre.nodes@[cur as int].edges@[e as int].sum_rewards,
            }));
            lemma_expand_wf(pre, *self, cur as int, e as int);
        }
        new_idx
    }

    /// Expands edge `e` of node `cur`: simulates its move on a copy of
    /// the state, appends the new leaf, wires the edge to it, and
    /// credits the leaf's evaluation along the path.
    #[verifier::spinoff_prover]
    fn expand_at(&mut self, cur: usize, e: usize, path: Vec<(usize, usize)>)
        requires
            tree_wf(*old(self)),
            old(self).playouts < MAX_PLAYOUTS,
            cur < old(self).nodes@.len(),
            e < old(self).nodes@[cur as int].edges@.len(),
            old(self).path_ok(path@, cur as int),
        ensures
            tree_wf(*final(self)),
            final(self).nodes@.len() >= old(self).nodes@.len(),
            final(self).playouts == old(self).playouts + 1,
            final(self).nodes@[0].state == old(self).nodes@[0].state,
            edge_moves(final(self).nodes@[0].edges@) == edge_moves(old(self).nodes@[0].edges@),
    {
        proof {
            lemma_node_facts(*self, cur as int);
        }
        if !state_bounds_ok(&self.nodes[cur].state) {
            // the state is too large to simulate; the playout still
            // completes, crediting the node it stopped at
            self.backprop(path, cur, 0);
            return;
        }
        let mut st = self.nodes[cur].state.duplicate();
        proof {
            assert(st.wf());
            assert forall|i: int|
                0 <= i < st@.board.snakes.len() && !st@.board.snakes[i].is_dead() implies (
            #[trigger] st@.board.snakes[i]).length < usize::MAX by {
                assert(st@.board.snakes[i].length <= EVAL_MAX);
            }
        }
        let m = self.nodes[cur].edges[e].mov;
        apply_search_move(&mut st, m);
        let reward = leaf_reward(&st);
        let new_idx = self.create_child(cur, e, st);
        if new_idx > cur {
            let mut path2 = path;
            path2.push((cur, e));
            self.backprop(path2, new_idx, reward);
        } else {
            // the arena is at capacity; the playout still completes
            self.backprop(path, cur, reward);
        }
    }

    /// One descent step from node `cur`: evaluate in place at a
    /// terminal node, recurse into a selected child, or expand a fresh
    /// edge and credit the path.
    #[verifier::spinoff_prover]
    fn descend(&mut self, cur: usize, path: Vec<(usize, usize)>)
        requires
            tree_wf(*old(self)),
            old(self).playouts < MAX_PLAYOUTS,
            cur < old(self).nodes@.len(),
            old(self).path_ok(path@, cur as int),
        ensures
            tree_wf(*final(self)),
            final(self).nodes@.len() >= old(self).nodes@.len(),
            final(self).playouts == old(self).playouts + 1,
            final(self).nodes@[0].state == old(self).nodes@[0].state,
            edge_moves(final(self).nodes@[0].edges@) == edge_moves(old(self).nodes@[0].edges@),
        decreases old(self).nodes@.len() - cur,
    {
        proof {
            lemma_node_facts(*self, cur as int);
        }
        let nedges = self.nodes[cur].edges.len();
        if nedges == 0 {
            self.finish_playout(cur, path);
            return;
        }
        let node_visits = self.nodes[cur].visits;
        let c_milli = self.exploration_milli;
        let e = select_edge_index(&self.nodes[cur].edges, node_visits, c_milli);
        let child = self.nodes[cur].edges[e].child;
        match child {
            Some(c) => {
                let mut path2 = path;
                path2.push((cur, e));
                self.descend(c, path2);
            },
            None => {
                self.expand_at(cur, e, path);
            },
        }
    }

    /// One playout: descend from the root along UCB1-selected edges; at
    /// an edge without a child, expand it by one simulated move,
    /// evaluate the new leaf, and credit the path; at a node with no
    /// moves (the player is dead), evaluate it in place.
    ///
    /// In the original root-parallel design several workers run this
    /// loop over one shared tree; here the caller drives it under its
    /// own deadline.
    pub fn search_step(&mut self)
        requires
            tree_wf(*old(self)),
        ensures
            tree_wf(*final(self)),
            final(self).nodes@.len() >= old(self).nodes@.len(),
            final(self).playouts >= old(self).playouts,
            old(self).playouts < MAX_PLAYOUTS ==> final(self).playouts == old(self).playouts
                + 1,
            final(self).nodes@[0].state == old(self).nodes@[0].state,
            edge_moves(final(self).nodes@[0].edges@) == edge_moves(old(self).nodes@[0].edges@),
    {
        if self.playouts >= MAX_PLAYOUTS {
            return;
        }
        let path: Vec<(usize, usize)> = Vec::new();
        self.descend(0, path);
    }
}

impl SearchTree {
    /// See `MyMCTS::select_child_after_search` for the robust-child
    /// rule this applies at the root.
    #[verifier::rlimit(100)]
    #[verifier::spinoff_prover]
    pub fn best_move(&self) -> (r: Option<Movement>)
        requires
            tree_wf(*self),
        ensures
            (r is None) == (self.playouts == 0 || self.nodes@[0].edges@.len() == 0),
            r matches Some(m) ==> available_moves_spec(
                self.nodes@[0].state@.board,
                self.nodes@[0].state@.current_player,
            ).contains(m),
    {
        if self.playouts == 0 || self.nodes[0].edges.len() == 0 {
            return None;
        }
        let config = MyMCTS;
        let k = config.select_child_after_search(&self.nodes[0].edges);
        let m = self.nodes[0].edges[k].mov;
        proof {
            lemma_member_from_moves(*self, k as int, m);
        }
        Some(m)
    }
}

} // verus!
