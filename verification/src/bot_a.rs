//! The agent facade: owns the search between `think` and `next_move`.

use vstd::prelude::*;

use crate::game::{available_moves_spec, SnakeGame};
use crate::mcts::{tree_wf, SearchTree};
use crate::movement::Movement;

verus! {

/// The tree-search player. `think` roots a search at a snapshot, the
/// caller drives `search_step` until its deadline, and `next_move`
/// halts the search and answers.
pub struct BotA {
    pub id: usize,
    pub n_threads: usize,
    pub search: Option<SearchTree>,
}

impl BotA {
    /// Whether the held search, if any, is sound.
    pub open spec fn wf(self) -> bool {
        match self.search {
            Some(t) => tree_wf(t),
            None => true,
        }
    }

    /// A fresh idle agent playing snake `id`. `n_threads` records how
    /// many workers the surrounding program may drive concurrently.
    pub fn new(id: usize, n_threads: usize) -> (r: BotA)
        ensures
            r.wf(),
            r.id == id,
            r.n_threads == n_threads,
            r.search is None,
    {
        BotA { id, n_threads, search: None }
    }

    /// Roots a search at `game`, optimizing for this agent's snake.
    pub fn think(&mut self, game: &SnakeGame)
        requires
            game.wf(),
            old(self).id < game@.board.snakes.len(),
        ensures
            final(self).wf(),
            final(self).search is Some,
            final(self).id == old(self).id,
            final(self).search->Some_0.nodes@[0].state@.board == game@.board,
            final(self).search->Some_0.nodes@[0].state@.current_player == old(self).id as int,
    {
        let mut root = game.duplicate();
        root.set_player(self.id);
        let tree = SearchTree::new(root, 5500);
        self.search = Some(tree);
    }

    /// One playout on the held search; without one, does nothing. The
    /// caller runs this in a loop until its deadline expires.
    pub fn search_step(&mut self)
        requires
            old(self).wf(),
        ensures
            final(self).wf(),
            final(self).id == old(self).id,
            (final(self).search is Some) == (old(self).search is Some),
            old(self).search matches Some(t0) ==> {
                let t1 = final(self).search->Some_0;
                &&& t1.nodes@[0].state == t0.nodes@[0].state
                &&& t1.playouts >= t0.playouts
                &&& (t0.playouts < crate::mcts::MAX_PLAYOUTS ==> t1.playouts == t0.playouts
                    + 1)
            },
    {
        let search = self.search.take();
        match search {
            Some(mut tree) => {
                tree.search_step();
                self.search = Some(tree);
            },
            None => {
                self.search = None;
            },
        }
    }

    /// Halts the search and answers: the robust root child's move, or a
    /// uniformly random legal move when no playout finished. The answer
    /// is always one of the root position's available moves.
    pub fn next_move(&mut self) -> (r: Movement)
        requires
            old(self).wf(),
            old(self).search is Some,
        ensures
            final(self).wf(),
            final(self).search is None,
            ({
                let root = old(self).search->Some_0.nodes@[0].state;
                available_moves_spec(root@.board, root@.current_player).len() > 0
                    ==> available_moves_spec(root@.board, root@.current_player).contains(r)
            }),
    {
        let search = self.search.take();
        let tree = match search {
            Some(t) => t,
            None => {
                return Movement::Up;
            },
        };
        let best = tree.best_move();
        match best {
            Some(m) => m,
            None => {
                // no completed playout: fall back to a random legal move
                proof {
                    crate::mcts::lemma_node_moves(tree, 0);
                }
                let avail = tree.nodes[0].state.available_moves();
                if avail.len() > 0 {
                    proof {
                        assert(avail@.len() <= 4) by {
                            reveal(crate::game::available_moves_spec);
                        }
                    }
                    let mut rng = crate::rng::new_rng();
                    let pick = crate::rng::rng_below(&mut rng, avail.len() as u32);
                    proof {
                        assert(avail@.contains(avail@[pick as int]));
                    }
                    avail[pick as usize]
                } else {
                    Movement::Up
                }
            },
        }
    }
}

} // verus!
