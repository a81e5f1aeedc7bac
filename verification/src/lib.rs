//! A verified decision agent for a multi-player grid-survival game.
//!
//! Worm-like agents ("snakes") move simultaneously on a rectangular board;
//! each has a head, a growing body, and a health reserve, and dies by
//! hitting walls, bodies, or by starving. The library holds the
//! deterministic per-step simulator (board, snakes, collisions, food,
//! occupancy matrix), a Monte-Carlo tree search over it, and the heuristic
//! evaluator the search uses on leaf states.

use vstd::prelude::*;

mod board;
mod bot_a;
mod rng;
mod collision;
mod evaluator;
mod game;
mod matrice;
mod mcts;
mod movement;
mod point;
mod snake;

pub use board::{Board, SnakeId};
pub use bot_a::BotA;
pub use collision::Collision;
pub use evaluator::MyEvaluator;
pub use game::SnakeGame;
pub use matrice::Matrice;
pub use mcts::SearchTree;
pub use movement::Movement;
pub use point::Point;
pub use snake::{Snake, DEFAULT_SNAKE_HEALTH};

verus! {

} // verus!
