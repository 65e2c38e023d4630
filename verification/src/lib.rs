//! A Monte Carlo tree search engine, generic over any deterministic,
//! perfect-information, turn-alternating game.
//!
//! The engine grows an append-only tree of positions: each iteration walks
//! the tree by UCT selection, expands one node, plays a random simulation
//! to the end of the game, and folds the outcome back along the path.
//! After the budget runs out it returns the move with the strongest
//! statistics.  Rewards are integers in half-point units, and the UCT
//! arithmetic is unsigned fixed point, so every part of the search is a
//! checked, deterministic function of the recorded statistics and the
//! values drawn from the random source.

pub mod game;
pub mod tic_tac_toe;
pub mod tree_node;
pub mod tree;
pub mod rng;
pub mod clock;
pub mod uct;
pub mod random_agent;
pub mod monte_carlo_agent;
