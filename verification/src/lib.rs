//! A generic adversarial game-tree search engine: Monte Carlo tree search
//! with a PUCT-style selection rule, for two-player, zero-sum,
//! perfect-information games.
//!
//! A game plugs in through the [`mcts::GameState`] trait; the engine builds
//! a search tree over its states, runs a fixed budget of
//! select/expand/rollout/backpropagate passes, and recommends the action of
//! the most-visited child of the root. Two games ship with the engine:
//! tic-tac-toe ([`ttt`]) and connect four ([`connect4`]).
//!
//! All probabilities and selection scores are fixed-point integers in
//! millionths ([`fixed`]), so every numeric claim is exact.
use vstd::prelude::*;

pub mod board;
pub mod connect4;
pub mod fixed;
pub mod mcts;
pub mod policy;
pub mod ttt;

verus! {

} // verus!
