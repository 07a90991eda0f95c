//! Search and evaluation of a chess engine: material and piece-square
//! evaluation, an incrementally updated neural evaluation, and the
//! alpha-beta search that is built on them.
pub mod accounts;
pub mod alphabeta;
pub mod backend;
pub mod board;
pub mod deepening;
pub mod evaluation;
pub mod frame;
pub mod game_tree;
pub mod horizon;
pub mod invariance;
pub mod laws;
pub mod lessons;
pub mod model;
pub mod movepick;
pub mod nnue;
pub mod node;
pub mod outcomes;
pub mod pv;
pub mod quiescence;
pub mod ranking;
pub mod root;
pub mod search;
pub mod soundness;
pub mod stack;
pub mod steps;
pub mod thread;
pub mod transposition;
pub mod types;

use vstd::prelude::*;

verus! {

} // verus!
