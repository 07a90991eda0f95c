//! What the transposition table holds of a position.
use crate::nnue::MATE_BOUND;
use crate::types::{Move, Score};
use vstd::prelude::*;

verus! {

/// How a stored score relates to the true one.
#[derive(Copy, Clone, Debug, PartialEq, Eq, Structural)]
pub enum Bound {
    /// There is no score.
    Absent,
    /// The score is exact.
    Exact,
    /// The true score is at most the stored one.
    Upper,
    /// The true score is at least the stored one.
    Lower,
}

/// Depths with a meaning of their own.
pub struct TtDepth;

impl TtDepth {
    /// The entry holds something of the position, but no full search of it.
    pub const SOME: i32 = -1;
}

/// What is known of a position that was seen before.
#[derive(Copy, Clone, Debug, PartialEq, Eq, Structural)]
pub struct TtEntry {
    pub mv: Move,
    pub score: i32,
    pub raw_eval: i32,
    pub depth: i32,
    pub bound: Bound,
}

/// A score that a search can return, or the absence of one.
pub open spec fn storable_score(score: int) -> bool {
    score == Score::NONE || -Score::MATE <= score <= Score::MATE
}

/// A static evaluation, or the absence of one.
pub open spec fn storable_eval(raw_eval: int) -> bool {
    raw_eval == Score::NONE || -MATE_BOUND <= raw_eval <= MATE_BOUND
}

impl TtEntry {
    /// The entry's score and evaluation are on their scales.
    pub open spec fn wf(self) -> bool {
        storable_score(self.score as int) && storable_eval(self.raw_eval as int)
    }
}

} // verus!
