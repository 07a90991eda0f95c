//! The cursor over the moves of a node.
use crate::types::{no_move, Move};
use vstd::prelude::*;

verus! {

/// Where in the order of moves a picker is.
#[derive(Copy, Clone, Debug, PartialEq, Eq, Structural)]
pub enum Stage {
    /// The move from the transposition table.
    HashMove,
    /// Captures and promotions that do not lose material.
    GoodNoisy,
    /// Moves that are not noisy, by history.
    Quiet,
    /// Captures and promotions that lose material.
    BadNoisy,
}

/// How far the moves of a node have been handed out.
#[derive(Copy, Clone, Debug, PartialEq, Eq, Structural)]
pub struct MovePicker {
    /// The move to try first, if there is one.
    pub tt_move: Move,
    /// Whether the picker serves the quiescence search.
    pub quiescence: bool,
    /// The number of moves handed out so far.
    pub handed_out: usize,
    /// The stage that the last move came from.
    pub stage: Stage,
}

impl MovePicker {
    /// A picker for the main search.
    pub fn new(tt_move: Move) -> (picker: MovePicker)
        ensures
            picker == fresh_picker(tt_move, false),
    {
        MovePicker { tt_move, quiescence: false, handed_out: 0, stage: Stage::HashMove }
    }

    /// A picker for the quiescence search.
    pub fn new_qsearch() -> (picker: MovePicker)
        ensures
            picker == fresh_picker(no_move(), true),
    {
        MovePicker {
            tt_move: Move::null(),
            quiescence: true,
            handed_out: 0,
            stage: Stage::HashMove,
        }
    }
}

/// A picker that has handed out nothing yet.
pub open spec fn fresh_picker(tt_move: Move, quiescence: bool) -> MovePicker {
    MovePicker { tt_move, quiescence, handed_out: 0, stage: Stage::HashMove }
}

} // verus!
