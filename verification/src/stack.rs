//! What the search remembers of each ply of the line it is looking at.
use crate::types::{no_move, Move, Piece, Score, Square};
use vstd::prelude::*;

verus! {

/// Entries of the stack: the search looks up to two plies beyond the present
/// one.
pub const STACK_SIZE: usize = 130;

/// The part of a continuation table that goes with one move.
#[derive(Copy, Clone, Debug, PartialEq, Eq, Structural)]
pub struct Subtable {
    pub in_check: bool,
    pub noisy: bool,
    pub piece: Option<Piece>,
    pub to: Square,
}

/// What the search remembers of one ply.
#[derive(Copy, Clone, Debug, PartialEq, Eq, Structural)]
pub struct StackEntry {
    /// The move that is being looked at.
    pub mv: Move,
    /// The chessman that makes it.
    pub piece: Option<Piece>,
    /// The corrected static evaluation.
    pub eval: i32,
    /// The move that singular extension probing leaves out.
    pub excluded: Move,
    pub tt_move: Move,
    pub tt_pv: bool,
    pub cutoff_count: i32,
    pub move_count: i32,
    pub reduction: i32,
    pub conthist: Option<Subtable>,
    pub contcorrhist: Option<Subtable>,
}

/// An entry of which nothing is known yet, in specifications.
pub open spec fn blank_entry() -> StackEntry {
    StackEntry {
        mv: no_move(),
        piece: None,
        eval: Score::NONE,
        excluded: no_move(),
        tt_move: no_move(),
        tt_pv: false,
        cutoff_count: 0,
        move_count: 0,
        reduction: 0,
        conthist: None,
        contcorrhist: None,
    }
}

/// A stack of which nothing is known yet, in specifications.
pub open spec fn blank_stack() -> Seq<StackEntry> {
    Seq::new(STACK_SIZE as nat, |i: int| blank_entry())
}

/// A stack of which nothing is known yet.
pub fn new_stack() -> (stack: Vec<StackEntry>)
    ensures
        stack@ == blank_stack(),
{
    let mut stack: Vec<StackEntry> = Vec::new();
    while stack.len() < STACK_SIZE
        invariant
            stack@.len() <= STACK_SIZE,
            forall|i: int| 0 <= i < stack@.len() ==> #[trigger] stack@[i] == blank_entry(),
        decreases STACK_SIZE - stack@.len(),
    {
        stack.push(
            StackEntry {
                mv: Move::null(),
                piece: None,
                eval: Score::NONE,
                excluded: Move::null(),
                tt_move: Move::null(),
                tt_pv: false,
                cutoff_count: 0,
                move_count: 0,
                reduction: 0,
                conthist: None,
                contcorrhist: None,
            },
        );
    }
    assert(stack@ =~= blank_stack());
    stack
}

} // verus!
