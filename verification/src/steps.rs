//! The single steps of a search: picking, making and taking back moves,
//! evaluating, and teaching the tables.
use crate::backend::{Backend, CorrectionTable};
use crate::frame::{only_backend, root_place_found};
use crate::model::{
    continuations_begun, continuations_learned, corrections_learned, draw_value, in_root_window,
    move_recorded, moved, picked, picker_after, raw_value, root_place, root_recorded, settles,
    static_value, suggested_correction, timed, unmoved,
};
use crate::movepick::MovePicker;
use crate::nnue::{changes_keep_in_step, changes_keep_the_rest, in_step, MATE_BOUND};
use crate::node::{NodeInfo, Tried};
use crate::search::NodeType;
use crate::stack::Subtable;
use crate::thread::ThreadData;
use crate::transposition::{Bound, TtEntry};
use crate::types::{clamp, is_valid, Color, Move, Piece, Score, Square, MAX_MOVES, MAX_PLY};
use vstd::prelude::*;

verus! {

/// The correction of a static evaluation stays within this, on either side.
pub const CORRECTION_SPAN: i32 = 673;

impl MovePicker {
    /// The next move of the node, if there is one left.
    pub fn next<NODE: NodeType, B: Backend>(
        &mut self,
        td: &mut ThreadData<B>,
        skip_quiets: bool,
        ply: isize,
    ) -> (next: Option<Move>)
        ensures
            final(td)@ == picked::<B>(
                old(td)@,
                *old(self),
                NODE::PV,
                NODE::ROOT,
                skip_quiets,
                ply as int,
            ).0,
            match picked::<B>(
                old(td)@,
                *old(self),
                NODE::PV,
                NODE::ROOT,
                skip_quiets,
                ply as int,
            ).1 {
                Some((mv, stage)) => next == Some(mv) && old(self).handed_out < MAX_MOVES
                    && *final(self) == picker_after(*old(self), stage),
                None => next is None && *final(self) == *old(self),
            },
            next matches Some(mv) ==> mv.present(),
    {
        match td.backend.pick(
            self,
            &td.board,
            &td.stack,
            NODE::PV,
            NODE::ROOT,
            skip_quiets,
            ply,
        ) {
            Some((mv, stage)) => {
                self.handed_out = self.handed_out + 1;
                self.stage = stage;
                Some(mv)
            },
            None => None,
        }
    }
}

/// Makes a move on the board and in the network, and notes it on the stack.
pub fn make_move<B: Backend>(td: &mut ThreadData<B>, ply: isize, mv: Move)
    requires
        old(td)@.wf(),
        0 <= ply < MAX_PLY,
    ensures
        final(td)@ == moved::<B>(old(td)@, ply as int, mv),
        final(td)@.board.history == old(td)@.board.history.push(old(td)@.board.current),
        final(td)@.root_moves == old(td)@.root_moves,
        final(td)@.wf(),
        final(td)@.network.saved == old(td)@.network.saved.push(old(td)@.network.now),
        final(td)@.network.parameters == old(td)@.network.parameters,
        in_step(old(td)@.network, old(td)@.board.current.squares@) ==> in_step(
            final(td)@.network,
            final(td)@.board.current.squares@,
        ),
{
    reveal(moved);
    let i: usize = ply as usize;
    let piece = td.board.current.moved_piece(mv);
    let subtable = Subtable {
        in_check: td.board.current.in_check,
        noisy: mv.is_noisy(),
        piece,
        to: mv.to(),
    };
    td.stack[i].mv = mv;
    td.stack[i].piece = piece;
    td.stack[i].conthist = Some(subtable);
    td.stack[i].contcorrhist = Some(subtable);
    td.nodes = td.nodes.wrapping_add(1);
    td.network.push();
    proof {
        let changes = B::play_model(td.backend.state(), td.board.current, mv).1;
        changes_keep_the_rest(td.network@, changes);
    }
    let ghost before = td.network@;
    td.board.make_move(&td.backend, mv, &mut td.network);
    proof {
        let squares = old(td)@.board.current.squares@;
        let changes = B::play_model(old(td)@.backend, old(td)@.board.current, mv).1;
        if in_step(old(td)@.network, squares) {
            changes_keep_in_step(before, squares, changes, td.board.current.squares@);
        }
    }
    td.backend.prefetch(td.board.current.hash);
    assert(td@.stack =~= moved::<B>(old(td)@, ply as int, mv).stack);
}

/// Takes the last move back, on the board and in the network.
pub fn undo_move<B: Backend>(td: &mut ThreadData<B>, mv: Move)
    requires
        old(td)@.network.saved.len() > 0,
        old(td)@.board.history.len() > 0,
    ensures
        final(td)@ == unmoved::<B>(old(td)@),
{
    reveal(unmoved);
    td.network.pop();
    td.board.undo_move(mv);
}

/// The score of a draw, as this thread sees it.
pub(crate) fn draw<B: Backend>(td: &ThreadData<B>) -> (score: i32)
    ensures
        score == draw_value::<B>(td@),
        -Score::MATE <= score <= Score::MATE,
{
    td.backend.draw_score(td.nodes)
}

/// The network's evaluation of the position on the board.
pub(crate) fn static_eval<B: Backend>(td: &ThreadData<B>) -> (score: i32)
    requires
        td@.wf(),
    ensures
        score == static_value::<B>(td@),
        -MATE_BOUND <= score <= MATE_BOUND,
{
    reveal(static_value);
    td.network.evaluate(td.board.current.side_to_move, td.board.current.piece_count())
}

/// The main thread looks at the clock; the others never find time over.
pub(crate) fn out_of_time<B: Backend>(td: &mut ThreadData<B>) -> (over: bool)
    ensures
        (final(td)@, over) == timed::<B>(old(td)@),
{
    td.id == 0 && td.backend.check_time(td.nodes, td.completed_depth)
}

/// Whether a stored score settles a node with the given window.
pub fn tt_settles(entry: &TtEntry, alpha: i32, beta: i32) -> (b: bool)
    ensures
        b == settles(*entry, alpha as int, beta as int),
{
    is_valid(entry.score) && match entry.bound {
        Bound::Upper => entry.score <= alpha,
        Bound::Lower => entry.score >= beta,
        _ => true,
    }
}

/// The static evaluation of a node before correction: none in check, the
/// stored one if there is one, the network's otherwise.
pub(crate) fn raw_evaluation<B: Backend>(td: &ThreadData<B>, entry: &Option<TtEntry>) -> (raw: i32)
    requires
        td@.wf(),
        entry matches Some(e) ==> e.wf(),
    ensures
        raw == raw_value::<B>(td@, *entry),
        td@.board.current.in_check ==> raw == Score::NONE,
        !td@.board.current.in_check ==> -MATE_BOUND <= raw <= MATE_BOUND,
{
    reveal(raw_value);
    if td.board.current.in_check {
        return Score::NONE;
    }
    match entry {
        Some(e) => {
            if is_valid(e.raw_eval) {
                e.raw_eval
            } else {
                static_eval(td)
            }
        },
        None => static_eval(td),
    }
}

/// The correction of the static evaluation that the tables suggest.
pub fn eval_correction<B: Backend>(td: &ThreadData<B>, _ply: isize) -> (correction: i32)
    ensures
        correction == suggested_correction::<B>(td@),
        -CORRECTION_SPAN <= correction <= CORRECTION_SPAN,
{
    reveal(suggested_correction);
    let position = &td.board.current;
    let stm = position.side_to_move;
    let bucket = position.halfmove_clock_bucket;
    (td.backend.correction(CorrectionTable::Pawn, stm, position.pawn_key, bucket)
        + td.backend.correction(
        CorrectionTable::NonPawn(Color::White),
        stm,
        position.non_pawn_key(Color::White),
        bucket,
    ) + td.backend.correction(
        CorrectionTable::NonPawn(Color::Black),
        stm,
        position.non_pawn_key(Color::Black),
        bucket,
    )) / 73
}

/// The correction tables learn that the static evaluation was off by `diff`.
pub fn update_correction_histories<B: Backend>(
    td: &mut ThreadData<B>,
    depth: i32,
    diff: i32,
    _ply: isize,
)
    requires
        i32::MIN <= 142 * depth <= i32::MAX,
        i32::MIN <= 142 * depth * diff <= i32::MAX,
    ensures
        final(td)@ == corrections_learned::<B>(old(td)@, depth as int, diff as int),
        only_backend(old(td)@, final(td)@),
{
    let stm = td.board.current.side_to_move;
    let bucket = td.board.current.halfmove_clock_bucket;
    let bonus = clamp(142 * depth * diff / 128, -4771, 3001);
    let pawn_key = td.board.current.pawn_key;
    let white_key = td.board.current.non_pawn_key(Color::White);
    let black_key = td.board.current.non_pawn_key(Color::Black);
    td.backend.correction_update(CorrectionTable::Pawn, stm, pawn_key, bucket, bonus);
    td.backend.correction_update(
        CorrectionTable::NonPawn(Color::White),
        stm,
        white_key,
        bucket,
        bonus,
    );
    td.backend.correction_update(
        CorrectionTable::NonPawn(Color::Black),
        stm,
        black_key,
        bucket,
        bonus,
    );
}

/// The continuation tables of the moves one, two, four and six plies ago
/// learn.
pub fn update_continuation_histories<B: Backend>(
    td: &mut ThreadData<B>,
    ply: isize,
    piece: Option<Piece>,
    sq: Square,
    bonus: i32,
)
    requires
        0 <= ply <= old(td)@.stack.len(),
    ensures
        final(td)@ == continuations_learned::<B>(old(td)@, ply as int, piece, sq, bonus as int),
        only_backend(old(td)@, final(td)@),
{
    let offsets: [isize; 4] = [1, 2, 4, 6];
    let mut k: usize = 0;
    while k < 4
        invariant
            k <= 4,
            offsets@ == seq![1isize, 2isize, 4isize, 6isize],
            0 <= ply <= td@.stack.len(),
            td@ == continuations_begun::<B>(
                old(td)@,
                ply as int,
                piece,
                sq,
                bonus as int,
                k as int,
            ),
            only_backend(old(td)@, td@),
        decreases 4 - k,
    {
        let offset = offsets[k];
        if ply >= offset {
            let entry = td.stack[(ply - offset) as usize];
            if entry.mv.is_present() {
                td.backend.continuation_update(entry.conthist, piece, sq, bonus);
            }
        }
        k = k + 1;
    }
}

/// Whether a move is within the window of root moves.
pub(crate) fn is_root_move<B: Backend>(td: &ThreadData<B>, mv: Move) -> (b: bool)
    requires
        td@.wf(),
    ensures
        b == in_root_window::<B>(td@, mv),
{
    let mut i: usize = td.pv_start;
    while i < td.pv_end
        invariant
            td@.wf(),
            td.pv_start <= i <= td.pv_end,
            forall|j: int| td.pv_start <= j < i ==> (#[trigger] td@.root_moves[j]).mv != mv,
        decreases td.pv_end - i,
    {
        if td.root_moves[i].mv == mv {
            assert(td@.root_moves[i as int].mv == mv);
            return true;
        }
        i = i + 1;
    }
    false
}

/// Gives a root move its score, and lets a better move begin the line of its
/// ply.
pub(crate) fn record_move<NODE: NodeType, B: Backend>(
    td: &mut ThreadData<B>,
    info: &NodeInfo,
    tried: &Tried,
    mv: Move,
    score: i32,
    initial_nodes: u64,
)
    requires
        old(td)@.wf(),
        0 <= info.ply < MAX_PLY,
        NODE::ROOT ==> in_root_window::<B>(old(td)@, mv),
    ensures
        final(td)@ == move_recorded::<B>(
            old(td)@,
            info.node::<NODE>(),
            tried@,
            mv,
            score as int,
            initial_nodes,
        ),
{
    reveal(move_recorded);
    reveal(root_recorded);
    if NODE::ROOT {
        let current_nodes = td.nodes;
        let mut k: usize = 0;
        proof {
            let j = choose|j: int|
                td.pv_start <= j < td.pv_end && (#[trigger] td@.root_moves[j]).mv == mv;
            root_place_found(td@.root_moves, mv, 0, j);
        }
        let ghost place = root_place(td@.root_moves, mv, 0);
        while td.root_moves[k].mv != mv
            invariant
                *td == *old(td),
                0 <= k <= place < td.pv_end <= td@.root_moves.len(),
                place == root_place(td@.root_moves, mv, k as int),
                td@.root_moves[place].mv == mv,
            decreases td@.root_moves.len() - k,
        {
            assert(td@.root_moves[k as int].mv != mv);
            k = k + 1;
        }
        assert(td@.root_moves[k as int].mv == mv);
        td.root_moves[k].nodes = td.root_moves[k].nodes.wrapping_add(
            current_nodes.wrapping_sub(initial_nodes),
        );
        if tried.move_count == 1 || score > tried.alpha {
            td.root_moves[k].score = score;
            td.root_moves[k].display_score = score;
            td.root_moves[k].upperbound = score <= tried.alpha;
            td.root_moves[k].lowerbound = score >= info.beta;
            td.root_moves[k].sel_depth = td.sel_depth;
            td.root_moves[k].pv = td.pv_table.line(1);
        } else {
            td.root_moves[k].score = -Score::INFINITE;
        }
        assert(td@.root_moves =~= root_recorded::<B>(
            old(td)@,
            mv,
            initial_nodes,
            tried.move_count == 1,
            score as int,
            tried.alpha as int,
            info.beta as int,
        ).root_moves);
    }
    if score > tried.best_score && score > tried.alpha && NODE::PV && !NODE::ROOT {
        td.pv_table.update(info.ply as usize, mv);
    }
}

} // verus!
