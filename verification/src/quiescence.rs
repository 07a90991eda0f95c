//! Quiescence search.
use crate::backend::Backend;
use crate::frame::{kept, kept_lightly, kept_means, kept_twice, line_is_undone};
use crate::model::{moved, quiesced, quiet_moves_tried, quiet_result, unmoved, QuietProgress};
use crate::movepick::MovePicker;
use crate::search::NodeType;
use crate::steps::{
    draw, make_move, out_of_time, raw_evaluation, static_eval, tt_settles, undo_move,
};
use crate::thread::ThreadData;
use crate::transposition::{Bound, TtDepth, TtEntry};
use crate::types::{mated_in, Move, Score, MAX_MOVES, MAX_PLY};
use vstd::prelude::*;

verus! {

/// Quiescence search: it goes on with captures, or with every move in check,
/// until the position is quiet.
#[verifier::rlimit(60)]
pub fn qsearch<NODE: NodeType, B: Backend>(
    td: &mut ThreadData<B>,
    alpha: i32,
    beta: i32,
    ply: isize,
) -> (score: i32)
    requires
        !NODE::ROOT,
        old(td)@.wf(),
        0 <= ply <= MAX_PLY,
        i32::MIN < alpha,
        i32::MIN < beta,
    ensures
        (final(td)@, score as int) == quiesced::<B>(
            old(td)@,
            NODE::PV,
            alpha as int,
            beta as int,
            ply as int,
        ),
        -Score::MATE <= score <= Score::MATE,
        final(td)@.wf(),
        kept(old(td)@, final(td)@, ply as int),
        final(td)@.root_moves == old(td)@.root_moves,
        !NODE::PV ==> final(td)@.pv_table == old(td)@.pv_table && final(td)@.sel_depth == old(
            td,
        )@.sel_depth,
    decreases MAX_PLY - ply,
{
    let mut floor: i32 = alpha;
    if NODE::PV {
        td.pv_table.clear(ply as usize);
        td.sel_depth = td.sel_depth.max(ply as i32);
    }
    proof {
        kept_lightly(old(td)@, td@, ply as int);
    }
    if out_of_time(td) {
        td.backend.stop();
        proof {
            kept_lightly(old(td)@, td@, ply as int);
        }
        return Score::ZERO;
    }
    proof {
        kept_lightly(old(td)@, td@, ply as int);
    }
    if td.backend.is_draw(&td.board, ply) {
        return draw(td);
    }
    if ply as usize >= MAX_PLY - 1 {
        return static_eval(td);
    }
    let entry = td.backend.tt_read(td.board.current.hash, td.board.current.halfmove_clock, ply);
    proof {
        kept_lightly(old(td)@, td@, ply as int);
    }
    if let Some(e) = &entry {
        if tt_settles(e, alpha, beta) {
            return e.score;
        }
    }
    let in_check = td.board.current.in_check;
    let raw_eval = raw_evaluation(td, &entry);
    let mut best_score: i32;
    if in_check {
        best_score = -Score::INFINITE;
    } else {
        best_score = raw_eval;
        if best_score >= beta {
            return best_score;
        }
        if best_score > floor {
            floor = best_score;
        }
    }
    let mut best_move = Move::null();
    let mut move_count: i32 = 0;
    let mut move_picker = MovePicker::new_qsearch();
    let ghost t2 = td@;
    let ghost goal = quiet_moves_tried::<B>(
        td@,
        NODE::PV,
        beta as int,
        ply as int,
        QuietProgress {
            alpha: floor as int,
            best_score: best_score as int,
            best_move,
            move_count: 0,
            picker: move_picker,
        },
    );
    loop
        invariant_except_break
            goal == quiet_moves_tried::<B>(
                td@,
                NODE::PV,
                beta as int,
                ply as int,
                QuietProgress {
                    alpha: floor as int,
                    best_score: best_score as int,
                    best_move,
                    move_count: move_count as int,
                    picker: move_picker,
                },
            ),
        invariant
            !NODE::ROOT,
            0 <= ply < MAX_PLY - 1,
            i32::MIN < floor,
            i32::MIN < beta,
            !NODE::PV ==> td@.pv_table == old(td)@.pv_table && td@.sel_depth == old(td)@.sel_depth,
            td@.wf(),
            kept(old(td)@, td@, ply as int),
            td@.root_moves == old(td)@.root_moves,
            t2.board == td@.board,
            in_check == td@.board.current.in_check,
            move_count == move_picker.handed_out,
            move_picker.handed_out <= MAX_MOVES,
            best_score <= Score::MATE,
            best_score >= -Score::MATE || (in_check && move_count == 0 && best_score
                == -Score::INFINITE),
            quiesced::<B>(old(td)@, NODE::PV, alpha as int, beta as int, ply as int) == (
            match goal.1 {
                None => (goal.0, Score::ZERO as int),
                Some(p) => quiet_result::<B>(
                    goal.0,
                    NODE::PV,
                    beta as int,
                    ply as int,
                    raw_eval as int,
                    p,
                ),
            }),
        ensures
            goal == (
                td@,
                Some(
                    QuietProgress {
                        alpha: floor as int,
                        best_score: best_score as int,
                        best_move,
                        move_count: move_count as int,
                        picker: move_picker,
                    },
                ),
            ),
        decreases MAX_MOVES - move_picker.handed_out,
    {
        let ghost at_pick = td@;
        let mv = match move_picker.next::<NODE, B>(td, !in_check, ply) {
            Some(mv) => mv,
            None => {
                proof {
                    kept_lightly(at_pick, td@, ply as int);
                    kept_twice(old(td)@, at_pick, td@, ply as int);
                }
                break;
            },
        };
        move_count = move_count + 1;
        proof {
            kept_lightly(at_pick, td@, ply as int);
            kept_twice(old(td)@, at_pick, td@, ply as int);
        }
        let ghost before = td@;
        make_move(td, ply, mv);
        let score = -qsearch::<NODE, B>(td, -beta, -floor, ply + 1);
        proof {
            kept_means(moved::<B>(before, ply as int, mv), td@, ply + 1);
            line_is_undone::<B>(before, ply as int, mv, td@);
            kept_means(before, unmoved::<B>(td@), ply as int);
            kept_twice(old(td)@, before, unmoved::<B>(td@), ply as int);
        }
        undo_move(td, mv);
        let ghost undone = td@;
        let stopped = td.backend.stopped();
        proof {
            kept_lightly(undone, td@, ply as int);
            kept_twice(old(td)@, undone, td@, ply as int);
        }
        if stopped {
            return Score::ZERO;
        }
        if score > best_score {
            best_score = score;
            if score > floor {
                best_move = mv;
                if NODE::PV {
                    let ghost polled_state = td@;
                    td.pv_table.update(ply as usize, mv);
                    proof {
                        kept_lightly(polled_state, td@, ply as int);
                        kept_twice(old(td)@, polled_state, td@, ply as int);
                    }
                }
                if score >= beta {
                    break;
                }
                floor = score;
            }
        }
    }
    reveal(quiet_result);
    if in_check && move_count == 0 {
        return mated_in(ply);
    }
    let bound = if best_score >= beta {
        Bound::Lower
    } else {
        Bound::Upper
    };
    let ghost tried = td@;
    td.backend.tt_write(
        td.board.current.hash,
        TtEntry { mv: best_move, score: best_score, raw_eval, depth: TtDepth::SOME, bound },
        ply,
        NODE::PV,
        false,
    );
    proof {
        kept_lightly(tried, td@, ply as int);
        kept_twice(old(td)@, tried, td@, ply as int);
    }
    best_score
}

} // verus!
