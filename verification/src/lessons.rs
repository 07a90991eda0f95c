//! What the tables learn at the end of a node, lesson by lesson.
use crate::backend::{Backend, CorrectionTable};
use crate::board::{told_all, Position};
use crate::frame::histories_tell_the_backend_only;
use crate::model::{
    continuation_bonus, continuation_malus, continuations_begun, continuations_learned,
    correction_bonus, histories_learned, moved, node_finished, noisies_punished, noisy_bonus,
    noisy_malus, quiet_bonus, quiet_learned, quiet_malus, quiets_punished, root_place,
    root_recorded, scaled_malus, Node, Progress, Thread,
};
use crate::nnue::{pushed, Network};
use crate::stack::{StackEntry, Subtable};
use crate::thread::{RootMoveState, ThreadState};
use crate::transposition::{Bound, TtEntry};
use crate::types::{no_move, Color, Move, Piece};
use vstd::prelude::*;

verus! {

/// A reward or a penalty: so much for every ply of depth, up to a limit.
pub proof fn rewards_and_penalties_in_numbers(depth: int)
    ensures
        quiet_bonus(depth) == if depth <= 8 {
            185 * depth
        } else {
            1648
        },
        quiet_malus(depth) == if depth <= 7 {
            162 * depth
        } else {
            1198
        },
        continuation_bonus(depth) == if depth <= 9 {
            107 * depth
        } else {
            1051
        },
        continuation_malus(depth) == if depth <= 2 {
            399 * depth
        } else {
            933
        },
        noisy_bonus(depth) == if depth <= 8 {
            89 * depth
        } else {
            748
        },
        noisy_malus(depth) == if depth <= 7 {
            179 * depth
        } else {
            1391
        },
{
}

/// The penalty for the move in place `i` is the `i + 1`-th part of the whole one, as
/// exactly as parts of 1024 allow, rounded towards zero.
pub proof fn penalties_are_shared_out(malus: int, i: int)
    requires
        0 <= malus,
        0 <= i < 1024,
    ensures
        ({
            let penalty = -scaled_malus(malus, i);
            let parts = 1024int / (i + 1);
            0 <= penalty && 1024 * penalty <= malus * parts < 1024 * (penalty + 1)
        }),
{
    let parts = 1024int / (i + 1);
    assert(-malus * parts == -(malus * parts)) by (nonlinear_arith);
    assert(malus * parts >= 0) by (nonlinear_arith)
        requires
            malus >= 0,
            parts == 1024int / (i + 1),
            i >= 0,
    ;
}

/// The correction is 142 parts in 128 of the error for every ply of depth, rounded
/// towards zero, and no less than -4771 nor more than 3001.
pub proof fn corrections_in_numbers(depth: int, diff: int)
    ensures
        ({
            let bonus = correction_bonus(depth, diff);
            let weight = 142 * depth * diff;
            &&& 0 <= weight < 128 * 3002 ==> 128 * bonus <= weight < 128 * (bonus + 1)
            &&& weight >= 128 * 3001 ==> bonus == 3001
            &&& -128 * 4772 < weight <= 0 ==> 128 * (bonus - 1) < weight <= 128 * bonus
            &&& weight <= -128 * 4771 ==> bonus == -4771
        }),
{
}

/// The engine after the quiet table has been told of a move in a position.
pub open spec fn told_quiet<B: Backend>(
    state: B::State,
    position: Position,
    mv: Move,
    bonus: int,
) -> B::State {
    B::quiet_update_model(state, position.threats, position.side_to_move, mv, bonus as i32)
}

/// The engine after the noisy table has been told of a move in a position: of the
/// chessman that moves, where to, and what it captures there.
pub open spec fn told_noisy<B: Backend>(
    state: B::State,
    position: Position,
    mv: Move,
    bonus: int,
) -> B::State {
    let target = position.squares@[mv.to.ordinal()];
    B::noisy_update_model(
        state,
        position.threats,
        position.squares@[mv.from.ordinal()],
        mv.to,
        if target is Some {
            Some(target.unwrap().piece_type)
        } else {
            None
        },
        bonus as i32,
    )
}

/// The engine after the continuation table of the move so many plies ago has been
/// told of a move; before the first move there is nothing to tell.
pub open spec fn told_continuation<B: Backend>(
    state: B::State,
    t: Thread<B>,
    ply: int,
    ago: int,
    mv: Move,
    bonus: int,
) -> B::State {
    if ply < ago || t.stack[ply - ago].mv == no_move() {
        state
    } else {
        B::continuation_update_model(
            state,
            t.stack[ply - ago].conthist,
            t.board.current.squares@[mv.from.ordinal()],
            mv.to,
            bonus as i32,
        )
    }
}

/// The continuation tables of the moves one, two, four and six plies ago are told,
/// in this order.
pub open spec fn told_continuations<B: Backend>(
    state: B::State,
    t: Thread<B>,
    ply: int,
    mv: Move,
    bonus: int,
) -> B::State {
    let one = told_continuation::<B>(state, t, ply, 1, mv, bonus);
    let two = told_continuation::<B>(one, t, ply, 2, mv, bonus);
    let four = told_continuation::<B>(two, t, ply, 4, mv, bonus);
    told_continuation::<B>(four, t, ply, 6, mv, bonus)
}

proof fn lemma_continuations<B: Backend>(
    t: Thread<B>,
    ply: int,
    piece: Option<Piece>,
    mv: Move,
    bonus: int,
)
    requires
        piece == t.board.current.squares@[mv.from.ordinal()],
    ensures
        continuations_learned::<B>(t, ply, piece, mv.to, bonus) == (ThreadState {
            backend: told_continuations::<B>(t.backend, t, ply, mv, bonus),
            ..t
        }),
{
    reveal_with_fuel(continuations_begun, 5);
}

proof fn lemma_quiets_tell_the_backend_only<B: Backend>(
    t: Thread<B>,
    depth: int,
    ply: int,
    list: Seq<Move>,
    n: int,
)
    ensures
        ({
            let after = quiets_punished::<B>(t, depth, ply, list, n);
            after == (ThreadState { backend: after.backend, ..t })
        }),
    decreases n,
{
    if n > 0 {
        lemma_quiets_tell_the_backend_only::<B>(t, depth, ply, list, n - 1);
        let before = quiets_punished::<B>(t, depth, ply, list, n - 1);
        let mv = list[n - 1];
        let told = quiet_learned::<B>(before, mv, scaled_malus(quiet_malus(depth), n - 1));
        lemma_continuations::<B>(
            told,
            ply,
            told.board.current.on(mv.from),
            mv,
            scaled_malus(continuation_malus(depth), n - 1),
        );
    }
}

proof fn lemma_quiets_of_a_longer_list<B: Backend>(
    t: Thread<B>,
    depth: int,
    ply: int,
    list: Seq<Move>,
    last: Move,
    n: int,
)
    requires
        0 <= n <= list.len(),
    ensures
        quiets_punished::<B>(t, depth, ply, list.push(last), n) == quiets_punished::<B>(
            t,
            depth,
            ply,
            list,
            n,
        ),
    decreases n,
{
    if n > 0 {
        lemma_quiets_of_a_longer_list::<B>(t, depth, ply, list, last, n - 1);
    }
}

proof fn lemma_noisies_of_a_longer_list<B: Backend>(
    t: Thread<B>,
    depth: int,
    list: Seq<Move>,
    last: Move,
    n: int,
)
    requires
        0 <= n <= list.len(),
    ensures
        noisies_punished::<B>(t, depth, list.push(last), n) == noisies_punished::<B>(
            t,
            depth,
            list,
            n,
        ),
    decreases n,
{
    if n > 0 {
        lemma_noisies_of_a_longer_list::<B>(t, depth, list, last, n - 1);
    }
}

/// With no move that failed, the tables are told of the best move alone: a noisy one
/// is rewarded in the noisy table, a quiet one in the quiet table and then in the
/// continuation tables.
pub proof fn best_moves_are_rewarded<B: Backend>(t: Thread<B>, node: Node, p: Progress)
    requires
        p.quiet_moves.len() == 0,
        p.noisy_moves.len() == 0,
    ensures
        ({
            let position = t.board.current;
            let best = p.best_move;
            histories_learned::<B>(t, node, p) == (ThreadState {
                backend: if best.noisy() {
                    told_noisy::<B>(t.backend, position, best, noisy_bonus(node.depth))
                } else {
                    told_continuations::<B>(
                        told_quiet::<B>(t.backend, position, best, quiet_bonus(node.depth)),
                        t,
                        node.ply,
                        best,
                        continuation_bonus(node.depth),
                    )
                },
                ..t
            })
        }),
{
    let a = quiet_learned::<B>(t, p.best_move, quiet_bonus(node.depth));
    lemma_continuations::<B>(
        a,
        node.ply,
        a.board.current.on(p.best_move.from),
        p.best_move,
        continuation_bonus(node.depth),
    );
}

/// One more quiet move that failed, no noisy one having failed, is one more lesson:
/// nothing if the best move is noisy, else a penalty in the quiet table and then in
/// the continuation tables, shared out by how many quiet moves failed before.
#[verifier::rlimit(30)]
pub proof fn every_quiet_failure_is_punished<B: Backend>(
    t: Thread<B>,
    node: Node,
    p: Progress,
    mv: Move,
)
    requires
        p.noisy_moves.len() == 0,
    ensures
        ({
            let before = histories_learned::<B>(t, node, p);
            let more = Progress { quiet_moves: p.quiet_moves.push(mv), ..p };
            let place = p.quiet_moves.len() as int;
            histories_learned::<B>(t, node, more) == if p.best_move.noisy() {
                before
            } else {
                ThreadState {
                    backend: told_continuations::<B>(
                        told_quiet::<B>(
                            before.backend,
                            t.board.current,
                            mv,
                            scaled_malus(quiet_malus(node.depth), place),
                        ),
                        t,
                        node.ply,
                        mv,
                        scaled_malus(continuation_malus(node.depth), place),
                    ),
                    ..t
                }
            }
        }),
{
    let place = p.quiet_moves.len() as int;
    let a = quiet_learned::<B>(t, p.best_move, quiet_bonus(node.depth));
    lemma_continuations::<B>(
        a,
        node.ply,
        a.board.current.on(p.best_move.from),
        p.best_move,
        continuation_bonus(node.depth),
    );
    let b = continuations_learned::<B>(
        a,
        node.ply,
        a.board.current.on(p.best_move.from),
        p.best_move.to,
        continuation_bonus(node.depth),
    );
    lemma_quiets_of_a_longer_list::<B>(b, node.depth, node.ply, p.quiet_moves, mv, place);
    lemma_quiets_tell_the_backend_only::<B>(b, node.depth, node.ply, p.quiet_moves, place);
    let c = quiets_punished::<B>(b, node.depth, node.ply, p.quiet_moves, place);
    let d = quiet_learned::<B>(c, mv, scaled_malus(quiet_malus(node.depth), place));
    lemma_continuations::<B>(
        d,
        node.ply,
        d.board.current.on(mv.from),
        mv,
        scaled_malus(continuation_malus(node.depth), place),
    );
    assert(p.quiet_moves.push(mv)[place] == mv);
}

/// One more noisy move that failed is one more lesson: a penalty in the noisy table,
/// always the whole one, whatever the best move is.
pub proof fn every_noisy_failure_is_punished<B: Backend>(
    t: Thread<B>,
    node: Node,
    p: Progress,
    mv: Move,
)
    ensures
        ({
            let before = histories_learned::<B>(t, node, p);
            let more = Progress { noisy_moves: p.noisy_moves.push(mv), ..p };
            histories_learned::<B>(t, node, more) == (ThreadState {
                backend: told_noisy::<B>(
                    before.backend,
                    t.board.current,
                    mv,
                    -noisy_malus(node.depth),
                ),
                ..t
            })
        }),
{
    histories_tell_the_backend_only::<B>(t, node, p);
    let n = p.noisy_moves.len() as int;
    let none = Progress { noisy_moves: Seq::empty(), ..p };
    histories_tell_the_backend_only::<B>(t, node, none);
    let t1 = histories_learned::<B>(t, node, none);
    lemma_noisies_of_a_longer_list::<B>(t1, node.depth, p.noisy_moves, mv, n);
    assert(p.noisy_moves.push(mv)[n] == mv);
}

/// Whether the score of a node says how far its evaluation was off: the node is
/// evaluated, its best move is not noisy, and the score is not merely a bound on the
/// side where the evaluation is anyway.
pub open spec fn tells_the_error(in_check: bool, node: Node, p: Progress) -> bool {
    &&& !in_check
    &&& node.raw != 32002
    &&& !p.best_move.noisy()
    &&& p.bound == Bound::Upper ==> p.best_score < node.eval
    &&& p.bound == Bound::Lower ==> p.best_score > node.eval
}

/// A node with moves returns the best score. First the histories learn, if there is
/// a best move; then the score is stored, with the node's depth, its evaluation and
/// the bound, except for the later lines of the root; then the three correction
/// tables learn, where the score says how far the evaluation was off.
#[verifier::rlimit(30)]
pub proof fn results_are_learned_from<B: Backend>(t: Thread<B>, node: Node, p: Progress)
    requires
        p.move_count != 0,
    ensures
        ({
            let position = t.board.current;
            let learned = if p.best_move == no_move() {
                t.backend
            } else {
                histories_learned::<B>(t, node, p).backend
            };
            let noted = if node.root && t.pv_index > 0 {
                learned
            } else {
                B::tt_write_model(
                    learned,
                    position.hash,
                    TtEntry {
                        mv: p.best_move,
                        score: p.best_score as i32,
                        raw_eval: node.raw as i32,
                        depth: node.depth as i32,
                        bound: p.bound,
                    },
                    node.ply,
                    node.pv,
                    node.pv,
                )
            };
            let bonus = correction_bonus(node.depth, p.best_score - node.eval) as i32;
            let stm = position.side_to_move;
            let bucket = position.halfmove_clock_bucket;
            let pawn = B::correction_update_model(
                noted,
                CorrectionTable::Pawn,
                stm,
                position.pawn_key,
                bucket,
                bonus,
            );
            let white = B::correction_update_model(
                pawn,
                CorrectionTable::NonPawn(Color::White),
                stm,
                position.white_non_pawn_key,
                bucket,
                bonus,
            );
            let black = B::correction_update_model(
                white,
                CorrectionTable::NonPawn(Color::Black),
                stm,
                position.black_non_pawn_key,
                bucket,
                bonus,
            );
            node_finished::<B>(t, node, p) == (
                ThreadState {
                    backend: if tells_the_error(position.in_check, node, p) {
                        black
                    } else {
                        noted
                    },
                    ..t
                },
                p.best_score,
            )
        }),
{
    reveal(node_finished);
    histories_tell_the_backend_only::<B>(t, node, p);
}

/// A node none of whose moves counts teaches nothing and stores nothing; it is mate
/// in check, the sooner the lower, and a draw otherwise.
pub proof fn nodes_without_moves_are_over<B: Backend>(t: Thread<B>, node: Node, p: Progress)
    requires
        p.move_count == 0,
    ensures
        node_finished::<B>(t, node, p) == (
            t,
            if t.board.current.in_check {
                node.ply - 32000
            } else {
                B::draw_score_model(t.backend, t.nodes) as int
            },
        ),
{
    reveal(node_finished);
}

// ---------------------------------------------------------------------------
// Making moves
// ---------------------------------------------------------------------------

/// Making a move changes the position, which goes on the history, and counts one
/// node; the network puts its accumulators aside and is told of every change on the
/// board; the entry of the new position is fetched; and the move is noted on the
/// stack with its chessman and the continuation tables it goes with. Nothing else
/// changes.
pub proof fn moves_are_made<B: Backend>(t: Thread<B>, ply: int, mv: Move)
    requires
        0 <= ply < t.stack.len(),
    ensures
        ({
            let after = moved::<B>(t, ply, mv);
            let (next, changes) = B::play_model(t.backend, t.board.current, mv);
            let piece = t.board.current.squares@[mv.from.ordinal()];
            let subtable = Subtable {
                in_check: t.board.current.in_check,
                noisy: mv.noisy(),
                piece,
                to: mv.to,
            };
            &&& after.board.current == next
            &&& after.board.history == t.board.history.push(t.board.current)
            &&& after.network == told_all::<Network>(pushed(t.network), changes)
            &&& after.backend == B::prefetch_model(t.backend, next.hash)
            &&& after.nodes == if t.nodes == u64::MAX {
                0
            } else {
                t.nodes + 1
            }
            &&& after.stack == t.stack.update(
                ply,
                StackEntry {
                    mv,
                    piece,
                    conthist: Some(subtable),
                    contcorrhist: Some(subtable),
                    ..t.stack[ply]
                },
            )
            &&& after == (ThreadState {
                board: after.board,
                network: after.network,
                backend: after.backend,
                nodes: after.nodes,
                stack: after.stack,
                ..t
            })
        }),
{
    reveal(moved);
}

// ---------------------------------------------------------------------------
// The root
// ---------------------------------------------------------------------------

/// The result of a root move: it is charged with the nodes that were visited since.
/// If it is the first, or better than the lower end of the window, it gets the
/// score, whether that is a bound, how deep the search went, and the line of the
/// next ply; else it counts as lost, and shows what it showed before. No other root
/// move changes.
pub proof fn root_moves_get_their_results<B: Backend>(
    t: Thread<B>,
    mv: Move,
    nodes_before: u64,
    first: bool,
    score: int,
    alpha: int,
    beta: int,
    i: int,
)
    requires
        0 <= i < t.root_moves.len(),
        t.root_moves[i].mv == mv,
        forall|j: int| 0 <= j < i ==> (#[trigger] t.root_moves[j]).mv != mv,
        nodes_before <= t.nodes,
        t.root_moves[i].nodes + (t.nodes - nodes_before) <= u64::MAX,
    ensures
        ({
            let after = root_recorded::<B>(t, mv, nodes_before, first, score, alpha, beta);
            let old_move = t.root_moves[i];
            let new_move = after.root_moves[i];
            &&& after.root_moves == t.root_moves.update(i, new_move)
            &&& after == (ThreadState { root_moves: after.root_moves, ..t })
            &&& new_move.mv == mv
            &&& new_move.nodes == old_move.nodes + (t.nodes - nodes_before)
            &&& new_move.previous_score == old_move.previous_score
            &&& if first || score > alpha {
                &&& new_move.score == score as i32
                &&& new_move.display_score == score as i32
                &&& new_move.upperbound <==> score <= alpha
                &&& new_move.lowerbound <==> score >= beta
                &&& new_move.sel_depth == t.sel_depth
                &&& new_move.pv == t.pv_table[1]
            } else {
                &&& new_move.score == -32001
                &&& new_move == (RootMoveState {
                    score: new_move.score,
                    nodes: new_move.nodes,
                    ..old_move
                })
            }
        }),
{
    reveal(root_recorded);
    lemma_first_place(t.root_moves, mv, 0, i);
}

proof fn lemma_first_place(root_moves: Seq<RootMoveState>, mv: Move, from: int, i: int)
    requires
        0 <= from <= i < root_moves.len(),
        root_moves[i].mv == mv,
        forall|j: int| from <= j < i ==> (#[trigger] root_moves[j]).mv != mv,
    ensures
        root_place(root_moves, mv, from) == i,
    decreases i - from,
{
    if from < i {
        lemma_first_place(root_moves, mv, from + 1, i);
    }
}

} // verus!
