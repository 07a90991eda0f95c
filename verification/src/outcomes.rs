//! What a search comes to, case by case.
use crate::accounts::{
    best_of, count_of, fairly_tried, highest, moves_are_accounted_for, node_account, quiet_account,
    quiet_moves_are_accounted_for, quiet_scores, NodeStep, QuietStep,
};
use crate::backend::{Backend, CorrectionTable};
use crate::board::{has_officer, is_officer, BoardState};
use crate::evaluation::corrected;
use crate::model::{
    excluding, fully_searched, moves_tried, no_progress, node_entered, node_finished, node_of,
    node_searched, null_reduction, null_searched, passed, probes_singular, quiesced,
    quiet_moves_tried, quiet_result, raw_value, razored, reverse_futile, searched, singular_probed,
    static_value, suggested_correction, tries_null_move, unpassed, Node, QuietProgress, Thread,
};
use crate::movepick::{MovePicker, Stage};
use crate::nnue::network_score;
use crate::stack::StackEntry;
use crate::thread::ThreadState;
use crate::transposition::{Bound, TtEntry};
use crate::types::{no_move, Color, PieceType, MAX_PLY};
use vstd::prelude::*;

verus! {

// ---------------------------------------------------------------------------
// Before a node is searched
// ---------------------------------------------------------------------------

/// The engine after a thread has asked whether to stop and, being the main one,
/// what the clock says.
pub open spec fn asked<B: Backend>(t: Thread<B>) -> B::State {
    let heard = B::stopped_model(t.backend).0;
    if t.id == 0 {
        B::check_time_model(heard, t.nodes, t.completed_depth).0
    } else {
        heard
    }
}

/// Nobody has told the search to stop, and the main thread has time left.
pub open spec fn undisturbed<B: Backend>(t: Thread<B>) -> bool {
    let heard = B::stopped_model(t.backend);
    &&& !heard.1
    &&& t.id == 0 ==> !B::check_time_model(heard.0, t.nodes, t.completed_depth).1
}

/// The thread with the backend in another state and, if so wanted, an empty line of
/// a ply.
pub open spec fn with_backend<B: Backend>(
    t: Thread<B>,
    state: B::State,
    cleared: bool,
    ply: int,
) -> Thread<B> {
    ThreadState {
        backend: state,
        pv_table: if cleared {
            t.pv_table.update(ply, Seq::empty())
        } else {
            t.pv_table
        },
        ..t
    }
}

/// When the main thread finds time over, its search returns zero and tells every
/// thread to stop.
pub proof fn searches_end_with_the_clock<B: Backend>(
    t: Thread<B>,
    pv: bool,
    root: bool,
    alpha: int,
    beta: int,
    depth: int,
    ply: int,
)
    requires
        0 <= ply < MAX_PLY,
        depth >= 1,
        t.id == 0,
        !B::stopped_model(t.backend).1,
        B::check_time_model(B::stopped_model(t.backend).0, t.nodes, t.completed_depth).1,
    ensures
        ({
            let (after, score) = searched::<B>(t, pv, root, alpha, beta, depth, ply);
            &&& score == 0
            &&& after == with_backend::<B>(t, B::stop_model(asked::<B>(t)), pv && !root, ply)
        }),
{
}

/// A drawn position below the root has the score of a draw, whatever the window
/// and the depth.
pub proof fn drawn_positions_are_draws<B: Backend>(
    t: Thread<B>,
    pv: bool,
    alpha: int,
    beta: int,
    depth: int,
    ply: int,
)
    requires
        0 <= ply < MAX_PLY,
        depth >= 1,
        undisturbed::<B>(t),
        B::is_draw_model(asked::<B>(t), t.board, ply),
    ensures
        ({
            let (after, score) = searched::<B>(t, pv, false, alpha, beta, depth, ply);
            &&& score == B::draw_score_model(asked::<B>(t), t.nodes)
            &&& after == with_backend::<B>(t, asked::<B>(t), pv, ply)
        }),
{
}

/// On the last ply the search returns what the network makes of the position.
pub proof fn the_last_ply_is_evaluated<B: Backend>(
    t: Thread<B>,
    pv: bool,
    alpha: int,
    beta: int,
    depth: int,
    ply: int,
)
    requires
        ply == MAX_PLY - 1,
        depth >= 1,
        undisturbed::<B>(t),
        !B::is_draw_model(asked::<B>(t), t.board, ply),
    ensures
        ({
            let (after, score) = searched::<B>(t, pv, false, alpha, beta, depth, ply);
            &&& score == network_score(
                t.network,
                t.board.current.side_to_move,
                t.board.current.men(),
            )
            &&& after == with_backend::<B>(t, asked::<B>(t), pv, ply)
        }),
{
    reveal(static_value);
}

/// Below the root no score is worse than being mated on the spot, nor better than
/// mating with the next move, so that a window reaching beyond these is as good as
/// one that ends there.
pub proof fn windows_end_at_the_mates<B: Backend>(
    t: Thread<B>,
    pv: bool,
    alpha: int,
    beta: int,
    depth: int,
    ply: int,
)
    requires
        0 <= ply <= MAX_PLY,
        depth >= 1,
    ensures
        ({
            let lowest = ply - 32000;
            let uppermost = 32000 - (ply + 1);
            searched::<B>(t, pv, false, alpha, beta, depth, ply) == searched::<B>(
                t,
                pv,
                false,
                if alpha < lowest {
                    lowest
                } else {
                    alpha
                },
                if beta > uppermost {
                    uppermost
                } else {
                    beta
                },
                depth,
                ply,
            )
        }),
{
}

/// A window without room between the mates is not searched: its lower end is the
/// score, and no entry is read.
pub proof fn windows_without_room_are_not_searched<B: Backend>(
    t: Thread<B>,
    pv: bool,
    alpha: int,
    beta: int,
    depth: int,
    ply: int,
)
    requires
        0 <= ply < MAX_PLY - 1,
        depth >= 1,
        undisturbed::<B>(t),
        !B::is_draw_model(asked::<B>(t), t.board, ply),
        ply - 32000 <= alpha,
        alpha >= beta || alpha >= 31999 - ply,
    ensures
        ({
            let (after, score) = searched::<B>(t, pv, false, alpha, beta, depth, ply);
            &&& score == alpha
            &&& after == with_backend::<B>(t, asked::<B>(t), pv, ply)
        }),
{
}

/// Any other node is searched, with the window it was given; the root always is,
/// even where the game is drawn. The line of a node of the principal variation is
/// emptied before.
pub proof fn other_nodes_are_searched<B: Backend>(
    t: Thread<B>,
    pv: bool,
    root: bool,
    alpha: int,
    beta: int,
    depth: int,
    ply: int,
)
    requires
        0 <= ply < MAX_PLY - 1,
        depth >= 1,
        undisturbed::<B>(t),
        root || !B::is_draw_model(asked::<B>(t), t.board, ply),
        root || ply - 32000 <= alpha < beta <= 31999 - ply,
    ensures
        searched::<B>(t, pv, root, alpha, beta, depth, ply) == node_searched::<B>(
            with_backend::<B>(t, asked::<B>(t), pv && !root, ply),
            pv,
            root,
            alpha,
            beta,
            depth,
            ply,
        ),
{
}

// ---------------------------------------------------------------------------
// What settles a node
// ---------------------------------------------------------------------------

/// Whether a stored score says enough about a window: an exact one always does,
/// an upper bound if it is not above the window, a lower bound if it is not below.
pub open spec fn says_enough(e: TtEntry, alpha: int, beta: int) -> bool {
    &&& e.score != 32002
    &&& e.bound == Bound::Upper ==> e.score <= alpha
    &&& e.bound == Bound::Lower ==> e.score >= beta
}

/// The stored result of a search as deep at least is returned where the window is
/// closed and no move is left out, and nowhere else.
pub proof fn stored_results_settle_closed_windows<B: Backend>(
    t: Thread<B>,
    pv: bool,
    root: bool,
    alpha: int,
    beta: int,
    depth: int,
    ply: int,
)
    requires
        0 <= ply < MAX_PLY,
    ensures
        ({
            let position = t.board.current;
            let (read, entry) = B::tt_read_model(
                t.backend,
                position.hash,
                position.halfmove_clock,
                ply,
            );
            let there = ThreadState { backend: read, ..t };
            let found = node_searched::<B>(t, pv, root, alpha, beta, depth, ply);
            let settled = entry matches Some(e) && !pv && e.depth >= depth && says_enough(
                e,
                alpha,
                beta,
            ) && t.stack[ply].excluded == no_move();
            let node = node_of::<B>(there, pv, root, alpha, beta, depth, ply, entry);
            &&& settled ==> found == (there, entry.unwrap().score as int)
            &&& !settled && reverse_futile(node, position.in_check) ==> found == (
                node_entered::<B>(there, node),
                node.eval,
            )
            &&& !settled && !reverse_futile(node, position.in_check) ==> found
                == null_searched::<B>(node_entered::<B>(there, node), node)
        }),
{
    reveal(node_entered);
}

/// What a node knows. Its evaluation is the stored one or, if none is stored, the
/// network's, corrected; in check there is none. A node of some depth without a
/// move to begin with loses a ply. It is improving if it is evaluated, and better
/// than two plies ago.
pub proof fn nodes_know_their_position<B: Backend>(
    t: Thread<B>,
    pv: bool,
    root: bool,
    alpha: int,
    beta: int,
    depth: int,
    ply: int,
    entry: Option<TtEntry>,
)
    ensures
        ({
            let node = node_of::<B>(t, pv, root, alpha, beta, depth, ply, entry);
            let position = t.board.current;
            let fresh = network_score(t.network, position.side_to_move, position.men());
            &&& node.pv == pv
            &&& node.root == root
            &&& node.alpha == alpha
            &&& node.beta == beta
            &&& node.ply == ply
            &&& node.entry == entry
            &&& node.depth == if depth >= 4 && (entry is None || entry.unwrap().mv == no_move()) {
                depth - 1
            } else {
                depth
            }
            &&& position.in_check ==> node.raw == 32002 && node.eval == 32002 && !node.improving
            &&& !position.in_check ==> {
                &&& node.raw == if entry is Some && entry.unwrap().raw_eval != 32002 {
                    entry.unwrap().raw_eval as int
                } else {
                    fresh
                }
                &&& node.eval == corrected(
                    node.raw,
                    suggested_correction::<B>(t),
                    position.halfmove_clock as int,
                )
                &&& node.improving <==> ply >= 2 && t.stack[ply - 2].eval != 32002 && node.eval
                    > t.stack[ply - 2].eval
            }
        }),
{
    reveal(raw_value);
    reveal(static_value);
}

/// The correction is a seventy-third, rounded towards zero, of what three tables
/// say together: that of the pawns, and for each side that of its other men.
pub proof fn three_tables_correct<B: Backend>(t: Thread<B>)
    ensures
        ({
            let position = t.board.current;
            let stm = position.side_to_move;
            let bucket = position.halfmove_clock_bucket;
            let sum = B::correction_model(
                t.backend,
                CorrectionTable::Pawn,
                stm,
                position.pawn_key,
                bucket,
            ) + B::correction_model(
                t.backend,
                CorrectionTable::NonPawn(Color::White),
                stm,
                position.white_non_pawn_key,
                bucket,
            ) + B::correction_model(
                t.backend,
                CorrectionTable::NonPawn(Color::Black),
                stm,
                position.black_non_pawn_key,
                bucket,
            );
            let correction = suggested_correction::<B>(t);
            &&& sum >= 0 ==> 73 * correction <= sum < 73 * (correction + 1)
            &&& sum <= 0 ==> 73 * (correction - 1) < sum <= 73 * correction
        }),
{
    reveal(suggested_correction);
}

/// Entering a node notes it on the stack, forgets the cutoffs two plies on, and
/// stores a fresh evaluation where nothing was stored.
pub proof fn nodes_are_entered<B: Backend>(t: Thread<B>, node: Node)
    requires
        0 <= node.ply,
        node.ply + 2 < t.stack.len(),
    ensures
        ({
            let after = node_entered::<B>(t, node);
            let here = after.stack[node.ply];
            &&& after.stack.len() == t.stack.len()
            &&& here.eval == node.eval as i32
            &&& here.tt_move == match node.entry {
                Some(e) => e.mv,
                None => no_move(),
            }
            &&& here.tt_pv == node.pv
            &&& here.reduction == 0
            &&& here.move_count == 0
            &&& here.excluded == t.stack[node.ply].excluded
            &&& after.stack[node.ply + 2] == (StackEntry {
                cutoff_count: 0,
                ..t.stack[node.ply + 2]
            })
            &&& forall|k: int|
                0 <= k < t.stack.len() && k != node.ply && k != node.ply + 2 ==> after.stack[k]
                    == t.stack[k]
            &&& after.backend == if t.board.current.in_check || node.entry is Some {
                t.backend
            } else {
                B::tt_write_model(
                    t.backend,
                    t.board.current.hash,
                    TtEntry {
                        mv: no_move(),
                        score: 32002,
                        raw_eval: node.raw as i32,
                        depth: (-1int) as i32,
                        bound: Bound::Absent,
                    },
                    node.ply,
                    node.pv,
                    false,
                )
            }
            &&& after == (ThreadState { backend: after.backend, stack: after.stack, ..t })
        }),
{
    reveal(node_entered);
}

/// The evaluation settles a node with a closed window, out of check and up to
/// depth eight, if it is above the window by seventy-five for every ply of depth,
/// of which an improving position needs one less.
pub proof fn margins_settle_high_nodes(node: Node, in_check: bool)
    ensures
        reverse_futile(node, in_check) <==> !node.pv && !in_check && node.depth <= 8 && node.eval
            >= node.beta + 75 * node.depth - if node.improving {
            75int
        } else {
            0
        },
{
    reveal(reverse_futile);
}

/// A null move is tried with a closed window, out of check, from depth three on,
/// with an evaluation that is not below the window, if the last move was none and
/// the mover has a knight, bishop, rook or queen.
pub proof fn null_moves_have_their_conditions<B: Backend>(t: Thread<B>, node: Node)
    ensures
        tries_null_move::<B>(t, node) <==> !node.pv && !t.board.current.in_check && node.depth >= 3
            && node.eval >= node.beta && t.board.current.plies_from_null > 0 && exists|k: int|
            0 <= k < 64 && (#[trigger] t.board.current.squares@[k] matches Some(piece)
                && piece.color == t.board.current.side_to_move && (piece.piece_type
                == PieceType::Knight || piece.piece_type == PieceType::Bishop || piece.piece_type
                == PieceType::Rook || piece.piece_type == PieceType::Queen)),
{
    reveal(tries_null_move);
    let squares = t.board.current.squares@;
    let stm = t.board.current.side_to_move;
    if has_officer(squares, stm) {
        let k = choose|k: int| 0 <= k < 64 && is_officer(#[trigger] squares[k], stm);
        assert(squares[k] is Some);
    }
    if exists|k: int|
        0 <= k < 64 && (#[trigger] squares[k] matches Some(piece) && piece.color == stm && (
        piece.piece_type == PieceType::Knight || piece.piece_type == PieceType::Bishop
            || piece.piece_type == PieceType::Rook || piece.piece_type == PieceType::Queen)) {
        let k = choose|k: int|
            0 <= k < 64 && (#[trigger] squares[k] matches Some(piece) && piece.color == stm && (
            piece.piece_type == PieceType::Knight || piece.piece_type == PieceType::Bishop
                || piece.piece_type == PieceType::Rook || piece.piece_type == PieceType::Queen));
        assert(is_officer(squares[k], stm));
    }
}

/// A null move is answered by a search of the least window at the upper end, with
/// the turn given away, at a depth reduced by three, a third of the depth, and a
/// ply more for every two hundred points that the evaluation is above the window,
/// up to three. If the answer does not hold the opponent above the window, the
/// node is searched as if nothing had been tried.
pub proof fn null_moves_are_answered<B: Backend>(t: Thread<B>, node: Node)
    requires
        0 <= node.ply < MAX_PLY,
    ensures
        ({
            let above = node.eval - node.beta;
            let more = if above < 200 {
                0int
            } else if above < 400 {
                1
            } else if above < 600 {
                2
            } else {
                3
            };
            let given_away = ThreadState {
                board: BoardState {
                    current: B::pass_model(t.backend, t.board.current),
                    history: t.board.history.push(t.board.current),
                },
                ..t
            };
            let (replied, reply) = searched::<B>(
                given_away,
                false,
                false,
                -node.beta,
                1 - node.beta,
                node.depth - 3 - node.depth / 3 - more,
                node.ply + 1,
            );
            let taken_back = ThreadState {
                board: BoardState {
                    current: replied.board.history.last(),
                    history: replied.board.history.drop_last(),
                },
                ..replied
            };
            let found = null_searched::<B>(t, node);
            &&& !tries_null_move::<B>(t, node) ==> found == fully_searched::<B>(t, node)
            &&& tries_null_move::<B>(t, node) && -reply >= node.beta ==> found == (
                taken_back,
                node.beta,
            )
            &&& tries_null_move::<B>(t, node) && -reply < node.beta ==> found
                == fully_searched::<B>(taken_back, node)
        }),
{
    reveal(tries_null_move);
    reveal(null_reduction);
    reveal(passed);
    reveal(unpassed);
}

/// Only captures can help a node with a closed window, out of check and up to
/// depth four, if the evaluation is below the window by more than 135 and 220 for
/// every ply of depth.
pub proof fn margins_leave_low_nodes_to_captures<B: Backend>(t: Thread<B>, node: Node)
    requires
        0 <= node.ply < MAX_PLY,
    ensures
        razored(node, t.board.current.in_check) <==> !node.pv && !t.board.current.in_check
            && node.depth <= 4 && node.eval != 32002 && node.alpha - node.eval > 135 + 220
            * node.depth,
        razored(node, t.board.current.in_check) ==> fully_searched::<B>(t, node) == quiesced::<B>(
            t,
            node.pv,
            node.alpha,
            node.beta,
            node.ply,
        ),
{
    reveal(razored);
}

/// The stored move is put to the test below the root, from depth six on, unless
/// its score is an upper bound or missing, comes from a search more than three
/// plies shallower, or the ply is itself being searched without one of its moves.
/// The test is a search of the same ply without the move, at half the depth, of
/// the least window below the stored score less twice the depth. The move is
/// singular if that fails low. Afterwards no move is left out.
#[verifier::rlimit(30)]
pub proof fn stored_moves_are_tested<B: Backend>(t: Thread<B>, node: Node)
    requires
        0 <= node.ply < MAX_PLY,
        node.ply < t.stack.len(),
    ensures
        ({
            let found = singular_probed::<B>(t, node);
            let e = node.entry.unwrap();
            let tested = node.entry is Some && !node.root && node.depth >= 6 && e.mv != no_move()
                && e.bound != Bound::Upper && e.score != 32002 && e.depth >= node.depth - 3
                && t.stack[node.ply].excluded == no_move();
            let goal = e.score - 2 * node.depth;
            let without = ThreadState {
                stack: t.stack.update(
                    node.ply,
                    StackEntry { excluded: e.mv, ..t.stack[node.ply] },
                ),
                ..t
            };
            let (after, score) = searched::<B>(
                without,
                false,
                false,
                goal - 1,
                goal,
                node.depth / 2,
                node.ply,
            );
            &&& !tested ==> found == (t, false)
            &&& tested ==> found.1 == (score < goal) && found.0 == (ThreadState {
                stack: after.stack.update(
                    node.ply,
                    StackEntry { excluded: no_move(), ..after.stack[node.ply] },
                ),
                ..after
            })
        }),
{
    reveal(probes_singular);
    reveal(excluding);
}

// ---------------------------------------------------------------------------
// The end of a node
// ---------------------------------------------------------------------------

proof fn lemma_count_is_natural<S>(steps: Seq<NodeStep<S>>)
    ensures
        count_of(steps) >= 0,
    decreases steps.len(),
{
    if steps.len() > 0 {
        lemma_count_is_natural(steps.drop_last());
    }
}

/// A node that nothing settles returns the best score of its moves: there is an
/// account of them, and the score is the highest in it. A node whose moves are all
/// left out is mate in check, counted from the root, and a draw otherwise. A node
/// that is told to stop returns zero. The tables learn from the rest.
pub proof fn nodes_return_their_best<B: Backend>(t: Thread<B>, node: Node) -> (steps: Seq<
    NodeStep<B::State>,
>)
    requires
        0 <= node.ply < MAX_PLY,
        -32001 <= node.alpha < node.beta,
        !razored(node, t.board.current.in_check),
    ensures
        ({
            let (begin, singular) = singular_probed::<B>(t, node);
            let (end, found) = moves_tried::<B>(begin, node, singular, no_progress(node));
            let (after, score) = fully_searched::<B>(t, node);
            &&& node_account::<B>(begin, node, singular, steps, end, found)
            &&& found is None ==> score == 0 && after == end
            &&& found is Some ==> score == if count_of(steps) > 0 {
                best_of(-32001, steps)
            } else if end.board.current.in_check {
                node.ply - 32000
            } else {
                B::draw_score_model(end.backend, end.nodes) as int
            }
        }),
{
    let (begin, singular) = singular_probed::<B>(t, node);
    let (end, found) = moves_tried::<B>(begin, node, singular, no_progress(node));
    let steps = moves_are_accounted_for::<B>(begin, node, singular);
    reveal(node_account);
    lemma_count_is_natural(steps);
    reveal(node_finished);
    steps
}

// ---------------------------------------------------------------------------
// Quiescence
// ---------------------------------------------------------------------------

/// The thread as it enters a quiescence node: the main one has looked at the
/// clock, and a node of the principal variation has emptied its line and raised
/// the highest ply to its own.
pub open spec fn quieted<B: Backend>(t: Thread<B>, pv: bool, ply: int) -> Thread<B> {
    ThreadState {
        backend: if t.id == 0 {
            B::check_time_model(t.backend, t.nodes, t.completed_depth).0
        } else {
            t.backend
        },
        pv_table: if pv {
            t.pv_table.update(ply, Seq::empty())
        } else {
            t.pv_table
        },
        sel_depth: if pv && t.sel_depth < ply {
            ply as i32
        } else {
            t.sel_depth
        },
        ..t
    }
}

/// Whether the main thread finds time over.
pub open spec fn out_of_time<B: Backend>(t: Thread<B>) -> bool {
    t.id == 0 && B::check_time_model(t.backend, t.nodes, t.completed_depth).1
}

/// When the main thread finds time over, a quiescence search returns zero and tells
/// every thread to stop.
pub proof fn quiescence_ends_with_the_clock<B: Backend>(
    t: Thread<B>,
    pv: bool,
    alpha: int,
    beta: int,
    ply: int,
)
    requires
        0 <= ply <= MAX_PLY,
        out_of_time::<B>(t),
    ensures
        ({
            let there = quieted::<B>(t, pv, ply);
            quiesced::<B>(t, pv, alpha, beta, ply) == (
                ThreadState { backend: B::stop_model(there.backend), ..there },
                0int,
            )
        }),
{
}

/// A quiescence search finds a drawn position drawn, and leaves the position on the
/// last ply to the network.
pub proof fn quiescence_ends_with_the_game<B: Backend>(
    t: Thread<B>,
    pv: bool,
    alpha: int,
    beta: int,
    ply: int,
)
    requires
        0 <= ply <= MAX_PLY,
        !out_of_time::<B>(t),
    ensures
        ({
            let there = quieted::<B>(t, pv, ply);
            let found = quiesced::<B>(t, pv, alpha, beta, ply);
            if B::is_draw_model(there.backend, t.board, ply) {
                found == (there, B::draw_score_model(there.backend, t.nodes) as int)
            } else {
                ply >= 127 ==> found == (
                    there,
                    network_score(t.network, t.board.current.side_to_move, t.board.current.men()),
                )
            }
        }),
{
    reveal(static_value);
}

/// What a quiescence node has to begin with, out of check: the stored evaluation
/// or, if none is stored, the network's.
pub open spec fn standing_pat<B: Backend>(t: Thread<B>, entry: Option<TtEntry>) -> int {
    if entry is Some && entry.unwrap().raw_eval != 32002 {
        entry.unwrap().raw_eval as int
    } else {
        network_score(t.network, t.board.current.side_to_move, t.board.current.men())
    }
}

/// A stored result settles a quiescence node, of whatever depth it is, with an open
/// window as well as a closed one; and so does, out of check, an evaluation that is
/// not below the window.
pub proof fn quiescence_is_settled<B: Backend>(
    t: Thread<B>,
    pv: bool,
    alpha: int,
    beta: int,
    ply: int,
)
    requires
        0 <= ply < MAX_PLY - 1,
        !out_of_time::<B>(t),
        !B::is_draw_model(quieted::<B>(t, pv, ply).backend, t.board, ply),
    ensures
        ({
            let there = quieted::<B>(t, pv, ply);
            let position = t.board.current;
            let (read, entry) = B::tt_read_model(
                there.backend,
                position.hash,
                position.halfmove_clock,
                ply,
            );
            let after = ThreadState { backend: read, ..there };
            let settled = entry matches Some(e) && says_enough(e, alpha, beta);
            let pat = standing_pat::<B>(t, entry);
            let found = quiesced::<B>(t, pv, alpha, beta, ply);
            &&& settled ==> found == (after, entry.unwrap().score as int)
            &&& !settled && !position.in_check && pat >= beta ==> found == (after, pat)
        }),
{
    reveal(raw_value);
    reveal(static_value);
}

proof fn lemma_account_keeps_the_board<B: Backend>(
    t: Thread<B>,
    pv: bool,
    beta: int,
    ply: int,
    p: QuietProgress,
    steps: Seq<QuietStep<B::State>>,
    n: int,
)
    requires
        0 <= n <= steps.len(),
        forall|k: int|
            0 <= k < n ==> #[trigger] fairly_tried::<B>(
                pv,
                p.alpha,
                beta,
                ply,
                p.picker,
                steps,
                k,
            ),
        n > 0 ==> steps[0].asked == t,
    ensures
        n > 0 ==> steps[n - 1].after.board == t.board,
    decreases n,
{
    if n > 0 {
        lemma_account_keeps_the_board::<B>(t, pv, beta, ply, p, steps, n - 1);
        assert(fairly_tried::<B>(pv, p.alpha, beta, ply, p.picker, steps, n - 1));
        reveal(fairly_tried);
    }
}

/// Any other quiescence node returns the best of standing pat and of its moves.
/// There is an account of them from there, with the highest of `alpha` and standing
/// pat as the lower end of the window, and the score is the highest in it. In check
/// there is no standing pat, and without a move it is mate, counted from the root.
/// The score is stored with the best move, as an upper bound unless it reaches
/// `beta`. A node that is told to stop returns zero.
#[verifier::rlimit(30)]
pub proof fn quiescence_returns_its_best<B: Backend>(
    t: Thread<B>,
    pv: bool,
    alpha: int,
    beta: int,
    ply: int,
) -> (steps: Seq<QuietStep<B::State>>)
    requires
        t.sized(),
        0 <= ply < MAX_PLY - 1,
        -32001 <= alpha < beta,
        !out_of_time::<B>(t),
        !B::is_draw_model(quieted::<B>(t, pv, ply).backend, t.board, ply),
        ({
            let position = t.board.current;
            let entry = B::tt_read_model(
                quieted::<B>(t, pv, ply).backend,
                position.hash,
                position.halfmove_clock,
                ply,
            ).1;
            &&& entry matches Some(e) ==> !says_enough(e, alpha, beta)
            &&& position.in_check || standing_pat::<B>(t, entry) < beta
        }),
    ensures
        ({
            let there = quieted::<B>(t, pv, ply);
            let position = t.board.current;
            let (read, entry) = B::tt_read_model(
                there.backend,
                position.hash,
                position.halfmove_clock,
                ply,
            );
            let begin = ThreadState { backend: read, ..there };
            let pat = standing_pat::<B>(t, entry);
            let start = QuietProgress {
                alpha: if !position.in_check && pat > alpha {
                    pat
                } else {
                    alpha
                },
                best_score: if position.in_check {
                    -32001
                } else {
                    pat
                },
                best_move: no_move(),
                move_count: 0,
                picker: MovePicker {
                    tt_move: no_move(),
                    quiescence: true,
                    handed_out: 0,
                    stage: Stage::HashMove,
                },
            };
            let (end, best) = quiet_moves_tried::<B>(begin, pv, beta, ply, start);
            let top = highest(start.best_score, quiet_scores(steps), steps.len() as int);
            let (after, score) = quiesced::<B>(t, pv, alpha, beta, ply);
            &&& quiet_account::<B>(begin, pv, beta, ply, start, steps, end, best)
            &&& best is None ==> (after, score) == (end, 0int)
            &&& best is Some && position.in_check && steps.len() == 0 ==> (after, score) == (
                end,
                ply - 32000,
            )
            &&& best is Some && (!position.in_check || steps.len() > 0) ==> score == top && after
                == (ThreadState {
                backend: B::tt_write_model(
                    end.backend,
                    position.hash,
                    TtEntry {
                        mv: best.unwrap().best_move,
                        score: top as i32,
                        raw_eval: if position.in_check {
                            32002
                        } else {
                            pat as i32
                        },
                        depth: (-1int) as i32,
                        bound: if top >= beta {
                            Bound::Lower
                        } else {
                            Bound::Upper
                        },
                    },
                    ply,
                    pv,
                    false,
                ),
                ..end
            })
        }),
{
    reveal(raw_value);
    reveal(static_value);
    reveal(quiet_result);
    let there = quieted::<B>(t, pv, ply);
    let position = t.board.current;
    let clock = position.halfmove_clock;
    let (read, entry) = B::tt_read_model(there.backend, position.hash, clock, ply);
    let begin = ThreadState { backend: read, ..there };
    let pat = standing_pat::<B>(t, entry);
    let start = QuietProgress {
        alpha: if !position.in_check && pat > alpha {
            pat
        } else {
            alpha
        },
        best_score: if position.in_check {
            -32001
        } else {
            pat
        },
        best_move: no_move(),
        move_count: 0,
        picker: MovePicker {
            tt_move: no_move(),
            quiescence: true,
            handed_out: 0,
            stage: Stage::HashMove,
        },
    };
    let steps = quiet_moves_are_accounted_for::<B>(begin, pv, beta, ply, start);
    lemma_account_keeps_the_board::<B>(begin, pv, beta, ply, start, steps, steps.len() as int);
    steps
}

} // verus!
