//! Properties of the search that hold whatever the rest of the engine does.
use crate::backend::Backend;
use crate::board::has_officer;
use crate::frame::{kept_means, pass_is_undone};
use crate::invariance::search_keeps;
use crate::model::{
    begun, continuation_bonus, continuation_malus, correction_bonus, counted, cut_by_hash,
    draw_value, drawn, extension, first_window, flag, fully_searched, futile, hash_move,
    in_root_window, late, late_reduction, line_cleared, line_extended, looked_up, move_compared,
    move_considered, move_recorded, moved, moves_tried, no_progress, node_depth, node_entered,
    node_finished, node_of, node_searched, noisy_bonus, noisy_malus, null_reduction, null_searched,
    passed, picked, picker_after, polled, probes_singular, progressed, quiesced, quiet_bonus,
    quiet_malus, quiet_moves_tried, raises, razored, remembered, reverse_futile, scaled_malus,
    searched, settles, singular_probed, skipped, started, static_value, timed, tries_null_move,
    unmoved, unpassed, widened_down, widened_up, Node, Progress, QuietProgress, Thread, Verdict,
};
use crate::nnue::{fresh_side, in_step, output_score, popping_undoes_pushing};
use crate::search::Report;
use crate::transposition::{Bound, TtEntry};
use crate::types::{
    larger, mate_score, mated_score, no_move, smaller, Move, Score, MAX_MOVES, MAX_PLY,
};
use vstd::prelude::*;
use vstd::wrapping::u64_specs;

verus! {

// ---------------------------------------------------------------------------
// Stopping and the horizon
// ---------------------------------------------------------------------------

/// A search that finds itself told to stop returns zero and asks nothing
/// further of the engine.
pub proof fn stopped_search_is_level<B: Backend>(
    t: Thread<B>,
    pv: bool,
    root: bool,
    alpha: int,
    beta: int,
    depth: int,
    ply: int,
)
    requires
        0 <= ply < MAX_PLY,
        B::stopped_model(t.backend).1,
    ensures
        searched::<B>(t, pv, root, alpha, beta, depth, ply).1 == Score::ZERO,
        searched::<B>(t, pv, root, alpha, beta, depth, ply).0 == polled::<B>(
            if pv && !root {
                line_cleared::<B>(t, ply)
            } else {
                t
            },
        ).0,
{
}

/// Only the main thread looks at the clock.
pub proof fn helpers_ignore_the_clock<B: Backend>(t: Thread<B>)
    requires
        t.id != 0,
    ensures
        timed::<B>(t) == (t, false),
{
}

/// At the horizon a search is a quiescence search.
pub proof fn horizon_is_quiescence<B: Backend>(
    t: Thread<B>,
    pv: bool,
    root: bool,
    alpha: int,
    beta: int,
    depth: int,
    ply: int,
)
    requires
        0 <= ply < MAX_PLY,
        depth <= 0,
        !B::stopped_model(t.backend).1,
    ensures
        searched::<B>(t, pv, root, alpha, beta, depth, ply) == quiesced::<B>(
            polled::<B>(
                if pv && !root {
                    line_cleared::<B>(t, ply)
                } else {
                    t
                },
            ).0,
            pv,
            alpha,
            beta,
            ply,
        ),
{
}

/// A node without moves is mate in check, and a draw otherwise; the tables
/// learn nothing from it.
pub proof fn no_moves_is_mate_or_draw<B: Backend>(t: Thread<B>, node: Node, p: Progress)
    requires
        p.move_count == 0,
    ensures
        node_finished::<B>(t, node, p).0 == t,
        node_finished::<B>(t, node, p).1 == if t.board.current.in_check {
            mated_score(node.ply)
        } else {
            draw_value::<B>(t)
        },
{
    reveal(node_finished);
}

/// Without root moves there is nothing to search, and nothing is asked of the
/// engine.
pub proof fn nothing_to_search<B: Backend>(t: Thread<B>, report: Report)
    requires
        t.root_moves.len() == 0,
    ensures
        started::<B>(t, report) == begun::<B>(t),
        started::<B>(t, report).backend == t.backend,
{
}

// ---------------------------------------------------------------------------
// Pruning
// ---------------------------------------------------------------------------

/// At nodes with an open window nothing is pruned: neither the transposition
/// table nor the evaluation settles them, no null move is tried, and no move
/// is skipped.
pub proof fn open_windows_are_not_pruned<B: Backend>(
    t: Thread<B>,
    node: Node,
    entry: Option<TtEntry>,
    depth: int,
    alpha: int,
    beta: int,
    p: Progress,
    mv: Move,
    in_check: bool,
)
    requires
        node.pv,
    ensures
        !cut_by_hash(node.pv, entry, depth, alpha, beta),
        !reverse_futile(node, in_check),
        !tries_null_move::<B>(t, node),
        !razored(node, in_check),
        !skipped(node, p, mv, in_check),
{
    reveal(reverse_futile);
    reveal(tries_null_move);
    reveal(razored);
    reveal(skipped);
}

/// A window that no mate within reach can get into is not searched: neither
/// being mated here nor mating with the next move is inside.
pub proof fn mate_distance_is_pruned<B: Backend>(
    t: Thread<B>,
    alpha: int,
    beta: int,
    depth: int,
    ply: int,
)
    requires
        0 <= ply < MAX_PLY - 1,
        depth >= 1,
        !polled::<B>(t).1,
        !timed::<B>(polled::<B>(t).0).1,
        !drawn::<B>(timed::<B>(polled::<B>(t).0).0, ply),
        alpha >= mate_score(ply + 1) || beta <= mated_score(ply),
    ensures
        searched::<B>(t, false, false, alpha, beta, depth, ply) == (
            timed::<B>(polled::<B>(t).0).0,
            larger(alpha, mated_score(ply)),
        ),
{
}

/// A stored result that is deep enough and says enough about the window is
/// returned as it is, unless the window is open.
pub proof fn stored_results_are_reused<B: Backend>(
    t: Thread<B>,
    alpha: int,
    beta: int,
    depth: int,
    ply: int,
)
    requires
        0 <= ply < MAX_PLY,
        !t.stack[ply].excluded.present(),
        looked_up::<B>(t, ply).1 matches Some(e) && e.depth >= depth && settles(e, alpha, beta),
    ensures
        node_searched::<B>(t, false, false, alpha, beta, depth, ply) == (
            looked_up::<B>(t, ply).0,
            looked_up::<B>(t, ply).1.unwrap().score as int,
        ),
{
}

/// Razoring leaves a node to the quiescence search, with its window.
pub proof fn razored_nodes_are_quiescence<B: Backend>(
    t: Thread<B>,
    pv: bool,
    root: bool,
    alpha: int,
    beta: int,
    depth: int,
    ply: int,
)
    requires
        0 <= ply < MAX_PLY,
        depth >= 1,
        alpha < beta,
        ({
            let (read, entry) = looked_up::<B>(t, ply);
            let node = node_of::<B>(read, pv, root, alpha, beta, depth, ply, entry);
            &&& t.stack[ply].excluded.present() || !cut_by_hash(pv, entry, depth, alpha, beta)
            &&& razored(node, read.board.current.in_check)
        }),
    ensures
        ({
            let (read, entry) = looked_up::<B>(t, ply);
            let node = node_of::<B>(read, pv, root, alpha, beta, depth, ply, entry);
            node_searched::<B>(t, pv, root, alpha, beta, depth, ply) == quiesced::<B>(
                node_entered::<B>(read, node),
                pv,
                alpha,
                beta,
                ply,
            )
        }),
{
    reveal(razored);
    reveal(reverse_futile);
    reveal(tries_null_move);
    reveal(node_entered);
    let (read, entry) = looked_up::<B>(t, ply);
    let node = node_of::<B>(read, pv, root, alpha, beta, depth, ply, entry);
    let entered = node_entered::<B>(read, node);
    assert(null_searched::<B>(entered, node) == fully_searched::<B>(entered, node));
}

/// A null move that holds settles the node with exactly the upper end of its
/// window, and leaves the board as it was.
pub proof fn null_moves_that_hold_give_beta<B: Backend>(t: Thread<B>, node: Node)
    requires
        t.sized(),
        0 <= node.ply < MAX_PLY,
        tries_null_move::<B>(t, node),
        -searched::<B>(
            passed::<B>(t),
            false,
            false,
            -node.beta,
            -node.beta + 1,
            node.depth - null_reduction(node),
            node.ply + 1,
        ).1 >= node.beta,
    ensures
        null_searched::<B>(t, node).1 == node.beta,
        null_searched::<B>(t, node).0.board == t.board,
        null_searched::<B>(t, node).0 == unpassed::<B>(
            searched::<B>(
                passed::<B>(t),
                false,
                false,
                -node.beta,
                -node.beta + 1,
                node.depth - null_reduction(node),
                node.ply + 1,
            ).0,
        ),
{
    let gone = passed::<B>(t);
    assert(gone.sized()) by {
        reveal(passed);
    }
    let depth = node.depth - null_reduction(node);
    search_keeps::<B>(gone, false, false, -node.beta, -node.beta + 1, depth, node.ply + 1);
    let replied = searched::<B>(
        gone,
        false,
        false,
        -node.beta,
        -node.beta + 1,
        depth,
        node.ply + 1,
    ).0;
    pass_is_undone::<B>(t, node.ply, replied);
    kept_means(t, unpassed::<B>(replied), node.ply);
}

/// In check the evaluation prunes nothing.
pub proof fn checks_are_not_pruned<B: Backend>(t: Thread<B>, node: Node, alpha: int)
    requires
        t.board.current.in_check,
    ensures
        !reverse_futile(node, t.board.current.in_check),
        !tries_null_move::<B>(t, node),
        !razored(node, t.board.current.in_check),
        !futile(node, alpha, t.board.current.in_check),
{
    reveal(reverse_futile);
    reveal(tries_null_move);
    reveal(razored);
    reveal(futile);
}

/// The turn is never given away twice in a row, nor by a side that has only
/// pawns.
pub proof fn null_moves_are_guarded<B: Backend>(t: Thread<B>, node: Node)
    ensures
        t.board.current.plies_from_null == 0 ==> !tries_null_move::<B>(t, node),
        !has_officer(t.board.current.squares@, t.board.current.side_to_move)
            ==> !tries_null_move::<B>(t, node),
{
    reveal(tries_null_move);
}

/// After a null move the depth is reduced by three, a third of itself, and up
/// to three plies more the higher the evaluation.
pub proof fn null_reduction_grows(node: Node, higher: Node)
    requires
        node.depth >= 0,
        higher == (Node { eval: higher.eval, ..node }),
        higher.eval >= node.eval,
    ensures
        3 + node.depth / 3 <= null_reduction(node) <= null_reduction(higher) <= 6 + node.depth / 3,
{
    reveal(null_reduction);
}

/// Nothing is skipped before some move has a score.
pub proof fn first_move_is_not_skipped(node: Node, p: Progress, mv: Move, in_check: bool)
    requires
        p.best_score == -Score::INFINITE,
    ensures
        !skipped(node, p, mv, in_check),
{
    reveal(skipped);
}

/// An improving position lets at least as many quiet moves be searched, and
/// more of them the deeper the search.
pub proof fn late_moves_wait_for_depth(node: Node, deeper: Node, quiets_searched: int)
    requires
        1 <= node.depth <= deeper.depth,
        node.improving ==> deeper.improving,
        late(deeper, quiets_searched),
    ensures
        late(node, quiets_searched),
{
    reveal(late);
    let a = node.depth * node.depth;
    let b = deeper.depth * deeper.depth;
    assert(0 <= a <= b) by (nonlinear_arith)
        requires
            1 <= node.depth <= deeper.depth,
            a == node.depth * node.depth,
            b == deeper.depth * deeper.depth,
    ;
    let d = 1 + flag(!node.improving);
    let e = 1 + flag(!deeper.improving);
    assert(a / d <= b / e) by (nonlinear_arith)
        requires
            0 <= a <= b,
            1 <= e <= d <= 2,
    ;
}

/// Without a move to begin with, a search of some depth loses a ply, and no
/// other search does.
pub proof fn reduction_without_hash_move(depth: int, entry: Option<TtEntry>)
    ensures
        node_depth(depth, entry) == depth - flag(depth >= 4 && !hash_move(entry).present()),
        depth >= 1 ==> node_depth(depth, entry) >= 1,
{
}

/// Where nothing is stored of a position, a search of depth four is a search of
/// depth three.
pub proof fn depth_four_without_entry_is_three<B: Backend>(
    t: Thread<B>,
    pv: bool,
    root: bool,
    alpha: int,
    beta: int,
    ply: int,
)
    requires
        0 <= ply <= MAX_PLY,
        root ==> ply == 0,
        ({
            let cleared = if pv && !root {
                line_cleared::<B>(t, ply)
            } else {
                t
            };
            looked_up::<B>(timed::<B>(polled::<B>(cleared).0).0, ply).1 is None
        }),
    ensures
        searched::<B>(t, pv, root, alpha, beta, 4, ply) == searched::<B>(
            t,
            pv,
            root,
            alpha,
            beta,
            3,
            ply,
        ),
{
    let cleared = if pv && !root {
        line_cleared::<B>(t, ply)
    } else {
        t
    };
    let t2 = timed::<B>(polled::<B>(cleared).0).0;
    let a = if root {
        alpha
    } else {
        larger(alpha, mated_score(ply))
    };
    let b = if root {
        beta
    } else {
        smaller(beta, mate_score(ply + 1))
    };
    if ply < MAX_PLY {
        assert(node_searched::<B>(t2, pv, root, a, b, 4, ply) == node_searched::<B>(
            t2,
            pv,
            root,
            a,
            b,
            3,
            ply,
        ));
    }
}

// ---------------------------------------------------------------------------
// Extensions and reductions
// ---------------------------------------------------------------------------

/// A move is extended by one ply at most, be it singular, a check, or both.
pub proof fn extensions_do_not_add_up(singular: bool, gives_check: bool)
    ensures
        extension(singular, gives_check) == flag(singular || gives_check),
{
}

/// A reduction leaves at least the horizon to search. Early moves and noisy
/// ones are not reduced; nodes with an open window, checks, and moves that did
/// well before are reduced no more than others.
pub proof fn reductions_are_moderate(
    node: Node,
    open: Node,
    move_count: int,
    quiet: bool,
    quiet_score: int,
    better_score: int,
    base: int,
    gives_check: bool,
)
    requires
        node.depth >= 1,
        !node.pv,
        open == (Node { pv: true, ..node }),
        quiet_score <= better_score,
    ensures
        0 <= late_reduction(node, move_count, quiet, quiet_score, base, gives_check) <= node.depth
            - 1,
        move_count <= 2 || !quiet ==> late_reduction(
            node,
            move_count,
            quiet,
            quiet_score,
            base,
            gives_check,
        ) == 0,
        late_reduction(open, move_count, quiet, quiet_score, base, gives_check) <= late_reduction(
            node,
            move_count,
            quiet,
            quiet_score,
            base,
            gives_check,
        ),
        late_reduction(node, move_count, quiet, quiet_score, base, true) <= late_reduction(
            node,
            move_count,
            quiet,
            quiet_score,
            base,
            false,
        ),
        late_reduction(node, move_count, quiet, better_score, base, gives_check) <= late_reduction(
            node,
            move_count,
            quiet,
            quiet_score,
            base,
            gives_check,
        ),
{
    reveal(late_reduction);
}

/// A ply that is itself being searched without one of its moves asks for no
/// further search of that kind.
pub proof fn probes_do_not_nest<B: Backend>(t: Thread<B>, node: Node)
    requires
        0 <= node.ply < MAX_PLY,
        t.stack[node.ply].excluded.present(),
    ensures
        singular_probed::<B>(t, node) == (t, false),
{
    reveal(probes_singular);
}

/// Where a move is left out, the node does not return what is stored of the
/// position, whatever that is: it goes on to its evaluation, the null move and
/// its other moves.
pub proof fn probes_ignore_the_stored_result<B: Backend>(
    t: Thread<B>,
    pv: bool,
    root: bool,
    alpha: int,
    beta: int,
    depth: int,
    ply: int,
)
    requires
        0 <= ply < MAX_PLY,
        t.stack[ply].excluded.present(),
    ensures
        ({
            let (read, entry) = looked_up::<B>(t, ply);
            let node = node_of::<B>(read, pv, root, alpha, beta, depth, ply, entry);
            let entered = node_entered::<B>(read, node);
            node_searched::<B>(t, pv, root, alpha, beta, depth, ply) == if reverse_futile(
                node,
                entered.board.current.in_check,
            ) {
                (entered, node.eval)
            } else {
                null_searched::<B>(entered, node)
            }
        }),
{
}

/// An excluded move is passed over without being counted, and so is at the
/// root a move outside the window of root moves.
pub proof fn excluded_moves_are_passed_over<B: Backend>(
    t: Thread<B>,
    node: Node,
    singular: bool,
    p: Progress,
    mv: Move,
)
    requires
        0 <= node.ply < MAX_PLY,
        mv == t.stack[node.ply].excluded || node.root && !in_root_window::<B>(t, mv),
    ensures
        move_considered::<B>(t, node, singular, p, mv) == (t, p, Verdict::GoOn),
{
}

// ---------------------------------------------------------------------------
// Learning
// ---------------------------------------------------------------------------

/// The first move that failed is punished in full, and a later one no harder
/// than an earlier one.
pub proof fn later_failures_weigh_less(malus: int, earlier: int, later: int)
    requires
        0 <= malus,
        0 <= earlier <= later < 1024,
    ensures
        scaled_malus(malus, 0) == -malus,
        scaled_malus(malus, earlier) <= scaled_malus(malus, later) <= 0,
{
    let a = 1024int / (1 + earlier);
    let b = 1024int / (1 + later);
    assert(0 <= b <= a) by (nonlinear_arith)
        requires
            0 <= earlier <= later < 1024,
            a == 1024int / (1 + earlier),
            b == 1024int / (1 + later),
    ;
    assert(0 <= malus * b <= malus * a) by (nonlinear_arith)
        requires
            0 <= malus,
            0 <= b <= a,
    ;
    assert(-malus * a == -(malus * a)) by (nonlinear_arith);
    assert(-malus * b == -(malus * b)) by (nonlinear_arith);
    assert(-malus * 1024 == -(malus * 1024)) by (nonlinear_arith);
}

/// Rewards and penalties grow with the depth, up to a limit each.
pub proof fn deeper_results_weigh_more(depth: int, deeper: int)
    requires
        1 <= depth <= deeper,
    ensures
        0 < quiet_bonus(depth) <= quiet_bonus(deeper) <= 1648,
        0 < quiet_malus(depth) <= quiet_malus(deeper) <= 1198,
        0 < continuation_bonus(depth) <= continuation_bonus(deeper) <= 1051,
        0 < continuation_malus(depth) <= continuation_malus(deeper) <= 933,
        0 < noisy_bonus(depth) <= noisy_bonus(deeper) <= 748,
        0 < noisy_malus(depth) <= noisy_malus(deeper) <= 1391,
{
}

/// Corrections follow the direction in which the static evaluation was off,
/// within their limits.
pub proof fn corrections_follow_the_result(depth: int, diff: int)
    requires
        depth >= 1,
    ensures
        -4771 <= correction_bonus(depth, diff) <= 3001,
        diff > 0 ==> correction_bonus(depth, diff) > 0,
        diff < 0 ==> correction_bonus(depth, diff) < 0,
        diff == 0 ==> correction_bonus(depth, diff) == 0,
{
    let product = 142 * depth * diff;
    assert(diff > 0 ==> product >= 142) by (nonlinear_arith)
        requires
            depth >= 1,
            product == 142 * depth * diff,
    ;
    assert(diff < 0 ==> product <= -142) by (nonlinear_arith)
        requires
            depth >= 1,
            product == 142 * depth * diff,
    ;
}

// ---------------------------------------------------------------------------
// Windows
// ---------------------------------------------------------------------------

/// An iteration begins with an open window that contains the previous score.
pub proof fn first_window_is_open(depth: int, previous: int)
    requires
        previous == Score::NONE || -Score::MATE <= previous <= Score::MATE,
    ensures
        ({
            let (alpha, beta, delta) = first_window(depth, previous);
            &&& -Score::INFINITE <= alpha < beta <= Score::INFINITE
            &&& 1 <= delta <= Score::INFINITE
            &&& previous != Score::NONE ==> alpha < previous < beta
        }),
{
}

/// A window that the score is outside of is opened on that side, strictly, and
/// stays open; the opened side reaches beyond the score.
pub proof fn failed_windows_widen(score: int, alpha: int, beta: int, delta: int)
    requires
        -Score::INFINITE <= alpha < beta <= Score::INFINITE,
        1 <= delta <= Score::INFINITE,
        -Score::MATE <= score <= Score::MATE,
    ensures
        score <= alpha ==> ({
            let (low, high, step) = widened_down(score, alpha, beta, delta);
            -Score::INFINITE <= low < score && low < alpha && low < high <= beta && 1 <= step
                <= Score::INFINITE
        }),
        score >= beta ==> ({
            let (low, high, step) = widened_up(score, alpha, beta, delta);
            low == alpha && score < high <= Score::INFINITE && beta < high && 1 <= step
                <= Score::INFINITE
        }),
{
}

// ---------------------------------------------------------------------------
// Results
// ---------------------------------------------------------------------------

/// What a node has found agrees with its window: the bound says on which side
/// of it the best score is, and there is a best move unless it is below.
pub open spec fn truthful(node: Node, p: Progress) -> bool {
    &&& node.alpha <= p.alpha < node.beta
    &&& match p.bound {
        Bound::Upper => p.best_score <= node.alpha && p.best_move == no_move() && p.alpha
            == node.alpha,
        Bound::Exact => node.alpha < p.best_score < node.beta && p.alpha == p.best_score
            && p.best_move.present(),
        Bound::Lower => p.best_score >= node.beta && p.best_move.present(),
        Bound::Absent => false,
    }
}

proof fn lemma_comparing_is_truthful<B: Backend>(
    t: Thread<B>,
    node: Node,
    singular: bool,
    p: Progress,
    mv: Move,
)
    requires
        0 <= node.ply < MAX_PLY,
        truthful(node, p),
        p.best_score < node.beta,
        mv.present(),
    ensures
        ({
            let (_, q, verdict) = move_compared::<B>(t, node, singular, p, mv);
            &&& truthful(node, q)
            &&& q.best_score >= p.best_score
            &&& verdict == Verdict::GoOn ==> q.best_score < node.beta
            &&& verdict == Verdict::Cutoff ==> q.best_score >= node.beta
        }),
{
    reveal(progressed);
    reveal(remembered);
}

/// Considering a move keeps what a node has found in agreement with its window.
pub proof fn considering_is_truthful<B: Backend>(
    t: Thread<B>,
    node: Node,
    singular: bool,
    p: Progress,
    mv: Move,
)
    requires
        0 <= node.ply < MAX_PLY,
        truthful(node, p),
        p.best_score < node.beta,
        mv.present(),
    ensures
        ({
            let (_, q, verdict) = move_considered::<B>(t, node, singular, p, mv);
            &&& truthful(node, q)
            &&& q.best_score >= p.best_score
            &&& verdict == Verdict::GoOn ==> q.best_score < node.beta
            &&& verdict == Verdict::Cutoff ==> q.best_score >= node.beta
        }),
{
    let p1 = Progress { move_count: p.move_count + 1, ..p };
    let t1 = counted::<B>(t, node.ply, p1.move_count);
    lemma_comparing_is_truthful::<B>(t1, node, singular, p1, mv);
}

proof fn lemma_trying_is_truthful<B: Backend>(t: Thread<B>, node: Node, singular: bool, p: Progress)
    requires
        0 <= node.ply < MAX_PLY,
        truthful(node, p),
        p.best_score < node.beta,
    ensures
        moves_tried::<B>(t, node, singular, p).1 matches Some(q) ==> truthful(node, q)
            && q.best_score >= p.best_score,
    decreases MAX_MOVES - p.picker.handed_out,
{
    let (t1, next) = picked::<B>(t, p.picker, node.pv, node.root, false, node.ply);
    if let Some((mv, stage)) = next {
        let picker = picker_after(p.picker, stage);
        let p1 = Progress { picker, ..p };
        B::picks_are_moves(
            t.backend,
            p.picker,
            t.board,
            t.stack,
            node.pv,
            node.root,
            false,
            node.ply,
        );
        considering_is_truthful::<B>(t1, node, singular, p1, mv);
        let (t2, p2, verdict) = move_considered::<B>(t1, node, singular, p1, mv);
        if verdict == Verdict::GoOn {
            lemma_trying_is_truthful::<B>(t2, node, singular, Progress { picker, ..p2 });
        }
    }
}

/// Once all moves have been tried, the bound that is stored with the score is
/// true: an upper bound comes with a score at or below the window and no best
/// move, an exact one with a score inside and a best move, and a lower one with a
/// score at or above it and a best move.
pub proof fn stored_bounds_are_true<B: Backend>(t: Thread<B>, node: Node, singular: bool)
    requires
        0 <= node.ply < MAX_PLY,
        -Score::INFINITE <= node.alpha < node.beta,
    ensures
        moves_tried::<B>(t, node, singular, no_progress(node)).1 matches Some(p) ==> truthful(
            node,
            p,
        ),
{
    lemma_trying_is_truthful::<B>(t, node, singular, no_progress(node));
}

/// At a node of the principal variation, a move that raises the score begins the
/// line of the ply, followed by the line of the next one; no other move changes
/// any line.
pub proof fn best_moves_begin_their_line<B: Backend>(
    t: Thread<B>,
    node: Node,
    p: Progress,
    mv: Move,
    score: int,
    nodes_before: u64,
)
    requires
        node.pv,
        !node.root,
        0 <= node.ply < t.pv_table.len() - 1,
    ensures
        ({
            let after = move_recorded::<B>(t, node, p, mv, score, nodes_before);
            if raises(p, score) {
                &&& after.pv_table[node.ply] == seq![mv] + t.pv_table[node.ply + 1]
                &&& after.pv_table == t.pv_table.update(node.ply, after.pv_table[node.ply])
            } else {
                after.pv_table == t.pv_table
            }
        }),
{
    reveal(move_recorded);
}

/// Making a move and taking it back gives the board and the network as they
/// were; the move stays noted on the stack and counted.
pub proof fn moves_are_undone<B: Backend>(t: Thread<B>, ply: int, mv: Move)
    requires
        0 <= ply < t.stack.len(),
    ensures
        ({
            let after = unmoved::<B>(moved::<B>(t, ply, mv));
            &&& after.board == t.board
            &&& after.network == t.network
            &&& after.stack[ply].mv == mv
            &&& after.nodes == u64_specs::wrapping_add(t.nodes, 1)
            &&& after.root_moves == t.root_moves
        }),
{
    reveal(moved);
    reveal(unmoved);
    popping_undoes_pushing(t.network, B::play_model(t.backend, t.board.current, mv).1);
    assert(t.board.history.push(t.board.current).drop_last() =~= t.board.history);
}

/// As long as the accumulators are up to date, the static evaluation is a matter
/// of the position alone, not of how it came about.
pub proof fn static_evaluation_is_positional<B: Backend>(t: Thread<B>)
    requires
        in_step(t.network, t.board.current.squares@),
    ensures
        ({
            let position = t.board.current;
            let p = t.network.parameters;
            static_value::<B>(t) == output_score(
                p,
                fresh_side(p, position.side_to_move, position.squares@),
                fresh_side(p, position.side_to_move.other(), position.squares@),
                position.men(),
            )
        }),
{
    reveal(static_value);
}

/// The score of a quiescence node only goes up with its moves, so that
/// standing pat is a lower bound.
pub proof fn standing_pat_is_a_lower_bound<B: Backend>(
    t: Thread<B>,
    pv: bool,
    beta: int,
    ply: int,
    p: QuietProgress,
)
    requires
        0 <= ply < MAX_PLY,
    ensures
        quiet_moves_tried::<B>(t, pv, beta, ply, p).1 matches Some(q) ==> q.best_score
            >= p.best_score && q.alpha >= p.alpha,
    decreases MAX_MOVES - p.picker.handed_out,
{
    let (t1, next) = picked::<B>(t, p.picker, pv, false, !t.board.current.in_check, ply);
    if let Some((mv, stage)) = next {
        let (t2, reply) = quiesced::<B>(moved::<B>(t1, ply, mv), pv, -beta, -p.alpha, ply + 1);
        let (t3, stopped) = polled::<B>(unmoved::<B>(t2));
        let score = -reply;
        let better = score > p.best_score;
        let up = better && score > p.alpha;
        let t4 = if up && pv {
            line_extended::<B>(t3, ply, mv)
        } else {
            t3
        };
        let q = QuietProgress {
            alpha: if up && score < beta {
                score
            } else {
                p.alpha
            },
            best_score: if better {
                score
            } else {
                p.best_score
            },
            best_move: if up {
                mv
            } else {
                p.best_move
            },
            move_count: p.move_count + 1,
            picker: picker_after(p.picker, stage),
        };
        standing_pat_is_a_lower_bound::<B>(t4, pv, beta, ply, q);
    }
}

} // verus!
