//! How far a score can be trusted: what the replies promise, a node promises too.
use crate::accounts::{
    best_of, count_of, fairly_considered, fairly_tried, full_depth, highest,
    moves_are_accounted_for, moves_are_searched_as_they_deserve, node_account, picker_of,
    quiet_account, quiet_moves_are_accounted_for, quiet_picker, quiet_scores, returned, NodeStep,
    QuietStep,
};
use crate::backend::Backend;
use crate::board::{leads_to, told_all, BoardState, Position};
use crate::frame::{kept, kept_means, root_place_found};
use crate::invariance::{line_keeps, quiescence_keeps};
use crate::model::{
    drawn, line_extended, looked_up, move_searched, moved, moves_tried, no_progress, picked,
    picker_after, polled, quiesced, quiet_moves_tried, quiet_result, raw_value, root_recorded,
    searched, timed, unmoved, Node, QuietProgress, Thread,
};
use crate::movepick::{fresh_picker, MovePicker, Stage};
use crate::nnue::{
    changes_keep_in_step, changes_keep_the_rest, fresh_side, in_step, network_score, output_score,
    pushed, Network, Parameters,
};
use crate::outcomes::{
    out_of_time, quiescence_ends_with_the_game, quiescence_is_settled, quiescence_returns_its_best,
    quieted, standing_pat,
};
use crate::stack::StackEntry;
use crate::thread::ThreadState;
use crate::transposition::TtEntry;
use crate::types::{larger, no_move, Move, Score, MAX_MOVES, MAX_PLY};
use vstd::prelude::*;

verus! {

/// Whether a score tells the truth about a value as far as a window goes: a score
/// inside it is the value, one at or below it is an upper bound of the value, and
/// one at or above it a lower bound.
pub open spec fn bounds(score: int, alpha: int, beta: int, value: int) -> bool {
    &&& score <= alpha ==> value <= score
    &&& alpha < score < beta ==> value == score
    &&& score >= beta ==> value >= score
}

/// If a best score tells the truth about a value, and the score of another move about
/// its worth, with the best score as the lower end of its window, the higher score tells
/// the truth about the higher of the two.
pub proof fn lemma_bounds_of_the_higher(
    best: int,
    value: int,
    score: int,
    worth: int,
    alpha: int,
    beta: int,
)
    requires
        alpha < beta,
        best < beta,
        bounds(best, alpha, beta, value),
        bounds(
            score,
            if best > alpha {
                best
            } else {
                alpha
            },
            beta,
            worth,
        ),
    ensures
        bounds(
            if score > best {
                score
            } else {
                best
            },
            alpha,
            beta,
            if worth > value {
                worth
            } else {
                value
            },
        ),
{
}

// ---------------------------------------------------------------------------
// Quiescence
// ---------------------------------------------------------------------------

/// The replies tell the truth about the moves of a quiescence node: whatever the
/// window within the scale of scores, from whichever of the given states of the engine,
/// the score of the position after a move tells the truth about minus the move's value,
/// unless the search has been told to stop.
pub open spec fn quiet_replies_are_true<B: Backend>(
    t: Thread<B>,
    pv: bool,
    ply: int,
    value: spec_fn(Move) -> int,
    calm: spec_fn(B::State) -> bool,
) -> bool {
    forall|before: Thread<B>, mv: Move, low: int, high: int|
        {
            let (after, reply) = #[trigger] quiesced::<B>(
                moved::<B>(before, ply, mv),
                pv,
                low,
                high,
                ply + 1,
            );
            &&& before.sized()
            &&& calm(before.backend)
            &&& before.id == t.id
            &&& before.board == t.board
            &&& before.network == t.network
            &&& -32001 <= low < high <= 32001
            &&& !B::stopped_model(after.backend).1
        } ==> bounds(
            quiesced::<B>(moved::<B>(before, ply, mv), pv, low, high, ply + 1).1,
            low,
            high,
            -value(mv),
        )
}

/// The values of the moves that were tried.
pub open spec fn quiet_values<S>(steps: Seq<QuietStep<S>>, value: spec_fn(Move) -> int) -> Seq<
    int,
> {
    steps.map_values(|step: QuietStep<S>| value(step.mv))
}

proof fn lemma_quiet_step_keeps<B: Backend>(
    pv: bool,
    alpha: int,
    beta: int,
    ply: int,
    picker: MovePicker,
    steps: Seq<QuietStep<B::State>>,
    k: int,
)
    requires
        0 <= ply < MAX_PLY - 1,
        steps[k].asked.sized(),
        fairly_tried::<B>(pv, alpha, beta, ply, picker, steps, k),
    ensures
        steps[k].after.sized(),
        steps[k].after.id == steps[k].asked.id,
        steps[k].after.board == steps[k].asked.board,
        steps[k].after.network == steps[k].asked.network,
{
    reveal(fairly_tried);
    let step = steps[k];
    let state = B::pick_model(
        step.asked.backend,
        quiet_picker(picker, steps, k),
        step.asked.board,
        step.asked.stack,
        pv,
        false,
        !step.asked.board.current.in_check,
        ply,
    ).0;
    let before = ThreadState { backend: state, ..step.asked };
    let made = moved::<B>(before, ply, step.mv);
    assert(made.sized() && made.id == step.asked.id) by {
        reveal(moved);
    }
    let floor = highest(alpha, quiet_scores(steps), k);
    quiescence_keeps::<B>(made, pv, -beta, -floor, ply + 1);
    let replied = quiesced::<B>(made, pv, -beta, -floor, ply + 1).0;
    kept_means(made, replied, ply + 1);
    assert(replied.id == made.id) by {
        reveal(kept);
    }
}

/// Asking for moves does not lead out of the given states.
pub open spec fn picking_stays<B: Backend>(calm: spec_fn(B::State) -> bool) -> bool {
    forall|
        s: B::State,
        picker: MovePicker,
        board: BoardState,
        stack: Seq<StackEntry>,
        pv: bool,
        root: bool,
        skip_quiets: bool,
        ply: int,
    |
        calm(s) ==> calm(
            (#[trigger] B::pick_model(s, picker, board, stack, pv, root, skip_quiets, ply)).0,
        )
}

#[verifier::rlimit(30)]
proof fn lemma_quiet_steps_bound<B: Backend>(
    t: Thread<B>,
    pv: bool,
    beta: int,
    ply: int,
    p: QuietProgress,
    steps: Seq<QuietStep<B::State>>,
    value: spec_fn(Move) -> int,
    calm: spec_fn(B::State) -> bool,
    n: int,
)
    requires
        t.sized(),
        0 <= ply < MAX_PLY - 1,
        p.best_score <= p.alpha < beta <= 32001,
        -32001 <= p.alpha,
        0 <= n <= steps.len(),
        quiet_replies_are_true::<B>(t, pv, ply, value, calm),
        picking_stays::<B>(calm),
        forall|k: int| 0 <= k < n ==> calm((#[trigger] steps[k]).asked.backend),
        forall|k: int|
            0 <= k < n ==> #[trigger] fairly_tried::<B>(
                pv,
                p.alpha,
                beta,
                ply,
                p.picker,
                steps,
                k,
            ),
        forall|k: int| 0 <= k < n ==> !(#[trigger] steps[k]).stopped,
        forall|k: int| 0 <= k < n - 1 ==> (#[trigger] steps[k]).score < beta,
        n > 0 ==> steps[0].asked == t,
    ensures
        bounds(
            highest(p.best_score, quiet_scores(steps), n),
            p.alpha,
            beta,
            highest(p.best_score, quiet_values(steps, value), n),
        ),
        n > 0 ==> steps[n - 1].after.sized() && steps[n - 1].after.board == t.board
            && steps[n - 1].after.network == t.network && steps[n - 1].after.id == t.id,
        highest(p.alpha, quiet_scores(steps), n) == if highest(
            p.best_score,
            quiet_scores(steps),
            n,
        ) > p.alpha {
            highest(p.best_score, quiet_scores(steps), n)
        } else {
            p.alpha
        },
        n == 0 || steps[n - 1].score < beta ==> highest(p.best_score, quiet_scores(steps), n)
            < beta,
    decreases n,
{
    if n > 0 {
        let k = n - 1;
        lemma_quiet_steps_bound::<B>(t, pv, beta, ply, p, steps, value, calm, k);
        assert(k > 0 ==> steps[k - 1].score < beta);
        assert(fairly_tried::<B>(pv, p.alpha, beta, ply, p.picker, steps, k));
        let step = steps[k];
        assert(!step.stopped);
        assert(calm(step.asked.backend));
        assert(step.asked.sized() && step.asked.board == t.board && step.asked.network
            == t.network && step.asked.id == t.id) by {
            reveal(fairly_tried);
        }
        lemma_quiet_step_keeps::<B>(pv, p.alpha, beta, ply, p.picker, steps, k);
        let floor = highest(p.alpha, quiet_scores(steps), k);
        assert(bounds(step.score, floor, beta, value(step.mv))) by {
            reveal(fairly_tried);
            let state = B::pick_model(
                step.asked.backend,
                quiet_picker(p.picker, steps, k),
                step.asked.board,
                step.asked.stack,
                pv,
                false,
                !step.asked.board.current.in_check,
                ply,
            ).0;
            let before = ThreadState { backend: state, ..step.asked };
            let made = moved::<B>(before, ply, step.mv);
            assert(bounds(
                quiesced::<B>(made, pv, -beta, -floor, ply + 1).1,
                -beta,
                -floor,
                -value(step.mv),
            ));
        }
        lemma_bounds_of_the_higher(
            highest(p.best_score, quiet_scores(steps), k),
            highest(p.best_score, quiet_values(steps, value), k),
            step.score,
            value(step.mv),
            p.alpha,
            beta,
        );
    }
}

/// If the replies tell the truth about the moves of a quiescence node, the best score
/// tells the truth about the highest of what the node had to begin with and the values
/// of the moves that were tried, which are all that it has unless the score reaches
/// `beta`.
pub proof fn quiescence_is_as_true_as_its_replies<B: Backend>(
    t: Thread<B>,
    pv: bool,
    beta: int,
    ply: int,
    p: QuietProgress,
    value: spec_fn(Move) -> int,
) -> (steps: Seq<QuietStep<B::State>>)
    requires
        t.sized(),
        0 <= ply < MAX_PLY - 1,
        p.best_score <= p.alpha < beta <= 32001,
        -32001 <= p.alpha,
        p.picker.handed_out <= MAX_MOVES,
        quiet_replies_are_true::<B>(t, pv, ply, value, |s: B::State| true),
    ensures
        ({
            let (end, found) = quiet_moves_tried::<B>(t, pv, beta, ply, p);
            &&& quiet_account::<B>(t, pv, beta, ply, p, steps, end, found)
            &&& found matches Some(q) ==> bounds(
                q.best_score,
                p.alpha,
                beta,
                highest(p.best_score, quiet_values(steps, value), steps.len() as int),
            )
        }),
{
    let steps = quiet_moves_are_accounted_for::<B>(t, pv, beta, ply, p);
    if quiet_moves_tried::<B>(t, pv, beta, ply, p).1 is Some {
        let any = |s: B::State| true;
        lemma_quiet_steps_bound::<B>(t, pv, beta, ply, p, steps, value, any, steps.len() as int);
    }
    steps
}

// ---------------------------------------------------------------------------
// Main search
// ---------------------------------------------------------------------------

/// Whether a move is the stored one, found singular.
pub open spec fn found_singular(node: Node, singular: bool, mv: Move) -> bool {
    singular && mv == match node.entry {
        Some(e) => e.mv,
        None => no_move(),
    }
}

/// The replies tell the truth about the moves of a node: whatever the window, and
/// whatever the engine has gone through, the score of the position after a move tells
/// the truth about minus the move's value, unless the search has been told to stop. This
/// is asked of the depth in which the move is searched in full and, from depth three on,
/// where moves are searched in less, of lower depths too.
pub open spec fn replies_are_true<B: Backend>(
    t: Thread<B>,
    node: Node,
    singular: bool,
    value: spec_fn(Move) -> int,
) -> bool {
    forall|before: Thread<B>, mv: Move, s: Thread<B>, open: bool, low: int, high: int, depth: int|
        {
            let made = #[trigger] moved::<B>(before, node.ply, mv);
            let full = full_depth::<B>(before, node, found_singular(node, singular, mv), mv);
            let after = (#[trigger] searched::<B>(
                s,
                open,
                false,
                low,
                high,
                depth,
                node.ply + 1,
            )).0;
            &&& before.sized()
            &&& before.board == t.board
            &&& before.network == t.network
            &&& s.sized()
            &&& s.board == made.board
            &&& s.network == made.network
            &&& low < high
            &&& depth == full || (node.depth >= 3 && depth < full)
            &&& !B::stopped_model(after.backend).1
        } ==> bounds(
            searched::<B>(s, open, false, low, high, depth, node.ply + 1).1,
            low,
            high,
            -value(mv),
        )
}

/// The highest value of the moves that were searched.
pub open spec fn best_value<S>(steps: Seq<NodeStep<S>>, value: spec_fn(Move) -> int) -> int
    decreases steps.len(),
{
    if steps.len() == 0 {
        -32001
    } else {
        let before = best_value(steps.drop_last(), value);
        let step = steps.last();
        if step.fate is Searched && value(step.mv) > before {
            value(step.mv)
        } else {
            before
        }
    }
}

/// The score of one move tells the truth about its value, with the window between
/// `alpha` and the node's `beta`, if the replies do. A closed window has room for no
/// score inside.
#[verifier::rlimit(30)]
pub proof fn moves_are_as_true_as_their_replies<B: Backend>(
    t: Thread<B>,
    here: Thread<B>,
    node: Node,
    singular: bool,
    alpha: int,
    move_count: int,
    mv: Move,
    value: spec_fn(Move) -> int,
)
    requires
        t.sized(),
        t.board == here.board,
        t.network == here.network,
        0 <= node.ply < MAX_PLY - 1,
        node.depth >= 1,
        alpha < node.beta,
        !node.pv ==> node.beta == alpha + 1,
        replies_are_true::<B>(here, node, singular, value),
        !B::stopped_model(
            move_searched::<B>(
                t,
                node,
                found_singular(node, singular, mv),
                alpha,
                move_count,
                mv,
            ).0.backend,
        ).1,
    ensures
        bounds(
            move_searched::<B>(
                t,
                node,
                found_singular(node, singular, mv),
                alpha,
                move_count,
                mv,
            ).1,
            alpha,
            node.beta,
            value(mv),
        ),
{
    let (s, open, depth, _) = moves_are_searched_as_they_deserve::<B>(
        t,
        node,
        found_singular(node, singular, mv),
        alpha,
        move_count,
        mv,
    );
    let low = if open {
        -node.beta
    } else {
        -alpha - 1
    };
    let made = moved::<B>(t, node.ply, mv);
    let (replied, reply) = searched::<B>(s, open, false, low, -alpha, depth, node.ply + 1);
    assert(made.board == s.board) by {
        reveal(moved);
    }
    assert(unmoved::<B>(replied).backend == replied.backend) by {
        reveal(unmoved);
    }
    assert(bounds(reply, low, -alpha, -value(mv)));
}

proof fn lemma_step_keeps<B: Backend>(
    node: Node,
    singular: bool,
    before: Seq<NodeStep<B::State>>,
    step: NodeStep<B::State>,
)
    requires
        0 <= node.ply < MAX_PLY - 1,
        node.depth >= 1,
        step.asked.sized(),
        fairly_considered::<B>(node, singular, before, step),
    ensures
        step.after.sized(),
        step.after.board == step.asked.board,
        step.after.network == step.asked.network,
{
    reveal(fairly_considered);
    if step.fate is Searched {
        let asked = step.asked;
        let state = B::pick_model(
            asked.backend,
            picker_of(node, before),
            asked.board,
            asked.stack,
            node.pv,
            node.root,
            false,
            node.ply,
        ).0;
        let count = count_of(before) + 1;
        let here = ThreadState {
            backend: state,
            stack: asked.stack.update(
                node.ply,
                StackEntry { move_count: count as i32, ..asked.stack[node.ply] },
            ),
            ..asked
        };
        let first = match node.entry {
            Some(e) => singular && step.mv == e.mv,
            None => singular && step.mv == no_move(),
        };
        let alpha = best_of(node.alpha, before);
        line_keeps::<B>(here, node, first, alpha, count, step.mv);
        let (back, score) = move_searched::<B>(here, node, first, alpha, count, step.mv);
        kept_means(here, back, node.ply);
        reveal(returned);
        if node.root {
            let i = choose|i: int|
                asked.pv_start <= i < asked.pv_end && (#[trigger] asked.root_moves[i]).mv
                    == step.mv;
            root_place_found(back.root_moves, step.mv, 0, i);
            reveal(root_recorded);
        }
    }
}

#[verifier::rlimit(30)]
proof fn lemma_steps_bound<B: Backend>(
    t: Thread<B>,
    node: Node,
    singular: bool,
    steps: Seq<NodeStep<B::State>>,
    value: spec_fn(Move) -> int,
)
    requires
        t.sized(),
        0 <= node.ply < MAX_PLY - 1,
        node.depth >= 1,
        -32001 <= node.alpha < node.beta,
        !node.pv ==> node.beta == node.alpha + 1,
        replies_are_true::<B>(t, node, singular, value),
        forall|k: int|
            0 <= k < steps.len() ==> fairly_considered::<B>(
                node,
                singular,
                #[trigger] steps.take(k),
                steps[k],
            ),
        forall|k: int| 0 <= k < steps.len() ==> !(#[trigger] steps[k]).stopped,
        steps.len() > 0 ==> steps[0].asked == t,
        steps.len() > 0 ==> best_of(-32001, steps.drop_last()) < node.beta,
    ensures
        bounds(best_of(-32001, steps), node.alpha, node.beta, best_value(steps, value)),
        steps.len() > 0 ==> steps.last().after.sized() && steps.last().after.board == t.board
            && steps.last().after.network == t.network,
        best_of(node.alpha, steps) == if best_of(-32001, steps) > node.alpha {
            best_of(-32001, steps)
        } else {
            node.alpha
        },
    decreases steps.len(),
{
    if steps.len() > 0 {
        let n = steps.len() as int;
        let before = steps.drop_last();
        let step = steps.last();
        assert(steps.take(n - 1) =~= before);
        assert(fairly_considered::<B>(node, singular, before, step));
        assert forall|k: int| 0 <= k < before.len() implies fairly_considered::<B>(
            node,
            singular,
            #[trigger] before.take(k),
            before[k],
        ) by {
            assert(before.take(k) =~= steps.take(k));
        }
        if before.len() > 0 {
            lemma_best_grows(-32001, before);
        }
        lemma_steps_bound::<B>(t, node, singular, before, value);
        assert(step.asked.sized() && step.asked.board == t.board && step.asked.network
            == t.network) by {
            reveal(fairly_considered);
        }
        lemma_step_keeps::<B>(node, singular, before, step);
        if step.fate is Searched {
            assert(!step.stopped);
            let alpha = best_of(node.alpha, before);
            assert(bounds(step.score, alpha, node.beta, value(step.mv))) by {
                lemma_step_is_true::<B>(t, node, singular, before, step, value);
            }
            lemma_bounds_of_the_higher(
                best_of(-32001, before),
                best_value(before, value),
                step.score,
                value(step.mv),
                node.alpha,
                node.beta,
            );
        }
    }
}

proof fn lemma_best_grows<S>(base: int, steps: Seq<NodeStep<S>>)
    requires
        steps.len() > 0,
    ensures
        best_of(base, steps.drop_last()) <= best_of(base, steps),
{
}

proof fn lemma_step_is_true<B: Backend>(
    t: Thread<B>,
    node: Node,
    singular: bool,
    before: Seq<NodeStep<B::State>>,
    step: NodeStep<B::State>,
    value: spec_fn(Move) -> int,
)
    requires
        0 <= node.ply < MAX_PLY - 1,
        node.depth >= 1,
        step.asked.sized(),
        step.asked.board == t.board,
        step.asked.network == t.network,
        best_of(node.alpha, before) < node.beta,
        !node.pv ==> node.beta == best_of(node.alpha, before) + 1,
        replies_are_true::<B>(t, node, singular, value),
        fairly_considered::<B>(node, singular, before, step),
        step.fate is Searched,
        !step.stopped,
    ensures
        bounds(step.score, best_of(node.alpha, before), node.beta, value(step.mv)),
{
    reveal(fairly_considered);
    let asked = step.asked;
    let state = B::pick_model(
        asked.backend,
        picker_of(node, before),
        asked.board,
        asked.stack,
        node.pv,
        node.root,
        false,
        node.ply,
    ).0;
    let count = count_of(before) + 1;
    let here = ThreadState {
        backend: state,
        stack: asked.stack.update(
            node.ply,
            StackEntry { move_count: count as i32, ..asked.stack[node.ply] },
        ),
        ..asked
    };
    let alpha = best_of(node.alpha, before);
    moves_are_as_true_as_their_replies::<B>(
        here,
        t,
        node,
        singular,
        alpha,
        count,
        step.mv,
        value,
    );
}

/// If the replies tell the truth about the moves of a node, the best score tells the
/// truth about the highest value of the moves that were searched, which are all that
/// the node has, but for those left out and skipped, unless the score reaches `beta`.
pub proof fn nodes_are_as_true_as_their_replies<B: Backend>(
    t: Thread<B>,
    node: Node,
    singular: bool,
    value: spec_fn(Move) -> int,
) -> (steps: Seq<NodeStep<B::State>>)
    requires
        t.sized(),
        0 <= node.ply < MAX_PLY - 1,
        node.depth >= 1,
        -32001 <= node.alpha < node.beta,
        !node.pv ==> node.beta == node.alpha + 1,
        replies_are_true::<B>(t, node, singular, value),
    ensures
        ({
            let (end, found) = moves_tried::<B>(t, node, singular, no_progress(node));
            &&& node_account::<B>(t, node, singular, steps, end, found)
            &&& found matches Some(q) ==> bounds(
                q.best_score,
                node.alpha,
                node.beta,
                best_value(steps, value),
            )
        }),
{
    let steps = moves_are_accounted_for::<B>(t, node, singular);
    reveal(node_account);
    if moves_tried::<B>(t, node, singular, no_progress(node)).1 is Some {
        lemma_steps_bound::<B>(t, node, singular, steps, value);
    }
    steps
}

// ---------------------------------------------------------------------------
// The value of a quiescence search
// ---------------------------------------------------------------------------

/// An engine that goes by the position alone. As long as it is in one of the calm
/// states, which asking and storing does not lead out of, it does not stop a search,
/// remembers no results, scores every draw alike, and finds positions drawn, hands out
/// moves and plays them as it does in the given state and without a past.
pub open spec fn plain<B: Backend>(state: B::State, calm: spec_fn(B::State) -> bool) -> bool {
    &&& calm(state)
    &&& picking_stays::<B>(calm)
    &&& forall|s: B::State|
        calm(s) ==> !(#[trigger] B::stopped_model(s)).1 && calm(B::stopped_model(s).0)
    &&& forall|s: B::State, hash: u64, clock: u8, ply: int|
        calm(s) ==> (#[trigger] B::tt_read_model(s, hash, clock, ply)).1 is None && calm(
            B::tt_read_model(s, hash, clock, ply).0,
        )
    &&& forall|s: B::State, hash: u64, entry: TtEntry, ply: int, tt_pv: bool, force: bool|
        calm(s) ==> calm(#[trigger] B::tt_write_model(s, hash, entry, ply, tt_pv, force))
    &&& forall|s: B::State, hash: u64| calm(s) ==> calm(#[trigger] B::prefetch_model(s, hash))
    &&& forall|s: B::State, board: BoardState, ply: int|
        calm(s) ==> #[trigger] B::is_draw_model(s, board, ply) == B::is_draw_model(
            state,
            alone(board.current),
            ply,
        )
    &&& forall|s: B::State, nodes: u64|
        calm(s) ==> #[trigger] B::draw_score_model(s, nodes) == B::draw_score_model(state, 0)
    &&& forall|s: B::State, position: Position, mv: Move|
        calm(s) ==> #[trigger] B::play_model(s, position, mv) == B::play_model(
            state,
            position,
            mv,
        )
    &&& forall|position: Position, mv: Move|
        leads_to(
            position.squares@,
            (#[trigger] B::play_model(state, position, mv)).1,
            B::play_model(state, position, mv).0.squares@,
        )
    &&& forall|
        s: B::State,
        picker: MovePicker,
        board: BoardState,
        stack: Seq<StackEntry>,
        pv: bool,
        root: bool,
        skip_quiets: bool,
        ply: int,
    |
        calm(s) ==> (#[trigger] B::pick_model(
            s,
            picker,
            board,
            stack,
            pv,
            root,
            skip_quiets,
            ply,
        )).1 == B::pick_model(
            state,
            picker,
            alone(board.current),
            Seq::empty(),
            false,
            false,
            skip_quiets,
            0,
        ).1
}

/// The clock leaves the engine calm and is never over, or nobody looks at it.
pub open spec fn timeless<B: Backend>(t: Thread<B>, calm: spec_fn(B::State) -> bool) -> bool {
    t.id == 0 ==> forall|s: B::State, nodes: u64, depth: i32|
        calm(s) ==> !(#[trigger] B::check_time_model(s, nodes, depth)).1 && calm(
            B::check_time_model(s, nodes, depth).0,
        )
}

/// A position without a past.
pub open spec fn alone(position: Position) -> BoardState {
    BoardState { current: position, history: Seq::empty() }
}

/// The next move that a position hands out in quiescence: noisy ones, and all of them
/// in check.
pub open spec fn next_quiet_move<B: Backend>(
    state: B::State,
    position: Position,
    picker: MovePicker,
) -> Option<(Move, Stage)> {
    if picker.handed_out < MAX_MOVES {
        B::pick_model(
            state,
            picker,
            alone(position),
            Seq::empty(),
            false,
            false,
            !position.in_check,
            0,
        ).1
    } else {
        None
    }
}

/// What the network makes of a position from scratch.
pub open spec fn network_opinion(p: Parameters, position: Position) -> int {
    output_score(
        p,
        fresh_side(p, position.side_to_move, position.squares@),
        fresh_side(p, position.side_to_move.other(), position.squares@),
        position.men(),
    )
}

/// The value of a position when every capture that improves on the evaluation is
/// looked into to the end: a draw, the network's opinion on the last ply, mate without
/// a move in check, and otherwise the best of the opinion, unless in check, and of the
/// moves, each worth minus the value of the position after it. There is no window.
pub open spec fn quiet_worth<B: Backend>(
    state: B::State,
    p: Parameters,
    position: Position,
    ply: int,
) -> int
    decreases MAX_PLY - ply, 1int, 0int,
    when 0 <= ply <= MAX_PLY
{
    let picker = MovePicker {
        tt_move: no_move(),
        quiescence: true,
        handed_out: 0,
        stage: Stage::HashMove,
    };
    if B::is_draw_model(state, alone(position), ply) {
        B::draw_score_model(state, 0) as int
    } else if ply >= MAX_PLY - 1 {
        network_opinion(p, position)
    } else if !position.in_check {
        best_of_the_rest::<B>(state, p, position, ply, network_opinion(p, position), picker)
    } else if next_quiet_move::<B>(state, position, picker) is None {
        ply - 32000
    } else {
        best_of_the_rest::<B>(state, p, position, ply, -32001, picker)
    }
}

/// The best of a value and of the moves that a position has yet to hand out.
pub open spec fn best_of_the_rest<B: Backend>(
    state: B::State,
    p: Parameters,
    position: Position,
    ply: int,
    best: int,
    picker: MovePicker,
) -> int
    decreases MAX_PLY - ply, 0int, MAX_MOVES - picker.handed_out,
    when 0 <= ply < MAX_PLY
{
    match next_quiet_move::<B>(state, position, picker) {
        None => best,
        Some((mv, stage)) => {
            let next = B::play_model(state, position, mv).0;
            let worth = -quiet_worth::<B>(state, p, next, ply + 1);
            best_of_the_rest::<B>(
                state,
                p,
                position,
                ply,
                if worth > best {
                    worth
                } else {
                    best
                },
                MovePicker { handed_out: (picker.handed_out + 1) as usize, stage, ..picker },
            )
        },
    }
}

proof fn lemma_rest_is_no_worse<B: Backend>(
    state: B::State,
    p: Parameters,
    position: Position,
    ply: int,
    best: int,
    picker: MovePicker,
)
    requires
        0 <= ply < MAX_PLY,
    ensures
        best_of_the_rest::<B>(state, p, position, ply, best, picker) >= best,
    decreases MAX_MOVES - picker.handed_out,
{
    if let Some((mv, stage)) = next_quiet_move::<B>(state, position, picker) {
        let next = B::play_model(state, position, mv).0;
        let worth = -quiet_worth::<B>(state, p, next, ply + 1);
        lemma_rest_is_no_worse::<B>(
            state,
            p,
            position,
            ply,
            if worth > best {
                worth
            } else {
                best
            },
            MovePicker { handed_out: (picker.handed_out + 1) as usize, stage, ..picker },
        );
    }
}

/// What a move is worth in a position.
pub open spec fn move_worth<B: Backend>(
    state: B::State,
    p: Parameters,
    position: Position,
    ply: int,
) -> spec_fn(Move) -> int {
    |mv: Move| -quiet_worth::<B>(state, p, B::play_model(state, position, mv).0, ply + 1)
}

proof fn lemma_rest_after_steps<B: Backend>(
    state: B::State,
    t: Thread<B>,
    pv: bool,
    beta: int,
    ply: int,
    start: QuietProgress,
    steps: Seq<QuietStep<B::State>>,
    calm: spec_fn(B::State) -> bool,
    n: int,
)
    requires
        plain::<B>(state, calm),
        forall|k: int| 0 <= k < n ==> calm((#[trigger] steps[k]).asked.backend),
        t.sized(),
        0 <= ply < MAX_PLY - 1,
        0 <= n <= steps.len(),
        start.picker.handed_out == 0,
        steps.len() <= MAX_MOVES,
        forall|k: int|
            0 <= k < n ==> #[trigger] fairly_tried::<B>(
                pv,
                start.alpha,
                beta,
                ply,
                start.picker,
                steps,
                k,
            ),
        n > 0 ==> steps[0].asked == t,
    ensures
        ({
            let p = t.network.parameters;
            let position = t.board.current;
            let value = move_worth::<B>(state, p, position, ply);
            best_of_the_rest::<B>(state, p, position, ply, start.best_score, start.picker)
                == best_of_the_rest::<B>(
                state,
                p,
                position,
                ply,
                highest(start.best_score, quiet_values(steps, value), n),
                quiet_picker(start.picker, steps, n),
            )
        }),
        n > 0 ==> steps[n - 1].after.sized() && steps[n - 1].after.board == t.board,
    decreases n,
{
    let p = t.network.parameters;
    let position = t.board.current;
    let value = move_worth::<B>(state, p, position, ply);
    if n > 0 {
        let k = n - 1;
        lemma_rest_after_steps::<B>(state, t, pv, beta, ply, start, steps, calm, k);
        assert(fairly_tried::<B>(pv, start.alpha, beta, ply, start.picker, steps, k));
        assert(calm(steps[k].asked.backend));
        assert(steps[k].asked.sized() && steps[k].asked.board == t.board) by {
            reveal(fairly_tried);
        }
        lemma_quiet_step_keeps::<B>(pv, start.alpha, beta, ply, start.picker, steps, k);
        let picker = quiet_picker(start.picker, steps, k);
        assert(next_quiet_move::<B>(state, position, picker) == Some(
            (steps[k].mv, steps[k].stage),
        )) by {
            reveal(fairly_tried);
        }
        assert(quiet_values(steps, value)[k] == value(steps[k].mv));
        assert(quiet_picker(start.picker, steps, n) == (MovePicker {
            handed_out: (picker.handed_out + 1) as usize,
            stage: steps[k].stage,
            ..picker
        }));
    } else {
        assert(quiet_picker(start.picker, steps, 0) == start.picker);
    }
}

/// A quiescence search does not lead an engine out of its calm.
pub proof fn quiescence_stays_calm<B: Backend>(
    state: B::State,
    t: Thread<B>,
    pv: bool,
    alpha: int,
    beta: int,
    ply: int,
    calm: spec_fn(B::State) -> bool,
)
    requires
        plain::<B>(state, calm),
        timeless::<B>(t, calm),
        calm(t.backend),
        0 <= ply <= MAX_PLY,
    ensures
        calm(quiesced::<B>(t, pv, alpha, beta, ply).0.backend),
        quiesced::<B>(t, pv, alpha, beta, ply).0.id == t.id,
    decreases MAX_PLY - ply, 1int, 0int,
{
    let t0 = if pv {
        ThreadState {
            sel_depth: larger(t.sel_depth as int, ply) as i32,
            pv_table: t.pv_table.update(ply, Seq::empty()),
            ..t
        }
    } else {
        t
    };
    let (t1, over) = timed::<B>(t0);
    if !over && !drawn::<B>(t1, ply) && ply < MAX_PLY - 1 {
        let (t2, entry) = looked_up::<B>(t1, ply);
        let in_check = t2.board.current.in_check;
        let raw = raw_value::<B>(t2, entry);
        let start = QuietProgress {
            alpha: if in_check {
                alpha
            } else {
                larger(alpha, raw)
            },
            best_score: if in_check {
                -Score::INFINITE
            } else {
                raw
            },
            best_move: no_move(),
            move_count: 0,
            picker: fresh_picker(no_move(), true),
        };
        lemma_quiet_moves_stay_calm::<B>(state, t2, pv, beta, ply, start, calm);
        reveal(quiet_result);
    }
}

proof fn lemma_quiet_moves_stay_calm<B: Backend>(
    state: B::State,
    t: Thread<B>,
    pv: bool,
    beta: int,
    ply: int,
    p: QuietProgress,
    calm: spec_fn(B::State) -> bool,
)
    requires
        plain::<B>(state, calm),
        timeless::<B>(t, calm),
        calm(t.backend),
        0 <= ply < MAX_PLY - 1,
    ensures
        calm(quiet_moves_tried::<B>(t, pv, beta, ply, p).0.backend),
        quiet_moves_tried::<B>(t, pv, beta, ply, p).0.id == t.id,
    decreases MAX_PLY - ply, 0int, MAX_MOVES - p.picker.handed_out,
{
    let (t1, next) = picked::<B>(t, p.picker, pv, false, !t.board.current.in_check, ply);
    assert(calm(t1.backend));
    if let Some((mv, stage)) = next {
        let made = moved::<B>(t1, ply, mv);
        assert(calm(made.backend) && made.id == t.id) by {
            reveal(moved);
        }
        quiescence_stays_calm::<B>(state, made, pv, -beta, -p.alpha, ply + 1, calm);
        let (t2, reply) = quiesced::<B>(made, pv, -beta, -p.alpha, ply + 1);
        let undone = unmoved::<B>(t2);
        assert(undone.backend == t2.backend && undone.id == t2.id) by {
            reveal(unmoved);
        }
        let (t3, stopped) = polled::<B>(undone);
        let score = -reply;
        let better = score > p.best_score;
        let up = better && score > p.alpha;
        let t4 = if up && pv {
            line_extended::<B>(t3, ply, mv)
        } else {
            t3
        };
        let q = QuietProgress {
            alpha: if up && score < beta {
                score
            } else {
                p.alpha
            },
            best_score: if better {
                score
            } else {
                p.best_score
            },
            best_move: if up {
                mv
            } else {
                p.best_move
            },
            move_count: p.move_count + 1,
            picker: picker_after(p.picker, stage),
        };
        lemma_quiet_moves_stay_calm::<B>(state, t4, pv, beta, ply, q, calm);
    }
}

proof fn lemma_steps_stay_calm<B: Backend>(
    state: B::State,
    t: Thread<B>,
    pv: bool,
    beta: int,
    ply: int,
    start: QuietProgress,
    steps: Seq<QuietStep<B::State>>,
    calm: spec_fn(B::State) -> bool,
    n: int,
)
    requires
        plain::<B>(state, calm),
        timeless::<B>(t, calm),
        calm(t.backend),
        0 <= ply < MAX_PLY - 1,
        0 <= n < steps.len(),
        forall|k: int|
            0 <= k <= n ==> #[trigger] fairly_tried::<B>(
                pv,
                start.alpha,
                beta,
                ply,
                start.picker,
                steps,
                k,
            ),
        steps[0].asked == t,
    ensures
        calm(steps[n].asked.backend),
        calm(steps[n].after.backend),
        steps[n].after.id == t.id,
        !steps[n].stopped,
    decreases n,
{
    if n > 0 {
        lemma_steps_stay_calm::<B>(state, t, pv, beta, ply, start, steps, calm, n - 1);
    }
    assert(fairly_tried::<B>(pv, start.alpha, beta, ply, start.picker, steps, n));
    reveal(fairly_tried);
    let step = steps[n];
    let given = B::pick_model(
        step.asked.backend,
        quiet_picker(start.picker, steps, n),
        step.asked.board,
        step.asked.stack,
        pv,
        false,
        !step.asked.board.current.in_check,
        ply,
    ).0;
    let before = ThreadState { backend: given, ..step.asked };
    let made = moved::<B>(before, ply, step.mv);
    assert(calm(made.backend) && made.id == t.id) by {
        reveal(moved);
    }
    let floor = highest(start.alpha, quiet_scores(steps), n);
    quiescence_stays_calm::<B>(state, made, pv, -beta, -floor, ply + 1, calm);
}

#[verifier::rlimit(30)]
proof fn lemma_replies_by_induction<B: Backend>(
    state: B::State,
    t: Thread<B>,
    pv: bool,
    ply: int,
    calm: spec_fn(B::State) -> bool,
)
    requires
        plain::<B>(state, calm),
        timeless::<B>(t, calm),
        0 <= ply < MAX_PLY - 1,
        in_step(t.network, t.board.current.squares@),
    ensures
        quiet_replies_are_true::<B>(
            t,
            pv,
            ply,
            move_worth::<B>(state, t.network.parameters, t.board.current, ply),
            calm,
        ),
    decreases MAX_PLY - ply, 0int,
{
    let value = move_worth::<B>(state, t.network.parameters, t.board.current, ply);
    assert forall|before: Thread<B>, mv: Move, low: int, high: int|
        {
            let (after, reply) = #[trigger] quiesced::<B>(
                moved::<B>(before, ply, mv),
                pv,
                low,
                high,
                ply + 1,
            );
            &&& before.sized()
            &&& calm(before.backend)
            &&& before.id == t.id
            &&& before.board == t.board
            &&& before.network == t.network
            &&& -32001 <= low < high <= 32001
            &&& !B::stopped_model(after.backend).1
        } implies bounds(
        quiesced::<B>(moved::<B>(before, ply, mv), pv, low, high, ply + 1).1,
        low,
        high,
        -value(mv),
    ) by {
        let made = moved::<B>(before, ply, mv);
        let position = t.board.current;
        let (next, changes) = B::play_model(state, position, mv);
        assert(B::play_model(before.backend, position, mv) == (next, changes));
        assert(leads_to(position.squares@, changes, next.squares@));
        changes_keep_in_step(pushed(t.network), position.squares@, changes, next.squares@);
        changes_keep_the_rest(pushed(t.network), changes);
        assert(calm(B::prefetch_model(before.backend, next.hash)));
        assert(made.sized() && made.id == t.id && calm(made.backend) && made.board.current == next
            && made.network
            == told_all::<Network>(pushed(t.network), changes)) by {
            reveal(moved);
        }
        quiescence_finds_the_value::<B>(state, made, pv, low, high, ply + 1, calm);
    }
}

/// With an engine that goes by the position alone and time enough, a quiescence search
/// tells the truth about the value of the position, which is found without any window:
/// inside the window the score is the value, below and above it is a bound of it.
#[verifier::rlimit(30)]
pub proof fn quiescence_finds_the_value<B: Backend>(
    state: B::State,
    t: Thread<B>,
    pv: bool,
    alpha: int,
    beta: int,
    ply: int,
    calm: spec_fn(B::State) -> bool,
)
    requires
        plain::<B>(state, calm),
        timeless::<B>(t, calm),
        calm(t.backend),
        t.sized(),
        0 <= ply < MAX_PLY,
        -32001 <= alpha < beta <= 32001,
        in_step(t.network, t.board.current.squares@),
    ensures
        bounds(
            quiesced::<B>(t, pv, alpha, beta, ply).1,
            alpha,
            beta,
            quiet_worth::<B>(state, t.network.parameters, t.board.current, ply),
        ),
    decreases MAX_PLY - ply, 2int,
{
    let p = t.network.parameters;
    let position = t.board.current;
    let there = quieted::<B>(t, pv, ply);
    assert(!out_of_time::<B>(t) && calm(there.backend));
    quiescence_ends_with_the_game::<B>(t, pv, alpha, beta, ply);
    assert(network_score(t.network, position.side_to_move, position.men()) == network_opinion(
        p,
        position,
    ));
    assert(B::is_draw_model(there.backend, t.board, ply) == B::is_draw_model(
        state,
        alone(position),
        ply,
    ));
    if !B::is_draw_model(there.backend, t.board, ply) && ply < MAX_PLY - 1 {
        let (read, entry) = B::tt_read_model(
            there.backend,
            position.hash,
            position.halfmove_clock,
            ply,
        );
        let begin = ThreadState { backend: read, ..there };
        let pat = standing_pat::<B>(t, entry);
        assert(pat == network_opinion(p, position));
        let picker = MovePicker {
            tt_move: no_move(),
            quiescence: true,
            handed_out: 0,
            stage: Stage::HashMove,
        };
        if !position.in_check && pat >= beta {
            quiescence_is_settled::<B>(t, pv, alpha, beta, ply);
            lemma_rest_is_no_worse::<B>(state, p, position, ply, pat, picker);
        } else {
            lemma_value_is_found::<B>(state, t, pv, alpha, beta, ply, calm);
        }
    }
}

#[verifier::rlimit(30)]
proof fn lemma_value_is_found<B: Backend>(
    state: B::State,
    t: Thread<B>,
    pv: bool,
    alpha: int,
    beta: int,
    ply: int,
    calm: spec_fn(B::State) -> bool,
)
    requires
        plain::<B>(state, calm),
        timeless::<B>(t, calm),
        calm(t.backend),
        t.sized(),
        0 <= ply < MAX_PLY - 1,
        -32001 <= alpha < beta <= 32001,
        in_step(t.network, t.board.current.squares@),
        !B::is_draw_model(state, alone(t.board.current), ply),
        t.board.current.in_check || network_opinion(t.network.parameters, t.board.current) < beta,
    ensures
        bounds(
            quiesced::<B>(t, pv, alpha, beta, ply).1,
            alpha,
            beta,
            quiet_worth::<B>(state, t.network.parameters, t.board.current, ply),
        ),
    decreases MAX_PLY - ply, 1int,
{
    let p = t.network.parameters;
    let position = t.board.current;
    let value = move_worth::<B>(state, p, position, ply);
    let there = quieted::<B>(t, pv, ply);
    assert(!out_of_time::<B>(t) && calm(there.backend));
    let clock = position.halfmove_clock;
    let (read, entry) = B::tt_read_model(there.backend, position.hash, clock, ply);
    let begin = ThreadState { backend: read, ..there };
    let pat = standing_pat::<B>(t, entry);
    assert(pat == network_opinion(p, position));
    assert(!B::is_draw_model(there.backend, t.board, ply));
    let start = QuietProgress {
        alpha: if !position.in_check && pat > alpha {
            pat
        } else {
            alpha
        },
        best_score: if position.in_check {
            -32001
        } else {
            pat
        },
        best_move: no_move(),
        move_count: 0,
        picker: MovePicker {
            tt_move: no_move(),
            quiescence: true,
            handed_out: 0,
            stage: Stage::HashMove,
        },
    };
    lemma_replies_by_induction::<B>(state, begin, pv, ply, calm);
    let steps = quiescence_returns_its_best::<B>(t, pv, alpha, beta, ply);
    let n = steps.len() as int;
    let (end, best) = quiet_moves_tried::<B>(begin, pv, beta, ply, start);
    assert(calm(begin.backend));
    assert forall|k: int| 0 <= k < n implies calm((#[trigger] steps[k]).asked.backend)
        && !steps[k].stopped && calm(steps[k].after.backend) by {
        lemma_steps_stay_calm::<B>(state, begin, pv, beta, ply, start, steps, calm, k);
    }
    assert(best is Some);
    lemma_quiet_steps_bound::<B>(begin, pv, beta, ply, start, steps, value, calm, n);
    lemma_rest_after_steps::<B>(state, begin, pv, beta, ply, start, steps, calm, n);
    let top = highest(start.best_score, quiet_values(steps, value), n);
    let last = quiet_picker(start.picker, steps, n);
    lemma_rest_is_no_worse::<B>(state, p, position, ply, top, last);
    lemma_rest_is_no_worse::<B>(state, p, position, ply, start.best_score, start.picker);
    assert(n == 0 ==> last == start.picker);
    assert(n > 0 ==> next_quiet_move::<B>(state, position, start.picker) is Some) by {
        if n > 0 {
            assert(fairly_tried::<B>(pv, start.alpha, beta, ply, start.picker, steps, 0));
            assert(calm(steps[0].asked.backend));
            reveal(fairly_tried);
            assert(quiet_picker(start.picker, steps, 0) == start.picker);
        }
    }
}

} // verus!
