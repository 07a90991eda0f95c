//! What a search of one ply comes to, from end to end.
use crate::accounts::{
    best_of, count_of, fairly_considered, node_account, picker_of, returned, NodeStep,
};
use crate::backend::Backend;
use crate::board::{leads_to, told_all, Position};
use crate::frame::{kept, kept_means};
use crate::invariance::{line_keeps, search_keeps};
use crate::model::{
    late_reduction, move_searched, moved, moves_tried, no_progress, node_entered, node_of, quiesced,
    searched, unmoved, Node, Thread,
};
use crate::movepick::{MovePicker, Stage};
use crate::nnue::{
    changes_keep_in_step, changes_keep_the_rest, in_step, pushed, Network, Parameters,
};
use crate::outcomes::{
    asked, margins_leave_low_nodes_to_captures, margins_settle_high_nodes, nodes_are_entered,
    nodes_know_their_position, nodes_return_their_best, null_moves_are_answered,
    null_moves_have_their_conditions, other_nodes_are_searched, stored_moves_are_tested,
    stored_results_settle_closed_windows, undisturbed, with_backend,
};
use crate::soundness::{
    alone, best_value, bounds, lemma_bounds_of_the_higher, move_worth, plain,
    quiescence_finds_the_value, quiescence_stays_calm, quiet_worth, timeless,
};
use crate::stack::StackEntry;
use crate::thread::ThreadState;
use crate::types::{no_move, Move, MAX_MOVES, MAX_PLY};
use vstd::prelude::*;

verus! {

/// The next move that a position hands out.
pub open spec fn next_move<B: Backend>(
    state: B::State,
    position: Position,
    picker: MovePicker,
) -> Option<(Move, Stage)> {
    if picker.handed_out < MAX_MOVES {
        B::pick_model(
            state,
            picker,
            alone(position),
            Seq::empty(),
            false,
            false,
            false,
            0,
        ).1
    } else {
        None
    }
}

/// The best of a value and of the moves that a position has yet to hand out, each worth
/// minus the quiescence value of the position after it.
pub open spec fn best_of_moves<B: Backend>(
    state: B::State,
    p: Parameters,
    position: Position,
    ply: int,
    best: int,
    picker: MovePicker,
) -> int
    decreases MAX_MOVES - picker.handed_out,
{
    match next_move::<B>(state, position, picker) {
        None => best,
        Some((mv, stage)) => {
            let next = B::play_model(state, position, mv).0;
            let worth = -quiet_worth::<B>(state, p, next, ply + 1);
            best_of_moves::<B>(
                state,
                p,
                position,
                ply,
                if worth > best {
                    worth
                } else {
                    best
                },
                MovePicker { handed_out: (picker.handed_out + 1) as usize, stage, ..picker },
            )
        },
    }
}

/// The value of a position when every move is looked at one ply deep: the best of them,
/// or mate or a draw if there is none. There is no window.
pub open spec fn one_ply_worth<B: Backend>(
    state: B::State,
    p: Parameters,
    position: Position,
    ply: int,
) -> int {
    let picker = MovePicker {
        tt_move: no_move(),
        quiescence: false,
        handed_out: 0,
        stage: Stage::HashMove,
    };
    if next_move::<B>(state, position, picker) is Some {
        best_of_moves::<B>(state, p, position, ply, -32001, picker)
    } else if position.in_check {
        ply - 32000
    } else {
        B::draw_score_model(state, 0) as int
    }
}

proof fn lemma_moves_are_no_worse<B: Backend>(
    state: B::State,
    p: Parameters,
    position: Position,
    ply: int,
    best: int,
    picker: MovePicker,
)
    ensures
        best_of_moves::<B>(state, p, position, ply, best, picker) >= best,
    decreases MAX_MOVES - picker.handed_out,
{
    if let Some((mv, stage)) = next_move::<B>(state, position, picker) {
        let next = B::play_model(state, position, mv).0;
        let worth = -quiet_worth::<B>(state, p, next, ply + 1);
        lemma_moves_are_no_worse::<B>(
            state,
            p,
            position,
            ply,
            if worth > best {
                worth
            } else {
                best
            },
            MovePicker { handed_out: (picker.handed_out + 1) as usize, stage, ..picker },
        );
    }
}

proof fn lemma_horizon<B: Backend>(
    state: B::State,
    t: Thread<B>,
    pv: bool,
    alpha: int,
    beta: int,
    ply: int,
    calm: spec_fn(B::State) -> bool,
)
    requires
        plain::<B>(state, calm),
        timeless::<B>(t, calm),
        calm(t.backend),
        t.sized(),
        0 <= ply < MAX_PLY,
        -32001 <= alpha < beta <= 32001,
        in_step(t.network, t.board.current.squares@),
    ensures
        ({
            let (after, score) = searched::<B>(t, pv, false, alpha, beta, 0, ply);
            &&& bounds(
                score,
                alpha,
                beta,
                quiet_worth::<B>(state, t.network.parameters, t.board.current, ply),
            )
            &&& calm(after.backend)
            &&& kept(t, after, ply)
        }),
{
    let heard = with_backend::<B>(t, B::stopped_model(t.backend).0, pv, ply);
    assert(searched::<B>(t, pv, false, alpha, beta, 0, ply) == quiesced::<B>(
        heard,
        pv,
        alpha,
        beta,
        ply,
    ));
    quiescence_finds_the_value::<B>(state, heard, pv, alpha, beta, ply, calm);
    quiescence_stays_calm::<B>(state, heard, pv, alpha, beta, ply, calm);
    search_keeps::<B>(t, pv, false, alpha, beta, 0, ply);
}

#[verifier::rlimit(30)]
proof fn lemma_move_of_one_ply<B: Backend>(
    state: B::State,
    t: Thread<B>,
    node: Node,
    alpha: int,
    move_count: int,
    mv: Move,
    calm: spec_fn(B::State) -> bool,
)
    requires
        plain::<B>(state, calm),
        timeless::<B>(t, calm),
        calm(t.backend),
        t.sized(),
        node.pv,
        node.depth == 1,
        0 <= node.ply < MAX_PLY - 1,
        -32001 <= alpha < node.beta <= 32001,
        in_step(t.network, t.board.current.squares@),
        !B::play_model(state, t.board.current, mv).0.in_check,
    ensures
        ({
            let (after, score) = move_searched::<B>(t, node, false, alpha, move_count, mv);
            let next = B::play_model(state, t.board.current, mv).0;
            &&& bounds(
                score,
                alpha,
                node.beta,
                -quiet_worth::<B>(state, t.network.parameters, next, node.ply + 1),
            )
            &&& calm(after.backend)
            &&& kept(t, after, node.ply)
            &&& after.sized()
        }),
{
    let position = t.board.current;
    let ply = node.ply + 1;
    let made = moved::<B>(t, node.ply, mv);
    let (next, changes) = B::play_model(state, position, mv);
    assert(B::play_model(t.backend, position, mv) == (next, changes));
    assert(leads_to(position.squares@, changes, next.squares@));
    changes_keep_in_step(pushed(t.network), position.squares@, changes, next.squares@);
    changes_keep_the_rest(pushed(t.network), changes);
    assert(calm(B::prefetch_model(t.backend, next.hash)));
    assert(made.sized() && made.id == t.id && calm(made.backend) && made.board.current == next
        && made.network == told_all::<Network>(pushed(t.network), changes)) by {
        reveal(moved);
    }
    line_keeps::<B>(t, node, false, alpha, move_count, mv);
    kept_means(t, move_searched::<B>(t, node, false, alpha, move_count, mv).0, node.ply);
    reveal(late_reduction);
    assert(forall|x: Thread<B>| (#[trigger] unmoved::<B>(x)).backend == x.backend) by {
        reveal(unmoved);
    }
    if move_count == 1 {
        lemma_horizon::<B>(state, made, true, -node.beta, -alpha, ply, calm);
    } else {
        lemma_horizon::<B>(state, made, false, -alpha - 1, -alpha, ply, calm);
        let (t2, reply2) = searched::<B>(made, false, false, -alpha - 1, -alpha, 0, ply);
        kept_means(made, t2, ply);
        assert(t2.id == made.id) by {
            reveal(kept);
        }
        lemma_horizon::<B>(state, t2, true, -node.beta, -alpha, ply, calm);
    }
}

/// What a thread has in common with the one that entered the node.
spec fn at_the_node<B: Backend>(
    t: Thread<B>,
    here: Thread<B>,
    ply: int,
    calm: spec_fn(B::State) -> bool,
) -> bool {
    &&& here.sized()
    &&& calm(here.backend)
    &&& here.id == t.id
    &&& here.board == t.board
    &&& here.network == t.network
    &&& here.stack[ply].excluded == no_move()
}

#[verifier::rlimit(30)]
proof fn lemma_step_of_one_ply<B: Backend>(
    state: B::State,
    t: Thread<B>,
    node: Node,
    before: Seq<NodeStep<B::State>>,
    step: NodeStep<B::State>,
    calm: spec_fn(B::State) -> bool,
)
    requires
        plain::<B>(state, calm),
        timeless::<B>(t, calm),
        at_the_node::<B>(t, step.asked, node.ply, calm),
        node.pv,
        !node.root,
        node.depth == 1,
        node.entry is None,
        0 <= node.ply < MAX_PLY - 1,
        -32001 <= best_of(node.alpha, before) < node.beta <= 32001,
        in_step(t.network, t.board.current.squares@),
        forall|mv: Move| !(#[trigger] B::play_model(state, t.board.current, mv)).0.in_check,
        fairly_considered::<B>(node, false, before, step),
        before.len() < MAX_MOVES,
    ensures
        step.fate is Searched,
        !step.stopped,
        at_the_node::<B>(t, step.after, node.ply, calm),
        next_move::<B>(state, t.board.current, picker_of(node, before)) == Some(
            (step.mv, step.stage),
        ),
        bounds(
            step.score,
            best_of(node.alpha, before),
            node.beta,
            -quiet_worth::<B>(
                state,
                t.network.parameters,
                B::play_model(state, t.board.current, step.mv).0,
                node.ply + 1,
            ),
        ),
{
    reveal(fairly_considered);
    let from = step.asked;
    let (given, _) = B::pick_model(
        from.backend,
        picker_of(node, before),
        from.board,
        from.stack,
        node.pv,
        node.root,
        false,
        node.ply,
    );
    B::picks_are_moves(
        from.backend,
        picker_of(node, before),
        from.board,
        from.stack,
        node.pv,
        node.root,
        false,
        node.ply,
    );
    let count = count_of(before) + 1;
    let here = ThreadState {
        backend: given,
        stack: from.stack.update(
            node.ply,
            StackEntry { move_count: count as i32, ..from.stack[node.ply] },
        ),
        ..from
    };
    let alpha = best_of(node.alpha, before);
    assert(!B::play_model(state, t.board.current, step.mv).0.in_check);
    lemma_move_of_one_ply::<B>(state, here, node, alpha, count, step.mv, calm);
    let back = move_searched::<B>(here, node, false, alpha, count, step.mv).0;
    assert(back.id == here.id && back.board == here.board && back.network == here.network
        && back.stack[node.ply].excluded == no_move()) by {
        reveal(kept);
    }
    reveal(returned);
}

#[verifier::rlimit(30)]
proof fn lemma_steps_of_one_ply<B: Backend>(
    state: B::State,
    t: Thread<B>,
    node: Node,
    steps: Seq<NodeStep<B::State>>,
    calm: spec_fn(B::State) -> bool,
)
    requires
        plain::<B>(state, calm),
        timeless::<B>(t, calm),
        at_the_node::<B>(t, t, node.ply, calm),
        node.pv,
        !node.root,
        node.depth == 1,
        node.entry is None,
        0 <= node.ply < MAX_PLY - 1,
        -32001 <= node.alpha < node.beta <= 32001,
        in_step(t.network, t.board.current.squares@),
        forall|mv: Move| !(#[trigger] B::play_model(state, t.board.current, mv)).0.in_check,
        forall|k: int|
            0 <= k < steps.len() ==> fairly_considered::<B>(
                node,
                false,
                #[trigger] steps.take(k),
                steps[k],
            ),
        steps.len() <= MAX_MOVES,
        steps.len() > 0 ==> steps[0].asked == t,
        steps.len() > 0 ==> best_of(-32001, steps.drop_last()) < node.beta,
    ensures
        ({
            let p = t.network.parameters;
            let position = t.board.current;
            let value = move_worth::<B>(state, p, position, node.ply);
            let none = Seq::<NodeStep<B::State>>::empty();
            &&& bounds(best_of(-32001, steps), node.alpha, node.beta, best_value(steps, value))
            &&& best_of_moves::<B>(state, p, position, node.ply, -32001, picker_of(node, none))
                == best_of_moves::<B>(
                state,
                p,
                position,
                node.ply,
                best_value(steps, value),
                picker_of(node, steps),
            )
        }),
        steps.len() > 0 ==> at_the_node::<B>(t, steps.last().after, node.ply, calm),
        steps.len() > 0 ==> !steps.last().stopped,
        steps.len() > 0 ==> next_move::<B>(
            state,
            t.board.current,
            picker_of(node, Seq::<NodeStep<B::State>>::empty()),
        ) is Some,
        count_of(steps) == steps.len(),
        best_of(node.alpha, steps) == if best_of(-32001, steps) > node.alpha {
            best_of(-32001, steps)
        } else {
            node.alpha
        },
    decreases steps.len(),
{
    if steps.len() > 0 {
        let n = steps.len() as int;
        let before = steps.drop_last();
        let step = steps.last();
        let value = move_worth::<B>(state, t.network.parameters, t.board.current, node.ply);
        assert(steps.take(n - 1) =~= before);
        assert(fairly_considered::<B>(node, false, before, step));
        assert forall|k: int| 0 <= k < before.len() implies fairly_considered::<B>(
            node,
            false,
            #[trigger] before.take(k),
            before[k],
        ) by {
            assert(before.take(k) =~= steps.take(k));
        }
        lemma_steps_of_one_ply::<B>(state, t, node, before, calm);
        assert(at_the_node::<B>(t, step.asked, node.ply, calm)) by {
            reveal(fairly_considered);
        }
        lemma_step_of_one_ply::<B>(state, t, node, before, step, calm);
        lemma_bounds_of_the_higher(
            best_of(-32001, before),
            best_value(before, value),
            step.score,
            value(step.mv),
            node.alpha,
            node.beta,
        );
        let picker = picker_of(node, before);
        assert(picker_of(node, steps) == (MovePicker {
            handed_out: (picker.handed_out + 1) as usize,
            stage: step.stage,
            ..picker
        }));
        if before.len() == 0 {
            assert(before =~= Seq::<NodeStep<B::State>>::empty());
        }
    } else {
        assert(steps =~= Seq::<NodeStep<B::State>>::empty());
    }
}

/// With an engine that goes by the position alone and time enough, a search of one ply
/// with an open window tells the truth about the value of the position at that depth,
/// which is found without any window, where no move gives check: the best of all moves,
/// each worth minus the quiescence value of the position after it, or mate or a draw
/// without any.
#[verifier::rlimit(30)]
pub proof fn one_ply_finds_the_value<B: Backend>(
    state: B::State,
    t: Thread<B>,
    alpha: int,
    beta: int,
    ply: int,
    calm: spec_fn(B::State) -> bool,
)
    requires
        plain::<B>(state, calm),
        timeless::<B>(t, calm),
        calm(t.backend),
        t.sized(),
        0 <= ply < MAX_PLY - 1,
        ply - 32000 <= alpha < beta <= 31999 - ply,
        in_step(t.network, t.board.current.squares@),
        t.stack[ply].excluded == no_move(),
        !B::is_draw_model(state, alone(t.board.current), ply),
        forall|mv: Move| !(#[trigger] B::play_model(state, t.board.current, mv)).0.in_check,
    ensures
        bounds(
            searched::<B>(t, true, false, alpha, beta, 1, ply).1,
            alpha,
            beta,
            one_ply_worth::<B>(state, t.network.parameters, t.board.current, ply),
        ),
{
    let p = t.network.parameters;
    let position = t.board.current;
    assert(calm(B::stopped_model(t.backend).0));
    assert(undisturbed::<B>(t) && calm(asked::<B>(t)));
    other_nodes_are_searched::<B>(t, true, false, alpha, beta, 1, ply);
    let t1 = with_backend::<B>(t, asked::<B>(t), true, ply);
    stored_results_settle_closed_windows::<B>(t1, true, false, alpha, beta, 1, ply);
    let (read, entry) = B::tt_read_model(t1.backend, position.hash, position.halfmove_clock, ply);
    assert(entry is None && calm(read));
    let there = ThreadState { backend: read, ..t1 };
    let node = node_of::<B>(there, true, false, alpha, beta, 1, ply, entry);
    nodes_know_their_position::<B>(there, true, false, alpha, beta, 1, ply, entry);
    margins_settle_high_nodes(node, position.in_check);
    let entered = node_entered::<B>(there, node);
    nodes_are_entered::<B>(there, node);
    assert(entered.sized());
    null_moves_have_their_conditions::<B>(entered, node);
    null_moves_are_answered::<B>(entered, node);
    margins_leave_low_nodes_to_captures::<B>(entered, node);
    stored_moves_are_tested::<B>(entered, node);
    reveal(node_account);
    let steps = nodes_return_their_best::<B>(entered, node);
    let none = Seq::<NodeStep<B::State>>::empty();
    let (end, found) = moves_tried::<B>(entered, node, false, no_progress(node));
    assert(at_the_node::<B>(entered, entered, ply, calm));
    lemma_steps_of_one_ply::<B>(state, entered, node, steps, calm);
    assert(found is Some);
    let value = move_worth::<B>(state, p, position, ply);
    lemma_moves_are_no_worse::<B>(
        state,
        p,
        position,
        ply,
        best_value(steps, value),
        picker_of(node, steps),
    );
    assert(calm(if steps.len() == 0 {
        entered.backend
    } else {
        steps.last().after.backend
    }));
}

} // verus!
