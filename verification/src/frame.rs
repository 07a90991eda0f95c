//! What searching leaves as it found it.
use crate::backend::Backend;
use crate::model::{
    continuation_bonus, continuation_malus, continuations_begun, continuations_learned, counted,
    excluding, histories_learned, in_root_window, is_stopped, move_recorded, moved, node_entered,
    node_finished, noisies_punished, noisy_bonus, noisy_learned, passed, polled, quiet_bonus,
    quiet_learned, quiet_malus, quiets_punished, root_place, root_recorded, scaled_malus, uncharged,
    unmoved, unpassed, Node, Progress, Thread,
};
use crate::nnue::popping_undoes_pushing;
use crate::ranking::{charged, lemma_charged_update};
use crate::thread::{RootMoveState, ThreadState};
use crate::types::{no_move, Move, Piece, Square, MAX_PLY};
use vstd::prelude::*;

verus! {

/// What a search from a ply leaves as it found it: the board, the network, the
/// stack and the lines above the ply, every move excluded on the stack, and
/// everything that belongs to the iteration.
#[verifier::opaque]
pub open spec fn kept<S>(before: ThreadState<S>, after: ThreadState<S>, ply: int) -> bool {
    &&& after.id == before.id
    &&& after.limits == before.limits
    &&& after.board == before.board
    &&& after.network == before.network
    &&& after.stack.len() == before.stack.len()
    &&& forall|i: int| 0 <= i < ply ==> #[trigger] after.stack[i] == before.stack[i]
    &&& forall|i: int|
        0 <= i < after.stack.len() ==> (#[trigger] after.stack[i]).excluded
            == before.stack[i].excluded
    &&& after.pv_table.len() == before.pv_table.len()
    &&& forall|i: int| 0 <= i < ply ==> #[trigger] after.pv_table[i] == before.pv_table[i]
    &&& after.root_moves.len() == before.root_moves.len()
    &&& forall|i: int|
        0 <= i < after.root_moves.len() ==> (#[trigger] after.root_moves[i]).mv
            == before.root_moves[i].mv
    &&& after.multi_pv == before.multi_pv
    &&& after.pv_index == before.pv_index
    &&& after.pv_start == before.pv_start
    &&& after.pv_end == before.pv_end
    &&& after.root_depth == before.root_depth
    &&& after.completed_depth == before.completed_depth
    &&& after.previous_best_score == before.previous_best_score
}

/// Only the backend has changed.
pub open spec fn only_backend<S>(before: ThreadState<S>, after: ThreadState<S>) -> bool {
    after == (ThreadState { backend: after.backend, ..before })
}

/// Making a move, searching from the next ply and taking the move back leaves
/// everything that a search from this ply must leave.
pub proof fn line_is_undone<B: Backend>(t: Thread<B>, ply: int, mv: Move, searched: Thread<B>)
    requires
        t.sized(),
        0 <= ply < MAX_PLY,
        kept(moved::<B>(t, ply, mv), searched, ply + 1),
    ensures
        kept(t, unmoved::<B>(searched), ply),
        t.wf() ==> unmoved::<B>(searched).wf(),
        unmoved::<B>(searched).root_moves == searched.root_moves,
        moved::<B>(t, ply, mv).pv_table == t.pv_table,
        moved::<B>(t, ply, mv).sel_depth == t.sel_depth,
        unmoved::<B>(searched).pv_table == searched.pv_table,
        unmoved::<B>(searched).sel_depth == searched.sel_depth,
{
    reveal(kept);
    reveal(moved);
    reveal(unmoved);
    let made = moved::<B>(t, ply, mv);
    let undone = unmoved::<B>(searched);
    popping_undoes_pushing(t.network, B::play_model(t.backend, t.board.current, mv).1);
    assert(undone.board =~= t.board) by {
        assert(t.board.history.push(t.board.current).drop_last() =~= t.board.history);
    }
    assert forall|i: int| 0 <= i < ply implies #[trigger] undone.stack[i] == t.stack[i] by {
        assert(searched.stack[i] == made.stack[i]);
    }
    assert forall|i: int| 0 <= i < undone.stack.len() implies (#[trigger] undone.stack[i]).excluded
        == t.stack[i].excluded by {
        assert(searched.stack[i].excluded == made.stack[i].excluded);
    }
}

/// What is kept, in the terms of the next steps.
pub proof fn kept_means<S>(before: ThreadState<S>, after: ThreadState<S>, ply: int)
    requires
        kept(before, after, ply),
    ensures
        after.board == before.board,
        after.network == before.network,
        after.pv_start == before.pv_start,
        after.pv_end == before.pv_end,
        after.completed_depth == before.completed_depth,
        after.root_depth == before.root_depth,
        before.sized() ==> after.sized(),
        before.wf() ==> after.wf(),
{
    reveal(kept);
}

/// Steps that only touch the backend, the counters and the lines from the ply
/// on keep everything else.
pub proof fn kept_lightly<S>(before: ThreadState<S>, after: ThreadState<S>, ply: int)
    requires
        after == (ThreadState {
            backend: after.backend,
            sel_depth: after.sel_depth,
            nodes: after.nodes,
            pv_table: after.pv_table,
            ..before
        }),
        after.pv_table.len() == before.pv_table.len(),
        forall|i: int| 0 <= i < ply ==> #[trigger] after.pv_table[i] == before.pv_table[i],
    ensures
        kept(before, after, ply),
{
    reveal(kept);
}

/// Keeping is transitive.
pub proof fn kept_twice<S>(
    a: ThreadState<S>,
    b: ThreadState<S>,
    c: ThreadState<S>,
    ply: int,
)
    requires
        kept(a, b, ply),
        kept(b, c, ply),
    ensures
        kept(a, c, ply),
{
    reveal(kept);
    assert forall|i: int| 0 <= i < ply implies #[trigger] c.stack[i] == a.stack[i] by {
        assert(b.stack[i] == a.stack[i]);
    }
    assert forall|i: int| 0 <= i < c.stack.len() implies (#[trigger] c.stack[i]).excluded
        == a.stack[i].excluded by {
        assert(b.stack[i].excluded == a.stack[i].excluded);
    }
    assert forall|i: int| 0 <= i < ply implies #[trigger] c.pv_table[i] == a.pv_table[i] by {
        assert(b.pv_table[i] == a.pv_table[i]);
    }
    assert forall|i: int| 0 <= i < c.root_moves.len() implies (#[trigger] c.root_moves[i]).mv
        == a.root_moves[i].mv by {
        assert(b.root_moves[i].mv == a.root_moves[i].mv);
    }
}

/// Giving the turn away, searching from the next ply and taking the turn back
/// leaves everything that a search from this ply must leave.
pub proof fn pass_is_undone<B: Backend>(t: Thread<B>, ply: int, searched: Thread<B>)
    requires
        t.sized(),
        0 <= ply < MAX_PLY,
        kept(passed::<B>(t), searched, ply + 1),
    ensures
        searched.board.history.len() > 0,
        kept(t, unpassed::<B>(searched), ply),
        t.wf() ==> unpassed::<B>(searched).wf(),
        unpassed::<B>(searched).root_moves == searched.root_moves,
{
    reveal(passed);
    reveal(unpassed);
    reveal(kept);
    let gone = passed::<B>(t);
    let undone = unpassed::<B>(searched);
    assert(undone.board =~= t.board) by {
        assert(t.board.history.push(t.board.current).drop_last() =~= t.board.history);
    }
    assert forall|i: int| 0 <= i < ply implies #[trigger] undone.stack[i] == t.stack[i] by {
        assert(searched.stack[i] == gone.stack[i]);
    }
}

/// Searching a ply without one of its moves and allowing the move again leaves
/// everything that a search from this ply must leave.
pub proof fn probe_is_undone<B: Backend>(t: Thread<B>, ply: int, mv: Move, searched: Thread<B>)
    requires
        t.sized(),
        0 <= ply < MAX_PLY,
        !t.stack[ply].excluded.present(),
        kept(excluding::<B>(t, ply, mv), searched, ply),
    ensures
        kept(t, excluding::<B>(searched, ply, no_move()), ply),
        t.wf() ==> excluding::<B>(searched, ply, no_move()).wf(),
{
    reveal(excluding);
    reveal(kept);
    let without = excluding::<B>(t, ply, mv);
    let after = excluding::<B>(searched, ply, no_move());
    assert forall|i: int| 0 <= i < ply implies #[trigger] after.stack[i] == t.stack[i] by {
        assert(searched.stack[i] == without.stack[i]);
    }
    assert forall|i: int| 0 <= i < after.stack.len() implies (#[trigger] after.stack[i]).excluded
        == t.stack[i].excluded by {
        assert(searched.stack[i].excluded == without.stack[i].excluded);
    }
}

/// Entering a node keeps what a search from its ply must keep.
pub proof fn entering_keeps<B: Backend>(t: Thread<B>, node: Node)
    requires
        t.sized(),
        0 <= node.ply < MAX_PLY,
    ensures
        kept(t, node_entered::<B>(t, node), node.ply),
        t.wf() ==> node_entered::<B>(t, node).wf(),
        node_entered::<B>(t, node).root_moves == t.root_moves,
        node_entered::<B>(t, node).nodes == t.nodes,
{
    reveal(node_entered);
    reveal(kept);
}

/// Noting the number of moves keeps what a search from the ply must keep.
pub proof fn counting_keeps<B: Backend>(t: Thread<B>, ply: int, move_count: int)
    requires
        t.sized(),
        0 <= ply < MAX_PLY,
    ensures
        kept(t, counted::<B>(t, ply, move_count), ply),
        t.wf() ==> counted::<B>(t, ply, move_count).wf(),
{
    reveal(counted);
    reveal(kept);
}

/// A move in the list of root moves has a place there.
pub proof fn root_place_found(root_moves: Seq<RootMoveState>, mv: Move, i: int, j: int)
    requires
        0 <= i <= j < root_moves.len(),
        root_moves[j].mv == mv,
    ensures
        i <= root_place(root_moves, mv, i) <= j,
        root_moves[root_place(root_moves, mv, i)].mv == mv,
    decreases j - i,
{
    if root_moves[i].mv != mv {
        root_place_found(root_moves, mv, i + 1, j);
    }
}

/// Recording the result of a move keeps what a search from the ply must keep.
pub proof fn recording_keeps<B: Backend>(
    t: Thread<B>,
    node: Node,
    p: Progress,
    mv: Move,
    score: int,
    nodes_before: u64,
)
    requires
        t.sized(),
        0 <= node.ply < MAX_PLY,
        node.root ==> in_root_window::<B>(t, mv),
    ensures
        kept(t, move_recorded::<B>(t, node, p, mv, score, nodes_before), node.ply),
        t.wf() ==> move_recorded::<B>(t, node, p, mv, score, nodes_before).wf(),
        !node.root ==> move_recorded::<B>(t, node, p, mv, score, nodes_before).root_moves
            == t.root_moves,
{
    reveal(move_recorded);
    reveal(root_recorded);
    reveal(kept);
    if node.root {
        let j = choose|i: int| t.pv_start <= i < t.pv_end && (#[trigger] t.root_moves[i]).mv == mv;
        root_place_found(t.root_moves, mv, 0, j);
    }
}

/// Recording the result of a root move charges it with the nodes that were
/// visited since.
pub proof fn recording_charges<B: Backend>(
    before: Thread<B>,
    t: Thread<B>,
    node: Node,
    p: Progress,
    mv: Move,
    score: int,
)
    requires
        node.root,
        t.root_moves == before.root_moves,
        t.pv_end <= t.root_moves.len(),
        in_root_window::<B>(t, mv),
    ensures
        uncharged(move_recorded::<B>(t, node, p, mv, score, before.nodes)) == uncharged(before),
{
    reveal(move_recorded);
    reveal(root_recorded);
    let j = choose|i: int| t.pv_start <= i < t.pv_end && (#[trigger] t.root_moves[i]).mv == mv;
    root_place_found(t.root_moves, mv, 0, j);
    let place = root_place(t.root_moves, mv, 0);
    let after = move_recorded::<B>(t, node, p, mv, score, before.nodes);
    lemma_charged_update(t.root_moves, place, after.root_moves[place]);
    let whole = 0x1_0000_0000_0000_0000int;
    let x = before.nodes - charged(before.root_moves);
    let y = after.nodes - charged(after.root_moves);
    assert(y == x || y == x + whole || y == x - whole);
}

/// Asking whether to stop does not take the order back.
pub proof fn asking_keeps_stopped<B: Backend>(t: Thread<B>)
    ensures
        is_stopped::<B>(t) ==> is_stopped::<B>(polled::<B>(t).0),
{
    if is_stopped::<B>(t) {
        B::stop_is_final(t.backend);
    }
}

proof fn lemma_continuations_tell_the_backend<B: Backend>(
    t: Thread<B>,
    ply: int,
    piece: Option<Piece>,
    to: Square,
    bonus: int,
    n: int,
)
    ensures
        only_backend(t, continuations_begun::<B>(t, ply, piece, to, bonus, n)),
    decreases n,
{
    if n > 0 {
        lemma_continuations_tell_the_backend::<B>(t, ply, piece, to, bonus, n - 1);
    }
}

proof fn lemma_quiets_tell_the_backend<B: Backend>(
    t: Thread<B>,
    depth: int,
    ply: int,
    list: Seq<Move>,
    n: int,
)
    ensures
        only_backend(t, quiets_punished::<B>(t, depth, ply, list, n)),
    decreases n,
{
    if n > 0 {
        lemma_quiets_tell_the_backend::<B>(t, depth, ply, list, n - 1);
        let t1 = quiets_punished::<B>(t, depth, ply, list, n - 1);
        let mv = list[n - 1];
        let t2 = quiet_learned::<B>(t1, mv, scaled_malus(quiet_malus(depth), n - 1));
        lemma_continuations_tell_the_backend::<B>(
            t2,
            ply,
            t2.board.current.on(mv.from),
            mv.to,
            scaled_malus(continuation_malus(depth), n - 1),
            4,
        );
    }
}

proof fn lemma_noisies_tell_the_backend<B: Backend>(
    t: Thread<B>,
    depth: int,
    list: Seq<Move>,
    n: int,
)
    ensures
        only_backend(t, noisies_punished::<B>(t, depth, list, n)),
    decreases n,
{
    if n > 0 {
        lemma_noisies_tell_the_backend::<B>(t, depth, list, n - 1);
    }
}

/// Teaching the histories changes nothing but the backend.
pub proof fn histories_tell_the_backend_only<B: Backend>(t: Thread<B>, node: Node, p: Progress)
    ensures
        only_backend(t, histories_learned::<B>(t, node, p)),
{
    let best = p.best_move;
    let a = quiet_learned::<B>(t, best, quiet_bonus(node.depth));
    let bonus = continuation_bonus(node.depth);
    let piece = a.board.current.on(best.from);
    lemma_continuations_tell_the_backend::<B>(a, node.ply, piece, best.to, bonus, 4);
    let b = continuations_learned::<B>(a, node.ply, piece, best.to, bonus);
    let quiets = p.quiet_moves.len() as int;
    lemma_quiets_tell_the_backend::<B>(b, node.depth, node.ply, p.quiet_moves, quiets);
    let t1 = if best.noisy() {
        noisy_learned::<B>(t, best, noisy_bonus(node.depth))
    } else {
        quiets_punished::<B>(b, node.depth, node.ply, p.quiet_moves, quiets)
    };
    lemma_noisies_tell_the_backend::<B>(
        t1,
        node.depth,
        p.noisy_moves,
        p.noisy_moves.len() as int,
    );
}

/// The end of a node changes nothing but the backend.
pub proof fn finishing_tells_the_backend_only<B: Backend>(t: Thread<B>, node: Node, p: Progress)
    ensures
        only_backend(t, node_finished::<B>(t, node, p).0),
{
    reveal(node_finished);
    histories_tell_the_backend_only::<B>(t, node, p);
}

/// The window of root moves stays as long as the list and its ends do.
pub proof fn root_window_stays<B: Backend>(before: Thread<B>, after: Thread<B>, mv: Move)
    requires
        in_root_window::<B>(before, mv),
        after.root_moves == before.root_moves,
        after.pv_start == before.pv_start,
        after.pv_end == before.pv_end,
    ensures
        in_root_window::<B>(after, mv),
{
    let j = choose|j: int|
        before.pv_start <= j < before.pv_end && (#[trigger] before.root_moves[j]).mv == mv;
    assert(after.root_moves[j].mv == mv);
}

} // verus!
