//! How the root moves stand while they are searched.
use crate::backend::Backend;
use crate::frame::{kept, root_place_found};
use crate::laws::truthful;
use crate::model::{
    in_root_window, looked_up, move_considered, move_recorded, no_progress, node_entered, node_of,
    picked, picker_after, polled, progressed, raises, remembered, root_place, root_recorded,
    searched, timed, Node, Progress, Thread, Verdict,
};
use crate::movepick::{MovePicker, Stage};
use crate::ranking::{ranked, ranking_is_a_stable_sort, ranking_keeps_moves};
use crate::thread::{RootMoveState, ThreadState};
use crate::transposition::Bound;
use crate::types::{Move, Score, MAX_MOVES};
use vstd::prelude::*;
use vstd::seq_lib::to_multiset_contains;

verus! {

/// The moves that the picker hands out in the course of a node, from `p` on.
pub open spec fn handed<B: Backend>(t: Thread<B>, node: Node, singular: bool, p: Progress) -> Seq<
    Move,
>
    decreases MAX_MOVES - p.picker.handed_out,
{
    let (t1, next) = picked::<B>(t, p.picker, node.pv, node.root, false, node.ply);
    match next {
        None => Seq::empty(),
        Some((mv, stage)) => {
            let picker = picker_after(p.picker, stage);
            let (t2, p2, verdict) = move_considered::<B>(
                t1,
                node,
                singular,
                Progress { picker, ..p },
                mv,
            );
            if verdict == Verdict::GoOn {
                seq![mv] + handed::<B>(t2, node, singular, Progress { picker, ..p2 })
            } else {
                seq![mv]
            }
        },
    }
}

/// No two root moves are the same.
pub open spec fn distinct(list: Seq<RootMoveState>) -> bool {
    forall|i: int, j: int|
        0 <= i < j < list.len() ==> (#[trigger] list[i]).mv != (#[trigger] list[j]).mv
}

/// Every root move is among the moves, and none of the moves comes twice.
pub open spec fn each_once(moves: Seq<Move>, list: Seq<RootMoveState>) -> bool {
    &&& moves.no_duplicates()
    &&& distinct(list)
    &&& forall|i: int| 0 <= i < list.len() ==> moves.contains((#[trigger] list[i]).mv)
}

/// How one root move stands that has been searched: the best one has the best
/// score and is neither an upper nor a lower bound, any other has a lower score.
pub open spec fn stands(rm: RootMoveState, node: Node, p: Progress) -> bool {
    &&& p.move_count >= 1
    &&& if p.bound == Bound::Exact {
        if rm.mv == p.best_move {
            rm.score == p.best_score && !rm.upperbound && !rm.lowerbound
        } else {
            rm.score < p.best_score
        }
    } else {
        rm.score <= node.alpha
    }
}

/// How the root moves stand when some of the moves have been handed out.
#[verifier::opaque]
pub open spec fn standing(
    list: Seq<RootMoveState>,
    node: Node,
    p: Progress,
    seen: Seq<Move>,
) -> bool {
    &&& forall|i: int|
        0 <= i < list.len() && seen.contains(list[i].mv) ==> stands(#[trigger] list[i], node, p)
    &&& p.bound == Bound::Exact ==> exists|i: int|
        0 <= i < list.len() && (#[trigger] list[i]).mv == p.best_move && seen.contains(p.best_move)
}

/// The root move with the best score leads the ranking, and its score is exact.
#[verifier::opaque]
pub open spec fn leads(list: Seq<RootMoveState>, score: int) -> bool {
    list.len() > 0 ==> {
        let first = ranked(list)[0];
        first.score == score && !first.upperbound && !first.lowerbound
    }
}

/// The window of root moves covers the whole list, and no move is left out.
pub open spec fn whole_root<S>(t: ThreadState<S>) -> bool {
    &&& t.sized()
    &&& t.pv_start == 0
    &&& t.pv_end == t.root_moves.len()
    &&& !t.stack[0].excluded.present()
}

/// A move that was not handed out before and is not in the list changes
/// nothing.
pub proof fn strangers_do_not_matter(
    list: Seq<RootMoveState>,
    node: Node,
    p: Progress,
    seen: Seq<Move>,
    mv: Move,
)
    requires
        standing(list, node, p, seen),
        forall|i: int| 0 <= i < list.len() ==> (#[trigger] list[i]).mv != mv,
    ensures
        standing(list, node, p, seen.push(mv)),
{
    reveal(standing);
    assert forall|i: int| 0 <= i < list.len() && seen.push(mv).contains(
        list[i].mv,
    ) implies stands(#[trigger] list[i], node, p) by {
        let k = choose|k: int| 0 <= k < seen.push(mv).len() && seen.push(mv)[k] == list[i].mv;
        assert(seen[k] == list[i].mv);
    }
    if p.bound == Bound::Exact {
        let k = choose|k: int| 0 <= k < seen.len() && seen[k] == p.best_move;
        assert(seen.push(mv)[k] == p.best_move);
    }
}

/// Searching a root move that was not handed out before leaves the root moves
/// standing as they should.
pub proof fn recording_keeps_standing<B: Backend>(
    t: Thread<B>,
    node: Node,
    p: Progress,
    seen: Seq<Move>,
    mv: Move,
    score: int,
    nodes_before: u64,
)
    requires
        node.root,
        -Score::INFINITE <= node.alpha < node.beta <= Score::INFINITE,
        distinct(t.root_moves),
        t.pv_end <= t.root_moves.len(),
        in_root_window::<B>(t, mv),
        standing(t.root_moves, node, Progress { move_count: p.move_count - 1, ..p }, seen),
        truthful(node, p),
        p.best_score < node.beta,
        p.move_count >= 1,
        p.move_count == 1 ==> p.best_score == -Score::INFINITE,
        p.best_score >= -Score::INFINITE,
        -Score::MATE <= score <= Score::MATE,
        !(raises(p, score) && score >= node.beta),
        !seen.contains(mv),
        mv.present(),
    ensures
        standing(
            move_recorded::<B>(t, node, p, mv, score, nodes_before).root_moves,
            node,
            remembered(progressed(p, mv, score, node.beta), mv),
            seen.push(mv),
        ),
{
    reveal(standing);
    reveal(move_recorded);
    reveal(root_recorded);
    reveal(progressed);
    reveal(remembered);
    let old_list = t.root_moves;
    let w = choose|i: int| t.pv_start <= i < t.pv_end && (#[trigger] t.root_moves[i]).mv == mv;
    root_place_found(old_list, mv, 0, w);
    let place = root_place(old_list, mv, 0);
    let list = move_recorded::<B>(t, node, p, mv, score, nodes_before).root_moves;
    let q = remembered(progressed(p, mv, score, node.beta), mv);
    let before = Progress { move_count: p.move_count - 1, ..p };
    assert(list[place].mv == mv);
    assert(seen.push(mv)[seen.len() as int] == mv);
    assert forall|i: int| 0 <= i < list.len() && seen.push(mv).contains(
        list[i].mv,
    ) implies stands(#[trigger] list[i], node, q) by {
        if i != place {
            assert(list[i] == old_list[i]);
            assert(old_list[i].mv != mv) by {
                if i < place {
                    assert(old_list[i].mv != old_list[place].mv);
                } else {
                    assert(old_list[place].mv != old_list[i].mv);
                }
            }
            let k = choose|k: int| 0 <= k < seen.push(mv).len() && seen.push(mv)[k] == list[i].mv;
            assert(seen[k] == list[i].mv);
            assert(stands(old_list[i], node, before));
        }
    }
    if q.bound == Bound::Exact {
        if raises(p, score) {
            assert(list[place].mv == q.best_move);
        } else {
            let i = choose|i: int|
                0 <= i < old_list.len() && (#[trigger] old_list[i]).mv == p.best_move
                    && seen.contains(p.best_move);
            assert(list[i].mv == q.best_move);
            let k = choose|k: int| 0 <= k < seen.len() && seen[k] == p.best_move;
            assert(seen.push(mv)[k] == p.best_move);
        }
    }
}

/// When every root move has been searched and the score is inside the window,
/// the ranking begins with a root move that has this score, exactly.
pub proof fn exact_scores_lead(
    list: Seq<RootMoveState>,
    node: Node,
    p: Progress,
    seen: Seq<Move>,
)
    requires
        standing(list, node, p, seen),
        each_once(seen, list),
        truthful(node, p),
        node.alpha < p.best_score < node.beta,
    ensures
        leads(list, p.best_score),
{
    reveal(standing);
    reveal(leads);
    if list.len() > 0 {
        let best = choose|i: int|
            0 <= i < list.len() && (#[trigger] list[i]).mv == p.best_move && seen.contains(
                p.best_move,
            );
        let order = ranked(list);
        ranking_is_a_stable_sort(list, 0);
        ranking_keeps_moves(list);
        to_multiset_contains(order, order[0]);
        to_multiset_contains(list, order[0]);
        let i = choose|i: int| 0 <= i < list.len() && list[i] == order[0];
        assert(stands(list[i], node, p));
        to_multiset_contains(list, list[best]);
        to_multiset_contains(order, list[best]);
        assert(list.contains(list[best]));
        let k = choose|k: int| 0 <= k < order.len() && order[k] == list[best];
        assert(stands(list[best], node, p));
        assert(order[0].score >= order[k].score);
    }
}

/// One more move leaves the root moves standing as they should, whichever were
/// handed out before.
#[verifier::opaque]
pub open spec fn carries_on(
    list: Seq<RootMoveState>,
    p: Progress,
    next_list: Seq<RootMoveState>,
    next_p: Progress,
    node: Node,
    mv: Move,
) -> bool {
    forall|seen: Seq<Move>| #[trigger]
        standing(list, node, p, seen) && !seen.contains(mv) ==> standing(
            next_list,
            node,
            next_p,
            seen.push(mv),
        )
}

/// A move can be searched at the root: the list is whole and without
/// repetition, and what was found so far agrees with the window.
#[verifier::opaque]
pub open spec fn in_order<S>(t: ThreadState<S>, node: Node, p: Progress) -> bool {
    &&& node.ply == 0
    &&& whole_root(t)
    &&& distinct(t.root_moves)
    &&& truthful(node, p)
    &&& p.best_score < node.beta
}

/// The picker hands out every root move at the root, and no move twice.
#[verifier::opaque]
pub open spec fn offers_each_once<B: Backend>(t: Thread<B>, node: Node) -> bool {
    &&& node.ply == 0
    &&& whole_root(t)
    &&& each_once(handed::<B>(t, node, false, no_progress(node)), t.root_moves)
}

/// The same, seen from before the root is entered.
#[verifier::opaque]
pub open spec fn node_offers<B: Backend>(
    t: Thread<B>,
    alpha: int,
    beta: int,
    depth: int,
) -> bool {
    let (read, entry) = looked_up::<B>(t, 0);
    let node = node_of::<B>(read, true, true, alpha, beta, depth, 0, entry);
    offers_each_once::<B>(node_entered::<B>(read, node), node)
}

/// The same, seen from before the search of the root.
#[verifier::opaque]
pub open spec fn root_offers<B: Backend>(
    t: Thread<B>,
    alpha: int,
    beta: int,
    depth: int,
) -> bool {
    node_offers::<B>(timed::<B>(polled::<B>(t).0).0, alpha, beta, depth)
}

/// A search of the root has given a score inside its window, and left the list
/// of root moves; if it was offered every root move once, the one that leads has
/// this score, exactly.
pub open spec fn settled<B: Backend>(
    t: Thread<B>,
    alpha: int,
    beta: int,
    depth: int,
    list: Seq<RootMoveState>,
) -> bool {
    let (after, score) = searched::<B>(t, true, true, alpha, beta, depth, 0);
    &&& alpha < score < beta
    &&& list == after.root_moves
    &&& root_offers::<B>(t, alpha, beta, depth) ==> leads(list, score)
}

/// The window of root moves and the list stay whole as long as everything is
/// kept.
pub proof fn whole_root_stays<S>(before: ThreadState<S>, after: ThreadState<S>)
    requires
        kept(before, after, 0),
        whole_root(before),
    ensures
        whole_root(after),
        distinct(before.root_moves) ==> distinct(after.root_moves),
        forall|i: int|
            0 <= i < after.root_moves.len() ==> (#[trigger] after.root_moves[i]).mv
                == before.root_moves[i].mv,
        after.root_moves.len() == before.root_moves.len(),
{
    reveal(kept);
    if distinct(before.root_moves) {
        assert forall|i: int, j: int| 0 <= i < j < after.root_moves.len() implies (
        #[trigger] after.root_moves[i]).mv != (#[trigger] after.root_moves[j]).mv by {
            assert(before.root_moves[i].mv != before.root_moves[j].mv);
        }
    }
}

/// Among moves that are handed out once each, the next is not one of those
/// before it.
pub proof fn next_is_new(all: Seq<Move>, seen: Seq<Move>, mv: Move, rest: Seq<Move>)
    requires
        all == seen + (seq![mv] + rest),
        all.no_duplicates(),
    ensures
        !seen.contains(mv),
        all == seen.push(mv) + rest,
{
    assert(all[seen.len() as int] == mv);
    if seen.contains(mv) {
        let k = choose|k: int| 0 <= k < seen.len() && seen[k] == mv;
        assert(all[k] == mv);
    }
    assert(all =~= seen.push(mv) + rest);
}

/// How far the root has come with the moves it is offered: all of them, once
/// each, are those seen so far and those still to come, and the root moves stand
/// as they should.
#[verifier::opaque]
pub open spec fn on_course<B: Backend>(
    t: Thread<B>,
    node: Node,
    p: Progress,
    all: Seq<Move>,
    seen: Seq<Move>,
) -> bool {
    &&& node.ply == 0
    &&& whole_root(t)
    &&& each_once(all, t.root_moves)
    &&& all == seen + handed::<B>(t, node, false, p)
    &&& standing(t.root_moves, node, p, seen)
}

/// The root begins on course.
pub proof fn course_begins<B: Backend>(t: Thread<B>, node: Node)
    requires
        offers_each_once::<B>(t, node),
    ensures
        on_course::<B>(
            t,
            node,
            no_progress(node),
            handed::<B>(t, node, false, no_progress(node)),
            Seq::empty(),
        ),
{
    reveal(offers_each_once);
    reveal(on_course);
    reveal(standing);
    let all = handed::<B>(t, node, false, no_progress(node));
    assert(all =~= Seq::empty() + all);
}

/// On course, the next move can be searched.
pub proof fn course_is_in_order<B: Backend>(
    t: Thread<B>,
    node: Node,
    p: Progress,
    all: Seq<Move>,
    seen: Seq<Move>,
    picker: MovePicker,
)
    requires
        on_course::<B>(t, node, p, all, seen),
        truthful(node, p),
        p.best_score < node.beta,
    ensures
        in_order(
            picked::<B>(t, p.picker, node.pv, node.root, false, node.ply).0,
            node,
            Progress { picker, ..p },
        ),
{
    reveal(on_course);
    reveal(in_order);
}

/// The root stays on course with every move.
pub proof fn course_goes_on<B: Backend>(
    t: Thread<B>,
    node: Node,
    p: Progress,
    all: Seq<Move>,
    seen: Seq<Move>,
    mv: Move,
    stage: Stage,
)
    requires
        on_course::<B>(t, node, p, all, seen),
        ({
            let (t1, next) = picked::<B>(t, p.picker, node.pv, node.root, false, node.ply);
            let p1 = Progress { picker: picker_after(p.picker, stage), ..p };
            let (t2, p2, verdict) = move_considered::<B>(t1, node, false, p1, mv);
            &&& next == Some((mv, stage))
            &&& verdict == Verdict::GoOn
            &&& p2.picker == p1.picker
            &&& kept(t1, t2, 0)
            &&& carries_on(t1.root_moves, p1, t2.root_moves, p2, node, mv)
        }),
    ensures
        ({
            let t1 = picked::<B>(t, p.picker, node.pv, node.root, false, node.ply).0;
            let p1 = Progress { picker: picker_after(p.picker, stage), ..p };
            let (t2, p2, verdict) = move_considered::<B>(t1, node, false, p1, mv);
            on_course::<B>(t2, node, p2, all, seen.push(mv))
        }),
{
    reveal(on_course);
    reveal(carries_on);
    let t1 = picked::<B>(t, p.picker, node.pv, node.root, false, node.ply).0;
    let p1 = Progress { picker: picker_after(p.picker, stage), ..p };
    let (t2, p2, verdict) = move_considered::<B>(t1, node, false, p1, mv);
    whole_root_stays(t1, t2);
    assert(Progress { picker: p1.picker, ..p2 } == p2);
    let rest = handed::<B>(t2, node, false, p2);
    next_is_new(all, seen, mv, rest);
    assert(standing(t1.root_moves, node, p1, seen)) by {
        reveal(standing);
        assert forall|i: int| 0 <= i < t1.root_moves.len() && seen.contains(
            t1.root_moves[i].mv,
        ) implies stands(#[trigger] t1.root_moves[i], node, p1) by {
            assert(stands(t.root_moves[i], node, p));
        }
    }
}

/// Once no move is left and the score is inside the window, the ranking begins
/// with a root move that has this score, exactly.
pub proof fn course_ends<B: Backend>(
    t: Thread<B>,
    node: Node,
    p: Progress,
    all: Seq<Move>,
    seen: Seq<Move>,
)
    requires
        on_course::<B>(t, node, p, all, seen),
        picked::<B>(t, p.picker, node.pv, node.root, false, node.ply).1 is None,
        truthful(node, p),
    ensures
        node.alpha < p.best_score < node.beta ==> leads(t.root_moves, p.best_score),
        t.root_moves.len() > 0 ==> p.move_count > 0,
{
    reveal(on_course);
    assert(handed::<B>(t, node, false, p) =~= Seq::empty());
    assert(all =~= seen);
    if node.alpha < p.best_score < node.beta {
        exact_scores_lead(t.root_moves, node, p, seen);
    }
    if t.root_moves.len() > 0 {
        reveal(standing);
        assert(all.contains(t.root_moves[0].mv));
        assert(stands(t.root_moves[0], node, p));
    }
}

/// After a search of the root that gave a score inside its window and was
/// offered every root move once, the first root move in the ranking has this
/// score, and is neither an upper nor a lower bound.
pub proof fn leader_is_exact<B: Backend>(
    t: Thread<B>,
    alpha: int,
    beta: int,
    depth: int,
    list: Seq<RootMoveState>,
)
    requires
        settled::<B>(t, alpha, beta, depth, list),
        root_offers::<B>(t, alpha, beta, depth),
        list.len() > 0,
    ensures
        ranked(list)[0].score == searched::<B>(t, true, true, alpha, beta, depth, 0).1,
        !ranked(list)[0].upperbound,
        !ranked(list)[0].lowerbound,
{
    reveal(leads);
}

} // verus!
