//! Iterative deepening from the root.
use crate::alphabeta::search;
use crate::backend::Backend;
use crate::frame::{asking_keeps_stopped, kept, kept_lightly, kept_means, kept_twice};
use crate::model::{
    aspired, begun, is_stopped, iterated, prepared, scores_noted, started, uncharged, Thread,
};
use crate::ranking::{
    charged, descending, moves_of, rank_root_moves, ranked, ranking_is_a_stable_sort,
    ranking_keeps_moves,
};
use crate::root::{settled, whole_root, whole_root_stays};
use crate::stack::new_stack;
use crate::thread::{root_states, Limits, RootMove, RootMoveState, ThreadData, ThreadState};
use crate::types::{is_valid, Score, MAX_PLY};
use vstd::prelude::*;

verus! {

/// How much the search reports on its way.
#[derive(Copy, Clone, Debug, PartialEq, Eq, Structural)]
pub enum Report {
    /// Nothing.
    Silent,
    /// Only the end result.
    Minimal,
    /// The result of every iteration.
    Full,
}

/// What kind of node a search is at.
pub trait NodeType {
    /// Whether the node is searched with an open window.
    const PV: bool;

    /// Whether the node is the root.
    const ROOT: bool;
}

/// The root: it keeps score of every move.
pub struct Root;

impl NodeType for Root {
    const PV: bool = true;

    const ROOT: bool = true;
}

/// A node of the principal variation: it keeps its line.
pub struct PV;

impl NodeType for PV {
    const PV: bool = true;

    const ROOT: bool = false;
}

/// Any other node: it is searched with a null window and may be pruned.
pub struct NonPV;

impl NodeType for NonPV {
    const PV: bool = false;

    const ROOT: bool = false;
}

/// The root and the nodes of the principal variation have an open window; only
/// the root is the root.
pub proof fn node_types_differ()
    ensures
        Root::PV && Root::ROOT,
        PV::PV && !PV::ROOT,
        !NonPV::PV && !NonPV::ROOT,
{
}

/// What a whole search leaves as it found it: the board, the network, and the
/// moves in the list of root moves, if not their order.
pub open spec fn preserved<S>(before: ThreadState<S>, after: ThreadState<S>) -> bool {
    &&& after.id == before.id
    &&& after.limits == before.limits
    &&& after.board == before.board
    &&& after.network == before.network
    &&& after.pv_table.len() == before.pv_table.len()
    &&& after.multi_pv == before.multi_pv
    &&& after.pv_index == before.pv_index
    &&& after.pv_start == before.pv_start
    &&& after.pv_end == before.pv_end
    &&& after.root_moves.len() == before.root_moves.len()
    &&& moves_of(after.root_moves) == moves_of(before.root_moves)
}

/// The last iteration that was begun was also completed.
pub open spec fn at_rest<S>(t: ThreadState<S>) -> bool {
    1 <= t.completed_depth && t.completed_depth == t.root_depth
}

/// The ranking of the root moves is what a search of the root left that gave a
/// score inside its window. That search was of the thread's own board, network
/// and root moves, all of them. If the picker offered it every root move once,
/// the first one has its score, and is no bound.
pub open spec fn concluded<B: Backend>(t: Thread<B>) -> bool {
    exists|s: Thread<B>, alpha: int, beta: int, list: Seq<RootMoveState>|
        {
            &&& #[trigger] settled::<B>(s, alpha, beta, t.completed_depth as int, list)
            &&& t.root_moves == ranked(list)
            &&& whole_root(s)
            &&& s.id == t.id
            &&& s.board == t.board
            &&& s.network == t.network
            &&& moves_of(s.root_moves) == moves_of(t.root_moves)
        }
}

/// The depths that were searched to the end are below the limit of plies and,
/// in the main thread, not beyond the depth it was told to search.
pub open spec fn within_limits<S>(t: ThreadState<S>) -> bool {
    &&& 0 <= t.completed_depth < MAX_PLY
    &&& t.id == 0 ==> match t.limits {
        Limits::Depth(maximum) => t.completed_depth == 0 || t.completed_depth <= maximum,
        Limits::Open => true,
    }
}

proof fn kept_is_preserved<S>(before: ThreadState<S>, after: ThreadState<S>)
    requires
        kept(before, after, 0),
    ensures
        preserved(before, after),
{
    reveal(kept);
    let mv_of = |rm: RootMoveState| rm.mv;
    assert(after.root_moves.map_values(mv_of) =~= before.root_moves.map_values(mv_of));
}

/// Searches the root with wider and wider windows, until the score is inside
/// or the search is told to stop.
fn aspirate<B: Backend>(td: &mut ThreadData<B>, alpha: i32, beta: i32, delta: i32, depth: i32)
    requires
        old(td)@.wf(),
        1 <= depth < MAX_PLY,
        -Score::INFINITE <= alpha < beta <= Score::INFINITE,
        1 <= delta <= Score::INFINITE,
    ensures
        final(td)@ == aspired::<B>(
            old(td)@,
            (alpha as int, beta as int, delta as int),
            depth as int,
        ),
        final(td)@.wf(),
        kept(old(td)@, final(td)@, 0),
        uncharged(final(td)@) == uncharged(old(td)@) || is_stopped::<B>(final(td)@),
        is_stopped::<B>(final(td)@) || exists|s: Thread<B>, a: int, b: int| #[trigger]
            settled::<B>(s, a, b, depth as int, final(td)@.root_moves) && kept(old(td)@, s, 0),
{
    let mut low: i32 = alpha;
    let mut high: i32 = beta;
    let mut step: i32 = delta;
    proof {
        kept_lightly(old(td)@, td@, 0);
    }
    loop
        invariant
            1 <= depth < MAX_PLY,
            td@.wf(),
            -Score::INFINITE <= low < high <= Score::INFINITE,
            1 <= step <= Score::INFINITE,
            kept(old(td)@, td@, 0),
            uncharged(td@) == uncharged(old(td)@),
            aspired::<B>(old(td)@, (alpha as int, beta as int, delta as int), depth as int)
                == aspired::<B>(td@, (low as int, high as int, step as int), depth as int),
        decreases low + Score::INFINITE, Score::INFINITE - high,
    {
        let ghost before = td@;
        let score = search::<Root, B>(td, low, high, depth, 0);
        let ghost replied = td@;
        let stopped = td.backend.stopped();
        proof {
            asking_keeps_stopped::<B>(replied);
            kept_twice(old(td)@, before, replied, 0);
            kept_lightly(replied, td@, 0);
            kept_twice(old(td)@, replied, td@, 0);
        }
        if stopped {
            return;
        }
        if score <= low {
            high = (low + high) / 2;
            low = (score - step).max(-Score::INFINITE);
            step = step / 2 + 10;
        } else if score >= high {
            high = (score + step).min(Score::INFINITE);
            step = step / 2 + 10;
        } else {
            assert(settled::<B>(before, low as int, high as int, depth as int, td@.root_moves));
            return;
        }
    }
}

/// Notes the scores of the root moves as the previous ones.
fn note_scores(root_moves: &mut Vec<RootMove>)
    ensures
        root_states(final(root_moves)@) == scores_noted(root_states(old(root_moves)@)),
{
    let mut i: usize = 0;
    while i < root_moves.len()
        invariant
            i <= root_moves@.len() == old(root_moves)@.len(),
            forall|k: int|
                0 <= k < root_moves@.len() ==> #[trigger] root_states(root_moves@)[k] == if k < i {
                    scores_noted(root_states(old(root_moves)@))[k]
                } else {
                    root_states(old(root_moves)@)[k]
                },
        decreases root_moves@.len() - i,
    {
        let ghost before = root_states(root_moves@);
        assert(before[i as int] == root_states(old(root_moves)@)[i as int]);
        root_moves[i].previous_score = root_moves[i].score;
        proof {
            assert forall|k: int| 0 <= k < root_moves@.len() && k != i implies #[trigger] root_states(
                root_moves@,
            )[k] == before[k] by {}
        }
        i = i + 1;
    }
    assert(root_states(root_moves@) =~= scores_noted(root_states(old(root_moves)@)));
}

/// Searches depth after depth from the root, each iteration seeding the next,
/// until a limit is met or the search is told to stop. Without root moves
/// there is nothing to search.
pub fn start<B: Backend>(td: &mut ThreadData<B>, report: Report, _thread_count: usize)
    requires
        old(td)@.ready(),
    ensures
        final(td)@ == started::<B>(old(td)@, report),
        final(td)@.ready(),
        final(td)@.board == old(td)@.board,
        final(td)@.network == old(td)@.network,
        final(td)@.root_moves.len() == old(td)@.root_moves.len(),
        moves_of(final(td)@.root_moves) == moves_of(old(td)@.root_moves),
        within_limits(final(td)@),
        final(td)@.id == old(td)@.id,
        final(td)@.limits == old(td)@.limits,
        final(td)@.multi_pv == 1,
        final(td)@.pv_index == 0,
        final(td)@.pv_start == 0,
        final(td)@.pv_end == final(td)@.root_moves.len(),
        at_rest(final(td)@) ==> descending(final(td)@.root_moves),
        at_rest(final(td)@) ==> uncharged(final(td)@) == uncharged(old(td)@),
        at_rest(final(td)@) ==> concluded::<B>(final(td)@),
        final(td)@.root_moves.len() > 0 && final(td)@.completed_depth < MAX_PLY - 1
            ==> is_stopped::<B>(final(td)@),
        final(td)@.root_moves.len() > 0 ==> final(td)@.previous_best_score
            == final(td)@.root_moves[0].score,
{
    td.completed_depth = 0;
    td.pv_table.clear(0);
    td.multi_pv = 1;
    td.pv_index = 0;
    td.pv_start = 0;
    td.pv_end = td.root_moves.len();
    assert(td@ == begun::<B>(old(td)@));
    if td.root_moves.len() == 0 {
        return;
    }
    let ghost first = td@;
    iterate(td, report);
    proof {
        if is_stopped::<B>(td@) {
            B::stop_is_final(td@.backend);
        }
    }
    if report == Report::Minimal {
        let depth = td.completed_depth.max(1);
        td.backend.info(depth, &td.root_moves, td.nodes);
    }
    assert(td@.root_moves.len() == first.root_moves.len());
    td.previous_best_score = td.root_moves[0].score;
}

/// Searches depth after depth, until a limit is met or the search is told to
/// stop.
fn iterate<B: Backend>(td: &mut ThreadData<B>, report: Report)
    requires
        old(td)@.ready(),
        old(td)@.root_moves.len() > 0,
        old(td)@.pv_start == 0,
        old(td)@.pv_end == old(td)@.root_moves.len(),
        old(td)@.completed_depth == 0,
    ensures
        final(td)@ == iterated::<B>(old(td)@, report, 1),
        preserved(old(td)@, final(td)@),
        within_limits(final(td)@),
        at_rest(final(td)@) ==> descending(final(td)@.root_moves),
        at_rest(final(td)@) ==> uncharged(final(td)@) == uncharged(old(td)@),
        at_rest(final(td)@) ==> concluded::<B>(final(td)@),
        final(td)@.completed_depth < MAX_PLY - 1 ==> is_stopped::<B>(final(td)@),
{
    let mut depth: i32 = 1;
    while depth < MAX_PLY as i32
        invariant
            1 <= depth <= MAX_PLY,
            td@.ready(),
            td@.root_moves.len() > 0,
            td@.pv_start == 0,
            td@.pv_end == td@.root_moves.len(),
            preserved(old(td)@, td@),
            td@.completed_depth == depth - 1,
            within_limits(td@),
            uncharged(td@) == uncharged(old(td)@),
            depth > 1 ==> descending(td@.root_moves),
            depth > 1 ==> concluded::<B>(td@),
            iterated::<B>(old(td)@, report, 1) == iterated::<B>(td@, report, depth as int),
        decreases MAX_PLY - depth,
    {
        if td.id == 0 {
            if let Limits::Depth(maximum) = td.limits {
                if depth > maximum {
                    td.backend.stop();
                    return;
                }
            }
        }
        let ghost before = td@;
        td.sel_depth = 0;
        td.root_depth = depth;
        td.stack = new_stack();
        note_scores(&mut td.root_moves);
        let ghost ready_to_go = td@;
        proof {
            assert(td@ == prepared::<B>(before, depth as int));
            assert(scores_noted(before.root_moves).len() == before.root_moves.len());
            assert(td@.root_moves.len() == td.root_moves@.len());
            lemma_noting_keeps_moves(before.root_moves);
        }
        let prev = td.root_moves[0].previous_score;
        assert(prev == td@.root_moves[0].previous_score);
        if depth > 4 && is_valid(prev) && -1500 < prev && prev < 1500 {
            aspirate(td, prev - 20, prev + 20, 20, depth);
        } else {
            aspirate(td, -Score::INFINITE, Score::INFINITE, Score::INFINITE, depth);
        }
        proof {
            kept_is_preserved(ready_to_go, td@);
            kept_means(ready_to_go, td@, 0);
        }
        let ghost aspired_state = td@;
        let stopped = td.backend.stopped();
        proof {
            asking_keeps_stopped::<B>(aspired_state);
        }
        if stopped {
            return;
        }
        let ghost result = td@;
        rank_root_moves(&mut td.root_moves);
        td.completed_depth = depth;
        proof {
            ranking_keeps_moves(result.root_moves);
            let (s, a, b) = choose|s: Thread<B>, a: int, b: int| #[trigger]
                settled::<B>(s, a, b, depth as int, result.root_moves) && kept(ready_to_go, s, 0);
            whole_root_stays(ready_to_go, s);
            kept_is_preserved(ready_to_go, s);
            assert(settled::<B>(s, a, b, td@.completed_depth as int, result.root_moves));
            assert(concluded::<B>(td@));
            ranking_is_a_stable_sort(result.root_moves, 0);
        }
        if report == Report::Full {
            td.backend.info(depth, &td.root_moves, td.nodes);
        }
        if td.backend.soft_limit(td.nodes, td.completed_depth) {
            td.backend.stop();
            return;
        }
        depth = depth + 1;
    }
}

proof fn lemma_noting_keeps_moves(root_moves: Seq<RootMoveState>)
    ensures
        moves_of(scores_noted(root_moves)) == moves_of(root_moves),
        charged(scores_noted(root_moves)) == charged(root_moves),
    decreases root_moves.len(),
{
    let noted = scores_noted(root_moves);
    let mv_of = |rm: RootMoveState| rm.mv;
    assert(noted.map_values(mv_of) =~= root_moves.map_values(mv_of));
    if root_moves.len() > 0 {
        lemma_noting_keeps_moves(root_moves.drop_last());
        assert(noted.drop_last() =~= scores_noted(root_moves.drop_last()));
    }
}

} // verus!
