//! The order of root moves.
use crate::thread::{root_states, RootMove, RootMoveState};
use crate::types::Move;
use vstd::multiset::Multiset;
use vstd::prelude::*;
use vstd::seq_lib::{to_multiset_build, to_multiset_insert};

verus! {

/// The first place, from `i` on, at which the score is lower than `score`.
pub open spec fn rank_of(list: Seq<RootMoveState>, score: int, i: int) -> int
    decreases list.len() - i,
{
    if i < 0 || i >= list.len() || list[i].score < score {
        i
    } else {
        rank_of(list, score, i + 1)
    }
}

/// The list with one more root move, put behind all that are at least as good.
pub open spec fn ranked_in(list: Seq<RootMoveState>, rm: RootMoveState) -> Seq<RootMoveState> {
    list.insert(rank_of(list, rm.score as int, 0), rm)
}

/// The first `n` root moves, best first; those with equal scores stay in order.
pub open spec fn ranked_first(list: Seq<RootMoveState>, n: int) -> Seq<RootMoveState>
    decreases n,
{
    if n <= 0 {
        Seq::empty()
    } else {
        ranked_in(ranked_first(list, n - 1), list[n - 1])
    }
}

/// The root moves, best first; those with equal scores stay in order.
pub open spec fn ranked(list: Seq<RootMoveState>) -> Seq<RootMoveState> {
    ranked_first(list, list.len() as int)
}

/// No score is followed by a higher one.
pub open spec fn descending(list: Seq<RootMoveState>) -> bool {
    forall|i: int, j: int|
        0 <= i <= j < list.len() ==> (#[trigger] list[i]).score >= (#[trigger] list[j]).score
}

/// The root moves with a given score, in order.
pub open spec fn with_score(list: Seq<RootMoveState>, score: i32) -> Seq<RootMoveState> {
    list.filter(|rm: RootMoveState| rm.score == score)
}

proof fn lemma_rank(list: Seq<RootMoveState>, score: int, i: int)
    requires
        0 <= i <= list.len(),
        descending(list),
    ensures
        i <= rank_of(list, score, i) <= list.len(),
        forall|k: int| i <= k < rank_of(list, score, i) ==> (#[trigger] list[k]).score >= score,
        forall|k: int|
            rank_of(list, score, i) <= k < list.len() ==> (#[trigger] list[k]).score < score,
    decreases list.len() - i,
{
    if i < list.len() && list[i].score >= score {
        lemma_rank(list, score, i + 1);
    }
}

proof fn lemma_filter_none(list: Seq<RootMoveState>, score: i32)
    requires
        forall|k: int| 0 <= k < list.len() ==> (#[trigger] list[k]).score != score,
    ensures
        with_score(list, score) == Seq::<RootMoveState>::empty(),
    decreases list.len(),
{
    reveal(Seq::filter);
    if list.len() > 0 {
        lemma_filter_none(list.drop_last(), score);
    }
}

proof fn lemma_filter_split(a: Seq<RootMoveState>, b: Seq<RootMoveState>, score: i32)
    ensures
        with_score(a + b, score) == with_score(a, score) + with_score(b, score),
{
    Seq::filter_distributes_over_add(a, b, |rm: RootMoveState| rm.score == score);
}

proof fn lemma_ranked_in(list: Seq<RootMoveState>, rm: RootMoveState, score: i32)
    requires
        descending(list),
    ensures
        descending(ranked_in(list, rm)),
        ranked_in(list, rm).len() == list.len() + 1,
        with_score(ranked_in(list, rm), score) == with_score(list.push(rm), score),
{
    let place = rank_of(list, rm.score as int, 0);
    lemma_rank(list, rm.score as int, 0);
    let front = list.take(place);
    let back = list.skip(place);
    let one = seq![rm];
    assert(list =~= front + back);
    assert(ranked_in(list, rm) =~= front + one + back);
    assert(list.push(rm) =~= front + back + one);
    lemma_filter_split(front + one, back, score);
    lemma_filter_split(front, one, score);
    lemma_filter_split(front + back, one, score);
    lemma_filter_split(front, back, score);
    if rm.score == score {
        lemma_filter_none(back, score);
        assert(with_score(front, score) + with_score(one, score) + with_score(back, score)
            =~= with_score(front, score) + with_score(back, score) + with_score(one, score));
    } else {
        lemma_filter_none(one, score);
        assert(with_score(front, score) + with_score(one, score) + with_score(back, score)
            =~= with_score(front, score) + with_score(back, score) + with_score(one, score));
    }
}

proof fn lemma_ranked_first(list: Seq<RootMoveState>, n: int, score: i32)
    requires
        0 <= n <= list.len(),
    ensures
        descending(ranked_first(list, n)),
        ranked_first(list, n).len() == n,
        with_score(ranked_first(list, n), score) == with_score(list.take(n), score),
    decreases n,
{
    if n > 0 {
        lemma_ranked_first(list, n - 1, score);
        let before = ranked_first(list, n - 1);
        lemma_ranked_in(before, list[n - 1], score);
        assert(list.take(n) =~= list.take(n - 1) + seq![list[n - 1]]);
        assert(before.push(list[n - 1]) =~= before + seq![list[n - 1]]);
        lemma_filter_split(before, seq![list[n - 1]], score);
        lemma_filter_split(list.take(n - 1), seq![list[n - 1]], score);
    } else {
        assert(list.take(n) =~= ranked_first(list, n));
    }
}

/// Ranking puts the best root move first, loses none, and keeps those with
/// equal scores in their order.
pub proof fn ranking_is_a_stable_sort(list: Seq<RootMoveState>, score: i32)
    ensures
        descending(ranked(list)),
        ranked(list).len() == list.len(),
        with_score(ranked(list), score) == with_score(list, score),
{
    lemma_ranked_first(list, list.len() as int, score);
    assert(list.take(list.len() as int) =~= list);
}

/// The moves in a list of root moves, each as often as it is there.
pub open spec fn moves_of(list: Seq<RootMoveState>) -> Multiset<Move> {
    list.map_values(|rm: RootMoveState| rm.mv).to_multiset()
}

/// The nodes that the root moves in a list are charged with, all together.
pub open spec fn charged(list: Seq<RootMoveState>) -> int
    decreases list.len(),
{
    if list.len() == 0 {
        0
    } else {
        charged(list.drop_last()) + list.last().nodes
    }
}

proof fn lemma_charged_insert(list: Seq<RootMoveState>, i: int, rm: RootMoveState)
    requires
        0 <= i <= list.len(),
    ensures
        charged(list.insert(i, rm)) == charged(list) + rm.nodes,
    decreases list.len(),
{
    let longer = list.insert(i, rm);
    if i == list.len() {
        assert(longer.drop_last() =~= list);
    } else {
        assert(longer.drop_last() =~= list.drop_last().insert(i, rm));
        lemma_charged_insert(list.drop_last(), i, rm);
    }
}

/// Charging one root move changes the sum by as much.
pub proof fn lemma_charged_update(list: Seq<RootMoveState>, i: int, rm: RootMoveState)
    requires
        0 <= i < list.len(),
    ensures
        charged(list.update(i, rm)) == charged(list) - list[i].nodes + rm.nodes,
    decreases list.len(),
{
    let other = list.update(i, rm);
    if i == list.len() - 1 {
        assert(other.drop_last() =~= list.drop_last());
    } else {
        assert(other.drop_last() =~= list.drop_last().update(i, rm));
        lemma_charged_update(list.drop_last(), i, rm);
    }
}

proof fn lemma_ranked_first_keeps(list: Seq<RootMoveState>, n: int)
    requires
        0 <= n <= list.len(),
    ensures
        ranked_first(list, n).to_multiset() == list.take(n).to_multiset(),
        moves_of(ranked_first(list, n)) == moves_of(list.take(n)),
        charged(ranked_first(list, n)) == charged(list.take(n)),
    decreases n,
{
    if n > 0 {
        lemma_ranked_first_keeps(list, n - 1);
        lemma_ranked_first(list, n - 1, 0);
        let before = ranked_first(list, n - 1);
        let rm = list[n - 1];
        let place = rank_of(before, rm.score as int, 0);
        lemma_rank(before, rm.score as int, 0);
        lemma_charged_insert(before, place, rm);
        to_multiset_insert(before, place, rm);
        assert(list.take(n) =~= list.take(n - 1).push(rm));
        to_multiset_build(list.take(n - 1), rm);
        assert(list.take(n).drop_last() =~= list.take(n - 1));
        let mv_of = |rm: RootMoveState| rm.mv;
        assert(before.insert(place, rm).map_values(mv_of) =~= before.map_values(mv_of).insert(
            place,
            rm.mv,
        ));
        to_multiset_insert(before.map_values(mv_of), place, rm.mv);
        assert(list.take(n).map_values(mv_of) =~= list.take(n - 1).map_values(mv_of).push(rm.mv));
        to_multiset_build(list.take(n - 1).map_values(mv_of), rm.mv);
    } else {
        assert(list.take(n) =~= ranked_first(list, n));
    }
}

/// Ranking neither adds nor loses a root move, nor any of the nodes.
pub proof fn ranking_keeps_moves(list: Seq<RootMoveState>)
    ensures
        ranked(list).to_multiset() == list.to_multiset(),
        moves_of(ranked(list)) == moves_of(list),
        charged(ranked(list)) == charged(list),
{
    lemma_ranked_first_keeps(list, list.len() as int);
    assert(list.take(list.len() as int) =~= list);
}

/// Ranks the root moves: best first, equal ones in their order.
pub fn rank_root_moves(root_moves: &mut Vec<RootMove>)
    ensures
        root_states(final(root_moves)@) == ranked(root_states(old(root_moves)@)),
{
    let ghost list = root_states(old(root_moves)@);
    let mut n: usize = 0;
    assert(root_states(root_moves@) =~= ranked_first(list, 0) + list.skip(0));
    while n < root_moves.len()
        invariant
            n <= root_moves@.len(),
            root_moves@.len() == list.len(),
            list == root_states(old(root_moves)@),
            ranked_first(list, n as int).len() == n,
            root_states(root_moves@) == ranked_first(list, n as int) + list.skip(n as int),
        decreases root_moves@.len() - n,
    {
        let ghost before = root_states(root_moves@);
        let ghost sorted = ranked_first(list, n as int);
        assert(root_states(root_moves@)[n as int] == list[n as int]);
        let rm = root_moves.remove(n);
        assert(rm@ == list[n as int]);
        proof {
            assert forall|k: int| 0 <= k < root_moves@.len() implies #[trigger] root_states(
                root_moves@,
            )[k] == (sorted + list.skip(n + 1))[k] by {
                assert(root_states(root_moves@)[k] == before[if k < n { k } else { k + 1 }]);
            }
            assert(root_states(root_moves@) =~= sorted + list.skip(n + 1));
        }
        let mut place: usize = 0;
        while place < n && root_moves[place].score >= rm.score
            invariant
                place <= n <= root_moves@.len(),
                sorted.len() == n,
                n < list.len(),
                rm@ == list[n as int],
                root_states(root_moves@) == sorted + list.skip(n + 1),
                rank_of(sorted, rm.score as int, 0) == rank_of(
                    sorted,
                    rm.score as int,
                    place as int,
                ),
            decreases n - place,
        {
            assert(root_states(root_moves@)[place as int] == sorted[place as int]);
            place = place + 1;
        }
        proof {
            if place < n {
                assert(root_states(root_moves@)[place as int] == sorted[place as int]);
            }
            assert(rank_of(sorted, rm.score as int, 0) == place);
        }
        let ghost without = root_moves@;
        root_moves.insert(place, rm);
        proof {
            assert(root_states(root_moves@) =~= root_states(without).insert(place as int, rm@));
            assert((sorted + list.skip(n + 1)).insert(place as int, rm@) =~= ranked_in(
                sorted,
                rm@,
            ) + list.skip(n + 1));
        }
        n = n + 1;
    }
    assert(list.skip(n as int) =~= Seq::empty());
    assert(ranked_first(list, n as int) + list.skip(n as int) =~= ranked(list));
}

} // verus!
