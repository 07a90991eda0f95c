//! What a node has tried, move by move, and what came of it.
use crate::backend::Backend;
use crate::frame::{kept_lightly, kept_means, line_is_undone};
use crate::invariance::{quiescence_keeps, search_keeps};
use crate::model::{
    counted, extension, flag, futile, hash_move, in_root_window, late, late_reduction,
    line_extended, move_compared, move_considered, move_recorded, move_searched, moved, moves_tried,
    no_progress, picked, picker_after, polled, progressed, quiesced, quiet_moves_tried, raises,
    remembered, root_recorded, searched, skipped, unmoved, Node, Progress, QuietProgress, Thread,
    Verdict,
};
use crate::movepick::{MovePicker, Stage};
use crate::stack::StackEntry;
use crate::thread::ThreadState;
use crate::transposition::Bound;
use crate::types::{no_move, quotient, Move, Score, MAX_MOVES, MAX_PLY};
use vstd::prelude::*;

verus! {

/// The highest of a number and the first `n` scores of a list.
pub open spec fn highest(base: int, scores: Seq<int>, n: int) -> int
    decreases n,
{
    if n <= 0 {
        base
    } else if scores[n - 1] > highest(base, scores, n - 1) {
        scores[n - 1]
    } else {
        highest(base, scores, n - 1)
    }
}

/// The highest is one of the numbers, and none of them is above it.
pub proof fn highest_is_the_maximum(base: int, scores: Seq<int>, n: int)
    requires
        0 <= n <= scores.len(),
    ensures
        highest(base, scores, n) >= base,
        forall|k: int| 0 <= k < n ==> highest(base, scores, n) >= #[trigger] scores[k],
        highest(base, scores, n) == base || exists|k: int|
            0 <= k < n && highest(base, scores, n) == #[trigger] scores[k],
    decreases n,
{
    if n > 0 {
        highest_is_the_maximum(base, scores, n - 1);
        if scores[n - 1] > highest(base, scores, n - 1) {
            assert(highest(base, scores, n) == scores[n - 1]);
        } else if highest(base, scores, n - 1) != base {
            let k = choose|k: int|
                0 <= k < n - 1 && highest(base, scores, n - 1) == #[trigger] scores[k];
            assert(highest(base, scores, n) == scores[k]);
        }
    }
}

proof fn lemma_highest_after_first(base: int, first: int, rest: Seq<int>, n: int)
    requires
        0 <= n <= rest.len(),
    ensures
        highest(base, seq![first] + rest, n + 1) == highest(
            if first > base {
                first
            } else {
                base
            },
            rest,
            n,
        ),
    decreases n,
{
    let all = seq![first] + rest;
    if n > 0 {
        lemma_highest_after_first(base, first, rest, n - 1);
        assert(all[n] == rest[n - 1]);
    } else {
        assert(all[0] == first);
        assert(highest(base, all, 0) == base);
    }
}

// ---------------------------------------------------------------------------
// Quiescence
// ---------------------------------------------------------------------------

/// A move that a quiescence node has tried.
pub struct QuietStep<S> {
    /// The thread when the picker was asked for the move.
    pub asked: ThreadState<S>,
    pub mv: Move,
    pub stage: Stage,
    /// The score of the move, for the side that makes it.
    pub score: int,
    /// Whether the search had been told to stop by then.
    pub stopped: bool,
    /// The thread once the move was done with.
    pub after: ThreadState<S>,
}

/// The scores of the moves that were tried.
pub open spec fn quiet_scores<S>(steps: Seq<QuietStep<S>>) -> Seq<int> {
    steps.map_values(|step: QuietStep<S>| step.score)
}

/// The picker when `k` moves have been tried.
pub open spec fn quiet_picker<S>(
    picker: MovePicker,
    steps: Seq<QuietStep<S>>,
    k: int,
) -> MovePicker {
    MovePicker {
        handed_out: (picker.handed_out + k) as usize,
        stage: if k <= 0 {
            picker.stage
        } else {
            steps[k - 1].stage
        },
        ..picker
    }
}

/// One move of a quiescence node, fairly tried: it is the next that the picker
/// hands out, noisy moves only unless in check, and its score is what the
/// opponent gets out of the position after it, with the window between the best
/// score before it and `beta`. A move that is best so far begins the line of a node
/// of the principal variation.
#[verifier::opaque]
pub open spec fn fairly_tried<B: Backend>(
    pv: bool,
    alpha: int,
    beta: int,
    ply: int,
    picker: MovePicker,
    steps: Seq<QuietStep<B::State>>,
    k: int,
) -> bool {
    let step = steps[k];
    let (state, given) = B::pick_model(
        step.asked.backend,
        quiet_picker(picker, steps, k),
        step.asked.board,
        step.asked.stack,
        pv,
        false,
        !step.asked.board.current.in_check,
        ply,
    );
    let picked_state = ThreadState { backend: state, ..step.asked };
    let floor = highest(alpha, quiet_scores(steps), k);
    let (replied, reply) = quiesced::<B>(
        moved::<B>(picked_state, ply, step.mv),
        pv,
        -beta,
        -floor,
        ply + 1,
    );
    &&& given == Some((step.mv, step.stage))
    &&& step.score == -reply
    &&& step.stopped == B::stopped_model(replied.backend).1
    &&& step.after == (ThreadState {
        backend: B::stopped_model(replied.backend).0,
        board: step.asked.board,
        network: step.asked.network,
        pv_table: if pv && step.score > floor && !step.stopped {
            replied.pv_table.update(ply, seq![step.mv] + replied.pv_table[ply + 1])
        } else {
            replied.pv_table
        },
        ..replied
    })
    &&& k > 0 ==> step.asked == steps[k - 1].after
}

proof fn lemma_quiet_shift<B: Backend>(
    pv: bool,
    alpha: int,
    beta: int,
    ply: int,
    picker: MovePicker,
    first: QuietStep<B::State>,
    rest: Seq<QuietStep<B::State>>,
    k: int,
)
    requires
        0 <= k < rest.len(),
        picker.handed_out < MAX_MOVES,
        fairly_tried::<B>(
            pv,
            if first.score > alpha {
                first.score
            } else {
                alpha
            },
            beta,
            ply,
            picker_after(picker, first.stage),
            rest,
            k,
        ),
        k == 0 ==> rest[0].asked == first.after,
    ensures
        fairly_tried::<B>(pv, alpha, beta, ply, picker, seq![first] + rest, k + 1),
{
    reveal(fairly_tried);
    let all = seq![first] + rest;
    assert(all[k + 1] == rest[k]);
    assert(all[k] == if k == 0 {
        first
    } else {
        rest[k - 1]
    });
    assert(quiet_scores(all) =~= seq![first.score] + quiet_scores(rest));
    lemma_highest_after_first(alpha, first.score, quiet_scores(rest), k);
    assert(quiet_picker(picker, all, k + 1) == quiet_picker(
        picker_after(picker, first.stage),
        rest,
        k,
    ));
}

proof fn lemma_quiet_first<B: Backend>(
    pv: bool,
    alpha: int,
    beta: int,
    ply: int,
    picker: MovePicker,
    first: QuietStep<B::State>,
    rest: Seq<QuietStep<B::State>>,
)
    requires
        fairly_tried::<B>(pv, alpha, beta, ply, picker, seq![first], 0),
    ensures
        fairly_tried::<B>(pv, alpha, beta, ply, picker, seq![first] + rest, 0),
{
    reveal(fairly_tried);
    let all = seq![first] + rest;
    assert(all[0] == seq![first][0]);
    assert(quiet_picker(picker, all, 0) == quiet_picker(picker, seq![first], 0));
    assert(highest(alpha, quiet_scores(all), 0) == highest(alpha, quiet_scores(seq![first]), 0));
}

/// The account of a quiescence node from `p` on. Each move is fairly tried, one
/// after the other; only the last can reach `beta`; and unless it does, or the
/// search is told to stop, they are all that the picker has to hand out. The best
/// score is the highest of them and of the one to begin with, and the best move
/// is one that has it.
pub open spec fn quiet_account<B: Backend>(
    t: Thread<B>,
    pv: bool,
    beta: int,
    ply: int,
    p: QuietProgress,
    steps: Seq<QuietStep<B::State>>,
    end: Thread<B>,
    found: Option<QuietProgress>,
) -> bool {
    let n = steps.len() as int;
    let last = if n == 0 {
        t
    } else {
        steps[n - 1].after
    };
    let picker = quiet_picker(p.picker, steps, n);
    &&& forall|k: int|
        0 <= k < n ==> #[trigger] fairly_tried::<B>(pv, p.alpha, beta, ply, p.picker, steps, k)
    &&& n > 0 ==> steps[0].asked == t
    &&& forall|k: int|
        0 <= k < n - 1 ==> (#[trigger] steps[k]).score < beta && !steps[k].stopped
    &&& n > 0 ==> (steps[n - 1].stopped <==> found is None)
    &&& p.picker.handed_out + n <= MAX_MOVES
    &&& match found {
        Some(q) => {
            &&& q.best_score == highest(p.best_score, quiet_scores(steps), n)
            &&& q.move_count == p.move_count + n
            &&& if q.best_score < beta {
                let (state, given) = B::pick_model(
                    last.backend,
                    picker,
                    last.board,
                    last.stack,
                    pv,
                    false,
                    !last.board.current.in_check,
                    ply,
                );
                &&& given is None || picker.handed_out == MAX_MOVES
                &&& end == ThreadState { backend: state, ..last }
            } else {
                n > 0 && steps[n - 1].score == q.best_score && end == last
            }
            &&& if q.best_score > p.alpha {
                exists|k: int|
                    0 <= k < n && (#[trigger] steps[k]).mv == q.best_move && steps[k].score
                        == q.best_score
            } else {
                q.best_move == p.best_move
            }
        },
        None => n > 0 && end == last,
    }
}

#[verifier::rlimit(30)]
proof fn lemma_quiet_prepend<B: Backend>(
    t: Thread<B>,
    pv: bool,
    beta: int,
    ply: int,
    p: QuietProgress,
    step: QuietStep<B::State>,
    q: QuietProgress,
    rest: Seq<QuietStep<B::State>>,
    end: Thread<B>,
    found: Option<QuietProgress>,
)
    requires
        fairly_tried::<B>(pv, p.alpha, beta, ply, p.picker, seq![step], 0),
        step.asked == t,
        step.score < beta,
        !step.stopped,
        p.best_score <= p.alpha < beta,
        p.picker.handed_out < MAX_MOVES,
        q.picker == picker_after(p.picker, step.stage),
        q.alpha == if step.score > p.alpha {
            step.score
        } else {
            p.alpha
        },
        q.best_score == if step.score > p.best_score {
            step.score
        } else {
            p.best_score
        },
        q.best_move == if step.score > p.alpha {
            step.mv
        } else {
            p.best_move
        },
        q.move_count == p.move_count + 1,
        quiet_account::<B>(step.after, pv, beta, ply, q, rest, end, found),
    ensures
        quiet_account::<B>(t, pv, beta, ply, p, seq![step] + rest, end, found),
{
    let all = seq![step] + rest;
    let n = all.len() as int;
    assert(quiet_scores(all) =~= seq![step.score] + quiet_scores(rest));
    assert(all[0] == step);
    assert forall|k: int| 0 <= k < n implies #[trigger] fairly_tried::<B>(
        pv,
        p.alpha,
        beta,
        ply,
        p.picker,
        all,
        k,
    ) by {
        if k > 0 {
            assert(fairly_tried::<B>(pv, q.alpha, beta, ply, q.picker, rest, k - 1));
            lemma_quiet_shift::<B>(pv, p.alpha, beta, ply, p.picker, step, rest, k - 1);
        } else {
            lemma_quiet_first::<B>(pv, p.alpha, beta, ply, p.picker, step, rest);
        }
    }
    assert forall|k: int| 0 <= k < n - 1 implies (#[trigger] all[k]).score < beta
        && !all[k].stopped by {
        if k > 0 {
            assert(all[k] == rest[k - 1]);
        }
    }
    lemma_highest_after_first(p.best_score, step.score, quiet_scores(rest), n - 1);
    assert(quiet_picker(p.picker, all, n) == quiet_picker(q.picker, rest, n - 1)) by {
        if n > 1 {
            assert(all[n - 1] == rest[n - 2]);
        }
    }
    if n > 1 {
        assert(all[n - 1] == rest[n - 2]);
    }
    if let Some(r) = found {
        highest_is_the_maximum(q.best_score, quiet_scores(rest), n - 1);
        if r.best_score > q.alpha {
            let k = choose|k: int|
                0 <= k < rest.len() && (#[trigger] rest[k]).mv == r.best_move && rest[k].score
                    == r.best_score;
            assert(all[k + 1] == rest[k]);
        } else if r.best_score > p.alpha {
            assert(all[0].mv == r.best_move && all[0].score == r.best_score);
        }
    }
}

/// There is an account of every quiescence node.
#[verifier::rlimit(30)]
pub proof fn quiet_moves_are_accounted_for<B: Backend>(
    t: Thread<B>,
    pv: bool,
    beta: int,
    ply: int,
    p: QuietProgress,
) -> (steps: Seq<QuietStep<B::State>>)
    requires
        t.sized(),
        0 <= ply < MAX_PLY - 1,
        p.best_score <= p.alpha < beta,
        p.picker.handed_out <= MAX_MOVES,
    ensures
        quiet_account::<B>(
            t,
            pv,
            beta,
            ply,
            p,
            steps,
            quiet_moves_tried::<B>(t, pv, beta, ply, p).0,
            quiet_moves_tried::<B>(t, pv, beta, ply, p).1,
        ),
    decreases MAX_MOVES - p.picker.handed_out,
{
    let (t1, next) = picked::<B>(t, p.picker, pv, false, !t.board.current.in_check, ply);
    match next {
        None => {
            assert(quiet_picker(p.picker, Seq::<QuietStep<B::State>>::empty(), 0) == p.picker);
            Seq::empty()
        },
        Some((mv, stage)) => {
            let made = moved::<B>(t1, ply, mv);
            kept_lightly(t, t1, ply);
            assert(made.sized()) by {
                reveal(moved);
            }
            quiescence_keeps::<B>(made, pv, -beta, -p.alpha, ply + 1);
            let (t2, reply) = quiesced::<B>(made, pv, -beta, -p.alpha, ply + 1);
            line_is_undone::<B>(t1, ply, mv, t2);
            let undone = unmoved::<B>(t2);
            kept_means(t1, undone, ply);
            assert(undone.backend == t2.backend) by {
                reveal(unmoved);
            }
            let (t3, stopped) = polled::<B>(undone);
            let score = -reply;
            let better = score > p.best_score;
            let up = better && score > p.alpha;
            let t4 = if up && pv {
                line_extended::<B>(t3, ply, mv)
            } else {
                t3
            };
            let q = QuietProgress {
                alpha: if up && score < beta {
                    score
                } else {
                    p.alpha
                },
                best_score: if better {
                    score
                } else {
                    p.best_score
                },
                best_move: if up {
                    mv
                } else {
                    p.best_move
                },
                move_count: p.move_count + 1,
                picker: picker_after(p.picker, stage),
            };
            let after = if stopped {
                t3
            } else {
                t4
            };
            let step = QuietStep { asked: t, mv, stage, score, stopped, after };
            let one = seq![step];
            assert(one[0] == step);
            assert(quiet_scores(one) =~= seq![score]);
            assert(fairly_tried::<B>(pv, p.alpha, beta, ply, p.picker, one, 0)) by {
                reveal(fairly_tried);
                assert(highest(p.alpha, quiet_scores(one), 0) == p.alpha);
                assert(quiet_picker(p.picker, one, 0) == p.picker);
                reveal(unmoved);
            }
            if stopped {
                one
            } else if up && score >= beta {
                assert(highest(p.best_score, quiet_scores(one), 0) == p.best_score);
                assert(one[0].mv == q.best_move && one[0].score == q.best_score);
                one
            } else {
                kept_lightly(undone, t4, ply);
                kept_means(undone, t4, ply);
                let rest = quiet_moves_are_accounted_for::<B>(t4, pv, beta, ply, q);
                let (end, found) = quiet_moves_tried::<B>(t4, pv, beta, ply, q);
                lemma_quiet_prepend::<B>(t, pv, beta, ply, p, step, q, rest, end, found);
                one + rest
            }
        },
    }
}

// ---------------------------------------------------------------------------
// Main search
// ---------------------------------------------------------------------------

/// What became of a move that the picker handed out.
pub enum Fate {
    /// It was passed over, as if it did not exist.
    LeftOut,
    /// It was counted and not searched.
    Skipped,
    /// It was searched.
    Searched,
}

/// A move that the picker has handed out at a node of the main search.
pub struct NodeStep<S> {
    /// The thread when the picker was asked for the move.
    pub asked: ThreadState<S>,
    pub mv: Move,
    pub stage: Stage,
    pub fate: Fate,
    /// The score of the move, if it was searched.
    pub score: int,
    /// Whether the search had been told to stop by then.
    pub stopped: bool,
    /// The thread once the move was done with.
    pub after: ThreadState<S>,
}

/// The highest of a number and the scores of the moves that were searched.
pub open spec fn best_of<S>(base: int, steps: Seq<NodeStep<S>>) -> int
    decreases steps.len(),
{
    if steps.len() == 0 {
        base
    } else {
        let before = best_of(base, steps.drop_last());
        let step = steps.last();
        if step.fate is Searched && step.score > before {
            step.score
        } else {
            before
        }
    }
}

/// How many moves were counted.
pub open spec fn count_of<S>(steps: Seq<NodeStep<S>>) -> int
    decreases steps.len(),
{
    if steps.len() == 0 {
        0
    } else {
        count_of(steps.drop_last()) + if steps.last().fate is LeftOut {
            0int
        } else {
            1
        }
    }
}

/// How many quiet moves were searched.
pub open spec fn quiets_of<S>(steps: Seq<NodeStep<S>>) -> int
    decreases steps.len(),
{
    if steps.len() == 0 {
        0
    } else {
        let step = steps.last();
        quiets_of(steps.drop_last()) + if step.fate is Searched && !step.mv.noisy() {
            1int
        } else {
            0
        }
    }
}

/// The last move that did better than `alpha` and everything before it.
pub open spec fn leader_of<S>(alpha: int, steps: Seq<NodeStep<S>>) -> Move
    decreases steps.len(),
{
    if steps.len() == 0 {
        no_move()
    } else if best_of(alpha, steps) > best_of(alpha, steps.drop_last()) {
        steps.last().mv
    } else {
        leader_of(alpha, steps.drop_last())
    }
}

/// The moves, noisy or quiet, that were searched among the first thirty-two and
/// did not lead when they had been.
pub open spec fn failures_of<S>(alpha: int, steps: Seq<NodeStep<S>>, noisy: bool) -> Seq<Move>
    decreases steps.len(),
{
    if steps.len() == 0 {
        Seq::empty()
    } else {
        let before = failures_of(alpha, steps.drop_last(), noisy);
        let step = steps.last();
        if step.fate is Searched && step.mv.noisy() == noisy && count_of(steps) <= 32 && step.mv
            != leader_of(alpha, steps) {
            before.push(step.mv)
        } else {
            before
        }
    }
}

/// The picker after the given moves.
pub open spec fn picker_of<S>(node: Node, steps: Seq<NodeStep<S>>) -> MovePicker {
    MovePicker {
        tt_move: match node.entry {
            Some(e) => e.mv,
            None => no_move(),
        },
        quiescence: false,
        handed_out: steps.len() as usize,
        stage: if steps.len() == 0 {
            Stage::HashMove
        } else {
            steps.last().stage
        },
    }
}

/// The thread back at a node after a move was searched. The root notes the result,
/// and a move that is better than `alpha` begins the line of a node of the
/// principal variation, unless the search has been told to stop.
#[verifier::opaque]
pub open spec fn returned<B: Backend>(
    back: Thread<B>,
    node: Node,
    mv: Move,
    nodes_before: u64,
    count: int,
    score: int,
    alpha: int,
) -> Thread<B> {
    let (heard, stopped) = B::stopped_model(back.backend);
    let here = ThreadState { backend: heard, ..back };
    if stopped {
        here
    } else if node.root {
        root_recorded::<B>(here, mv, nodes_before, count == 1, score, alpha, node.beta)
    } else if node.pv && score > alpha {
        ThreadState {
            pv_table: back.pv_table.update(node.ply, seq![mv] + back.pv_table[node.ply + 1]),
            ..here
        }
    } else {
        here
    }
}

/// One move of a node, fairly considered after those before it. It is the next
/// that the picker hands out. It is left out if it is the excluded move or, at
/// the root, not in the window of root moves. It is skipped only with a closed
/// window and a score at hand: a quiet move that is late or futile, and a noisy
/// one that loses material, at low depth. Any other is searched, with the best
/// score so far as the lower end of the window. A move that is best so far begins
/// the line of a node of the principal variation.
#[verifier::opaque]
pub open spec fn fairly_considered<B: Backend>(
    node: Node,
    singular: bool,
    before: Seq<NodeStep<B::State>>,
    step: NodeStep<B::State>,
) -> bool {
    let asked = step.asked;
    let (state, given) = B::pick_model(
        asked.backend,
        picker_of(node, before),
        asked.board,
        asked.stack,
        node.pv,
        node.root,
        false,
        node.ply,
    );
    let in_check = asked.board.current.in_check;
    let left_out = step.mv == asked.stack[node.ply].excluded || (node.root && forall|i: int|
        asked.pv_start <= i < asked.pv_end ==> (#[trigger] asked.root_moves[i]).mv != step.mv);
    let count = count_of(before) + 1;
    let alpha = best_of(node.alpha, before);
    let threshold = 3 + node.depth * node.depth / if node.improving {
        1int
    } else {
        2
    };
    let skipped_over = !node.pv && best_of(-Score::INFINITE as int, before) > -Score::INFINITE
        && if step.mv.noisy() {
        step.stage == Stage::BadNoisy && node.depth <= 6
    } else {
        ||| node.depth <= 4 && quiets_of(before) > threshold
        ||| !in_check && node.depth <= 5 && node.eval != Score::NONE && node.eval + 130 * node.depth
            + 45 < alpha
    };
    let counted_state = ThreadState {
        backend: state,
        stack: asked.stack.update(
            node.ply,
            StackEntry { move_count: count as i32, ..asked.stack[node.ply] },
        ),
        ..asked
    };
    let first = match node.entry {
        Some(e) => singular && step.mv == e.mv,
        None => singular && step.mv == no_move(),
    };
    let (back, score) = move_searched::<B>(counted_state, node, first, alpha, count, step.mv);
    &&& given == Some((step.mv, step.stage))
    &&& step.fate is LeftOut <==> left_out
    &&& step.fate is Skipped <==> !left_out && skipped_over
    &&& step.fate is LeftOut ==> step.after == ThreadState { backend: state, ..asked }
    &&& step.fate is Skipped ==> step.after == counted_state
    &&& step.stopped <==> step.fate is Searched && B::stopped_model(back.backend).1
    &&& step.fate is Searched ==> step.score == score && step.after == returned::<B>(
        back,
        node,
        step.mv,
        asked.nodes,
        count,
        score,
        alpha,
    )
    &&& before.len() > 0 ==> asked == before.last().after
}

/// The account of a node. Each move is fairly considered, one after the other;
/// only the last can reach `beta`; and unless it does, or the search is told to
/// stop, they are all that the picker has to hand out. What was found is the best
/// score, the move that has it, and the moves that failed.
#[verifier::opaque]
pub open spec fn node_account<B: Backend>(
    t: Thread<B>,
    node: Node,
    singular: bool,
    steps: Seq<NodeStep<B::State>>,
    end: Thread<B>,
    found: Option<Progress>,
) -> bool {
    let n = steps.len() as int;
    let last = if n == 0 {
        t
    } else {
        steps[n - 1].after
    };
    &&& forall|k: int|
        0 <= k < n ==> fairly_considered::<B>(
            node,
            singular,
            #[trigger] steps.take(k),
            steps[k],
        )
    &&& n > 0 ==> steps[0].asked == t
    &&& n > 0 ==> best_of(-Score::INFINITE as int, steps.drop_last()) < node.beta
    &&& forall|k: int| 0 <= k < n - 1 ==> !(#[trigger] steps[k]).stopped
    &&& n > 0 ==> (steps[n - 1].stopped <==> found is None)
    &&& n <= MAX_MOVES
    &&& match found {
        Some(q) => {
            &&& q.best_score == best_of(-Score::INFINITE as int, steps)
            &&& q.best_move == leader_of(node.alpha, steps)
            &&& q.move_count == count_of(steps)
            &&& q.quiet_moves == failures_of(node.alpha, steps, false)
            &&& q.noisy_moves == failures_of(node.alpha, steps, true)
            &&& if q.best_score < node.beta {
                let (state, given) = B::pick_model(
                    last.backend,
                    picker_of(node, steps),
                    last.board,
                    last.stack,
                    node.pv,
                    node.root,
                    false,
                    node.ply,
                );
                &&& given is None || n == MAX_MOVES
                &&& end == ThreadState { backend: state, ..last }
            } else {
                n > 0 && end == last
            }
        },
        None => n > 0 && end == last,
    }
}

/// What a node has found with the given moves, none of which reaches `beta`.
#[verifier::opaque]
spec fn found_with<S>(node: Node, steps: Seq<NodeStep<S>>) -> Progress {
    Progress {
        alpha: best_of(node.alpha, steps),
        best_score: best_of(-Score::INFINITE as int, steps),
        best_move: leader_of(node.alpha, steps),
        bound: if best_of(-Score::INFINITE as int, steps) > node.alpha {
            Bound::Exact
        } else {
            Bound::Upper
        },
        move_count: count_of(steps),
        quiets_searched: quiets_of(steps),
        quiet_moves: failures_of(node.alpha, steps, false),
        noisy_moves: failures_of(node.alpha, steps, true),
        picker: picker_of(node, steps),
    }
}

proof fn lemma_two_bests<S>(node: Node, steps: Seq<NodeStep<S>>)
    requires
        -Score::INFINITE <= node.alpha,
    ensures
        best_of(node.alpha, steps) == if best_of(-Score::INFINITE as int, steps) > node.alpha {
            best_of(-Score::INFINITE as int, steps)
        } else {
            node.alpha
        },
    decreases steps.len(),
{
    if steps.len() > 0 {
        lemma_two_bests(node, steps.drop_last());
    }
}

proof fn lemma_steps_pushed<B: Backend>(
    node: Node,
    singular: bool,
    steps: Seq<NodeStep<B::State>>,
    step: NodeStep<B::State>,
)
    requires
        forall|k: int|
            0 <= k < steps.len() ==> fairly_considered::<B>(
                node,
                singular,
                #[trigger] steps.take(k),
                steps[k],
            ),
        fairly_considered::<B>(node, singular, steps, step),
    ensures
        forall|k: int|
            0 <= k < steps.push(step).len() ==> fairly_considered::<B>(
                node,
                singular,
                #[trigger] steps.push(step).take(k),
                steps.push(step)[k],
            ),
        steps.push(step).drop_last() == steps,
{
    let all = steps.push(step);
    assert forall|k: int| 0 <= k < all.len() implies fairly_considered::<B>(
        node,
        singular,
        #[trigger] all.take(k),
        all[k],
    ) by {
        assert(all.take(k) =~= steps.take(k));
        if k == steps.len() {
            assert(steps.take(k) =~= steps);
        }
    }
    assert(all.drop_last() =~= steps);
}

proof fn lemma_passing_over<S>(node: Node, steps: Seq<NodeStep<S>>, step: NodeStep<S>)
    requires
        !(step.fate is Searched),
        steps.len() < MAX_MOVES,
    ensures
        found_with(node, steps.push(step)) == (Progress {
            move_count: count_of(steps) + if step.fate is LeftOut {
                0int
            } else {
                1
            },
            picker: picker_after(picker_of(node, steps), step.stage),
            ..found_with(node, steps)
        }),
{
    reveal(found_with);
    assert(steps.push(step).drop_last() =~= steps);
}

#[verifier::rlimit(30)]
proof fn lemma_searching_on<S>(node: Node, steps: Seq<NodeStep<S>>, step: NodeStep<S>, p: Progress)
    requires
        step.fate is Searched,
        steps.len() < MAX_MOVES,
        -Score::INFINITE <= node.alpha < node.beta,
        best_of(-Score::INFINITE as int, steps) < node.beta,
        p == (Progress {
            move_count: count_of(steps) + 1,
            picker: picker_after(picker_of(node, steps), step.stage),
            ..found_with(node, steps)
        }),
    ensures
        ({
            let all = steps.push(step);
            let q = progressed(p, step.mv, step.score, node.beta);
            let cutoff = raises(p, step.score) && step.score >= node.beta;
            &&& cutoff <==> best_of(-Score::INFINITE as int, all) >= node.beta
            &&& cutoff ==> {
                &&& q.best_score == best_of(-Score::INFINITE as int, all)
                &&& q.best_move == leader_of(node.alpha, all)
                &&& q.move_count == count_of(all)
                &&& q.quiet_moves == failures_of(node.alpha, all, false)
                &&& q.noisy_moves == failures_of(node.alpha, all, true)
            }
            &&& !cutoff ==> remembered(q, step.mv) == found_with(node, all)
        }),
{
    reveal(found_with);
    reveal(progressed);
    reveal(remembered);
    let all = steps.push(step);
    assert(all.drop_last() =~= steps);
    lemma_two_bests(node, steps);
    lemma_two_bests(node, all);
}

/// What becomes of a move that the picker hands out after the given ones.
#[verifier::opaque]
spec fn step_of<B: Backend>(
    t: Thread<B>,
    node: Node,
    singular: bool,
    before: Seq<NodeStep<B::State>>,
    mv: Move,
    stage: Stage,
) -> NodeStep<B::State> {
    let p = found_with(node, before);
    let t1 = picked::<B>(t, p.picker, node.pv, node.root, false, node.ply).0;
    let p1 = Progress { picker: picker_after(p.picker, stage), ..p };
    let p2 = Progress { move_count: p1.move_count + 1, ..p1 };
    let t2 = counted::<B>(t1, node.ply, p2.move_count);
    let single = singular && mv == hash_move(node.entry);
    NodeStep {
        asked: t,
        mv,
        stage,
        fate: if (node.root && !in_root_window::<B>(t1, mv)) || mv == t1.stack[node.ply].excluded {
            Fate::LeftOut
        } else if skipped(node, p2, mv, t2.board.current.in_check) {
            Fate::Skipped
        } else {
            Fate::Searched
        },
        score: move_searched::<B>(t2, node, single, p2.alpha, p2.move_count, mv).1,
        stopped: move_considered::<B>(t1, node, singular, p1, mv).2 == Verdict::Stopped,
        after: move_considered::<B>(t1, node, singular, p1, mv).0,
    }
}

proof fn lemma_skipping<S>(
    node: Node,
    before: Seq<NodeStep<S>>,
    mv: Move,
    stage: Stage,
    in_check: bool,
    p: Progress,
)
    requires
        p.alpha == best_of(node.alpha, before),
        p.best_score == best_of(-Score::INFINITE as int, before),
        p.quiets_searched == quiets_of(before),
        p.picker.stage == stage,
    ensures
        skipped(node, p, mv, in_check) <==> {
            let threshold = 3 + node.depth * node.depth / if node.improving {
                1int
            } else {
                2
            };
            !node.pv && best_of(-Score::INFINITE as int, before) > -Score::INFINITE
                && if mv.noisy() {
                stage == Stage::BadNoisy && node.depth <= 6
            } else {
                ||| node.depth <= 4 && quiets_of(before) > threshold
                ||| !in_check && node.depth <= 5 && node.eval != Score::NONE && node.eval + 130
                    * node.depth + 45 < best_of(node.alpha, before)
            }
        },
{
    reveal(skipped);
    reveal(late);
    reveal(futile);
    let d = node.depth * node.depth;
    assert(1 + flag(!node.improving) == if node.improving {
        1int
    } else {
        2
    });
}

#[verifier::rlimit(30)]
proof fn lemma_step_is_fair<B: Backend>(
    t: Thread<B>,
    node: Node,
    singular: bool,
    before: Seq<NodeStep<B::State>>,
    mv: Move,
    stage: Stage,
)
    requires
        0 <= node.ply < MAX_PLY,
        -Score::INFINITE <= node.alpha,
        before.len() > 0 ==> t == before.last().after,
        picked::<B>(t, picker_of(node, before), node.pv, node.root, false, node.ply).1 == Some(
            (mv, stage),
        ),
    ensures
        fairly_considered::<B>(
            node,
            singular,
            before,
            step_of::<B>(t, node, singular, before, mv, stage),
        ),
{
    reveal(found_with);
    reveal(step_of);
    reveal(fairly_considered);
    reveal(counted);
    let p = found_with(node, before);
    let t1 = picked::<B>(t, p.picker, node.pv, node.root, false, node.ply).0;
    let p1 = Progress { picker: picker_after(p.picker, stage), ..p };
    let p2 = Progress { move_count: p1.move_count + 1, ..p1 };
    let t2 = counted::<B>(t1, node.ply, p2.move_count);
    lemma_skipping(node, before, mv, stage, t2.board.current.in_check, p2);
    lemma_two_bests(node, before);
    lemma_returned::<B>(t2, node, singular, p2, mv);
}

proof fn lemma_returned<B: Backend>(
    t: Thread<B>,
    node: Node,
    singular: bool,
    p: Progress,
    mv: Move,
)
    requires
        0 <= node.ply < MAX_PLY,
        p.best_score <= p.alpha,
    ensures
        ({
            let single = singular && mv == hash_move(node.entry);
            let (back, score) = move_searched::<B>(t, node, single, p.alpha, p.move_count, mv);
            move_compared::<B>(t, node, singular, p, mv).0 == returned::<B>(
                back,
                node,
                mv,
                t.nodes,
                p.move_count,
                score,
                p.alpha,
            )
        }),
{
    reveal(move_recorded);
    reveal(returned);
}

#[verifier::rlimit(30)]
proof fn lemma_step_leads_on<B: Backend>(
    t: Thread<B>,
    node: Node,
    singular: bool,
    before: Seq<NodeStep<B::State>>,
    mv: Move,
    stage: Stage,
)
    requires
        0 <= node.ply < MAX_PLY,
        -Score::INFINITE <= node.alpha < node.beta,
        before.len() < MAX_MOVES,
        best_of(-Score::INFINITE as int, before) < node.beta,
    ensures
        ({
            let p = found_with(node, before);
            let t1 = picked::<B>(t, p.picker, node.pv, node.root, false, node.ply).0;
            let p1 = Progress { picker: picker_after(p.picker, stage), ..p };
            let step = step_of::<B>(t, node, singular, before, mv, stage);
            let all = before.push(step);
            let (after, q, verdict) = move_considered::<B>(t1, node, singular, p1, mv);
            match verdict {
                Verdict::GoOn => Progress { picker: p1.picker, ..q } == found_with(node, all)
                    && best_of(-Score::INFINITE as int, all) < node.beta,
                Verdict::Cutoff => {
                    &&& best_of(-Score::INFINITE as int, all) >= node.beta
                    &&& q.best_score == best_of(-Score::INFINITE as int, all)
                    &&& q.best_move == leader_of(node.alpha, all)
                    &&& q.move_count == count_of(all)
                    &&& q.quiet_moves == failures_of(node.alpha, all, false)
                    &&& q.noisy_moves == failures_of(node.alpha, all, true)
                },
                Verdict::Stopped => true,
            }
        }),
{
    reveal(found_with);
    reveal(step_of);
    let p = found_with(node, before);
    let t1 = picked::<B>(t, p.picker, node.pv, node.root, false, node.ply).0;
    let p1 = Progress { picker: picker_after(p.picker, stage), ..p };
    let step = step_of::<B>(t, node, singular, before, mv, stage);
    let p2 = Progress { move_count: p1.move_count + 1, ..p1 };
    let t2 = counted::<B>(t1, node.ply, p2.move_count);
    let single = singular && mv == hash_move(node.entry);
    let (t3, score) = move_searched::<B>(t2, node, single, p2.alpha, p2.move_count, mv);
    let (t4, stopped) = polled::<B>(t3);
    if step.fate is Searched {
        assert(move_considered::<B>(t1, node, singular, p1, mv) == move_compared::<B>(
            t2,
            node,
            singular,
            p2,
            mv,
        ));
        if !stopped {
            lemma_searching_on(node, before, step, p2);
            assert(remembered(progressed(p2, mv, score, node.beta), mv).picker == p1.picker) by {
                reveal(remembered);
                reveal(progressed);
            }
        }
    } else {
        lemma_passing_over(node, before, step);
        assert(before.push(step).drop_last() =~= before);
    }
}

proof fn lemma_account_ends<B: Backend>(
    start: Thread<B>,
    t: Thread<B>,
    node: Node,
    singular: bool,
    so_far: Seq<NodeStep<B::State>>,
)
    requires
        0 <= node.ply < MAX_PLY,
        -Score::INFINITE <= node.alpha < node.beta,
        so_far.len() <= MAX_MOVES,
        forall|k: int|
            0 <= k < so_far.len() ==> fairly_considered::<B>(
                node,
                singular,
                #[trigger] so_far.take(k),
                so_far[k],
            ),
        so_far.len() > 0 ==> so_far[0].asked == start && t == so_far.last().after,
        so_far.len() == 0 ==> t == start,
        best_of(-Score::INFINITE as int, so_far) < node.beta,
        so_far.len() > 0 ==> best_of(-Score::INFINITE as int, so_far.drop_last()) < node.beta,
        forall|k: int| 0 <= k < so_far.len() ==> !(#[trigger] so_far[k]).stopped,
        picked::<B>(t, picker_of(node, so_far), node.pv, node.root, false, node.ply).1 is None,
    ensures
        node_account::<B>(
            start,
            node,
            singular,
            so_far,
            moves_tried::<B>(t, node, singular, found_with(node, so_far)).0,
            moves_tried::<B>(t, node, singular, found_with(node, so_far)).1,
        ),
{
    reveal(found_with);
    reveal(node_account);
}

proof fn lemma_account_is_cut<B: Backend>(
    start: Thread<B>,
    node: Node,
    singular: bool,
    so_far: Seq<NodeStep<B::State>>,
    step: NodeStep<B::State>,
    found: Option<Progress>,
)
    requires
        so_far.len() < MAX_MOVES,
        ({
            let all = so_far.push(step);
            &&& forall|k: int|
                0 <= k < all.len() ==> fairly_considered::<B>(
                    node,
                    singular,
                    #[trigger] all.take(k),
                    all[k],
                )
            &&& all[0].asked == start
            &&& step.stopped <==> found is None
            &&& found matches Some(q) ==> {
                &&& q.best_score == best_of(-Score::INFINITE as int, all)
                &&& q.best_score >= node.beta
                &&& q.best_move == leader_of(node.alpha, all)
                &&& q.move_count == count_of(all)
                &&& q.quiet_moves == failures_of(node.alpha, all, false)
                &&& q.noisy_moves == failures_of(node.alpha, all, true)
            }
        }),
        best_of(-Score::INFINITE as int, so_far) < node.beta,
        forall|k: int| 0 <= k < so_far.len() ==> !(#[trigger] so_far[k]).stopped,
    ensures
        node_account::<B>(start, node, singular, so_far.push(step), step.after, found),
{
    reveal(node_account);
    let all = so_far.push(step);
    assert(all.drop_last() =~= so_far);
    assert forall|k: int| 0 <= k < all.len() - 1 implies !(#[trigger] all[k]).stopped by {
        assert(all[k] == so_far[k]);
    }
}

#[verifier::rlimit(30)]
proof fn lemma_moves_accounted<B: Backend>(
    start: Thread<B>,
    t: Thread<B>,
    node: Node,
    singular: bool,
    so_far: Seq<NodeStep<B::State>>,
) -> (steps: Seq<NodeStep<B::State>>)
    requires
        0 <= node.ply < MAX_PLY,
        -Score::INFINITE <= node.alpha < node.beta,
        so_far.len() <= MAX_MOVES,
        forall|k: int|
            0 <= k < so_far.len() ==> fairly_considered::<B>(
                node,
                singular,
                #[trigger] so_far.take(k),
                so_far[k],
            ),
        so_far.len() > 0 ==> so_far[0].asked == start && t == so_far.last().after,
        so_far.len() == 0 ==> t == start,
        best_of(-Score::INFINITE as int, so_far) < node.beta,
        so_far.len() > 0 ==> best_of(-Score::INFINITE as int, so_far.drop_last()) < node.beta,
        forall|k: int| 0 <= k < so_far.len() ==> !(#[trigger] so_far[k]).stopped,
    ensures
        node_account::<B>(
            start,
            node,
            singular,
            steps,
            moves_tried::<B>(t, node, singular, found_with(node, so_far)).0,
            moves_tried::<B>(t, node, singular, found_with(node, so_far)).1,
        ),
    decreases MAX_MOVES - so_far.len(),
{
    let p = found_with(node, so_far);
    assert(p.picker == picker_of(node, so_far)) by {
        reveal(found_with);
    }
    let (t1, next) = picked::<B>(t, p.picker, node.pv, node.root, false, node.ply);
    match next {
        None => {
            lemma_account_ends::<B>(start, t, node, singular, so_far);
            so_far
        },
        Some((mv, stage)) => {
            let p1 = Progress { picker: picker_after(p.picker, stage), ..p };
            let step = step_of::<B>(t, node, singular, so_far, mv, stage);
            let all = so_far.push(step);
            let (after, q, verdict) = move_considered::<B>(t1, node, singular, p1, mv);
            assert(step.asked == t && step.after == after && step.stopped == (verdict
                == Verdict::Stopped)) by {
                reveal(step_of);
            }
            assert(forall|k: int| 0 <= k < so_far.len() ==> all[k] == #[trigger] so_far[k]);
            lemma_step_is_fair::<B>(t, node, singular, so_far, mv, stage);
            lemma_steps_pushed::<B>(node, singular, so_far, step);
            lemma_step_leads_on::<B>(t, node, singular, so_far, mv, stage);
            if verdict == Verdict::GoOn {
                lemma_moves_accounted::<B>(start, after, node, singular, all)
            } else {
                let found = if verdict == Verdict::Cutoff {
                    Some(q)
                } else {
                    None
                };
                lemma_account_is_cut::<B>(start, node, singular, so_far, step, found);
                all
            }
        },
    }
}

/// There is an account of the moves of every node.
pub proof fn moves_are_accounted_for<B: Backend>(t: Thread<B>, node: Node, singular: bool) -> (
    steps: Seq<NodeStep<B::State>>)
    requires
        0 <= node.ply < MAX_PLY,
        -Score::INFINITE <= node.alpha < node.beta,
    ensures
        node_account::<B>(
            t,
            node,
            singular,
            steps,
            moves_tried::<B>(t, node, singular, no_progress(node)).0,
            moves_tried::<B>(t, node, singular, no_progress(node)).1,
        ),
{
    reveal(found_with);
    let none = Seq::<NodeStep<B::State>>::empty();
    assert(found_with(node, none) == no_progress(node));
    lemma_moves_accounted::<B>(t, t, node, singular, none)
}

// ---------------------------------------------------------------------------
// One move
// ---------------------------------------------------------------------------

/// The depth to which a move is searched in full: one ply less than its node, or
/// as much if it is singular or gives check.
pub open spec fn full_depth<B: Backend>(
    t: Thread<B>,
    node: Node,
    singular: bool,
    mv: Move,
) -> int {
    if singular || B::play_model(t.backend, t.board.current, mv).0.in_check {
        node.depth
    } else {
        node.depth - 1
    }
}

/// The score of a move is minus what the opponent gets by a search of the position
/// after it, and that search is the one the move deserves. With an open window,
/// the first move and every move that beats `alpha` are searched with the open
/// window, in full depth. With a closed one, every move that beats `alpha` is
/// searched in full depth. A search of less depth is only ever of a late quiet move
/// that does not beat `alpha`, and no second search is made of a move unless the
/// one before it beat `alpha`. The witness is the thread that the last search
/// starts from, whether its window is open, its depth, and whether it is the only
/// one.
#[verifier::rlimit(30)]
pub proof fn moves_are_searched_as_they_deserve<B: Backend>(
    t: Thread<B>,
    node: Node,
    singular: bool,
    alpha: int,
    move_count: int,
    mv: Move,
) -> (witness: (Thread<B>, bool, int, bool))
    requires
        t.sized(),
        0 <= node.ply < MAX_PLY - 1,
        node.depth >= 1,
    ensures
        ({
            let (s, open, depth, at_once) = witness;
            let (end, score) = move_searched::<B>(t, node, singular, alpha, move_count, mv);
            let made = moved::<B>(t, node.ply, mv);
            let full = full_depth::<B>(t, node, singular, mv);
            let low = if open {
                -node.beta
            } else {
                -alpha - 1
            };
            let (replied, reply) = searched::<B>(s, open, false, low, -alpha, depth, node.ply + 1);
            let late_quiet = node.depth >= 3 && move_count > 2 && !mv.noisy();
            &&& score == -reply
            &&& end == unmoved::<B>(replied)
            &&& s.sized()
            &&& s.board.current == B::play_model(t.backend, t.board.current, mv).0
            &&& s.board.history == t.board.history.push(t.board.current)
            &&& s.network == made.network
            &&& open ==> node.pv && depth == full
            &&& node.pv && (move_count == 1 || score > alpha) ==> open
            &&& score > alpha ==> depth == full
            &&& depth != full ==> late_quiet && full - node.depth < depth < full
            &&& at_once ==> s == made
            &&& !at_once ==> exists|x: Thread<B>, d: int|
                {
                    let probe = #[trigger] searched::<B>(
                        x,
                        false,
                        false,
                        -alpha - 1,
                        -alpha,
                        d,
                        node.ply + 1,
                    );
                    s == probe.0 && -probe.1 > alpha
                }
            &&& node.pv && move_count == 1 ==> at_once
            &&& !open && at_once && late_quiet ==> {
                let history = B::quiet_score_model(
                    t.backend,
                    t.board.current.threats,
                    t.board.current.side_to_move,
                    mv,
                );
                let base = B::reduction_base_model(made.backend, node.depth, move_count);
                let check = if made.board.current.in_check {
                    1int
                } else {
                    0
                };
                let wanted = base - quotient(history as int, 8192) - check - if node.pv {
                    1int
                } else {
                    0
                };
                full - depth == if wanted < 0 {
                    0
                } else if wanted > node.depth - 1 {
                    node.depth - 1
                } else {
                    wanted
                }
            }
        }),
{
    let quiet_score = if mv.noisy() {
        0
    } else {
        B::quiet_score_model(
            t.backend,
            t.board.current.threats,
            t.board.current.side_to_move,
            mv,
        ) as int
    };
    let made = moved::<B>(t, node.ply, mv);
    assert(made.sized()) by {
        reveal(moved);
    }
    assert(made.board.current == B::play_model(t.backend, t.board.current, mv).0
        && made.board.history == t.board.history.push(t.board.current)) by {
        reveal(moved);
    }
    let gives_check = made.board.current.in_check;
    let depth = node.depth - 1 + extension(singular, gives_check);
    let ply = node.ply + 1;
    if node.pv && move_count == 1 {
        (made, true, depth, true)
    } else {
        let reduction = late_reduction(
            node,
            move_count,
            !mv.noisy(),
            quiet_score,
            B::reduction_base_model(made.backend, node.depth, move_count) as int,
            gives_check,
        );
        reveal(late_reduction);
        let (t2, reply2) = searched::<B>(
            made,
            false,
            false,
            -alpha - 1,
            -alpha,
            depth - reduction,
            ply,
        );
        search_keeps::<B>(made, false, false, -alpha - 1, -alpha, depth - reduction, ply);
        kept_means(made, t2, ply);
        let again = -reply2 > alpha && reduction > 0;
        let (t3, reply3) = if again {
            searched::<B>(t2, false, false, -alpha - 1, -alpha, depth, ply)
        } else {
            (t2, reply2)
        };
        if again {
            search_keeps::<B>(t2, false, false, -alpha - 1, -alpha, depth, ply);
            kept_means(t2, t3, ply);
        }
        if -reply3 > alpha && node.pv {
            (t3, true, depth, false)
        } else if again {
            (t2, false, depth, false)
        } else {
            (made, false, depth - reduction, true)
        }
    }
}

} // verus!
