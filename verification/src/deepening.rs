//! How the root is searched deeper and deeper, and with which windows.
use crate::backend::Backend;
use crate::frame::{kept, kept_means};
use crate::invariance::aspiration_keeps;
use crate::model::{
    aspired, begun, completed, deep_enough, first_window, iterated, polled, prepared, searched,
    soft_timed, started, widened_down, widened_up, Thread,
};
use crate::ranking::{ranked, ranking_is_a_stable_sort};
use crate::search::Report;
use crate::stack::blank_stack;
use crate::thread::{Limits, RootMoveState, ThreadState};
use crate::types::{no_move, Score, MAX_PLY};
use vstd::prelude::*;

verus! {

// ---------------------------------------------------------------------------
// Windows
// ---------------------------------------------------------------------------

/// The window with which an iteration begins, in numbers: from depth five on, twenty
/// points to either side of a previous score between -1500 and 1500, and otherwise
/// everything.
pub proof fn first_windows_in_numbers(depth: int, previous: int)
    ensures
        first_window(depth, previous) == if depth >= 5 && -1500 < previous < 1500 {
            (previous - 20, previous + 20, 20int)
        } else {
            (-32001int, 32001int, 32001int)
        },
{
}

/// A window that failed low moves its lower end below the score by the step, at most
/// to the lowest score there is, and its upper end to the middle, rounded towards
/// zero. One that failed high moves its upper end above the score by the step, at
/// most to the highest score there is. The step becomes half of itself and ten.
pub proof fn wider_windows_in_numbers(score: int, alpha: int, beta: int, delta: int)
    requires
        delta >= 0,
    ensures
        ({
            let (low, middle, step) = widened_down(score, alpha, beta, delta);
            &&& low == if score - delta < -32001 {
                -32001
            } else {
                score - delta
            }
            &&& alpha + beta >= 0 ==> 2 * middle <= alpha + beta <= 2 * middle + 1
            &&& alpha + beta <= 0 ==> 2 * middle - 1 <= alpha + beta <= 2 * middle
            &&& 2 * (step - 10) <= delta <= 2 * (step - 10) + 1
        }),
        ({
            let (low, high, step) = widened_up(score, alpha, beta, delta);
            &&& low == alpha
            &&& high == if score + delta > 32001 {
                32001
            } else {
                score + delta
            }
            &&& 2 * (step - 10) <= delta <= 2 * (step - 10) + 1
        }),
{
}

/// One search of the root with a window.
pub struct Try<S> {
    /// The thread before the search.
    pub before: ThreadState<S>,
    pub alpha: int,
    pub beta: int,
    /// By how much the window is widened next.
    pub delta: int,
}

/// What the search of a try does to the thread, which then asks whether to stop;
/// whether it is to; and the score.
pub open spec fn tried<B: Backend>(a: Try<B::State>, depth: int) -> (Thread<B>, bool, int) {
    let (after, score) = searched::<B>(a.before, true, true, a.alpha, a.beta, depth, 0);
    let (heard, stopped) = B::stopped_model(after.backend);
    (ThreadState { backend: heard, ..after }, stopped, score)
}

/// One try follows another that failed and was not stopped: it goes on from where
/// that one left the thread, with its window widened on the side that failed.
pub open spec fn follows<B: Backend>(a: Try<B::State>, b: Try<B::State>, depth: int) -> bool {
    let (after, stopped, score) = tried::<B>(a, depth);
    let (alpha, beta, delta) = if score <= a.alpha {
        widened_down(score, a.alpha, a.beta, a.delta)
    } else {
        widened_up(score, a.alpha, a.beta, a.delta)
    };
    &&& !stopped
    &&& score <= a.alpha || score >= a.beta
    &&& b == Try { before: after, alpha, beta, delta }
}

/// The account of an iteration's tries. Each follows the one before, with the depth
/// of the iteration. The last is stopped, or its score is inside the window, or the
/// side on which it failed is as far out as it can be.
pub open spec fn tries_account<B: Backend>(
    t: Thread<B>,
    window: (int, int, int),
    depth: int,
    tries: Seq<Try<B::State>>,
    end: Thread<B>,
) -> bool {
    let n = tries.len() as int;
    &&& n > 0
    &&& tries[0] == Try { before: t, alpha: window.0, beta: window.1, delta: window.2 }
    &&& forall|k: int|
        0 < k < n ==> follows::<B>(tries[k - 1], #[trigger] tries[k], depth)
    &&& ({
        let a = tries[n - 1];
        let (after, stopped, score) = tried::<B>(a, depth);
        &&& end == after
        &&& ({
            ||| stopped
            ||| a.alpha < score < a.beta
            ||| score <= a.alpha && (a.alpha <= -32001 || a.alpha <= score - a.delta)
            ||| score >= a.beta && (a.beta >= 32001 || a.beta >= score + a.delta)
        })
    })
}

/// There is an account of every iteration's tries.
pub proof fn tries_are_accounted_for<B: Backend>(
    t: Thread<B>,
    window: (int, int, int),
    depth: int,
) -> (tries: Seq<Try<B::State>>)
    ensures
        tries_account::<B>(t, window, depth, tries, aspired::<B>(t, window, depth)),
    decreases window.0 + Score::INFINITE, Score::INFINITE - window.1,
{
    let first = Try { before: t, alpha: window.0, beta: window.1, delta: window.2 };
    let (after, stopped, score) = tried::<B>(first, depth);
    let down = widened_down(score, window.0, window.1, window.2);
    let up = widened_up(score, window.0, window.1, window.2);
    let one = seq![first];
    if stopped || (score > window.0 && score < window.1) {
        one
    } else if score <= window.0 && down.0 < window.0 {
        let rest = tries_are_accounted_for::<B>(after, down, depth);
        lemma_tries_prepend::<B>(first, window, down, rest, depth);
        one + rest
    } else if score > window.0 && up.1 > window.1 {
        let rest = tries_are_accounted_for::<B>(after, up, depth);
        lemma_tries_prepend::<B>(first, window, up, rest, depth);
        one + rest
    } else {
        one
    }
}

proof fn lemma_tries_prepend<B: Backend>(
    first: Try<B::State>,
    window: (int, int, int),
    next: (int, int, int),
    rest: Seq<Try<B::State>>,
    depth: int,
)
    requires
        first.alpha == window.0,
        first.beta == window.1,
        first.delta == window.2,
        ({
            let after = tried::<B>(first, depth).0;
            &&& follows::<B>(
                first,
                Try { before: after, alpha: next.0, beta: next.1, delta: next.2 },
                depth,
            )
            &&& tries_account::<B>(
                after,
                next,
                depth,
                rest,
                aspired::<B>(after, next, depth),
            )
        }),
    ensures
        tries_account::<B>(
            first.before,
            window,
            depth,
            seq![first] + rest,
            aspired::<B>(tried::<B>(first, depth).0, next, depth),
        ),
{
    let all = seq![first] + rest;
    assert(all[0] == first);
    assert forall|k: int| 0 < k < all.len() implies follows::<B>(
        all[k - 1],
        #[trigger] all[k],
        depth,
    ) by {
        if k > 1 {
            assert(all[k - 1] == rest[k - 2]);
            assert(all[k] == rest[k - 1]);
        } else {
            assert(all[1] == rest[0]);
        }
    }
    assert(all[all.len() - 1] == rest[rest.len() - 1]);
}

// ---------------------------------------------------------------------------
// Iterations
// ---------------------------------------------------------------------------

/// A stack of which nothing is known: no move, no evaluation, nothing left out.
pub proof fn blank_stacks_are_blank(i: int)
    requires
        0 <= i < 130,
    ensures
        blank_stack().len() == 130,
        ({
            let entry = blank_stack()[i];
            &&& entry.mv == no_move()
            &&& entry.piece is None
            &&& entry.eval == 32002
            &&& entry.excluded == no_move()
            &&& entry.tt_move == no_move()
            &&& !entry.tt_pv
            &&& entry.cutoff_count == 0
            &&& entry.move_count == 0
            &&& entry.reduction == 0
            &&& entry.conthist is None
            &&& entry.contcorrhist is None
        }),
{
}

/// The search of the root to one depth. It begins with an empty stack, the highest
/// ply at nothing, and the scores of the root moves put aside, around the first of
/// which the window is laid.
#[verifier::opaque]
pub open spec fn root_searched<B: Backend>(t: Thread<B>, depth: int) -> Thread<B> {
    let previous = t.root_moves[0].score;
    let ready = ThreadState {
        sel_depth: 0,
        root_depth: depth as i32,
        stack: blank_stack(),
        root_moves: Seq::new(
            t.root_moves.len(),
            |i: int| RootMoveState { previous_score: t.root_moves[i].score, ..t.root_moves[i] },
        ),
        ..t
    };
    let window = if depth >= 5 && -1500 < previous < 1500 {
        (previous - 20, previous + 20, 20int)
    } else {
        (-32001int, 32001int, 32001int)
    };
    aspired::<B>(ready, window, depth)
}

/// An iteration that nobody has stopped: the root moves are ranked, the depth is
/// completed, and the result is reported if every one is to be.
#[verifier::opaque]
pub open spec fn iteration<B: Backend>(t: Thread<B>, report: Report, depth: int) -> Thread<B> {
    let found = root_searched::<B>(t, depth);
    let heard = B::stopped_model(found.backend).0;
    ThreadState {
        root_moves: ranked(found.root_moves),
        completed_depth: depth as i32,
        backend: if report == Report::Full {
            B::info_model(heard, depth, ranked(found.root_moves), found.nodes)
        } else {
            heard
        },
        ..found
    }
}

/// What the soft limit says after an iteration.
pub open spec fn soft_limit_after<B: Backend>(t: Thread<B>) -> (B::State, bool) {
    B::soft_limit_model(t.backend, t.nodes, t.completed_depth)
}

/// The thread after some iterations, having asked for the soft limit.
#[verifier::opaque]
pub open spec fn after_iterations<B: Backend>(
    t: Thread<B>,
    done: Seq<Thread<B>>,
    n: int,
) -> Thread<B> {
    if n <= 0 {
        t
    } else {
        ThreadState { backend: soft_limit_after::<B>(done[n - 1]).0, ..done[n - 1] }
    }
}

/// Whether the main thread has been told to search less deep.
pub open spec fn too_deep<B: Backend>(t: Thread<B>, depth: int) -> bool {
    t.id == 0 && (t.limits matches Limits::Depth(maximum) && depth > maximum)
}

/// An iteration that was duly done from a thread on: within the depths that there
/// are and that the main thread was told to search, and not stopped.
#[verifier::opaque]
pub open spec fn duly_done<B: Backend>(
    from: Thread<B>,
    report: Report,
    depth: int,
    done: Thread<B>,
) -> bool {
    &&& done == iteration::<B>(from, report, depth)
    &&& done.completed_depth == depth
    &&& done.root_depth == depth
    &&& depth < MAX_PLY
    &&& !too_deep::<B>(from, depth)
    &&& !B::stopped_model(root_searched::<B>(from, depth).backend).1
}

/// How iterative deepening ends when the next iteration would be of the given depth.
/// Once the soft limit is over, or beyond the depth that the main thread was told to
/// search, the search is told to stop, and nothing else changes. With the last depth
/// there is, nothing changes at all. Otherwise it ends in the middle of the iteration,
/// which was stopped.
#[verifier::opaque]
pub open spec fn ends_duly<B: Backend>(
    rest: Thread<B>,
    over: bool,
    depth: int,
    end: Thread<B>,
) -> bool {
    if !over && depth >= MAX_PLY {
        end == rest
    } else if over || too_deep::<B>(rest, depth) {
        end == ThreadState { backend: B::stop_model(rest.backend), ..rest }
    } else {
        let found = root_searched::<B>(rest, depth);
        let (heard, stopped) = B::stopped_model(found.backend);
        &&& stopped
        &&& end == ThreadState { backend: heard, ..found }
        &&& end.completed_depth == rest.completed_depth
        &&& end.root_depth == depth
    }
}

/// The account of iterative deepening from a depth on. The iterations are duly done,
/// one depth after the other; the soft limit is over after none but the last; and
/// after the last, the deepening duly ends.
pub open spec fn iterations_account<B: Backend>(
    t: Thread<B>,
    report: Report,
    depth: int,
    done: Seq<Thread<B>>,
    end: Thread<B>,
) -> bool {
    let n = done.len() as int;
    &&& forall|k: int|
        0 <= k < n ==> duly_done::<B>(
            after_iterations::<B>(t, done, k),
            report,
            depth + k,
            #[trigger] done[k],
        )
    &&& forall|k: int| 0 <= k < n - 1 ==> !soft_limit_after::<B>(#[trigger] done[k]).1
    &&& ends_duly::<B>(
        after_iterations::<B>(t, done, n),
        n > 0 && soft_limit_after::<B>(done[n - 1]).1,
        depth + n,
        end,
    )
}

#[verifier::rlimit(30)]
proof fn lemma_iterations_prepend<B: Backend>(
    t: Thread<B>,
    report: Report,
    depth: int,
    first: Thread<B>,
    rest: Seq<Thread<B>>,
    end: Thread<B>,
)
    requires
        duly_done::<B>(t, report, depth, first),
        !soft_limit_after::<B>(first).1,
        iterations_account::<B>(
            ThreadState { backend: soft_limit_after::<B>(first).0, ..first },
            report,
            depth + 1,
            rest,
            end,
        ),
    ensures
        iterations_account::<B>(t, report, depth, seq![first] + rest, end),
{
    let all = seq![first] + rest;
    let n = all.len() as int;
    let after = ThreadState { backend: soft_limit_after::<B>(first).0, ..first };
    assert(all[0] == first);
    assert forall|k: int| 0 <= k < n implies duly_done::<B>(
        after_iterations::<B>(t, all, k),
        report,
        depth + k,
        #[trigger] all[k],
    ) by {
        if k == 0 {
            reveal(after_iterations);
        } else {
            assert(all[k] == rest[k - 1]);
            assert(after_iterations::<B>(t, all, k) == after_iterations::<B>(after, rest, k - 1))
                by {
                reveal(after_iterations);
                if k > 1 {
                    assert(all[k - 1] == rest[k - 2]);
                }
            }
            assert(depth + k == depth + 1 + (k - 1));
        }
    }
    assert forall|k: int| 0 <= k < n - 1 implies !soft_limit_after::<B>(#[trigger] all[k]).1 by {
        if k > 0 {
            assert(all[k] == rest[k - 1]);
        }
    }
    if rest.len() > 0 {
        assert(all[n - 1] == rest[n - 2]);
    }
    assert(after_iterations::<B>(t, all, n) == after_iterations::<B>(after, rest, n - 1)) by {
        reveal(after_iterations);
    }
    assert(depth + n == depth + 1 + (n - 1));
    assert(rest.len() == n - 1);
}

/// There is an account of iterative deepening.
#[verifier::rlimit(30)]
pub proof fn iterations_are_accounted_for<B: Backend>(t: Thread<B>, report: Report, depth: int) -> (
    done: Seq<Thread<B>>)
    requires
        1 <= depth <= MAX_PLY,
        t.pv_table.len() == MAX_PLY + 1,
        t.pv_start <= t.pv_end <= t.root_moves.len(),
        t.root_moves.len() > 0,
    ensures
        iterations_account::<B>(t, report, depth, done, iterated::<B>(t, report, depth)),
    decreases MAX_PLY - depth,
{
    reveal(ends_duly);
    reveal(after_iterations);
    if depth >= MAX_PLY || deep_enough::<B>(t, depth) {
        Seq::empty()
    } else {
        let t1 = prepared::<B>(t, depth);
        let window = first_window(depth, t1.root_moves[0].previous_score as int);
        assert(t1.root_moves =~= Seq::new(
            t.root_moves.len(),
            |i: int| RootMoveState { previous_score: t.root_moves[i].score, ..t.root_moves[i] },
        ));
        aspiration_keeps::<B>(t1, window, depth);
        let found = aspired::<B>(t1, window, depth);
        assert(found == root_searched::<B>(t, depth)) by {
            reveal(root_searched);
        }
        kept_means(t1, found, 0);
        assert(found.id == t.id && found.limits == t.limits && found.root_moves.len()
            == t.root_moves.len()) by {
            reveal(kept);
        }
        let (t2, stopped) = polled::<B>(found);
        if stopped {
            Seq::empty()
        } else {
            let first = completed::<B>(t2, report, depth);
            ranking_is_a_stable_sort(t2.root_moves, 0);
            assert(duly_done::<B>(t, report, depth, first)) by {
                reveal(iteration);
                reveal(duly_done);
            }
            let (t3, over) = soft_timed::<B>(first);
            if over {
                let one = seq![first];
                assert(one[0] == first);
                one
            } else {
                let rest = iterations_are_accounted_for::<B>(t3, report, depth + 1);
                let end = iterated::<B>(t3, report, depth + 1);
                lemma_iterations_prepend::<B>(t, report, depth, first, rest, end);
                seq![first] + rest
            }
        }
    }
}

/// No iteration is begun once the soft limit is over: if it is after an iteration,
/// the whole search ends there, told to stop, with the depth of the iteration both
/// searched and completed. As long as it is not, the search goes on with the next
/// depth.
#[verifier::rlimit(30)]
pub proof fn soft_limits_end_the_search<B: Backend>(t: Thread<B>, report: Report, depth: int)
    requires
        1 <= depth < MAX_PLY,
        t.pv_table.len() == MAX_PLY + 1,
        t.pv_start <= t.pv_end <= t.root_moves.len(),
        t.root_moves.len() > 0,
        !too_deep::<B>(t, depth),
        !B::stopped_model(root_searched::<B>(t, depth).backend).1,
    ensures
        ({
            let done = iteration::<B>(t, report, depth);
            let (asked, over) = B::soft_limit_model(done.backend, done.nodes, done.completed_depth);
            let end = iterated::<B>(t, report, depth);
            &&& over ==> {
                &&& end == ThreadState { backend: B::stop_model(asked), ..done }
                &&& end.completed_depth == depth
                &&& end.root_depth == depth
                &&& B::stopped_model(end.backend).1
            }
            &&& !over ==> end == iterated::<B>(
                ThreadState { backend: asked, ..done },
                report,
                depth + 1,
            )
        }),
{
    let t1 = prepared::<B>(t, depth);
    let window = first_window(depth, t1.root_moves[0].previous_score as int);
    assert(t1.root_moves =~= Seq::new(
        t.root_moves.len(),
        |i: int| RootMoveState { previous_score: t.root_moves[i].score, ..t.root_moves[i] },
    ));
    aspiration_keeps::<B>(t1, window, depth);
    let found = aspired::<B>(t1, window, depth);
    assert(found == root_searched::<B>(t, depth)) by {
        reveal(root_searched);
    }
    kept_means(t1, found, 0);
    let first = completed::<B>(polled::<B>(found).0, report, depth);
    assert(first == iteration::<B>(t, report, depth)) by {
        reveal(iteration);
    }
    B::stop_is_heard(B::soft_limit_model(first.backend, first.nodes, first.completed_depth).0);
}

/// A whole search is iterative deepening from depth one on, with the full list of
/// root moves and nothing completed. A search that is to report its last result only
/// does so at the end, with the completed depth or one. The score of the first root
/// move is kept for the next search.
pub proof fn searches_deepen_from_one<B: Backend>(t: Thread<B>, report: Report) -> (done: Seq<
    Thread<B>,
>)
    requires
        t.pv_table.len() == MAX_PLY + 1,
        0 < t.root_moves.len() <= usize::MAX,
    ensures
        ({
            let begin = ThreadState {
                completed_depth: 0,
                pv_table: t.pv_table.update(0, Seq::empty()),
                multi_pv: 1,
                pv_index: 0,
                pv_start: 0,
                pv_end: t.root_moves.len() as usize,
                ..t
            };
            let end = iterated::<B>(begin, report, 1);
            let shown = if end.completed_depth > 1 {
                end.completed_depth as int
            } else {
                1
            };
            let after = started::<B>(t, report);
            &&& iterations_account::<B>(begin, report, 1, done, end)
            &&& after.previous_best_score == end.root_moves[0].score
            &&& after.backend == if report == Report::Minimal {
                B::info_model(end.backend, shown, end.root_moves, end.nodes)
            } else {
                end.backend
            }
            &&& after == (ThreadState {
                backend: after.backend,
                previous_best_score: after.previous_best_score,
                ..end
            })
        }),
{
    iterations_are_accounted_for::<B>(begun::<B>(t), report, 1)
}

} // verus!
