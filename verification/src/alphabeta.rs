//! Alpha-beta search.
use crate::backend::Backend;
use crate::evaluation::{correct_eval, corrected};
use crate::frame::{
    asking_keeps_stopped, counting_keeps, entering_keeps, kept, kept_lightly, kept_means,
    kept_twice, line_is_undone, pass_is_undone, probe_is_undone, recording_charges, recording_keeps,
    root_window_stays,
};
use crate::laws::{considering_is_truthful, truthful};
use crate::model::{
    counted, excluding, fully_searched, in_root_window, is_stopped, move_compared, move_considered,
    move_searched, moves_tried, no_progress, node_entered, node_of, node_searched, null_searched,
    passed, searched, singular_probed, uncharged, unpassed, Node, Progress, Thread, Verdict,
};
use crate::movepick::MovePicker;
use crate::nnue::MATE_BOUND;
use crate::node::{finish_node, one_if, NodeInfo, Tried, EVAL_LIMIT};
use crate::quiescence::qsearch;
use crate::root::{
    carries_on, course_begins, course_ends, course_goes_on, course_is_in_order, handed, in_order,
    leads, node_offers, offers_each_once, on_course, recording_keeps_standing, root_offers,
    standing, strangers_do_not_matter, whole_root_stays,
};
use crate::search::{node_types_differ, NodeType, NonPV, PV};
use crate::steps::{
    draw, eval_correction, is_root_move, make_move, out_of_time, raw_evaluation, record_move,
    static_eval, tt_settles, undo_move, CORRECTION_SPAN,
};
use crate::thread::ThreadData;
use crate::transposition::{Bound, TtDepth, TtEntry};
use crate::types::{is_valid, mate_in, mated_in, no_move, Move, Score, MAX_MOVES, MAX_PLY};
use vstd::prelude::*;

verus! {

/// Alpha-beta search in its negamax form. The score is for the side to move;
/// `alpha` is what this side is sure of already, `beta` what the opponent will
/// not let it exceed.
pub fn search<NODE: NodeType, B: Backend>(
    td: &mut ThreadData<B>,
    alpha: i32,
    beta: i32,
    depth: i32,
    ply: isize,
) -> (score: i32)
    requires
        old(td)@.wf(),
        0 <= ply <= MAX_PLY,
        depth <= MAX_PLY,
        i32::MIN < alpha < beta <= Score::INFINITE,
        NODE::ROOT ==> NODE::PV && ply == 0 && depth >= 1 && alpha >= -Score::INFINITE,
    ensures
        (final(td)@, score as int) == searched::<B>(
            old(td)@,
            NODE::PV,
            NODE::ROOT,
            alpha as int,
            beta as int,
            depth as int,
            ply as int,
        ),
        -Score::MATE <= score <= Score::MATE,
        final(td)@.wf(),
        kept(old(td)@, final(td)@, ply as int),
        !NODE::ROOT ==> final(td)@.root_moves == old(td)@.root_moves,
        NODE::ROOT ==> uncharged(final(td)@) == uncharged(old(td)@) || is_stopped::<B>(final(td)@),
        NODE::ROOT && alpha < score < beta && root_offers::<B>(
            old(td)@,
            alpha as int,
            beta as int,
            depth as int,
        ) ==> leads(final(td)@.root_moves, score as int) || is_stopped::<B>(final(td)@),
    decreases MAX_PLY - ply, depth, 8int, 0int,
{
    if !NODE::ROOT && NODE::PV {
        td.pv_table.clear(ply as usize);
    }
    proof {
        kept_lightly(old(td)@, td@, ply as int);
    }
    let ghost asked = td@;
    let stopped = td.backend.stopped();
    proof {
        kept_lightly(old(td)@, td@, ply as int);
    }
    if stopped {
        proof {
            asking_keeps_stopped::<B>(asked);
        }
        return Score::ZERO;
    }
    if depth <= 0 {
        let ghost before = td@;
        let score = qsearch::<NODE, B>(td, alpha, beta, ply);
        proof {
            kept_twice(old(td)@, before, td@, ply as int);
        }
        return score;
    }
    if out_of_time(td) {
        td.backend.stop();
        proof {
            kept_lightly(old(td)@, td@, ply as int);
        }
        return Score::ZERO;
    }
    proof {
        kept_lightly(old(td)@, td@, ply as int);
    }
    let mut low: i32 = alpha;
    let mut high: i32 = beta;
    if !NODE::ROOT {
        if td.backend.is_draw(&td.board, ply) {
            return draw(td);
        }
        if ply as usize >= MAX_PLY - 1 {
            return static_eval(td);
        }
        low = low.max(mated_in(ply));
        high = high.min(mate_in(ply + 1));
        if low >= high {
            return low;
        }
    }
    let ghost before = td@;
    let score = search_node::<NODE, B>(td, low, high, depth, ply);
    proof {
        reveal(root_offers);
        kept_twice(old(td)@, before, td@, ply as int);
    }
    score
}

/// Evaluates the position of a node and enters it on the stack.
fn enter_node<NODE: NodeType, B: Backend>(
    td: &mut ThreadData<B>,
    alpha: i32,
    beta: i32,
    depth: i32,
    ply: isize,
    entry: Option<TtEntry>,
) -> (info: NodeInfo)
    requires
        old(td)@.wf(),
        0 <= ply < MAX_PLY - 1,
        1 <= depth <= MAX_PLY,
        -Score::INFINITE <= alpha < beta <= Score::INFINITE,
        entry matches Some(e) ==> e.wf(),
    ensures
        info.node::<NODE>() == node_of::<B>(
            old(td)@,
            NODE::PV,
            NODE::ROOT,
            alpha as int,
            beta as int,
            depth as int,
            ply as int,
            entry,
        ),
        final(td)@ == node_entered::<B>(old(td)@, info.node::<NODE>()),
        info.wf(old(td)@.board.current.in_check),
        info.ply == ply,
        info.alpha == alpha,
        info.beta == beta,
        info.depth <= depth,
{
    reveal(node_of);
    reveal(node_entered);
    let tt_move = match &entry {
        Some(e) => e.mv,
        None => Move::null(),
    };
    let mut node_depth: i32 = depth;
    if depth >= 4 && !tt_move.is_present() {
        node_depth = depth - 1;
    }
    let in_check = td.board.current.in_check;
    let correction_value = eval_correction(td, ply);
    let raw_eval = raw_evaluation(td, &entry);
    if !in_check && entry.is_none() {
        td.backend.tt_write(
            td.board.current.hash,
            TtEntry {
                mv: Move::null(),
                score: Score::NONE,
                raw_eval,
                depth: TtDepth::SOME,
                bound: Bound::Absent,
            },
            ply,
            NODE::PV,
            false,
        );
    }
    let eval = if in_check {
        Score::NONE
    } else {
        proof {
            lemma_correction_is_small(
                raw_eval as int,
                correction_value as int,
                td.board.current.halfmove_clock as int,
            );
        }
        correct_eval(raw_eval, correction_value, td.board.current.halfmove_clock)
    };
    let i: usize = ply as usize;
    td.stack[i].eval = eval;
    td.stack[i].tt_move = tt_move;
    td.stack[i].tt_pv = NODE::PV;
    td.stack[i].reduction = 0;
    td.stack[i].move_count = 0;
    td.stack[i + 2].cutoff_count = 0;
    let improving = !in_check && ply >= 2 && is_valid(td.stack[i - 2].eval) && eval
        > td.stack[i - 2].eval;
    let info = NodeInfo { alpha, beta, depth: node_depth, ply, entry, raw_eval, eval, improving };
    assert(td@.stack =~= node_entered::<B>(old(td)@, info.node::<NODE>()).stack);
    info
}

/// The search of a node that is neither drawn nor out of reach: it may be
/// settled by the transposition table or by its evaluation.
fn search_node<NODE: NodeType, B: Backend>(
    td: &mut ThreadData<B>,
    alpha: i32,
    beta: i32,
    depth: i32,
    ply: isize,
) -> (score: i32)
    requires
        old(td)@.wf(),
        0 <= ply < MAX_PLY - 1,
        1 <= depth <= MAX_PLY,
        -Score::INFINITE <= alpha < beta <= Score::INFINITE,
        NODE::ROOT ==> NODE::PV,
        !NODE::ROOT ==> -Score::MATE <= alpha,
    ensures
        (final(td)@, score as int) == node_searched::<B>(
            old(td)@,
            NODE::PV,
            NODE::ROOT,
            alpha as int,
            beta as int,
            depth as int,
            ply as int,
        ),
        -Score::MATE <= score <= Score::MATE,
        final(td)@.wf(),
        kept(old(td)@, final(td)@, ply as int),
        !NODE::ROOT ==> final(td)@.root_moves == old(td)@.root_moves,
        NODE::ROOT ==> uncharged(final(td)@) == uncharged(old(td)@) || is_stopped::<B>(final(td)@),
        NODE::ROOT && ply == 0 && alpha < score < beta && node_offers::<B>(
            old(td)@,
            alpha as int,
            beta as int,
            depth as int,
        ) ==> leads(final(td)@.root_moves, score as int) || is_stopped::<B>(final(td)@),
    decreases MAX_PLY - ply, depth, 7int, 0int,
{
    let entry = td.backend.tt_read(td.board.current.hash, td.board.current.halfmove_clock, ply);
    proof {
        kept_lightly(old(td)@, td@, ply as int);
    }
    let ghost read = td@;
    if let Some(e) = &entry {
        if !NODE::PV && td.stack[ply as usize].excluded.is_null() && e.depth >= depth
            && tt_settles(e, alpha, beta) {
            return e.score;
        }
    }
    let info = enter_node::<NODE, B>(td, alpha, beta, depth, ply, entry);
    proof {
        entering_keeps::<B>(read, info.node::<NODE>());
        kept_twice(old(td)@, read, td@, ply as int);
        kept_means(read, td@, ply as int);
    }
    let in_check = td.board.current.in_check;
    if info.reverse_futility::<NODE>(in_check) {
        return info.eval;
    }
    let ghost entered = td@;
    let score = search_past_null::<NODE, B>(td, &info);
    proof {
        reveal(node_offers);
        kept_twice(old(td)@, entered, td@, ply as int);
    }
    score
}

proof fn lemma_correction_is_small(raw_eval: int, correction_value: int, halfmove_clock: int)
    requires
        -MATE_BOUND <= raw_eval <= MATE_BOUND,
        -CORRECTION_SPAN <= correction_value <= CORRECTION_SPAN,
        0 <= halfmove_clock <= 255,
    ensures
        -EVAL_LIMIT <= corrected(raw_eval, correction_value, halfmove_clock) <= EVAL_LIMIT,
        -6200000 <= raw_eval * (200 - halfmove_clock) <= 6200000,
{
    assert(-6200000 <= raw_eval * (200 - halfmove_clock) <= 6200000) by (nonlinear_arith)
        requires
            -31000 <= raw_eval <= 31000,
            0 <= halfmove_clock <= 255,
    ;
}

/// The search of a node that its evaluation does not settle: the turn may be
/// given away to see whether that is good enough.
fn search_past_null<NODE: NodeType, B: Backend>(td: &mut ThreadData<B>, info: &NodeInfo) -> (score:
    i32)
    requires
        old(td)@.wf(),
        info.wf(old(td)@.board.current.in_check),
        NODE::ROOT ==> NODE::PV,
        !NODE::ROOT ==> -Score::MATE <= info.alpha,
    ensures
        (final(td)@, score as int) == null_searched::<B>(old(td)@, info.node::<NODE>()),
        -Score::MATE <= score <= Score::MATE,
        final(td)@.wf(),
        kept(old(td)@, final(td)@, info.ply as int),
        !NODE::ROOT ==> final(td)@.root_moves == old(td)@.root_moves,
        NODE::ROOT ==> uncharged(final(td)@) == uncharged(old(td)@) || is_stopped::<B>(final(td)@),
        NODE::ROOT && info.alpha < score < info.beta && offers_each_once::<B>(
            old(td)@,
            info.node::<NODE>(),
        ) ==> leads(final(td)@.root_moves, score as int) || is_stopped::<B>(final(td)@),
    decreases MAX_PLY - info.ply, info.depth, 6int, 0int,
{
    reveal(passed);
    reveal(unpassed);
    let ply = info.ply;
    if info.null_move_applies::<NODE, B>(td) {
        let reduction = info.null_move_reduction::<NODE>();
        td.board.make_null_move(&td.backend);
        proof {
            assert(td@ == passed::<B>(old(td)@));
            node_types_differ();
        }
        let null_score = -search::<NonPV, B>(
            td,
            -info.beta,
            -info.beta + 1,
            info.depth - reduction,
            ply + 1,
        );
        proof {
            pass_is_undone::<B>(old(td)@, ply as int, td@);
        }
        let ghost replied = td@;
        td.board.undo_null_move();
        proof {
            assert(td@ == unpassed::<B>(replied));
            kept_means(old(td)@, td@, ply as int);
        }
        if null_score >= info.beta {
            return info.beta;
        }
    } else {
        proof {
            kept_lightly(old(td)@, td@, ply as int);
        }
    }
    let ghost before = td@;
    let score = search_past_probes::<NODE, B>(td, info);
    proof {
        kept_twice(old(td)@, before, td@, ply as int);
    }
    score
}

/// The search of a node that a null move does not settle: it may be left to
/// the quiescence search, or the stored move may turn out to be singular.
fn search_past_probes<NODE: NodeType, B: Backend>(
    td: &mut ThreadData<B>,
    info: &NodeInfo,
) -> (score: i32)
    requires
        old(td)@.wf(),
        info.wf(old(td)@.board.current.in_check),
        NODE::ROOT ==> NODE::PV,
    ensures
        (final(td)@, score as int) == fully_searched::<B>(old(td)@, info.node::<NODE>()),
        -Score::MATE <= score <= Score::MATE,
        final(td)@.wf(),
        kept(old(td)@, final(td)@, info.ply as int),
        !NODE::ROOT ==> final(td)@.root_moves == old(td)@.root_moves,
        NODE::ROOT ==> uncharged(final(td)@) == uncharged(old(td)@) || is_stopped::<B>(final(td)@),
        NODE::ROOT && info.alpha < score < info.beta && offers_each_once::<B>(
            old(td)@,
            info.node::<NODE>(),
        ) ==> leads(final(td)@.root_moves, score as int) || is_stopped::<B>(final(td)@),
    decreases MAX_PLY - info.ply, info.depth, 5int, 0int,
{
    let ply = info.ply;
    if info.razoring::<NODE>(td.board.current.in_check) {
        return qsearch::<NODE, B>(td, info.alpha, info.beta, ply);
    }
    let singular = probe_singular::<NODE, B>(td, info);
    proof {
        kept_means(old(td)@, td@, ply as int);
    }
    let ghost before = td@;
    let tried = search_moves::<NODE, B>(td, info, singular);
    proof {
        kept_twice(old(td)@, before, td@, ply as int);
    }
    match tried {
        None => Score::ZERO,
        Some(tried) => {
            let ghost after = td@;
            proof {
                kept_means(old(td)@, td@, ply as int);
            }
            let score = finish_node::<NODE, B>(td, info, &tried);
            proof {
                kept_lightly(after, td@, ply as int);
                kept_twice(old(td)@, after, td@, ply as int);
                if td@.root_moves.len() == 0 {
                    reveal(leads);
                }
            }
            score
        },
    }
}

/// Leaves the stored move out to see whether any other move comes near its
/// score; if none does, it is singular.
fn probe_singular<NODE: NodeType, B: Backend>(td: &mut ThreadData<B>, info: &NodeInfo) -> (singular:
    bool)
    requires
        old(td)@.wf(),
        info.wf(old(td)@.board.current.in_check),
    ensures
        (final(td)@, singular) == singular_probed::<B>(old(td)@, info.node::<NODE>()),
        final(td)@.wf(),
        kept(old(td)@, final(td)@, info.ply as int),
        final(td)@.root_moves == old(td)@.root_moves,
        NODE::ROOT ==> final(td)@ == old(td)@ && !singular,
    decreases MAX_PLY - info.ply, info.depth, 4int, 0int,
{
    reveal(excluding);
    let ply = info.ply;
    if !info.singular_probe_applies::<NODE, B>(td) {
        proof {
            kept_lightly(old(td)@, td@, ply as int);
        }
        return false;
    }
    let tt_move = info.tt_move();
    let tt_score = match &info.entry {
        Some(e) => e.score,
        None => Score::NONE,
    };
    let s_beta: i32 = tt_score - info.depth * 2;
    td.stack[ply as usize].excluded = tt_move;
    proof {
        assert(td@.stack =~= excluding::<B>(old(td)@, ply as int, tt_move).stack);
        node_types_differ();
    }
    let s_score = search::<NonPV, B>(td, s_beta - 1, s_beta, info.depth / 2, ply);
    let ghost probed = td@;
    proof {
        probe_is_undone::<B>(old(td)@, ply as int, tt_move, td@);
    }
    td.stack[ply as usize].excluded = Move::null();
    assert(td@.stack =~= excluding::<B>(probed, ply as int, no_move()).stack);
    s_score < s_beta
}

/// Makes a move, searches it and takes it back: the first move of a node of
/// the principal variation with the full window, any other with a null window
/// and perhaps a reduced depth, and again as long as it does better than
/// expected.
#[verifier::rlimit(40)]
fn search_move<NODE: NodeType, B: Backend>(
    td: &mut ThreadData<B>,
    info: &NodeInfo,
    singular: bool,
    alpha: i32,
    move_count: i32,
    mv: Move,
) -> (score: i32)
    requires
        old(td)@.wf(),
        info.wf(old(td)@.board.current.in_check),
        -Score::INFINITE <= alpha < info.beta,
        1 <= move_count <= MAX_MOVES,
    ensures
        (final(td)@, score as int) == move_searched::<B>(
            old(td)@,
            info.node::<NODE>(),
            singular,
            alpha as int,
            move_count as int,
            mv,
        ),
        -Score::MATE <= score <= Score::MATE,
        final(td)@.wf(),
        kept(old(td)@, final(td)@, info.ply as int),
        final(td)@.root_moves == old(td)@.root_moves,
    decreases MAX_PLY - info.ply, info.depth, 0int, 0int,
{
    let ply = info.ply;
    let is_quiet = !mv.is_noisy();
    let quiet_score = if is_quiet {
        td.backend.quiet_score(td.board.current.threats, td.board.current.side_to_move, mv)
    } else {
        0
    };
    make_move(td, ply, mv);
    let ghost made = td@;
    proof {
        node_types_differ();
    }
    let gives_check = td.board.current.in_check;
    let depth: i32 = info.depth - 1 + one_if(singular) + one_if(gives_check && !singular);
    let score: i32;
    if NODE::PV && move_count == 1 {
        score = -search::<PV, B>(td, -info.beta, -alpha, depth, ply + 1);
    } else {
        let base = td.backend.reduction_base(info.depth, move_count);
        let reduction = info.reduction::<NODE>(
            move_count,
            is_quiet,
            quiet_score,
            base,
            gives_check,
        );
        let first: i32 = -search::<NonPV, B>(td, -alpha - 1, -alpha, depth - reduction, ply + 1);
        let ghost once = td@;
        let second: i32;
        if first > alpha && reduction > 0 {
            second = -search::<NonPV, B>(td, -alpha - 1, -alpha, depth, ply + 1);
            proof {
                kept_twice(made, once, td@, ply + 1);
            }
        } else {
            second = first;
        }
        let ghost twice = td@;
        if second > alpha && NODE::PV {
            score = -search::<PV, B>(td, -info.beta, -alpha, depth, ply + 1);
            proof {
                kept_twice(made, twice, td@, ply + 1);
            }
        } else {
            score = second;
        }
    }
    proof {
        kept_means(made, td@, ply + 1);
        line_is_undone::<B>(old(td)@, ply as int, mv, td@);
    }
    undo_move(td, mv);
    score
}

/// Tries the moves of a node one after the other, until there are none left or
/// one is too good for the opponent to allow. Nothing comes back when the
/// search is told to stop meanwhile.
#[verifier::rlimit(30)]
fn search_moves<NODE: NodeType, B: Backend>(
    td: &mut ThreadData<B>,
    info: &NodeInfo,
    singular: bool,
) -> (tried: Option<Tried>)
    requires
        old(td)@.wf(),
        info.wf(old(td)@.board.current.in_check),
        NODE::ROOT ==> NODE::PV,
    ensures
        ({
            let (t, end) = moves_tried::<B>(
                old(td)@,
                info.node::<NODE>(),
                singular,
                no_progress(info.node::<NODE>()),
            );
            final(td)@ == t && match tried {
                Some(p) => end == Some(p@) && p.wf(),
                None => end is None,
            }
        }),
        final(td)@.wf(),
        kept(old(td)@, final(td)@, info.ply as int),
        !NODE::ROOT ==> final(td)@.root_moves == old(td)@.root_moves,
        NODE::ROOT && tried is Some ==> uncharged(final(td)@) == uncharged(old(td)@),
        tried is None ==> is_stopped::<B>(final(td)@),
        NODE::ROOT && !singular && offers_each_once::<B>(old(td)@, info.node::<NODE>()) ==> (
        tried matches Some(p) ==> (info.alpha < p.best_score < info.beta ==> leads(
            final(td)@.root_moves,
            p.best_score as int,
        )) && (final(td)@.root_moves.len() > 0 ==> p.move_count > 0)),
    decreases MAX_PLY - info.ply, info.depth, 3int, MAX_MOVES as int,
{
    let ply = info.ply;
    let tt_move = info.tt_move();
    let mut tried = Tried {
        alpha: info.alpha,
        best_score: -Score::INFINITE,
        best_move: Move::null(),
        bound: Bound::Upper,
        move_count: 0,
        quiets_searched: 0,
        quiet_moves: Vec::new(),
        noisy_moves: Vec::new(),
        picker: MovePicker::new(tt_move),
    };
    let ghost node = info.node::<NODE>();
    let ghost goal = moves_tried::<B>(td@, node, singular, no_progress(node));
    let ghost all = handed::<B>(td@, node, false, no_progress(node));
    let ghost offered = NODE::ROOT && !singular && offers_each_once::<B>(td@, node);
    let ghost mut seen: Seq<Move> = Seq::empty();
    proof {
        if offered {
            course_begins::<B>(td@, node);
        }
        assert(tried@ == no_progress(node));
        kept_lightly(old(td)@, td@, ply as int);
    }
    loop
        invariant
            goal == moves_tried::<B>(
                old(td)@,
                info.node::<NODE>(),
                singular,
                no_progress(info.node::<NODE>()),
            ),
            node == info.node::<NODE>(),
            goal == moves_tried::<B>(td@, node, singular, tried@),
            td@.wf(),
            info.wf(td@.board.current.in_check),
            td@.board == old(td)@.board,
            ply == info.ply,
            tried.wf(),
            tried.alpha < info.beta,
            NODE::ROOT ==> NODE::PV,
            kept(old(td)@, td@, ply as int),
            !NODE::ROOT ==> td@.root_moves == old(td)@.root_moves,
            NODE::ROOT ==> uncharged(td@) == uncharged(old(td)@),
            truthful(node, tried@),
            tried.best_score < info.beta,
            offered == (NODE::ROOT && !singular && offers_each_once::<B>(old(td)@, node)),
            offered ==> on_course::<B>(td@, node, tried@, all, seen),
        decreases MAX_MOVES - tried.picker.handed_out,
    {
        let ghost before = td@;
        let ghost before_pick = tried@;
        let next = tried.picker.next::<NODE, B>(td, false, ply);
        proof {
            kept_lightly(before, td@, ply as int);
            kept_twice(old(td)@, before, td@, ply as int);
        }
        let mv = match next {
            Some(mv) => mv,
            None => {
                proof {
                    if offered {
                        course_ends::<B>(before, node, tried@, all, seen);
                    }
                }
                return Some(tried);
            },
        };
        let ghost picked_state = td@;
        proof {
            assert(tried@ == Progress { picker: tried.picker, ..before_pick });
            if offered {
                course_is_in_order::<B>(before, node, before_pick, all, seen, tried.picker);
            }
            considering_is_truthful::<B>(td@, node, singular, tried@, mv);
        }
        let verdict = consider_move::<NODE, B>(td, info, singular, &mut tried, mv);
        proof {
            kept_twice(old(td)@, picked_state, td@, ply as int);
            kept_means(old(td)@, td@, ply as int);
        }
        proof {
            if offered && verdict == Verdict::GoOn {
                let stage = tried.picker.stage;
                assert(node.ply == 0) by {
                    reveal(on_course);
                }
                course_goes_on::<B>(before, node, before_pick, all, seen, mv, stage);
                seen = seen.push(mv);
            }
        }
        match verdict {
            Verdict::GoOn => {},
            Verdict::Cutoff => {
                return Some(tried);
            },
            Verdict::Stopped => {
                return None;
            },
        }
    }
}

/// Passes a move over, skips it, or searches it and compares it with the best
/// so far.
#[verifier::rlimit(40)]
fn consider_move<NODE: NodeType, B: Backend>(
    td: &mut ThreadData<B>,
    info: &NodeInfo,
    singular: bool,
    tried: &mut Tried,
    mv: Move,
) -> (verdict: Verdict)
    requires
        old(td)@.wf(),
        info.wf(old(td)@.board.current.in_check),
        NODE::ROOT ==> NODE::PV,
        old(tried).wf(),
        old(tried).move_count < old(tried).picker.handed_out,
        old(tried).alpha < info.beta,
    ensures
        (final(td)@, final(tried)@, verdict) == move_considered::<B>(
            old(td)@,
            info.node::<NODE>(),
            singular,
            old(tried)@,
            mv,
        ),
        final(td)@.wf(),
        kept(old(td)@, final(td)@, info.ply as int),
        !NODE::ROOT ==> final(td)@.root_moves == old(td)@.root_moves,
        NODE::ROOT && verdict != Verdict::Stopped ==> uncharged(final(td)@) == uncharged(
            old(td)@,
        ),
        verdict == Verdict::Stopped ==> is_stopped::<B>(final(td)@),
        NODE::ROOT && verdict == Verdict::GoOn && mv.present() && in_order(
            old(td)@,
            info.node::<NODE>(),
            old(tried)@,
        ) ==> carries_on(
            old(td)@.root_moves,
            (old(tried)@),
            final(td)@.root_moves,
            final(tried)@,
            info.node::<NODE>(),
            mv,
        ),
        verdict != Verdict::Stopped ==> final(tried).wf(),
        final(tried).alpha < info.beta,
        final(tried).picker == old(tried).picker,
    decreases MAX_PLY - info.ply, info.depth, 2int, 0int,
{
    let ply = info.ply;
    let i: usize = ply as usize;
    let ghost node = info.node::<NODE>();
    proof {
        kept_lightly(old(td)@, td@, ply as int);
    }
    if NODE::ROOT && !is_root_move(td, mv) {
        proof {
            if in_order(old(td)@, node, old(tried)@) {
                lemma_passing_over_carries_on::<B>(td@, node, tried@, mv);
            }
        }
        return Verdict::GoOn;
    }
    if mv == td.stack[i].excluded {
        proof {
            reveal(in_order);
        }
        return Verdict::GoOn;
    }
    tried.move_count = tried.move_count + 1;
    td.stack[i].move_count = tried.move_count;
    proof {
        assert(td@ == counted::<B>(old(td)@, ply as int, tried.move_count as int)) by {
            reveal(counted);
            assert(td@.stack =~= counted::<B>(
                old(td)@,
                ply as int,
                tried.move_count as int,
            ).stack);
        }
        counting_keeps::<B>(old(td)@, ply as int, tried.move_count as int);
        if NODE::ROOT {
            root_window_stays::<B>(old(td)@, td@, mv);
        }
        kept_means(old(td)@, td@, ply as int);
        if NODE::ROOT && in_order(old(td)@, node, old(tried)@) {
            lemma_counting_keeps_order::<B>(old(td)@, node, old(tried)@, tried@);
        }
        assert(Progress { move_count: tried@.move_count - 1, ..tried@ } == old(tried)@);
    }
    if info.skips::<NODE>(tried, mv, td.board.current.in_check) {
        return Verdict::GoOn;
    }
    let ghost before = td@;
    let verdict = compare_move::<NODE, B>(td, info, singular, tried, mv);
    proof {
        kept_twice(old(td)@, before, td@, ply as int);
    }
    verdict
}

/// Searches a move and compares it with the best so far.
#[verifier::rlimit(30)]
fn compare_move<NODE: NodeType, B: Backend>(
    td: &mut ThreadData<B>,
    info: &NodeInfo,
    singular: bool,
    tried: &mut Tried,
    mv: Move,
) -> (verdict: Verdict)
    requires
        old(td)@.wf(),
        info.wf(old(td)@.board.current.in_check),
        NODE::ROOT ==> NODE::PV && in_root_window::<B>(old(td)@, mv),
        old(tried).pending(),
        old(tried).alpha < info.beta,
    ensures
        (final(td)@, final(tried)@, verdict) == move_compared::<B>(
            old(td)@,
            info.node::<NODE>(),
            singular,
            old(tried)@,
            mv,
        ),
        final(td)@.wf(),
        kept(old(td)@, final(td)@, info.ply as int),
        !NODE::ROOT ==> final(td)@.root_moves == old(td)@.root_moves,
        NODE::ROOT && verdict != Verdict::Stopped ==> uncharged(final(td)@) == uncharged(
            old(td)@,
        ),
        verdict == Verdict::Stopped ==> is_stopped::<B>(final(td)@),
        NODE::ROOT && verdict == Verdict::GoOn && mv.present() && in_order(
            old(td)@,
            info.node::<NODE>(),
            old(tried)@,
        ) ==> carries_on(
            old(td)@.root_moves,
            (Progress { move_count: old(tried)@.move_count - 1, ..old(tried)@ }),
            final(td)@.root_moves,
            final(tried)@,
            info.node::<NODE>(),
            mv,
        ),
        verdict != Verdict::Stopped ==> final(tried).wf(),
        final(tried).alpha < info.beta,
        final(tried).picker == old(tried).picker,
    decreases MAX_PLY - info.ply, info.depth, 1int, 0int,
{
    let ply = info.ply;
    let initial_nodes = td.nodes;
    let singular_ext = mv == info.tt_move() && singular;
    let score = search_move::<NODE, B>(
        td,
        info,
        singular_ext,
        tried.alpha,
        tried.move_count,
        mv,
    );
    let ghost replied = td@;
    let stopped = td.backend.stopped();
    proof {
        asking_keeps_stopped::<B>(replied);
        kept_lightly(replied, td@, ply as int);
        kept_twice(old(td)@, replied, td@, ply as int);
        kept_means(old(td)@, td@, ply as int);
    }
    if stopped {
        return Verdict::Stopped;
    }
    let ghost polled_state = td@;
    proof {
        if NODE::ROOT {
            root_window_stays::<B>(old(td)@, polled_state, mv);
            recording_charges::<B>(
                old(td)@,
                polled_state,
                info.node::<NODE>(),
                tried@,
                mv,
                score as int,
            );
        }
        recording_keeps::<B>(
            polled_state,
            info.node::<NODE>(),
            tried@,
            mv,
            score as int,
            initial_nodes,
        );
    }
    let ghost p = tried@;
    record_move::<NODE, B>(td, info, tried, mv, score, initial_nodes);
    proof {
        kept_twice(old(td)@, polled_state, td@, ply as int);
    }
    if tried.advance(mv, score, info.beta) {
        return Verdict::Cutoff;
    }
    tried.remember(mv);
    proof {
        let node = info.node::<NODE>();
        if NODE::ROOT && mv.present() && in_order(old(td)@, node, p) {
            reveal(carries_on);
            reveal(in_order);
            let before = Progress { move_count: p.move_count - 1, ..p };
            assert forall|seen: Seq<Move>| #[trigger]
                standing(old(td)@.root_moves, node, before, seen) && !seen.contains(
                    mv,
                ) implies standing(td@.root_moves, node, tried@, seen.push(mv)) by {
                recording_keeps_standing::<B>(
                    polled_state,
                    node,
                    p,
                    seen,
                    mv,
                    score as int,
                    initial_nodes,
                );
            }
        }
    }
    Verdict::GoOn
}

proof fn lemma_passing_over_carries_on<B: Backend>(t: Thread<B>, node: Node, p: Progress, mv: Move)
    requires
        in_order(t, node, p),
        !in_root_window::<B>(t, mv),
    ensures
        carries_on(t.root_moves, p, t.root_moves, p, node, mv),
{
    reveal(carries_on);
    reveal(in_order);
    assert forall|i: int| 0 <= i < t.root_moves.len() implies (#[trigger] t.root_moves[i]).mv
        != mv by {}
    assert forall|seen: Seq<Move>| #[trigger]
        standing(t.root_moves, node, p, seen) && !seen.contains(mv) implies standing(
        t.root_moves,
        node,
        p,
        seen.push(mv),
    ) by {
        strangers_do_not_matter(t.root_moves, node, p, seen, mv);
    }
}

proof fn lemma_counting_keeps_order<B: Backend>(t: Thread<B>, node: Node, p: Progress, q: Progress)
    requires
        in_order(t, node, p),
        t.sized(),
        0 <= node.ply < MAX_PLY,
        q == (Progress { move_count: q.move_count, ..p }),
    ensures
        in_order(counted::<B>(t, node.ply, q.move_count), node, q),
{
    reveal(in_order);
    counting_keeps::<B>(t, node.ply, q.move_count);
    whole_root_stays(t, counted::<B>(t, node.ply, q.move_count));
    assert(counted::<B>(t, node.ply, q.move_count).root_moves == t.root_moves) by {
        reveal(counted);
    }
}

} // verus!
