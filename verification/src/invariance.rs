//! A search leaves as it found it what `kept` says, whatever the rest of the
//! engine does.
use crate::backend::Backend;
use crate::board::BoardState;
use crate::frame::{
    counting_keeps, entering_keeps, finishing_tells_the_backend_only, kept, kept_lightly,
    kept_means, kept_twice, line_is_undone, pass_is_undone, probe_is_undone, recording_keeps,
    root_window_stays,
};
use crate::model::{
    aspired, counted, drawn, excluding, extension, fully_searched, halted, hash_move,
    in_root_window, late_reduction, line_cleared, line_extended, looked_up, move_compared,
    move_considered, move_recorded, move_searched, moved, moves_tried, no_progress, node_entered,
    node_finished, node_of, node_searched, null_reduction, null_searched, passed, picked,
    picker_after, polled, probes_singular, quiesced, quiet_moves_tried, quiet_result, raw_value,
    razored, searched, singular_beta, singular_probed, timed, tries_null_move, unmoved, unpassed,
    widened_down, widened_up, Node, Progress, QuietProgress, Thread, Verdict,
};
use crate::movepick::{fresh_picker, MovePicker};
use crate::stack::StackEntry;
use crate::thread::ThreadState;
use crate::transposition::TtEntry;
use crate::types::{
    larger, mate_score, mated_score, no_move, smaller, Move, Score, MAX_MOVES, MAX_PLY,
};
use vstd::prelude::*;

verus! {

proof fn lemma_moved_is_sized<B: Backend>(t: Thread<B>, ply: int, mv: Move)
    requires
        t.sized(),
        0 <= ply < MAX_PLY,
    ensures
        moved::<B>(t, ply, mv).sized(),
        moved::<B>(t, ply, mv).root_moves == t.root_moves,
{
    reveal(moved);
}

/// A quiescence search keeps the board, the network, and everything else that
/// is not its own.
pub proof fn quiescence_keeps<B: Backend>(t: Thread<B>, pv: bool, alpha: int, beta: int, ply: int)
    requires
        t.sized(),
        0 <= ply <= MAX_PLY,
    ensures
        kept(t, quiesced::<B>(t, pv, alpha, beta, ply).0, ply),
        quiesced::<B>(t, pv, alpha, beta, ply).0.root_moves == t.root_moves,
    decreases MAX_PLY - ply, 1int, 0int,
{
    let t0 = if pv {
        ThreadState {
            sel_depth: larger(t.sel_depth as int, ply) as i32,
            ..line_cleared::<B>(t, ply)
        }
    } else {
        t
    };
    let (t1, over) = timed::<B>(t0);
    kept_lightly(t, t1, ply);
    if over {
        kept_lightly(t, halted::<B>(t1), ply);
    } else if !drawn::<B>(t1, ply) && ply < MAX_PLY - 1 {
        let (t2, entry) = looked_up::<B>(t1, ply);
        kept_lightly(t, t2, ply);
        kept_means(t, t2, ply);
        let in_check = t2.board.current.in_check;
        let raw = raw_value::<B>(t2, entry);
        let start = QuietProgress {
            alpha: if in_check {
                alpha
            } else {
                larger(alpha, raw)
            },
            best_score: if in_check {
                -Score::INFINITE
            } else {
                raw
            },
            best_move: no_move(),
            move_count: 0,
            picker: fresh_picker(no_move(), true),
        };
        quiet_moves_keep::<B>(t2, pv, beta, ply, start);
        let (t3, end) = quiet_moves_tried::<B>(t2, pv, beta, ply, start);
        kept_twice(t, t2, t3, ply);
        if let Some(p) = end {
            reveal(quiet_result);
            let t4 = quiet_result::<B>(t3, pv, beta, ply, raw, p).0;
            kept_lightly(t3, t4, ply);
            kept_twice(t, t3, t4, ply);
        }
    }
}

proof fn quiet_moves_keep<B: Backend>(
    t: Thread<B>,
    pv: bool,
    beta: int,
    ply: int,
    p: QuietProgress,
)
    requires
        t.sized(),
        0 <= ply < MAX_PLY - 1,
    ensures
        kept(t, quiet_moves_tried::<B>(t, pv, beta, ply, p).0, ply),
        quiet_moves_tried::<B>(t, pv, beta, ply, p).0.root_moves == t.root_moves,
    decreases MAX_PLY - ply, 0int, MAX_MOVES - p.picker.handed_out,
{
    let (t1, next) = picked::<B>(t, p.picker, pv, false, !t.board.current.in_check, ply);
    kept_lightly(t, t1, ply);
    kept_means(t, t1, ply);
    if let Some((mv, stage)) = next {
        let made = moved::<B>(t1, ply, mv);
        lemma_moved_is_sized::<B>(t1, ply, mv);
        quiescence_keeps::<B>(made, pv, -beta, -p.alpha, ply + 1);
        let (t2, reply) = quiesced::<B>(made, pv, -beta, -p.alpha, ply + 1);
        line_is_undone::<B>(t1, ply, mv, t2);
        let undone = unmoved::<B>(t2);
        kept_twice(t, t1, undone, ply);
        let (t3, stopped) = polled::<B>(undone);
        kept_lightly(undone, t3, ply);
        kept_twice(t, undone, t3, ply);
        kept_means(t, t3, ply);
        let score = -reply;
        let better = score > p.best_score;
        let up = better && score > p.alpha;
        let t4 = if up && pv {
            line_extended::<B>(t3, ply, mv)
        } else {
            t3
        };
        kept_lightly(t3, t4, ply);
        kept_twice(t, t3, t4, ply);
        kept_means(t, t4, ply);
        let q = QuietProgress {
            alpha: if up && score < beta {
                score
            } else {
                p.alpha
            },
            best_score: if better {
                score
            } else {
                p.best_score
            },
            best_move: if up {
                mv
            } else {
                p.best_move
            },
            move_count: p.move_count + 1,
            picker: picker_after(p.picker, stage),
        };
        quiet_moves_keep::<B>(t4, pv, beta, ply, q);
        let t5 = quiet_moves_tried::<B>(t4, pv, beta, ply, q).0;
        kept_twice(t, t4, t5, ply);
    }
}

/// A search keeps the board, the network, and everything else that is not its
/// own; only at the root does it change the list of root moves.
pub proof fn search_keeps<B: Backend>(
    t: Thread<B>,
    pv: bool,
    root: bool,
    alpha: int,
    beta: int,
    depth: int,
    ply: int,
)
    requires
        t.sized(),
        0 <= ply <= MAX_PLY,
        root ==> ply == 0,
    ensures
        kept(t, searched::<B>(t, pv, root, alpha, beta, depth, ply).0, ply),
        !root ==> searched::<B>(t, pv, root, alpha, beta, depth, ply).0.root_moves == t.root_moves,
    decreases MAX_PLY - ply, depth, 8int, 0int,
{
    let t0 = if pv && !root {
        line_cleared::<B>(t, ply)
    } else {
        t
    };
    let (t1, stopped) = polled::<B>(t0);
    kept_lightly(t, t1, ply);
    kept_means(t, t1, ply);
    if !stopped && depth <= 0 {
        quiescence_keeps::<B>(t1, pv, alpha, beta, ply);
        kept_twice(t, t1, quiesced::<B>(t1, pv, alpha, beta, ply).0, ply);
    } else if !stopped {
        let (t2, over) = timed::<B>(t1);
        kept_lightly(t, t2, ply);
        kept_means(t, t2, ply);
        if over {
            kept_lightly(t, halted::<B>(t2), ply);
        } else if root || (!drawn::<B>(t2, ply) && ply < MAX_PLY - 1) {
            let a = if root {
                alpha
            } else {
                larger(alpha, mated_score(ply))
            };
            let b = if root {
                beta
            } else {
                smaller(beta, mate_score(ply + 1))
            };
            node_keeps::<B>(t2, pv, root, a, b, depth, ply);
            kept_twice(t, t2, node_searched::<B>(t2, pv, root, a, b, depth, ply).0, ply);
        }
    }
}

proof fn node_keeps<B: Backend>(
    t: Thread<B>,
    pv: bool,
    root: bool,
    alpha: int,
    beta: int,
    depth: int,
    ply: int,
)
    requires
        t.sized(),
        0 <= ply < MAX_PLY - 1,
        depth >= 1,
    ensures
        kept(t, node_searched::<B>(t, pv, root, alpha, beta, depth, ply).0, ply),
        !root ==> node_searched::<B>(t, pv, root, alpha, beta, depth, ply).0.root_moves
            == t.root_moves,
    decreases MAX_PLY - ply, depth, 7int, 0int,
{
    let (t1, entry) = looked_up::<B>(t, ply);
    kept_lightly(t, t1, ply);
    kept_means(t, t1, ply);
    let node = node_of::<B>(t1, pv, root, alpha, beta, depth, ply, entry);
    let t2 = node_entered::<B>(t1, node);
    entering_keeps::<B>(t1, node);
    kept_twice(t, t1, t2, ply);
    kept_means(t, t2, ply);
    null_stage_keeps::<B>(t2, node);
    kept_twice(t, t2, null_searched::<B>(t2, node).0, ply);
}

proof fn null_stage_keeps<B: Backend>(t: Thread<B>, node: Node)
    requires
        t.sized(),
        0 <= node.ply < MAX_PLY - 1,
        node.depth >= 1,
    ensures
        kept(t, null_searched::<B>(t, node).0, node.ply),
        !node.root ==> null_searched::<B>(t, node).0.root_moves == t.root_moves,
    decreases MAX_PLY - node.ply, node.depth, 6int, 0int,
{
    if tries_null_move::<B>(t, node) {
        let gone = passed::<B>(t);
        let depth = node.depth - null_reduction(node);
        assert(gone.sized() && gone.root_moves == t.root_moves) by {
            reveal(passed);
        }
        search_keeps::<B>(gone, false, false, -node.beta, -node.beta + 1, depth, node.ply + 1);
        let t1 = searched::<B>(
            gone,
            false,
            false,
            -node.beta,
            -node.beta + 1,
            depth,
            node.ply + 1,
        ).0;
        pass_is_undone::<B>(t, node.ply, t1);
        let t2 = unpassed::<B>(t1);
        kept_means(t, t2, node.ply);
        full_stage_keeps::<B>(t2, node);
        kept_twice(t, t2, fully_searched::<B>(t2, node).0, node.ply);
    } else {
        full_stage_keeps::<B>(t, node);
    }
}

proof fn full_stage_keeps<B: Backend>(t: Thread<B>, node: Node)
    requires
        t.sized(),
        0 <= node.ply < MAX_PLY - 1,
        node.depth >= 1,
    ensures
        kept(t, fully_searched::<B>(t, node).0, node.ply),
        !node.root ==> fully_searched::<B>(t, node).0.root_moves == t.root_moves,
    decreases MAX_PLY - node.ply, node.depth, 5int, 0int,
{
    if razored(node, t.board.current.in_check) {
        quiescence_keeps::<B>(t, node.pv, node.alpha, node.beta, node.ply);
    } else {
        probe_keeps::<B>(t, node);
        let (t1, singular) = singular_probed::<B>(t, node);
        kept_means(t, t1, node.ply);
        let start = no_progress(node);
        moves_keep::<B>(t1, node, singular, start);
        let (t2, end) = moves_tried::<B>(t1, node, singular, start);
        kept_twice(t, t1, t2, node.ply);
        if let Some(p) = end {
            let t3 = node_finished::<B>(t2, node, p).0;
            finishing_tells_the_backend_only::<B>(t2, node, p);
            kept_lightly(t2, t3, node.ply);
            kept_twice(t, t2, t3, node.ply);
        }
    }
}

proof fn probe_keeps<B: Backend>(t: Thread<B>, node: Node)
    requires
        t.sized(),
        0 <= node.ply < MAX_PLY - 1,
        node.depth >= 1,
    ensures
        kept(t, singular_probed::<B>(t, node).0, node.ply),
        singular_probed::<B>(t, node).0.root_moves == t.root_moves,
    decreases MAX_PLY - node.ply, node.depth, 4int, 0int,
{
    if probes_singular::<B>(t, node) {
        reveal(probes_singular);
        reveal(excluding);
        let mv = hash_move(node.entry);
        let beta = singular_beta(node);
        let without = excluding::<B>(t, node.ply, mv);
        search_keeps::<B>(without, false, false, beta - 1, beta, node.depth / 2, node.ply);
        let probed = searched::<B>(
            without,
            false,
            false,
            beta - 1,
            beta,
            node.depth / 2,
            node.ply,
        ).0;
        probe_is_undone::<B>(t, node.ply, mv, probed);
    } else {
        kept_lightly(t, t, node.ply);
    }
}

proof fn moves_keep<B: Backend>(t: Thread<B>, node: Node, singular: bool, p: Progress)
    requires
        t.sized(),
        0 <= node.ply < MAX_PLY - 1,
        node.depth >= 1,
    ensures
        kept(t, moves_tried::<B>(t, node, singular, p).0, node.ply),
        !node.root ==> moves_tried::<B>(t, node, singular, p).0.root_moves == t.root_moves,
    decreases MAX_PLY - node.ply, node.depth, 3int, MAX_MOVES - p.picker.handed_out,
{
    let (t1, next) = picked::<B>(t, p.picker, node.pv, node.root, false, node.ply);
    kept_lightly(t, t1, node.ply);
    kept_means(t, t1, node.ply);
    if let Some((mv, stage)) = next {
        let picker = picker_after(p.picker, stage);
        let p1 = Progress { picker, ..p };
        considering_keeps::<B>(t1, node, singular, p1, mv);
        let (t2, p2, verdict) = move_considered::<B>(t1, node, singular, p1, mv);
        kept_twice(t, t1, t2, node.ply);
        kept_means(t, t2, node.ply);
        if verdict == Verdict::GoOn {
            let p3 = Progress { picker, ..p2 };
            moves_keep::<B>(t2, node, singular, p3);
            kept_twice(t, t2, moves_tried::<B>(t2, node, singular, p3).0, node.ply);
        }
    }
}

proof fn considering_keeps<B: Backend>(
    t: Thread<B>,
    node: Node,
    singular: bool,
    p: Progress,
    mv: Move,
)
    requires
        t.sized(),
        0 <= node.ply < MAX_PLY - 1,
        node.depth >= 1,
    ensures
        kept(t, move_considered::<B>(t, node, singular, p, mv).0, node.ply),
        !node.root ==> move_considered::<B>(t, node, singular, p, mv).0.root_moves == t.root_moves,
    decreases MAX_PLY - node.ply, node.depth, 2int, 0int,
{
    kept_lightly(t, t, node.ply);
    if !((node.root && !in_root_window::<B>(t, mv)) || mv == t.stack[node.ply].excluded) {
        let p1 = Progress { move_count: p.move_count + 1, ..p };
        let t1 = counted::<B>(t, node.ply, p1.move_count);
        counting_keeps::<B>(t, node.ply, p1.move_count);
        kept_means(t, t1, node.ply);
        assert(t1.root_moves == t.root_moves) by {
            reveal(counted);
        }
        if node.root {
            root_window_stays::<B>(t, t1, mv);
        }
        comparing_keeps::<B>(t1, node, singular, p1, mv);
        kept_twice(t, t1, move_compared::<B>(t1, node, singular, p1, mv).0, node.ply);
    }
}

proof fn comparing_keeps<B: Backend>(
    t: Thread<B>,
    node: Node,
    singular: bool,
    p: Progress,
    mv: Move,
)
    requires
        t.sized(),
        0 <= node.ply < MAX_PLY - 1,
        node.depth >= 1,
        node.root ==> in_root_window::<B>(t, mv),
    ensures
        kept(t, move_compared::<B>(t, node, singular, p, mv).0, node.ply),
        !node.root ==> move_compared::<B>(t, node, singular, p, mv).0.root_moves == t.root_moves,
    decreases MAX_PLY - node.ply, node.depth, 1int, 0int,
{
    let single = singular && mv == hash_move(node.entry);
    line_keeps::<B>(t, node, single, p.alpha, p.move_count, mv);
    let (t1, score) = move_searched::<B>(t, node, single, p.alpha, p.move_count, mv);
    let (t2, stopped) = polled::<B>(t1);
    kept_lightly(t1, t2, node.ply);
    kept_twice(t, t1, t2, node.ply);
    kept_means(t, t2, node.ply);
    if node.root {
        root_window_stays::<B>(t, t2, mv);
    }
    let t3 = move_recorded::<B>(t2, node, p, mv, score, t.nodes);
    recording_keeps::<B>(t2, node, p, mv, score, t.nodes);
    kept_twice(t, t2, t3, node.ply);
}

/// Making a move, searching it and taking it back keeps what a search from the
/// ply must keep, and the list of root moves.
pub proof fn line_keeps<B: Backend>(
    t: Thread<B>,
    node: Node,
    singular: bool,
    alpha: int,
    move_count: int,
    mv: Move,
)
    requires
        t.sized(),
        0 <= node.ply < MAX_PLY - 1,
        node.depth >= 1,
    ensures
        kept(t, move_searched::<B>(t, node, singular, alpha, move_count, mv).0, node.ply),
        move_searched::<B>(t, node, singular, alpha, move_count, mv).0.root_moves == t.root_moves,
    decreases MAX_PLY - node.ply, node.depth, 0int, 0int,
{
    let quiet_score = if mv.noisy() {
        0
    } else {
        B::quiet_score_model(
            t.backend,
            t.board.current.threats,
            t.board.current.side_to_move,
            mv,
        ) as int
    };
    let t1 = moved::<B>(t, node.ply, mv);
    lemma_moved_is_sized::<B>(t, node.ply, mv);
    let gives_check = t1.board.current.in_check;
    let depth = node.depth - 1 + extension(singular, gives_check);
    let ply = node.ply + 1;
    if node.pv && move_count == 1 {
        search_keeps::<B>(t1, true, false, -node.beta, -alpha, depth, ply);
        let t2 = searched::<B>(t1, true, false, -node.beta, -alpha, depth, ply).0;
        line_is_undone::<B>(t, node.ply, mv, t2);
    } else {
        let reduction = late_reduction(
            node,
            move_count,
            !mv.noisy(),
            quiet_score,
            B::reduction_base_model(t1.backend, node.depth, move_count) as int,
            gives_check,
        );
        search_keeps::<B>(t1, false, false, -alpha - 1, -alpha, depth - reduction, ply);
        let (t2, reply2) = searched::<B>(
            t1,
            false,
            false,
            -alpha - 1,
            -alpha,
            depth - reduction,
            ply,
        );
        kept_means(t1, t2, ply);
        search_keeps::<B>(t2, false, false, -alpha - 1, -alpha, depth, ply);
        let (t3, reply3) = if -reply2 > alpha && reduction > 0 {
            searched::<B>(t2, false, false, -alpha - 1, -alpha, depth, ply)
        } else {
            (t2, reply2)
        };
        if -reply2 > alpha && reduction > 0 {
            kept_twice(t1, t2, t3, ply);
        }
        kept_means(t1, t3, ply);
        search_keeps::<B>(t3, true, false, -node.beta, -alpha, depth, ply);
        let (t4, reply4) = if -reply3 > alpha && node.pv {
            searched::<B>(t3, true, false, -node.beta, -alpha, depth, ply)
        } else {
            (t3, reply3)
        };
        if -reply3 > alpha && node.pv {
            kept_twice(t1, t3, t4, ply);
        }
        line_is_undone::<B>(t, node.ply, mv, t4);
    }
}

/// However often the root is searched with wider windows, everything is kept but
/// the scores of the root moves.
pub proof fn aspiration_keeps<B: Backend>(t: Thread<B>, window: (int, int, int), depth: int)
    requires
        t.sized(),
    ensures
        kept(t, aspired::<B>(t, window, depth), 0),
    decreases window.0 + Score::INFINITE, Score::INFINITE - window.1,
{
    let (alpha, beta, delta) = window;
    search_keeps::<B>(t, true, true, alpha, beta, depth, 0);
    let (t1, score) = searched::<B>(t, true, true, alpha, beta, depth, 0);
    let (t2, stopped) = polled::<B>(t1);
    kept_lightly(t1, t2, 0);
    kept_twice(t, t1, t2, 0);
    kept_means(t, t2, 0);
    let down = widened_down(score, alpha, beta, delta);
    let up = widened_up(score, alpha, beta, delta);
    if !stopped && score <= alpha && down.0 < alpha {
        aspiration_keeps::<B>(t2, down, depth);
        kept_twice(t, t2, aspired::<B>(t2, down, depth), 0);
    }
    if !stopped && score > alpha && score >= beta && up.1 > beta {
        aspiration_keeps::<B>(t2, up, depth);
        kept_twice(t, t2, aspired::<B>(t2, up, depth), 0);
    }
}

/// Something of the engine's state that asking for moves and stored entries,
/// storing entries, and the clock do not change.
pub open spec fn out_of_reach<B: Backend, T>(part: spec_fn(B::State) -> T) -> bool {
    &&& forall|
        state: B::State,
        picker: MovePicker,
        board: BoardState,
        stack: Seq<StackEntry>,
        pv: bool,
        root: bool,
        skip_quiets: bool,
        ply: int,
    |
        part((#[trigger] B::pick_model(state, picker, board, stack, pv, root, skip_quiets, ply)).0)
            == part(state)
    &&& forall|state: B::State, hash: u64, halfmove_clock: u8, ply: int|
        part((#[trigger] B::tt_read_model(state, hash, halfmove_clock, ply)).0) == part(state)
    &&& forall|state: B::State, hash: u64, entry: TtEntry, ply: int, tt_pv: bool, force: bool|
        part(#[trigger] B::tt_write_model(state, hash, entry, ply, tt_pv, force)) == part(state)
    &&& forall|state: B::State, hash: u64|
        part(#[trigger] B::prefetch_model(state, hash)) == part(state)
    &&& forall|state: B::State| part((#[trigger] B::stopped_model(state)).0) == part(state)
    &&& forall|state: B::State| part(#[trigger] B::stop_model(state)) == part(state)
    &&& forall|state: B::State, nodes: u64, completed_depth: i32|
        part((#[trigger] B::check_time_model(state, nodes, completed_depth)).0) == part(state)
}

/// A quiescence search tells no history and no correction table anything: what
/// neither moves and stored entries nor the clock change, it does not change
/// either.
pub proof fn quiescence_teaches_nothing<B: Backend, T>(
    part: spec_fn(B::State) -> T,
    t: Thread<B>,
    pv: bool,
    alpha: int,
    beta: int,
    ply: int,
)
    requires
        out_of_reach::<B, T>(part),
        0 <= ply <= MAX_PLY,
    ensures
        part(quiesced::<B>(t, pv, alpha, beta, ply).0.backend) == part(t.backend),
    decreases MAX_PLY - ply, 1int, 0int,
{
    let t0 = if pv {
        ThreadState {
            sel_depth: larger(t.sel_depth as int, ply) as i32,
            ..line_cleared::<B>(t, ply)
        }
    } else {
        t
    };
    let (t1, over) = timed::<B>(t0);
    if !over && !drawn::<B>(t1, ply) && ply < MAX_PLY - 1 {
        let (t2, entry) = looked_up::<B>(t1, ply);
        let in_check = t2.board.current.in_check;
        let raw = raw_value::<B>(t2, entry);
        let start = QuietProgress {
            alpha: if in_check {
                alpha
            } else {
                larger(alpha, raw)
            },
            best_score: if in_check {
                -Score::INFINITE
            } else {
                raw
            },
            best_move: no_move(),
            move_count: 0,
            picker: fresh_picker(no_move(), true),
        };
        quiet_moves_teach_nothing::<B, T>(part, t2, pv, beta, ply, start);
        let (t3, end) = quiet_moves_tried::<B>(t2, pv, beta, ply, start);
        reveal(quiet_result);
    }
}

proof fn quiet_moves_teach_nothing<B: Backend, T>(
    part: spec_fn(B::State) -> T,
    t: Thread<B>,
    pv: bool,
    beta: int,
    ply: int,
    p: QuietProgress,
)
    requires
        out_of_reach::<B, T>(part),
        0 <= ply < MAX_PLY - 1,
    ensures
        part(quiet_moves_tried::<B>(t, pv, beta, ply, p).0.backend) == part(t.backend),
    decreases MAX_PLY - ply, 0int, MAX_MOVES - p.picker.handed_out,
{
    let (t1, next) = picked::<B>(t, p.picker, pv, false, !t.board.current.in_check, ply);
    if let Some((mv, stage)) = next {
        let made = moved::<B>(t1, ply, mv);
        quiescence_teaches_nothing::<B, T>(part, made, pv, -beta, -p.alpha, ply + 1);
        let (t2, reply) = quiesced::<B>(made, pv, -beta, -p.alpha, ply + 1);
        reveal(moved);
        reveal(unmoved);
        let (t3, stopped) = polled::<B>(unmoved::<B>(t2));
        let score = -reply;
        let better = score > p.best_score;
        let up = better && score > p.alpha;
        let t4 = if up && pv {
            line_extended::<B>(t3, ply, mv)
        } else {
            t3
        };
        let q = QuietProgress {
            alpha: if up && score < beta {
                score
            } else {
                p.alpha
            },
            best_score: if better {
                score
            } else {
                p.best_score
            },
            best_move: if up {
                mv
            } else {
                p.best_move
            },
            move_count: p.move_count + 1,
            picker: picker_after(p.picker, stage),
        };
        quiet_moves_teach_nothing::<B, T>(part, t4, pv, beta, ply, q);
    }
}

} // verus!
