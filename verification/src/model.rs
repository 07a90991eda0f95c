//! What searching does to a thread and what it returns, in specifications.
use crate::backend::{Backend, CorrectionTable};
use crate::board::{has_officer, told_all, BoardState};
use crate::evaluation::corrected;
use crate::movepick::{fresh_picker, MovePicker, Stage};
use crate::nnue::{network_score, popped, pushed, Network};
use crate::ranking::{charged, ranked};
use crate::search::Report;
use crate::stack::{blank_stack, StackEntry, Subtable};
use crate::thread::{Limits, RootMoveState, ThreadState};
use crate::transposition::{Bound, TtDepth, TtEntry};
use crate::types::{
    clamped, larger, mate_score, mated_score, no_move, quotient, smaller, Color, Move, Piece, Score,
    Square, MAX_MOVES, MAX_PLY,
};
use vstd::prelude::*;
use vstd::wrapping::u64_specs;

verus! {

/// The state of a thread on a given backend.
pub type Thread<B> = ThreadState<<B as Backend>::State>;

// ---------------------------------------------------------------------------
// Single steps
// ---------------------------------------------------------------------------

/// Asks whether the search has been told to stop.
pub open spec fn polled<B: Backend>(t: Thread<B>) -> (Thread<B>, bool) {
    let (state, stopped) = B::stopped_model(t.backend);
    (ThreadState { backend: state, ..t }, stopped)
}

/// Whether the search has been told to stop.
pub open spec fn is_stopped<B: Backend>(t: Thread<B>) -> bool {
    B::stopped_model(t.backend).1
}

/// The nodes that no root move is charged with, as far as a counter of 64 bits
/// tells.
pub open spec fn uncharged<S>(t: ThreadState<S>) -> int {
    (t.nodes - charged(t.root_moves)) % 0x1_0000_0000_0000_0000
}

/// Tells every thread to stop.
pub open spec fn halted<B: Backend>(t: Thread<B>) -> Thread<B> {
    ThreadState { backend: B::stop_model(t.backend), ..t }
}

/// The main thread looks at the clock; the others never find time over.
pub open spec fn timed<B: Backend>(t: Thread<B>) -> (Thread<B>, bool) {
    if t.id == 0 {
        let (state, over) = B::check_time_model(t.backend, t.nodes, t.completed_depth);
        (ThreadState { backend: state, ..t }, over)
    } else {
        (t, false)
    }
}

/// The line of a ply is emptied.
pub open spec fn line_cleared<B: Backend>(t: Thread<B>, ply: int) -> Thread<B> {
    ThreadState { pv_table: t.pv_table.update(ply, Seq::empty()), ..t }
}

/// The line of a ply becomes a move and the line of the next ply.
pub open spec fn line_extended<B: Backend>(t: Thread<B>, ply: int, mv: Move) -> Thread<B> {
    ThreadState {
        pv_table: t.pv_table.update(ply, seq![mv] + t.pv_table[ply + 1]),
        ..t
    }
}

/// Whether the position on the board is drawn by rule.
pub open spec fn drawn<B: Backend>(t: Thread<B>, ply: int) -> bool {
    B::is_draw_model(t.backend, t.board, ply)
}

/// The score of a draw.
pub open spec fn draw_value<B: Backend>(t: Thread<B>) -> int {
    B::draw_score_model(t.backend, t.nodes) as int
}

/// The network's evaluation of the position on the board.
#[verifier::opaque]
pub open spec fn static_value<B: Backend>(t: Thread<B>) -> int {
    network_score(t.network, t.board.current.side_to_move, t.board.current.men())
}

/// Asks the transposition table about the position on the board.
pub open spec fn looked_up<B: Backend>(t: Thread<B>, ply: int) -> (Thread<B>, Option<TtEntry>) {
    let (state, entry) = B::tt_read_model(
        t.backend,
        t.board.current.hash,
        t.board.current.halfmove_clock,
        ply,
    );
    (ThreadState { backend: state, ..t }, entry)
}

/// Offers the transposition table an entry for the position on the board.
pub open spec fn stored<B: Backend>(
    t: Thread<B>,
    entry: TtEntry,
    ply: int,
    tt_pv: bool,
    force: bool,
) -> Thread<B> {
    ThreadState {
        backend: B::tt_write_model(t.backend, t.board.current.hash, entry, ply, tt_pv, force),
        ..t
    }
}

/// The correction of the static evaluation that the tables suggest.
#[verifier::opaque]
pub open spec fn suggested_correction<B: Backend>(t: Thread<B>) -> int {
    let position = t.board.current;
    let stm = position.side_to_move;
    let bucket = position.halfmove_clock_bucket;
    quotient(
        B::correction_model(t.backend, CorrectionTable::Pawn, stm, position.pawn_key, bucket)
            + B::correction_model(
            t.backend,
            CorrectionTable::NonPawn(Color::White),
            stm,
            position.non_pawn_key_of(Color::White),
            bucket,
        ) + B::correction_model(
            t.backend,
            CorrectionTable::NonPawn(Color::Black),
            stm,
            position.non_pawn_key_of(Color::Black),
            bucket,
        ),
        73,
    )
}

/// One correction table is moved by a bonus.
pub open spec fn table_corrected<B: Backend>(
    t: Thread<B>,
    table: CorrectionTable,
    key: u64,
    bonus: int,
) -> Thread<B> {
    ThreadState {
        backend: B::correction_update_model(
            t.backend,
            table,
            t.board.current.side_to_move,
            key,
            t.board.current.halfmove_clock_bucket,
            bonus as i32,
        ),
        ..t
    }
}

/// The bonus for a search result that is off the static evaluation by `diff`.
pub open spec fn correction_bonus(depth: int, diff: int) -> int {
    clamped(quotient(142 * depth * diff, 128), -4771, 3001)
}

/// All correction tables learn that the static evaluation was off by `diff`.
pub open spec fn corrections_learned<B: Backend>(t: Thread<B>, depth: int, diff: int) -> Thread<B> {
    let bonus = correction_bonus(depth, diff);
    let t1 = table_corrected::<B>(t, CorrectionTable::Pawn, t.board.current.pawn_key, bonus);
    let t2 = table_corrected::<B>(
        t1,
        CorrectionTable::NonPawn(Color::White),
        t.board.current.non_pawn_key_of(Color::White),
        bonus,
    );
    table_corrected::<B>(
        t2,
        CorrectionTable::NonPawn(Color::Black),
        t.board.current.non_pawn_key_of(Color::Black),
        bonus,
    )
}

/// The continuation table of the move `offset` plies ago learns, if there is
/// such a move.
pub open spec fn continuation_learned<B: Backend>(
    t: Thread<B>,
    ply: int,
    offset: int,
    piece: Option<Piece>,
    to: Square,
    bonus: int,
) -> Thread<B> {
    if ply >= offset && t.stack[ply - offset].mv.present() {
        ThreadState {
            backend: B::continuation_update_model(
                t.backend,
                t.stack[ply - offset].conthist,
                piece,
                to,
                bonus as i32,
            ),
            ..t
        }
    } else {
        t
    }
}

/// How many plies ago the moves were made whose continuation tables learn.
pub open spec fn continuation_offset(k: int) -> int {
    if k == 0 {
        1
    } else if k == 1 {
        2
    } else if k == 2 {
        4
    } else {
        6
    }
}

/// The first `n` of the continuation tables that learn have done so.
pub open spec fn continuations_begun<B: Backend>(
    t: Thread<B>,
    ply: int,
    piece: Option<Piece>,
    to: Square,
    bonus: int,
    n: int,
) -> Thread<B>
    decreases n,
{
    if n <= 0 {
        t
    } else {
        continuation_learned::<B>(
            continuations_begun::<B>(t, ply, piece, to, bonus, n - 1),
            ply,
            continuation_offset(n - 1),
            piece,
            to,
            bonus,
        )
    }
}

/// The continuation tables of the moves one, two, four and six plies ago
/// learn.
pub open spec fn continuations_learned<B: Backend>(
    t: Thread<B>,
    ply: int,
    piece: Option<Piece>,
    to: Square,
    bonus: int,
) -> Thread<B> {
    continuations_begun::<B>(t, ply, piece, to, bonus, 4)
}

/// The quiet table learns of a move.
pub open spec fn quiet_learned<B: Backend>(t: Thread<B>, mv: Move, bonus: int) -> Thread<B> {
    ThreadState {
        backend: B::quiet_update_model(
            t.backend,
            t.board.current.threats,
            t.board.current.side_to_move,
            mv,
            bonus as i32,
        ),
        ..t
    }
}

/// The noisy table learns of a move.
pub open spec fn noisy_learned<B: Backend>(t: Thread<B>, mv: Move, bonus: int) -> Thread<B> {
    ThreadState {
        backend: B::noisy_update_model(
            t.backend,
            t.board.current.threats,
            t.board.current.on(mv.from),
            mv.to,
            match t.board.current.on(mv.to) {
                Some(piece) => Some(piece.piece_type),
                None => None,
            },
            bonus as i32,
        ),
        ..t
    }
}

/// The table of continuations that goes with a move on the board.
pub open spec fn subtable_of<B: Backend>(t: Thread<B>, mv: Move) -> Subtable {
    Subtable {
        in_check: t.board.current.in_check,
        noisy: mv.noisy(),
        piece: t.board.current.on(mv.from),
        to: mv.to,
    }
}

/// A move is made: it is noted on the stack, the network puts its accumulators
/// aside and follows the changes on the board.
#[verifier::opaque]
pub open spec fn moved<B: Backend>(t: Thread<B>, ply: int, mv: Move) -> Thread<B> {
    let (next, changes) = B::play_model(t.backend, t.board.current, mv);
    ThreadState {
        stack: t.stack.update(
            ply,
            StackEntry {
                mv,
                piece: t.board.current.on(mv.from),
                conthist: Some(subtable_of::<B>(t, mv)),
                contcorrhist: Some(subtable_of::<B>(t, mv)),
                ..t.stack[ply]
            },
        ),
        nodes: u64_specs::wrapping_add(t.nodes, 1),
        network: told_all::<Network>(pushed(t.network), changes),
        board: BoardState { current: next, history: t.board.history.push(t.board.current) },
        backend: B::prefetch_model(t.backend, next.hash),
        ..t
    }
}

/// The board goes back to the position before.
pub open spec fn board_undone(board: BoardState) -> BoardState {
    BoardState { current: board.history.last(), history: board.history.drop_last() }
}

/// The last move is taken back, on the board and in the network.
#[verifier::opaque]
pub open spec fn unmoved<B: Backend>(t: Thread<B>) -> Thread<B> {
    ThreadState { network: popped(t.network), board: board_undone(t.board), ..t }
}

/// The turn is given to the opponent.
#[verifier::opaque]
pub open spec fn passed<B: Backend>(t: Thread<B>) -> Thread<B> {
    ThreadState {
        board: BoardState {
            current: B::pass_model(t.backend, t.board.current),
            history: t.board.history.push(t.board.current),
        },
        ..t
    }
}

/// The turn is taken back.
#[verifier::opaque]
pub open spec fn unpassed<B: Backend>(t: Thread<B>) -> Thread<B> {
    ThreadState { board: board_undone(t.board), ..t }
}

/// Asks for the next move of a node.
pub open spec fn picked<B: Backend>(
    t: Thread<B>,
    picker: MovePicker,
    pv: bool,
    root: bool,
    skip_quiets: bool,
    ply: int,
) -> (Thread<B>, Option<(Move, Stage)>) {
    let (state, picked) = B::pick_model(
        t.backend,
        picker,
        t.board,
        t.stack,
        pv,
        root,
        skip_quiets,
        ply,
    );
    (
        ThreadState { backend: state, ..t },
        if picker.handed_out < MAX_MOVES {
            picked
        } else {
            None
        },
    )
}

/// The picker after it has handed out a move of a stage.
pub open spec fn picker_after(picker: MovePicker, stage: Stage) -> MovePicker {
    MovePicker { handed_out: (picker.handed_out + 1) as usize, stage, ..picker }
}

// ---------------------------------------------------------------------------
// Quiescence search
// ---------------------------------------------------------------------------

/// Whether a stored score settles a node with the given window.
pub open spec fn settles(entry: TtEntry, alpha: int, beta: int) -> bool {
    entry.score != Score::NONE && match entry.bound {
        Bound::Upper => entry.score <= alpha,
        Bound::Lower => entry.score >= beta,
        _ => true,
    }
}

/// The static evaluation of a node, before correction: none in check, the
/// stored one if there is one, the network's otherwise.
#[verifier::opaque]
pub open spec fn raw_value<B: Backend>(t: Thread<B>, entry: Option<TtEntry>) -> int {
    if t.board.current.in_check {
        Score::NONE as int
    } else {
        match entry {
            Some(e) => if e.raw_eval != Score::NONE {
                e.raw_eval as int
            } else {
                static_value::<B>(t)
            },
            None => static_value::<B>(t),
        }
    }
}

/// How far a quiescence node has come.
pub struct QuietProgress {
    pub alpha: int,
    pub best_score: int,
    pub best_move: Move,
    pub move_count: int,
    pub picker: MovePicker,
}

/// What a quiescence search does to the thread, and the score it returns.
pub open spec fn quiesced<B: Backend>(
    t: Thread<B>,
    pv: bool,
    alpha: int,
    beta: int,
    ply: int,
) -> (Thread<B>, int)
    decreases MAX_PLY - ply, 1int, 0int,
    when 0 <= ply <= MAX_PLY
{
    let t0 = if pv {
        ThreadState {
            sel_depth: larger(t.sel_depth as int, ply) as i32,
            ..line_cleared::<B>(t, ply)
        }
    } else {
        t
    };
    let (t1, over) = timed::<B>(t0);
    if over {
        (halted::<B>(t1), Score::ZERO as int)
    } else if drawn::<B>(t1, ply) {
        (t1, draw_value::<B>(t1))
    } else if ply >= MAX_PLY - 1 {
        (t1, static_value::<B>(t1))
    } else {
        let (t2, entry) = looked_up::<B>(t1, ply);
        if entry is Some && settles(entry.unwrap(), alpha, beta) {
            (t2, entry.unwrap().score as int)
        } else {
            let in_check = t2.board.current.in_check;
            let raw = raw_value::<B>(t2, entry);
            if !in_check && raw >= beta {
                (t2, raw)
            } else {
                let start = QuietProgress {
                    alpha: if in_check {
                        alpha
                    } else {
                        larger(alpha, raw)
                    },
                    best_score: if in_check {
                        -Score::INFINITE
                    } else {
                        raw
                    },
                    best_move: no_move(),
                    move_count: 0,
                    picker: fresh_picker(no_move(), true),
                };
                let (t3, end) = quiet_moves_tried::<B>(t2, pv, beta, ply, start);
                match end {
                    None => (t3, Score::ZERO as int),
                    Some(p) => quiet_result::<B>(t3, pv, beta, ply, raw, p),
                }
            }
        }
    }
}

/// The end of a quiescence node: mate, or the best score, which is stored.
#[verifier::opaque]
pub open spec fn quiet_result<B: Backend>(
    t: Thread<B>,
    pv: bool,
    beta: int,
    ply: int,
    raw: int,
    p: QuietProgress,
) -> (Thread<B>, int) {
    if t.board.current.in_check && p.move_count == 0 {
        (t, mated_score(ply))
    } else {
        let entry = TtEntry {
            mv: p.best_move,
            score: p.best_score as i32,
            raw_eval: raw as i32,
            depth: TtDepth::SOME,
            bound: if p.best_score >= beta {
                Bound::Lower
            } else {
                Bound::Upper
            },
        };
        (stored::<B>(t, entry, ply, pv, false), p.best_score)
    }
}

/// The moves of a quiescence node are tried one after the other. There is no
/// progress to go on from when the search is told to stop meanwhile.
pub open spec fn quiet_moves_tried<B: Backend>(
    t: Thread<B>,
    pv: bool,
    beta: int,
    ply: int,
    p: QuietProgress,
) -> (Thread<B>, Option<QuietProgress>)
    decreases MAX_PLY - ply, 0int, MAX_MOVES - p.picker.handed_out,
    when 0 <= ply < MAX_PLY
{
    let (t1, next) = picked::<B>(t, p.picker, pv, false, !t.board.current.in_check, ply);
    match next {
        None => (t1, Some(p)),
        Some((mv, stage)) => {
            let (t2, reply) = quiesced::<B>(moved::<B>(t1, ply, mv), pv, -beta, -p.alpha, ply + 1);
            let score = -reply;
            let (t3, stopped) = polled::<B>(unmoved::<B>(t2));
            let better = score > p.best_score;
            let raises = better && score > p.alpha;
            let t4 = if raises && pv {
                line_extended::<B>(t3, ply, mv)
            } else {
                t3
            };
            let p1 = QuietProgress {
                alpha: if raises && score < beta {
                    score
                } else {
                    p.alpha
                },
                best_score: if better {
                    score
                } else {
                    p.best_score
                },
                best_move: if raises {
                    mv
                } else {
                    p.best_move
                },
                move_count: p.move_count + 1,
                picker: picker_after(p.picker, stage),
            };
            if stopped {
                (t3, None)
            } else if raises && score >= beta {
                (t4, Some(p1))
            } else {
                quiet_moves_tried::<B>(t4, pv, beta, ply, p1)
            }
        },
    }
}

// ---------------------------------------------------------------------------
// Main search: decisions at a node
// ---------------------------------------------------------------------------

/// What is known of a node when its moves are about to be tried.
pub struct Node {
    pub pv: bool,
    pub root: bool,
    pub alpha: int,
    pub beta: int,
    pub depth: int,
    pub ply: int,
    /// What the transposition table knew.
    pub entry: Option<TtEntry>,
    /// The static evaluation before correction.
    pub raw: int,
    /// The static evaluation.
    pub eval: int,
    /// Whether the evaluation is better than two plies ago.
    pub improving: bool,
}

/// The move that the transposition table suggests.
pub open spec fn hash_move(entry: Option<TtEntry>) -> Move {
    match entry {
        Some(e) => e.mv,
        None => no_move(),
    }
}

/// The score that the transposition table holds.
pub open spec fn hash_score(entry: Option<TtEntry>) -> int {
    match entry {
        Some(e) => e.score as int,
        None => Score::NONE as int,
    }
}

/// The depth of the search that the transposition table remembers.
pub open spec fn hash_depth(entry: Option<TtEntry>) -> int {
    match entry {
        Some(e) => e.depth as int,
        None => 0,
    }
}

/// Whether the stored score is only an upper bound.
pub open spec fn hash_is_upper(entry: Option<TtEntry>) -> bool {
    match entry {
        Some(e) => e.bound == Bound::Upper,
        None => false,
    }
}

/// Whether a stored entry makes searching the node unnecessary. The entry speaks
/// of all moves of the node, so that it says nothing where one is left out.
pub open spec fn cut_by_hash(
    pv: bool,
    entry: Option<TtEntry>,
    depth: int,
    alpha: int,
    beta: int,
) -> bool {
    match entry {
        Some(e) => !pv && e.depth >= depth && settles(e, alpha, beta),
        None => false,
    }
}

/// The depth of a node: a ply less when there is no move to begin with.
pub open spec fn node_depth(depth: int, entry: Option<TtEntry>) -> int {
    if depth >= 4 && !hash_move(entry).present() {
        depth - 1
    } else {
        depth
    }
}

/// Whether the evaluation is better than two plies ago.
pub open spec fn is_improving<B: Backend>(t: Thread<B>, ply: int, eval: int) -> bool {
    &&& !t.board.current.in_check
    &&& ply >= 2
    &&& t.stack[ply - 2].eval != Score::NONE
    &&& eval > t.stack[ply - 2].eval
}

/// What is known of a node once its position has been evaluated.
pub open spec fn node_of<B: Backend>(
    t: Thread<B>,
    pv: bool,
    root: bool,
    alpha: int,
    beta: int,
    depth: int,
    ply: int,
    entry: Option<TtEntry>,
) -> Node {
    let raw = raw_value::<B>(t, entry);
    let eval = if t.board.current.in_check {
        Score::NONE as int
    } else {
        corrected(
            raw,
            suggested_correction::<B>(t),
            t.board.current.halfmove_clock as int,
        )
    };
    Node {
        pv,
        root,
        alpha,
        beta,
        depth: node_depth(depth, entry),
        ply,
        entry,
        raw,
        eval,
        improving: is_improving::<B>(t, ply, eval),
    }
}

/// A fresh evaluation is stored, and the node is entered on the stack.
#[verifier::opaque]
pub open spec fn node_entered<B: Backend>(t: Thread<B>, node: Node) -> Thread<B> {
    let t1 = if !t.board.current.in_check && node.entry is None {
        let fresh = TtEntry {
            mv: no_move(),
            score: Score::NONE,
            raw_eval: node.raw as i32,
            depth: TtDepth::SOME,
            bound: Bound::Absent,
        };
        stored::<B>(t, fresh, node.ply, node.pv, false)
    } else {
        t
    };
    let here = StackEntry {
        eval: node.eval as i32,
        tt_move: hash_move(node.entry),
        tt_pv: node.pv,
        reduction: 0,
        move_count: 0,
        ..t.stack[node.ply]
    };
    let ahead = StackEntry { cutoff_count: 0, ..t.stack[node.ply + 2] };
    ThreadState { stack: t.stack.update(node.ply, here).update(node.ply + 2, ahead), ..t1 }
}

/// One for true, nothing for false.
pub open spec fn flag(b: bool) -> int {
    if b { 1 } else { 0 }
}

/// Reverse futility pruning: the evaluation is above the window by a margin
/// that grows with the depth.
#[verifier::opaque]
pub open spec fn reverse_futile(node: Node, in_check: bool) -> bool {
    &&& !node.pv
    &&& !in_check
    &&& node.depth <= 8
    &&& node.eval - 75 * (node.depth - flag(node.improving)) >= node.beta
}

/// Null move pruning is tried when the evaluation is above the window, there
/// is more than pawns to move, and the turn was not just given away.
#[verifier::opaque]
pub open spec fn tries_null_move<B: Backend>(t: Thread<B>, node: Node) -> bool {
    &&& !node.pv
    &&& !t.board.current.in_check
    &&& node.depth >= 3
    &&& node.eval >= node.beta
    &&& t.board.current.plies_from_null > 0
    &&& has_officer(t.board.current.squares@, t.board.current.side_to_move)
}

/// By how much the depth is reduced after a null move.
#[verifier::opaque]
pub open spec fn null_reduction(node: Node) -> int {
    3 + node.depth / 3 + clamped(quotient(node.eval - node.beta, 200), 0, 3)
}

/// Razoring: the evaluation is so far below the window that only captures can
/// help.
#[verifier::opaque]
pub open spec fn razored(node: Node, in_check: bool) -> bool {
    &&& !node.pv
    &&& !in_check
    &&& node.depth <= 4
    &&& node.eval != Score::NONE
    &&& node.eval + 220 * node.depth + 135 < node.alpha
}

/// Whether it is worth asking if the stored move is the only good one.
#[verifier::opaque]
pub open spec fn probes_singular<B: Backend>(t: Thread<B>, node: Node) -> bool {
    &&& !node.root
    &&& node.depth >= 6
    &&& hash_move(node.entry).present()
    &&& !hash_is_upper(node.entry)
    &&& hash_score(node.entry) != Score::NONE
    &&& hash_depth(node.entry) >= node.depth - 3
    &&& !t.stack[node.ply].excluded.present()
}

/// The score that every other move must fail to reach for the stored move to
/// be singular.
pub open spec fn singular_beta(node: Node) -> int {
    hash_score(node.entry) - node.depth * 2
}

/// A move is left out of the search of a ply.
#[verifier::opaque]
pub open spec fn excluding<B: Backend>(t: Thread<B>, ply: int, mv: Move) -> Thread<B> {
    ThreadState {
        stack: t.stack.update(ply, StackEntry { excluded: mv, ..t.stack[ply] }),
        ..t
    }
}

/// How far a node has come with its moves.
pub struct Progress {
    pub alpha: int,
    pub best_score: int,
    pub best_move: Move,
    pub bound: Bound,
    pub move_count: int,
    pub quiets_searched: int,
    pub quiet_moves: Seq<Move>,
    pub noisy_moves: Seq<Move>,
    pub picker: MovePicker,
}

/// Nothing has been tried yet.
pub open spec fn no_progress(node: Node) -> Progress {
    Progress {
        alpha: node.alpha,
        best_score: -Score::INFINITE,
        best_move: no_move(),
        bound: Bound::Upper,
        move_count: 0,
        quiets_searched: 0,
        quiet_moves: Seq::empty(),
        noisy_moves: Seq::empty(),
        picker: fresh_picker(hash_move(node.entry), false),
    }
}

/// Late move pruning: enough quiet moves have been searched.
#[verifier::opaque]
pub open spec fn late(node: Node, quiets_searched: int) -> bool {
    node.depth <= 4 && quiets_searched > 3 + node.depth * node.depth / (1 + flag(!node.improving))
}

/// Futility pruning: the evaluation is too far below the window for a quiet
/// move to reach it.
#[verifier::opaque]
pub open spec fn futile(node: Node, alpha: int, in_check: bool) -> bool {
    &&& !in_check
    &&& node.depth <= 5
    &&& node.eval != Score::NONE
    &&& node.eval + 130 * node.depth + 45 < alpha
}

/// Whether a move is skipped without being searched. Nothing is skipped before
/// some move has a score.
#[verifier::opaque]
pub open spec fn skipped(node: Node, p: Progress, mv: Move, in_check: bool) -> bool {
    &&& !node.pv
    &&& p.best_score > -Score::INFINITE
    &&& (!mv.noisy() && (late(node, p.quiets_searched) || futile(node, p.alpha, in_check))) || (
    mv.noisy() && p.picker.stage == Stage::BadNoisy && node.depth <= 6)
}

/// By how much the depth of a late quiet move is reduced.
#[verifier::opaque]
pub open spec fn late_reduction(
    node: Node,
    move_count: int,
    quiet: bool,
    quiet_score: int,
    base: int,
    gives_check: bool,
) -> int {
    if node.depth >= 3 && move_count > 2 && quiet {
        clamped(
            base - quotient(quiet_score, 8192) - flag(node.pv) - flag(gives_check),
            0,
            node.depth - 1,
        )
    } else {
        0
    }
}

/// One ply more for a singular move, or else for a move that gives check.
pub open spec fn extension(singular: bool, gives_check: bool) -> int {
    flag(singular) + flag(gives_check && !singular)
}

/// Whether the move is within the window of root moves.
pub open spec fn in_root_window<B: Backend>(t: Thread<B>, mv: Move) -> bool {
    exists|i: int| t.pv_start <= i < t.pv_end && (#[trigger] t.root_moves[i]).mv == mv
}

/// The first place, from `i` on, of a move in the list of root moves.
pub open spec fn root_place(root_moves: Seq<RootMoveState>, mv: Move, i: int) -> int
    decreases root_moves.len() - i,
{
    if i < 0 || i >= root_moves.len() || root_moves[i].mv == mv {
        i
    } else {
        root_place(root_moves, mv, i + 1)
    }
}

/// A root move after it was searched: it is charged with the nodes, and gets
/// the score and the line if it is the first or better than the window's lower
/// end.
pub open spec fn root_scored<B: Backend>(
    t: Thread<B>,
    rm: RootMoveState,
    nodes_before: u64,
    first: bool,
    score: int,
    alpha: int,
    beta: int,
) -> RootMoveState {
    let charged = RootMoveState {
        nodes: u64_specs::wrapping_add(
            rm.nodes,
            u64_specs::wrapping_sub(t.nodes, nodes_before),
        ),
        ..rm
    };
    if first || score > alpha {
        RootMoveState {
            score: score as i32,
            display_score: score as i32,
            upperbound: score <= alpha,
            lowerbound: score >= beta,
            sel_depth: t.sel_depth,
            pv: t.pv_table[1],
            ..charged
        }
    } else {
        RootMoveState { score: (-Score::INFINITE) as i32, ..charged }
    }
}

/// The list of root moves after one of them was searched.
#[verifier::opaque]
pub open spec fn root_recorded<B: Backend>(
    t: Thread<B>,
    mv: Move,
    nodes_before: u64,
    first: bool,
    score: int,
    alpha: int,
    beta: int,
) -> Thread<B> {
    let place = root_place(t.root_moves, mv, 0);
    ThreadState {
        root_moves: t.root_moves.update(
            place,
            root_scored::<B>(
                t,
                t.root_moves[place],
                nodes_before,
                first,
                score,
                alpha,
                beta,
            ),
        ),
        ..t
    }
}

/// Whether a score is better than everything so far and within reach.
pub open spec fn raises(p: Progress, score: int) -> bool {
    score > p.best_score && score > p.alpha
}

/// The progress after a move has been searched.
#[verifier::opaque]
pub open spec fn progressed(p: Progress, mv: Move, score: int, beta: int) -> Progress {
    Progress {
        alpha: if raises(p, score) && score < beta {
            score
        } else {
            p.alpha
        },
        best_score: if score > p.best_score {
            score
        } else {
            p.best_score
        },
        best_move: if raises(p, score) {
            mv
        } else {
            p.best_move
        },
        bound: if raises(p, score) {
            if score >= beta {
                Bound::Lower
            } else {
                Bound::Exact
            }
        } else {
            p.bound
        },
        quiets_searched: p.quiets_searched + flag(!mv.noisy()),
        ..p
    }
}

/// A move that did not turn out best is remembered among the tried ones.
#[verifier::opaque]
pub open spec fn remembered(p: Progress, mv: Move) -> Progress {
    if mv != p.best_move && p.move_count <= 32 {
        if mv.noisy() {
            Progress { noisy_moves: p.noisy_moves.push(mv), ..p }
        } else {
            Progress { quiet_moves: p.quiet_moves.push(mv), ..p }
        }
    } else {
        p
    }
}

// ---------------------------------------------------------------------------
// Main search: what is learned at a node
// ---------------------------------------------------------------------------

pub open spec fn quiet_bonus(depth: int) -> int {
    smaller(185 * depth, 1648)
}

pub open spec fn quiet_malus(depth: int) -> int {
    smaller(162 * depth, 1198)
}

pub open spec fn continuation_bonus(depth: int) -> int {
    smaller(107 * depth, 1051)
}

pub open spec fn continuation_malus(depth: int) -> int {
    smaller(399 * depth, 933)
}

pub open spec fn noisy_bonus(depth: int) -> int {
    smaller(89 * depth, 748)
}

pub open spec fn noisy_malus(depth: int) -> int {
    smaller(179 * depth, 1391)
}

/// A penalty for the move in place `i`: the later a move was tried, the less.
pub open spec fn scaled_malus(malus: int, i: int) -> int {
    quotient(-malus * (1024int / (1 + i)), 1024)
}

/// The first `n` quiet moves that were not best are punished.
pub open spec fn quiets_punished<B: Backend>(
    t: Thread<B>,
    depth: int,
    ply: int,
    list: Seq<Move>,
    n: int,
) -> Thread<B>
    decreases n,
{
    if n <= 0 {
        t
    } else {
        let t1 = quiets_punished::<B>(t, depth, ply, list, n - 1);
        let mv = list[n - 1];
        let t2 = quiet_learned::<B>(t1, mv, scaled_malus(quiet_malus(depth), n - 1));
        continuations_learned::<B>(
            t2,
            ply,
            t2.board.current.on(mv.from),
            mv.to,
            scaled_malus(continuation_malus(depth), n - 1),
        )
    }
}

/// The first `n` noisy moves that were not best are punished.
pub open spec fn noisies_punished<B: Backend>(
    t: Thread<B>,
    depth: int,
    list: Seq<Move>,
    n: int,
) -> Thread<B>
    decreases n,
{
    if n <= 0 {
        t
    } else {
        noisy_learned::<B>(
            noisies_punished::<B>(t, depth, list, n - 1),
            list[n - 1],
            -noisy_malus(depth),
        )
    }
}

/// The history tables reward the best move and punish the others: quiet ones
/// only if the best move is quiet, noisy ones always.
pub open spec fn histories_learned<B: Backend>(t: Thread<B>, node: Node, p: Progress) -> Thread<B> {
    let best = p.best_move;
    let t1 = if best.noisy() {
        noisy_learned::<B>(t, best, noisy_bonus(node.depth))
    } else {
        let a = quiet_learned::<B>(t, best, quiet_bonus(node.depth));
        let b = continuations_learned::<B>(
            a,
            node.ply,
            a.board.current.on(best.from),
            best.to,
            continuation_bonus(node.depth),
        );
        quiets_punished::<B>(
            b,
            node.depth,
            node.ply,
            p.quiet_moves,
            p.quiet_moves.len() as int,
        )
    };
    noisies_punished::<B>(t1, node.depth, p.noisy_moves, p.noisy_moves.len() as int)
}

/// Whether the result says nothing of how far the static evaluation was off.
pub open spec fn says_nothing(node: Node, p: Progress) -> bool {
    ||| p.best_move.noisy()
    ||| p.bound == Bound::Upper && p.best_score >= node.eval
    ||| p.bound == Bound::Lower && p.best_score <= node.eval
}

/// The end of a node: mate or stalemate if it has no moves, else the best
/// score, from which the tables learn.
#[verifier::opaque]
pub open spec fn node_finished<B: Backend>(t: Thread<B>, node: Node, p: Progress) -> (
    Thread<B>,
    int,
) {
    let in_check = t.board.current.in_check;
    if p.move_count == 0 {
        (
            t,
            if in_check {
                mated_score(node.ply)
            } else {
                draw_value::<B>(t)
            },
        )
    } else {
        let t1 = if p.best_move.present() {
            histories_learned::<B>(t, node, p)
        } else {
            t
        };
        let entry = TtEntry {
            mv: p.best_move,
            score: p.best_score as i32,
            raw_eval: node.raw as i32,
            depth: node.depth as i32,
            bound: p.bound,
        };
        let t2 = if node.root && t1.pv_index > 0 {
            t1
        } else {
            stored::<B>(t1, entry, node.ply, node.pv, node.pv)
        };
        let t3 = if !in_check && node.raw != Score::NONE && !says_nothing(node, p) {
            corrections_learned::<B>(t2, node.depth, p.best_score - node.eval)
        } else {
            t2
        };
        (t3, p.best_score)
    }
}

// ---------------------------------------------------------------------------
// Main search: the recursion
// ---------------------------------------------------------------------------

/// What a search does to the thread, and the score it returns.
pub open spec fn searched<B: Backend>(
    t: Thread<B>,
    pv: bool,
    root: bool,
    alpha: int,
    beta: int,
    depth: int,
    ply: int,
) -> (Thread<B>, int)
    decreases MAX_PLY - ply, depth, 8int, 0int,
    when 0 <= ply <= MAX_PLY
{
    let t0 = if pv && !root {
        line_cleared::<B>(t, ply)
    } else {
        t
    };
    let (t1, stopped) = polled::<B>(t0);
    if stopped {
        (t1, Score::ZERO as int)
    } else if depth <= 0 {
        quiesced::<B>(t1, pv, alpha, beta, ply)
    } else {
        let (t2, over) = timed::<B>(t1);
        if over {
            (halted::<B>(t2), Score::ZERO as int)
        } else if !root && drawn::<B>(t2, ply) {
            (t2, draw_value::<B>(t2))
        } else if !root && ply >= MAX_PLY - 1 {
            (t2, static_value::<B>(t2))
        } else {
            let a = if root {
                alpha
            } else {
                larger(alpha, mated_score(ply))
            };
            let b = if root {
                beta
            } else {
                smaller(beta, mate_score(ply + 1))
            };
            if !root && a >= b {
                (t2, a)
            } else {
                node_searched::<B>(t2, pv, root, a, b, depth, ply)
            }
        }
    }
}

/// The search of a node that is neither drawn nor out of reach.
pub open spec fn node_searched<B: Backend>(
    t: Thread<B>,
    pv: bool,
    root: bool,
    alpha: int,
    beta: int,
    depth: int,
    ply: int,
) -> (Thread<B>, int)
    decreases MAX_PLY - ply, depth, 7int, 0int,
    when 0 <= ply < MAX_PLY
{
    let (t1, entry) = looked_up::<B>(t, ply);
    if !t1.stack[ply].excluded.present() && cut_by_hash(pv, entry, depth, alpha, beta) {
        (t1, hash_score(entry))
    } else {
        let node = node_of::<B>(t1, pv, root, alpha, beta, depth, ply, entry);
        let t2 = node_entered::<B>(t1, node);
        if reverse_futile(node, t2.board.current.in_check) {
            (t2, node.eval)
        } else {
            null_searched::<B>(t2, node)
        }
    }
}

/// The search of a node that its evaluation does not settle.
pub open spec fn null_searched<B: Backend>(t: Thread<B>, node: Node) -> (Thread<B>, int)
    decreases MAX_PLY - node.ply, node.depth, 6int, 0int,
    when 0 <= node.ply < MAX_PLY
{
    if tries_null_move::<B>(t, node) {
        let (t1, reply) = searched::<B>(
            passed::<B>(t),
            false,
            false,
            -node.beta,
            -node.beta + 1,
            node.depth - null_reduction(node),
            node.ply + 1,
        );
        let t2 = unpassed::<B>(t1);
        if -reply >= node.beta {
            (t2, node.beta)
        } else {
            fully_searched::<B>(t2, node)
        }
    } else {
        fully_searched::<B>(t, node)
    }
}

/// The search of a node that a null move does not settle.
pub open spec fn fully_searched<B: Backend>(t: Thread<B>, node: Node) -> (Thread<B>, int)
    decreases MAX_PLY - node.ply, node.depth, 5int, 0int,
    when 0 <= node.ply < MAX_PLY
{
    if razored(node, t.board.current.in_check) {
        quiesced::<B>(t, node.pv, node.alpha, node.beta, node.ply)
    } else {
        let (t1, singular) = singular_probed::<B>(t, node);
        let (t2, end) = moves_tried::<B>(t1, node, singular, no_progress(node));
        match end {
            None => (t2, Score::ZERO as int),
            Some(p) => node_finished::<B>(t2, node, p),
        }
    }
}

/// The stored move is left out to see whether any other move comes near its
/// score; if none does, it is singular.
pub open spec fn singular_probed<B: Backend>(t: Thread<B>, node: Node) -> (Thread<B>, bool)
    decreases MAX_PLY - node.ply, node.depth, 4int, 0int,
    when 0 <= node.ply < MAX_PLY
{
    if probes_singular::<B>(t, node) {
        proof {
            reveal(probes_singular);
        }
        let (probed, score) = searched::<B>(
            excluding::<B>(t, node.ply, hash_move(node.entry)),
            false,
            false,
            singular_beta(node) - 1,
            singular_beta(node),
            node.depth / 2,
            node.ply,
        );
        (excluding::<B>(probed, node.ply, no_move()), score < singular_beta(node))
    } else {
        (t, false)
    }
}

/// The moves of a node are tried one after the other. There is no progress to
/// go on from when the search is told to stop meanwhile.
pub open spec fn moves_tried<B: Backend>(
    t: Thread<B>,
    node: Node,
    singular: bool,
    p: Progress,
) -> (Thread<B>, Option<Progress>)
    decreases MAX_PLY - node.ply, node.depth, 3int, MAX_MOVES - p.picker.handed_out,
    when 0 <= node.ply < MAX_PLY
{
    let (t1, next) = picked::<B>(t, p.picker, node.pv, node.root, false, node.ply);
    match next {
        None => (t1, Some(p)),
        Some((mv, stage)) => {
            let picker = picker_after(p.picker, stage);
            let p1 = Progress { picker, ..p };
            let (t2, p2, verdict) = move_considered::<B>(t1, node, singular, p1, mv);
            match verdict {
                Verdict::GoOn => moves_tried::<B>(t2, node, singular, Progress { picker, ..p2 }),
                Verdict::Cutoff => (t2, Some(p2)),
                Verdict::Stopped => (t2, None),
            }
        },
    }
}

/// What comes after a move has been considered.
#[derive(Copy, Clone, Debug, PartialEq, Eq, Structural)]
pub enum Verdict {
    /// The next move.
    GoOn,
    /// Nothing: the opponent will not allow this node.
    Cutoff,
    /// Nothing: the search has been told to stop.
    Stopped,
}

/// A move is passed over, skipped, or searched and compared with the best so
/// far.
pub open spec fn move_considered<B: Backend>(
    t: Thread<B>,
    node: Node,
    singular: bool,
    p: Progress,
    mv: Move,
) -> (Thread<B>, Progress, Verdict)
    decreases MAX_PLY - node.ply, node.depth, 2int, 0int,
    when 0 <= node.ply < MAX_PLY
{
    if (node.root && !in_root_window::<B>(t, mv)) || mv == t.stack[node.ply].excluded {
        (t, p, Verdict::GoOn)
    } else {
        let p1 = Progress { move_count: p.move_count + 1, ..p };
        let t1 = counted::<B>(t, node.ply, p1.move_count);
        if skipped(node, p1, mv, t1.board.current.in_check) {
            (t1, p1, Verdict::GoOn)
        } else {
            move_compared::<B>(t1, node, singular, p1, mv)
        }
    }
}

/// A move is searched and compared with the best so far.
pub open spec fn move_compared<B: Backend>(
    t: Thread<B>,
    node: Node,
    singular: bool,
    p: Progress,
    mv: Move,
) -> (Thread<B>, Progress, Verdict)
    decreases MAX_PLY - node.ply, node.depth, 1int, 0int,
    when 0 <= node.ply < MAX_PLY
{
    let (t1, score) = move_searched::<B>(
        t,
        node,
        singular && mv == hash_move(node.entry),
        p.alpha,
        p.move_count,
        mv,
    );
    let (t2, stopped) = polled::<B>(t1);
    if stopped {
        (t2, p, Verdict::Stopped)
    } else {
        let t3 = move_recorded::<B>(t2, node, p, mv, score, t.nodes);
        let p1 = progressed(p, mv, score, node.beta);
        if raises(p, score) && score >= node.beta {
            (t3, p1, Verdict::Cutoff)
        } else {
            (t3, remembered(p1, mv), Verdict::GoOn)
        }
    }
}

/// The number of moves counted so far is noted on the stack.
#[verifier::opaque]
pub open spec fn counted<B: Backend>(t: Thread<B>, ply: int, move_count: int) -> Thread<B> {
    ThreadState {
        stack: t.stack.update(
            ply,
            StackEntry { move_count: move_count as i32, ..t.stack[ply] },
        ),
        ..t
    }
}

/// The root move gets its score, and a better move begins the line of the ply.
#[verifier::opaque]
pub open spec fn move_recorded<B: Backend>(
    t: Thread<B>,
    node: Node,
    p: Progress,
    mv: Move,
    score: int,
    nodes_before: u64,
) -> Thread<B> {
    let t1 = if node.root {
        root_recorded::<B>(
            t,
            mv,
            nodes_before,
            p.move_count == 1,
            score,
            p.alpha,
            node.beta,
        )
    } else {
        t
    };
    if raises(p, score) && node.pv && !node.root {
        line_extended::<B>(t1, node.ply, mv)
    } else {
        t1
    }
}

/// A move is made, searched and taken back: the first move of a node of the
/// principal variation with the full window, any other with a null window and
/// perhaps a reduced depth, and again as long as it does better than expected.
pub open spec fn move_searched<B: Backend>(
    t: Thread<B>,
    node: Node,
    singular: bool,
    alpha: int,
    move_count: int,
    mv: Move,
) -> (Thread<B>, int)
    decreases MAX_PLY - node.ply, node.depth, 0int, 0int,
    when 0 <= node.ply < MAX_PLY
{
    let quiet_score = if mv.noisy() {
        0
    } else {
        B::quiet_score_model(
            t.backend,
            t.board.current.threats,
            t.board.current.side_to_move,
            mv,
        ) as int
    };
    let t1 = moved::<B>(t, node.ply, mv);
    let gives_check = t1.board.current.in_check;
    let depth = node.depth - 1 + extension(singular, gives_check);
    let ply = node.ply + 1;
    if node.pv && move_count == 1 {
        let (t2, reply) = searched::<B>(t1, true, false, -node.beta, -alpha, depth, ply);
        (unmoved::<B>(t2), -reply)
    } else {
        let reduction = late_reduction(
            node,
            move_count,
            !mv.noisy(),
            quiet_score,
            B::reduction_base_model(t1.backend, node.depth, move_count) as int,
            gives_check,
        );
        let (t2, reply2) = searched::<B>(
            t1,
            false,
            false,
            -alpha - 1,
            -alpha,
            depth - reduction,
            ply,
        );
        let (t3, reply3) = if -reply2 > alpha && reduction > 0 {
            searched::<B>(t2, false, false, -alpha - 1, -alpha, depth, ply)
        } else {
            (t2, reply2)
        };
        let (t4, reply4) = if -reply3 > alpha && node.pv {
            searched::<B>(t3, true, false, -node.beta, -alpha, depth, ply)
        } else {
            (t3, reply3)
        };
        (unmoved::<B>(t4), -reply4)
    }
}

// ---------------------------------------------------------------------------
// Iterative deepening
// ---------------------------------------------------------------------------

/// The thread at the beginning of a search: nothing is completed, and the
/// window of root moves covers the whole list.
pub open spec fn begun<B: Backend>(t: Thread<B>) -> Thread<B> {
    ThreadState {
        completed_depth: 0,
        pv_table: t.pv_table.update(0, Seq::empty()),
        multi_pv: 1,
        pv_index: 0,
        pv_start: 0,
        pv_end: t.root_moves.len() as usize,
        ..t
    }
}

/// The root moves with their scores noted as the previous ones.
pub open spec fn scores_noted(root_moves: Seq<RootMoveState>) -> Seq<RootMoveState> {
    root_moves.map_values(|rm: RootMoveState| RootMoveState { previous_score: rm.score, ..rm })
}

/// The thread at the beginning of an iteration.
pub open spec fn prepared<B: Backend>(t: Thread<B>, depth: int) -> Thread<B> {
    ThreadState {
        sel_depth: 0,
        root_depth: depth as i32,
        stack: blank_stack(),
        root_moves: scores_noted(t.root_moves),
        ..t
    }
}

/// The window with which an iteration begins, and the step for widening it:
/// narrow around the previous score, or full at low depth and without a
/// moderate previous score.
pub open spec fn first_window(depth: int, previous: int) -> (int, int, int) {
    if depth > 4 && previous != Score::NONE && -1500 < previous < 1500 {
        (previous - 20, previous + 20, 20)
    } else {
        (-Score::INFINITE, Score::INFINITE as int, Score::INFINITE as int)
    }
}

/// The step after a window was widened.
pub open spec fn next_step(delta: int) -> int {
    delta / 2 + 10
}

/// The window after a score at or below its lower end, and the step.
pub open spec fn widened_down(score: int, alpha: int, beta: int, delta: int) -> (int, int, int) {
    (larger(score - delta, -Score::INFINITE), quotient(alpha + beta, 2), next_step(delta))
}

/// The window after a score at or above its upper end, and the step.
pub open spec fn widened_up(score: int, alpha: int, beta: int, delta: int) -> (int, int, int) {
    (alpha, smaller(score + delta, Score::INFINITE as int), next_step(delta))
}

/// The root is searched again and again with a wider window, until the score
/// is inside it or the search is told to stop. A window that cannot be widened
/// ends it as well.
pub open spec fn aspired<B: Backend>(
    t: Thread<B>,
    window: (int, int, int),
    depth: int,
) -> Thread<B>
    decreases window.0 + Score::INFINITE, Score::INFINITE - window.1,
{
    let (alpha, beta, delta) = window;
    let (t1, score) = searched::<B>(t, true, true, alpha, beta, depth, 0);
    let (t2, stopped) = polled::<B>(t1);
    let down = widened_down(score, alpha, beta, delta);
    let up = widened_up(score, alpha, beta, delta);
    if stopped {
        t2
    } else if score <= alpha {
        if down.0 < alpha {
            aspired::<B>(t2, down, depth)
        } else {
            t2
        }
    } else if score >= beta {
        if up.1 > beta {
            aspired::<B>(t2, up, depth)
        } else {
            t2
        }
    } else {
        t2
    }
}

/// The result of a depth is reported.
pub open spec fn reported<B: Backend>(t: Thread<B>, depth: int) -> Thread<B> {
    ThreadState { backend: B::info_model(t.backend, depth, t.root_moves, t.nodes), ..t }
}

/// A completed iteration: the root moves are ranked, and the result is
/// reported if every result is to be.
pub open spec fn completed<B: Backend>(t: Thread<B>, report: Report, depth: int) -> Thread<B> {
    let t1 = ThreadState {
        root_moves: ranked(t.root_moves),
        completed_depth: depth as i32,
        ..t
    };
    if report == Report::Full {
        reported::<B>(t1, depth)
    } else {
        t1
    }
}

/// Asks whether it is too late to begin another iteration.
pub open spec fn soft_timed<B: Backend>(t: Thread<B>) -> (Thread<B>, bool) {
    let (state, over) = B::soft_limit_model(t.backend, t.nodes, t.completed_depth);
    (ThreadState { backend: state, ..t }, over)
}

/// Whether the main thread has reached the depth it was told to search.
pub open spec fn deep_enough<B: Backend>(t: Thread<B>, depth: int) -> bool {
    t.id == 0 && match t.limits {
        Limits::Depth(maximum) => depth > maximum,
        Limits::Open => false,
    }
}

/// The root is searched to one depth after the other, until a limit is met or
/// the search is told to stop.
pub open spec fn iterated<B: Backend>(t: Thread<B>, report: Report, depth: int) -> Thread<B>
    decreases MAX_PLY - depth,
{
    if depth >= MAX_PLY {
        t
    } else if deep_enough::<B>(t, depth) {
        halted::<B>(t)
    } else {
        let t1 = prepared::<B>(t, depth);
        let window = first_window(depth, t1.root_moves[0].previous_score as int);
        let (t2, stopped) = polled::<B>(aspired::<B>(t1, window, depth));
        if stopped {
            t2
        } else {
            let (t3, over) = soft_timed::<B>(completed::<B>(t2, report, depth));
            if over {
                halted::<B>(t3)
            } else {
                iterated::<B>(t3, report, depth + 1)
            }
        }
    }
}

/// What a whole search does to the thread.
pub open spec fn started<B: Backend>(t: Thread<B>, report: Report) -> Thread<B> {
    let t1 = begun::<B>(t);
    if t.root_moves.len() == 0 {
        t1
    } else {
        let t2 = iterated::<B>(t1, report, 1);
        let t3 = if report == Report::Minimal {
            reported::<B>(t2, larger(t2.completed_depth as int, 1))
        } else {
            t2
        };
        ThreadState { previous_best_score: t3.root_moves[0].score, ..t3 }
    }
}

} // verus!
