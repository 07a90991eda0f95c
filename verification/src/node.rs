//! What is known of a node, and the decisions that follow from it.
use crate::backend::Backend;
use crate::frame::only_backend;
use crate::model::{
    continuation_malus, flag, futile, hash_move, histories_learned, late, late_reduction,
    node_finished, noisies_punished, noisy_malus, null_reduction, probes_singular, progressed,
    quiet_malus, quiets_punished, raises, razored, remembered, reverse_futile, skipped,
    tries_null_move, Node, Progress,
};
use crate::movepick::{MovePicker, Stage};
use crate::search::NodeType;
use crate::steps::{draw, update_continuation_histories, update_correction_histories};
use crate::thread::ThreadData;
use crate::transposition::{storable_eval, Bound, TtEntry};
use crate::types::{clamp, is_valid, mated_in, Move, Score, MAX_MOVES, MAX_PLY};
use vstd::prelude::*;

verus! {

/// Corrected evaluations stay within this, on either side.
pub const EVAL_LIMIT: i32 = 31673;

/// What is known of a node when its moves are about to be tried.
#[derive(Copy, Clone)]
pub struct NodeInfo {
    pub alpha: i32,
    pub beta: i32,
    pub depth: i32,
    pub ply: isize,
    pub entry: Option<TtEntry>,
    pub raw_eval: i32,
    pub eval: i32,
    pub improving: bool,
}

impl NodeInfo {
    /// The node, as a node of the given type.
    pub open spec fn node<NODE: NodeType>(self) -> Node {
        Node {
            pv: NODE::PV,
            root: NODE::ROOT,
            alpha: self.alpha as int,
            beta: self.beta as int,
            depth: self.depth as int,
            ply: self.ply as int,
            entry: self.entry,
            raw: self.raw_eval as int,
            eval: self.eval as int,
            improving: self.improving,
        }
    }

    /// The window is open, the depth and the ply are within their limits, and
    /// evaluations are on their scales.
    pub open spec fn wf(self, in_check: bool) -> bool {
        &&& -Score::INFINITE <= self.alpha < self.beta <= Score::INFINITE
        &&& 1 <= self.depth <= MAX_PLY
        &&& 0 <= self.ply < MAX_PLY - 1
        &&& self.entry matches Some(e) ==> e.wf()
        &&& storable_eval(self.raw_eval as int)
        &&& in_check ==> self.raw_eval == Score::NONE && self.eval == Score::NONE
        &&& !in_check ==> self.raw_eval != Score::NONE && -EVAL_LIMIT <= self.eval <= EVAL_LIMIT
    }

    /// The move that the transposition table suggests.
    pub fn tt_move(&self) -> (mv: Move)
        ensures
            mv == hash_move(self.entry),
    {
        match &self.entry {
            Some(e) => e.mv,
            None => Move::null(),
        }
    }

    /// Whether reverse futility pruning settles the node.
    pub fn reverse_futility<NODE: NodeType>(&self, in_check: bool) -> (b: bool)
        requires
            self.wf(in_check),
        ensures
            b == reverse_futile(self.node::<NODE>(), in_check),
            b ==> !NODE::PV && !in_check,
    {
        reveal(reverse_futile);
        !NODE::PV && !in_check && self.depth <= 8 && self.eval - 75 * (self.depth - one_if(
            self.improving,
        )) >= self.beta
    }

    /// Whether a null move is tried.
    pub fn null_move_applies<NODE: NodeType, B: Backend>(&self, td: &ThreadData<B>) -> (b: bool)
        requires
            self.wf(td@.board.current.in_check),
        ensures
            b == tries_null_move::<B>(td@, self.node::<NODE>()),
            b ==> !NODE::PV && !td@.board.current.in_check && self.depth >= 3 && self.eval
                >= self.beta,
    {
        reveal(tries_null_move);
        !NODE::PV && !td.board.current.in_check && self.depth >= 3 && self.eval >= self.beta
            && td.board.current.plies_from_null > 0 && td.board.current.has_non_pawn_material(
            td.board.current.side_to_move,
        )
    }

    /// By how much the depth is reduced after a null move.
    pub fn null_move_reduction<NODE: NodeType>(&self) -> (reduction: i32)
        requires
            self.wf(false),
        ensures
            reduction == null_reduction(self.node::<NODE>()),
            3 <= reduction <= MAX_PLY,
    {
        reveal(null_reduction);
        3 + self.depth / 3 + clamp((self.eval - self.beta) / 200, 0, 3)
    }

    /// Whether the node is left to the quiescence search.
    pub fn razoring<NODE: NodeType>(&self, in_check: bool) -> (b: bool)
        requires
            self.wf(in_check),
        ensures
            b == razored(self.node::<NODE>(), in_check),
            b ==> !NODE::PV,
    {
        reveal(razored);
        !NODE::PV && !in_check && self.depth <= 4 && is_valid(self.eval) && self.eval + 220
            * self.depth + 135 < self.alpha
    }

    /// Whether it is worth asking if the stored move is the only good one.
    pub fn singular_probe_applies<NODE: NodeType, B: Backend>(&self, td: &ThreadData<B>) -> (b:
        bool)
        requires
            self.wf(td@.board.current.in_check),
            td@.wf(),
        ensures
            b == probes_singular::<B>(td@, self.node::<NODE>()),
            b ==> !NODE::ROOT && self.depth >= 6 && self.entry is Some && self.entry.unwrap().score
                != Score::NONE && !td@.stack[self.ply as int].excluded.present(),
    {
        reveal(probes_singular);
        match &self.entry {
            Some(e) => {
                !NODE::ROOT && self.depth >= 6 && e.mv.is_present() && e.bound != Bound::Upper
                    && is_valid(e.score) && e.depth >= self.depth - 3
                    && td.stack[self.ply as usize].excluded.is_null()
            },
            None => false,
        }
    }

    /// Whether a move is skipped without being searched.
    pub fn skips<NODE: NodeType>(&self, tried: &Tried, mv: Move, in_check: bool) -> (b: bool)
        requires
            self.wf(in_check),
            -Score::INFINITE <= tried.alpha <= Score::INFINITE,
        ensures
            b == skipped(self.node::<NODE>(), tried@, mv, in_check),
            b ==> tried.best_score > -Score::INFINITE,
            b ==> !NODE::PV,
    {
        reveal(skipped);
        reveal(late);
        reveal(futile);
        if NODE::PV || tried.best_score <= -Score::INFINITE {
            return false;
        }
        if !mv.is_noisy() {
            if self.depth <= 4 {
                proof {
                    lemma_small_square(self.depth as int);
                }
                if tried.quiets_searched > 3 + self.depth * self.depth / (1 + one_if(
                    !self.improving,
                )) {
                    return true;
                }
            }
            if !in_check && self.depth <= 5 && is_valid(self.eval) && self.eval + 130 * self.depth
                + 45 < tried.alpha {
                return true;
            }
            false
        } else {
            tried.picker.stage == Stage::BadNoisy && self.depth <= 6
        }
    }

    /// By how much the depth of a late quiet move is reduced.
    pub fn reduction<NODE: NodeType>(
        &self,
        move_count: i32,
        quiet: bool,
        quiet_score: i32,
        base: i32,
        gives_check: bool,
    ) -> (reduction: i32)
        requires
            1 <= self.depth <= MAX_PLY,
            0 <= base <= MAX_PLY,
        ensures
            reduction == late_reduction(
                self.node::<NODE>(),
                move_count as int,
                quiet,
                quiet_score as int,
                base as int,
                gives_check,
            ),
            0 <= reduction <= self.depth - 1,
    {
        reveal(late_reduction);
        if self.depth >= 3 && move_count > 2 && quiet {
            let mut r: i32 = base - quiet_score / 8192;
            r = r - one_if(NODE::PV);
            r = r - one_if(gives_check);
            clamp(r, 0, self.depth - 1)
        } else {
            0
        }
    }
}

proof fn lemma_small_square(depth: int)
    requires
        1 <= depth <= 4,
    ensures
        1 <= depth * depth <= 16,
{
    assert(1 <= depth * depth <= 16) by (nonlinear_arith)
        requires
            1 <= depth <= 4,
    ;
}

/// One for true, nothing for false.
pub fn one_if(b: bool) -> (n: i32)
    ensures
        n == flag(b),
{
    if b {
        1
    } else {
        0
    }
}

/// How far a node has come with its moves.
pub struct Tried {
    pub alpha: i32,
    pub best_score: i32,
    pub best_move: Move,
    pub bound: Bound,
    pub move_count: i32,
    pub quiets_searched: i32,
    /// Quiet moves that were searched and did not turn out best.
    pub quiet_moves: Vec<Move>,
    /// Noisy moves that were searched and did not turn out best.
    pub noisy_moves: Vec<Move>,
    pub picker: MovePicker,
}

impl Tried {
    pub open spec fn view(&self) -> Progress {
        Progress {
            alpha: self.alpha as int,
            best_score: self.best_score as int,
            best_move: self.best_move,
            bound: self.bound,
            move_count: self.move_count as int,
            quiets_searched: self.quiets_searched as int,
            quiet_moves: self.quiet_moves@,
            noisy_moves: self.noisy_moves@,
            picker: self.picker,
        }
    }

    /// The number of moves remembered so far.
    pub open spec fn remembered_count(self) -> nat {
        self.quiet_moves@.len() + self.noisy_moves@.len()
    }

    /// A move has been counted and not yet scored.
    pub open spec fn pending(self) -> bool {
        &&& -Score::INFINITE <= self.alpha <= Score::INFINITE
        &&& 0 <= self.quiets_searched < self.move_count <= self.picker.handed_out <= MAX_MOVES
        &&& self.remembered_count() < self.move_count
        &&& self.remembered_count() <= 32
        &&& if self.move_count == 1 {
            self.best_score == -Score::INFINITE
        } else {
            -Score::MATE <= self.best_score <= Score::MATE
        }
    }

    /// At most 32 moves are remembered, and there is a score as soon as a move
    /// has been counted.
    pub open spec fn wf(self) -> bool {
        &&& -Score::INFINITE <= self.alpha <= Score::INFINITE
        &&& 0 <= self.quiets_searched <= self.move_count <= self.picker.handed_out <= MAX_MOVES
        &&& self.remembered_count() <= self.move_count
        &&& self.remembered_count() <= 32
        &&& if self.move_count == 0 {
            self.best_score == -Score::INFINITE
        } else {
            -Score::MATE <= self.best_score <= Score::MATE
        }
    }
}

impl Tried {
    /// Takes the score of a move into account; the answer is whether the move
    /// is too good for the opponent to allow.
    pub fn advance(&mut self, mv: Move, score: i32, beta: i32) -> (cutoff: bool)
        requires
            old(self).pending(),
            old(self).alpha < beta,
            -Score::MATE <= score <= Score::MATE,
        ensures
            final(self)@ == progressed(old(self)@, mv, score as int, beta as int),
            cutoff == (raises(old(self)@, score as int) && score >= beta),
            final(self).wf(),
            final(self).remembered_count() < final(self).move_count,
            final(self).alpha < beta,
            final(self).picker == old(self).picker,
    {
        reveal(progressed);
        if !mv.is_noisy() {
            self.quiets_searched = self.quiets_searched + 1;
        }
        if score > self.best_score {
            self.best_score = score;
            if score > self.alpha {
                self.bound = Bound::Exact;
                self.best_move = mv;
                if score >= beta {
                    self.bound = Bound::Lower;
                    return true;
                }
                self.alpha = score;
            }
        }
        false
    }

    /// Remembers a move that did not turn out best.
    pub fn remember(&mut self, mv: Move)
        requires
            old(self).wf(),
            old(self).remembered_count() < old(self).move_count,
        ensures
            final(self)@ == remembered(old(self)@, mv),
            final(self).wf(),
            final(self).alpha == old(self).alpha,
            final(self).picker == old(self).picker,
    {
        reveal(remembered);
        if mv != self.best_move && self.move_count <= 32 {
            if mv.is_noisy() {
                self.noisy_moves.push(mv);
            } else {
                self.quiet_moves.push(mv);
            }
        }
    }
}

/// The history tables reward the best move of a node and punish the others.
fn update_histories<NODE: NodeType, B: Backend>(
    td: &mut ThreadData<B>,
    info: &NodeInfo,
    tried: &Tried,
)
    requires
        old(td)@.wf(),
        info.wf(old(td)@.board.current.in_check),
        tried.wf(),
    ensures
        final(td)@ == histories_learned::<B>(old(td)@, info.node::<NODE>(), tried@),
        only_backend(old(td)@, final(td)@),
{
    let depth = info.depth;
    let ply = info.ply;
    let best_move = tried.best_move;
    let stm = td.board.current.side_to_move;
    let threats = td.board.current.threats;
    if best_move.is_noisy() {
        td.backend.noisy_update(
            threats,
            td.board.current.moved_piece(best_move),
            best_move.to(),
            td.board.current.type_on(best_move.to()),
            (89 * depth).min(748),
        );
    } else {
        td.backend.quiet_update(threats, stm, best_move, (185 * depth).min(1648));
        let piece = td.board.current.moved_piece(best_move);
        update_continuation_histories(td, ply, piece, best_move.to(), (107 * depth).min(1051));
        let quiet_malus_now: i32 = (162 * depth).min(1198);
        let cont_malus_now: i32 = (399 * depth).min(933);
        let ghost rewarded = td@;
        let mut i: usize = 0;
        while i < tried.quiet_moves.len()
            invariant
                i <= tried.quiet_moves@.len() <= 32,
                depth == info.depth,
                ply == info.ply,
                1 <= depth <= MAX_PLY,
                0 <= ply < MAX_PLY,
                old(td)@.wf(),
                stm == td@.board.current.side_to_move,
                threats == td@.board.current.threats,
                quiet_malus_now == quiet_malus(depth as int),
                cont_malus_now == continuation_malus(depth as int),
                only_backend(old(td)@, rewarded),
                only_backend(old(td)@, td@),
                td@ == quiets_punished::<B>(
                    rewarded,
                    depth as int,
                    ply as int,
                    tried.quiet_moves@,
                    i as int,
                ),
            decreases tried.quiet_moves@.len() - i,
        {
            let mv = tried.quiet_moves[i];
            let scale: i32 = 1024i32 / (1 + i as i32);
            proof {
                lemma_scale(quiet_malus_now as int, scale as int);
                lemma_scale(cont_malus_now as int, scale as int);
            }
            td.backend.quiet_update(threats, stm, mv, -quiet_malus_now * scale / 1024);
            let piece = td.board.current.moved_piece(mv);
            update_continuation_histories(td, ply, piece, mv.to(), -cont_malus_now * scale / 1024);
            i = i + 1;
        }
    }
    let ghost taught = td@;
    let noisy_malus_now: i32 = (179 * depth).min(1391);
    let mut i: usize = 0;
    while i < tried.noisy_moves.len()
        invariant
            i <= tried.noisy_moves@.len(),
            threats == td@.board.current.threats,
            noisy_malus_now == noisy_malus(depth as int),
            0 <= noisy_malus_now <= 1391,
            only_backend(old(td)@, taught),
            only_backend(old(td)@, td@),
            td@ == noisies_punished::<B>(taught, depth as int, tried.noisy_moves@, i as int),
        decreases tried.noisy_moves@.len() - i,
    {
        let mv = tried.noisy_moves[i];
        td.backend.noisy_update(
            threats,
            td.board.current.moved_piece(mv),
            mv.to(),
            td.board.current.type_on(mv.to()),
            -noisy_malus_now,
        );
        i = i + 1;
    }
}

proof fn lemma_scale(malus: int, scale: int)
    requires
        0 <= malus <= 2000,
        0 <= scale <= 1024,
    ensures
        -3000000 <= -malus * scale <= 0,
{
    assert(-3000000 <= -malus * scale <= 0) by (nonlinear_arith)
        requires
            0 <= malus <= 2000,
            0 <= scale <= 1024,
    ;
}

/// The end of a node: mate or stalemate if it has no moves, else the best
/// score, from which the tables learn.
pub(crate) fn finish_node<NODE: NodeType, B: Backend>(
    td: &mut ThreadData<B>,
    info: &NodeInfo,
    tried: &Tried,
) -> (score: i32)
    requires
        old(td)@.wf(),
        info.wf(old(td)@.board.current.in_check),
        tried.wf(),
    ensures
        (final(td)@, score as int) == node_finished::<B>(
            old(td)@,
            info.node::<NODE>(),
            tried@,
        ),
        -Score::MATE <= score <= Score::MATE,
        only_backend(old(td)@, final(td)@),
        tried.move_count > 0 ==> score == tried.best_score,
{
    reveal(node_finished);
    if tried.move_count == 0 {
        return if td.board.current.in_check {
            mated_in(info.ply)
        } else {
            draw(td)
        };
    }
    if tried.best_move.is_present() {
        update_histories::<NODE, B>(td, info, tried);
    }
    if !(NODE::ROOT && td.pv_index > 0) {
        td.backend.tt_write(
            td.board.current.hash,
            TtEntry {
                mv: tried.best_move,
                score: tried.best_score,
                raw_eval: info.raw_eval,
                depth: info.depth,
                bound: tried.bound,
            },
            info.ply,
            NODE::PV,
            NODE::PV,
        );
    }
    if !td.board.current.in_check && is_valid(info.raw_eval) {
        let skip_update = tried.best_move.is_noisy() || (tried.bound == Bound::Upper
            && tried.best_score >= info.eval) || (tried.bound == Bound::Lower && tried.best_score
            <= info.eval);
        if !skip_update {
            let diff = tried.best_score - info.eval;
            proof {
                lemma_correction_fits(info.depth as int, diff as int);
            }
            update_correction_histories(td, info.depth, diff, info.ply);
        }
    }
    tried.best_score
}

proof fn lemma_correction_fits(depth: int, diff: int)
    requires
        1 <= depth <= 128,
        -64000 <= diff <= 64000,
    ensures
        i32::MIN <= 142 * depth * diff <= i32::MAX,
{
    assert(-18176 * 64000 <= (142 * depth) * diff <= 18176 * 64000) by (nonlinear_arith)
        requires
            1 <= depth <= 128,
            -64000 <= diff <= 64000,
    ;
}

} // verus!
