//! What the search asks of the rest of the engine: the rules of play, the
//! order of moves, the tables that threads share, and the clock.
use crate::board::{leads_to, Board, BoardState, PieceChange, Position};
use crate::movepick::{MovePicker, Stage};
use crate::stack::{StackEntry, Subtable};
use crate::thread::{root_states, RootMove, RootMoveState};
use crate::transposition::TtEntry;
use crate::types::{Color, Move, Piece, PieceType, Score, Square, MAX_MOVES, MAX_PLY};
use vstd::prelude::*;

verus! {

/// Correction values stay within this, on either side.
pub const MAX_CORRECTION: i32 = 16384;

/// The tables of corrections to the static evaluation.
#[derive(Copy, Clone, Debug, PartialEq, Eq, Structural)]
pub enum CorrectionTable {
    /// By the pawn structure.
    Pawn,
    /// By one side's chessmen other than pawns.
    NonPawn(Color),
}

/// The rest of the engine. Every question and every message takes the engine
/// from one state to the next; the functions named `.._model` say to which,
/// and with what answer.
pub trait Backend: Sized {
    type State;

    spec fn state(&self) -> Self::State;

    spec fn is_draw_model(state: Self::State, board: BoardState, ply: int) -> bool;

    /// Whether the game is drawn by rule on this board.
    fn is_draw(&self, board: &Board, ply: isize) -> (drawn: bool)
        ensures
            drawn == Self::is_draw_model(self.state(), board@, ply as int),
    ;

    spec fn draw_score_model(state: Self::State, nodes: u64) -> i32;

    /// The score of a draw.
    fn draw_score(&self, nodes: u64) -> (score: i32)
        ensures
            score == Self::draw_score_model(self.state(), nodes),
            -Score::MATE <= score <= Score::MATE,
    ;

    spec fn play_model(state: Self::State, position: Position, mv: Move) -> (
        Position,
        Seq<PieceChange>,
    );

    /// The position after a move, and the changes that lead there.
    fn play(&self, position: &Position, mv: Move) -> (next: (Position, Vec<PieceChange>))
        requires
            position.wf(),
        ensures
            next.0 == Self::play_model(self.state(), *position, mv).0,
            next.1@ == Self::play_model(self.state(), *position, mv).1,
            next.0.wf(),
            leads_to(position.squares@, next.1@, next.0.squares@),
    ;

    spec fn pass_model(state: Self::State, position: Position) -> Position;

    /// The position after giving the turn to the opponent.
    fn pass(&self, position: &Position) -> (next: Position)
        requires
            position.wf(),
        ensures
            next == Self::pass_model(self.state(), *position),
            next.wf(),
            next.squares@ == position.squares@,
    ;

    spec fn pick_model(
        state: Self::State,
        picker: MovePicker,
        board: BoardState,
        stack: Seq<StackEntry>,
        pv: bool,
        root: bool,
        skip_quiets: bool,
        ply: int,
    ) -> (Self::State, Option<(Move, Stage)>);

    /// The next move of a node in the order of their promise, and the stage it
    /// comes from.
    fn pick(
        &mut self,
        picker: &MovePicker,
        board: &Board,
        stack: &Vec<StackEntry>,
        pv: bool,
        root: bool,
        skip_quiets: bool,
        ply: isize,
    ) -> (picked: Option<(Move, Stage)>)
        ensures
            (final(self).state(), picked) == Self::pick_model(
                old(self).state(),
                *picker,
                board@,
                stack@,
                pv,
                root,
                skip_quiets,
                ply as int,
            ),
            picked is Some ==> picker.handed_out < MAX_MOVES,
            picked matches Some((mv, _)) ==> mv.present(),
    ;

    /// What is handed out is a move.
    proof fn picks_are_moves(
        state: Self::State,
        picker: MovePicker,
        board: BoardState,
        stack: Seq<StackEntry>,
        pv: bool,
        root: bool,
        skip_quiets: bool,
        ply: int,
    )
        ensures
            Self::pick_model(state, picker, board, stack, pv, root, skip_quiets, ply).1 matches Some(
                (mv, _),
            ) ==> mv.present(),
    ;

    spec fn reduction_base_model(state: Self::State, depth: int, move_count: int) -> i32;

    /// Half the product of the natural logarithms of the depth and the move
    /// count, without its fraction.
    fn reduction_base(&self, depth: i32, move_count: i32) -> (base: i32)
        requires
            1 <= depth <= MAX_PLY,
            1 <= move_count <= MAX_MOVES,
        ensures
            base == Self::reduction_base_model(self.state(), depth as int, move_count as int),
            0 <= base <= MAX_PLY,
    ;

    spec fn tt_read_model(state: Self::State, hash: u64, halfmove_clock: u8, ply: int) -> (
        Self::State,
        Option<TtEntry>,
    );

    /// What the transposition table knows of a position.
    fn tt_read(&mut self, hash: u64, halfmove_clock: u8, ply: isize) -> (entry: Option<TtEntry>)
        ensures
            (final(self).state(), entry) == Self::tt_read_model(
                old(self).state(),
                hash,
                halfmove_clock,
                ply as int,
            ),
            entry matches Some(e) ==> e.wf(),
    ;

    spec fn tt_write_model(
        state: Self::State,
        hash: u64,
        entry: TtEntry,
        ply: int,
        tt_pv: bool,
        force: bool,
    ) -> Self::State;

    /// Offers the transposition table an entry for a position.
    fn tt_write(&mut self, hash: u64, entry: TtEntry, ply: isize, tt_pv: bool, force: bool)
        requires
            entry.wf(),
        ensures
            final(self).state() == Self::tt_write_model(
                old(self).state(),
                hash,
                entry,
                ply as int,
                tt_pv,
                force,
            ),
    ;

    spec fn prefetch_model(state: Self::State, hash: u64) -> Self::State;

    /// Says that a position's entry will be asked for soon.
    fn prefetch(&mut self, hash: u64)
        ensures
            final(self).state() == Self::prefetch_model(old(self).state(), hash),
    ;

    spec fn quiet_score_model(state: Self::State, threats: u64, stm: Color, mv: Move) -> i32;

    /// How well a quiet move has done so far.
    fn quiet_score(&self, threats: u64, stm: Color, mv: Move) -> (score: i32)
        ensures
            score == Self::quiet_score_model(self.state(), threats, stm, mv),
    ;

    spec fn quiet_update_model(
        state: Self::State,
        threats: u64,
        stm: Color,
        mv: Move,
        bonus: i32,
    ) -> Self::State;

    /// Rewards a quiet move, or punishes it by a negative bonus.
    fn quiet_update(&mut self, threats: u64, stm: Color, mv: Move, bonus: i32)
        ensures
            final(self).state() == Self::quiet_update_model(
                old(self).state(),
                threats,
                stm,
                mv,
                bonus,
            ),
    ;

    spec fn noisy_update_model(
        state: Self::State,
        threats: u64,
        piece: Option<Piece>,
        to: Square,
        captured: Option<PieceType>,
        bonus: i32,
    ) -> Self::State;

    /// Rewards a noisy move, or punishes it by a negative bonus.
    fn noisy_update(
        &mut self,
        threats: u64,
        piece: Option<Piece>,
        to: Square,
        captured: Option<PieceType>,
        bonus: i32,
    )
        ensures
            final(self).state() == Self::noisy_update_model(
                old(self).state(),
                threats,
                piece,
                to,
                captured,
                bonus,
            ),
    ;

    spec fn continuation_update_model(
        state: Self::State,
        subtable: Option<Subtable>,
        piece: Option<Piece>,
        to: Square,
        bonus: i32,
    ) -> Self::State;

    /// Rewards a chessman's going to a square after an earlier move, or
    /// punishes it by a negative bonus.
    fn continuation_update(
        &mut self,
        subtable: Option<Subtable>,
        piece: Option<Piece>,
        to: Square,
        bonus: i32,
    )
        ensures
            final(self).state() == Self::continuation_update_model(
                old(self).state(),
                subtable,
                piece,
                to,
                bonus,
            ),
    ;

    spec fn correction_model(
        state: Self::State,
        table: CorrectionTable,
        stm: Color,
        key: u64,
        bucket: usize,
    ) -> i32;

    /// By how much a table finds the static evaluation off.
    fn correction(
        &self,
        table: CorrectionTable,
        stm: Color,
        key: u64,
        bucket: usize,
    ) -> (value: i32)
        ensures
            value == Self::correction_model(self.state(), table, stm, key, bucket),
            -MAX_CORRECTION <= value <= MAX_CORRECTION,
    ;

    spec fn correction_update_model(
        state: Self::State,
        table: CorrectionTable,
        stm: Color,
        key: u64,
        bucket: usize,
        bonus: i32,
    ) -> Self::State;

    /// Moves a table's correction in the direction of the bonus.
    fn correction_update(
        &mut self,
        table: CorrectionTable,
        stm: Color,
        key: u64,
        bucket: usize,
        bonus: i32,
    )
        ensures
            final(self).state() == Self::correction_update_model(
                old(self).state(),
                table,
                stm,
                key,
                bucket,
                bonus,
            ),
    ;

    spec fn stopped_model(state: Self::State) -> (Self::State, bool);

    /// Whether the search has been told to stop, by whatever thread.
    fn stopped(&mut self) -> (stopped: bool)
        ensures
            (final(self).state(), stopped) == Self::stopped_model(old(self).state()),
    ;

    spec fn stop_model(state: Self::State) -> Self::State;

    /// Tells every thread to stop.
    fn stop(&mut self)
        ensures
            final(self).state() == Self::stop_model(old(self).state()),
            Self::stopped_model(final(self).state()).1,
    ;

    /// The order to stop is heard.
    proof fn stop_is_heard(state: Self::State)
        ensures
            Self::stopped_model(Self::stop_model(state)).1,
    ;

    /// Once the search has been told to stop, it stays told, whatever is asked
    /// or said.
    proof fn stop_is_final(state: Self::State)
        requires
            Self::stopped_model(state).1,
        ensures
            Self::stopped_model(Self::stopped_model(state).0).1,
            forall|
                picker: MovePicker,
                board: BoardState,
                stack: Seq<StackEntry>,
                pv: bool,
                root: bool,
                skip_quiets: bool,
                ply: int,
            |
                Self::stopped_model(
                    (#[trigger] Self::pick_model(
                        state,
                        picker,
                        board,
                        stack,
                        pv,
                        root,
                        skip_quiets,
                        ply,
                    )).0,
                ).1,
            forall|hash: u64, halfmove_clock: u8, ply: int|
                Self::stopped_model(
                    (#[trigger] Self::tt_read_model(state, hash, halfmove_clock, ply)).0,
                ).1,
            forall|hash: u64, entry: TtEntry, ply: int, tt_pv: bool, force: bool|
                Self::stopped_model(
                    #[trigger] Self::tt_write_model(state, hash, entry, ply, tt_pv, force),
                ).1,
            forall|hash: u64| Self::stopped_model(#[trigger] Self::prefetch_model(state, hash)).1,
            forall|threats: u64, stm: Color, mv: Move, bonus: i32|
                Self::stopped_model(
                    #[trigger] Self::quiet_update_model(state, threats, stm, mv, bonus),
                ).1,
            forall|
                threats: u64,
                piece: Option<Piece>,
                to: Square,
                captured: Option<PieceType>,
                bonus: i32,
            |
                Self::stopped_model(
                    #[trigger] Self::noisy_update_model(
                        state,
                        threats,
                        piece,
                        to,
                        captured,
                        bonus,
                    ),
                ).1,
            forall|subtable: Option<Subtable>, piece: Option<Piece>, to: Square, bonus: i32|
                Self::stopped_model(
                    #[trigger] Self::continuation_update_model(state, subtable, piece, to, bonus),
                ).1,
            forall|table: CorrectionTable, stm: Color, key: u64, bucket: usize, bonus: i32|
                Self::stopped_model(
                    #[trigger] Self::correction_update_model(state, table, stm, key, bucket, bonus),
                ).1,
            forall|nodes: u64, completed_depth: i32|
                Self::stopped_model(
                    (#[trigger] Self::check_time_model(state, nodes, completed_depth)).0,
                ).1,
            forall|nodes: u64, completed_depth: i32|
                Self::stopped_model(
                    (#[trigger] Self::soft_limit_model(state, nodes, completed_depth)).0,
                ).1,
            forall|depth: int, root_moves: Seq<RootMoveState>, nodes: u64|
                Self::stopped_model(
                    #[trigger] Self::info_model(state, depth, root_moves, nodes),
                ).1,
    ;

    spec fn check_time_model(state: Self::State, nodes: u64, completed_depth: i32) -> (
        Self::State,
        bool,
    );

    /// Whether the search must end at once.
    fn check_time(&mut self, nodes: u64, completed_depth: i32) -> (over: bool)
        ensures
            (final(self).state(), over) == Self::check_time_model(
                old(self).state(),
                nodes,
                completed_depth,
            ),
    ;

    spec fn soft_limit_model(state: Self::State, nodes: u64, completed_depth: i32) -> (
        Self::State,
        bool,
    );

    /// Whether it is too late to begin another iteration.
    fn soft_limit(&mut self, nodes: u64, completed_depth: i32) -> (over: bool)
        ensures
            (final(self).state(), over) == Self::soft_limit_model(
                old(self).state(),
                nodes,
                completed_depth,
            ),
    ;

    spec fn info_model(
        state: Self::State,
        depth: int,
        root_moves: Seq<RootMoveState>,
        nodes: u64,
    ) -> Self::State;

    /// Reports the result of the search to a depth.
    fn info(&mut self, depth: i32, root_moves: &Vec<RootMove>, nodes: u64)
        ensures
            final(self).state() == Self::info_model(
                old(self).state(),
                depth as int,
                root_states(root_moves@),
                nodes,
            ),
    ;
}

} // verus!
