//! A game written out beforehand: positions, the moves between them, and a
//! record of everything the search has to say about them.
use crate::backend::{Backend, CorrectionTable};
use crate::board::{changed, leads_to, Board, BoardState, PieceChange, Position};
use crate::invariance::quiescence_teaches_nothing;
use crate::model::{quiesced, Thread};
use crate::movepick::{MovePicker, Stage};
use crate::soundness::plain;
use crate::stack::{StackEntry, Subtable};
use crate::thread::{root_states, RootMove, RootMoveState};
use crate::transposition::TtEntry;
use crate::types::{
    clamp, clamped, no_move, square_at, Color, Move, Piece, PieceType, Score, Square, MAX_MOVES,
    MAX_PLY,
};
use vstd::prelude::*;

verus! {

/// A move in the tree.
#[derive(Copy, Clone, Debug, PartialEq, Eq, Structural)]
pub struct Edge {
    pub mv: Move,
    /// How promising the move is.
    pub stage: Stage,
    /// The number of the position that it leads to.
    pub next: usize,
}

/// A position in the tree.
pub struct TreeNode {
    /// The position; its hash is its number in the tree.
    pub position: Position,
    /// Whether the game is drawn here.
    pub drawn: bool,
    /// The moves, in the order in which they are to be tried.
    pub moves: Vec<Edge>,
    /// The number of the position after giving the turn away.
    pub pass: usize,
}

/// What the search says on its way.
#[derive(Copy, Clone, Debug, PartialEq, Eq, Structural)]
pub enum Event {
    /// A quiet move is rewarded or punished.
    Quiet { threats: u64, stm: Color, mv: Move, bonus: i32 },
    /// A noisy move is rewarded or punished.
    Noisy {
        threats: u64,
        piece: Option<Piece>,
        to: Square,
        captured: Option<PieceType>,
        bonus: i32,
    },
    /// A continuation is rewarded or punished.
    Continuation { subtable: Option<Subtable>, piece: Option<Piece>, to: Square, bonus: i32 },
    /// A correction table is moved.
    Correction { table: CorrectionTable, stm: Color, key: u64, bucket: usize, bonus: i32 },
    /// The result of a search is reported.
    Info { depth: i32, score: i32, nodes: u64 },
}

/// A tree, in specifications.
pub struct TreeState {
    pub nodes: Seq<TreeNode>,
    pub table: Seq<Option<TtEntry>>,
    pub reductions: Seq<i32>,
    pub journal: Seq<Event>,
    pub node_limit: u64,
    pub stopped: bool,
}

/// A game written out beforehand.
pub struct GameTree {
    nodes: Vec<TreeNode>,
    table: Vec<Option<TtEntry>>,
    reductions: Vec<i32>,
    journal: Vec<Event>,
    node_limit: u64,
    stopped: bool,
}

/// Whether the positions can be played and the moves stay within the tree.
pub open spec fn sound(nodes: Seq<TreeNode>) -> bool {
    &&& forall|n: int| 0 <= n < nodes.len() ==> (#[trigger] nodes[n]).position.wf()
    &&& forall|n: int, e: int|
        0 <= n < nodes.len() && 0 <= e < nodes[n].moves@.len() ==> (
        #[trigger] nodes[n].moves@[e]).next < nodes.len()
}

/// The first place, from `i` on, of a move in a list.
pub open spec fn edge_place(moves: Seq<Edge>, mv: Move, i: int) -> int
    decreases moves.len() - i,
{
    if i < 0 || i >= moves.len() || moves[i].mv == mv {
        i
    } else {
        edge_place(moves, mv, i + 1)
    }
}

/// The position after a move; an unknown move leads nowhere.
pub open spec fn position_after(nodes: Seq<TreeNode>, position: Position, mv: Move) -> Position {
    if position.hash < nodes.len() {
        let moves = nodes[position.hash as int].moves@;
        let place = edge_place(moves, mv, 0);
        if place < moves.len() {
            nodes[moves[place].next as int].position
        } else {
            position
        }
    } else {
        position
    }
}

/// The position after giving the turn away; from an unknown position it leads
/// to an unknown one.
pub open spec fn position_passed(nodes: Seq<TreeNode>, position: Position) -> Position {
    Position {
        side_to_move: position.side_to_move.other(),
        in_check: false,
        plies_from_null: 0,
        hash: if position.hash < nodes.len() {
            nodes[position.hash as int].pass as u64
        } else {
            position.hash
        },
        ..position
    }
}

/// The changes that turn the content of a square into another.
pub open spec fn content_change(
    before: Option<Piece>,
    after: Option<Piece>,
    square: Square,
) -> Seq<PieceChange> {
    match (before, after) {
        (None, None) => Seq::empty(),
        (None, Some(piece)) => seq![PieceChange::Add { piece, square }],
        (Some(piece), None) => seq![PieceChange::Remove { piece, square }],
        (Some(p), Some(q)) => if p == q {
            Seq::empty()
        } else {
            seq![PieceChange::Mutate { before: p, after: q, square }]
        },
    }
}

/// The changes that turn the first `n` squares of one board into those of
/// another.
pub open spec fn difference(
    before: Seq<Option<Piece>>,
    after: Seq<Option<Piece>>,
    n: int,
) -> Seq<PieceChange>
    decreases n,
{
    if n <= 0 {
        Seq::empty()
    } else {
        difference(before, after, n - 1) + content_change(
            before[n - 1],
            after[n - 1],
            square_at(n - 1),
        )
    }
}

/// One board with the first `n` squares of another.
spec fn overlaid(
    before: Seq<Option<Piece>>,
    after: Seq<Option<Piece>>,
    n: int,
) -> Seq<Option<Piece>> {
    Seq::new(64, |k: int| if k < n { after[k] } else { before[k] })
}

proof fn lemma_difference_leads(before: Seq<Option<Piece>>, after: Seq<Option<Piece>>, n: int)
    requires
        before.len() == 64,
        after.len() == 64,
        0 <= n <= 64,
    ensures
        leads_to(before, difference(before, after, n), overlaid(before, after, n)),
    decreases n,
{
    if n > 0 {
        lemma_difference_leads(before, after, n - 1);
        let k = n - 1;
        let so_far = difference(before, after, k);
        let step = content_change(before[k], after[k], square_at(k));
        assert(square_at(k).ordinal() == k);
        if step.len() > 0 {
            let all = so_far + step;
            assert(all.drop_last() =~= so_far);
            assert(all.last() == step[0]);
            assert(changed(overlaid(before, after, k), step[0]) =~= overlaid(before, after, n));
        } else {
            assert(so_far + step =~= so_far);
            assert(overlaid(before, after, k) =~= overlaid(before, after, n));
        }
    } else {
        assert(overlaid(before, after, 0) =~= before);
    }
}

/// Whether a move may be handed out.
pub open spec fn offered(edge: Edge, skip_quiets: bool) -> bool {
    edge.mv.present() && (edge.mv.noisy() || !skip_quiets)
}

proof fn lemma_offers_are_moves(moves: Seq<Edge>, skip_quiets: bool, n: int, i: int)
    ensures
        nth_offered(moves, skip_quiets, n, i) matches Some((mv, _)) ==> mv.present(),
    decreases moves.len() - i,
{
    if 0 <= i < moves.len() {
        lemma_offers_are_moves(moves, skip_quiets, n, i + 1);
        lemma_offers_are_moves(moves, skip_quiets, n - 1, i + 1);
    }
}

/// The move that comes after `n` others among those that may be handed out,
/// from place `i` on.
pub open spec fn nth_offered(moves: Seq<Edge>, skip_quiets: bool, n: int, i: int) -> Option<
    (Move, Stage),
>
    decreases moves.len() - i,
{
    if i < 0 || i >= moves.len() {
        None
    } else if !offered(moves[i], skip_quiets) {
        nth_offered(moves, skip_quiets, n, i + 1)
    } else if n <= 0 {
        Some((moves[i].mv, moves[i].stage))
    } else {
        nth_offered(moves, skip_quiets, n - 1, i + 1)
    }
}

/// The record with one more event.
pub open spec fn noted(state: TreeState, event: Event) -> TreeState {
    TreeState { journal: state.journal.push(event), ..state }
}

impl GameTree {
    #[verifier::type_invariant]
    spec fn inv(self) -> bool {
        &&& sound(self.nodes@)
        &&& forall|n: int|
            0 <= n < self.table@.len() ==> (#[trigger] self.table@[n] matches Some(e) ==> e.wf())
    }

    /// The tree with its tables and its record.
    pub closed spec fn view(&self) -> TreeState {
        TreeState {
            nodes: self.nodes@,
            table: self.table@,
            reductions: self.reductions@,
            journal: self.journal@,
            node_limit: self.node_limit,
            stopped: self.stopped,
        }
    }

    /// A tree of which nothing is known yet. Reductions are listed depth by
    /// depth, with a place for every number of moves from zero on; the search
    /// ends when the given number of positions has been visited.
    pub fn new(nodes: Vec<TreeNode>, reductions: Vec<i32>, node_limit: u64) -> (tree: GameTree)
        requires
            sound(nodes@),
        ensures
            tree@ == (TreeState {
                nodes: nodes@,
                table: Seq::new(nodes@.len(), |n: int| None::<TtEntry>),
                reductions: reductions@,
                journal: Seq::empty(),
                node_limit,
                stopped: false,
            }),
    {
        let mut table: Vec<Option<TtEntry>> = Vec::new();
        while table.len() < nodes.len()
            invariant
                table@.len() <= nodes@.len(),
                forall|n: int| 0 <= n < table@.len() ==> #[trigger] table@[n] == None::<TtEntry>,
            decreases nodes@.len() - table@.len(),
        {
            table.push(None);
        }
        assert(table@ =~= Seq::new(nodes@.len(), |n: int| None::<TtEntry>));
        GameTree { nodes, table, reductions, journal: Vec::new(), node_limit, stopped: false }
    }

    /// What the search has said so far.
    pub fn journal(&self) -> (journal: &Vec<Event>)
        ensures
            journal@ == self@.journal,
    {
        &self.journal
    }

    /// What the search has found out about a position.
    pub fn entry(&self, number: usize) -> (entry: Option<TtEntry>)
        requires
            number < self@.table.len(),
        ensures
            entry == self@.table[number as int],
    {
        self.table[number]
    }

    fn note(&mut self, event: Event)
        ensures
            final(self)@ == noted(old(self)@, event),
    {
        proof {
            use_type_invariant(&*self);
        }
        let mut journal: Vec<Event> = Vec::new();
        std::mem::swap(&mut journal, &mut self.journal);
        journal.push(event);
        self.journal = journal;
    }
}

/// The changes that turn one board into another.
fn changes_between(before: &Position, after: &Position) -> (changes: Vec<PieceChange>)
    ensures
        changes@ == difference(before.squares@, after.squares@, 64),
        leads_to(before.squares@, changes@, after.squares@),
{
    let mut changes: Vec<PieceChange> = Vec::new();
    let mut k: usize = 0;
    while k < 64
        invariant
            k <= 64,
            changes@ == difference(before.squares@, after.squares@, k as int),
        decreases 64 - k,
    {
        let ghost so_far = changes@;
        let square = Square::new(k);
        match (before.squares[k], after.squares[k]) {
            (None, None) => {},
            (None, Some(piece)) => {
                changes.push(PieceChange::Add { piece, square });
            },
            (Some(piece), None) => {
                changes.push(PieceChange::Remove { piece, square });
            },
            (Some(p), Some(q)) => {
                if p != q {
                    changes.push(PieceChange::Mutate { before: p, after: q, square });
                }
            },
        }
        assert(changes@ =~= so_far + content_change(
            before.squares@[k as int],
            after.squares@[k as int],
            square_at(k as int),
        ));
        k = k + 1;
    }
    proof {
        lemma_difference_leads(before.squares@, after.squares@, 64);
        assert(overlaid(before.squares@, after.squares@, 64) =~= after.squares@);
    }
    changes
}

/// The move that comes after `n` others among those that may be handed out.
fn nth_move(moves: &Vec<Edge>, skip_quiets: bool, n: usize) -> (found: Option<(Move, Stage)>)
    ensures
        found == nth_offered(moves@, skip_quiets, n as int, 0),
{
    let mut left: usize = n;
    let mut e: usize = 0;
    while e < moves.len()
        invariant
            e <= moves@.len(),
            nth_offered(moves@, skip_quiets, n as int, 0) == nth_offered(
                moves@,
                skip_quiets,
                left as int,
                e as int,
            ),
        decreases moves@.len() - e,
    {
        let edge = moves[e];
        if edge.mv.is_present() && (edge.mv.is_noisy() || !skip_quiets) {
            if left == 0 {
                return Some((edge.mv, edge.stage));
            }
            left = left - 1;
        }
        e = e + 1;
    }
    None
}

/// The score of the first root move.
pub open spec fn leading_score(root_moves: Seq<RootMoveState>) -> i32 {
    if root_moves.len() > 0 {
        root_moves[0].score
    } else {
        Score::NONE
    }
}

impl Backend for GameTree {
    type State = TreeState;

    open spec fn state(&self) -> TreeState {
        self@
    }

    open spec fn is_draw_model(state: TreeState, board: BoardState, ply: int) -> bool {
        board.current.hash < state.nodes.len() && state.nodes[board.current.hash as int].drawn
    }

    fn is_draw(&self, board: &Board, _ply: isize) -> (drawn: bool) {
        let hash = board.current.hash;
        hash < self.nodes.len() as u64 && self.nodes[hash as usize].drawn
    }

    open spec fn draw_score_model(state: TreeState, nodes: u64) -> i32 {
        Score::ZERO
    }

    fn draw_score(&self, _nodes: u64) -> (score: i32) {
        Score::ZERO
    }

    open spec fn play_model(state: TreeState, position: Position, mv: Move) -> (
        Position,
        Seq<PieceChange>,
    ) {
        let next = position_after(state.nodes, position, mv);
        (next, difference(position.squares@, next.squares@, 64))
    }

    fn play(&self, position: &Position, mv: Move) -> (next: (Position, Vec<PieceChange>)) {
        proof {
            use_type_invariant(self);
        }
        let mut next: Position = *position;
        if position.hash < self.nodes.len() as u64 {
            let moves = &self.nodes[position.hash as usize].moves;
            let ghost goal = edge_place(moves@, mv, 0);
            let mut e: usize = 0;
            while e < moves.len() && moves[e].mv != mv
                invariant
                    e <= moves@.len(),
                    goal == edge_place(moves@, mv, 0),
                    goal == edge_place(moves@, mv, e as int),
                decreases moves@.len() - e,
            {
                e = e + 1;
            }
            if e < moves.len() {
                assert(moves@[e as int].next < self.nodes@.len());
                next = self.nodes[moves[e].next].position;
            }
        }
        let changes = changes_between(position, &next);
        (next, changes)
    }

    open spec fn pass_model(state: TreeState, position: Position) -> Position {
        position_passed(state.nodes, position)
    }

    fn pass(&self, position: &Position) -> (next: Position) {
        reveal(Position::wf);
        let hash = if position.hash < self.nodes.len() as u64 {
            self.nodes[position.hash as usize].pass as u64
        } else {
            position.hash
        };
        Position {
            side_to_move: position.side_to_move.opponent(),
            in_check: false,
            plies_from_null: 0,
            hash,
            ..*position
        }
    }

    open spec fn pick_model(
        state: TreeState,
        picker: MovePicker,
        board: BoardState,
        stack: Seq<StackEntry>,
        pv: bool,
        root: bool,
        skip_quiets: bool,
        ply: int,
    ) -> (TreeState, Option<(Move, Stage)>) {
        (
            state,
            if picker.handed_out < MAX_MOVES && board.current.hash < state.nodes.len() {
                nth_offered(
                    state.nodes[board.current.hash as int].moves@,
                    skip_quiets,
                    picker.handed_out as int,
                    0,
                )
            } else {
                None
            },
        )
    }

    fn pick(
        &mut self,
        picker: &MovePicker,
        board: &Board,
        _stack: &Vec<StackEntry>,
        _pv: bool,
        _root: bool,
        skip_quiets: bool,
        _ply: isize,
    ) -> (picked: Option<(Move, Stage)>) {
        let hash = board.current.hash;
        if picker.handed_out >= MAX_MOVES || hash >= self.nodes.len() as u64 {
            return None;
        }
        let moves = &self.nodes[hash as usize].moves;
        proof {
            lemma_offers_are_moves(moves@, skip_quiets, picker.handed_out as int, 0);
        }
        nth_move(moves, skip_quiets, picker.handed_out)
    }

    proof fn picks_are_moves(
        state: TreeState,
        picker: MovePicker,
        board: BoardState,
        stack: Seq<StackEntry>,
        pv: bool,
        root: bool,
        skip_quiets: bool,
        ply: int,
    ) {
        lemma_offers_are_moves(
            state.nodes[board.current.hash as int].moves@,
            skip_quiets,
            picker.handed_out as int,
            0,
        );
    }

    open spec fn reduction_base_model(state: TreeState, depth: int, move_count: int) -> i32 {
        let place = 257 * depth + move_count;
        if 0 <= place < state.reductions.len() {
            clamped(state.reductions[place] as int, 0, MAX_PLY as int) as i32
        } else {
            0
        }
    }

    fn reduction_base(&self, depth: i32, move_count: i32) -> (base: i32) {
        let place: usize = 257 * depth as usize + move_count as usize;
        if place < self.reductions.len() {
            clamp(self.reductions[place], 0, MAX_PLY as i32)
        } else {
            0
        }
    }

    open spec fn tt_read_model(state: TreeState, hash: u64, halfmove_clock: u8, ply: int) -> (
        TreeState,
        Option<TtEntry>,
    ) {
        (
            state,
            if hash < state.table.len() {
                state.table[hash as int]
            } else {
                None
            },
        )
    }

    fn tt_read(&mut self, hash: u64, _halfmove_clock: u8, _ply: isize) -> (entry: Option<TtEntry>) {
        proof {
            use_type_invariant(&*self);
        }
        if hash < self.table.len() as u64 {
            self.table[hash as usize]
        } else {
            None
        }
    }

    open spec fn tt_write_model(
        state: TreeState,
        hash: u64,
        entry: TtEntry,
        ply: int,
        tt_pv: bool,
        force: bool,
    ) -> TreeState {
        if hash < state.table.len() {
            TreeState { table: state.table.update(hash as int, Some(entry)), ..state }
        } else {
            state
        }
    }

    fn tt_write(&mut self, hash: u64, entry: TtEntry, _ply: isize, _tt_pv: bool, _force: bool) {
        proof {
            use_type_invariant(&*self);
        }
        if hash < self.table.len() as u64 {
            let mut table: Vec<Option<TtEntry>> = Vec::new();
            std::mem::swap(&mut table, &mut self.table);
            table.set(hash as usize, Some(entry));
            self.table = table;
        }
    }

    open spec fn prefetch_model(state: TreeState, hash: u64) -> TreeState {
        state
    }

    fn prefetch(&mut self, _hash: u64) {
    }

    open spec fn quiet_score_model(state: TreeState, threats: u64, stm: Color, mv: Move) -> i32 {
        0
    }

    fn quiet_score(&self, _threats: u64, _stm: Color, _mv: Move) -> (score: i32) {
        0
    }

    open spec fn quiet_update_model(
        state: TreeState,
        threats: u64,
        stm: Color,
        mv: Move,
        bonus: i32,
    ) -> TreeState {
        noted(state, Event::Quiet { threats, stm, mv, bonus })
    }

    fn quiet_update(&mut self, threats: u64, stm: Color, mv: Move, bonus: i32) {
        self.note(Event::Quiet { threats, stm, mv, bonus });
    }

    open spec fn noisy_update_model(
        state: TreeState,
        threats: u64,
        piece: Option<Piece>,
        to: Square,
        captured: Option<PieceType>,
        bonus: i32,
    ) -> TreeState {
        noted(state, Event::Noisy { threats, piece, to, captured, bonus })
    }

    fn noisy_update(
        &mut self,
        threats: u64,
        piece: Option<Piece>,
        to: Square,
        captured: Option<PieceType>,
        bonus: i32,
    ) {
        self.note(Event::Noisy { threats, piece, to, captured, bonus });
    }

    open spec fn continuation_update_model(
        state: TreeState,
        subtable: Option<Subtable>,
        piece: Option<Piece>,
        to: Square,
        bonus: i32,
    ) -> TreeState {
        noted(state, Event::Continuation { subtable, piece, to, bonus })
    }

    fn continuation_update(
        &mut self,
        subtable: Option<Subtable>,
        piece: Option<Piece>,
        to: Square,
        bonus: i32,
    ) {
        self.note(Event::Continuation { subtable, piece, to, bonus });
    }

    open spec fn correction_model(
        state: TreeState,
        table: CorrectionTable,
        stm: Color,
        key: u64,
        bucket: usize,
    ) -> i32 {
        0
    }

    fn correction(
        &self,
        _table: CorrectionTable,
        _stm: Color,
        _key: u64,
        _bucket: usize,
    ) -> (value: i32) {
        0
    }

    open spec fn correction_update_model(
        state: TreeState,
        table: CorrectionTable,
        stm: Color,
        key: u64,
        bucket: usize,
        bonus: i32,
    ) -> TreeState {
        noted(state, Event::Correction { table, stm, key, bucket, bonus })
    }

    fn correction_update(
        &mut self,
        table: CorrectionTable,
        stm: Color,
        key: u64,
        bucket: usize,
        bonus: i32,
    ) {
        self.note(Event::Correction { table, stm, key, bucket, bonus });
    }

    open spec fn stopped_model(state: TreeState) -> (TreeState, bool) {
        (state, state.stopped)
    }

    fn stopped(&mut self) -> (stopped: bool) {
        self.stopped
    }

    open spec fn stop_model(state: TreeState) -> TreeState {
        TreeState { stopped: true, ..state }
    }

    fn stop(&mut self) {
        proof {
            use_type_invariant(&*self);
        }
        self.stopped = true;
    }

    proof fn stop_is_heard(state: TreeState) {
    }

    proof fn stop_is_final(state: TreeState) {
    }

    open spec fn check_time_model(state: TreeState, nodes: u64, completed_depth: i32) -> (
        TreeState,
        bool,
    ) {
        (state, nodes >= state.node_limit)
    }

    fn check_time(&mut self, nodes: u64, _completed_depth: i32) -> (over: bool) {
        nodes >= self.node_limit
    }

    open spec fn soft_limit_model(state: TreeState, nodes: u64, completed_depth: i32) -> (
        TreeState,
        bool,
    ) {
        (state, nodes >= state.node_limit / 2)
    }

    fn soft_limit(&mut self, nodes: u64, _completed_depth: i32) -> (over: bool) {
        nodes >= self.node_limit / 2
    }

    open spec fn info_model(
        state: TreeState,
        depth: int,
        root_moves: Seq<RootMoveState>,
        nodes: u64,
    ) -> TreeState {
        noted(
            state,
            Event::Info { depth: depth as i32, score: leading_score(root_moves), nodes },
        )
    }

    fn info(&mut self, depth: i32, root_moves: &Vec<RootMove>, nodes: u64) {
        let score = if root_moves.len() > 0 {
            assert(root_states(root_moves@)[0] == root_moves@[0]@);
            root_moves[0].score
        } else {
            Score::NONE
        };
        self.note(Event::Info { depth, score, nodes });
    }
}

/// A quiescence search leaves no trace in the record.
pub proof fn quiescence_is_not_noted(
    t: Thread<GameTree>,
    pv: bool,
    alpha: int,
    beta: int,
    ply: int,
)
    requires
        0 <= ply <= MAX_PLY,
    ensures
        quiesced::<GameTree>(t, pv, alpha, beta, ply).0.backend.journal == t.backend.journal,
{
    let part = |state: TreeState| state.journal;
    quiescence_teaches_nothing::<GameTree, Seq<Event>>(part, t, pv, alpha, beta, ply);
}

/// What is written of a position of the tree is read back, and nothing else that was
/// written is lost; of what is not in the tree nothing is kept.
pub proof fn entries_are_read_back(
    state: TreeState,
    hash: u64,
    other: u64,
    entry: TtEntry,
    halfmove_clock: u8,
    ply: int,
    tt_pv: bool,
    force: bool,
)
    ensures
        ({
            let after = GameTree::tt_write_model(state, hash, entry, ply, tt_pv, force);
            &&& hash < state.table.len() ==> GameTree::tt_read_model(
                after,
                hash,
                halfmove_clock,
                ply,
            ) == (after, Some(entry))
            &&& other != hash ==> GameTree::tt_read_model(after, other, halfmove_clock, ply).1
                == GameTree::tt_read_model(state, other, halfmove_clock, ply).1
            &&& hash >= state.table.len() ==> after == state
            &&& after.journal == state.journal
            &&& after.nodes == state.nodes
            &&& after.stopped == state.stopped
        }),
{
}

/// The moves that may be handed out, of a position in the tree: all of them, or the
/// noisy ones only, in their order.
pub open spec fn offers(moves: Seq<Edge>, skip_quiets: bool) -> Seq<Edge> {
    moves.filter(|edge: Edge| edge.mv != no_move() && (edge.mv.noisy() || !skip_quiets))
}

proof fn lemma_offers_in_order(moves: Seq<Edge>, skip_quiets: bool, n: int, i: int)
    requires
        0 <= i <= moves.len(),
        0 <= n,
    ensures
        ({
            let left = offers(moves.skip(i), skip_quiets);
            nth_offered(moves, skip_quiets, n, i) == if n < left.len() {
                Some((left[n].mv, left[n].stage))
            } else {
                None
            }
        }),
    decreases moves.len() - i,
{
    let may = |edge: Edge| edge.mv != no_move() && (edge.mv.noisy() || !skip_quiets);
    let rest = moves.skip(i);
    if i < moves.len() {
        let tail = moves.skip(i + 1);
        assert(rest =~= seq![moves[i]] + tail);
        Seq::<Edge>::filter_distributes_over_add(seq![moves[i]], tail, may);
        let one = seq![moves[i]];
        reveal_with_fuel(Seq::filter, 2);
        assert(one.drop_last() =~= Seq::<Edge>::empty());
        assert(one.filter(may) =~= if may(moves[i]) {
            one
        } else {
            Seq::<Edge>::empty()
        });
        lemma_offers_in_order(moves, skip_quiets, n, i + 1);
        if may(moves[i]) && n > 0 {
            lemma_offers_in_order(moves, skip_quiets, n - 1, i + 1);
        }
    } else {
        reveal_with_fuel(Seq::filter, 1);
        assert(rest =~= Seq::<Edge>::empty());
    }
}

/// A position of the tree hands out its moves one after the other, each once: after
/// so many, the next of those that may be handed out, and none after the last.
pub proof fn moves_are_handed_out_in_order(
    state: TreeState,
    picker: MovePicker,
    board: BoardState,
    stack: Seq<StackEntry>,
    pv: bool,
    root: bool,
    skip_quiets: bool,
    ply: int,
)
    requires
        picker.handed_out < MAX_MOVES,
        board.current.hash < state.nodes.len(),
    ensures
        ({
            let left = offers(state.nodes[board.current.hash as int].moves@, skip_quiets);
            let n = picker.handed_out as int;
            GameTree::pick_model(state, picker, board, stack, pv, root, skip_quiets, ply) == (
                state,
                if n < left.len() {
                    Some((left[n].mv, left[n].stage))
                } else {
                    None
                },
            )
        }),
{
    let moves = state.nodes[board.current.hash as int].moves@;
    lemma_offers_in_order(moves, skip_quiets, picker.handed_out as int, 0);
    assert(moves.skip(0) =~= moves);
}

/// Playing a move of a position leads where the tree says, by changes that turn the
/// one board into the other; a move that the position does not have leads nowhere.
pub proof fn moves_lead_where_the_tree_says(
    state: TreeState,
    position: Position,
    mv: Move,
    e: int,
)
    requires
        position.hash < state.nodes.len(),
    ensures
        ({
            let moves = state.nodes[position.hash as int].moves@;
            let (next, changes) = GameTree::play_model(state, position, mv);
            &&& 0 <= e < moves.len() && moves[e].mv == mv && (forall|k: int|
                0 <= k < e ==> (#[trigger] moves[k]).mv != mv) ==> next
                == state.nodes[moves[e].next as int].position
            &&& (forall|k: int| 0 <= k < moves.len() ==> (#[trigger] moves[k]).mv != mv) ==> next
                == position
            &&& leads_to(position.squares@, changes, next.squares@)
        }),
{
    let moves = state.nodes[position.hash as int].moves@;
    let next = GameTree::play_model(state, position, mv).0;
    lemma_difference_leads(position.squares@, next.squares@, 64);
    assert(overlaid(position.squares@, next.squares@, 64) =~= next.squares@);
    if 0 <= e < moves.len() && moves[e].mv == mv && (forall|k: int|
        0 <= k < e ==> (#[trigger] moves[k]).mv != mv) {
        lemma_edge_found(moves, mv, 0, e);
    }
    if forall|k: int| 0 <= k < moves.len() ==> (#[trigger] moves[k]).mv != mv {
        lemma_edge_missing(moves, mv, 0);
    }
}

proof fn lemma_edge_found(moves: Seq<Edge>, mv: Move, from: int, e: int)
    requires
        0 <= from <= e < moves.len(),
        moves[e].mv == mv,
        forall|k: int| from <= k < e ==> (#[trigger] moves[k]).mv != mv,
    ensures
        edge_place(moves, mv, from) == e,
    decreases e - from,
{
    if from < e {
        lemma_edge_found(moves, mv, from + 1, e);
    }
}

proof fn lemma_edge_missing(moves: Seq<Edge>, mv: Move, from: int)
    requires
        0 <= from <= moves.len(),
        forall|k: int| from <= k < moves.len() ==> (#[trigger] moves[k]).mv != mv,
    ensures
        edge_place(moves, mv, from) == moves.len(),
    decreases moves.len() - from,
{
    if from < moves.len() {
        lemma_edge_missing(moves, mv, from + 1);
    }
}

/// Whatever the search says is recorded, one event after the other, and nothing that
/// was recorded is lost. Being told to stop is heard, and so is the limit of nodes;
/// no iteration is to be begun beyond half of it.
pub proof fn everything_said_is_recorded(state: TreeState, event: Event, nodes: u64)
    ensures
        noted(state, event).journal == state.journal.push(event),
        noted(state, event).table == state.table,
        noted(state, event).stopped == state.stopped,
        GameTree::stopped_model(GameTree::stop_model(state)).1,
        GameTree::check_time_model(state, nodes, 0).1 <==> nodes >= state.node_limit,
        GameTree::soft_limit_model(state, nodes, 0).1 <==> 2 * nodes + 1 >= state.node_limit,
{
}

/// The states of a tree of the given positions that keeps no table and has not been
/// told to stop.
pub open spec fn without_a_table(nodes: Seq<TreeNode>) -> spec_fn(TreeState) -> bool {
    |s: TreeState| s.nodes == nodes && s.table.len() == 0 && !s.stopped
}

/// A tree that keeps no table goes by the position alone, until it is told to stop.
pub proof fn trees_without_a_table_are_plain(state: TreeState)
    requires
        state.table.len() == 0,
        !state.stopped,
    ensures
        plain::<GameTree>(state, without_a_table(state.nodes)),
{
    assert forall|position: Position, mv: Move|
        leads_to(
            position.squares@,
            (#[trigger] GameTree::play_model(state, position, mv)).1,
            GameTree::play_model(state, position, mv).0.squares@,
        ) by {
        let next = GameTree::play_model(state, position, mv).0;
        lemma_difference_leads(position.squares@, next.squares@, 64);
        assert(overlaid(position.squares@, next.squares@, 64) =~= next.squares@);
    }
}

/// Giving the turn away changes nothing on the board: the other side is to move, not in
/// check, with no move since, in the position that the tree names.
pub proof fn passing_leads_where_the_tree_says(state: TreeState, position: Position)
    ensures
        ({
            let next = GameTree::pass_model(state, position);
            &&& next.squares == position.squares
            &&& next.side_to_move == position.side_to_move.other()
            &&& !next.in_check
            &&& next.plies_from_null == 0
            &&& position.hash < state.nodes.len() ==> next.hash
                == state.nodes[position.hash as int].pass
            &&& next == (Position {
                side_to_move: next.side_to_move,
                in_check: next.in_check,
                plies_from_null: next.plies_from_null,
                hash: next.hash,
                ..position
            })
        }),
{
}

/// A report is recorded with the depth, the score of the first root move, and the nodes.
pub proof fn reports_name_the_leader(
    state: TreeState,
    depth: i32,
    root_moves: Seq<RootMoveState>,
    nodes: u64,
)
    requires
        root_moves.len() > 0,
    ensures
        GameTree::info_model(state, depth as int, root_moves, nodes) == noted(
            state,
            Event::Info { depth, score: root_moves[0].score, nodes },
        ),
{
}

/// The reductions of a tree are listed depth by depth, 257 to each, one for every number
/// of moves from none to 256, and are held between nothing and the number of plies.
pub proof fn reductions_have_their_places(state: TreeState, depth: int, move_count: int)
    requires
        0 <= depth,
        0 <= move_count <= 256,
    ensures
        ({
            let place = 257 * depth + move_count;
            let base = GameTree::reduction_base_model(state, depth, move_count);
            &&& place >= state.reductions.len() ==> base == 0
            &&& place < state.reductions.len() && 0 <= state.reductions[place] <= 128 ==> base
                == state.reductions[place]
            &&& 0 <= base <= 128
        }),
{
}

} // verus!
