//! The state of one searching thread.
use crate::backend::Backend;
use crate::board::{Board, BoardState};
use crate::nnue::{Network, NetworkState};
use crate::pv::PvTable;
use crate::stack::{blank_stack, new_stack, StackEntry, STACK_SIZE};
use crate::types::{Move, Score, MAX_PLY};
use vstd::prelude::*;

verus! {

/// What ends a search, as far as the search itself looks after it.
#[derive(Copy, Clone, Debug, PartialEq, Eq, Structural)]
pub enum Limits {
    /// Only the clock or an outside order ends it.
    Open,
    /// It ends after the given depth.
    Depth(i32),
}

/// A move at the root with what is known of it.
pub struct RootMove {
    pub mv: Move,
    pub score: i32,
    pub previous_score: i32,
    pub display_score: i32,
    pub upperbound: bool,
    pub lowerbound: bool,
    pub sel_depth: i32,
    pub nodes: u64,
    /// The line that follows the move.
    pub pv: Vec<Move>,
}

/// A root move, in specifications.
pub struct RootMoveState {
    pub mv: Move,
    pub score: i32,
    pub previous_score: i32,
    pub display_score: i32,
    pub upperbound: bool,
    pub lowerbound: bool,
    pub sel_depth: i32,
    pub nodes: u64,
    pub pv: Seq<Move>,
}

impl RootMove {
    pub open spec fn view(&self) -> RootMoveState {
        RootMoveState {
            mv: self.mv,
            score: self.score,
            previous_score: self.previous_score,
            display_score: self.display_score,
            upperbound: self.upperbound,
            lowerbound: self.lowerbound,
            sel_depth: self.sel_depth,
            nodes: self.nodes,
            pv: self.pv@,
        }
    }
}

/// A root move of which nothing is known yet, in specifications.
pub open spec fn unsearched(mv: Move) -> RootMoveState {
    RootMoveState {
        mv,
        score: (-Score::INFINITE) as i32,
        previous_score: (-Score::INFINITE) as i32,
        display_score: (-Score::INFINITE) as i32,
        upperbound: false,
        lowerbound: false,
        sel_depth: 0,
        nodes: 0,
        pv: Seq::empty(),
    }
}

impl RootMove {
    /// A root move of which nothing is known yet.
    pub fn new(mv: Move) -> (rm: RootMove)
        ensures
            rm@ == unsearched(mv),
    {
        RootMove {
            mv,
            score: -Score::INFINITE,
            previous_score: -Score::INFINITE,
            display_score: -Score::INFINITE,
            upperbound: false,
            lowerbound: false,
            sel_depth: 0,
            nodes: 0,
            pv: Vec::new(),
        }
    }
}

/// A list of root moves, in specifications.
pub open spec fn root_states(root_moves: Seq<RootMove>) -> Seq<RootMoveState> {
    root_moves.map_values(|rm: RootMove| rm@)
}

/// A searching thread.
pub struct ThreadData<'a, B: Backend> {
    pub id: usize,
    pub backend: B,
    pub limits: Limits,
    pub board: Board,
    pub network: Network<'a>,
    pub stack: Vec<StackEntry>,
    pub pv_table: PvTable,
    pub root_moves: Vec<RootMove>,
    /// Positions visited so far.
    pub nodes: u64,
    pub multi_pv: usize,
    pub pv_index: usize,
    pub pv_start: usize,
    pub pv_end: usize,
    pub sel_depth: i32,
    pub root_depth: i32,
    pub completed_depth: i32,
    pub previous_best_score: i32,
}

/// A searching thread, in specifications.
pub struct ThreadState<S> {
    pub id: usize,
    pub backend: S,
    pub limits: Limits,
    pub board: BoardState,
    pub network: NetworkState,
    pub stack: Seq<StackEntry>,
    pub pv_table: Seq<Seq<Move>>,
    pub root_moves: Seq<RootMoveState>,
    pub nodes: u64,
    pub multi_pv: usize,
    pub pv_index: usize,
    pub pv_start: usize,
    pub pv_end: usize,
    pub sel_depth: i32,
    pub root_depth: i32,
    pub completed_depth: i32,
    pub previous_best_score: i32,
}

impl<S> ThreadState<S> {
    /// The thread can begin to search: there is a line for every ply, the
    /// position can be played, and the network is complete.
    pub open spec fn ready(self) -> bool {
        &&& self.pv_table.len() == MAX_PLY + 1
        &&& self.board.current.wf()
        &&& self.network.wf()
    }

    /// There is a line for every ply and a complete stack, and the window of
    /// root moves is within the list.
    pub open spec fn sized(self) -> bool {
        &&& self.pv_table.len() == MAX_PLY + 1
        &&& self.stack.len() == STACK_SIZE
        &&& self.pv_start <= self.pv_end <= self.root_moves.len()
    }

    /// The thread is searching: besides being ready it has a stack, and the
    /// window of root moves is within the list.
    pub open spec fn wf(self) -> bool {
        &&& self.ready()
        &&& self.sized()
    }
}

impl<'a, B: Backend> ThreadData<'a, B> {
    pub open spec fn view(&self) -> ThreadState<B::State> {
        ThreadState {
            id: self.id,
            backend: self.backend.state(),
            limits: self.limits,
            board: self.board@,
            network: self.network@,
            stack: self.stack@,
            pv_table: self.pv_table@,
            root_moves: root_states(self.root_moves@),
            nodes: self.nodes,
            multi_pv: self.multi_pv,
            pv_index: self.pv_index,
            pv_start: self.pv_start,
            pv_end: self.pv_end,
            sel_depth: self.sel_depth,
            root_depth: self.root_depth,
            completed_depth: self.completed_depth,
            previous_best_score: self.previous_best_score,
        }
    }

    /// A thread that is ready to search the given moves.
    pub fn new(
        id: usize,
        backend: B,
        limits: Limits,
        board: Board,
        network: Network<'a>,
        moves: &Vec<Move>,
    ) -> (td: ThreadData<'a, B>)
        ensures
            td@ == (ThreadState {
                id,
                backend: backend.state(),
                limits,
                board: board@,
                network: network@,
                stack: blank_stack(),
                pv_table: Seq::new((MAX_PLY + 1) as nat, |i: int| Seq::<Move>::empty()),
                root_moves: moves@.map_values(|mv: Move| unsearched(mv)),
                nodes: 0,
                multi_pv: 1,
                pv_index: 0,
                pv_start: 0,
                pv_end: moves@.len() as usize,
                sel_depth: 0,
                root_depth: 0,
                completed_depth: 0,
                previous_best_score: Score::NONE,
            }),
            board@.current.wf() && network@.wf() ==> td@.ready(),
    {
        let mut root_moves: Vec<RootMove> = Vec::new();
        let mut i: usize = 0;
        while i < moves.len()
            invariant
                i <= moves@.len(),
                root_moves@.len() == i,
                forall|k: int| 0 <= k < i ==> (#[trigger] root_moves@[k])@ == unsearched(moves@[k]),
            decreases moves@.len() - i,
        {
            root_moves.push(RootMove::new(moves[i]));
            i = i + 1;
        }
        assert(root_states(root_moves@) =~= moves@.map_values(|mv: Move| unsearched(mv)));
        ThreadData {
            id,
            backend,
            limits,
            board,
            network,
            stack: new_stack(),
            pv_table: PvTable::new(),
            root_moves,
            nodes: 0,
            multi_pv: 1,
            pv_index: 0,
            pv_start: 0,
            pv_end: moves.len(),
            sel_depth: 0,
            root_depth: 0,
            completed_depth: 0,
            previous_best_score: Score::NONE,
        }
    }
}

/// A root move begins without a score, a line, or nodes of its own: it counts as lost, and
/// is no bound.
pub proof fn root_moves_begin_as_lost(mv: Move)
    ensures
        ({
            let rm = unsearched(mv);
            &&& rm.mv == mv
            &&& rm.score == -32001
            &&& rm.previous_score == -32001
            &&& rm.display_score == -32001
            &&& !rm.upperbound && !rm.lowerbound
            &&& rm.sel_depth == 0
            &&& rm.nodes == 0
            &&& rm.pv.len() == 0
        }),
{
}

} // verus!
