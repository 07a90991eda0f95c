use tono_chess::alphabeta::search;
use tono_chess::backend::{Backend, CorrectionTable};
use tono_chess::board::{Board, Position};
use tono_chess::game_tree::{Edge, Event, GameTree, TreeNode};
use tono_chess::movepick::Stage;
use tono_chess::nnue::{Network, Parameters};
use tono_chess::node::NodeInfo;
use tono_chess::quiescence::qsearch;
use tono_chess::search::{start, NonPV, Report, Root, PV};
use tono_chess::steps::{
    eval_correction, make_move, undo_move, update_continuation_histories,
    update_correction_histories,
};
use tono_chess::thread::{Limits, ThreadData};
use tono_chess::transposition::{Bound, TtDepth, TtEntry};
use tono_chess::types::{Color, Move, MoveKind, Piece, PieceType, Score, Square};

/// Every hidden value of a side is the worth of its own men: a pawn more is 46,
/// a knight 139, a rook 232, a queen 418.
fn material_parameters() -> Parameters {
    let worth = [10i16, 30, 31, 50, 90, 0];
    let mut p = Parameters {
        input_weights: vec![[0i16; 384]; 768],
        input_bias: [0i16; 384],
        output_weights: vec![[0i16; 768]; 4],
        output_bias: [0i16; 4],
    };
    for feature in 0..384 {
        p.input_weights[feature] = [worth[feature / 64]; 384];
    }
    for bucket in 0..4 {
        for k in 0..384 {
            p.output_weights[bucket][k] = 127;
            p.output_weights[bucket][384 + k] = -127;
        }
    }
    p
}

/// A position with both kings and some men of White.
fn position(hash: u64, side_to_move: Color, men: &[(usize, PieceType)]) -> Position {
    let mut squares = [None; 64];
    squares[4] = Some(Piece::new(Color::White, PieceType::King));
    squares[60] = Some(Piece::new(Color::Black, PieceType::King));
    for (square, kind) in men {
        squares[*square] = Some(Piece::new(Color::White, *kind));
    }
    Position {
        squares,
        side_to_move,
        in_check: false,
        halfmove_clock: 0,
        halfmove_clock_bucket: 0,
        plies_from_null: 1,
        hash,
        pawn_key: 11,
        white_non_pawn_key: 12,
        black_non_pawn_key: 13,
        threats: 0,
    }
}

fn node(position: Position, moves: Vec<Edge>) -> TreeNode {
    TreeNode { position, drawn: false, moves, pass: 1000 }
}

fn quiet(from: usize, to: usize) -> Move {
    Move { from: Square::new(from), to: Square::new(to), kind: MoveKind::Normal }
}

fn capture(from: usize, to: usize) -> Move {
    Move { from: Square::new(from), to: Square::new(to), kind: MoveKind::Capture }
}

fn edge(mv: Move, next: usize) -> Edge {
    Edge { mv, stage: Stage::Quiet, next }
}

fn thread<'a>(
    nodes: Vec<TreeNode>,
    limits: Limits,
    node_limit: u64,
    p: &'a Parameters,
) -> ThreadData<'a, GameTree> {
    let root = nodes[0].position;
    let moves: Vec<Move> = nodes[0].moves.iter().map(|e| e.mv).collect();
    let board = Board::new(root);
    let mut network = Network::new(p);
    network.full_refresh(&board);
    ThreadData::new(0, GameTree::new(nodes, Vec::new(), node_limit), limits, board, network, &moves)
}

/// White has a quiet move, a move that mates, and a move that stalemates.
fn mating_tree() -> Vec<TreeNode> {
    let queen = [(12, PieceType::Queen)];
    let mut mated = position(2, Color::Black, &[(52, PieceType::Queen)]);
    mated.in_check = true;
    vec![
        node(
            position(0, Color::White, &queen),
            vec![edge(quiet(12, 13), 1), edge(quiet(12, 52), 2), edge(quiet(12, 44), 3)],
        ),
        node(position(1, Color::Black, &[(13, PieceType::Queen)]), vec![edge(quiet(60, 61), 4)]),
        node(mated, Vec::new()),
        node(position(3, Color::Black, &[(44, PieceType::Queen)]), Vec::new()),
        node(position(4, Color::White, &[(13, PieceType::Queen)]), vec![edge(quiet(13, 14), 5)]),
        node(position(5, Color::Black, &[(14, PieceType::Queen)]), vec![edge(quiet(61, 60), 6)]),
        node(position(6, Color::White, &[(14, PieceType::Queen)]), vec![edge(quiet(14, 13), 1)]),
    ]
}

#[test]
fn mate_is_found_and_preferred() {
    let p = material_parameters();
    let mut td = thread(mating_tree(), Limits::Depth(4), 100_000, &p);
    start(&mut td, Report::Silent, 1);
    assert_eq!(td.completed_depth, 4);
    assert_eq!(td.root_moves[0].mv, quiet(12, 52));
    assert_eq!(td.root_moves[0].score, 31999);
    assert_eq!(td.previous_best_score, 31999);
    assert_eq!(td.root_moves[0].pv.len(), 0);
    assert!(!td.root_moves[0].upperbound && !td.root_moves[0].lowerbound);
}

#[test]
fn mate_score_counts_from_the_root() {
    let p = material_parameters();
    let mut mated = position(2, Color::Black, &[(52, PieceType::Queen)]);
    mated.in_check = true;
    let nodes = vec![
        node(position(0, Color::Black, &[(12, PieceType::Queen)]), vec![edge(quiet(60, 61), 1)]),
        node(position(1, Color::White, &[(12, PieceType::Queen)]), vec![edge(quiet(12, 52), 2)]),
        node(mated, Vec::new()),
    ];
    let mut td = thread(nodes, Limits::Depth(2), 100_000, &p);
    start(&mut td, Report::Silent, 1);
    assert_eq!(td.root_moves[0].score, -31998);
    assert_eq!(td.root_moves[0].pv, vec![quiet(12, 52)]);
}

#[test]
fn stalemate_is_a_draw() {
    let p = material_parameters();
    let nodes = vec![
        node(position(0, Color::White, &[(12, PieceType::Queen)]), vec![edge(quiet(12, 44), 1)]),
        node(position(1, Color::Black, &[(44, PieceType::Queen)]), Vec::new()),
    ];
    let mut td = thread(nodes, Limits::Depth(2), 100_000, &p);
    start(&mut td, Report::Silent, 1);
    assert_eq!(td.completed_depth, 2);
    assert_eq!(td.root_moves[0].score, 0);
}

#[test]
fn drawn_positions_are_level() {
    let p = material_parameters();
    let mut nodes = mating_tree();
    nodes[1].drawn = true;
    let mut td = thread(nodes, Limits::Depth(1), 100_000, &p);
    td.root_moves.truncate(1);
    start(&mut td, Report::Silent, 1);
    assert_eq!(td.root_moves[0].score, 0);
}

#[test]
fn without_root_moves_nothing_happens() {
    let p = material_parameters();
    let nodes = vec![node(position(0, Color::White, &[]), Vec::new())];
    let mut td = thread(nodes, Limits::Open, 100_000, &p);
    td.completed_depth = 9;
    start(&mut td, Report::Minimal, 1);
    assert_eq!(td.completed_depth, 0);
    assert_eq!(td.backend.journal().len(), 0);
    assert_eq!(td.nodes, 0);
    assert_eq!(td.previous_best_score, Score::NONE);
}

#[test]
fn depth_limit_ends_the_search() {
    let p = material_parameters();
    let mut td = thread(mating_tree(), Limits::Depth(2), 100_000, &p);
    start(&mut td, Report::Full, 1);
    assert_eq!(td.completed_depth, 2);
    assert!(td.backend.stopped());
    let infos: Vec<(i32, i32)> = td
        .backend
        .journal()
        .iter()
        .filter_map(|e| match e {
            Event::Info { depth, score, .. } => Some((*depth, *score)),
            _ => None,
        })
        .collect();
    assert_eq!(infos, vec![(1, 31999), (2, 31999)]);
}

#[test]
fn depth_limit_binds_the_main_thread_only() {
    let p = material_parameters();
    let mut td = thread(mating_tree(), Limits::Depth(2), 100, &p);
    td.id = 1;
    start(&mut td, Report::Silent, 2);
    assert!(td.completed_depth > 2);
}

#[test]
fn minimal_report_comes_once() {
    let p = material_parameters();
    let mut td = thread(mating_tree(), Limits::Depth(3), 100_000, &p);
    start(&mut td, Report::Minimal, 1);
    let infos = td
        .backend
        .journal()
        .iter()
        .filter(|e| matches!(e, Event::Info { depth: 3, score: 31999, .. }))
        .count();
    assert_eq!(infos, 1);
    let mut silent = thread(mating_tree(), Limits::Depth(3), 100_000, &p);
    start(&mut silent, Report::Silent, 1);
    assert!(!silent.backend.journal().iter().any(|e| matches!(e, Event::Info { .. })));
}

#[test]
fn running_out_of_time_stops_at_once() {
    let p = material_parameters();
    let mut td = thread(mating_tree(), Limits::Open, 0, &p);
    start(&mut td, Report::Minimal, 1);
    assert_eq!(td.completed_depth, 0);
    assert_eq!(td.nodes, 0);
    assert_eq!(td.root_moves[0].mv, quiet(12, 13));
    assert_eq!(td.root_moves[0].score, -Score::INFINITE);
    assert_eq!(
        td.backend.journal(),
        &vec![Event::Info { depth: 1, score: -Score::INFINITE, nodes: 0 }]
    );
}

#[test]
fn search_leaves_the_board_and_the_network_alone() {
    let p = material_parameters();
    let mut td = thread(mating_tree(), Limits::Depth(5), 100_000, &p);
    let men = td.board.current.piece_count();
    let before = td.network.evaluate(Color::White, men);
    start(&mut td, Report::Silent, 1);
    assert_eq!(td.board.current.hash, 0);
    assert_eq!(td.board.history.len(), 0);
    assert_eq!(td.network.evaluate(Color::White, men), before);
    assert_eq!(before, 418);
    let mut moves: Vec<Move> = td.root_moves.iter().map(|rm| rm.mv).collect();
    moves.sort_by_key(|mv| mv.to.index());
    assert_eq!(moves, vec![quiet(12, 13), quiet(12, 44), quiet(12, 52)]);
}

#[test]
fn root_nodes_add_up() {
    let p = material_parameters();
    let mut td = thread(mating_tree(), Limits::Depth(3), 100_000, &p);
    start(&mut td, Report::Silent, 1);
    let sum: u64 = td.root_moves.iter().map(|rm| rm.nodes).sum();
    assert_eq!(sum, td.nodes);
    assert!(sum > 0);
}

#[test]
fn making_and_undoing_a_move_meets_the_old_position() {
    let p = material_parameters();
    let mut td = thread(mating_tree(), Limits::Open, 100, &p);
    td.board.current.in_check = true;
    make_move(&mut td, 0, quiet(12, 13));
    assert_eq!(td.board.current.hash, 1);
    assert_eq!(td.nodes, 1);
    assert_eq!(td.stack[0].mv, quiet(12, 13));
    assert_eq!(td.stack[0].piece, Some(Piece::new(Color::White, PieceType::Queen)));
    let subtable = td.stack[0].conthist.unwrap();
    assert!(subtable.in_check && !subtable.noisy);
    assert_eq!(subtable.to, Square::new(13));
    assert_eq!(td.stack[0].contcorrhist, Some(subtable));
    undo_move(&mut td, quiet(12, 13));
    assert_eq!(td.board.current.hash, 0);
    assert!(td.board.current.in_check);
    assert_eq!(td.network.evaluate(Color::White, 3), 418);
}

#[test]
fn stopped_search_returns_zero() {
    let p = material_parameters();
    let mut td = thread(mating_tree(), Limits::Open, 0, &p);
    assert_eq!(search::<PV, GameTree>(&mut td, -100, 100, 3, 1), 0);
    assert_eq!(search::<NonPV, GameTree>(&mut td, 99, 100, 0, 1), 0);
    assert_eq!(td.nodes, 0);
    assert!(td.backend.entry(0).is_none());
}

#[test]
fn horizon_stands_pat() {
    let p = material_parameters();
    let mut td = thread(mating_tree(), Limits::Open, 1000, &p);
    assert_eq!(search::<NonPV, GameTree>(&mut td, 499, 500, 0, 1), 418);
    let entry = td.backend.entry(0).unwrap();
    assert_eq!((entry.score, entry.raw_eval, entry.bound), (418, 418, Bound::Upper));
    assert_eq!(entry.depth, TtDepth::SOME);
    let mut fresh = thread(mating_tree(), Limits::Open, 1000, &p);
    assert_eq!(qsearch::<NonPV, GameTree>(&mut fresh, 417, 418, 1), 418);
    assert!(fresh.backend.entry(0).is_none());
}

#[test]
fn quiescence_outside_the_variation_leaves_no_trace() {
    let p = material_parameters();
    let mut td = thread(capturing_tree(), Limits::Open, 1000, &p);
    assert_eq!(qsearch::<NonPV, GameTree>(&mut td, -1_000_000, 1_000_000, 1), 232);
    assert_eq!(td.sel_depth, 0);
    assert_eq!(td.pv_table.line(1), Vec::new());
    assert_eq!(td.backend.journal().len(), 0);
    assert!(td.backend.entry(0).is_some());
}

#[test]
fn searches_begin_with_a_plain_thread() {
    let p = material_parameters();
    let mut td = thread(mating_tree(), Limits::Depth(2), 100_000, &p);
    td.multi_pv = 5;
    td.pv_index = 2;
    td.pv_start = 1;
    td.pv_end = 2;
    start(&mut td, Report::Silent, 1);
    assert_eq!((td.multi_pv, td.pv_index, td.pv_start, td.pv_end), (1, 0, 0, 3));
    assert_eq!(td.root_depth, td.completed_depth);
    let scores: Vec<i32> = td.root_moves.iter().map(|rm| rm.score).collect();
    assert!(scores.windows(2).all(|pair| pair[0] >= pair[1]));
}

#[test]
fn absent_moves_are_not_handed_out() {
    let p = material_parameters();
    let mut nodes = mating_tree();
    nodes[0].moves.insert(0, edge(Move::null(), 3));
    let mut td = thread(nodes, Limits::Open, 1000, &p);
    td.root_moves.remove(0);
    start(&mut td, Report::Silent, 1);
    assert_eq!(td.root_moves[0].mv, quiet(12, 52));
    assert_eq!(td.root_moves[0].score, 31999);
}

/// White can take a knight, and then nothing is left to take.
fn capturing_tree() -> Vec<TreeNode> {
    let mut rich = position(0, Color::White, &[(12, PieceType::Rook)]);
    rich.squares[52] = Some(Piece::new(Color::Black, PieceType::Knight));
    vec![
        node(
            rich,
            vec![
                edge(quiet(12, 13), 2),
                Edge { mv: capture(12, 52), stage: Stage::GoodNoisy, next: 1 },
            ],
        ),
        node(position(1, Color::Black, &[(52, PieceType::Rook)]), Vec::new()),
        node(position(2, Color::Black, &[(13, PieceType::Rook)]), Vec::new()),
    ]
}

#[test]
fn quiescence_searches_captures_only() {
    let p = material_parameters();
    let mut td = thread(capturing_tree(), Limits::Open, 1000, &p);
    // A rook against a knight is 93 ahead, a rook against nothing 232.
    assert_eq!(td.network.evaluate(Color::White, 4), 93);
    assert_eq!(qsearch::<PV, GameTree>(&mut td, -500, 500, 1), 232);
    assert_eq!(td.nodes, 1);
    assert_eq!(td.sel_depth, 2);
    assert_eq!(td.pv_table.line(1), vec![capture(12, 52)]);
    let entry = td.backend.entry(0).unwrap();
    assert_eq!((entry.score, entry.raw_eval, entry.bound), (232, 93, Bound::Upper));
    assert_eq!(entry.mv, capture(12, 52));
    assert!(td.backend.entry(2).is_none());
}

#[test]
fn quiescence_in_check_searches_everything() {
    let p = material_parameters();
    let mut nodes = capturing_tree();
    nodes[0].position.in_check = true;
    nodes[0].moves.truncate(1);
    let mut td = thread(nodes, Limits::Open, 1000, &p);
    assert_eq!(qsearch::<NonPV, GameTree>(&mut td, -500, 500, 1), 232);
    let entry = td.backend.entry(0).unwrap();
    assert_eq!(entry.raw_eval, Score::NONE);
    let mut mated = capturing_tree();
    mated[0].position.in_check = true;
    mated[0].moves.truncate(0);
    let mut td = thread(mated, Limits::Open, 1000, &p);
    assert_eq!(qsearch::<NonPV, GameTree>(&mut td, -500, 500, 3), -31997);
    assert!(td.backend.entry(0).is_none());
}

#[test]
fn cutoffs_teach_the_tables() {
    let p = material_parameters();
    // The first move loses the queen, the second keeps it.
    let nodes = vec![
        node(
            position(0, Color::White, &[(12, PieceType::Queen)]),
            vec![edge(quiet(12, 20), 1), edge(quiet(12, 13), 2)],
        ),
        node(
            position(1, Color::Black, &[(20, PieceType::Queen)]),
            vec![Edge { mv: capture(60, 20), stage: Stage::GoodNoisy, next: 3 }],
        ),
        node(position(2, Color::Black, &[(13, PieceType::Queen)]), Vec::new()),
        node(position(3, Color::White, &[]), Vec::new()),
    ];
    let mut td = thread(nodes, Limits::Open, 1000, &p);
    assert_eq!(search::<PV, GameTree>(&mut td, 50, 300, 1, 1), 418);
    let queen = Some(Piece::new(Color::White, PieceType::Queen));
    assert_eq!(
        td.backend.journal(),
        &vec![
            Event::Quiet { threats: 0, stm: Color::White, mv: quiet(12, 13), bonus: 185 },
            Event::Quiet { threats: 0, stm: Color::White, mv: quiet(12, 20), bonus: -162 },
        ]
    );
    let entry = td.backend.entry(0).unwrap();
    assert_eq!((entry.score, entry.depth, entry.bound), (418, 1, Bound::Lower));
    assert_eq!(entry.mv, quiet(12, 13));
    assert_eq!(td.board.current.moved_piece(quiet(12, 13)), queen);
}

#[test]
fn continuations_look_one_two_four_and_six_plies_back() {
    let p = material_parameters();
    let mut td = thread(mating_tree(), Limits::Open, 100, &p);
    for ply in 0..7 {
        td.stack[ply].mv = quiet(8, 16 + ply);
    }
    td.stack[5].mv = Move::null();
    let to = Square::new(13);
    update_continuation_histories(&mut td, 7, None, to, 50);
    assert_eq!(td.backend.journal().len(), 3);
    update_continuation_histories(&mut td, 1, None, to, 50);
    assert_eq!(td.backend.journal().len(), 4);
    update_continuation_histories(&mut td, 0, None, to, 50);
    assert_eq!(
        td.backend.journal(),
        &vec![Event::Continuation { subtable: None, piece: None, to, bonus: 50 }; 4]
    );
}

#[test]
fn corrections_are_limited() {
    let p = material_parameters();
    let mut td = thread(mating_tree(), Limits::Open, 100, &p);
    assert_eq!(eval_correction(&td, 0), 0);
    update_correction_histories(&mut td, 3, 100, 0);
    update_correction_histories(&mut td, 100, 60000, 0);
    update_correction_histories(&mut td, 100, -60000, 0);
    let stm = Color::White;
    let mut expected = Vec::new();
    for bonus in [332, 3001, -4771] {
        expected.push(Event::Correction {
            table: CorrectionTable::Pawn,
            stm,
            key: 11,
            bucket: 0,
            bonus,
        });
        expected.push(Event::Correction {
            table: CorrectionTable::NonPawn(Color::White),
            stm,
            key: 12,
            bucket: 0,
            bonus,
        });
        expected.push(Event::Correction {
            table: CorrectionTable::NonPawn(Color::Black),
            stm,
            key: 13,
            bucket: 0,
            bonus,
        });
    }
    assert_eq!(td.backend.journal(), &expected);
}

#[test]
fn deep_searches_narrow_their_window() {
    let p = material_parameters();
    let nodes = vec![
        node(position(0, Color::White, &[(12, PieceType::Queen)]), vec![edge(quiet(12, 13), 1)]),
        node(position(1, Color::Black, &[(13, PieceType::Queen)]), vec![edge(quiet(60, 61), 2)]),
        node(position(2, Color::White, &[(13, PieceType::Queen)]), vec![edge(quiet(13, 12), 3)]),
        node(position(3, Color::Black, &[(12, PieceType::Queen)]), vec![edge(quiet(61, 60), 0)]),
    ];
    let mut td = thread(nodes, Limits::Depth(8), 1_000_000, &p);
    start(&mut td, Report::Silent, 1);
    assert_eq!(td.completed_depth, 8);
    assert_eq!(td.root_moves[0].score, 418);
    assert_eq!(td.root_moves[0].previous_score, 418);
    assert_eq!(td.root_depth, 8);
}

fn entry_for(mv: Move, score: i32, depth: i32, bound: Bound) -> TtEntry {
    TtEntry { mv, score, raw_eval: 0, depth, bound }
}

#[test]
fn stored_results_settle_closed_windows_only() {
    let p = material_parameters();
    let stored = entry_for(quiet(12, 13), 77, 3, Bound::Exact);
    let mut td = thread(mating_tree(), Limits::Open, 1000, &p);
    td.backend.tt_write(0, stored, 1, false, false);
    assert_eq!(search::<NonPV, GameTree>(&mut td, 99, 100, 3, 1), 77);
    assert_eq!(td.nodes, 0);
    assert_eq!(search::<PV, GameTree>(&mut td, -32000, 32000, 3, 1), 31998);
    assert!(td.nodes > 0);
}

#[test]
fn shallow_results_do_not_settle() {
    let p = material_parameters();
    let stored = entry_for(quiet(12, 13), 77, 2, Bound::Exact);
    let mut td = thread(mating_tree(), Limits::Open, 1000, &p);
    td.backend.tt_write(0, stored, 1, false, false);
    assert_eq!(search::<NonPV, GameTree>(&mut td, 400, 401, 3, 1), 418);
    assert!(td.nodes > 0);
}

#[test]
fn unreachable_mates_are_not_searched_for() {
    let p = material_parameters();
    let mut td = thread(mating_tree(), Limits::Open, 1000, &p);
    assert_eq!(search::<NonPV, GameTree>(&mut td, 31990, 31991, 3, 9), 31990);
    assert_eq!(search::<NonPV, GameTree>(&mut td, -31999, -31998, 3, 9), -31991);
    assert_eq!(td.nodes, 0);
}

#[test]
fn search_without_a_hash_move_loses_a_ply() {
    let p = material_parameters();
    let nodes = || {
        vec![
            node(position(0, Color::White, &[]), vec![edge(quiet(4, 5), 1)]),
            node(position(1, Color::Black, &[]), Vec::new()),
        ]
    };
    let mut td = thread(nodes(), Limits::Open, 1000, &p);
    search::<PV, GameTree>(&mut td, -500, 500, 4, 1);
    assert_eq!(td.backend.entry(0).unwrap().depth, 3);
    let mut td = thread(nodes(), Limits::Open, 1000, &p);
    search::<PV, GameTree>(&mut td, -500, 500, 3, 1);
    assert_eq!(td.backend.entry(0).unwrap().depth, 3);
    let mut td = thread(nodes(), Limits::Open, 1000, &p);
    td.backend.tt_write(0, entry_for(quiet(4, 5), 0, 1, Bound::Exact), 1, false, false);
    search::<PV, GameTree>(&mut td, -500, 500, 4, 1);
    assert_eq!(td.backend.entry(0).unwrap().depth, 4);
}

#[test]
fn checks_are_extended() {
    let p = material_parameters();
    let nodes = |in_check: bool| {
        let mut reply = position(1, Color::Black, &[(13, PieceType::Queen)]);
        reply.in_check = in_check;
        vec![
            node(position(0, Color::White, &[(12, PieceType::Queen)]), vec![edge(quiet(12, 13), 1)]),
            node(reply, vec![edge(quiet(60, 61), 2)]),
            node(position(2, Color::White, &[(13, PieceType::Queen)]), Vec::new()),
        ]
    };
    let mut td = thread(nodes(true), Limits::Open, 1000, &p);
    search::<PV, GameTree>(&mut td, -500, 500, 1, 1);
    assert_eq!(td.backend.entry(1).unwrap().depth, 1);
    let mut td = thread(nodes(false), Limits::Open, 1000, &p);
    search::<PV, GameTree>(&mut td, -500, 500, 1, 1);
    assert_eq!(td.backend.entry(1).unwrap().depth, TtDepth::SOME);
}

/// Two moves of White, the second of which ends in stalemate.
fn branching_tree() -> Vec<TreeNode> {
    vec![
        node(
            position(0, Color::White, &[(12, PieceType::Queen)]),
            vec![edge(quiet(12, 13), 1), edge(quiet(12, 44), 3)],
        ),
        node(position(1, Color::Black, &[(13, PieceType::Queen)]), vec![edge(quiet(60, 61), 2)]),
        node(position(2, Color::White, &[(13, PieceType::Queen)]), vec![edge(quiet(13, 12), 4)]),
        node(position(3, Color::Black, &[(44, PieceType::Queen)]), Vec::new()),
        node(position(4, Color::Black, &[(12, PieceType::Queen)]), vec![edge(quiet(61, 60), 0)]),
    ]
}

#[test]
fn singular_probe_has_conditions() {
    let p = material_parameters();
    let stored = entry_for(quiet(12, 13), 418, 3, Bound::Lower);
    let info = NodeInfo {
        alpha: -2000,
        beta: 2000,
        depth: 6,
        ply: 1,
        entry: Some(stored),
        raw_eval: 418,
        eval: 418,
        improving: false,
    };
    let mut td = thread(branching_tree(), Limits::Open, 1000, &p);
    assert!(info.singular_probe_applies::<NonPV, GameTree>(&td));
    assert!(info.singular_probe_applies::<PV, GameTree>(&td));
    assert!(!info.singular_probe_applies::<Root, GameTree>(&td));
    let shallow = NodeInfo { depth: 5, ..info };
    assert!(!shallow.singular_probe_applies::<NonPV, GameTree>(&td));
    let deep = NodeInfo { depth: 7, ..info };
    assert!(!deep.singular_probe_applies::<NonPV, GameTree>(&td));
    for entry in [
        None,
        Some(entry_for(Move::null(), 418, 3, Bound::Lower)),
        Some(entry_for(quiet(12, 13), Score::NONE, 3, Bound::Lower)),
        Some(entry_for(quiet(12, 13), 418, 3, Bound::Upper)),
    ] {
        let other = NodeInfo { entry, ..info };
        assert!(!other.singular_probe_applies::<NonPV, GameTree>(&td));
    }
    td.stack[1].excluded = quiet(12, 44);
    assert!(!info.singular_probe_applies::<NonPV, GameTree>(&td));
}

#[test]
fn singular_moves_are_extended() {
    let p = material_parameters();
    let run = |bound: Bound| {
        let mut td = thread(branching_tree(), Limits::Open, 100_000, &p);
        td.backend.tt_write(0, entry_for(quiet(12, 13), 418, 3, bound), 1, false, false);
        td.backend.tt_write(1, entry_for(quiet(60, 61), -418, 0, Bound::Exact), 2, false, false);
        assert_eq!(search::<PV, GameTree>(&mut td, -2000, 2000, 6, 1), 418);
        assert!(td.stack[1].excluded.is_null());
        td.backend.entry(1).unwrap().depth
    };
    // The other move is a draw, far below 418: the reply is searched one ply
    // deeper. An upper bound makes no move singular.
    assert_eq!(run(Bound::Lower), 6);
    assert_eq!(run(Bound::Exact), 6);
    assert_eq!(run(Bound::Upper), 5);
}

#[test]
fn rivals_make_a_move_ordinary() {
    let p = material_parameters();
    let mut nodes = branching_tree();
    nodes[3].moves = vec![edge(quiet(60, 59), 2)];
    let mut td = thread(nodes, Limits::Open, 100_000, &p);
    td.backend.tt_write(0, entry_for(quiet(12, 13), 418, 3, Bound::Lower), 1, false, false);
    td.backend.tt_write(1, entry_for(quiet(60, 61), -418, 0, Bound::Exact), 2, false, false);
    search::<PV, GameTree>(&mut td, -2000, 2000, 6, 1);
    assert_eq!(td.backend.entry(1).unwrap().depth, 5);
}

#[test]
fn probe_speaks_of_the_other_moves_only() {
    let p = material_parameters();
    let stored = entry_for(quiet(12, 13), 418, 9, Bound::Lower);
    let mut nodes = branching_tree();
    nodes[0].position.in_check = true;
    let mut td = thread(nodes, Limits::Open, 100_000, &p);
    td.backend.tt_write(0, stored, 1, false, false);
    td.stack[1].excluded = quiet(12, 13);
    assert_eq!(search::<NonPV, GameTree>(&mut td, 405, 406, 3, 1), 0);
    let entry = td.backend.entry(0).unwrap();
    assert_eq!((entry.score, entry.depth, entry.bound), (0, 3, Bound::Upper));
    assert!(entry.mv.is_null());
    td.backend.tt_write(0, stored, 1, false, false);
    td.stack[1].excluded = Move::null();
    assert_eq!(search::<NonPV, GameTree>(&mut td, 405, 406, 3, 1), 418);
}

#[test]
fn excluded_moves_are_not_searched() {
    let p = material_parameters();
    let mut td = thread(branching_tree(), Limits::Open, 100_000, &p);
    td.stack[1].excluded = quiet(12, 13);
    assert_eq!(search::<PV, GameTree>(&mut td, -500, 500, 2, 1), 0);
    assert!(td.backend.entry(1).is_none());
    assert_eq!(td.stack[1].excluded, quiet(12, 13));
}

#[test]
fn null_moves_have_conditions() {
    let p = material_parameters();
    let info = NodeInfo {
        alpha: 99,
        beta: 100,
        depth: 3,
        ply: 1,
        entry: None,
        raw_eval: 418,
        eval: 418,
        improving: false,
    };
    let mut td = thread(mating_tree(), Limits::Open, 1000, &p);
    assert!(info.null_move_applies::<NonPV, GameTree>(&td));
    assert!(!info.null_move_applies::<PV, GameTree>(&td));
    let shallow = NodeInfo { depth: 2, ..info };
    assert!(!shallow.null_move_applies::<NonPV, GameTree>(&td));
    let worse = NodeInfo { eval: 99, ..info };
    assert!(!worse.null_move_applies::<NonPV, GameTree>(&td));
    td.board.current.plies_from_null = 0;
    assert!(!info.null_move_applies::<NonPV, GameTree>(&td));
    td.board.current.plies_from_null = 1;
    td.board.current.squares[12] = Some(Piece::new(Color::White, PieceType::Pawn));
    assert!(!info.null_move_applies::<NonPV, GameTree>(&td));
}

#[test]
fn null_move_that_holds_returns_beta() {
    let p = material_parameters();
    let mut nodes = mating_tree();
    nodes[0].pass = 1;
    let mut td = thread(nodes, Limits::Open, 1000, &p);
    // The margin of reverse futility is 225 at depth 3.
    assert_eq!(search::<NonPV, GameTree>(&mut td, 192, 193, 3, 1), 418);
    assert_eq!(td.nodes, 0);
    assert_eq!(search::<NonPV, GameTree>(&mut td, 299, 300, 3, 1), 300);
    assert_eq!(td.board.history.len(), 0);
}

#[test]
fn later_failures_are_punished_less() {
    let p = material_parameters();
    let mut moves = Vec::new();
    let mut nodes = Vec::new();
    for i in 0..3 {
        moves.push(edge(quiet(12, 20 + i), 1 + i));
        let mut lost = position(1 + i as u64, Color::Black, &[(20 + i, PieceType::Queen)]);
        lost.squares[56] = Some(Piece::new(Color::Black, PieceType::Queen));
        nodes.push(node(lost, Vec::new()));
    }
    moves.push(edge(quiet(12, 13), 4));
    nodes.push(node(position(4, Color::Black, &[(13, PieceType::Queen)]), Vec::new()));
    nodes.insert(0, node(position(0, Color::White, &[(12, PieceType::Queen)]), moves));
    let mut td = thread(nodes, Limits::Open, 1000, &p);
    td.stack[0].mv = quiet(60, 61);
    assert_eq!(search::<PV, GameTree>(&mut td, 50, 300, 1, 1), 418);
    let stm = Color::White;
    let piece = Some(Piece::new(Color::White, PieceType::Queen));
    let mut expected = Vec::new();
    for (mv, bonus, continuation) in [
        (quiet(12, 13), 185, 107),
        (quiet(12, 20), -162, -399),
        (quiet(12, 21), -81, -199),
        (quiet(12, 22), -53, -132),
    ] {
        expected.push(Event::Quiet { threats: 0, stm, mv, bonus });
        expected.push(Event::Continuation {
            subtable: None,
            piece,
            to: mv.to(),
            bonus: continuation,
        });
    }
    assert_eq!(td.backend.journal(), &expected);
}

#[test]
fn noisy_best_move_punishes_noisy_moves_only() {
    let p = material_parameters();
    let mut rich = position(0, Color::White, &[(12, PieceType::Rook)]);
    rich.squares[52] = Some(Piece::new(Color::Black, PieceType::Knight));
    rich.squares[20] = Some(Piece::new(Color::Black, PieceType::Pawn));
    let mut kept_knight = position(2, Color::Black, &[(13, PieceType::Rook)]);
    kept_knight.squares[52] = rich.squares[52];
    kept_knight.squares[20] = rich.squares[20];
    let mut took_pawn = position(3, Color::Black, &[(20, PieceType::Rook)]);
    took_pawn.squares[52] = rich.squares[52];
    let mut took_knight = position(1, Color::Black, &[(52, PieceType::Rook)]);
    took_knight.squares[20] = rich.squares[20];
    let nodes = vec![
        node(
            rich,
            vec![
                edge(quiet(12, 13), 2),
                Edge { mv: capture(12, 20), stage: Stage::GoodNoisy, next: 3 },
                Edge { mv: capture(12, 52), stage: Stage::GoodNoisy, next: 1 },
            ],
        ),
        node(took_knight, Vec::new()),
        node(kept_knight, Vec::new()),
        node(took_pawn, Vec::new()),
    ];
    let mut td = thread(nodes, Limits::Open, 1000, &p);
    // A pawn and a rook apart: 46 with the knight left, 186 with the pawn left.
    assert_eq!(search::<PV, GameTree>(&mut td, 150, 180, 1, 1), 186);
    let piece = Some(Piece::new(Color::White, PieceType::Rook));
    assert_eq!(
        td.backend.journal(),
        &vec![
            Event::Noisy {
                threats: 0,
                piece,
                to: Square::new(52),
                captured: Some(PieceType::Knight),
                bonus: 89,
            },
            Event::Noisy {
                threats: 0,
                piece,
                to: Square::new(20),
                captured: Some(PieceType::Pawn),
                bonus: -179,
            },
        ]
    );
}

#[test]
fn failed_windows_are_widened_until_the_score_is_inside() {
    let p = material_parameters();
    // A queen that is gone after some plies, whatever White does.
    let plies = 7;
    let mut nodes = Vec::new();
    for i in 0..=plies {
        let stm = if i % 2 == 0 { Color::White } else { Color::Black };
        let men = if i < plies { vec![(12, PieceType::Queen)] } else { Vec::new() };
        let next = if i < plies { i + 1 } else { i - 1 };
        let moves = if i < plies { vec![edge(quiet(4 + i, 5 + i), next)] } else { Vec::new() };
        let mut here = position(i as u64, stm, &men);
        here.in_check = i == plies;
        nodes.push(node(here, moves));
    }
    let mut td = thread(nodes, Limits::Depth(12), 1_000_000, &p);
    start(&mut td, Report::Full, 1);
    assert_eq!(td.completed_depth, 12);
    // Black is mated at the end of the line, on the seventh ply.
    assert_eq!(td.root_moves[0].score, 31993);
    let infos: Vec<i32> = td
        .backend
        .journal()
        .iter()
        .filter_map(|e| match e {
            Event::Info { score, .. } => Some(*score),
            _ => None,
        })
        .collect();
    assert_eq!(infos[0], 418);
    assert_eq!(infos.len(), 12);
    assert_eq!(td.root_moves[0].pv.len(), 6);
}

#[test]
fn only_moves_in_the_window_of_root_moves_are_searched() {
    let p = material_parameters();
    let mut td = thread(mating_tree(), Limits::Depth(2), 100_000, &p);
    td.root_moves.remove(1);
    start(&mut td, Report::Silent, 1);
    assert_eq!(td.root_moves.len(), 2);
    assert_eq!(td.root_moves[0].mv, quiet(12, 13));
    assert_eq!(td.root_moves[0].score, 418);
    assert_eq!(td.root_moves[1].score, -Score::INFINITE);
    assert!(td.backend.entry(2).is_none());
}

#[test]
fn last_ply_is_evaluated() {
    let p = material_parameters();
    let mut td = thread(mating_tree(), Limits::Open, 1000, &p);
    assert_eq!(search::<PV, GameTree>(&mut td, -500, 500, 5, 127), 418);
    assert_eq!(search::<PV, GameTree>(&mut td, -500, 500, 5, 128), 418);
    assert_eq!(search::<NonPV, GameTree>(&mut td, 99, 100, 0, 128), 418);
    assert_eq!(qsearch::<NonPV, GameTree>(&mut td, -500, 500, 127), 418);
    assert_eq!(td.nodes, 0);
    assert!(td.backend.entry(0).is_none());
}
