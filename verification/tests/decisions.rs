use tono_chess::movepick::{MovePicker, Stage};
use tono_chess::node::{NodeInfo, Tried};
use tono_chess::ranking::rank_root_moves;
use tono_chess::search::{NonPV, Root, PV};
use tono_chess::steps::tt_settles;
use tono_chess::thread::RootMove;
use tono_chess::transposition::{Bound, TtEntry};
use tono_chess::types::{is_valid, mate_in, mated_in, Move, MoveKind, PieceType, Score, Square};

fn node(depth: i32, alpha: i32, beta: i32, eval: i32, improving: bool) -> NodeInfo {
    NodeInfo { alpha, beta, depth, ply: 2, entry: None, raw_eval: eval, eval, improving }
}

fn tried(alpha: i32, best_score: i32, quiets_searched: i32, stage: Stage) -> Tried {
    let mut picker = MovePicker::new(Move::null());
    picker.handed_out = 40;
    picker.stage = stage;
    Tried {
        alpha,
        best_score,
        best_move: Move::null(),
        bound: Bound::Upper,
        move_count: 40,
        quiets_searched,
        quiet_moves: Vec::new(),
        noisy_moves: Vec::new(),
        picker,
    }
}

fn quiet(from: usize, to: usize) -> Move {
    Move { from: Square::new(from), to: Square::new(to), kind: MoveKind::Normal }
}

fn capture(from: usize, to: usize) -> Move {
    Move { from: Square::new(from), to: Square::new(to), kind: MoveKind::Capture }
}

#[test]
fn captures_and_promotions_are_noisy() {
    let from = Square::new(8);
    let to = Square::new(16);
    for (kind, noisy) in [
        (MoveKind::Normal, false),
        (MoveKind::DoublePush, false),
        (MoveKind::Castling, false),
        (MoveKind::Capture, true),
        (MoveKind::EnPassant, true),
        (MoveKind::Promotion(PieceType::Queen), true),
        (MoveKind::CapturePromotion(PieceType::Knight), true),
    ] {
        let mv = Move { from, to, kind };
        assert_eq!(mv.is_noisy(), noisy);
        assert!(mv.is_present() && !mv.is_null());
    }
    assert!(Move::null().is_null() && !Move::null().is_present());
}

#[test]
fn mate_scores_count_plies() {
    assert_eq!(mate_in(1), 31999);
    assert_eq!(mated_in(4), -31996);
    assert!(is_valid(0) && is_valid(-Score::INFINITE) && !is_valid(Score::NONE));
}

#[test]
fn reverse_futility_needs_a_margin() {
    assert!(node(3, 0, 75, 300, false).reverse_futility::<NonPV>(false));
    assert!(!node(3, 0, 76, 300, false).reverse_futility::<NonPV>(false));
    assert!(node(3, 0, 150, 300, true).reverse_futility::<NonPV>(false));
    assert!(!node(3, 0, 151, 300, true).reverse_futility::<NonPV>(false));
    assert!(node(8, 0, 1, 601, false).reverse_futility::<NonPV>(false));
    assert!(!node(9, 0, 1, 5000, false).reverse_futility::<NonPV>(false));
    assert!(!node(3, 0, 75, 300, false).reverse_futility::<PV>(false));
    assert!(!node(3, 0, 75, 300, false).reverse_futility::<Root>(false));
}

#[test]
fn null_move_reduction_follows_depth_and_evaluation() {
    assert_eq!(node(3, 0, 1, 1, false).null_move_reduction::<NonPV>(), 4);
    assert_eq!(node(9, 0, 1, 451, false).null_move_reduction::<NonPV>(), 8);
    assert_eq!(node(9, 0, 1, 5001, false).null_move_reduction::<NonPV>(), 9);
    assert_eq!(node(10, 0, 1, -500, false).null_move_reduction::<NonPV>(), 6);
}

#[test]
fn razoring_needs_a_hopeless_evaluation() {
    assert!(node(2, 576, 600, 0, false).razoring::<NonPV>(false));
    assert!(!node(2, 575, 600, 0, false).razoring::<NonPV>(false));
    assert!(!node(5, 30000, 30001, 0, false).razoring::<NonPV>(false));
    assert!(!node(2, 576, 600, 0, false).razoring::<PV>(false));
    let mut in_check = node(2, 576, 600, Score::NONE, false);
    in_check.raw_eval = Score::NONE;
    assert!(!in_check.razoring::<NonPV>(true));
}

#[test]
fn late_quiet_moves_are_skipped() {
    let mv = quiet(8, 16);
    let even = node(3, 0, 1, 0, false);
    assert!(!even.skips::<NonPV>(&tried(0, -10, 7, Stage::Quiet), mv, false));
    assert!(even.skips::<NonPV>(&tried(0, -10, 8, Stage::Quiet), mv, false));
    let better = node(3, 0, 1, 0, true);
    assert!(!better.skips::<NonPV>(&tried(0, -10, 12, Stage::Quiet), mv, false));
    assert!(better.skips::<NonPV>(&tried(0, -10, 13, Stage::Quiet), mv, false));
    let deep = node(5, 0, 1, 0, false);
    assert!(!deep.skips::<NonPV>(&tried(0, -10, 39, Stage::Quiet), mv, false));
}

#[test]
fn futile_quiet_moves_are_skipped() {
    let mv = quiet(8, 16);
    let info = node(5, 0, 2000, 0, false);
    assert!(!info.skips::<NonPV>(&tried(695, 10, 1, Stage::Quiet), mv, false));
    assert!(info.skips::<NonPV>(&tried(696, 10, 1, Stage::Quiet), mv, false));
    assert!(!info.skips::<NonPV>(&tried(696, 10, 1, Stage::GoodNoisy), capture(8, 17), false));
    let deeper = node(6, 0, 2000, 0, false);
    assert!(!deeper.skips::<NonPV>(&tried(1999, 10, 1, Stage::Quiet), mv, false));
}

#[test]
fn losing_captures_are_skipped_at_low_depth() {
    let mv = capture(8, 17);
    let info = node(6, 0, 2000, 0, false);
    assert!(info.skips::<NonPV>(&tried(0, 10, 1, Stage::BadNoisy), mv, false));
    assert!(!info.skips::<NonPV>(&tried(0, 10, 1, Stage::GoodNoisy), mv, false));
    let deeper = node(7, 0, 2000, 0, false);
    assert!(!deeper.skips::<NonPV>(&tried(0, 10, 1, Stage::BadNoisy), mv, false));
}

#[test]
fn nothing_is_skipped_without_a_score_or_with_an_open_window() {
    let mv = quiet(8, 16);
    let info = node(1, 0, 2000, 0, false);
    assert!(info.skips::<NonPV>(&tried(1500, 10, 30, Stage::Quiet), mv, false));
    assert!(!info.skips::<NonPV>(&tried(1500, -Score::INFINITE, 30, Stage::Quiet), mv, false));
    assert!(!info.skips::<PV>(&tried(1500, 10, 30, Stage::Quiet), mv, false));
}

#[test]
fn late_moves_are_reduced() {
    let info = node(8, 0, 1, 0, false);
    assert_eq!(info.reduction::<NonPV>(5, true, 0, 3, false), 3);
    assert_eq!(info.reduction::<PV>(5, true, 0, 3, false), 2);
    assert_eq!(info.reduction::<NonPV>(5, true, 0, 3, true), 2);
    assert_eq!(info.reduction::<PV>(5, true, 0, 3, true), 1);
    assert_eq!(info.reduction::<NonPV>(5, true, 16384, 3, false), 1);
    assert_eq!(info.reduction::<NonPV>(5, true, -8191, 3, false), 3);
    assert_eq!(info.reduction::<NonPV>(5, true, -8192, 3, false), 4);
    assert_eq!(info.reduction::<NonPV>(5, true, 80000, 3, false), 0);
    assert_eq!(info.reduction::<NonPV>(5, true, -80000, 3, false), 7);
    assert_eq!(info.reduction::<NonPV>(2, true, 0, 3, false), 0);
    assert_eq!(info.reduction::<NonPV>(5, false, 0, 3, false), 0);
    assert_eq!(node(2, 0, 1, 0, false).reduction::<NonPV>(5, true, 0, 3, false), 0);
}

#[test]
fn stored_scores_settle_windows() {
    let mut entry = TtEntry {
        mv: Move::null(),
        score: 50,
        raw_eval: 0,
        depth: 5,
        bound: Bound::Exact,
    };
    assert!(tt_settles(&entry, 0, 1));
    entry.bound = Bound::Upper;
    assert!(tt_settles(&entry, 50, 60));
    assert!(!tt_settles(&entry, 49, 60));
    entry.bound = Bound::Lower;
    assert!(tt_settles(&entry, 0, 50));
    assert!(!tt_settles(&entry, 0, 51));
    entry.bound = Bound::Absent;
    assert!(tt_settles(&entry, 0, 1));
    entry.score = Score::NONE;
    assert!(!tt_settles(&entry, 0, 1));
}

#[test]
fn progress_tells_where_the_score_is() {
    let mut p = tried(100, -10, 0, Stage::Quiet);
    assert!(!p.advance(quiet(8, 16), 50, 200));
    assert_eq!((p.best_score, p.alpha, p.bound), (50, 100, Bound::Upper));
    assert!(p.best_move.is_null());
    assert!(!p.advance(quiet(8, 17), 150, 200));
    assert_eq!((p.best_score, p.alpha, p.bound), (150, 150, Bound::Exact));
    assert_eq!(p.best_move, quiet(8, 17));
    assert!(!p.advance(capture(8, 18), 120, 200));
    assert_eq!((p.best_score, p.alpha, p.bound), (150, 150, Bound::Exact));
    assert!(p.advance(capture(8, 19), 200, 200));
    assert_eq!((p.best_score, p.alpha, p.bound), (200, 150, Bound::Lower));
    assert_eq!(p.best_move, capture(8, 19));
    assert_eq!(p.quiets_searched, 2);
}

#[test]
fn only_early_failures_are_remembered() {
    let mut p = tried(0, 10, 0, Stage::Quiet);
    p.remember(quiet(8, 16));
    assert_eq!(p.quiet_moves.len(), 0);
    p.move_count = 32;
    p.remember(quiet(8, 16));
    p.remember(capture(8, 17));
    p.best_move = quiet(8, 24);
    p.remember(quiet(8, 24));
    assert_eq!(p.quiet_moves, vec![quiet(8, 16)]);
    assert_eq!(p.noisy_moves, vec![capture(8, 17)]);
}

#[test]
fn root_moves_are_ranked_best_first() {
    let mut list = Vec::new();
    for (to, score) in [(16, 5), (17, 30), (18, 5), (19, -7), (20, 30)] {
        let mut rm = RootMove::new(quiet(8, to));
        rm.score = score;
        list.push(rm);
    }
    rank_root_moves(&mut list);
    let order: Vec<(Move, i32)> = list.iter().map(|rm| (rm.mv, rm.score)).collect();
    assert_eq!(
        order,
        vec![
            (quiet(8, 17), 30),
            (quiet(8, 20), 30),
            (quiet(8, 16), 5),
            (quiet(8, 18), 5),
            (quiet(8, 19), -7),
        ]
    );
}
