use tono_chess::board::{Board, Position};
use tono_chess::evaluation::{correct_eval, evaluate, pst_index, score_for};
use tono_chess::types::{Color, File, Piece, PieceType, Rank, Square};

fn position(pieces: &[(usize, Color, PieceType)], side_to_move: Color) -> Position {
    let mut squares = [None; 64];
    for (square, color, piece_type) in pieces {
        squares[*square] = Some(Piece::new(*color, *piece_type));
    }
    Position {
        squares,
        side_to_move,
        in_check: false,
        halfmove_clock: 0,
        halfmove_clock_bucket: 0,
        plies_from_null: 1,
        hash: 0,
        pawn_key: 0,
        white_non_pawn_key: 0,
        black_non_pawn_key: 0,
        threats: 0,
    }
}

fn initial_position(side_to_move: Color) -> Position {
    let back = [
        PieceType::Rook,
        PieceType::Knight,
        PieceType::Bishop,
        PieceType::Queen,
        PieceType::King,
        PieceType::Bishop,
        PieceType::Knight,
        PieceType::Rook,
    ];
    let mut pieces = Vec::new();
    for file in 0..8 {
        pieces.push((file, Color::White, back[file]));
        pieces.push((8 + file, Color::White, PieceType::Pawn));
        pieces.push((48 + file, Color::Black, PieceType::Pawn));
        pieces.push((56 + file, Color::Black, back[file]));
    }
    position(&pieces, side_to_move)
}

#[test]
fn tables_begin_with_the_far_rank() {
    let a1 = Square { rank: Rank::First, file: File::A };
    let h8 = Square { rank: Rank::Eighth, file: File::H };
    let e4 = Square { rank: Rank::Fourth, file: File::E };
    assert_eq!(pst_index(a1, Color::White), 56);
    assert_eq!(pst_index(a1, Color::Black), 0);
    assert_eq!(pst_index(h8, Color::White), 7);
    assert_eq!(pst_index(h8, Color::Black), 63);
    assert_eq!(pst_index(e4, Color::White), 36);
    assert_eq!(pst_index(e4, Color::Black), 28);
}

#[test]
fn initial_position_is_level() {
    let board = Board::new(initial_position(Color::White));
    assert_eq!(evaluate(&board), 0);
    assert_eq!(score_for(&board, Color::White), score_for(&board, Color::Black));
}

#[test]
fn side_score_adds_material_and_tables() {
    // King on e1, queen on d1, pawn on e4: 0 + 900 - 5 + 100 + 20.
    let board = Board::new(position(
        &[
            (4, Color::White, PieceType::King),
            (3, Color::White, PieceType::Queen),
            (28, Color::White, PieceType::Pawn),
            (60, Color::Black, PieceType::King),
        ],
        Color::White,
    ));
    assert_eq!(score_for(&board, Color::White), 1015);
    assert_eq!(score_for(&board, Color::Black), 0);
    assert_eq!(evaluate(&board), 1015);
}

#[test]
fn every_kind_counts() {
    let kings = [(4, Color::White, PieceType::King), (60, Color::Black, PieceType::King)];
    let expected = [
        (PieceType::Pawn, 100 + 20),
        (PieceType::Knight, 320 + 20),
        (PieceType::Bishop, 330 + 10),
        (PieceType::Rook, 500),
        (PieceType::Queen, 900 + 5),
    ];
    for (kind, value) in expected {
        let board = Board::new(position(&[kings[0], kings[1], (28, Color::White, kind)], Color::White));
        assert_eq!(evaluate(&board), value);
        let board = Board::new(position(&[kings[0], kings[1], (28, Color::White, kind)], Color::Black));
        assert_eq!(evaluate(&board), -value);
    }
}

#[test]
fn evaluation_favours_neither_colour() {
    let white_up = Board::new(position(
        &[
            (6, Color::White, PieceType::King),
            (21, Color::White, PieceType::Knight),
            (49, Color::White, PieceType::Pawn),
            (58, Color::Black, PieceType::King),
        ],
        Color::White,
    ));
    let black_up = Board::new(position(
        &[
            (62, Color::Black, PieceType::King),
            (45, Color::Black, PieceType::Knight),
            (9, Color::Black, PieceType::Pawn),
            (2, Color::White, PieceType::King),
        ],
        Color::Black,
    ));
    assert_eq!(evaluate(&white_up), evaluate(&black_up));
    assert!(evaluate(&white_up) > 0);
}

#[test]
fn evaluation_fades_with_the_clock() {
    assert_eq!(correct_eval(100, 0, 0), 100);
    assert_eq!(correct_eval(100, 5, 100), 55);
    assert_eq!(correct_eval(100, -7, 200), -7);
    assert_eq!(correct_eval(-3, 0, 100), -1);
    assert_eq!(correct_eval(333, 10, 50), 259);
    assert_eq!(correct_eval(100, 0, 255), -27);
}
