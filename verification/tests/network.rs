use tono_chess::board::{Board, BoardObserver, Position};
use tono_chess::game_tree::{Edge, GameTree, TreeNode};
use tono_chess::movepick::Stage;
use tono_chess::nnue::{index, Network, Parameters, ParametersError};
use tono_chess::types::{Color, File, Move, MoveKind, Piece, PieceType, Rank, Square};

const HIDDEN: usize = 384;

fn blank_parameters() -> Parameters {
    Parameters {
        input_weights: vec![[0i16; 384]; 768],
        input_bias: [0i16; 384],
        output_weights: vec![[0i16; 768]; 4],
        output_bias: [0i16; 4],
    }
}

/// Every hidden value of a side is the worth of its own men.
fn material_parameters() -> Parameters {
    let worth = [10i16, 30, 31, 50, 90, 0];
    let mut p = blank_parameters();
    for feature in 0..384 {
        p.input_weights[feature] = [worth[feature / 64]; 384];
    }
    for bucket in 0..4 {
        for k in 0..HIDDEN {
            p.output_weights[bucket][k] = 127;
            p.output_weights[bucket][HIDDEN + k] = -127;
        }
    }
    p
}

fn position(pieces: &[(usize, Color, PieceType)], side_to_move: Color, hash: u64) -> Position {
    let mut squares = [None; 64];
    for (square, color, piece_type) in pieces {
        squares[*square] = Some(Piece::new(*color, *piece_type));
    }
    Position {
        squares,
        side_to_move,
        in_check: false,
        halfmove_clock: 0,
        halfmove_clock_bucket: 0,
        plies_from_null: 1,
        hash,
        pawn_key: 0,
        white_non_pawn_key: 0,
        black_non_pawn_key: 0,
        threats: 0,
    }
}

#[test]
fn inputs_depend_on_the_side() {
    let a1 = Square { rank: Rank::First, file: File::A };
    let e4 = Square { rank: Rank::Fourth, file: File::E };
    let white_pawn = Piece::new(Color::White, PieceType::Pawn);
    let black_king = Piece::new(Color::Black, PieceType::King);
    assert_eq!(index(white_pawn, a1), (0, 384 + 56));
    assert_eq!(index(black_king, e4), (384 + 320 + 28, 320 + 36));
}

#[test]
fn inputs_are_distinct() {
    let kinds = [
        PieceType::Pawn,
        PieceType::Knight,
        PieceType::Bishop,
        PieceType::Rook,
        PieceType::Queen,
        PieceType::King,
    ];
    let mut white_seen = vec![false; 768];
    let mut black_seen = vec![false; 768];
    for color in [Color::White, Color::Black] {
        for kind in kinds {
            for k in 0..64 {
                let (w, b) = index(Piece::new(color, kind), Square::new(k));
                assert!(!white_seen[w] && !black_seen[b]);
                white_seen[w] = true;
                black_seen[b] = true;
            }
        }
    }
}

#[test]
fn material_is_evaluated_for_the_side_to_move() {
    let p = material_parameters();
    let board = Board::new(position(
        &[
            (4, Color::White, PieceType::King),
            (3, Color::White, PieceType::Queen),
            (60, Color::Black, PieceType::King),
        ],
        Color::White,
        0,
    ));
    let mut network = Network::new(&p);
    assert_eq!(network.evaluate(Color::White, 3), 0);
    network.full_refresh(&board);
    // 384 * 127 * 90 / 256 = 17145, and 17145 * 400 / 16384 = 418.
    assert_eq!(network.evaluate(Color::White, 3), 418);
    assert_eq!(network.evaluate(Color::Black, 3), -418);
}

#[test]
fn hidden_values_are_clipped() {
    let mut p = material_parameters();
    p.input_bias = [300i16; 384];
    let network = Network::new(&p);
    assert_eq!(network.evaluate(Color::White, 2), 0);
    p.input_bias = [-5i16; 384];
    for k in 0..HIDDEN {
        p.output_weights[0][HIDDEN + k] = 127;
    }
    assert_eq!(Network::new(&p).evaluate(Color::White, 2), 0);
    p.input_bias = [300i16; 384];
    // 768 * 256 * 127 / 256 = 97536, and 97536 * 400 / 16384 = 2381.
    assert_eq!(Network::new(&p).evaluate(Color::White, 2), 2381);
    p.input_bias = [3i16; 384];
    // 768 * 3 * 127 / 256 = 1143, and 1143 * 400 / 16384 = 27.
    assert_eq!(Network::new(&p).evaluate(Color::White, 2), 27);
}

#[test]
fn output_bucket_goes_by_the_number_of_men() {
    let mut p = blank_parameters();
    p.output_bias = [4096, 8192, 12288, 16384];
    let network = Network::new(&p);
    for (men, score) in [
        (2, 100),
        (9, 100),
        (10, 200),
        (17, 200),
        (18, 300),
        (25, 300),
        (26, 400),
        (32, 400),
        (40, 400),
    ] {
        assert_eq!(network.evaluate(Color::White, men), score);
    }
}

#[test]
fn pop_takes_back_what_push_put_aside() {
    let p = material_parameters();
    let kings = [(4, Color::White, PieceType::King), (60, Color::Black, PieceType::King)];
    let board = Board::new(position(&kings, Color::White, 0));
    let queen = Piece::new(Color::White, PieceType::Queen);
    let mut network = Network::new(&p);
    network.full_refresh(&board);
    network.push();
    network.on_piece_change(&board, queen, Square::new(3), true);
    assert_eq!(network.evaluate(Color::White, 3), 418);
    network.push();
    network.on_piece_mutate(&board, queen, Piece::new(Color::White, PieceType::Rook), Square::new(3));
    // 384 * 127 * 50 / 256 = 9525, and 9525 * 400 / 16384 = 232.
    assert_eq!(network.evaluate(Color::White, 3), 232);
    network.pop();
    assert_eq!(network.evaluate(Color::White, 3), 418);
    network.pop();
    assert_eq!(network.evaluate(Color::White, 2), 0);
}

#[test]
fn switching_on_and_off_changes_nothing() {
    let p = material_parameters();
    let kings = [(4, Color::White, PieceType::King), (60, Color::Black, PieceType::King)];
    let board = Board::new(position(&kings, Color::White, 0));
    let rook = Piece::new(Color::Black, PieceType::Rook);
    let mut network = Network::new(&p);
    network.full_refresh(&board);
    network.on_piece_change(&board, rook, Square::new(40), true);
    network.on_piece_move(&board, rook, Square::new(40), Square::new(41));
    assert_eq!(network.evaluate(Color::White, 3), -232);
    network.on_piece_change(&board, rook, Square::new(41), false);
    assert_eq!(network.evaluate(Color::White, 2), 0);
}

#[test]
fn order_of_switching_does_not_matter() {
    let mut p = material_parameters();
    for feature in 0..768 {
        p.input_weights[feature] = [(feature as i16 % 40) * 800 - 16000; 384];
    }
    let kings = [(4, Color::White, PieceType::King), (60, Color::Black, PieceType::King)];
    let board = Board::new(position(&kings, Color::White, 0));
    let rook = Piece::new(Color::Black, PieceType::Rook);
    let pawn = Piece::new(Color::White, PieceType::Pawn);
    let mut one = Network::new(&p);
    one.full_refresh(&board);
    let mut other = one.clone();
    one.on_piece_change(&board, rook, Square::new(40), true);
    one.on_piece_change(&board, pawn, Square::new(9), true);
    one.on_piece_change(&board, kings_man(), Square::new(4), false);
    other.on_piece_change(&board, kings_man(), Square::new(4), false);
    other.on_piece_change(&board, pawn, Square::new(9), true);
    other.on_piece_change(&board, rook, Square::new(40), true);
    for side in [Color::White, Color::Black] {
        assert_eq!(one.evaluate(side, 4), other.evaluate(side, 4));
    }
}

fn kings_man() -> Piece {
    Piece::new(Color::White, PieceType::King)
}

#[test]
fn network_favours_neither_colour() {
    let p = material_parameters();
    let white_up = Board::new(position(
        &[
            (6, Color::White, PieceType::King),
            (21, Color::White, PieceType::Knight),
            (58, Color::Black, PieceType::King),
        ],
        Color::White,
        0,
    ));
    let black_up = Board::new(position(
        &[
            (62, Color::Black, PieceType::King),
            (45, Color::Black, PieceType::Knight),
            (2, Color::White, PieceType::King),
        ],
        Color::Black,
        0,
    ));
    let mut network = Network::new(&p);
    network.full_refresh(&white_up);
    let ahead = network.evaluate(Color::White, 3);
    network.full_refresh(&black_up);
    assert_eq!(network.evaluate(Color::Black, 3), ahead);
    // 384 * 127 * 30 / 256 = 5715, and 5715 * 400 / 16384 = 139.
    assert_eq!(ahead, 139);
}

#[test]
fn updating_agrees_with_computing_from_scratch() {
    let p = material_parameters();
    let before = [
        (4, Color::White, PieceType::King),
        (50, Color::White, PieceType::Pawn),
        (59, Color::Black, PieceType::Rook),
        (60, Color::Black, PieceType::King),
    ];
    let after = [
        (4, Color::White, PieceType::King),
        (59, Color::White, PieceType::Queen),
        (60, Color::Black, PieceType::King),
    ];
    let mv = Move {
        from: Square::new(50),
        to: Square::new(59),
        kind: MoveKind::CapturePromotion(PieceType::Queen),
    };
    let nodes = vec![
        TreeNode {
            position: position(&before, Color::White, 0),
            drawn: false,
            moves: vec![Edge { mv, stage: Stage::GoodNoisy, next: 1 }],
            pass: 9,
        },
        TreeNode {
            position: position(&after, Color::Black, 1),
            drawn: false,
            moves: Vec::new(),
            pass: 9,
        },
    ];
    let tree = GameTree::new(nodes, Vec::new(), 1000);
    let mut board = Board::new(position(&before, Color::White, 0));
    let mut network = Network::new(&p);
    network.full_refresh(&board);
    assert_eq!(network.evaluate(Color::White, 4), -186);
    network.push();
    board.make_move(&tree, mv, &mut network);
    let updated = network.evaluate(Color::Black, board.current.piece_count());
    let mut scratch = Network::new(&p);
    scratch.full_refresh(&board);
    assert_eq!(updated, scratch.evaluate(Color::Black, 3));
    assert_eq!(updated, -418);
    board.undo_move(mv);
    network.pop();
    assert_eq!(network.evaluate(Color::White, board.current.piece_count()), -186);
    assert_eq!(board.current.hash, 0);
}

#[test]
fn copies_are_independent() {
    let p = material_parameters();
    let kings = [(4, Color::White, PieceType::King), (60, Color::Black, PieceType::King)];
    let board = Board::new(position(&kings, Color::White, 0));
    let mut network = Network::new(&p);
    network.push();
    let mut copy = network.clone();
    copy.on_piece_change(&board, Piece::new(Color::White, PieceType::Queen), Square::new(3), true);
    assert_eq!(copy.evaluate(Color::White, 3), 418);
    assert_eq!(network.evaluate(Color::White, 3), 0);
    copy.pop();
    assert_eq!(copy.evaluate(Color::White, 3), 0);
}

fn put_word(bytes: &mut Vec<u8>, place: usize, value: i16) {
    let pair = value.to_le_bytes();
    bytes[2 * place] = pair[0];
    bytes[2 * place + 1] = pair[1];
}

#[test]
fn stored_parameters_are_read_in_order() {
    let mut bytes = vec![0u8; 596800];
    put_word(&mut bytes, 0, -300);
    put_word(&mut bytes, 384 * 767 + 383, 511);
    put_word(&mut bytes, 384 * 768 + 5, 32767);
    put_word(&mut bytes, 384 * 768 + 384, -128);
    put_word(&mut bytes, 384 * 768 + 384 + 768 * 3 + 767, 127);
    put_word(&mut bytes, 384 * 768 + 384 + 768 * 4 + 2, -32768);
    bytes[596799] = 77;
    let p = match Parameters::from_bytes(&bytes) {
        Ok(p) => p,
        Err(_) => panic!("the bytes hold parameters"),
    };
    assert_eq!(p.input_weights.len(), 768);
    assert_eq!(p.output_weights.len(), 4);
    assert_eq!(p.input_weights[0][0], -300);
    assert_eq!(p.input_weights[0][1], 0);
    assert_eq!(p.input_weights[767][383], 511);
    assert_eq!(p.input_bias[5], 32767);
    assert_eq!(p.output_weights[0][0], -128);
    assert_eq!(p.output_weights[3][767], 127);
    assert_eq!(p.output_bias, [0, 0, -32768, 0]);
}

#[test]
fn wrong_length_holds_no_parameters() {
    assert_eq!(Parameters::from_bytes(&Vec::new()).err(), Some(ParametersError::Length));
    assert_eq!(Parameters::from_bytes(&vec![0u8; 596799]).err(), Some(ParametersError::Length));
    assert_eq!(Parameters::from_bytes(&vec![0u8; 596801]).err(), Some(ParametersError::Length));
}

#[test]
fn large_output_weight_is_refused() {
    let mut bytes = vec![0u8; 596800];
    put_word(&mut bytes, 384 * 768 + 384 + 700, 128);
    assert_eq!(Parameters::from_bytes(&bytes).err(), Some(ParametersError::OutputWeight));
    put_word(&mut bytes, 384 * 768 + 384 + 700, -129);
    assert_eq!(Parameters::from_bytes(&bytes).err(), Some(ParametersError::OutputWeight));
    put_word(&mut bytes, 384 * 768 + 384 + 700, -128);
    assert!(Parameters::from_bytes(&bytes).is_ok());
}
