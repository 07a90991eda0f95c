//! Evaluation by material and piece-square tables, and the correction of
//! static evaluations.
use crate::board::{
    lemma_sum_after_update, lemma_sum_by_kind, lemma_sum_mirrored, lemma_sum_of_placed, mirrored,
    placed, sum_board, sum_kind, sum_kinds, sum_list, Board, Position,
};
use crate::types::{quotient, turned, Color, Piece, PieceType, Square};
use vstd::prelude::*;

verus! {

/// Material values, in centipawns.
pub const PAWN_VALUE: i32 = 100;

pub const KNIGHT_VALUE: i32 = 320;

pub const BISHOP_VALUE: i32 = 330;

pub const ROOK_VALUE: i32 = 500;

pub const QUEEN_VALUE: i32 = 900;

/// What a pawn gains or loses by its square, from the eighth rank to the first,
/// as White sees the board.
pub const PAWN_PST: [i32; 64] = [
    0, 0, 0, 0, 0, 0, 0, 0,
    50, 50, 50, 50, 50, 50, 50, 50,
    10, 10, 20, 30, 30, 20, 10, 10,
    5, 5, 10, 25, 25, 10, 5, 5,
    0, 0, 0, 20, 20, 0, 0, 0,
    5, -5, -10, 0, 0, -10, -5, 5,
    5, 10, 10, -20, -20, 10, 10, 5,
    0, 0, 0, 0, 0, 0, 0, 0,
];

/// What a knight gains or loses by its square, from the eighth rank to the first,
/// as White sees the board.
pub const KNIGHT_PST: [i32; 64] = [
    -50, -40, -30, -30, -30, -30, -40, -50,
    -40, -20, 0, 0, 0, 0, -20, -40,
    -30, 0, 10, 15, 15, 10, 0, -30,
    -30, 5, 15, 20, 20, 15, 5, -30,
    -30, 0, 15, 20, 20, 15, 0, -30,
    -30, 5, 10, 15, 15, 10, 5, -30,
    -40, -20, 0, 5, 5, 0, -20, -40,
    -50, -40, -30, -30, -30, -30, -40, -50,
];

/// What a bishop gains or loses by its square, from the eighth rank to the first,
/// as White sees the board.
pub const BISHOP_PST: [i32; 64] = [
    -20, -10, -10, -10, -10, -10, -10, -20,
    -10, 0, 0, 0, 0, 0, 0, -10,
    -10, 0, 5, 10, 10, 5, 0, -10,
    -10, 5, 5, 10, 10, 5, 5, -10,
    -10, 0, 10, 10, 10, 10, 0, -10,
    -10, 10, 10, 10, 10, 10, 10, -10,
    -10, 5, 0, 0, 0, 0, 5, -10,
    -20, -10, -10, -10, -10, -10, -10, -20,
];

/// What a rook gains or loses by its square, from the eighth rank to the first,
/// as White sees the board.
pub const ROOK_PST: [i32; 64] = [
    0, 0, 0, 0, 0, 0, 0, 0,
    5, 10, 10, 10, 10, 10, 10, 5,
    -5, 0, 0, 0, 0, 0, 0, -5,
    -5, 0, 0, 0, 0, 0, 0, -5,
    -5, 0, 0, 0, 0, 0, 0, -5,
    -5, 0, 0, 0, 0, 0, 0, -5,
    -5, 0, 0, 0, 0, 0, 0, -5,
    0, 0, 0, 5, 5, 0, 0, 0,
];

/// What a queen gains or loses by its square, from the eighth rank to the first,
/// as White sees the board.
pub const QUEEN_PST: [i32; 64] = [
    -20, -10, -10, -5, -5, -10, -10, -20,
    -10, 0, 0, 0, 0, 0, 0, -10,
    -10, 0, 5, 5, 5, 5, 0, -10,
    -5, 0, 5, 5, 5, 5, 0, -5,
    0, 0, 5, 5, 5, 5, 0, -5,
    -10, 5, 5, 5, 5, 5, 0, -10,
    -10, 0, 5, 0, 0, 0, 0, -10,
    -20, -10, -10, -5, -5, -10, -10, -20,
];

/// What a king gains or loses by its square, from the eighth rank to the first,
/// as White sees the board.
pub const KING_PST: [i32; 64] = [
    -30, -40, -40, -50, -50, -40, -40, -30,
    -30, -40, -40, -50, -50, -40, -40, -30,
    -30, -40, -40, -50, -50, -40, -40, -30,
    -30, -40, -40, -50, -50, -40, -40, -30,
    -20, -30, -30, -40, -40, -30, -30, -20,
    -10, -20, -20, -20, -20, -20, -20, -10,
    20, 20, 0, 0, 0, 0, 20, 20,
    20, 30, 10, 0, 0, 10, 30, 20,
];

/// The material value of a kind of chessman; the king's is not counted.
pub open spec fn material(piece_type: PieceType) -> int {
    match piece_type {
        PieceType::Pawn => PAWN_VALUE as int,
        PieceType::Knight => KNIGHT_VALUE as int,
        PieceType::Bishop => BISHOP_VALUE as int,
        PieceType::Rook => ROOK_VALUE as int,
        PieceType::Queen => QUEEN_VALUE as int,
        PieceType::King => 0,
    }
}

/// The piece-square table of a kind of chessman.
pub open spec fn table(piece_type: PieceType) -> Seq<i32> {
    match piece_type {
        PieceType::Pawn => PAWN_PST@,
        PieceType::Knight => KNIGHT_PST@,
        PieceType::Bishop => BISHOP_PST@,
        PieceType::Rook => ROOK_PST@,
        PieceType::Queen => QUEEN_PST@,
        PieceType::King => KING_PST@,
    }
}

/// The place of a square in the tables, which begin with the eighth rank for
/// White and with the first rank for Black.
pub open spec fn table_place(color: Color, square: int) -> int {
    match color {
        Color::White => turned(square),
        Color::Black => square,
    }
}

/// What a chessman on a square is worth to its side.
pub open spec fn worth(piece: Piece, square: int) -> int {
    material(piece.piece_type) + table(piece.piece_type)[table_place(piece.color, square)]
}

/// What a chessman on a square is worth to one of the sides.
pub open spec fn worth_to(color: Color) -> spec_fn(Piece, int) -> int {
    |piece: Piece, square: int|
        if piece.color == color {
            worth(piece, square)
        } else {
            0
        }
}

/// What all chessmen of a side are worth.
pub open spec fn side_score(squares: Seq<Option<Piece>>, color: Color) -> int {
    sum_board(squares, worth_to(color), 64)
}

/// The evaluation for the side to move: what its chessmen are worth more than
/// the opponent's.
pub open spec fn evaluation_of(position: Position) -> int {
    side_score(position.squares@, position.side_to_move) - side_score(
        position.squares@,
        position.side_to_move.other(),
    )
}

/// The place of a square in the tables.
pub fn pst_index(sq: Square, color: Color) -> (place: usize)
    ensures
        place == table_place(color, sq.ordinal()),
        place < 64,
{
    let rank = sq.rank().index();
    let file = sq.file().index();
    let rank = if color == Color::White {
        7 - rank
    } else {
        rank
    };
    rank * 8 + file
}

proof fn lemma_worth_is_small(piece: Piece, square: int)
    requires
        0 <= square < 64,
    ensures
        -50 <= worth(piece, square) <= 950,
{
    let place = table_place(piece.color, square);
    assert(0 <= place < 64);
    match piece.piece_type {
        PieceType::Pawn => {
            assert(-50 <= PAWN_PST@[place] <= 50);
        },
        PieceType::Knight => {
            assert(-50 <= KNIGHT_PST@[place] <= 50);
        },
        PieceType::Bishop => {
            assert(-50 <= BISHOP_PST@[place] <= 50);
        },
        PieceType::Rook => {
            assert(-50 <= ROOK_PST@[place] <= 50);
        },
        PieceType::Queen => {
            assert(-50 <= QUEEN_PST@[place] <= 50);
        },
        PieceType::King => {
            assert(-50 <= KING_PST@[place] <= 50);
        },
    }
}

/// What the side's chessmen of one kind are worth.
fn score_of_kind(
    position: &Position,
    color: Color,
    piece_type: PieceType,
    value: i32,
    pst: &[i32; 64],
) -> (score: i32)
    requires
        value == material(piece_type),
        pst@ == table(piece_type),
    ensures
        score == sum_kind(
            position.squares@,
            Piece { color, piece_type },
            worth_to(color),
            64,
        ),
        -3200 <= score <= 60800,
{
    let ghost piece = Piece { color, piece_type };
    let ghost numbers = placed(position.squares@, piece, 64);
    let list = position.colored_pieces(color, piece_type);
    proof {
        lemma_placed_bounds(position.squares@, piece, 64);
        lemma_sum_of_placed(position.squares@, piece, worth_to(color), 64);
    }
    let mut score: i32 = 0;
    let mut i: usize = 0;
    while i < list.len()
        invariant
            i <= list@.len() <= 64,
            value == material(piece_type),
            pst@ == table(piece_type),
            piece == (Piece { color, piece_type }),
            list@.len() == numbers.len(),
            forall|j: int| 0 <= j < list@.len() ==> (#[trigger] list@[j]).ordinal() == numbers[j],
            score == sum_list(numbers.take(i as int), piece, worth_to(color)),
            -50 * i <= score <= 950 * i,
        decreases list@.len() - i,
    {
        let sq = list[i];
        proof {
            assert(numbers.take(i + 1).drop_last() =~= numbers.take(i as int));
            lemma_worth_is_small(piece, sq.ordinal());
        }
        let place = pst_index(sq, color);
        score = score + (value + pst[place]);
        i = i + 1;
    }
    assert(numbers.take(i as int) =~= numbers);
    score
}

proof fn lemma_placed_bounds(squares: Seq<Option<Piece>>, piece: Piece, n: int)
    requires
        0 <= n,
    ensures
        placed(squares, piece, n).len() <= n,
    decreases n,
{
    if n > 0 {
        lemma_placed_bounds(squares, piece, n - 1);
    }
}

proof fn lemma_other_side_is_worth_nothing(
    squares: Seq<Option<Piece>>,
    piece: Piece,
    color: Color,
    n: int,
)
    requires
        piece.color != color,
    ensures
        sum_kind(squares, piece, worth_to(color), n) == 0,
    decreases n,
{
    if n > 0 {
        lemma_other_side_is_worth_nothing(squares, piece, color, n - 1);
    }
}

proof fn lemma_six_kinds(squares: Seq<Option<Piece>>, color: Color)
    ensures
        side_score(squares, color) == sum_kind(
            squares,
            Piece { color, piece_type: PieceType::Pawn },
            worth_to(color),
            64,
        ) + sum_kind(
            squares,
            Piece { color, piece_type: PieceType::Knight },
            worth_to(color),
            64,
        ) + sum_kind(
            squares,
            Piece { color, piece_type: PieceType::Bishop },
            worth_to(color),
            64,
        ) + sum_kind(
            squares,
            Piece { color, piece_type: PieceType::Rook },
            worth_to(color),
            64,
        ) + sum_kind(
            squares,
            Piece { color, piece_type: PieceType::Queen },
            worth_to(color),
            64,
        ) + sum_kind(
            squares,
            Piece { color, piece_type: PieceType::King },
            worth_to(color),
            64,
        ),
{
    let f = worth_to(color);
    lemma_sum_by_kind(squares, f, 64);
    reveal_with_fuel(sum_kinds, 13);
    let other = color.other();
    lemma_other_side_is_worth_nothing(
        squares,
        Piece { color: other, piece_type: PieceType::Pawn },
        color,
        64,
    );
    lemma_other_side_is_worth_nothing(
        squares,
        Piece { color: other, piece_type: PieceType::Knight },
        color,
        64,
    );
    lemma_other_side_is_worth_nothing(
        squares,
        Piece { color: other, piece_type: PieceType::Bishop },
        color,
        64,
    );
    lemma_other_side_is_worth_nothing(
        squares,
        Piece { color: other, piece_type: PieceType::Rook },
        color,
        64,
    );
    lemma_other_side_is_worth_nothing(
        squares,
        Piece { color: other, piece_type: PieceType::Queen },
        color,
        64,
    );
    lemma_other_side_is_worth_nothing(
        squares,
        Piece { color: other, piece_type: PieceType::King },
        color,
        64,
    );
}

/// What all chessmen of a side are worth.
pub fn score_for(board: &Board, color: Color) -> (score: i32)
    ensures
        score == side_score(board.current.squares@, color),
        -20000 <= score <= 400000,
{
    let position = &board.current;
    let mut score: i32 = 0;
    score = score + score_of_kind(position, color, PieceType::Pawn, PAWN_VALUE, &PAWN_PST);
    score = score + score_of_kind(position, color, PieceType::Knight, KNIGHT_VALUE, &KNIGHT_PST);
    score = score + score_of_kind(position, color, PieceType::Bishop, BISHOP_VALUE, &BISHOP_PST);
    score = score + score_of_kind(position, color, PieceType::Rook, ROOK_VALUE, &ROOK_PST);
    score = score + score_of_kind(position, color, PieceType::Queen, QUEEN_VALUE, &QUEEN_PST);
    score = score + score_of_kind(position, color, PieceType::King, 0, &KING_PST);
    proof {
        lemma_six_kinds(position.squares@, color);
    }
    score
}

/// The evaluation in centipawns, for the side to move.
pub fn evaluate(board: &Board) -> (score: i32)
    ensures
        score == evaluation_of(board.current),
{
    let white = score_for(board, Color::White);
    let black = score_for(board, Color::Black);
    let score = white - black;
    if board.current.side_to_move == Color::White {
        score
    } else {
        -score
    }
}

/// What is good for one side to move is as bad for the other.
pub proof fn turn_negates_evaluation(position: Position, passed: Position)
    requires
        passed.squares@ == position.squares@,
        passed.side_to_move == position.side_to_move.other(),
    ensures
        evaluation_of(passed) == -evaluation_of(position),
{
}

/// The evaluation favours neither colour: it is the same when the board is
/// turned around and everything changes sides.
pub proof fn turning_keeps_evaluation(position: Position, turned_position: Position)
    requires
        turned_position.squares@ == mirrored(position.squares@),
        turned_position.side_to_move == position.side_to_move.other(),
    ensures
        evaluation_of(turned_position) == evaluation_of(position),
{
    lemma_side_mirrored(position.squares@, Color::White);
    lemma_side_mirrored(position.squares@, Color::Black);
}

proof fn lemma_side_mirrored(squares: Seq<Option<Piece>>, color: Color)
    requires
        squares.len() == 64,
    ensures
        side_score(mirrored(squares), color.other()) == side_score(squares, color),
{
    let f = worth_to(color);
    let g = worth_to(color.other());
    assert forall|piece: Piece, k: int| 0 <= k < 64 implies #[trigger] g(
        piece.recolored(),
        turned(k),
    ) == f(piece, k) by {
        assert(turned(turned(k)) == k);
    }
    lemma_sum_mirrored(squares, f, g);
}

/// What a chessman on a square is worth, in numbers: a pawn 100, a knight 320, a
/// bishop 330, a rook 500, a queen 900 and a king nothing, and what its table adds
/// for the square, the eighth rank first for White and the first rank first for
/// Black.
pub proof fn chessmen_have_their_worth(piece: Piece, sq: Square)
    ensures
        ({
            let rank = sq.rank.ordinal();
            let place = sq.file.ordinal() + 8 * if piece.color == Color::White {
                7 - rank
            } else {
                rank
            };
            worth(piece, sq.ordinal()) == match piece.piece_type {
                PieceType::Pawn => 100 + seq![
                    0int, 0int, 0int, 0int, 0int, 0int, 0int, 0int,
                    50int, 50int, 50int, 50int, 50int, 50int, 50int, 50int,
                    10int, 10int, 20int, 30int, 30int, 20int, 10int, 10int,
                    5int, 5int, 10int, 25int, 25int, 10int, 5int, 5int,
                    0int, 0int, 0int, 20int, 20int, 0int, 0int, 0int,
                    5int, -5int, -10int, 0int, 0int, -10int, -5int, 5int,
                    5int, 10int, 10int, -20int, -20int, 10int, 10int, 5int,
                    0int, 0int, 0int, 0int, 0int, 0int, 0int, 0int,
                ][place],
                PieceType::Knight => 320 + seq![
                    -50int, -40int, -30int, -30int, -30int, -30int, -40int, -50int,
                    -40int, -20int, 0int, 0int, 0int, 0int, -20int, -40int,
                    -30int, 0int, 10int, 15int, 15int, 10int, 0int, -30int,
                    -30int, 5int, 15int, 20int, 20int, 15int, 5int, -30int,
                    -30int, 0int, 15int, 20int, 20int, 15int, 0int, -30int,
                    -30int, 5int, 10int, 15int, 15int, 10int, 5int, -30int,
                    -40int, -20int, 0int, 5int, 5int, 0int, -20int, -40int,
                    -50int, -40int, -30int, -30int, -30int, -30int, -40int, -50int,
                ][place],
                PieceType::Bishop => 330 + seq![
                    -20int, -10int, -10int, -10int, -10int, -10int, -10int, -20int,
                    -10int, 0int, 0int, 0int, 0int, 0int, 0int, -10int,
                    -10int, 0int, 5int, 10int, 10int, 5int, 0int, -10int,
                    -10int, 5int, 5int, 10int, 10int, 5int, 5int, -10int,
                    -10int, 0int, 10int, 10int, 10int, 10int, 0int, -10int,
                    -10int, 10int, 10int, 10int, 10int, 10int, 10int, -10int,
                    -10int, 5int, 0int, 0int, 0int, 0int, 5int, -10int,
                    -20int, -10int, -10int, -10int, -10int, -10int, -10int, -20int,
                ][place],
                PieceType::Rook => 500 + seq![
                    0int, 0int, 0int, 0int, 0int, 0int, 0int, 0int,
                    5int, 10int, 10int, 10int, 10int, 10int, 10int, 5int,
                    -5int, 0int, 0int, 0int, 0int, 0int, 0int, -5int,
                    -5int, 0int, 0int, 0int, 0int, 0int, 0int, -5int,
                    -5int, 0int, 0int, 0int, 0int, 0int, 0int, -5int,
                    -5int, 0int, 0int, 0int, 0int, 0int, 0int, -5int,
                    -5int, 0int, 0int, 0int, 0int, 0int, 0int, -5int,
                    0int, 0int, 0int, 5int, 5int, 0int, 0int, 0int,
                ][place],
                PieceType::Queen => 900 + seq![
                    -20int, -10int, -10int, -5int, -5int, -10int, -10int, -20int,
                    -10int, 0int, 0int, 0int, 0int, 0int, 0int, -10int,
                    -10int, 0int, 5int, 5int, 5int, 5int, 0int, -10int,
                    -5int, 0int, 5int, 5int, 5int, 5int, 0int, -5int,
                    0int, 0int, 5int, 5int, 5int, 5int, 0int, -5int,
                    -10int, 5int, 5int, 5int, 5int, 5int, 0int, -10int,
                    -10int, 0int, 5int, 0int, 0int, 0int, 0int, -10int,
                    -20int, -10int, -10int, -5int, -5int, -10int, -10int, -20int,
                ][place],
                PieceType::King => 0 + seq![
                    -30int, -40int, -40int, -50int, -50int, -40int, -40int, -30int,
                    -30int, -40int, -40int, -50int, -50int, -40int, -40int, -30int,
                    -30int, -40int, -40int, -50int, -50int, -40int, -40int, -30int,
                    -30int, -40int, -40int, -50int, -50int, -40int, -40int, -30int,
                    -20int, -30int, -30int, -40int, -40int, -30int, -30int, -20int,
                    -10int, -20int, -20int, -20int, -20int, -20int, -20int, -10int,
                    20int, 20int, 0int, 0int, 0int, 0int, 20int, 20int,
                    20int, 30int, 10int, 0int, 0int, 10int, 30int, 20int,
                ][place],
            }
        }),
{
    let place = table_place(piece.color, sq.ordinal());
    assert(0 <= place < 64);
}

/// A board with nothing on it is worth nothing to either side.
pub proof fn empty_boards_are_level(squares: Seq<Option<Piece>>, color: Color)
    requires
        squares.len() == 64,
        forall|k: int| 0 <= k < 64 ==> (#[trigger] squares[k]) is None,
    ensures
        side_score(squares, color) == 0,
{
    lemma_nothing_adds_up_to_nothing(squares, worth_to(color), 64);
}

proof fn lemma_nothing_adds_up_to_nothing(
    squares: Seq<Option<Piece>>,
    f: spec_fn(Piece, int) -> int,
    n: int,
)
    requires
        0 <= n <= squares.len(),
        forall|k: int| 0 <= k < squares.len() ==> (#[trigger] squares[k]) is None,
    ensures
        sum_board(squares, f, n) == 0,
    decreases n,
{
    if n > 0 {
        lemma_nothing_adds_up_to_nothing(squares, f, n - 1);
    }
}

/// Taking a chessman off the board changes the evaluation by exactly its worth,
/// whatever else is on the board: it falls if the chessman was of the side to
/// move, and rises if it was the opponent's. Without any chessman it is zero.
pub proof fn every_chessman_counts(position: Position, without: Position, sq: Square, piece: Piece)
    requires
        position.on(sq) == Some(piece),
        without.squares@ == position.squares@.update(sq.ordinal(), None),
        without.side_to_move == position.side_to_move,
    ensures
        piece.color == position.side_to_move ==> evaluation_of(position) == evaluation_of(without)
            + worth(piece, sq.ordinal()),
        piece.color != position.side_to_move ==> evaluation_of(position) == evaluation_of(without)
            - worth(piece, sq.ordinal()),
{
    lemma_sum_after_update(
        position.squares@,
        sq.ordinal(),
        None,
        worth_to(position.side_to_move),
        64,
    );
    lemma_sum_after_update(
        position.squares@,
        sq.ordinal(),
        None,
        worth_to(position.side_to_move.other()),
        64,
    );
}

/// A side's chessmen are worth what they are one by one: taking one off the board
/// takes its worth from its own side, and nothing from the other.
pub proof fn every_chessman_counts_for_its_side(
    squares: Seq<Option<Piece>>,
    sq: Square,
    piece: Piece,
    color: Color,
)
    requires
        squares.len() == 64,
        squares[sq.ordinal()] == Some(piece),
    ensures
        side_score(squares, color) - side_score(squares.update(sq.ordinal(), None), color)
            == if piece.color == color {
            worth(piece, sq.ordinal())
        } else {
            0
        },
{
    lemma_sum_after_update(squares, sq.ordinal(), None, worth_to(color), 64);
}

/// With nothing on the board the evaluation is zero.
pub proof fn nothing_is_level(position: Position)
    requires
        forall|k: int| 0 <= k < 64 ==> (#[trigger] position.squares@[k]) is None,
    ensures
        evaluation_of(position) == 0,
{
    empty_boards_are_level(position.squares@, Color::White);
    empty_boards_are_level(position.squares@, Color::Black);
}

/// A static evaluation, faded by the halfmove clock and corrected.
pub open spec fn corrected(raw_eval: int, correction_value: int, halfmove_clock: int) -> int {
    quotient(raw_eval * (200 - halfmove_clock), 200) + correction_value
}

/// Fades the raw evaluation as the halfmove clock advances, and applies the
/// correction learned from earlier positions.
pub fn correct_eval(raw_eval: i32, correction_value: i32, halfmove_clock: u8) -> (eval: i32)
    requires
        i32::MIN <= raw_eval * (200 - halfmove_clock) <= i32::MAX,
        i32::MIN <= corrected(
            raw_eval as int,
            correction_value as int,
            halfmove_clock as int,
        ) <= i32::MAX,
    ensures
        eval == corrected(raw_eval as int, correction_value as int, halfmove_clock as int),
{
    let mut eval: i32 = raw_eval;
    eval = eval * (200 - halfmove_clock as i32) / 200;
    eval = eval + correction_value;
    eval
}

/// The raw evaluation loses a two-hundredth of itself with every ply on the
/// halfmove clock, rounded towards zero, and the correction is added to the rest.
pub proof fn fading_is_proportional(raw_eval: int, correction_value: int, halfmove_clock: int)
    ensures
        ({
            let faded = corrected(raw_eval, correction_value, halfmove_clock) - correction_value;
            let exact = raw_eval * (200 - halfmove_clock);
            &&& exact >= 0 ==> 200 * faded <= exact < 200 * faded + 200
            &&& exact <= 0 ==> 200 * faded - 200 < exact <= 200 * faded
        }),
{
}

/// The longer nothing is captured and no pawn moves, the nearer the raw
/// evaluation fades to zero, without changing sides.
pub proof fn evaluation_fades(raw_eval: int, earlier: int, later: int)
    requires
        0 <= earlier <= later <= 200,
    ensures
        corrected(raw_eval, 0, 0) == raw_eval,
        corrected(raw_eval, 0, 200) == 0,
        raw_eval >= 0 ==> 0 <= corrected(raw_eval, 0, later) <= corrected(raw_eval, 0, earlier)
            <= raw_eval,
        raw_eval <= 0 ==> raw_eval <= corrected(raw_eval, 0, earlier) <= corrected(
            raw_eval,
            0,
            later,
        ) <= 0,
{
    let size = if raw_eval >= 0 { raw_eval } else { -raw_eval };
    assert(0 <= size * (200 - later) <= size * (200 - earlier) <= size * 200) by (nonlinear_arith)
        requires
            0 <= size,
            0 <= earlier <= later <= 200,
    ;
    assert((-size) * (200 - later) == -(size * (200 - later))) by (nonlinear_arith);
    assert((-size) * (200 - earlier) == -(size * (200 - earlier))) by (nonlinear_arith);
}

} // verus!
