//! The values the engine computes with: colours, pieces, squares, moves and
//! scores.
use crate::nnue::index;
use vstd::prelude::*;

verus! {

/// Number of plies the search can go down from the root.
pub const MAX_PLY: usize = 128;

/// Upper bound on the number of moves in one position.
pub const MAX_MOVES: usize = 256;

/// One of the two sides.
#[derive(Copy, Clone, Debug, PartialEq, Eq, Structural)]
pub enum Color {
    White,
    Black,
}

impl Color {
    /// 0 for White, 1 for Black.
    pub open spec fn ordinal(self) -> int {
        match self {
            Color::White => 0,
            Color::Black => 1,
        }
    }

    /// The opponent, in specifications.
    pub open spec fn other(self) -> Color {
        match self {
            Color::White => Color::Black,
            Color::Black => Color::White,
        }
    }

    /// 0 for White, 1 for Black.
    pub fn index(self) -> (i: usize)
        ensures
            i == self.ordinal(),
    {
        match self {
            Color::White => 0,
            Color::Black => 1,
        }
    }

    /// The opponent.
    pub fn opponent(self) -> (c: Color)
        ensures
            c == self.other(),
    {
        match self {
            Color::White => Color::Black,
            Color::Black => Color::White,
        }
    }
}

/// The six kinds of chessmen.
#[derive(Copy, Clone, Debug, PartialEq, Eq, Structural)]
pub enum PieceType {
    Pawn,
    Knight,
    Bishop,
    Rook,
    Queen,
    King,
}

impl PieceType {
    /// Position in the order pawn, knight, bishop, rook, queen, king.
    pub open spec fn ordinal(self) -> int {
        match self {
            PieceType::Pawn => 0,
            PieceType::Knight => 1,
            PieceType::Bishop => 2,
            PieceType::Rook => 3,
            PieceType::Queen => 4,
            PieceType::King => 5,
        }
    }

    /// Position in the order pawn, knight, bishop, rook, queen, king.
    pub fn index(self) -> (i: usize)
        ensures
            i == self.ordinal(),
    {
        match self {
            PieceType::Pawn => 0,
            PieceType::Knight => 1,
            PieceType::Bishop => 2,
            PieceType::Rook => 3,
            PieceType::Queen => 4,
            PieceType::King => 5,
        }
    }
}

/// A chessman of one side.
#[derive(Copy, Clone, Debug, PartialEq, Eq, Structural)]
pub struct Piece {
    pub color: Color,
    pub piece_type: PieceType,
}

impl Piece {
    /// The chessman of the given side and kind.
    pub fn new(color: Color, piece_type: PieceType) -> (p: Piece)
        ensures
            p == (Piece { color, piece_type }),
    {
        Piece { color, piece_type }
    }

    /// The same kind of chessman of the other side.
    pub open spec fn recolored(self) -> Piece {
        Piece { color: self.color.other(), piece_type: self.piece_type }
    }
}

/// A horizontal row of the board.
#[derive(Copy, Clone, Debug, PartialEq, Eq, Structural)]
pub enum Rank {
    First,
    Second,
    Third,
    Fourth,
    Fifth,
    Sixth,
    Seventh,
    Eighth,
}

impl Rank {
    /// 0 for the first rank, 7 for the eighth.
    pub open spec fn ordinal(self) -> int {
        match self {
            Rank::First => 0,
            Rank::Second => 1,
            Rank::Third => 2,
            Rank::Fourth => 3,
            Rank::Fifth => 4,
            Rank::Sixth => 5,
            Rank::Seventh => 6,
            Rank::Eighth => 7,
        }
    }

    /// The rank with the given number.
    pub fn new(number: usize) -> (rank: Rank)
        requires
            number < 8,
        ensures
            rank.ordinal() == number,
    {
        match number {
            0 => Rank::First,
            1 => Rank::Second,
            2 => Rank::Third,
            3 => Rank::Fourth,
            4 => Rank::Fifth,
            5 => Rank::Sixth,
            6 => Rank::Seventh,
            _ => Rank::Eighth,
        }
    }

    /// 0 for the first rank, 7 for the eighth.
    pub fn index(self) -> (i: usize)
        ensures
            i == self.ordinal(),
            i < 8,
    {
        match self {
            Rank::First => 0,
            Rank::Second => 1,
            Rank::Third => 2,
            Rank::Fourth => 3,
            Rank::Fifth => 4,
            Rank::Sixth => 5,
            Rank::Seventh => 6,
            Rank::Eighth => 7,
        }
    }
}

/// A vertical column of the board.
#[derive(Copy, Clone, Debug, PartialEq, Eq, Structural)]
pub enum File {
    A,
    B,
    C,
    D,
    E,
    F,
    G,
    H,
}

impl File {
    /// 0 for the a-file, 7 for the h-file.
    pub open spec fn ordinal(self) -> int {
        match self {
            File::A => 0,
            File::B => 1,
            File::C => 2,
            File::D => 3,
            File::E => 4,
            File::F => 5,
            File::G => 6,
            File::H => 7,
        }
    }

    /// The file with the given number.
    pub fn new(number: usize) -> (file: File)
        requires
            number < 8,
        ensures
            file.ordinal() == number,
    {
        match number {
            0 => File::A,
            1 => File::B,
            2 => File::C,
            3 => File::D,
            4 => File::E,
            5 => File::F,
            6 => File::G,
            _ => File::H,
        }
    }

    /// 0 for the a-file, 7 for the h-file.
    pub fn index(self) -> (i: usize)
        ensures
            i == self.ordinal(),
            i < 8,
    {
        match self {
            File::A => 0,
            File::B => 1,
            File::C => 2,
            File::D => 3,
            File::E => 4,
            File::F => 5,
            File::G => 6,
            File::H => 7,
        }
    }
}

/// One of the 64 squares, numbered rank by rank: a1 is 0, h1 is 7, h8 is 63.
#[derive(Copy, Clone, Debug, PartialEq, Eq, Structural)]
pub struct Square {
    pub rank: Rank,
    pub file: File,
}

impl Square {
    /// The number of the square, from 0 to 63.
    pub open spec fn ordinal(self) -> int {
        8 * self.rank.ordinal() + self.file.ordinal()
    }

    /// The square with the given number.
    pub fn new(number: usize) -> (sq: Square)
        requires
            number < 64,
        ensures
            sq == square_at(number as int),
            sq.ordinal() == number,
    {
        Square { rank: Rank::new(number / 8), file: File::new(number % 8) }
    }

    /// The number of the square.
    pub fn index(self) -> (i: usize)
        ensures
            i == self.ordinal(),
            i < 64,
    {
        8 * self.rank.index() + self.file.index()
    }

    /// The rank of the square.
    pub fn rank(self) -> (rank: Rank)
        ensures
            rank == self.rank,
    {
        self.rank
    }

    /// The file of the square.
    pub fn file(self) -> (file: File)
        ensures
            file == self.file,
    {
        self.file
    }
}

/// Squares and the numbers from 0 to 63 are in one-to-one correspondence.
pub proof fn squares_are_numbered(a: Square, b: Square)
    ensures
        0 <= a.ordinal() < 64,
        a.ordinal() == b.ordinal() <==> a == b,
{
}

/// The rank with the given number, in specifications.
pub open spec fn rank_at(number: int) -> Rank {
    if number == 0 {
        Rank::First
    } else if number == 1 {
        Rank::Second
    } else if number == 2 {
        Rank::Third
    } else if number == 3 {
        Rank::Fourth
    } else if number == 4 {
        Rank::Fifth
    } else if number == 5 {
        Rank::Sixth
    } else if number == 6 {
        Rank::Seventh
    } else {
        Rank::Eighth
    }
}

/// The file with the given number, in specifications.
pub open spec fn file_at(number: int) -> File {
    if number == 0 {
        File::A
    } else if number == 1 {
        File::B
    } else if number == 2 {
        File::C
    } else if number == 3 {
        File::D
    } else if number == 4 {
        File::E
    } else if number == 5 {
        File::F
    } else if number == 6 {
        File::G
    } else {
        File::H
    }
}

/// The square with the given number, in specifications.
pub open spec fn square_at(number: int) -> Square {
    Square { rank: rank_at(number / 8), file: file_at(number % 8) }
}

/// The number of a square after turning the board around.
pub open spec fn turned(square: int) -> int {
    8 * (7 - square / 8) + square % 8
}

/// What a move does besides going from one square to another.
#[derive(Copy, Clone, Debug, PartialEq, Eq, Structural)]
pub enum MoveKind {
    Null,
    Normal,
    DoublePush,
    Castling,
    Capture,
    EnPassant,
    Promotion(PieceType),
    CapturePromotion(PieceType),
}

/// A move, or the absence of one.
#[derive(Copy, Clone, Debug, PartialEq, Eq, Structural)]
pub struct Move {
    pub from: Square,
    pub to: Square,
    pub kind: MoveKind,
}

/// The absence of a move.
pub open spec fn no_move() -> Move {
    Move {
        from: Square { rank: Rank::First, file: File::A },
        to: Square { rank: Rank::First, file: File::A },
        kind: MoveKind::Null,
    }
}

impl Move {
    /// Whether the move is there at all.
    pub open spec fn present(self) -> bool {
        self != no_move()
    }

    /// Captures and promotions are noisy; every other move is quiet.
    pub open spec fn noisy(self) -> bool {
        match self.kind {
            MoveKind::Capture => true,
            MoveKind::EnPassant => true,
            MoveKind::Promotion(_) => true,
            MoveKind::CapturePromotion(_) => true,
            _ => false,
        }
    }

    /// The absence of a move.
    pub fn null() -> (mv: Move)
        ensures
            mv == no_move(),
    {
        Move {
            from: Square { rank: Rank::First, file: File::A },
            to: Square { rank: Rank::First, file: File::A },
            kind: MoveKind::Null,
        }
    }

    /// Whether this is the absence of a move.
    pub fn is_null(self) -> (b: bool)
        ensures
            b == !self.present(),
    {
        self == Move::null()
    }

    /// Whether the move is there at all.
    pub fn is_present(self) -> (b: bool)
        ensures
            b == self.present(),
    {
        self != Move::null()
    }

    /// Captures and promotions are noisy; every other move is quiet.
    pub fn is_noisy(self) -> (b: bool)
        ensures
            b == self.noisy(),
    {
        match self.kind {
            MoveKind::Capture => true,
            MoveKind::EnPassant => true,
            MoveKind::Promotion(_) => true,
            MoveKind::CapturePromotion(_) => true,
            _ => false,
        }
    }

    /// The square the move goes to.
    pub fn to(self) -> (sq: Square)
        ensures
            sq == self.to,
    {
        self.to
    }
}

/// The landmarks on the scale of scores.
pub struct Score;

impl Score {
    /// A level position.
    pub const ZERO: i32 = 0;

    /// Being mated on the spot, for the opponent.
    pub const MATE: i32 = 32000;

    /// Beyond every score.
    pub const INFINITE: i32 = 32001;

    /// Stands for the absence of a score.
    pub const NONE: i32 = 32002;
}

/// The score of giving mate `ply` plies from the root, in specifications.
pub open spec fn mate_score(ply: int) -> int {
    Score::MATE - ply
}

/// The score of being mated `ply` plies from the root, in specifications.
pub open spec fn mated_score(ply: int) -> int {
    ply - Score::MATE
}

/// The score of giving mate `ply` plies from the root.
pub fn mate_in(ply: isize) -> (score: i32)
    requires
        0 <= ply <= MAX_PLY,
    ensures
        score == mate_score(ply as int),
{
    Score::MATE - ply as i32
}

/// The score of being mated `ply` plies from the root.
pub fn mated_in(ply: isize) -> (score: i32)
    requires
        0 <= ply <= MAX_PLY,
    ensures
        score == mated_score(ply as int),
{
    ply as i32 - Score::MATE
}

/// Whether there is a score.
pub fn is_valid(score: i32) -> (b: bool)
    ensures
        b == (score != Score::NONE),
{
    score != Score::NONE
}

/// The larger of two numbers.
pub open spec fn larger(a: int, b: int) -> int {
    if a < b { b } else { a }
}

/// The smaller of two numbers.
pub open spec fn smaller(a: int, b: int) -> int {
    if a < b { a } else { b }
}

/// The number of the interval from `low` to `high` that is nearest to `x`.
pub open spec fn clamped(x: int, low: int, high: int) -> int {
    if x < low { low } else if x > high { high } else { x }
}

/// The quotient of `a` by a positive `b`, rounded towards zero.
pub open spec fn quotient(a: int, b: int) -> int {
    if a >= 0 { a / b } else { -((-a) / b) }
}

/// The number of the interval from `low` to `high` that is nearest to `x`.
pub fn clamp(x: i32, low: i32, high: i32) -> (r: i32)
    requires
        low <= high,
    ensures
        r == clamped(x as int, low as int, high as int),
{
    if x < low {
        low
    } else if x > high {
        high
    } else {
        x
    }
}

/// Mates are worth the more the sooner: being mated at once is the worst score, each
/// ply of delay makes up for one point, and what one side loses the other wins. No
/// score of a mate reaches the marks beyond.
pub proof fn sooner_mates_are_worth_more(ply: int)
    requires
        0 <= ply <= 128,
    ensures
        mated_score(0) == -32000,
        mated_score(ply + 1) == mated_score(ply) + 1,
        mate_score(ply) == -mated_score(ply),
        -Score::INFINITE < mated_score(ply) < Score::ZERO < mate_score(ply) < Score::INFINITE
            < Score::NONE,
        Score::ZERO == 0,
        Score::INFINITE == 32001,
        Score::NONE == 32002,
{
}

/// A move is noisy exactly if it captures or promotes. The absence of a move is
/// neither, and is told from every move by going nowhere.
pub proof fn captures_and_promotions_are_noisy(mv: Move)
    ensures
        mv.noisy() <==> mv.kind == MoveKind::Capture || mv.kind == MoveKind::EnPassant
            || mv.kind is Promotion || mv.kind is CapturePromotion,
        !no_move().noisy(),
        !no_move().present(),
        mv.from != mv.to ==> mv.present(),
        mv.kind != MoveKind::Null ==> mv.present(),
{
}

/// A quotient is the whole number next to the fraction, on the side of zero.
pub proof fn quotients_round_towards_zero(a: int, b: int)
    requires
        b > 0,
    ensures
        a >= 0 ==> b * quotient(a, b) <= a < b * (quotient(a, b) + 1),
        a <= 0 ==> b * (quotient(a, b) - 1) < a <= b * quotient(a, b),
        quotient(-a, b) == -quotient(a, b),
{
    let n = if a >= 0 {
        a
    } else {
        -a
    };
    let q = n / b;
    assert(b * q <= n < b * (q + 1)) by (nonlinear_arith)
        requires
            b > 0,
            n >= 0,
            q == n / b,
    ;
    assert(b * (-q) == -(b * q)) by (nonlinear_arith);
    assert(b * (-q - 1) == -(b * (q + 1))) by (nonlinear_arith);
}

/// Turning the board around twice gives every square back; each square goes to
/// another one of its file, the first rank to the eighth.
pub proof fn turning_goes_up_the_file(sq: Square)
    ensures
        0 <= turned(sq.ordinal()) < 64,
        turned(turned(sq.ordinal())) == sq.ordinal(),
        turned(sq.ordinal()) % 8 == sq.ordinal() % 8,
        turned(sq.ordinal()) / 8 + sq.ordinal() / 8 == 7,
        sq.ordinal() == 8 * sq.rank.ordinal() + sq.file.ordinal(),
        square_at(sq.ordinal()) == sq,
{
}

/// Colours, kinds, ranks and files are numbered from zero: White before Black, the pawn
/// first and the king last, from the first rank up and from the file of the queen's rook
/// across.
pub proof fn numbering_starts_from_zero(color: Color)
    ensures
        Color::White.ordinal() == 0 && Color::Black.ordinal() == 1,
        color.other() != color && color.other().other() == color,
        PieceType::Pawn.ordinal() == 0 && PieceType::Knight.ordinal() == 1,
        PieceType::Bishop.ordinal() == 2 && PieceType::Rook.ordinal() == 3,
        PieceType::Queen.ordinal() == 4 && PieceType::King.ordinal() == 5,
        Rank::First.ordinal() == 0 && Rank::Second.ordinal() == 1 && Rank::Third.ordinal() == 2,
        Rank::Fourth.ordinal() == 3 && Rank::Fifth.ordinal() == 4 && Rank::Sixth.ordinal() == 5,
        Rank::Seventh.ordinal() == 6 && Rank::Eighth.ordinal() == 7,
        File::A.ordinal() == 0 && File::B.ordinal() == 1 && File::C.ordinal() == 2,
        File::D.ordinal() == 3 && File::E.ordinal() == 4 && File::F.ordinal() == 5,
        File::G.ordinal() == 6 && File::H.ordinal() == 7,
{
}

/// Of two numbers, the larger is not below and the smaller not above either, and each is
/// one of them. A number that is held between two ends is itself inside, and the nearer
/// end outside.
pub proof fn comparisons_choose(a: int, b: int, x: int, low: int, high: int)
    requires
        low <= high,
    ensures
        larger(a, b) >= a && larger(a, b) >= b && (larger(a, b) == a || larger(a, b) == b),
        smaller(a, b) <= a && smaller(a, b) <= b && (smaller(a, b) == a || smaller(a, b) == b),
        low <= clamped(x, low, high) <= high,
        low <= x <= high ==> clamped(x, low, high) == x,
        x < low ==> clamped(x, low, high) == low,
        x > high ==> clamped(x, low, high) == high,
{
}

} // verus!
