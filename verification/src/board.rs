//! Positions, the board with its history, and observers of piece changes.
use crate::backend::Backend;
use crate::steps::{make_move, undo_move};
use crate::types::{turned, Color, Move, Piece, PieceType, Square};
use vstd::prelude::*;

verus! {

/// Everything the search reads of one position.
#[derive(Copy, Clone)]
pub struct Position {
    /// What stands on each square, by the number of the square.
    pub squares: [Option<Piece>; 64],
    pub side_to_move: Color,
    pub in_check: bool,
    /// Plies since the last capture or pawn move.
    pub halfmove_clock: u8,
    /// The class of the halfmove clock that correction tables go by.
    pub halfmove_clock_bucket: usize,
    /// Plies since the last null move.
    pub plies_from_null: usize,
    pub hash: u64,
    pub pawn_key: u64,
    pub white_non_pawn_key: u64,
    pub black_non_pawn_key: u64,
    /// The squares that the opponent attacks, one bit each.
    pub threats: u64,
}

/// How many of the first `n` squares are occupied.
pub open spec fn occupied(squares: Seq<Option<Piece>>, n: int) -> int
    decreases n,
{
    if n <= 0 {
        0
    } else {
        occupied(squares, n - 1) + if squares[n - 1] is Some { 1int } else { 0int }
    }
}

/// The numbers, below `n`, of the squares on which `piece` stands, in
/// ascending order.
pub open spec fn placed(squares: Seq<Option<Piece>>, piece: Piece, n: int) -> Seq<int>
    decreases n,
{
    if n <= 0 {
        Seq::empty()
    } else if squares[n - 1] == Some(piece) {
        placed(squares, piece, n - 1).push(n - 1)
    } else {
        placed(squares, piece, n - 1)
    }
}

/// Whether the side has a king on the board.
pub open spec fn has_king(squares: Seq<Option<Piece>>, color: Color) -> bool {
    exists|k: int|
        0 <= k < 64 && #[trigger] squares[k] == Some(Piece { color, piece_type: PieceType::King })
}

/// Whether the side has a chessman other than pawns and the king.
pub open spec fn has_officer(squares: Seq<Option<Piece>>, color: Color) -> bool {
    exists|k: int|
        0 <= k < 64 && is_officer(#[trigger] squares[k], color)
}

/// Whether a square holds a knight, bishop, rook or queen of the side.
pub open spec fn is_officer(content: Option<Piece>, color: Color) -> bool {
    match content {
        Some(piece) => piece.color == color && piece.piece_type != PieceType::Pawn
            && piece.piece_type != PieceType::King,
        None => false,
    }
}

/// The sum of `f` over the chessmen on the first `n` squares; `f` takes the
/// chessman and the number of its square.
pub open spec fn sum_board(
    squares: Seq<Option<Piece>>,
    f: spec_fn(Piece, int) -> int,
    n: int,
) -> int
    decreases n,
{
    if n <= 0 {
        0
    } else {
        sum_board(squares, f, n - 1) + term(squares[n - 1], f, n - 1)
    }
}

/// The part of `sum_board` that comes from one kind of chessman of one side.
pub open spec fn sum_kind(
    squares: Seq<Option<Piece>>,
    piece: Piece,
    f: spec_fn(Piece, int) -> int,
    n: int,
) -> int
    decreases n,
{
    if n <= 0 {
        0
    } else {
        sum_kind(squares, piece, f, n - 1) + if squares[n - 1] == Some(piece) {
            f(piece, n - 1)
        } else {
            0
        }
    }
}

/// The sum of `f` over a list of squares with the same chessman on each.
pub open spec fn sum_list(list: Seq<int>, piece: Piece, f: spec_fn(Piece, int) -> int) -> int
    decreases list.len(),
{
    if list.len() == 0 {
        0
    } else {
        sum_list(list.drop_last(), piece, f) + f(piece, list.last())
    }
}

/// The twelve kinds of chessmen, White's six before Black's.
pub open spec fn kind_number(j: int) -> Piece {
    Piece {
        color: if j < 6 { Color::White } else { Color::Black },
        piece_type: {
            let t = if j < 6 { j } else { j - 6 };
            if t == 0 {
                PieceType::Pawn
            } else if t == 1 {
                PieceType::Knight
            } else if t == 2 {
                PieceType::Bishop
            } else if t == 3 {
                PieceType::Rook
            } else if t == 4 {
                PieceType::Queen
            } else {
                PieceType::King
            }
        },
    }
}

/// The part of `sum_board` that comes from the first `j` kinds of chessmen.
pub open spec fn sum_kinds(
    squares: Seq<Option<Piece>>,
    f: spec_fn(Piece, int) -> int,
    j: int,
    n: int,
) -> int
    decreases j,
{
    if j <= 0 {
        0
    } else {
        sum_kinds(squares, f, j - 1, n) + sum_kind(squares, kind_number(j - 1), f, n)
    }
}

/// What a square's content contributes to `sum_board`.
pub open spec fn term(content: Option<Piece>, f: spec_fn(Piece, int) -> int, k: int) -> int {
    match content {
        Some(piece) => f(piece, k),
        None => 0,
    }
}

/// Putting something else on one square changes the sum by the difference of
/// the two contributions.
pub proof fn lemma_sum_after_update(
    squares: Seq<Option<Piece>>,
    k: int,
    content: Option<Piece>,
    f: spec_fn(Piece, int) -> int,
    n: int,
)
    requires
        0 <= k < squares.len(),
        0 <= n <= squares.len(),
    ensures
        sum_board(squares.update(k, content), f, n) == sum_board(squares, f, n) + if k < n {
            term(content, f, k) - term(squares[k], f, k)
        } else {
            0
        },
    decreases n,
{
    if n > 0 {
        lemma_sum_after_update(squares, k, content, f, n - 1);
    }
}

/// Summing over the list of squares of one kind gives that kind's part.
pub proof fn lemma_sum_of_placed(
    squares: Seq<Option<Piece>>,
    piece: Piece,
    f: spec_fn(Piece, int) -> int,
    n: int,
)
    ensures
        sum_list(placed(squares, piece, n), piece, f) == sum_kind(squares, piece, f, n),
    decreases n,
{
    if n > 0 {
        lemma_sum_of_placed(squares, piece, f, n - 1);
        let before = placed(squares, piece, n - 1);
        assert(before.push(n - 1).drop_last() =~= before);
    }
}

proof fn lemma_kinds_step(
    squares: Seq<Option<Piece>>,
    f: spec_fn(Piece, int) -> int,
    j: int,
    n: int,
)
    requires
        0 <= j <= 12,
        0 < n,
    ensures
        sum_kinds(squares, f, j, n) == sum_kinds(squares, f, j, n - 1) + match squares[n - 1] {
            Some(piece) => if kind_rank(piece) < j {
                f(piece, n - 1)
            } else {
                0
            },
            None => 0int,
        },
    decreases j,
{
    if j > 0 {
        lemma_kinds_step(squares, f, j - 1, n);
    }
}

spec fn kind_rank(piece: Piece) -> int {
    6 * piece.color.ordinal() + piece.piece_type.ordinal()
}

/// The sum over the board is the sum over the twelve kinds of chessmen.
pub proof fn lemma_sum_by_kind(
    squares: Seq<Option<Piece>>,
    f: spec_fn(Piece, int) -> int,
    n: int,
)
    requires
        0 <= n,
    ensures
        sum_kinds(squares, f, 12, n) == sum_board(squares, f, n),
    decreases n,
{
    if n > 0 {
        lemma_sum_by_kind(squares, f, n - 1);
        lemma_kinds_step(squares, f, 12, n);
    } else {
        lemma_no_kinds(squares, f, 12);
    }
}

proof fn lemma_no_kinds(squares: Seq<Option<Piece>>, f: spec_fn(Piece, int) -> int, j: int)
    ensures
        sum_kinds(squares, f, j, 0) == 0,
    decreases j,
{
    if j > 0 {
        lemma_no_kinds(squares, f, j - 1);
    }
}

/// The board turned around, with every chessman changing sides.
pub open spec fn mirrored(squares: Seq<Option<Piece>>) -> Seq<Option<Piece>> {
    Seq::new(
        64,
        |k: int|
            match squares[turned(k)] {
                Some(piece) => Some(piece.recolored()),
                None => None,
            },
    )
}

/// The part of `sum_board` that comes from one rank.
spec fn sum_rank(squares: Seq<Option<Piece>>, f: spec_fn(Piece, int) -> int, r: int) -> int {
    term(squares[8 * r], f, 8 * r) + term(squares[8 * r + 1], f, 8 * r + 1) + term(
        squares[8 * r + 2],
        f,
        8 * r + 2,
    ) + term(squares[8 * r + 3], f, 8 * r + 3) + term(squares[8 * r + 4], f, 8 * r + 4) + term(
        squares[8 * r + 5],
        f,
        8 * r + 5,
    ) + term(squares[8 * r + 6], f, 8 * r + 6) + term(squares[8 * r + 7], f, 8 * r + 7)
}

proof fn lemma_sum_by_rank(squares: Seq<Option<Piece>>, f: spec_fn(Piece, int) -> int, r: int)
    requires
        0 <= r,
    ensures
        sum_board(squares, f, 8 * r + 8) == sum_board(squares, f, 8 * r) + sum_rank(squares, f, r),
{
    reveal_with_fuel(sum_board, 9);
}

proof fn lemma_rank_mirrored(
    squares: Seq<Option<Piece>>,
    f: spec_fn(Piece, int) -> int,
    g: spec_fn(Piece, int) -> int,
    r: int,
)
    requires
        squares.len() == 64,
        0 <= r < 8,
        forall|piece: Piece, k: int|
            0 <= k < 64 ==> #[trigger] g(piece.recolored(), turned(k)) == f(piece, k),
    ensures
        sum_rank(mirrored(squares), g, r) == sum_rank(squares, f, 7 - r),
{
    assert forall|k: int| 0 <= k < 64 implies term(
        #[trigger] mirrored(squares)[turned(k)],
        g,
        turned(k),
    ) == term(squares[k], f, k) by {
        assert(turned(turned(k)) == k);
    }
    let low = 8 * (7 - r);
    assert(turned(low) == 8 * r);
    assert(turned(low + 1) == 8 * r + 1);
    assert(turned(low + 2) == 8 * r + 2);
    assert(turned(low + 3) == 8 * r + 3);
    assert(turned(low + 4) == 8 * r + 4);
    assert(turned(low + 5) == 8 * r + 5);
    assert(turned(low + 6) == 8 * r + 6);
    assert(turned(low + 7) == 8 * r + 7);
}

/// A sum over the board is the same on the board turned around, if each
/// chessman contributes the same there.
pub proof fn lemma_sum_mirrored(
    squares: Seq<Option<Piece>>,
    f: spec_fn(Piece, int) -> int,
    g: spec_fn(Piece, int) -> int,
)
    requires
        squares.len() == 64,
        forall|piece: Piece, k: int|
            0 <= k < 64 ==> #[trigger] g(piece.recolored(), turned(k)) == f(piece, k),
    ensures
        sum_board(mirrored(squares), g, 64) == sum_board(squares, f, 64),
{
    lemma_sum_by_rank(squares, f, 0);
    lemma_sum_by_rank(squares, f, 1);
    lemma_sum_by_rank(squares, f, 2);
    lemma_sum_by_rank(squares, f, 3);
    lemma_sum_by_rank(squares, f, 4);
    lemma_sum_by_rank(squares, f, 5);
    lemma_sum_by_rank(squares, f, 6);
    lemma_sum_by_rank(squares, f, 7);
    let m = mirrored(squares);
    lemma_sum_by_rank(m, g, 0);
    lemma_sum_by_rank(m, g, 1);
    lemma_sum_by_rank(m, g, 2);
    lemma_sum_by_rank(m, g, 3);
    lemma_sum_by_rank(m, g, 4);
    lemma_sum_by_rank(m, g, 5);
    lemma_sum_by_rank(m, g, 6);
    lemma_sum_by_rank(m, g, 7);
    lemma_rank_mirrored(squares, f, g, 0);
    lemma_rank_mirrored(squares, f, g, 1);
    lemma_rank_mirrored(squares, f, g, 2);
    lemma_rank_mirrored(squares, f, g, 3);
    lemma_rank_mirrored(squares, f, g, 4);
    lemma_rank_mirrored(squares, f, g, 5);
    lemma_rank_mirrored(squares, f, g, 6);
    lemma_rank_mirrored(squares, f, g, 7);
}

/// Every chessman counts as one, and nothing else counts.
pub proof fn every_man_is_counted(squares: Seq<Option<Piece>>, k: int)
    requires
        squares.len() == 64,
        0 <= k < 64,
    ensures
        squares[k] is Some ==> occupied(squares, 64) == occupied(squares.update(k, None), 64) + 1,
        (forall|j: int| 0 <= j < 64 ==> (#[trigger] squares[j]) is None) ==> occupied(squares, 64)
            == 0,
{
    let one = |piece: Piece, j: int| 1;
    lemma_occupied_is_a_sum(squares, 64);
    lemma_occupied_is_a_sum(squares.update(k, None), 64);
    lemma_sum_after_update(squares, k, None, one, 64);
    if forall|j: int| 0 <= j < 64 ==> (#[trigger] squares[j]) is None {
        lemma_nobody_is_counted(squares, 64);
    }
}

proof fn lemma_nobody_is_counted(squares: Seq<Option<Piece>>, n: int)
    requires
        0 <= n <= 64,
        squares.len() == 64,
        forall|j: int| 0 <= j < 64 ==> (#[trigger] squares[j]) is None,
    ensures
        occupied(squares, n) == 0,
    decreases n,
{
    if n > 0 {
        lemma_nobody_is_counted(squares, n - 1);
    }
}

proof fn lemma_occupied_is_a_sum(squares: Seq<Option<Piece>>, n: int)
    ensures
        occupied(squares, n) == sum_board(squares, |piece: Piece, k: int| 1, n),
    decreases n,
{
    if n > 0 {
        lemma_occupied_is_a_sum(squares, n - 1);
    }
}

/// There are as many chessmen on the board turned around.
pub proof fn turning_keeps_the_count(squares: Seq<Option<Piece>>)
    requires
        squares.len() == 64,
    ensures
        occupied(mirrored(squares), 64) == occupied(squares, 64),
{
    let one = |piece: Piece, k: int| 1;
    lemma_occupied_is_a_sum(squares, 64);
    lemma_occupied_is_a_sum(mirrored(squares), 64);
    lemma_sum_mirrored(squares, one, one);
}

proof fn lemma_occupied_grows(squares: Seq<Option<Piece>>, m: int, n: int)
    requires
        m <= n,
    ensures
        occupied(squares, m) <= occupied(squares, n),
        0 <= occupied(squares, n),
        n >= 0 ==> occupied(squares, n) <= n,
    decreases n - m, n,
{
    if n > 0 {
        if m < n {
            lemma_occupied_grows(squares, m, n - 1);
        } else {
            lemma_occupied_grows(squares, n - 1, n - 1);
        }
    }
}

/// A board with both kings holds at least two chessmen, and at most 64.
pub proof fn kings_are_two_pieces(squares: Seq<Option<Piece>>)
    requires
        has_king(squares, Color::White),
        has_king(squares, Color::Black),
    ensures
        2 <= occupied(squares, 64) <= 64,
{
    let w = choose|k: int|
        0 <= k < 64 && #[trigger] squares[k] == Some(
            Piece { color: Color::White, piece_type: PieceType::King },
        );
    let b = choose|k: int|
        0 <= k < 64 && #[trigger] squares[k] == Some(
            Piece { color: Color::Black, piece_type: PieceType::King },
        );
    let low = if w < b { w } else { b };
    let high = if w < b { b } else { w };
    lemma_occupied_grows(squares, 0, low);
    lemma_occupied_grows(squares, low + 1, high);
    lemma_occupied_grows(squares, high + 1, 64);
}

impl Position {
    /// A position that can be played: both kings are on the board.
    #[verifier::opaque]
    pub open spec fn wf(self) -> bool {
        has_king(self.squares@, Color::White) && has_king(self.squares@, Color::Black)
    }

    /// The number of chessmen.
    pub open spec fn men(self) -> int {
        occupied(self.squares@, 64)
    }

    /// What stands on a square.
    pub open spec fn on(self, sq: Square) -> Option<Piece> {
        self.squares@[sq.ordinal()]
    }

    /// The key of a side's chessmen other than pawns.
    pub open spec fn non_pawn_key_of(self, color: Color) -> u64 {
        match color {
            Color::White => self.white_non_pawn_key,
            Color::Black => self.black_non_pawn_key,
        }
    }

    /// The number of chessmen.
    pub fn piece_count(&self) -> (n: usize)
        ensures
            n == self.men(),
            n <= 64,
            self.wf() ==> n >= 2,
    {
        let mut n: usize = 0;
        let mut k: usize = 0;
        while k < 64
            invariant
                k <= 64,
                n <= k,
                n == occupied(self.squares@, k as int),
            decreases 64 - k,
        {
            if self.squares[k].is_some() {
                n = n + 1;
            }
            k = k + 1;
        }
        proof {
            reveal(Position::wf);
            if self.wf() {
                kings_are_two_pieces(self.squares@);
            }
        }
        n
    }

    /// The squares on which the side's chessmen of one kind stand, from a1 to
    /// h8.
    pub fn colored_pieces(&self, color: Color, piece_type: PieceType) -> (list: Vec<Square>)
        ensures
            list@.len() == placed(self.squares@, Piece { color, piece_type }, 64).len(),
            forall|i: int|
                0 <= i < list@.len() ==> (#[trigger] list@[i]).ordinal() == placed(
                    self.squares@,
                    Piece { color, piece_type },
                    64,
                )[i],
    {
        let piece = Piece::new(color, piece_type);
        let mut list: Vec<Square> = Vec::new();
        let mut k: usize = 0;
        while k < 64
            invariant
                k <= 64,
                piece == (Piece { color, piece_type }),
                list@.len() == placed(self.squares@, piece, k as int).len(),
                forall|i: int|
                    0 <= i < list@.len() ==> (#[trigger] list@[i]).ordinal() == placed(
                        self.squares@,
                        piece,
                        k as int,
                    )[i],
            decreases 64 - k,
        {
            match self.squares[k] {
                Some(p) => {
                    if p == piece {
                        list.push(Square::new(k));
                    }
                },
                None => {},
            }
            k = k + 1;
        }
        list
    }

    /// Whether the side has a chessman other than pawns and the king.
    pub fn has_non_pawn_material(&self, color: Color) -> (b: bool)
        ensures
            b == has_officer(self.squares@, color),
    {
        let mut k: usize = 0;
        while k < 64
            invariant
                k <= 64,
                forall|i: int| 0 <= i < k ==> !is_officer(#[trigger] self.squares@[i], color),
            decreases 64 - k,
        {
            match self.squares[k] {
                Some(p) => {
                    if p.color == color && p.piece_type != PieceType::Pawn && p.piece_type
                        != PieceType::King {
                        assert(is_officer(self.squares@[k as int], color));
                        return true;
                    }
                },
                None => {},
            }
            k = k + 1;
        }
        false
    }

    /// The chessman that a move takes from its square, if there is one.
    pub fn moved_piece(&self, mv: Move) -> (piece: Option<Piece>)
        ensures
            piece == self.on(mv.from),
    {
        self.squares[mv.from.index()]
    }

    /// The kind of the chessman on a square, if there is one.
    pub fn type_on(&self, sq: Square) -> (kind: Option<PieceType>)
        ensures
            kind == (match self.on(sq) {
                Some(piece) => Some(piece.piece_type),
                None => None,
            }),
    {
        match self.squares[sq.index()] {
            Some(piece) => Some(piece.piece_type),
            None => None,
        }
    }

    /// The key of a side's chessmen other than pawns.
    pub fn non_pawn_key(&self, color: Color) -> (key: u64)
        ensures
            key == self.non_pawn_key_of(color),
    {
        match color {
            Color::White => self.white_non_pawn_key,
            Color::Black => self.black_non_pawn_key,
        }
    }
}

/// A change of what stands on the board.
#[derive(Copy, Clone, Debug, PartialEq, Eq, Structural)]
pub enum PieceChange {
    /// A chessman appears on an empty square.
    Add { piece: Piece, square: Square },
    /// A chessman disappears.
    Remove { piece: Piece, square: Square },
    /// A chessman goes to an empty square.
    Shift { piece: Piece, from: Square, to: Square },
    /// A chessman becomes another one.
    Mutate { before: Piece, after: Piece, square: Square },
}

/// Whether a change can happen to what stands on the board.
pub open spec fn change_fits(squares: Seq<Option<Piece>>, change: PieceChange) -> bool {
    match change {
        PieceChange::Add { piece, square } => squares[square.ordinal()] is None,
        PieceChange::Remove { piece, square } => squares[square.ordinal()] == Some(piece),
        PieceChange::Shift { piece, from, to } => squares[from.ordinal()] == Some(piece)
            && squares[to.ordinal()] is None,
        PieceChange::Mutate { before, after, square } => squares[square.ordinal()] == Some(before),
    }
}

/// What stands on the board after a change.
pub open spec fn changed(squares: Seq<Option<Piece>>, change: PieceChange) -> Seq<Option<Piece>> {
    match change {
        PieceChange::Add { piece, square } => squares.update(square.ordinal(), Some(piece)),
        PieceChange::Remove { piece, square } => squares.update(square.ordinal(), None),
        PieceChange::Shift { piece, from, to } => squares.update(from.ordinal(), None).update(
            to.ordinal(),
            Some(piece),
        ),
        PieceChange::Mutate { before, after, square } => squares.update(
            square.ordinal(),
            Some(after),
        ),
    }
}

/// What stands on the board after a list of changes.
pub open spec fn changed_by_all(
    squares: Seq<Option<Piece>>,
    changes: Seq<PieceChange>,
) -> Seq<Option<Piece>>
    decreases changes.len(),
{
    if changes.len() == 0 {
        squares
    } else {
        changed(changed_by_all(squares, changes.drop_last()), changes.last())
    }
}

/// Whether the changes can happen one after the other.
pub open spec fn changes_fit(squares: Seq<Option<Piece>>, changes: Seq<PieceChange>) -> bool
    decreases changes.len(),
{
    if changes.len() == 0 {
        true
    } else {
        &&& changes_fit(squares, changes.drop_last())
        &&& change_fits(changed_by_all(squares, changes.drop_last()), changes.last())
    }
}

/// Whether the changes lead from one placement of the chessmen to another.
pub open spec fn leads_to(
    squares: Seq<Option<Piece>>,
    changes: Seq<PieceChange>,
    next: Seq<Option<Piece>>,
) -> bool {
    changes_fit(squares, changes) && changed_by_all(squares, changes) == next
}

/// Something that is told of every change on the board.
pub trait BoardObserver: Sized {
    /// What the observer amounts to, in specifications.
    type Model;

    spec fn model(&self) -> Self::Model;

    /// Whether the observer can be told of changes.
    spec fn attentive(model: Self::Model) -> bool;

    /// The observer after it was told of a change.
    spec fn told(model: Self::Model, change: PieceChange) -> Self::Model;

    /// A chessman appears on a square, or disappears from it.
    fn on_piece_change(&mut self, board: &Board, piece: Piece, sq: Square, add: bool)
        requires
            Self::attentive(old(self).model()),
        ensures
            Self::attentive(final(self).model()),
            final(self).model() == Self::told(
                old(self).model(),
                if add {
                    PieceChange::Add { piece, square: sq }
                } else {
                    PieceChange::Remove { piece, square: sq }
                },
            ),
    ;

    /// A chessman goes from one square to another.
    fn on_piece_move(&mut self, board: &Board, piece: Piece, from: Square, to: Square)
        requires
            Self::attentive(old(self).model()),
        ensures
            Self::attentive(final(self).model()),
            final(self).model() == Self::told(
                old(self).model(),
                PieceChange::Shift { piece, from, to },
            ),
    ;

    /// A chessman becomes another one.
    fn on_piece_mutate(&mut self, board: &Board, old_piece: Piece, new_piece: Piece, sq: Square)
        requires
            Self::attentive(old(self).model()),
        ensures
            Self::attentive(final(self).model()),
            final(self).model() == Self::told(
                old(self).model(),
                PieceChange::Mutate { before: old_piece, after: new_piece, square: sq },
            ),
    ;
}

/// The observer after it was told of a list of changes.
pub open spec fn told_all<O: BoardObserver>(
    model: O::Model,
    changes: Seq<PieceChange>,
) -> O::Model
    decreases changes.len(),
{
    if changes.len() == 0 {
        model
    } else {
        O::told(told_all::<O>(model, changes.drop_last()), changes.last())
    }
}

/// The board, in specifications.
pub struct BoardState {
    pub current: Position,
    pub history: Seq<Position>,
}

/// The position on the board and those before it.
pub struct Board {
    pub current: Position,
    pub history: Vec<Position>,
}

impl Board {
    /// The present position and the ones that undoing goes back to.
    pub open spec fn view(&self) -> BoardState {
        BoardState { current: self.current, history: self.history@ }
    }

    /// A board on which nothing has been played yet.
    pub fn new(position: Position) -> (board: Board)
        ensures
            board@ == (BoardState { current: position, history: Seq::empty() }),
    {
        Board { current: position, history: Vec::new() }
    }

    /// Plays a move and tells the observer of every change it makes.
    pub fn make_move<B: Backend, O: BoardObserver>(
        &mut self,
        backend: &B,
        mv: Move,
        observer: &mut O,
    )
        requires
            old(self).current.wf(),
            O::attentive(old(observer).model()),
        ensures
            final(self)@ == (BoardState {
                current: B::play_model(backend.state(), old(self).current, mv).0,
                history: old(self)@.history.push(old(self).current),
            }),
            final(self).current.wf(),
            leads_to(
                old(self).current.squares@,
                B::play_model(backend.state(), old(self).current, mv).1,
                final(self).current.squares@,
            ),
            final(observer).model() == told_all::<O>(
                old(observer).model(),
                B::play_model(backend.state(), old(self).current, mv).1,
            ),
            O::attentive(final(observer).model()),
    {
        let (next, changes) = backend.play(&self.current, mv);
        let mut i: usize = 0;
        while i < changes.len()
            invariant
                i <= changes@.len(),
                *self == *old(self),
                O::attentive(observer.model()),
                observer.model() == told_all::<O>(old(observer).model(), changes@.take(i as int)),
            decreases changes@.len() - i,
        {
            assert(changes@.take(i + 1).drop_last() =~= changes@.take(i as int));
            match changes[i] {
                PieceChange::Add { piece, square } => {
                    observer.on_piece_change(self, piece, square, true);
                },
                PieceChange::Remove { piece, square } => {
                    observer.on_piece_change(self, piece, square, false);
                },
                PieceChange::Shift { piece, from, to } => {
                    observer.on_piece_move(self, piece, from, to);
                },
                PieceChange::Mutate { before, after, square } => {
                    observer.on_piece_mutate(self, before, after, square);
                },
            }
            i = i + 1;
        }
        assert(changes@.take(i as int) =~= changes@);
        self.history.push(self.current);
        self.current = next;
    }

    /// Takes the last move back.
    pub fn undo_move(&mut self, _mv: Move)
        requires
            old(self)@.history.len() > 0,
        ensures
            final(self)@ == (BoardState {
                current: old(self)@.history.last(),
                history: old(self)@.history.drop_last(),
            }),
    {
        self.current = self.history.pop().unwrap();
    }

    /// Gives the turn to the opponent without a move.
    pub fn make_null_move<B: Backend>(&mut self, backend: &B)
        requires
            old(self).current.wf(),
        ensures
            final(self)@ == (BoardState {
                current: B::pass_model(backend.state(), old(self).current),
                history: old(self)@.history.push(old(self).current),
            }),
            final(self).current.wf(),
            final(self).current.squares@ == old(self).current.squares@,
    {
        let next = backend.pass(&self.current);
        self.history.push(self.current);
        self.current = next;
    }

    /// Takes the last null move back.
    pub fn undo_null_move(&mut self)
        requires
            old(self)@.history.len() > 0,
        ensures
            final(self)@ == (BoardState {
                current: old(self)@.history.last(),
                history: old(self)@.history.drop_last(),
            }),
    {
        self.current = self.history.pop().unwrap();
    }
}

/// What a change does to the board, square by square: a chessman appears, disappears,
/// goes from one square to another, or becomes another, and every other square keeps
/// what stands on it.
pub proof fn changes_are_local(squares: Seq<Option<Piece>>, change: PieceChange, k: int)
    requires
        squares.len() == 64,
        0 <= k < 64,
    ensures
        changed(squares, change)[k] == match change {
            PieceChange::Add { piece, square } => if k == square.ordinal() {
                Some(piece)
            } else {
                squares[k]
            },
            PieceChange::Remove { piece, square } => if k == square.ordinal() {
                None
            } else {
                squares[k]
            },
            PieceChange::Shift { piece, from, to } => if k == to.ordinal() {
                Some(piece)
            } else if k == from.ordinal() {
                None
            } else {
                squares[k]
            },
            PieceChange::Mutate { before, after, square } => if k == square.ordinal() {
                Some(after)
            } else {
                squares[k]
            },
        },
        changed(squares, change).len() == 64,
{
}

/// Changes happen one after the other: those of two lists in a row lead where the
/// second leads from where the first has led.
pub proof fn changes_happen_in_order(
    squares: Seq<Option<Piece>>,
    first: Seq<PieceChange>,
    second: Seq<PieceChange>,
)
    ensures
        changed_by_all(squares, Seq::<PieceChange>::empty()) == squares,
        changed_by_all(squares, first + second) == changed_by_all(
            changed_by_all(squares, first),
            second,
        ),
        second.len() == 1 ==> changed_by_all(squares, second) == changed(squares, second[0]),
    decreases second.len(),
{
    let all = first + second;
    if second.len() == 0 {
        assert(all =~= first);
    } else {
        changes_happen_in_order(squares, first, second.drop_last());
        assert(all.drop_last() =~= first + second.drop_last());
        assert(all.last() == second.last());
        if second.len() == 1 {
            assert(second.drop_last() =~= Seq::<PieceChange>::empty());
        }
    }
}

/// The list of squares of one kind of chessman holds each square where one stands, and
/// no other, from the lowest number to the highest.
pub proof fn lists_hold_every_square(squares: Seq<Option<Piece>>, piece: Piece, n: int, k: int)
    requires
        0 <= n <= squares.len(),
    ensures
        placed(squares, piece, n).contains(k) <==> 0 <= k < n && squares[k] == Some(piece),
        forall|i: int, j: int|
            0 <= i < j < placed(squares, piece, n).len() ==> placed(squares, piece, n)[i] < placed(
                squares,
                piece,
                n,
            )[j],
    decreases n,
{
    if n > 0 {
        lists_hold_every_square(squares, piece, n - 1, k);
        let before = placed(squares, piece, n - 1);
        if squares[n - 1] == Some(piece) {
            let all = before.push(n - 1);
            assert(all.last() == n - 1);
            if before.contains(k) {
                let i = choose|i: int| 0 <= i < before.len() && before[i] == k;
                assert(all[i] == k);
            }
            if k == n - 1 {
                assert(all[before.len() as int] == k);
            }
            assert forall|i: int| 0 <= i < before.len() implies before[i] < n - 1 by {
                lists_hold_every_square(squares, piece, n - 1, before[i]);
                assert(before.contains(before[i]));
            }
        }
    }
}

} // verus!
