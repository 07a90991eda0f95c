//! The neural evaluation: two accumulators of the first layer, kept up to date
//! piece by piece, and an output layer chosen by the number of chessmen.
use crate::board::{
    change_fits, changed, changed_by_all, kind_number, leads_to, lemma_sum_after_update,
    lemma_sum_by_kind, lemma_sum_mirrored, lemma_sum_of_placed, mirrored, placed, sum_board,
    sum_kind, sum_kinds, sum_list, told_all, Board, BoardObserver, PieceChange, Position,
};
use crate::evaluation::evaluate;
use crate::types::{clamp, clamped, quotient, smaller, turned, Color, Piece, PieceType, Square};
use vstd::prelude::*;
use vstd::wrapping::i16_specs::{signed_crop, wrapping_add, wrapping_sub};

verus! {

/// One input for each kind of chessman of each side on each square.
pub const INPUT_SIZE: usize = 768;

/// Values in one accumulator.
pub const HIDDEN_SIZE: usize = 384;

/// Weights of one output bucket: one for each value of both accumulators.
pub const OUTPUT_SIZE: usize = 768;

/// Number of output layers to choose from.
pub const OUTPUT_BUCKETS: usize = 4;

pub const EVAL_SCALE: i32 = 400;

pub const L0_SCALE: i32 = 256;

pub const L1_SCALE: i32 = 64;

/// No evaluation is beyond this, on either side.
pub const MATE_BOUND: i32 = 31000;

/// The trained weights.
pub struct Parameters {
    pub input_weights: Vec<[i16; HIDDEN_SIZE]>,
    pub input_bias: [i16; HIDDEN_SIZE],
    pub output_weights: Vec<[i16; OUTPUT_SIZE]>,
    pub output_bias: [i16; OUTPUT_BUCKETS],
}

impl Parameters {
    /// There is a row of weights for every input and every output bucket, and
    /// the output weights are quantized to eight bits.
    #[verifier::opaque]
    pub open spec fn wf(self) -> bool {
        &&& self.input_weights@.len() == INPUT_SIZE
        &&& self.output_weights@.len() == OUTPUT_BUCKETS
        &&& forall|b: int, k: int|
            0 <= b < OUTPUT_BUCKETS && 0 <= k < OUTPUT_SIZE ==> -128
                <= #[trigger] self.output_weights@[b]@[k] <= 127
    }
}

/// Why bytes hold no parameters.
#[derive(Copy, Clone, Debug, PartialEq, Eq, Structural)]
pub enum ParametersError {
    /// There are too many or too few.
    Length,
    /// An output weight does not fit in eight bits.
    OutputWeight,
}

/// The number of bytes of stored parameters, the padding at their end included.
pub const PARAMETERS_LENGTH: usize = 596800;

/// Where in stored parameters the bias of the first layer begins, counted in
/// words.
pub const INPUT_BIAS_AT: usize = 294912;

/// Where in stored parameters the output weights begin, counted in words.
pub const OUTPUT_WEIGHTS_AT: usize = 295296;

/// Where in stored parameters the output biases begin, counted in words.
pub const OUTPUT_BIAS_AT: usize = 298368;

/// The word in place `k` of a sequence of bytes: sixteen bits, the low byte
/// first, with a sign.
pub open spec fn word(bytes: Seq<u8>, k: int) -> int {
    let unsigned = bytes[2 * k] + 256 * bytes[2 * k + 1];
    if unsigned < 32768 {
        unsigned
    } else {
        unsigned - 65536
    }
}

/// The parameters are the ones stored in the bytes: the rows of input weights,
/// the bias of the first layer, the rows of output weights, and the output
/// biases, one after the other.
pub open spec fn stored_in(p: Parameters, bytes: Seq<u8>) -> bool {
    &&& p.input_weights@.len() == INPUT_SIZE
    &&& p.output_weights@.len() == OUTPUT_BUCKETS
    &&& forall|f: int, i: int|
        0 <= f < INPUT_SIZE && 0 <= i < HIDDEN_SIZE ==> #[trigger] p.input_weights@[f]@[i] == word(
            bytes,
            HIDDEN_SIZE * f + i,
        )
    &&& forall|i: int|
        0 <= i < HIDDEN_SIZE ==> #[trigger] p.input_bias@[i] == word(bytes, INPUT_BIAS_AT + i)
    &&& forall|b: int, k: int|
        0 <= b < OUTPUT_BUCKETS && 0 <= k < OUTPUT_SIZE ==> #[trigger] p.output_weights@[b]@[k]
            == word(bytes, OUTPUT_WEIGHTS_AT + OUTPUT_SIZE * b + k)
    &&& forall|b: int|
        0 <= b < OUTPUT_BUCKETS ==> #[trigger] p.output_bias@[b] == word(bytes, OUTPUT_BIAS_AT + b)
}

/// Whether every stored output weight fits in eight bits.
pub open spec fn stores_small_outputs(bytes: Seq<u8>) -> bool {
    forall|j: int|
        OUTPUT_WEIGHTS_AT <= j < OUTPUT_BIAS_AT ==> -128 <= #[trigger] word(bytes, j) <= 127
}

/// The word in place `k` of stored parameters.
fn word_at(bytes: &Vec<u8>, k: usize) -> (value: i16)
    requires
        k < 298400,
        2 * k + 1 < bytes@.len(),
    ensures
        value == word(bytes@, k as int),
{
    let unsigned: i32 = bytes[2 * k] as i32 + 256 * bytes[2 * k + 1] as i32;
    if unsigned < 32768 {
        unsigned as i16
    } else {
        (unsigned - 65536) as i16
    }
}

/// A row of input weights, from the place where it begins.
fn hidden_row(bytes: &Vec<u8>, start: usize) -> (row: [i16; HIDDEN_SIZE])
    requires
        bytes@.len() == PARAMETERS_LENGTH,
        start <= INPUT_BIAS_AT,
    ensures
        forall|i: int| 0 <= i < HIDDEN_SIZE ==> #[trigger] row@[i] == word(bytes@, start + i),
{
    let mut row: [i16; HIDDEN_SIZE] = [0i16;HIDDEN_SIZE];
    let mut i: usize = 0;
    while i < HIDDEN_SIZE
        invariant
            i <= HIDDEN_SIZE,
            bytes@.len() == PARAMETERS_LENGTH,
            start <= INPUT_BIAS_AT,
            forall|j: int| 0 <= j < i ==> #[trigger] row@[j] == word(bytes@, start + j),
        decreases HIDDEN_SIZE - i,
    {
        row[i] = word_at(bytes, start + i);
        i = i + 1;
    }
    row
}

/// A row of output weights, from the place where it begins.
fn output_row(bytes: &Vec<u8>, start: usize) -> (row: [i16; OUTPUT_SIZE])
    requires
        bytes@.len() == PARAMETERS_LENGTH,
        start + OUTPUT_SIZE <= OUTPUT_BIAS_AT,
    ensures
        forall|i: int| 0 <= i < OUTPUT_SIZE ==> #[trigger] row@[i] == word(bytes@, start + i),
{
    let mut row: [i16; OUTPUT_SIZE] = [0i16;OUTPUT_SIZE];
    let mut i: usize = 0;
    while i < OUTPUT_SIZE
        invariant
            i <= OUTPUT_SIZE,
            bytes@.len() == PARAMETERS_LENGTH,
            start + OUTPUT_SIZE <= OUTPUT_BIAS_AT,
            forall|j: int| 0 <= j < i ==> #[trigger] row@[j] == word(bytes@, start + j),
        decreases OUTPUT_SIZE - i,
    {
        row[i] = word_at(bytes, start + i);
        i = i + 1;
    }
    row
}

impl Parameters {
    /// Reads stored parameters.
    pub fn from_bytes(bytes: &Vec<u8>) -> (result: Result<Parameters, ParametersError>)
        ensures
            match result {
                Ok(p) => bytes@.len() == PARAMETERS_LENGTH && stores_small_outputs(bytes@)
                    && stored_in(p, bytes@) && p.wf(),
                Err(ParametersError::Length) => bytes@.len() != PARAMETERS_LENGTH,
                Err(ParametersError::OutputWeight) => bytes@.len() == PARAMETERS_LENGTH
                    && !stores_small_outputs(bytes@),
            },
    {
        reveal(Parameters::wf);
        if bytes.len() != PARAMETERS_LENGTH {
            return Err(ParametersError::Length);
        }
        let mut j: usize = OUTPUT_WEIGHTS_AT;
        while j < OUTPUT_BIAS_AT
            invariant
                bytes@.len() == PARAMETERS_LENGTH,
                OUTPUT_WEIGHTS_AT <= j <= OUTPUT_BIAS_AT,
                forall|k: int|
                    OUTPUT_WEIGHTS_AT <= k < j ==> -128 <= #[trigger] word(bytes@, k) <= 127,
            decreases OUTPUT_BIAS_AT - j,
        {
            let w = word_at(bytes, j);
            if w < -128 || w > 127 {
                return Err(ParametersError::OutputWeight);
            }
            j = j + 1;
        }
        let mut input_weights: Vec<[i16; HIDDEN_SIZE]> = Vec::new();
        let mut f: usize = 0;
        while f < INPUT_SIZE
            invariant
                bytes@.len() == PARAMETERS_LENGTH,
                f <= INPUT_SIZE,
                input_weights@.len() == f,
                forall|g: int, i: int|
                    0 <= g < f && 0 <= i < HIDDEN_SIZE ==> #[trigger] input_weights@[g]@[i] == word(
                        bytes@,
                        HIDDEN_SIZE * g + i,
                    ),
            decreases INPUT_SIZE - f,
        {
            let row = hidden_row(bytes, HIDDEN_SIZE * f);
            input_weights.push(row);
            f = f + 1;
        }
        let input_bias = hidden_row(bytes, INPUT_BIAS_AT);
        let mut output_weights: Vec<[i16; OUTPUT_SIZE]> = Vec::new();
        let mut b: usize = 0;
        while b < OUTPUT_BUCKETS
            invariant
                bytes@.len() == PARAMETERS_LENGTH,
                b <= OUTPUT_BUCKETS,
                output_weights@.len() == b,
                forall|c: int, k: int|
                    0 <= c < b && 0 <= k < OUTPUT_SIZE ==> #[trigger] output_weights@[c]@[k]
                        == word(bytes@, OUTPUT_WEIGHTS_AT + OUTPUT_SIZE * c + k),
            decreases OUTPUT_BUCKETS - b,
        {
            let row = output_row(bytes, OUTPUT_WEIGHTS_AT + OUTPUT_SIZE * b);
            output_weights.push(row);
            b = b + 1;
        }
        let mut output_bias: [i16; OUTPUT_BUCKETS] = [0i16;OUTPUT_BUCKETS];
        let mut c: usize = 0;
        while c < OUTPUT_BUCKETS
            invariant
                bytes@.len() == PARAMETERS_LENGTH,
                c <= OUTPUT_BUCKETS,
                forall|d: int|
                    0 <= d < c ==> #[trigger] output_bias@[d] == word(bytes@, OUTPUT_BIAS_AT + d),
            decreases OUTPUT_BUCKETS - c,
        {
            output_bias[c] = word_at(bytes, OUTPUT_BIAS_AT + c);
            c = c + 1;
        }
        Ok(Parameters { input_weights, input_bias, output_weights, output_bias })
    }
}

/// The input that stands for a chessman on a square, as one side sees it: its
/// own men come first, and Black looks at the board turned around.
pub open spec fn feature(side: Color, piece: Piece, square: int) -> int {
    (if piece.color == side { 0int } else { 384 }) + 64 * piece.piece_type.ordinal() + match side {
        Color::White => square,
        Color::Black => turned(square),
    }
}

/// The inputs that stand for a chessman on a square, for White and for Black.
pub fn index(piece: Piece, square: Square) -> (inputs: (usize, usize))
    ensures
        inputs.0 == feature(Color::White, piece, square.ordinal()),
        inputs.1 == feature(Color::Black, piece, square.ordinal()),
        inputs.0 < INPUT_SIZE,
        inputs.1 < INPUT_SIZE,
{
    let color = piece.color.index();
    let pt = piece.piece_type.index();
    let sq = square.index();
    assert(sq < 64 ==> (sq ^ 56) == 8 * (7 - sq / 8) + sq % 8) by (bit_vector);
    (384 * color + 64 * pt + sq, 384 * (1 - color) + 64 * pt + (sq ^ 56))
}

/// The two accumulators, in specifications.
#[verifier::ext_equal]
pub struct Accumulators {
    pub white: Seq<i16>,
    pub black: Seq<i16>,
}

impl Accumulators {
    /// The accumulator that sees the board as `side` does.
    pub open spec fn of(self, side: Color) -> Seq<i16> {
        match side {
            Color::White => self.white,
            Color::Black => self.black,
        }
    }

    /// Both accumulators are complete.
    pub open spec fn wf(self) -> bool {
        self.white.len() == HIDDEN_SIZE && self.black.len() == HIDDEN_SIZE
    }
}

/// The state of the network, in specifications.
#[verifier::ext_equal]
pub struct NetworkState {
    pub parameters: Parameters,
    pub now: Accumulators,
    pub saved: Seq<Accumulators>,
}

impl NetworkState {
    /// The parameters and both accumulators are complete.
    pub open spec fn wf(self) -> bool {
        self.parameters.wf() && self.now.wf()
    }
}

/// The network with a copy of its accumulators put aside.
pub open spec fn pushed(net: NetworkState) -> NetworkState {
    NetworkState { saved: net.saved.push(net.now), ..net }
}

/// The network with the accumulators that were put aside last.
pub open spec fn popped(net: NetworkState) -> NetworkState {
    NetworkState { now: net.saved.last(), saved: net.saved.drop_last(), ..net }
}

/// What a chessman on a square adds to one value of the accumulator of a side.
pub open spec fn weight(p: Parameters, side: Color, piece: Piece, square: int, i: int) -> int {
    p.input_weights@[feature(side, piece, square)]@[i] as int
}

/// The accumulator with the inputs of one more chessman switched on.
pub open spec fn switched_on(
    p: Parameters,
    side: Color,
    acc: Seq<i16>,
    piece: Piece,
    square: int,
) -> Seq<i16> {
    Seq::new(
        HIDDEN_SIZE as nat,
        |i: int| wrapping_add(acc[i], p.input_weights@[feature(side, piece, square)]@[i]),
    )
}

/// The accumulator with the inputs of one chessman switched off.
pub open spec fn switched_off(
    p: Parameters,
    side: Color,
    acc: Seq<i16>,
    piece: Piece,
    square: int,
) -> Seq<i16> {
    Seq::new(
        HIDDEN_SIZE as nat,
        |i: int| wrapping_sub(acc[i], p.input_weights@[feature(side, piece, square)]@[i]),
    )
}

/// The network after a chessman has appeared on a square.
pub open spec fn activated(net: NetworkState, piece: Piece, square: Square) -> NetworkState {
    NetworkState {
        now: Accumulators {
            white: switched_on(
                net.parameters,
                Color::White,
                net.now.white,
                piece,
                square.ordinal(),
            ),
            black: switched_on(
                net.parameters,
                Color::Black,
                net.now.black,
                piece,
                square.ordinal(),
            ),
        },
        ..net
    }
}

/// The network after a chessman has disappeared from a square.
pub open spec fn deactivated(net: NetworkState, piece: Piece, square: Square) -> NetworkState {
    NetworkState {
        now: Accumulators {
            white: switched_off(
                net.parameters,
                Color::White,
                net.now.white,
                piece,
                square.ordinal(),
            ),
            black: switched_off(
                net.parameters,
                Color::Black,
                net.now.black,
                piece,
                square.ordinal(),
            ),
        },
        ..net
    }
}

/// One accumulator computed from scratch: the bias plus the weights of every
/// chessman on the board, in sixteen bits.
pub open spec fn fresh_side(p: Parameters, side: Color, squares: Seq<Option<Piece>>) -> Seq<i16> {
    Seq::new(
        HIDDEN_SIZE as nat,
        |i: int|
            signed_crop(
                p.input_bias@[i] + sum_board(squares, weights_at(p, side, i), 64),
            ),
    )
}

/// Both accumulators computed from scratch.
pub open spec fn fresh(p: Parameters, squares: Seq<Option<Piece>>) -> Accumulators {
    Accumulators {
        white: fresh_side(p, Color::White, squares),
        black: fresh_side(p, Color::Black, squares),
    }
}

/// The output bucket for a number of chessmen.
pub open spec fn bucket_of(piece_count: int) -> int {
    smaller((smaller(piece_count, 32) - 2) * OUTPUT_BUCKETS / 31, OUTPUT_BUCKETS - 1)
}

/// The first `n` terms of one half of the output layer: clipped values times
/// weights, the weights starting at `offset`.
pub open spec fn forward_sum(acc: Seq<i16>, weights: Seq<i16>, offset: int, n: int) -> int
    decreases n,
{
    if n <= 0 {
        0
    } else {
        forward_sum(acc, weights, offset, n - 1) + clamped(acc[n - 1] as int, 0, L0_SCALE as int)
            * weights[offset + n - 1]
    }
}

/// The evaluation that the output layer gives for two accumulators.
pub open spec fn output_score(
    p: Parameters,
    own: Seq<i16>,
    other: Seq<i16>,
    piece_count: int,
) -> int {
    let b = bucket_of(piece_count);
    let weights = p.output_weights@[b]@;
    let output = forward_sum(own, weights, 0, HIDDEN_SIZE as int) + forward_sum(
        other,
        weights,
        HIDDEN_SIZE as int,
        HIDDEN_SIZE as int,
    );
    clamped(
        quotient(
            (quotient(output, L0_SCALE as int) + p.output_bias@[b]) * EVAL_SCALE,
            L0_SCALE * L1_SCALE,
        ),
        -MATE_BOUND,
        MATE_BOUND as int,
    )
}

/// The evaluation of the network's present state.
pub open spec fn network_score(net: NetworkState, side_to_move: Color, piece_count: int) -> int {
    output_score(
        net.parameters,
        net.now.of(side_to_move),
        net.now.of(side_to_move.other()),
        piece_count,
    )
}

/// One half of the output layer.
fn forward(acc: &[i16; HIDDEN_SIZE], weights: &[i16; OUTPUT_SIZE], offset: usize) -> (sum: i32)
    requires
        offset == 0 || offset == HIDDEN_SIZE,
        forall|k: int| 0 <= k < OUTPUT_SIZE ==> -128 <= #[trigger] weights@[k] <= 127,
    ensures
        sum == forward_sum(acc@, weights@, offset as int, HIDDEN_SIZE as int),
        -32768 * HIDDEN_SIZE <= sum <= 32768 * HIDDEN_SIZE,
{
    let mut sum: i32 = 0;
    let mut k: usize = 0;
    while k < HIDDEN_SIZE
        invariant
            k <= HIDDEN_SIZE,
            offset == 0 || offset == HIDDEN_SIZE,
            forall|j: int| 0 <= j < OUTPUT_SIZE ==> -128 <= #[trigger] weights@[j] <= 127,
            sum == forward_sum(acc@, weights@, offset as int, k as int),
            -32768 * k <= sum <= 32768 * k,
        decreases HIDDEN_SIZE - k,
    {
        let value: i32 = clamp(acc[k] as i32, 0, L0_SCALE);
        let w: i32 = weights[offset + k] as i32;
        assert(-32768 <= value * w <= 32768) by (nonlinear_arith)
            requires
                0 <= value <= 256,
                -128 <= w <= 127,
        ;
        sum = sum + value * w;
        k = k + 1;
    }
    sum
}

/// The network with its weights, its accumulators and those put aside.
pub struct Network<'a> {
    parameters: &'a Parameters,
    accumulators: [[i16; HIDDEN_SIZE]; 2],
    stack: Vec<[[i16; HIDDEN_SIZE]; 2]>,
}

/// The two accumulators of an array, in specifications.
pub open spec fn as_accumulators(pair: [[i16; HIDDEN_SIZE]; 2]) -> Accumulators {
    Accumulators { white: pair@[0]@, black: pair@[1]@ }
}

impl<'a> Network<'a> {
    /// The state of the network.
    pub closed spec fn view(&self) -> NetworkState {
        NetworkState {
            parameters: *self.parameters,
            now: as_accumulators(self.accumulators),
            saved: self.stack@.map_values(|pair: [[i16; HIDDEN_SIZE]; 2]| as_accumulators(pair)),
        }
    }

    /// A network that sees no chessman yet, with nothing put aside.
    pub fn new(parameters: &'a Parameters) -> (network: Network<'a>)
        ensures
            network@ == (NetworkState {
                parameters: *parameters,
                now: Accumulators {
                    white: parameters.input_bias@,
                    black: parameters.input_bias@,
                },
                saved: Seq::empty(),
            }),
            parameters.wf() ==> network@.wf(),
    {
        let network = Network {
            parameters,
            accumulators: [parameters.input_bias;2],
            stack: Vec::new(),
        };
        assert(network@.saved =~= Seq::empty());
        network
    }

    /// Puts a copy of the accumulators aside.
    pub fn push(&mut self)
        ensures
            final(self)@ == pushed(old(self)@),
    {
        self.stack.push(self.accumulators);
        assert(self@.saved =~= old(self)@.saved.push(old(self)@.now));
    }

    /// Takes back the accumulators that were put aside last.
    pub fn pop(&mut self)
        requires
            old(self)@.saved.len() > 0,
        ensures
            final(self)@ == popped(old(self)@),
    {
        self.accumulators = self.stack.pop().unwrap();
        assert(self@.saved =~= old(self)@.saved.drop_last());
    }

    /// The evaluation for the side to move.
    pub fn evaluate(&self, side_to_move: Color, piece_count: usize) -> (score: i32)
        requires
            self@.wf(),
            piece_count >= 2,
        ensures
            score == network_score(self@, side_to_move, piece_count as int),
            -MATE_BOUND <= score <= MATE_BOUND,
    {
        reveal(Parameters::wf);
        let bucket: usize = ((piece_count.min(32) - 2) * OUTPUT_BUCKETS / (32 - 2 + 1)).min(
            OUTPUT_BUCKETS - 1,
        );
        let stm: [i16; HIDDEN_SIZE] = self.accumulators[side_to_move.index()];
        let nstm: [i16; HIDDEN_SIZE] = self.accumulators[side_to_move.opponent().index()];
        let weights = &self.parameters.output_weights[bucket];
        let output: i32 = forward(&stm, weights, 0) + forward(&nstm, weights, HIDDEN_SIZE);
        let score: i32 = (output / L0_SCALE + self.parameters.output_bias[bucket] as i32)
            * EVAL_SCALE / (L0_SCALE * L1_SCALE);
        clamp(score, -MATE_BOUND, MATE_BOUND)
    }

    /// Switches on the inputs of a chessman on a square.
    fn activate(&mut self, piece: Piece, square: Square)
        requires
            old(self)@.wf(),
        ensures
            final(self)@ == activated(old(self)@, piece, square),
    {
        reveal(Parameters::wf);
        let (white, black) = index(piece, square);
        let ghost before = self.accumulators;
        let mut i: usize = 0;
        while i < HIDDEN_SIZE
            invariant
                i <= HIDDEN_SIZE,
                self.parameters == old(self).parameters,
                self.stack == old(self).stack,
                self.parameters.input_weights@.len() == INPUT_SIZE,
                white < INPUT_SIZE,
                black < INPUT_SIZE,
                before == old(self).accumulators,
                forall|j: int|
                    0 <= j < HIDDEN_SIZE ==> #[trigger] self.accumulators@[0]@[j] == if j < i {
                        wrapping_add(
                            before@[0]@[j],
                            self.parameters.input_weights@[white as int]@[j],
                        )
                    } else {
                        before@[0]@[j]
                    },
                forall|j: int|
                    0 <= j < HIDDEN_SIZE ==> #[trigger] self.accumulators@[1]@[j] == if j < i {
                        wrapping_add(
                            before@[1]@[j],
                            self.parameters.input_weights@[black as int]@[j],
                        )
                    } else {
                        before@[1]@[j]
                    },
            decreases HIDDEN_SIZE - i,
        {
            self.accumulators[0][i] = self.accumulators[0][i].wrapping_add(
                self.parameters.input_weights[white][i],
            );
            self.accumulators[1][i] = self.accumulators[1][i].wrapping_add(
                self.parameters.input_weights[black][i],
            );
            i = i + 1;
        }
        assert(self@ =~= activated(old(self)@, piece, square));
    }

    /// Switches off the inputs of a chessman on a square.
    fn deactivate(&mut self, piece: Piece, square: Square)
        requires
            old(self)@.wf(),
        ensures
            final(self)@ == deactivated(old(self)@, piece, square),
    {
        reveal(Parameters::wf);
        let (white, black) = index(piece, square);
        let ghost before = self.accumulators;
        let mut i: usize = 0;
        while i < HIDDEN_SIZE
            invariant
                i <= HIDDEN_SIZE,
                self.parameters == old(self).parameters,
                self.stack == old(self).stack,
                self.parameters.input_weights@.len() == INPUT_SIZE,
                white < INPUT_SIZE,
                black < INPUT_SIZE,
                before == old(self).accumulators,
                forall|j: int|
                    0 <= j < HIDDEN_SIZE ==> #[trigger] self.accumulators@[0]@[j] == if j < i {
                        wrapping_sub(
                            before@[0]@[j],
                            self.parameters.input_weights@[white as int]@[j],
                        )
                    } else {
                        before@[0]@[j]
                    },
                forall|j: int|
                    0 <= j < HIDDEN_SIZE ==> #[trigger] self.accumulators@[1]@[j] == if j < i {
                        wrapping_sub(
                            before@[1]@[j],
                            self.parameters.input_weights@[black as int]@[j],
                        )
                    } else {
                        before@[1]@[j]
                    },
            decreases HIDDEN_SIZE - i,
        {
            self.accumulators[0][i] = self.accumulators[0][i].wrapping_sub(
                self.parameters.input_weights[white][i],
            );
            self.accumulators[1][i] = self.accumulators[1][i].wrapping_sub(
                self.parameters.input_weights[black][i],
            );
            i = i + 1;
        }
        assert(self@ =~= deactivated(old(self)@, piece, square));
    }

    /// Switches on the inputs of the side's chessmen of one kind.
    fn activate_kind(&mut self, position: &Position, color: Color, piece_type: PieceType)
        requires
            old(self)@.wf(),
        ensures
            final(self)@.parameters == old(self)@.parameters,
            final(self)@.saved == old(self)@.saved,
            final(self)@.wf(),
            forall|side: Color, i: int|
                0 <= i < HIDDEN_SIZE ==> #[trigger] final(self)@.now.of(side)[i] == signed_crop(
                    old(self)@.now.of(side)[i] + sum_kind(
                        position.squares@,
                        Piece { color, piece_type },
                        weights_at(old(self)@.parameters, side, i),
                        64,
                    ),
                ),
    {
        let piece = Piece::new(color, piece_type);
        let list = position.colored_pieces(color, piece_type);
        let ghost numbers = placed(position.squares@, piece, 64);
        let mut n: usize = 0;
        while n < list.len()
            invariant
                n <= list@.len(),
                list@.len() == numbers.len(),
                forall|i: int| 0 <= i < list@.len() ==> (#[trigger] list@[i]).ordinal() == numbers[i],
                self@.parameters == old(self)@.parameters,
                self@.saved == old(self)@.saved,
                self@.wf(),
                forall|side: Color, i: int|
                    0 <= i < HIDDEN_SIZE ==> #[trigger] self@.now.of(side)[i] == signed_crop(
                        old(self)@.now.of(side)[i] + sum_list(
                            numbers.take(n as int),
                            piece,
                            weights_at(old(self)@.parameters, side, i),
                        ),
                    ),
            decreases list@.len() - n,
        {
            let ghost before = self@;
            self.activate(piece, list[n]);
            proof {
                assert(numbers.take(n + 1).drop_last() =~= numbers.take(n as int));
                assert forall|side: Color, i: int| 0 <= i < HIDDEN_SIZE implies #[trigger] self@.now.of(
                    side,
                )[i] == signed_crop(
                    old(self)@.now.of(side)[i] + sum_list(
                        numbers.take(n + 1),
                        piece,
                        weights_at(old(self)@.parameters, side, i),
                    ),
                ) by {
                    let w = self@.parameters.input_weights@[feature(side, piece, numbers[n as int])]@[i];
                    lemma_wrap_add(before.now.of(side)[i], w);
                    lemma_crop_twice(
                        old(self)@.now.of(side)[i] + sum_list(
                            numbers.take(n as int),
                            piece,
                            weights_at(old(self)@.parameters, side, i),
                        ),
                        w as int,
                    );
                }
            }
            n = n + 1;
        }
        proof {
            assert(numbers.take(n as int) =~= numbers);
            assert forall|side: Color, i: int| 0 <= i < HIDDEN_SIZE implies #[trigger] self@.now.of(
                side,
            )[i] == signed_crop(
                old(self)@.now.of(side)[i] + sum_kind(
                    position.squares@,
                    piece,
                    weights_at(old(self)@.parameters, side, i),
                    64,
                ),
            ) by {
                lemma_sum_of_placed(
                    position.squares@,
                    piece,
                    weights_at(old(self)@.parameters, side, i),
                    64,
                );
            }
        }
    }

    /// Computes both accumulators from scratch.
    pub fn full_refresh(&mut self, board: &Board)
        requires
            old(self)@.wf(),
        ensures
            final(self)@ == (NetworkState {
                now: fresh(old(self)@.parameters, board.current.squares@),
                ..old(self)@
            }),
    {
        self.accumulators = [self.parameters.input_bias;2];
        let colors: [Color; 2] = [Color::White, Color::Black];
        let kinds: [PieceType; 6] = [
            PieceType::Pawn,
            PieceType::Knight,
            PieceType::Bishop,
            PieceType::Rook,
            PieceType::Queen,
            PieceType::King,
        ];
        let ghost squares = board.current.squares@;
        let ghost p = old(self)@.parameters;
        let mut c: usize = 0;
        while c < 2
            invariant
                c <= 2,
                colors@ == seq![Color::White, Color::Black],
                kinds@ == seq![
                    PieceType::Pawn,
                    PieceType::Knight,
                    PieceType::Bishop,
                    PieceType::Rook,
                    PieceType::Queen,
                    PieceType::King,
                ],
                squares == board.current.squares@,
                p == old(self)@.parameters,
                self@.parameters == p,
                self@.saved == old(self)@.saved,
                self@.wf(),
                summed_up(self@.now, p, squares, 6 * c),
            decreases 2 - c,
        {
            let mut k: usize = 0;
            while k < 6
                invariant
                    c < 2,
                    k <= 6,
                    colors@ == seq![Color::White, Color::Black],
                    kinds@ == seq![
                        PieceType::Pawn,
                        PieceType::Knight,
                        PieceType::Bishop,
                        PieceType::Rook,
                        PieceType::Queen,
                        PieceType::King,
                    ],
                    squares == board.current.squares@,
                    p == old(self)@.parameters,
                    self@.parameters == p,
                    self@.saved == old(self)@.saved,
                    self@.wf(),
                    summed_up(self@.now, p, squares, 6 * c + k),
                decreases 6 - k,
            {
                let ghost before = self@.now;
                self.activate_kind(&board.current, colors[c], kinds[k]);
                proof {
                    let j = 6 * c + k;
                    assert(kind_number(j) == (Piece {
                        color: colors@[c as int],
                        piece_type: kinds@[k as int],
                    }));
                    assert forall|side: Color, i: int| 0 <= i < HIDDEN_SIZE implies #[trigger] self@.now.of(
                        side,
                    )[i] == signed_crop(
                        p.input_bias@[i] + sum_kinds(squares, weights_at(p, side, i), j + 1, 64),
                    ) by {
                        assert(before.of(side)[i] == signed_crop(
                            p.input_bias@[i] + sum_kinds(squares, weights_at(p, side, i), j, 64),
                        ));
                        lemma_crop_twice(
                            p.input_bias@[i] + sum_kinds(squares, weights_at(p, side, i), j, 64),
                            sum_kind(squares, kind_number(j), weights_at(p, side, i), 64),
                        );
                    }
                }
                k = k + 1;
            }
            c = c + 1;
        }
        proof {
            assert forall|side: Color, i: int| 0 <= i < HIDDEN_SIZE implies #[trigger] self@.now.of(
                side,
            )[i] == fresh_side(p, side, squares)[i] by {
                lemma_sum_by_kind(squares, weights_at(p, side, i), 64);
            }
            assert(self@.now.white =~= fresh(p, squares).white) by {
                assert forall|i: int| 0 <= i < HIDDEN_SIZE implies self@.now.white[i] == fresh_side(
                    p,
                    Color::White,
                    squares,
                )[i] by {
                    assert(self@.now.of(Color::White)[i] == fresh_side(p, Color::White, squares)[i]);
                }
            }
            assert(self@.now.black =~= fresh(p, squares).black) by {
                assert forall|i: int| 0 <= i < HIDDEN_SIZE implies self@.now.black[i] == fresh_side(
                    p,
                    Color::Black,
                    squares,
                )[i] by {
                    assert(self@.now.of(Color::Black)[i] == fresh_side(p, Color::Black, squares)[i]);
                }
            }
        }
    }
}

/// The accumulators hold the bias and the weights of the chessmen of the first
/// `j` kinds.
spec fn summed_up(
    now: Accumulators,
    p: Parameters,
    squares: Seq<Option<Piece>>,
    j: int,
) -> bool {
    forall|side: Color, i: int|
        0 <= i < HIDDEN_SIZE ==> #[trigger] now.of(side)[i] == signed_crop(
            p.input_bias@[i] + sum_kinds(squares, weights_at(p, side, i), j, 64),
        )
}

/// The weights that chessmen add to one value of an accumulator.
pub open spec fn weights_at(p: Parameters, side: Color, i: int) -> spec_fn(Piece, int) -> int {
    |piece: Piece, k: int| weight(p, side, piece, k, i)
}

proof fn lemma_wrap_add(x: i16, y: i16)
    ensures
        wrapping_add(x, y) == signed_crop(x + y),
{
}

proof fn lemma_wrap_sub(x: i16, y: i16)
    ensures
        wrapping_sub(x, y) == signed_crop(x - y),
{
}

proof fn lemma_crop_twice(x: int, y: int)
    ensures
        signed_crop(signed_crop(x) + y) == signed_crop(x + y),
{
}

/// The network after it was told of a change on the board.
pub open spec fn network_told(net: NetworkState, change: PieceChange) -> NetworkState {
    match change {
        PieceChange::Add { piece, square } => activated(net, piece, square),
        PieceChange::Remove { piece, square } => deactivated(net, piece, square),
        PieceChange::Shift { piece, from, to } => activated(
            deactivated(net, piece, from),
            piece,
            to,
        ),
        PieceChange::Mutate { before, after, square } => activated(
            deactivated(net, before, square),
            after,
            square,
        ),
    }
}

impl<'a> Clone for Network<'a> {
    fn clone(&self) -> (copy: Self)
        ensures
            copy@ == self@,
    {
        let mut stack: Vec<[[i16; HIDDEN_SIZE]; 2]> = Vec::new();
        let mut i: usize = 0;
        while i < self.stack.len()
            invariant
                i <= self.stack@.len(),
                stack@ == self.stack@.take(i as int),
            decreases self.stack@.len() - i,
        {
            stack.push(self.stack[i]);
            i = i + 1;
            assert(stack@ =~= self.stack@.take(i as int));
        }
        assert(stack@ =~= self.stack@);
        Network { parameters: self.parameters, accumulators: self.accumulators, stack }
    }
}

impl<'a> BoardObserver for Network<'a> {
    type Model = NetworkState;

    open spec fn model(&self) -> NetworkState {
        self@
    }

    open spec fn attentive(model: NetworkState) -> bool {
        model.wf()
    }

    open spec fn told(model: NetworkState, change: PieceChange) -> NetworkState {
        network_told(model, change)
    }

    fn on_piece_change(&mut self, board: &Board, piece: Piece, sq: Square, add: bool) {
        if add {
            self.activate(piece, sq);
        } else {
            self.deactivate(piece, sq);
        }
    }

    fn on_piece_move(&mut self, board: &Board, piece: Piece, from: Square, to: Square) {
        self.deactivate(piece, from);
        self.activate(piece, to);
    }

    fn on_piece_mutate(&mut self, board: &Board, old_piece: Piece, new_piece: Piece, sq: Square) {
        self.deactivate(old_piece, sq);
        self.activate(new_piece, sq);
    }
}

/// The accumulators are what computing them from scratch would give.
pub open spec fn in_step(net: NetworkState, squares: Seq<Option<Piece>>) -> bool {
    net.now == fresh(net.parameters, squares)
}

proof fn lemma_added(net: NetworkState, squares: Seq<Option<Piece>>, piece: Piece, square: Square)
    requires
        squares.len() == 64,
        squares[square.ordinal()] is None,
        in_step(net, squares),
    ensures
        in_step(activated(net, piece, square), squares.update(square.ordinal(), Some(piece))),
{
    let p = net.parameters;
    let after = squares.update(square.ordinal(), Some(piece));
    let now = activated(net, piece, square).now;
    assert forall|side: Color, i: int| 0 <= i < HIDDEN_SIZE implies #[trigger] now.of(side)[i]
        == fresh_side(p, side, after)[i] by {
        let w = p.input_weights@[feature(side, piece, square.ordinal())]@[i];
        lemma_sum_after_update(squares, square.ordinal(), Some(piece), weights_at(p, side, i), 64);
        lemma_wrap_add(net.now.of(side)[i], w);
        lemma_crop_twice(
            p.input_bias@[i] + sum_board(squares, weights_at(p, side, i), 64),
            w as int,
        );
    }
    assert(now.of(Color::White) =~= fresh_side(p, Color::White, after));
    assert(now.of(Color::Black) =~= fresh_side(p, Color::Black, after));
}

proof fn lemma_removed(net: NetworkState, squares: Seq<Option<Piece>>, piece: Piece, square: Square)
    requires
        squares.len() == 64,
        squares[square.ordinal()] == Some(piece),
        in_step(net, squares),
    ensures
        in_step(deactivated(net, piece, square), squares.update(square.ordinal(), None)),
{
    let p = net.parameters;
    let after = squares.update(square.ordinal(), None);
    let now = deactivated(net, piece, square).now;
    assert forall|side: Color, i: int| 0 <= i < HIDDEN_SIZE implies #[trigger] now.of(side)[i]
        == fresh_side(p, side, after)[i] by {
        let w = p.input_weights@[feature(side, piece, square.ordinal())]@[i];
        lemma_sum_after_update(squares, square.ordinal(), None, weights_at(p, side, i), 64);
        lemma_wrap_sub(net.now.of(side)[i], w);
        lemma_crop_twice(
            p.input_bias@[i] + sum_board(squares, weights_at(p, side, i), 64),
            -(w as int),
        );
    }
    assert(now.of(Color::White) =~= fresh_side(p, Color::White, after));
    assert(now.of(Color::Black) =~= fresh_side(p, Color::Black, after));
}

/// Telling the network of one change keeps its accumulators what computing
/// them from scratch would give.
pub proof fn change_keeps_in_step(
    net: NetworkState,
    squares: Seq<Option<Piece>>,
    change: PieceChange,
)
    requires
        squares.len() == 64,
        change_fits(squares, change),
        in_step(net, squares),
    ensures
        in_step(network_told(net, change), changed(squares, change)),
{
    match change {
        PieceChange::Add { piece, square } => {
            lemma_added(net, squares, piece, square);
        },
        PieceChange::Remove { piece, square } => {
            lemma_removed(net, squares, piece, square);
        },
        PieceChange::Shift { piece, from, to } => {
            lemma_removed(net, squares, piece, from);
            lemma_added(
                deactivated(net, piece, from),
                squares.update(from.ordinal(), None),
                piece,
                to,
            );
        },
        PieceChange::Mutate { before, after, square } => {
            let gone = squares.update(square.ordinal(), None);
            lemma_removed(net, squares, before, square);
            lemma_added(deactivated(net, before, square), gone, after, square);
            assert(gone.update(square.ordinal(), Some(after)) =~= squares.update(
                square.ordinal(),
                Some(after),
            ));
        },
    }
}

/// Updating the accumulators change by change gives the same as computing them
/// from scratch on the board that the changes lead to.
pub proof fn changes_keep_in_step(
    net: NetworkState,
    squares: Seq<Option<Piece>>,
    changes: Seq<PieceChange>,
    next: Seq<Option<Piece>>,
)
    requires
        squares.len() == 64,
        leads_to(squares, changes, next),
        in_step(net, squares),
    ensures
        in_step(told_all::<Network>(net, changes), next),
        next.len() == 64,
    decreases changes.len(),
{
    if changes.len() > 0 {
        let before = changes.drop_last();
        changes_keep_in_step(net, squares, before, changed_by_all(squares, before));
        change_keeps_in_step(
            told_all::<Network>(net, before),
            changed_by_all(squares, before),
            changes.last(),
        );
    }
}

/// Changes on the board touch neither the weights nor what was put aside.
pub proof fn changes_keep_the_rest(net: NetworkState, changes: Seq<PieceChange>)
    ensures
        told_all::<Network>(net, changes).parameters == net.parameters,
        told_all::<Network>(net, changes).saved == net.saved,
    decreases changes.len(),
{
    if changes.len() > 0 {
        changes_keep_the_rest(net, changes.drop_last());
    }
}

/// Whatever the network is told of between putting its accumulators aside and
/// taking them back leaves no trace.
pub proof fn popping_undoes_pushing(net: NetworkState, changes: Seq<PieceChange>)
    ensures
        popped(told_all::<Network>(pushed(net), changes)) == net,
{
    changes_keep_the_rest(pushed(net), changes);
    assert(net.saved.push(net.now).drop_last() =~= net.saved);
}

/// Switching the inputs of a chessman on and off again, or off and on again,
/// changes nothing.
pub proof fn switching_is_undone(net: NetworkState, piece: Piece, square: Square)
    requires
        net.now.wf(),
    ensures
        deactivated(activated(net, piece, square), piece, square) == net,
        activated(deactivated(net, piece, square), piece, square) == net,
{
    assert forall|side: Color, i: int| 0 <= i < HIDDEN_SIZE implies #[trigger] deactivated(
        activated(net, piece, square),
        piece,
        square,
    ).now.of(side)[i] == net.now.of(side)[i] && activated(
        deactivated(net, piece, square),
        piece,
        square,
    ).now.of(side)[i] == net.now.of(side)[i] by {
        let w = net.parameters.input_weights@[feature(side, piece, square.ordinal())]@[i];
        let a = net.now.of(side)[i];
        assert(wrapping_sub(wrapping_add(a, w), w) == a);
        assert(wrapping_add(wrapping_sub(a, w), w) == a);
    }
    let on_off = deactivated(activated(net, piece, square), piece, square).now;
    let off_on = activated(deactivated(net, piece, square), piece, square).now;
    assert(on_off.of(Color::White) =~= net.now.of(Color::White));
    assert(on_off.of(Color::Black) =~= net.now.of(Color::Black));
    assert forall|i: int| 0 <= i < HIDDEN_SIZE implies off_on.white[i] == net.now.white[i]
        && off_on.black[i] == net.now.black[i] by {
        assert(on_off.of(Color::White)[i] == net.now.of(Color::White)[i]);
        assert(on_off.of(Color::Black)[i] == net.now.of(Color::Black)[i]);
    }
    assert(off_on =~= net.now);
}

/// The order in which the inputs of chessmen are switched on and off does not
/// matter.
pub proof fn switching_commutes(
    net: NetworkState,
    a: Piece,
    at: Square,
    b: Piece,
    by: Square,
)
    ensures
        activated(activated(net, a, at), b, by) == activated(activated(net, b, by), a, at),
        deactivated(deactivated(net, a, at), b, by) == deactivated(
            deactivated(net, b, by),
            a,
            at,
        ),
        deactivated(activated(net, a, at), b, by) == activated(deactivated(net, b, by), a, at),
{
    assert forall|side: Color, i: int| 0 <= i < HIDDEN_SIZE implies {
        let x = #[trigger] net.now.of(side)[i];
        let v = net.parameters.input_weights@[feature(side, a, at.ordinal())]@[i];
        let w = net.parameters.input_weights@[feature(side, b, by.ordinal())]@[i];
        &&& wrapping_add(wrapping_add(x, v), w) == wrapping_add(wrapping_add(x, w), v)
        &&& wrapping_sub(wrapping_sub(x, v), w) == wrapping_sub(wrapping_sub(x, w), v)
        &&& wrapping_sub(wrapping_add(x, v), w) == wrapping_add(wrapping_sub(x, w), v)
    } by {}
    assert forall|i: int| 0 <= i < HIDDEN_SIZE implies net.now.of(Color::White)[i]
        == net.now.white[i] && net.now.of(Color::Black)[i] == net.now.black[i] by {}
    assert(activated(activated(net, a, at), b, by) =~= activated(activated(net, b, by), a, at));
    assert(deactivated(deactivated(net, a, at), b, by) =~= deactivated(
        deactivated(net, b, by),
        a,
        at,
    ));
    assert(deactivated(activated(net, a, at), b, by) =~= activated(
        deactivated(net, b, by),
        a,
        at,
    ));
}

/// Each side has an input of its own for every chessman on every square.
pub proof fn features_are_distinct(side: Color, a: Piece, j: int, b: Piece, k: int)
    requires
        0 <= j < 64,
        0 <= k < 64,
    ensures
        0 <= feature(side, a, j) < INPUT_SIZE,
        feature(side, a, j) == feature(side, b, k) <==> a == b && j == k,
{
}

proof fn lemma_side_turned(p: Parameters, squares: Seq<Option<Piece>>, side: Color)
    requires
        squares.len() == 64,
    ensures
        fresh_side(p, side.other(), mirrored(squares)) == fresh_side(p, side, squares),
{
    let ahead = fresh_side(p, side, squares);
    let turned_view = fresh_side(p, side.other(), mirrored(squares));
    assert forall|i: int| 0 <= i < HIDDEN_SIZE implies turned_view[i] == ahead[i] by {
        let f = weights_at(p, side, i);
        let g = weights_at(p, side.other(), i);
        assert forall|piece: Piece, k: int| 0 <= k < 64 implies #[trigger] g(
            piece.recolored(),
            turned(k),
        ) == f(piece, k) by {
            assert(turned(turned(k)) == k);
            assert(feature(side.other(), piece.recolored(), turned(k)) == feature(side, piece, k));
        }
        lemma_sum_mirrored(squares, f, g);
    }
    assert(turned_view =~= ahead);
}

/// The network favours neither colour: accumulators computed from scratch give
/// the same evaluation when the board is turned around and everything changes
/// sides.
pub proof fn turning_keeps_score(
    net: NetworkState,
    turned_net: NetworkState,
    squares: Seq<Option<Piece>>,
    side_to_move: Color,
    piece_count: int,
)
    requires
        squares.len() == 64,
        turned_net.parameters == net.parameters,
        in_step(net, squares),
        in_step(turned_net, mirrored(squares)),
    ensures
        network_score(turned_net, side_to_move.other(), piece_count) == network_score(
            net,
            side_to_move,
            piece_count,
        ),
{
    lemma_side_turned(net.parameters, squares, Color::White);
    lemma_side_turned(net.parameters, squares, Color::Black);
}

/// There is an output bucket for every number of chessmen from two on, and more
/// chessmen never mean an earlier bucket; the first is for two, the last for a
/// full board.
pub proof fn buckets_are_in_order(fewer: int, more: int)
    requires
        2 <= fewer <= more,
    ensures
        0 <= bucket_of(fewer) <= bucket_of(more) < OUTPUT_BUCKETS,
        bucket_of(2) == 0,
        bucket_of(32) == OUTPUT_BUCKETS - 1,
{
}

/// The evaluation never reaches the scores of a mate.
pub proof fn score_is_bounded(net: NetworkState, side_to_move: Color, piece_count: int)
    ensures
        -MATE_BOUND <= network_score(net, side_to_move, piece_count) <= MATE_BOUND,
{
}

/// What a value of an accumulator counts for: nothing below zero, and no more
/// than a full unit.
pub open spec fn clipped(value: i16) -> int {
    if value < 0 {
        0
    } else if value > 256 {
        256
    } else {
        value as int
    }
}

proof fn lemma_forward_differs(
    acc: Seq<i16>,
    value: i16,
    i: int,
    weights: Seq<i16>,
    offset: int,
    n: int,
)
    requires
        0 <= i < acc.len(),
        0 <= n <= acc.len(),
    ensures
        forward_sum(acc.update(i, value), weights, offset, n) - forward_sum(acc, weights, offset, n)
            == if i < n {
            (clipped(value) - clipped(acc[i])) * weights[offset + i]
        } else {
            0
        },
    decreases n,
{
    if n > 0 {
        lemma_forward_differs(acc, value, i, weights, offset, n - 1);
        if i == n - 1 {
            let w = weights[offset + i];
            assert((clipped(value) - clipped(acc[i])) * w == clipped(value) * w - clipped(acc[i])
                * w) by (nonlinear_arith);
        }
    }
}

/// Each value of an accumulator counts with its own weight: changing value `i`
/// changes the sum by the difference of what the two values count for, times the
/// weight in place `i` of the half.
pub proof fn values_have_their_own_weights(
    acc: Seq<i16>,
    value: i16,
    i: int,
    weights: Seq<i16>,
    offset: int,
)
    requires
        acc.len() == HIDDEN_SIZE,
        0 <= i < HIDDEN_SIZE,
    ensures
        forward_sum(acc.update(i, value), weights, offset, 384) == forward_sum(
            acc,
            weights,
            offset,
            384,
        ) + (clipped(value) - clipped(acc[i])) * weights[offset + i],
{
    lemma_forward_differs(acc, value, i, weights, offset, 384);
}

/// Values that are not above zero count for nothing.
pub proof fn dead_values_are_silent(acc: Seq<i16>, weights: Seq<i16>, offset: int, n: int)
    requires
        0 <= n <= acc.len(),
        forall|k: int| 0 <= k < n ==> (#[trigger] acc[k]) <= 0,
    ensures
        forward_sum(acc, weights, offset, n) == 0,
    decreases n,
{
    if n > 0 {
        dead_values_are_silent(acc, weights, offset, n - 1);
        assert(0 * weights[offset + n - 1] == 0) by (nonlinear_arith);
    }
}

/// The output layer goes by the number of chessmen: one for up to nine, one for
/// up to seventeen, one for up to twenty-five, and one for more.
pub proof fn buckets_have_their_bounds(piece_count: int)
    requires
        2 <= piece_count,
    ensures
        bucket_of(piece_count) == if piece_count <= 9 {
            0int
        } else if piece_count <= 17 {
            1
        } else if piece_count <= 25 {
            2
        } else {
            3
        },
{
}

/// The evaluation is the sum of the two halves, the mover's accumulator with the
/// first half of the weights and the opponent's with the second, a
/// two-hundred-and-fifty-sixth of it, plus the bias, times 400 through 16384,
/// each time rounded towards zero, and held between -31000 and 31000.
pub proof fn evaluation_is_scaled(
    net: NetworkState,
    side_to_move: Color,
    piece_count: int,
    hidden: int,
    scaled: int,
)
    requires
        ({
            let b = bucket_of(piece_count);
            let weights = net.parameters.output_weights@[b]@;
            let (own, other) = if side_to_move == Color::White {
                (net.now.white, net.now.black)
            } else {
                (net.now.black, net.now.white)
            };
            let output = forward_sum(own, weights, 0, 384) + forward_sum(other, weights, 384, 384);
            let product = (hidden + net.parameters.output_bias@[b]) * 400;
            &&& output >= 0 ==> 256 * hidden <= output < 256 * hidden + 256
            &&& output <= 0 ==> 256 * hidden - 256 < output <= 256 * hidden
            &&& product >= 0 ==> 16384 * scaled <= product < 16384 * scaled + 16384
            &&& product <= 0 ==> 16384 * scaled - 16384 < product <= 16384 * scaled
        }),
    ensures
        network_score(net, side_to_move, piece_count) == if scaled < -31000 {
            -31000
        } else if scaled > 31000 {
            31000
        } else {
            scaled
        },
{
}

/// Switching a chessman on adds to each value of a side's accumulator the weight
/// of the chessman's input, in sixteen bits, and switching it off takes it away.
/// The inputs are numbered by owner, kind and square: a side's own men come
/// first, in the order pawn, knight, bishop, rook, queen, king, and each side
/// counts the ranks from its own end of the board.
pub proof fn switching_adds_weights(
    net: NetworkState,
    piece: Piece,
    square: Square,
    side: Color,
    i: int,
)
    requires
        0 <= i < HIDDEN_SIZE,
    ensures
        ({
            let owner = if piece.color == side {
                0int
            } else {
                1
            };
            let kind = match piece.piece_type {
                PieceType::Pawn => 0int,
                PieceType::Knight => 1,
                PieceType::Bishop => 2,
                PieceType::Rook => 3,
                PieceType::Queen => 4,
                PieceType::King => 5,
            };
            let rank = if side == Color::White {
                square.rank.ordinal()
            } else {
                7 - square.rank.ordinal()
            };
            let input = 384 * owner + 64 * kind + 8 * rank + square.file.ordinal();
            let w = net.parameters.input_weights@[input]@[i];
            let on = activated(net, piece, square);
            let off = deactivated(net, piece, square);
            &&& (on.now.of(side)[i] - net.now.of(side)[i] - w) % 65536 == 0
            &&& (off.now.of(side)[i] - net.now.of(side)[i] + w) % 65536 == 0
            &&& on.saved == net.saved && off.saved == net.saved
            &&& on.parameters == net.parameters && off.parameters == net.parameters
        }),
{
    let k = square.ordinal();
    assert(k / 8 == square.rank.ordinal() && k % 8 == square.file.ordinal());
}

proof fn lemma_no_men_no_weights(
    squares: Seq<Option<Piece>>,
    f: spec_fn(Piece, int) -> int,
    n: int,
)
    requires
        0 <= n <= squares.len(),
        forall|k: int| 0 <= k < squares.len() ==> (#[trigger] squares[k]) is None,
    ensures
        sum_board(squares, f, n) == 0,
    decreases n,
{
    if n > 0 {
        lemma_no_men_no_weights(squares, f, n - 1);
    }
}

/// From scratch, a board with nothing on it gives the bias, and every chessman on
/// it is as if it had been switched on.
pub proof fn scratch_starts_from_the_bias(
    p: Parameters,
    squares: Seq<Option<Piece>>,
    side: Color,
    i: int,
)
    requires
        squares.len() == 64,
        forall|k: int| 0 <= k < 64 ==> (#[trigger] squares[k]) is None,
        0 <= i < HIDDEN_SIZE,
    ensures
        fresh(p, squares).of(side)[i] == p.input_bias@[i],
{
    lemma_no_men_no_weights(squares, weights_at(p, side, i), 64);
}

/// A stored word is two bytes, the low one first, as a number with a sign.
pub proof fn words_are_two_bytes(bytes: Seq<u8>, k: int)
    ensures
        -32768 <= word(bytes, k) <= 32767,
        (word(bytes, k) - bytes[2 * k] - 256 * bytes[2 * k + 1]) % 65536 == 0,
{
}

/// Where the parameters are stored, word by word: 384 weights for each of the 768
/// inputs, the 384 values of the bias, 768 weights for each of the four buckets, and
/// the four output biases.
pub proof fn parameters_have_their_places(p: Parameters, bytes: Seq<u8>, i: int, f: int, b: int)
    requires
        stored_in(p, bytes),
        0 <= i < 384,
        0 <= f < 768,
        0 <= b < 4,
    ensures
        p.input_weights@[f]@[i] == word(bytes, 384 * f + i),
        p.input_bias@[i] == word(bytes, 768 * 384 + i),
        p.output_weights@[b]@[f] == word(bytes, 768 * 384 + 384 + 768 * b + f),
        p.output_bias@[b] == word(bytes, 768 * 384 + 384 + 768 * 4 + b),
{
}

/// What the network makes of a change on the board: a chessman that appears is
/// switched on and one that disappears switched off; one that goes or becomes another
/// is switched off where and what it was, and on where and what it is.
pub proof fn changes_switch_inputs(net: NetworkState, change: PieceChange)
    ensures
        network_told(net, change) == match change {
            PieceChange::Add { piece, square } => activated(net, piece, square),
            PieceChange::Remove { piece, square } => deactivated(net, piece, square),
            PieceChange::Shift { piece, from, to } => network_told(
                network_told(net, PieceChange::Remove { piece, square: from }),
                PieceChange::Add { piece, square: to },
            ),
            PieceChange::Mutate { before, after, square } => network_told(
                network_told(net, PieceChange::Remove { piece: before, square }),
                PieceChange::Add { piece: after, square },
            ),
        },
{
}

/// The stored output weights are the 3072 words after the weights and the bias of the
/// first layer; they are small if each of them fits in eight bits.
pub proof fn small_outputs_fit_in_a_byte(bytes: Seq<u8>, j: int)
    requires
        768 * 384 + 384 <= j < 768 * 384 + 384 + 4 * 768,
    ensures
        stores_small_outputs(bytes) ==> -128 <= word(bytes, j) <= 127,
        !stores_small_outputs(bytes) ==> exists|k: int|
            768 * 384 + 384 <= k < 768 * 384 + 384 + 4 * 768 && !(-128 <= #[trigger] word(bytes, k)
                <= 127),
{
}

} // verus!
