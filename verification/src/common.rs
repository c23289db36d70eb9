//! From what the detector saw to the place of the board on the screen and the
//! pieces on it.
use crate::board::{blank_board, Board, Camp};
use crate::rounding::{
    lemma_excess_unique, lemma_nearest_error, lemma_nearest_exact, lemma_nearest_monotone, nearest,
    nearest_integer,
};
use crate::single::{
    bits_value, difference, greater_of, int_value, lemma_int_exact, lemma_int_value,
    lemma_nearest_zero, less, lesser_of, magnitude, product, quotient, rounded, sum, whole, Single, Value,
};
use vstd::arithmetic::div_mod::{
    lemma_basic_div, lemma_div_is_ordered, lemma_div_multiples_vanish, lemma_div_pos_is_pos,
    lemma_fundamental_div_mod, lemma_mod_bound,
};
use vstd::arithmetic::power2::{
    lemma2_to64, lemma_pow2_adds, lemma_pow2_pos, lemma_pow2_strictly_increases, pow2,
};
use vstd::prelude::*;

verus! {

/// The label of a detection that outlines the whole board; every other label
/// is the letter of a piece.
pub const OUTLINE: char = '0';

/// The bits of the single-precision numbers that the geometry is made of; see
/// `lemma_constants`.
pub const ZERO: u32 = 0;

pub const HALF: u32 = 0x3f00_0000;

pub const TWO: u32 = 0x4000_0000;

pub const EIGHT: u32 = 0x4100_0000;

pub const NINE: u32 = 0x4110_0000;

pub const TEN: u32 = 0x4120_0000;

pub const GREATEST: u32 = 0x7f7f_ffff;

pub const LEAST: u32 = 0xff7f_ffff;

/// A box that the detector drew, in the coordinates of its own input image.
#[derive(Clone, Copy, Debug)]
pub struct Detection {
    pub label: char,
    pub x0: Single,
    pub y0: Single,
    pub x1: Single,
    pub y1: Single,
}

/// The size of the detector's input image.
#[derive(Clone, Copy, Debug)]
pub struct ModelSize {
    pub width: u32,
    pub height: u32,
}

impl ModelSize {
    pub open spec fn valid(self) -> bool {
        0 < self.width && 0 < self.height
    }
}

/// Half way between two coordinates.
pub open spec fn midpoint(a: Single, b: Single) -> Value {
    quotient(sum(a.value(), b.value()), bits_value(TWO))
}

impl Detection {
    /// The column of the cell that the middle of the box lies in.
    pub open spec fn column(self, model: ModelSize) -> int {
        whole(
            quotient(
                midpoint(self.x0, self.x1),
                quotient(int_value(model.width as int), bits_value(NINE)),
            ),
            usize::MAX as int,
        )
    }

    /// The row of the cell that the middle of the box lies in.
    pub open spec fn row(self, model: ModelSize) -> int {
        whole(
            quotient(
                midpoint(self.y0, self.y1),
                quotient(int_value(model.height as int), bits_value(TEN)),
            ),
            usize::MAX as int,
        )
    }

    /// Whether this is a piece on the cell at `row` and `col`.
    pub open spec fn stands_on(self, model: ModelSize, row: int, col: int) -> bool {
        self.label != OUTLINE && self.row(model) == row && self.column(model) == col
    }

    /// Whether this is a piece on some cell of the board.
    pub open spec fn on_board(self, model: ModelSize) -> bool {
        self.label != OUTLINE && self.row(model) <= 9 && self.column(model) <= 8
    }

    /// The side at the bottom, where this piece tells: a king in its palace, at
    /// the bottom or at the top.
    pub open spec fn camp(self, model: ModelSize) -> Camp {
        let row = self.row(model);
        if !self.on_board(model) || !(3 <= self.column(model) <= 5) {
            Camp::Unknown
        } else if row >= 7 {
            if self.label == 'k' {
                Camp::Black
            } else if self.label == 'K' {
                Camp::Red
            } else {
                Camp::Unknown
            }
        } else if row <= 2 {
            if self.label == 'k' {
                Camp::Red
            } else if self.label == 'K' {
                Camp::Black
            } else {
                Camp::Unknown
            }
        } else {
            Camp::Unknown
        }
    }
}

/// Whether the board as a whole was seen.
pub open spec fn has_outline(detections: Seq<Detection>) -> bool {
    exists|i: int| 0 <= i < detections.len() && #[trigger] detections[i].label == OUTLINE
}

/// What stands on a cell: the last piece seen there, or nothing.
pub open spec fn piece_on(detections: Seq<Detection>, model: ModelSize, row: int, col: int) -> char
    decreases detections.len(),
{
    if detections.len() == 0 {
        ' '
    } else if detections.last().stands_on(model, row, col) {
        detections.last().label
    } else {
        piece_on(detections.drop_last(), model, row, col)
    }
}

/// The side at the bottom: what the first piece that tells says.
pub open spec fn camp_seen(detections: Seq<Detection>, model: ModelSize) -> Camp
    decreases detections.len(),
{
    if detections.len() == 0 {
        Camp::Unknown
    } else {
        let before = camp_seen(detections.drop_last(), model);
        if before != Camp::Unknown {
            before
        } else {
            detections.last().camp(model)
        }
    }
}

/// Whether `board` holds just the pieces that were seen.
pub open spec fn shows(board: Board, detections: Seq<Detection>, model: ModelSize) -> bool {
    forall|row: int, col: int|
        0 <= row < 10 && 0 <= col < 9 ==> #[trigger] board@[row]@[col] == piece_on(
            detections,
            model,
            row,
            col,
        )
}

/// What the constants stand for.
pub proof fn lemma_constants()
    ensures
        bits_value(ZERO) == Value::Finite(0),
        bits_value(HALF) == Value::Finite(pow2(148) as int),
        bits_value(TWO) == Value::Finite(2int * pow2(149)),
        bits_value(EIGHT) == Value::Finite(8int * pow2(149)),
        bits_value(NINE) == Value::Finite(9int * pow2(149)),
        bits_value(TEN) == Value::Finite(10int * pow2(149)),
        bits_value(GREATEST) == Value::Finite(0xff_ffffint * pow2(253)),
        bits_value(LEAST) == Value::Finite(-0xff_ffff * pow2(253)),
        pow2(149) > 0,
{
    lemma2_to64();
    lemma_pow2_adds(125, 23);
    lemma_pow2_adds(127, 22);
    lemma_pow2_adds(129, 20);
    lemma_pow2_pos(149);
    assert(bits_value(HALF) == Value::Finite(0x80_0000int * pow2(125)));
    assert(bits_value(TWO) == Value::Finite(0x80_0000int * pow2(127)));
    assert(bits_value(EIGHT) == Value::Finite(0x80_0000int * pow2(129)));
    assert(bits_value(NINE) == Value::Finite(0x90_0000int * pow2(129)));
    assert(bits_value(TEN) == Value::Finite(0xa0_0000int * pow2(129)));
    assert(-0xff_ffff * pow2(253) == -(0xff_ffff * pow2(253))) by (nonlinear_arith);
}

/// A positive integer over a small one does not vanish.
proof fn lemma_cell_size(n: u32, d: u32)
    requires
        n > 0,
        d == NINE || d == TEN,
    ensures
        quotient(int_value(n as int), bits_value(d)) != Value::Finite(0),
{
    lemma_int_value(n as int);
    lemma_constants();
    lemma2_to64();
    let u = pow2(149) as int;
    let x = int_value(n as int)->Finite_0;
    let y = bits_value(d)->Finite_0;
    lemma_nearest_exact(1, 0, 1);
    assert(1 * pow2(0) * 1 == 1);
    assert(1 * y <= x * u * 1 && 0 <= x * u) by (nonlinear_arith)
        requires
            y <= 10 * u,
            u <= x,
            u >= 0x1000,
    ;
    lemma_nearest_monotone(1, 1, x * u, y);
}

/// Turns what the detector saw into a board and the side at its bottom.
pub fn detections_to_board(
    detections: &[Detection],
    require_board_outline: bool,
    model: ModelSize,
) -> (r: Result<(Camp, Board), String>)
    requires
        model.valid(),
    ensures
        r is Ok <==> !require_board_outline || has_outline(detections@),
        match r {
            Ok((camp, board)) => camp == camp_seen(detections@, model) && shows(
                board,
                detections@,
                model,
            ),
            Err(message) => message@ == "not board"@,
        },
{
    proof {
        lemma_constants();
        lemma_cell_size(model.width, NINE);
        lemma_cell_size(model.height, TEN);
    }
    if require_board_outline && first_outline(detections).is_none() {
        return Err("not board".to_string());
    }
    let cell_width = Single::from_u32(model.width).div(Single::from_bits(NINE));
    let cell_height = Single::from_u32(model.height).div(Single::from_bits(TEN));
    let mut camp = Camp::Unknown;
    let mut board = blank_board();
    let mut i: usize = 0;
    while i < detections.len()
        invariant
            i <= detections@.len(),
            cell_width.value() == quotient(int_value(model.width as int), bits_value(NINE)),
            cell_height.value() == quotient(int_value(model.height as int), bits_value(TEN)),
            cell_width.value() != Value::Finite(0),
            cell_height.value() != Value::Finite(0),
            bits_value(TWO) != Value::Finite(0),
            camp == camp_seen(detections@.take(i as int), model),
            shows(board, detections@.take(i as int), model),
        decreases detections@.len() - i,
    {
        let det = detections[i];
        proof {
            assert(detections@.take(i + 1).drop_last() =~= detections@.take(i as int));
            assert(detections@.take(i + 1).last() == det);
        }
        if det.label != OUTLINE {
            let two = Single::from_bits(TWO);
            let cx = det.x0.add(det.x1).div(two);
            let cy = det.y0.add(det.y1).div(two);
            let col: usize = cx.div(cell_width).to_usize();
            let row: usize = cy.div(cell_height).to_usize();
            if col <= 8 && row <= 9 {
                let ghost before = board;
                let mut cells: [char; 9] = board[row];
                cells[col] = det.label;
                board[row] = cells;
                if camp == Camp::Unknown && 3 <= col && col <= 5 {
                    if row >= 7 {
                        if det.label == 'k' {
                            camp = Camp::Black;
                        } else if det.label == 'K' {
                            camp = Camp::Red;
                        }
                    } else if row <= 2 {
                        if det.label == 'k' {
                            camp = Camp::Red;
                        } else if det.label == 'K' {
                            camp = Camp::Black;
                        }
                    }
                }
            }
        }
        i = i + 1;
    }
    assert(detections@.take(detections@.len() as int) =~= detections@);
    Ok((camp, board))
}

/// The index of the first detection that outlines the board.
pub open spec fn outline_index(detections: Seq<Detection>, i: int) -> bool {
    &&& 0 <= i < detections.len()
    &&& detections[i].label == OUTLINE
    &&& forall|j: int| 0 <= j < i ==> #[trigger] detections[j].label != OUTLINE
}

fn first_outline(detections: &[Detection]) -> (r: Option<usize>)
    ensures
        r is Some <==> has_outline(detections@),
        r matches Some(i) ==> outline_index(detections@, i as int),
{
    let mut i: usize = 0;
    while i < detections.len()
        invariant
            i <= detections@.len(),
            forall|j: int| 0 <= j < i ==> #[trigger] detections@[j].label != OUTLINE,
        decreases detections@.len() - i,
    {
        if detections[i].label == OUTLINE {
            return Some(i);
        }
        i = i + 1;
    }
    None
}

/// How much longer the screen is than the detector's image.
pub open spec fn scale(origin: u32, model: u32) -> Value {
    quotient(int_value(origin as int), int_value(model as int))
}

/// The start and the length of the stretch from `low - margin` to
/// `high + margin`, cut off at both ends of a screen of the given length.
pub open spec fn widened_span(low: Value, high: Value, margin: Value, origin: u32) -> (int, int) {
    let start = whole(greater_of(difference(low, margin), bits_value(ZERO)), u32::MAX as int);
    let end = lesser_of(sum(high, margin), int_value(origin as int));
    (start, whole(difference(end, int_value(start)), u32::MAX as int))
}

/// The stretch that an outline of the board covers: from its first line to its
/// last, and half a gap between lines more on either side.
pub open spec fn outline_span(
    low: Single,
    high: Single,
    gaps: u32,
    origin: u32,
    model: u32,
) -> (int, int) {
    let first = greater_of(product(low.value(), scale(origin, model)), bits_value(ZERO));
    let last = lesser_of(product(high.value(), scale(origin, model)), int_value(origin as int));
    let half_gap = quotient(
        quotient(difference(last, first), bits_value(gaps)),
        bits_value(TWO),
    );
    widened_span(first, last, half_gap, origin)
}

/// The stretch that the middles of the pieces cover: the least and the greatest
/// are taken for the first and the last line of the board, and half a gap
/// between lines is added on either side.
pub open spec fn piece_span(
    least: Value,
    greatest: Value,
    gaps: u32,
    origin: u32,
    model: u32,
) -> (int, int) {
    let gap = product(
        quotient(difference(greatest, least), bits_value(gaps)),
        scale(origin, model),
    );
    widened_span(
        product(least, scale(origin, model)),
        product(greatest, scale(origin, model)),
        product(gap, bits_value(HALF)),
        origin,
    )
}

fn widen(low: Single, high: Single, margin: Single, origin: u32) -> (r: (u32, u32))
    ensures
        (r.0 as int, r.1 as int) == widened_span(
            low.value(),
            high.value(),
            margin.value(),
            origin,
        ),
{
    let start: u32 = low.sub(margin).max(Single::from_bits(ZERO)).to_u32();
    let end = high.add(margin).min(Single::from_u32(origin));
    let length: u32 = end.sub(Single::from_u32(start)).to_u32();
    (start, length)
}

fn scaling(origin: u32, model: u32) -> (r: Single)
    requires
        model > 0,
    ensures
        r.value() == scale(origin, model),
{
    proof {
        lemma_int_value(model as int);
    }
    Single::from_u32(origin).div(Single::from_u32(model))
}

fn span_of_outline(low: Single, high: Single, gaps: u32, origin: u32, model: u32) -> (r: (
    u32,
    u32,
))
    requires
        model > 0,
        gaps == EIGHT || gaps == NINE,
    ensures
        (r.0 as int, r.1 as int) == outline_span(low, high, gaps, origin, model),
{
    proof {
        lemma_constants();
    }
    let ratio = scaling(origin, model);
    let first = low.mul(ratio).max(Single::from_bits(ZERO));
    let last = high.mul(ratio).min(Single::from_u32(origin));
    let half_gap = last.sub(first).div(Single::from_bits(gaps)).div(Single::from_bits(TWO));
    widen(first, last, half_gap, origin)
}

fn span_of_pieces(
    least: Single,
    greatest: Single,
    gaps: u32,
    origin: u32,
    model: u32,
) -> (r: (u32, u32))
    requires
        model > 0,
        gaps == EIGHT || gaps == NINE,
    ensures
        (r.0 as int, r.1 as int) == piece_span(
            least.value(),
            greatest.value(),
            gaps,
            origin,
            model,
        ),
{
    proof {
        lemma_constants();
    }
    let ratio = scaling(origin, model);
    let gap = greatest.sub(least).div(Single::from_bits(gaps)).mul(ratio);
    let margin = gap.mul(Single::from_bits(HALF));
    widen(least.mul(ratio), greatest.mul(ratio), margin, origin)
}

/// The pieces among the detections.
pub open spec fn pieces(detections: Seq<Detection>) -> Seq<Detection> {
    detections.filter(|det: Detection| det.label != OUTLINE)
}

/// The least of the values, or the greatest finite number where that is less.
pub open spec fn least_of(values: Seq<Value>) -> Value
    decreases values.len(),
{
    if values.len() == 0 {
        bits_value(GREATEST)
    } else {
        let before = least_of(values.drop_last());
        if less(values.last(), before) {
            values.last()
        } else {
            before
        }
    }
}

/// The greatest of the values, or the least finite number where that is greater.
pub open spec fn greatest_of(values: Seq<Value>) -> Value
    decreases values.len(),
{
    if values.len() == 0 {
        bits_value(LEAST)
    } else {
        let before = greatest_of(values.drop_last());
        if less(before, values.last()) {
            values.last()
        } else {
            before
        }
    }
}

pub open spec fn middles_x(detections: Seq<Detection>) -> Seq<Value> {
    detections.map_values(|det: Detection| midpoint(det.x0, det.x1))
}

pub open spec fn middles_y(detections: Seq<Detection>) -> Seq<Value> {
    detections.map_values(|det: Detection| midpoint(det.y0, det.y1))
}

/// How many pieces there are, and how far their middles reach.
struct Extent {
    count: usize,
    min_x: Single,
    max_x: Single,
    min_y: Single,
    max_y: Single,
}

impl Extent {
    spec fn covers(self, pieces: Seq<Detection>) -> bool {
        &&& self.count == pieces.len()
        &&& self.min_x.value() == least_of(middles_x(pieces))
        &&& self.max_x.value() == greatest_of(middles_x(pieces))
        &&& self.min_y.value() == least_of(middles_y(pieces))
        &&& self.max_y.value() == greatest_of(middles_y(pieces))
    }
}

fn extent_of_pieces(detections: &[Detection]) -> (extent: Extent)
    ensures
        extent.covers(pieces(detections@)),
{
    proof {
        lemma_constants();
    }
    let mut extent = Extent {
        count: 0,
        min_x: Single::from_bits(GREATEST),
        max_x: Single::from_bits(LEAST),
        min_y: Single::from_bits(GREATEST),
        max_y: Single::from_bits(LEAST),
    };
    let mut i: usize = 0;
    proof {
        reveal(Seq::filter);
    }
    while i < detections.len()
        invariant
            i <= detections@.len(),
            bits_value(TWO) != Value::Finite(0),
            extent.count <= i,
            extent.covers(pieces(detections@.take(i as int))),
        decreases detections@.len() - i,
    {
        let det = detections[i];
        let ghost before = detections@.take(i as int);
        let ghost after = detections@.take(i + 1);
        proof {
            assert(after.drop_last() =~= before);
            assert(after.last() == det);
            reveal(Seq::filter);
        }
        if det.label != OUTLINE {
            let two = Single::from_bits(TWO);
            let cx = det.x0.add(det.x1).div(two);
            let cy = det.y0.add(det.y1).div(two);
            proof {
                assert(pieces(after) == pieces(before).push(det));
                assert(middles_x(pieces(after)).drop_last() =~= middles_x(pieces(before)));
                assert(middles_y(pieces(after)).drop_last() =~= middles_y(pieces(before)));
            }
            if cx.lt(extent.min_x) {
                extent.min_x = cx;
            }
            if extent.max_x.lt(cx) {
                extent.max_x = cx;
            }
            if cy.lt(extent.min_y) {
                extent.min_y = cy;
            }
            if extent.max_y.lt(cy) {
                extent.max_y = cy;
            }
            extent.count = extent.count + 1;
        }
        i = i + 1;
    }
    assert(detections@.take(detections@.len() as int) =~= detections@);
    extent
}

/// The rectangle `(x, y, width, height)` that the outline `det` gives.
pub open spec fn outline_bound(
    det: Detection,
    origin_width: u32,
    origin_height: u32,
    model: ModelSize,
) -> (int, int, int, int) {
    let across = outline_span(det.x0, det.x1, EIGHT, origin_width, model.width);
    let down = outline_span(det.y0, det.y1, NINE, origin_height, model.height);
    (across.0, down.0, across.1, down.1)
}

/// The rectangle `(x, y, width, height)` that the pieces give.
pub open spec fn piece_bound(
    pieces: Seq<Detection>,
    origin_width: u32,
    origin_height: u32,
    model: ModelSize,
) -> (int, int, int, int) {
    let xs = middles_x(pieces);
    let ys = middles_y(pieces);
    let across = piece_span(
        least_of(xs),
        greatest_of(xs),
        EIGHT,
        origin_width,
        model.width,
    );
    let down = piece_span(least_of(ys), greatest_of(ys), NINE, origin_height, model.height);
    (across.0, down.0, across.1, down.1)
}

/// The part of the screen that holds the board: what the first outline gives
/// or, where there is none, what four or more pieces give, if that is more than
/// 100 wide and high.
pub open spec fn bound_seen(
    origin_width: u32,
    origin_height: u32,
    detections: Seq<Detection>,
    model: ModelSize,
) -> Option<(int, int, int, int)> {
    if has_outline(detections) {
        let i = choose|i: int| outline_index(detections, i);
        Some(outline_bound(detections[i], origin_width, origin_height, model))
    } else {
        let bound = piece_bound(pieces(detections), origin_width, origin_height, model);
        if pieces(detections).len() >= 4 && bound.2 > 100 && bound.3 > 100 {
            Some(bound)
        } else {
            None
        }
    }
}

/// Finds the part of the screen that holds the board, as `(x, y, width,
/// height)`.
pub fn detections_bound(
    origin_width: u32,
    origin_height: u32,
    detections: &[Detection],
    model: ModelSize,
) -> (r: Result<(u32, u32, u32, u32), String>)
    requires
        model.valid(),
    ensures
        match r {
            Ok((x, y, width, height)) => bound_seen(
                origin_width,
                origin_height,
                detections@,
                model,
            ) == Some((x as int, y as int, width as int, height as int)),
            Err(message) => {
                &&& bound_seen(origin_width, origin_height, detections@, model) is None
                &&& message@ == "未识别到棋盘边界及足够数量的棋子"@
            },
        },
{
    if let Some(i) = first_outline(detections) {
        let det = detections[i];
        let across = span_of_outline(det.x0, det.x1, EIGHT, origin_width, model.width);
        let down = span_of_outline(det.y0, det.y1, NINE, origin_height, model.height);
        assert(outline_index(detections@, i as int));
        return Ok((across.0, down.0, across.1, down.1));
    }
    let extent = extent_of_pieces(detections);
    if extent.count >= 4 {
        let across = span_of_pieces(
            extent.min_x,
            extent.max_x,
            EIGHT,
            origin_width,
            model.width,
        );
        let down = span_of_pieces(extent.min_y, extent.max_y, NINE, origin_height, model.height);
        if across.1 > 100 && down.1 > 100 {
            return Ok((across.0, down.0, across.1, down.1));
        }
    }
    Err("未识别到棋盘边界及足够数量的棋子".to_string())
}

/// What was seen leaves only one board.
pub proof fn lemma_one_board(a: Board, b: Board, detections: Seq<Detection>, model: ModelSize)
    requires
        shows(a, detections, model),
        shows(b, detections, model),
    ensures
        a == b,
{
    assert forall|row: int| 0 <= row < 10 implies #[trigger] a@[row] == b@[row] by {
        assert forall|col: int| 0 <= col < 9 implies #[trigger] a@[row]@[col] == b@[row]@[col] by {
            assert(b@[row]@[col] == piece_on(detections, model, row, col));
        }
        assert(a@[row] =~= b@[row]);
    }
    assert(a =~= b);
}

/// A piece that is seen last on a cell stands there, whatever was seen before.
/// Every other cell stays as it was.
pub proof fn lemma_last_piece_counts(
    detections: Seq<Detection>,
    det: Detection,
    model: ModelSize,
    row: int,
    col: int,
)
    ensures
        piece_on(detections.push(det), model, row, col) == if det.stands_on(model, row, col) {
            det.label
        } else {
            piece_on(detections, model, row, col)
        },
{
    assert(detections.push(det).drop_last() =~= detections);
}

/// An outline of the board is no piece: it changes neither the board nor the
/// side.
pub proof fn lemma_outline_is_no_piece(
    detections: Seq<Detection>,
    outline: Detection,
    model: ModelSize,
    row: int,
    col: int,
)
    requires
        outline.label == OUTLINE,
    ensures
        piece_on(detections.push(outline), model, row, col) == piece_on(detections, model, row, col),
        camp_seen(detections.push(outline), model) == camp_seen(detections, model),
{
    assert(detections.push(outline).drop_last() =~= detections);
}

/// Once a piece has told the side, the others do not change it.
pub proof fn lemma_first_king_decides(detections: Seq<Detection>, det: Detection, model: ModelSize)
    ensures
        camp_seen(detections.push(det), model) == if camp_seen(detections, model) != Camp::Unknown {
            camp_seen(detections, model)
        } else {
            det.camp(model)
        },
{
    assert(detections.push(det).drop_last() =~= detections);
}

proof fn lemma_difference_within(end: Value, start: int, origin: int)
    requires
        0 <= start <= u32::MAX,
        0 <= origin <= 0x100_0000,
        end matches Value::Finite(x) ==> x <= origin * pow2(149),
        !(end is NotANumber),
        end is Infinite ==> end->negative,
        whole(difference(end, int_value(start)), u32::MAX as int) > 0,
    ensures
        start + whole(difference(end, int_value(start)), u32::MAX as int) <= origin,
{
    let u = pow2(149) as int;
    lemma_constants();
    lemma_int_value(start);
    let v = int_value(start)->Finite_0;
    let x = end->Finite_0;
    assert(end is Finite);
    assert(difference(end, int_value(start)) == rounded(x - v, 1));
    if x - v <= 0 {
        if x - v == 0 {
            lemma_nearest_zero(1);
        } else {
            lemma_nearest_zero(1);
            lemma_nearest_monotone(0, 1, v - x, 1);
        }
        lemma_zero_over(u);
        assert(false);
    }
    lemma_int_exact(origin);
    lemma_int_exact(0x100_0000);
    assert(origin * u <= 0x100_0000 * u) by (nonlinear_arith)
        requires
            origin <= 0x100_0000,
            u > 0,
    ;
    if start > 0x100_0000 {
        assert(0x100_0000 * u <= start * u) by (nonlinear_arith)
            requires
                start > 0x100_0000,
                u > 0,
        ;
        lemma_nearest_monotone(0x100_0000 * u, 1, start * u, 1);
        assert(false);
    }
    lemma_int_exact(start);
    let room = origin - start;
    assert(x - start * u <= room * u && origin * u - start * u == room * u) by (nonlinear_arith)
        requires
            x <= origin * u,
            room == origin - start,
    ;
    assert(room > 0) by (nonlinear_arith)
        requires
            room * u > 0,
            u > 0,
    ;
    lemma_int_exact(room);
    lemma_nearest_monotone(x - v, 1, room * u, 1);
    let y = nearest(x - v, 1);
    lemma_nearest_zero(1);
    lemma_nearest_monotone(0, 1, x - v, 1);
    assert(room * u < pow2(277)) by {
        lemma_int_value(room);
        lemma_pow2_strictly_increases(213, 277);
    }
    assert(y / u <= room) by {
        lemma_div_is_ordered(y, room * u, u);
        lemma_div_multiples_vanish(room, u);
        assert(u * room == room * u) by (nonlinear_arith);
    }
}

proof fn lemma_zero_over(u: int)
    requires
        u > 0,
    ensures
        0int / u == 0,
{
    lemma_basic_div(0, u);
}

proof fn lemma_span_within(low: Value, high: Value, margin: Value, origin: u32)
    requires
        origin <= 0x100_0000,
    ensures
        ({
            let (start, length) = widened_span(low, high, margin, origin);
            length > 0 ==> start + length <= origin
        }),
{
    let (start, length) = widened_span(low, high, margin, origin);
    lemma_constants();
    lemma_int_exact(origin as int);
    if length > 0 {
        assert(0 <= start <= u32::MAX) by {
            let a = greater_of(difference(low, margin), bits_value(ZERO));
            if let Value::Finite(x) = a {
                if x >= 0 {
                    lemma_div_pos_is_pos(x, pow2(149) as int);
                }
            }
        }
        lemma_difference_within(
            lesser_of(sum(high, margin), int_value(origin as int)),
            start,
            origin as int,
        );
    }
}

/// Whether a coordinate lies in the detector's image, along a side of this
/// length.
pub open spec fn in_image(a: Single, length: u32) -> bool {
    match (a.value(), int_value(length as int)) {
        (Value::Finite(x), Value::Finite(end)) => 0 <= x <= end,
        _ => false,
    }
}

/// Whether a box lies in the detector's image, with its sides in order.
pub open spec fn is_box(det: Detection, model: ModelSize) -> bool {
    &&& in_image(det.x0, model.width)
    &&& in_image(det.x1, model.width)
    &&& in_image(det.y0, model.height)
    &&& in_image(det.y1, model.height)
    &&& !less(det.x1.value(), det.x0.value())
    &&& !less(det.y1.value(), det.y0.value())
}

/// What is at least zero stays so when it is divided.
proof fn lemma_quotient_positive(a: Value, d: int)
    requires
        a matches Value::Finite(x) ==> x >= 0,
        a matches Value::Infinite { negative } ==> !negative,
        !(a is NotANumber),
        d > 0,
    ensures
        quotient(a, Value::Finite(d)) matches Value::Finite(x) ==> x >= 0,
        quotient(a, Value::Finite(d)) matches Value::Infinite { negative } ==> !negative,
        !(quotient(a, Value::Finite(d)) is NotANumber),
{
    if let Value::Finite(x) = a {
        let u = pow2(149) as int;
        lemma_pow2_pos(149);
        assert(0 <= x * u) by (nonlinear_arith)
            requires
                0 <= x,
                0 < u,
        ;
        lemma_nearest_zero(d);
        lemma_nearest_monotone(0, d, x * u, d);
    }
}

/// A small deficit, divided by two and by eight or more, is at most a
/// thirty-second of what it was.
proof fn lemma_small_margin(n: int, gaps: u32)
    requires
        0 <= n <= pow2(148),
        gaps == EIGHT || gaps == NINE,
    ensures
        quotient(quotient(Value::Finite(-n), bits_value(gaps)), bits_value(TWO)) matches Value::Finite(
            x,
        ) && -pow2(144) <= x <= 0,
{
    let u = pow2(149) as int;
    let gv = bits_value(gaps)->Finite_0;
    lemma_constants();
    lemma2_to64();
    lemma_pow2_adds(1, 148);
    lemma_pow2_adds(3, 145);
    lemma_pow2_adds(1, 144);
    lemma_pow2_strictly_increases(145, 277);
    lemma_pow2_strictly_increases(144, 277);
    lemma_nearest_exact(1, 145, 1);
    lemma_nearest_exact(1, 144, 1);
    assert(1 * pow2(145) * 1 == pow2(145) && 1 * pow2(144) * 1 == pow2(144));
    lemma_nearest_zero(gv);
    lemma_nearest_zero(2 * u);
    assert(0 <= n * u && n * u * 1 <= pow2(145) * gv) by (nonlinear_arith)
        requires
            0 <= n <= pow2(148),
            pow2(148) == 8 * pow2(145),
            gv >= 8 * u,
            u > 0,
            pow2(145) >= 0,
    ;
    let n2 = nearest(n * u, gv);
    lemma_nearest_monotone(0, gv, n * u, gv);
    lemma_nearest_monotone(n * u, gv, pow2(145) as int, 1);
    assert(magnitude(-n) == n && (n == 0 ==> n * u == 0));
    assert(quotient(Value::Finite(-n), bits_value(gaps)) == Value::Finite(-n2));
    assert(magnitude(-n2) == n2 && (n2 == 0 ==> n2 * u == 0));
    assert(0 <= n2 * u && n2 * u * 1 <= pow2(144) * (2 * u)) by (nonlinear_arith)
        requires
            0 <= n2 <= pow2(145),
            pow2(145) == 2 * pow2(144),
            u > 0,
    ;
    lemma_nearest_monotone(0, 2 * u, n2 * u, 2 * u);
    lemma_nearest_monotone(n2 * u, 2 * u, pow2(144) as int, 1);
}

/// Just beyond half a pixel more than a whole number, nothing is rounded up to
/// the next.
proof fn lemma_no_next_pixel(n: int, origin: int)
    requires
        0 <= origin < 0x80_0000,
        origin * pow2(149) <= n <= (2 * origin + 1) * pow2(148) + pow2(144),
    ensures
        nearest(n, 1) < (origin + 1) * pow2(149),
{
    let u = pow2(149) as int;
    let h = pow2(148) as int;
    lemma2_to64();
    lemma_pow2_pos(144);
    lemma_pow2_adds(1, 148);
    lemma_pow2_adds(4, 144);
    lemma_pow2_adds(1, 147);
    assert(0 <= origin * u) by (nonlinear_arith)
        requires
            0 <= origin,
            0 <= u,
    ;
    if origin < 0x40_0000 {
        let m = 4 * origin + 3;
        let q = pow2(147) as int;
        lemma_nearest_exact(m, 147, 1);
        assert(m * q * 1 == m * q);
        assert(n <= m * q && m * q < (origin + 1) * u) by (nonlinear_arith)
            requires
                n <= (2 * origin + 1) * h + pow2(144),
                m == 4 * origin + 3,
                h == 2 * q,
                u == 4 * q,
                h == 16 * pow2(144),
                pow2(144) > 0,
        ;
        lemma_nearest_monotone(n, 1, m * q, 1);
    } else {
        lemma_pow2_adds(22, 149);
        lemma_pow2_adds(24, 148);
        assert(n >= pow2(171) && n < pow2(172)) by (nonlinear_arith)
            requires
                n >= origin * u,
                n <= (2 * origin + 1) * h + pow2(144),
                0x40_0000 <= origin < 0x80_0000,
                pow2(171) == 0x40_0000 * u,
                pow2(172) == 0x100_0000 * h,
                u == 2 * h,
                h == 16 * pow2(144),
                pow2(144) > 0,
        ;
        assert(1 * pow2(171) == pow2(171) && 1 * pow2(172) == pow2(172));
        lemma_excess_unique(n, 1, 148);
        assert(1 * h == h);
        lemma_fundamental_div_mod(n, h);
        lemma_mod_bound(n, h);
        let k = nearest_integer(n, h);
        assert(k <= 2 * origin + 1) by (nonlinear_arith)
            requires
                n == h * (n / h) + n % h,
                0 <= n % h < h,
                n <= (2 * origin + 1) * h + pow2(144),
                h == 16 * pow2(144),
                pow2(144) > 0,
                k == n / h || k == n / h + 1 && 2 * (n % h) >= h,
        {
            if n / h >= 2 * origin + 2 {
                assert(h * (n / h) >= h * (2 * origin + 2));
            }
            if n / h == 2 * origin + 1 {
                assert(n % h <= pow2(144));
            }
        }
        assert(k * h < (origin + 1) * u) by (nonlinear_arith)
            requires
                k <= 2 * origin + 1,
                u == 2 * h,
                h > 0,
        ;
    }
}

/// A coordinate of the detector's image comes to no more than half a pixel
/// beyond the end of the screen.
proof fn lemma_scaled_within(a: Single, origin: u32, model: u32)
    requires
        origin < 0x80_0000,
        model > 0,
        in_image(a, model),
    ensures
        scale(origin, model) matches Value::Finite(g) && g >= 0,
        product(a.value(), scale(origin, model)) matches Value::Finite(p) && 0 <= p <= (2 * origin
            + 1) * pow2(148),
        product(a.value(), scale(origin, model)) == Value::Finite(
            nearest(a.value()->Finite_0 * scale(origin, model)->Finite_0, pow2(149) as int),
        ),
        (2 * origin + 1) * pow2(148) < pow2(277),
{
    let u = pow2(149) as int;
    let h = pow2(148) as int;
    let w = origin as int;
    let x = a.value()->Finite_0;
    let end = int_value(model as int)->Finite_0;
    lemma_constants();
    lemma2_to64();
    lemma_int_value(model as int);
    lemma_int_exact(w);
    lemma_int_value(w);
    lemma_pow2_adds(1, 148);
    lemma_pow2_adds(24, 148);
    lemma_pow2_strictly_increases(172, 277);
    lemma_pow2_strictly_increases(213, 277);
    lemma_pow2_adds(64, 85);
    lemma_pow2_pos(85);
    // The greatest length comes to `2^32`.
    lemma_pow2_adds(32, 149);
    lemma_pow2_adds(23, 158);
    lemma_nearest_exact(0x80_0000, 158, 1);
    assert(0x80_0000int * pow2(158) * 1 == pow2(181));
    assert(0 <= model * u && model * u * 1 <= pow2(181) * 1) by (nonlinear_arith)
        requires
            0 < model <= 0xffff_ffff,
            pow2(181) == 0x1_0000_0000 * u,
            u > 0,
    ;
    lemma_nearest_monotone(model * u, 1, pow2(181) as int, 1);
    // The scale.
    let g = nearest(w * u * u, end);
    assert(0 <= w * u && 0 <= w * u * u) by (nonlinear_arith)
        requires
            0 <= w,
            0 < u,
    ;
    lemma_nearest_zero(end);
    lemma_nearest_monotone(0, end, w * u * u, end);
    assert(w * u * u * 1 <= w * u * end) by (nonlinear_arith)
        requires
            0 <= w * u,
            u <= end,
    ;
    lemma_nearest_monotone(w * u * u, end, w * u, 1);
    assert(scale(origin, model) == Value::Finite(g));
    // The product.
    if w > 0 {
        assert(0x80_0000 * end <= w * u * u) by (nonlinear_arith)
            requires
                end <= 0x1_0000_0000 * u,
                u >= 0x80_0000 * 0x1_0000_0000,
                1 <= w,
        ;
        lemma_nearest_error(w * u * u, end);
    } else {
        assert(w * u * u == 0) by (nonlinear_arith)
            requires
                w == 0,
        ;
        assert(g * end == 0) by (nonlinear_arith)
            requires
                g == 0,
        ;
    }
    let edge = (2 * w + 1) * h;
    assert(0 <= x * g && x * g <= edge * u && 0 <= edge) by (nonlinear_arith)
        requires
            0 <= x <= end,
            0 <= g,
            g * end * 0x100_0000 <= w * u * u * 0x100_0001,
            0 <= w < 0x80_0000,
            edge == (2 * w + 1) * h,
            u == 2 * h,
            h > 0,
    {
        assert(x * g <= end * g);
        assert(w * u * u <= 0x80_0000 * u * u);
        assert(edge * u * 0x100_0000 == w * u * u * 0x100_0000 + h * u * 0x100_0000);
        assert(h * u * 0x100_0000 == u * u * 0x80_0000);
    }
    lemma_nearest_exact(2 * w + 1, 148, u);
    lemma_nearest_zero(u);
    lemma_nearest_monotone(0, u, x * g, u);
    assert((x * g) * u <= (edge * u) * u) by (nonlinear_arith)
        requires
            x * g <= edge * u,
            u > 0,
    ;
    lemma_nearest_monotone(x * g, u, edge * u, u);
    assert(edge < pow2(172)) by (nonlinear_arith)
        requires
            edge == (2 * w + 1) * h,
            w < 0x80_0000,
            pow2(172) == 0x100_0000 * h,
            h > 0,
    ;
}

proof fn lemma_start_within(distance: Value, origin: u32)
    requires
        distance matches Value::Finite(x) ==> x < (origin + 1) * pow2(149),
        distance matches Value::Infinite { negative } ==> negative,
    ensures
        whole(greater_of(distance, bits_value(ZERO)), u32::MAX as int) <= origin,
{
    let u = pow2(149) as int;
    lemma_constants();
    lemma_zero_over(u);
    if let Value::Finite(x) = distance {
        if x >= 0 {
            assert(x / u < origin + 1) by (nonlinear_arith)
                requires
                    0 <= x < (origin + 1) * u,
                    u > 0,
            ;
        }
    }
}

proof fn lemma_outline_start(low: Single, high: Single, gaps: u32, origin: u32, model: u32)
    requires
        origin < 0x80_0000,
        model > 0,
        gaps == EIGHT || gaps == NINE,
        in_image(low, model),
        in_image(high, model),
        !less(high.value(), low.value()),
    ensures
        outline_span(low, high, gaps, origin, model).0 <= origin,
{
    let u = pow2(149) as int;
    let h = pow2(148) as int;
    let w = origin as int;
    lemma_constants();
    lemma2_to64();
    lemma_pow2_adds(1, 148);
    lemma_pow2_strictly_increases(148, 277);
    lemma_int_exact(w);
    lemma_pow2_adds(23, 149);
    lemma_pow2_strictly_increases(172, 277);
    assert((w + 1) * u <= pow2(172)) by (nonlinear_arith)
        requires
            w < 0x80_0000,
            pow2(172) == 0x80_0000 * u,
            u > 0,
    ;
    lemma_scaled_within(low, origin, model);
    lemma_scaled_within(high, origin, model);
    let g = scale(origin, model)->Finite_0;
    let a = low.value()->Finite_0;
    let b = high.value()->Finite_0;
    let f = product(low.value(), scale(origin, model))->Finite_0;
    let p = product(high.value(), scale(origin, model))->Finite_0;
    assert(f <= p) by {
        assert(0 <= a * g && a * g <= b * g && (a * g) * u <= (b * g) * u) by (nonlinear_arith)
            requires
                0 <= a <= b,
                0 <= g,
                0 < u,
        ;
        lemma_nearest_monotone(a * g, u, b * g, u);
    }
    let first = greater_of(product(low.value(), scale(origin, model)), bits_value(ZERO));
    let last = lesser_of(product(high.value(), scale(origin, model)), int_value(w));
    assert(first == Value::Finite(f));
    let l = last->Finite_0;
    assert(l == if w * u < p {
        w * u
    } else {
        p
    });
    let gap = difference(last, first);
    let margin = quotient(quotient(gap, bits_value(gaps)), bits_value(TWO));
    let edge = (2 * w + 1) * h;
    assert(edge == w * u + h && 0 <= w * u && edge < (w + 1) * u && (w + 1) * u == w * u + u)
        by (nonlinear_arith)
        requires
            edge == (2 * w + 1) * h,
            u == 2 * h,
            h > 0,
            w >= 0,
    ;
    lemma_nearest_zero(1);
    if l >= f {
        lemma_nearest_monotone(0, 1, l - f, 1);
        assert(gap == rounded(l - f, 1));
        lemma_quotient_positive(gap, bits_value(gaps)->Finite_0);
        lemma_quotient_positive(quotient(gap, bits_value(gaps)), bits_value(TWO)->Finite_0);
        if let Value::Finite(m) = margin {
            let rest = f - m;
            assert(difference(first, margin) == rounded(rest, 1));
            if rest >= 0 {
                lemma_nearest_exact(2 * w + 1, 148, 1);
                assert(edge * 1 == edge);
                lemma_nearest_monotone(rest, 1, edge, 1);
            } else {
                lemma_nearest_monotone(0, 1, -rest, 1);
                assert(0 <= (w + 1) * u) by (nonlinear_arith)
                    requires
                        w >= 0,
                        u > 0,
                ;
            }
        }
    } else {
        assert(l == w * u);
        let n = nearest(f - l, 1);
        lemma_nearest_exact(1, 148, 1);
        assert(1 * h * 1 == h);
        lemma_nearest_monotone(f - l, 1, h, 1);
        lemma_nearest_monotone(0, 1, f - l, 1);
        assert(gap == Value::Finite(-n));
        lemma_small_margin(n, gaps);
        let m = margin->Finite_0;
        lemma_no_next_pixel(f - m, w);
        lemma_nearest_monotone(0, 1, f - m, 1);
        assert(difference(first, margin) == rounded(f - m, 1));
    }
    lemma_start_within(difference(first, margin), origin);
}

/// The part of the screen that holds the board does not reach beyond the screen.
/// Single precision tells whole numbers apart up to `2^24`; no screen is longer.
/// A part without width or height may only lie beyond the edge if the box was
/// not drawn in the detector's image, or the screen is so long that half a pixel
/// is rounded up.
pub proof fn lemma_bound_within(
    origin_width: u32,
    origin_height: u32,
    detections: Seq<Detection>,
    model: ModelSize,
)
    requires
        origin_width <= 0x100_0000,
        origin_height <= 0x100_0000,
    ensures
        bound_seen(origin_width, origin_height, detections, model) matches Some((x, y, w, h)) ==> {
            let boxes = model.valid() && forall|i: int|
                0 <= i < detections.len() ==> is_box(#[trigger] detections[i], model);
            &&& w > 0 ==> x + w <= origin_width
            &&& h > 0 ==> y + h <= origin_height
            &&& boxes && origin_width < 0x80_0000 ==> x + w <= origin_width
            &&& boxes && origin_height < 0x80_0000 ==> y + h <= origin_height
        },
{
    if has_outline(detections) {
        lemma_first_outline(detections);
        let det = detections[choose|i: int| outline_index(detections, i)];
        lemma_outline_within(det.x0, det.x1, EIGHT, origin_width, model.width);
        lemma_outline_within(det.y0, det.y1, NINE, origin_height, model.height);
        if model.valid() && is_box(det, model) {
            if origin_width < 0x80_0000 {
                lemma_outline_start(det.x0, det.x1, EIGHT, origin_width, model.width);
            }
            if origin_height < 0x80_0000 {
                lemma_outline_start(det.y0, det.y1, NINE, origin_height, model.height);
            }
        }
    } else {
        let xs = middles_x(pieces(detections));
        let ys = middles_y(pieces(detections));
        lemma_pieces_within(least_of(xs), greatest_of(xs), EIGHT, origin_width, model.width);
        lemma_pieces_within(least_of(ys), greatest_of(ys), NINE, origin_height, model.height);
    }
}

/// Where the board was outlined at all, there is a first outline.
proof fn lemma_first_outline(detections: Seq<Detection>)
    requires
        has_outline(detections),
    ensures
        exists|i: int| outline_index(detections, i),
    decreases detections.len(),
{
    let k = choose|i: int| 0 <= i < detections.len() && #[trigger] detections[i].label == OUTLINE;
    let before = detections.take(k);
    if has_outline(before) {
        lemma_first_outline(before);
        let i = choose|i: int| outline_index(before, i);
        assert forall|j: int| 0 <= j < i implies #[trigger] detections[j].label != OUTLINE by {
            assert(before[j].label != OUTLINE);
        }
        assert(outline_index(detections, i));
    } else {
        assert forall|j: int| 0 <= j < k implies #[trigger] detections[j].label != OUTLINE by {
            assert(before[j] == detections[j]);
        }
        assert(outline_index(detections, k));
    }
}

proof fn lemma_outline_within(low: Single, high: Single, gaps: u32, origin: u32, model: u32)
    requires
        origin <= 0x100_0000,
    ensures
        outline_span(low, high, gaps, origin, model).1 > 0 ==> outline_span(
            low,
            high,
            gaps,
            origin,
            model,
        ).0 + outline_span(low, high, gaps, origin, model).1 <= origin,
{
    let first = greater_of(product(low.value(), scale(origin, model)), bits_value(ZERO));
    let last = lesser_of(product(high.value(), scale(origin, model)), int_value(origin as int));
    let half_gap = quotient(
        quotient(difference(last, first), bits_value(gaps)),
        bits_value(TWO),
    );
    lemma_span_within(first, last, half_gap, origin);
}

proof fn lemma_pieces_within(least: Value, greatest: Value, gaps: u32, origin: u32, model: u32)
    requires
        origin <= 0x100_0000,
    ensures
        piece_span(least, greatest, gaps, origin, model).1 > 0 ==> piece_span(
            least,
            greatest,
            gaps,
            origin,
            model,
        ).0 + piece_span(least, greatest, gaps, origin, model).1 <= origin,
{
    let gap = product(
        quotient(difference(greatest, least), bits_value(gaps)),
        scale(origin, model),
    );
    lemma_span_within(
        product(least, scale(origin, model)),
        product(greatest, scale(origin, model)),
        product(gap, bits_value(HALF)),
        origin,
    );
}

/// The middles of the pieces, in the order in which they were seen.
pub open spec fn centres(detections: Seq<Detection>) -> Seq<(Value, Value)> {
    pieces(detections).map_values(
        |det: Detection| (midpoint(det.x0, det.x1), midpoint(det.y0, det.y1)),
    )
}

/// What is neither less nor greater is the same, unless it is not a number.
proof fn lemma_less_is_total(a: Value, b: Value)
    requires
        !(a is NotANumber),
        !(b is NotANumber),
        !less(a, b),
        !less(b, a),
    ensures
        a == b,
{
}

proof fn lemma_less_is_transitive(a: Value, b: Value, c: Value)
    requires
        !less(a, b),
        less(c, b),
    ensures
        !less(a, c),
{
}

/// The least of the values is one of them or the greatest finite number, and
/// none of them is less.
proof fn lemma_least_of(values: Seq<Value>)
    ensures
        least_of(values) == bits_value(GREATEST) || values.contains(least_of(values)),
        !(least_of(values) is NotANumber),
        !less(bits_value(GREATEST), least_of(values)),
        forall|v: Value| values.contains(v) ==> !less(v, least_of(values)),
    decreases values.len(),
{
    lemma_constants();
    if values.len() > 0 {
        let before = values.drop_last();
        lemma_least_of(before);
        let least = least_of(values);
        assert forall|v: Value| values.contains(v) implies !less(v, least) by {
            let i = choose|i: int| 0 <= i < values.len() && values[i] == v;
            if i < before.len() {
                assert(before[i] == v);
                assert(before.contains(v));
                if least != least_of(before) {
                    lemma_less_is_transitive(v, least_of(before), least);
                }
            }
        }
        if least == least_of(before) {
            if before.contains(least) {
                let i = choose|i: int| 0 <= i < before.len() && before[i] == least;
                assert(values[i] == least);
            }
        } else {
            assert(values[values.len() - 1] == least);
            lemma_less_is_transitive(bits_value(GREATEST), least_of(before), least);
        }
    }
}

/// The greatest of the values is one of them or the least finite number, and
/// none of them is greater.
proof fn lemma_greatest_of(values: Seq<Value>)
    ensures
        greatest_of(values) == bits_value(LEAST) || values.contains(greatest_of(values)),
        !(greatest_of(values) is NotANumber),
        !less(greatest_of(values), bits_value(LEAST)),
        forall|v: Value| values.contains(v) ==> !less(greatest_of(values), v),
    decreases values.len(),
{
    lemma_constants();
    if values.len() > 0 {
        let before = values.drop_last();
        lemma_greatest_of(before);
        let greatest = greatest_of(values);
        assert forall|v: Value| values.contains(v) implies !less(greatest, v) by {
            let i = choose|i: int| 0 <= i < values.len() && values[i] == v;
            if i < before.len() {
                assert(before[i] == v);
                assert(before.contains(v));
            }
        }
        if greatest == greatest_of(before) {
            if before.contains(greatest) {
                let i = choose|i: int| 0 <= i < before.len() && before[i] == greatest;
                assert(values[i] == greatest);
            }
        } else {
            assert(values[values.len() - 1] == greatest);
        }
    }
}

/// The extremes depend only on which values there are.
proof fn lemma_same_extremes(a: Seq<Value>, b: Seq<Value>)
    requires
        forall|v: Value| a.contains(v) <==> b.contains(v),
    ensures
        least_of(a) == least_of(b),
        greatest_of(a) == greatest_of(b),
{
    lemma_least_of(a);
    lemma_least_of(b);
    lemma_less_is_total(least_of(a), least_of(b));
    lemma_greatest_of(a);
    lemma_greatest_of(b);
    lemma_less_is_total(greatest_of(a), greatest_of(b));
}

proof fn lemma_same_members(a: Seq<(Value, Value)>, b: Seq<(Value, Value)>, p: (Value, Value))
    requires
        a.to_multiset() == b.to_multiset(),
    ensures
        a.contains(p) <==> b.contains(p),
{
    a.to_multiset_ensures();
    b.to_multiset_ensures();
    assert(a.contains(p) <==> a.to_multiset().count(p) > 0);
    assert(b.contains(p) <==> b.to_multiset().count(p) > 0);
}

/// A middle of `a` is one of `b`, along both sides.
proof fn lemma_shared_middle(a: Seq<Detection>, b: Seq<Detection>, i: int)
    requires
        centres(a).to_multiset() == centres(b).to_multiset(),
        0 <= i < pieces(a).len(),
    ensures
        middles_x(pieces(b)).contains(middles_x(pieces(a))[i]),
        middles_y(pieces(b)).contains(middles_y(pieces(a))[i]),
{
    let p = centres(a)[i];
    assert(p == (middles_x(pieces(a))[i], middles_y(pieces(a))[i]));
    lemma_same_members(centres(a), centres(b), p);
    assert(centres(a).contains(p));
    let k = choose|k: int| 0 <= k < centres(b).len() && centres(b)[k] == p;
    assert(middles_x(pieces(b))[k] == p.0);
    assert(middles_y(pieces(b))[k] == p.1);
}

proof fn lemma_shared_middles(a: Seq<Detection>, b: Seq<Detection>, v: Value)
    requires
        centres(a).to_multiset() == centres(b).to_multiset(),
    ensures
        middles_x(pieces(a)).contains(v) ==> middles_x(pieces(b)).contains(v),
        middles_y(pieces(a)).contains(v) ==> middles_y(pieces(b)).contains(v),
{
    let xs = middles_x(pieces(a));
    let ys = middles_y(pieces(a));
    if xs.contains(v) {
        let i = choose|i: int| 0 <= i < xs.len() && xs[i] == v;
        lemma_shared_middle(a, b, i);
    }
    if ys.contains(v) {
        let i = choose|i: int| 0 <= i < ys.len() && ys[i] == v;
        lemma_shared_middle(a, b, i);
    }
}

proof fn lemma_same_number(a: Seq<Detection>, b: Seq<Detection>)
    requires
        centres(a).to_multiset() == centres(b).to_multiset(),
    ensures
        pieces(a).len() == pieces(b).len(),
{
    centres(a).to_multiset_ensures();
    centres(b).to_multiset_ensures();
}

/// Where the middles are the same, each as often, so are their extremes.
proof fn lemma_same_centres(a: Seq<Detection>, b: Seq<Detection>)
    requires
        centres(a).to_multiset() == centres(b).to_multiset(),
    ensures
        least_of(middles_x(pieces(a))) == least_of(middles_x(pieces(b))),
        greatest_of(middles_x(pieces(a))) == greatest_of(middles_x(pieces(b))),
        least_of(middles_y(pieces(a))) == least_of(middles_y(pieces(b))),
        greatest_of(middles_y(pieces(a))) == greatest_of(middles_y(pieces(b))),
{
    assert forall|v: Value|
        middles_x(pieces(a)).contains(v) <==> middles_x(pieces(b)).contains(v) by {
        lemma_shared_middles(a, b, v);
        lemma_shared_middles(b, a, v);
    }
    lemma_same_extremes(middles_x(pieces(a)), middles_x(pieces(b)));
    assert forall|v: Value|
        middles_y(pieces(a)).contains(v) <==> middles_y(pieces(b)).contains(v) by {
        lemma_shared_middles(a, b, v);
        lemma_shared_middles(b, a, v);
    }
    lemma_same_extremes(middles_y(pieces(a)), middles_y(pieces(b)));
}

/// Without an outline, the place of the board depends only on where the middles
/// of the pieces are, each as often as it was seen: not on the order in which
/// they were seen, nor on what they are, nor on how large their boxes are.
pub proof fn lemma_bound_of_centres(
    origin_width: u32,
    origin_height: u32,
    a: Seq<Detection>,
    b: Seq<Detection>,
    model: ModelSize,
)
    requires
        !has_outline(a),
        !has_outline(b),
        centres(a).to_multiset() == centres(b).to_multiset(),
    ensures
        bound_seen(origin_width, origin_height, a, model) == bound_seen(
            origin_width,
            origin_height,
            b,
            model,
        ),
{
    lemma_same_number(a, b);
    lemma_same_centres(a, b);
    assert(piece_bound(pieces(a), origin_width, origin_height, model) == piece_bound(
        pieces(b),
        origin_width,
        origin_height,
        model,
    ));
}

} // verus!
