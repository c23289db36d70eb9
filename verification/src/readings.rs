//! Where the pieces that were seen stand on the board, said of the places of
//! their boxes.
use crate::board::{Board, Camp};
use crate::common::{
    camp_seen, detections_to_board, has_outline, lemma_constants, lemma_one_board, midpoint, piece_on,
    Detection, ModelSize, NINE, TEN,
};
use crate::rounding::{
    lemma_nearest_exact, lemma_nearest_monotone, lemma_nearest_near, nearest,
};
use crate::single::{
    bits_value, int_value, lemma_int_value, lemma_nearest_zero, quotient, sum, whole, Single, Value,
};
use vstd::arithmetic::div_mod::{lemma_div_is_ordered, lemma_div_multiples_vanish};
use vstd::arithmetic::power2::{
    lemma2_to64, lemma_pow2_adds, lemma_pow2_pos, lemma_pow2_strictly_increases, pow2,
};
use vstd::prelude::*;

verus! {

/// Twice the middle of two coordinates, in units, where both are numbers.
pub open spec fn doubled_middle(a: Single, b: Single) -> Option<int> {
    match (a.value(), b.value()) {
        (Value::Finite(x), Value::Finite(y)) => Some(x + y),
        _ => None,
    }
}

/// Whether the middle of two coordinates lies behind the start of the part with
/// this number, of so many equal parts of a side, by one part in `2^18` or more.
pub open spec fn lies_behind(a: Single, b: Single, length: u32, cells: int, index: int) -> bool {
    doubled_middle(a, b) matches Some(m) && m >= 0 && 2 * (index * (length * pow2(149))) * 0x4_0001
        <= cells * m * 0x4_0000
}

/// Whether it lies before the end of that part, by one part in `2^18` or more.
pub open spec fn lies_before(a: Single, b: Single, length: u32, cells: int, index: int) -> bool {
    doubled_middle(a, b) matches Some(m) && cells * m * 0x4_0000 <= 2 * ((index + 1) * (length
        * pow2(149))) * 0x3_ffff
}

/// Whether it lies in that part.
pub open spec fn lies_in(a: Single, b: Single, length: u32, cells: int, index: int) -> bool {
    lies_behind(a, b, length, cells, index) && lies_before(a, b, length, cells, index)
}

/// Whether the middle of a box lies in the cell at `row` and `col`: the
/// detector's image is nine columns wide and ten rows high.
pub open spec fn lies_on(det: Detection, model: ModelSize, row: int, col: int) -> bool {
    lies_in(det.x0, det.x1, model.width, 9, col) && lies_in(det.y0, det.y1, model.height, 10, row)
}

/// Whether the middle of a box lies beyond the last column or the last row.
pub open spec fn lies_off(det: Detection, model: ModelSize) -> bool {
    lies_behind(det.x0, det.x1, model.width, 9, 9) || lies_behind(
        det.y0,
        det.y1,
        model.height,
        10,
        10,
    )
}

/// Whether a box does not speak of the cell at `row` and `col`: it outlines the
/// board, or its middle lies elsewhere.
pub open spec fn spares(det: Detection, model: ModelSize, row: int, col: int) -> bool {
    ||| det.label == '0'
    ||| lies_off(det, model)
    ||| exists|r: int, c: int|
        #![trigger lies_on(det, model, r, c)]
        lies_on(det, model, r, c) && 0 <= r < 10 && 0 <= c < 9 && (r != row || c != col)
}

proof fn lemma_length(length: u32)
    requires
        length > 0,
    ensures
        int_value(length as int) matches Value::Finite(wv) && wv * 0x100_0000 <= length * pow2(149)
            * 0x100_0001 + 0x80_0000 && wv * 0x100_0000 >= length * pow2(149) * 0xff_ffff
            - 0x80_0000 && wv >= pow2(149) && wv <= pow2(213),
        length * pow2(149) >= pow2(149),
        length * pow2(149) <= pow2(181),
        pow2(149) >= 0x1_0000_0000_0000_0000,
{
    let u = pow2(149) as int;
    lemma_constants();
    lemma_int_value(length as int);
    lemma2_to64();
    lemma_pow2_adds(64, 85);
    lemma_pow2_pos(85);
    lemma_pow2_adds(32, 149);
    assert(u >= 0x1_0000_0000_0000_0000) by (nonlinear_arith)
        requires
            u == 0x1_0000_0000_0000_0000 * pow2(85),
            pow2(85) > 0,
    ;
    assert(length * u >= u && length * u <= 0x1_0000_0000 * u) by (nonlinear_arith)
        requires
            0 < length <= 0x1_0000_0000,
            u > 0,
    ;
    lemma_nearest_near(length * u, 1);
}

/// The size of a cell, nearly a ninth or a tenth of the length.
proof fn lemma_cell(length: u32, cells: u32, count: int)
    requires
        length > 0,
        cells == NINE && count == 9 || cells == TEN && count == 10,
    ensures
        quotient(int_value(length as int), bits_value(cells)) matches Value::Finite(cv) && cv > 0
            && count * cv * 0x10_0000 <= length * pow2(149) * 0x10_0001 && count * cv * 0x10_0000
            >= length * pow2(149) * 0xf_ffff,
{
    let u = pow2(149) as int;
    let x = length * u;
    lemma_constants();
    lemma_length(length);
    let wv = int_value(length as int)->Finite_0;
    let d = count * u;
    assert(d > 0 && 0 <= wv * u) by (nonlinear_arith)
        requires
            d == count * u,
            count > 0,
            u > 0,
            wv >= 0,
    ;
    let cv = nearest(wv * u, d);
    lemma_nearest_near(wv * u, d);
    assert(count * cv * 0x100_0000 <= wv * 0x100_0001 + count * 0x80_0000 && count * cv
        * 0x100_0000 >= wv * 0xff_ffff - count * 0x80_0000) by (nonlinear_arith)
        requires
            cv * d * 0x100_0000 <= wv * u * 0x100_0001 + d * 0x80_0000,
            cv * d * 0x100_0000 >= wv * u * 0xff_ffff - d * 0x80_0000,
            d == count * u,
            u > 0,
    {
        assert(cv * d * 0x100_0000 == u * (count * cv * 0x100_0000));
        assert(wv * u * 0x100_0001 + d * 0x80_0000 == u * (wv * 0x100_0001 + count * 0x80_0000));
        assert(wv * u * 0xff_ffff - d * 0x80_0000 == u * (wv * 0xff_ffff - count * 0x80_0000));
    }
    lemma_pow2_strictly_increases(213, 277);
    assert(wv * u * 1 <= wv * d) by (nonlinear_arith)
        requires
            d == count * u,
            count >= 1,
            u > 0,
            wv >= 0,
    ;
    // A cell is not longer than the side.
    lemma_length_exact_bound(wv, d, u);
}

proof fn lemma_length_exact_bound(wv: int, d: int, u: int)
    requires
        0 <= wv <= pow2(213),
        u == pow2(149),
        d >= u,
        u > 0,
    ensures
        nearest(wv * u, d) < pow2(277),
{
    lemma2_to64();
    lemma_pow2_adds(23, 190);
    lemma_nearest_exact(0x80_0000, 190, 1);
    assert(0x80_0000int * pow2(190) * 1 == pow2(213));
    assert(0 <= wv * u && wv * u * 1 <= pow2(213) * d) by (nonlinear_arith)
        requires
            0 <= wv <= pow2(213),
            0 < u <= d,
    ;
    lemma_nearest_monotone(wv * u, d, pow2(213) as int, 1);
    lemma_pow2_strictly_increases(213, 277);
}

/// Half of the sum, nearly the middle.
proof fn lemma_half(a: Single, b: Single, m: int)
    requires
        doubled_middle(a, b) == Some(m),
        m >= 0,
    ensures
        midpoint(a, b) matches Value::Finite(hv) ==> hv >= 0 && 2 * hv * 0x40_0000 <= m * 0x40_0001
            + 0x80_0000 && 2 * hv * 0x40_0000 >= m * 0x3f_ffff - 0x80_0000,
        midpoint(a, b) matches Value::Infinite { negative } ==> !negative,
        !(midpoint(a, b) is NotANumber),
        m <= pow2(200) ==> midpoint(a, b) is Finite,
{
    let u = pow2(149) as int;
    lemma_constants();
    lemma_nearest_near(m, 1);
    let s = nearest(m, 1);
    lemma2_to64();
    lemma_pow2_adds(200, 1);
    lemma_pow2_adds(201, 1);
    lemma_pow2_strictly_increases(202, 277);
    lemma_pow2_pos(200);
    assert(0 <= s * u && 0 < 2 * u) by (nonlinear_arith)
        requires
            0 <= s,
            0 < u,
    ;
    lemma_nearest_near(s * u, 2 * u);
    let hv = nearest(s * u, 2 * u);
    assert(2 * hv * 0x100_0000 <= s * 0x100_0001 + 2 * 0x80_0000 && 2 * hv * 0x100_0000 >= s
        * 0xff_ffff - 2 * 0x80_0000) by (nonlinear_arith)
        requires
            hv * (2 * u) * 0x100_0000 <= s * u * 0x100_0001 + (2 * u) * 0x80_0000,
            hv * (2 * u) * 0x100_0000 >= s * u * 0xff_ffff - (2 * u) * 0x80_0000,
            u > 0,
    {
        assert(hv * (2 * u) * 0x100_0000 == u * (2 * hv * 0x100_0000));
        assert(s * u * 0x100_0001 + (2 * u) * 0x80_0000 == u * (s * 0x100_0001 + 2 * 0x80_0000));
        assert(s * u * 0xff_ffff - (2 * u) * 0x80_0000 == u * (s * 0xff_ffff - 2 * 0x80_0000));
    }
}

/// The number of the part that a middle falls into, as it is computed.
spec fn part_number(a: Single, b: Single, length: u32, cells: u32) -> int {
    whole(
        quotient(midpoint(a, b), quotient(int_value(length as int), bits_value(cells))),
        usize::MAX as int,
    )
}

proof fn lemma_part_behind(a: Single, b: Single, length: u32, cells: u32, count: int, index: int)
    requires
        length > 0,
        cells == NINE && count == 9 || cells == TEN && count == 10,
        0 <= index <= 10,
        lies_behind(a, b, length, count, index),
    ensures
        part_number(a, b, length, cells) >= index,
{
    let u = pow2(149) as int;
    let m = doubled_middle(a, b)->0;
    let x = length * u;
    lemma_length(length);
    lemma_cell(length, cells, count);
    lemma_half(a, b, m);
    lemma_constants();
    let cv = quotient(int_value(length as int), bits_value(cells))->Finite_0;
    if let Value::Finite(hv) = midpoint(a, b) {
        lemma_nearest_zero(cv);
        assert(0 <= hv * u) by (nonlinear_arith)
            requires
                0 <= hv,
                0 < u,
        ;
        lemma_nearest_monotone(0, cv, hv * u, cv);
        let q = nearest(hv * u, cv);
        if index > 0 {
            let r = index * x;
            let p = index * cv;
            let cm = count * m;
            let ch = count * hv;
            let cp = count * p;
            assert(cp * 0x10_0000 <= r * 0x10_0001) by (nonlinear_arith)
                requires
                    cp == count * (index * cv),
                    r == index * x,
                    count * cv * 0x10_0000 <= x * 0x10_0001,
                    index > 0,
            ;
            assert(2 * ch * 0x40_0000 >= cm * 0x3f_ffff - count * 0x80_0000) by (nonlinear_arith)
                requires
                    ch == count * hv,
                    cm == count * m,
                    2 * hv * 0x40_0000 >= m * 0x3f_ffff - 0x80_0000,
                    count > 0,
            ;
            assert(r >= x) by (nonlinear_arith)
                requires
                    r == index * x,
                    index >= 1,
                    x >= 0,
            ;
            assert(ch >= cp);
            assert(hv >= p) by (nonlinear_arith)
                requires
                    count * hv >= count * p,
                    count > 0,
            ;
            lemma_nearest_exact(index, 149, cv);
            assert(index * u * cv == p * u && 0 <= p * u && (p * u) * cv <= (hv * u) * cv)
                by (nonlinear_arith)
                requires
                    p == index * cv,
                    hv >= p,
                    p >= 0,
                    u > 0,
                    cv > 0,
            ;
            lemma_nearest_monotone(p * u, cv, hv * u, cv);
            assert(q >= index * u);
        } else {
            assert(index * u == 0) by (nonlinear_arith)
                requires
                    index == 0,
            ;
        }
        lemma_div_is_ordered(index * u, q, u);
        lemma_div_multiples_vanish(index, u);
        assert(u * index == index * u) by (nonlinear_arith);
    }
}

proof fn lemma_part_before(a: Single, b: Single, length: u32, cells: u32, count: int, index: int)
    requires
        length > 0,
        cells == NINE && count == 9 || cells == TEN && count == 10,
        0 <= index <= 9,
        doubled_middle(a, b) matches Some(m) && m >= 0,
        lies_before(a, b, length, count, index),
    ensures
        0 <= part_number(a, b, length, cells) <= index,
{
    let u = pow2(149) as int;
    let m = doubled_middle(a, b)->0;
    let x = length * u;
    lemma_length(length);
    lemma_cell(length, cells, count);
    lemma_half(a, b, m);
    lemma_constants();
    lemma2_to64();
    let cv = quotient(int_value(length as int), bits_value(cells))->Finite_0;
    let r = (index + 1) * x;
    let cm = count * m;
    lemma_pow2_adds(181, 19);
    assert(m <= pow2(200)) by (nonlinear_arith)
        requires
            count * m * 0x4_0000 <= 2 * ((index + 1) * x) * 0x3_ffff,
            0 <= m,
            count >= 9,
            0 <= index <= 9,
            0 <= x <= pow2(181),
            pow2(200) == pow2(181) * 0x8_0000,
    {
        assert((index + 1) * x <= 10 * x);
        assert(count * m >= m);
    }
    let hv = midpoint(a, b)->Finite_0;
    let p = (index + 1) * cv;
    let ch = count * hv;
    let cp = count * p;
    let cc = count * cv;
    assert(cp * 0x10_0000 >= r * 0xf_ffff && r >= x) by (nonlinear_arith)
        requires
            cp == count * ((index + 1) * cv),
            r == (index + 1) * x,
            count * cv * 0x10_0000 >= x * 0xf_ffff,
            index >= 0,
            x >= 0,
    ;
    assert(2 * ch * 0x40_0000 <= cm * 0x40_0001 + count * 0x80_0000) by (nonlinear_arith)
        requires
            ch == count * hv,
            cm == count * m,
            2 * hv * 0x40_0000 <= m * 0x40_0001 + 0x80_0000,
            count > 0,
    ;
    assert(ch * 0x10_0000 <= cp * 0x10_0000 - cc);
    let k = (index + 1) * 0x10_0000 - 1;
    let v = k * pow2(129);
    assert(hv * 0x10_0000 <= k * cv) by (nonlinear_arith)
        requires
            count * hv * 0x10_0000 <= count * ((index + 1) * cv) * 0x10_0000 - count * cv,
            k == (index + 1) * 0x10_0000 - 1,
            count > 0,
    {
        assert(count * (hv * 0x10_0000) <= count * (k * cv));
    }
    lemma_pow2_adds(20, 129);
    lemma_pow2_pos(129);
    lemma_nearest_exact(k, 129, 1);
    assert(k * pow2(129) * 1 == v);
    assert(0 <= hv * u && hv * u * 1 <= v * cv && 0 <= v && v < (index + 1) * u) by (nonlinear_arith)
        requires
            hv * 0x10_0000 <= k * cv,
            u == 0x10_0000 * pow2(129),
            v == k * pow2(129),
            k == (index + 1) * 0x10_0000 - 1,
            index >= 0,
            pow2(129) > 0,
            hv >= 0,
    ;
    lemma_nearest_zero(cv);
    lemma_nearest_monotone(0, cv, hv * u, cv);
    lemma_nearest_monotone(hv * u, cv, v, 1);
    let q = nearest(hv * u, cv);
    assert((index + 1) * u <= 16 * u) by (nonlinear_arith)
        requires
            index <= 9,
            u > 0,
    ;
    lemma_pow2_adds(4, 149);
    lemma_pow2_strictly_increases(153, 277);
    assert(0 <= q / u < index + 1) by (nonlinear_arith)
        requires
            0 <= q < (index + 1) * u,
            u > 0,
    ;
}

/// A piece stands on the cell that the middle of its box lies in.
proof fn lemma_cell_of_middle(det: Detection, model: ModelSize, row: int, col: int)
    requires
        model.valid(),
        0 <= row < 10,
        0 <= col < 9,
        lies_on(det, model, row, col),
    ensures
        det.row(model) == row,
        det.column(model) == col,
{
    lemma_part_behind(det.x0, det.x1, model.width, NINE, 9, col);
    lemma_part_before(det.x0, det.x1, model.width, NINE, 9, col);
    lemma_part_behind(det.y0, det.y1, model.height, TEN, 10, row);
    lemma_part_before(det.y0, det.y1, model.height, TEN, 10, row);
}

proof fn lemma_off(det: Detection, model: ModelSize)
    requires
        model.valid(),
        lies_off(det, model),
    ensures
        !det.on_board(model),
{
    if lies_behind(det.x0, det.x1, model.width, 9, 9) {
        lemma_part_behind(det.x0, det.x1, model.width, NINE, 9, 9);
    } else {
        lemma_part_behind(det.y0, det.y1, model.height, TEN, 10, 10);
    }
}

proof fn lemma_spares(det: Detection, model: ModelSize, row: int, col: int)
    requires
        model.valid(),
        0 <= row < 10,
        0 <= col < 9,
        spares(det, model, row, col),
    ensures
        !det.stands_on(model, row, col),
{
    if det.label != '0' {
        if lies_off(det, model) {
            lemma_off(det, model);
        } else {
            let (r, c) = choose|r: int, c: int|
                #![trigger lies_on(det, model, r, c)]
                lies_on(det, model, r, c) && 0 <= r < 10 && 0 <= c < 9 && (r != row || c != col);
            lemma_cell_of_middle(det, model, r, c);
        }
    }
}

proof fn lemma_last_standing(
    detections: Seq<Detection>,
    model: ModelSize,
    row: int,
    col: int,
    k: int,
)
    requires
        0 <= k < detections.len(),
        detections[k].stands_on(model, row, col),
        forall|j: int|
            k < j < detections.len() ==> !(#[trigger] detections[j]).stands_on(model, row, col),
    ensures
        piece_on(detections, model, row, col) == detections[k].label,
    decreases detections.len(),
{
    if k < detections.len() - 1 {
        assert(!detections[detections.len() - 1].stands_on(model, row, col));
        lemma_last_standing(detections.drop_last(), model, row, col, k);
    }
}

proof fn lemma_none_standing(detections: Seq<Detection>, model: ModelSize, row: int, col: int)
    requires
        forall|j: int|
            0 <= j < detections.len() ==> !(#[trigger] detections[j]).stands_on(model, row, col),
    ensures
        piece_on(detections, model, row, col) == ' ',
    decreases detections.len(),
{
    if detections.len() > 0 {
        assert(!detections[detections.len() - 1].stands_on(model, row, col));
        lemma_none_standing(detections.drop_last(), model, row, col);
    }
}

/// The board shows a piece on the cell that the middle of its box lies in, if no
/// piece seen later lies there.
pub proof fn law_piece_stands_where_its_middle_lies(
    detections: &[Detection],
    require_board_outline: bool,
    model: ModelSize,
    r: Result<(Camp, Board), String>,
    k: int,
    row: int,
    col: int,
)
    requires
        model.valid(),
        call_ensures(detections_to_board, (detections, require_board_outline, model), r),
        r is Ok,
        0 <= k < detections@.len(),
        0 <= row < 10,
        0 <= col < 9,
        detections@[k].label != '0',
        lies_on(detections@[k], model, row, col),
        forall|j: int|
            k < j < detections@.len() ==> spares(#[trigger] detections@[j], model, row, col),
    ensures
        r matches Ok((_, board)) && board@[row]@[col] == detections@[k].label,
{
    lemma_cell_of_middle(detections@[k], model, row, col);
    assert forall|j: int| k < j < detections@.len() implies !(
    #[trigger] detections@[j]).stands_on(model, row, col) by {
        lemma_spares(detections@[j], model, row, col);
    }
    lemma_last_standing(detections@, model, row, col, k);
}

/// A cell that no piece lies on is blank.
pub proof fn law_other_cells_are_blank(
    detections: &[Detection],
    require_board_outline: bool,
    model: ModelSize,
    r: Result<(Camp, Board), String>,
    row: int,
    col: int,
)
    requires
        model.valid(),
        call_ensures(detections_to_board, (detections, require_board_outline, model), r),
        r is Ok,
        0 <= row < 10,
        0 <= col < 9,
        forall|j: int|
            0 <= j < detections@.len() ==> spares(#[trigger] detections@[j], model, row, col),
    ensures
        r matches Ok((_, board)) && board@[row]@[col] == ' ',
{
    assert forall|j: int| 0 <= j < detections@.len() implies !(
    #[trigger] detections@[j]).stands_on(model, row, col) by {
        lemma_spares(detections@[j], model, row, col);
    }
    lemma_none_standing(detections@, model, row, col);
}

/// Whether a box shows a king in the palace at the bottom of the board, or at
/// its top.
pub open spec fn shows_king(det: Detection, model: ModelSize, king: char, at_bottom: bool) -> bool {
    &&& det.label == king
    &&& exists|row: int, col: int|
        #![trigger lies_on(det, model, row, col)]
        lies_on(det, model, row, col) && 3 <= col <= 5 && if at_bottom {
            7 <= row <= 9
        } else {
            0 <= row <= 2
        }
}

/// Whether a box tells nothing of the sides: it is no king, or its middle lies
/// outside both palaces.
pub open spec fn tells_nothing(det: Detection, model: ModelSize) -> bool {
    ||| det.label != 'k' && det.label != 'K'
    ||| lies_off(det, model)
    ||| exists|row: int, col: int|
        #![trigger lies_on(det, model, row, col)]
        lies_on(det, model, row, col) && 0 <= row < 10 && 0 <= col < 9 && (col < 3 || col > 5 || 3
            <= row <= 6)
}

proof fn lemma_silent(det: Detection, model: ModelSize)
    requires
        model.valid(),
        tells_nothing(det, model),
    ensures
        det.camp(model) == Camp::Unknown,
{
    if det.label == 'k' || det.label == 'K' {
        if lies_off(det, model) {
            lemma_off(det, model);
        } else {
            let (row, col) = choose|row: int, col: int|
                #![trigger lies_on(det, model, row, col)]
                lies_on(det, model, row, col) && 0 <= row < 10 && 0 <= col < 9 && (col < 3 || col
                    > 5 || 3 <= row <= 6);
            lemma_cell_of_middle(det, model, row, col);
        }
    }
}

proof fn lemma_first_telling(detections: Seq<Detection>, model: ModelSize, k: int)
    requires
        0 <= k < detections.len(),
        detections[k].camp(model) != Camp::Unknown,
        forall|j: int|
            0 <= j < k ==> (#[trigger] detections[j]).camp(model) == Camp::Unknown,
    ensures
        camp_seen(detections, model) == detections[k].camp(model),
    decreases detections.len(),
{
    let before = detections.drop_last();
    if k < detections.len() - 1 {
        lemma_first_telling(before, model, k);
    } else {
        lemma_none_telling(before, model);
    }
}

proof fn lemma_none_telling(detections: Seq<Detection>, model: ModelSize)
    requires
        forall|j: int|
            0 <= j < detections.len() ==> (#[trigger] detections[j]).camp(model) == Camp::Unknown,
    ensures
        camp_seen(detections, model) == Camp::Unknown,
    decreases detections.len(),
{
    if detections.len() > 0 {
        assert(detections[detections.len() - 1].camp(model) == Camp::Unknown);
        lemma_none_telling(detections.drop_last(), model);
    }
}

/// The first king that is seen in a palace tells the side at the bottom: the one
/// whose king is there, or the one whose king is not at the top. Capital letters
/// are red.
pub proof fn law_first_king_tells_the_side(
    detections: &[Detection],
    require_board_outline: bool,
    model: ModelSize,
    r: Result<(Camp, Board), String>,
    k: int,
    king: char,
    at_bottom: bool,
)
    requires
        model.valid(),
        call_ensures(detections_to_board, (detections, require_board_outline, model), r),
        r is Ok,
        0 <= k < detections@.len(),
        king == 'k' || king == 'K',
        shows_king(detections@[k], model, king, at_bottom),
        forall|j: int| 0 <= j < k ==> tells_nothing(#[trigger] detections@[j], model),
    ensures
        r matches Ok((camp, _)) && camp == if (king == 'K') == at_bottom {
            Camp::Red
        } else {
            Camp::Black
        },
{
    let det = detections@[k];
    let (row, col) = choose|row: int, col: int|
        #![trigger lies_on(det, model, row, col)]
        lies_on(det, model, row, col) && 3 <= col <= 5 && if at_bottom {
            7 <= row <= 9
        } else {
            0 <= row <= 2
        };
    lemma_cell_of_middle(det, model, row, col);
    assert forall|j: int| 0 <= j < k implies (#[trigger] detections@[j]).camp(model)
        == Camp::Unknown by {
        lemma_silent(detections@[j], model);
    }
    lemma_first_telling(detections@, model, k);
}

/// Without a king in a palace the side is not known.
pub proof fn law_no_king_no_side(
    detections: &[Detection],
    require_board_outline: bool,
    model: ModelSize,
    r: Result<(Camp, Board), String>,
)
    requires
        model.valid(),
        call_ensures(detections_to_board, (detections, require_board_outline, model), r),
        r is Ok,
        forall|j: int|
            0 <= j < detections@.len() ==> tells_nothing(#[trigger] detections@[j], model),
    ensures
        r matches Ok((camp, _)) && camp == Camp::Unknown,
{
    assert forall|j: int| 0 <= j < detections@.len() implies (#[trigger] detections@[j]).camp(model)
        == Camp::Unknown by {
        lemma_silent(detections@[j], model);
    }
    lemma_none_telling(detections@, model);
}

/// Whether two boxes are the same, or have the same label and the same middle.
pub open spec fn alike(a: Detection, b: Detection) -> bool {
    a == b || {
        &&& a.label == b.label
        &&& doubled_middle(a.x0, a.x1) is Some
        &&& doubled_middle(a.y0, a.y1) is Some
        &&& doubled_middle(a.x0, a.x1) == doubled_middle(b.x0, b.x1)
        &&& doubled_middle(a.y0, a.y1) == doubled_middle(b.y0, b.y1)
    }
}

proof fn lemma_alike(a: Seq<Detection>, b: Seq<Detection>, model: ModelSize, row: int, col: int)
    requires
        a.len() == b.len(),
        forall|i: int| 0 <= i < a.len() ==> alike(#[trigger] a[i], b[i]),
    ensures
        piece_on(a, model, row, col) == piece_on(b, model, row, col),
        camp_seen(a, model) == camp_seen(b, model),
    decreases a.len(),
{
    if a.len() > 0 {
        let last = a.len() - 1;
        assert(alike(a[last], b[last]));
        assert(sum(a[last].x0.value(), a[last].x1.value()) == sum(
            b[last].x0.value(),
            b[last].x1.value(),
        ));
        assert(sum(a[last].y0.value(), a[last].y1.value()) == sum(
            b[last].y0.value(),
            b[last].y1.value(),
        ));
        assert(a[last].row(model) == b[last].row(model));
        assert(a[last].column(model) == b[last].column(model));
        lemma_alike(a.drop_last(), b.drop_last(), model, row, col);
    }
}

/// What is read off the boxes depends on their labels and their middles alone,
/// wherever they lie: boxes with the same middles, each in its turn, give the same
/// board and the same side.
pub proof fn law_middles_alone_count(
    a: &[Detection],
    b: &[Detection],
    require_board_outline: bool,
    model: ModelSize,
    ra: Result<(Camp, Board), String>,
    rb: Result<(Camp, Board), String>,
)
    requires
        model.valid(),
        call_ensures(detections_to_board, (a, require_board_outline, model), ra),
        call_ensures(detections_to_board, (b, require_board_outline, model), rb),
        a@.len() == b@.len(),
        forall|i: int| 0 <= i < a@.len() ==> alike(#[trigger] a@[i], b@[i]),
    ensures
        ra is Ok <==> rb is Ok,
        ra is Ok ==> ra->Ok_0 == rb->Ok_0,
{
    if has_outline(a@) {
        let i = choose|i: int| 0 <= i < a@.len() && #[trigger] a@[i].label == '0';
        assert(alike(a@[i], b@[i]));
    }
    if has_outline(b@) {
        let i = choose|i: int| 0 <= i < b@.len() && #[trigger] b@[i].label == '0';
        assert(alike(a@[i], b@[i]));
    }
    if ra is Ok && rb is Ok {
        lemma_alike(a@, b@, model, 0, 0);
        let x = ra->Ok_0.1;
        let y = rb->Ok_0.1;
        assert forall|row: int, col: int| 0 <= row < 10 && 0 <= col < 9 implies
            #[trigger] x@[row]@[col] == piece_on(b@, model, row, col) by {
            lemma_alike(a@, b@, model, row, col);
        }
        lemma_one_board(x, y, b@, model);
    }
}

/// A board is refused just if its outline is asked for and no box has the
/// outline's label. Whether it is asked for changes nothing else.
pub proof fn law_outline_is_only_asked_for(
    detections: &[Detection],
    model: ModelSize,
    asked: Result<(Camp, Board), String>,
    free: Result<(Camp, Board), String>,
)
    requires
        model.valid(),
        call_ensures(detections_to_board, (detections, true, model), asked),
        call_ensures(detections_to_board, (detections, false, model), free),
    ensures
        free is Ok,
        asked is Err <==> forall|i: int|
            0 <= i < detections@.len() ==> (#[trigger] detections@[i]).label != '0',
        asked is Ok ==> asked->Ok_0 == free->Ok_0,
        asked matches Err(message) ==> message@ == "not board"@,
{
    if asked is Ok {
        lemma_one_board(asked->Ok_0.1, free->Ok_0.1, detections@, model);
    }
}

} // verus!
