//! Where on the screen the mouse has to click.
use crate::board::{Camp, Changed};
use crate::common::{lemma_constants, HALF, NINE, TEN};
use crate::rounding::{
    lemma_nearest_error, lemma_nearest_exact, lemma_nearest_monotone, nearest,
};
use crate::single::{
    bits_value, int_value, lemma_int_exact, lemma_int_value, lemma_nearest_zero, product, quotient, sum,
    whole, Single, Value,
};
use vstd::arithmetic::div_mod::{lemma_div_is_ordered, lemma_div_multiples_vanish};
use vstd::arithmetic::power2::{
    lemma2_to64, lemma_pow2_adds, lemma_pow2_pos, lemma_pow2_strictly_increases, pow2,
};
use vstd::prelude::*;
use vstd::string::{StrSliceExecFns, StringExecFns};
use vstd::utf8::encode_utf8;

verus! {

/// The sides of a window, in pixels of the screen.
#[derive(Clone, Copy, Debug)]
pub struct RECT {
    pub left: i32,
    pub top: i32,
    pub right: i32,
    pub bottom: i32,
}

impl Default for RECT {
    fn default() -> (r: RECT)
        ensures
            r == (RECT { left: 0, top: 0, right: 0, bottom: 0 }),
    {
        RECT { left: 0, top: 0, right: 0, bottom: 0 }
    }
}

/// A pixel of the screen.
#[derive(Clone, Copy, Debug)]
pub struct POINT {
    pub x: i32,
    pub y: i32,
}

impl POINT {
    pub open spec fn pair(self) -> (int, int) {
        (self.x as int, self.y as int)
    }
}

impl Default for POINT {
    fn default() -> (r: POINT)
        ensures
            r == (POINT { x: 0, y: 0 }),
    {
        POINT { x: 0, y: 0 }
    }
}

/// The part of a window that shows the board.
#[derive(Clone, Copy, Debug)]
pub struct SubBound {
    pub x: u32,
    pub y: u32,
    pub w: u32,
    pub h: u32,
}

/// The number of a column of the board, from its letter: `a` is the first.
pub open spec fn file_number(c: char) -> int {
    c as int - 97
}

/// The number of a row of the board, from the top, from its digit: `9` is the
/// first.
pub open spec fn rank_number(c: char) -> int {
    57 - c as int
}

/// The column of the screen: black looks at the board from the other side.
pub open spec fn screen_column(camp: Camp, file: int) -> int {
    if camp == Camp::Black {
        8 - file
    } else {
        file
    }
}

/// The row of the screen: black looks at the board from the other side.
pub open spec fn screen_row(camp: Camp, rank: int) -> int {
    if camp == Camp::Black {
        9 - rank
    } else {
        rank
    }
}

/// The cell of the screen that a letter and a digit name.
pub open spec fn screen_cell(camp: Camp, file: char, rank: char) -> (int, int) {
    (screen_column(camp, file_number(file)), screen_row(camp, rank_number(rank)))
}

/// Whether a letter and a digit name a cell that `camp` can see.
pub open spec fn names_cell(camp: Camp, file: char, rank: char) -> bool {
    &&& 0 <= file_number(file)
    &&& 0 <= rank_number(rank)
    &&& 0 <= screen_column(camp, file_number(file))
    &&& 0 <= screen_row(camp, rank_number(rank))
}

/// Whether a text is long enough to be a move: its encoding takes four bytes or
/// more.
pub open spec fn long_enough(pv: Seq<char>) -> bool {
    encode_utf8(pv).len() >= 4
}

/// Whether a move can be read: it is too short to be one, or its first four
/// characters name two cells.
pub open spec fn legible(pv: Seq<char>, camp: Camp) -> bool {
    long_enough(pv) ==> {
        &&& pv.len() >= 4
        &&& names_cell(camp, pv[0], pv[1])
        &&& names_cell(camp, pv[2], pv[3])
    }
}

/// The middle of a cell, along one side of a board that starts at `start` and
/// is `length` long, in single precision.
pub open spec fn cell_middle(start: u32, length: u32, cells: u32, index: int) -> Value {
    sum(
        int_value(start as int),
        product(
            sum(int_value(index), bits_value(HALF)),
            quotient(int_value(length as int), bits_value(cells)),
        ),
    )
}

/// The pixel in the middle of a cell, counted from the corner of the window.
pub open spec fn cell_pixel(window: SubBound, cell: (int, int)) -> (int, int) {
    (
        whole(cell_middle(window.x, window.w, NINE, cell.0), i32::MAX as int),
        whole(cell_middle(window.y, window.h, TEN, cell.1), i32::MAX as int),
    )
}

/// The two pixels to click for a move, counted from the corner of the window.
/// There is nothing to click for a move that is too short, or on a board of no
/// size.
pub open spec fn move_pixels(pv: Seq<char>, camp: Camp, window: SubBound) -> Option<
    ((int, int), (int, int)),
> {
    if long_enough(pv) && window.w > 0 && window.h > 0 {
        Some(
            (
                cell_pixel(window, screen_cell(camp, pv[0], pv[1])),
                cell_pixel(window, screen_cell(camp, pv[2], pv[3])),
            ),
        )
    } else {
        None
    }
}

/// The two clicks of a move, counted from the corner of the window.
#[derive(Clone, Copy, Debug)]
pub struct MoveClicks {
    pub from: POINT,
    pub to: POINT,
}

fn middle_of_cell(start: u32, length: u32, cells: u32, index: u32) -> (r: i32)
    requires
        cells == NINE || cells == TEN,
    ensures
        r == whole(cell_middle(start, length, cells, index as int), i32::MAX as int),
{
    proof {
        lemma_constants();
    }
    let size = Single::from_u32(length).div(Single::from_bits(cells));
    let offset = Single::from_u32(index).add(Single::from_bits(HALF)).mul(size);
    Single::from_u32(start).add(offset).whole_up_to(i32::MAX as u64) as i32
}

fn pixel_of_cell(window: &SubBound, camp: &Camp, file: char, rank: char) -> (r: POINT)
    requires
        names_cell(*camp, file, rank),
    ensures
        r.pair() == cell_pixel(*window, screen_cell(*camp, file, rank)),
{
    let x: u32 = file as u32 - 97;
    let y: u32 = 57 - rank as u32;
    let (column, row): (u32, u32) = if camp.is_black() {
        (8 - x, 9 - y)
    } else {
        (x, y)
    };
    POINT {
        x: middle_of_cell(window.x, window.w, NINE, column),
        y: middle_of_cell(window.y, window.h, TEN, row),
    }
}

/// Whether the text is long enough to be a move.
fn is_long_enough(pv: &str) -> (r: bool)
    ensures
        r == long_enough(pv@),
{
    pv.as_bytes().len() >= 4
}

/// Whether the move can be read.
pub fn is_legible(pv: &str, camp: &Camp) -> (r: bool)
    ensures
        r == legible(pv@, *camp),
{
    if !is_long_enough(pv) {
        return true;
    }
    if pv.unicode_len() < 4 {
        return false;
    }
    is_cell_name(camp, pv.get_char(0), pv.get_char(1)) && is_cell_name(
        camp,
        pv.get_char(2),
        pv.get_char(3),
    )
}

fn is_cell_name(camp: &Camp, file: char, rank: char) -> (r: bool)
    ensures
        r == names_cell(*camp, file, rank),
{
    file as u32 >= 97 && rank as u32 <= 57 && (!camp.is_black() || (file as u32 <= 105
        && rank as u32 >= 48))
}

/// Where to click to make a move: on the cell it starts from, then on the cell
/// it goes to. There is nothing to click for a move that is too short, or on a
/// board of no size.
pub fn execute_move(pv: &str, camp: &Camp, window: &SubBound) -> (r: Option<MoveClicks>)
    requires
        legible(pv@, *camp),
    ensures
        match r {
            Some(clicks) => move_pixels(pv@, *camp, *window) == Some(
                (clicks.from.pair(), clicks.to.pair()),
            ),
            None => move_pixels(pv@, *camp, *window) is None,
        },
{
    if !is_long_enough(pv) || window.w == 0 || window.h == 0 {
        return None;
    }
    let from = pixel_of_cell(window, camp, pv.get_char(0), pv.get_char(1));
    let to = pixel_of_cell(window, camp, pv.get_char(2), pv.get_char(3));
    Some(MoveClicks { from, to })
}

/// The text of a move: the cell it starts from, then the cell it goes to.
pub fn move_text(changed: &Changed) -> (pv: String)
    ensures
        pv@ == changed.from@ + changed.to@,
{
    changed.from.clone().concat(changed.to.as_str())
}

/// The pixel of the screen that lies this far from the corner of a window.
pub open spec fn on_screen(rect: RECT, pixel: (int, int)) -> POINT {
    POINT { x: (rect.left + pixel.0) as i32, y: (rect.top + pixel.1) as i32 }
}

/// The pixel of the screen that lies `(x, y)` from the corner of a window.
pub fn screen_pos(rect: &RECT, x: i32, y: i32) -> (r: POINT)
    requires
        i32::MIN <= rect.left + x <= i32::MAX,
        i32::MIN <= rect.top + y <= i32::MAX,
    ensures
        r.x == rect.left + x,
        r.y == rect.top + y,
        r == on_screen(*rect, (x as int, y as int)),
{
    POINT { x: rect.left + x, y: rect.top + y }
}

/// A coordinate of 32 bits, taken for a signed one.
pub open spec fn as_signed(n: u32) -> int {
    if n <= i32::MAX {
        n as int
    } else {
        n - 0x1_0000_0000
    }
}

fn to_signed(n: u32) -> (r: i32)
    ensures
        r == as_signed(n),
{
    if n <= i32::MAX as u32 {
        n as i32
    } else {
        (n as i64 - 0x1_0000_0000) as i32
    }
}

/// The pixel of the screen to click for a pixel of a window.
pub fn click_screen_pos(rect: &RECT, client_x: u32, client_y: u32) -> (r: POINT)
    requires
        i32::MIN <= rect.left + as_signed(client_x) <= i32::MAX,
        i32::MIN <= rect.top + as_signed(client_y) <= i32::MAX,
    ensures
        r.x == rect.left + as_signed(client_x),
        r.y == rect.top + as_signed(client_y),
{
    screen_pos(rect, to_signed(client_x), to_signed(client_y))
}

/// The place to click to get rid of a dialogue that hides the board: in the
/// middle, two thirds down; none in a window without such a place.
pub open spec fn dismissal(width: u32, height: u32) -> Option<(u32, u32)> {
    let x = width / 2;
    let y = height * 2 / 3;
    if x > 0 && y > 0 {
        Some((x, y as u32))
    } else {
        None
    }
}

pub fn dismissal_point(width: u32, height: u32) -> (r: Option<(u32, u32)>)
    ensures
        r == dismissal(width, height),
{
    let x: u32 = width / 2;
    let y: u32 = (height as u64 * 2 / 3) as u32;
    if x > 0 && y > 0 {
        Some((x, y))
    } else {
        None
    }
}

/// The click that gets rid of a dialogue lies in the window.
pub proof fn lemma_dismissal_within(width: u32, height: u32)
    ensures
        dismissal(width, height) is Some <==> width >= 2 && height >= 2,
        dismissal(width, height) matches Some((x, y)) ==> 0 < x < width && 0 < y < height,
{
}

/// Red and black see each cell at places that lie opposite to each other.
pub proof fn lemma_opposite_sides(file: int, rank: int)
    ensures
        screen_column(Camp::Red, file) + screen_column(Camp::Black, file) == 8,
        screen_row(Camp::Red, rank) + screen_row(Camp::Black, rank) == 9,
        screen_column(Camp::Black, screen_column(Camp::Black, file)) == file,
        screen_row(Camp::Black, screen_row(Camp::Black, rank)) == rank,
{
}

proof fn lemma_middle_within(start: u32, length: u32, cells: u32, count: int, index: int)
    requires
        start + length <= 0x100_0000,
        cells == NINE && count == 9 || cells == TEN && count == 10,
        0 <= index < count,
    ensures
        start <= whole(cell_middle(start, length, cells, index), i32::MAX as int) <= start + length,
{
    let u = pow2(149) as int;
    let h = pow2(148) as int;
    let l = length as int;
    lemma_constants();
    lemma2_to64();
    lemma_pow2_adds(1, 148);
    lemma_pow2_pos(148);
    lemma_pow2_adds(31, 118);
    lemma_pow2_pos(118);
    assert(u >= 0x8000_0000) by (nonlinear_arith)
        requires
            u == 0x8000_0000 * pow2(118),
            pow2(118) > 0,
    ;
    lemma_int_exact(start as int);
    lemma_int_exact(l);
    lemma_int_exact(index);
    lemma_int_exact(start + l);
    lemma_nearest_zero(1);
    lemma_nearest_zero(u);
    lemma_pow2_strictly_increases(213, 277);
    lemma_int_value(start + l);
    lemma_int_value(l);
    // The middle of the cell, in cells.
    let m = 2 * index + 1;
    lemma_nearest_exact(m, 148, 1);
    assert(index * u + h == m * h && m * h * 1 == m * h && 0 <= m * h <= 0x100_0000 * u)
        by (nonlinear_arith)
        requires
            m == 2 * index + 1,
            u == 2 * h,
            h > 0,
            0 <= index < 10,
    ;
    lemma_int_exact(0x100_0000);
    lemma_int_value(0x100_0000);
    assert(sum(int_value(index), bits_value(HALF)) == Value::Finite(m * h));
    // The size of a cell.
    let d = count * u;
    assert(0 <= l * u * u && 0 < d) by (nonlinear_arith)
        requires
            0 <= l,
            0 < u,
            d == count * u,
            0 < count,
    ;
    let g = nearest(l * u * u, d);
    if l == 0 {
        lemma_nearest_zero(d);
    } else {
        assert(0x80_0000 * d <= l * u * u) by (nonlinear_arith)
            requires
                1 <= l,
                u >= 0x8000_0000,
                d == count * u,
                0 < count <= 10,
        ;
        lemma_nearest_error(l * u * u, d);
        assert(g * count * 0x100_0000 <= l * u * 0x100_0001) by (nonlinear_arith)
            requires
                g * d * 0x100_0000 <= l * u * u * 0x100_0001,
                d == count * u,
                u > 0,
        ;
    }
    lemma_nearest_zero(d);
    lemma_nearest_monotone(0, d, l * u * u, d);
    assert(l * u * u * 1 <= l * u * d) by (nonlinear_arith)
        requires
            0 <= l,
            0 < u,
            d == count * u,
            1 <= count,
    ;
    lemma_nearest_monotone(l * u * u, d, l * u, 1);
    assert(quotient(int_value(l), bits_value(cells)) == Value::Finite(g));
    // How far the middle lies from the start.
    let a = m * h * g;
    assert(0 <= a && a * 1 <= l * u * u) by (nonlinear_arith)
        requires
            a == m * h * g,
            u == 2 * h,
            h > 0,
            0 <= g,
            1 <= m <= 2 * count - 1,
            0 < count <= 10,
            0 <= l,
            g * count * 0x100_0000 <= l * u * 0x100_0001,
    {
        assert(m * (g * count * 0x100_0000) <= m * (l * u * 0x100_0001));
        assert(m * 0x100_0001 <= 2 * count * 0x100_0000);
        assert((l * u) * (m * 0x100_0001) <= (l * u) * (2 * count * 0x100_0000));
        assert((m * g) * (count * 0x100_0000) <= (2 * (l * u)) * (count * 0x100_0000));
        assert(m * g <= 2 * (l * u));
        assert(h * (m * g) <= h * (2 * (l * u)));
    }
    let p = nearest(a, u);
    lemma_nearest_monotone(0, u, a, u);
    lemma_nearest_monotone(a, u, l * u, 1);
    assert(0 <= p <= l * u);
    assert(product(Value::Finite(m * h), Value::Finite(g)) == Value::Finite(p));
    // Where it lies on the screen.
    let s = start * u;
    assert(0 <= s && s + l * u == (start + l) * u) by (nonlinear_arith)
        requires
            s == start * u,
            0 <= start,
            0 < u,
    ;
    lemma_nearest_monotone(s, 1, s + p, 1);
    lemma_nearest_monotone(s + p, 1, (start + l) * u, 1);
    let y = nearest(s + p, 1);
    assert(cell_middle(start, length, cells, index) == Value::Finite(y));
    lemma_div_is_ordered(s, y, u);
    lemma_div_is_ordered(y, (start + l) * u, u);
    lemma_div_multiples_vanish(start as int, u);
    lemma_div_multiples_vanish(start + l, u);
    assert(u * start == s && u * (start + l) == (start + l) * u) by (nonlinear_arith)
        requires
            s == start * u,
    ;
}

/// The click for a cell lies on the part of the window that shows the board.
/// Single precision tells whole numbers apart up to `2^24`; no screen is longer.
pub proof fn lemma_click_within_board(window: SubBound, cell: (int, int))
    requires
        window.x + window.w <= 0x100_0000,
        window.y + window.h <= 0x100_0000,
        0 <= cell.0 < 9,
        0 <= cell.1 < 10,
    ensures
        window.x <= cell_pixel(window, cell).0 <= window.x + window.w,
        window.y <= cell_pixel(window, cell).1 <= window.y + window.h,
{
    lemma_middle_within(window.x, window.w, NINE, 9, cell.0);
    lemma_middle_within(window.y, window.h, TEN, 10, cell.1);
}

/// Each cell of the board, from `a` to `i` and from `0` to `9`, is seen by both
/// sides.
pub proof fn lemma_cells_are_seen(camp: Camp, file: char, rank: char)
    requires
        'a' <= file <= 'i',
        '0' <= rank <= '9',
    ensures
        names_cell(camp, file, rank),
        0 <= screen_cell(camp, file, rank).0 < 9,
        0 <= screen_cell(camp, file, rank).1 < 10,
{
}

/// Each character takes a byte or more.
pub proof fn lemma_bytes_of_text(text: Seq<char>)
    ensures
        encode_utf8(text).len() >= text.len(),
    decreases text.len(),
{
    if text.len() > 0 {
        lemma_bytes_of_text(text.drop_first());
    }
}

/// The letter of a column as it is seen from the other side: `a` for `i`.
pub open spec fn opposite_file(c: char) -> char {
    ('a' as int + 'i' as int - c as int) as char
}

/// The digit of a row as it is seen from the other side: `0` for `9`.
pub open spec fn opposite_rank(c: char) -> char {
    ('0' as int + '9' as int - c as int) as char
}

/// A move as it is seen from the other side.
pub open spec fn opposite_move(pv: Seq<char>) -> Seq<char> {
    Seq::new(
        pv.len(),
        |i: int|
            if i == 0 || i == 2 {
                opposite_file(pv[i])
            } else if i == 1 || i == 3 {
                opposite_rank(pv[i])
            } else {
                pv[i]
            },
    )
}

/// Whether the first four characters are two cells of the board.
pub open spec fn names_two_cells(pv: Seq<char>) -> bool {
    &&& pv.len() >= 4
    &&& 'a' <= pv[0] <= 'i'
    &&& '0' <= pv[1] <= '9'
    &&& 'a' <= pv[2] <= 'i'
    &&& '0' <= pv[3] <= '9'
}

/// Black clicks for a move where red clicks for the move that is seen from the
/// other side, and the other way round.
pub proof fn lemma_opposite_move(pv: Seq<char>, window: SubBound)
    requires
        names_two_cells(pv),
    ensures
        names_two_cells(opposite_move(pv)),
        legible(pv, Camp::Black),
        legible(pv, Camp::Red),
        legible(opposite_move(pv), Camp::Black),
        legible(opposite_move(pv), Camp::Red),
        move_pixels(pv, Camp::Black, window) == move_pixels(opposite_move(pv), Camp::Red, window),
        move_pixels(pv, Camp::Red, window) == move_pixels(opposite_move(pv), Camp::Black, window),
{
    let other = opposite_move(pv);
    lemma_bytes_of_text(pv);
    lemma_bytes_of_text(other);
    assert(screen_cell(Camp::Black, pv[0], pv[1]) == screen_cell(Camp::Red, other[0], other[1]));
    assert(screen_cell(Camp::Black, pv[2], pv[3]) == screen_cell(Camp::Red, other[2], other[3]));
    assert(screen_cell(Camp::Red, pv[0], pv[1]) == screen_cell(Camp::Black, other[0], other[1]));
    assert(screen_cell(Camp::Red, pv[2], pv[3]) == screen_cell(Camp::Black, other[2], other[3]));
}

/// What follows the first four characters of a move changes nothing.
pub proof fn lemma_tail_is_passed_over(pv: Seq<char>, tail: Seq<char>, camp: Camp, window: SubBound)
    requires
        pv.len() >= 4,
    ensures
        legible(pv + tail, camp) <==> legible(pv, camp),
        move_pixels(pv + tail, camp, window) == move_pixels(pv, camp, window),
{
    lemma_bytes_of_text(pv);
    lemma_bytes_of_text(pv + tail);
}

} // verus!
