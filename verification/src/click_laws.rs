//! Where the mouse clicks, and what it does, said of the texts of the moves and
//! the places of the windows.
use crate::board::{Camp, Changed};
use crate::clicks::{
    cell_middle, click_screen_pos, dismissal_point, execute_move, is_legible, lemma_bytes_of_text,
    move_text, names_two_cells, screen_cell, screen_pos, MoveClicks, SubBound, POINT, RECT,
};
use crate::common::{lemma_constants, HALF, NINE, TEN};
use crate::gestures::{
    after_gestures, click_gestures, lemma_click, lemma_move, move_gestures, Gesture, Mouse,
};
use crate::rounding::{lemma_nearest_exact, lemma_nearest_near, nearest};
use crate::single::{bits_value, int_value, lemma_int_exact, product, quotient, sum, whole, Value};
use vstd::arithmetic::power2::{
    lemma2_to64, lemma_pow2_adds, lemma_pow2_pos, lemma_pow2_strictly_increases, pow2,
};
use vstd::prelude::*;
use vstd::utf8::encode_utf8;

verus! {

/// Whether a pixel is the middle of the part with this number, of so many equal
/// parts of a side, give or take two pixels.
pub open spec fn in_the_middle(
    at: int,
    start: u32,
    length: u32,
    count: int,
    index: int,
) -> bool {
    (2 * index + 1) * length - 4 * count <= 2 * count * (at - start) <= (2 * index + 1) * length + 4
        * count
}

proof fn lemma_middle_of_cell(start: u32, length: u32, cells: u32, count: int, index: int)
    requires
        start + length <= 0x10_0000,
        cells == NINE && count == 9 || cells == TEN && count == 10,
        0 <= index < count,
    ensures
        in_the_middle(
            whole(cell_middle(start, length, cells, index), i32::MAX as int),
            start,
            length,
            count,
            index,
        ),
{
    let u = pow2(149) as int;
    let h = pow2(148) as int;
    let l = length as int;
    lemma_constants();
    lemma2_to64();
    lemma_pow2_adds(1, 148);
    lemma_pow2_pos(148);
    lemma_pow2_adds(64, 85);
    lemma_pow2_pos(85);
    assert(u >= 0x1_0000_0000_0000_0000) by (nonlinear_arith)
        requires
            u == 0x1_0000_0000_0000_0000 * pow2(85),
            pow2(85) > 0,
    ;
    lemma_pow2_adds(25, 149);
    lemma_pow2_strictly_increases(174, 277);
    lemma_int_exact(start as int);
    lemma_int_exact(l);
    lemma_int_exact(index);
    let m = 2 * index + 1;
    lemma_nearest_exact(m, 148, 1);
    assert(index * u + h == m * h && m * h * 1 == m * h && 0 <= m * h <= 0x100_0000 * u)
        by (nonlinear_arith)
        requires
            m == 2 * index + 1,
            u == 2 * h,
            h > 0,
            0 <= index < 10,
    ;
    assert(sum(int_value(index), bits_value(HALF)) == Value::Finite(m * h));
    // The size of a cell.
    let d = count * u;
    let x = l * u;
    assert(0 <= x && 0 <= x * u && 0 < d && x <= 0x10_0000 * u) by (nonlinear_arith)
        requires
            x == l * u,
            0 <= l <= 0x10_0000,
            0 < u,
            d == count * u,
            0 < count,
    ;
    lemma_nearest_near(x * u, d);
    let g = nearest(x * u, d);
    assert(g * count * 0x100_0000 <= x * 0x100_0001 + count * 0x80_0000 && g * count * 0x100_0000
        >= x * 0xff_ffff - count * 0x80_0000) by (nonlinear_arith)
        requires
            g * d * 0x100_0000 <= x * u * 0x100_0001 + d * 0x80_0000,
            g * d * 0x100_0000 >= x * u * 0xff_ffff - d * 0x80_0000,
            d == count * u,
            u > 0,
    {
        assert(g * d * 0x100_0000 == u * (g * count * 0x100_0000));
        assert(x * u * 0x100_0001 + d * 0x80_0000 == u * (x * 0x100_0001 + count * 0x80_0000));
        assert(x * u * 0xff_ffff - d * 0x80_0000 == u * (x * 0xff_ffff - count * 0x80_0000));
    }
    let cg = g * count;
    assert(g <= cg) by (nonlinear_arith)
        requires
            cg == g * count,
            count >= 1,
            g >= 0,
    ;
    assert(g < 0x200_0000 * u);
    assert(quotient(int_value(l), bits_value(cells)) == Value::Finite(g));
    // How far the middle lies from the start.
    let a = m * h * g;
    assert(0 <= a) by (nonlinear_arith)
        requires
            a == m * h * g,
            m >= 0,
            h >= 0,
            g >= 0,
    ;
    lemma_nearest_near(a, u);
    let p = nearest(a, u);
    let mg = m * g;
    assert(2 * p * 0x100_0000 <= mg * 0x100_0001 + 2 * 0x80_0000 && 2 * p * 0x100_0000 >= mg
        * 0xff_ffff - 2 * 0x80_0000) by (nonlinear_arith)
        requires
            p * u * 0x100_0000 <= a * 0x100_0001 + u * 0x80_0000,
            p * u * 0x100_0000 >= a * 0xff_ffff - u * 0x80_0000,
            a == m * h * g,
            mg == m * g,
            u == 2 * h,
            h > 0,
    {
        assert(a == h * mg);
        assert(p * u * 0x100_0000 == h * (2 * p * 0x100_0000));
        assert(a * 0x100_0001 + u * 0x80_0000 == h * (mg * 0x100_0001 + 2 * 0x80_0000));
        assert(a * 0xff_ffff - u * 0x80_0000 == h * (mg * 0xff_ffff - 2 * 0x80_0000));
    }
    let mx = m * x;
    let cmg = count * mg;
    assert(cmg * 0x100_0000 <= mx * 0x100_0001 + 19 * count * 0x80_0000 && cmg * 0x100_0000 >= mx
        * 0xff_ffff - 19 * count * 0x80_0000 && 0 <= mx <= 19 * x) by (nonlinear_arith)
        requires
            cmg == count * (m * g),
            mx == m * x,
            g * count * 0x100_0000 <= x * 0x100_0001 + count * 0x80_0000,
            g * count * 0x100_0000 >= x * 0xff_ffff - count * 0x80_0000,
            1 <= m <= 19,
            count > 0,
            x >= 0,
    {
        assert(m * (g * count * 0x100_0000) <= m * (x * 0x100_0001 + count * 0x80_0000));
        assert(m * (g * count * 0x100_0000) >= m * (x * 0xff_ffff - count * 0x80_0000));
        assert(m * (count * 0x80_0000) <= 19 * (count * 0x80_0000));
    }
    let cp = count * p;
    assert(2 * cp * 0x100_0000 <= cmg * 0x100_0001 + 2 * count * 0x80_0000 && 2 * cp * 0x100_0000
        >= cmg * 0xff_ffff - 2 * count * 0x80_0000 && p <= cp) by (nonlinear_arith)
        requires
            cp == count * p,
            cmg == count * mg,
            2 * p * 0x100_0000 <= mg * 0x100_0001 + 2 * 0x80_0000,
            2 * p * 0x100_0000 >= mg * 0xff_ffff - 2 * 0x80_0000,
            count >= 1,
            p >= 0,
    ;
    // Nearly, that is to say within a pixel.
    assert(mx - 4 * u <= 2 * cp <= mx + 4 * u);
    assert(p < 0x200_0000 * u);
    assert(product(Value::Finite(m * h), Value::Finite(g)) == Value::Finite(p));
    // Where it lies on the screen.
    let s = start * u;
    assert(0 <= s <= 0x10_0000 * u) by (nonlinear_arith)
        requires
            s == start * u,
            0 <= start <= 0x10_0000,
            0 < u,
    ;
    lemma_nearest_near(s + p, 1);
    let y = nearest(s + p, 1);
    assert(y < 0x200_0000 * u);
    assert(cell_middle(start, length, cells, index) == Value::Finite(y));
    let at = y / u;
    assert(at * u <= y < (at + 1) * u && 0 <= at < 0x200_0000) by (nonlinear_arith)
        requires
            at == y / u,
            0 <= y < 0x200_0000 * u,
            u > 0,
    ;
    let cy = count * (y - s);
    assert(8 * (cy - cp) <= 2 * count * u && 8 * (cy - cp) >= -2 * count * u) by (nonlinear_arith)
        requires
            cy == count * (y - s),
            cp == count * p,
            8 * (y - s - p) <= 2 * u,
            8 * (y - s - p) >= -2 * u,
            count > 0,
    ;
    let gap = at - start;
    assert(2 * count * gap * u <= 2 * cy && 2 * cy <= 2 * count * gap * u + 2 * count * u)
        by (nonlinear_arith)
        requires
            cy == count * (y - s),
            s == start * u,
            gap == at - start,
            at * u <= y < (at + 1) * u,
            count > 0,
    ;
    assert(mx == (m * l) * u) by (nonlinear_arith)
        requires
            mx == m * x,
            x == l * u,
    ;
    let ml = m * l;
    let cgap = 2 * count * gap;
    let cu = count * u;
    assert(9 * u <= cu <= 10 * u && 2 * count * gap * u == cgap * u && 2 * count * u == 2 * cu)
        by (nonlinear_arith)
        requires
            cu == count * u,
            9 <= count <= 10,
            cgap == 2 * count * gap,
            u > 0,
    ;
    assert(cgap * u <= ml * u + 9 * u && cgap * u >= ml * u - 30 * u);
    assert(cgap <= ml + 9 && cgap >= ml - 30) by (nonlinear_arith)
        requires
            cgap * u <= ml * u + 9 * u,
            cgap * u >= ml * u - 30 * u,
            u > 0,
    ;
}

/// The column of a file's letter as a side sees it: red from the left, black from
/// the right.
pub open spec fn seen_column(camp: Camp, file: char) -> int {
    if camp == Camp::Black {
        'i' as int - file as int
    } else {
        file as int - 'a' as int
    }
}

/// The row of a rank's digit as a side sees it: red from the top down, black from
/// the bottom up.
pub open spec fn seen_row(camp: Camp, rank: char) -> int {
    if camp == Camp::Black {
        rank as int - '0' as int
    } else {
        '9' as int - rank as int
    }
}

/// A move is made by a click on the middle of the cell that its first two
/// characters name, and one on the middle of the cell that the next two name, on
/// a board of nine columns and ten rows.
pub proof fn law_cells_are_clicked(
    pv: &str,
    camp: &Camp,
    window: &SubBound,
    r: Option<MoveClicks>,
)
    requires
        call_ensures(execute_move, (pv, camp, window), r),
        names_two_cells(pv@),
        window.x + window.w <= 0x10_0000,
        window.y + window.h <= 0x10_0000,
        window.w > 0,
        window.h > 0,
    ensures
        r matches Some(clicks) && {
            &&& in_the_middle(clicks.from.x as int, window.x, window.w, 9, seen_column(*camp, pv@[0]))
            &&& in_the_middle(clicks.from.y as int, window.y, window.h, 10, seen_row(*camp, pv@[1]))
            &&& in_the_middle(clicks.to.x as int, window.x, window.w, 9, seen_column(*camp, pv@[2]))
            &&& in_the_middle(clicks.to.y as int, window.y, window.h, 10, seen_row(*camp, pv@[3]))
        },
{
    lemma_bytes_of_text(pv@);
    lemma_middle_of_cell(window.x, window.w, NINE, 9, seen_column(*camp, pv@[0]));
    lemma_middle_of_cell(window.y, window.h, TEN, 10, seen_row(*camp, pv@[1]));
    lemma_middle_of_cell(window.x, window.w, NINE, 9, seen_column(*camp, pv@[2]));
    lemma_middle_of_cell(window.y, window.h, TEN, 10, seen_row(*camp, pv@[3]));
}

/// A move is not made just if its text takes fewer than four bytes, or the board
/// has no width or no height.
pub proof fn law_when_nothing_is_clicked(
    pv: &str,
    camp: &Camp,
    window: &SubBound,
    r: Option<MoveClicks>,
)
    requires
        call_ensures(execute_move, (pv, camp, window), r),
    ensures
        r is None <==> encode_utf8(pv@).len() < 4 || window.w == 0 || window.h == 0,
{
}

/// Black clicks where red clicks for the same move seen from the other side.
pub proof fn law_sides_are_opposite(
    pv: &str,
    other: &str,
    red: &Camp,
    black: &Camp,
    window: &SubBound,
    of_black: Option<MoveClicks>,
    of_red: Option<MoveClicks>,
)
    requires
        *red == Camp::Red,
        *black == Camp::Black,
        call_ensures(execute_move, (pv, black, window), of_black),
        call_ensures(execute_move, (other, red, window), of_red),
        names_two_cells(pv@),
        names_two_cells(other@),
        other@[0] as int + pv@[0] as int == 'a' as int + 'i' as int,
        other@[1] as int + pv@[1] as int == '0' as int + '9' as int,
        other@[2] as int + pv@[2] as int == 'a' as int + 'i' as int,
        other@[3] as int + pv@[3] as int == '0' as int + '9' as int,
    ensures
        of_black == of_red,
{
    lemma_bytes_of_text(pv@);
    lemma_bytes_of_text(other@);
    assert(screen_cell(*black, pv@[0], pv@[1]) == screen_cell(*red, other@[0], other@[1]));
    assert(screen_cell(*black, pv@[2], pv@[3]) == screen_cell(*red, other@[2], other@[3]));
}

/// A text can be read as a move just if it is too short to be one, or begins with
/// two cells that the side can see.
pub proof fn law_legible(pv: &str, camp: &Camp, r: bool)
    requires
        call_ensures(is_legible, (pv, camp), r),
    ensures
        encode_utf8(pv@).len() < 4 ==> r,
        encode_utf8(pv@).len() >= 4 && pv@.len() < 4 ==> !r,
        names_two_cells(pv@) ==> r,
        r && encode_utf8(pv@).len() >= 4 && *camp == Camp::Black ==> names_two_cells(pv@),
        r && encode_utf8(pv@).len() >= 4 ==> 'a' <= pv@[0] && pv@[1] <= '9' && 'a' <= pv@[2]
            && pv@[3] <= '9',
{
}

/// A move is written as where it goes from and where it goes to.
pub proof fn law_text(changed: &Changed, r: String)
    requires
        call_ensures(move_text, (changed,), r),
    ensures
        r@ == changed.from@ + changed.to@,
{
}

/// A click lies as far from the corner of the screen as from the corner of its
/// window, and as far again as the window.
pub proof fn law_place_on_screen(
    rect: &RECT,
    x: u32,
    y: u32,
    dx: i32,
    dy: i32,
    r: POINT,
    s: POINT,
)
    requires
        call_ensures(click_screen_pos, (rect, x, y), r),
        call_ensures(screen_pos, (rect, dx, dy), s),
        x <= i32::MAX,
        y <= i32::MAX,
    ensures
        r.x - rect.left == x,
        r.y - rect.top == y,
        s.x - rect.left == dx,
        s.y - rect.top == dy,
{
}

/// A dialogue is clicked away half way across and two thirds down, in a window
/// of two pixels or more each way.
pub proof fn law_dismissal(width: u32, height: u32, r: Option<(u32, u32)>)
    requires
        call_ensures(dismissal_point, (width, height), r),
    ensures
        r is Some <==> width >= 2 && height >= 2,
        r matches Some((x, y)) ==> 2 * x <= width < 2 * x + 2 && 3 * y <= 2 * height < 3 * y + 3,
{
}

/// The gestures of a click, whatever the mouse did before, press and release the
/// button once, on the pixel, and leave the cursor where it was.
pub proof fn law_click(mouse: Mouse, at: POINT, r: Vec<Gesture>)
    requires
        call_ensures(click_gestures, (at, mouse.cursor), r),
        mouse.held is None,
    ensures
        after_gestures(mouse, r@).clicks == mouse.clicks.push(at),
        after_gestures(mouse, r@).cursor == mouse.cursor,
        after_gestures(mouse, r@).held is None,
        r@.len() > 0 && r@[0] is Activate,
{
    lemma_click(mouse, at);
}

/// The gestures of a move click its two pixels, in that order, and leave the
/// cursor where it was.
pub proof fn law_move(mouse: Mouse, from: POINT, to: POINT, r: Vec<Gesture>)
    requires
        call_ensures(move_gestures, (from, to, mouse.cursor), r),
        mouse.held is None,
    ensures
        after_gestures(mouse, r@).clicks == mouse.clicks.push(from).push(to),
        after_gestures(mouse, r@).cursor == mouse.cursor,
        after_gestures(mouse, r@).held is None,
        r@.len() > 0 && r@[0] is Activate,
{
    lemma_move(mouse, from, to);
}

/// What happens over time: how many milliseconds have passed, whether the window
/// is in front, where the cursor is, when and where it was put, and when and where
/// the button was pressed and released.
pub struct Film {
    pub clock: int,
    pub in_front: bool,
    pub cursor: POINT,
    pub put: Seq<(int, POINT)>,
    pub pressed: Seq<(int, POINT)>,
    pub released: Seq<(int, POINT)>,
}

/// The film after a gesture. Nothing is pressed while the window is not in front.
pub open spec fn filmed(film: Film, gesture: Gesture) -> Film {
    match gesture {
        Gesture::Activate => Film { in_front: true, ..film },
        Gesture::Pause { millis } => Film { clock: film.clock + millis, ..film },
        Gesture::Point { at } => Film { cursor: at, put: film.put.push((film.clock, at)), ..film },
        Gesture::Press => if film.in_front {
            Film { pressed: film.pressed.push((film.clock, film.cursor)), ..film }
        } else {
            film
        },
        Gesture::Release => Film {
            released: film.released.push((film.clock, film.cursor)),
            ..film
        },
    }
}

pub open spec fn film_of(film: Film, gestures: Seq<Gesture>) -> Film
    decreases gestures.len(),
{
    if gestures.len() == 0 {
        film
    } else {
        filmed(film_of(film, gestures.drop_last()), gestures.last())
    }
}

proof fn lemma_film_grows(film: Film, gestures: Seq<Gesture>, n: int)
    requires
        0 < n <= gestures.len(),
    ensures
        film_of(film, gestures.take(n)) == filmed(
            film_of(film, gestures.take(n - 1)),
            gestures[n - 1],
        ),
{
    assert(gestures.take(n).drop_last() =~= gestures.take(n - 1));
}

/// A click brings the window to the front, waits 150 milliseconds, puts the
/// cursor on the pixel, presses after 100 more, releases after 100 more, and
/// gives the cursor back after 50 more.
pub proof fn law_click_over_time(film: Film, at: POINT, home: POINT, r: Vec<Gesture>)
    requires
        call_ensures(click_gestures, (at, home), r),
    ensures
        film_of(film, r@).clock == film.clock + 400,
        film_of(film, r@).cursor == home,
        film_of(film, r@).put == film.put + seq![
            (film.clock + 150, at),
            (film.clock + 250, at),
            (film.clock + 350, at),
            (film.clock + 400, home),
        ],
        film_of(film, r@).pressed == film.pressed.push((film.clock + 250, at)),
        film_of(film, r@).released == film.released.push((film.clock + 350, at)),
{
    let s = r@;
    assert(s.len() == 11);
    assert(s.take(0) =~= Seq::<Gesture>::empty());
    assert(s.take(11) =~= s);
    lemma_film_grows(film, s, 1);
    lemma_film_grows(film, s, 2);
    lemma_film_grows(film, s, 3);
    lemma_film_grows(film, s, 4);
    lemma_film_grows(film, s, 5);
    lemma_film_grows(film, s, 6);
    lemma_film_grows(film, s, 7);
    lemma_film_grows(film, s, 8);
    lemma_film_grows(film, s, 9);
    lemma_film_grows(film, s, 10);
    lemma_film_grows(film, s, 11);
    assert(film_of(film, s).put =~= film.put + seq![
        (film.clock + 150, at),
        (film.clock + 250, at),
        (film.clock + 350, at),
        (film.clock + 400, home),
    ]);
}

/// A move brings the window to the front and waits 150 milliseconds. It puts the
/// cursor on each of the two pixels, presses after 150 more and releases after 100
/// more, with 300 between the two. It gives the cursor back after 50 more.
pub proof fn law_move_over_time(film: Film, from: POINT, to: POINT, home: POINT, r: Vec<Gesture>)
    requires
        call_ensures(move_gestures, (from, to, home), r),
    ensures
        film_of(film, r@).clock == film.clock + 1000,
        film_of(film, r@).cursor == home,
        film_of(film, r@).put == film.put + seq![
            (film.clock + 150, from),
            (film.clock + 300, from),
            (film.clock + 400, from),
            (film.clock + 700, to),
            (film.clock + 850, to),
            (film.clock + 950, to),
            (film.clock + 1000, home),
        ],
        film_of(film, r@).pressed == film.pressed.push((film.clock + 300, from)).push(
            (film.clock + 850, to),
        ),
        film_of(film, r@).released == film.released.push((film.clock + 400, from)).push(
            (film.clock + 950, to),
        ),
{
    let s = r@;
    assert(s.len() == 19);
    assert(s.take(0) =~= Seq::<Gesture>::empty());
    assert(s.take(19) =~= s);
    lemma_film_grows(film, s, 1);
    lemma_film_grows(film, s, 2);
    lemma_film_grows(film, s, 3);
    lemma_film_grows(film, s, 4);
    lemma_film_grows(film, s, 5);
    lemma_film_grows(film, s, 6);
    lemma_film_grows(film, s, 7);
    lemma_film_grows(film, s, 8);
    lemma_film_grows(film, s, 9);
    lemma_film_grows(film, s, 10);
    lemma_film_grows(film, s, 11);
    lemma_film_grows(film, s, 12);
    lemma_film_grows(film, s, 13);
    lemma_film_grows(film, s, 14);
    lemma_film_grows(film, s, 15);
    lemma_film_grows(film, s, 16);
    lemma_film_grows(film, s, 17);
    lemma_film_grows(film, s, 18);
    lemma_film_grows(film, s, 19);
    assert(film_of(film, s).put =~= film.put + seq![
        (film.clock + 150, from),
        (film.clock + 300, from),
        (film.clock + 400, from),
        (film.clock + 700, to),
        (film.clock + 850, to),
        (film.clock + 950, to),
        (film.clock + 1000, home),
    ]);
}

} // verus!
