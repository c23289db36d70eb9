//! What the buttons are looked for by, said of the samples of the picture.
use crate::buttons::{
    arrow_region, block_sum, blue_in, button_region, centre, check_play_again_btn,
    check_rank_up_back_btn, columns, count, find_button, gold_in, green_in, ground_in, hundredth,
    is_hundredth, lemma_hundredths, lemma_part_monotone, lemma_part_within, ones, part, region_sum,
    row_sum, rows, scan_green_button_in_region, Button, Region, P02, P15, P45, P55, P72, P78, P80,
    P89, P90, P93, P98,
};
use crate::frame::Frame;
use crate::rounding::{lemma_nearest_exact, lemma_nearest_monotone, lemma_nearest_near, nearest};
use crate::single::{
    bits_value, int_value, lemma_int_exact, lemma_nearest_zero, less, product, quotient, Value,
};
use vstd::arithmetic::power2::{
    lemma2_to64, lemma_pow2_adds, lemma_pow2_pos, lemma_pow2_strictly_increases, pow2,
};
use vstd::prelude::*;
use vstd::set_lib::lemma_set_disjoint_lens;

verus! {

/// Red, green and blue of a pixel: the first three of its four samples, the
/// pixels being stored row by row.
pub open spec fn colour(frame: Frame, x: int, y: int, channel: int) -> u8 {
    frame.samples()[(y * frame.width() + x) * 4 + channel]
}

/// The pixels of a part of the screen that have a property.
pub open spec fn pixels(
    x0: u32,
    x1: u32,
    y0: u32,
    y1: u32,
    has: spec_fn(int, int) -> bool,
) -> Set<(int, int)> {
    Set::new(|p: (int, int)| x0 <= p.0 < x1 && y0 <= p.1 < y1 && has(p.0, p.1))
}

/// Green: well above red, and even more above blue.
pub open spec fn green(frame: Frame) -> spec_fn(int, int) -> bool {
    |x: int, y: int|
        {
            let (r, g, b) = (colour(frame, x, y, 0), colour(frame, x, y, 1), colour(frame, x, y, 2));
            g >= 66 && g - r >= 27 && g - b >= 46
        }
}

/// Gold: bright in red and green, red hardly below green, and blue hardly above
/// red, if it is above at all.
pub open spec fn gold(frame: Frame) -> spec_fn(int, int) -> bool {
    |x: int, y: int|
        {
            let (r, g, b) = (colour(frame, x, y, 0), colour(frame, x, y, 1), colour(frame, x, y, 2));
            r >= 116 && g >= 106 && g - r <= 9 && b - r <= 14 && b <= 254
        }
}

/// Dark blue, and not gold.
pub open spec fn blue(frame: Frame) -> spec_fn(int, int) -> bool {
    |x: int, y: int|
        {
            let (r, g, b) = (colour(frame, x, y, 0), colour(frame, x, y, 1), colour(frame, x, y, 2));
            b - r >= 41 && b - g >= 41 && !gold(frame)(x, y)
        }
}

pub open spec fn not_gold(frame: Frame) -> spec_fn(int, int) -> bool {
    |x: int, y: int| !gold(frame)(x, y)
}

/// Whether `end` is so many hundredths of `length`, give or take two pixels, on a
/// screen of up to `2^20` pixels along a side.
pub open spec fn share(length: u32, hundredths: int, end: u32) -> bool {
    length <= 0x10_0000 ==> hundredths * length - 200 < 100 * end < hundredths * length + 100
}

proof fn lemma_row_pixels(p: spec_fn(int, int) -> bool, y: int, x0: int, x1: int)
    requires
        x0 <= x1,
    ensures
        ({
            let row = Set::new(|q: (int, int)| x0 <= q.0 < x1 && q.1 == y && p(q.0, q.1));
            row.finite() && row.len() == row_sum(ones(p), y, x0, x1)
        }),
    decreases x1 - x0,
{
    let row = Set::new(|q: (int, int)| x0 <= q.0 < x1 && q.1 == y && p(q.0, q.1));
    if x0 == x1 {
        assert(row =~= Set::<(int, int)>::empty());
    } else {
        lemma_row_pixels(p, y, x0, x1 - 1);
        let before = Set::new(|q: (int, int)| x0 <= q.0 < x1 - 1 && q.1 == y && p(q.0, q.1));
        if p(x1 - 1, y) {
            assert(row =~= before.insert((x1 - 1, y)));
        } else {
            assert(row =~= before);
        }
    }
}

proof fn lemma_block_pixels(p: spec_fn(int, int) -> bool, x0: int, x1: int, y0: int, y1: int)
    requires
        x0 <= x1,
        y0 <= y1,
    ensures
        ({
            let block = Set::new(|q: (int, int)| x0 <= q.0 < x1 && y0 <= q.1 < y1 && p(q.0, q.1));
            block.finite() && block.len() == block_sum(ones(p), x0, x1, y0, y1)
        }),
    decreases y1 - y0,
{
    let block = Set::new(|q: (int, int)| x0 <= q.0 < x1 && y0 <= q.1 < y1 && p(q.0, q.1));
    if y0 == y1 {
        assert(block =~= Set::<(int, int)>::empty());
    } else {
        lemma_block_pixels(p, x0, x1, y0, y1 - 1);
        lemma_row_pixels(p, y1 - 1, x0, x1);
        let before = Set::new(
            |q: (int, int)| x0 <= q.0 < x1 && y0 <= q.1 < y1 - 1 && p(q.0, q.1),
        );
        let row = Set::new(|q: (int, int)| x0 <= q.0 < x1 && q.1 == y1 - 1 && p(q.0, q.1));
        assert(block =~= before + row);
        assert(before.disjoint(row));
        lemma_set_disjoint_lens(before, row);
    }
}

/// To count the pixels is to find out how many there are.
proof fn lemma_count_is_size(p: spec_fn(int, int) -> bool, region: Region)
    requires
        region.ordered(),
    ensures
        ({
            let all = pixels(region.x_start, region.x_end, region.y_start, region.y_end, p);
            all.finite() && all.len() == count(p, region)
        }),
{
    lemma_block_pixels(
        p,
        region.x_start as int,
        region.x_end as int,
        region.y_start as int,
        region.y_end as int,
    );
    let all = pixels(region.x_start, region.x_end, region.y_start, region.y_end, p);
    assert(all =~= Set::new(
        |q: (int, int)|
            region.x_start <= q.0 < region.x_end && region.y_start <= q.1 < region.y_end && p(
                q.0,
                q.1,
            ),
    ));
}

/// A part that is measured out lies where its hundredths say.
proof fn lemma_share(n: u32, fraction: u32, k: int, r: u32)
    requires
        is_hundredth(fraction),
        k * 0x2000_0000 - 1600 <= 100 * hundredth(fraction) <= k * 0x2000_0000 + 1600,
        0 < k < 100,
        r == part(n, fraction),
    ensures
        share(n, k, r),
{
    if n <= 0x10_0000 {
        let u = pow2(149) as int;
        let z = pow2(120) as int;
        let h = hundredth(fraction);
        let c = h * z;
        lemma_hundredths(fraction);
        lemma2_to64();
        lemma_pow2_adds(120, 29);
        lemma_pow2_pos(120);
        lemma_int_exact(n as int);
        let x = n * u;
        let p = x * c;
        assert(0 <= p && 0 <= x) by (nonlinear_arith)
            requires
                x == n * u,
                p == x * c,
                c == h * z,
                0 <= n,
                0 < h,
                0 < z,
                u == 0x2000_0000 * z,
        ;
        lemma_nearest_near(p, u);
        let v = nearest(p, u);
        // The product, in units of the fraction's own scale.
        let t = n * h;
        assert(v * 0x100_0000 <= t * z * 0x100_0001 + 0x80_0000 && v * 0x100_0000 >= t * z
            * 0xff_ffff - 0x80_0000) by (nonlinear_arith)
            requires
                v * u * 0x100_0000 <= p * 0x100_0001 + u * 0x80_0000,
                v * u * 0x100_0000 >= p * 0xff_ffff - u * 0x80_0000,
                p == n * u * (h * z),
                t == n * h,
                u > 0,
        {
            assert(p == u * (t * z));
            assert(v * u * 0x100_0000 == u * (v * 0x100_0000));
            assert(p * 0x100_0001 + u * 0x80_0000 == u * (t * z * 0x100_0001 + 0x80_0000));
            assert(p * 0xff_ffff - u * 0x80_0000 == u * (t * z * 0xff_ffff - 0x80_0000));
        }
        let m = k * n;
        assert(m * 0x2000_0000 - 1600 * n <= 100 * t <= m * 0x2000_0000 + 1600 * n)
            by (nonlinear_arith)
            requires
                t == n * h,
                m == k * n,
                k * 0x2000_0000 - 1600 <= 100 * h <= k * 0x2000_0000 + 1600,
                n >= 0,
        ;
        let tz = t * z;
        let mz = m * z;
        let nz = n * z;
        assert(mz * 0x2000_0000 - 1600 * nz <= 100 * tz <= mz * 0x2000_0000 + 1600 * nz && nz
            <= 0x10_0000 * z && mz <= 99 * nz && 0 <= mz && 0 <= nz) by (nonlinear_arith)
            requires
                tz == t * z,
                mz == m * z,
                nz == n * z,
                m == k * n,
                m * 0x2000_0000 - 1600 * n <= 100 * t <= m * 0x2000_0000 + 1600 * n,
                0 <= n <= 0x10_0000,
                0 < k < 100,
                z > 0,
        ;
        lemma_pow2_adds(64, 56);
        lemma_pow2_pos(56);
        assert(z >= 0x1_0000_0000_0000_0000) by (nonlinear_arith)
            requires
                z == 0x1_0000_0000_0000_0000 * pow2(56),
                pow2(56) > 0,
        ;
        assert(100 * v <= mz * 0x2000_0000 + 40 * u && 100 * v >= mz * 0x2000_0000 - 40 * u);
        assert(v < 0x100_0000 * u);
        lemma_pow2_adds(24, 149);
        lemma_pow2_strictly_increases(173, 277);
        assert(product(int_value(n as int), bits_value(fraction)) == Value::Finite(v));
        let q = v / u;
        assert(q * u <= v < (q + 1) * u && 0 <= q < 0x100_0000) by (nonlinear_arith)
            requires
                q == v / u,
                0 <= v < 0x100_0000 * u,
                u > 0,
        ;
        assert(q == r);
        assert(mz * 0x2000_0000 == m * u) by (nonlinear_arith)
            requires
                mz == m * z,
                u == 0x2000_0000 * z,
        ;
        assert(m - 200 < 100 * q < m + 100) by (nonlinear_arith)
            requires
                q * u <= v < (q + 1) * u,
                100 * v <= m * u + 40 * u,
                100 * v >= m * u - 40 * u,
                u > 0,
        ;
    }
}

proof fn lemma_colours(frame: Frame)
    ensures
        green_in(frame) == green(frame),
        gold_in(frame) == gold(frame),
        ground_in(frame) == not_gold(frame),
        blue_in(frame) == blue(frame),
{
    assert(green_in(frame) =~= green(frame));
    assert(gold_in(frame) =~= gold(frame));
    assert(ground_in(frame) =~= not_gold(frame));
    assert(blue_in(frame) =~= blue(frame));
}

/// Whether `(x, y)` is the mean place of the pixels that have a property, each
/// coordinate without what is left behind the point.
pub open spec fn is_mean(
    x: u32,
    y: u32,
    has: spec_fn(int, int) -> bool,
    region: Region,
) -> bool {
    let n = pixels(region.x_start, region.x_end, region.y_start, region.y_end, has).len();
    &&& n * x <= region_sum(columns(has), region) < n * (x + 1)
    &&& n * y <= region_sum(rows(has), region) < n * (y + 1)
}

proof fn lemma_mean_place(p: spec_fn(int, int) -> bool, region: Region, x: u32, y: u32)
    requires
        region.ordered(),
        count(p, region) > 0,
        centre(p, region) == (x as int, y as int),
    ensures
        is_mean(x, y, p, region),
{
    lemma_count_is_size(p, region);
    let n = count(p, region);
    let sx = region_sum(columns(p), region);
    let sy = region_sum(rows(p), region);
    assert(n * x <= sx < n * (x + 1)) by (nonlinear_arith)
        requires
            x == sx / n,
            n > 0,
    ;
    assert(n * y <= sy < n * (y + 1)) by (nonlinear_arith)
        requires
            y == sy / n,
            n > 0,
    ;
}

proof fn lemma_row_one_more(
    f: spec_fn(int, int) -> int,
    g: spec_fn(int, int) -> int,
    y: int,
    x0: int,
    x1: int,
    a: int,
    b: int,
)
    requires
        forall|x: int| x0 <= x < x1 && (x != a || y != b) ==> #[trigger] f(x, y) == g(x, y),
    ensures
        row_sum(f, y, x0, x1) == row_sum(g, y, x0, x1) + if y == b && x0 <= a < x1 {
            f(a, b) - g(a, b)
        } else {
            0
        },
    decreases x1 - x0,
{
    if x0 < x1 {
        lemma_row_one_more(f, g, y, x0, x1 - 1, a, b);
        if x1 - 1 != a || y != b {
            assert(f(x1 - 1, y) == g(x1 - 1, y));
        }
    }
}

proof fn lemma_block_one_more(
    f: spec_fn(int, int) -> int,
    g: spec_fn(int, int) -> int,
    x0: int,
    x1: int,
    y0: int,
    y1: int,
    a: int,
    b: int,
)
    requires
        forall|x: int, y: int|
            x0 <= x < x1 && y0 <= y < y1 && (x != a || y != b) ==> #[trigger] f(x, y) == g(x, y),
        x0 <= a < x1,
    ensures
        block_sum(f, x0, x1, y0, y1) == block_sum(g, x0, x1, y0, y1) + if y0 <= b < y1 {
            f(a, b) - g(a, b)
        } else {
            0
        },
    decreases y1 - y0,
{
    if y0 < y1 {
        lemma_block_one_more(f, g, x0, x1, y0, y1 - 1, a, b);
        lemma_row_one_more(f, g, y1 - 1, x0, x1, a, b);
    }
}

/// The sums that a mean is made of grow by the place of each pixel that is added,
/// and are zero without any.
pub proof fn law_sum_of_places(
    more: spec_fn(int, int) -> bool,
    less_one: spec_fn(int, int) -> bool,
    region: Region,
    a: int,
    b: int,
)
    requires
        region.x_start <= a < region.x_end,
        region.y_start <= b < region.y_end,
        forall|x: int, y: int|
            region.x_start <= x < region.x_end && region.y_start <= y < region.y_end && (x != a || y
                != b) ==> #[trigger] more(x, y) == less_one(x, y),
        more(a, b),
        !less_one(a, b),
    ensures
        region_sum(columns(more), region) == region_sum(columns(less_one), region) + a,
        region_sum(rows(more), region) == region_sum(rows(less_one), region) + b,
        region_sum(columns(|x: int, y: int| false), region) == 0,
        region_sum(rows(|x: int, y: int| false), region) == 0,
{
    let x0 = region.x_start as int;
    let x1 = region.x_end as int;
    let y0 = region.y_start as int;
    let y1 = region.y_end as int;
    assert forall|x: int, y: int|
        x0 <= x < x1 && y0 <= y < y1 && (x != a || y != b) implies #[trigger] columns(more)(x, y)
        == columns(less_one)(x, y) by {
        assert(more(x, y) == less_one(x, y));
    }
    assert forall|x: int, y: int|
        x0 <= x < x1 && y0 <= y < y1 && (x != a || y != b) implies #[trigger] rows(more)(x, y)
        == rows(less_one)(x, y) by {
        assert(more(x, y) == less_one(x, y));
    }
    lemma_block_one_more(columns(more), columns(less_one), x0, x1, y0, y1, a, b);
    lemma_block_one_more(rows(more), rows(less_one), x0, x1, y0, y1, a, b);
    lemma_block_zero(columns(|x: int, y: int| false), x0, x1, y0, y1);
    lemma_block_zero(rows(|x: int, y: int| false), x0, x1, y0, y1);
}

proof fn lemma_row_zero(f: spec_fn(int, int) -> int, y: int, x0: int, x1: int)
    requires
        forall|x: int, y: int| #[trigger] f(x, y) == 0,
    ensures
        row_sum(f, y, x0, x1) == 0,
    decreases x1 - x0,
{
    if x0 < x1 {
        lemma_row_zero(f, y, x0, x1 - 1);
    }
}

proof fn lemma_block_zero(f: spec_fn(int, int) -> int, x0: int, x1: int, y0: int, y1: int)
    requires
        forall|x: int, y: int| #[trigger] f(x, y) == 0,
    ensures
        block_sum(f, x0, x1, y0, y1) == 0,
    decreases y1 - y0,
{
    if y0 < y1 {
        lemma_block_zero(f, x0, x1, y0, y1 - 1);
        lemma_row_zero(f, y1 - 1, x0, x1);
    }
}

/// A green button is found in the rows just if more than 100 pixels, and more
/// than a twentieth of all, are green between 45 and 55 hundredths of the width.
/// It is clicked at their mean place.
pub proof fn law_green_button(
    frame: &Frame,
    y_start: u32,
    y_end: u32,
    r: Option<(u32, u32)>,
) -> (region: Region)
    requires
        call_ensures(scan_green_button_in_region, (frame, y_start, y_end), r),
        y_start <= y_end <= frame.height(),
    ensures
        share(frame.width(), 45, region.x_start),
        share(frame.width(), 55, region.x_end),
        region.x_start <= region.x_end <= frame.width(),
        region.y_start == y_start,
        region.y_end == y_end,
        ({
            let n = pixels(region.x_start, region.x_end, y_start, y_end, green(*frame)).len();
            &&& r is Some <==> n > 100 && n > (region.x_end - region.x_start) * (y_end - y_start)
                / 20
            &&& r matches Some((x, y)) ==> is_mean(x, y, green(*frame), region)
        }),
{
    let width = frame.width();
    let region = button_region(width, y_start as int, y_end as int);
    lemma_part_within(width, P45);
    lemma_part_within(width, P55);
    lemma_part_monotone(width, P45, P55);
    lemma_share(width, P45, 45, region.x_start);
    lemma_share(width, P55, 55, region.x_end);
    lemma_colours(*frame);
    lemma_count_is_size(green(*frame), region);
    if let Some((x, y)) = r {
        lemma_mean_place(green(*frame), region, x, y);
    }
    region
}

/// The offer to play again is the green button of the rows from 72 to 78
/// hundredths of the height or, if there is none, of those from 89 to 93.
pub proof fn law_play_again(
    frame: &Frame,
    r: Option<(u32, u32)>,
    upper: Option<(u32, u32)>,
    lower: Option<(u32, u32)>,
) -> (at: (u32, u32, u32, u32))
    requires
        call_ensures(check_play_again_btn, (frame,), r),
    ensures
        share(frame.height(), 72, at.0),
        share(frame.height(), 78, at.1),
        share(frame.height(), 89, at.2),
        share(frame.height(), 93, at.3),
        at.0 <= at.1 <= frame.height(),
        at.2 <= at.3 <= frame.height(),
        frame.width() == 0 || frame.height() == 0 ==> r is None,
        frame.width() > 0 && frame.height() > 0 && call_ensures(
            scan_green_button_in_region,
            (frame, at.0, at.1),
            upper,
        ) && call_ensures(scan_green_button_in_region, (frame, at.2, at.3), lower) ==> r == if upper
            is Some {
            upper
        } else {
            lower
        },
{
    let height = frame.height();
    lemma_part_within(height, P72);
    lemma_part_within(height, P78);
    lemma_part_within(height, P89);
    lemma_part_within(height, P93);
    lemma_part_monotone(height, P72, P78);
    lemma_part_monotone(height, P89, P93);
    let at = (
        part(height, P72) as u32,
        part(height, P78) as u32,
        part(height, P89) as u32,
        part(height, P93) as u32,
    );
    lemma_share(height, P72, 72, at.0);
    lemma_share(height, P78, 78, at.1);
    lemma_share(height, P89, 89, at.2);
    lemma_share(height, P93, 93, at.3);
    at
}

/// More than four fifths in single precision is more than four fifths.
proof fn lemma_four_fifths(n: int, all: int)
    requires
        0 <= n <= all,
        0 < all <= 0x100_0000,
    ensures
        5 * n <= 4 * all ==> !less(bits_value(P80), quotient(int_value(n), int_value(all))),
        all <= 0x10_0000 && 5 * n > 4 * all ==> less(
            bits_value(P80),
            quotient(int_value(n), int_value(all)),
        ),
{
    let u = pow2(149) as int;
    let z = pow2(120) as int;
    let e = pow2(125) as int;
    lemma_hundredths(P80);
    lemma_int_exact(n);
    lemma_int_exact(all);
    lemma2_to64();
    lemma_pow2_adds(120, 29);
    lemma_pow2_adds(120, 5);
    lemma_pow2_adds(125, 24);
    lemma_pow2_pos(120);
    lemma_pow2_strictly_increases(149, 277);
    let d = all * u;
    let x = n * u * u;
    assert(0 < d && 0 <= x && x * 1 <= u * d && n * u >= 0) by (nonlinear_arith)
        requires
            d == all * u,
            x == n * u * u,
            0 <= n <= all,
            0 < all,
            0 < u,
    ;
    let q = nearest(x, d);
    lemma_nearest_zero(d);
    lemma_nearest_monotone(0, d, x, d);
    lemma_nearest_exact(1, 149, 1);
    assert(1 * u * 1 == u);
    lemma_nearest_monotone(x, d, u, 1);
    assert(quotient(int_value(n), int_value(all)) == Value::Finite(q));
    assert(0xcc_cccdint * 32 * z == 0xcc_cccdint * e);
    if 5 * n <= 4 * all {
        lemma_nearest_exact(0xcc_cccd, 125, 1);
        assert(0xcc_cccdint * e * 1 == 0xcc_cccdint * e);
        assert(x * 1 <= 0xcc_cccdint * e * d) by (nonlinear_arith)
            requires
                x == n * u * u,
                d == all * u,
                5 * n <= 4 * all,
                u == e * 0x100_0000,
                e > 0,
                all > 0,
                n >= 0,
        {
            assert(n * u <= 0xcc_cccdint * e * all) by {
                assert(n * 0x100_0000 <= 0xcc_cccd * all);
                assert(e * (n * 0x100_0000) <= e * (0xcc_cccd * all));
            }
            assert(u * (n * u) <= u * (0xcc_cccdint * e * all));
        }
        lemma_nearest_monotone(x, d, 0xcc_cccdint * e, 1);
    }
    if all <= 0x10_0000 && 5 * n > 4 * all {
        lemma_nearest_exact(0xcc_ccce, 125, 1);
        assert(0xcc_ccceint * e * 1 == 0xcc_ccceint * e);
        assert(0xcc_ccceint * e * d <= x * 1) by (nonlinear_arith)
            requires
                x == n * u * u,
                d == all * u,
                5 * n >= 4 * all + 1,
                u == e * 0x100_0000,
                e > 0,
                0 < all <= 0x10_0000,
        {
            assert(n * u >= 0xcc_ccceint * e * all) by {
                assert(n * 0x100_0000 >= 0xcc_ccce * all);
                assert(e * (n * 0x100_0000) >= e * (0xcc_ccce * all));
            }
            assert(u * (n * u) >= u * (0xcc_ccceint * e * all));
        }
        lemma_nearest_monotone(0xcc_ccceint * e, 1, x, d);
    }
}

/// The arrow that leads back is found in the corner from 2 to 15 hundredths of
/// the width and from 90 to 98 of the height. It takes 200 pixels of gold or more,
/// and more than four fifths of the others have to be dark blue. It is clicked at
/// the mean place of the gold.
pub proof fn law_back_arrow(frame: &Frame, r: Option<(u32, u32)>) -> (region: Region)
    requires
        call_ensures(check_rank_up_back_btn, (frame,), r),
    ensures
        share(frame.width(), 2, region.x_start),
        share(frame.width(), 15, region.x_end),
        share(frame.height(), 90, region.y_start),
        share(frame.height(), 98, region.y_end),
        region.x_start <= region.x_end <= frame.width(),
        region.y_start <= region.y_end <= frame.height(),
        ({
            let (x0, x1) = (region.x_start, region.x_end);
            let (y0, y1) = (region.y_start, region.y_end);
            let arrow = pixels(x0, x1, y0, y1, gold(*frame)).len();
            let others = pixels(x0, x1, y0, y1, not_gold(*frame)).len();
            let dark = pixels(x0, x1, y0, y1, blue(*frame)).len();
            &&& others <= 0x10_0000 ==> (r is Some <==> arrow >= 200 && 5 * dark > 4 * others)
            &&& others <= 0x100_0000 && r is Some ==> arrow >= 200 && 5 * dark > 4 * others
            &&& r matches Some((x, y)) ==> is_mean(x, y, gold(*frame), region)
        }),
{
    let width = frame.width();
    let height = frame.height();
    let region = arrow_region(*frame);
    lemma_part_within(width, P02);
    lemma_part_within(width, P15);
    lemma_part_within(height, P90);
    lemma_part_within(height, P98);
    lemma_part_monotone(width, P02, P15);
    lemma_part_monotone(height, P90, P98);
    lemma_share(width, P02, 2, region.x_start);
    lemma_share(width, P15, 15, region.x_end);
    lemma_share(height, P90, 90, region.y_start);
    lemma_share(height, P98, 98, region.y_end);
    lemma_colours(*frame);
    lemma_count_is_size(gold(*frame), region);
    lemma_count_is_size(not_gold(*frame), region);
    lemma_count_is_size(blue(*frame), region);
    let (x0, x1) = (region.x_start, region.x_end);
    let (y0, y1) = (region.y_start, region.y_end);
    let others = pixels(x0, x1, y0, y1, not_gold(*frame));
    let dark = pixels(x0, x1, y0, y1, blue(*frame));
    assert(dark.subset_of(others));
    vstd::set_lib::lemma_len_subset(dark, others);
    if 0 < others.len() <= 0x100_0000 {
        lemma_four_fifths(dark.len() as int, others.len() as int);
    }
    if others.len() == 0 {
        lemma_hundredths(P80);
        lemma_pow2_pos(120);
        assert(hundredth(P80) * pow2(120) > 0) by (nonlinear_arith)
            requires
                hundredth(P80) > 0,
                pow2(120) > 0,
        ;
    }
    if count(gold(*frame), region) >= 200 {
        assert(width > 0 && height > 0) by {
            if width == 0 || height == 0 {
                assert(pixels(x0, x1, y0, y1, gold(*frame)) =~= Set::<(int, int)>::empty());
            }
        }
    }
    if let Some((x, y)) = r {
        lemma_mean_place(gold(*frame), region, x, y);
    }
    region
}

/// What is looked for on a screen is the arrow that leads back and then the offer
/// to play again, and it is clicked where it is.
pub proof fn law_button(
    frame: &Frame,
    r: Option<Button>,
    back: Option<(u32, u32)>,
    again: Option<(u32, u32)>,
)
    requires
        call_ensures(find_button, (frame,), r),
        call_ensures(check_rank_up_back_btn, (frame,), back),
        call_ensures(check_play_again_btn, (frame,), again),
    ensures
        match (back, again) {
            (Some((x, y)), _) => r == Some(Button::Back { x, y }),
            (None, Some((x, y))) => r == Some(Button::PlayAgain { x, y }),
            (None, None) => r is None,
        },
{
}

} // verus!
