//! Finding the buttons that end a game's result screens, by the colours of
//! their pixels.
use crate::frame::Frame;
use crate::rounding::{lemma_nearest_exact, lemma_nearest_monotone, nearest};
use crate::single::{
    bits_value, bounded, int_value, lemma_int_value, lemma_nearest_zero, less, product, quotient,
    whole, Single, Value,
};
use vstd::arithmetic::div_mod::{lemma_div_by_multiple, lemma_div_is_ordered};
use vstd::arithmetic::power2::{
    lemma2_to64, lemma_pow2_adds, lemma_pow2_pos, lemma_pow2_strictly_increases, pow2,
};
use vstd::prelude::*;

verus! {

/// The bits of the single-precision numbers nearest to the hundredths by which
/// the parts of the screen are measured out; see `lemma_hundredths`.
pub const P02: u32 = 0x3ca3_d70a;

pub const P15: u32 = 0x3e19_999a;

pub const P45: u32 = 0x3ee6_6666;

pub const P55: u32 = 0x3f0c_cccd;

pub const P72: u32 = 0x3f38_51ec;

pub const P78: u32 = 0x3f47_ae14;

pub const P80: u32 = 0x3f4c_cccd;

pub const P89: u32 = 0x3f63_d70a;

pub const P90: u32 = 0x3f66_6666;

pub const P93: u32 = 0x3f6e_147b;

pub const P98: u32 = 0x3f7a_e148;

/// Where a hundredth lies: a multiple of `2^-29`, written as that multiple.
pub open spec fn hundredth(bits: u32) -> int {
    if bits == P02 {
        0xa3_d70a
    } else if bits == P15 {
        0x99_999aint * 8
    } else if bits == P45 {
        0xe6_6666int * 16
    } else if bits == P55 {
        0x8c_cccdint * 32
    } else if bits == P72 {
        0xb8_51ecint * 32
    } else if bits == P78 {
        0xc7_ae14int * 32
    } else if bits == P80 {
        0xcc_cccdint * 32
    } else if bits == P89 {
        0xe3_d70aint * 32
    } else if bits == P90 {
        0xe6_6666int * 32
    } else if bits == P93 {
        0xee_147bint * 32
    } else {
        0xfa_e148int * 32
    }
}

pub open spec fn is_hundredth(bits: u32) -> bool {
    ||| bits == P02
    ||| bits == P15
    ||| bits == P45
    ||| bits == P55
    ||| bits == P72
    ||| bits == P78
    ||| bits == P80
    ||| bits == P89
    ||| bits == P90
    ||| bits == P93
    ||| bits == P98
}

/// What the constants stand for.
pub proof fn lemma_hundredths(bits: u32)
    requires
        is_hundredth(bits),
    ensures
        bits_value(bits) == Value::Finite(hundredth(bits) * pow2(120)),
        0 < hundredth(bits) <= 0xfa_e148 * 32,
{
    lemma2_to64();
    lemma_pow2_adds(120, 3);
    lemma_pow2_adds(120, 4);
    lemma_pow2_adds(120, 5);
    let x = pow2(120) as int;
    assert(pow2(123) == 8 * x && pow2(124) == 16 * x && pow2(125) == 32 * x);
    let (significand, rest): (int, int) = if bits == P02 {
        (0xa3_d70a, 1)
    } else if bits == P15 {
        (0x99_999a, 8)
    } else if bits == P45 {
        (0xe6_6666, 16)
    } else {
        (0x80_0000 + bits as int % 0x80_0000, 32)
    };
    assert(significand * rest == hundredth(bits));
    assert(significand * (rest * x) == (significand * rest) * x) by (nonlinear_arith);
    assert(bits_value(bits) == Value::Finite(significand * (rest * x)));
}

/// The part of `n` that a fraction cuts off, in single precision, without what
/// is left behind the point.
pub open spec fn part(n: u32, fraction: u32) -> int {
    whole(product(int_value(n as int), bits_value(fraction)), u32::MAX as int)
}

fn part_of(n: u32, fraction: u32) -> (r: u32)
    ensures
        r == part(n, fraction),
{
    Single::from_u32(n).mul(Single::from_bits(fraction)).to_u32()
}

/// A greater fraction cuts off no less.
pub proof fn lemma_part_monotone(n: u32, a: u32, b: u32)
    requires
        is_hundredth(a),
        is_hundredth(b),
        hundredth(a) <= hundredth(b),
    ensures
        part(n, a) <= part(n, b),
{
    lemma_hundredths(a);
    lemma_hundredths(b);
    lemma_int_value(n as int);
    lemma_pow2_pos(120);
    let u = pow2(149) as int;
    let z = pow2(120) as int;
    let x = nearest(n * u, 1);
    let p = x * (hundredth(a) * z);
    let q = x * (hundredth(b) * z);
    assert(0 <= p <= q) by (nonlinear_arith)
        requires
            p == x * (hundredth(a) * z),
            q == x * (hundredth(b) * z),
            0 <= x,
            0 < z,
            0 < hundredth(a) <= hundredth(b),
    ;
    assert(p * u <= q * u) by (nonlinear_arith)
        requires
            p <= q,
            0 < u,
    ;
    lemma_nearest_monotone(p, u, q, u);
    lemma_nearest_zero(u);
    lemma_nearest_monotone(0, u, p, u);
    lemma_div_is_ordered(nearest(p, u), nearest(q, u), u);
    lemma_div_is_ordered(0, nearest(p, u), u);
}

/// A fraction cuts off no more than there is.
pub proof fn lemma_part_within(n: u32, fraction: u32)
    requires
        is_hundredth(fraction),
    ensures
        0 <= part(n, fraction) <= n,
{
    lemma_hundredths(fraction);
    lemma_int_value(n as int);
    lemma2_to64();
    lemma_pow2_pos(120);
    lemma_pow2_adds(120, 29);
    let u = pow2(149) as int;
    let z = pow2(120) as int;
    let x = nearest(n * u, 1);
    let c = hundredth(fraction) * z;
    let p = x * c;
    assert(u == 0x2000_0000 * z);
    // A whole number of at most n, exact in single precision, that the product
    // does not exceed.
    let y: int = if n < 0x100_0000 {
        n as int
    } else {
        (n / 512) * 512
    };
    assert(0 <= p <= (y * u) * u) by {
        if n < 0x100_0000 {
            lemma_nearest_exact(n as int, 149, 1);
            assert(x == n * u);
            assert(0 <= c <= u) by (nonlinear_arith)
                requires
                    c == hundredth(fraction) * z,
                    u == 0x2000_0000 * z,
                    0 < hundredth(fraction) <= 0xfa_e148 * 32,
                    0 < z,
            ;
            assert(0 <= p <= (y * u) * u) by (nonlinear_arith)
                requires
                    p == x * c,
                    x == n * u,
                    y == n,
                    0 <= c <= u,
                    0 <= n,
                    0 < u,
            ;
        } else {
            let m = (n / 512) as int;
            lemma_pow2_adds(149, 9);
            lemma_nearest_exact(m + 1, 158, 1);
            assert(n * u <= (m + 1) * pow2(158)) by (nonlinear_arith)
                requires
                    n <= (m + 1) * 512,
                    pow2(158) == u * 512,
                    0 < u,
            ;
            assert(0 <= n * u) by (nonlinear_arith)
                requires
                    0 <= n,
                    0 < u,
            ;
            lemma_nearest_monotone(n * u, 1, (m + 1) * pow2(158) * 1, 1);
            assert(x <= (y + 512) * u) by (nonlinear_arith)
                requires
                    x <= (m + 1) * pow2(158),
                    pow2(158) == u * 512,
                    y == m * 512,
            ;
            let h = hundredth(fraction);
            assert((y + 512) * h <= y * 0x2000_0000) by (nonlinear_arith)
                requires
                    0 < h <= 0xfa_e148 * 32,
                    y >= 0x100_0000 - 512,
            ;
            assert(0 <= p <= (y * u) * u) by (nonlinear_arith)
                requires
                    p == x * c,
                    c == h * z,
                    u == 0x2000_0000 * z,
                    0 <= x <= (y + 512) * u,
                    (y + 512) * h <= y * 0x2000_0000,
                    0 < h,
                    0 < z,
            ;
        }
    }
    let r = nearest(p, u);
    assert(0 <= r <= y * u) by {
        lemma_nearest_zero(u);
        assert(0 <= p * u) by (nonlinear_arith)
            requires
                0 <= p,
                0 < u,
        ;
        lemma_nearest_monotone(0, u, p, u);
        let q = (y * u) * u;
        assert(p * u <= q * u) by (nonlinear_arith)
            requires
                p <= q,
                0 < u,
        ;
        lemma_nearest_monotone(p, u, q, u);
        if n < 0x100_0000 {
            lemma_nearest_exact(y, 149, u);
        } else {
            let m = (n / 512) as int;
            lemma_pow2_adds(149, 9);
            lemma_nearest_exact(m, 158, u);
            assert(m * pow2(158) == y * u) by (nonlinear_arith)
                requires
                    pow2(158) == u * 512,
                    y == m * 512,
            ;
        }
    }
    lemma_div_by_multiple(y, u);
    lemma_div_is_ordered(r, y * u, u);
    lemma_div_is_ordered(0, r, u);
    assert(y <= n);
    assert(p >= 0);
    assert(product(int_value(n as int), bits_value(fraction)) == bounded(false, r));
    lemma_pow2_adds(149, 32);
    lemma_pow2_strictly_increases(181, 277);
    assert(y * u <= 0x1_0000_0000 * u) by (nonlinear_arith)
        requires
            y <= 0x1_0000_0000,
            0 < u,
    ;
}

/// A part of the screen: the pixels from the starts up to, and without, the
/// ends.
pub struct Region {
    pub x_start: u32,
    pub x_end: u32,
    pub y_start: u32,
    pub y_end: u32,
}

impl Region {
    pub open spec fn ordered(self) -> bool {
        self.x_start <= self.x_end && self.y_start <= self.y_end
    }

    pub open spec fn within(self, frame: Frame) -> bool {
        self.ordered() && self.x_end <= frame.width() && self.y_end <= frame.height()
    }

    pub open spec fn area(self) -> int {
        (self.x_end - self.x_start) * (self.y_end - self.y_start)
    }
}

/// The sum of `f` over the pixels of row `y` from `x0` up to `x1`.
pub open spec fn row_sum(f: spec_fn(int, int) -> int, y: int, x0: int, x1: int) -> int
    decreases x1 - x0,
{
    if x1 <= x0 {
        0
    } else {
        row_sum(f, y, x0, x1 - 1) + f(x1 - 1, y)
    }
}

/// The sum of `f` over the pixels of the rows from `y0` up to `y1`.
pub open spec fn block_sum(
    f: spec_fn(int, int) -> int,
    x0: int,
    x1: int,
    y0: int,
    y1: int,
) -> int
    decreases y1 - y0,
{
    if y1 <= y0 {
        0
    } else {
        block_sum(f, x0, x1, y0, y1 - 1) + row_sum(f, y1 - 1, x0, x1)
    }
}

/// One for each pixel with the property.
pub open spec fn ones(p: spec_fn(int, int) -> bool) -> spec_fn(int, int) -> int {
    |x: int, y: int|
        if p(x, y) {
            1
        } else {
            0
        }
}

/// The column of each pixel with the property.
pub open spec fn columns(p: spec_fn(int, int) -> bool) -> spec_fn(int, int) -> int {
    |x: int, y: int|
        if p(x, y) {
            x
        } else {
            0
        }
}

/// The row of each pixel with the property.
pub open spec fn rows(p: spec_fn(int, int) -> bool) -> spec_fn(int, int) -> int {
    |x: int, y: int|
        if p(x, y) {
            y
        } else {
            0
        }
}

pub open spec fn region_sum(f: spec_fn(int, int) -> int, region: Region) -> int {
    block_sum(
        f,
        region.x_start as int,
        region.x_end as int,
        region.y_start as int,
        region.y_end as int,
    )
}

/// How many pixels of the region have the property.
pub open spec fn count(p: spec_fn(int, int) -> bool, region: Region) -> int {
    region_sum(ones(p), region)
}

/// The mean place of the pixels of the region that have the property, each
/// coordinate without what is left behind the point.
pub open spec fn centre(p: spec_fn(int, int) -> bool, region: Region) -> (int, int)
    recommends
        count(p, region) > 0,
{
    (
        region_sum(columns(p), region) / count(p, region),
        region_sum(rows(p), region) / count(p, region),
    )
}

/// Whether a pixel has the green of a button.
pub open spec fn is_green(r: u8, g: u8, b: u8) -> bool {
    g > 65 && g > r + 26 && g > b + 45
}

/// Whether a pixel has the gold of the arrow that leads back.
pub open spec fn is_gold(r: u8, g: u8, b: u8) -> bool {
    &&& r > 115
    &&& g > 105
    &&& r > g - 10
    &&& r > b - 15
    &&& b < r + 15
    &&& b < 255
}

/// Whether a pixel has the dark blue that lies behind that arrow.
pub open spec fn is_blue(r: u8, g: u8, b: u8) -> bool {
    b > r + 40 && b > g + 40
}

pub open spec fn green_in(frame: Frame) -> spec_fn(int, int) -> bool {
    |x: int, y: int| is_green(frame.sample(x, y, 0), frame.sample(x, y, 1), frame.sample(x, y, 2))
}

pub open spec fn gold_in(frame: Frame) -> spec_fn(int, int) -> bool {
    |x: int, y: int| is_gold(frame.sample(x, y, 0), frame.sample(x, y, 1), frame.sample(x, y, 2))
}

/// What is not of the arrow.
pub open spec fn ground_in(frame: Frame) -> spec_fn(int, int) -> bool {
    |x: int, y: int| !gold_in(frame)(x, y)
}

/// What is not of the arrow, and dark blue.
pub open spec fn blue_in(frame: Frame) -> spec_fn(int, int) -> bool {
    |x: int, y: int|
        ground_in(frame)(x, y) && is_blue(
            frame.sample(x, y, 0),
            frame.sample(x, y, 1),
            frame.sample(x, y, 2),
        )
}

proof fn lemma_row_bounds(p: spec_fn(int, int) -> bool, y: int, x0: int, x1: int)
    requires
        x0 <= x1,
    ensures
        0 <= row_sum(ones(p), y, x0, x1) <= x1 - x0,
        row_sum(ones(p), y, x0, x1) * x0 <= row_sum(columns(p), y, x0, x1),
        row_sum(columns(p), y, x0, x1) <= row_sum(ones(p), y, x0, x1) * (x1 - 1),
        row_sum(rows(p), y, x0, x1) == row_sum(ones(p), y, x0, x1) * y,
    decreases x1 - x0,
{
    if x0 < x1 {
        lemma_row_bounds(p, y, x0, x1 - 1);
        let n = row_sum(ones(p), y, x0, x1 - 1);
        assert(n * (x1 - 2) <= n * (x1 - 1)) by (nonlinear_arith)
            requires
                0 <= n,
        ;
        assert((n + 1) * x0 == n * x0 + x0 && (n + 1) * (x1 - 1) == n * (x1 - 1) + (x1 - 1) && (n + 1)
            * y == n * y + y) by (nonlinear_arith);
    }
}

proof fn lemma_block_bounds(
    p: spec_fn(int, int) -> bool,
    x0: int,
    x1: int,
    y0: int,
    y1: int,
)
    requires
        x0 <= x1,
        y0 <= y1,
    ensures
        0 <= block_sum(ones(p), x0, x1, y0, y1) <= (x1 - x0) * (y1 - y0),
        block_sum(ones(p), x0, x1, y0, y1) * x0 <= block_sum(columns(p), x0, x1, y0, y1),
        block_sum(columns(p), x0, x1, y0, y1) <= block_sum(ones(p), x0, x1, y0, y1) * (x1 - 1),
        block_sum(ones(p), x0, x1, y0, y1) * y0 <= block_sum(rows(p), x0, x1, y0, y1),
        block_sum(rows(p), x0, x1, y0, y1) <= block_sum(ones(p), x0, x1, y0, y1) * (y1 - 1),
    decreases y1 - y0,
{
    if y0 < y1 {
        lemma_block_bounds(p, x0, x1, y0, y1 - 1);
        lemma_row_bounds(p, y1 - 1, x0, x1);
        let n = block_sum(ones(p), x0, x1, y0, y1 - 1);
        let k = row_sum(ones(p), y1 - 1, x0, x1);
        assert((n + k) * x0 == n * x0 + k * x0 && (n + k) * (x1 - 1) == n * (x1 - 1) + k * (x1 - 1))
            by (nonlinear_arith);
        assert((n + k) * y0 <= n * y0 + k * (y1 - 1)) by (nonlinear_arith)
            requires
                0 <= k,
                y0 <= y1 - 1,
        ;
        assert(n * (y1 - 2) + k * (y1 - 1) <= (n + k) * (y1 - 1)) by (nonlinear_arith)
            requires
                0 <= n,
        ;
        assert((x1 - x0) * (y1 - y0) == (x1 - x0) * (y1 - 1 - y0) + (x1 - x0)) by (nonlinear_arith);
    } else {
        assert((x1 - x0) * (y1 - y0) == 0) by (nonlinear_arith)
            requires
                y1 == y0,
        ;
    }
}

/// The mean place of some pixels of a region lies in the region.
pub proof fn lemma_centre_within(p: spec_fn(int, int) -> bool, region: Region)
    requires
        region.ordered(),
        count(p, region) > 0,
    ensures
        region.x_start <= centre(p, region).0 < region.x_end,
        region.y_start <= centre(p, region).1 < region.y_end,
{
    lemma_block_bounds(
        p,
        region.x_start as int,
        region.x_end as int,
        region.y_start as int,
        region.y_end as int,
    );
    let n = count(p, region);
    let sx = region_sum(columns(p), region);
    let sy = region_sum(rows(p), region);
    lemma_mean(sx, n, region.x_start as int, region.x_end - 1);
    lemma_mean(sy, n, region.y_start as int, region.y_end - 1);
}

proof fn lemma_mean(s: int, n: int, low: int, high: int)
    requires
        n > 0,
        n * low <= s <= n * high,
    ensures
        low <= s / n <= high,
{
    assert(low <= s / n) by (nonlinear_arith)
        requires
            n > 0,
            n * low <= s,
    ;
    assert(s / n <= high) by (nonlinear_arith)
        requires
            n > 0,
            s <= n * high,
    ;
}

/// How many pixels were marked, and where they lie all together.
struct Tally {
    count: u64,
    sum_x: u128,
    sum_y: u128,
}

impl Tally {
    spec fn bounded(self) -> bool {
        &&& self.sum_x <= self.count * 0xffff_ffff
        &&& self.sum_y <= self.count * 0xffff_ffff
    }

    fn mark(&mut self, x: u32, y: u32)
        requires
            old(self).bounded(),
            old(self).count < u64::MAX,
        ensures
            final(self).bounded(),
            final(self).count == old(self).count + 1,
            final(self).sum_x == old(self).sum_x + x,
            final(self).sum_y == old(self).sum_y + y,
    {
        self.count = self.count + 1;
        self.sum_x = self.sum_x + x as u128;
        self.sum_y = self.sum_y + y as u128;
    }

    /// The mean place of the pixels that were marked.
    fn centre(&self, Ghost(p): Ghost<spec_fn(int, int) -> bool>, region: &Region) -> (r: (u32, u32))
        requires
            region.ordered(),
            self.count == count(p, *region),
            self.sum_x == region_sum(columns(p), *region),
            self.sum_y == region_sum(rows(p), *region),
            self.count > 0,
        ensures
            (r.0 as int, r.1 as int) == centre(p, *region),
    {
        proof {
            lemma_centre_within(p, *region);
        }
        ((self.sum_x / self.count as u128) as u32, (self.sum_y / self.count as u128) as u32)
    }
}

/// The middle of what is green in a region, where that is more than a twentieth
/// of it and more than 100 pixels.
pub open spec fn green_button(frame: Frame, region: Region) -> Option<(int, int)> {
    let n = count(green_in(frame), region);
    if n > 100 && n > region.area() / 20 {
        Some(centre(green_in(frame), region))
    } else {
        None
    }
}

/// The part of the screen that may hold a green button: a tenth of its width,
/// in the middle.
pub open spec fn button_region(width: u32, y_start: int, y_end: int) -> Region {
    Region {
        x_start: part(width, P45) as u32,
        x_end: part(width, P55) as u32,
        y_start: y_start as u32,
        y_end: y_end as u32,
    }
}

/// Looks for a green button in the middle of the rows from `y_start` up to
/// `y_end`.
pub fn scan_green_button_in_region(frame: &Frame, y_start: u32, y_end: u32) -> (r: Option<(u32, u32)>)
    requires
        y_start <= y_end <= frame.height(),
    ensures
        match r {
            Some((x, y)) => green_button(
                *frame,
                button_region(frame.width(), y_start as int, y_end as int),
            ) == Some((x as int, y as int)),
            None => green_button(
                *frame,
                button_region(frame.width(), y_start as int, y_end as int),
            ) is None,
        },
{
    let x_start: u32 = part_of(frame.width(), P45);
    let x_end: u32 = part_of(frame.width(), P55);
    proof {
        lemma_part_within(frame.width(), P55);
        lemma_part_monotone(frame.width(), P45, P55);
    }
    let region = Region { x_start, x_end, y_start, y_end };
    let tally = tally_green(frame, &region);
    proof {
        let w = region.x_end - region.x_start;
        let h = region.y_end - region.y_start;
        assert(0 <= w * h <= 0xffff_ffff * 0xffff_ffff) by (nonlinear_arith)
            requires
                0 <= w <= 0xffff_ffff,
                0 <= h <= 0xffff_ffff,
        ;
    }
    let area: u64 = (x_end - x_start) as u64 * (y_end - y_start) as u64;
    if tally.count > 100 && tally.count > area / 20 {
        Some(tally.centre(Ghost(green_in(*frame)), &region))
    } else {
        None
    }
}

fn tally_green(frame: &Frame, region: &Region) -> (tally: Tally)
    requires
        region.within(*frame),
    ensures
        tally.count == count(green_in(*frame), *region),
        tally.sum_x == region_sum(columns(green_in(*frame)), *region),
        tally.sum_y == region_sum(rows(green_in(*frame)), *region),
{
    let ghost p = green_in(*frame);
    let ghost x0 = region.x_start as int;
    let ghost x1 = region.x_end as int;
    let ghost y0 = region.y_start as int;
    let mut tally = Tally { count: 0, sum_x: 0, sum_y: 0 };
    let mut y: u32 = region.y_start;
    while y < region.y_end
        invariant
            region.within(*frame),
            p == green_in(*frame),
            x0 == region.x_start,
            x1 == region.x_end,
            y0 == region.y_start,
            region.y_start <= y <= region.y_end,
            tally.bounded(),
            tally.count == block_sum(ones(p), x0, x1, y0, y as int),
            tally.sum_x == block_sum(columns(p), x0, x1, y0, y as int),
            tally.sum_y == block_sum(rows(p), x0, x1, y0, y as int),
        decreases region.y_end - y,
    {
        proof {
            lemma_block_room(p, *region, y as int);
        }
        let mut x: u32 = region.x_start;
        while x < region.x_end
            invariant
                region.within(*frame),
                p == green_in(*frame),
                x0 == region.x_start,
                x1 == region.x_end,
                y0 == region.y_start,
                region.y_start <= y < region.y_end,
                region.x_start <= x <= region.x_end,
                tally.bounded(),
                block_sum(ones(p), x0, x1, y0, y as int) + (x1 - x0) <= u64::MAX,
                row_sum(ones(p), y as int, x0, x as int) <= x - x0,
                tally.count == block_sum(ones(p), x0, x1, y0, y as int) + row_sum(
                    ones(p),
                    y as int,
                    x0,
                    x as int,
                ),
                tally.sum_x == block_sum(columns(p), x0, x1, y0, y as int) + row_sum(
                    columns(p),
                    y as int,
                    x0,
                    x as int,
                ),
                tally.sum_y == block_sum(rows(p), x0, x1, y0, y as int) + row_sum(
                    rows(p),
                    y as int,
                    x0,
                    x as int,
                ),
            decreases region.x_end - x,
        {
            let (r, g, b): (u8, u8, u8) = frame.rgb(x, y);
            let green = g > 65 && g > r.saturating_add(26) && g > b.saturating_add(45);
            assert(green == p(x as int, y as int));
            if green {
                tally.mark(x, y);
            }
            x = x + 1;
        }
        y = y + 1;
    }
    tally
}

/// There is room to count one row more.
proof fn lemma_block_room(p: spec_fn(int, int) -> bool, region: Region, y: int)
    requires
        region.ordered(),
        region.y_start <= y < region.y_end,
    ensures
        0 <= block_sum(
            ones(p),
            region.x_start as int,
            region.x_end as int,
            region.y_start as int,
            y,
        ) <= u64::MAX - (region.x_end - region.x_start),
{
    lemma_block_bounds(p, region.x_start as int, region.x_end as int, region.y_start as int, y);
    let w = region.x_end - region.x_start;
    let h = y - region.y_start;
    assert(w * h + w <= 0xffff_ffff * 0xffff_ffff) by (nonlinear_arith)
        requires
            0 <= w <= 0xffff_ffff,
            0 <= h,
            h + 1 <= 0xffff_ffff,
    ;
}

/// The button that a frame shows: the one of the dialogue, at 72 to 78
/// hundredths of the height, or else the one at the bottom, at 89 to 93.
pub open spec fn play_again_button(frame: Frame) -> Option<(int, int)> {
    let height = frame.height();
    if frame.width() == 0 || height == 0 {
        None
    } else {
        let dialogue = green_button(
            frame,
            button_region(frame.width(), part(height, P72), part(height, P78)),
        );
        if dialogue is Some {
            dialogue
        } else {
            green_button(
                frame,
                button_region(frame.width(), part(height, P89), part(height, P93)),
            )
        }
    }
}

/// Where to click to play again, if the screen offers that.
pub fn check_play_again_btn(frame: &Frame) -> (r: Option<(u32, u32)>)
    ensures
        match r {
            Some((x, y)) => play_again_button(*frame) == Some((x as int, y as int)),
            None => play_again_button(*frame) is None,
        },
{
    let width: u32 = frame.width();
    let height: u32 = frame.height();
    if width == 0 || height == 0 {
        return None;
    }
    proof {
        lemma_part_within(height, P78);
        lemma_part_within(height, P93);
        lemma_part_monotone(height, P72, P78);
        lemma_part_monotone(height, P89, P93);
    }
    let dialogue = scan_green_button_in_region(frame, part_of(height, P72), part_of(height, P78));
    if dialogue.is_some() {
        return dialogue;
    }
    scan_green_button_in_region(frame, part_of(height, P89), part_of(height, P93))
}

/// The part of the screen that may hold the arrow that leads back: the lower
/// left corner.
pub open spec fn arrow_region(frame: Frame) -> Region {
    Region {
        x_start: part(frame.width(), P02) as u32,
        x_end: part(frame.width(), P15) as u32,
        y_start: part(frame.height(), P90) as u32,
        y_end: part(frame.height(), P98) as u32,
    }
}

/// How much of the ground behind the arrow is blue.
pub open spec fn blue_ratio(blue: int, ground: int) -> Value {
    if ground > 0 {
        quotient(int_value(blue), int_value(ground))
    } else {
        Value::Finite(0)
    }
}

/// The arrow that a frame shows: 200 pixels of gold or more, on a ground of
/// which more than four fifths are blue.
pub open spec fn rank_up_button(frame: Frame) -> Option<(int, int)> {
    let region = arrow_region(frame);
    let ratio = blue_ratio(count(blue_in(frame), region), count(ground_in(frame), region));
    if frame.width() > 0 && frame.height() > 0 && count(gold_in(frame), region) >= 200 && less(
        bits_value(P80),
        ratio,
    ) {
        Some(centre(gold_in(frame), region))
    } else {
        None
    }
}

/// The pixels of the corner, sorted by colour.
struct Sorted {
    gold: Tally,
    ground: u64,
    blue: u64,
}

fn sort_pixels(frame: &Frame, region: &Region) -> (sorted: Sorted)
    requires
        region.within(*frame),
    ensures
        sorted.gold.count == count(gold_in(*frame), *region),
        sorted.gold.sum_x == region_sum(columns(gold_in(*frame)), *region),
        sorted.gold.sum_y == region_sum(rows(gold_in(*frame)), *region),
        sorted.ground == count(ground_in(*frame), *region),
        sorted.blue == count(blue_in(*frame), *region),
{
    let ghost p = gold_in(*frame);
    let ghost q = ground_in(*frame);
    let ghost s = blue_in(*frame);
    let ghost x0 = region.x_start as int;
    let ghost x1 = region.x_end as int;
    let ghost y0 = region.y_start as int;
    let mut gold = Tally { count: 0, sum_x: 0, sum_y: 0 };
    let mut ground: u64 = 0;
    let mut blue: u64 = 0;
    let mut y: u32 = region.y_start;
    while y < region.y_end
        invariant
            region.within(*frame),
            p == gold_in(*frame),
            q == ground_in(*frame),
            s == blue_in(*frame),
            x0 == region.x_start,
            x1 == region.x_end,
            y0 == region.y_start,
            region.y_start <= y <= region.y_end,
            gold.bounded(),
            gold.count == block_sum(ones(p), x0, x1, y0, y as int),
            gold.sum_x == block_sum(columns(p), x0, x1, y0, y as int),
            gold.sum_y == block_sum(rows(p), x0, x1, y0, y as int),
            ground == block_sum(ones(q), x0, x1, y0, y as int),
            blue == block_sum(ones(s), x0, x1, y0, y as int),
        decreases region.y_end - y,
    {
        proof {
            lemma_block_room(p, *region, y as int);
            lemma_block_room(q, *region, y as int);
            lemma_block_room(s, *region, y as int);
        }
        let mut x: u32 = region.x_start;
        while x < region.x_end
            invariant
                region.within(*frame),
                p == gold_in(*frame),
                q == ground_in(*frame),
                s == blue_in(*frame),
                x0 == region.x_start,
                x1 == region.x_end,
                y0 == region.y_start,
                region.y_start <= y < region.y_end,
                region.x_start <= x <= region.x_end,
                gold.bounded(),
                block_sum(ones(p), x0, x1, y0, y as int) + (x1 - x0) <= u64::MAX,
                block_sum(ones(q), x0, x1, y0, y as int) + (x1 - x0) <= u64::MAX,
                block_sum(ones(s), x0, x1, y0, y as int) + (x1 - x0) <= u64::MAX,
                row_sum(ones(p), y as int, x0, x as int) <= x - x0,
                row_sum(ones(q), y as int, x0, x as int) <= x - x0,
                row_sum(ones(s), y as int, x0, x as int) <= x - x0,
                gold.count == block_sum(ones(p), x0, x1, y0, y as int) + row_sum(
                    ones(p),
                    y as int,
                    x0,
                    x as int,
                ),
                gold.sum_x == block_sum(columns(p), x0, x1, y0, y as int) + row_sum(
                    columns(p),
                    y as int,
                    x0,
                    x as int,
                ),
                gold.sum_y == block_sum(rows(p), x0, x1, y0, y as int) + row_sum(
                    rows(p),
                    y as int,
                    x0,
                    x as int,
                ),
                ground == block_sum(ones(q), x0, x1, y0, y as int) + row_sum(
                    ones(q),
                    y as int,
                    x0,
                    x as int,
                ),
                blue == block_sum(ones(s), x0, x1, y0, y as int) + row_sum(
                    ones(s),
                    y as int,
                    x0,
                    x as int,
                ),
            decreases region.x_end - x,
        {
            let (r, g, b): (u8, u8, u8) = frame.rgb(x, y);
            let arrow = r > 115 && g > 105 && r > g.saturating_sub(10) && r > b.saturating_sub(15)
                && b < r.saturating_add(15);
            assert(arrow == p(x as int, y as int));
            if arrow {
                gold.mark(x, y);
            } else {
                ground = ground + 1;
                if b > r.saturating_add(40) && b > g.saturating_add(40) {
                    blue = blue + 1;
                }
            }
            x = x + 1;
        }
        y = y + 1;
    }
    Sorted { gold, ground, blue }
}

/// Where to click to leave the screen that announces a new rank, if it is shown.
pub fn check_rank_up_back_btn(frame: &Frame) -> (r: Option<(u32, u32)>)
    ensures
        match r {
            Some((x, y)) => rank_up_button(*frame) == Some((x as int, y as int)),
            None => rank_up_button(*frame) is None,
        },
{
    let width: u32 = frame.width();
    let height: u32 = frame.height();
    if width == 0 || height == 0 {
        return None;
    }
    proof {
        lemma_part_within(width, P15);
        lemma_part_within(height, P98);
        lemma_part_monotone(width, P02, P15);
        lemma_part_monotone(height, P90, P98);
    }
    let region = Region {
        x_start: part_of(width, P02),
        x_end: part_of(width, P15),
        y_start: part_of(height, P90),
        y_end: part_of(height, P98),
    };
    let sorted = sort_pixels(frame, &region);
    let ratio = if sorted.ground > 0 {
        proof {
            lemma_int_value(sorted.ground as int);
        }
        Single::from_u64(sorted.blue).div(Single::from_u64(sorted.ground))
    } else {
        Single::from_bits(0)
    };
    if sorted.gold.count >= 200 && Single::from_bits(P80).lt(ratio) {
        Some(sorted.gold.centre(Ghost(gold_in(*frame)), &region))
    } else {
        None
    }
}

/// A button that leads out of a finished game, and where to click it.
#[derive(Clone, Copy, Debug, PartialEq, Eq, Structural)]
pub enum Button {
    /// The arrow that leads back from the announcement of a new rank.
    Back { x: u32, y: u32 },
    /// The offer to play again.
    PlayAgain { x: u32, y: u32 },
}

/// The button that a frame shows; the arrow that leads back comes first.
pub open spec fn button_on(frame: Frame) -> Option<Button> {
    if let Some((x, y)) = rank_up_button(frame) {
        Some(Button::Back { x: x as u32, y: y as u32 })
    } else if let Some((x, y)) = play_again_button(frame) {
        Some(Button::PlayAgain { x: x as u32, y: y as u32 })
    } else {
        None
    }
}

/// Looks for a button that leads out of a finished game.
pub fn find_button(frame: &Frame) -> (r: Option<Button>)
    ensures
        r == button_on(*frame),
{
    if let Some((x, y)) = check_rank_up_back_btn(frame) {
        return Some(Button::Back { x, y });
    }
    if let Some((x, y)) = check_play_again_btn(frame) {
        return Some(Button::PlayAgain { x, y });
    }
    None
}

/// Where both are shown, the arrow that leads back is clicked and not the offer
/// to play again.
pub proof fn lemma_back_comes_first(frame: Frame)
    ensures
        button_on(frame) is Some <==> rank_up_button(frame) is Some || play_again_button(
            frame,
        ) is Some,
        rank_up_button(frame) is Some ==> button_on(frame)->0 is Back,
        rank_up_button(frame) is None && button_on(frame) is Some ==> button_on(
            frame,
        )->0 is PlayAgain,
{
}

/// The click for a button lies on the screen.
pub proof fn lemma_button_within(frame: Frame)
    ensures
        match button_on(frame) {
            Some(Button::Back { x, y }) => x < frame.width() && y < frame.height(),
            Some(Button::PlayAgain { x, y }) => x < frame.width() && y < frame.height(),
            None => true,
        },
{
    let width = frame.width();
    let height = frame.height();
    lemma_part_within(width, P02);
    lemma_part_within(width, P15);
    lemma_part_within(width, P45);
    lemma_part_within(width, P55);
    lemma_part_within(height, P72);
    lemma_part_within(height, P78);
    lemma_part_within(height, P89);
    lemma_part_within(height, P90);
    lemma_part_within(height, P93);
    lemma_part_within(height, P98);
    lemma_part_monotone(width, P02, P15);
    lemma_part_monotone(width, P45, P55);
    lemma_part_monotone(height, P72, P78);
    lemma_part_monotone(height, P89, P93);
    lemma_part_monotone(height, P90, P98);
    let arrow = arrow_region(frame);
    let dialogue = button_region(width, part(height, P72), part(height, P78));
    let bottom = button_region(width, part(height, P89), part(height, P93));
    if count(gold_in(frame), arrow) > 0 {
        lemma_centre_within(gold_in(frame), arrow);
    }
    if count(green_in(frame), dialogue) > 0 {
        lemma_centre_within(green_in(frame), dialogue);
    }
    if count(green_in(frame), bottom) > 0 {
        lemma_centre_within(green_in(frame), bottom);
    }
}

} // verus!
