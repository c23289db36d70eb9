//! Where the board is on the screen, in the geometry of real numbers: what is
//! computed in single precision lies within a few pixels of it.
use crate::bound_laws::{first_outline_at, lemma_all_pieces, lemma_first_is_chosen, Found};
use crate::common::{
    detections_bound, greatest_of, has_outline, least_of, lemma_constants, middles_x, middles_y,
    midpoint, outline_span, piece_bound, piece_span, scale, widened_span, Detection, ModelSize,
    EIGHT, HALF, NINE, TWO, ZERO,
};
use crate::readings::doubled_middle;
use crate::rounding::{lemma_nearest_monotone, lemma_nearest_near, nearest};
use crate::single::{
    bits_value, difference, greater_of, int_value, lemma_int_exact, less, lesser_of, magnitude, product,
    quotient, rounded, sum, whole, Single, Value,
};
use vstd::arithmetic::power2::{
    lemma2_to64, lemma_pow2_adds, lemma_pow2_pos, lemma_pow2_strictly_increases, pow2,
};
use vstd::prelude::*;

verus! {

/// Whether a stretch of pixels is what two lines of a board stand for, `a` and
/// `b` on the detector's image, in units: half a gap between lines more on either
/// side, scaled to the screen, and cut off at its ends. The start may be two
/// pixels off, the end five.
pub open spec fn stretch(
    start: int,
    length: int,
    a: int,
    b: int,
    gaps: int,
    origin: u32,
    model: u32,
) -> bool {
    let pixel = 2 * gaps * model * pow2(149);
    let from = (2 * gaps * a - (b - a)) * origin;
    let to = (2 * gaps * b + (b - a)) * origin;
    let low = if from < 0 {
        0
    } else {
        from
    };
    let high = if to < origin * pixel {
        to
    } else {
        origin * pixel
    };
    &&& low - 2 * pixel <= start * pixel <= low + 2 * pixel
    &&& high - 5 * pixel <= (start + length) * pixel <= high + 5 * pixel
}

proof fn lemma_unit()
    ensures
        pow2(149) >= 0x1_0000_0000_0000_0000,
        pow2(173) == 0x100_0000 * pow2(149),
        pow2(173) < pow2(277),
{
    lemma2_to64();
    lemma_pow2_adds(64, 85);
    lemma_pow2_pos(85);
    lemma_pow2_adds(24, 149);
    lemma_pow2_strictly_increases(173, 277);
    assert(pow2(149) >= 0x1_0000_0000_0000_0000) by (nonlinear_arith)
        requires
            pow2(149) == 0x1_0000_0000_0000_0000 * pow2(85),
            pow2(85) > 0,
    ;
}

/// Rounding moves a number by no more than a part in `2^24` of it.
proof fn lemma_rounded(n: int)
    requires
        -0x40_0000 * pow2(149) <= n <= 0x40_0000 * pow2(149),
    ensures
        rounded(n, 1) matches Value::Finite(v) && (v - n) * 0x100_0000 <= magnitude(n) + 0x80_0000
            && (n - v) * 0x100_0000 <= magnitude(n) + 0x80_0000 && (n >= 0 ==> v >= 0) && (n <= 0
            ==> v <= 0),
{
    lemma_unit();
    let m = magnitude(n);
    lemma_nearest_near(m, 1);
    let k = nearest(m, 1);
    assert(k < pow2(173));
}

/// The same of a division by a small number.
proof fn lemma_divided(z: int, d: int, bits: u32)
    requires
        -0x40_0000 * pow2(149) <= z <= 0x40_0000 * pow2(149),
        2 <= d <= 9,
        bits_value(bits) == Value::Finite(d * pow2(149)),
    ensures
        quotient(Value::Finite(z), bits_value(bits)) matches Value::Finite(y) && (y * d - z)
            * 0x100_0000 <= magnitude(z) + d * 0x80_0000 && (z - y * d) * 0x100_0000 <= magnitude(z)
            + d * 0x80_0000 && (z >= 0 ==> y >= 0) && (z <= 0 ==> y <= 0),
{
    lemma_unit();
    let u = pow2(149) as int;
    let m = magnitude(z);
    let dd = d * u;
    assert(dd > 0 && 0 <= m * u) by (nonlinear_arith)
        requires
            dd == d * u,
            d > 0,
            u > 0,
            m >= 0,
    ;
    lemma_nearest_near(m * u, dd);
    let k = nearest(m * u, dd);
    assert(k * d * 0x100_0000 <= m * 0x100_0001 + d * 0x80_0000 && k * d * 0x100_0000 >= m
        * 0xff_ffff - d * 0x80_0000) by (nonlinear_arith)
        requires
            k * dd * 0x100_0000 <= m * u * 0x100_0001 + dd * 0x80_0000,
            k * dd * 0x100_0000 >= m * u * 0xff_ffff - dd * 0x80_0000,
            dd == d * u,
            u > 0,
    {
        assert(k * dd * 0x100_0000 == u * (k * d * 0x100_0000));
        assert(m * u * 0x100_0001 + dd * 0x80_0000 == u * (m * 0x100_0001 + d * 0x80_0000));
        assert(m * u * 0xff_ffff - dd * 0x80_0000 == u * (m * 0xff_ffff - d * 0x80_0000));
    }
    let kd = k * d;
    assert(k <= kd) by (nonlinear_arith)
        requires
            kd == k * d,
            d >= 1,
            k >= 0,
    ;
    assert(k < pow2(173));
    assert((-k) * d == -kd) by (nonlinear_arith)
        requires
            kd == k * d,
    ;
    if z == 0 {
        assert(kd * 0x100_0000 <= d * 0x80_0000);
        assert(k == 0) by (nonlinear_arith)
            requires
                k * d * 0x100_0000 <= d * 0x80_0000,
                d > 0,
                k >= 0,
        ;
    }
}

proof fn lemma_scale(origin: u32, model: u32)
    requires
        origin <= 0x10_0000,
        0 < model <= 0x10_0000,
    ensures
        scale(origin, model) matches Value::Finite(s) && s >= 0 && s * model * 0x100_0000 <= origin
            * pow2(149) * 0x100_0001 + model * 0x80_0000 && s * model * 0x100_0000 >= origin
            * pow2(149) * 0xff_ffff - model * 0x80_0000,
{
    lemma_unit();
    let u = pow2(149) as int;
    let w = origin as int;
    let m = model as int;
    lemma_int_exact(w);
    lemma_int_exact(m);
    let x = w * u;
    let d = m * u;
    assert(0 <= x && 0 <= x * u && 0 < d && x <= 0x10_0000 * u) by (nonlinear_arith)
        requires
            x == w * u,
            d == m * u,
            0 <= w <= 0x10_0000,
            0 < m,
            0 < u,
    ;
    lemma_nearest_near(x * u, d);
    let s = nearest(x * u, d);
    assert(s * m * 0x100_0000 <= x * 0x100_0001 + m * 0x80_0000 && s * m * 0x100_0000 >= x
        * 0xff_ffff - m * 0x80_0000) by (nonlinear_arith)
        requires
            s * d * 0x100_0000 <= x * u * 0x100_0001 + d * 0x80_0000,
            s * d * 0x100_0000 >= x * u * 0xff_ffff - d * 0x80_0000,
            d == m * u,
            u > 0,
    {
        assert(s * d * 0x100_0000 == u * (s * m * 0x100_0000));
        assert(x * u * 0x100_0001 + d * 0x80_0000 == u * (x * 0x100_0001 + m * 0x80_0000));
        assert(x * u * 0xff_ffff - d * 0x80_0000 == u * (x * 0xff_ffff - m * 0x80_0000));
    }
    let sm = s * m;
    assert(s <= sm) by (nonlinear_arith)
        requires
            sm == s * m,
            m >= 1,
            s >= 0,
    ;
    assert(s < pow2(173));
}

/// A coordinate of the detector's image is scaled to the screen within a quarter
/// of a pixel.
proof fn lemma_scaled(a: int, origin: u32, model: u32)
    requires
        origin <= 0x10_0000,
        0 < model <= 0x10_0000,
        0 <= a <= model * pow2(149),
    ensures
        product(Value::Finite(a), scale(origin, model)) matches Value::Finite(p) && 0 <= p <= origin
            * pow2(149) + pow2(149) && 4 * (p * model - a * origin) <= model * pow2(149) && 4 * (a
            * origin - p * model) <= model * pow2(149),
{
    lemma_unit();
    lemma_scale(origin, model);
    let u = pow2(149) as int;
    let w = origin as int;
    let m = model as int;
    let s = scale(origin, model)->Finite_0;
    let t = a * s;
    assert(0 <= t) by (nonlinear_arith)
        requires
            t == a * s,
            0 <= a,
            0 <= s,
    ;
    lemma_nearest_near(t, u);
    let p = nearest(t, u);
    let pm = p * m;
    let aw = a * w;
    let am = a * m;
    let tm = t * m;
    let mu = m * u;
    // The product with the scale, times the length of the image.
    assert(tm * 0x100_0000 <= aw * u * 0x100_0001 + am * 0x80_0000 && tm * 0x100_0000 >= aw * u
        * 0xff_ffff - am * 0x80_0000) by (nonlinear_arith)
        requires
            tm == a * s * m,
            aw == a * w,
            am == a * m,
            s * m * 0x100_0000 <= w * u * 0x100_0001 + m * 0x80_0000,
            s * m * 0x100_0000 >= w * u * 0xff_ffff - m * 0x80_0000,
            a >= 0,
    {
        assert(a * (s * m * 0x100_0000) <= a * (w * u * 0x100_0001 + m * 0x80_0000));
        assert(a * (s * m * 0x100_0000) >= a * (w * u * 0xff_ffff - m * 0x80_0000));
    }
    assert(pm * u * 0x100_0000 <= tm * 0x100_0001 + mu * 0x80_0000 && pm * u * 0x100_0000 >= tm
        * 0xff_ffff - mu * 0x80_0000) by (nonlinear_arith)
        requires
            pm == p * m,
            tm == t * m,
            mu == m * u,
            p * u * 0x100_0000 <= t * 0x100_0001 + u * 0x80_0000,
            p * u * 0x100_0000 >= t * 0xff_ffff - u * 0x80_0000,
            m > 0,
    {
        assert(m * (p * u * 0x100_0000) <= m * (t * 0x100_0001 + u * 0x80_0000));
        assert(m * (p * u * 0x100_0000) >= m * (t * 0xff_ffff - u * 0x80_0000));
    }
    let awu = aw * u;
    let muu = mu * u;
    assert(0 <= awu <= 0x10_0000 * muu && 0 <= am <= 0x10_0000 * mu && 0x1_0000_0000_0000_0000 * mu
        <= muu && 0 <= tm && 0 <= pm) by (nonlinear_arith)
        requires
            awu == a * w * u,
            am == a * m,
            mu == m * u,
            muu == mu * u,
            tm == t * m,
            pm == p * m,
            0 <= a <= m * u,
            0 <= w <= 0x10_0000,
            0 < m <= 0x10_0000,
            u >= 0x1_0000_0000_0000_0000,
            t >= 0,
            p >= 0,
    {
        assert(a * w <= m * u * 0x10_0000);
        assert((a * w) * u <= (m * u * 0x10_0000) * u);
        assert(a * m <= m * u * 0x10_0000);
    }
    let pmu = pm * u;
    assert(4 * (pmu - awu) <= muu && 4 * (awu - pmu) <= muu);
    assert(4 * (pm - aw) <= mu && 4 * (aw - pm) <= mu) by (nonlinear_arith)
        requires
            4 * (pm * u - aw * u) <= mu * u,
            4 * (aw * u - pm * u) <= mu * u,
            u > 0,
    ;
    assert(p <= w * u + u) by (nonlinear_arith)
        requires
            4 * (p * m - a * w) <= m * u,
            0 <= a <= m * u,
            0 <= w,
            m > 0,
            u > 0,
    {
        assert(a * w <= m * u * w);
        assert(m * (4 * p) <= m * (4 * (u * w) + u));
    }
    assert(w * u + u < pow2(173)) by (nonlinear_arith)
        requires
            w <= 0x10_0000,
            pow2(173) == 0x100_0000 * u,
            u > 0,
    ;
}

/// The stretch from `f - y` to `l + y`, cut off at the ends of the screen, is
/// found within a few pixels.
proof fn lemma_widened(f: int, l: int, y: int, origin: u32)
    requires
        origin <= 0x10_0000,
        0 <= f <= origin * pow2(149) + pow2(149),
        0 <= l <= origin * pow2(149) + pow2(149),
        -pow2(149) <= y <= origin * pow2(149),
        f - y <= l + y + 2 * pow2(149),
    ensures
        ({
            let u = pow2(149) as int;
            let (start, length) = widened_span(
                Value::Finite(f),
                Value::Finite(l),
                Value::Finite(y),
                origin,
            );
            let low = if f - y < 0 {
                0
            } else {
                f - y
            };
            let high = if l + y < origin * u {
                l + y
            } else {
                origin * u
            };
            &&& 4 * low - 5 * u <= 4 * (start * u) <= 4 * low + u
            &&& high - 4 * u <= (start + length) * u <= high + 4 * u
        }),
{
    lemma_unit();
    lemma_constants();
    let u = pow2(149) as int;
    let w = origin as int;
    let x = w * u;
    assert(0 <= x <= 0x10_0000 * u) by (nonlinear_arith)
        requires
            x == w * u,
            0 <= w <= 0x10_0000,
            u > 0,
    ;
    lemma_int_exact(w);
    lemma_rounded(f - y);
    lemma_rounded(l + y);
    let t = rounded(f - y, 1)->Finite_0;
    let e0 = rounded(l + y, 1)->Finite_0;
    assert(difference(Value::Finite(f), Value::Finite(y)) == rounded(f - y, 1));
    assert(sum(Value::Finite(l), Value::Finite(y)) == rounded(l + y, 1));
    let kept = if t < 0 {
        0
    } else {
        t
    };
    assert(greater_of(Value::Finite(t), bits_value(ZERO)) == Value::Finite(kept));
    let start = kept / u;
    assert(start * u <= kept < start * u + u && 0 <= start <= 0x40_0000) by (nonlinear_arith)
        requires
            start == kept / u,
            0 <= kept <= 0x40_0000 * u,
            u > 0,
    ;
    assert(whole(Value::Finite(kept), u32::MAX as int) == start);
    lemma_int_exact(start);
    let e = if x < e0 {
        x
    } else {
        e0
    };
    assert(lesser_of(Value::Finite(e0), Value::Finite(x)) == Value::Finite(e));
    let su = start * u;
    lemma_rounded(e - su);
    let k = rounded(e - su, 1)->Finite_0;
    assert(difference(Value::Finite(e), Value::Finite(su)) == rounded(e - su, 1));
    let length = whole(Value::Finite(k), u32::MAX as int);
    let lu = length * u;
    if k >= 0 {
        let q = k / u;
        assert(q * u <= k < q * u + u && 0 <= q <= 0x80_0000) by (nonlinear_arith)
            requires
                q == k / u,
                0 <= k <= 0x80_0000 * u,
                u > 0,
        ;
        assert(length == q);
    } else {
        assert(lu == 0) by (nonlinear_arith)
            requires
                lu == length * u,
                length == 0,
        ;
    }
    assert((start + length) * u == su + lu) by (nonlinear_arith)
        requires
            su == start * u,
            lu == length * u,
    ;
}

proof fn lemma_margin_of_outline(f: int, l: int, gaps: u32, g: int, origin: u32)
    requires
        origin <= 0x10_0000,
        gaps == EIGHT && g == 8 || gaps == NINE && g == 9,
        0 <= f <= origin * pow2(149) + pow2(149),
        0 <= l <= origin * pow2(149),
        l - f >= -pow2(149),
    ensures
        quotient(
            quotient(difference(Value::Finite(l), Value::Finite(f)), bits_value(gaps)),
            bits_value(TWO),
        ) matches Value::Finite(y) && 2 * (2 * (g * y) - (l - f)) <= pow2(149) && 2 * ((l - f) - 2
            * (g * y)) <= pow2(149) && (l - f >= 0 ==> y >= 0) && (l - f <= 0 ==> y <= 0),
{
    lemma_unit();
    lemma_constants();
    let u = pow2(149) as int;
    let x = origin * u;
    assert(0 <= x <= 0x10_0000 * u) by (nonlinear_arith)
        requires
            x == origin * u,
            0 <= origin <= 0x10_0000,
            u > 0,
    ;
    lemma_rounded(l - f);
    let d = rounded(l - f, 1)->Finite_0;
    assert(difference(Value::Finite(l), Value::Finite(f)) == rounded(l - f, 1));
    lemma_divided(d, g, gaps);
    let y1 = quotient(Value::Finite(d), bits_value(gaps))->Finite_0;
    let gy1 = y1 * g;
    assert(magnitude(y1) <= magnitude(gy1)) by (nonlinear_arith)
        requires
            gy1 == y1 * g,
            g >= 1,
    ;
    lemma_divided(y1, 2, TWO);
    let y = quotient(Value::Finite(y1), bits_value(TWO))->Finite_0;
    let gy = g * y;
    assert((2 * gy - gy1) * 0x100_0000 <= magnitude(gy1) + g * 0x100_0000 && (gy1 - 2 * gy)
        * 0x100_0000 <= magnitude(gy1) + g * 0x100_0000) by (nonlinear_arith)
        requires
            gy == g * y,
            gy1 == y1 * g,
            (y * 2 - y1) * 0x100_0000 <= magnitude(y1) + 2 * 0x80_0000,
            (y1 - y * 2) * 0x100_0000 <= magnitude(y1) + 2 * 0x80_0000,
            g > 0,
            magnitude(y1) == if y1 < 0 { -y1 } else { y1 },
            magnitude(gy1) == if gy1 < 0 { -gy1 } else { gy1 },
    {
        assert(g * magnitude(y1) == magnitude(gy1));
        assert(g * ((y * 2 - y1) * 0x100_0000) <= g * (magnitude(y1) + 0x100_0000));
        assert(g * ((y1 - y * 2) * 0x100_0000) <= g * (magnitude(y1) + 0x100_0000));
    }
}

/// Lines that are scaled to the screen within a quarter of a pixel, and half a
/// gap that is right within a few, give the stretch.
proof fn lemma_stretch(f: int, l: int, y: int, a: int, b: int, g: int, origin: u32, model: u32)
    requires
        origin <= 0x10_0000,
        0 < model <= 0x10_0000,
        8 <= g <= 9,
        0 <= f <= origin * pow2(149) + pow2(149),
        0 <= l <= origin * pow2(149) + pow2(149),
        -pow2(149) <= y <= origin * pow2(149),
        f - y <= l + y + 2 * pow2(149),
        4 * (f * model - a * origin) <= model * pow2(149),
        4 * (a * origin - f * model) <= model * pow2(149),
        4 * (l * model - b * origin) <= model * pow2(149),
        4 * (b * origin - l * model) <= model * pow2(149),
        2 * (model * (g * y)) - (b * origin - a * origin) <= 4 * (model * pow2(149)),
        (b * origin - a * origin) - 2 * (model * (g * y)) <= 4 * (model * pow2(149)),
    ensures
        ({
            let (start, length) = widened_span(
                Value::Finite(f),
                Value::Finite(l),
                Value::Finite(y),
                origin,
            );
            stretch(start, length, a, b, g, origin, model)
        }),
{
    lemma_unit();
    lemma_widened(f, l, y, origin);
    let u = pow2(149) as int;
    let w = origin as int;
    let m = model as int;
    let (start, length) = widened_span(
        Value::Finite(f),
        Value::Finite(l),
        Value::Finite(y),
        origin,
    );
    let x = w * u;
    let su = start * u;
    let eu = (start + length) * u;
    let low = if f - y < 0 {
        0
    } else {
        f - y
    };
    let high = if l + y < x {
        l + y
    } else {
        x
    };
    let gm = g * m;
    let mu = m * u;
    let gmu = gm * u;
    let (fm, lm, aw, bw) = (f * m, l * m, a * w, b * w);
    let (gfm, glm, gaw, gbw) = (g * fm, g * lm, g * aw, g * bw);
    let mgy = m * (g * y);
    let pixel = 2 * g * m * u;
    let from = (2 * g * a - (b - a)) * w;
    let to = (2 * g * b + (b - a)) * w;
    assert(pixel == 2 * gmu && gmu == g * mu && gmu >= 8 * mu && mu > 0 && gm > 0) by (nonlinear_arith)
        requires
            pixel == 2 * g * m * u,
            gm == g * m,
            gmu == gm * u,
            mu == m * u,
            8 <= g,
            m > 0,
            u > 0,
    ;
    assert(from == 2 * gaw - bw + aw && to == 2 * gbw + bw - aw) by (nonlinear_arith)
        requires
            from == (2 * g * a - (b - a)) * w,
            to == (2 * g * b + (b - a)) * w,
            gaw == g * (a * w),
            gbw == g * (b * w),
            aw == a * w,
            bw == b * w,
    ;
    assert(4 * (gfm - gaw) <= gmu && 4 * (gaw - gfm) <= gmu && 4 * (glm - gbw) <= gmu && 4 * (gbw
        - glm) <= gmu) by (nonlinear_arith)
        requires
            gfm == g * fm,
            glm == g * lm,
            gaw == g * aw,
            gbw == g * bw,
            gmu == g * mu,
            4 * (fm - aw) <= mu,
            4 * (aw - fm) <= mu,
            4 * (lm - bw) <= mu,
            4 * (bw - lm) <= mu,
            g > 0,
    ;
    let gmlow = gm * low;
    let gmhigh = gm * high;
    let gmx = gm * x;
    let sm = gm * su;
    let em = gm * eu;
    assert(gm * (f - y) == gfm - mgy && gm * (l + y) == glm + mgy) by (nonlinear_arith)
        requires
            gm == g * m,
            gfm == g * (f * m),
            glm == g * (l * m),
            mgy == m * (g * y),
    ;
    assert(gmlow == if gfm - mgy < 0 {
        0
    } else {
        gfm - mgy
    }) by (nonlinear_arith)
        requires
            gmlow == gm * low,
            low == if f - y < 0 { 0 } else { f - y },
            gm * (f - y) == gfm - mgy,
            gm > 0,
    ;
    assert(gmhigh == if glm + mgy < gmx {
        glm + mgy
    } else {
        gmx
    }) by (nonlinear_arith)
        requires
            gmhigh == gm * high,
            gmx == gm * x,
            high == if l + y < x { l + y } else { x },
            gm * (l + y) == glm + mgy,
            gm > 0,
    ;
    assert(4 * gmlow - 5 * gmu <= 4 * sm <= 4 * gmlow + gmu && gmhigh - 4 * gmu <= em <= gmhigh + 4
        * gmu) by (nonlinear_arith)
        requires
            gmlow == gm * low,
            gmhigh == gm * high,
            sm == gm * su,
            em == gm * eu,
            gmu == gm * u,
            4 * low - 5 * u <= 4 * su <= 4 * low + u,
            high - 4 * u <= eu <= high + 4 * u,
            gm > 0,
    ;
    assert(start * pixel == 2 * sm && (start + length) * pixel == 2 * em && w * pixel == 2 * gmx)
        by (nonlinear_arith)
        requires
            pixel == 2 * g * m * u,
            sm == gm * (start * u),
            em == gm * ((start + length) * u),
            gmx == gm * (w * u),
            gm == g * m,
    ;
}

/// An outline stands for its stretch, along one side.
proof fn lemma_outline_stretch(
    low: Single,
    high: Single,
    gaps: u32,
    g: int,
    origin: u32,
    model: u32,
    a: int,
    b: int,
)
    requires
        origin <= 0x10_0000,
        0 < model <= 0x10_0000,
        gaps == EIGHT && g == 8 || gaps == NINE && g == 9,
        low.value() == Value::Finite(a),
        high.value() == Value::Finite(b),
        0 <= a <= b <= model * pow2(149),
    ensures
        stretch(
            outline_span(low, high, gaps, origin, model).0,
            outline_span(low, high, gaps, origin, model).1,
            a,
            b,
            g,
            origin,
            model,
        ),
{
    lemma_unit();
    lemma_constants();
    let u = pow2(149) as int;
    let w = origin as int;
    let m = model as int;
    let x = w * u;
    let mu = m * u;
    lemma_int_exact(w);
    lemma_scaled(a, origin, model);
    lemma_scaled(b, origin, model);
    let f = product(Value::Finite(a), scale(origin, model))->Finite_0;
    let p = product(Value::Finite(b), scale(origin, model))->Finite_0;
    let l = if x < p {
        x
    } else {
        p
    };
    let first = greater_of(product(low.value(), scale(origin, model)), bits_value(ZERO));
    let last = lesser_of(product(high.value(), scale(origin, model)), int_value(w));
    assert(first == Value::Finite(f));
    assert(last == Value::Finite(l));
    assert(x >= 0 && (w >= 1 ==> x >= u) && (w == 0 ==> x == 0)) by (nonlinear_arith)
        requires
            x == w * u,
            w >= 0,
            u > 0,
    ;
    assert(2 * (f - p) <= u && 4 * (f - x) <= u) by (nonlinear_arith)
        requires
            4 * (f * m - a * w) <= m * u,
            4 * (b * w - p * m) <= m * u,
            0 <= a <= b,
            b <= m * u,
            w >= 0,
            x == w * u,
            m > 0,
    {
        assert(a * w <= b * w);
        assert(b * w <= m * u * w);
        assert(m * (4 * (f - p)) <= m * (2 * u));
        assert(m * (4 * (f - x)) <= m * u);
    }
    lemma_margin_of_outline(f, l, gaps, g, origin);
    let y = quotient(
        quotient(difference(last, first), bits_value(gaps)),
        bits_value(TWO),
    )->Finite_0;
    let gy = g * y;
    assert(y >= 0 ==> 8 * y <= gy) by (nonlinear_arith)
        requires
            gy == g * y,
            g >= 8,
    ;
    assert(y <= 0 ==> gy <= 8 * y) by (nonlinear_arith)
        requires
            gy == g * y,
            g >= 8,
    ;
    let (fm, lm, aw, bw) = (f * m, l * m, a * w, b * w);
    assert(4 * (lm - bw) <= mu && 4 * (bw - lm) <= mu) by (nonlinear_arith)
        requires
            lm == l * m,
            bw == b * w,
            mu == m * u,
            l == if x < p { x } else { p },
            4 * (p * m - b * w) <= m * u,
            4 * (b * w - p * m) <= m * u,
            b <= m * u,
            x == w * u,
            w >= 0,
            m > 0,
            u > 0,
    {
        assert(b * w <= m * u * w);
        if x < p {
            assert(x * m <= p * m);
            assert(x * m == m * u * w);
        }
    }
    let mgy = m * gy;
    assert(2 * (2 * mgy - (lm - fm)) <= mu && 2 * ((lm - fm) - 2 * mgy) <= mu) by (nonlinear_arith)
        requires
            mgy == m * gy,
            lm == l * m,
            fm == f * m,
            mu == m * u,
            2 * (2 * gy - (l - f)) <= u,
            2 * ((l - f) - 2 * gy) <= u,
            m > 0,
    {
        assert(m * (2 * (2 * gy - (l - f))) <= m * u);
        assert(m * (2 * ((l - f) - 2 * gy)) <= m * u);
    }
    lemma_stretch(f, l, y, a, b, g, origin, model);
}

/// Where the board was outlined by a box that lies in the detector's image, it is
/// found where the outline says: half a gap between lines further out on each
/// side, eight gaps across and nine down, scaled to the screen.
pub proof fn law_outline_is_scaled(
    origin_width: u32,
    origin_height: u32,
    detections: &[Detection],
    model: ModelSize,
    r: Found,
    i: int,
    left: int,
    top: int,
    right: int,
    bottom: int,
)
    requires
        call_ensures(detections_bound, (origin_width, origin_height, detections, model), r),
        first_outline_at(detections@, i),
        origin_width <= 0x10_0000,
        origin_height <= 0x10_0000,
        0 < model.width <= 0x10_0000,
        0 < model.height <= 0x10_0000,
        detections@[i].x0.value() == Value::Finite(left),
        detections@[i].y0.value() == Value::Finite(top),
        detections@[i].x1.value() == Value::Finite(right),
        detections@[i].y1.value() == Value::Finite(bottom),
        0 <= left <= right <= model.width * pow2(149),
        0 <= top <= bottom <= model.height * pow2(149),
    ensures
        r matches Ok((x, y, w, h)) && stretch(
            x as int,
            w as int,
            left,
            right,
            8,
            origin_width,
            model.width,
        ) && stretch(y as int, h as int, top, bottom, 9, origin_height, model.height),
{
    let det = detections@[i];
    lemma_first_is_chosen(detections@, i);
    lemma_outline_stretch(det.x0, det.x1, EIGHT, 8, origin_width, model.width, left, right);
    lemma_outline_stretch(det.y0, det.y1, NINE, 9, origin_height, model.height, top, bottom);
}

/// Whether a coordinate is half of this number, in units, to one part in `2^22`.
pub open spec fn halves(a: int, doubled: int) -> bool {
    &&& (2 * a - doubled) * 0x40_0000 <= doubled + 0x200_0000
    &&& (doubled - 2 * a) * 0x40_0000 <= doubled + 0x200_0000
}

/// The middle of two coordinates is computed to one part in `2^22`, and does not
/// leave the image.
proof fn lemma_middle(p: Single, q: Single, m: int, model: u32)
    requires
        0 < model <= 0x10_0000,
        doubled_middle(p, q) == Some(m),
        0 <= m <= 2 * (model * pow2(149)),
    ensures
        midpoint(p, q) matches Value::Finite(y) && 0 <= y <= model * pow2(149) && halves(y, m),
{
    lemma_unit();
    lemma_constants();
    let u = pow2(149) as int;
    let side = model * u;
    let twice = 2 * model as int;
    assert(twice * u == 2 * side && 0 <= side <= 0x10_0000 * u) by (nonlinear_arith)
        requires
            twice == 2 * model,
            side == model * u,
            0 <= model <= 0x10_0000,
            u > 0,
    ;
    lemma_int_exact(twice);
    lemma_int_exact(model as int);
    lemma_nearest_monotone(m, 1, 2 * side, 1);
    lemma_nearest_near(m, 1);
    let k = nearest(m, 1);
    assert(sum(p.value(), q.value()) == Value::Finite(k));
    lemma_divided(k, 2, TWO);
    let ku = k * u;
    assert(0 <= ku && ku * 1 <= side * (2 * u)) by (nonlinear_arith)
        requires
            ku == k * u,
            0 <= k <= 2 * side,
            u > 0,
    ;
    lemma_nearest_monotone(ku, 2 * u, side, 1);
    assert(midpoint(p, q) == Value::Finite(nearest(ku, 2 * u)));
}

/// The least of numbers that are not too great is one of them.
proof fn lemma_least(values: Seq<Value>, top: int) -> (k: int)
    requires
        values.len() > 0,
        top < 0xff_ffff * pow2(253),
        forall|i: int|
            0 <= i < values.len() ==> (#[trigger] values[i] matches Value::Finite(v) && 0 <= v
                <= top),
    ensures
        0 <= k < values.len(),
        least_of(values) == values[k],
        forall|i: int|
            0 <= i < values.len() ==> values[k]->Finite_0 <= (#[trigger] values[i])->Finite_0,
    decreases values.len(),
{
    lemma_constants();
    let n = values.len() - 1;
    assert(values[n] is Finite);
    if n == 0 {
        assert(values.drop_last().len() == 0);
        assert(least_of(values.drop_last()) == Value::Finite(0xff_ffffint * pow2(253)));
        0
    } else {
        let before = values.drop_last();
        assert forall|i: int| 0 <= i < before.len() implies (#[trigger] before[i] matches
            Value::Finite(v) && 0 <= v <= top) by {
            assert(before[i] == values[i]);
        }
        let k = lemma_least(before, top);
        assert(before[k] == values[k]);
        assert forall|i: int| 0 <= i < n implies values[k]->Finite_0 <= (
        #[trigger] values[i])->Finite_0 by {
            assert(before[i] == values[i]);
        }
        if less(values[n], values[k]) {
            n
        } else {
            k
        }
    }
}

/// The greatest of numbers that are not negative is one of them.
proof fn lemma_greatest(values: Seq<Value>) -> (k: int)
    requires
        values.len() > 0,
        forall|i: int|
            0 <= i < values.len() ==> (#[trigger] values[i] matches Value::Finite(v) && 0 <= v),
    ensures
        0 <= k < values.len(),
        greatest_of(values) == values[k],
        forall|i: int|
            0 <= i < values.len() ==> (#[trigger] values[i])->Finite_0 <= values[k]->Finite_0,
    decreases values.len(),
{
    lemma_constants();
    lemma_pow2_pos(253);
    let n = values.len() - 1;
    assert(values[n] is Finite);
    if n == 0 {
        assert(values.drop_last().len() == 0);
        assert(greatest_of(values.drop_last()) == Value::Finite(-0xff_ffff * pow2(253)));
        0
    } else {
        let before = values.drop_last();
        assert forall|i: int| 0 <= i < before.len() implies (#[trigger] before[i] matches
            Value::Finite(v) && 0 <= v) by {
            assert(before[i] == values[i]);
        }
        let k = lemma_greatest(before);
        assert(before[k] == values[k]);
        assert forall|i: int| 0 <= i < n implies (#[trigger] values[i])->Finite_0
            <= values[k]->Finite_0 by {
            assert(before[i] == values[i]);
        }
        if less(values[k], values[n]) {
            n
        } else {
            k
        }
    }
}

/// Half a gap between lines is scaled to the screen within half a pixel.
proof fn lemma_margin_of_pieces(a: int, b: int, gaps: u32, g: int, origin: u32, model: u32)
    requires
        0 < origin <= 0x10_0000,
        0 < model <= 0x10_0000,
        gaps == EIGHT && g == 8 || gaps == NINE && g == 9,
        0 <= a <= b <= model * pow2(149),
    ensures
        product(
            product(
                quotient(difference(Value::Finite(b), Value::Finite(a)), bits_value(gaps)),
                scale(origin, model),
            ),
            bits_value(HALF),
        ) matches Value::Finite(y) && 0 <= y <= origin * pow2(149) && 2 * (model * (g * y)) - (b
            * origin - a * origin) <= 4 * (model * pow2(149)) && (b * origin - a * origin) - 2 * (
        model * (g * y)) <= 4 * (model * pow2(149)),
{
    lemma_unit();
    lemma_constants();
    let u = pow2(149) as int;
    let h = pow2(148) as int;
    lemma2_to64();
    lemma_pow2_adds(1, 148);
    lemma_pow2_pos(148);
    let w = origin as int;
    let m = model as int;
    let x = w * u;
    let mu = m * u;
    assert(u <= x <= 0x10_0000 * u && 0 <= mu <= 0x10_0000 * u) by (nonlinear_arith)
        requires
            x == w * u,
            mu == m * u,
            1 <= w <= 0x10_0000,
            0 <= m <= 0x10_0000,
            u > 0,
    ;
    lemma_rounded(b - a);
    let d = rounded(b - a, 1)->Finite_0;
    assert(difference(Value::Finite(b), Value::Finite(a)) == rounded(b - a, 1));
    lemma_divided(d, g, gaps);
    let q = quotient(Value::Finite(d), bits_value(gaps))->Finite_0;
    let gq = q * g;
    assert(8 * q <= gq) by (nonlinear_arith)
        requires
            gq == q * g,
            g >= 8,
            q >= 0,
    ;
    assert(mu >= 0x1_0000_0000_0000_0000) by (nonlinear_arith)
        requires
            mu == m * u,
            m >= 1,
            u >= 0x1_0000_0000_0000_0000,
    ;
    lemma_scaled(q, origin, model);
    let gap = product(Value::Finite(q), scale(origin, model))->Finite_0;
    let gh = gap * h;
    assert(gh >= 0) by (nonlinear_arith)
        requires
            gh == gap * h,
            gap >= 0,
            h > 0,
    ;
    lemma_nearest_near(gh, u);
    let y = nearest(gh, u);
    assert((2 * y - gap) * 0x100_0000 <= gap + 0x100_0000 && (gap - 2 * y) * 0x100_0000 <= gap
        + 0x100_0000) by (nonlinear_arith)
        requires
            y * u * 0x100_0000 <= gap * h * 0x100_0001 + u * 0x80_0000,
            y * u * 0x100_0000 >= gap * h * 0xff_ffff - u * 0x80_0000,
            u == 2 * h,
            h > 0,
    {
        assert(h * (2 * y * 0x100_0000) <= h * (gap * 0x100_0001 + 0x100_0000));
        assert(h * (2 * y * 0x100_0000) >= h * (gap * 0xff_ffff - 0x100_0000));
    }
    assert(8 * (2 * y - gap) <= u && 8 * (gap - 2 * y) <= u);
    assert(4 * gap <= x + u) by (nonlinear_arith)
        requires
            4 * (gap * m - q * w) <= m * u,
            4 * q <= m * u,
            x == w * u,
            w >= 0,
            m > 0,
    {
        assert(w * (4 * q) <= w * (m * u));
        assert(m * (4 * gap) <= m * (w * u + u));
    }
    assert(product(Value::Finite(gap), bits_value(HALF)) == Value::Finite(y));
    let (aw, bw, dw, qw) = (a * w, b * w, d * w, q * w);
    let gqw = gq * w;
    assert(16 * (dw - (bw - aw)) <= 2 * mu && 16 * ((bw - aw) - dw) <= 2 * mu) by (nonlinear_arith)
        requires
            aw == a * w,
            bw == b * w,
            dw == d * w,
            (d - (b - a)) * 0x100_0000 <= (b - a) + 0x80_0000,
            ((b - a) - d) * 0x100_0000 <= (b - a) + 0x80_0000,
            0 <= b - a <= mu,
            mu >= 0x1_0000_0000_0000_0000,
            0 < w <= 0x10_0000,
    {
        assert(w * ((d - (b - a)) * 0x100_0000) <= w * (2 * mu));
        assert(w * (((b - a) - d) * 0x100_0000) <= w * (2 * mu));
        assert(w * (2 * mu) <= 0x10_0000 * (2 * mu));
    }
    assert(16 * (gqw - dw) <= 4 * mu && 16 * (dw - gqw) <= 4 * mu) by (nonlinear_arith)
        requires
            gqw == gq * w,
            dw == d * w,
            (gq - d) * 0x100_0000 <= 4 * mu,
            (d - gq) * 0x100_0000 <= 4 * mu,
            0 < w <= 0x10_0000,
            mu >= 0,
    {
        assert(w * ((gq - d) * 0x100_0000) <= w * (4 * mu));
        assert(w * ((d - gq) * 0x100_0000) <= w * (4 * mu));
        assert(w * (4 * mu) <= 0x10_0000 * (4 * mu));
    }
    let ggm = g * (gap * m);
    let gmu = g * mu;
    let mgy = m * (g * y);
    assert(4 * (ggm - gqw) <= gmu && 4 * (gqw - ggm) <= gmu) by (nonlinear_arith)
        requires
            ggm == g * (gap * m),
            gqw == q * g * w,
            gmu == g * (m * u),
            4 * (gap * m - q * w) <= m * u,
            4 * (q * w - gap * m) <= m * u,
            g > 0,
    {
        assert(g * (4 * (gap * m - q * w)) <= g * (m * u));
        assert(g * (4 * (q * w - gap * m)) <= g * (m * u));
    }
    assert(8 * (2 * mgy - ggm) <= gmu && 8 * (ggm - 2 * mgy) <= gmu) by (nonlinear_arith)
        requires
            mgy == m * (g * y),
            ggm == g * (gap * m),
            gmu == g * (m * u),
            8 * (2 * y - gap) <= u,
            8 * (gap - 2 * y) <= u,
            g > 0,
            m > 0,
    {
        let gm = g * m;
        assert(gm > 0);
        assert(gm * (8 * (2 * y - gap)) <= gm * u);
        assert(gm * (8 * (gap - 2 * y)) <= gm * u);
        assert(gm * (8 * (2 * y - gap)) == 8 * (2 * mgy - ggm));
        assert(gm * u == gmu);
    }
    assert(gmu <= 9 * mu) by (nonlinear_arith)
        requires
            gmu == g * mu,
            g <= 9,
            mu >= 0,
    ;
}

/// The outermost middles of pieces stand for their stretch, along one side.
proof fn lemma_piece_stretch(a: int, b: int, gaps: u32, g: int, origin: u32, model: u32)
    requires
        0 < origin <= 0x10_0000,
        0 < model <= 0x10_0000,
        gaps == EIGHT && g == 8 || gaps == NINE && g == 9,
        0 <= a <= b <= model * pow2(149),
    ensures
        ({
            let (start, length) = piece_span(
                Value::Finite(a),
                Value::Finite(b),
                gaps,
                origin,
                model,
            );
            stretch(start, length, a, b, g, origin, model)
        }),
{
    lemma_unit();
    let u = pow2(149) as int;
    let w = origin as int;
    let m = model as int;
    lemma_scaled(a, origin, model);
    lemma_scaled(b, origin, model);
    lemma_margin_of_pieces(a, b, gaps, g, origin, model);
    let f = product(Value::Finite(a), scale(origin, model))->Finite_0;
    let l = product(Value::Finite(b), scale(origin, model))->Finite_0;
    let gap = product(
        quotient(difference(Value::Finite(b), Value::Finite(a)), bits_value(gaps)),
        scale(origin, model),
    );
    let y = product(gap, bits_value(HALF))->Finite_0;
    assert(2 * (f - l) <= u) by (nonlinear_arith)
        requires
            4 * (f * m - a * w) <= m * u,
            4 * (b * w - l * m) <= m * u,
            a <= b,
            w >= 0,
            m > 0,
    {
        assert(a * w <= b * w);
        assert(m * (4 * (f - l)) <= m * (2 * u));
    }
    lemma_stretch(f, l, y, a, b, g, origin, model);
}

/// The outermost middles along one side.
proof fn lemma_outermost(values: Seq<Value>, doubled: Seq<int>, model: u32, low: int, high: int)
    requires
        0 < model <= 0x10_0000,
        values.len() == doubled.len(),
        0 <= low < values.len(),
        0 <= high < values.len(),
        forall|i: int|
            0 <= i < values.len() ==> (#[trigger] values[i] matches Value::Finite(y) && 0 <= y
                <= model * pow2(149) && halves(y, doubled[i])),
        forall|i: int|
            0 <= i < doubled.len() ==> doubled[low] <= #[trigger] doubled[i] <= doubled[high],
    ensures
        least_of(values) matches Value::Finite(a) && greatest_of(values) matches Value::Finite(b)
            && 0 <= a <= b <= model * pow2(149) && halves(a, doubled[low]) && halves(
            b,
            doubled[high],
        ),
{
    lemma_unit();
    let u = pow2(149) as int;
    let side = model * u;
    lemma_pow2_strictly_increases(149, 253);
    assert(0 <= side <= 0x10_0000 * u) by (nonlinear_arith)
        requires
            side == model * u,
            0 <= model <= 0x10_0000,
            u > 0,
    ;
    let j = lemma_least(values, side);
    let k = lemma_greatest(values);
    assert(values[j]->Finite_0 <= values[low]->Finite_0);
    assert(values[high]->Finite_0 <= values[k]->Finite_0);
    assert(values[j]->Finite_0 <= values[k]->Finite_0);
    assert(doubled[low] <= doubled[j] && doubled[k] <= doubled[high]);
}

/// Where the board was not outlined and every middle lies in the detector's
/// image, the outermost middles stand for the outermost lines: `left`, `right`,
/// `top` and `bottom` are the numbers of boxes whose middles lie furthest out.
/// The lines are returned, and the place they give: half a gap between lines
/// further out on each side, eight gaps across and nine down, scaled to the
/// screen. That is what is found, if there are four pieces or more, and if it is
/// more than 100 wide and more than 100 high.
pub proof fn law_pieces_are_scaled(
    origin_width: u32,
    origin_height: u32,
    detections: &[Detection],
    model: ModelSize,
    r: Found,
    left: int,
    right: int,
    top: int,
    bottom: int,
) -> (given: ((int, int, int, int), (int, int, int, int)))
    requires
        call_ensures(detections_bound, (origin_width, origin_height, detections, model), r),
        0 < origin_width <= 0x10_0000,
        0 < origin_height <= 0x10_0000,
        0 < model.width <= 0x10_0000,
        0 < model.height <= 0x10_0000,
        0 <= left < detections@.len(),
        0 <= right < detections@.len(),
        0 <= top < detections@.len(),
        0 <= bottom < detections@.len(),
        forall|i: int|
            0 <= i < detections@.len() ==> {
                let det = #[trigger] detections@[i];
                let leftmost = detections@[left];
                let rightmost = detections@[right];
                let topmost = detections@[top];
                let bottommost = detections@[bottom];
                &&& det.label != '0'
                &&& doubled_middle(det.x0, det.x1) matches Some(x)
                &&& doubled_middle(det.y0, det.y1) matches Some(y)
                &&& 0 <= x <= 2 * (model.width * pow2(149))
                &&& 0 <= y <= 2 * (model.height * pow2(149))
                &&& doubled_middle(leftmost.x0, leftmost.x1)->0 <= x <= doubled_middle(
                    rightmost.x0,
                    rightmost.x1,
                )->0
                &&& doubled_middle(topmost.y0, topmost.y1)->0 <= y <= doubled_middle(
                    bottommost.y0,
                    bottommost.y1,
                )->0
            },
    ensures
        ({
            let ((a, b, c, d), (x, y, w, h)) = given;
            let leftmost = detections@[left];
            let rightmost = detections@[right];
            let topmost = detections@[top];
            let bottommost = detections@[bottom];
            &&& halves(a, doubled_middle(leftmost.x0, leftmost.x1)->0)
            &&& halves(b, doubled_middle(rightmost.x0, rightmost.x1)->0)
            &&& halves(c, doubled_middle(topmost.y0, topmost.y1)->0)
            &&& halves(d, doubled_middle(bottommost.y0, bottommost.y1)->0)
            &&& stretch(x, w, a, b, 8, origin_width, model.width)
            &&& stretch(y, h, c, d, 9, origin_height, model.height)
            &&& r is Ok <==> detections@.len() >= 4 && w > 100 && h > 100
            &&& r matches Ok((rx, ry, rw, rh)) ==> rx == x && ry == y && rw == w && rh == h
        }),
{
    let seen = detections@;
    assert(!has_outline(seen));
    lemma_all_pieces(seen);
    let xs = middles_x(seen);
    let ys = middles_y(seen);
    let dxs = Seq::new(seen.len(), |i: int| doubled_middle(seen[i].x0, seen[i].x1)->0);
    let dys = Seq::new(seen.len(), |i: int| doubled_middle(seen[i].y0, seen[i].y1)->0);
    assert forall|i: int| 0 <= i < xs.len() implies (#[trigger] xs[i] matches Value::Finite(v) && 0
        <= v <= model.width * pow2(149) && halves(v, dxs[i])) by {
        lemma_middle(seen[i].x0, seen[i].x1, dxs[i], model.width);
    }
    assert forall|i: int| 0 <= i < ys.len() implies (#[trigger] ys[i] matches Value::Finite(v) && 0
        <= v <= model.height * pow2(149) && halves(v, dys[i])) by {
        lemma_middle(seen[i].y0, seen[i].y1, dys[i], model.height);
    }
    assert forall|i: int| 0 <= i < dxs.len() implies dxs[left] <= #[trigger] dxs[i]
        <= dxs[right] by {
        assert(seen[i].label != '0');
    }
    assert forall|i: int| 0 <= i < dys.len() implies dys[top] <= #[trigger] dys[i]
        <= dys[bottom] by {
        assert(seen[i].label != '0');
    }
    lemma_outermost(xs, dxs, model.width, left, right);
    lemma_outermost(ys, dys, model.height, top, bottom);
    let a = least_of(xs)->Finite_0;
    let b = greatest_of(xs)->Finite_0;
    let c = least_of(ys)->Finite_0;
    let d = greatest_of(ys)->Finite_0;
    lemma_piece_stretch(a, b, EIGHT, 8, origin_width, model.width);
    lemma_piece_stretch(c, d, NINE, 9, origin_height, model.height);
    ((a, b, c, d), piece_bound(seen, origin_width, origin_height, model))
}

} // verus!
