//! Rounding of non-negative rationals to 24 significant binary digits, the
//! precision of a single-precision number.
use vstd::arithmetic::div_mod::*;
use vstd::arithmetic::mul::*;
use vstd::arithmetic::power2::*;
use vstd::prelude::*;

verus! {

/// The integer nearest to `n / d`; a tie goes to the even neighbour.
pub open spec fn nearest_integer(n: int, d: int) -> int
    recommends
        0 <= n,
        0 < d,
{
    let q = n / d;
    let r = n % d;
    if 2 * r < d || (2 * r == d && q % 2 == 0) {
        q
    } else {
        q + 1
    }
}

/// How many binary digits of `n / d` lie beyond the 24 that are kept: the
/// least `t` with `n / d < 2^(24 + t)`.
pub open spec fn excess(n: int, d: int) -> nat
    recommends
        0 <= n,
        0 < d,
    decreases n / d,
{
    if d <= 0 || n < 0x100_0000 * d {
        0
    } else {
        proof {
            lemma_halved(n, d);
        }
        1 + excess(n, 2 * d)
    }
}

/// The multiple of `2^excess(n, d)` nearest to `n / d`: the value of `n / d`
/// kept to 24 significant digits, and to no digit below the units.
pub open spec fn nearest(n: int, d: int) -> int
    recommends
        0 <= n,
        0 < d,
{
    let unit = pow2(excess(n, d)) as int;
    nearest_integer(n, d * unit) * unit
}

/// `nearest` of `n / d * 2^e`.
pub open spec fn nearest_scaled(n: int, d: int, e: int) -> int
    recommends
        0 <= n,
        0 < d,
{
    if e >= 0 {
        nearest(n * pow2(e as nat), d)
    } else {
        nearest(n, d * pow2((-e) as nat))
    }
}

pub proof fn lemma_halved(n: int, d: int)
    requires
        0 < d,
        n >= 0x100_0000 * d,
    ensures
        0 <= n / (2 * d) < n / d,
{
    assert(n / (2 * d) == (n / d) / 2) by {
        lemma_div_denominator(n, d, 2);
        assert(d * 2 == 2 * d);
    }
    assert(n / d >= 1) by (nonlinear_arith)
        requires
            0 < d,
            n >= 0x100_0000 * d,
    ;
}

/// What singles out `excess(n, d)`.
pub proof fn lemma_excess(n: int, d: int)
    requires
        0 <= n,
        0 < d,
    ensures
        n < d * pow2(24 + excess(n, d)),
        excess(n, d) > 0 ==> n >= d * pow2((23 + excess(n, d)) as nat),
    decreases n / d,
{
    lemma2_to64();
    if n >= 0x100_0000 * d {
        lemma_halved(n, d);
        lemma_excess(n, 2 * d);
        let t = excess(n, 2 * d);
        lemma_pow2_unfold(25 + t);
        lemma_pow2_unfold(24 + t);
        assert(2 * d * pow2(24 + t) == d * pow2(25 + t)) by (nonlinear_arith)
            requires
                pow2(25 + t) == 2 * pow2(24 + t),
        ;
        assert(excess(n, d) == 1 + t);
        assert(24 + excess(n, d) == 25 + t);
        if t > 0 {
            assert(2 * d * pow2((23 + t) as nat) == d * pow2(24 + t)) by (nonlinear_arith)
                requires
                    pow2(24 + t) == 2 * pow2((23 + t) as nat),
            ;
        } else {
            assert(d * pow2(24) == 0x100_0000 * d) by (nonlinear_arith)
                requires
                    pow2(24) == 0x100_0000,
            ;
        }
    } else {
        assert(d * pow2(24) == 0x100_0000 * d) by (nonlinear_arith)
            requires
                pow2(24) == 0x100_0000,
        ;
    }
}

/// No other number of digits has the property of `lemma_excess`.
pub proof fn lemma_excess_unique(n: int, d: int, t: nat)
    requires
        0 <= n,
        0 < d,
        n < d * pow2(24 + t),
        t > 0 ==> n >= d * pow2((23 + t) as nat),
    ensures
        excess(n, d) == t,
{
    lemma_excess(n, d);
    let u = excess(n, d);
    if u < t {
        if 24 + u < 23 + t {
            lemma_pow2_strictly_increases(24 + u, (23 + t) as nat);
        }
        assert(d * pow2(24 + u) <= d * pow2((23 + t) as nat)) by (nonlinear_arith)
            requires
                0 < d,
                pow2(24 + u) <= pow2((23 + t) as nat),
        ;
    } else if t < u {
        if 24 + t < 23 + u {
            lemma_pow2_strictly_increases(24 + t, (23 + u) as nat);
        }
        assert(d * pow2(24 + t) <= d * pow2((23 + u) as nat)) by (nonlinear_arith)
            requires
                0 < d,
                pow2(24 + t) <= pow2((23 + u) as nat),
        ;
    }
}

/// Widening numerator and denominator alike changes nothing.
pub proof fn lemma_nearest_integer_cancel(n: int, d: int, k: int)
    requires
        0 <= n,
        0 < d,
        0 < k,
    ensures
        nearest_integer(n * k, d * k) == nearest_integer(n, d),
{
    let q = n / d;
    let r = n % d;
    lemma_fundamental_div_mod(n, d);
    lemma_mod_bound(n, d);
    assert(n * k == q * (d * k) + r * k) by (nonlinear_arith)
        requires
            n == d * q + r,
    ;
    assert(0 <= r * k < d * k) by (nonlinear_arith)
        requires
            0 <= r < d,
            0 < k,
    ;
    lemma_fundamental_div_mod_converse(n * k, d * k, q, r * k);
    assert(2 * (r * k) < d * k <==> 2 * r < d) by (nonlinear_arith)
        requires
            0 < k,
    ;
    assert(2 * (r * k) == d * k <==> 2 * r == d) by (nonlinear_arith)
        requires
            0 < k,
    ;
}

/// Widening numerator and denominator alike changes nothing.
pub proof fn lemma_nearest_cancel(n: int, d: int, k: int)
    requires
        0 <= n,
        0 < d,
        0 < k,
    ensures
        nearest(n * k, d * k) == nearest(n, d),
{
    let t = excess(n, d);
    lemma_excess(n, d);
    let p = pow2(24 + t) as int;
    let p0 = pow2((23 + t) as nat) as int;
    assert(n * k < (d * k) * p) by (nonlinear_arith)
        requires
            n < d * p,
            0 < k,
    ;
    assert(0 <= n * k && 0 < d * k) by (nonlinear_arith)
        requires
            0 <= n,
            0 < d,
            0 < k,
    ;
    if t > 0 {
        assert(n * k >= (d * k) * p0) by (nonlinear_arith)
            requires
                n >= d * p0,
                0 < k,
        ;
    }
    lemma_excess_unique(n * k, d * k, t);
    let unit = pow2(t) as int;
    lemma_pow2_pos(t);
    assert(d * k * unit == d * unit * k) by (nonlinear_arith);
    assert(0 < d * unit) by (nonlinear_arith)
        requires
            0 < d,
            0 < unit,
    ;
    lemma_nearest_integer_cancel(n, d * unit, k);
}

/// An integer is its own nearest integer.
pub proof fn lemma_nearest_integer_exact(q: int, d: int)
    requires
        0 <= q,
        0 < d,
    ensures
        nearest_integer(q * d, d) == q,
{
    lemma_fundamental_div_mod_converse(q * d, d, q, 0);
}

/// An integer below `2^24`, scaled up by a power of two, is kept as it is.
pub proof fn lemma_nearest_exact(m: int, j: nat, d: int)
    requires
        0 <= m < 0x100_0000,
        0 < d,
    ensures
        nearest(m * pow2(j) * d, d) == m * pow2(j),
{
    let n = m * pow2(j) * d;
    let t = excess(n, d);
    lemma2_to64();
    lemma_pow2_pos(j);
    let pj = pow2(j) as int;
    assert(0 <= n) by (nonlinear_arith)
        requires
            0 <= m,
            0 < pj,
            0 < d,
            n == m * pj * d,
    ;
    lemma_excess(n, d);
    if t > j {
        lemma_pow2_adds(24, j);
        if 24 + j < 23 + t {
            lemma_pow2_strictly_increases(24 + j, (23 + t) as nat);
        }
        let p = pow2((23 + t) as nat) as int;
        assert(n < d * p) by (nonlinear_arith)
            requires
                n == m * pj * d,
                m < 0x100_0000,
                0 < pj,
                0 < d,
                0x100_0000 * pj <= p,
        ;
    }
    lemma_pow2_adds(t, (j - t) as nat);
    lemma_pow2_pos(t);
    lemma_pow2_pos((j - t) as nat);
    let unit = pow2(t) as int;
    let rest = pow2((j - t) as nat) as int;
    let q = m * rest;
    assert(n == q * (d * unit) && 0 <= q && 0 < d * unit && q * unit == m * pj) by (nonlinear_arith)
        requires
            n == m * pj * d,
            pj == unit * rest,
            q == m * rest,
            0 <= m,
            0 < rest,
            0 < d,
            0 < unit,
    ;
    lemma_nearest_integer_exact(q, d * unit);
}

/// `nearest_scaled` does not tell `n / d * 2^e` from `n / (d * 2^k) * 2^(e + k)`.
pub proof fn lemma_scaled_shift(n: int, d: int, e: int, k: nat)
    requires
        0 <= n,
        0 < d,
    ensures
        nearest_scaled(n, d * pow2(k), e + k) == nearest_scaled(n, d, e),
{
    lemma_pow2_pos(k);
    let pk = pow2(k) as int;
    if e >= 0 {
        lemma_pow2_adds(e as nat, k);
        lemma_pow2_pos(e as nat);
        let pe = pow2(e as nat) as int;
        assert(n * (pe * pk) == (n * pe) * pk && 0 <= n * pe) by (nonlinear_arith)
            requires
                0 <= n,
                0 < pe,
        ;
        lemma_nearest_cancel(n * pe, d, pk);
    } else if e + k >= 0 {
        let a = (-e) as nat;
        let b = (e + k) as nat;
        lemma_pow2_adds(a, b);
        lemma_pow2_pos(a);
        lemma_pow2_pos(b);
        let pa = pow2(a) as int;
        let pb = pow2(b) as int;
        assert(d * pk == (d * pa) * pb && 0 < d * pa) by (nonlinear_arith)
            requires
                0 < d,
                0 < pa,
                pk == pa * pb,
        ;
        lemma_nearest_cancel(n, d * pa, pb);
    } else {
        let a = (-e) as nat;
        let b = (-e - k) as nat;
        lemma_pow2_adds(b, k);
        let pa = pow2(a) as int;
        let pb = pow2(b) as int;
        assert(d * pk * pb == d * pa) by (nonlinear_arith)
            requires
                pa == pb * pk,
        ;
    }
}

/// Rounding at an even place sees no more of what lies below the units than
/// whether it is there at all.
proof fn lemma_nearest_integer_sticky(n: int, d: int, half: int)
    requires
        0 <= n,
        0 < d,
        0 < half,
    ensures
        ({
            let q = n / d;
            let s: int = if n % d == 0 {
                0
            } else {
                1
            };
            nearest_integer(2 * q + s, 2 * (2 * half)) == nearest_integer(n, d * (2 * half))
        }),
{
    let q = n / d;
    let rem = n % d;
    let s: int = if rem == 0 {
        0
    } else {
        1
    };
    lemma_fundamental_div_mod(n, d);
    lemma_mod_bound(n, d);
    let w = 2 * half;
    let a = q / w;
    let b = q % w;
    lemma_fundamental_div_mod(q, w);
    lemma_mod_bound(q, w);
    lemma_div_pos_is_pos(n, d);
    assert(n == a * (d * w) + (b * d + rem)) by (nonlinear_arith)
        requires
            n == d * q + rem,
            q == w * a + b,
    ;
    assert(0 <= b * d + rem < d * w) by (nonlinear_arith)
        requires
            0 <= b,
            b + 1 <= w,
            0 <= rem < d,
    ;
    lemma_fundamental_div_mod_converse(n, d * w, a, b * d + rem);
    assert(2 * q + s == a * (2 * w) + (2 * b + s)) by (nonlinear_arith)
        requires
            q == w * a + b,
    ;
    lemma_fundamental_div_mod_converse(2 * q + s, 2 * w, a, 2 * b + s);
    let low = b * d + rem;
    if b < half {
        assert(2 * low < d * w) by (nonlinear_arith)
            requires
                low == b * d + rem,
                b + 1 <= half,
                w == 2 * half,
                0 <= rem < d,
        ;
    } else if b == half {
        assert(2 * low == d * w + 2 * rem) by (nonlinear_arith)
            requires
                low == b * d + rem,
                b == half,
                w == 2 * half,
        ;
    } else {
        assert(2 * low > d * w) by (nonlinear_arith)
            requires
                low == b * d + rem,
                b >= half + 1,
                w == 2 * half,
                0 <= rem,
                0 < d,
        ;
    }
}

/// A quotient of more than 25 digits is rounded right from its integer part
/// and one more digit that tells whether a remainder was left.
pub proof fn lemma_sticky(n: int, d: int, e: int)
    requires
        0 <= n,
        0 < d,
        n / d >= 0x200_0000,
    ensures
        ({
            let s: int = if n % d == 0 {
                0
            } else {
                1
            };
            nearest_scaled(2 * (n / d) + s, 1, e - 1) == nearest_scaled(n, d, e)
        }),
{
    let q = n / d;
    let s: int = if n % d == 0 {
        0
    } else {
        1
    };
    let p = 2 * q + s;
    // Both sides with a common factor of 2 in the denominator.
    lemma2_to64();
    lemma_scaled_shift(p, 1, e - 1, 1);
    assert(nearest_scaled(p, 2, e) == nearest_scaled(p, 1, e - 1));
    lemma_fundamental_div_mod(n, d);
    lemma_mod_bound(n, d);
    let (up, down): (nat, nat) = if e >= 0 {
        (e as nat, 0)
    } else {
        (0, (-e) as nat)
    };
    lemma_pow2_pos(up);
    lemma_pow2_pos(down);
    let pu = pow2(up) as int;
    let pd = pow2(down) as int;
    let n1 = n * pu;
    let d1 = d * pd;
    let n2 = p * pu;
    let d2 = 2 * pd;
    assert(n * 1 == n && p * 1 == p && d * 1 == d);
    assert(nearest_scaled(n, d, e) == nearest(n1, d1));
    assert(nearest_scaled(p, 2, e) == nearest(n2, d2));
    assert(0 <= n1 && 0 < d1 && 0 <= n2 && 0 < d2) by (nonlinear_arith)
        requires
            n1 == n * pu,
            d1 == d * pd,
            n2 == p * pu,
            d2 == 2 * pd,
            0 <= n,
            0 < d,
            0 <= p,
            0 < pu,
            0 < pd,
    ;
    let t = excess(n1, d1);
    lemma_excess(n1, d1);
    // The place of rounding lies at least two digits above the units of q.
    assert(t + down >= up + 2) by {
        if t + down < up + 2 {
            lemma_pow2_adds(24 + t, down);
            lemma_pow2_adds(25, up);
            if 24 + t + down < 25 + up {
                lemma_pow2_strictly_increases(24 + t + down, 25 + up);
            }
            let x = pow2(24 + t) as int;
            assert(x * pd <= 0x200_0000 * pu);
            assert(n >= d * 0x200_0000) by (nonlinear_arith)
                requires
                    n == d * q + n % d,
                    n % d >= 0,
                    q >= 0x200_0000,
                    0 < d,
            ;
            assert(false) by (nonlinear_arith)
                requires
                    n * pu < d * pd * x,
                    x * pd <= 0x200_0000 * pu,
                    n >= d * 0x200_0000,
                    0 < d,
                    0 < pu,
            ;
        }
    }
    let k = (t + down - up) as nat;
    let half = pow2((k - 1) as nat) as int;
    lemma_pow2_unfold(k);
    lemma_pow2_pos((k - 1) as nat);
    let w = pow2(k) as int;
    lemma_pow2_adds(t, down);
    lemma_pow2_adds(k, up);
    let unit = pow2(t) as int;
    lemma_pow2_pos(t);
    assert(unit * pd == w * pu);
    // The same place for both.
    assert(excess(n2, d2) == t) by {
        lemma_same_excess(n, d, pu, pd, t, k, up, down);
        lemma_excess_unique(n2, d2, t);
    }
    assert(d1 * unit == (d * w) * pu) by (nonlinear_arith)
        requires
            d1 == d * pd,
            unit * pd == w * pu,
    ;
    assert(d2 * unit == (2 * w) * pu) by (nonlinear_arith)
        requires
            d2 == 2 * pd,
            unit * pd == w * pu,
    ;
    assert(0 < d * w) by (nonlinear_arith)
        requires
            0 < d,
            0 < w,
    ;
    lemma_nearest_integer_cancel(n, d * w, pu);
    lemma_nearest_integer_cancel(p, 2 * w, pu);
    lemma_nearest_integer_sticky(n, d, half);
}

proof fn lemma_same_excess(
    n: int,
    d: int,
    pu: int,
    pd: int,
    t: nat,
    k: nat,
    up: nat,
    down: nat,
)
    requires
        0 <= n,
        0 < d,
        pu == pow2(up),
        pd == pow2(down),
        k >= 2,
        t + down == up + k,
        n * pu < d * pd * pow2(24 + t),
        t > 0 ==> n * pu >= d * pd * pow2((23 + t) as nat),
    ensures
        ({
            let s: int = if n % d == 0 {
                0
            } else {
                1
            };
            let p = 2 * (n / d) + s;
            &&& p * pu < 2 * pd * pow2(24 + t)
            &&& t > 0 ==> p * pu >= 2 * pd * pow2((23 + t) as nat)
        }),
{
    let q = n / d;
    let rem = n % d;
    let s: int = if rem == 0 {
        0
    } else {
        1
    };
    let p = 2 * q + s;
    lemma_fundamental_div_mod(n, d);
    lemma_mod_bound(n, d);
    lemma_pow2_pos(up);
    lemma_pow2_pos(down);
    // n / d < 2^(24 + k), an integer, so q < 2^(24 + k) as well.
    lemma_pow2_adds(24 + t, down);
    lemma_pow2_adds(24 + k, up);
    let x = pow2(24 + t) as int;
    let y = pow2(24 + k) as int;
    assert(x * pd == y * pu);
    assert(n < d * y) by (nonlinear_arith)
        requires
            n * pu < d * pd * x,
            x * pd == y * pu,
            0 < pu,
    ;
    assert(q < y) by (nonlinear_arith)
        requires
            n < d * y,
            n == d * q + rem,
            0 <= rem,
            0 < d,
    ;
    assert(p * pu < 2 * pd * x) by (nonlinear_arith)
        requires
            p <= 2 * q + 1,
            q + 1 <= y,
            x * pd == y * pu,
            0 < pu,
    ;
    if t > 0 {
        lemma_pow2_adds((23 + t) as nat, down);
        lemma_pow2_adds((23 + k) as nat, up);
        let x0 = pow2((23 + t) as nat) as int;
        let y0 = pow2((23 + k) as nat) as int;
        assert(x0 * pd == y0 * pu);
        assert(n >= d * y0) by (nonlinear_arith)
            requires
                n * pu >= d * pd * x0,
                x0 * pd == y0 * pu,
                0 < pu,
        ;
        assert(q >= y0) by (nonlinear_arith)
            requires
                n >= d * y0,
                n == d * q + rem,
                rem < d,
                0 < d,
        ;
        assert(p * pu >= 2 * pd * x0) by (nonlinear_arith)
            requires
                p >= 2 * q,
                q >= y0,
                x0 * pd == y0 * pu,
                0 < pu,
        ;
    }
}

/// The nearest integer to a quotient lies between the integers around it.
pub proof fn lemma_nearest_integer_bounds(n: int, d: int, q: int)
    requires
        0 <= n,
        0 < d,
    ensures
        q * d <= n ==> q <= nearest_integer(n, d),
        n <= q * d ==> nearest_integer(n, d) <= q,
{
    lemma_fundamental_div_mod(n, d);
    lemma_mod_bound(n, d);
    let a = n / d;
    let r = n % d;
    if q * d <= n {
        assert(q <= a) by (nonlinear_arith)
            requires
                q * d <= n,
                n == d * a + r,
                r < d,
                0 < d,
        ;
    }
    if n <= q * d {
        if r == 0 {
            assert(a <= q) by (nonlinear_arith)
                requires
                    n <= q * d,
                    n == d * a,
                    0 < d,
            ;
        } else {
            assert(a + 1 <= q) by (nonlinear_arith)
                requires
                    n <= q * d,
                    n == d * a + r,
                    0 < r,
                    0 < d,
            ;
        }
    }
}

proof fn lemma_nearest_integer_monotone(n1: int, n2: int, d: int)
    requires
        0 <= n1 <= n2,
        0 < d,
    ensures
        nearest_integer(n1, d) <= nearest_integer(n2, d),
{
    lemma_fundamental_div_mod(n1, d);
    lemma_fundamental_div_mod(n2, d);
    lemma_mod_bound(n1, d);
    lemma_mod_bound(n2, d);
    lemma_div_is_ordered(n1, n2, d);
}

proof fn lemma_nearest_monotone_same(n1: int, n2: int, d: int)
    requires
        0 <= n1 <= n2,
        0 < d,
    ensures
        nearest(n1, d) <= nearest(n2, d),
{
    let t1 = excess(n1, d);
    let t2 = excess(n2, d);
    lemma_excess(n1, d);
    lemma_excess(n2, d);
    lemma2_to64();
    lemma_pow2_pos(t1);
    lemma_pow2_pos(t2);
    let u1 = pow2(t1) as int;
    let u2 = pow2(t2) as int;
    lemma_pow2_adds(24, t1);
    lemma_pow2_adds(24, t2);
    assert(0 < d * u1 && 0 < d * u2) by (nonlinear_arith)
        requires
            0 < d,
            0 < u1,
            0 < u2,
    ;
    if t1 == t2 {
        lemma_nearest_integer_monotone(n1, n2, d * u1);
        let a = nearest_integer(n1, d * u1);
        let b = nearest_integer(n2, d * u1);
        assert(a * u1 <= b * u1) by (nonlinear_arith)
            requires
                a <= b,
                0 < u1,
        ;
    } else if t1 < t2 {
        lemma_pow2_adds(23, t2);
        if 24 + t1 < 23 + t2 {
            lemma_pow2_strictly_increases(24 + t1, (23 + t2) as nat);
        }
        let a = nearest_integer(n1, d * u1);
        let b = nearest_integer(n2, d * u2);
        assert(n1 <= 0x100_0000 * (d * u1)) by (nonlinear_arith)
            requires
                n1 < d * (0x100_0000 * u1),
        ;
        assert(0x80_0000 * (d * u2) <= n2) by (nonlinear_arith)
            requires
                n2 >= d * (0x80_0000 * u2),
        ;
        lemma_nearest_integer_bounds(n1, d * u1, 0x100_0000);
        lemma_nearest_integer_bounds(n2, d * u2, 0x80_0000);
        assert(a * u1 <= b * u2) by (nonlinear_arith)
            requires
                a <= 0x100_0000,
                0x80_0000 <= b,
                0x100_0000 * u1 <= 0x80_0000 * u2,
                0 < u1,
                0 < u2,
        ;
    } else {
        lemma_pow2_adds(23, t1);
        if 24 + t2 < 23 + t1 {
            lemma_pow2_strictly_increases(24 + t2, (23 + t1) as nat);
        }
        let x = pow2(24 + t2) as int;
        let y = pow2((23 + t1) as nat) as int;
        assert(false) by (nonlinear_arith)
            requires
                n2 < d * x,
                n1 >= d * y,
                n1 <= n2,
                x <= y,
                0 < d,
        ;
    }
}

/// Rounding keeps the order of what is rounded.
pub proof fn lemma_nearest_monotone(n1: int, d1: int, n2: int, d2: int)
    requires
        0 <= n1,
        0 <= n2,
        0 < d1,
        0 < d2,
        n1 * d2 <= n2 * d1,
    ensures
        nearest(n1, d1) <= nearest(n2, d2),
{
    lemma_nearest_cancel(n1, d1, d2);
    lemma_nearest_cancel(n2, d2, d1);
    assert(d1 * d2 == d2 * d1) by (nonlinear_arith);
    assert(0 <= n1 * d2 && 0 < d1 * d2) by (nonlinear_arith)
        requires
            0 <= n1,
            0 < d1,
            0 < d2,
    ;
    lemma_nearest_monotone_same(n1 * d2, n2 * d1, d1 * d2);
}

/// Rounding adds less than one part in `2^24`, unless digits below the units
/// are lost.
pub proof fn lemma_nearest_error(n: int, d: int)
    requires
        0 < d,
        0x80_0000 * d <= n,
    ensures
        nearest(n, d) * d * 0x100_0000 <= n * 0x100_0001,
{
    let t = excess(n, d);
    let unit = pow2(t) as int;
    lemma2_to64();
    lemma_pow2_pos(t);
    lemma_excess(n, d);
    let dd = d * unit;
    assert(0 < dd) by (nonlinear_arith)
        requires
            0 < d,
            0 < unit,
            dd == d * unit,
    ;
    let q = nearest_integer(n, dd);
    lemma_fundamental_div_mod(n, dd);
    lemma_mod_bound(n, dd);
    assert(2 * (q * dd) <= 2 * n + dd) by (nonlinear_arith)
        requires
            n == dd * (n / dd) + n % dd,
            0 <= n % dd < dd,
            q == n / dd || (q == n / dd + 1 && 2 * (n % dd) >= dd),
    ;
    assert(0x80_0000 * dd <= n) by {
        if t > 0 {
            lemma_pow2_adds(23, t);
            assert(d * (0x80_0000 * unit) == 0x80_0000 * (d * unit)) by (nonlinear_arith);
        } else {
            assert(d * 1 == d);
        }
    }
    assert(q * unit * d == q * dd) by (nonlinear_arith)
        requires
            dd == d * unit,
    ;
}

/// Rounding changes a number by no more than one part in `2^24`, and half a unit
/// more.
pub proof fn lemma_nearest_near(n: int, d: int)
    requires
        0 < d,
        0 <= n,
    ensures
        nearest(n, d) * d * 0x100_0000 <= n * 0x100_0001 + d * 0x80_0000,
        nearest(n, d) * d * 0x100_0000 >= n * 0xff_ffff - d * 0x80_0000,
        nearest(n, d) >= 0,
{
    let t = excess(n, d);
    let unit = pow2(t) as int;
    lemma2_to64();
    lemma_pow2_pos(t);
    lemma_excess(n, d);
    let dd = d * unit;
    assert(0 < dd) by (nonlinear_arith)
        requires
            0 < d,
            0 < unit,
            dd == d * unit,
    ;
    let q = nearest_integer(n, dd);
    lemma_fundamental_div_mod(n, dd);
    lemma_mod_bound(n, dd);
    lemma_div_pos_is_pos(n, dd);
    assert(2 * (q * dd) <= 2 * n + dd && 2 * (q * dd) >= 2 * n - dd) by (nonlinear_arith)
        requires
            n == dd * (n / dd) + n % dd,
            0 <= n % dd < dd,
            q == n / dd && 2 * (n % dd) <= dd || (q == n / dd + 1 && 2 * (n % dd) >= dd),
    ;
    assert(0x80_0000 * dd <= n + 0x80_0000 * d) by {
        if t > 0 {
            lemma_pow2_adds(23, t);
            assert(d * (0x80_0000 * unit) == 0x80_0000 * (d * unit)) by (nonlinear_arith);
        } else {
            assert(d * 1 == d);
        }
    }
    assert(q * unit * d == q * dd) by (nonlinear_arith)
        requires
            dd == d * unit,
    ;
    assert(0 <= q * unit) by (nonlinear_arith)
        requires
            0 <= q,
            0 < unit,
    ;
}

} // verus!
