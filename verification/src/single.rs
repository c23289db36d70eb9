//! Single-precision arithmetic (IEEE 754 binary32, rounding to nearest, ties
//! to even), carried out on integers so that every result is proved.
use crate::rounding::{
    excess, lemma_excess_unique, lemma_nearest_exact, lemma_nearest_integer_cancel,
    lemma_nearest_monotone, lemma_scaled_shift, lemma_sticky, nearest, nearest_integer, nearest_scaled,
};
use vstd::arithmetic::div_mod::*;
use vstd::arithmetic::mul::*;
use vstd::arithmetic::power2::*;
use vstd::prelude::*;

verus! {

/// What a single-precision number stands for. A finite one is a whole number
/// of units of `2^-149`, the smallest positive number there is; the two zeros
/// stand for the same.
pub enum Value {
    NotANumber,
    Infinite { negative: bool },
    Finite(int),
}

pub open spec fn signed(negative: bool, magnitude: int) -> int {
    if negative {
        -magnitude
    } else {
        magnitude
    }
}

pub open spec fn magnitude(x: int) -> int {
    if x < 0 {
        -x
    } else {
        x
    }
}

/// A rounded magnitude with its sign: infinite from `2^128` on.
pub open spec fn bounded(negative: bool, units: int) -> Value {
    if units >= pow2(277) {
        Value::Infinite { negative }
    } else {
        Value::Finite(signed(negative, units))
    }
}

/// The number nearest to `n / d` units.
pub open spec fn rounded(n: int, d: int) -> Value
    recommends
        0 < d,
{
    bounded(n < 0, nearest(magnitude(n), d))
}

/// The value of the 32 bits of a number: a sign, 8 bits of exponent and 23 of
/// fraction.
pub open spec fn bits_value(bits: u32) -> Value {
    let negative = bits >= 0x8000_0000;
    let exponent = bits as int / 0x80_0000 % 0x100;
    let fraction = bits as int % 0x80_0000;
    if exponent == 0xff {
        if fraction == 0 {
            Value::Infinite { negative }
        } else {
            Value::NotANumber
        }
    } else if exponent == 0 {
        Value::Finite(signed(negative, fraction))
    } else {
        Value::Finite(signed(negative, (0x80_0000 + fraction) * pow2((exponent - 1) as nat)))
    }
}

/// The number nearest to the integer `n`.
pub open spec fn int_value(n: int) -> Value {
    rounded(n * pow2(149), 1)
}

pub open spec fn negated(a: Value) -> Value {
    match a {
        Value::NotANumber => Value::NotANumber,
        Value::Infinite { negative } => Value::Infinite { negative: !negative },
        Value::Finite(x) => Value::Finite(-x),
    }
}

pub open spec fn sum(a: Value, b: Value) -> Value {
    match (a, b) {
        (Value::NotANumber, _) => Value::NotANumber,
        (_, Value::NotANumber) => Value::NotANumber,
        (Value::Infinite { negative: s }, Value::Infinite { negative: t }) => if s == t {
            a
        } else {
            Value::NotANumber
        },
        (Value::Infinite { .. }, _) => a,
        (_, Value::Infinite { .. }) => b,
        (Value::Finite(x), Value::Finite(y)) => rounded(x + y, 1),
    }
}

pub open spec fn difference(a: Value, b: Value) -> Value {
    sum(a, negated(b))
}

pub open spec fn product(a: Value, b: Value) -> Value {
    match (a, b) {
        (Value::NotANumber, _) => Value::NotANumber,
        (_, Value::NotANumber) => Value::NotANumber,
        (Value::Infinite { negative: s }, Value::Infinite { negative: t }) => Value::Infinite {
            negative: s != t,
        },
        (Value::Infinite { negative: s }, Value::Finite(y)) => if y == 0 {
            Value::NotANumber
        } else {
            Value::Infinite { negative: s != (y < 0) }
        },
        (Value::Finite(x), Value::Infinite { negative: t }) => if x == 0 {
            Value::NotANumber
        } else {
            Value::Infinite { negative: t != (x < 0) }
        },
        (Value::Finite(x), Value::Finite(y)) => rounded(x * y, pow2(149) as int),
    }
}

/// The quotient by a number other than zero.
pub open spec fn quotient(a: Value, b: Value) -> Value
    recommends
        b != Value::Finite(0),
{
    match (a, b) {
        (Value::NotANumber, _) => Value::NotANumber,
        (_, Value::NotANumber) => Value::NotANumber,
        (Value::Infinite { .. }, Value::Infinite { .. }) => Value::NotANumber,
        (Value::Infinite { negative: s }, Value::Finite(y)) => Value::Infinite {
            negative: s != (y < 0),
        },
        (Value::Finite(_), Value::Infinite { .. }) => Value::Finite(0),
        (Value::Finite(x), Value::Finite(y)) => bounded(
            (x < 0) != (y < 0),
            nearest(magnitude(x) * pow2(149), magnitude(y)),
        ),
    }
}

/// Whether `a < b`; nothing is less than what is not a number, nor it than
/// anything.
pub open spec fn less(a: Value, b: Value) -> bool {
    match (a, b) {
        (Value::NotANumber, _) => false,
        (_, Value::NotANumber) => false,
        (Value::Infinite { negative: s }, Value::Infinite { negative: t }) => s && !t,
        (Value::Infinite { negative: s }, _) => s,
        (_, Value::Infinite { negative: t }) => !t,
        (Value::Finite(x), Value::Finite(y)) => x < y,
    }
}

/// The greater of the two; the other one where one is not a number.
pub open spec fn greater_of(a: Value, b: Value) -> Value {
    if a is NotANumber || less(a, b) {
        b
    } else {
        a
    }
}

/// The lesser of the two; the other one where one is not a number.
pub open spec fn lesser_of(a: Value, b: Value) -> Value {
    if a is NotANumber || less(b, a) {
        b
    } else {
        a
    }
}

/// The integer part, brought into `0..=limit`; zero for what is not a number.
pub open spec fn whole(a: Value, limit: int) -> int {
    match a {
        Value::NotANumber => 0,
        Value::Infinite { negative } => if negative {
            0
        } else {
            limit
        },
        Value::Finite(x) => if x < 0 {
            0
        } else if x / (pow2(149) as int) < limit {
            x / (pow2(149) as int)
        } else {
            limit
        },
    }
}

/// A single-precision number, held by its bits.
#[derive(Clone, Copy, Debug, PartialEq, Eq, Structural)]
pub struct Single {
    pub bits: u32,
}

/// A number taken apart: a finite one is `significand * 2^exponent` units.
enum Parts {
    NotANumber,
    Infinite { negative: bool },
    Finite { negative: bool, significand: u32, exponent: u32 },
}

impl Parts {
    spec fn normal(self) -> bool {
        match self {
            Parts::Finite { significand, exponent, .. } => {
                &&& significand < 0x100_0000
                &&& exponent <= 253
                &&& exponent > 0 ==> significand >= 0x80_0000
            },
            _ => true,
        }
    }

    spec fn value(self) -> Value {
        match self {
            Parts::NotANumber => Value::NotANumber,
            Parts::Infinite { negative } => Value::Infinite { negative },
            Parts::Finite { negative, significand, exponent } => Value::Finite(
                signed(negative, significand * pow2(exponent as nat)),
            ),
        }
    }
}

impl Single {
    pub open spec fn value(self) -> Value {
        bits_value(self.bits)
    }

    fn parts(self) -> (parts: Parts)
        ensures
            parts.normal(),
            parts.value() == self.value(),
    {
        proof {
            lemma2_to64();
        }
        let negative = self.bits >= 0x8000_0000;
        let exponent: u32 = self.bits / 0x80_0000 % 0x100;
        let fraction: u32 = self.bits % 0x80_0000;
        if exponent == 0xff {
            if fraction == 0 {
                Parts::Infinite { negative }
            } else {
                Parts::NotANumber
            }
        } else if exponent == 0 {
            assert(fraction * pow2(0) == fraction) by (nonlinear_arith)
                requires
                    pow2(0) == 1,
            ;
            Parts::Finite { negative, significand: fraction, exponent: 0 }
        } else {
            Parts::Finite { negative, significand: 0x80_0000 + fraction, exponent: (exponent - 1) as u32 }
        }
    }

    fn zero() -> (r: Single)
        ensures
            r.value() == Value::Finite(0),
    {
        Single { bits: 0 }
    }

    fn infinite(negative: bool) -> (r: Single)
        ensures
            r.value() == (Value::Infinite { negative }),
    {
        if negative {
            Single { bits: 0xff80_0000 }
        } else {
            Single { bits: 0x7f80_0000 }
        }
    }

    fn not_a_number() -> (r: Single)
        ensures
            r.value() == Value::NotANumber,
    {
        Single { bits: 0x7fc0_0000 }
    }

    /// Puts a finite number together.
    fn finite(negative: bool, significand: u32, exponent: u32) -> (r: Single)
        requires
            (Parts::Finite { negative, significand, exponent }).normal(),
        ensures
            r.value() == Value::Finite(signed(negative, significand * pow2(exponent as nat))),
    {
        proof {
            lemma2_to64();
        }
        let sign: u32 = if negative {
            0x8000_0000
        } else {
            0
        };
        if significand < 0x80_0000 {
            assert(significand * pow2(0) == significand) by (nonlinear_arith)
                requires
                    pow2(0) == 1,
            ;
            Single { bits: sign + significand }
        } else {
            let bits: u32 = sign + (exponent + 1) * 0x80_0000 + (significand - 0x80_0000);
            assert(bits as int / 0x80_0000 % 0x100 == exponent + 1);
            assert(bits as int % 0x80_0000 == significand - 0x80_0000);
            Single { bits }
        }
    }

    /// The number nearest to `p * 2^e` units, with the given sign.
    fn nearest_to(negative: bool, p: u128, e: i32) -> (r: Single)
        requires
            p < 0x10_0000_0000_0000_0000_0000_0000,
            -600 <= e <= 600,
        ensures
            r.value() == bounded(negative, nearest_scaled(p as int, 1, e as int)),
    {
        proof {
            lemma2_to64();
            lemma_pow2_pos(277);
        }
        if e < -110 {
            proof {
                lemma_vanishing(p as int, e as int);
            }
            return Self::zero();
        }
        let mut unit: u128 = 1;
        let mut shift: i32 = 0;
        while p / unit >= 0x100_0000 || e + shift < 0
            invariant
                p < 0x10_0000_0000_0000_0000_0000_0000,
                -110 <= e <= 600,
                0 <= shift <= 110,
                unit == pow2(shift as nat),
                unit >= 1,
                shift > 0 ==> p >= pow2((23 + shift) as nat) || e + shift - 1 < 0,
            decreases 110 - shift,
        {
            proof {
                lemma2_to64();
                lemma_pow2_adds(24, shift as nat);
                lemma_pow2_unfold((shift + 1) as nat);
                assert(unit <= 0x4000_0000_0000_0000_0000_0000_0000) by {
                    lemma_large_powers();
                    if shift < 110 {
                        lemma_pow2_strictly_increases(shift as nat, 110);
                    }
                }
                if p / unit >= 0x100_0000 {
                    assert(p >= 0x100_0000 * unit) by (nonlinear_arith)
                        requires
                            p / unit >= 0x100_0000,
                            unit >= 1,
                    ;
                    if shift >= 76 {
                        lemma_large_powers();
                        if shift > 76 {
                            lemma_pow2_strictly_increases(100, (24 + shift) as nat);
                        }
                        assert(false);
                    }
                }
            }
            unit = unit * 2;
            shift = shift + 1;
        }
        let q: u128 = p / unit;
        let rest: u128 = p % unit;
        let up = !(rest < unit - rest || (rest == unit - rest && q % 2 == 0));
        let kept: u128 = if up {
            q + 1
        } else {
            q
        };
        let ghost total = kept * pow2((e + shift) as nat);
        proof {
            assert(kept == nearest_integer(p as int, unit as int));
            lemma_pow2_adds(24, shift as nat);
            assert(p < 0x100_0000 * unit) by (nonlinear_arith)
                requires
                    p / unit < 0x100_0000,
                    unit >= 1,
            ;
            lemma_kept(p as int, e as int, shift as nat);
        }
        let mut significand: u32 = kept as u32;
        let mut exponent: i32 = e + shift;
        if significand == 0x100_0000 {
            proof {
                lemma_pow2_unfold((exponent + 1) as nat);
                let x = pow2(exponent as nat) as int;
                assert(0x80_0000 * (2 * x) == 0x100_0000 * x) by (nonlinear_arith);
            }
            significand = 0x80_0000;
            exponent = exponent + 1;
        }
        while significand < 0x80_0000 && exponent > 0
            invariant
                significand < 0x100_0000,
                0 <= exponent <= 711,
                significand * pow2(exponent as nat) == total,
            decreases exponent,
        {
            proof {
                lemma_pow2_unfold(exponent as nat);
                let x = pow2((exponent - 1) as nat) as int;
                assert(significand * (2 * x) == 2 * significand * x) by (nonlinear_arith);
            }
            significand = significand * 2;
            exponent = exponent - 1;
        }
        if exponent > 253 {
            proof {
                lemma_pow2_adds(23, exponent as nat);
                if exponent > 254 {
                    lemma_pow2_strictly_increases(277, (23 + exponent) as nat);
                }
                let x = pow2(exponent as nat) as int;
                assert(significand * x >= 0x80_0000 * x) by (nonlinear_arith)
                    requires
                        significand >= 0x80_0000,
                        x >= 0,
                ;
            }
            Self::infinite(negative)
        } else {
            proof {
                lemma_below_infinite(significand as int, exponent as nat);
            }
            Self::finite(negative, significand, exponent as u32)
        }
    }
}

/// `2^k`.
fn power_of_two(k: u32) -> (r: u128)
    requires
        k <= 100,
    ensures
        r == pow2(k as nat),
{
    proof {
        lemma2_to64();
    }
    let mut r: u128 = 1;
    let mut i: u32 = 0;
    while i < k
        invariant
            i <= k <= 100,
            r == pow2(i as nat),
        decreases k - i,
    {
        proof {
            lemma_large_powers();
            lemma_pow2_unfold((i + 1) as nat);
            if i < 100 {
                lemma_pow2_strictly_increases(i as nat, 100);
            }
        }
        r = r * 2;
        i = i + 1;
    }
    r
}

impl Single {
    /// The number with the given bits.
    pub fn from_bits(bits: u32) -> (r: Single)
        ensures
            r.value() == bits_value(bits),
            r.bits == bits,
    {
        Single { bits }
    }

    /// The number nearest to `n`.
    pub fn from_u32(n: u32) -> (r: Single)
        ensures
            r.value() == int_value(n as int),
    {
        Self::from_u64(n as u64)
    }

    /// The number nearest to `n`.
    pub fn from_u64(n: u64) -> (r: Single)
        ensures
            r.value() == int_value(n as int),
    {
        proof {
            lemma_pow2_pos(149);
            let x = pow2(149) as int;
            assert(0 <= n * x) by (nonlinear_arith)
                requires
                    0 <= n,
                    0 < x,
            ;
        }
        Self::nearest_to(false, n as u128, 149)
    }

    pub fn neg(self) -> (r: Single)
        ensures
            r.value() == negated(self.value()),
    {
        if self.bits >= 0x8000_0000 {
            Single { bits: self.bits - 0x8000_0000 }
        } else {
            Single { bits: self.bits + 0x8000_0000 }
        }
    }

    /// The sum of two finite numbers, the first with the greater exponent.
    fn add_finite(s1: bool, m1: u32, e1: u32, s2: bool, m2: u32, e2: u32) -> (r: Single)
        requires
            (Parts::Finite { negative: s1, significand: m1, exponent: e1 }).normal(),
            (Parts::Finite { negative: s2, significand: m2, exponent: e2 }).normal(),
            e2 <= e1,
        ensures
            r.value() == rounded(
                signed(s1, m1 * pow2(e1 as nat)) + signed(s2, m2 * pow2(e2 as nat)),
                1,
            ),
    {
        let gap: u32 = e1 - e2;
        let ghost pe = pow2(e2 as nat) as int;
        let ghost x = signed(s1, m1 * pow2(e1 as nat));
        let ghost y = signed(s2, m2 * pow2(e2 as nat));
        proof {
            lemma2_to64();
            lemma_pow2_adds(gap as nat, e2 as nat);
            lemma_pow2_pos(e2 as nat);
            lemma_pow2_pos(gap as nat);
        }
        let ghost pg = pow2(gap as nat) as int;
        assert(m1 * pow2(e1 as nat) == (m1 * pg) * pe) by (nonlinear_arith)
            requires
                pow2(e1 as nat) == pg * pe,
        ;
        if gap <= 64 {
            let power = power_of_two(gap);
            proof {
                if gap < 64 {
                    lemma_pow2_strictly_increases(gap as nat, 64);
                }
                assert(0 <= m1 * power <= 0x100_0000 * 0x1_0000_0000_0000_0000) by (nonlinear_arith)
                    requires
                        0 <= m1 <= 0x100_0000,
                        0 <= power <= 0x1_0000_0000_0000_0000,
                ;
            }
            let a: u128 = m1 as u128 * power;
            let b: u128 = m2 as u128;
            let (negative, p): (bool, u128) = if s1 == s2 {
                (s1, a + b)
            } else if a >= b {
                (s1, a - b)
            } else {
                (s2, b - a)
            };
            proof {
                lemma_signed_sum(s1, a as int, s2, b as int, negative, p as int, pe);
            }
            Self::nearest_to(negative, p, e2 as i32)
        } else if m2 == 0 {
            proof {
                lemma_nearest_exact(m1 as int, e1 as nat, 1);
                lemma_below_infinite(m1 as int, e1 as nat);
                assert(m2 * pe == 0) by (nonlinear_arith)
                    requires
                        m2 == 0,
                ;
            }
            Self::finite(s1, m1, e1)
        } else {
            let top: u128 = m1 as u128 * 0x100_0000_0000;
            let q: u128 = if s1 == s2 {
                top
            } else {
                top - 1
            };
            proof {
                let k = (gap - 40) as nat;
                lemma_pow2_pos(k);
                lemma_pow2_adds(k, 8);
                lemma_pow2_adds(k, 32);
                let d = pow2(k) as int;
                assert(pg == 0x100_0000_0000 * d) by {
                    lemma_pow2_adds(40, k);
                    lemma_pow2_adds(32, 8);
                }
                if k > 25 {
                    lemma_pow2_strictly_increases(25, k);
                }
                let n = if s1 == s2 {
                    m1 * pg + m2
                } else {
                    m1 * pg - m2
                };
                let rem: int = if s1 == s2 {
                    m2 as int
                } else {
                    d - m2
                };
                assert(m1 * pg == (m1 * 0x100_0000_0000) * d) by (nonlinear_arith)
                    requires
                        pg == 0x100_0000_0000 * d,
                ;
                assert((m1 * 0x100_0000_0000 - 1) * d == (m1 * 0x100_0000_0000) * d - d)
                    by (nonlinear_arith);
                assert(n == q * d + rem);
                lemma_fundamental_div_mod_converse(n, d, q as int, rem);
                assert(0 <= n) by (nonlinear_arith)
                    requires
                        n == q * d + rem,
                        0 <= q,
                        0 < d,
                        0 <= rem,
                ;
                lemma_sticky(n, d, e1 - 40);
                lemma_scaled_shift(n, 1, e2 as int, k);
                assert(1 * d == d);
                lemma_signed_sum(s1, m1 * pg, s2, m2 as int, s1, n, pe);
            }
            Self::nearest_to(s1, 2 * q + 1, e1 as i32 - 41)
        }
    }

    pub fn add(self, other: Single) -> (r: Single)
        ensures
            r.value() == sum(self.value(), other.value()),
    {
        match (self.parts(), other.parts()) {
            (Parts::NotANumber, _) => Self::not_a_number(),
            (_, Parts::NotANumber) => Self::not_a_number(),
            (Parts::Infinite { negative: s }, Parts::Infinite { negative: t }) => if s == t {
                Self::infinite(s)
            } else {
                Self::not_a_number()
            },
            (Parts::Infinite { negative }, _) => Self::infinite(negative),
            (_, Parts::Infinite { negative }) => Self::infinite(negative),
            (
                Parts::Finite { negative: s1, significand: m1, exponent: e1 },
                Parts::Finite { negative: s2, significand: m2, exponent: e2 },
            ) => if e2 <= e1 {
                Self::add_finite(s1, m1, e1, s2, m2, e2)
            } else {
                Self::add_finite(s2, m2, e2, s1, m1, e1)
            },
        }
    }

    pub fn sub(self, other: Single) -> (r: Single)
        ensures
            r.value() == difference(self.value(), other.value()),
    {
        self.add(other.neg())
    }

    pub fn mul(self, other: Single) -> (r: Single)
        ensures
            r.value() == product(self.value(), other.value()),
    {
        proof {
            lemma_finite_zero_parts();
        }
        match (self.parts(), other.parts()) {
            (Parts::NotANumber, _) => Self::not_a_number(),
            (_, Parts::NotANumber) => Self::not_a_number(),
            (Parts::Infinite { negative: s }, Parts::Infinite { negative: t }) => Self::infinite(
                s != t,
            ),
            (
                Parts::Infinite { negative: s },
                Parts::Finite { negative: t, significand, .. },
            ) => if significand == 0 {
                Self::not_a_number()
            } else {
                Self::infinite(s != t)
            },
            (
                Parts::Finite { negative: s, significand, .. },
                Parts::Infinite { negative: t },
            ) => if significand == 0 {
                Self::not_a_number()
            } else {
                Self::infinite(s != t)
            },
            (
                Parts::Finite { negative: s1, significand: m1, exponent: e1 },
                Parts::Finite { negative: s2, significand: m2, exponent: e2 },
            ) => {
                assert(0 <= m1 * m2 <= 0x100_0000 * 0x100_0000) by (nonlinear_arith)
                    requires
                        0 <= m1 <= 0x100_0000,
                        0 <= m2 <= 0x100_0000,
                ;
                let p: u128 = m1 as u128 * m2 as u128;
                let e: i32 = e1 as i32 + e2 as i32 - 149;
                proof {
                    lemma_product(s1, m1 as int, e1 as nat, s2, m2 as int, e2 as nat);
                }
                Self::nearest_to(s1 != s2, p, e)
            },
        }
    }

    pub fn div(self, other: Single) -> (r: Single)
        requires
            other.value() != Value::Finite(0),
        ensures
            r.value() == quotient(self.value(), other.value()),
    {
        proof {
            lemma_finite_zero_parts();
        }
        match (self.parts(), other.parts()) {
            (Parts::NotANumber, _) => Self::not_a_number(),
            (_, Parts::NotANumber) => Self::not_a_number(),
            (Parts::Infinite { .. }, Parts::Infinite { .. }) => Self::not_a_number(),
            (Parts::Infinite { negative: s }, Parts::Finite { negative: t, .. }) => Self::infinite(
                s != t,
            ),
            (Parts::Finite { .. }, Parts::Infinite { .. }) => Self::zero(),
            (
                Parts::Finite { negative: s1, significand: m1, exponent: e1 },
                Parts::Finite { negative: s2, significand: m2, exponent: e2 },
            ) => {
                let n: u128 = m1 as u128 * 0x1_0000_0000_0000_0000;
                let q: u128 = n / m2 as u128;
                let rest: u128 = n % m2 as u128;
                let p: u128 = if rest == 0 {
                    2 * q
                } else {
                    2 * q + 1
                };
                let e: i32 = e1 as i32 - e2 as i32 + 84;
                proof {
                    lemma_quotient(s1, m1 as int, e1 as nat, s2, m2 as int, e2 as nat);
                }
                Self::nearest_to(s1 != s2, p, e)
            },
        }
    }

    /// Whether this number is less than the other.
    pub fn lt(self, other: Single) -> (r: bool)
        ensures
            r == less(self.value(), other.value()),
    {
        match (self.parts(), other.parts()) {
            (Parts::NotANumber, _) => false,
            (_, Parts::NotANumber) => false,
            (Parts::Infinite { negative: s }, Parts::Infinite { negative: t }) => s && !t,
            (Parts::Infinite { negative: s }, _) => s,
            (_, Parts::Infinite { negative: t }) => !t,
            (
                Parts::Finite { negative: s1, significand: m1, exponent: e1 },
                Parts::Finite { negative: s2, significand: m2, exponent: e2 },
            ) => {
                proof {
                    lemma_magnitudes(m1 as int, e1 as nat, m2 as int, e2 as nat);
                    lemma_magnitudes(m2 as int, e2 as nat, m1 as int, e1 as nat);
                }
                if s1 != s2 {
                    s1 && (m1 != 0 || m2 != 0)
                } else if s1 {
                    e2 < e1 || (e1 == e2 && m2 < m1)
                } else {
                    e1 < e2 || (e1 == e2 && m1 < m2)
                }
            },
        }
    }

    pub fn is_nan(self) -> (r: bool)
        ensures
            r == (self.value() is NotANumber),
    {
        match self.parts() {
            Parts::NotANumber => true,
            _ => false,
        }
    }

    pub fn max(self, other: Single) -> (r: Single)
        ensures
            r.value() == greater_of(self.value(), other.value()),
    {
        if self.is_nan() || self.lt(other) {
            other
        } else {
            self
        }
    }

    pub fn min(self, other: Single) -> (r: Single)
        ensures
            r.value() == lesser_of(self.value(), other.value()),
    {
        if self.is_nan() || other.lt(self) {
            other
        } else {
            self
        }
    }

    /// The integer part, brought into `0..=limit`.
    pub fn whole_up_to(self, limit: u64) -> (r: u64)
        ensures
            r == whole(self.value(), limit as int),
    {
        match self.parts() {
            Parts::NotANumber => 0,
            Parts::Infinite { negative } => if negative {
                0
            } else {
                limit
            },
            Parts::Finite { negative, significand, exponent } => {
                proof {
                    lemma_magnitude_sign(significand as int, exponent as nat);
                    lemma_whole(significand as int, exponent as nat, limit as int);
                }
                if negative || significand == 0 {
                    0
                } else if exponent >= 149 + 64 {
                    limit
                } else if exponent >= 149 {
                    let n: u128 = significand as u128 * power_of_two(exponent - 149);
                    if n < limit as u128 {
                        n as u64
                    } else {
                        limit
                    }
                } else if exponent < 125 {
                    0
                } else {
                    let n: u128 = significand as u128 / power_of_two(149 - exponent);
                    if n < limit as u128 {
                        n as u64
                    } else {
                        limit
                    }
                }
            },
        }
    }

    pub fn to_u32(self) -> (r: u32)
        ensures
            r == whole(self.value(), u32::MAX as int),
    {
        self.whole_up_to(u32::MAX as u64) as u32
    }

    pub fn to_usize(self) -> (r: usize)
        ensures
            r == whole(self.value(), usize::MAX as int),
    {
        self.whole_up_to(usize::MAX as u64) as usize
    }
}

proof fn lemma_magnitude_sign(m: int, e: nat)
    requires
        0 <= m,
    ensures
        0 <= m * pow2(e),
        m * pow2(e) == 0 <==> m == 0,
{
    lemma_pow2_pos(e);
    let x = pow2(e) as int;
    assert(0 <= m * x && (m * x == 0 <==> m == 0)) by (nonlinear_arith)
        requires
            0 <= m,
            0 < x,
    ;
}

/// A finite number is zero just where its significand is.
proof fn lemma_finite_zero_parts()
    ensures
        forall|m: int, e: nat|
            #![trigger m * pow2(e)]
            0 <= m ==> 0 <= m * pow2(e) && (m * pow2(e) == 0 <==> m == 0),
{
    assert forall|m: int, e: nat|
        #![trigger m * pow2(e)]
        0 <= m implies 0 <= m * pow2(e) && (m * pow2(e) == 0 <==> m == 0) by {
        lemma_magnitude_sign(m, e);
    }
}

/// The sum of `a` and `b` units of `pe` each, taken with their signs.
proof fn lemma_signed_sum(
    s1: bool,
    a: int,
    s2: bool,
    b: int,
    negative: bool,
    p: int,
    pe: int,
)
    requires
        0 <= a,
        0 <= b,
        0 <= p,
        0 < pe,
        s1 == s2 ==> p == a + b && negative == s1,
        s1 != s2 && a >= b ==> p == a - b && negative == s1,
        s1 != s2 && a < b ==> p == b - a && negative == s2,
    ensures
        magnitude(signed(s1, a * pe) + signed(s2, b * pe)) == p * pe,
        rounded(signed(s1, a * pe) + signed(s2, b * pe), 1) == bounded(negative, nearest(p * pe, 1)),
{
    let total = signed(s1, a * pe) + signed(s2, b * pe);
    assert(total == signed(negative, p * pe)) by (nonlinear_arith)
        requires
            total == signed(s1, a * pe) + signed(s2, b * pe),
            s1 == s2 ==> p == a + b && negative == s1,
            s1 != s2 && a >= b ==> p == a - b && negative == s1,
            s1 != s2 && a < b ==> p == b - a && negative == s2,
    ;
    assert(0 <= p * pe && (p * pe == 0 <==> p == 0)) by (nonlinear_arith)
        requires
            0 <= p,
            0 < pe,
    ;
    if p == 0 {
        lemma_nearest_zero(1);
    }
}

pub proof fn lemma_nearest_zero(d: int)
    requires
        0 < d,
    ensures
        nearest(0, d) == 0,
        bounded(true, 0) == bounded(false, 0),
{
    lemma2_to64();
    lemma_pow2_pos(277);
    assert(excess(0, d) == 0);
    assert(d * 1 == d);
    lemma_basic_div(0, d);
    lemma_small_mod(0, d as nat);
}

proof fn lemma_product(s1: bool, m1: int, e1: nat, s2: bool, m2: int, e2: nat)
    requires
        0 <= m1,
        0 <= m2,
    ensures
        rounded(signed(s1, m1 * pow2(e1)) * signed(s2, m2 * pow2(e2)), pow2(149) as int) == bounded(
            s1 != s2,
            nearest_scaled(m1 * m2, 1, e1 + e2 - 149),
        ),
{
    lemma_magnitude_sign(m1, e1);
    lemma_magnitude_sign(m2, e2);
    lemma_pow2_adds(e1, e2);
    lemma_pow2_pos(149);
    let a = m1 * pow2(e1);
    let b = m2 * pow2(e2);
    let x = signed(s1, a);
    let y = signed(s2, b);
    let p = m1 * m2;
    let pe = pow2(e1 + e2) as int;
    let x1 = pow2(e1) as int;
    let x2 = pow2(e2) as int;
    assert(a * b == p * pe) by (nonlinear_arith)
        requires
            a == m1 * x1,
            b == m2 * x2,
            p == m1 * m2,
            pe == x1 * x2,
    ;
    assert(x * y == signed(s1 != s2, a * b)) by (nonlinear_arith)
        requires
            x == signed(s1, a),
            y == signed(s2, b),
    ;
    assert(0 <= a * b && 0 <= p) by (nonlinear_arith)
        requires
            0 <= a,
            0 <= b,
            0 <= m1,
            0 <= m2,
            p == m1 * m2,
    ;
    lemma_scaled_shift(p, 1, e1 + e2 - 149, 149);
    assert(1 * pow2(149) == pow2(149));
    if a * b == 0 {
        lemma_nearest_zero(pow2(149) as int);
    }
}

proof fn lemma_quotient(s1: bool, m1: int, e1: nat, s2: bool, m2: int, e2: nat)
    requires
        0 <= m1 < 0x100_0000,
        0 < m2 < 0x100_0000,
    ensures
        ({
            let n = m1 * 0x1_0000_0000_0000_0000;
            let s: int = if n % m2 == 0 {
                0
            } else {
                1
            };
            &&& quotient(
                Value::Finite(signed(s1, m1 * pow2(e1))),
                Value::Finite(signed(s2, m2 * pow2(e2))),
            ) == bounded(s1 != s2, nearest_scaled(2 * (n / m2) + s, 1, e1 - e2 + 84))
            &&& 0 <= n / m2 <= n
        }),
{
    lemma_magnitude_sign(m1, e1);
    lemma_magnitude_sign(m2, e2);
    lemma2_to64();
    let n = m1 * 0x1_0000_0000_0000_0000;
    let s: int = if n % m2 == 0 {
        0
    } else {
        1
    };
    let a = m1 * pow2(e1);
    let b = m2 * pow2(e2);
    lemma_pow2_pos(149);
    lemma_div_pos_is_pos(n, m2);
    lemma_div_nonincreasing(n, m2);
    assert(magnitude(signed(s1, a)) == a && magnitude(signed(s2, b)) == b);
    if m1 == 0 {
        assert(a * pow2(149) == 0) by (nonlinear_arith)
            requires
                a == 0,
        ;
        lemma_nearest_zero(b);
        lemma_basic_div(0, m2);
        lemma_small_mod(0, m2 as nat);
        assert(nearest_scaled(0, 1, e1 - e2 + 84) == 0) by {
            let e = e1 - e2 + 84;
            if e >= 0 {
                lemma_nearest_zero(1);
                assert(0 * pow2(e as nat) == 0);
            } else {
                lemma_pow2_pos((-e) as nat);
                let d = pow2((-e) as nat) as int;
                assert(1 * d == d);
                lemma_nearest_zero(d);
            }
        }
    } else {
        let e = e1 - e2 + 85;
        assert(n / m2 >= 0x200_0000) by (nonlinear_arith)
            requires
                n == m1 * 0x1_0000_0000_0000_0000,
                m1 >= 1,
                0 < m2 < 0x100_0000,
        ;
        lemma_sticky(n, m2, e);
        lemma_scaled_shift(n, m2, e, e2);
        let up = (e1 + 85) as nat;
        lemma_pow2_adds(e1, 149);
        lemma_pow2_adds(64, up);
        assert(n * pow2(up) == a * pow2(149)) by (nonlinear_arith)
            requires
                n == m1 * 0x1_0000_0000_0000_0000,
                a == m1 * pow2(e1),
                0x1_0000_0000_0000_0000 * pow2(up) == pow2(e1) * pow2(149),
        ;
    }
}

/// Normal significands and exponents are ordered as the magnitudes they stand
/// for.
proof fn lemma_magnitudes(m1: int, e1: nat, m2: int, e2: nat)
    requires
        0 <= m1 < 0x100_0000,
        0 <= m2 < 0x100_0000,
        e2 > 0 ==> m2 >= 0x80_0000,
    ensures
        0 <= m1 * pow2(e1),
        m1 * pow2(e1) == 0 <==> m1 == 0,
        e1 < e2 ==> m1 * pow2(e1) < m2 * pow2(e2),
        e1 == e2 ==> (m1 * pow2(e1) < m2 * pow2(e2) <==> m1 < m2),
{
    lemma_magnitude_sign(m1, e1);
    lemma_pow2_pos(e1);
    let x = pow2(e1) as int;
    if e1 < e2 {
        lemma_pow2_unfold(e1 + 1);
        if e1 + 1 < e2 {
            lemma_pow2_strictly_increases(e1 + 1, e2);
        }
        let y = pow2(e2) as int;
        assert(m1 * x < m2 * y) by (nonlinear_arith)
            requires
                m1 < 0x100_0000,
                m2 >= 0x80_0000,
                0 < x,
                2 * x <= y,
        ;
    } else if e1 == e2 {
        assert(m1 * x < m2 * x <==> m1 < m2) by (nonlinear_arith)
            requires
                0 < x,
        ;
    }
}

/// The integer part of `m * 2^e` units.
proof fn lemma_whole(m: int, e: nat, limit: int)
    requires
        0 <= m < 0x100_0000,
        0 <= limit <= u64::MAX,
    ensures
        ({
            let n = m * pow2(e) / (pow2(149) as int);
            &&& e >= 149 + 64 && m > 0 ==> n > limit
            &&& 149 <= e ==> n == m * pow2((e - 149) as nat)
            &&& 149 <= e < 149 + 64 ==> 0 <= m * pow2((e - 149) as nat) <= 0x100_0000
                * 0x1_0000_0000_0000_0000
            &&& e < 149 ==> n == m / (pow2((149 - e) as nat) as int) && pow2((149 - e) as nat) > 0
            &&& e < 125 ==> n == 0
            &&& m == 0 ==> n == 0
        }),
{
    lemma2_to64();
    lemma_pow2_pos(149);
    let u = pow2(149) as int;
    if e >= 149 {
        let k = (e - 149) as nat;
        lemma_pow2_adds(k, 149);
        lemma_pow2_pos(k);
        let x = pow2(k) as int;
        assert(m * (x * u) == (m * x) * u) by (nonlinear_arith);
        lemma_div_by_multiple(m * x, u);
        if k >= 64 {
            if k > 64 {
                lemma_pow2_strictly_increases(64, k);
            }
            assert(m > 0 ==> m * x >= x) by (nonlinear_arith)
                requires
                    0 < x,
            ;
        } else {
            lemma_pow2_strictly_increases(k, 64);
            assert(0 <= m * x <= 0x100_0000 * 0x1_0000_0000_0000_0000) by (nonlinear_arith)
                requires
                    0 <= m <= 0x100_0000,
                    0 < x <= 0x1_0000_0000_0000_0000,
            ;
        }
        assert(m == 0 ==> m * x == 0) by (nonlinear_arith);
    } else {
        let k = (149 - e) as nat;
        lemma_pow2_adds(e, k);
        lemma_pow2_pos(e);
        lemma_pow2_pos(k);
        let x = pow2(e) as int;
        let y = pow2(k) as int;
        lemma_common_factor(m, x, y);
        if e < 125 {
            if k > 25 {
                lemma_pow2_strictly_increases(25, k);
            }
            lemma_basic_div(m, y);
        }
        if m == 0 {
            lemma_basic_div(0, y);
        }
    }
}

/// A common factor goes out of a quotient.
proof fn lemma_common_factor(m: int, x: int, y: int)
    requires
        0 <= m,
        0 < x,
        0 < y,
    ensures
        m * x / (x * y) == m / y,
{
    assert(m * x == x * m) by (nonlinear_arith);
    lemma_div_multiples_vanish(m, x);
    assert(0 < x * y) by (nonlinear_arith)
        requires
            0 < x,
            0 < y,
    ;
    lemma_div_denominator(m * x, x, y);
}

/// A finite number's magnitude stays below `2^128`.
proof fn lemma_below_infinite(significand: int, exponent: nat)
    requires
        0 <= significand < 0x100_0000,
        exponent <= 253,
    ensures
        0 <= significand * pow2(exponent) < pow2(277),
{
    lemma2_to64();
    lemma_pow2_pos(exponent);
    lemma_pow2_adds(24, exponent);
    if exponent < 253 {
        lemma_pow2_strictly_increases(24 + exponent, 277);
    }
    let x = pow2(exponent) as int;
    assert(0 <= significand * x < 0x100_0000 * x) by (nonlinear_arith)
        requires
            0 <= significand < 0x100_0000,
            0 < x,
    ;
}

proof fn lemma_large_powers()
    ensures
        pow2(100) == 0x10_0000_0000_0000_0000_0000_0000,
        pow2(110) == 0x4000_0000_0000_0000_0000_0000_0000,
{
    lemma2_to64();
    lemma_pow2_adds(64, 32);
    lemma_pow2_adds(96, 4);
    lemma_pow2_adds(96, 14);
}

/// What is less than half of a unit is rounded to nothing.
proof fn lemma_vanishing(p: int, e: int)
    requires
        0 <= p < 0x10_0000_0000_0000_0000_0000_0000,
        e < -110,
    ensures
        nearest_scaled(p, 1, e) == 0,
{
    lemma2_to64();
    let f = (-e) as nat;
    lemma_large_powers();
    lemma_pow2_strictly_increases(110, f);
    let d = pow2(f) as int;
    assert(1 * d == d);
    assert(p < 0x100_0000 * d);
    lemma_small_mod(p as nat, d as nat);
    lemma_basic_div(p, d);
    assert(d * 1 == d);
}

/// What `nearest_scaled` comes to at the place of rounding.
proof fn lemma_kept(p: int, e: int, s: nat)
    requires
        0 <= p < pow2(24 + s),
        e + s >= 0,
        s > 0 ==> p >= pow2((23 + s) as nat) || e + s - 1 < 0,
    ensures
        nearest_scaled(p, 1, e) == nearest_integer(p, pow2(s) as int) * pow2((e + s) as nat),
{
    lemma2_to64();
    if e >= 0 {
        lemma_pow2_pos(e as nat);
        let pe = pow2(e as nat) as int;
        if s == 0 {
            lemma_nearest_exact(p, e as nat, 1);
            assert(p * pe * 1 == p * pe);
            assert(nearest_integer(p, 1) == p);
        } else {
            lemma_pow2_adds(24 + s, e as nat);
            lemma_pow2_adds((23 + s) as nat, e as nat);
            lemma_pow2_adds(s, e as nat);
            let hi = pow2(24 + s) as int;
            let lo = pow2((23 + s) as nat) as int;
            assert(lo * pe <= p * pe < hi * pe && 0 <= p * pe) by (nonlinear_arith)
                requires
                    lo <= p < hi,
                    0 < pe,
                    0 <= p,
            ;
            let t = (s + e) as nat;
            assert(24 + t == 24 + s + e && 23 + t == 23 + s + e);
            assert(1 * pow2(24 + t) == pow2(24 + t) && 1 * pow2((23 + t) as nat) == pow2(
                (23 + t) as nat,
            ));
            lemma_excess_unique(p * pe, 1, t);
            lemma_pow2_pos(s);
            lemma_nearest_integer_cancel(p, pow2(s) as int, pe);
            assert(1 * pow2(t) == pow2(t));
        }
    } else {
        let f = (-e) as nat;
        let t = (s - f) as nat;
        lemma_pow2_pos(f);
        lemma_pow2_adds(f, 24 + t);
        lemma_pow2_adds(f, t);
        assert(f + (24 + t) == 24 + s);
        let d = pow2(f) as int;
        assert(1 * d == d);
        if t > 0 {
            lemma_pow2_adds(f, (23 + t) as nat);
            assert(f + (23 + t) == 23 + s);
        }
        lemma_excess_unique(p, d, t);
    }
}

/// What an integer of 64 bits comes to in single precision: a finite number,
/// and at least one if the integer is.
pub proof fn lemma_int_value(n: int)
    requires
        0 <= n <= u64::MAX,
    ensures
        int_value(n) == Value::Finite(nearest(n * pow2(149), 1)),
        0 <= nearest(n * pow2(149), 1) <= pow2(213),
        n > 0 ==> nearest(n * pow2(149), 1) >= pow2(149),
        pow2(149) >= 0x1000,
{
    lemma2_to64();
    lemma_pow2_pos(149);
    lemma_pow2_adds(12, 137);
    lemma_pow2_pos(137);
    lemma_pow2_adds(149, 41);
    lemma_pow2_adds(149, 64);
    lemma_pow2_adds(23, 190);
    lemma_pow2_strictly_increases(213, 277);
    let u = pow2(149) as int;
    lemma_nearest_exact(0x80_0000, 190, 1);
    assert(0x80_0000 * pow2(190) * 1 == pow2(213));
    assert(0 <= n * u <= 0x1_0000_0000_0000_0000 * u) by (nonlinear_arith)
        requires
            0 <= n <= 0x1_0000_0000_0000_0000,
            0 < u,
    ;
    lemma_nearest_monotone(n * u, 1, pow2(213) as int, 1);
    lemma_nearest_zero(1);
    lemma_nearest_monotone(0, 1, n * u, 1);
    if n > 0 {
        lemma_nearest_exact(1, 149, 1);
        assert(1 * u * 1 == u);
        assert(u <= n * u) by (nonlinear_arith)
            requires
                n >= 1,
                u > 0,
        ;
        lemma_nearest_monotone(u, 1, n * u, 1);
    }
}

/// An integer of up to 24 binary digits is kept as it is.
pub proof fn lemma_int_exact(n: int)
    requires
        0 <= n <= 0x100_0000,
    ensures
        nearest(n * pow2(149), 1) == n * pow2(149),
        int_value(n) == Value::Finite(n * pow2(149)),
{
    lemma_int_value(n);
    lemma2_to64();
    if n < 0x100_0000 {
        lemma_nearest_exact(n, 149, 1);
        assert(n * pow2(149) * 1 == n * pow2(149));
    } else {
        lemma_pow2_adds(1, 149);
        lemma_nearest_exact(0x80_0000, 150, 1);
        assert(0x80_0000int * pow2(150) * 1 == 0x80_0000int * pow2(150));
        assert(0x80_0000int * pow2(150) == n * pow2(149)) by (nonlinear_arith)
            requires
                n == 0x100_0000,
                pow2(150) == 2 * pow2(149),
        ;
    }
}

} // verus!
