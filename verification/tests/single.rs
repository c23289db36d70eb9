use boardwatch::single::Single;

fn single(x: f32) -> Single {
    Single::from_bits(x.to_bits())
}

/// The same number, the sign of a zero and the payload of a NaN aside.
fn same(a: Single, b: f32) -> bool {
    let a = f32::from_bits(a.bits);
    (a.is_nan() && b.is_nan()) || a == b
}

fn samples() -> Vec<f32> {
    let mut v: Vec<f32> = vec![
        0.0,
        -0.0,
        1.0,
        -1.0,
        0.5,
        2.0,
        3.0,
        9.0,
        10.0,
        0.1,
        -0.1,
        0.45,
        0.55,
        0.72,
        0.8,
        100.0,
        639.99,
        640.0,
        1920.0,
        16777215.0,
        16777216.0,
        16777218.0,
        4294967295.0,
        1.0e10,
        -1.0e10,
        1.0e-10,
        1.0e20,
        1.0e38,
        -1.0e38,
        f32::MAX,
        f32::MIN,
        f32::MIN_POSITIVE,
        -f32::MIN_POSITIVE,
        f32::EPSILON,
        f32::INFINITY,
        f32::NEG_INFINITY,
        f32::NAN,
        f32::from_bits(1),
        f32::from_bits(2),
        f32::from_bits(3),
        f32::from_bits(0x8000_0001),
        f32::from_bits(0x007f_ffff),
        f32::from_bits(0x0080_0001),
        f32::from_bits(0x3f80_0001),
        f32::from_bits(0x3f7f_ffff),
    ];
    // A fixed scatter of bit patterns over all exponents.
    let mut bits: u32 = 0x1234_5678;
    for _ in 0..160 {
        bits = bits.wrapping_mul(1664525).wrapping_add(1013904223);
        v.push(f32::from_bits(bits));
    }
    v
}

#[test]
fn sums_are_those_of_the_hardware() {
    for &a in &samples() {
        for &b in &samples() {
            assert!(same(single(a).add(single(b)), a + b), "{a:e} + {b:e}");
            assert!(same(single(a).sub(single(b)), a - b), "{a:e} - {b:e}");
        }
    }
}

#[test]
fn products_are_those_of_the_hardware() {
    for &a in &samples() {
        for &b in &samples() {
            assert!(same(single(a).mul(single(b)), a * b), "{a:e} * {b:e}");
        }
    }
}

#[test]
fn quotients_are_those_of_the_hardware() {
    for &a in &samples() {
        for &b in &samples() {
            if b != 0.0 {
                assert!(same(single(a).div(single(b)), a / b), "{a:e} / {b:e}");
            }
        }
    }
}

#[test]
fn order_is_that_of_the_hardware() {
    for &a in &samples() {
        for &b in &samples() {
            assert_eq!(single(a).lt(single(b)), a < b, "{a:e} < {b:e}");
            assert!(same(single(a).max(single(b)), a.max(b)), "max {a:e} {b:e}");
            assert!(same(single(a).min(single(b)), a.min(b)), "min {a:e} {b:e}");
        }
    }
}

#[test]
fn negation_and_nan_are_those_of_the_hardware() {
    for &a in &samples() {
        assert!(same(single(a).neg(), -a), "-{a:e}");
        assert_eq!(single(a).is_nan(), a.is_nan());
    }
}

#[test]
fn integers_are_rounded_like_the_hardware_does() {
    for n in [
        0u32, 1, 2, 9, 100, 640, 1080, 16777215, 16777216, 16777217, 16777218, 16777219, 33554433,
        4294967167, 4294967168, 4294967295,
    ] {
        assert_eq!(Single::from_u32(n).bits, (n as f32).to_bits(), "{n}");
        assert_eq!(Single::from_u64(n as u64).bits, (n as f32).to_bits(), "{n}");
    }
    for n in [u64::MAX, u64::MAX - 1, 1 << 63, (1 << 63) + 1, 0x0123_4567_89ab_cdef] {
        assert_eq!(Single::from_u64(n).bits, (n as f32).to_bits(), "{n}");
    }
}

#[test]
fn numbers_are_cut_to_integers_like_the_hardware_does() {
    for &a in &samples() {
        assert_eq!(single(a).to_u32(), a as u32, "{a:e}");
        assert_eq!(single(a).to_usize(), a as usize, "{a:e}");
        assert_eq!(single(a).whole_up_to(i32::MAX as u64) as i32, (a as i32).max(0), "{a:e}");
    }
}
