use ntl::rng::{Rng, SplitMix64};
use ntl::scalar::Scalar;

fn f(x: f32) -> Scalar {
    Scalar::from_bits(x.to_bits())
}

/// Whether a result is the host's: the same pattern, or both not numbers.
fn agrees(ours: Scalar, theirs: f32) -> bool {
    ours.to_bits() == theirs.to_bits() || (ours.is_nan() && theirs.is_nan())
}

fn check(a: f32, b: f32) {
    let (x, y) = (f(a), f(b));
    assert!(agrees(x.plus(y), a + b), "{a:e} + {b:e}");
    assert!(agrees(x.minus(y), a - b), "{a:e} - {b:e}");
    assert!(agrees(x.times(y), a * b), "{a:e} * {b:e}");
    assert!(agrees(x.over(y), a / b), "{a:e} / {b:e}");
    assert_eq!(x.lt(y), a < b, "{a:e} < {b:e}");
    assert_eq!(x.le(y), a <= b, "{a:e} <= {b:e}");
    assert!(agrees(x.negate(), -a));
    assert!(agrees(x.abs(), a.abs()));
    if a != b {
        assert!(agrees(x.max(y), a.max(b)), "max {a:e} {b:e}");
        assert!(agrees(x.min(y), a.min(b)), "min {a:e} {b:e}");
    }
    assert_eq!(x.is_nan(), a.is_nan());
    assert_eq!(x.is_finite(), a.is_finite());
}

#[test]
fn arithmetic_on_notable_numbers_is_that_of_the_host() {
    let notable = [
        0.0f32,
        -0.0,
        1.0,
        -1.0,
        0.1,
        0.5,
        2.0,
        3.0,
        1.0 / 3.0,
        16_777_215.0,
        16_777_216.0,
        f32::EPSILON,
        1.0 + f32::EPSILON,
        1.0 - f32::EPSILON / 2.0,
        f32::MIN_POSITIVE,
        f32::from_bits(1),
        -f32::from_bits(1),
        f32::from_bits(0x007f_ffff),
        f32::MAX,
        f32::MIN,
        f32::INFINITY,
        f32::NEG_INFINITY,
        f32::NAN,
    ];
    for a in notable {
        for b in notable {
            check(a, b);
        }
    }
}

#[test]
fn arithmetic_on_any_pattern_is_that_of_the_host() {
    let mut rng = SplitMix64::seeded(1);
    for _ in 0..60_000 {
        let draw = rng.next_u64();
        check(f32::from_bits(draw as u32), f32::from_bits((draw >> 32) as u32));
    }
}

#[test]
fn arithmetic_on_near_numbers_is_that_of_the_host() {
    // Exponents close together, where sums cancel and round.
    let mut rng = SplitMix64::seeded(2);
    for _ in 0..60_000 {
        let draw = rng.next_u64();
        let a = (draw as u32 & 0x807f_ffff) | 0x3f80_0000;
        let b = ((draw >> 32) as u32 & 0x83ff_ffff) | 0x3c00_0000;
        check(f32::from_bits(a), f32::from_bits(b));
    }
}

#[test]
fn arithmetic_on_small_numbers_is_that_of_the_host() {
    let mut rng = SplitMix64::seeded(3);
    for _ in 0..60_000 {
        let draw = rng.next_u64();
        let a = draw as u32 & 0x81ff_ffff;
        let b = (draw >> 32) as u32 & 0x81ff_ffff;
        check(f32::from_bits(a), f32::from_bits(b));
        check(f32::from_bits(a), f32::from_bits((b & 0x007f_ffff) | 0x3f00_0000));
    }
}

#[test]
fn whole_numbers_are_rounded_as_the_host_rounds_them() {
    let mut rng = SplitMix64::seeded(4);
    for shift in 0..64u32 {
        for _ in 0..50 {
            let n = rng.next_u64() >> shift;
            assert!(agrees(Scalar::from_u64(n), n as f32), "{n}");
        }
    }
    for n in [0u64, 1, 16_777_217, 16_777_219, u64::MAX, 1 << 63] {
        assert!(agrees(Scalar::from_u64(n), n as f32), "{n}");
    }
}

#[test]
fn clamping_is_that_of_the_host() {
    for a in [-1.0f32, -0.0, 0.0, 0.25, 1.0, 1.5, f32::INFINITY, f32::NAN] {
        assert!(agrees(f(a).clamp(f(0.0), f(1.0)), a.clamp(0.0, 1.0)), "{a:e}");
        assert_eq!(f(a).within(f(0.0), f(1.0)), (0.0..=1.0).contains(&a));
    }
}
