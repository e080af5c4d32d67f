use ntl::rng::{FixedRng, Rng, SplitMix64};
use ntl::scalar::Scalar;

fn f(x: f32) -> Scalar {
    Scalar::from_bits(x.to_bits())
}

fn g(x: Scalar) -> f32 {
    f32::from_bits(x.to_bits())
}

#[test]
fn same_seed_yields_same_sequence() {
    let a: Vec<u64> = (0..8).map(|_| SplitMix64::seeded(42).next_u64()).collect();
    let mut g = SplitMix64::seeded(42);
    let b: Vec<u64> = (0..8).map(|_| g.next_u64()).collect();
    // Every element of `a` is the first draw of a fresh generator, while `b`
    // advances. Only the first must match.
    assert_eq!(a[0], b[0], "a fresh seed must reproduce its first draw");
    assert!(b.windows(2).any(|w| w[0] != w[1]), "generator must advance");
}

#[test]
fn the_first_draws_of_seed_zero_are_known() {
    let mut g = SplitMix64::seeded(0);
    assert_eq!(g.next_u64(), 0xE220_A839_7B1D_CDAF);
    assert_eq!(g.next_u64(), 0x6E78_9E6A_A1B9_65F4);
    assert_eq!(g.next_u64(), 0x06C4_5D18_8009_454F);
}

#[test]
fn distinct_seeds_diverge() {
    let mut a = SplitMix64::seeded(1);
    let mut b = SplitMix64::seeded(2);
    assert_ne!(a.next_u64(), b.next_u64());
}

#[test]
fn identity_seeding_separates_nodes() {
    let mut a = SplitMix64::from_identity(&[1u8; 32], 1_000);
    let mut b = SplitMix64::from_identity(&[2u8; 32], 1_000);
    assert_ne!(
        a.next_u64(),
        b.next_u64(),
        "two nodes starting together must not explore identically"
    );
}

#[test]
fn an_empty_identity_seeds_with_the_time() {
    let mut a = SplitMix64::from_identity(&[], 77);
    let mut b = SplitMix64::seeded(77);
    assert_eq!(a.next_u64(), b.next_u64());
}

#[test]
fn next_f32_stays_in_unit_interval() {
    let mut rng = SplitMix64::seeded(7);
    for _ in 0..10_000 {
        let v = g(rng.next_f32());
        assert!((0.0..1.0).contains(&v), "f32 out of range: {v}");
    }
}

#[test]
fn next_f32_takes_the_top_bits() {
    let mut rng = FixedRng::new(vec![0, u64::MAX, 1 << 63, 1 << 40]);
    assert_eq!(g(rng.next_f32()), 0.0);
    assert_eq!(g(rng.next_f32()), 16_777_215.0 / 16_777_216.0);
    assert_eq!(g(rng.next_f32()), 0.5);
    assert_eq!(g(rng.next_f32()), 1.0 / 16_777_216.0);
}

#[test]
fn next_f32_is_roughly_uniform() {
    let mut rng = SplitMix64::seeded(99);
    let mut buckets = [0u32; 10];
    for _ in 0..100_000 {
        let b = (g(rng.next_f32()) * 10.0) as usize;
        buckets[b.min(9)] += 1;
    }
    // Each bucket should hold about ten thousand. This is a smoke test for
    // gross bias, not a statistical proof.
    for (i, &count) in buckets.iter().enumerate() {
        assert!(
            (8_500..11_500).contains(&count),
            "bucket {i} held {count}, expected ~10000"
        );
    }
}

#[test]
fn next_below_respects_bound() {
    let mut g = SplitMix64::seeded(3);
    for _ in 0..1_000 {
        assert!(g.next_below(5).unwrap() < 5);
    }
    assert_eq!(g.next_below(0), None, "a zero bound has no valid draw");
    assert_eq!(g.next_below(1), Some(0));
}

#[test]
fn next_below_refuses_the_draws_that_would_bias_it() {
    // For a bound of three the draw zero is refused, and the next one counts.
    let mut g = FixedRng::new(vec![0, u64::MAX]);
    assert_eq!(g.next_below(3), Some(2));
}

#[test]
fn next_below_is_unbiased_across_range() {
    let mut g = SplitMix64::seeded(11);
    let mut seen = [0u32; 3];
    for _ in 0..30_000 {
        seen[g.next_below(3).unwrap() as usize] += 1;
    }
    for (i, &c) in seen.iter().enumerate() {
        assert!(
            (9_000..11_000).contains(&c),
            "index {i} drawn {c} times, expected ~10000"
        );
    }
}

#[test]
fn fixed_rng_replays_then_cycles() {
    let mut rng = FixedRng::from_f32s(&[f(0.0), f(0.5), f(0.99)]);
    assert!(g(rng.next_f32()) < 0.001);
    assert!((g(rng.next_f32()) - 0.5).abs() < 0.01);
    assert!(g(rng.next_f32()) > 0.98);
    assert!(g(rng.next_f32()) < 0.001, "sequence must cycle");
}

#[test]
fn fixed_values_are_limited_to_the_unit_interval() {
    let mut rng = FixedRng::from_f32s(&[f(-3.0), f(2.0), f(f32::NAN)]);
    assert_eq!(g(rng.next_f32()), 0.0);
    let top = g(rng.next_f32());
    assert!(top > 0.999 && top < 1.0, "{top}");
    assert_eq!(g(rng.next_f32()), 0.0);
}

#[test]
fn seeds_and_positions_are_told_apart() {
    let mut draws = Vec::new();
    for seed in 0..200u64 {
        draws.push(SplitMix64::seeded(seed).next_u64());
    }
    let mut one = SplitMix64::seeded(1_000_000);
    for _ in 0..200 {
        draws.push(one.next_u64());
    }
    let count = draws.len();
    draws.sort_unstable();
    draws.dedup();
    assert_eq!(draws.len(), count);
}

#[test]
fn identities_that_differ_in_a_byte_seed_apart() {
    let base = vec![7u8; 20];
    let first = SplitMix64::from_identity(&base, 5).next_u64();
    for at in 0..20 {
        let mut other = base.clone();
        other[at] ^= 1;
        assert_ne!(SplitMix64::from_identity(&other, 5).next_u64(), first);
    }
    let mut padded = base.clone();
    padded.resize(24, 0);
    assert_eq!(SplitMix64::from_identity(&padded, 5).next_u64(), first);
    assert_eq!(
        SplitMix64::from_identity(&[], 5).next_u64(),
        SplitMix64::seeded(5).next_u64()
    );
}
