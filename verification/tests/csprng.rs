use ntl::csprng::OsBackedRng;
use ntl::rng::Rng;

#[test]
fn two_generators_do_not_agree() {
    // Seeded from the operating system, so two instances must diverge at once.
    let mut a = OsBackedRng::from_os();
    let mut b = OsBackedRng::from_os();
    let left: Vec<u64> = (0..4).map(|_| a.next_u64()).collect();
    let right: Vec<u64> = (0..4).map(|_| b.next_u64()).collect();
    assert_ne!(left, right);
}

#[test]
fn output_is_not_trivially_degenerate() {
    // Not a test of randomness: a guard against a mistake that returns a
    // constant or zero.
    let mut rng = OsBackedRng::from_os();
    let draws: Vec<u64> = (0..16).map(|_| rng.next_u64()).collect();
    assert!(draws.iter().any(|&v| v != 0));
    assert!(
        draws.windows(2).any(|w| w[0] != w[1]),
        "consecutive draws must not all be equal"
    );
}

#[test]
fn next_below_stays_in_range() {
    let mut rng = OsBackedRng::from_os();
    for _ in 0..256 {
        let v = rng.next_below(7).expect("7 is non-zero");
        assert!(v < 7);
    }
    assert_eq!(rng.next_below(0), None);
}

#[test]
fn a_seed_gives_the_stream_of_the_cipher() {
    let mut rng = OsBackedRng::from_seed(vec![5; 32]).expect("a seed of 32 bytes");
    let mut stream: rand_chacha::ChaCha12Rng = rand::SeedableRng::from_seed([5; 32]);
    for _ in 0..100 {
        assert_eq!(rng.next_u64(), rand::RngCore::next_u64(&mut stream));
    }
    assert!(OsBackedRng::from_seed(vec![5; 31]).is_none());
}
