use plasma::rng::Lcg64;

/// A number in [0, 1) from a draw.
fn next_f64(rng: &mut Lcg64) -> f64 {
    rng.next_bits() as f64 * (1.0 / (1u64 << 53) as f64)
}

#[test]
fn test_rng_bounds() {
    let mut rng = Lcg64::new(42);
    for _ in 0..100_000 {
        let v = next_f64(&mut rng);
        assert!(v >= 0.0 && v < 1.0);
    }
}

#[test]
fn test_rng_reasonable_mean() {
    let mut rng = Lcg64::new(12345);
    let mut sum = 0.0f64;
    let n = 100_000;
    for _ in 0..n {
        sum += next_f64(&mut rng);
    }
    let mean = sum / n as f64;
    assert!((mean - 0.5).abs() < 0.01);
}

#[test]
fn exact_draws() {
    let mut rng = Lcg64::new(0);
    assert_eq!(rng.next_bits(), 1442695040888963407 >> 11);
    assert_eq!(rng.0, 1442695040888963407);
    let mut one = Lcg64::new(1);
    assert_eq!(one.next_bits(), (6364136223846793005u64 + 1442695040888963407u64) >> 11);
}

#[test]
fn the_same_seed_gives_the_same_draws() {
    let mut a = Lcg64::new(7);
    let mut b = Lcg64::new(7);
    for _ in 0..1000 {
        assert_eq!(a.next_bits(), b.next_bits());
    }
}

#[test]
fn no_early_return_to_the_seed() {
    let mut rng = Lcg64::new(99);
    for _ in 0..1_000_000 {
        rng.next_bits();
        assert_ne!(rng.0, 99);
    }
}
