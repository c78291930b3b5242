use rough_wasm::random::Random;

#[test]
fn seed_one_draws_match_park_miller() {
    let mut rng = Random { seed: 1 };
    assert_eq!(rng.next(), 48271);
    assert_eq!(rng.seed, 48271);
    assert_eq!(rng.next(), 182605793);
    assert_eq!(rng.seed, -1964877855);
    assert_eq!(rng.next(), 1291342511);
    assert_eq!(rng.seed, -856141137);
    assert_eq!(rng.next(), 1533981633);
    assert_eq!(rng.seed, -613502015);
}

#[test]
fn seed_12345_draws() {
    let mut rng = Random { seed: 12345 };
    assert_eq!(rng.next(), 595905495);
    assert_eq!(rng.next(), 1558167833);
    assert_eq!(rng.next(), 852179191);
    assert_eq!(rng.next(), 492451321);
    assert_eq!(rng.seed, -1655032327);
}

#[test]
fn negative_seed_draws_low_31_bits() {
    let mut rng = Random { seed: -7 };
    assert_eq!(rng.next(), 2147145751);
    assert_eq!(rng.seed, -337897);
    assert_eq!(rng.next(), 869243097);
    assert_eq!(rng.next(), 1698020663);
    assert_eq!(rng.next(), 2147030457);
}

#[test]
fn draws_stay_below_two_to_the_31() {
    let mut rng = Random { seed: 987654321 };
    for _ in 0..10000 {
        assert!(rng.next() < 0x8000_0000);
    }
}

#[test]
fn zero_seed_is_degenerate() {
    let mut rng = Random { seed: 0 };
    for _ in 0..100 {
        assert_eq!(rng.next(), 0);
        assert_eq!(rng.seed, 0);
    }
}

#[test]
fn nonzero_seed_never_reaches_zero() {
    for seed in [1, -1, 2, i32::MIN, i32::MAX, 65536, 48271] {
        let mut rng = Random { seed };
        for _ in 0..5000 {
            rng.next();
            assert_ne!(rng.seed, 0);
        }
    }
}

#[test]
fn same_seed_same_stream() {
    let mut a = Random { seed: 42 };
    let mut b = Random { seed: 42 };
    for _ in 0..1000 {
        assert_eq!(a.next(), b.next());
    }
}

#[test]
fn take_returns_the_next_draws_in_order() {
    let mut a = Random { seed: 1 };
    assert_eq!(a.take(4), vec![48271, 182605793, 1291342511, 1533981633]);
    assert_eq!(a.seed, -613502015);
    let mut b = Random { seed: 7 };
    assert!(b.take(0).is_empty());
    assert_eq!(b.seed, 7);
}

#[test]
fn take_splits_like_one_stream() {
    let mut whole = Random { seed: 31337 };
    let all = whole.take(25);
    let mut parts = Random { seed: 31337 };
    let mut joined = parts.take(11);
    joined.extend(parts.take(14));
    assert_eq!(all, joined);
    assert_eq!(whole.seed, parts.seed);
}
