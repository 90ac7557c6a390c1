use gossiper::{DeterministicRng, RandomSource};

#[test]
fn deterministic_rng_repeats_for_same_seed() {
    let mut a = DeterministicRng::new(7);
    let mut b = DeterministicRng::new(7);

    assert_eq!(a.next_u64(), b.next_u64());
    assert_eq!(a.next_u64(), b.next_u64());
    assert_eq!(a.next_u64(), b.next_u64());
}

#[test]
fn index_returns_none_for_empty_range() {
    let mut rng = DeterministicRng::new(1);

    assert_eq!(rng.index(0), None);
}

#[test]
fn index_returns_value_inside_range() {
    let mut rng = DeterministicRng::new(1);

    for _ in 0..100 {
        let index = rng.index(5).expect("non-empty range should produce index");
        assert!(index < 5);
    }
}

#[test]
fn deterministic_rng_follows_its_recurrence() {
    let mut rng = DeterministicRng::new(0);

    assert_eq!(rng.next_u64(), 1);
    assert_eq!(rng.next_u64(), 6_364_136_223_846_793_006);
}
