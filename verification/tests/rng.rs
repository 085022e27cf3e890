use lib::rng::DeterministicRng;

#[test]
fn splitmix_reference_values() {
    let mut rng = DeterministicRng::new(0);
    assert_eq!(rng.next_u64(), 0xe220a8397b1dcdaf);
    assert_eq!(rng.next_u64(), 0x6e789e6aa1b965f4);
    assert_eq!(rng.next_u64(), 0x06c45d188009454f);
}

#[test]
fn same_seed_same_draws() {
    let mut a = DeterministicRng::new(0x5eed);
    let mut b = DeterministicRng::new(0x5eed);
    for _ in 0..20 {
        assert_eq!(a.next_u64(), b.next_u64());
    }
}

#[test]
fn coin_flip_is_lowest_bit() {
    let mut a = DeterministicRng::new(42);
    let mut b = DeterministicRng::new(42);
    for _ in 0..20 {
        let x = b.next_u64();
        assert_eq!(a.coin_flip(), x & 1 == 1);
    }
}

#[test]
fn index_is_draw_modulo_bound() {
    let mut a = DeterministicRng::new(7);
    let mut b = DeterministicRng::new(7);
    for bound in 1..30usize {
        let i = a.index(bound);
        assert!(i < bound);
        assert_eq!(i as u64, b.next_u64() % bound as u64);
    }
}
