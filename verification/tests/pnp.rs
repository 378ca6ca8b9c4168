use rapidtag::pnp::RansacRng;

#[test]
fn first_draw_follows_xorshift_star() {
    let mut rng = RansacRng::new(1);
    assert_eq!(rng.next_u64(), 0x47e4ce4b896cdd1d);
}

#[test]
fn same_seed_same_samples() {
    let mut a = RansacRng::new(123);
    let mut b = RansacRng::new(123);
    for _ in 0..20 {
        assert_eq!(a.sample(10, 6), b.sample(10, 6));
    }
    let mut c = RansacRng::new(0);
    let mut d = RansacRng::new(0);
    assert_eq!(c.sample(7, 4), d.sample(7, 4));
}

#[test]
fn samples_are_distinct_and_in_range() {
    let mut rng = RansacRng::new(42);
    for count in 0..=6usize {
        let s = rng.sample(6, count);
        for i in 0..count {
            assert!(s[i] < 6);
            for j in 0..i {
                assert_ne!(s[i], s[j]);
            }
        }
        for i in count..6 {
            assert_eq!(s[i], 0);
        }
    }
    let all = rng.sample(6, 6);
    let mut sorted = all.to_vec();
    sorted.sort();
    assert_eq!(sorted, vec![0, 1, 2, 3, 4, 5]);
}
