use lease_sim::rng::Rng;
use lease_sim::rounding::UNIT;

#[test]
fn reproducible_from_seed() {
    let a: Vec<u64> = {
        let mut r = Rng::new(42);
        (0..16).map(|_| r.next_u64()).collect()
    };
    let b: Vec<u64> = {
        let mut r = Rng::new(42);
        (0..16).map(|_| r.next_u64()).collect()
    };
    assert_eq!(a, b);
}

#[test]
fn different_seeds_differ() {
    let mut r1 = Rng::new(1);
    let mut r2 = Rng::new(2);
    assert_ne!(r1.next_u64(), r2.next_u64());
}

#[test]
fn f64_in_unit_interval() {
    let mut r = Rng::new(7);
    for _ in 0..10_000 {
        let x = r.next_f64() as f64 / UNIT as f64;
        assert!((0.0..1.0).contains(&x));
    }
}

#[test]
fn range_within_bounds() {
    let mut r = Rng::new(7);
    for _ in 0..10_000 {
        let x = r.next_range(-5, 5);
        assert!((-5..=5).contains(&x));
    }
    assert_eq!(r.next_range(3, 3), 3);
    assert_eq!(r.next_range(9, 2), 9);
}

#[test]
fn the_widest_range_is_drawn_unreduced() {
    let mut raw = Rng::new(11);
    let mut ranged = Rng::new(11);
    for _ in 0..1_000 {
        let x = raw.next_u64();
        assert_eq!(ranged.next_range(i64::MIN, i64::MAX), (x ^ (1 << 63)) as i64);
    }
    for _ in 0..1_000 {
        let x = raw.next_u64();
        let r = ranged.next_range(-1, i64::MAX);
        assert_eq!(r as i128, -1 + x as i128 % ((1 << 63) + 1));
    }
}

#[test]
fn every_seed_has_a_first_value_of_its_own() {
    let mut firsts: Vec<u64> = (0..2_000u64).map(|seed| Rng::new(seed).next_u64()).collect();
    firsts.extend((0..2_000u64).map(|k| Rng::new(u64::MAX - k).next_u64()));
    let n = firsts.len();
    firsts.sort_unstable();
    firsts.dedup();
    assert_eq!(firsts.len(), n);
}

#[test]
fn the_zero_seed_does_not_stand_still() {
    let mut r = Rng::new(0);
    let values: Vec<u64> = (0..100).map(|_| r.next_u64()).collect();
    assert!(values.iter().all(|x| *x != 0));
    assert!(values.windows(2).all(|w| w[0] != w[1]));
}
