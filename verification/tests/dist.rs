use lease_sim::clock::Time;
use lease_sim::dist::{Dist, NormalDraw};
use lease_sim::rng::Rng;
use lease_sim::rounding::UNIT;

/// Box-Muller: the tick nearest to a Gaussian sample.
fn normal_ticks(d: NormalDraw) -> Time {
    let unit = UNIT as f64;
    let u1 = (d.u1 as f64 / unit).max(f64::MIN_POSITIVE);
    let u2 = d.u2 as f64 / unit;
    let z = (-2.0 * u1.ln()).sqrt() * (core::f64::consts::TAU * u2).cos();
    (f64::from_bits(d.mean) + f64::from_bits(d.std) * z).round() as Time
}

#[test]
fn fixed_is_constant() {
    let mut rng = Rng::new(1);
    let d = Dist::Fixed(50);
    for _ in 0..100 {
        assert_eq!(d.sample(&mut rng, &normal_ticks), 50);
    }
}

#[test]
fn uniform_within_bounds() {
    let mut rng = Rng::new(1);
    let d = Dist::Uniform { lo: 10, hi: 20 };
    for _ in 0..1000 {
        let v = d.sample(&mut rng, &normal_ticks);
        assert!((10..=20).contains(&v));
    }
}

#[test]
fn normal_is_non_negative_and_roughly_centered() {
    let mut rng = Rng::new(1);
    let d = Dist::Normal {
        mean: 100.0f64.to_bits(),
        std: 15.0f64.to_bits(),
    };
    let n = 10_000;
    let sum: i64 = (0..n).map(|_| d.sample(&mut rng, &normal_ticks)).sum();
    let avg = sum as f64 / n as f64;
    assert!((avg - 100.0).abs() < 3.0, "avg was {avg}");
}

#[test]
fn negative_samples_clamped() {
    let mut rng = Rng::new(1);
    let d = Dist::Normal {
        mean: 0.0f64.to_bits(),
        std: 100.0f64.to_bits(),
    };
    for _ in 0..1000 {
        assert!(d.sample(&mut rng, &normal_ticks) >= 0);
    }
}
