use lease_sim::clock::{Clock, Drift};

/// The exact fraction that a tick-rate multiplier is.
fn rate(x: f64) -> Drift {
    let mut mantissa = x;
    let mut shift: u32 = 0;
    while mantissa.fract() != 0.0 {
        mantissa *= 2.0;
        shift += 1;
    }
    Drift { mantissa: mantissa as i64, shift }
}

#[test]
fn perfect_clock_is_identity() {
    let c = Clock::perfect();
    assert_eq!(c.local(1000), 1000);
    assert_eq!(c.global_for_local(1000), 1000);
}

#[test]
fn offset_shifts_reading() {
    let c = Clock::new(500, rate(1.0));
    assert_eq!(c.local(1000), 1500);
    assert_eq!(c.global_for_local(1500), 1000);
}

#[test]
fn drift_scales_rate() {
    let c = Clock::new(0, rate(1.1));
    assert_eq!(c.local(1000), 1100);
}

#[test]
fn negative_times_are_converted_there_and_back() {
    let fast = Clock::new(123, rate(1.05));
    let slow = Clock::new(-77, rate(0.5));
    for g in [-4242, -1001, -3, -1, 0, 1, 4242] {
        assert!((fast.global_for_local(fast.local(g)) - g).abs() <= 1);
        assert!((slow.global_for_local(slow.local(g)) - g).abs() <= 1);
    }
    assert_eq!(fast.local(-1000), 123 - 1050);
}

#[test]
fn without_drift_the_conversion_is_exact() {
    for offset in [-900, 0, 500] {
        let c = Clock::new(offset, rate(1.0));
        let scaled = Clock::new(offset, Drift { mantissa: 1 << 20, shift: 20 });
        for g in [-1_000_000_007, -1, 0, 1, 1000, 1_000_000_007] {
            assert_eq!(c.local(g), offset + g);
            assert_eq!(c.global_for_local(offset + g), g);
            assert_eq!(scaled.local(g), offset + g);
            assert_eq!(scaled.global_for_local(offset + g), g);
        }
    }
}

#[test]
fn later_readings_come_at_later_times() {
    let c = Clock::new(40, rate(1.3));
    for l in -200..200 {
        assert!(c.global_for_local(l) <= c.global_for_local(l + 1));
    }
    let standing = Clock::new(40, rate(0.0));
    assert_eq!(standing.global_for_local(39), i64::MIN);
    assert_eq!(standing.global_for_local(40), 0);
    assert_eq!(standing.global_for_local(41), i64::MAX);
}

#[test]
fn local_and_inverse_roundtrip() {
    let c = Clock::new(123, rate(1.05));
    let g = 4242;
    // Round-trip should land within a tick of rounding error.
    assert!((c.global_for_local(c.local(g)) - g).abs() <= 1);
}
