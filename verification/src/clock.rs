//! Virtual time and per-node clocks.
//!
//! Global (true) time is the simulation's authoritative timeline. Each node
//! reads time through its own [`Clock`], which may be offset (skew) and tick at
//! a slightly different rate (drift). This is what makes lease safety arguments
//! observable.

use crate::rounding::{
    as_double, double_of, lemma_as_double_monotone, lemma_nearest_error, lemma_nearest_monotone,
    lemma_nearest_of_integer, lemma_nearest_of_multiple, nearest, nearest_int, HALF_UNIT, UNIT,
};
use vstd::prelude::*;

verus! {

/// Global simulation time, in integer ticks. Authoritative across all nodes.
pub type Time = i64;

/// A tick-rate multiplier as a double holds it: `mantissa / 2^shift`, with a
/// mantissa of at most 53 bits.
#[derive(Debug, Clone, Copy, PartialEq, Eq, Structural)]
pub struct Drift {
    pub mantissa: i64,
    pub shift: u32,
}

/// `2^n`.
pub open spec fn two_pow(n: nat) -> nat
    decreases n,
{
    if n == 0 {
        1
    } else {
        2 * two_pow((n - 1) as nat)
    }
}

/// `|x|`.
pub open spec fn magnitude(x: int) -> nat {
    if x < 0 {
        (-x) as nat
    } else {
        x as nat
    }
}

/// `n` with a minus sign if `negative`.
pub open spec fn signed(n: nat, negative: bool) -> int {
    if negative {
        -(n as int)
    } else {
        n as int
    }
}

/// The integer in the range of [`Time`] that is closest to `x`.
pub open spec fn saturated(x: int) -> int {
    if x > i64::MAX {
        i64::MAX as int
    } else if x < i64::MIN {
        i64::MIN as int
    } else {
        x
    }
}

impl Drift {
    /// Perfectly in step with global time: `1`.
    pub fn unit() -> (r: Self)
        ensures
            r == (Drift { mantissa: 1, shift: 0 }),
            r.wf(),
    {
        Drift { mantissa: 1, shift: 0 }
    }

    /// The mantissa has at most 53 bits and the shift is a normal one.
    pub open spec fn wf(self) -> bool {
        &&& -UNIT <= self.mantissa <= UNIT
        &&& self.shift <= 62
    }

    /// Whether the fields are within their ranges.
    pub fn is_valid(&self) -> (r: bool)
        ensures
            r == self.wf(),
    {
        -9_007_199_254_740_992 <= self.mantissa && self.mantissa <= 9_007_199_254_740_992
            && self.shift <= 62
    }
}

/// A node-local clock: `local = offset + drift * global`.
///
/// `offset` models arbitrary clock skew (cancels out in lease math). `drift`
/// models rate mismatch (must stay within the lease's `t_delta` budget).
#[derive(Debug, Clone, Copy, PartialEq, Eq, Structural)]
pub struct Clock {
    /// Constant skew added to local readings, in ticks.
    pub offset: Time,
    /// Tick-rate multiplier.
    pub drift: Drift,
}

impl Clock {
    /// `|drift * global|` as the double product rounds it, to the nearest tick.
    pub open spec fn elapsed(self, global: int) -> nat {
        nearest(
            magnitude(self.drift.mantissa as int) * as_double(magnitude(global)),
            two_pow(self.drift.shift as nat),
        )
    }

    /// The reading at global time `global`.
    pub open spec fn reading(self, global: int) -> int {
        self.offset + saturated(
            signed(self.elapsed(global), (self.drift.mantissa < 0) != (global < 0)),
        )
    }

    /// The global time at which the clock reads `local`, to the nearest tick. A
    /// clock that stands still reaches no other reading than its offset: the
    /// answer is then the end of the timeline on that side.
    pub open spec fn global_of(self, local: int) -> int {
        let ahead = local - self.offset;
        if self.drift.mantissa == 0 {
            if ahead == 0 {
                0
            } else if ahead > 0 {
                i64::MAX as int
            } else {
                i64::MIN as int
            }
        } else {
            saturated(
                signed(
                    nearest(
                        as_double(magnitude(ahead)) * two_pow(self.drift.shift as nat),
                        magnitude(self.drift.mantissa as int),
                    ),
                    (self.drift.mantissa < 0) != (ahead < 0),
                ),
            )
        }
    }

    /// A clock perfectly aligned with global time.
    pub fn perfect() -> (r: Self)
        ensures
            r == (Clock { offset: 0, drift: Drift { mantissa: 1, shift: 0 } }),
            r.drift.wf(),
    {
        Clock { offset: 0, drift: Drift::unit() }
    }

    /// Construct with a given skew and drift.
    pub fn new(offset: Time, drift: Drift) -> (r: Self)
        ensures
            r == (Clock { offset, drift }),
    {
        Clock { offset, drift }
    }

    /// Local reading at a given global time.
    pub fn local(&self, global: Time) -> (r: Time)
        requires
            self.drift.wf(),
            i64::MIN <= self.reading(global as int) <= i64::MAX,
        ensures
            r == self.reading(global as int),
    {
        let ticks: u128 = self.elapsed_exec(global);
        let advance: i64 = saturate(ticks, (self.drift.mantissa < 0) != (global < 0));
        self.offset + advance
    }

    /// Computes [`Clock::elapsed`].
    pub(crate) fn elapsed_exec(&self, global: Time) -> (r: u128)
        requires
            self.drift.wf(),
        ensures
            r == self.elapsed(global as int),
    {
        let m: u128 = magnitude_exec(self.drift.mantissa);
        let g: u128 = magnitude_exec(global);
        let rounded: u128 = double_of(g);
        proof {
            lemma_double_of_i64(g as nat);
            lemma_two_pow_bound(self.drift.shift as nat, 62);
            assert(m * rounded <= 9_007_199_254_740_992 * 9_223_372_036_854_775_808) by (nonlinear_arith)
                requires
                    0 <= m <= 9_007_199_254_740_992,
                    0 <= rounded <= 9_223_372_036_854_775_808,
            ;
            assert(0 <= m * rounded) by (nonlinear_arith)
                requires
                    0 <= m,
                    0 <= rounded,
            ;
        }
        nearest_int(m * rounded, two_pow_exec(self.drift.shift))
    }

    /// Global time at which this clock reads `local` — inverse of [`local`].
    ///
    /// [`local`]: Clock::local
    pub fn global_for_local(&self, local: Time) -> (r: Time)
        requires
            self.drift.wf(),
            i64::MIN <= local - self.offset <= i64::MAX,
        ensures
            r == self.global_of(local as int),
    {
        let ahead: i64 = local - self.offset;
        if self.drift.mantissa == 0 {
            if ahead == 0 {
                return 0;
            } else if ahead > 0 {
                return i64::MAX;
            } else {
                return i64::MIN;
            }
        }
        let m: u128 = magnitude_exec(self.drift.mantissa);
        let a: u128 = magnitude_exec(ahead);
        let rounded: u128 = double_of(a);
        let scale: u128 = two_pow_exec(self.drift.shift);
        proof {
            lemma_double_of_i64(a as nat);
            lemma_two_pow_bound(self.drift.shift as nat, 62);
            assert(rounded * scale <= 9_223_372_036_854_775_808 * 4_611_686_018_427_387_904) by (nonlinear_arith)
                requires
                    0 <= scale <= 4_611_686_018_427_387_904,
                    0 <= rounded <= 9_223_372_036_854_775_808,
            ;
            assert(0 <= rounded * scale) by (nonlinear_arith)
                requires
                    0 <= rounded,
                    0 <= scale,
            ;
        }
        let ticks: u128 = nearest_int(rounded * scale, m);
        saturate(ticks, (self.drift.mantissa < 0) != (ahead < 0))
    }
}

impl Default for Clock {
    fn default() -> (r: Self)
        ensures
            r == (Clock { offset: 0, drift: Drift { mantissa: 1, shift: 0 } }),
    {
        Clock::perfect()
    }
}

fn magnitude_exec(x: i64) -> (r: u128)
    ensures
        r == magnitude(x as int),
        r <= 9_223_372_036_854_775_808,
{
    if x < 0 {
        (-(x as i128)) as u128
    } else {
        x as u128
    }
}

fn saturate(n: u128, negative: bool) -> (r: i64)
    ensures
        r == saturated(signed(n as nat, negative)),
{
    if negative {
        if n >= 9_223_372_036_854_775_808 {
            i64::MIN
        } else {
            -(n as i64)
        }
    } else {
        if n > 9_223_372_036_854_775_807 {
            i64::MAX
        } else {
            n as i64
        }
    }
}

fn two_pow_exec(n: u32) -> (r: u128)
    requires
        n <= 62,
    ensures
        r == two_pow(n as nat),
        0 < r <= 4_611_686_018_427_387_904,
{
    let mut k: u32 = 0;
    let mut r: u128 = 1;
    proof {
        lemma_two_pow_bound(n as nat, 62);
    }
    while k < n
        invariant
            k <= n <= 62,
            r == two_pow(k as nat),
            two_pow(n as nat) <= 4_611_686_018_427_387_904,
        decreases n - k,
    {
        proof {
            lemma_two_pow_bound((k + 1) as nat, n as nat);
        }
        r = 2 * r;
        k = k + 1;
    }
    proof {
        lemma_two_pow_bound(0, n as nat);
    }
    r
}

/// Powers of two grow with their exponent.
pub proof fn lemma_two_pow_bound(a: nat, b: nat)
    requires
        a <= b,
    ensures
        0 < two_pow(a) <= two_pow(b),
        two_pow(62) == 4_611_686_018_427_387_904,
    decreases b,
{
    assert(two_pow(62) == 4_611_686_018_427_387_904) by {
        reveal_with_fuel(two_pow, 63);
    }
    if b == 0 {
    } else if a == b {
        lemma_two_pow_bound((a - 1) as nat, (b - 1) as nat);
    } else {
        lemma_two_pow_bound(a, (b - 1) as nat);
    }
}

proof fn lemma_double_of_i64(n: nat)
    requires
        n <= 9_223_372_036_854_775_808,
    ensures
        as_double(n) <= 9_223_372_036_854_775_808,
{
    if n >= UNIT {
        vstd::arithmetic::power2::lemma2_to64();
        crate::rounding::lemma_large_bound(n, 1, 10);
    }
}

/// A clock that does not run backwards never shows an earlier reading at a
/// later global time.
pub proof fn law_reading_monotone(clock: Clock, g1: int, g2: int)
    requires
        clock.drift.mantissa >= 0,
        g1 <= g2,
    ensures
        clock.reading(g1) <= clock.reading(g2),
{
    if 0 <= g1 {
        lemma_elapsed_monotone(clock, g1, g2);
    } else if g2 < 0 {
        lemma_elapsed_monotone(clock, g2, g1);
    }
}

/// The ticks a clock has run grow with the distance from global time zero.
pub proof fn lemma_elapsed_monotone(clock: Clock, g1: int, g2: int)
    requires
        magnitude(g1) <= magnitude(g2),
    ensures
        clock.elapsed(g1) <= clock.elapsed(g2),
{
    let m = magnitude(clock.drift.mantissa as int);
    let (d1, d2) = (as_double(magnitude(g1)), as_double(magnitude(g2)));
    lemma_as_double_monotone(magnitude(g1), magnitude(g2));
    assert(m * d1 <= m * d2) by (nonlinear_arith)
        requires
            d1 <= d2,
            m >= 0,
    ;
    lemma_two_pow_bound(clock.drift.shift as nat, clock.drift.shift as nat);
    lemma_nearest_monotone(m * d1, m * d2, two_pow(clock.drift.shift as nat));
}

/// A perfect clock shows global time, both ways.
pub proof fn law_perfect_clock_is_identity(clock: Clock, g: int)
    requires
        clock == (Clock { offset: 0, drift: Drift { mantissa: 1, shift: 0 } }),
        -UNIT <= g <= UNIT,
    ensures
        clock.reading(g) == g,
        clock.global_of(g) == g,
{
    let n = magnitude(g);
    assert(two_pow(0) == 1);
    if n == UNIT {
        assert(crate::rounding::round_large(n, 2) == crate::rounding::round_half_even(n, 2));
    }
    assert(as_double(n) == n);
    let m = magnitude(clock.drift.mantissa as int);
    assert(m * n == n) by (nonlinear_arith)
        requires
            m == 1,
    ;
    let one = two_pow(0);
    assert(n * one == n) by (nonlinear_arith)
        requires
            one == 1,
    ;
    lemma_nearest_of_integer(n);
}

/// Skew shifts every reading by the same amount, so it cancels out of the
/// difference of two readings.
pub proof fn law_skew_cancels(clock: Clock, offset: Time, g1: int, g2: int)
    ensures
        (Clock { offset, ..clock }).reading(g2) - (Clock { offset, ..clock }).reading(g1)
            == clock.reading(g2) - clock.reading(g1),
{
    let shifted = Clock { offset, ..clock };
    assert(shifted.elapsed(g1) == clock.elapsed(g1));
    assert(shifted.elapsed(g2) == clock.elapsed(g2));
}

/// Up to `2^49` ticks, a clock that does not run backwards is within nine
/// sixteenths of a tick of what its rate says.
pub proof fn lemma_elapsed_error(clock: Clock, g: int)
    requires
        clock.drift.mantissa >= 0,
        0 <= g < UNIT,
        clock.drift.mantissa * g <= 562_949_953_421_312 * two_pow(clock.drift.shift as nat),
    ensures
        ({
            let (n, d) = (clock.drift.mantissa * g, two_pow(clock.drift.shift as nat) as int);
            &&& 16 * (clock.elapsed(g) * d - n) <= 9 * d
            &&& 16 * (n - clock.elapsed(g) * d) <= 9 * d
        }),
{
    let d = two_pow(clock.drift.shift as nat);
    lemma_two_pow_bound(clock.drift.shift as nat, clock.drift.shift as nat);
    assert(0 <= clock.drift.mantissa * g) by (nonlinear_arith)
        requires
            clock.drift.mantissa >= 0,
            g >= 0,
    ;
    let n = (clock.drift.mantissa * g) as nat;
    assert(magnitude(clock.drift.mantissa as int) * as_double(magnitude(g)) == n);
    lemma_nearest_error(n, d);
}

/// A clock shows its skew plus what its rate makes of global time, `offset + drift *
/// global`, to within nine sixteenths of a tick (up to `2^49` ticks, if it does not run
/// backwards).
pub proof fn law_reading_follows_the_rate(clock: Clock, g: int)
    requires
        clock.drift.mantissa >= 0,
        clock.drift.shift <= 62,
        0 <= g < UNIT,
        clock.drift.mantissa * g <= 562_949_953_421_312 * two_pow(clock.drift.shift as nat),
    ensures
        ({
            let (n, d) = (clock.drift.mantissa * g, two_pow(clock.drift.shift as nat) as int);
            let ticks = clock.reading(g) - clock.offset;
            -9 * d <= 16 * (ticks * d - n) <= 9 * d
        }),
{
    lemma_elapsed_error(clock, g);
    let d = two_pow(clock.drift.shift as nat) as int;
    let x = clock.elapsed(g) as int;
    lemma_two_pow_bound(clock.drift.shift as nat, clock.drift.shift as nat);
    assert(x <= 562_949_953_421_313) by (nonlinear_arith)
        requires
            16 * (x * d - clock.drift.mantissa * g) <= 9 * d,
            clock.drift.mantissa * g <= 562_949_953_421_312 * d,
            d >= 1,
    ;
    assert(clock.reading(g) - clock.offset == x);
}

/// Converting a global time to a local reading and back lands within one tick,
/// for clocks that run at least at half speed.
pub proof fn law_roundtrip_within_a_tick(clock: Clock, g: int)
    requires
        clock.drift.wf(),
        2 * clock.drift.mantissa >= two_pow(clock.drift.shift as nat),
        clock.drift.mantissa * magnitude(g) <= 562_949_953_421_312 * two_pow(
            clock.drift.shift as nat,
        ),
        -281_474_976_710_656 <= g <= 281_474_976_710_656,
    ensures
        -1 <= clock.global_of(clock.reading(g)) - g <= 1,
{
    let n = magnitude(g) as int;
    lemma_roundtrip_forward(clock, n);
    if g < 0 {
        let l = clock.elapsed(n) as int;
        assert(clock.elapsed(g) == l);
        assert(clock.reading(n) == clock.offset + l);
        assert(clock.reading(g) == clock.offset - l);
        lemma_two_pow_bound(clock.drift.shift as nat, clock.drift.shift as nat);
        if l == 0 {
            assert(as_double(0) * two_pow(clock.drift.shift as nat) == 0) by (nonlinear_arith)
                requires
                    as_double(0) == 0,
            ;
        }
        assert(magnitude(-l) == magnitude(l));
        assert(clock.global_of(clock.reading(g)) == -clock.global_of(clock.reading(n)));
    }
}

/// A clock that runs at the rate of global time, whatever its skew, is converted
/// there and back exactly.
pub proof fn law_roundtrip_is_exact_without_drift(clock: Clock, g: int)
    requires
        clock.drift.mantissa == two_pow(clock.drift.shift as nat),
        -UNIT < g < UNIT,
    ensures
        clock.reading(g) == clock.offset + g,
        clock.global_of(clock.reading(g)) == g,
        clock.reading(clock.global_of(clock.offset + g)) == clock.offset + g,
{
    let d = two_pow(clock.drift.shift as nat);
    let n = magnitude(g);
    lemma_two_pow_bound(clock.drift.shift as nat, clock.drift.shift as nat);
    lemma_nearest_of_multiple(n, d);
    assert(n * d == d * n) by (nonlinear_arith);
    assert(magnitude(clock.drift.mantissa as int) == d);
    assert(clock.elapsed(g) == n);
    assert(clock.reading(g) == clock.offset + g);
    assert(magnitude(clock.reading(g) - clock.offset) == n);
}

/// The global time at which a clock that does not run backwards shows a reading
/// grows with the reading.
pub proof fn law_conversion_monotone(clock: Clock, l1: int, l2: int)
    requires
        clock.drift.mantissa >= 0,
        l1 <= l2,
    ensures
        clock.global_of(l1) <= clock.global_of(l2),
{
    let (a1, a2) = (l1 - clock.offset, l2 - clock.offset);
    if clock.drift.mantissa == 0 {
    } else if 0 <= a1 {
        lemma_conversion_grows(clock, magnitude(a1), magnitude(a2));
    } else if a2 < 0 {
        lemma_conversion_grows(clock, magnitude(a2), magnitude(a1));
    }
}

proof fn lemma_conversion_grows(clock: Clock, n1: nat, n2: nat)
    requires
        clock.drift.mantissa > 0,
        n1 <= n2,
    ensures
        nearest(
            as_double(n1) * two_pow(clock.drift.shift as nat),
            magnitude(clock.drift.mantissa as int),
        ) <= nearest(
            as_double(n2) * two_pow(clock.drift.shift as nat),
            magnitude(clock.drift.mantissa as int),
        ),
{
    let d = two_pow(clock.drift.shift as nat);
    let m = magnitude(clock.drift.mantissa as int);
    let (d1, d2) = (as_double(n1), as_double(n2));
    lemma_as_double_monotone(n1, n2);
    assert(d1 * d <= d2 * d) by (nonlinear_arith)
        requires
            d1 <= d2,
            d >= 0,
    ;
    lemma_nearest_monotone(d1 * d, d2 * d, m);
}

/// Converting there and back lands within one tick, from global time zero on.
proof fn lemma_roundtrip_forward(clock: Clock, g: int)
    requires
        clock.drift.wf(),
        0 <= g < UNIT,
        2 * clock.drift.mantissa >= two_pow(clock.drift.shift as nat),
        clock.drift.mantissa * g <= 562_949_953_421_312 * two_pow(clock.drift.shift as nat),
        g <= 281_474_976_710_656,
    ensures
        clock.elapsed(g) < UNIT,
        -1 <= clock.global_of(clock.reading(g)) - g <= 1,
{
    let d = two_pow(clock.drift.shift as nat) as int;
    let m = clock.drift.mantissa as int;
    lemma_two_pow_bound(clock.drift.shift as nat, clock.drift.shift as nat);
    lemma_elapsed_error(clock, g);
    let l = clock.elapsed(g) as int;
    // The reading is far from the ends of the range, and needs no rounding.
    assert(16 * (l * d) <= 9 * d + 16 * (562_949_953_421_312 * d));
    assert(l < UNIT) by (nonlinear_arith)
        requires
            16 * (l * d) <= 9 * d + 16 * (562_949_953_421_312 * d),
            d >= 1,
    ;
    assert(clock.reading(g) == clock.offset + l);
    assert(as_double(l as nat) == l);
    // The way back.
    let n = l * d;
    assert(0 <= n) by (nonlinear_arith)
        requires
            n == l * d,
            l >= 0,
            d >= 1,
    ;
    assert(m * g <= m * 281_474_976_710_656) by (nonlinear_arith)
        requires
            g <= 281_474_976_710_656,
            m >= 0,
    ;
    assert(n <= m * 281_474_976_710_658);
    assert(n < m * UNIT);
    lemma_nearest_error(n as nat, m as nat);
    let v = nearest(n as nat, m as nat) as int;
    assert(2 * (v * m - n) * HALF_UNIT <= m * HALF_UNIT + n);
    assert(16 * (v * m - n) <= 9 * m);
    assert(16 * (n - v * m) <= 9 * m);
    assert(16 * (v * m - m * g) <= 27 * m);
    assert(16 * (m * g - v * m) <= 27 * m);
    assert(-1 <= v - g <= 1) by (nonlinear_arith)
        requires
            16 * (v * m - m * g) <= 27 * m,
            16 * (m * g - v * m) <= 27 * m,
            m >= 1,
    ;
    assert(clock.reading(g) - clock.offset == l);
    assert(magnitude(l) == l);
    assert(clock.global_of(clock.reading(g)) == saturated(v));
}

} // verus!
