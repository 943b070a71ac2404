//! Correctly rounded quotients.
//!
//! Clock readings and drop probabilities are products and quotients of IEEE-754
//! doubles. A double operation returns the exact result rounded to 53
//! significant bits (ties to even). This module states that rounding over
//! integers and computes it exactly, so the simulator needs no floating-point
//! arithmetic and still replays the same runs.

use vstd::arithmetic::power2::{lemma2_to64, lemma_pow2_pos, lemma_pow2_unfold, pow2};
use vstd::prelude::*;

verus! {

/// `2^53`: doubles hold every integer up to this bound exactly, and a uniform
/// draw in `[0, 1)` is an integer below it divided by it.
pub const UNIT: u64 = 9_007_199_254_740_992;

/// `2^52`: the smallest integer with 53 significant bits.
pub const HALF_UNIT: u64 = 4_503_599_627_370_496;

/// `n / d` rounded to the nearest integer, ties to the even one.
pub open spec fn round_half_even(n: nat, d: nat) -> nat
    recommends
        d > 0,
{
    let q = n / d;
    let r = n % d;
    if 2 * r < d || (2 * r == d && q % 2 == 0) {
        q
    } else {
        q + 1
    }
}

/// `n / d` rounded to the nearest integer, ties up (away from zero).
pub open spec fn round_half_up(n: nat, d: nat) -> nat
    recommends
        d > 0,
{
    (2 * n + d) / (2 * d)
}

/// `n / d`, for a quotient of at least `2^52`, rounded to 53 significant bits:
/// the divisor is doubled until the quotient has no more than 53 bits, and what
/// was divided out is multiplied back.
pub open spec fn round_large(n: nat, d: nat) -> nat
    decreases (if n >= d * UNIT { n - d * UNIT + 1 } else { 0 }),
{
    if d == 0 || n < d * UNIT {
        round_half_even(n, d)
    } else {
        2 * round_large(n, 2 * d)
    }
}

/// `n / (d * s)` rounded to 53 significant bits and then to the nearest integer
/// (ties up), where `s` is the power of two that `n` has been scaled by so far.
pub open spec fn round_small(n: nat, d: nat, s: nat) -> nat
    decreases (if n < d * HALF_UNIT { d * HALF_UNIT - n } else { 0 }),
{
    if n == 0 || n >= d * HALF_UNIT {
        round_half_up(round_half_even(n, d), s)
    } else {
        round_small(2 * n, d, 2 * s)
    }
}

/// The integer that a double division of `n` by `d`, followed by rounding to
/// the nearest integer with ties away from zero, gives.
pub open spec fn nearest(n: nat, d: nat) -> nat {
    if n == 0 {
        0
    } else if n >= d * UNIT {
        round_large(n, d)
    } else {
        round_small(n, d, 1)
    }
}

/// The double closest to the integer `n` (an integer again).
pub open spec fn as_double(n: nat) -> nat {
    if n < UNIT {
        n
    } else {
        round_large(n, 1)
    }
}

/// Largest numerator that [`nearest_int`] accepts.
pub const MAX_NUMERATOR: u128 = 0x4000_0000_0000_0000_0000_0000_0000_0000;

/// Largest divisor that [`nearest_int`] accepts.
pub const MAX_DIVISOR: u128 = 0x1_0000_0000_0000_0000;

fn half_even(n: u128, d: u128) -> (r: u128)
    requires
        d > 0,
        n <= MAX_NUMERATOR,
        d <= MAX_NUMERATOR,
    ensures
        r == round_half_even(n as nat, d as nat),
{
    let q: u128 = n / d;
    let m: u128 = n % d;
    assert(q <= n) by (nonlinear_arith)
        requires
            q == n as int / (d as int),
            d > 0,
            n >= 0,
    ;
    if 2 * m < d || (2 * m == d && q % 2 == 0) {
        q
    } else {
        q + 1
    }
}

fn large(n: u128, d0: u128) -> (r: u128)
    requires
        0 < d0 <= MAX_DIVISOR,
        n <= MAX_NUMERATOR,
    ensures
        r == round_large(n as nat, d0 as nat),
{
    let mut d: u128 = d0;
    let mut s: u128 = 1;
    while n >= d * 9_007_199_254_740_992
        invariant
            0 < d <= 0x400_0000_0000_0000_0000,
            n <= MAX_NUMERATOR,
            1 <= s <= d,
            round_large(n as nat, d0 as nat) == s * round_large(n as nat, d as nat),
        decreases n - d,
    {
        proof {
            let v = round_large(n as nat, (2 * d) as nat);
            assert(round_large(n as nat, d as nat) == 2 * v);
            assert(s * (2 * v) == (2 * s) * v) by (nonlinear_arith);
        }
        d = d * 2;
        s = s * 2;
    }
    let q: u128 = half_even(n, d);
    proof {
        lemma_half_even_bound(n as nat, d as nat, UNIT as nat);
        assert(s * q <= 0x400_0000_0000_0000_0000 * 9_007_199_254_740_992) by (nonlinear_arith)
            requires
                0 <= s <= 0x400_0000_0000_0000_0000,
                0 <= q <= 9_007_199_254_740_992,
        ;
    }
    s * q
}

fn small(n0: u128, d: u128) -> (r: u128)
    requires
        0 < d <= MAX_DIVISOR,
        0 < n0 < d * UNIT,
    ensures
        r == round_small(n0 as nat, d as nat, 1),
{
    let mut n: u128 = n0;
    let mut s: u128 = 1;
    while n < d * 4_503_599_627_370_496
        invariant
            0 < d <= MAX_DIVISOR,
            0 < n < d * 9_007_199_254_740_992,
            1 <= s <= n,
            round_small(n0 as nat, d as nat, 1) == round_small(n as nat, d as nat, s as nat),
        decreases d * 9_007_199_254_740_992 - n,
    {
        n = n * 2;
        s = s * 2;
    }
    let q: u128 = half_even(n, d);
    proof {
        lemma_half_even_bound(n as nat, d as nat, UNIT as nat);
    }
    (2 * q + s) / (2 * s)
}

/// The correctly rounded quotient, as an integer.
pub fn nearest_int(n: u128, d: u128) -> (r: u128)
    requires
        0 < d <= MAX_DIVISOR,
        n <= MAX_NUMERATOR,
    ensures
        r == nearest(n as nat, d as nat),
{
    if n == 0 {
        0
    } else if n >= d * 9_007_199_254_740_992 {
        large(n, d)
    } else {
        small(n, d)
    }
}

/// The double closest to an integer.
pub fn double_of(n: u128) -> (r: u128)
    requires
        n <= MAX_NUMERATOR,
    ensures
        r == as_double(n as nat),
{
    if n < UNIT as u128 {
        n
    } else {
        large(n, 1)
    }
}

/// A quotient below `k` rounds to at most `k`.
pub proof fn lemma_half_even_bound(n: nat, d: nat, k: nat)
    requires
        d > 0,
        n <= d * k,
    ensures
        round_half_even(n, d) <= k,
{
    let q = n / d;
    let r = n % d;
    vstd::arithmetic::div_mod::lemma_fundamental_div_mod(n as int, d as int);
    assert(q <= k) by (nonlinear_arith)
        requires
            n == d * q + r,
            n <= d * k,
            0 <= r < d,
            d > 0,
    ;
    if q == k {
        assert(r == 0) by (nonlinear_arith)
            requires
                n == d * q + r,
                n <= d * k,
                q == k,
                r >= 0,
        ;
    }
}

/// A quotient of at least `k` rounds to at least `k`.
pub proof fn lemma_half_even_lower(n: nat, d: nat, k: nat)
    requires
        d > 0,
        n >= d * k,
    ensures
        round_half_even(n, d) >= k,
{
    let q = n / d;
    let r = n % d;
    vstd::arithmetic::div_mod::lemma_fundamental_div_mod(n as int, d as int);
    assert(q >= k) by (nonlinear_arith)
        requires
            n == d * q + r,
            n >= d * k,
            0 <= r < d,
            d > 0,
    ;
}

/// Rounding to the nearest integer keeps the order.
pub proof fn lemma_half_even_monotone(n1: nat, n2: nat, d: nat)
    requires
        d > 0,
        n1 <= n2,
    ensures
        round_half_even(n1, d) <= round_half_even(n2, d),
{
    let (q1, r1) = (n1 / d, n1 % d);
    let (q2, r2) = (n2 / d, n2 % d);
    vstd::arithmetic::div_mod::lemma_fundamental_div_mod(n1 as int, d as int);
    vstd::arithmetic::div_mod::lemma_fundamental_div_mod(n2 as int, d as int);
    assert(q1 <= q2) by (nonlinear_arith)
        requires
            n1 == d * q1 + r1,
            n2 == d * q2 + r2,
            n1 <= n2,
            0 <= r1,
            0 <= r2 < d,
            d > 0,
    ;
}

/// Rounding to the nearest integer, ties up, keeps the order.
pub proof fn lemma_half_up_monotone(n1: nat, n2: nat, d: nat)
    requires
        d > 0,
        n1 <= n2,
    ensures
        round_half_up(n1, d) <= round_half_up(n2, d),
{
    vstd::arithmetic::div_mod::lemma_div_is_ordered(
        (2 * n1 + d) as int,
        (2 * n2 + d) as int,
        (2 * d) as int,
    );
}

/// Scaling numerator and divisor alike does not change the rounded quotient.
proof fn lemma_half_up_scaled(n: nat, d: nat)
    requires
        d > 0,
    ensures
        round_half_up(2 * n, 2 * d) == round_half_up(n, d),
{
    vstd::arithmetic::div_mod::lemma_div_multiples_vanish_quotient(
        2,
        (2 * n + d) as int,
        (2 * d) as int,
    );
    assert(2 * (2 * n + d) == 2 * (2 * n) + 2 * d);
    assert(2 * (2 * d) == 2 * (2 * d));
}

/// Rounding an integer of at most `2^53 * 2^k` stays within that bound.
pub proof fn lemma_large_bound(n: nat, d: nat, k: nat)
    requires
        d > 0,
        n <= d * UNIT * pow2(k),
    ensures
        round_large(n, d) <= UNIT * pow2(k),
    decreases k,
{
    lemma_pow2_pos(k);
    if n < d * UNIT {
        lemma_half_even_bound(n, d, UNIT as nat);
        assert(UNIT <= UNIT * pow2(k)) by (nonlinear_arith)
            requires
                pow2(k) > 0,
        ;
    } else if k == 0 {
        lemma_pow2_unfold(1);
        assert(pow2(0) == 1) by {
            lemma2_to64();
        }
        assert(n == d * UNIT && UNIT * pow2(0) == UNIT);
        assert((2 * d) * HALF_UNIT == d * UNIT);
        lemma_half_even_bound(n, 2 * d, HALF_UNIT as nat);
        assert(n < (2 * d) * UNIT);
        assert(round_large(n, 2 * d) == round_half_even(n, 2 * d));
    } else {
        lemma_pow2_unfold(k);
        let p = pow2((k - 1) as nat);
        assert(d * UNIT * (2 * p) == (2 * d) * UNIT * p) by (nonlinear_arith);
        assert(2 * (UNIT * p) == UNIT * (2 * p)) by (nonlinear_arith);
        lemma_large_bound(n, 2 * d, (k - 1) as nat);
    }
}

/// A quotient of at least `2^52` rounds to at least `2^52`.
proof fn lemma_large_lower(n: nat, d: nat)
    requires
        d > 0,
        n >= d * HALF_UNIT,
    ensures
        round_large(n, d) >= HALF_UNIT,
    decreases (if n >= d * UNIT { n - d * UNIT + 1 } else { 0 }),
{
    if n < d * UNIT {
        lemma_half_even_lower(n, d, HALF_UNIT as nat);
    } else {
        lemma_large_lower(n, 2 * d);
    }
}

proof fn lemma_large_monotone(n1: nat, n2: nat, d: nat)
    requires
        d > 0,
        n1 <= n2,
    ensures
        round_large(n1, d) <= round_large(n2, d),
    decreases (if n2 >= d * UNIT { n2 - d * UNIT + 1 } else { 0 }),
{
    if n2 < d * UNIT {
        lemma_half_even_monotone(n1, n2, d);
    } else if n1 < d * UNIT {
        lemma_half_even_bound(n1, d, UNIT as nat);
        lemma_large_lower(n2, 2 * d);
    } else {
        lemma_large_monotone(n1, n2, 2 * d);
    }
}

proof fn lemma_small_bound(n: nat, d: nat, s: nat)
    requires
        d > 0,
        s > 0,
        0 < n <= d * UNIT,
    ensures
        round_small(n, d, s) <= round_half_up(UNIT as nat, s),
    decreases (if n < d * HALF_UNIT { d * HALF_UNIT - n } else { 0 }),
{
    if n >= d * HALF_UNIT {
        lemma_half_even_bound(n, d, UNIT as nat);
        lemma_half_up_monotone(round_half_even(n, d), UNIT as nat, s);
    } else {
        lemma_small_bound(2 * n, d, 2 * s);
        lemma_half_up_scaled(HALF_UNIT as nat, s);
        lemma_half_up_monotone(HALF_UNIT as nat, UNIT as nat, s);
    }
}

proof fn lemma_small_monotone(n1: nat, n2: nat, d: nat, s: nat)
    requires
        d > 0,
        s > 0,
        0 < n1 <= n2 <= d * UNIT,
    ensures
        round_small(n1, d, s) <= round_small(n2, d, s),
    decreases (if n1 < d * HALF_UNIT { d * HALF_UNIT - n1 } else { 0 }),
{
    if n1 >= d * HALF_UNIT {
        lemma_half_even_monotone(n1, n2, d);
        lemma_half_up_monotone(round_half_even(n1, d), round_half_even(n2, d), s);
    } else if n2 >= d * HALF_UNIT {
        lemma_small_bound(2 * n1, d, 2 * s);
        lemma_half_up_scaled(HALF_UNIT as nat, s);
        lemma_half_even_lower(n2, d, HALF_UNIT as nat);
        lemma_half_up_monotone(HALF_UNIT as nat, round_half_even(n2, d), s);
    } else {
        lemma_small_monotone(2 * n1, 2 * n2, d, 2 * s);
    }
}

/// The rounded quotient never falls when the numerator grows.
pub proof fn lemma_nearest_monotone(n1: nat, n2: nat, d: nat)
    requires
        d > 0,
        n1 <= n2,
    ensures
        nearest(n1, d) <= nearest(n2, d),
{
    if n1 == 0 {
    } else if n2 < d * UNIT {
        lemma_small_monotone(n1, n2, d, 1);
    } else if n1 < d * UNIT {
        lemma_small_bound(n1, d, 1);
        assert(round_half_up(UNIT as nat, 1) == (2 * UNIT + 1) / 2);
        lemma_large_lower(n2, 2 * d);
    } else {
        lemma_large_monotone(n1, n2, d);
    }
}

/// Rounding an integer to a double keeps the order.
pub proof fn lemma_as_double_monotone(n1: nat, n2: nat)
    requires
        n1 <= n2,
    ensures
        as_double(n1) <= as_double(n2),
{
    if n2 >= UNIT {
        if n1 < UNIT {
            lemma_large_lower(n2, 2);
        } else {
            lemma_large_monotone(n1, n2, 1);
        }
    }
}

proof fn lemma_small_exact(n: nat, s: nat)
    requires
        0 < n * s,
        n * s <= UNIT,
    ensures
        round_small(n * s, 1, s) == n,
    decreases (if n * s < HALF_UNIT { HALF_UNIT - n * s } else { 0 }),
{
    assert(s > 0 && n > 0) by (nonlinear_arith)
        requires
            0 < n * s,
            n >= 0,
            s >= 0,
    ;
    if n * s >= HALF_UNIT {
        assert(round_half_even(n * s, 1) == n * s);
        assert(2 * (n * s) + s == n * (2 * s) + s) by (nonlinear_arith);
        vstd::arithmetic::div_mod::lemma_div_multiples_vanish_fancy(
            n as int,
            s as int,
            (2 * s) as int,
        );
        assert((n * (2 * s) + s) == (2 * s) * n + s) by (nonlinear_arith);
    } else {
        assert(2 * (n * s) == n * (2 * s)) by (nonlinear_arith);
        lemma_small_exact(n, 2 * s);
    }
}

/// An integer of at most `2^53` needs no rounding.
pub proof fn lemma_nearest_of_integer(n: nat)
    requires
        n <= UNIT,
    ensures
        nearest(n, 1) == n,
{
    if n == 0 {
    } else if n < UNIT {
        assert(n * 1 == n);
        lemma_small_exact(n, 1);
    } else {
        assert(round_large(n, 2) == round_half_even(n, 2));
        assert(round_half_even(n, 2) == HALF_UNIT);
    }
}

/// A multiple of the divisor below `2^53` times it needs no rounding either.
pub proof fn lemma_nearest_of_multiple(n: nat, d: nat)
    requires
        d > 0,
        n < UNIT,
    ensures
        nearest(n * d, d) == n,
{
    lemma_nearest_of_integer(n);
    assert(n * d < d * UNIT) by (nonlinear_arith)
        requires
            n < UNIT,
            d > 0,
    ;
    if n > 0 {
        assert(n * d > 0) by (nonlinear_arith)
            requires
                n > 0,
                d > 0,
        ;
        lemma_small_of_multiple(n, d, 1);
    } else {
        assert(n * d == 0) by (nonlinear_arith)
            requires
                n == 0,
        ;
    }
}

proof fn lemma_small_of_multiple(n: nat, d: nat, s: nat)
    requires
        d > 0,
        0 < n,
    ensures
        round_small(n * d, d, s) == round_small(n, 1, s),
    decreases (if n < HALF_UNIT { HALF_UNIT - n } else { 0 }),
{
    assert(n * d > 0) by (nonlinear_arith)
        requires
            n > 0,
            d > 0,
    ;
    assert(n < HALF_UNIT <==> n * d < d * HALF_UNIT) by (nonlinear_arith)
        requires
            d > 0,
    ;
    if n >= HALF_UNIT {
        vstd::arithmetic::div_mod::lemma_div_multiples_vanish(n as int, d as int);
        vstd::arithmetic::div_mod::lemma_mod_multiples_basic(n as int, d as int);
        assert(n * d == d * n) by (nonlinear_arith);
        assert(round_half_even(n * d, d) == n);
        assert(round_half_even(n, 1) == n);
    } else {
        assert(2 * (n * d) == (2 * n) * d) by (nonlinear_arith);
        lemma_small_of_multiple(2 * n, d, 2 * s);
    }
}

/// How far the rounded quotient may be from the exact one: half a unit, plus one
/// part in `2^53`.
proof fn lemma_small_error(n: nat, d: nat, s: nat)
    requires
        d > 0,
        s > 0,
        0 < n <= d * UNIT,
    ensures
        2 * (round_small(n, d, s) * (s * d) - n) * HALF_UNIT <= (s * d) * HALF_UNIT + n,
        2 * (n - round_small(n, d, s) * (s * d)) * HALF_UNIT <= (s * d) * HALF_UNIT + n,
    decreases (if n < d * HALF_UNIT { d * HALF_UNIT - n } else { 0 }),
{
    let v = round_small(n, d, s) as int;
    if n >= d * HALF_UNIT {
        let q = round_half_even(n, d) as int;
        lemma_half_even_error(n, d);
        lemma_half_up_error(q as nat, s);
        assert(v == round_half_up(q as nat, s));
        let e = v * s - q;
        let f = q * d - n;
        assert(v * (s * d) - n == e * d + f) by (nonlinear_arith)
            requires
                e == v * s - q,
                f == q * d - n,
        ;
        assert(2 * (e * d) <= s * d) by (nonlinear_arith)
            requires
                2 * e <= s,
                d > 0,
        ;
        assert(-(s * d) <= 2 * (e * d)) by (nonlinear_arith)
            requires
                -s <= 2 * e,
                d > 0,
        ;
        assert(2 * (v * (s * d) - n) <= s * d + d);
        assert(2 * (n - v * (s * d)) <= s * d + d);
    } else {
        lemma_small_error(2 * n, d, 2 * s);
        assert(v == round_small(2 * n, d, 2 * s));
        assert((2 * s) * d == 2 * (s * d)) by (nonlinear_arith);
        assert(v * (2 * (s * d)) == 2 * (v * (s * d))) by (nonlinear_arith);
    }
}

proof fn lemma_half_even_error(n: nat, d: nat)
    requires
        d > 0,
    ensures
        2 * (round_half_even(n, d) * d - n) <= d,
        2 * (n - round_half_even(n, d) * d) <= d,
{
    vstd::arithmetic::div_mod::lemma_fundamental_div_mod(n as int, d as int);
    let (q, r) = ((n / d) as int, (n % d) as int);
    let v = round_half_even(n, d) as int;
    assert(d * q == q * d) by (nonlinear_arith);
    assert((q + 1) * d == q * d + d) by (nonlinear_arith);
    assert(v == q || v == q + 1);
}

proof fn lemma_half_up_error(n: nat, d: nat)
    requires
        d > 0,
    ensures
        2 * (round_half_up(n, d) * d - n) <= d,
        2 * (n - round_half_up(n, d) * d) <= d,
{
    let (a, b) = ((2 * n + d) as int, (2 * d) as int);
    vstd::arithmetic::div_mod::lemma_fundamental_div_mod(a, b);
    let v = round_half_up(n, d) as int;
    assert(b * v == 2 * (v * d)) by (nonlinear_arith)
        requires
            b == 2 * d,
    ;
}

/// How far the rounded quotient may be from the exact one.
pub proof fn lemma_nearest_error(n: nat, d: nat)
    requires
        d > 0,
        n < d * UNIT,
    ensures
        2 * (nearest(n, d) * d - n) * HALF_UNIT <= d * HALF_UNIT + n,
        2 * (n - nearest(n, d) * d) * HALF_UNIT <= d * HALF_UNIT + n,
{
    if n > 0 {
        lemma_small_error(n, d, 1);
        assert(1 * d == d);
    } else {
        assert(0 * d == 0) by (nonlinear_arith);
    }
}

} // verus!
