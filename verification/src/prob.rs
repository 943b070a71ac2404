//! Probabilities as integers over `2^53`.
//!
//! A uniform double in `[0, 1)` is an integer below `2^53` divided by `2^53`, so
//! comparing it with a probability is comparing two integers.

use crate::rounding::{
    as_double, double_of, lemma_half_even_bound, lemma_large_bound, round_half_even, round_large,
    HALF_UNIT, UNIT,
};
use vstd::arithmetic::power2::{
    lemma2_to64, lemma2_to64_rest, lemma_pow2_pos, lemma_pow2_unfold, pow2,
};
use vstd::prelude::*;

verus! {

/// A probability: `num / 2^53`, where anything from `2^53` on means certainty.
#[derive(Debug, Clone, Copy, PartialEq, Eq, Structural)]
pub struct Prob {
    pub num: u64,
}

impl Prob {
    /// `0`.
    pub fn never() -> (r: Self)
        ensures
            r == (Prob { num: 0 }),
    {
        Prob { num: 0 }
    }

    /// `1`.
    pub fn always() -> (r: Self)
        ensures
            r == (Prob { num: UNIT }),
    {
        Prob { num: UNIT }
    }

    /// The probability with its numerator cut to `2^53`.
    pub open spec fn clamped(self) -> Prob {
        if self.num > UNIT {
            Prob { num: UNIT }
        } else {
            self
        }
    }

    /// Cut to the range `[0, 1]`.
    pub fn clamp(self) -> (r: Prob)
        ensures
            r == self.clamped(),
    {
        if self.num > UNIT {
            Prob { num: UNIT }
        } else {
            self
        }
    }

    /// Probability, in units of `2^-53`, that the event does not happen.
    pub open spec fn miss(self) -> nat {
        if self.num < UNIT {
            (UNIT - self.num) as nat
        } else {
            0
        }
    }

    /// The number of the `2^53` equally likely draws that lose the message when
    /// two independent causes of loss apply: `1 - (1 - a)(1 - b)`, each operation
    /// rounded as a double operation is.
    pub open spec fn either_spec(self, other: Prob) -> nat {
        let product = as_double(self.miss() * other.miss());
        round_half_even((UNIT * UNIT - product) as nat, UNIT as nat)
    }

    /// Probability that at least one of two independent events happens.
    pub fn either(self, other: Prob) -> (r: Prob)
        ensures
            r.num == self.either_spec(other),
    {
        let unit: u128 = UNIT as u128;
        let a: u128 = if self.num < UNIT {
            (UNIT - self.num) as u128
        } else {
            0
        };
        let b: u128 = if other.num < UNIT {
            (UNIT - other.num) as u128
        } else {
            0
        };
        proof {
            assert(a * b <= UNIT * UNIT) by (nonlinear_arith)
                requires
                    0 <= a <= UNIT,
                    0 <= b <= UNIT,
            ;
            assert(0 <= a * b) by (nonlinear_arith)
                requires
                    0 <= a,
                    0 <= b,
            ;
            lemma_double_of_product(a as nat * b as nat);
        }
        let product: u128 = double_of(a * b);
        let rest: u128 = unit * unit - product;
        let q: u128 = rest / unit;
        let m: u128 = rest % unit;
        proof {
            lemma_half_even_bound(rest as nat, UNIT as nat, UNIT as nat);
        }
        let num: u128 = if 2 * m < unit || (2 * m == unit && q % 2 == 0) {
            q
        } else {
            q + 1
        };
        Prob { num: num as u64 }
    }
}

/// Rounding an integer of at most `2^106` to a double stays within `2^106`.
proof fn lemma_double_of_product(n: nat)
    requires
        n <= UNIT * UNIT,
    ensures
        as_double(n) <= UNIT * UNIT,
{
    if n >= UNIT {
        lemma2_to64_rest();
        lemma_large_bound(n, 1, 53);
    }
}

/// If one of two causes of loss is certain, the loss is.
pub proof fn law_certain_loss_stays_certain(a: Prob, b: Prob)
    requires
        a.num >= UNIT || b.num >= UNIT,
    ensures
        a.either_spec(b) == UNIT,
{
    assert(a.miss() * b.miss() == 0) by (nonlinear_arith)
        requires
            a.miss() == 0 || b.miss() == 0,
    ;
}

/// If neither of two causes of loss can happen, nothing is lost.
pub proof fn law_no_cause_no_loss(a: Prob, b: Prob)
    requires
        a.num == 0,
        b.num == 0,
    ensures
        a.either_spec(b) == 0,
{
    let n = (UNIT * UNIT) as nat;
    lemma_double_of_square();
    assert(as_double(n) == n);
}

/// The square of `2^53` needs no rounding.
proof fn lemma_double_of_square()
    ensures
        as_double((UNIT * UNIT) as nat) == UNIT * UNIT,
{
    lemma2_to64_rest();
    lemma_large_power(1, 53);
}

/// A quotient of `2^53 * 2^k` needs no rounding.
proof fn lemma_large_power(d: nat, k: nat)
    requires
        d > 0,
    ensures
        round_large((d * UNIT * pow2(k)) as nat, d) == UNIT * pow2(k),
    decreases k,
{
    lemma_pow2_pos(k);
    let n = (d * UNIT * pow2(k)) as nat;
    assert(n >= d * UNIT) by (nonlinear_arith)
        requires
            n == d * UNIT * pow2(k),
            pow2(k) >= 1,
            d > 0,
    ;
    if k == 0 {
        lemma2_to64();
        assert(n == d * UNIT);
        assert(n < (2 * d) * UNIT);
        assert(n == (2 * d) * HALF_UNIT);
        assert(round_large(n, 2 * d) == round_half_even(n, 2 * d));
        vstd::arithmetic::div_mod::lemma_div_multiples_vanish(HALF_UNIT as int, (2 * d) as int);
        vstd::arithmetic::div_mod::lemma_mod_multiples_basic(HALF_UNIT as int, (2 * d) as int);
    } else {
        lemma_pow2_unfold(k);
        let p = pow2((k - 1) as nat);
        assert(d * UNIT * (2 * p) == (2 * d) * UNIT * p) by (nonlinear_arith);
        assert(2 * (UNIT * p) == UNIT * (2 * p)) by (nonlinear_arith);
        lemma_large_power(2 * d, (k - 1) as nat);
    }
}

/// A rounded quotient is off by at most half a unit.
proof fn lemma_half_even_error(n: nat, d: nat)
    requires
        d > 0,
    ensures
        -(d as int) <= 2 * (d * round_half_even(n, d) - n) <= d,
{
    let (q, r) = (n / d, n % d);
    vstd::arithmetic::div_mod::lemma_fundamental_div_mod(n as int, d as int);
    assert(d * (q + 1) == d * q + d) by (nonlinear_arith);
}

/// Rounding a quotient below `2^53 * 2^k` to 53 significant bits is off by at most half
/// of `2^k`.
proof fn lemma_large_error(n: nat, d: nat, k: nat)
    requires
        d > 0,
        n < d * UNIT * pow2(k),
    ensures
        -(d * pow2(k)) <= 2 * (d * round_large(n, d) - n) <= d * pow2(k),
    decreases k,
{
    lemma_pow2_pos(k);
    if n < d * UNIT {
        lemma_half_even_error(n, d);
        assert(d <= d * pow2(k)) by (nonlinear_arith)
            requires
                pow2(k) >= 1,
                d > 0,
        ;
    } else if k == 0 {
        lemma2_to64();
        assert(d * UNIT * 1 == d * UNIT);
    } else {
        lemma_pow2_unfold(k);
        let p = pow2((k - 1) as nat);
        assert(d * UNIT * (2 * p) == (2 * d) * UNIT * p) by (nonlinear_arith);
        assert((2 * d) * p == d * (2 * p)) by (nonlinear_arith);
        lemma_large_error(n, 2 * d, (k - 1) as nat);
        let v = round_large(n, 2 * d);
        assert(d * (2 * v) == (2 * d) * v) by (nonlinear_arith);
    }
}

/// A quotient of at most 53 significant bits needs no rounding.
proof fn lemma_large_exact(x: nat, d: nat, k: nat)
    requires
        d > 0,
        x <= UNIT,
    ensures
        round_large((d * x * pow2(k)) as nat, d) == x * pow2(k),
    decreases k,
{
    let n = (d * x * pow2(k)) as nat;
    let m = (x * pow2(k)) as nat;
    assert(n == m * d) by (nonlinear_arith)
        requires
            n == d * x * pow2(k),
            m == x * pow2(k),
    ;
    if n < d * UNIT {
        vstd::arithmetic::div_mod::lemma_div_multiples_vanish(m as int, d as int);
        vstd::arithmetic::div_mod::lemma_mod_multiples_basic(m as int, d as int);
        assert(d * m == m * d) by (nonlinear_arith);
    } else if k == 0 {
        lemma2_to64();
        assert(d * x * 1 == d * x);
        assert(x == UNIT) by (nonlinear_arith)
            requires
                d * x >= d * UNIT,
                x <= UNIT,
                d > 0,
        ;
        lemma_large_power(d, 0);
    } else {
        lemma_pow2_unfold(k);
        let p = pow2((k - 1) as nat);
        assert(d * x * (2 * p) == (2 * d) * x * p) by (nonlinear_arith);
        assert(2 * (x * p) == x * (2 * p)) by (nonlinear_arith);
        lemma_large_exact(x, 2 * d, (k - 1) as nat);
    }
}

/// Two independent causes of loss combine as `1 - (1 - a)(1 - b)`: of the `2^53`
/// equally likely draws, that share loses the message, to within a single draw.
pub proof fn law_losses_combine(a: Prob, b: Prob)
    requires
        a.num <= UNIT,
        b.num <= UNIT,
    ensures
        ({
            let exact = UNIT * UNIT - (UNIT - a.num) * (UNIT - b.num);
            exact - UNIT <= a.either_spec(b) * UNIT <= exact + UNIT
        }),
{
    let m = (a.miss() * b.miss()) as nat;
    assert(m == (UNIT - a.num) * (UNIT - b.num));
    assert(0 <= m <= UNIT * UNIT) by (nonlinear_arith)
        requires
            m == (UNIT - a.num) * (UNIT - b.num),
            0 <= a.num <= UNIT,
            0 <= b.num <= UNIT,
    ;
    let product = as_double(m);
    lemma_double_of_product(m);
    assert(-(UNIT as int) <= 2 * (product - m) <= UNIT) by {
        if m == UNIT * UNIT {
            lemma_double_of_square();
        } else if m >= UNIT {
            lemma2_to64_rest();
            lemma_large_error(m, 1, 53);
            assert(pow2(53) == UNIT);
        }
    }
    let rest = (UNIT * UNIT - product) as nat;
    lemma_half_even_error(rest, UNIT as nat);
    let n = a.either_spec(b);
    assert(UNIT * n == n * UNIT) by (nonlinear_arith);
}

/// A single cause of loss is not changed by one that cannot happen: exactly its own
/// share of the draws loses the message, whichever of the two it is.
pub proof fn law_single_loss_is_exact(a: Prob, b: Prob)
    requires
        a.num <= UNIT,
        b.num == 0,
    ensures
        a.either_spec(b) == a.num,
        b.either_spec(a) == a.num,
{
    let x = a.miss();
    let m = (x * UNIT) as nat;
    assert(a.miss() * b.miss() == m && b.miss() * a.miss() == m) by (nonlinear_arith)
        requires
            a.miss() == x,
            b.miss() == UNIT,
            m == x * UNIT,
    ;
    if m >= UNIT {
        lemma2_to64_rest();
        lemma_large_exact(x, 1, 53);
        assert(1 * x * pow2(53) == m);
    }
    assert(as_double(m) == m);
    let rest = (UNIT * UNIT - m) as nat;
    assert(rest == a.num * UNIT) by (nonlinear_arith)
        requires
            rest == UNIT * UNIT - (UNIT - a.num) * UNIT,
    ;
    vstd::arithmetic::div_mod::lemma_div_multiples_vanish(a.num as int, UNIT as int);
    vstd::arithmetic::div_mod::lemma_mod_multiples_basic(a.num as int, UNIT as int);
}

} // verus!
