//! Deterministic, seedable PRNG (`xoshiro256**`). Every simulation run is
//! reproducible from its seed.

use crate::prob::Prob;
use crate::rounding::UNIT;
use vstd::arithmetic::div_mod::{
    lemma_mul_mod_noop_left, lemma_mul_mod_noop_right, lemma_small_mod,
};
use vstd::prelude::*;

verus! {

/// The four words of generator state.
pub struct RngState {
    pub s0: u64,
    pub s1: u64,
    pub s2: u64,
    pub s3: u64,
}

/// One SplitMix64 output for the counter value `z`.
pub open spec fn splitmix(z: u64) -> u64 {
    let a = (z ^ (z >> 30)).wrapping_mul(0xBF58_476D_1CE4_E5B9u64);
    let b = (a ^ (a >> 27)).wrapping_mul(0x94D0_49BB_1331_11EBu64);
    b ^ (b >> 31)
}

/// The next SplitMix64 counter value.
pub open spec fn splitmix_step(z: u64) -> u64 {
    z.wrapping_add(0x9E37_79B9_7F4A_7C15u64)
}

impl RngState {
    /// The state a seed expands to: four consecutive SplitMix64 outputs.
    pub open spec fn seeded(seed: u64) -> RngState {
        let z0 = splitmix_step(seed);
        let z1 = splitmix_step(z0);
        let z2 = splitmix_step(z1);
        let z3 = splitmix_step(z2);
        RngState { s0: splitmix(z0), s1: splitmix(z1), s2: splitmix(z2), s3: splitmix(z3) }
    }

    /// The 64-bit value that this state yields.
    pub open spec fn output(self) -> u64 {
        let x = self.s1.wrapping_mul(5);
        ((x << 7) | (x >> 57)).wrapping_mul(9)
    }

    /// The state after one value was drawn.
    pub open spec fn next(self) -> RngState {
        let t = self.s1 << 17;
        let u2 = self.s2 ^ self.s0;
        let u3 = self.s3 ^ self.s1;
        RngState {
            s0: self.s0 ^ u3,
            s1: self.s1 ^ u2,
            s2: u2 ^ t,
            s3: (u3 << 45) | (u3 >> 19),
        }
    }

    /// The 53 leading bits of the next value: a uniform draw below `2^53`.
    pub open spec fn unit(self) -> u64 {
        self.output() >> 11
    }

    /// Whether a trial with probability `p` succeeds in this state.
    pub open spec fn hit(self, p: Prob) -> bool {
        self.unit() < p.num
    }

    /// The integer in `[lo, hi]` that this state yields (`lo` when the range is
    /// a single point or empty).
    pub open spec fn ranged(self, lo: int, hi: int) -> int {
        if hi <= lo {
            lo
        } else {
            lo + (self.output() as int) % (hi - lo + 1)
        }
    }

    /// The state after an integer in `[lo, hi]` was drawn: a value is consumed
    /// only if there is a choice.
    pub open spec fn after_ranged(self, lo: int, hi: int) -> RngState {
        if hi <= lo {
            self
        } else {
            self.next()
        }
    }
}

/// A small, fast, seedable pseudo-random generator.
#[derive(Debug, Clone)]
pub struct Rng {
    s0: u64,
    s1: u64,
    s2: u64,
    s3: u64,
}

impl View for Rng {
    type V = RngState;

    closed spec fn view(&self) -> RngState {
        RngState { s0: self.s0, s1: self.s1, s2: self.s2, s3: self.s3 }
    }
}

fn splitmix_exec(z: u64) -> (r: u64)
    ensures
        r == splitmix(z),
{
    let a: u64 = (z ^ (z >> 30)).wrapping_mul(0xBF58_476D_1CE4_E5B9u64);
    let b: u64 = (a ^ (a >> 27)).wrapping_mul(0x94D0_49BB_1331_11EBu64);
    b ^ (b >> 31)
}

fn splitmix_step_exec(z: u64) -> (r: u64)
    ensures
        r == splitmix_step(z),
{
    z.wrapping_add(0x9E37_79B9_7F4A_7C15u64)
}

impl Rng {
    /// Seed the generator. Any seed is valid; the seed is expanded via
    /// SplitMix64 so even `0` produces a well-distributed state.
    pub fn new(seed: u64) -> (r: Self)
        ensures
            r@ == RngState::seeded(seed),
    {
        let z0: u64 = splitmix_step_exec(seed);
        let z1: u64 = splitmix_step_exec(z0);
        let z2: u64 = splitmix_step_exec(z1);
        let z3: u64 = splitmix_step_exec(z2);
        Rng {
            s0: splitmix_exec(z0),
            s1: splitmix_exec(z1),
            s2: splitmix_exec(z2),
            s3: splitmix_exec(z3),
        }
    }

    /// Next raw 64-bit value.
    pub fn next_u64(&mut self) -> (r: u64)
        ensures
            r == old(self)@.output(),
            final(self)@ == old(self)@.next(),
    {
        let x: u64 = self.s1.wrapping_mul(5);
        let result: u64 = ((x << 7) | (x >> 57)).wrapping_mul(9);
        let t: u64 = self.s1 << 17;
        self.s2 = self.s2 ^ self.s0;
        self.s3 = self.s3 ^ self.s1;
        self.s1 = self.s1 ^ self.s2;
        self.s0 = self.s0 ^ self.s3;
        self.s2 = self.s2 ^ t;
        self.s3 = (self.s3 << 45) | (self.s3 >> 19);
        result
    }

    /// The 53 significant bits of a uniform double in `[0, 1)`: the double is
    /// the result divided by `2^53`.
    pub fn next_f64(&mut self) -> (r: u64)
        ensures
            r == old(self)@.unit(),
            r < UNIT,
            final(self)@ == old(self)@.next(),
    {
        let x: u64 = self.next_u64();
        assert(x >> 11 < 9_007_199_254_740_992) by (bit_vector);
        x >> 11
    }

    /// Uniform integer in `[lo, hi]` inclusive. Returns `lo` if `hi <= lo`.
    pub fn next_range(&mut self, lo: i64, hi: i64) -> (r: i64)
        ensures
            r == old(self)@.ranged(lo as int, hi as int),
            hi <= lo ==> r == lo,
            lo < hi ==> lo <= r <= hi,
            final(self)@ == old(self)@.after_ranged(lo as int, hi as int),
    {
        if hi <= lo {
            return lo;
        }
        let span: i128 = hi as i128 - lo as i128 + 1;
        let x: i128 = self.next_u64() as i128;
        (lo as i128 + x % span) as i64
    }

    /// Bernoulli trial: `true` with probability `p`.
    pub fn chance(&mut self, p: Prob) -> (r: bool)
        ensures
            r == old(self)@.hit(p),
            final(self)@ == old(self)@.next(),
    {
        self.next_f64() < p.num
    }
}

/// A certain event happens in every state of the generator.
pub proof fn law_certain_event_always_hits(state: RngState, p: Prob)
    requires
        p.num >= UNIT,
    ensures
        state.hit(p),
{
    let x = state.output();
    assert(x >> 11 < 9_007_199_254_740_992) by (bit_vector);
}

/// An event of probability zero happens in no state of the generator.
pub proof fn law_impossible_event_never_hits(state: RngState, p: Prob)
    requires
        p.num == 0,
    ensures
        !state.hit(p),
{
}

/// The draw from a range stays within it.
pub proof fn law_range_within_bounds(state: RngState, lo: int, hi: int)
    requires
        lo <= hi,
    ensures
        lo <= state.ranged(lo, hi) <= hi,
{
}

/// Multiplying by a factor that has an inverse, wrapping around, loses nothing.
proof fn lemma_wrapping_mul_injective(x: u64, y: u64, factor: u64, inverse: u64)
    requires
        (factor * inverse) % 0x1_0000_0000_0000_0000 == 1,
        x.wrapping_mul(factor) == y.wrapping_mul(factor),
    ensures
        x == y,
{
    let m: int = 0x1_0000_0000_0000_0000;
    lemma_undone(x as int, factor as int, inverse as int, m);
    lemma_undone(y as int, factor as int, inverse as int, m);
    assert(x.wrapping_mul(factor) == (x * factor) % m);
    assert(y.wrapping_mul(factor) == (y * factor) % m);
}

proof fn lemma_undone(x: int, factor: int, inverse: int, m: int)
    requires
        0 <= x < m,
        (factor * inverse) % m == 1,
    ensures
        (((x * factor) % m) * inverse) % m == x,
{
    lemma_mul_mod_noop_left(x * factor, inverse, m);
    assert((x * factor) * inverse == x * (factor * inverse)) by (nonlinear_arith);
    lemma_mul_mod_noop_right(x, factor * inverse, m);
    lemma_small_mod(x as nat, m as nat);
    assert(x * 1 == x);
}

/// Different counter values give different SplitMix64 outputs.
proof fn lemma_splitmix_injective(y: u64, z: u64)
    requires
        splitmix(y) == splitmix(z),
    ensures
        y == z,
{
    let p = y ^ (y >> 30);
    let q = z ^ (z >> 30);
    let a = p.wrapping_mul(0xBF58_476D_1CE4_E5B9u64);
    let b = q.wrapping_mul(0xBF58_476D_1CE4_E5B9u64);
    let c = a ^ (a >> 27);
    let d = b ^ (b >> 27);
    let e = c.wrapping_mul(0x94D0_49BB_1331_11EBu64);
    let f = d.wrapping_mul(0x94D0_49BB_1331_11EBu64);
    assert(e ^ (e >> 31) == f ^ (f >> 31) ==> e == f) by (bit_vector);
    lemma_wrapping_mul_injective(c, d, 0x94D0_49BB_1331_11EBu64, 0x3196_42B2_D24D_8EC3u64);
    assert(a ^ (a >> 27) == b ^ (b >> 27) ==> a == b) by (bit_vector);
    lemma_wrapping_mul_injective(p, q, 0xBF58_476D_1CE4_E5B9u64, 0x96DE_1B17_3F11_9089u64);
    assert(y ^ (y >> 30) == z ^ (z >> 30) ==> y == z) by (bit_vector);
}

/// Different states of the second word yield different values.
proof fn lemma_output_injective(x: RngState, y: RngState)
    requires
        x.output() == y.output(),
    ensures
        x.s1 == y.s1,
{
    let a = x.s1.wrapping_mul(5);
    let b = y.s1.wrapping_mul(5);
    let c = (a << 7) | (a >> 57);
    let d = (b << 7) | (b >> 57);
    lemma_wrapping_mul_injective(c, d, 9, 0x8E38_E38E_38E3_8E39u64);
    assert(((a << 7) | (a >> 57)) == ((b << 7) | (b >> 57)) ==> a == b) by (bit_vector);
    lemma_wrapping_mul_injective(x.s1, y.s1, 5, 0xCCCC_CCCC_CCCC_CCCDu64);
}

impl RngState {
    /// The state after `n` values were drawn.
    pub open spec fn after(self, n: nat) -> RngState
        decreases n,
    {
        if n == 0 {
            self
        } else {
            self.next().after((n - 1) as nat)
        }
    }

    /// Every word of the state is zero: the one state that yields nothing but zero.
    pub open spec fn all_zero(self) -> bool {
        self.s0 == 0 && self.s1 == 0 && self.s2 == 0 && self.s3 == 0
    }
}

/// Different seeds expand to states that differ in every word.
pub proof fn law_seeds_differ_in_every_word(x: u64, y: u64)
    requires
        x != y,
    ensures
        RngState::seeded(x).s0 != RngState::seeded(y).s0,
        RngState::seeded(x).s1 != RngState::seeded(y).s1,
        RngState::seeded(x).s2 != RngState::seeded(y).s2,
        RngState::seeded(x).s3 != RngState::seeded(y).s3,
{
    let (x0, y0) = (splitmix_step(x), splitmix_step(y));
    let (x1, y1) = (splitmix_step(x0), splitmix_step(y0));
    let (x2, y2) = (splitmix_step(x1), splitmix_step(y1));
    let (x3, y3) = (splitmix_step(x2), splitmix_step(y2));
    if splitmix(x0) == splitmix(y0) {
        lemma_splitmix_injective(x0, y0);
    }
    if splitmix(x1) == splitmix(y1) {
        lemma_splitmix_injective(x1, y1);
    }
    if splitmix(x2) == splitmix(y2) {
        lemma_splitmix_injective(x2, y2);
    }
    if splitmix(x3) == splitmix(y3) {
        lemma_splitmix_injective(x3, y3);
    }
}

/// Different seeds yield different first values.
pub proof fn law_seeds_differ_in_the_first_value(x: u64, y: u64)
    requires
        x != y,
    ensures
        RngState::seeded(x).output() != RngState::seeded(y).output(),
{
    law_seeds_differ_in_every_word(x, y);
    if RngState::seeded(x).output() == RngState::seeded(y).output() {
        lemma_output_injective(RngState::seeded(x), RngState::seeded(y));
    }
}

/// No seed, zero included, expands to the all-zero state, and no number of draws
/// leads there.
pub proof fn law_state_is_never_all_zero(seed: u64, n: nat)
    ensures
        !RngState::seeded(seed).after(n).all_zero(),
{
    let z0 = splitmix_step(seed);
    let z1 = splitmix_step(z0);
    assert(z0 != z1);
    if splitmix(z0) == splitmix(z1) {
        lemma_splitmix_injective(z0, z1);
    }
    lemma_stays_nonzero(RngState::seeded(seed), n);
}

proof fn lemma_stays_nonzero(state: RngState, n: nat)
    requires
        !state.all_zero(),
    ensures
        !state.after(n).all_zero(),
    decreases n,
{
    if n > 0 {
        let (s0, s1, s2, s3) = (state.s0, state.s1, state.s2, state.s3);
        let t = s1 << 17;
        let u2 = s2 ^ s0;
        let u3 = s3 ^ s1;
        assert(s0 ^ u3 == 0 && s1 ^ u2 == 0 && u2 ^ t == 0 && ((u3 << 45) | (u3 >> 19)) == 0
            ==> s0 == 0 && s1 == 0 && s2 == 0 && s3 == 0) by (bit_vector)
            requires
                t == s1 << 17,
                u2 == s2 ^ s0,
                u3 == s3 ^ s1,
        ;
        lemma_stays_nonzero(state.next(), (n - 1) as nat);
    }
}

/// Undoes the mixing of SplitMix64.
pub open spec fn unmixed(w: u64) -> u64 {
    let b = w ^ (w >> 31) ^ (w >> 62);
    let c = b.wrapping_mul(0x3196_42B2_D24D_8EC3u64);
    let a = c ^ (c >> 27) ^ (c >> 54);
    let p = a.wrapping_mul(0x96DE_1B17_3F11_9089u64);
    p ^ (p >> 30) ^ (p >> 60)
}

/// What a factor that has an inverse did is undone by the inverse.
proof fn lemma_wrapping_undone(x: u64, factor: u64, inverse: u64)
    requires
        (factor * inverse) % 0x1_0000_0000_0000_0000 == 1,
    ensures
        x.wrapping_mul(factor).wrapping_mul(inverse) == x,
{
    let m: int = 0x1_0000_0000_0000_0000;
    lemma_undone(x as int, factor as int, inverse as int, m);
    let y = x.wrapping_mul(factor);
    assert(y == (x * factor) % m);
    assert(y.wrapping_mul(inverse) == (y * inverse) % m);
}

/// The mixing of SplitMix64 can be undone.
proof fn lemma_unmixed(z: u64)
    ensures
        unmixed(splitmix(z)) == z,
{
    let p = z ^ (z >> 30);
    let a = p.wrapping_mul(0xBF58_476D_1CE4_E5B9u64);
    let c = a ^ (a >> 27);
    let b = c.wrapping_mul(0x94D0_49BB_1331_11EBu64);
    let w = b ^ (b >> 31);
    assert((b ^ (b >> 31)) ^ ((b ^ (b >> 31)) >> 31) ^ ((b ^ (b >> 31)) >> 62) == b)
        by (bit_vector);
    lemma_wrapping_undone(c, 0x94D0_49BB_1331_11EBu64, 0x3196_42B2_D24D_8EC3u64);
    assert((a ^ (a >> 27)) ^ ((a ^ (a >> 27)) >> 27) ^ ((a ^ (a >> 27)) >> 54) == a)
        by (bit_vector);
    lemma_wrapping_undone(p, 0xBF58_476D_1CE4_E5B9u64, 0x96DE_1B17_3F11_9089u64);
    assert((z ^ (z >> 30)) ^ ((z ^ (z >> 30)) >> 30) ^ ((z ^ (z >> 30)) >> 60) == z)
        by (bit_vector);
}

/// A seed can be told from every word of the state it expands to: undoing the mixing of
/// the words gives the seed plus one, two, three and four golden-ratio steps.
pub proof fn law_state_tells_the_seed(seed: u64)
    ensures
        ({
            let s = RngState::seeded(seed);
            let step = 0x9E37_79B9_7F4A_7C15u64;
            &&& unmixed(s.s0) == seed.wrapping_add(step)
            &&& unmixed(s.s1) == seed.wrapping_add(step).wrapping_add(step)
            &&& unmixed(s.s2) == seed.wrapping_add(step).wrapping_add(step).wrapping_add(step)
            &&& unmixed(s.s3) == seed.wrapping_add(step).wrapping_add(step).wrapping_add(
                step,
            ).wrapping_add(step)
        }),
{
    let z0 = splitmix_step(seed);
    let z1 = splitmix_step(z0);
    let z2 = splitmix_step(z1);
    lemma_unmixed(z0);
    lemma_unmixed(z1);
    lemma_unmixed(z2);
    lemma_unmixed(splitmix_step(z2));
}

/// A value tells the second word of the state that yields it: dividing by nine, turning back
/// by seven bits and dividing by five (all modulo `2^64`) gives it back.
pub proof fn law_value_tells_the_second_word(state: RngState)
    ensures
        ({
            let w = state.output().wrapping_mul(0x8E38_E38E_38E3_8E39u64);
            ((w >> 7) | (w << 57)).wrapping_mul(0xCCCC_CCCC_CCCC_CCCDu64) == state.s1
        }),
{
    let x = state.s1.wrapping_mul(5);
    let w = (x << 7) | (x >> 57);
    lemma_wrapping_undone(w, 9, 0x8E38_E38E_38E3_8E39u64);
    assert((((x << 7) | (x >> 57)) >> 7) | (((x << 7) | (x >> 57)) << 57) == x) by (bit_vector);
    lemma_wrapping_undone(state.s1, 5, 0xCCCC_CCCC_CCCC_CCCDu64);
}

/// How a draw mixes the words of the state.
pub proof fn law_draw_mixes_the_words(state: RngState)
    ensures
        ({
            let n = state.next();
            &&& n.s0 == state.s0 ^ state.s1 ^ state.s3
            &&& n.s1 == state.s0 ^ state.s1 ^ state.s2
            &&& n.s1 ^ n.s2 == state.s1 ^ (state.s1 << 17)
            &&& (n.s3 >> 45) | (n.s3 << 19) == state.s1 ^ state.s3
        }),
{
    let (s0, s1, s2, s3) = (state.s0, state.s1, state.s2, state.s3);
    assert(s0 ^ (s3 ^ s1) == s0 ^ s1 ^ s3) by (bit_vector);
    assert(s1 ^ (s2 ^ s0) == s0 ^ s1 ^ s2) by (bit_vector);
    assert((s1 ^ (s2 ^ s0)) ^ ((s2 ^ s0) ^ (s1 << 17)) == s1 ^ (s1 << 17)) by (bit_vector);
    let u = s3 ^ s1;
    assert((((u << 45) | (u >> 19)) >> 45) | (((u << 45) | (u >> 19)) << 19) == u) by (bit_vector);
    assert(s3 ^ s1 == s1 ^ s3) by (bit_vector);
}

/// A draw below `2^53` is made of the leading 53 of the 64 bits of a value, and succeeds
/// where it is below the probability.
pub proof fn law_draw_is_the_leading_bits(state: RngState, p: Prob)
    ensures
        state.unit() < UNIT,
        state.unit() * 2048 <= state.output() < (state.unit() + 1) * 2048,
        state.hit(p) <==> state.output() < p.num * 2048,
{
    let x = state.output();
    assert(x >> 11 == x / 2048) by (bit_vector);
}

} // verus!
