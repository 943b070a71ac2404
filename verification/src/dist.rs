//! Sampleable distributions for configuring delays and jitter.

use crate::clock::Time;
use crate::rng::{Rng, RngState};
use vstd::prelude::*;

verus! {

/// A distribution over non-negative tick durations. Samples are clamped to
/// `>= 0` so they are always valid delays.
#[derive(Debug, Clone, Copy, PartialEq, Eq, Structural)]
pub enum Dist {
    /// Always the same value.
    Fixed(Time),
    /// Uniform over `[lo, hi]` inclusive.
    Uniform { lo: Time, hi: Time },
    /// Gaussian with the given mean and standard deviation (in ticks), both as
    /// the bits of a double.
    Normal { mean: u64, std: u64 },
}

/// Everything one Gaussian sample depends on: the distribution's parameters
/// (bits of doubles) and two uniform draws below `2^53`.
#[derive(Debug, Clone, Copy, PartialEq, Eq, Structural)]
pub struct NormalDraw {
    pub mean: u64,
    pub std: u64,
    pub u1: u64,
    pub u2: u64,
}

/// The value that `f` returns for each draw (zero for a draw it does not return
/// from).
pub open spec fn sampled<F: Fn(NormalDraw) -> Time>(f: F) -> spec_fn(NormalDraw) -> Time {
    |d: NormalDraw|
        {
            let r = choose|r: Time| call_ensures(f, (d,), r);
            if call_ensures(f, (d,), r) {
                r
            } else {
                0
            }
        }
}

/// `f` accepts every draw and always answers the same draw with the same value,
/// of at most `limit`.
pub open spec fn samples_within<F: Fn(NormalDraw) -> Time>(f: F, limit: int) -> bool {
    &&& forall|d: NormalDraw| #[trigger] call_requires(f, (d,))
    &&& forall|d: NormalDraw, r1: Time, r2: Time|
        call_ensures(f, (d,), r1) && call_ensures(f, (d,), r2) ==> r1 == r2
    &&& forall|d: NormalDraw, r: Time| #[trigger] call_ensures(f, (d,), r) ==> r <= limit
}

impl Dist {
    /// The sample drawn in generator state `rng`.
    pub open spec fn drawn(self, rng: RngState, normal: spec_fn(NormalDraw) -> Time) -> Time {
        let raw = match self {
            Dist::Fixed(v) => v as int,
            Dist::Uniform { lo, hi } => rng.ranged(lo as int, hi as int),
            Dist::Normal { mean, std } => normal(
                NormalDraw { mean, std, u1: rng.unit(), u2: rng.next().unit() },
            ) as int,
        };
        if raw < 0 {
            0
        } else {
            raw as Time
        }
    }

    /// The generator state after a sample was drawn in state `rng`.
    pub open spec fn rng_after(self, rng: RngState) -> RngState {
        match self {
            Dist::Fixed(_) => rng,
            Dist::Uniform { lo, hi } => rng.after_ranged(lo as int, hi as int),
            Dist::Normal { .. } => rng.next().next(),
        }
    }

    /// Draw one sample, clamped to be non-negative. `normal` turns the two
    /// uniform draws behind a Gaussian sample into its nearest tick.
    pub fn sample<F: Fn(NormalDraw) -> Time>(&self, rng: &mut Rng, normal: &F) -> (r: Time)
        requires
            samples_within(*normal, i64::MAX as int),
        ensures
            r == self.drawn(old(rng)@, sampled(*normal)),
            r >= 0,
            final(rng)@ == self.rng_after(old(rng)@),
    {
        let raw: Time = match *self {
            Dist::Fixed(v) => v,
            Dist::Uniform { lo, hi } => rng.next_range(lo, hi),
            Dist::Normal { mean, std } => {
                let u1: u64 = rng.next_f64();
                let u2: u64 = rng.next_f64();
                let draw = NormalDraw { mean, std, u1, u2 };
                let v: Time = normal(draw);
                proof {
                    let w = sampled(*normal)(draw);
                    assert(call_ensures(*normal, (draw,), v));
                    assert(call_ensures(*normal, (draw,), w));
                }
                v
            },
        };
        if raw < 0 {
            0
        } else {
            raw
        }
    }
}

/// No sample is negative.
pub proof fn law_samples_are_not_negative(
    dist: Dist,
    rng: RngState,
    normal: spec_fn(NormalDraw) -> Time,
)
    ensures
        dist.drawn(rng, normal) >= 0,
{
    lemma_drawn_bounds(dist, rng, normal);
}

/// A sample of a bounded distribution lies within its bounds.
pub proof fn lemma_drawn_bounds(
    dist: Dist,
    rng: RngState,
    normal: spec_fn(NormalDraw) -> Time,
)
    ensures
        dist.drawn(rng, normal) >= 0,
        dist matches Dist::Fixed(v) ==> dist.drawn(rng, normal) <= v || dist.drawn(rng, normal) == 0,
        dist matches Dist::Uniform { lo, hi } ==> (0 <= lo <= hi ==> lo <= dist.drawn(rng, normal)
            <= hi),
        dist matches Dist::Uniform { lo, hi } ==> dist.drawn(rng, normal) <= lo
            || dist.drawn(rng, normal) <= hi || dist.drawn(rng, normal) == 0,
{
    if let Dist::Uniform { lo, hi } = dist {
        if lo < hi {
            crate::rng::law_range_within_bounds(rng, lo as int, hi as int);
        }
    }
}

/// The value of the range that lies as far above `lo` as `x` is above a multiple of the
/// number of values.
pub open spec fn lands_on(x: u64, lo: int, hi: int, v: int) -> bool {
    lo <= v <= hi && (x - (v - lo)) % (hi - lo + 1) == 0
}

/// `d` is the sample that the distribution and the generator's next values stand for: the
/// fixed value; the value of the range on which the next output lands; or what the next two
/// draws stand for. Anything negative counts as zero.
pub open spec fn is_sample(
    dist: Dist,
    rng: RngState,
    normal: spec_fn(NormalDraw) -> Time,
    d: int,
) -> bool {
    match dist {
        Dist::Fixed(v) => d == if v >= 0 {
            v as int
        } else {
            0
        },
        Dist::Uniform { lo, hi } => if hi <= lo {
            d == if lo >= 0 {
                lo as int
            } else {
                0
            }
        } else {
            exists|v: int| #[trigger]
                lands_on(rng.output(), lo as int, hi as int, v) && d == if v >= 0 {
                    v
                } else {
                    0
                }
        },
        Dist::Normal { mean, std } => {
            let v = normal(NormalDraw { mean, std, u1: rng.unit(), u2: rng.next().unit() });
            d == if v >= 0 {
                v as int
            } else {
                0
            }
        },
    }
}

/// What is drawn is the sample that the distribution and the generator stand for.
pub proof fn law_drawn_is_the_sample(
    dist: Dist,
    rng: RngState,
    normal: spec_fn(NormalDraw) -> Time,
)
    ensures
        is_sample(dist, rng, normal, dist.drawn(rng, normal) as int),
{
    if let Dist::Uniform { lo, hi } = dist {
        if hi > lo {
            let x = rng.output() as int;
            let span = hi - lo + 1;
            let v = rng.ranged(lo as int, hi as int);
            vstd::arithmetic::div_mod::lemma_fundamental_div_mod(x, span);
            vstd::arithmetic::div_mod::lemma_mod_multiples_basic(x / span, span);
            assert((x / span) * span == span * (x / span)) by (nonlinear_arith);
            assert((x - (v - lo)) % span == 0);
            assert(lands_on(rng.output(), lo as int, hi as int, v));
        }
    }
}

/// The generator after a sample: a fixed value uses none of its values, a uniform one uses
/// one if there is a choice, and a Gaussian one uses two.
pub open spec fn is_rng_after(dist: Dist, rng: RngState, after: RngState) -> bool {
    match dist {
        Dist::Fixed(_) => after == rng,
        Dist::Uniform { lo, hi } => if lo < hi {
            after == rng.next()
        } else {
            after == rng
        },
        Dist::Normal { .. } => after == rng.next().next(),
    }
}

/// No value of the generator is used twice.
pub proof fn law_sample_uses_up_its_values(dist: Dist, rng: RngState)
    ensures
        is_rng_after(dist, rng, dist.rng_after(rng)),
{
}

} // verus!
