use vstd::prelude::*;

use crate::float::double::Double;
use crate::float::numbers::{
    EIGHT, EIGHTY, FOUR, FOUR_HUNDRED_TWENTY, HALF, HUNDRED_SIXTY, PICO_1, THIRTY, TWENTY_FIVE,
};
use crate::float::single::Single;
use crate::scan::rng::{NORMALISH_DRAWS, SplitMix64};

verus! {

/// A closed interval.
#[derive(Clone, Copy, Debug)]
pub struct Range {
    pub min: Double,
    pub max: Double,
}

impl Range {
    pub open spec fn wf(self) -> bool {
        self.min.le(self.max)
    }

    pub open spec fn spec_of(min: u64, max: u64) -> Range {
        Range { min: Double::from_bits(min), max: Double::from_bits(max) }
    }

    /// The interval between the numbers of two bit patterns.
    #[verifier::when_used_as_spec(spec_of)]
    pub fn of(min: u64, max: u64) -> (r: Range)
        ensures
            r == Self::of(min, max),
    {
        Range { min: Double::from_bits(min), max: Double::from_bits(max) }
    }

    /// The interval between two numbers, whichever is the smaller one. A NaN
    /// counts as the other number.
    pub fn between(a: Double, b: Double) -> (r: Range)
        ensures
            r == (Range { min: a.min(b), max: a.max(b) }),
            r.wf() <==> !(a.is_nan() && b.is_nan()),
    {
        Range { min: a.min(b), max: a.max(b) }
    }

    /// Tells whether the ends are numbers in order.
    pub fn is_ordered(self) -> (r: bool)
        ensures
            r == self.wf(),
    {
        self.min.le(self.max)
    }

    pub open spec fn spec_width(self) -> Double {
        self.max.minus(self.min).max(Double::from_bits(PICO_1))
    }

    /// How wide the interval is; never nothing.
    #[verifier::when_used_as_spec(spec_width)]
    pub fn width(self) -> (r: Double)
        ensures
            r == self.width(),
    {
        self.max.minus(self.min).max(Double::from_bits(PICO_1))
    }

    pub open spec fn spec_clamp(self, value: Double) -> Double {
        value.clamp(self.min, self.max)
    }

    /// A number moved into the interval; a NaN stays one.
    #[verifier::when_used_as_spec(spec_clamp)]
    pub fn clamp(self, value: Double) -> (r: Double)
        requires
            self.wf(),
        ensures
            r == self.clamp(value),
    {
        value.clamp(self.min, self.max)
    }

    /// The number that a draw picks.
    pub open spec fn sampled(self, rng: SplitMix64) -> Double {
        self.min.plus(rng.unit_draw().times(self.width()))
    }

    /// Picks a number at random.
    pub fn sample(self, rng: &mut SplitMix64) -> (r: Double)
        ensures
            r == self.sampled(*old(rng)),
            *final(rng) == old(rng).after(),
    {
        let drawn = rng.next_f64();
        self.min.plus(drawn.times(self.width()))
    }

    /// The number that a bell-shaped draw moves another one to.
    pub open spec fn moved(self, from: Single, step: Double, rng: SplitMix64) -> Double {
        self.clamp(from.to_double().plus(rng.normalish_draw().times(step).times(self.width())))
    }

    /// Moves a number at random, by about `step` times the width.
    pub fn jitter(self, from: Single, step: Double, rng: &mut SplitMix64) -> (r: Double)
        requires
            self.wf(),
        ensures
            r == self.moved(from, step, *old(rng)),
            *final(rng) == old(rng).after_draws(NORMALISH_DRAWS as nat),
    {
        let drawn = rng.normalish();
        self.clamp(from.to_double().plus(drawn.times(step).times(self.width())))
    }
}

/// The parameters that are searched for.
#[derive(Clone, Copy, PartialEq, Eq, Structural, Debug)]
pub struct TuneParams {
    pub start_pct: Single,
    pub floor_pct: Single,
    pub half_life_secs: Single,
    pub power: Single,
}

/// Where the parameters are searched for.
#[derive(Clone, Copy, Debug)]
pub struct SearchBounds {
    pub start_pct: Range,
    pub floor_pct: Range,
    pub half_life_secs: Range,
    pub power: Range,
}

impl SearchBounds {
    pub open spec fn wf(self) -> bool {
        &&& self.start_pct.wf()
        &&& self.floor_pct.wf()
        &&& self.half_life_secs.wf()
        &&& self.power.wf()
    }

    pub open spec fn spec_standard() -> SearchBounds {
        SearchBounds {
            start_pct: Range::of(EIGHTY, HUNDRED_SIXTY),
            floor_pct: Range::of(EIGHT, TWENTY_FIVE),
            half_life_secs: Range::of(THIRTY, FOUR_HUNDRED_TWENTY),
            power: Range::of(HALF, FOUR),
        }
    }

    /// The bounds that are searched where nothing else is asked for.
    #[verifier::when_used_as_spec(spec_standard)]
    pub fn standard() -> (r: SearchBounds)
        ensures
            r == Self::standard(),
            r.wf(),
    {
        SearchBounds {
            start_pct: Range::of(EIGHTY, HUNDRED_SIXTY),
            floor_pct: Range::of(EIGHT, TWENTY_FIVE),
            half_life_secs: Range::of(THIRTY, FOUR_HUNDRED_TWENTY),
            power: Range::of(HALF, FOUR),
        }
    }

    /// Tells whether the ends of all intervals are numbers in order.
    pub fn is_ordered(self) -> (r: bool)
        ensures
            r == self.wf(),
    {
        self.start_pct.is_ordered() && self.floor_pct.is_ordered()
            && self.half_life_secs.is_ordered() && self.power.is_ordered()
    }

    /// The parameters that the next draws pick.
    pub open spec fn random(self, rng: SplitMix64) -> TuneParams {
        TuneParams {
            start_pct: self.start_pct.sampled(rng).to_single(),
            floor_pct: self.floor_pct.sampled(rng.after_draws(1)).to_single(),
            half_life_secs: self.half_life_secs.sampled(rng.after_draws(2)).to_single(),
            power: self.power.sampled(rng.after_draws(3)).to_single(),
        }
    }

    /// Picks parameters at random.
    pub fn random_candidate(self, rng: &mut SplitMix64) -> (r: TuneParams)
        ensures
            r == self.random(*old(rng)),
            *final(rng) == old(rng).after_draws(4),
    {
        reveal_with_fuel(SplitMix64::after_draws, 5);
        let start_pct = self.start_pct.sample(rng).to_single();
        let floor_pct = self.floor_pct.sample(rng).to_single();
        let half_life_secs = self.half_life_secs.sample(rng).to_single();
        let power = self.power.sample(rng).to_single();
        TuneParams { start_pct, floor_pct, half_life_secs, power }
    }

    /// The parameters that the next draws move others to.
    pub open spec fn perturbed(self, current: TuneParams, step: Double, rng: SplitMix64) -> TuneParams {
        let n = NORMALISH_DRAWS as nat;
        TuneParams {
            start_pct: self.start_pct.moved(current.start_pct, step, rng).to_single(),
            floor_pct: self.floor_pct.moved(
                current.floor_pct,
                step,
                rng.after_draws(n),
            ).to_single(),
            half_life_secs: self.half_life_secs.moved(
                current.half_life_secs,
                step,
                rng.after_draws(2 * n),
            ).to_single(),
            power: self.power.moved(current.power, step, rng.after_draws(3 * n)).to_single(),
        }
    }

    /// Moves parameters at random, and no further than the bounds.
    pub fn perturb(self, current: TuneParams, step: Double, rng: &mut SplitMix64) -> (r: TuneParams)
        requires
            self.wf(),
        ensures
            r == self.perturbed(current, step, *old(rng)),
            *final(rng) == old(rng).after_draws(4 * NORMALISH_DRAWS as nat),
    {
        let ghost start = *rng;
        let ghost n = NORMALISH_DRAWS as nat;
        let start_pct = self.start_pct.jitter(current.start_pct, step, rng).to_single();
        let floor_pct = self.floor_pct.jitter(current.floor_pct, step, rng).to_single();
        proof {
            lemma_draws_add(start, n, n);
        }
        let half_life_secs = self.half_life_secs.jitter(
            current.half_life_secs,
            step,
            rng,
        ).to_single();
        proof {
            lemma_draws_add(start, 2 * n, n);
        }
        let power = self.power.jitter(current.power, step, rng).to_single();
        proof {
            lemma_draws_add(start, 3 * n, n);
        }
        TuneParams { start_pct, floor_pct, half_life_secs, power }
    }
}

/// Draws add up.
pub proof fn lemma_draws_add(rng: SplitMix64, m: nat, n: nat)
    ensures
        rng.after_draws(m).after_draws(n) == rng.after_draws(m + n),
    decreases n,
{
    if n > 0 {
        lemma_draws_add(rng, m, (n - 1) as nat);
    }
}

} // verus!
