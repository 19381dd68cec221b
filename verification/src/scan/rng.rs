use vstd::arithmetic::power2::{lemma2_to64_rest, lemma_pow2_adds, lemma_pow2_pos, pow2};
use vstd::prelude::*;

use crate::float::arithmetic::lemma_magnitude_monotone;
use crate::float::double::Double;
use crate::float::format::{Format, magnitude};
use crate::float::laws::lemma_nearest_bounds;
use crate::float::numbers::{ONE, THREE, ZERO};

verus! {

/// 2 to the power of -53
pub const STEP_OF_UNIT: u64 = 0x3ca0_0000_0000_0000;

/// 1.224744871391589
pub const NORMALISH_SPREAD: u64 = 0x3ff3_988e_1409_212e;

/// How many uniform numbers make up a bell-shaped one.
pub const NORMALISH_DRAWS: usize = 6;

/// The generator of pseudo-random numbers known as SplitMix64.
#[derive(Clone, Copy, PartialEq, Eq, Structural, Debug)]
pub struct SplitMix64 {
    pub state: u64,
}

impl SplitMix64 {
    /// The generator after one draw.
    pub open spec fn after(self) -> SplitMix64 {
        SplitMix64 { state: self.state.wrapping_add(0x9e37_79b9_7f4a_7c15) }
    }

    /// The generator after some draws.
    pub open spec fn after_draws(self, n: nat) -> SplitMix64
        decreases n,
    {
        if n == 0 {
            self
        } else {
            self.after_draws((n - 1) as nat).after()
        }
    }

    /// The number of the next draw.
    pub open spec fn draw(self) -> u64 {
        let a = self.after().state;
        let b = (a ^ (a >> 30)).wrapping_mul(0xbf58_476d_1ce4_e5b9);
        let c = (b ^ (b >> 27)).wrapping_mul(0x94d0_49bb_1331_11eb);
        c ^ (c >> 31)
    }

    /// The number of the next draw, scaled to the unit interval.
    pub open spec fn unit_draw(self) -> Double {
        Double::of_u64(self.draw() >> 11).times(Double::from_bits(STEP_OF_UNIT))
    }

    /// The sum of the next draws, scaled to the unit interval.
    pub open spec fn sum_of_draws(self, n: nat) -> Double
        decreases n,
    {
        if n == 0 {
            Double::from_bits(ZERO)
        } else {
            self.sum_of_draws((n - 1) as nat).plus(self.after_draws((n - 1) as nat).unit_draw())
        }
    }

    /// The next bell-shaped number, which takes `NORMALISH_DRAWS` draws.
    pub open spec fn normalish_draw(self) -> Double {
        self.sum_of_draws(NORMALISH_DRAWS as nat).minus(Double::from_bits(THREE)).over(
            Double::from_bits(NORMALISH_SPREAD),
        )
    }

    /// A generator that starts from a seed.
    pub fn new(seed: u64) -> (r: SplitMix64)
        ensures
            r == (SplitMix64 { state: seed }),
    {
        SplitMix64 { state: seed }
    }

    /// Draws an integer.
    pub fn next_u64(&mut self) -> (r: u64)
        ensures
            r == old(self).draw(),
            *final(self) == old(self).after(),
    {
        self.state = self.state.wrapping_add(0x9e37_79b9_7f4a_7c15);
        let mut z = self.state;
        z = (z ^ (z >> 30)).wrapping_mul(0xbf58_476d_1ce4_e5b9);
        z = (z ^ (z >> 27)).wrapping_mul(0x94d0_49bb_1331_11eb);
        z ^ (z >> 31)
    }

    /// Draws a number that is at least zero and less than one.
    pub fn next_f64(&mut self) -> (r: Double)
        ensures
            r == old(self).unit_draw(),
            *final(self) == old(self).after(),
            Double::from_bits(ZERO).le(r),
            r.lt(Double::from_bits(ONE)),
    {
        let drawn = self.next_u64();
        let bits = drawn >> 11;
        proof {
            assert(drawn >> 11 < 0x20_0000_0000_0000) by (bit_vector);
            lemma_unit(bits);
        }
        Double::of_u64(bits).times(Double::from_bits(STEP_OF_UNIT))
    }

    /// Draws a number that is spread like a normally distributed one, roughly.
    pub fn normalish(&mut self) -> (r: Double)
        ensures
            r == old(self).normalish_draw(),
            *final(self) == old(self).after_draws(NORMALISH_DRAWS as nat),
    {
        let ghost start = *self;
        let mut sum = Double::from_bits(ZERO);
        let mut i: usize = 0;
        while i < NORMALISH_DRAWS
            invariant
                i <= NORMALISH_DRAWS,
                *self == start.after_draws(i as nat),
                sum == start.sum_of_draws(i as nat),
            decreases NORMALISH_DRAWS - i,
        {
            sum = sum.plus(self.next_f64());
            i = i + 1;
        }
        sum.minus(Double::from_bits(THREE)).over(Double::from_bits(NORMALISH_SPREAD))
    }
}

/// A 53-bit integer scaled to the unit interval is at least zero and less than one.
pub proof fn lemma_unit(n: u64)
    requires
        n < 0x20_0000_0000_0000,
    ensures
        ({
            let x = Double::of_u64(n).times(Double::from_bits(STEP_OF_UNIT));
            &&& Double::from_bits(ZERO).le(x)
            &&& x.lt(Double::from_bits(ONE))
        }),
{
    reveal(Double::spec_of_u64);
    reveal(Double::spec_times);
    let f = Format::Double;
    let w = pow2(1074);
    lemma2_to64_rest();
    lemma_pow2_pos(1074);
    // 2^53 - 1, 2^-53 and 1 - 2^-53
    let top: nat = 0x433f_ffff_ffff_ffff;
    let step: nat = 0x3ca0_0000_0000_0000;
    let last: nat = 0x3fef_ffff_ffff_ffff;
    let most: nat = 0x1f_ffff_ffff_ffff;
    assert(magnitude(f, top) == most * w);
    assert(magnitude(f, step) == 0x10_0000_0000_0000 * pow2(969));
    assert(magnitude(f, last) == most * pow2(1021));
    assert(n * w <= magnitude(f, top) * 1) by (nonlinear_arith)
        requires
            n <= most,
            magnitude(f, top) == most * w,
    ;
    lemma_nearest_bounds(f, (n * w) as nat, 1, top);
    let x = Double::of_u64(n);
    let code = x.parts().code as nat;
    assert(code <= top && !x.parts().negative);
    if code < top {
        lemma_magnitude_monotone(f, code, top);
    }
    let m = magnitude(f, code);
    lemma_pow2_adds(52, 969);
    lemma_pow2_adds(53, 1021);
    assert(m * magnitude(f, step) <= magnitude(f, last) * w) by (nonlinear_arith)
        requires
            m <= most * w,
            magnitude(f, step) == pow2(1021),
            magnitude(f, last) == most * pow2(1021),
    {
        assert(m * pow2(1021) <= most * w * pow2(1021));
    }
    lemma_nearest_bounds(f, m * magnitude(f, step), w, last);
}

} // verus!
