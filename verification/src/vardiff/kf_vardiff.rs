use vstd::prelude::*;

use crate::float::double::Double;
use crate::float::laws::{
    lemma_plus_is_number, lemma_plus_monotone, lemma_plus_not_negative, lemma_times_is_number,
    lemma_times_monotone,
};
use crate::float::numbers::{ONE, ONE_AND_A_HALF, PICO_1, SIXTY, ZERO};
use crate::float::single::Single;

verus! {

/// 1.0 in binary32, the default minimum hashrate
pub const DEFAULT_MIN_HASHRATE: u32 = 0x3f80_0000;

/// 1.5
pub const DEFAULT_INITIAL_LOG_RATIO_VARIANCE: u64 = ONE_AND_A_HALF;

/// 0.004
pub const DEFAULT_PROCESS_VARIANCE: u64 = 0x3f70_624d_d2f1_a9fc;

/// 9.5
pub const DEFAULT_MAX_LOG_RATIO_STEP: u64 = 0x4023_0000_0000_0000;

/// 300.0
pub const DEFAULT_MAX_RELATIVE_HASHRATE_CHANGE: u64 = 0x4072_c000_0000_0000;

/// 0.30
pub const DEFAULT_MIN_UPDATE_RELATIVE_CHANGE: u64 = 0x3fd3_3333_3333_3333;

/// 0.13
pub const DEFAULT_LOWER_BOUND_Z: u64 = 0x3fc0_a3d7_0a3d_70a4;

/// 0.14
pub const DEFAULT_LOWER_BOUND_UNCERTAINTY_OFF: u64 = 0x3fc1_eb85_1eb8_51ec;

/// 0.36
pub const DEFAULT_LOWER_BOUND_UNCERTAINTY_FULL: u64 = 0x3fd7_0a3d_70a3_d70a;

/// -50.0 and 50.0, the ends of the exponents that are used
pub const MIN_LOG_RATIO: u64 = 0xc049_0000_0000_0000;

pub const MAX_LOG_RATIO: u64 = 0x4049_0000_0000_0000;

/// 1e-12
pub const TINY: u64 = PICO_1;

/// 1e-18
pub const MIN_VARIANCE: u64 = 0x3c32_725d_d1d2_43ac;

pub const SECS_PER_MINUTE: u64 = SIXTY;

/// An attempt this many seconds or less after the last observation changes nothing.
pub const MIN_INTERVAL_SECS: u64 = 15;

/// The dynamic state of an Extended Poisson-Kalman vardiff connection.
///
/// The estimator filters `theta = log(true_hashrate / assigned_hashrate)` under
/// the observation model `observed_shares ~ Poisson(target_shares * exp(theta))`.
///
/// The controller normally targets the posterior mean. While the posterior is
/// uncertain it targets a conservative lower confidence bound of the hashrate
/// instead, so as to collect more shares; the bound closes up on the mean once
/// the filter is confident.
#[derive(Clone, Copy, Debug)]
pub struct VardiffState {
    /// Count of shares received since the last filter observation.
    pub shares_since_last_update: u32,
    /// Unix timestamp (seconds) of the last filter observation.
    pub timestamp_of_last_update: u64,
    /// The lowest hashrate (H/s) that is allowed; lower ones are clamped.
    pub min_allowed_hashrate: Double,
    /// Current filtered log hashrate ratio.
    pub log_ratio: Double,
    /// Current variance of `log_ratio`.
    pub log_ratio_variance: Double,
    /// Initial variance of `log_ratio`.
    pub initial_log_ratio_variance: Double,
    /// Process variance added at each observation.
    pub process_variance: Double,
    /// Maximum absolute update to `log_ratio` per observation.
    pub max_log_ratio_step: Double,
    /// Maximum relative hashrate move accepted in one update.
    pub max_relative_hashrate_change: Double,
    /// Minimum relative hashrate change that is worth an update.
    pub min_update_relative_change: Double,
    /// Full lower-bound z value used while uncertainty is high.
    pub lower_bound_z: Double,
    /// Below this uncertainty, lower-bound targeting is disabled.
    pub lower_bound_uncertainty_off: Double,
    /// Above this uncertainty, full lower-bound targeting is enabled.
    pub lower_bound_uncertainty_full: Double,
}

pub open spec fn zero() -> Double {
    Double::from_bits(ZERO)
}

pub open spec fn one() -> Double {
    Double::from_bits(ONE)
}

/// The exponent that stands in for `x` in a numerically safe exponential.
pub open spec fn spec_safe_exponent(x: Double) -> Double {
    x.clamp(Double::from_bits(MIN_LOG_RATIO), Double::from_bits(MAX_LOG_RATIO))
}

/// The exponent that stands in for `x` in a numerically safe exponential: `x`
/// moved between -50 and 50.
#[verifier::when_used_as_spec(spec_safe_exponent)]
pub fn safe_exponent(x: Double) -> (r: Double)
    ensures
        r == safe_exponent(x),
{
    x.clamp(Double::from_bits(MIN_LOG_RATIO), Double::from_bits(MAX_LOG_RATIO))
}

impl VardiffState {
    /// What the settings of a new state satisfy, and with them every attempt can be
    /// made.
    pub open spec fn wf(self) -> bool {
        &&& zero().le(self.max_log_ratio_step)
        &&& zero().le(self.max_relative_hashrate_change)
        &&& one().le(self.min_allowed_hashrate)
    }

    /// The step of the log ratio has a limit to be clamped to.
    pub open spec fn limits_step(self) -> bool {
        zero().le(self.max_log_ratio_step)
    }

    /// The limits of an update are in order.
    pub open spec fn limits_update(self, current_hashrate: Double) -> bool {
        self.lower_limit(current_hashrate).le(self.upper_limit(current_hashrate))
    }

    /// An attempt can be made: one that observes the shares finds its limits in
    /// order.
    pub open spec fn ready(self, hashrate: Single, shares_per_minute: Single, now: u64) -> bool {
        self.elapsed_secs(now) > MIN_INTERVAL_SECS && !Self::target_shares(
            shares_per_minute,
            self.elapsed_secs(now),
        ).le(zero()) ==> self.limits_step() && self.limits_update(
            self.allowed(hashrate.to_double()),
        )
    }

    /// A fresh state with the default settings.
    pub open spec fn fresh(min_allowed_hashrate: Single, now: u64) -> VardiffState {
        VardiffState {
            shares_since_last_update: 0,
            timestamp_of_last_update: now,
            min_allowed_hashrate: min_allowed_hashrate.to_double().max(one()),
            log_ratio: zero(),
            log_ratio_variance: Double::from_bits(DEFAULT_INITIAL_LOG_RATIO_VARIANCE),
            initial_log_ratio_variance: Double::from_bits(DEFAULT_INITIAL_LOG_RATIO_VARIANCE),
            process_variance: Double::from_bits(DEFAULT_PROCESS_VARIANCE),
            max_log_ratio_step: Double::from_bits(DEFAULT_MAX_LOG_RATIO_STEP),
            max_relative_hashrate_change: Double::from_bits(DEFAULT_MAX_RELATIVE_HASHRATE_CHANGE),
            min_update_relative_change: Double::from_bits(DEFAULT_MIN_UPDATE_RELATIVE_CHANGE),
            lower_bound_z: Double::from_bits(DEFAULT_LOWER_BOUND_Z),
            lower_bound_uncertainty_off: Double::from_bits(DEFAULT_LOWER_BOUND_UNCERTAINTY_OFF),
            lower_bound_uncertainty_full: Double::from_bits(DEFAULT_LOWER_BOUND_UNCERTAINTY_FULL),
        }
    }

    /// Creates a state with the default minimum hashrate at Unix time `now`.
    pub fn new(now: u64) -> (r: VardiffState)
        ensures
            r == VardiffState::fresh(Single::from_bits(DEFAULT_MIN_HASHRATE), now),
            r.wf(),
    {
        Self::new_with_min(Single::from_bits(DEFAULT_MIN_HASHRATE), now)
    }

    /// Creates a state with a specific minimum hashrate at Unix time `now`.
    pub fn new_with_min(min_allowed_hashrate: Single, now: u64) -> (r: VardiffState)
        ensures
            r == VardiffState::fresh(min_allowed_hashrate, now),
            r.wf(),
    {
        Self::new_with_clock(min_allowed_hashrate, now)
    }

    /// Creates a state with a specific minimum hashrate, whose clock reads `now`.
    pub fn new_with_clock(min_allowed_hashrate: Single, now: u64) -> (r: VardiffState)
        ensures
            r == VardiffState::fresh(min_allowed_hashrate, now),
            r.wf(),
    {
        VardiffState {
            shares_since_last_update: 0,
            timestamp_of_last_update: now,
            min_allowed_hashrate: min_allowed_hashrate.to_double().max(Double::from_bits(ONE)),
            log_ratio: Double::from_bits(ZERO),
            log_ratio_variance: Double::from_bits(DEFAULT_INITIAL_LOG_RATIO_VARIANCE),
            initial_log_ratio_variance: Double::from_bits(DEFAULT_INITIAL_LOG_RATIO_VARIANCE),
            process_variance: Double::from_bits(DEFAULT_PROCESS_VARIANCE),
            max_log_ratio_step: Double::from_bits(DEFAULT_MAX_LOG_RATIO_STEP),
            max_relative_hashrate_change: Double::from_bits(DEFAULT_MAX_RELATIVE_HASHRATE_CHANGE),
            min_update_relative_change: Double::from_bits(DEFAULT_MIN_UPDATE_RELATIVE_CHANGE),
            lower_bound_z: Double::from_bits(DEFAULT_LOWER_BOUND_Z),
            lower_bound_uncertainty_off: Double::from_bits(DEFAULT_LOWER_BOUND_UNCERTAINTY_OFF),
            lower_bound_uncertainty_full: Double::from_bits(DEFAULT_LOWER_BOUND_UNCERTAINTY_FULL),
        }
    }

    /// Sets the count of shares since the last update.
    pub fn set_shares_since_last_update(&mut self, shares_since_last_update: u32)
        ensures
            *final(self) == (VardiffState { shares_since_last_update, ..*old(self) }),
    {
        self.shares_since_last_update = shares_since_last_update;
    }

    /// Unix timestamp of the last update.
    pub fn last_update_timestamp(&self) -> (r: u64)
        ensures
            r == self.timestamp_of_last_update,
    {
        self.timestamp_of_last_update
    }

    /// Count of shares since the last update.
    pub fn shares_since_last_update(&self) -> (r: u32)
        ensures
            r == self.shares_since_last_update,
    {
        self.shares_since_last_update
    }

    /// The lowest hashrate that is allowed.
    pub fn min_allowed_hashrate(&self) -> (r: Single)
        ensures
            r == self.min_allowed_hashrate.to_single(),
    {
        self.min_allowed_hashrate.to_single()
    }

    /// Sets the timestamp of the last update.
    pub fn set_timestamp_of_last_update(&mut self, timestamp_of_last_update: u64)
        ensures
            *final(self) == (VardiffState { timestamp_of_last_update, ..*old(self) }),
    {
        self.timestamp_of_last_update = timestamp_of_last_update;
    }

    /// Counts one share; the count stays at its maximum.
    pub fn increment_shares_since_last_update(&mut self)
        ensures
            *final(self) == old(self).with_more_shares(1),
    {
        self.shares_since_last_update = self.shares_since_last_update.saturating_add(1);
    }

    /// Counts many shares at once; the count stays at its maximum.
    pub fn add_shares(&mut self, count: u32)
        ensures
            *final(self) == old(self).with_more_shares(count as nat),
    {
        self.shares_since_last_update = self.shares_since_last_update.saturating_add(count);
    }

    pub open spec fn with_more_shares(self, count: nat) -> VardiffState {
        let shares = self.shares_since_last_update + count;
        VardiffState {
            shares_since_last_update: if shares > u32::MAX {
                u32::MAX
            } else {
                shares as u32
            },
            ..self
        }
    }

    pub open spec fn with_counter_reset(self, now: u64) -> VardiffState {
        VardiffState { shares_since_last_update: 0, timestamp_of_last_update: now, ..self }
    }

    /// Resets the share counter, and sets the timestamp to `now`.
    pub fn reset_counter(&mut self, now: u64)
        ensures
            *final(self) == old(self).with_counter_reset(now),
    {
        self.set_timestamp_of_last_update(now);
        self.set_shares_since_last_update(0);
    }

    /// Resets the filter mean to neutral after a hashrate update.
    ///
    /// The variance is retained: resetting it after each accepted update would make
    /// the filter overreact, again and again, to the noise of a single window.
    fn reset_log_ratio_filter(&mut self)
        ensures
            *final(self) == (VardiffState { log_ratio: zero(), ..*old(self) }),
    {
        self.log_ratio = Double::from_bits(ZERO);
    }

    /// Standard deviation of the filtered log ratio.
    pub open spec fn spec_uncertainty(self) -> Double {
        self.log_ratio_variance.max(zero()).sqrt()
    }

    /// Standard deviation of the filtered log ratio.
    #[verifier::when_used_as_spec(spec_uncertainty)]
    pub fn uncertainty(self) -> (r: Double)
        ensures
            r == self.uncertainty(),
    {
        self.log_ratio_variance.max(Double::from_bits(ZERO)).sqrt()
    }

    /// The uncertainty up to which the filter is confident.
    pub open spec fn off_uncertainty(self) -> Double {
        self.lower_bound_uncertainty_off.max(zero())
    }

    /// The uncertainty from which the filter is very uncertain.
    pub open spec fn full_uncertainty(self) -> Double {
        self.lower_bound_uncertainty_full.max(self.off_uncertainty().plus(Double::from_bits(TINY)))
    }

    /// The z value of the lower bound that is targeted.
    pub open spec fn spec_effective_lower_bound_z(self) -> Double {
        let off = self.off_uncertainty();
        let full = self.full_uncertainty();
        if self.uncertainty().le(off) {
            zero()
        } else if self.uncertainty().ge(full) {
            self.lower_bound_z
        } else {
            self.lower_bound_z.times(self.uncertainty().minus(off).over(full.minus(off)))
        }
    }

    /// The z value of the lower bound that is targeted: nothing while the filter
    /// is confident, the full value while it is very uncertain, and linear in the
    /// uncertainty between the two.
    #[verifier::when_used_as_spec(spec_effective_lower_bound_z)]
    pub fn effective_lower_bound_z(self) -> (r: Double)
        ensures
            r == self.effective_lower_bound_z(),
    {
        let uncertainty = self.uncertainty();
        let off = self.lower_bound_uncertainty_off.max(Double::from_bits(ZERO));
        let full = self.lower_bound_uncertainty_full.max(off.plus(Double::from_bits(TINY)));
        if uncertainty.le(off) {
            Double::from_bits(ZERO)
        } else if uncertainty.ge(full) {
            self.lower_bound_z
        } else {
            let t = uncertainty.minus(off).over(full.minus(off));
            self.lower_bound_z.times(t)
        }
    }

    /// The exponent whose exponential `update_expkf` is to be given.
    pub fn prior_exponent(&self) -> (r: Double)
        ensures
            r == safe_exponent(self.log_ratio),
    {
        safe_exponent(self.log_ratio)
    }

    /// Shares that the prior expects, where `prior_ratio` is the exponential of its
    /// log ratio.
    pub open spec fn expected_shares(target_shares: Double, prior_ratio: Double) -> Double {
        target_shares.max(Double::from_bits(TINY)).times(prior_ratio)
    }

    /// Variance of the log ratio once the shares have been seen.
    pub open spec fn posterior_variance(self, target_shares: Double, prior_ratio: Double) -> Double {
        let prior = self.log_ratio_variance.plus(self.process_variance).max(
            Double::from_bits(MIN_VARIANCE),
        );
        let information = Self::expected_shares(target_shares, prior_ratio).max(
            Double::from_bits(TINY),
        );
        one().over(one().over(prior).plus(information))
    }

    /// The step of the log ratio, before it is clamped.
    pub open spec fn raw_step(
        self,
        observed_shares: Double,
        target_shares: Double,
        prior_ratio: Double,
    ) -> Double {
        let score = observed_shares.max(zero()).minus(
            Self::expected_shares(target_shares, prior_ratio),
        );
        self.posterior_variance(target_shares, prior_ratio).times(score)
    }

    /// The state after one Extended Poisson-Kalman update.
    pub open spec fn observed(
        self,
        observed_shares: Double,
        target_shares: Double,
        prior_ratio: Double,
    ) -> VardiffState {
        let step = self.raw_step(observed_shares, target_shares, prior_ratio).clamp(
            self.max_log_ratio_step.neg(),
            self.max_log_ratio_step,
        );
        VardiffState {
            log_ratio: safe_exponent(self.log_ratio.plus(step)),
            log_ratio_variance: self.posterior_variance(target_shares, prior_ratio).max(
                Double::from_bits(MIN_VARIANCE),
            ),
            ..self
        }
    }

    /// Applies one Extended Poisson-Kalman update.
    ///
    /// The model is `y ~ Poisson(E * exp(theta))`, with the observed shares `y`, the
    /// target shares `E` and the log ratio `theta`. Up to constants its
    /// log-likelihood is `y * theta - E * exp(theta)`, whose gradient is
    /// `y - E * exp(theta)` and whose information is `E * exp(theta)`.
    ///
    /// `prior_ratio` is the exponential of `prior_exponent`.
    pub fn update_expkf(
        &mut self,
        observed_shares: Double,
        target_shares: Double,
        prior_ratio: Double,
    ) -> (r: Double)
        requires
            old(self).limits_step(),
        ensures
            *final(self) == old(self).observed(observed_shares, target_shares, prior_ratio),
            r == final(self).log_ratio,
            !r.is_nan() ==> Double::from_bits(MIN_LOG_RATIO).le(r) && r.le(
                Double::from_bits(MAX_LOG_RATIO),
            ),
            Double::from_bits(MIN_VARIANCE).le(final(self).log_ratio_variance),
    {
        let observed_shares = observed_shares.max(Double::from_bits(ZERO));
        let target_shares = target_shares.max(Double::from_bits(TINY));

        let prior_theta = self.log_ratio;
        let prior_variance = self.log_ratio_variance.plus(self.process_variance).max(
            Double::from_bits(MIN_VARIANCE),
        );

        let expected_shares = target_shares.times(prior_ratio);

        let score = observed_shares.minus(expected_shares);
        let information = expected_shares.max(Double::from_bits(TINY));

        let one = Double::from_bits(ONE);
        let posterior_variance = one.over(one.over(prior_variance).plus(information));

        let raw_step = posterior_variance.times(score);
        let limit = self.max_log_ratio_step;
        let clamped_step = raw_step.clamp(limit.neg(), limit);

        self.log_ratio = safe_exponent(prior_theta.plus(clamped_step));
        self.log_ratio_variance = posterior_variance.max(Double::from_bits(MIN_VARIANCE));
        self.log_ratio
    }

    /// A hashrate moved up to what is allowed.
    pub open spec fn allowed(self, hashrate: Double) -> Double {
        hashrate.max(self.min_allowed_hashrate).max(one())
    }

    /// The least hashrate that one update may move to.
    pub open spec fn lower_limit(self, current_hashrate: Double) -> Double {
        self.allowed(
            self.allowed(current_hashrate).times(one().minus(self.max_relative_hashrate_change)),
        )
    }

    /// The greatest hashrate that one update may move to.
    pub open spec fn upper_limit(self, current_hashrate: Double) -> Double {
        self.allowed(
            self.allowed(current_hashrate).times(one().plus(self.max_relative_hashrate_change)),
        )
    }

    /// The hashrate that a proposal is clamped to.
    pub open spec fn clamped_hashrate(
        self,
        proposed_hashrate: Double,
        current_hashrate: Double,
    ) -> Double {
        let proposed = if proposed_hashrate.is_finite() {
            self.allowed(proposed_hashrate)
        } else {
            self.allowed(current_hashrate)
        };
        proposed.clamp(self.lower_limit(current_hashrate), self.upper_limit(current_hashrate))
    }

    /// How far the clamped proposal is from the current hashrate, relative to it.
    pub open spec fn relative_change(
        self,
        proposed_hashrate: Double,
        current_hashrate: Double,
    ) -> Double {
        self.clamped_hashrate(proposed_hashrate, current_hashrate).over(
            self.allowed(current_hashrate),
        ).minus(one()).abs()
    }

    /// With the settings of a new state, the limits of every update are in order,
    /// and nothing below the lowest hashrate that is allowed lies between them.
    pub proof fn lemma_limits_in_order(self, current_hashrate: Double)
        requires
            self.wf(),
        ensures
            self.limits_update(current_hashrate),
            self.min_allowed_hashrate.le(self.lower_limit(current_hashrate)),
    {
        reveal(Double::spec_plus);
        let c = self.allowed(current_hashrate);
        let k = self.max_relative_hashrate_change;
        let less = one().minus(k);
        let more = one().plus(k);
        assert(k.neg().parts().code == k.parts().code);
        assert(!less.is_nan() && !more.is_nan()) by {
            lemma_plus_is_number(one(), k);
            lemma_plus_is_number(one(), k.neg());
        }
        lemma_plus_monotone(one(), k.neg(), k);
        lemma_plus_not_negative(one(), k);
        assert(!c.times(more).is_nan()) by {
            lemma_times_is_number(c, more);
        }
        if !c.times(less).is_nan() {
            lemma_times_monotone(c, less, more);
        }
    }

    /// With the settings of a new state, every attempt can be made.
    pub proof fn lemma_always_ready(self, hashrate: Single, shares_per_minute: Single, now: u64)
        requires
            self.wf(),
        ensures
            self.ready(hashrate, shares_per_minute, now),
    {
        self.lemma_limits_in_order(self.allowed(hashrate.to_double()));
    }

    /// The clamped proposal, where it is far enough from the current hashrate.
    pub open spec fn spec_apply_update_policy(
        &self,
        proposed_hashrate: Double,
        current_hashrate: Double,
    ) -> Option<Double> {
        if self.relative_change(proposed_hashrate, current_hashrate).ge(
            self.min_update_relative_change,
        ) {
            Some(self.clamped_hashrate(proposed_hashrate, current_hashrate))
        } else {
            None
        }
    }

    /// Clamps a proposed hashrate update and decides whether it should be emitted.
    #[verifier::when_used_as_spec(spec_apply_update_policy)]
    pub fn apply_update_policy(
        &self,
        proposed_hashrate: Double,
        current_hashrate: Double,
    ) -> (r: Option<Double>)
        requires
            self.limits_update(current_hashrate),
        ensures
            r == self.apply_update_policy(proposed_hashrate, current_hashrate),
            r is Some <==> self.relative_change(proposed_hashrate, current_hashrate).ge(
                self.min_update_relative_change,
            ),
            r matches Some(hashrate) ==> {
                &&& hashrate == self.clamped_hashrate(proposed_hashrate, current_hashrate)
                &&& self.lower_limit(current_hashrate).le(hashrate)
                &&& hashrate.le(self.upper_limit(current_hashrate))
            },
    {
        let one = Double::from_bits(ONE);
        let current = current_hashrate.max(self.min_allowed_hashrate).max(one);
        let proposed = if proposed_hashrate.is_finite() {
            proposed_hashrate.max(self.min_allowed_hashrate).max(one)
        } else {
            current
        };
        let lower = current.times(one.minus(self.max_relative_hashrate_change)).max(
            self.min_allowed_hashrate,
        ).max(one);
        let upper = current.times(one.plus(self.max_relative_hashrate_change)).max(
            self.min_allowed_hashrate,
        ).max(one);
        let clamped = proposed.clamp(lower, upper);
        let relative_change = clamped.over(current).minus(one).abs();
        if relative_change.ge(self.min_update_relative_change) {
            Some(clamped)
        } else {
            None
        }
    }

    /// Shares that `elapsed_secs` seconds should bring at the wanted rate.
    pub open spec fn spec_target_shares(shares_per_minute: Single, elapsed_secs: u64) -> Double {
        shares_per_minute.to_double().max(zero()).times(
            Double::of_u64(elapsed_secs).over(Double::from_bits(SECS_PER_MINUTE)),
        )
    }

    /// Shares that `elapsed_secs` seconds should bring at the wanted rate.
    #[verifier::when_used_as_spec(spec_target_shares)]
    pub fn target_shares(shares_per_minute: Single, elapsed_secs: u64) -> (r: Double)
        ensures
            r == Self::target_shares(shares_per_minute, elapsed_secs),
    {
        let elapsed_minutes = Double::of_u64(elapsed_secs).over(Double::from_bits(SECS_PER_MINUTE));
        shares_per_minute.to_double().max(Double::from_bits(ZERO)).times(elapsed_minutes)
    }

    /// Seconds since the last observation; a clock that went back counts as none.
    pub open spec fn elapsed_secs(self, now: u64) -> u64 {
        if now > self.timestamp_of_last_update {
            (now - self.timestamp_of_last_update) as u64
        } else {
            0
        }
    }

    /// The filter after the shares counted up to `now` have been observed.
    pub open spec fn filtered(
        self,
        shares_per_minute: Single,
        now: u64,
        prior_ratio: Double,
    ) -> VardiffState {
        self.observed(
            Double::of_u64(self.shares_since_last_update as u64),
            Self::target_shares(shares_per_minute, self.elapsed_secs(now)),
            prior_ratio,
        )
    }

    /// The log ratio of the lower confidence bound.
    pub open spec fn lower_bound_log_ratio(self) -> Double {
        safe_exponent(
            self.log_ratio.minus(self.effective_lower_bound_z().times(self.uncertainty())),
        )
    }

    /// The exponent whose exponential `try_vardiff` is to be given as the ratio of
    /// the lower bound, for the same arguments.
    pub fn lower_bound_exponent(
        &self,
        shares_per_minute: Single,
        now: u64,
        prior_ratio: Double,
    ) -> (r: Double)
        requires
            self.limits_step(),
        ensures
            r == self.filtered(shares_per_minute, now, prior_ratio).lower_bound_log_ratio(),
    {
        let mut ahead = *self;
        let target_shares = Self::target_shares(
            shares_per_minute,
            now.saturating_sub(self.timestamp_of_last_update),
        );
        let observed_shares = Double::of_u64(self.shares_since_last_update as u64);
        let log_ratio = ahead.update_expkf(observed_shares, target_shares, prior_ratio);
        safe_exponent(log_ratio.minus(ahead.effective_lower_bound_z().times(ahead.uncertainty())))
    }

    /// What an attempt to update the hashrate leads to: the next state, and the new
    /// hashrate where there is one.
    pub open spec fn attempted(
        self,
        hashrate: Single,
        shares_per_minute: Single,
        now: u64,
        reset_at: u64,
        prior_ratio: Double,
        lower_bound_ratio: Double,
    ) -> (VardiffState, Option<Single>) {
        if self.elapsed_secs(now) <= MIN_INTERVAL_SECS {
            (self, None)
        } else if Self::target_shares(shares_per_minute, self.elapsed_secs(now)).le(zero()) {
            (self.with_counter_reset(reset_at), None)
        } else {
            let next = self.filtered(shares_per_minute, now, prior_ratio);
            let current = self.allowed(hashrate.to_double());
            let proposed = current.times(lower_bound_ratio);
            if next.relative_change(proposed, current).ge(next.min_update_relative_change) {
                (
                    VardiffState { log_ratio: zero(), ..next.with_counter_reset(reset_at) },
                    Some(next.clamped_hashrate(proposed, current).to_single()),
                )
            } else {
                (next.with_counter_reset(reset_at), None)
            }
        }
    }

    /// Checks channel performance and potentially updates the estimated hashrate.
    ///
    /// The filter observes the shares counted since the last observation. The
    /// posterior mean of the hashrate is `current_hashrate * exp(log_ratio)`; while
    /// the filter is uncertain, the lower bound
    /// `current_hashrate * exp(log_ratio - z * sigma)` is proposed instead.
    ///
    /// The clock reads `now` on entry and `reset_at` when the counter is reset.
    /// `prior_ratio` is the exponential of `prior_exponent`, `lower_bound_ratio`
    /// that of `lower_bound_exponent`.
    pub fn try_vardiff(
        &mut self,
        hashrate: Single,
        shares_per_minute: Single,
        now: u64,
        reset_at: u64,
        prior_ratio: Double,
        lower_bound_ratio: Double,
    ) -> (r: Option<Single>)
        requires
            old(self).ready(hashrate, shares_per_minute, now),
        ensures
            (*final(self), r) == old(self).attempted(
                hashrate,
                shares_per_minute,
                now,
                reset_at,
                prior_ratio,
                lower_bound_ratio,
            ),
            old(self).wf() ==> final(self).wf(),
    {
        let delta_time = now.saturating_sub(self.timestamp_of_last_update);
        if delta_time <= MIN_INTERVAL_SECS {
            return None;
        }
        let current_hashrate = hashrate.to_double().max(self.min_allowed_hashrate).max(
            Double::from_bits(ONE),
        );
        let target_shares = Self::target_shares(shares_per_minute, delta_time);
        let observed_shares = Double::of_u64(self.shares_since_last_update as u64);
        if target_shares.le(Double::from_bits(ZERO)) {
            self.reset_counter(reset_at);
            return None;
        }
        let _ = self.update_expkf(observed_shares, target_shares, prior_ratio);
        let proposed_hashrate = current_hashrate.times(lower_bound_ratio);
        let maybe_new_hashrate = self.apply_update_policy(proposed_hashrate, current_hashrate);
        self.reset_counter(reset_at);
        match maybe_new_hashrate {
            Some(new_hashrate) => {
                self.reset_log_ratio_filter();
                Some(new_hashrate.to_single())
            },
            None => None,
        }
    }
}

} // verus!
