use vstd::prelude::*;

use crate::float::double::Double;
use crate::float::laws::{
    lemma_finite_product_is_number, lemma_inverse_is_finite, lemma_minus_is_finite,
    lemma_minus_itself, lemma_minus_monotone, lemma_minus_not_above, lemma_minus_sign,
    lemma_of_u64_monotone, lemma_one_to_single, lemma_over_at_most_one, lemma_over_is_number,
    lemma_over_itself, lemma_over_monotone, lemma_over_not_negative, lemma_plus_is_number,
    lemma_plus_monotone, lemma_plus_not_negative, lemma_plus_zero, lemma_product_not_below_zero,
    lemma_single_over_antitone, lemma_single_plus_monotone, lemma_single_survives_double,
    lemma_sqrt_is_finite, lemma_sqrt_is_number, lemma_times_is_number, lemma_times_monotone,
    lemma_times_one, lemma_to_single_keeps_sign, lemma_to_single_monotone, lemma_two_singles,
    lemma_zero_times,
};
use crate::float::single::Single;
use crate::vardiff::classic;
use crate::vardiff::kf_vardiff::{
    MIN_INTERVAL_SECS, MIN_VARIANCE, TINY, VardiffState, one, zero,
};

verus! {

/// Counting shares one time after another counts them all, up to the maximum.
pub proof fn lemma_share_counts_add_up(state: VardiffState, a: nat, b: nat)
    ensures
        state.with_more_shares(a).with_more_shares(b) == state.with_more_shares(a + b),
{
}

/// The lowest hashrate that is allowed is the one that was asked for, or one where
/// that is lower.
pub proof fn lemma_min_allowed_hashrate_is_kept(min_allowed_hashrate: Single, now: u64)
    ensures
        VardiffState::fresh(min_allowed_hashrate, now).min_allowed_hashrate.to_single()
            == min_allowed_hashrate.max(Single::from_bits(classic::SINGLE_ONE)),
{
    let m = min_allowed_hashrate;
    let unit = Single::from_bits(classic::SINGLE_ONE);
    lemma_one_to_single();
    if m.is_nan() {
        reveal(Single::spec_to_double);
    } else {
        let d = m.to_double();
        lemma_single_survives_double(m);
        if d.lt(one()) {
            lemma_to_single_monotone(d, one());
            assert(m.rank() == unit.rank() ==> m == unit);
        } else {
            lemma_to_single_monotone(one(), d);
        }
    }
}

/// The other state has the same settings.
pub open spec fn same_settings(a: VardiffState, b: VardiffState) -> bool {
    &&& a.min_allowed_hashrate == b.min_allowed_hashrate
    &&& a.initial_log_ratio_variance == b.initial_log_ratio_variance
    &&& a.process_variance == b.process_variance
    &&& a.max_log_ratio_step == b.max_log_ratio_step
    &&& a.max_relative_hashrate_change == b.max_relative_hashrate_change
    &&& a.min_update_relative_change == b.min_update_relative_change
    &&& a.lower_bound_z == b.lower_bound_z
    &&& a.lower_bound_uncertainty_off == b.lower_bound_uncertainty_off
    &&& a.lower_bound_uncertainty_full == b.lower_bound_uncertainty_full
}

/// An attempt never changes the settings. One that comes too early changes nothing
/// at all; any other starts a new count at the time of the reset. Where the
/// hashrate is updated the log ratio is neutral again, and the variance stays what
/// the shares made it.
pub proof fn lemma_what_an_attempt_changes(
    state: VardiffState,
    hashrate: Single,
    shares_per_minute: Single,
    now: u64,
    reset_at: u64,
    prior_ratio: Double,
    lower_bound_ratio: Double,
)
    ensures
        ({
            let (next, update) = state.attempted(
                hashrate,
                shares_per_minute,
                now,
                reset_at,
                prior_ratio,
                lower_bound_ratio,
            );
            &&& same_settings(state, next)
            &&& state.elapsed_secs(now) <= MIN_INTERVAL_SECS ==> next == state && update is None
            &&& state.elapsed_secs(now) > MIN_INTERVAL_SECS ==> {
                &&& next.shares_since_last_update == 0
                &&& next.timestamp_of_last_update == reset_at
            }
            &&& update is Some ==> {
                &&& next.log_ratio == zero()
                &&& next.log_ratio_variance == state.filtered(
                    shares_per_minute,
                    now,
                    prior_ratio,
                ).log_ratio_variance
            }
        }),
{
}

/// No update goes below the lowest hashrate that is allowed.
pub proof fn lemma_updates_are_allowed(
    state: VardiffState,
    hashrate: Single,
    shares_per_minute: Single,
    now: u64,
    reset_at: u64,
    prior_ratio: Double,
    lower_bound_ratio: Double,
)
    requires
        state.wf(),
    ensures
        state.attempted(
            hashrate,
            shares_per_minute,
            now,
            reset_at,
            prior_ratio,
            lower_bound_ratio,
        ).1 matches Some(update) ==> state.min_allowed_hashrate.to_single().le(update),
{
    let next = state.filtered(shares_per_minute, now, prior_ratio);
    let current = state.allowed(hashrate.to_double());
    let proposed = current.times(lower_bound_ratio);
    let clamped = next.clamped_hashrate(proposed, current);
    next.lemma_limits_in_order(current);
    assert(state.min_allowed_hashrate.le(clamped));
    lemma_to_single_monotone(state.min_allowed_hashrate, clamped);
}

/// While the filter is confident the posterior mean is targeted; otherwise a bound
/// below it, by no more than the full number of deviations.
pub proof fn lemma_lower_bound_closes_up(state: VardiffState)
    requires
        zero().le(state.lower_bound_z),
        state.lower_bound_z.is_finite(),
        state.full_uncertainty().is_finite(),
    ensures
        zero().le(state.effective_lower_bound_z()),
        state.effective_lower_bound_z().le(state.lower_bound_z),
        state.uncertainty().le(state.lower_bound_uncertainty_off)
            ==> state.effective_lower_bound_z() == zero(),
{
    let u = state.uncertainty();
    let (off, full) = (state.off_uncertainty(), state.full_uncertainty());
    let z = state.lower_bound_z;
    lemma_sqrt_is_number(state.log_ratio_variance.max(zero()));
    if !u.le(off) && !u.ge(full) {
        let (a, b) = (u.minus(off), full.minus(off));
        lemma_minus_sign(u, off);
        lemma_minus_sign(full, off);
        lemma_minus_monotone(u, full, off);
        assert(b.is_finite()) by {
            lemma_minus_not_above(full, off);
        }
        let t = a.over(b);
        lemma_over_at_most_one(a, b);
        lemma_times_one(z);
        lemma_finite_product_is_number(z, t);
        lemma_product_not_below_zero(z, t);
        if z.parts().negative {
            lemma_zero_times(z, t);
        } else {
            lemma_times_monotone(z, t, one());
        }
    }
}

/// The more shares have been observed, the higher the log ratio is: never lower.
pub proof fn lemma_more_shares_raise_the_ratio(
    state: VardiffState,
    fewer: Double,
    more: Double,
    target_shares: Double,
    prior_ratio: Double,
)
    requires
        state.limits_step(),
        state.log_ratio.is_finite(),
        zero().le(fewer),
        fewer.le(more),
        fewer.minus(VardiffState::expected_shares(target_shares, prior_ratio)).is_finite(),
        more.minus(VardiffState::expected_shares(target_shares, prior_ratio)).is_finite(),
    ensures
        state.observed(fewer, target_shares, prior_ratio).log_ratio.le(
            state.observed(more, target_shares, prior_ratio).log_ratio,
        ),
{
    let expected = VardiffState::expected_shares(target_shares, prior_ratio);
    let v = state.posterior_variance(target_shares, prior_ratio);
    lemma_posterior_variance(state, target_shares, prior_ratio);
    let (a, b) = (fewer.max(zero()).minus(expected), more.max(zero()).minus(expected));
    lemma_minus_monotone(fewer, more, expected);
    lemma_finite_product_is_number(v, a);
    lemma_finite_product_is_number(v, b);
    lemma_times_monotone(v, a, b);
    let limit = state.max_log_ratio_step;
    assert(limit.neg().parts().code == limit.parts().code);
    let (p, q) = (v.times(a).clamp(limit.neg(), limit), v.times(b).clamp(limit.neg(), limit));
    assert(p.le(q));
    lemma_plus_is_number(state.log_ratio, p);
    lemma_plus_is_number(state.log_ratio, q);
    lemma_plus_monotone(state.log_ratio, p, q);
}

/// A state with some count of shares.
pub open spec fn with_shares(state: VardiffState, shares: u32) -> VardiffState {
    VardiffState { shares_since_last_update: shares, ..state }
}

/// The more shares were counted in the same time, the higher the lower bound that
/// is targeted: never lower.
pub proof fn lemma_more_shares_raise_the_bound(
    state: VardiffState,
    fewer: u32,
    more: u32,
    shares_per_minute: Single,
    now: u64,
    prior_ratio: Double,
)
    requires
        fewer <= more,
        state.limits_step(),
        state.log_ratio.is_finite(),
        state.lower_bound_z.is_finite(),
        state.full_uncertainty().is_finite(),
        zero().le(prior_ratio),
        VardiffState::expected_shares(
            VardiffState::target_shares(shares_per_minute, state.elapsed_secs(now)),
            prior_ratio,
        ).is_finite(),
    ensures
        with_shares(state, fewer).filtered(
            shares_per_minute,
            now,
            prior_ratio,
        ).lower_bound_log_ratio().le(
            with_shares(state, more).filtered(
                shares_per_minute,
                now,
                prior_ratio,
            ).lower_bound_log_ratio(),
        ),
{
    let target = VardiffState::target_shares(shares_per_minute, state.elapsed_secs(now));
    let expected = VardiffState::expected_shares(target, prior_ratio);
    let (x, y) = (Double::of_u64(fewer as u64), Double::of_u64(more as u64));
    lemma_of_u64_monotone(fewer as u64, more as u64);
    lemma_of_u64_monotone(more as u64, more as u64);
    lemma_product_not_below_zero(target.max(Double::from_bits(TINY)), prior_ratio);
    lemma_minus_is_finite(x, expected);
    lemma_minus_is_finite(y, expected);
    lemma_more_shares_raise_the_ratio(state, x, y, target, prior_ratio);
    let a = with_shares(state, fewer).filtered(shares_per_minute, now, prior_ratio);
    let b = with_shares(state, more).filtered(shares_per_minute, now, prior_ratio);
    assert(a.log_ratio == state.observed(x, target, prior_ratio).log_ratio);
    assert(b.log_ratio == state.observed(y, target, prior_ratio).log_ratio);
    assert(a.log_ratio_variance == b.log_ratio_variance);
    lemma_posterior_variance(state, target, prior_ratio);
    let u = a.uncertainty();
    let z = a.effective_lower_bound_z();
    assert(b.uncertainty() == u && b.effective_lower_bound_z() == z);
    lemma_margin_is_number(a);
    let margin = z.times(u);
    assert(margin.neg().parts().code == margin.parts().code);
    lemma_plus_is_number(a.log_ratio, margin.neg());
    lemma_plus_is_number(b.log_ratio, margin.neg());
    lemma_minus_monotone(a.log_ratio, b.log_ratio, margin);
}

/// By how much the bound lies below the mean is a number.
proof fn lemma_margin_is_number(state: VardiffState)
    requires
        state.lower_bound_z.is_finite(),
        state.full_uncertainty().is_finite(),
        state.log_ratio_variance.is_finite(),
    ensures
        !state.effective_lower_bound_z().times(state.uncertainty()).is_nan(),
{
    let u = state.uncertainty();
    let z = state.lower_bound_z;
    let (off, full) = (state.off_uncertainty(), state.full_uncertainty());
    lemma_sqrt_is_number(state.log_ratio_variance.max(zero()));
    lemma_sqrt_is_finite(state.log_ratio_variance.max(zero()));
    if u.le(off) {
        lemma_finite_product_is_number(zero(), u);
    } else if u.ge(full) {
        lemma_finite_product_is_number(z, u);
    } else {
        let (a, b) = (u.minus(off), full.minus(off));
        lemma_minus_sign(u, off);
        lemma_minus_sign(full, off);
        lemma_minus_monotone(u, full, off);
        lemma_minus_not_above(full, off);
        lemma_over_at_most_one(a, b);
        let t = z.times(a.over(b));
        lemma_finite_product_is_number(z, a.over(b));
        if t.is_finite() {
            lemma_finite_product_is_number(t, u);
        } else {
            lemma_times_is_number(t, u);
        }
    }
}

/// More shares in the same time never lead to a lower hashrate: where two attempts
/// differ in nothing but the shares that were counted, and in that the ratio of the
/// bound is no lower for more shares, and both update the hashrate, the one with
/// more shares updates it to no less.
pub proof fn lemma_more_shares_raise_the_hashrate(
    state: VardiffState,
    fewer: u32,
    more: u32,
    hashrate: Single,
    shares_per_minute: Single,
    now: u64,
    reset_at: u64,
    prior_ratio: Double,
    fewer_ratio: Double,
    more_ratio: Double,
)
    requires
        fewer <= more,
        zero().le(fewer_ratio),
        fewer_ratio.le(more_ratio),
        state.ready(hashrate, shares_per_minute, now),
        state.allowed(hashrate.to_double()).is_finite(),
        zero().le(state.max_relative_hashrate_change),
        state.allowed(hashrate.to_double()).times(more_ratio).is_finite() || zero().lt(
            state.min_update_relative_change,
        ),
    ensures
        ({
            let low = with_shares(state, fewer).attempted(
                hashrate,
                shares_per_minute,
                now,
                reset_at,
                prior_ratio,
                fewer_ratio,
            ).1;
            let high = with_shares(state, more).attempted(
                hashrate,
                shares_per_minute,
                now,
                reset_at,
                prior_ratio,
                more_ratio,
            ).1;
            low is Some && high is Some ==> low->0.le(high->0)
        }),
{
    let low = with_shares(state, fewer).attempted(
        hashrate,
        shares_per_minute,
        now,
        reset_at,
        prior_ratio,
        fewer_ratio,
    ).1;
    let high = with_shares(state, more).attempted(
        hashrate,
        shares_per_minute,
        now,
        reset_at,
        prior_ratio,
        more_ratio,
    ).1;
    if low is Some && high is Some {
        let c = state.allowed(hashrate.to_double());
        let (p, q) = (c.times(fewer_ratio), c.times(more_ratio));
        lemma_multiple_is_number(c, fewer_ratio);
        lemma_multiple_is_number(c, more_ratio);
        lemma_times_monotone(c, fewer_ratio, more_ratio);
        let (x, y) = (state.clamped_hashrate(p, c), state.clamped_hashrate(q, c));
        let a = with_shares(state, fewer).filtered(shares_per_minute, now, prior_ratio);
        let b = with_shares(state, more).filtered(shares_per_minute, now, prior_ratio);
        assert(a.clamped_hashrate(p, c) == x && b.clamped_hashrate(q, c) == y);
        assert(b.relative_change(q, c) == state.relative_change(q, c));
        assert(state.allowed(c) == c);
        lemma_product_not_below_zero(c, fewer_ratio);
        if !q.is_finite() {
            lemma_unusable_proposal(state, q, c);
        }
        assert(x.le(y));
        lemma_to_single_monotone(x, y);
    }
}

/// A finite number other than zero times a number is a number.
pub proof fn lemma_multiple_is_number(a: Double, b: Double)
    requires
        a.is_finite(),
        a.rank() != 0,
        !b.is_nan(),
    ensures
        !a.times(b).is_nan(),
{
    if b.is_finite() {
        lemma_finite_product_is_number(a, b);
    } else {
        lemma_times_is_number(a, b);
    }
}

/// A proposal that is not finite leaves the hashrate as it is.
pub proof fn lemma_unusable_proposal(state: VardiffState, proposed: Double, current: Double)
    requires
        !proposed.is_finite(),
        current.is_finite(),
        state.allowed(current) == current,
        zero().le(state.max_relative_hashrate_change),
    ensures
        state.relative_change(proposed, current).rank() == 0,
{
    let k = state.max_relative_hashrate_change;
    let (less, more) = (one().minus(k), one().plus(k));
    assert(k.neg().parts().code == k.parts().code);
    lemma_plus_is_number(one(), k.neg());
    lemma_plus_is_number(one(), zero());
    lemma_plus_monotone(one(), k.neg(), zero());
    lemma_plus_zero(one());
    lemma_plus_not_negative(one(), k);
    lemma_multiple_is_number(current, less);
    lemma_multiple_is_number(current, more);
    lemma_times_one(current);
    lemma_times_monotone(current, less, one());
    lemma_times_monotone(current, one(), more);
    assert(state.clamped_hashrate(proposed, current) == current);
    lemma_over_itself(current);
    lemma_minus_itself(one());
}

/// The posterior variance is a finite number that is not below zero.
pub proof fn lemma_posterior_variance(state: VardiffState, target_shares: Double, prior_ratio: Double)
    ensures
        state.posterior_variance(target_shares, prior_ratio).is_finite(),
        !state.posterior_variance(target_shares, prior_ratio).parts().negative,
{
    let prior = state.log_ratio_variance.plus(state.process_variance).max(
        Double::from_bits(MIN_VARIANCE),
    );
    let information = VardiffState::expected_shares(target_shares, prior_ratio).max(
        Double::from_bits(TINY),
    );
    let precision = one().over(prior);
    lemma_over_is_number(one(), prior);
    lemma_over_not_negative(one(), prior);
    lemma_plus_not_negative(precision, information);
    let all = precision.plus(information);
    lemma_over_is_number(one(), all);
    lemma_over_not_negative(one(), all);
    lemma_inverse_is_finite(all);
}

/// The threshold of an update is never below one percent.
pub proof fn lemma_threshold_at_least_one_percent(params: classic::BayesParams, probability: Double)
    ensures
        Single::from_bits(classic::SINGLE_ONE).le(
            classic::update_threshold_pct(params, probability),
        ),
{
}

/// The likelier a changepoint is, the smaller the change that is worth an update:
/// never a greater one.
pub proof fn lemma_changepoints_lower_the_threshold(
    params: classic::BayesParams,
    unlikely: Double,
    likely: Double,
)
    requires
        params.update_threshold_pct.is_finite(),
        !params.update_threshold_pct.parts().negative,
        zero().lt(params.changepoint_threshold),
        params.changepoint_threshold.is_finite(),
        !unlikely.parts().negative,
        !likely.parts().negative,
        unlikely.le(likely),
        likely.is_finite(),
    ensures
        classic::update_threshold_pct(params, likely).le(
            classic::update_threshold_pct(params, unlikely),
        ),
{
    let t = params.changepoint_threshold;
    let (x, y) = (unlikely.over(t), likely.over(t));
    lemma_over_is_number(unlikely, t);
    lemma_over_is_number(likely, t);
    lemma_over_not_negative(unlikely, t);
    lemma_over_not_negative(likely, t);
    lemma_over_monotone(unlikely, likely, t);
    let (p, q) = (x.clamp(zero(), one()), y.clamp(zero(), one()));
    assert(!p.parts().negative && !q.parts().negative && p.le(q) && q.le(one()));
    lemma_to_single_monotone(p, q);
    lemma_to_single_monotone(q, one());
    lemma_to_single_keeps_sign(p);
    lemma_to_single_keeps_sign(q);
    lemma_one_to_single();
    let (c, d) = (p.to_single(), q.to_single());
    let unit = Single::from_bits(classic::SINGLE_ONE);
    lemma_single_plus_monotone(unit, c, d);
    lemma_single_plus_monotone(unit, d, unit);
    lemma_two_singles();
    lemma_single_over_antitone(params.update_threshold_pct, unit.plus(c), unit.plus(d));
}

/// No estimate is below the lowest hashrate that is allowed.
pub proof fn lemma_estimates_are_allowed(
    state: classic::VardiffState,
    hashrate: Single,
    shares_per_minute: Single,
    now: u64,
    answers: classic::Answers,
)
    ensures
        !state.estimated_hashrate(hashrate, shares_per_minute, now, answers).lt(
            state.min_allowed_hashrate,
        ),
{
}

/// Each observation adds one run length, up to the most that are kept, and every
/// run has its posterior.
pub proof fn lemma_runs_grow_by_one(
    detector: classic::PoissonGammaBocpd,
    shares: u32,
    exposure_minutes: Double,
    prior_mean_share_rate_per_min: Double,
    answers: classic::Answers,
)
    requires
        detector.wf(),
        detector.max_run_lengths >= 1,
    ensures
        ({
            let runs = detector.after(
                shares,
                exposure_minutes,
                prior_mean_share_rate_per_min,
                answers,
            );
            runs.aligned() && runs.log_run_probs.len() == detector.runs_kept()
        }),
{
}

} // verus!
