use vstd::arithmetic::power2::{
    lemma2_to64, lemma2_to64_rest, lemma_pow2_adds, lemma_pow2_pos, pow2,
};
use vstd::prelude::*;

use crate::float::arithmetic::lemma_significand_bounds;
use crate::float::double::Double;
use crate::float::exact::{
    lemma_exact_code, lemma_half_of_double, lemma_less_zero, lemma_over_antitone,
    lemma_quotient_error, lemma_quotient_is_finite, lemma_relative_error,
};
use crate::float::format::{Format, magnitude};
use crate::float::laws::{
    distance, lemma_finite_product_is_number, lemma_magnitude_of_one, lemma_minus_sign,
    lemma_over_is_number, lemma_over_not_negative, lemma_plus_commutes, lemma_plus_is_number,
    lemma_plus_monotone, lemma_plus_not_negative, lemma_plus_zero, lemma_rank_orders_values,
    lemma_sqrt_is_finite, lemma_sqrt_is_number, lemma_sum_rank, lemma_times_commutes,
    lemma_times_monotone, lemma_times_one, lemma_zero_times,
};
use crate::float::numbers::{HALF, SIXTY, ZERO};
use crate::float::rounding::lemma_pow2_le;
use crate::float::single::Single;
use crate::vardiff::filter_laws::{
    lemma_minutes_are_finite, lemma_target_grows, lemma_target_of_whole_minutes, lemma_target_rises,
    lemma_wide_magnitude,
};
use crate::vardiff::kf_vardiff::{VardiffState, one, safe_exponent, zero};
use crate::vardiff::laws::{lemma_multiple_is_number, lemma_posterior_variance};

verus! {

/// Exponents between -50 and 50 are used as they are, and others are moved to the end
/// that is nearer.
pub proof fn lemma_safe_exponents(x: Double)
    requires
        !x.is_nan(),
    ensures
        ({
            // -50 and 50
            let (low, high) = (
                Double::from_bits(0xc049_0000_0000_0000),
                Double::from_bits(0x4049_0000_0000_0000),
            );
            &&& low.le(x) && x.le(high) ==> safe_exponent(x) == x
            &&& x.lt(low) ==> safe_exponent(x) == low
            &&& high.lt(x) ==> safe_exponent(x) == high
        }),
{
}

/// Nothing is done within 15 seconds of the last observation, nor where the clock went
/// back; later than that a new count is started, whatever the attempt leads to.
pub proof fn lemma_attempts_wait_15_seconds(
    state: VardiffState,
    hashrate: Single,
    shares_per_minute: Single,
    now: u64,
    reset_at: u64,
    prior_ratio: Double,
    lower_bound_ratio: Double,
)
    ensures
        ({
            let (next, update) = state.attempted(
                hashrate,
                shares_per_minute,
                now,
                reset_at,
                prior_ratio,
                lower_bound_ratio,
            );
            &&& now <= state.timestamp_of_last_update + 15 ==> next == state && update is None
            &&& now > state.timestamp_of_last_update + 15 ==> next.shares_since_last_update == 0
                && next.timestamp_of_last_update == reset_at
        }),
{
}

/// Where no shares are wanted an attempt starts a new count and changes nothing else.
pub proof fn lemma_no_shares_wanted(
    state: VardiffState,
    hashrate: Single,
    shares_per_minute: Single,
    now: u64,
    reset_at: u64,
    prior_ratio: Double,
    lower_bound_ratio: Double,
)
    requires
        shares_per_minute.is_nan() || shares_per_minute.is_finite() && shares_per_minute.rank() <= 0,
        now > state.timestamp_of_last_update + 15,
    ensures
        state.attempted(
            hashrate,
            shares_per_minute,
            now,
            reset_at,
            prior_ratio,
            lower_bound_ratio,
        ) == (
            (VardiffState {
                shares_since_last_update: 0,
                timestamp_of_last_update: reset_at,
                ..state
            }),
            None::<Single>,
        ),
{
    let elapsed = state.elapsed_secs(now);
    let target = VardiffState::target_shares(shares_per_minute, elapsed);
    if shares_per_minute.is_nan() {
        assert(shares_per_minute.to_double().is_nan()) by {
            reveal(Single::spec_to_double);
        }
        lemma_minutes_are_finite(elapsed);
        lemma_zero_times(zero(), Double::of_u64(elapsed).over(Double::from_bits(SIXTY)));
    } else {
        lemma_target_grows(shares_per_minute, Single::from_bits(0), elapsed, elapsed);
        lemma_target_of_nothing(elapsed);
    }
}

/// A rate of zero wants no shares, however long it takes.
pub proof fn lemma_target_of_nothing(elapsed_secs: u64)
    ensures
        VardiffState::target_shares(Single::from_bits(0), elapsed_secs).rank() == 0,
{
    let rate = Single::from_bits(0).to_double();
    lemma_wide_magnitude(Single::from_bits(0));
    lemma_significand_bounds(Format::Single, 0);
    lemma_significand_bounds(Format::Double, rate.parts().code as nat);
    assert(0 * pow2(925) == 0);
    lemma_minutes_are_finite(elapsed_secs);
    lemma_zero_times(rate.max(zero()), Double::of_u64(elapsed_secs).over(Double::from_bits(SIXTY)));
}

/// The mean moves by the variance that it is left with, times by how much the shares
/// exceed those that were expected, but by no more than the greatest step that is set.
pub proof fn lemma_what_an_observation_moves(
    state: VardiffState,
    observed_shares: Double,
    target_shares: Double,
    prior_ratio: Double,
)
    requires
        zero().le(observed_shares),
        zero().le(state.max_log_ratio_step),
        // 1e-12
        Double::from_bits(0x3d71_9799_812d_ea11).le(target_shares),
    ensures
        ({
            let next = state.observed(observed_shares, target_shares, prior_ratio);
            let limit = state.max_log_ratio_step;
            let surplus = observed_shares.minus(target_shares.times(prior_ratio));
            let shift = next.log_ratio_variance.times(surplus);
            // 1e-18
            &&& Double::from_bits(0x3c32_725d_d1d2_43ac).le(next.log_ratio_variance)
            &&& Double::from_bits(0x3c32_725d_d1d2_43ac).lt(next.log_ratio_variance)
                && !shift.is_nan() ==> next.log_ratio == safe_exponent(
                state.log_ratio.plus(
                    if limit.lt(shift) {
                        limit
                    } else if shift.lt(limit.neg()) {
                        limit.neg()
                    } else {
                        shift
                    },
                ),
            )
        }),
{
    lemma_posterior_variance(state, target_shares, prior_ratio);
    let limit = state.max_log_ratio_step;
    assert(limit.neg().parts().code == limit.parts().code);
}

/// More shares than expected never lower the mean, and fewer never raise it.
pub proof fn lemma_surplus_raises_the_mean(
    state: VardiffState,
    observed_shares: Double,
    target_shares: Double,
    prior_ratio: Double,
)
    requires
        zero().le(state.max_log_ratio_step),
        Double::from_bits(0xc049_0000_0000_0000).le(state.log_ratio),
        state.log_ratio.le(Double::from_bits(0x4049_0000_0000_0000)),
        zero().le(observed_shares),
        observed_shares.is_finite(),
        Double::from_bits(0x3d71_9799_812d_ea11).le(target_shares),
        target_shares.times(prior_ratio).is_finite(),
        observed_shares.minus(target_shares.times(prior_ratio)).is_finite(),
    ensures
        ({
            let next = state.observed(observed_shares, target_shares, prior_ratio).log_ratio;
            let expected = target_shares.times(prior_ratio);
            &&& expected.le(observed_shares) ==> state.log_ratio.le(next)
            &&& observed_shares.le(expected) ==> next.le(state.log_ratio)
        }),
{
    let expected = target_shares.times(prior_ratio);
    let surplus = observed_shares.minus(expected);
    let limit = state.max_log_ratio_step;
    assert(limit.neg().parts().code == limit.parts().code);
    assert(VardiffState::expected_shares(target_shares, prior_ratio) == expected);
    assert(observed_shares.max(zero()).rank() == observed_shares.rank());
    lemma_posterior_variance(state, target_shares, prior_ratio);
    let v = state.posterior_variance(target_shares, prior_ratio);
    lemma_minus_sign(observed_shares, expected);
    lemma_finite_product_is_number(v, surplus);
    lemma_finite_product_is_number(v, zero());
    lemma_times_commutes(v, zero());
    lemma_zero_times(zero(), v);
    let step = v.times(surplus).clamp(limit.neg(), limit);
    if surplus.rank() >= 0 {
        lemma_times_monotone(v, zero(), surplus);
    }
    if surplus.rank() <= 0 {
        lemma_times_monotone(v, surplus, zero());
    }
    assert(observed_shares.max(zero()) == observed_shares);
    lemma_plus_is_number(state.log_ratio, step);
    lemma_plus_is_number(state.log_ratio, zero());
    lemma_plus_zero(state.log_ratio);
    if surplus.rank() >= 0 {
        lemma_plus_monotone(state.log_ratio, zero(), step);
    }
    if surplus.rank() <= 0 {
        lemma_plus_monotone(state.log_ratio, step, zero());
    }
}

/// Precisions add up. The variance that is left is no more than the variance before with
/// the process variance that is set, and no more than that which the expected shares
/// alone would leave; and it is no less than half the smaller of the two.
pub proof fn lemma_precisions_add_up(
    state: VardiffState,
    observed_shares: Double,
    target_shares: Double,
    prior_ratio: Double,
)
    requires
        // 1e-18
        Double::from_bits(0x3c32_725d_d1d2_43ac).le(
            state.log_ratio_variance.plus(state.process_variance),
        ),
        // 1e-12
        Double::from_bits(0x3d71_9799_812d_ea11).le(target_shares),
        Double::from_bits(0x3d71_9799_812d_ea11).le(target_shares.times(prior_ratio)),
        Double::from_bits(0x3c32_725d_d1d2_43ac).lt(
            state.observed(observed_shares, target_shares, prior_ratio).log_ratio_variance,
        ),
    ensures
        ({
            let left = state.observed(
                observed_shares,
                target_shares,
                prior_ratio,
            ).log_ratio_variance;
            let precision = one().over(state.log_ratio_variance.plus(state.process_variance));
            let information = target_shares.times(prior_ratio);
            &&& left.le(one().over(precision.max(information)))
            &&& one().over(precision.max(information).plus(precision.max(information))).le(left)
        }),
{
    let prior = state.log_ratio_variance.plus(state.process_variance);
    let (p, i) = (one().over(prior), target_shares.times(prior_ratio));
    lemma_over_is_number(one(), prior);
    lemma_over_not_negative(one(), prior);
    let sum = p.plus(i);
    lemma_plus_not_negative(p, i);
    lemma_plus_commutes(p, i);
    lemma_plus_not_negative(i, p);
    let m = p.max(i);
    lemma_plus_not_negative(m, m);
    assert(sum.le(m.plus(m))) by {
        lemma_plus_monotone(p, i, m);
        lemma_plus_commutes(p, m);
        lemma_plus_monotone(m, p, m);
    }
    assert(m.le(sum));
    lemma_over_is_number(one(), m);
    lemma_over_is_number(one(), sum);
    lemma_over_is_number(one(), m.plus(m));
    lemma_over_antitone(one(), m, sum);
    lemma_over_antitone(one(), sum, m.plus(m));
}

/// The bound that is targeted lies below the mean by nothing while the uncertainty is no
/// more than the lower one that is set, by the full number of deviations from the upper
/// one that is set, and by half that number halfway.
pub proof fn lemma_how_far_below_the_mean(state: VardiffState)
    requires
        zero().le(state.lower_bound_uncertainty_off),
        state.lower_bound_uncertainty_off.plus(Double::from_bits(0x3d71_9799_812d_ea11)).le(
            state.lower_bound_uncertainty_full,
        ),
    ensures
        state.uncertainty().le(state.lower_bound_uncertainty_off)
            ==> state.effective_lower_bound_z() == Double::from_bits(ZERO),
        state.uncertainty().ge(state.lower_bound_uncertainty_full)
            && state.lower_bound_uncertainty_off.lt(state.lower_bound_uncertainty_full)
            ==> state.effective_lower_bound_z() == state.lower_bound_z,
        state.lower_bound_uncertainty_off == Double::from_bits(ZERO) && zero().lt(
            state.uncertainty(),
        ) && state.uncertainty().is_finite() && state.lower_bound_uncertainty_full.is_finite()
            && state.lower_bound_uncertainty_full.parts().magnitude(Format::Double) == 2
            * state.uncertainty().parts().magnitude(Format::Double)
            ==> state.effective_lower_bound_z() == state.lower_bound_z.times(
            Double::from_bits(HALF),
        ),
{
    let u = state.uncertainty();
    let (off, full) = (state.lower_bound_uncertainty_off, state.lower_bound_uncertainty_full);
    lemma_sqrt_is_number(state.log_ratio_variance.max(zero()));
    assert(state.off_uncertainty().rank() == off.rank());
    assert(state.off_uncertainty() == off);
    assert(state.full_uncertainty() == full);
    if off == zero() && zero().lt(u) && u.is_finite() && full.is_finite() && full.parts().magnitude(
        Format::Double,
    ) == 2 * u.parts().magnitude(Format::Double) {
        lemma_plus_not_negative(off, Double::from_bits(0x3d71_9799_812d_ea11));
        lemma_half_of_double(u, full);
        lemma_less_zero(u, zero());
        lemma_less_zero(full, zero());
    }
}

/// The lower bound is the mean less the deviations that it lies below it.
pub proof fn lemma_where_the_bound_lies(state: VardiffState)
    requires
        zero().le(state.lower_bound_uncertainty_off),
        state.lower_bound_uncertainty_off.plus(Double::from_bits(0x3d71_9799_812d_ea11)).le(
            state.lower_bound_uncertainty_full,
        ),
        Double::from_bits(0xc049_0000_0000_0000).le(state.log_ratio),
        state.log_ratio.le(Double::from_bits(0x4049_0000_0000_0000)),
        state.log_ratio_variance.is_finite(),
    ensures
        state.uncertainty().le(state.lower_bound_uncertainty_off)
            ==> state.lower_bound_log_ratio().rank() == state.log_ratio.rank(),
        state.uncertainty().ge(state.lower_bound_uncertainty_full)
            && state.lower_bound_uncertainty_off.lt(state.lower_bound_uncertainty_full) ==> {
            let bound = state.log_ratio.minus(state.lower_bound_z.times(state.uncertainty()));
            Double::from_bits(0xc049_0000_0000_0000).le(bound) && bound.le(
                Double::from_bits(0x4049_0000_0000_0000),
            ) ==> state.lower_bound_log_ratio() == bound
        },
{
    lemma_how_far_below_the_mean(state);
    let u = state.uncertainty();
    lemma_sqrt_is_number(state.log_ratio_variance.max(zero()));
    lemma_sqrt_is_finite(state.log_ratio_variance.max(zero()));
    if u.le(state.lower_bound_uncertainty_off) {
        lemma_zero_times(zero(), u);
        let margin = zero().times(u);
        assert(margin.neg().parts().code == 0);
        lemma_less_zero(state.log_ratio, margin);
    }
}

/// The uncertainty is the square root of the variance, and nothing for a variance below
/// zero.
pub proof fn lemma_uncertainty_is_a_root(state: VardiffState)
    ensures
        state.log_ratio_variance.ge(Double::from_bits(ZERO)) ==> state.uncertainty()
            == state.log_ratio_variance.sqrt(),
        !state.log_ratio_variance.ge(Double::from_bits(ZERO)) ==> state.uncertainty()
            == Double::from_bits(ZERO).sqrt(),
{
}

/// A proposal that is allowed and within the greatest relative change that is set is
/// taken as it is. One beyond it is moved to the limit, and one below the lowest hashrate
/// that is allowed to that. What comes out is emitted just where it differs from the
/// current hashrate by at least the least relative change that is set.
pub proof fn lemma_how_a_proposal_is_treated(
    state: VardiffState,
    proposed: Double,
    current: Double,
)
    requires
        state.wf(),
        proposed.is_finite(),
        current.is_finite(),
        one().le(current),
        state.min_allowed_hashrate.le(current),
    ensures
        ({
            let k = state.max_relative_hashrate_change;
            let (least, most) = (
                current.times(one().minus(k)),
                current.times(one().plus(k)),
            );
            let floor = state.min_allowed_hashrate;
            let taken = |hashrate: Double|
                if hashrate.over(current).minus(one()).abs().ge(state.min_update_relative_change) {
                    Some(hashrate)
                } else {
                    None::<Double>
                };
            let policy = state.apply_update_policy(proposed, current);
            &&& floor.le(proposed) && least.le(proposed) && proposed.le(most) ==> policy == taken(
                proposed,
            )
            &&& proposed.lt(least) && floor.le(least) ==> policy == taken(least)
            &&& most.lt(proposed) ==> policy == taken(most)
            &&& proposed.lt(floor) && least.lt(floor) ==> policy == taken(floor)
        }),
{
    let k = state.max_relative_hashrate_change;
    let (less, more) = (one().minus(k), one().plus(k));
    assert(state.allowed(current) == current);
    assert(k.neg().parts().code == k.parts().code);
    lemma_plus_is_number(one(), k.neg());
    lemma_plus_is_number(one(), k);
    lemma_plus_is_number(one(), zero());
    lemma_plus_monotone(one(), k.neg(), zero());
    lemma_plus_monotone(one(), zero(), k);
    lemma_plus_zero(one());
    lemma_multiple_is_number(current, less);
    lemma_multiple_is_number(current, more);
    lemma_times_one(current);
    lemma_times_monotone(current, less, one());
    lemma_times_monotone(current, one(), more);
}

/// An attempt that observes shares proposes the current hashrate, moved up to what is
/// allowed, times the ratio of the lower bound. The update is what the policy makes of
/// that, and an update resets the mean.
pub proof fn lemma_what_an_attempt_proposes(
    state: VardiffState,
    hashrate: Single,
    shares_per_minute: Single,
    now: u64,
    reset_at: u64,
    prior_ratio: Double,
    lower_bound_ratio: Double,
)
    requires
        state.wf(),
        hashrate.is_finite(),
        shares_per_minute.is_finite(),
        zero().lt(shares_per_minute.to_double()),
        now > state.timestamp_of_last_update + 15,
    ensures
        ({
            let (next, update) = state.attempted(
                hashrate,
                shares_per_minute,
                now,
                reset_at,
                prior_ratio,
                lower_bound_ratio,
            );
            let current = hashrate.to_double().max(state.min_allowed_hashrate);
            let proposed = current.times(lower_bound_ratio);
            let policy = state.apply_update_policy(proposed, current);
            &&& update is Some <==> policy is Some
            &&& update is Some ==> update->0 == policy->0.to_single() && next.log_ratio
                == Double::from_bits(ZERO)
            &&& update is None ==> next.log_ratio == state.observed(
                Double::of_u64(state.shares_since_last_update as u64),
                VardiffState::target_shares(
                    shares_per_minute,
                    (now - state.timestamp_of_last_update) as u64,
                ),
                prior_ratio,
            ).log_ratio
        }),
{
    let elapsed = state.elapsed_secs(now);
    let target = VardiffState::target_shares(shares_per_minute, elapsed);
    lemma_target_rises(shares_per_minute, 0, 15);
    lemma_target_grows(shares_per_minute, shares_per_minute, 15, elapsed);
    lemma_target_grows(shares_per_minute, shares_per_minute, 0, 0);
    lemma_wide_magnitude(shares_per_minute);
    lemma_target_of_whole_minutes(shares_per_minute, 0);
    assert(state.allowed(hashrate.to_double()) == hashrate.to_double().max(
        state.min_allowed_hashrate,
    ));
}

/// Counting shares adds them, up to the greatest count, and changes nothing else.
pub proof fn lemma_shares_are_counted(state: VardiffState, count: nat)
    ensures
        state.shares_since_last_update + count <= 0xffff_ffff ==> state.with_more_shares(count) == (
        VardiffState {
            shares_since_last_update: (state.shares_since_last_update + count) as u32,
            ..state
        }),
        state.shares_since_last_update + count > 0xffff_ffff ==> state.with_more_shares(count) == (
        VardiffState { shares_since_last_update: 0xffff_ffff, ..state }),
{
}

/// How near the sum of two numbers that are not below zero is to the exact one.
proof fn lemma_sum_error(a: Double, b: Double)
    requires
        a.is_finite(),
        b.is_finite(),
        a.rank() >= 0,
        b.rank() >= 0,
        a.plus(b).is_finite(),
        0x10_0000_0000_0000 <= a.parts().magnitude(Format::Double) + b.parts().magnitude(
            Format::Double,
        ),
    ensures
        distance(
            (a.parts().magnitude(Format::Double) + b.parts().magnitude(Format::Double)) as int,
            a.plus(b).parts().magnitude(Format::Double) as int,
        ) * 0x20_0000_0000_0000 <= a.parts().magnitude(Format::Double) + b.parts().magnitude(
            Format::Double,
        ),
        a.plus(b).rank() >= 0,
{
    let f = Format::Double;
    lemma_significand_bounds(f, 0);
    lemma_sum_rank(a, b);
    lemma_plus_not_negative(a, b);
    let n = a.parts().magnitude(f) + b.parts().magnitude(f);
    assert(a.parts().value(f) == a.parts().magnitude(f));
    assert(b.parts().value(f) == b.parts().magnitude(f));
    lemma_relative_error(f, n, 1);
}

/// The variance that is left, times the sum of the two precisions, is one, but for a
/// rounding of less than one part in 2^51: the precision of the variance before with the
/// process variance that is set, and the shares that were expected.
pub proof fn lemma_variance_is_the_inverse_precision(
    state: VardiffState,
    observed_shares: Double,
    target_shares: Double,
    prior_ratio: Double,
)
    requires
        // 1e-18
        Double::from_bits(0x3c32_725d_d1d2_43ac).le(
            state.log_ratio_variance.plus(state.process_variance),
        ),
        // 1e-12
        Double::from_bits(0x3d71_9799_812d_ea11).le(target_shares),
        Double::from_bits(0x3d71_9799_812d_ea11).le(target_shares.times(prior_ratio)),
        target_shares.times(prior_ratio).is_finite(),
        Double::from_bits(0x3c32_725d_d1d2_43ac).lt(
            state.observed(observed_shares, target_shares, prior_ratio).log_ratio_variance,
        ),
    ensures
        ({
            let left = state.observed(
                observed_shares,
                target_shares,
                prior_ratio,
            ).log_ratio_variance;
            let precision = one().over(state.log_ratio_variance.plus(state.process_variance));
            let information = target_shares.times(prior_ratio);
            let all = precision.parts().magnitude(Format::Double) + information.parts().magnitude(
                Format::Double,
            );
            &&& left.is_finite()
            &&& distance(
                (left.parts().magnitude(Format::Double) * all) as int,
                (pow2(1074) * pow2(1074)) as int,
            ) * 0x8_0000_0000_0000 <= pow2(1074) * pow2(1074)
        }),
{
    let f = Format::Double;
    let w = pow2(1074);
    let prior = state.log_ratio_variance.plus(state.process_variance);
    let (p, i) = (one().over(prior), target_shares.times(prior_ratio));
    lemma_over_is_number(one(), prior);
    lemma_over_not_negative(one(), prior);
    let sum = p.plus(i);
    lemma_plus_not_negative(p, i);
    let v = state.posterior_variance(target_shares, prior_ratio);
    lemma_posterior_variance(state, target_shares, prior_ratio);
    assert(v == one().over(sum));
    assert(state.observed(observed_shares, target_shares, prior_ratio).log_ratio_variance == v);
    lemma_magnitude_of_one();
    lemma_pow2_pos(1074);
    // The sum is finite: the inverse of infinity is zero.
    assert(sum.is_finite() && p.is_finite()) by {
        reveal(Double::spec_over);
        reveal(Double::spec_plus);
    }
    let (mp, mi, ms, mv) = (
        p.parts().magnitude(f),
        i.parts().magnitude(f),
        sum.parts().magnitude(f),
        v.parts().magnitude(f),
    );
    // 1e-12 is more than 2^-40.
    let small = Double::from_bits(0x3d70_0000_0000_0000);
    lemma_rank_orders_values(i, small);
    lemma2_to64();
    lemma2_to64_rest();
    lemma_pow2_adds(52, 982);
    lemma_pow2_pos(982);
    assert(small.parts().magnitude(f) == 0x10_0000_0000_0000 * pow2(982));
    assert(0x10_0000_0000_0000 * pow2(982) >= 0x10_0000_0000_0000);
    lemma_sum_error(p, i);
    // 1e-18 is less than the inverse of the sum, which is therefore below 2^60.
    let least = Double::from_bits(0x3c30_0000_0000_0000);
    lemma_rank_orders_values(least, v);
    lemma_pow2_adds(52, 962);
    lemma_pow2_adds(962, 112);
    lemma_pow2_adds(60, 52);
    lemma_pow2_adds(60, 1014);
    lemma_pow2_adds(962, 52);
    assert(least.parts().magnitude(f) == 0x10_0000_0000_0000 * pow2(962));
    assert(0x10_0000_0000_0000 * pow2(962) == pow2(1014));
    lemma_pow2_pos(1014);
    lemma_significand_bounds(f, sum.parts().code as nat);
    lemma_inverse_bound(sum, v, 1014);
    lemma_quotient_error(one(), sum);
    let (x, y, z) = (mv * (mp + mi), mv * ms, w * w);
    assert(distance(y as int, x as int) * 0x20_0000_0000_0000 <= x) by (nonlinear_arith)
        requires
            x == mv * (mp + mi),
            y == mv * ms,
            distance(y as int, x as int) == (if y < x { x - y } else { y - x }),
            distance((mp + mi) as int, ms as int) == (if mp + mi < ms {
                ms - (mp + mi)
            } else {
                (mp + mi) - ms
            }),
            distance((mp + mi) as int, ms as int) * 0x20_0000_0000_0000 <= mp + mi,
    {
        let off = distance((mp + mi) as int, ms as int);
        assert(distance(y as int, x as int) == mv * off);
        assert(mv * (off * 0x20_0000_0000_0000) <= mv * (mp + mi));
    }
    assert(distance(z as int, y as int) * 0x20_0000_0000_0000 <= z);
}

/// Where the inverse of a number is not tiny, the number is far from the end of the range.
proof fn lemma_inverse_bound(sum: Double, v: Double, k: nat)
    requires
        sum.is_finite(),
        sum.rank() > 0,
        v == one().over(sum),
        v.is_finite(),
        k == 1014,
        pow2(1014) <= v.parts().magnitude(Format::Double),
    ensures
        0x10_0000_0000_0000 * sum.parts().magnitude(Format::Double) <= pow2(1074) * pow2(1074),
{
    let f = Format::Double;
    let w = pow2(1074);
    let ms = sum.parts().magnitude(f);
    lemma_magnitude_of_one();
    lemma_pow2_pos(1074);
    lemma_significand_bounds(f, sum.parts().code as nat);
    if 0x10_0000_0000_0000 * ms > w * w {
        // The inverse would be at most 2^52 units.
        let bound = lemma_exact_code(f, 0x10_0000_0000_0000, 0);
        lemma2_to64();
        assert(0x10_0000_0000_0000 * pow2(0) == 0x10_0000_0000_0000);
        assert(w * w <= magnitude(f, bound) * ms);
        lemma_quotient_is_finite(one(), sum, bound);
        lemma_over_not_negative(one(), sum);
        lemma_rank_orders_values(Double::from_bits(bound as u64), v);
        lemma_pow2_le(53, 1014);
        lemma2_to64_rest();
    }
}

/// Between the two uncertainties that are set the number of deviations is linear in the
/// uncertainty.
pub proof fn lemma_bound_is_linear(state: VardiffState)
    requires
        zero().le(state.lower_bound_uncertainty_off),
        state.lower_bound_uncertainty_off.plus(Double::from_bits(0x3d71_9799_812d_ea11)).le(
            state.lower_bound_uncertainty_full,
        ),
        state.lower_bound_uncertainty_off.lt(state.uncertainty()),
        state.uncertainty().lt(state.lower_bound_uncertainty_full),
    ensures
        state.effective_lower_bound_z() == state.lower_bound_z.times(
            state.uncertainty().minus(state.lower_bound_uncertainty_off).over(
                state.lower_bound_uncertainty_full.minus(state.lower_bound_uncertainty_off),
            ),
        ),
{
}

/// What a new state is set to.
pub proof fn lemma_settings_of_a_new_state(min_allowed_hashrate: Single, now: u64)
    ensures
        ({
            let s = VardiffState::fresh(min_allowed_hashrate, now);
            &&& s.shares_since_last_update == 0
            &&& s.timestamp_of_last_update == now
            &&& s.log_ratio.rank() == 0
            // 1.5
            &&& s.log_ratio_variance == Double::from_bits(0x3ff8_0000_0000_0000)
            &&& s.initial_log_ratio_variance == s.log_ratio_variance
            // 0.004
            &&& s.process_variance == Double::from_bits(0x3f70_624d_d2f1_a9fc)
            // 9.5
            &&& s.max_log_ratio_step == Double::from_bits(0x4023_0000_0000_0000)
            // 300
            &&& s.max_relative_hashrate_change == Double::from_bits(0x4072_c000_0000_0000)
            // 0.30
            &&& s.min_update_relative_change == Double::from_bits(0x3fd3_3333_3333_3333)
            // 0.13, from an uncertainty of 0.14 up to one of 0.36
            &&& s.lower_bound_z == Double::from_bits(0x3fc0_a3d7_0a3d_70a4)
            &&& s.lower_bound_uncertainty_off == Double::from_bits(0x3fc1_eb85_1eb8_51ec)
            &&& s.lower_bound_uncertainty_full == Double::from_bits(0x3fd7_0a3d_70a3_d70a)
        }),
{
}

/// A count below zero is as good as none, and fewer than 1e-12 shares are wanted or expected
/// as good as that; so is a variance below 1e-18.
pub proof fn lemma_floors_of_an_observation(
    state: VardiffState,
    other: VardiffState,
    observed_shares: Double,
    target_shares: Double,
    prior_ratio: Double,
)
    requires
        target_shares.le(Double::from_bits(0x3d71_9799_812d_ea11)),
        observed_shares.rank() <= 0,
        !observed_shares.is_nan(),
    ensures
        ({
            let (least, none) = (
                Double::from_bits(0x3d71_9799_812d_ea11),
                Double::from_bits(ZERO),
            );
            &&& state.observed(observed_shares, target_shares, prior_ratio).log_ratio
                == state.observed(observed_shares, least, prior_ratio).log_ratio
            &&& state.observed(observed_shares, target_shares, prior_ratio).log_ratio_variance
                == state.observed(none, least, prior_ratio).log_ratio_variance
            &&& observed_shares.rank() < 0 ==> state.observed(
                observed_shares,
                target_shares,
                prior_ratio,
            ) == state.observed(none, target_shares, prior_ratio)
            &&& least.times(prior_ratio).le(least) ==> state.observed(
                none,
                least,
                prior_ratio,
            ).log_ratio_variance == state.observed(
                none,
                least,
                Double::from_bits(0x3ff0_0000_0000_0000),
            ).log_ratio_variance
        }),
        // 1e-18
        state.log_ratio_variance.plus(state.process_variance).le(
            Double::from_bits(0x3c32_725d_d1d2_43ac),
        ) && other.log_ratio_variance.plus(other.process_variance).le(
            Double::from_bits(0x3c32_725d_d1d2_43ac),
        ) ==> state.observed(
            observed_shares,
            target_shares,
            prior_ratio,
        ).log_ratio_variance == other.observed(
            observed_shares,
            target_shares,
            prior_ratio,
        ).log_ratio_variance,
{
    let least = Double::from_bits(0x3d71_9799_812d_ea11);
    lemma_times_one(least);
    assert(target_shares.max(least) == least);
    assert(target_shares.rank() == least.rank() ==> target_shares == least);
}

} // verus!
