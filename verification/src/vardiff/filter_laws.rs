use vstd::arithmetic::power2::{
    lemma2_to64, lemma2_to64_rest, lemma_pow2_adds, lemma_pow2_pos, pow2,
};
use vstd::prelude::*;

use crate::float::arithmetic::lemma_significand_bounds;
use crate::float::double::Double;
use crate::float::exact::{
    lemma_exact_code, lemma_exact_difference, lemma_exact_product, lemma_exact_quotient,
    lemma_magnitude_of_sixty, lemma_of_u64_exact, lemma_product_error, lemma_product_is_finite,
    lemma_quotient_error, lemma_quotient_is_finite, lemma_same_value, lemma_to_double_monotone,
};
use crate::float::format::{Format, exponent, magnitude, nearest, significand};
use crate::float::laws::{
    distance, lemma_finite_product_is_number, lemma_magnitude_of_one, lemma_minus_itself,
    lemma_minus_monotone, lemma_nearest_extended, lemma_of_u64_monotone, lemma_over_is_number,
    lemma_over_itself, lemma_over_monotone, lemma_over_not_negative, lemma_plus_is_number,
    lemma_plus_monotone, lemma_plus_zero, lemma_product_fits, lemma_product_not_below_zero,
    lemma_quotient_fits, lemma_rank_orders_values, lemma_single_exponent, lemma_times_commutes,
    lemma_times_monotone, lemma_times_one, lemma_times_zero, lemma_to_double_exact,
    lemma_zero_times,
};
use crate::float::numbers::{ONE, SIXTY, ZERO};
use crate::float::rounding::lemma_pow2_le;
use crate::float::single::Single;
use crate::vardiff::kf_vardiff::{VardiffState, one, zero};
use crate::vardiff::laws::{
    lemma_multiple_is_number, lemma_posterior_variance, lemma_unusable_proposal,
};

verus! {

/// The value of a finite binary32 number, in units of binary64.
pub open spec fn wide_magnitude(a: Single) -> nat {
    a.parts().magnitude(Format::Single) * pow2(925)
}

/// A binary32 number has the same value once it is converted.
pub proof fn lemma_wide_magnitude(a: Single)
    requires
        a.is_finite(),
    ensures
        a.to_double().is_finite(),
        a.to_double().parts().negative == a.parts().negative,
        a.to_double().parts().magnitude(Format::Double) == wide_magnitude(a),
{
    lemma_to_double_exact(a);
    lemma_pow2_adds(925, 149);
    lemma_pow2_pos(149);
    let (m, d) = (
        a.parts().magnitude(Format::Single),
        a.to_double().parts().magnitude(Format::Double),
    );
    assert(d == m * pow2(925)) by (nonlinear_arith)
        requires
            d * pow2(149) == m * pow2(1074),
            pow2(1074) == pow2(925) * pow2(149),
            pow2(149) > 0,
    {
        assert(d * pow2(149) == (m * pow2(925)) * pow2(149));
    }
}

/// Over whole minutes the target is the wanted rate times the minutes, exactly, for
/// as long as the time is below 2^29 minutes.
pub proof fn lemma_target_of_whole_minutes(shares_per_minute: Single, minutes: u64)
    requires
        shares_per_minute.is_finite(),
        !shares_per_minute.parts().negative,
        minutes < 0x2000_0000,
    ensures
        ({
            let target = VardiffState::target_shares(shares_per_minute, (60 * minutes) as u64);
            &&& target.is_finite()
            &&& !target.parts().negative
            &&& target.parts().magnitude(Format::Double) == wide_magnitude(shares_per_minute)
                * minutes
        }),
{
    let f = Format::Double;
    let w = pow2(1074);
    let rate = shares_per_minute.to_double();
    let m = minutes as nat;
    lemma_wide_magnitude(shares_per_minute);
    assert(rate.max(zero()) == rate);
    let elapsed = Double::of_u64((60 * minutes) as u64);
    let whole = Double::of_u64(minutes);
    let sixty = Double::from_bits(SIXTY);
    lemma_of_u64_exact((60 * minutes) as u64);
    lemma_of_u64_exact(minutes);
    lemma_magnitude_of_sixty();
    assert(((60 * m) * w) * w == (m * w) * (60 * w)) by (nonlinear_arith);
    lemma_exact_quotient(elapsed, sixty, whole.parts().code as nat);
    let code = shares_per_minute.parts().code as nat;
    let (s, e) = (significand(Format::Single, code), exponent(Format::Single, code));
    lemma_significand_bounds(Format::Single, code);
    lemma_single_exponent(code);
    assert(s * m < 0x20_0000_0000_0000) by (nonlinear_arith)
        requires
            s < 0x100_0000,
            m < 0x2000_0000,
    ;
    let exact = lemma_exact_code(f, s * m, e + 925);
    lemma_pow2_adds(e, 925);
    let r = wide_magnitude(shares_per_minute);
    assert((s * m) * pow2(e + 925) == r * m) by (nonlinear_arith)
        requires
            r == (s * pow2(e)) * pow2(925),
            pow2(e + 925) == pow2(e) * pow2(925),
    ;
    assert(r * (m * w) == (r * m) * w) by (nonlinear_arith);
    lemma_exact_product(rate, elapsed.over(sixty), exact);
}

/// Over any time the target is the wanted rate times the elapsed seconds over sixty,
/// but for a rounding of less than one part in 2^51.
pub proof fn lemma_target_is_proportional(shares_per_minute: Single, elapsed_secs: u64)
    requires
        shares_per_minute.is_finite(),
        zero().lt(shares_per_minute.to_double()),
        0 < elapsed_secs < 0x20_0000_0000_0000,
    ensures
        ({
            let target = VardiffState::target_shares(shares_per_minute, elapsed_secs);
            &&& target.is_finite()
            &&& !target.parts().negative
            &&& distance(
                (60 * target.parts().magnitude(Format::Double)) as int,
                wide_magnitude(shares_per_minute) * elapsed_secs,
            ) * 0x8_0000_0000_0000 <= wide_magnitude(shares_per_minute) * elapsed_secs
        }),
{
    let f = Format::Double;
    let w = pow2(1074);
    let rate = shares_per_minute.to_double();
    let t = elapsed_secs as nat;
    lemma_wide_magnitude(shares_per_minute);
    let elapsed = Double::of_u64(elapsed_secs);
    let sixty = Double::from_bits(SIXTY);
    lemma_of_u64_exact(elapsed_secs);
    lemma_magnitude_of_sixty();
    lemma_pow2_pos(1074);
    lemma_pow2_adds(60, 1014);
    lemma_pow2_pos(1014);
    lemma_pow2_adds(1014, 60);
    assert(pow2(60) == 0x1000_0000_0000_0000) by {
        lemma2_to64_rest();
    }
    assert(w >= 0x1000_0000_0000_0000) by (nonlinear_arith)
        requires
            w == 0x1000_0000_0000_0000 * pow2(1014),
            pow2(1014) > 0,
    ;
    assert((t * w) * w <= (t * w) * (60 * w)) by (nonlinear_arith);
    lemma_quotient_is_finite(elapsed, sixty, elapsed.parts().code as nat);
    assert(0x10_0000_0000_0000 * (60 * w) <= (t * w) * w) by (nonlinear_arith)
        requires
            w >= 0x1000_0000_0000_0000,
            t >= 1,
    {
        assert(t * w >= w);
        assert((t * w) * w >= w * w);
        assert(w * w >= 0x1000_0000_0000_0000 * w);
    }
    lemma_quotient_error(elapsed, sixty);
    let minutes = elapsed.over(sixty);
    let q = minutes.parts().magnitude(f);
    let d = wide_magnitude(shares_per_minute);
    assert((t * w) * w == w * (t * w) && q * (60 * w) == w * (60 * q)) by (nonlinear_arith);
    lemma_scaled_distance(w, t * w, 60 * q, 0x20_0000_0000_0000);
    assert(distance((t * w) as int, (60 * q) as int) * 0x20_0000_0000_0000 <= t * w);
    assert(t * w >= w) by (nonlinear_arith)
        requires
            t >= 1,
            w > 0,
    ;
    assert(64 * q >= w / 2);
    // The rate is at least one unit of binary32, which is far more than one of binary64.
    let narrow = shares_per_minute.parts().magnitude(Format::Single);
    lemma_significand_bounds(Format::Single, shares_per_minute.parts().code as nat);
    lemma_significand_bounds(f, rate.parts().code as nat);
    assert(d > 0);
    assert(d >= pow2(925)) by (nonlinear_arith)
        requires
            d == narrow * pow2(925),
            d > 0,
    ;
    lemma_pow2_adds(60, 865);
    lemma_pow2_pos(865);
    assert(d >= 0x1000_0000_0000_0000) by (nonlinear_arith)
        requires
            d >= pow2(925),
            pow2(925) == 0x1000_0000_0000_0000 * pow2(865),
            pow2(865) > 0,
    ;
    assert(0x10_0000_0000_0000 * w <= d * q) by (nonlinear_arith)
        requires
            d >= 0x1000_0000_0000_0000,
            256 * q >= w,
    ;
    // No product of a binary32 number and a time comes near the end of the range.
    let code = shares_per_minute.parts().code as nat;
    let (s, e) = (significand(Format::Single, code), exponent(Format::Single, code));
    lemma_single_exponent(code);
    lemma_pow2_le(e, 253);
    lemma_pow2_adds(253, 925);
    lemma_pow2_adds(1178, 122);
    lemma_pow2_le(100, 122);
    let bound = lemma_exact_code(f, 1, 1300);
    assert(d * q <= pow2(1300) * w) by {
        assert(d <= 0x100_0000 * pow2(1178)) by (nonlinear_arith)
            requires
                d == (s * pow2(e)) * pow2(925),
                s < 0x100_0000,
                pow2(e) <= pow2(253),
                pow2(1178) == pow2(253) * pow2(925),
        {
            assert(s * pow2(e) <= 0x100_0000 * pow2(253));
            assert((s * pow2(e)) * pow2(925) <= (0x100_0000 * pow2(253)) * pow2(925));
        }
        assert(60 * q <= 2 * (t * w));
        assert(t * w <= 0x20_0000_0000_0000 * w) by (nonlinear_arith)
            requires
                t <= 0x20_0000_0000_0000,
        ;
        assert(q <= 0x20_0000_0000_0000 * w);
        lemma_pow2_adds(60, 62);
        lemma_pow2_adds(60, 2);
        assert(pow2(122) >= 0x100_0000 * 0x20_0000_0000_0000) by {
            lemma2_to64_rest();
        }
        assert(d * q <= pow2(1300) * w) by (nonlinear_arith)
            requires
                d <= 0x100_0000 * pow2(1178),
                q <= 0x20_0000_0000_0000 * w,
                pow2(122) >= 0x100_0000 * 0x20_0000_0000_0000,
                pow2(1300) == pow2(1178) * pow2(122),
        {
            let a = pow2(1178);
            assert(d * q <= (0x100_0000 * a) * q);
            assert((0x100_0000 * a) * q <= (0x100_0000 * a) * (0x20_0000_0000_0000 * w));
            assert((0x100_0000 * a) * (0x20_0000_0000_0000 * w) == (0x100_0000
                * 0x20_0000_0000_0000) * (a * w));
            assert((0x100_0000 * 0x20_0000_0000_0000) * (a * w) <= pow2(122) * (a * w));
            assert(pow2(122) * (a * w) == (a * pow2(122)) * w);
        }
    }
    assert(1 * pow2(1300) == pow2(1300));
    lemma_product_is_finite(rate, minutes, bound);
    lemma_product_error(rate, minutes);
    let target = rate.times(minutes);
    let x = target.parts().magnitude(f);
    assert(rate.max(zero()) == rate);
    lemma_two_roundings(w, d, q, t, x);
}

/// A distance and its bound, both some number of times as great.
proof fn lemma_scaled_distance(w: nat, a: nat, b: nat, k: nat)
    requires
        w > 0,
        distance((w * a) as int, (w * b) as int) * k <= w * a,
    ensures
        distance(a as int, b as int) * k <= a,
{
    let off = distance(a as int, b as int);
    assert(distance((w * a) as int, (w * b) as int) == w * off) by (nonlinear_arith)
        requires
            off == if a < b { b - a } else { a - b },
            distance((w * a) as int, (w * b) as int) == (if w * a < w * b {
                w * b - w * a
            } else {
                w * a - w * b
            }),
            w > 0,
    ;
    assert(off * k <= a) by (nonlinear_arith)
        requires
            (w * off) * k <= w * a,
            w > 0,
    {
        assert((w * off) * k == w * (off * k));
    }
}

/// Where `q` is `t` times `w` over sixty and `x` is `d` times `q` over `w`, each
/// rounded, sixty times `x` is near to `d` times `t`.
proof fn lemma_two_roundings(w: nat, d: nat, q: nat, t: nat, x: nat)
    requires
        w > 0,
        distance((t * w) as int, (60 * q) as int) * 0x20_0000_0000_0000 <= t * w,
        distance((d * q) as int, (x * w) as int) * 0x20_0000_0000_0000 <= d * q,
    ensures
        distance((60 * x) as int, (d * t) as int) * 0x8_0000_0000_0000 <= d * t,
{
    let h = 0x20_0000_0000_0000int;
    let (u, v) = (t * w, 60 * q);
    let (a, b, c) = ((60 * x) * w, 60 * (d * q), d * (t * w));
    assert(b == d * v) by (nonlinear_arith)
        requires
            b == 60 * (d * q),
            v == 60 * q,
    ;
    assert(distance(b as int, c as int) * h <= c) by (nonlinear_arith)
        requires
            b == d * v,
            c == d * u,
            h > 0,
            d >= 0,
            distance(u as int, v as int) == (if u < v { v - u } else { u - v }),
            distance(b as int, c as int) == (if b < c { c - b } else { b - c }),
            distance(u as int, v as int) * h <= u,
    {
        let off = distance(u as int, v as int);
        assert(distance(b as int, c as int) == d * off);
        assert(d * off * h <= d * u) by {
            assert(d * (off * h) <= d * u);
        }
    }
    assert(a == 60 * (x * w)) by (nonlinear_arith)
        requires
            a == (60 * x) * w,
    ;
    assert(distance(a as int, b as int) * h <= b);
    assert(b <= 2 * c);
    assert(distance(a as int, c as int) * h <= 3 * c);
    assert(distance(a as int, c as int) * 0x8_0000_0000_0000 <= c);
    assert(c == w * (d * t) && a == w * (60 * x)) by (nonlinear_arith)
        requires
            c == d * (t * w),
            a == (60 * x) * w,
    ;
    lemma_scaled_distance(w, d * t, 60 * x, 0x8_0000_0000_0000);
}

/// More time never lowers the target, nor does a higher rate.
pub proof fn lemma_target_grows(
    slower: Single,
    faster: Single,
    sooner: u64,
    later: u64,
)
    requires
        faster.is_finite(),
        slower.le(faster),
        sooner <= later,
    ensures
        VardiffState::target_shares(slower, sooner).le(VardiffState::target_shares(faster, later)),
{
    let sixty = Double::from_bits(SIXTY);
    let (a, b) = (Double::of_u64(sooner).over(sixty), Double::of_u64(later).over(sixty));
    let (x, y) = (slower.to_double().max(zero()), faster.to_double().max(zero()));
    lemma_of_u64_monotone(sooner, later);
    lemma_of_u64_monotone(later, later);
    lemma_over_is_number(Double::of_u64(sooner), sixty);
    lemma_over_is_number(Double::of_u64(later), sixty);
    lemma_over_not_negative(Double::of_u64(sooner), sixty);
    lemma_over_not_negative(Double::of_u64(later), sixty);
    lemma_over_monotone(Double::of_u64(sooner), Double::of_u64(later), sixty);
    lemma_minutes_are_finite(sooner);
    lemma_minutes_are_finite(later);
    lemma_to_double_exact(faster);
    lemma_finite_product_is_number(y, b);
    lemma_product_not_below_zero(y, b);
    if slower.rank() <= 0 {
        assert(x.rank() == 0) by {
            if slower.is_finite() {
                lemma_to_double_exact(slower);
                lemma_significand_bounds(Format::Single, slower.parts().code as nat);
                lemma_wide_magnitude(slower);
                lemma_significand_bounds(Format::Double, slower.to_double().parts().code as nat);
                assert(0 * pow2(925) == 0);
            } else {
                reveal(Single::spec_to_double);
            }
        }
        lemma_zero_times(x, a);
    } else {
        lemma_to_double_exact(slower);
        lemma_to_double_monotone(slower, faster);
        lemma_finite_product_is_number(x, a);
        lemma_finite_product_is_number(x, b);
        lemma_times_monotone(x, a, b);
        lemma_times_commutes(x, b);
        lemma_times_commutes(y, b);
        lemma_times_monotone(b, x, y);
    }
}

/// A time in minutes is finite.
pub proof fn lemma_minutes_are_finite(secs: u64)
    ensures
        Double::of_u64(secs).over(Double::from_bits(SIXTY)).is_finite(),
{
    let elapsed = Double::of_u64(secs);
    let m = elapsed.parts().magnitude(Format::Double);
    let w = pow2(1074);
    lemma_of_u64_monotone(secs, secs);
    lemma_magnitude_of_sixty();
    lemma_pow2_pos(1074);
    assert(m * w <= m * (60 * w)) by (nonlinear_arith)
        requires
            w > 0,
            m >= 0,
    ;
    lemma_quotient_is_finite(elapsed, Double::from_bits(SIXTY), elapsed.parts().code as nat);
}

/// More time raises the target, by the second.
pub proof fn lemma_target_rises(shares_per_minute: Single, sooner: u64, later: u64)
    requires
        shares_per_minute.is_finite(),
        zero().lt(shares_per_minute.to_double()),
        sooner < later < 0x2_0000_0000_0000,
    ensures
        VardiffState::target_shares(shares_per_minute, sooner).lt(
            VardiffState::target_shares(shares_per_minute, later),
        ),
{
    let f = Format::Double;
    let (x, y) = (
        VardiffState::target_shares(shares_per_minute, sooner),
        VardiffState::target_shares(shares_per_minute, later),
    );
    let d = wide_magnitude(shares_per_minute);
    lemma_wide_magnitude(shares_per_minute);
    lemma_significand_bounds(f, shares_per_minute.to_double().parts().code as nat);
    lemma_target_is_proportional(shares_per_minute, later);
    let (mx, my) = (x.parts().magnitude(f), y.parts().magnitude(f));
    if sooner == 0 {
        assert(60 * sooner == 0);
        lemma_target_of_whole_minutes(shares_per_minute, 0);
        assert(d * 0 == 0) by (nonlinear_arith);
    } else {
        lemma_target_is_proportional(shares_per_minute, sooner);
    }
    assert(mx < my) by {
        let (a, b) = (d * sooner, d * later);
        assert(b >= a + d && 0 <= a && a <= 0x2_0000_0000_0000 * d) by (nonlinear_arith)
            requires
                a == d * sooner,
                b == d * later,
                0 <= sooner < later < 0x2_0000_0000_0000,
                d > 0,
        ;
    }
    lemma_rank_orders_values(x, y);
}

/// A filter that sees just the shares it expects stays where it is. Where its mean
/// is neutral, its prior ratio therefore one, the shares that whole minutes should
/// bring at the wanted rate do not move it.
pub proof fn lemma_on_target_keeps_the_ratio(
    state: VardiffState,
    shares_per_minute: Single,
    minutes: u64,
    now: u64,
)
    requires
        state.limits_step(),
        Double::from_bits(0xc049_0000_0000_0000).le(state.log_ratio),
        state.log_ratio.le(Double::from_bits(0x4049_0000_0000_0000)),
        shares_per_minute.is_finite(),
        !shares_per_minute.parts().negative,
        0 < minutes < 0x2000_0000,
        now == state.timestamp_of_last_update + 60 * minutes,
        state.shares_since_last_update > 0,
        wide_magnitude(shares_per_minute) * minutes == state.shares_since_last_update * pow2(1074),
    ensures
        state.filtered(shares_per_minute, now, Double::from_bits(ONE)).log_ratio.rank()
            == state.log_ratio.rank(),
{
    let target = VardiffState::target_shares(shares_per_minute, (60 * minutes) as u64);
    assert(state.elapsed_secs(now) == 60 * minutes);
    let counted = Double::of_u64(state.shares_since_last_update as u64);
    lemma_target_of_whole_minutes(shares_per_minute, minutes);
    lemma_of_u64_exact(state.shares_since_last_update as u64);
    lemma_same_value(target, counted);
    lemma_of_u64_monotone(1, state.shares_since_last_update as u64);
    lemma_of_u64_exact(1);
    lemma_magnitude_of_one();
    lemma_same_value(Double::of_u64(1), one());
    lemma_times_one(counted);
    assert(VardiffState::expected_shares(target, one()) == counted);
    lemma_minus_itself(counted);
    let v = state.posterior_variance(target, one());
    lemma_posterior_variance(state, target, one());
    lemma_times_commutes(v, zero());
    lemma_zero_times(zero(), v);
    lemma_times_zero(v);
    let limit = state.max_log_ratio_step;
    assert(limit.neg().parts().code == limit.parts().code);
    let step = state.raw_step(counted, target, one());
    lemma_plus_zero(state.log_ratio);
    assert(step == zero());
    let moved = state.log_ratio.plus(zero());
    lemma_plus_is_number(state.log_ratio, zero());
    assert(step.clamp(limit.neg(), limit) == zero());
}

/// A proposal within a quarter of the current hashrate is not worth an update where
/// the least change that is worth one is 0.30 or more.
pub proof fn lemma_small_changes_are_not_emitted(
    state: VardiffState,
    current: Double,
    ratio: Double,
)
    requires
        state.wf(),
        current.is_finite(),
        one().le(current),
        state.min_allowed_hashrate.le(current),
        // 0.75 and 1.25
        Double::from_bits(0x3fe8_0000_0000_0000).le(ratio),
        ratio.le(Double::from_bits(0x3ff4_0000_0000_0000)),
        // 0.30
        Double::from_bits(0x3fd3_3333_3333_3333).le(state.min_update_relative_change),
    ensures
        !state.relative_change(current.times(ratio), current).ge(state.min_update_relative_change),
{
    let p = current.times(ratio);
    if !p.is_finite() {
        assert(state.allowed(current) == current);
        lemma_unusable_proposal(state, p, current);
    } else {
        let x = state.clamped_hashrate(p, current);
        lemma_clamped_towards_current(state, p, current);
        lemma_quarter_more_or_less(current, ratio);
        lemma_over_is_number(p, current);
        lemma_over_is_number(x, current);
        lemma_over_itself(current);
        if x.le(current) {
            lemma_over_monotone(x, current, current);
        } else {
            lemma_over_monotone(current, x, current);
        }
        if p.le(x) {
            lemma_over_monotone(p, x, current);
        } else {
            lemma_over_monotone(x, p, current);
        }
        lemma_near_one(x.over(current));
    }
}

/// A proposal is clamped towards the current hashrate, never away from it or past it.
pub proof fn lemma_clamped_towards_current(state: VardiffState, proposed: Double, current: Double)
    requires
        state.wf(),
        current.is_finite(),
        one().le(current),
        state.min_allowed_hashrate.le(current),
        proposed.is_finite(),
    ensures
        ({
            let clamped = state.clamped_hashrate(proposed, current);
            &&& clamped.is_finite()
            &&& !clamped.parts().negative
            &&& proposed.le(clamped) && clamped.le(current) || current.le(clamped) && clamped.le(
                proposed,
            )
        }),
{
    let k = state.max_relative_hashrate_change;
    let (less, more) = (one().minus(k), one().plus(k));
    assert(state.allowed(current) == current);
    assert(k.neg().parts().code == k.parts().code);
    lemma_plus_is_number(one(), k.neg());
    lemma_plus_is_number(one(), k);
    lemma_plus_is_number(one(), zero());
    lemma_plus_monotone(one(), k.neg(), zero());
    lemma_plus_monotone(one(), zero(), k);
    lemma_plus_zero(one());
    lemma_multiple_is_number(current, less);
    lemma_multiple_is_number(current, more);
    lemma_times_one(current);
    lemma_times_monotone(current, less, one());
    lemma_times_monotone(current, one(), more);
    assert(state.lower_limit(current).le(current));
    assert(current.le(state.upper_limit(current)));
}

/// The quotient of such a proposal and the current hashrate is between 23/32 and 41/32.
proof fn lemma_quarter_more_or_less(current: Double, ratio: Double)
    requires
        current.is_finite(),
        one().le(current),
        Double::from_bits(0x3fe8_0000_0000_0000).le(ratio),
        ratio.le(Double::from_bits(0x3ff4_0000_0000_0000)),
        current.times(ratio).is_finite(),
    ensures
        !current.times(ratio).parts().negative,
        Double::from_bits(0x3fe7_0000_0000_0000).le(current.times(ratio).over(current)),
        current.times(ratio).over(current).le(Double::from_bits(0x3ff4_8000_0000_0000)),
{
    let f = Format::Double;
    let p = current.times(ratio);
    let w = pow2(1074);
    let u = pow2(1021);
    lemma_pow2_pos(1021);
    lemma2_to64();
    lemma2_to64_rest();
    lemma_pow2_adds(1021, 53);
    lemma_pow2_adds(1021, 1);
    lemma_magnitude_of_one();
    let (mc, mr, mp) = (
        current.parts().magnitude(f),
        ratio.parts().magnitude(f),
        p.parts().magnitude(f),
    );
    let (low, high) = (
        Double::from_bits(0x3fe8_0000_0000_0000),
        Double::from_bits(0x3ff4_0000_0000_0000),
    );
    assert(low.parts().magnitude(f) == 0x18_0000_0000_0000 * u);
    assert(high.parts().magnitude(f) == 0x14_0000_0000_0000 * pow2(1022));
    assert(high.parts().magnitude(f) == 0x28_0000_0000_0000 * u);
    assert(w == 0x20_0000_0000_0000 * u);
    lemma_rank_orders_values(ratio, low);
    lemma_rank_orders_values(high, ratio);
    lemma_rank_orders_values(current, one());
    assert(mr >= 0x18_0000_0000_0000 * u && mr <= 0x28_0000_0000_0000 * u && mc >= w);
    let n = mc * mr;
    assert(w * (0x18_0000_0000_0000 * u) <= n) by (nonlinear_arith)
        requires
            n == mc * mr,
            mc >= w,
            mr >= 0x18_0000_0000_0000 * u,
    ;
    assert(0x10_0000_0000_0000 * w <= n) by (nonlinear_arith)
        requires
            w * (0x18_0000_0000_0000 * u) <= n,
            u > 0,
            w >= 0,
    {
        assert(w * (0x18_0000_0000_0000 * u) >= w * 0x18_0000_0000_0000);
    }
    lemma_product_error(current, ratio);
    let a = mp * w;
    assert(128 * a <= 129 * n && 129 * a >= 128 * n);
    assert(3 * (mc * w) <= 4 * n && 4 * n <= 5 * (mc * w)) by (nonlinear_arith)
        requires
            n == mc * mr,
            w == 0x20_0000_0000_0000 * u,
            0x18_0000_0000_0000 * u <= mr <= 0x28_0000_0000_0000 * u,
    {
        assert(3 * w == 4 * (0x18_0000_0000_0000 * u));
        assert(5 * w == 4 * (0x28_0000_0000_0000 * u));
        assert(mc * (3 * w) <= mc * (4 * mr));
        assert(mc * (4 * mr) <= mc * (5 * w));
    }
    let two = lemma_exact_code(f, 2, 1074);
    assert(2 * (mc * w) == (2 * w) * mc) by (nonlinear_arith);
    lemma_quotient_is_finite(p, current, two);
    lemma_significand_bounds(f, current.parts().code as nat);
    let q = p.over(current);
    let mq = q.parts().magnitude(f);
    assert(0x10_0000_0000_0000 * mc <= a) by (nonlinear_arith)
        requires
            129 * a >= 128 * n,
            4 * n >= 3 * (mc * w),
            w >= 0x20_0000_0000_0000,
            mc >= 0,
    {
        assert(mc * w >= mc * 0x20_0000_0000_0000);
    }
    lemma_quotient_error(p, current);
    let b = mq * mc;
    assert(128 * b <= 129 * a && 129 * b >= 128 * a);
    let (bottom, top) = (
        Double::from_bits(0x3fe7_0000_0000_0000),
        Double::from_bits(0x3ff4_8000_0000_0000),
    );
    assert(bottom.parts().magnitude(f) == 0x17_0000_0000_0000 * u);
    assert(top.parts().magnitude(f) == 0x14_8000_0000_0000 * pow2(1022));
    assert(32 * b <= 41 * (mc * w) && 32 * b >= 23 * (mc * w));
    assert(32 * mq <= 41 * w && 32 * mq >= 23 * w) by (nonlinear_arith)
        requires
            b == mq * mc,
            32 * b <= 41 * (mc * w),
            32 * b >= 23 * (mc * w),
            mc > 0,
    {
        assert((32 * mq) * mc <= (41 * w) * mc);
        assert((32 * mq) * mc >= (23 * w) * mc);
    }
    lemma_rank_orders_values(q, bottom);
    lemma_rank_orders_values(top, q);
}

/// A number between 23/32 and 41/32 is less than 0.30 away from one.
proof fn lemma_near_one(q: Double)
    requires
        Double::from_bits(0x3fe7_0000_0000_0000).le(q),
        q.le(Double::from_bits(0x3ff4_8000_0000_0000)),
    ensures
        q.minus(one()).abs().lt(Double::from_bits(0x3fd3_3333_3333_3333)),
{
    let f = Format::Double;
    let (bottom, top) = (
        Double::from_bits(0x3fe7_0000_0000_0000),
        Double::from_bits(0x3ff4_8000_0000_0000),
    );
    lemma2_to64();
    lemma_magnitude_of_one();
    lemma2_to64_rest();
    lemma_pow2_adds(1020, 54);
    lemma_pow2_adds(1020, 2);
    lemma_pow2_adds(1020, 1);
    let u = pow2(1020);
    assert(bottom.parts().magnitude(f) == 0x17_0000_0000_0000 * pow2(1021));
    assert(top.parts().magnitude(f) == 0x14_8000_0000_0000 * pow2(1022));
    assert(magnitude(f, 0x3fd2_0000_0000_0000) == 0x12_0000_0000_0000 * u);
    lemma_exact_difference(bottom, one(), 0x3fd2_0000_0000_0000);
    lemma_exact_difference(top, one(), 0x3fd2_0000_0000_0000);
    lemma_exact_difference(q, one(), 0);
    lemma_minus_monotone(bottom, q, one());
    lemma_minus_monotone(q, top, one());
}

/// A miner that is on target is left alone. Where whole minutes have brought just the
/// shares that the wanted rate brings, the mean is neutral and the ratio of the bound
/// is within a quarter of one, an attempt keeps the mean neutral and updates nothing,
/// as long as the least change that is worth an update is 0.30 or more.
pub proof fn lemma_on_target_updates_nothing(
    state: VardiffState,
    hashrate: Single,
    shares_per_minute: Single,
    minutes: u64,
    now: u64,
    reset_at: u64,
    lower_bound_ratio: Double,
)
    requires
        state.wf(),
        state.log_ratio == Double::from_bits(ZERO),
        state.allowed(hashrate.to_double()).is_finite(),
        shares_per_minute.is_finite(),
        !shares_per_minute.parts().negative,
        0 < minutes < 0x2000_0000,
        now == state.timestamp_of_last_update + 60 * minutes,
        state.shares_since_last_update > 0,
        wide_magnitude(shares_per_minute) * minutes == state.shares_since_last_update * pow2(1074),
        Double::from_bits(0x3fe8_0000_0000_0000).le(lower_bound_ratio),
        lower_bound_ratio.le(Double::from_bits(0x3ff4_0000_0000_0000)),
        Double::from_bits(0x3fd3_3333_3333_3333).le(state.min_update_relative_change),
    ensures
        ({
            let (next, update) = state.attempted(
                hashrate,
                shares_per_minute,
                now,
                reset_at,
                Double::from_bits(ONE),
                lower_bound_ratio,
            );
            &&& update is None
            &&& next.log_ratio.rank() == 0
            &&& next.shares_since_last_update == 0
        }),
{
    lemma_on_target_keeps_the_ratio(state, shares_per_minute, minutes, now);
    let current = state.allowed(hashrate.to_double());
    let next = state.filtered(shares_per_minute, now, one());
    lemma_small_changes_are_not_emitted(next, current, lower_bound_ratio);
}

/// A time in minutes is the seconds over sixty, correctly rounded.
pub proof fn lemma_minutes_code(secs: u64)
    requires
        secs < 0x20_0000_0000_0000,
    ensures
        Double::of_u64(secs).over(Double::from_bits(SIXTY)).parts().code == nearest(
            Format::Double,
            secs as nat * pow2(1074),
            60,
        ),
        !Double::of_u64(secs).over(Double::from_bits(SIXTY)).parts().negative,
{
    let f = Format::Double;
    let w = pow2(1074);
    let (elapsed, sixty) = (Double::of_u64(secs), Double::from_bits(SIXTY));
    lemma_of_u64_exact(secs);
    lemma_magnitude_of_sixty();
    lemma_pow2_pos(1074);
    lemma_nearest_extended(f, secs as nat * w, 60, w);
    reveal(Double::spec_over);
    lemma_quotient_fits(elapsed.parts(), sixty.parts());
}

/// Over any time the target is the wanted rate times the minutes, correctly rounded, and
/// these are the elapsed seconds over sixty, correctly rounded.
pub proof fn lemma_target_is_correctly_rounded(shares_per_minute: Single, elapsed_secs: u64)
    requires
        shares_per_minute.is_finite(),
        !shares_per_minute.parts().negative,
        elapsed_secs < 0x20_0000_0000_0000,
    ensures
        ({
            let f = Format::Double;
            let minutes = nearest(f, elapsed_secs as nat * pow2(1074), 60);
            let target = VardiffState::target_shares(shares_per_minute, elapsed_secs);
            &&& !target.parts().negative
            &&& target.parts().code == nearest(
                f,
                wide_magnitude(shares_per_minute) * magnitude(f, minutes),
                pow2(1074),
            )
        }),
{
    let rate = shares_per_minute.to_double();
    let minutes = Double::of_u64(elapsed_secs).over(Double::from_bits(SIXTY));
    lemma_wide_magnitude(shares_per_minute);
    lemma_minutes_code(elapsed_secs);
    lemma_minutes_are_finite(elapsed_secs);
    assert(rate.max(zero()) == rate);
    reveal(Double::spec_times);
    lemma_product_fits(rate.parts(), minutes.parts());
}

} // verus!
