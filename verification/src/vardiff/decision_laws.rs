use vstd::arithmetic::power2::{lemma2_to64, lemma_pow2_adds, lemma_pow2_pos, pow2};
use vstd::prelude::*;

use crate::float::arithmetic::lemma_significand_bounds;
use crate::float::double::Double;
use crate::float::exact::{lemma_exact_code, lemma_exact_quotient, lemma_relative_error};
use crate::float::format::{Format, magnitude, nearest};
use crate::float::laws::{
    distance, lemma_magnitude_of_one, lemma_nearest_exact, lemma_nearest_monotone,
    lemma_nearest_zero_is_zero, lemma_one_to_single, lemma_over_is_number, lemma_over_itself,
    lemma_over_monotone, lemma_rank_orders_values, lemma_two_singles, lemma_zero_over,
};
use crate::float::numbers::ZERO;
use crate::float::rounding::lemma_pow2_le;
use crate::float::single::Single;
use crate::vardiff::classic::{
    Answers, BayesParams, VardiffState, change_pct, scaled_hashrate, update_threshold_pct,
};
use crate::vardiff::laws::lemma_changepoints_lower_the_threshold;

verus! {

/// The change that is worth an update is the one that is set where a changepoint is out
/// of the question, and half of that where a changepoint is at least as likely as the
/// threshold that is set, but never less than one percent.
pub proof fn lemma_threshold_at_the_ends(params: BayesParams, probability: Double)
    requires
        params.changepoint_threshold.is_finite(),
        Double::from_bits(ZERO).lt(params.changepoint_threshold),
        params.update_threshold_pct.is_finite(),
        // 1.0
        Single::from_bits(0x3f80_0000).le(params.update_threshold_pct),
    ensures
        probability == Double::from_bits(ZERO) ==> update_threshold_pct(params, probability)
            == params.update_threshold_pct,
        // 2.0
        probability.is_finite() && params.changepoint_threshold.le(probability)
            ==> update_threshold_pct(params, probability) == params.update_threshold_pct.over(
            Single::from_bits(0x4000_0000),
        ).max(Single::from_bits(0x3f80_0000)),
{
    let t = params.changepoint_threshold;
    let pct = params.update_threshold_pct;
    let unit = Single::from_bits(0x3f80_0000);
    if probability == Double::from_bits(ZERO) {
        lemma_zero_over(t);
        let zero = Double::from_bits(ZERO);
        let nothing = Single::from_bits(0);
        assert(zero.to_single() == nothing) by {
            reveal(Double::spec_to_single);
            lemma_significand_bounds(Format::Double, 0);
            lemma_pow2_pos(1074);
            lemma_nearest_zero_is_zero(Format::Single, pow2(1074));
            assert(0 * pow2(149) == 0);
        }
        assert(unit.plus(nothing) == unit) by {
            reveal(Single::spec_plus);
            lemma_significand_bounds(Format::Single, 0);
            lemma_significand_bounds(Format::Single, 0x3f80_0000);
            lemma_nearest_exact(Format::Single, 1, 0x3f80_0000);
        }
        lemma_single_over_one(pct);
    } else if probability.is_finite() && t.le(probability) {
        lemma_over_is_number(t, t);
        lemma_over_is_number(probability, t);
        lemma_over_itself(t);
        lemma_over_monotone(t, probability, t);
        lemma_one_to_single();
        lemma_two_singles();
    }
}

/// How many units one is.
proof fn lemma_magnitude_of_single_one()
    ensures
        magnitude(Format::Single, 0x3f80_0000) == pow2(149),
{
    lemma2_to64();
    lemma_pow2_adds(23, 126);
}

/// A number over one is that number.
proof fn lemma_single_over_one(a: Single)
    requires
        a.is_finite(),
    ensures
        a.over(Single::from_bits(0x3f80_0000)) == a,
{
    reveal(Single::spec_over);
    let f = Format::Single;
    lemma_magnitude_of_single_one();
    lemma_pow2_pos(149);
    lemma_nearest_exact(f, pow2(149), a.parts().code as nat);
}

/// A change is measured in percent of the old hashrate, up or down alike: where the new
/// hashrate is off by `parts` of the `2^halvings` parts of the old one, it is that
/// fraction of one hundred percent.
pub proof fn lemma_changes_are_percentages(
    hashrate: Single,
    new_hashrate: Single,
    off: nat,
    parts: nat,
    halvings: nat,
)
    requires
        hashrate.is_finite(),
        hashrate.rank() > 0,
        new_hashrate.is_finite(),
        !new_hashrate.parts().negative,
        parts < 0x2_0000,
        halvings <= 17,
        off < Format::Single.infinity(),
        magnitude(Format::Single, off) == distance(
            new_hashrate.parts().magnitude(Format::Single) as int,
            hashrate.parts().magnitude(Format::Single) as int,
        ),
        magnitude(Format::Single, off) * pow2(halvings) == parts * hashrate.parts().magnitude(
            Format::Single,
        ),
    ensures
        change_pct(hashrate, new_hashrate).is_finite(),
        !change_pct(hashrate, new_hashrate).parts().negative,
        change_pct(hashrate, new_hashrate).parts().magnitude(Format::Single) * pow2(halvings) == 100
            * parts * pow2(149),
{
    let f = Format::Single;
    let w = pow2(149);
    lemma_pow2_pos(149);
    lemma_pow2_pos(halvings);
    let (h, n) = (hashrate.parts().magnitude(f), new_hashrate.parts().magnitude(f));
    lemma_significand_bounds(f, hashrate.parts().code as nat);
    let difference = new_hashrate.minus(hashrate).abs();
    lemma_exact_distance(new_hashrate, hashrate, off);
    // The fraction, and one hundred times the fraction, are numbers of the format.
    let rest = (149 - halvings) as nat;
    lemma_pow2_adds(halvings, rest);
    let fraction = lemma_exact_code(f, parts, rest);
    let percent = lemma_exact_code(f, 100 * parts, rest);
    let (m, p) = (magnitude(f, off), pow2(rest));
    assert(m * w == (parts * p) * h) by (nonlinear_arith)
        requires
            m * pow2(halvings) == parts * h,
            w == pow2(halvings) * p,
    {
        assert(m * w == (m * pow2(halvings)) * p);
    }
    let ratio = difference.over(hashrate);
    assert(ratio.parts().code == fraction && !ratio.parts().negative) by {
        reveal(Single::spec_over);
        lemma_nearest_exact(f, h, fraction);
    }
    let hundred = Single::from_bits(0x42c8_0000);
    assert(hundred.parts().magnitude(f) == 100 * w) by {
        lemma2_to64();
        lemma_pow2_adds(17, 132);
        assert(magnitude(f, 0x42c8_0000) == 0xc8_0000 * pow2(132));
    }
    assert((parts * p) * (100 * w) == ((100 * parts) * p) * w) by (nonlinear_arith);
    let r = ratio.times(hundred);
    assert(r.parts().code == percent && !r.parts().negative) by {
        reveal(Single::spec_times);
        lemma_nearest_exact(f, w, percent);
    }
    assert(((100 * parts) * p) * pow2(halvings) == 100 * parts * w) by (nonlinear_arith)
        requires
            w == pow2(halvings) * p,
    ;
}

/// A difference that is a number of the format, without its sign.
proof fn lemma_exact_distance(a: Single, b: Single, off: nat)
    requires
        a.is_finite(),
        b.is_finite(),
        !a.parts().negative,
        !b.parts().negative,
        off < Format::Single.infinity(),
        magnitude(Format::Single, off) == distance(
            a.parts().magnitude(Format::Single) as int,
            b.parts().magnitude(Format::Single) as int,
        ),
    ensures
        a.minus(b).abs().parts().code == off,
        !a.minus(b).abs().parts().negative,
{
    reveal(Single::spec_plus);
    let f = Format::Single;
    let c = b.neg();
    assert(c.parts().code == b.parts().code && c.parts().negative != b.parts().negative);
    lemma_nearest_exact(f, 1, off);
    lemma_significand_bounds(f, off);
    let d = a.minus(b);
    assert(d.parts().code == off);
    assert(d.abs().parts().code == d.parts().code);
}

/// A hashrate that is not positive is off by one hundred percent.
pub proof fn lemma_no_hashrate_is_off(hashrate: Single, new_hashrate: Single)
    requires
        !hashrate.gt(Single::from_bits(0)),
    ensures
        change_pct(hashrate, new_hashrate) == Single::from_bits(0x42c8_0000),
{
}

/// The estimate is proportional: the hashrate times the share rate that was found, over
/// the share rate that is wanted, but for a rounding of less than one part in 2^22, and
/// for the lowest hashrate that is allowed.
pub proof fn lemma_estimates_are_proportional(
    hashrate: Single,
    posterior_share_rate: Double,
    shares_per_minute: Single,
    min_allowed_hashrate: Single,
)
    requires
        hashrate.is_finite(),
        hashrate.rank() > 0,
        posterior_share_rate.to_single().is_finite(),
        posterior_share_rate.to_single().rank() > 0,
        shares_per_minute.is_finite(),
        // 2^-23
        Single::from_bits(0x3400_0000).le(shares_per_minute),
        // Neither the product nor the quotient leaves the range of normal numbers.
        0x80_0000 * pow2(149) <= hashrate.parts().magnitude(Format::Single)
            * posterior_share_rate.to_single().parts().magnitude(Format::Single),
        hashrate.times(posterior_share_rate.to_single()).is_finite(),
        0x80_0000 * shares_per_minute.parts().magnitude(Format::Single) <= hashrate.times(
            posterior_share_rate.to_single(),
        ).parts().magnitude(Format::Single) * pow2(149),
        hashrate.times(posterior_share_rate.to_single()).over(shares_per_minute).is_finite(),
    ensures
        ({
            let estimate = scaled_hashrate(
                hashrate,
                posterior_share_rate,
                shares_per_minute,
                min_allowed_hashrate,
            );
            let exact = hashrate.parts().magnitude(Format::Single)
                * posterior_share_rate.to_single().parts().magnitude(Format::Single);
            let scaled = hashrate.times(posterior_share_rate.to_single()).over(shares_per_minute);
            ||| scaled.lt(min_allowed_hashrate) && estimate == min_allowed_hashrate
            ||| !estimate.parts().negative && distance(
                (estimate.parts().magnitude(Format::Single) * shares_per_minute.parts().magnitude(
                    Format::Single,
                )) as int,
                exact as int,
            ) * 0x40_0000 <= exact
        }),
{
    reveal(Single::spec_times);
    reveal(Single::spec_over);
    let f = Format::Single;
    let w = pow2(149);
    lemma_pow2_pos(149);
    let found = posterior_share_rate.to_single();
    let (h, p, t) = (
        hashrate.parts().magnitude(f),
        found.parts().magnitude(f),
        shares_per_minute.parts().magnitude(f),
    );
    lemma_significand_bounds(f, shares_per_minute.parts().code as nat);
    let product = hashrate.times(found);
    let a = product.parts().magnitude(f);
    lemma_nearest_monotone(f, 0, h * p, w);
    assert(product.parts().code == nearest(f, h * p, w) && !product.parts().negative);
    lemma_relative_error(f, h * p, w);
    let scaled = product.over(shares_per_minute);
    lemma_nearest_monotone(f, 0, a * w, t);
    assert(scaled.parts().code == nearest(f, a * w, t) && !scaled.parts().negative);
    lemma_relative_error(f, a * w, t);
    let s = scaled.parts().magnitude(f);
    let (x, y, z) = (h * p, a * w, s * t);
    assert(distance(x as int, y as int) * 0x100_0000 <= x);
    assert(distance(y as int, z as int) * 0x100_0000 <= y);
    assert(y <= 2 * x);
    assert(distance(z as int, x as int) * 0x100_0000 <= 3 * x);
    assert(distance(z as int, x as int) * 0x40_0000 <= x);
}

/// Between the ends the change that is worth an update is the one that is set, over one
/// and the fraction that the likelihood of a changepoint is of the threshold that is set:
/// here `parts` of `2^halvings` parts. The boost is one and that fraction.
pub proof fn lemma_threshold_between_the_ends(
    params: BayesParams,
    probability: Double,
    boost: Single,
    parts: nat,
    halvings: nat,
)
    requires
        params.changepoint_threshold.is_finite(),
        Double::from_bits(ZERO).lt(params.changepoint_threshold),
        probability.is_finite(),
        !probability.parts().negative,
        halvings <= 20,
        parts <= pow2(halvings),
        probability.parts().magnitude(Format::Double) * pow2(halvings) == parts
            * params.changepoint_threshold.parts().magnitude(Format::Double),
        boost.is_finite(),
        !boost.parts().negative,
        boost.parts().magnitude(Format::Single) * pow2(halvings) == (pow2(halvings) + parts) * pow2(
            149,
        ),
    ensures
        update_threshold_pct(params, probability) == params.update_threshold_pct.over(boost).max(
            Single::from_bits(0x3f80_0000),
        ),
{
    let (f, g) = (Format::Single, Format::Double);
    let t = params.changepoint_threshold;
    let (h, w, v) = (pow2(halvings), pow2(149), pow2(1074));
    lemma_pow2_pos(halvings);
    lemma_pow2_pos(149);
    lemma_pow2_pos(1074);
    lemma2_to64();
    lemma_pow2_le(halvings, 20);
    // The fraction in binary64.
    let rest = (1074 - halvings) as nat;
    lemma_pow2_adds(halvings, rest);
    let wide = lemma_exact_code(g, parts, rest);
    let (mp, mt) = (probability.parts().magnitude(g), t.parts().magnitude(g));
    lemma_significand_bounds(g, t.parts().code as nat);
    assert(mp * v == (parts * pow2(rest)) * mt) by (nonlinear_arith)
        requires
            mp * h == parts * mt,
            v == h * pow2(rest),
    {
        assert(mp * v == (mp * h) * pow2(rest));
    }
    lemma_exact_quotient(probability, t, wide);
    let ratio = probability.over(t);
    let one = Double::from_bits(0x3ff0_0000_0000_0000);
    lemma_magnitude_of_one();
    assert(parts * pow2(rest) <= v) by (nonlinear_arith)
        requires
            parts <= h,
            v == h * pow2(rest),
    ;
    lemma_rank_orders_values(one, ratio);
    assert(ratio.clamp(Double::from_bits(ZERO), one) == ratio);
    // The fraction in binary32.
    let left = (149 - halvings) as nat;
    lemma_pow2_adds(halvings, left);
    let narrow = lemma_exact_code(f, parts, left);
    let confidence = ratio.to_single();
    assert((parts * pow2(rest)) * w == (parts * pow2(left)) * v) by (nonlinear_arith)
        requires
            w == h * pow2(left),
            v == h * pow2(rest),
    ;
    assert(confidence.parts().code == narrow && !confidence.parts().negative) by {
        reveal(Double::spec_to_single);
        lemma_nearest_exact(f, v, narrow);
    }
    // One and the fraction.
    lemma_magnitude_of_single_one();
    let unit = Single::from_bits(0x3f80_0000);
    let mb = boost.parts().magnitude(f);
    assert(mb == w + parts * pow2(left)) by (nonlinear_arith)
        requires
            mb * h == (h + parts) * w,
            w == h * pow2(left),
            h > 0,
    {
        assert((h + parts) * w == h * w + parts * (h * pow2(left)));
        assert(mb * h == (w + parts * pow2(left)) * h);
    }
    assert(unit.plus(confidence) == boost) by {
        reveal(Single::spec_plus);
        lemma_nearest_exact(f, 1, boost.parts().code as nat);
        lemma_significand_bounds(f, boost.parts().code as nat);
        lemma_significand_bounds(f, 0);
    }
}

/// Before an attempt is due nothing is updated. Once it is, an estimate that is off by at
/// least the change that is set is taken, however likely a changepoint is; one that is off
/// by less than half of that, or by less than one percent, is not. In between it depends on
/// how likely a changepoint is: from the threshold that is set on, half the change will do,
/// and where a changepoint is out of the question all of it is needed.
pub proof fn lemma_when_an_estimate_is_taken(
    state: VardiffState,
    hashrate: Single,
    shares_per_minute: Single,
    now: u64,
    answers: Answers,
)
    requires
        state.params.changepoint_threshold.is_finite(),
        Double::from_bits(ZERO).lt(state.params.changepoint_threshold),
        state.params.update_threshold_pct.is_finite(),
        Single::from_bits(0x3f80_0000).le(state.params.update_threshold_pct),
        answers.run_exps@[0].is_finite(),
        !answers.run_exps@[0].parts().negative,
    ensures
        ({
            let update = state.update_of(hashrate, shares_per_minute, now, answers);
            let estimate = state.estimated_hashrate(hashrate, shares_per_minute, now, answers);
            let change = change_pct(hashrate, estimate);
            let all = state.params.update_threshold_pct;
            let half = all.over(Single::from_bits(0x4000_0000)).max(Single::from_bits(0x3f80_0000));
            let likely = answers.run_exps@[0];
            let due = state.due(shares_per_minute, now) is Some;
            &&& !due ==> update is None
            &&& due && change.ge(all) ==> update == Some(estimate)
            &&& due && change.lt(half) ==> update is None
            &&& due && !change.is_nan() && likely.ge(state.params.changepoint_threshold) ==> (
            update == if change.ge(half) {
                Some(estimate)
            } else {
                None
            })
            &&& due && !change.is_nan() && likely == Double::from_bits(ZERO) ==> (update
                == if change.ge(all) {
                Some(estimate)
            } else {
                None
            })
        }),
{
    let params = state.params;
    let likely = answers.run_exps@[0];
    let zero = Double::from_bits(ZERO);
    let most = likely.max(params.changepoint_threshold);
    lemma_threshold_at_the_ends(params, zero);
    lemma_threshold_at_the_ends(params, likely);
    lemma_threshold_at_the_ends(params, most);
    lemma_changepoints_lower_the_threshold(params, zero, likely);
    lemma_changepoints_lower_the_threshold(params, likely, most);
}

/// What is set where nothing else is asked for.
pub proof fn lemma_standard_settings()
    ensures
        BayesParams::standard() == (BayesParams {
            min_interval_secs: 300,
            // an hour
            expected_break_interval_secs: Double::from_bits(0x40ac_2000_0000_0000),
            // 0.01
            prior_strength_minutes: Double::from_bits(0x3f84_7ae1_47ae_147b),
            max_run_lengths: 25,
            update_threshold_pct: Single::from_bits(0x41ca_cac1),
            changepoint_threshold: Double::from_bits(0x4022_3b5e_310d_bf05),
        }),
{
}

} // verus!
