use vstd::arithmetic::power2::pow2;
use vstd::prelude::*;

use crate::float::double::Double;
use crate::float::exact::{
    lemma_and_nothing, lemma_exact_quotient, lemma_less_zero, lemma_nothing_and, lemma_of_u64_exact,
    lemma_same_value, lemma_times_sign, lemma_whole_sum,
};
use crate::float::laws::{
    lemma_magnitude_of_one, lemma_minus_sign, lemma_plus_commutes, lemma_plus_is_number,
    lemma_plus_monotone, lemma_plus_zero, lemma_quotient_fits, lemma_times_commutes,
    lemma_times_one, lemma_zero_over, lemma_zero_times,
};
use crate::float::numbers::{ONE, ZERO};
use crate::float::series::{greatest_of, lowered_by};
use crate::vardiff::classic::{
    Answers, PoissonGammaBocpd, PredictionTerms, Runs, logsumexp_of, poisson_gamma_logpred,
    prediction_terms, rate_mean,
};

verus! {

/// How many runs are kept: one more than before, and no more than are to be considered.
/// A new run starts from the prior: its shape is the expected rate times the strength
/// that is set, and its rate that strength. Every other one has taken in the shares and
/// the minutes.
pub proof fn lemma_posteriors_grow(
    detector: PoissonGammaBocpd,
    shares: u32,
    exposure_minutes: Double,
    prior_mean: Double,
    answers: Answers,
)
    requires
        detector.wf(),
        detector.max_run_lengths >= 1,
        // 2^-52
        Double::from_bits(0x3cb0_0000_0000_0000).le(exposure_minutes),
        Double::from_bits(0x3cb0_0000_0000_0000).le(prior_mean),
    ensures
        ({
            let runs = detector.after(shares, exposure_minutes, prior_mean, answers);
            let before = detector.log_run_probs@.len();
            let kept = if before < detector.max_run_lengths {
                before + 1
            } else {
                detector.max_run_lengths as nat
            };
            &&& runs.log_run_probs.len() == kept
            &&& runs.shapes.len() == kept
            &&& runs.rates.len() == kept
            &&& runs.shapes[0] == prior_mean.times(detector.prior_strength_minutes)
            &&& runs.rates[0] == detector.prior_strength_minutes
            &&& forall|i: int|
                1 <= i < kept ==> #[trigger] runs.shapes[i] == detector.shapes@[i - 1].plus(
                    Double::of_u64(shares as u64),
                )
            &&& forall|i: int|
                1 <= i < kept ==> #[trigger] runs.rates[i] == detector.rates@[i - 1].plus(
                    exposure_minutes,
                )
        }),
{
}

/// Each run that has gone on has the logarithm that it had, with that of the shares under
/// it and that of going on, less one number; a new run has that of all runs having ended,
/// with that of the shares under each and that of ending, less the same number.
pub open spec fn judged_alike(
    detector: PoissonGammaBocpd,
    shares: u32,
    answers: Answers,
    probs: Seq<Double>,
    all: Double,
) -> bool {
    &&& forall|i: int|
        1 <= i <= detector.log_run_probs@.len() ==> #[trigger] probs[i]
            == detector.log_run_probs@[i - 1].plus(
            poisson_gamma_logpred(shares, detector.shapes@[i - 1], answers.predictions@[i - 1]),
        ).plus(answers.ln_growth).minus(all)
    &&& exists|ended: Seq<Double>|
        #[trigger] all_ended(detector, shares, answers, ended) && probs[0] == logsumexp_of(
            ended,
            answers.ln_changepoint,
        ).minus(all)
}

/// The logarithms of every run having ended, with that of the shares under it.
pub open spec fn all_ended(
    detector: PoissonGammaBocpd,
    shares: u32,
    answers: Answers,
    ended: Seq<Double>,
) -> bool {
    &&& ended.len() == detector.log_run_probs@.len()
    &&& forall|i: int|
        0 <= i < ended.len() ==> #[trigger] ended[i] == detector.log_run_probs@[i].plus(
            poisson_gamma_logpred(shares, detector.shapes@[i], answers.predictions@[i]),
        ).plus(answers.ln_hazard)
}

/// Every run that has gone on is judged alike, where none is dropped.
pub proof fn lemma_runs_are_judged_alike(
    detector: PoissonGammaBocpd,
    shares: u32,
    exposure_minutes: Double,
    prior_mean: Double,
    answers: Answers,
)
    requires
        detector.wf(),
        detector.log_run_probs@.len() < detector.max_run_lengths,
    ensures
        exists|all: Double|
            #[trigger] judged_alike(
                detector,
                shares,
                answers,
                detector.after(shares, exposure_minutes, prior_mean, answers).log_run_probs,
                all,
            ),
{
    let terms = detector@.unnormalised(shares, answers);
    let all = logsumexp_of(terms, answers.ln_normalising);
    let probs = detector.after(shares, exposure_minutes, prior_mean, answers).log_run_probs;
    assert forall|i: int| 1 <= i <= detector.log_run_probs@.len() implies #[trigger] probs[i]
        == detector.log_run_probs@[i - 1].plus(
        poisson_gamma_logpred(shares, detector.shapes@[i - 1], answers.predictions@[i - 1]),
    ).plus(answers.ln_growth).minus(all) by {
        assert(terms[i] == detector@.growth_terms(shares, answers)[i - 1]);
        assert(probs[i] == terms[i].minus(all));
    }
    let ended = detector@.changepoint_terms(shares, answers);
    assert(all_ended(detector, shares, answers, ended));
    assert(probs[0] == terms[0].minus(all));
    assert(judged_alike(detector, shares, answers, probs, all));
}

/// The mean share rate where one run is certain is that of its posterior: its shape over
/// its rate.
pub proof fn lemma_sure_run_gives_its_mean(probs: Seq<Double>, runs: Runs, n: nat, sure: nat)
    requires
        n <= probs.len(),
        n <= runs.shapes.len(),
        n <= runs.rates.len(),
        forall|i: int|
            0 <= i < n ==> #[trigger] probs[i] == Double::from_bits(
                if i == sure {
                    ONE
                } else {
                    ZERO
                },
            ),
        forall|i: int|
            0 <= i < n ==> (#[trigger] runs.shapes[i]).is_finite()
                && !runs.shapes[i].parts().negative,
        forall|i: int|
            0 <= i < n ==> (#[trigger] runs.rates[i]).is_finite() && runs.rates[i].rank() > 0,
        sure < n ==> runs.shapes[sure as int].over(runs.rates[sure as int]).is_finite(),
    ensures
        sure < n ==> rate_mean(probs, runs, n).rank() == runs.shapes[sure as int].over(
            runs.rates[sure as int],
        ).rank(),
        n <= sure ==> rate_mean(probs, runs, n).rank() == 0,
        rate_mean(probs, runs, n).is_finite(),
    decreases n,
{
    if n > 0 {
        let i = n - 1;
        lemma_sure_run_gives_its_mean(probs, runs, (n - 1) as nat, sure);
        let (shape, rate) = (runs.shapes[i], runs.rates[i]);
        let before = rate_mean(probs, runs, (n - 1) as nat);
        assert(probs[i] == Double::from_bits(if i == sure { ONE } else { ZERO }));
        let term = probs[i].times(shape).over(rate);
        if i == sure {
            lemma_times_commutes(probs[i], shape);
            lemma_times_one(shape);
            lemma_nothing_and(before, term);
        } else {
            lemma_zero_times(probs[i], shape);
            lemma_times_sign(probs[i], shape);
            lemma_zero_over(rate);
            lemma_and_nothing(before, term);
        }
    }
}

/// What each logarithm adds to a prediction: that of the shape with the shares counts
/// for it, those of the shape alone and of the factorial against it, and those of the
/// fractions as often as the shape and as the shares say.
pub proof fn lemma_what_a_prediction_adds_up(shares: u32, shape: Double, x: Double)
    requires
        x.is_finite(),
        shape.is_finite(),
        shape.times(x).is_finite(),
        Double::of_u64(shares as u64).times(x).is_finite(),
    ensures
        ({
            let none = PredictionTerms {
                shape_and_shares: Double::from_bits(ZERO),
                shape: Double::from_bits(ZERO),
                shares_and_one: Double::from_bits(ZERO),
                rate_fraction: Double::from_bits(ZERO),
                exposure_fraction: Double::from_bits(ZERO),
            };
            let count = Double::of_u64(shares as u64);
            &&& poisson_gamma_logpred(
                shares,
                shape,
                PredictionTerms { shape_and_shares: x, ..none },
            ).rank() == x.rank()
            &&& poisson_gamma_logpred(shares, shape, PredictionTerms { shape: x, ..none }).rank()
                == -x.rank()
            &&& poisson_gamma_logpred(
                shares,
                shape,
                PredictionTerms { shares_and_one: x, ..none },
            ).rank() == -x.rank()
            &&& poisson_gamma_logpred(
                shares,
                shape,
                PredictionTerms { rate_fraction: x, ..none },
            ).rank() == shape.times(x).rank()
            &&& poisson_gamma_logpred(
                shares,
                shape,
                PredictionTerms { exposure_fraction: x, ..none },
            ).rank() == count.times(x).rank()
        }),
{
    let zero = Double::from_bits(ZERO);
    let count = Double::of_u64(shares as u64);
    lemma_of_u64_exact(shares as u64);
    let (p, q) = (shape.times(zero), count.times(zero));
    lemma_times_commutes(shape, zero);
    lemma_times_commutes(count, zero);
    lemma_zero_times(zero, shape);
    lemma_zero_times(zero, count);
    lemma_less_zero(x, zero);
    lemma_less_zero(zero, zero);
    assert(x.neg().parts().code == x.parts().code);
    lemma_nothing_and(zero, x.neg());
    // x - 0 - 0 + 0 + 0
    let a = x.minus(zero);
    lemma_less_zero(a, zero);
    lemma_and_nothing(a.minus(zero), p);
    lemma_and_nothing(a.minus(zero).plus(p), q);
    // 0 - x - 0 + 0 + 0
    let b = zero.minus(x);
    lemma_less_zero(b, zero);
    lemma_and_nothing(b.minus(zero), p);
    lemma_and_nothing(b.minus(zero).plus(p), q);
    // 0 - 0 - x + 0 + 0
    let c = zero.minus(zero);
    lemma_nothing_and(c, x.neg());
    lemma_and_nothing(c.minus(x), p);
    lemma_and_nothing(c.minus(x).plus(p), q);
    // 0 - 0 - 0 + shape * x + 0, and 0 - 0 - 0 + 0 + shares * x
    let d = c.minus(zero);
    lemma_less_zero(c, zero);
    lemma_nothing_and(d, shape.times(x));
    lemma_and_nothing(d.plus(shape.times(x)), q);
    lemma_and_nothing(d, p);
    lemma_nothing_and(d.plus(p), count.times(x));
}

/// What the prediction of a run is made of: the shares count as they are, and the two
/// fractions are those of the posterior rate and of the exposure in their sum, whichever
/// is which.
pub proof fn lemma_what_a_prediction_is_made_of(shares: u32, a: Double, b: Double, shape: u64)
    requires
        // 2^-52
        Double::from_bits(0x3cb0_0000_0000_0000).le(a),
        Double::from_bits(0x3cb0_0000_0000_0000).le(b),
        a.is_finite(),
        b.is_finite(),
        shape + shares < 0x20_0000_0000_0000,
    ensures
        ({
            let terms = prediction_terms(shares, a, Double::of_u64(shape), b);
            let swapped = prediction_terms(shares, b, Double::of_u64(shape), a);
            &&& terms.shape == Double::of_u64(shape)
            &&& terms.shape_and_shares == Double::of_u64((shape + shares) as u64)
            &&& terms.shares_and_one == Double::of_u64((shares + 1) as u64)
            &&& terms.rate_fraction == b.over(b.plus(a))
            &&& terms.exposure_fraction == swapped.rate_fraction
            &&& terms.rate_fraction == swapped.exposure_fraction
        }),
{
    lemma_plus_commutes(a, b);
    lemma_whole_sum(shape, shares as u64);
    lemma_whole_sum(shares as u64, 1);
    lemma_of_u64_exact(1);
    lemma_magnitude_of_one();
    lemma_same_value(Double::of_u64(1), Double::from_bits(ONE));
}

/// After some whole number of the expected times between breaks the exponent of the
/// hazard is that number, negated.
pub proof fn lemma_hazard_follows_the_interval(
    detector: PoissonGammaBocpd,
    interval: u64,
    times: u64,
)
    requires
        detector.expected_break_interval_secs == Double::of_u64(interval),
        interval > 0,
        times > 0,
        interval * times < 0x20_0000_0000_0000,
    ensures
        detector.hazard_exponent((interval * times) as u64) == Double::of_u64(times).neg(),
{
    let elapsed = Double::of_u64((interval * times) as u64);
    let (i, t) = (Double::of_u64(interval), Double::of_u64(times));
    assert(interval <= interval * times && times <= interval * times) by (nonlinear_arith)
        requires
            interval > 0,
            times > 0,
    ;
    let w = pow2(1074);
    lemma_of_u64_exact((interval * times) as u64);
    lemma_of_u64_exact(interval);
    lemma_of_u64_exact(times);
    assert(((interval * times) * w) * w == (times * w) * (interval * w)) by (nonlinear_arith);
    lemma_exact_quotient(elapsed, i, t.parts().code as nat);
    lemma_negated_quotient(elapsed, i);
    lemma_same_value(elapsed.over(i), t);
}

/// A negated number over another is the negated quotient.
proof fn lemma_negated_quotient(a: Double, b: Double)
    requires
        a.is_finite(),
        b.is_finite(),
        b.parts().code != 0,
    ensures
        a.neg().over(b) == a.over(b).neg(),
{
    reveal(Double::spec_over);
    assert(a.neg().parts().code == a.parts().code && a.neg().parts().negative
        != a.parts().negative);
    lemma_quotient_fits(a.parts(), b.parts());
    lemma_quotient_fits(a.neg().parts(), b.parts());
}

/// The likelier it is that a run lasts, the less likely it is that it broke. That is
/// neither impossible nor certain: it lies between 1e-9 and one less than that. Between
/// the two the run breaks where it does not last.
pub proof fn lemma_hazard_is_what_does_not_last(shorter: Double, longer: Double)
    requires
        shorter.is_finite(),
        longer.is_finite(),
        shorter.le(longer),
    ensures
        ({
            let (least, most) = (
                Double::from_bits(0x3e11_2e0b_e826_d695),
                Double::from_bits(0x3fef_ffff_ff76_8fa1),
            );
            let (often, rarely) = (
                PoissonGammaBocpd::hazard(shorter),
                PoissonGammaBocpd::hazard(longer),
            );
            &&& rarely.le(often)
            &&& least.le(rarely) && often.le(most)
            &&& least.lt(often) && often.lt(most) ==> often == Double::from_bits(ONE).minus(shorter)
            &&& PoissonGammaBocpd::growth(shorter) == Double::from_bits(ONE).minus(often)
        }),
{
    let one = Double::from_bits(ONE);
    assert(shorter.neg().parts().code == shorter.parts().code);
    assert(longer.neg().parts().code == longer.parts().code);
    lemma_plus_is_number(one, shorter.neg());
    lemma_plus_is_number(one, longer.neg());
    lemma_plus_monotone(one, longer.neg(), shorter.neg());
}

/// The greatest of some numbers is one of them, and none is greater.
pub proof fn lemma_greatest(values: Seq<Double>)
    requires
        values.len() > 0,
        forall|i: int| 0 <= i < values.len() ==> !(#[trigger] values[i]).is_nan(),
    ensures
        !greatest_of(values).is_nan(),
        forall|i: int| 0 <= i < values.len() ==> (#[trigger] values[i]).le(greatest_of(values)),
        exists|i: int|
            0 <= i < values.len() && (#[trigger] values[i]).rank() == greatest_of(values).rank(),
    decreases values.len(),
{
    reveal_with_fuel(greatest_of, 2);
    let rest = values.drop_last();
    let last = values.len() - 1;
    assert forall|i: int| 0 <= i < rest.len() implies !(#[trigger] rest[i]).is_nan() by {
        assert(rest[i] == values[i]);
    }
    assert(!values[last].is_nan());
    if rest.len() > 0 {
        lemma_greatest(rest);
        let j = choose|i: int|
            0 <= i < rest.len() && (#[trigger] rest[i]).rank() == greatest_of(rest).rank();
        assert(values[j] == rest[j]);
        assert forall|i: int| 0 <= i < values.len() implies (#[trigger] values[i]).le(
            greatest_of(values),
        ) by {
            if i < last {
                assert(values[i] == rest[i]);
            }
        }
        if greatest_of(rest).lt(values[last]) {
            assert(values[last].rank() == greatest_of(values).rank());
        } else {
            assert(values[j].rank() == greatest_of(values).rank());
        }
    } else {
        assert(rest =~= Seq::<Double>::empty());
        assert(values[last].rank() == greatest_of(values).rank());
    }
}

/// What `log(sum(exp(values)))` is made of: the greatest value, and exponents that are
/// not above zero, of which that of the greatest value is zero.
pub proof fn lemma_how_exponentials_are_added_up(values: Seq<Double>, ln_sum: Double)
    requires
        values.len() > 0,
        forall|i: int| 0 <= i < values.len() ==> (#[trigger] values[i]).is_finite(),
        ln_sum.is_finite(),
    ensures
        logsumexp_of(values, ln_sum) == greatest_of(values).plus(ln_sum),
        ln_sum.rank() >= 0 ==> greatest_of(values).le(logsumexp_of(values, ln_sum)),
        forall|i: int|
            0 <= i < values.len() ==> (#[trigger] lowered_by(values, greatest_of(values))[i]).rank()
                <= 0,
        exists|i: int|
            0 <= i < values.len() && (#[trigger] lowered_by(values, greatest_of(values))[i]).rank()
                == 0,
{
    let most = greatest_of(values);
    lemma_greatest(values);
    let j = choose|i: int| 0 <= i < values.len() && (#[trigger] values[i]).rank() == most.rank();
    assert(most.is_finite()) by {
        assert(values[j].is_finite());
    }
    let exponents = lowered_by(values, most);
    assert forall|i: int| 0 <= i < values.len() implies (#[trigger] exponents[i]).rank() <= 0 by {
        assert(values[i].le(most) && values[i].is_finite());
        lemma_minus_sign(values[i], most);
        assert(exponents[i] == values[i].minus(most));
    }
    assert(exponents[j].rank() == 0) by {
        lemma_minus_sign(values[j], most);
        lemma_minus_sign(most, values[j]);
        assert(exponents[j] == values[j].minus(most));
    }
    if ln_sum.rank() >= 0 {
        let zero = Double::from_bits(ZERO);
        lemma_plus_is_number(most, ln_sum);
        lemma_plus_is_number(most, zero);
        lemma_plus_monotone(most, zero, ln_sum);
        lemma_plus_zero(most);
    }
}

/// Where runs are dropped the shortest ones stay, and each loses the same number.
pub proof fn lemma_dropping_keeps_the_shortest(runs: Runs, max: nat, ln_truncation: Double)
    requires
        runs.aligned(),
        1 <= max < runs.log_run_probs.len(),
    ensures
        ({
            let kept = runs.truncated(max, ln_truncation);
            &&& kept.log_run_probs.len() == max
            &&& kept.shapes == runs.shapes.take(max as int)
            &&& kept.rates == runs.rates.take(max as int)
            &&& exists|all: Double|
                #[trigger] lowered_by(runs.log_run_probs.take(max as int), all)
                    == kept.log_run_probs
        }),
{
    let kept = runs.log_run_probs.take(max as int);
    let all = logsumexp_of(kept, ln_truncation);
    assert(lowered_by(kept, all) == runs.truncated(max, ln_truncation).log_run_probs);
}

} // verus!
