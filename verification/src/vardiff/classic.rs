use vstd::prelude::*;

use crate::float::double::Double;
use crate::float::numbers::{CENTI_1, NANO_1, ONE, SIXTY, ZERO};
use crate::float::series::{greatest, greatest_of, lowered, lowered_by};
use crate::float::single::Single;

verus! {

/// 1.0 in binary32
pub const DEFAULT_MIN_HASHRATE: u32 = 0x3f80_0000;

pub const BAYES_MIN_INTERVAL_SECS: u64 = 300;

/// 3600.0
pub const BAYES_EXPECTED_BREAK_INTERVAL_SECS: u64 = 0x40ac_2000_0000_0000;

/// 0.01
pub const BAYES_PRIOR_STRENGTH_MINUTES: u64 = CENTI_1;

pub const BAYES_MAX_RUN_LENGTHS: usize = 25;

/// 25.349 in binary32
pub const BAYES_UPDATE_THRESHOLD_PCT: u32 = 0x41ca_cac1;

/// 9.115953
pub const BAYES_CHANGEPOINT_THRESHOLD: u64 = 0x4022_3b5e_310d_bf05;

pub const SECS_PER_MINUTE: u64 = SIXTY;

/// The distance from 1.0 to the next binary64 number
pub const EPSILON: u64 = 0x3cb0_0000_0000_0000;

/// 1e-9 and 1.0 - 1e-9, the ends of the hazards that are used
pub const MIN_HAZARD: u64 = NANO_1;

pub const MAX_HAZARD: u64 = 0x3fef_ffff_ff76_8fa1;

/// Settings of the changepoint detector.
#[derive(Clone, Copy, Debug)]
pub struct BayesParams {
    pub min_interval_secs: u64,
    pub expected_break_interval_secs: Double,
    pub prior_strength_minutes: Double,
    pub max_run_lengths: usize,
    pub update_threshold_pct: Single,
    pub changepoint_threshold: Double,
}

impl BayesParams {
    pub open spec fn standard() -> BayesParams {
        BayesParams {
            min_interval_secs: BAYES_MIN_INTERVAL_SECS,
            expected_break_interval_secs: Double::from_bits(BAYES_EXPECTED_BREAK_INTERVAL_SECS),
            prior_strength_minutes: Double::from_bits(BAYES_PRIOR_STRENGTH_MINUTES),
            max_run_lengths: BAYES_MAX_RUN_LENGTHS,
            update_threshold_pct: Single::from_bits(BAYES_UPDATE_THRESHOLD_PCT),
            changepoint_threshold: Double::from_bits(BAYES_CHANGEPOINT_THRESHOLD),
        }
    }
}

impl Default for BayesParams {
    fn default() -> (r: Self)
        ensures
            r == BayesParams::standard(),
    {
        BayesParams {
            min_interval_secs: BAYES_MIN_INTERVAL_SECS,
            expected_break_interval_secs: Double::from_bits(BAYES_EXPECTED_BREAK_INTERVAL_SECS),
            prior_strength_minutes: Double::from_bits(BAYES_PRIOR_STRENGTH_MINUTES),
            max_run_lengths: BAYES_MAX_RUN_LENGTHS,
            update_threshold_pct: Single::from_bits(BAYES_UPDATE_THRESHOLD_PCT),
            changepoint_threshold: Double::from_bits(BAYES_CHANGEPOINT_THRESHOLD),
        }
    }
}

/// The numbers whose logarithms the predictive probability of a run is made of:
/// of the first three the logarithm of the gamma function, of the other two the
/// natural logarithm.
#[derive(Clone, Copy, Debug)]
pub struct PredictionTerms {
    pub shape_and_shares: Double,
    pub shape: Double,
    pub shares_and_one: Double,
    pub rate_fraction: Double,
    pub exposure_fraction: Double,
}

/// The logarithms and exponentials that one observation is computed with. Each
/// is taken of a number that a method of `PoissonGammaBocpd` gives.
#[derive(Debug)]
pub struct Answers {
    /// Logarithm of `hazard`.
    pub ln_hazard: Double,
    /// Logarithm of `growth`.
    pub ln_growth: Double,
    /// Logarithms of `prediction_terms`, for each run.
    pub predictions: Vec<PredictionTerms>,
    /// Logarithm of the total of the exponentials of `changepoint_exponents`.
    pub ln_changepoint: Double,
    /// Logarithm of the total of the exponentials of `normalising_exponents`.
    pub ln_normalising: Double,
    /// Logarithm of the total of the exponentials of `truncation_exponents`.
    pub ln_truncation: Double,
    /// Exponentials of `run_exponents`.
    pub run_exps: Vec<Double>,
}

/// What one observation says.
#[derive(Clone, Copy, Debug)]
pub struct BocpdObservation {
    pub posterior_share_rate_per_min: Double,
    pub changepoint_probability: Double,
    pub reset_run_probability: Double,
    pub active_run_lengths: usize,
}

/// `log(sum(exp(values)))`, where `ln_sum` is the logarithm of the sum of the
/// exponentials of the values below the greatest one.
pub open spec fn logsumexp_of(values: Seq<Double>, ln_sum: Double) -> Double {
    let max = greatest_of(values);
    if max.is_finite() {
        max.plus(ln_sum)
    } else {
        max
    }
}

/// `log(sum(exp(values)))`, where `ln_sum` is the logarithm of the sum of the
/// exponentials of `logsumexp_exponents`.
pub fn logsumexp(values: &Vec<Double>, ln_sum: Double) -> (r: Double)
    ensures
        r == logsumexp_of(values@, ln_sum),
{
    let max_value = greatest(values);
    if !max_value.is_finite() {
        return max_value;
    }
    max_value.plus(ln_sum)
}

/// The exponents whose exponentials `logsumexp` adds up: how far each value is
/// from the greatest one.
pub fn logsumexp_exponents(values: &Vec<Double>) -> (r: Vec<Double>)
    ensures
        r@ == lowered_by(values@, greatest_of(values@)),
{
    let max_value = greatest(values);
    lowered(values, max_value)
}

pub open spec fn spec_prediction_terms(
    shares: u32,
    exposure_minutes: Double,
    shape: Double,
    rate: Double,
) -> PredictionTerms {
    let x = Double::of_u64(shares as u64);
    let exposure = exposure_minutes.max(Double::from_bits(EPSILON));
    let both = rate.plus(exposure);
    PredictionTerms {
        shape_and_shares: shape.plus(x),
        shape,
        shares_and_one: x.plus(Double::from_bits(ONE)),
        rate_fraction: rate.over(both),
        exposure_fraction: exposure.over(both),
    }
}

/// The numbers whose logarithms `poisson_gamma_logpred` is to be given.
#[verifier::when_used_as_spec(spec_prediction_terms)]
pub fn prediction_terms(
    shares: u32,
    exposure_minutes: Double,
    shape: Double,
    rate: Double,
) -> (r: PredictionTerms)
    ensures
        r == prediction_terms(shares, exposure_minutes, shape, rate),
{
    let x = Double::of_u64(shares as u64);
    let exposure = exposure_minutes.max(Double::from_bits(EPSILON));
    let both = rate.plus(exposure);
    PredictionTerms {
        shape_and_shares: shape.plus(x),
        shape,
        shares_and_one: x.plus(Double::from_bits(ONE)),
        rate_fraction: rate.over(both),
        exposure_fraction: exposure.over(both),
    }
}

pub open spec fn spec_poisson_gamma_logpred(
    shares: u32,
    shape: Double,
    logs: PredictionTerms,
) -> Double {
    let x = Double::of_u64(shares as u64);
    logs.shape_and_shares.minus(logs.shape).minus(logs.shares_and_one).plus(
        shape.times(logs.rate_fraction),
    ).plus(x.times(logs.exposure_fraction))
}

/// Logarithm of the probability of `shares` under a Poisson rate that is gamma
/// distributed with the given shape, from the logarithms of `prediction_terms`.
#[verifier::when_used_as_spec(spec_poisson_gamma_logpred)]
pub fn poisson_gamma_logpred(shares: u32, shape: Double, logs: PredictionTerms) -> (r: Double)
    ensures
        r == poisson_gamma_logpred(shares, shape, logs),
{
    let x = Double::of_u64(shares as u64);
    logs.shape_and_shares.minus(logs.shape).minus(logs.shares_and_one).plus(
        shape.times(logs.rate_fraction),
    ).plus(x.times(logs.exposure_fraction))
}

/// What a detector holds of the run lengths that it considers: the logarithm of
/// the probability of each, and the gamma posterior of the share rate under it.
pub ghost struct Runs {
    pub log_run_probs: Seq<Double>,
    pub shapes: Seq<Double>,
    pub rates: Seq<Double>,
}

impl Runs {
    /// There is a run, and each has its posterior.
    pub open spec fn aligned(self) -> bool {
        &&& self.log_run_probs.len() >= 1
        &&& self.shapes.len() == self.log_run_probs.len()
        &&& self.rates.len() == self.log_run_probs.len()
    }

    /// Joint logarithm of run `i`, of the observed shares under it, and of what
    /// then happened to the run.
    pub open spec fn joint(self, shares: u32, answers: Answers, event: Double, i: int) -> Double {
        self.log_run_probs[i].plus(
            poisson_gamma_logpred(shares, self.shapes[i], answers.predictions@[i]),
        ).plus(event)
    }

    /// The ways in which every run may just have ended.
    pub open spec fn changepoint_terms(self, shares: u32, answers: Answers) -> Seq<Double> {
        Seq::new(
            self.log_run_probs.len(),
            |i: int| self.joint(shares, answers, answers.ln_hazard, i),
        )
    }

    /// The ways in which every run may have gone on.
    pub open spec fn growth_terms(self, shares: u32, answers: Answers) -> Seq<Double> {
        Seq::new(
            self.log_run_probs.len(),
            |i: int| self.joint(shares, answers, answers.ln_growth, i),
        )
    }

    /// Logarithms of the run lengths after the observation, before normalising:
    /// a new run, then every old one grown by one.
    pub open spec fn unnormalised(self, shares: u32, answers: Answers) -> Seq<Double> {
        seq![logsumexp_of(self.changepoint_terms(shares, answers), answers.ln_changepoint)]
            + self.growth_terms(shares, answers)
    }

    pub open spec fn normalised(self, shares: u32, answers: Answers) -> Seq<Double> {
        let terms = self.unnormalised(shares, answers);
        lowered_by(terms, logsumexp_of(terms, answers.ln_normalising))
    }

    /// The runs after an observation.
    pub open spec fn grown(
        self,
        shares: u32,
        exposure_minutes: Double,
        prior_shape: Double,
        prior_rate: Double,
        answers: Answers,
    ) -> Runs {
        let exposure = exposure_minutes.max(Double::from_bits(EPSILON));
        Runs {
            log_run_probs: self.normalised(shares, answers),
            shapes: seq![prior_shape] + self.shapes.map_values(
                |v: Double| v.plus(Double::of_u64(shares as u64)),
            ),
            rates: seq![prior_rate] + self.rates.map_values(|v: Double| v.plus(exposure)),
        }
    }

    /// No more than `max` runs, the shortest ones, with their probabilities
    /// normalised again where some were dropped.
    pub open spec fn truncated(self, max: nat, ln_truncation: Double) -> Runs {
        if self.log_run_probs.len() <= max {
            self
        } else {
            let kept = self.log_run_probs.take(max as int);
            Runs {
                log_run_probs: lowered_by(kept, logsumexp_of(kept, ln_truncation)),
                shapes: self.shapes.take(max as int),
                rates: self.rates.take(max as int),
            }
        }
    }
}

/// Mean of the share rate over the first `n` runs, weighted with their
/// probabilities.
pub open spec fn rate_mean(probs: Seq<Double>, runs: Runs, n: nat) -> Double
    decreases n,
{
    if n == 0 {
        Double::from_bits(ZERO)
    } else {
        let i = n - 1;
        rate_mean(probs, runs, (n - 1) as nat).plus(
            probs[i].times(runs.shapes[i]).over(runs.rates[i]),
        )
    }
}

/// Bayesian online changepoint detection over a Poisson share rate with a gamma
/// prior.
#[derive(Clone, Debug)]
pub struct PoissonGammaBocpd {
    pub prior_strength_minutes: Double,
    pub expected_break_interval_secs: Double,
    pub max_run_lengths: usize,
    pub log_run_probs: Vec<Double>,
    pub shapes: Vec<Double>,
    pub rates: Vec<Double>,
}

impl View for PoissonGammaBocpd {
    type V = Runs;

    open spec fn view(&self) -> Runs {
        Runs {
            log_run_probs: self.log_run_probs@,
            shapes: self.shapes@,
            rates: self.rates@,
        }
    }
}

impl PoissonGammaBocpd {
    pub open spec fn wf(self) -> bool {
        self@.aligned()
    }

    /// The other has the same settings.
    pub open spec fn same_settings(self, other: PoissonGammaBocpd) -> bool {
        &&& self.prior_strength_minutes == other.prior_strength_minutes
        &&& self.expected_break_interval_secs == other.expected_break_interval_secs
        &&& self.max_run_lengths == other.max_run_lengths
    }

    /// Shape of the prior of a new run.
    pub open spec fn prior_shape(mean: Double, strength_minutes: Double) -> Double {
        mean.max(Double::from_bits(EPSILON)).times(strength_minutes)
    }

    /// A detector that is certain of a single new run.
    pub fn new(prior_mean_share_rate_per_min: Double, params: &BayesParams) -> (r: Self)
        ensures
            r.wf(),
            r.prior_strength_minutes == params.prior_strength_minutes,
            r.expected_break_interval_secs == params.expected_break_interval_secs,
            r.max_run_lengths == params.max_run_lengths,
            r.log_run_probs@ == seq![Double::from_bits(ZERO)],
            r.shapes@ == seq![
                Self::prior_shape(prior_mean_share_rate_per_min, params.prior_strength_minutes),
            ],
            r.rates@ == seq![params.prior_strength_minutes],
    {
        let prior_mean = prior_mean_share_rate_per_min.max(Double::from_bits(EPSILON));
        let prior_shape = prior_mean.times(params.prior_strength_minutes);
        let prior_rate = params.prior_strength_minutes;
        let mut log_run_probs: Vec<Double> = Vec::new();
        let mut shapes: Vec<Double> = Vec::new();
        let mut rates: Vec<Double> = Vec::new();
        log_run_probs.push(Double::from_bits(ZERO));
        shapes.push(prior_shape);
        rates.push(prior_rate);
        PoissonGammaBocpd {
            prior_strength_minutes: params.prior_strength_minutes,
            expected_break_interval_secs: params.expected_break_interval_secs,
            max_run_lengths: params.max_run_lengths,
            log_run_probs,
            shapes,
            rates,
        }
    }

    /// How much of the expected time between breaks has gone by, negated.
    pub open spec fn spec_hazard_exponent(&self, elapsed_secs: u64) -> Double {
        Double::of_u64(elapsed_secs).neg().over(self.expected_break_interval_secs)
    }

    /// The exponent whose exponential `hazard` is to be given: how much of the
    /// expected time between breaks has gone by, negated.
    #[verifier::when_used_as_spec(spec_hazard_exponent)]
    pub fn hazard_exponent(&self, elapsed_secs: u64) -> (r: Double)
        ensures
            r == self.hazard_exponent(elapsed_secs),
            r == Double::of_u64(elapsed_secs).neg().over(self.expected_break_interval_secs),
    {
        Double::of_u64(elapsed_secs).neg().over(self.expected_break_interval_secs)
    }

    pub open spec fn spec_hazard(exp: Double) -> Double {
        Double::from_bits(ONE).minus(exp).clamp(
            Double::from_bits(MIN_HAZARD),
            Double::from_bits(MAX_HAZARD),
        )
    }

    /// Probability that the run broke, where `exp` is the exponential of
    /// `hazard_exponent`. It is neither impossible nor certain.
    #[verifier::when_used_as_spec(spec_hazard)]
    pub fn hazard(exp: Double) -> (r: Double)
        ensures
            r == Self::hazard(exp),
            !r.is_nan() ==> Double::from_bits(MIN_HAZARD).le(r) && r.le(
                Double::from_bits(MAX_HAZARD),
            ),
    {
        Double::from_bits(ONE).minus(exp).clamp(
            Double::from_bits(MIN_HAZARD),
            Double::from_bits(MAX_HAZARD),
        )
    }

    /// Probability that the run went on.
    pub open spec fn spec_growth(exp: Double) -> Double {
        Double::from_bits(ONE).minus(Self::hazard(exp))
    }

    /// Probability that the run went on.
    #[verifier::when_used_as_spec(spec_growth)]
    pub fn growth(exp: Double) -> (r: Double)
        ensures
            r == Self::growth(exp),
            r == Double::from_bits(ONE).minus(Self::hazard(exp)),
    {
        Double::from_bits(ONE).minus(Self::hazard(exp))
    }

    /// The numbers whose logarithms the prediction of each run is made of.
    pub fn prediction_terms(&self, shares: u32, exposure_minutes: Double) -> (r: Vec<
        PredictionTerms,
    >)
        requires
            self.wf(),
        ensures
            r@ == Seq::new(
                self.log_run_probs@.len(),
                |i: int|
                    prediction_terms(
                        shares,
                        exposure_minutes.max(Double::from_bits(EPSILON)),
                        self.shapes@[i],
                        self.rates@[i],
                    ),
            ),
    {
        let exposure = exposure_minutes.max(Double::from_bits(EPSILON));
        let mut out: Vec<PredictionTerms> = Vec::new();
        let mut i: usize = 0;
        while i < self.log_run_probs.len()
            invariant
                self.wf(),
                i <= self.log_run_probs.len(),
                exposure == exposure_minutes.max(Double::from_bits(EPSILON)),
                out@ == Seq::new(
                    i as nat,
                    |j: int|
                        prediction_terms(shares, exposure, self.shapes@[j], self.rates@[j]),
                ),
            decreases self.log_run_probs.len() - i,
        {
            out.push(prediction_terms(shares, exposure, self.shapes[i], self.rates[i]));
            i = i + 1;
        }
        out
    }

    /// Joint logarithms of every run, of the observed shares, and of an event.
    fn joint_terms(&self, shares: u32, answers: &Answers, event: Double) -> (r: Vec<Double>)
        requires
            self.wf(),
            answers.predictions@.len() == self.log_run_probs@.len(),
        ensures
            r@ == Seq::new(
                self.log_run_probs@.len(),
                |i: int| self@.joint(shares, *answers, event, i),
            ),
    {
        let mut out: Vec<Double> = Vec::new();
        let mut i: usize = 0;
        while i < self.log_run_probs.len()
            invariant
                self.wf(),
                answers.predictions@.len() == self.log_run_probs@.len(),
                i <= self.log_run_probs.len(),
                out@ == Seq::new(i as nat, |j: int| self@.joint(shares, *answers, event, j)),
            decreases self.log_run_probs.len() - i,
        {
            let log_pred = poisson_gamma_logpred(shares, self.shapes[i], answers.predictions[i]);
            out.push(self.log_run_probs[i].plus(log_pred).plus(event));
            i = i + 1;
        }
        out
    }

    /// The exponents whose exponentials add up to the probability that a run ended;
    /// `ln_hazard` and `predictions` of the answers are looked at.
    pub fn changepoint_exponents(&self, shares: u32, answers: &Answers) -> (r: Vec<Double>)
        requires
            self.wf(),
            answers.predictions@.len() == self.log_run_probs@.len(),
        ensures
            r@ == lowered_by(
                self@.changepoint_terms(shares, *answers),
                greatest_of(self@.changepoint_terms(shares, *answers)),
            ),
    {
        let terms = self.joint_terms(shares, answers, answers.ln_hazard);
        proof {
            assert(terms@ =~= self@.changepoint_terms(shares, *answers));
        }
        logsumexp_exponents(&terms)
    }

    /// Logarithms of the run lengths after the observation, before normalising.
    fn unnormalised(&self, shares: u32, answers: &Answers) -> (r: Vec<Double>)
        requires
            self.wf(),
            answers.predictions@.len() == self.log_run_probs@.len(),
        ensures
            r@ == self@.unnormalised(shares, *answers),
    {
        let changepoint_terms = self.joint_terms(shares, answers, answers.ln_hazard);
        proof {
            assert(changepoint_terms@ =~= self@.changepoint_terms(shares, *answers));
        }
        let mut growth_terms = self.joint_terms(shares, answers, answers.ln_growth);
        proof {
            assert(growth_terms@ =~= self@.growth_terms(shares, *answers));
        }
        let mut out: Vec<Double> = Vec::new();
        out.push(logsumexp(&changepoint_terms, answers.ln_changepoint));
        out.append(&mut growth_terms);
        out
    }

    /// The exponents whose exponentials add up to what normalises the runs;
    /// `ln_growth` and `ln_changepoint` of the answers are looked at too.
    pub fn normalising_exponents(&self, shares: u32, answers: &Answers) -> (r: Vec<Double>)
        requires
            self.wf(),
            answers.predictions@.len() == self.log_run_probs@.len(),
        ensures
            r@ == lowered_by(
                self@.unnormalised(shares, *answers),
                greatest_of(self@.unnormalised(shares, *answers)),
            ),
    {
        let terms = self.unnormalised(shares, answers);
        logsumexp_exponents(&terms)
    }

    /// Logarithms of the run lengths after the observation.
    fn normalised(&self, shares: u32, answers: &Answers) -> (r: Vec<Double>)
        requires
            self.wf(),
            answers.predictions@.len() == self.log_run_probs@.len(),
        ensures
            r@ == self@.normalised(shares, *answers),
    {
        let terms = self.unnormalised(shares, answers);
        let log_norm = logsumexp(&terms, answers.ln_normalising);
        lowered(&terms, log_norm)
    }

    /// The exponents whose exponentials add up to what normalises the runs that are
    /// kept, none where no run is dropped; `ln_normalising` of the answers is looked
    /// at too.
    pub fn truncation_exponents(&self, shares: u32, answers: &Answers) -> (r: Vec<Double>)
        requires
            self.wf(),
            answers.predictions@.len() == self.log_run_probs@.len(),
        ensures
            ({
                let grown = self@.normalised(shares, *answers);
                let kept = grown.take(self.max_run_lengths as int);
                r@ == if grown.len() <= self.max_run_lengths {
                    Seq::<Double>::empty()
                } else {
                    lowered_by(kept, greatest_of(kept))
                }
            }),
    {
        let mut terms = self.normalised(shares, answers);
        if terms.len() <= self.max_run_lengths {
            return Vec::new();
        }
        terms.truncate(self.max_run_lengths);
        logsumexp_exponents(&terms)
    }

    /// Drops the longest runs beyond the maximum, and normalises what is left.
    fn truncate(&mut self, ln_truncation: Double)
        requires
            old(self).wf(),
            old(self).max_run_lengths >= 1,
        ensures
            final(self)@ == old(self)@.truncated(
                old(self).max_run_lengths as nat,
                ln_truncation,
            ),
            final(self).same_settings(*old(self)),
            final(self).wf(),
            final(self).log_run_probs@.len() <= final(self).max_run_lengths,
    {
        if self.log_run_probs.len() <= self.max_run_lengths {
            return;
        }
        let max = self.max_run_lengths;
        self.log_run_probs.truncate(max);
        self.shapes.truncate(max);
        self.rates.truncate(max);
        proof {
            let was = old(self)@;
            assert(self.log_run_probs@ =~= was.log_run_probs.take(max as int));
            assert(self.shapes@ =~= was.shapes.take(max as int));
            assert(self.rates@ =~= was.rates.take(max as int));
        }
        let log_norm = logsumexp(&self.log_run_probs, ln_truncation);
        self.log_run_probs = lowered(&self.log_run_probs, log_norm);
    }

    /// Takes in the shares of an interval, but for the posterior.
    fn grow(
        &mut self,
        shares: u32,
        exposure_minutes: Double,
        prior_mean_share_rate_per_min: Double,
        answers: &Answers,
    )
        requires
            old(self).wf(),
            old(self).max_run_lengths >= 1,
            answers.predictions@.len() == old(self).log_run_probs@.len(),
        ensures
            final(self)@ == old(self).after(
                shares,
                exposure_minutes,
                prior_mean_share_rate_per_min,
                *answers,
            ),
            final(self).same_settings(*old(self)),
            final(self).wf(),
            final(self).log_run_probs@.len() <= final(self).max_run_lengths,
    {
        let exposure = exposure_minutes.max(Double::from_bits(EPSILON));
        let prior_mean = prior_mean_share_rate_per_min.max(Double::from_bits(EPSILON));
        let prior_shape = prior_mean.times(self.prior_strength_minutes);
        let prior_rate = self.prior_strength_minutes;
        let x = Double::of_u64(shares as u64);
        let n = self.log_run_probs.len();
        let next_log_run_probs = self.normalised(shares, answers);
        let mut next_shapes: Vec<Double> = Vec::new();
        let mut next_rates: Vec<Double> = Vec::new();
        next_shapes.push(prior_shape);
        next_rates.push(prior_rate);
        let mut i: usize = 0;
        while i < n
            invariant
                self.wf(),
                n == self.log_run_probs@.len(),
                i <= n,
                next_shapes@ == seq![prior_shape] + self.shapes@.take(i as int).map_values(
                    |v: Double| v.plus(x),
                ),
                next_rates@ == seq![prior_rate] + self.rates@.take(i as int).map_values(
                    |v: Double| v.plus(exposure),
                ),
            decreases n - i,
        {
            next_shapes.push(self.shapes[i].plus(x));
            next_rates.push(self.rates[i].plus(exposure));
            proof {
                assert(self.shapes@.take(i + 1).map_values(|v: Double| v.plus(x))
                    =~= self.shapes@.take(i as int).map_values(|v: Double| v.plus(x)).push(
                    self.shapes@[i as int].plus(x),
                ));
                assert(self.rates@.take(i + 1).map_values(|v: Double| v.plus(exposure))
                    =~= self.rates@.take(i as int).map_values(|v: Double| v.plus(exposure)).push(
                    self.rates@[i as int].plus(exposure),
                ));
            }
            i = i + 1;
        }
        proof {
            assert(self.shapes@.take(n as int) =~= self.shapes@);
            assert(self.rates@.take(n as int) =~= self.rates@);
            assert(next_shapes@ =~= seq![prior_shape] + self.shapes@.map_values(
                |v: Double| v.plus(Double::of_u64(shares as u64)),
            ));
        }
        self.log_run_probs = next_log_run_probs;
        self.shapes = next_shapes;
        self.rates = next_rates;
        self.truncate(answers.ln_truncation);
    }

    /// How many runs there are after an observation: one more, up to the maximum.
    pub open spec fn runs_kept(self) -> nat {
        if self.log_run_probs@.len() < self.max_run_lengths {
            self.log_run_probs@.len() + 1
        } else {
            self.max_run_lengths as nat
        }
    }

    /// The runs after an observation.
    pub open spec fn after(
        self,
        shares: u32,
        exposure_minutes: Double,
        prior_mean_share_rate_per_min: Double,
        answers: Answers,
    ) -> Runs {
        self@.grown(
            shares,
            exposure_minutes,
            Self::prior_shape(prior_mean_share_rate_per_min, self.prior_strength_minutes),
            self.prior_strength_minutes,
            answers,
        ).truncated(self.max_run_lengths as nat, answers.ln_truncation)
    }

    /// The logarithms of the run probabilities after the observation, whose
    /// exponentials are the `run_exps` of the answers.
    pub fn run_exponents(
        &self,
        shares: u32,
        exposure_minutes: Double,
        prior_mean_share_rate_per_min: Double,
        answers: &Answers,
    ) -> (r: Vec<Double>)
        requires
            self.wf(),
            self.max_run_lengths >= 1,
            answers.predictions@.len() == self.log_run_probs@.len(),
        ensures
            r@ == self.after(
                shares,
                exposure_minutes,
                prior_mean_share_rate_per_min,
                *answers,
            ).log_run_probs,
            r@.len() == self.runs_kept(),
    {
        let mut terms = self.normalised(shares, answers);
        if terms.len() <= self.max_run_lengths {
            return terms;
        }
        terms.truncate(self.max_run_lengths);
        proof {
            assert(terms@ =~= self@.normalised(shares, *answers).take(self.max_run_lengths as int));
        }
        let log_norm = logsumexp(&terms, answers.ln_truncation);
        lowered(&terms, log_norm)
    }

    /// Mean of the share rate, where `probs` are the exponentials of the logarithms
    /// of the run probabilities.
    fn posterior_rate_mean(&self, probs: &Vec<Double>) -> (r: Double)
        requires
            self.wf(),
            probs@.len() == self.log_run_probs@.len(),
        ensures
            r == rate_mean(probs@, self@, self.log_run_probs@.len()),
    {
        let mut mean = Double::from_bits(ZERO);
        let mut i: usize = 0;
        while i < self.log_run_probs.len()
            invariant
                self.wf(),
                probs@.len() == self.log_run_probs@.len(),
                i <= self.log_run_probs.len(),
                mean == rate_mean(probs@, self@, i as nat),
            decreases self.log_run_probs.len() - i,
        {
            mean = mean.plus(probs[i].times(self.shapes[i]).over(self.rates[i]));
            i = i + 1;
        }
        mean
    }

    /// Takes in the shares of an interval and says what they mean.
    pub fn observe(
        &mut self,
        shares: u32,
        exposure_minutes: Double,
        prior_mean_share_rate_per_min: Double,
        answers: &Answers,
    ) -> (r: BocpdObservation)
        requires
            old(self).wf(),
            old(self).max_run_lengths >= 1,
            answers.predictions@.len() == old(self).log_run_probs@.len(),
            answers.run_exps@.len() == old(self).runs_kept(),
        ensures
            final(self)@ == old(self).after(
                shares,
                exposure_minutes,
                prior_mean_share_rate_per_min,
                *answers,
            ),
            final(self).same_settings(*old(self)),
            final(self).wf(),
            r.posterior_share_rate_per_min == rate_mean(
                answers.run_exps@,
                final(self)@,
                final(self).log_run_probs@.len(),
            ),
            r.changepoint_probability == answers.run_exps@[0],
            r.reset_run_probability == answers.run_exps@[0],
            r.active_run_lengths == final(self).log_run_probs@.len() == old(self).runs_kept(),
            1 <= r.active_run_lengths <= final(self).max_run_lengths,
    {
        self.grow(shares, exposure_minutes, prior_mean_share_rate_per_min, answers);
        let reset_run_probability = answers.run_exps[0];
        BocpdObservation {
            posterior_share_rate_per_min: self.posterior_rate_mean(&answers.run_exps),
            changepoint_probability: reset_run_probability,
            reset_run_probability,
            active_run_lengths: self.log_run_probs.len(),
        }
    }
}

/// 0.0, 1.0, 6.0 and 100.0 in binary32
pub const SINGLE_ZERO: u32 = 0;

pub const SINGLE_ONE: u32 = 0x3f80_0000;

pub const SINGLE_SIX: u32 = 0x40c0_0000;

pub const SINGLE_HUNDRED: u32 = 0x42c8_0000;

/// The distance from 1.0 to the next binary32 number
pub const SINGLE_EPSILON: u32 = 0x3400_0000;

/// The interval that an attempt looks back on.
#[derive(Clone, Copy, Debug)]
pub struct Interval {
    pub elapsed_secs: u64,
    pub exposure_minutes: Double,
    pub target_share_rate: Double,
}

/// The dynamic state of a vardiff connection under changepoint detection.
#[derive(Debug)]
pub struct VardiffState {
    /// Count of shares received since the last update.
    pub shares_since_last_update: u32,
    /// Unix timestamp (seconds) of the last update.
    pub timestamp_of_last_update: u64,
    /// The lowest hashrate (H/s) that is allowed; lower ones are clamped.
    pub min_allowed_hashrate: Single,
    pub params: BayesParams,
    pub bocpd: PoissonGammaBocpd,
}

/// The wanted share rate that an attempt reckons with.
pub open spec fn target_share_rate(shares_per_minute: Single) -> Single {
    shares_per_minute.max(Single::from_bits(SINGLE_EPSILON))
}

/// The hashrate that a posterior share rate stands for.
pub open spec fn scaled_hashrate(
    hashrate: Single,
    posterior_share_rate: Double,
    shares_per_minute: Single,
    min_allowed_hashrate: Single,
) -> Single {
    let scaled = hashrate.times(posterior_share_rate.to_single()).over(
        target_share_rate(shares_per_minute),
    );
    if scaled.lt(min_allowed_hashrate) {
        min_allowed_hashrate
    } else {
        scaled
    }
}

/// By how many percent of the old hashrate the new one is off.
pub open spec fn change_pct(hashrate: Single, new_hashrate: Single) -> Single {
    if hashrate.gt(Single::from_bits(SINGLE_ZERO)) {
        new_hashrate.minus(hashrate).abs().over(hashrate).times(Single::from_bits(SINGLE_HUNDRED))
    } else {
        Single::from_bits(SINGLE_HUNDRED)
    }
}

/// The change, in percent, from which an update is due: the likelier a
/// changepoint, the smaller, but never below one percent.
pub open spec fn update_threshold_pct(
    params: BayesParams,
    changepoint_probability: Double,
) -> Single {
    let confidence = changepoint_probability.over(params.changepoint_threshold).clamp(
        Double::from_bits(ZERO),
        Double::from_bits(ONE),
    ).to_single();
    params.update_threshold_pct.over(Single::from_bits(SINGLE_ONE).plus(confidence)).max(
        Single::from_bits(SINGLE_ONE),
    )
}

impl VardiffState {
    pub open spec fn wf(self) -> bool {
        &&& self.bocpd.wf()
        &&& self.bocpd.max_run_lengths >= 1
    }

    /// The state of a connection that starts at Unix time `now`.
    pub open spec fn is_fresh(
        self,
        min_allowed_hashrate: Single,
        now: u64,
        params: BayesParams,
    ) -> bool {
        &&& self.shares_since_last_update == 0
        &&& self.timestamp_of_last_update == now
        &&& self.min_allowed_hashrate == min_allowed_hashrate
        &&& self.params == params
        &&& self.bocpd.prior_strength_minutes == params.prior_strength_minutes
        &&& self.bocpd.expected_break_interval_secs == params.expected_break_interval_secs
        &&& self.bocpd.max_run_lengths == params.max_run_lengths
        &&& self.bocpd.log_run_probs@ == seq![Double::from_bits(ZERO)]
        &&& self.bocpd.shapes@ == seq![
            PoissonGammaBocpd::prior_shape(
                Double::from_bits(ONE),
                params.prior_strength_minutes,
            ),
        ]
        &&& self.bocpd.rates@ == seq![params.prior_strength_minutes]
    }

    /// Creates a state with the default minimum hashrate at Unix time `now`.
    pub fn new(now: u64) -> (r: VardiffState)
        ensures
            r.is_fresh(
                Single::from_bits(DEFAULT_MIN_HASHRATE),
                now,
                BayesParams::standard(),
            ),
            r.wf(),
    {
        Self::new_with_min(Single::from_bits(DEFAULT_MIN_HASHRATE), now)
    }

    /// Creates a state with a specific minimum hashrate at Unix time `now`.
    pub fn new_with_min(min_allowed_hashrate: Single, now: u64) -> (r: VardiffState)
        ensures
            r.is_fresh(min_allowed_hashrate, now, BayesParams::standard()),
            r.wf(),
    {
        Self::new_with_clock(min_allowed_hashrate, now)
    }

    /// Creates a state with the default settings, whose clock reads `now`.
    pub fn new_with_clock(min_allowed_hashrate: Single, now: u64) -> (r: VardiffState)
        ensures
            r.is_fresh(min_allowed_hashrate, now, BayesParams::standard()),
            r.wf(),
    {
        Self::new_with_clock_and_params(min_allowed_hashrate, now, BayesParams::default())
    }

    /// Creates a state with the given settings, whose clock reads `now`.
    pub fn new_with_clock_and_params(
        min_allowed_hashrate: Single,
        now: u64,
        params: BayesParams,
    ) -> (r: VardiffState)
        ensures
            r.is_fresh(min_allowed_hashrate, now, params),
            r.bocpd.wf(),
            params.max_run_lengths >= 1 ==> r.wf(),
    {
        VardiffState {
            shares_since_last_update: 0,
            timestamp_of_last_update: now,
            min_allowed_hashrate,
            params,
            bocpd: PoissonGammaBocpd::new(Double::from_bits(ONE), &params),
        }
    }

    /// Sets the count of shares since the last update.
    pub fn set_shares_since_last_update(&mut self, shares_since_last_update: u32)
        ensures
            *final(self) == (VardiffState { shares_since_last_update, ..*old(self) }),
    {
        self.shares_since_last_update = shares_since_last_update;
    }

    /// Unix timestamp of the last update.
    pub fn last_update_timestamp(&self) -> (r: u64)
        ensures
            r == self.timestamp_of_last_update,
    {
        self.timestamp_of_last_update
    }

    /// Count of shares since the last update.
    pub fn shares_since_last_update(&self) -> (r: u32)
        ensures
            r == self.shares_since_last_update,
    {
        self.shares_since_last_update
    }

    /// The lowest hashrate that is allowed.
    pub fn min_allowed_hashrate(&self) -> (r: Single)
        ensures
            r == self.min_allowed_hashrate,
    {
        self.min_allowed_hashrate
    }

    /// Sets the timestamp of the last update.
    pub fn set_timestamp_of_last_update(&mut self, timestamp_of_last_update: u64)
        ensures
            *final(self) == (VardiffState { timestamp_of_last_update, ..*old(self) }),
    {
        self.timestamp_of_last_update = timestamp_of_last_update;
    }

    /// Counts one share.
    pub fn increment_shares_since_last_update(&mut self)
        requires
            old(self).shares_since_last_update < u32::MAX,
        ensures
            *final(self) == (VardiffState {
                shares_since_last_update: (old(self).shares_since_last_update + 1) as u32,
                ..*old(self)
            }),
    {
        self.shares_since_last_update = self.shares_since_last_update + 1;
    }

    /// Counts many shares at once; the count stays at its maximum.
    pub fn add_shares(&mut self, n: u32)
        ensures
            *final(self) == (VardiffState {
                shares_since_last_update: if old(self).shares_since_last_update + n > u32::MAX {
                    u32::MAX
                } else {
                    (old(self).shares_since_last_update + n) as u32
                },
                ..*old(self)
            }),
    {
        self.shares_since_last_update = self.shares_since_last_update.saturating_add(n);
    }

    /// Resets the share counter, and sets the timestamp to `now`.
    pub fn reset_counter(&mut self, now: u64)
        ensures
            *final(self) == (VardiffState {
                shares_since_last_update: 0,
                timestamp_of_last_update: now,
                ..*old(self)
            }),
    {
        self.timestamp_of_last_update = now;
        self.shares_since_last_update = 0;
    }

    /// Seconds since the last update; a clock that went back counts as none.
    pub open spec fn elapsed_secs(self, now: u64) -> u64 {
        if now > self.timestamp_of_last_update {
            (now - self.timestamp_of_last_update) as u64
        } else {
            0
        }
    }

    /// Seconds that must pass before an attempt does anything: the slower the shares
    /// are to come, the more.
    pub open spec fn min_elapsed_secs(self, shares_per_minute: Single) -> u64 {
        Single::of_u64(self.params.min_interval_secs).times(Single::from_bits(SINGLE_SIX)).over(
            target_share_rate(shares_per_minute),
        ).ceil_to_u64()
    }

    /// The interval that an attempt at `now` looks back on.
    pub open spec fn interval(self, shares_per_minute: Single, now: u64) -> Interval {
        Interval {
            elapsed_secs: self.elapsed_secs(now),
            exposure_minutes: Double::of_u64(self.elapsed_secs(now)).over(
                Double::from_bits(SECS_PER_MINUTE),
            ),
            target_share_rate: target_share_rate(shares_per_minute).to_double(),
        }
    }

    /// The interval that an attempt at `now` looks back on, once it is long enough.
    pub open spec fn spec_due(&self, shares_per_minute: Single, now: u64) -> Option<Interval> {
        if self.elapsed_secs(now) <= self.min_elapsed_secs(shares_per_minute) {
            None
        } else {
            Some(self.interval(shares_per_minute, now))
        }
    }

    /// The interval that an attempt at `now` looks back on, once it is long enough.
    #[verifier::when_used_as_spec(spec_due)]
    pub fn due(&self, shares_per_minute: Single, now: u64) -> (r: Option<Interval>)
        ensures
            r == self.due(shares_per_minute, now),
            r == if self.elapsed_secs(now) <= self.min_elapsed_secs(shares_per_minute) {
                None
            } else {
                Some(self.interval(shares_per_minute, now))
            },
    {
        let elapsed_secs = now.saturating_sub(self.timestamp_of_last_update);
        let target = shares_per_minute.max(Single::from_bits(SINGLE_EPSILON));
        let min_elapsed_secs = Single::of_u64(self.params.min_interval_secs).times(
            Single::from_bits(SINGLE_SIX),
        ).over(target).ceil_to_u64();
        if elapsed_secs <= min_elapsed_secs {
            return None;
        }
        Some(
            Interval {
                elapsed_secs,
                exposure_minutes: Double::of_u64(elapsed_secs).over(
                    Double::from_bits(SECS_PER_MINUTE),
                ),
                target_share_rate: target.to_double(),
            },
        )
    }

    /// The runs after an attempt that is due.
    pub open spec fn runs_after(
        self,
        shares_per_minute: Single,
        now: u64,
        answers: Answers,
    ) -> Runs {
        let interval = self.interval(shares_per_minute, now);
        self.bocpd.after(
            self.shares_since_last_update,
            interval.exposure_minutes,
            interval.target_share_rate,
            answers,
        )
    }

    /// The hashrate that an attempt that is due arrives at.
    pub open spec fn estimated_hashrate(
        self,
        hashrate: Single,
        shares_per_minute: Single,
        now: u64,
        answers: Answers,
    ) -> Single {
        let runs = self.runs_after(shares_per_minute, now, answers);
        scaled_hashrate(
            hashrate,
            rate_mean(answers.run_exps@, runs, runs.log_run_probs.len()),
            shares_per_minute,
            self.min_allowed_hashrate,
        )
    }

    /// The update that an attempt leads to, if any.
    pub open spec fn update_of(
        self,
        hashrate: Single,
        shares_per_minute: Single,
        now: u64,
        answers: Answers,
    ) -> Option<Single> {
        let estimate = self.estimated_hashrate(hashrate, shares_per_minute, now, answers);
        if self.due(shares_per_minute, now) is None {
            None
        } else if change_pct(hashrate, estimate).lt(
            update_threshold_pct(self.params, answers.run_exps@[0]),
        ) {
            None
        } else {
            Some(estimate)
        }
    }

    /// Checks channel performance and potentially updates the estimated hashrate.
    ///
    /// The clock reads `now` on entry and `reset_at` when the counter is reset. The
    /// answers are those for the shares counted so far and for the interval that
    /// `due` gives; where it gives none they are not looked at.
    pub fn try_vardiff(
        &mut self,
        hashrate: Single,
        shares_per_minute: Single,
        now: u64,
        reset_at: u64,
        answers: &Answers,
    ) -> (r: Option<Single>)
        requires
            old(self).elapsed_secs(now) > old(self).min_elapsed_secs(shares_per_minute) ==> {
                &&& old(self).wf()
                &&& answers.predictions@.len() == old(self).bocpd.log_run_probs@.len()
                &&& answers.run_exps@.len() == old(self).bocpd.runs_kept()
            },
        ensures
            old(self).wf() ==> final(self).wf(),
            r == old(self).update_of(hashrate, shares_per_minute, now, *answers),
            old(self).elapsed_secs(now) <= old(self).min_elapsed_secs(shares_per_minute) ==> {
                &&& r is None
                &&& *final(self) == *old(self)
            },
            old(self).elapsed_secs(now) > old(self).min_elapsed_secs(shares_per_minute) ==> {
                let estimate = old(self).estimated_hashrate(
                    hashrate,
                    shares_per_minute,
                    now,
                    *answers,
                );
                &&& r == if change_pct(hashrate, estimate).lt(
                    update_threshold_pct(old(self).params, answers.run_exps@[0]),
                ) {
                    None
                } else {
                    Some(estimate)
                }
                &&& final(self).bocpd@ == old(self).runs_after(shares_per_minute, now, *answers)
                &&& final(self).bocpd.same_settings(old(self).bocpd)
                &&& final(self).shares_since_last_update == 0
                &&& final(self).timestamp_of_last_update == reset_at
                &&& final(self).min_allowed_hashrate == old(self).min_allowed_hashrate
                &&& final(self).params == old(self).params
            },
    {
        let interval = match self.due(shares_per_minute, now) {
            Some(interval) => interval,
            None => return None,
        };
        let target = shares_per_minute.max(Single::from_bits(SINGLE_EPSILON));
        let observation = self.bocpd.observe(
            self.shares_since_last_update,
            interval.exposure_minutes,
            interval.target_share_rate,
            answers,
        );
        let posterior_share_rate = observation.posterior_share_rate_per_min.to_single();
        let mut new_hashrate = hashrate.times(posterior_share_rate).over(target);
        if new_hashrate.lt(self.min_allowed_hashrate) {
            new_hashrate = self.min_allowed_hashrate;
        }
        let hundred = Single::from_bits(SINGLE_HUNDRED);
        let delta_pct = if hashrate.gt(Single::from_bits(SINGLE_ZERO)) {
            new_hashrate.minus(hashrate).abs().over(hashrate).times(hundred)
        } else {
            hundred
        };
        self.reset_counter(reset_at);
        let confidence = observation.changepoint_probability.over(
            self.params.changepoint_threshold,
        ).clamp(Double::from_bits(ZERO), Double::from_bits(ONE)).to_single();
        let one = Single::from_bits(SINGLE_ONE);
        let confidence_boost = one.plus(confidence);
        let effective_update_threshold_pct = self.params.update_threshold_pct.over(
            confidence_boost,
        ).max(one);
        if delta_pct.lt(effective_update_threshold_pct) {
            return None;
        }
        Some(new_hashrate)
    }
}

} // verus!
