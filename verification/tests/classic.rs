use statrs::function::gamma::ln_gamma;
use vardiff::float::double::Double;
use vardiff::float::series::total;
use vardiff::float::single::Single;
use vardiff::vardiff::classic::{
    self as classic, Answers, BayesParams, PoissonGammaBocpd, PredictionTerms, VardiffState,
};

fn double(x: f64) -> Double {
    Double::from_bits(x.to_bits())
}

fn single(x: f32) -> Single {
    Single::from_bits(x.to_bits())
}

fn num(x: Double) -> f64 {
    f64::from_bits(x.bits)
}

fn ln(x: Double) -> Double {
    double(num(x).ln())
}

fn exps(exponents: &[Double]) -> Vec<Double> {
    exponents.iter().map(|x| double(num(*x).exp())).collect()
}

/// The logarithms and exponentials that an observation asks for.
fn answers(
    detector: &PoissonGammaBocpd,
    shares: u32,
    exposure_minutes: Double,
    prior_mean: Double,
    elapsed_secs: u64,
) -> Answers {
    let exp = double(num(detector.hazard_exponent(elapsed_secs)).exp());
    let nothing = double(0.0);
    let gamma = |x: Double| double(ln_gamma(num(x)));
    let mut answers = Answers {
        ln_hazard: ln(PoissonGammaBocpd::hazard(exp)),
        ln_growth: ln(PoissonGammaBocpd::growth(exp)),
        predictions: detector
            .prediction_terms(shares, exposure_minutes)
            .iter()
            .map(|t| PredictionTerms {
                shape_and_shares: gamma(t.shape_and_shares),
                shape: gamma(t.shape),
                shares_and_one: gamma(t.shares_and_one),
                rate_fraction: ln(t.rate_fraction),
                exposure_fraction: ln(t.exposure_fraction),
            })
            .collect(),
        ln_changepoint: nothing,
        ln_normalising: nothing,
        ln_truncation: nothing,
        run_exps: Vec::new(),
    };
    answers.ln_changepoint = ln(total(&exps(&detector.changepoint_exponents(shares, &answers))));
    answers.ln_normalising = ln(total(&exps(&detector.normalising_exponents(shares, &answers))));
    answers.ln_truncation = ln(total(&exps(&detector.truncation_exponents(shares, &answers))));
    answers.run_exps = exps(&detector.run_exponents(shares, exposure_minutes, prior_mean, &answers));
    answers
}

/// Attempts an update with the answers that the state asks for.
fn attempt(state: &mut VardiffState, hashrate: f32, spm: f32, now: u64) -> Option<f32> {
    let given = match state.due(single(spm), now) {
        Some(interval) => answers(
            &state.bocpd,
            state.shares_since_last_update(),
            interval.exposure_minutes,
            interval.target_share_rate,
            interval.elapsed_secs,
        ),
        None => Answers {
            ln_hazard: double(0.0),
            ln_growth: double(0.0),
            predictions: Vec::new(),
            ln_changepoint: double(0.0),
            ln_normalising: double(0.0),
            ln_truncation: double(0.0),
            run_exps: Vec::new(),
        },
    };
    state
        .try_vardiff(single(hashrate), single(spm), now, now + 1, &given)
        .map(|x| f32::from_bits(x.bits))
}

fn logsumexp(values: &[f64]) -> f64 {
    let max = values.iter().copied().fold(f64::NEG_INFINITY, f64::max);
    if !max.is_finite() {
        return max;
    }
    let sum: f64 = values.iter().map(|v| (*v - max).exp()).sum();
    max + sum.ln()
}

/// The same detector in the machine's own arithmetic.
struct Machine {
    strength: f64,
    interval: f64,
    max: usize,
    probs: Vec<f64>,
    shapes: Vec<f64>,
    rates: Vec<f64>,
}

impl Machine {
    fn new(mean: f64, params: &BayesParams) -> Machine {
        let strength = num(params.prior_strength_minutes);
        Machine {
            strength,
            interval: num(params.expected_break_interval_secs),
            max: params.max_run_lengths,
            probs: vec![0.0],
            shapes: vec![mean.max(f64::EPSILON) * strength],
            rates: vec![strength],
        }
    }

    fn observe(&mut self, shares: u32, exposure: f64, mean: f64, elapsed: u64) -> (f64, f64, usize) {
        let exposure = exposure.max(f64::EPSILON);
        let mean = mean.max(f64::EPSILON);
        let hazard = (1.0 - (-(elapsed as f64) / self.interval).exp()).clamp(1.0e-9, 1.0 - 1.0e-9);
        let (log_hazard, log_growth) = (hazard.ln(), (1.0 - hazard).ln());
        let n = self.probs.len();
        let x = shares as f64;
        let mut ended = Vec::new();
        let mut next = vec![f64::NEG_INFINITY; n + 1];
        for i in 0..n {
            let (shape, rate) = (self.shapes[i], self.rates[i]);
            let both = rate + exposure;
            let log_pred = ln_gamma(shape + x) - ln_gamma(shape) - ln_gamma(x + 1.0)
                + shape * (rate / both).ln()
                + x * (exposure / both).ln();
            ended.push(self.probs[i] + log_pred + log_hazard);
            next[i + 1] = self.probs[i] + log_pred + log_growth;
        }
        next[0] = logsumexp(&ended);
        let norm = logsumexp(&next);
        for p in &mut next {
            *p -= norm;
        }
        let mut shapes = vec![mean * self.strength];
        let mut rates = vec![self.strength];
        for i in 0..n {
            shapes.push(self.shapes[i] + x);
            rates.push(self.rates[i] + exposure);
        }
        self.probs = next;
        self.shapes = shapes;
        self.rates = rates;
        if self.probs.len() > self.max {
            self.probs.truncate(self.max);
            self.shapes.truncate(self.max);
            self.rates.truncate(self.max);
            let norm = logsumexp(&self.probs);
            for p in &mut self.probs {
                *p -= norm;
            }
        }
        let mut posterior = 0.0;
        for i in 0..self.probs.len() {
            posterior += self.probs[i].exp() * self.shapes[i] / self.rates[i];
        }
        (posterior, self.probs[0].exp(), self.probs.len())
    }
}

fn same_bits(got: &[Double], want: &[f64]) {
    assert_eq!(got.len(), want.len());
    for (g, w) in got.iter().zip(want) {
        assert_eq!(g.bits, w.to_bits(), "{} and {w}", num(*g));
    }
}

#[test]
fn settings_are_the_numbers_that_they_name() {
    let pairs = [
        (classic::BAYES_EXPECTED_BREAK_INTERVAL_SECS, 3600.0),
        (classic::BAYES_PRIOR_STRENGTH_MINUTES, 0.01),
        (classic::BAYES_CHANGEPOINT_THRESHOLD, 9.115953),
        (classic::SECS_PER_MINUTE, 60.0),
        (classic::EPSILON, f64::EPSILON),
        (classic::MIN_HAZARD, 1.0e-9),
        (classic::MAX_HAZARD, 1.0 - 1.0e-9),
    ];
    for (bits, x) in pairs {
        assert_eq!(bits, f64::to_bits(x), "{x}");
    }
    let pairs = [
        (classic::DEFAULT_MIN_HASHRATE, 1.0),
        (classic::BAYES_UPDATE_THRESHOLD_PCT, 25.349),
        (classic::SINGLE_ZERO, 0.0),
        (classic::SINGLE_ONE, 1.0),
        (classic::SINGLE_SIX, 6.0),
        (classic::SINGLE_HUNDRED, 100.0),
        (classic::SINGLE_EPSILON, f32::EPSILON),
    ];
    for (bits, x) in pairs {
        assert_eq!(bits, f32::to_bits(x), "{x}");
    }
    let params = BayesParams::default();
    assert_eq!(params.min_interval_secs, 300);
    assert_eq!(params.max_run_lengths, 25);
    assert_eq!(num(params.prior_strength_minutes), 0.01);
    assert_eq!(f32::from_bits(params.update_threshold_pct.bits), 25.349);
}

#[test]
fn a_new_detector_holds_one_run() {
    let detector = PoissonGammaBocpd::new(double(6.0), &BayesParams::default());
    same_bits(&detector.log_run_probs, &[0.0]);
    same_bits(&detector.shapes, &[6.0 * 0.01]);
    same_bits(&detector.rates, &[0.01]);
    let detector = PoissonGammaBocpd::new(double(-1.0), &BayesParams::default());
    same_bits(&detector.shapes, &[f64::EPSILON * 0.01]);
}

#[test]
fn logsumexp_of_few_values() {
    let values: Vec<Double> = [-1.0, 0.5, -3.0].iter().map(|x| double(*x)).collect();
    let exponents = classic::logsumexp_exponents(&values);
    same_bits(&exponents, &[-1.5, 0.0, -3.5]);
    let ln_sum = ln(total(&exps(&exponents)));
    let got = classic::logsumexp(&values, ln_sum);
    assert_eq!(num(got), logsumexp(&[-1.0, 0.5, -3.0]));
    assert_eq!(num(classic::logsumexp(&Vec::new(), double(5.0))), f64::NEG_INFINITY);
    let infinite = vec![double(f64::INFINITY), double(1.0)];
    assert_eq!(num(classic::logsumexp(&infinite, double(5.0))), f64::INFINITY);
}

#[test]
fn hazards_are_neither_impossible_nor_certain() {
    assert_eq!(num(PoissonGammaBocpd::hazard(double(1.0))), 1.0e-9);
    assert_eq!(num(PoissonGammaBocpd::hazard(double(0.0))), 1.0 - 1.0e-9);
    assert_eq!(num(PoissonGammaBocpd::hazard(double(0.75))), 0.25);
    assert_eq!(num(PoissonGammaBocpd::growth(double(0.75))), 0.75);
    let detector = PoissonGammaBocpd::new(double(6.0), &BayesParams::default());
    assert_eq!(num(detector.hazard_exponent(1800)), -0.5);
}

#[test]
fn observations_match_the_machine() {
    let params = BayesParams::default();
    let mut detector = PoissonGammaBocpd::new(double(1.0), &params);
    let mut machine = Machine::new(1.0, &params);
    let counts = [30, 28, 35, 31, 0, 2, 90, 95, 88, 1000, 12, 30];
    for round in 0..40 {
        let shares = counts[round % counts.len()];
        let elapsed = 301 + 7 * round as u64;
        let exposure = elapsed as f64 / 60.0;
        let given = answers(&detector, shares, double(exposure), double(6.0), elapsed);
        let got = detector.observe(shares, double(exposure), double(6.0), &given);
        let (posterior, reset, active) = machine.observe(shares, exposure, 6.0, elapsed);
        assert_eq!(got.posterior_share_rate_per_min.bits, posterior.to_bits());
        assert_eq!(got.changepoint_probability.bits, reset.to_bits());
        assert_eq!(got.reset_run_probability.bits, reset.to_bits());
        assert_eq!(got.active_run_lengths, active);
        assert_eq!(active, (round + 2).min(25));
        same_bits(&detector.log_run_probs, &machine.probs);
        same_bits(&detector.shapes, &machine.shapes);
        same_bits(&detector.rates, &machine.rates);
    }
}

#[test]
fn attempts_match_the_machine() {
    for spm in [6.0f32, 12.0, 60.0, 1.5] {
        let params = BayesParams::default();
        let mut state = VardiffState::new_with_clock(single(500.0), 1000);
        let mut machine = Machine::new(1.0, &params);
        let mut timestamp = 1000u64;
        let mut hashrate = 1.0e6f32;
        let mut now = 1000u64;
        let mut shares = 0u32;
        let mut updates = 0;
        for round in 0..60u64 {
            now += 130 + (round * 37) % 400;
            let more = ((round * 53) % 71) as u32;
            state.add_shares(more);
            shares += more;
            let got = attempt(&mut state, hashrate, spm, now);
            let elapsed = now.saturating_sub(timestamp);
            let target = spm.max(f32::EPSILON);
            let min_elapsed = (300u64 as f32 * 6.0 / target).ceil() as u64;
            if elapsed <= min_elapsed {
                assert_eq!(got, None);
                assert_eq!(state.shares_since_last_update(), shares);
                continue;
            }
            let (posterior, reset, _) =
                machine.observe(shares, elapsed as f64 / 60.0, target as f64, elapsed);
            let mut new_hashrate = hashrate * posterior as f32 / target;
            if new_hashrate < 500.0 {
                new_hashrate = 500.0;
            }
            let delta = if hashrate > 0.0 {
                ((new_hashrate - hashrate).abs() / hashrate) * 100.0
            } else {
                100.0
            };
            let confidence = (reset / 9.115953).clamp(0.0, 1.0) as f32;
            let threshold = (25.349f32 / (1.0 + confidence)).max(1.0);
            let want = if delta < threshold { None } else { Some(new_hashrate) };
            assert_eq!(got.map(f32::to_bits), want.map(f32::to_bits));
            timestamp = now + 1;
            shares = 0;
            assert_eq!(state.last_update_timestamp(), timestamp);
            assert_eq!(state.shares_since_last_update(), 0);
            if let Some(update) = got {
                assert!(update >= 500.0);
                hashrate = update;
                updates += 1;
            }
        }
        assert!(updates > 0);
    }
}

#[test]
fn an_attempt_waits_for_enough_shares_to_come() {
    let state = VardiffState::new(0);
    // 300 s at 6 shares per minute, and in proportion
    for (spm, least) in [(6.0f32, 300u64), (12.0, 150), (3.0, 600), (7.0, 258)] {
        assert!(state.due(single(spm), least).is_none());
        let interval = state.due(single(spm), least + 1).expect("long enough");
        assert_eq!(interval.elapsed_secs, least + 1);
        assert_eq!(num(interval.exposure_minutes), (least + 1) as f64 / 60.0);
        assert_eq!(num(interval.target_share_rate), spm as f64);
    }
    assert!(state.due(single(0.0), 1 << 33).is_none());
    let mut late = VardiffState::new(1000);
    late.add_shares(3);
    assert_eq!(attempt(&mut late, 5.0, 6.0, 10), None);
    assert_eq!(late.shares_since_last_update(), 3);
    assert_eq!(late.last_update_timestamp(), 1000);
}

#[test]
fn a_hashrate_of_zero_counts_as_a_full_change() {
    let mut state = VardiffState::new(0);
    state.add_shares(40);
    assert_eq!(attempt(&mut state, 0.0, 6.0, 400), Some(1.0));
}

#[test]
fn counters_of_a_state() {
    let mut state = VardiffState::new_with_min(single(0.25), 9);
    assert_eq!(state.min_allowed_hashrate(), single(0.25));
    state.increment_shares_since_last_update();
    state.add_shares(u32::MAX);
    assert_eq!(state.shares_since_last_update(), u32::MAX);
    state.set_shares_since_last_update(5);
    state.set_timestamp_of_last_update(77);
    assert_eq!(state.last_update_timestamp(), 77);
    state.reset_counter(80);
    assert_eq!(state.last_update_timestamp(), 80);
    assert_eq!(state.shares_since_last_update(), 0);
    let mut params = BayesParams::default();
    params.max_run_lengths = 2;
    let mut small = VardiffState::new_with_clock_and_params(single(1.0), 0, params);
    for round in 1..6u64 {
        small.add_shares(30);
        attempt(&mut small, 100.0, 6.0, 400 * round);
        assert!(small.bocpd.log_run_probs.len() <= 2);
    }
}
