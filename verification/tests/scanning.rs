use vardiff::float::double::Double;
use vardiff::float::single::Single;
use vardiff::scan::climb::{at_least_one, Climb, Evaluation, Outcome, Settings, Stage};
use vardiff::scan::params::{Range, SearchBounds, TuneParams};
use vardiff::scan::results::{
    cell_result_from_trials, stats_of, summarize, trial_seed, CellResult, Distribution,
    MetricsSummary,
};
use vardiff::scan::rng::{self, SplitMix64};
use vardiff::scan::score::{higher_beat, lower_beat, score_per_cell, GroupAcc, ScoreBreakdown};
use vardiff::scan::settings::{count_or, digit_value, seed_or};

fn double(x: f64) -> Double {
    Double::from_bits(x.to_bits())
}

fn single(x: f32) -> Single {
    Single::from_bits(x.to_bits())
}

fn num(x: Double) -> f64 {
    f64::from_bits(x.bits)
}

fn range(min: f64, max: f64) -> Range {
    Range::between(double(min), double(max))
}

fn bounds() -> SearchBounds {
    SearchBounds {
        start_pct: range(80.0, 160.0),
        floor_pct: range(8.0, 25.0),
        half_life_secs: range(30.0, 420.0),
        power: range(0.5, 4.0),
    }
}

fn params(a: f32, b: f32, c: f32, d: f32) -> TuneParams {
    TuneParams {
        start_pct: single(a),
        floor_pct: single(b),
        half_life_secs: single(c),
        power: single(d),
    }
}

/// The same generator in the machine's own arithmetic.
struct Machine(u64);

impl Machine {
    fn next(&mut self) -> u64 {
        self.0 = self.0.wrapping_add(0x9e3779b97f4a7c15);
        let mut z = self.0;
        z = (z ^ (z >> 30)).wrapping_mul(0xbf58476d1ce4e5b9);
        z = (z ^ (z >> 27)).wrapping_mul(0x94d049bb133111eb);
        z ^ (z >> 31)
    }

    fn unit(&mut self) -> f64 {
        ((self.next() >> 11) as f64) * (1.0 / ((1u64 << 53) as f64))
    }

    fn normalish(&mut self) -> f64 {
        let mut sum = 0.0;
        for _ in 0..6 {
            sum += self.unit();
        }
        (sum - 3.0) / 1.224744871391589
    }
}

#[test]
fn splitmix_draws_its_published_sequence() {
    let mut rng = SplitMix64::new(0);
    assert_eq!(rng.next_u64(), 0xe220a8397b1dcdaf);
    assert_eq!(rng.next_u64(), 0x6e789e6aa1b965f4);
    assert_eq!(rng.next_u64(), 0x06c45d188009454f);
    assert_eq!(rng.next_u64(), 0xf88bb8a8724c81ec);
    assert_eq!(rng::STEP_OF_UNIT, (1.0 / ((1u64 << 53) as f64)).to_bits());
    assert_eq!(rng::NORMALISH_SPREAD, 1.224744871391589f64.to_bits());
}

#[test]
fn draws_match_the_machine() {
    let mut rng = SplitMix64::new(12345);
    let mut machine = Machine(12345);
    for _ in 0..2000 {
        let u = num(rng.next_f64());
        assert_eq!(u, machine.unit());
        assert!((0.0..1.0).contains(&u));
        assert_eq!(num(rng.normalish()), machine.normalish());
        assert_eq!(rng.next_u64(), machine.next());
    }
}

#[test]
fn ranges_are_put_in_order() {
    let r = range(5.0, 2.0);
    assert_eq!((num(r.min), num(r.max)), (2.0, 5.0));
    assert_eq!(num(r.width()), 3.0);
    assert_eq!(num(range(2.0, 2.0).width()), 1e-12);
    let r = range(f64::NAN, 2.0);
    assert_eq!((num(r.min), num(r.max)), (2.0, 2.0));
    assert!(r.is_ordered());
    assert!(!range(f64::NAN, f64::NAN).is_ordered());
    let r = range(2.0, 5.0);
    assert_eq!(num(r.clamp(double(7.0))), 5.0);
    assert_eq!(num(r.clamp(double(-7.0))), 2.0);
    assert_eq!(num(r.clamp(double(3.5))), 3.5);
    assert!(bounds().is_ordered());
}

#[test]
fn candidates_match_the_machine() {
    let b = bounds();
    let ends = [(80.0, 160.0), (8.0, 25.0), (30.0, 420.0), (0.5, 4.0)];
    let mut rng = SplitMix64::new(99);
    let mut machine = Machine(99);
    for round in 0..200 {
        let p = b.random_candidate(&mut rng);
        let drawn: Vec<f32> = ends
            .iter()
            .map(|(lo, hi)| (lo + machine.unit() * (hi - lo)) as f32)
            .collect();
        assert_eq!(p, params(drawn[0], drawn[1], drawn[2], drawn[3]));
        for (x, (lo, hi)) in drawn.iter().zip(ends) {
            assert!(*x >= lo as f32 && *x <= hi as f32);
        }
        let step = 0.05 * round as f64;
        let q = b.perturb(p, double(step), &mut rng);
        let moved: Vec<f32> = ends
            .iter()
            .zip(&drawn)
            .map(|((lo, hi), x)| {
                (*x as f64 + machine.normalish() * step * (hi - lo)).clamp(*lo, *hi) as f32
            })
            .collect();
        assert_eq!(q, params(moved[0], moved[1], moved[2], moved[3]));
        for (x, (lo, hi)) in moved.iter().zip(ends) {
            assert!(*x >= lo as f32 && *x <= hi as f32);
        }
    }
}

#[test]
fn seeds_of_trials() {
    assert_eq!(trial_seed(7, 0, 0), 7);
    assert_eq!(trial_seed(7, 3, 5), 7 + (3 << 20) + 5);
    assert_eq!(trial_seed(u64::MAX, 1, 2), (1 << 20) + 1);
    let mut seen = Vec::new();
    for cell in 0..20 {
        for trial in [0, 1, 999, (1 << 20) - 1] {
            seen.push(trial_seed(0xdead_beef, cell, trial));
        }
    }
    let count = seen.len();
    seen.sort();
    seen.dedup();
    assert_eq!(seen.len(), count);
}

fn distribution(base: f64) -> Distribution {
    let at = |x: f64| Some(double(base + x));
    Distribution {
        p10: at(0.1),
        p50: at(0.5),
        p90: at(0.9),
        p95: at(0.95),
        p99: at(0.99),
        mean: at(0.51),
    }
}

fn result(spm: f32, key: &str, base: f64) -> CellResult {
    let is_step = key.starts_with("step_");
    cell_result_from_trials(
        single(spm),
        key.to_string(),
        is_step,
        double(base),
        distribution(100.0 * base),
        distribution(base),
        distribution(base / 10.0),
        Some((double(base / 2.0), distribution(50.0 * base))),
    )
}

#[test]
fn results_of_cells() {
    let r = result(6.0, "step_minus_50", 1.0);
    assert_eq!(r.scenario_key, "step_minus_50");
    assert_eq!(r.shares_per_minute, single(6.0));
    let m = r.measures;
    assert_eq!(m.convergence_rate, double(1.0));
    assert_eq!(m.convergence_p10_secs, Some(double(100.1)));
    assert_eq!(m.convergence_p99_secs, Some(double(100.99)));
    assert_eq!(m.settled_accuracy_p95, Some(double(1.95)));
    assert_eq!(m.jitter_p50_per_min, Some(double(0.1 + 0.5)));
    assert_eq!(m.jitter_mean_per_min, Some(double(0.1 + 0.51)));
    assert_eq!(m.reaction_rate, Some(double(0.5)));
    assert_eq!(m.reaction_p90_secs, Some(double(50.9)));
    // only a step has a reaction
    let m = result(6.0, "stable_1ph", 1.0).measures;
    assert_eq!(m.reaction_rate, None);
    assert_eq!(m.reaction_p50_secs, None);
    let none = Distribution::nothing();
    let r = cell_result_from_trials(
        single(6.0),
        "step_x".to_string(),
        true,
        double(0.0),
        none,
        none,
        none,
        None,
    );
    assert_eq!(r.measures.reaction_rate, None);
    assert_eq!(r.measures.convergence_p50_secs, None);
}

#[test]
fn summaries_are_means_of_finite_numbers() {
    let mean = |v: &[f64]| num(stats_of(&v.iter().map(|x| double(*x)).collect()).mean);
    assert_eq!(mean(&[]), 0.0);
    assert_eq!(mean(&[f64::NAN, f64::INFINITY]), 0.0);
    assert_eq!(mean(&[1.0, f64::NAN, 4.0]), 2.5);
    let results = vec![result(6.0, "stable_1ph", 1.0), result(6.0, "step_plus_50", 2.0)];
    let s = summarize(&results);
    assert_eq!(num(s.conv_rate.mean), 1.5);
    assert_eq!(num(s.settled_p50.mean), (1.5 + 2.5) / 2.0);
    assert_eq!(num(s.settled_p99.mean), (1.99 + 2.99) / 2.0);
    assert_eq!(num(s.conv_p50.mean), (100.5 + 200.5) / 2.0);
    assert_eq!(num(s.conv_p99.mean), (100.99 + 200.99) / 2.0);
    assert_eq!(num(s.react_rate.mean), 1.0);
    assert_eq!(num(s.react_p50.mean), 100.5);
    assert_eq!(num(s.react_p99.mean), 100.99);
    assert_eq!(num(s.jitter_p50.mean), ((0.1 + 0.5) + (0.2 + 0.5)) / 2.0);
    assert_eq!(num(s.jitter_mean.mean), ((0.1 + 0.51) + (0.2 + 0.51)) / 2.0);
    assert_eq!(num(s.jitter_p99.mean), ((0.1 + 0.99) + (0.2 + 0.99)) / 2.0);
}

#[test]
fn beats_are_capped() {
    let (t, s) = (double(0.0), double(0.05));
    assert_eq!(num(lower_beat(double(-0.05), t, s)), 1.0);
    assert_eq!(num(lower_beat(double(-5.0), t, s)), 25.0);
    assert_eq!(num(higher_beat(double(5.0), t, s)), 25.0);
    assert_eq!(num(higher_beat(double(-5.0), t, s)), 0.0);
    assert_eq!(num(lower_beat(double(f64::NAN), t, s)), 25.0);
}

#[test]
fn groups_are_divided_by_their_terms() {
    assert_eq!(GroupAcc::empty().group_norm(), (double(0.0), double(0.0)));
    let weight = 2.0f64.to_bits();
    let (tolerance, scale) = (0.5f64.to_bits(), 0.25f64.to_bits());
    let g = GroupAcc::empty()
        .add_lower(weight, Some(double(1.0)), tolerance, scale, true)
        .add_lower(weight, None, tolerance, scale, true)
        .add_higher(weight, Some(double(1.0)), tolerance, scale, true)
        .add_higher(weight, Some(double(1.0)), tolerance, scale, false);
    assert_eq!(num(g.reg_sum), 8.0);
    assert_eq!(num(g.beat_sum), 8.0);
    assert_eq!(num(g.term_count), 3.0);
    assert_eq!(g.group_norm(), (double(8.0 / 3.0), double(8.0 / 3.0)));
}

#[test]
fn cells_are_named_by_their_shares_and_scenario() {
    assert_eq!(result(6.0, "stable_1ph", 1.0).name(), "spm_6.stable_1ph");
    assert_eq!(result(12.75, "x", 1.0).name(), "spm_12.x");
    assert_eq!(result(-3.0, "x", 1.0).name(), "spm_0.x");
    assert_eq!(result(1e20, "x", 1.0).name(), "spm_4294967295.x");
}

#[test]
fn a_run_scores_nothing_against_itself() {
    let run = vec![
        result(6.0, "stable_1ph", 1.0),
        result(12.0, "step_plus_50", 2.0),
        result(30.0, "cold_start", 0.5),
        result(30.0, "else", 0.5),
    ];
    let b = score_per_cell(&run, &run);
    assert_eq!((num(b.reg), num(b.beat)), (0.0, 0.0));
}

fn regression(delta: f64, tolerance: f64, scale: f64) -> f64 {
    let excess = delta - tolerance;
    if excess <= 0.0 {
        0.0
    } else {
        (excess / scale) * (excess / scale)
    }
}

#[test]
fn scores_of_a_run_by_hand() {
    let before = vec![result(6.0, "step_plus_50", 1.0), result(30.0, "cold_start", 1.0)];
    let after = vec![
        result(30.0, "cold_start", 1.25),
        result(6.0, "step_plus_50", 9.0),
        result(6.0, "step_plus_50", 0.75),
        result(60.0, "stable_1ph", 1.0),
    ];
    let b = score_per_cell(&after, &before);
    // the last one of a name counts: the step went from 1.0 to 0.75
    let rate = regression(0.125, 0.03, 0.05);
    let reaction_reg = (10.0 * rate + 6.0 * 0.0 + 8.0 * 0.0) / 3.0;
    assert_eq!(num(b.step_reaction_reg), reaction_reg);
    assert_eq!(num(b.step_quality_reg), 0.0);
    assert_eq!(num(b.stable_reg), 0.0);
    let gained = |x: f64, y: f64| regression(-(x - y), 0.0, 1.0);
    assert!(gained(0.5, 1.0) > 0.0);
    assert!(num(b.step_reaction_beat) == 0.0);
    assert!(num(b.step_quality_beat) > 0.0);
    // the cold start converges more often, later, and settles further off
    let rate_beat = regression(0.25, 0.005, 0.05).min(25.0);
    assert_eq!(num(b.cold_beat), 8.0 * rate_beat / 7.0);
    let cold = 0.0
        + 8.0 * 0.0
        + 6.0 * regression(125.5 - 100.5, 30.0, 60.0)
        + 8.0 * regression(125.99 - 100.99, 60.0, 60.0)
        + 1.0 * regression(1.75 - 1.5, 0.08, 0.05)
        + 2.0 * regression(2.24 - 1.99, 0.10, 0.10)
        + 1.0 * regression((0.125 + 0.51) - (0.1 + 0.51), 0.005, 0.01)
        + 1.0 * regression((0.125 + 0.99) - (0.1 + 0.99), 0.02, 0.05);
    assert_eq!(num(b.cold_reg), cold / 7.0);
    let reg = 1.0 * num(b.cold_reg)
        + 1.5 * num(b.stable_reg)
        + 2.5 * num(b.step_reaction_reg)
        + 1.5 * num(b.step_quality_reg);
    let beat = 1.0 * num(b.cold_beat)
        + 1.0 * num(b.stable_beat)
        + 2.0 * num(b.step_reaction_beat)
        + 0.75 * num(b.step_quality_beat);
    assert_eq!((num(b.reg), num(b.beat)), (reg, beat));
}

fn evaluation(reg: f64, beat: f64) -> Evaluation {
    let zero = double(0.0);
    Evaluation {
        summary: summarize(&Vec::new()),
        breakdown: ScoreBreakdown {
            reg: double(reg),
            beat: double(beat),
            cold_reg: zero,
            cold_beat: zero,
            stable_reg: zero,
            stable_beat: zero,
            step_reaction_reg: zero,
            step_reaction_beat: zero,
            step_quality_reg: zero,
            step_quality_beat: zero,
        },
    }
}

fn settings(max_evals: usize, restart_count: usize, patience: usize) -> Settings {
    Settings {
        max_evals,
        restart_count,
        patience,
        initial_step: double(1.0),
        min_step: double(0.0001),
        max_step: double(5.0),
        bounds: bounds(),
        first: params(100.0, 15.0, 90.0, 2.0),
    }
}

#[test]
fn the_standard_search() {
    let s = Settings::standard(params(1.0, 2.0, 3.0, 4.0));
    assert_eq!((s.max_evals, s.restart_count, s.patience), (5000, 6, 60));
    assert_eq!((num(s.initial_step), num(s.min_step), num(s.max_step)), (1.0, 0.0001, 5.0));
    let b = SearchBounds::standard();
    let ends = |r: Range| (num(r.min), num(r.max));
    assert_eq!(ends(b.start_pct), (80.0, 160.0));
    assert_eq!(ends(b.floor_pct), (8.0, 25.0));
    assert_eq!(ends(b.half_life_secs), (30.0, 420.0));
    assert_eq!(ends(b.power), (0.5, 4.0));
    let mut climb = Climb::new(s, 1);
    assert_eq!(climb.propose(), Some(params(1.0, 2.0, 3.0, 4.0)));
}

#[test]
fn scores_weigh_losses_and_gains() {
    assert_eq!(num(evaluation(2.0, 3.0).score()), 2.0 - 3.0 / (1.0 + 2.0));
    assert_eq!(num(evaluation(0.0, 4.0).score()), -4.0);
    let summary: MetricsSummary = evaluation(0.0, 0.0).summary;
    assert_eq!(num(summary.conv_rate.mean), 0.0);
}

/// What is to be found: some number of the parameters.
fn objective(p: TuneParams) -> (f64, f64) {
    let at = |x: Single| f32::from_bits(x.bits) as f64;
    let reg = ((at(p.start_pct) - 120.0) / 40.0).abs() + ((at(p.power) - 3.0) / 2.0).abs();
    (reg, at(p.floor_pct) / 10.0)
}

/// The same search in the machine's own arithmetic: each evaluation's score and
/// whether it was the best so far.
fn search(s: &Settings, seed: u64) -> (Vec<(TuneParams, f64, bool)>, f64) {
    let b = s.bounds;
    let mut rng = SplitMix64::new(seed);
    let mut seen = Vec::new();
    let mut best: Option<f64> = None;
    let mut evals = 0;
    let per_restart = (s.max_evals / s.restart_count).max(1);
    let score_of = |p: TuneParams| {
        let (reg, beat) = objective(p);
        reg - beat / (1.0 + reg)
    };
    for restart in 0..s.restart_count {
        if evals >= s.max_evals {
            break;
        }
        let mut current = if restart == 0 { s.first } else { b.random_candidate(&mut rng) };
        let mut current_score = score_of(current);
        evals += 1;
        let better = best.map(|x| current_score < x).unwrap_or(true);
        if better {
            best = Some(current_score);
        }
        seen.push((current, current_score, better));
        let mut step = num(s.initial_step);
        let mut misses = 0;
        let limit = (evals + per_restart).min(s.max_evals);
        while evals < limit {
            let proposal = b.perturb(current, double(step), &mut rng);
            let score = score_of(proposal);
            evals += 1;
            let mut better = false;
            if score < current_score {
                current = proposal;
                current_score = score;
                misses = 0;
                step = (step * 1.08).min(num(s.max_step));
                better = best.map(|x| score < x).unwrap_or(true);
                if better {
                    best = Some(score);
                }
                seen.push((proposal, score, better));
            } else {
                seen.push((proposal, score, better));
                misses += 1;
                if misses >= s.patience {
                    step *= 0.5;
                    misses = 0;
                    if step < num(s.min_step) {
                        break;
                    }
                }
            }
        }
    }
    (seen, best.expect("at least one evaluation"))
}

#[test]
fn climbs_match_a_plain_search() {
    for (max_evals, restarts, patience) in [(1, 1, 1), (50, 3, 4), (200, 6, 1), (7, 20, 2), (400, 2, 60)] {
        let s = settings(max_evals, restarts, patience);
        for seed in [1u64, 2, 3] {
            let (want, best) = search(&s, seed);
            let mut climb = Climb::new(s, seed);
            let mut seen = Vec::new();
            let mut lowest = f64::INFINITY;
            while let Some(p) = climb.propose() {
                let (reg, beat) = objective(p);
                let outcome = climb.record(evaluation(reg, beat));
                let score = reg - beat / (1.0 + reg);
                lowest = lowest.min(score);
                seen.push((p, score, outcome != Outcome::Ordinary));
                // nothing that was tried is better than the best
                let held = climb.best.expect("a best one");
                assert_eq!(num(held.score), lowest);
                assert!(climb.evals <= max_evals);
            }
            assert_eq!(seen, want);
            assert_eq!(num(climb.best.expect("a best one").score), best);
            assert_eq!(climb.evals, want.len());
            assert_eq!(climb.stage, Stage::Finished);
            assert_eq!(climb.propose(), None);
        }
    }
}

#[test]
fn outcomes_tell_the_step() {
    let mut climb = Climb::new(settings(10, 1, 3), 5);
    climb.propose();
    assert_eq!(climb.record(evaluation(5.0, 0.0)), Outcome::BestStart);
    climb.propose();
    assert_eq!(climb.record(evaluation(4.0, 0.0)), Outcome::BestStep(double(1.0 * 1.08)));
    climb.propose();
    assert_eq!(climb.record(evaluation(4.0, 0.0)), Outcome::Ordinary);
    assert_eq!(climb.misses, 1);
    for _ in 0..2 {
        climb.propose();
        climb.record(evaluation(f64::NAN, 0.0));
    }
    assert_eq!(climb.misses, 0);
    assert_eq!(num(climb.step), 1.08 * 0.5);
    assert_eq!(num(climb.best.expect("a best one").score), 4.0);
}

#[test]
fn a_step_that_gets_too_small_ends_a_climb() {
    let mut s = settings(100, 2, 1);
    s.min_step = double(0.3);
    let mut climb = Climb::new(s, 5);
    climb.propose();
    climb.record(evaluation(1.0, 0.0));
    climb.propose();
    climb.record(evaluation(2.0, 0.0));
    assert_eq!(num(climb.step), 0.5);
    assert_eq!(climb.restart, 0);
    climb.propose();
    climb.record(evaluation(2.0, 0.0));
    assert_eq!(climb.restart, 1);
    assert_eq!(climb.stage, Stage::Starting);
    assert!(climb.propose().is_some());
    assert_eq!(at_least_one(0), 1);
    assert_eq!(at_least_one(7), 7);
}

#[test]
fn seeds_are_read_in_two_notations() {
    let plain = |s: &str| -> u64 {
        if let Some(hex) = s.strip_prefix("0x").or_else(|| s.strip_prefix("0X")) {
            return u64::from_str_radix(hex, 16).unwrap_or(42);
        }
        s.parse().unwrap_or(42)
    };
    for s in [
        "", "0", "7", "+7", "-7", "+", "++7", "007", "18446744073709551615", "18446744073709551616",
        "99999999999999999999", "0x", "0X", "0x1f", "0XfF", "0x+1f", "0x-1", "0xffffffffffffffff",
        "0x10000000000000000", "0xg", "1f", " 7", "7 ", "x7", "0x0x1", "٣", "1_000",
    ] {
        assert_eq!(seed_or(Some(s), 42), plain(s), "{s:?}");
    }
    assert_eq!(seed_or(None, 42), 42);
}

#[test]
fn counts_are_read_in_decimal() {
    for s in ["", "0", "60", "+60", "-1", "0x10", "5000", "18446744073709551616", "1e3"] {
        assert_eq!(count_or(Some(s), 9), s.parse::<usize>().unwrap_or(9), "{s:?}");
    }
    assert_eq!(count_or(None, 9), 9);
    for c in (0..=0x2ffu32).filter_map(char::from_u32) {
        for radix in [10u32, 16] {
            let want = c.to_digit(radix).map(|d| d as u64);
            assert_eq!(digit_value(c, radix as u64), want, "{c:?}");
        }
    }
}
