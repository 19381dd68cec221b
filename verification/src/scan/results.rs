use vstd::prelude::*;

use crate::compare::cells::Metrics;
use crate::float::double::Double;
use crate::float::numbers::ZERO;
use crate::float::series::{total, total_of};
use crate::float::single::Single;

verus! {

/// How many seeds lie between those of two neighbouring cells, as a power of two.
pub const CELL_SEED_BITS: u32 = 20;

pub open spec fn spec_trial_seed(base_seed: u64, cell_index: u64, trial_index: u64) -> u64 {
    base_seed.wrapping_add(cell_index.wrapping_shl(CELL_SEED_BITS)).wrapping_add(trial_index)
}

/// The seed of one trial of one cell.
#[verifier::when_used_as_spec(spec_trial_seed)]
pub fn trial_seed(base_seed: u64, cell_index: u64, trial_index: u64) -> (r: u64)
    ensures
        r == trial_seed(base_seed, cell_index, trial_index),
{
    base_seed.wrapping_add(cell_index.wrapping_shl(CELL_SEED_BITS)).wrapping_add(trial_index)
}

/// What is known of how a quantity is distributed over trials; nothing where none
/// has it.
#[derive(Clone, Copy, PartialEq, Eq, Structural, Debug)]
pub struct Distribution {
    pub p10: Option<Double>,
    pub p50: Option<Double>,
    pub p90: Option<Double>,
    pub p95: Option<Double>,
    pub p99: Option<Double>,
    pub mean: Option<Double>,
}

impl Distribution {
    pub open spec fn spec_nothing() -> Distribution {
        Distribution { p10: None, p50: None, p90: None, p95: None, p99: None, mean: None }
    }

    /// Of a quantity that no trial has.
    #[verifier::when_used_as_spec(spec_nothing)]
    pub fn nothing() -> (r: Distribution)
        ensures
            r == Self::nothing(),
    {
        Distribution { p10: None, p50: None, p90: None, p95: None, p99: None, mean: None }
    }
}

/// What the trials of a cell measured.
#[derive(Clone, Copy, PartialEq, Eq, Structural, Debug)]
pub struct Measures {
    pub convergence_rate: Double,
    pub convergence_p10_secs: Option<Double>,
    pub convergence_p50_secs: Option<Double>,
    pub convergence_p90_secs: Option<Double>,
    pub convergence_p95_secs: Option<Double>,
    pub convergence_p99_secs: Option<Double>,
    pub settled_accuracy_p10: Option<Double>,
    pub settled_accuracy_p50: Option<Double>,
    pub settled_accuracy_p90: Option<Double>,
    pub settled_accuracy_p95: Option<Double>,
    pub settled_accuracy_p99: Option<Double>,
    pub jitter_p50_per_min: Option<Double>,
    pub jitter_p90_per_min: Option<Double>,
    pub jitter_p95_per_min: Option<Double>,
    pub jitter_p99_per_min: Option<Double>,
    pub jitter_mean_per_min: Option<Double>,
    pub reaction_rate: Option<Double>,
    pub reaction_p10_secs: Option<Double>,
    pub reaction_p50_secs: Option<Double>,
    pub reaction_p90_secs: Option<Double>,
    pub reaction_p99_secs: Option<Double>,
}

/// The result of a cell.
#[derive(Debug)]
pub struct CellResult {
    pub shares_per_minute: Single,
    pub scenario_key: String,
    pub measures: Measures,
}

/// What the trials of a cell measured. Only a cell whose scenario is a step has a
/// reaction.
pub open spec fn measures_of(
    is_step: bool,
    convergence_rate: Double,
    convergence: Distribution,
    accuracy: Distribution,
    jitter: Distribution,
    reaction: Option<(Double, Distribution)>,
) -> Measures {
    let (rate, times) = match reaction {
        Some((rate, times)) => if is_step {
            (Some(rate), times)
        } else {
            (None, Distribution::nothing())
        },
        None => (None, Distribution::nothing()),
    };
    Measures {
        convergence_rate,
        convergence_p10_secs: convergence.p10,
        convergence_p50_secs: convergence.p50,
        convergence_p90_secs: convergence.p90,
        convergence_p95_secs: convergence.p95,
        convergence_p99_secs: convergence.p99,
        settled_accuracy_p10: accuracy.p10,
        settled_accuracy_p50: accuracy.p50,
        settled_accuracy_p90: accuracy.p90,
        settled_accuracy_p95: accuracy.p95,
        settled_accuracy_p99: accuracy.p99,
        jitter_p50_per_min: jitter.p50,
        jitter_p90_per_min: jitter.p90,
        jitter_p95_per_min: jitter.p95,
        jitter_p99_per_min: jitter.p99,
        jitter_mean_per_min: jitter.mean,
        reaction_rate: rate,
        reaction_p10_secs: times.p10,
        reaction_p50_secs: times.p50,
        reaction_p90_secs: times.p90,
        reaction_p99_secs: times.p99,
    }
}

/// The result of a cell from what its trials measured.
pub fn cell_result_from_trials(
    shares_per_minute: Single,
    scenario_key: String,
    is_step: bool,
    convergence_rate: Double,
    convergence: Distribution,
    accuracy: Distribution,
    jitter: Distribution,
    reaction: Option<(Double, Distribution)>,
) -> (r: CellResult)
    ensures
        r.shares_per_minute == shares_per_minute,
        r.scenario_key == scenario_key,
        r.measures == measures_of(
            is_step,
            convergence_rate,
            convergence,
            accuracy,
            jitter,
            reaction,
        ),
{
    let (rate, times) = match reaction {
        Some((rate, times)) => if is_step {
            (Some(rate), times)
        } else {
            (None, Distribution::nothing())
        },
        None => (None, Distribution::nothing()),
    };
    let measures = Measures {
        convergence_rate,
        convergence_p10_secs: convergence.p10,
        convergence_p50_secs: convergence.p50,
        convergence_p90_secs: convergence.p90,
        convergence_p95_secs: convergence.p95,
        convergence_p99_secs: convergence.p99,
        settled_accuracy_p10: accuracy.p10,
        settled_accuracy_p50: accuracy.p50,
        settled_accuracy_p90: accuracy.p90,
        settled_accuracy_p95: accuracy.p95,
        settled_accuracy_p99: accuracy.p99,
        jitter_p50_per_min: jitter.p50,
        jitter_p90_per_min: jitter.p90,
        jitter_p95_per_min: jitter.p95,
        jitter_p99_per_min: jitter.p99,
        jitter_mean_per_min: jitter.mean,
        reaction_rate: rate,
        reaction_p10_secs: times.p10,
        reaction_p50_secs: times.p50,
        reaction_p90_secs: times.p90,
        reaction_p99_secs: times.p99,
    };
    CellResult { shares_per_minute, scenario_key, measures }
}

impl Measures {
    pub open spec fn spec_metrics(self) -> Metrics {
        Metrics {
            convergence_rate: Some(self.convergence_rate),
            convergence_p50_secs: self.convergence_p50_secs,
            convergence_p99_secs: self.convergence_p99_secs,
            settled_accuracy_p50: self.settled_accuracy_p50,
            settled_accuracy_p99: self.settled_accuracy_p99,
            jitter_mean_per_min: self.jitter_mean_per_min,
            jitter_p99_per_min: self.jitter_p99_per_min,
            reaction_rate: self.reaction_rate,
            reaction_p50_secs: self.reaction_p50_secs,
            reaction_p99_secs: self.reaction_p99_secs,
        }
    }

    /// The measures that cells are compared by.
    #[verifier::when_used_as_spec(spec_metrics)]
    pub fn metrics(self) -> (r: Metrics)
        ensures
            r == self.metrics(),
    {
        Metrics {
            convergence_rate: Some(self.convergence_rate),
            convergence_p50_secs: self.convergence_p50_secs,
            convergence_p99_secs: self.convergence_p99_secs,
            settled_accuracy_p50: self.settled_accuracy_p50,
            settled_accuracy_p99: self.settled_accuracy_p99,
            jitter_mean_per_min: self.jitter_mean_per_min,
            jitter_p99_per_min: self.jitter_p99_per_min,
            reaction_rate: self.reaction_rate,
            reaction_p50_secs: self.reaction_p50_secs,
            reaction_p99_secs: self.reaction_p99_secs,
        }
    }

    pub open spec fn spec_pick(self, statistic: Statistic) -> Option<Double> {
        match statistic {
            Statistic::SettledP50 => self.settled_accuracy_p50,
            Statistic::SettledP99 => self.settled_accuracy_p99,
            Statistic::ConvRate => Some(self.convergence_rate),
            Statistic::ConvP50 => self.convergence_p50_secs,
            Statistic::ConvP99 => self.convergence_p99_secs,
            Statistic::ReactRate => self.reaction_rate,
            Statistic::ReactP50 => self.reaction_p50_secs,
            Statistic::ReactP99 => self.reaction_p99_secs,
            Statistic::JitterP50 => self.jitter_p50_per_min,
            Statistic::JitterMean => self.jitter_mean_per_min,
            Statistic::JitterP99 => self.jitter_p99_per_min,
        }
    }

    /// The measure that a statistic is made of.
    #[verifier::when_used_as_spec(spec_pick)]
    pub fn pick(self, statistic: Statistic) -> (r: Option<Double>)
        ensures
            r == self.pick(statistic),
    {
        match statistic {
            Statistic::SettledP50 => self.settled_accuracy_p50,
            Statistic::SettledP99 => self.settled_accuracy_p99,
            Statistic::ConvRate => Some(self.convergence_rate),
            Statistic::ConvP50 => self.convergence_p50_secs,
            Statistic::ConvP99 => self.convergence_p99_secs,
            Statistic::ReactRate => self.reaction_rate,
            Statistic::ReactP50 => self.reaction_p50_secs,
            Statistic::ReactP99 => self.reaction_p99_secs,
            Statistic::JitterP50 => self.jitter_p50_per_min,
            Statistic::JitterMean => self.jitter_mean_per_min,
            Statistic::JitterP99 => self.jitter_p99_per_min,
        }
    }
}

/// What a summary tells of.
#[derive(Clone, Copy, PartialEq, Eq, Structural, Debug)]
pub enum Statistic {
    SettledP50,
    SettledP99,
    ConvRate,
    ConvP50,
    ConvP99,
    ReactRate,
    ReactP50,
    ReactP99,
    JitterP50,
    JitterMean,
    JitterP99,
}

/// A statistic over all cells.
#[derive(Clone, Copy, PartialEq, Eq, Structural, Debug)]
pub struct CellStats {
    pub mean: Double,
}

/// The means over all cells.
#[derive(Clone, Copy, PartialEq, Eq, Structural, Debug)]
pub struct MetricsSummary {
    pub settled_p50: CellStats,
    pub settled_p99: CellStats,
    pub conv_rate: CellStats,
    pub conv_p50: CellStats,
    pub conv_p99: CellStats,
    pub react_rate: CellStats,
    pub react_p50: CellStats,
    pub react_p99: CellStats,
    pub jitter_p50: CellStats,
    pub jitter_mean: CellStats,
    pub jitter_p99: CellStats,
}

/// The mean of the finite numbers of a series; zero where there is none.
pub open spec fn mean_of(values: Seq<Double>) -> Double {
    let finite = values.filter(|x: Double| x.is_finite());
    if finite.len() == 0 {
        Double::from_bits(ZERO)
    } else {
        total_of(finite).over(Double::of_u64(finite.len() as u64))
    }
}

/// The mean of the finite numbers of a series; zero where there is none.
pub fn stats_of(values: &Vec<Double>) -> (r: CellStats)
    ensures
        r == (CellStats { mean: mean_of(values@) }),
{
    let mut finite: Vec<Double> = Vec::new();
    let mut i: usize = 0;
    let ghost keep = |x: Double| x.is_finite();
    proof {
        reveal(Seq::filter);
    }
    while i < values.len()
        invariant
            i <= values@.len(),
            keep == (|x: Double| x.is_finite()),
            finite@ == values@.take(i as int).filter(keep),
        decreases values.len() - i,
    {
        proof {
            reveal(Seq::filter);
            assert(values@.take(i + 1).drop_last() =~= values@.take(i as int));
        }
        if values[i].is_finite() {
            finite.push(values[i]);
        }
        i = i + 1;
    }
    proof {
        assert(values@.take(i as int) =~= values@);
    }
    if finite.len() == 0 {
        return CellStats { mean: Double::from_bits(ZERO) };
    }
    CellStats { mean: total(&finite).over(Double::of_u64(finite.len() as u64)) }
}

/// The numbers that the cells have for a statistic.
pub open spec fn numbers_of(results: Seq<CellResult>, statistic: Statistic) -> Seq<Double>
    decreases results.len(),
{
    if results.len() == 0 {
        Seq::empty()
    } else {
        let numbers = numbers_of(results.drop_last(), statistic);
        match results.last().measures.pick(statistic) {
            Some(x) => numbers.push(x),
            None => numbers,
        }
    }
}

/// The numbers that the cells have for a statistic.
fn numbers(results: &Vec<CellResult>, statistic: Statistic) -> (r: Vec<Double>)
    ensures
        r@ == numbers_of(results@, statistic),
{
    let mut out: Vec<Double> = Vec::new();
    let mut i: usize = 0;
    while i < results.len()
        invariant
            i <= results@.len(),
            out@ == numbers_of(results@.take(i as int), statistic),
        decreases results.len() - i,
    {
        proof {
            assert(results@.take(i + 1).drop_last() =~= results@.take(i as int));
        }
        match results[i].measures.pick(statistic) {
            Some(x) => {
                out.push(x);
            },
            None => {},
        }
        i = i + 1;
    }
    proof {
        assert(results@.take(i as int) =~= results@);
    }
    out
}

/// The summary of some results.
pub open spec fn summary_of(results: Seq<CellResult>) -> MetricsSummary {
    MetricsSummary {
        settled_p50: CellStats { mean: mean_of(numbers_of(results, Statistic::SettledP50)) },
        settled_p99: CellStats { mean: mean_of(numbers_of(results, Statistic::SettledP99)) },
        conv_rate: CellStats { mean: mean_of(numbers_of(results, Statistic::ConvRate)) },
        conv_p50: CellStats { mean: mean_of(numbers_of(results, Statistic::ConvP50)) },
        conv_p99: CellStats { mean: mean_of(numbers_of(results, Statistic::ConvP99)) },
        react_rate: CellStats { mean: mean_of(numbers_of(results, Statistic::ReactRate)) },
        react_p50: CellStats { mean: mean_of(numbers_of(results, Statistic::ReactP50)) },
        react_p99: CellStats { mean: mean_of(numbers_of(results, Statistic::ReactP99)) },
        jitter_p50: CellStats { mean: mean_of(numbers_of(results, Statistic::JitterP50)) },
        jitter_mean: CellStats { mean: mean_of(numbers_of(results, Statistic::JitterMean)) },
        jitter_p99: CellStats { mean: mean_of(numbers_of(results, Statistic::JitterP99)) },
    }
}

/// Sums up some results.
pub fn summarize(results: &Vec<CellResult>) -> (r: MetricsSummary)
    ensures
        r == summary_of(results@),
{
    MetricsSummary {
        settled_p50: stats_of(&numbers(results, Statistic::SettledP50)),
        settled_p99: stats_of(&numbers(results, Statistic::SettledP99)),
        conv_rate: stats_of(&numbers(results, Statistic::ConvRate)),
        conv_p50: stats_of(&numbers(results, Statistic::ConvP50)),
        conv_p99: stats_of(&numbers(results, Statistic::ConvP99)),
        react_rate: stats_of(&numbers(results, Statistic::ReactRate)),
        react_p50: stats_of(&numbers(results, Statistic::ReactP50)),
        react_p99: stats_of(&numbers(results, Statistic::ReactP99)),
        jitter_p50: stats_of(&numbers(results, Statistic::JitterP50)),
        jitter_mean: stats_of(&numbers(results, Statistic::JitterMean)),
        jitter_p99: stats_of(&numbers(results, Statistic::JitterP99)),
    }
}

} // verus!
