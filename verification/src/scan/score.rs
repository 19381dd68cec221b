use vstd::prelude::*;

use crate::compare::cells::Metrics;
use crate::compare::guards::{CellKind, cell_kind, kind_of};
use crate::compare::score::{excess, higher_regression, lower_regression};
use crate::float::double::Double;
use crate::float::numbers::{
    CENTI_1, CENTI_10, CENTI_2, CENTI_3, CENTI_5, CENTI_8, EIGHT, FIVE, FOUR, MILLI_1, MILLI_2,
    MILLI_5, ONE, ONE_AND_A_HALF, SIX, SIXTY, TEN, THIRTY, THREE, THREE_QUARTERS, TWENTY_FIVE,
    TWO, TWO_AND_A_HALF, ZERO,
};
use crate::float::single::Single;
use crate::scan::results::CellResult;
use crate::table::{Table, in_key_order, keys_of, lemma_entries_in_key_order, lemma_entry};
use crate::text::{append, append_decimal, decimal_of};

verus! {

/// What differences are measured in: rates, times, accuracies and jitters.
pub const SCALE_RATE: u64 = CENTI_5;

pub const SCALE_TIME: u64 = SIXTY;

pub const SCALE_ACC_P50: u64 = CENTI_5;

pub const SCALE_ACC_P99: u64 = CENTI_10;

pub const SCALE_JMEAN: u64 = CENTI_1;

pub const SCALE_JP99: u64 = CENTI_5;

/// The most that one metric can win.
pub const MAX_METRIC_BEAT: u64 = TWENTY_FIVE;

pub open spec fn spec_capped_excess(amount: Double, scale: Double) -> Double {
    if amount.le(Double::from_bits(ZERO)) {
        Double::from_bits(ZERO)
    } else {
        excess(amount, scale).min(Double::from_bits(MAX_METRIC_BEAT))
    }
}

/// The square of how many scales an amount is, or zero where it is not positive,
/// but no more than one metric can win.
#[verifier::when_used_as_spec(spec_capped_excess)]
pub fn capped_excess(amount: Double, scale: Double) -> (r: Double)
    ensures
        r == capped_excess(amount, scale),
{
    if amount.le(Double::from_bits(ZERO)) {
        return Double::from_bits(ZERO);
    }
    excess(amount, scale).min(Double::from_bits(MAX_METRIC_BEAT))
}

pub open spec fn spec_lower_beat(delta: Double, tolerance: Double, scale: Double) -> Double {
    spec_capped_excess(delta.neg().minus(tolerance), scale)
}

/// How much better a metric that should be low has become, beyond the tolerance.
#[verifier::when_used_as_spec(spec_lower_beat)]
pub fn lower_beat(delta: Double, tolerance: Double, scale: Double) -> (r: Double)
    ensures
        r == lower_beat(delta, tolerance, scale),
{
    capped_excess(delta.neg().minus(tolerance), scale)
}

pub open spec fn spec_higher_beat(delta: Double, tolerance: Double, scale: Double) -> Double {
    spec_capped_excess(delta.minus(tolerance), scale)
}

/// How much better a metric that should be high has become, beyond the tolerance.
#[verifier::when_used_as_spec(spec_higher_beat)]
pub fn higher_beat(delta: Double, tolerance: Double, scale: Double) -> (r: Double)
    ensures
        r == higher_beat(delta, tolerance, scale),
{
    capped_excess(delta.minus(tolerance), scale)
}

/// What a group of metrics adds up to.
#[derive(Clone, Copy, PartialEq, Eq, Structural, Debug)]
pub struct GroupAcc {
    pub reg_sum: Double,
    pub beat_sum: Double,
    pub term_count: Double,
}

impl GroupAcc {
    pub open spec fn spec_empty() -> GroupAcc {
        GroupAcc {
            reg_sum: Double::from_bits(ZERO),
            beat_sum: Double::from_bits(ZERO),
            term_count: Double::from_bits(ZERO),
        }
    }

    /// A group without metrics.
    #[verifier::when_used_as_spec(spec_empty)]
    pub fn empty() -> (r: GroupAcc)
        ensures
            r == Self::empty(),
    {
        GroupAcc {
            reg_sum: Double::from_bits(ZERO),
            beat_sum: Double::from_bits(ZERO),
            term_count: Double::from_bits(ZERO),
        }
    }

    /// With one more term.
    pub open spec fn spec_term(
        self,
        weight: u64,
        regression: Double,
        beat: Double,
        allow_beat: bool,
    ) -> GroupAcc {
        let w = Double::from_bits(weight);
        GroupAcc {
            reg_sum: self.reg_sum.plus(w.times(regression)),
            beat_sum: if allow_beat {
                self.beat_sum.plus(w.times(beat))
            } else {
                self.beat_sum
            },
            term_count: self.term_count.plus(Double::from_bits(ONE)),
        }
    }

    /// Adds one term; the weight is a bit pattern.
    #[verifier::when_used_as_spec(spec_term)]
    pub fn term(self, weight: u64, regression: Double, beat: Double, allow_beat: bool) -> (r: GroupAcc)
        ensures
            r == self.term(weight, regression, beat, allow_beat),
    {
        let w = Double::from_bits(weight);
        GroupAcc {
            reg_sum: self.reg_sum.plus(w.times(regression)),
            beat_sum: if allow_beat {
                self.beat_sum.plus(w.times(beat))
            } else {
                self.beat_sum
            },
            term_count: self.term_count.plus(Double::from_bits(ONE)),
        }
    }

    /// With a metric that should be low.
    #[verifier::opaque]
    pub open spec fn spec_add_lower(
        self,
        weight: u64,
        delta: Option<Double>,
        tolerance: u64,
        scale: u64,
        allow_beat: bool,
    ) -> GroupAcc {
        let (t, s) = (Double::from_bits(tolerance), Double::from_bits(scale));
        match delta {
            Some(d) => self.term(
                weight,
                lower_regression(d, t, s),
                lower_beat(d, t, s),
                allow_beat,
            ),
            None => self,
        }
    }

    /// Adds a metric that should be low; the weight, the tolerance and the scale are
    /// bit patterns.
    #[verifier::when_used_as_spec(spec_add_lower)]
    pub fn add_lower(
        self,
        weight: u64,
        delta: Option<Double>,
        tolerance: u64,
        scale: u64,
        allow_beat: bool,
    ) -> (r: GroupAcc)
        ensures
            r == self.add_lower(weight, delta, tolerance, scale, allow_beat),
    {
        reveal(GroupAcc::spec_add_lower);
        let t = Double::from_bits(tolerance);
        let s = Double::from_bits(scale);
        match delta {
            Some(d) => self.term(
                weight,
                lower_regression(d, t, s),
                lower_beat(d, t, s),
                allow_beat,
            ),
            None => self,
        }
    }

    /// With a metric that should be high.
    #[verifier::opaque]
    pub open spec fn spec_add_higher(
        self,
        weight: u64,
        delta: Option<Double>,
        tolerance: u64,
        scale: u64,
        allow_beat: bool,
    ) -> GroupAcc {
        let (t, s) = (Double::from_bits(tolerance), Double::from_bits(scale));
        match delta {
            Some(d) => self.term(
                weight,
                higher_regression(d, t, s),
                higher_beat(d, t, s),
                allow_beat,
            ),
            None => self,
        }
    }

    /// Adds a metric that should be high; the weight, the tolerance and the scale are
    /// bit patterns.
    #[verifier::when_used_as_spec(spec_add_higher)]
    pub fn add_higher(
        self,
        weight: u64,
        delta: Option<Double>,
        tolerance: u64,
        scale: u64,
        allow_beat: bool,
    ) -> (r: GroupAcc)
        ensures
            r == self.add_higher(weight, delta, tolerance, scale, allow_beat),
    {
        reveal(GroupAcc::spec_add_higher);
        let t = Double::from_bits(tolerance);
        let s = Double::from_bits(scale);
        match delta {
            Some(d) => self.term(
                weight,
                higher_regression(d, t, s),
                higher_beat(d, t, s),
                allow_beat,
            ),
            None => self,
        }
    }

    /// The sums for each metric that the group has.
    pub open spec fn spec_group_norm(self) -> (Double, Double) {
        let denom = self.term_count.max(Double::from_bits(ONE));
        (self.reg_sum.over(denom), self.beat_sum.over(denom))
    }

    /// The sums, divided by how many metrics the group has.
    #[verifier::when_used_as_spec(spec_group_norm)]
    pub fn group_norm(self) -> (r: (Double, Double))
        ensures
            r == self.group_norm(),
    {
        let denom = self.term_count.max(Double::from_bits(ONE));
        (self.reg_sum.over(denom), self.beat_sum.over(denom))
    }
}

/// The groups that metrics are summed up in.
#[derive(Clone, Copy, PartialEq, Eq, Structural, Debug)]
pub struct Groups {
    pub cold: GroupAcc,
    pub stable: GroupAcc,
    pub step_reaction: GroupAcc,
    pub step_quality: GroupAcc,
}

impl Groups {
    pub open spec fn spec_empty() -> Groups {
        Groups {
            cold: GroupAcc::empty(),
            stable: GroupAcc::empty(),
            step_reaction: GroupAcc::empty(),
            step_quality: GroupAcc::empty(),
        }
    }

    /// Groups without metrics.
    #[verifier::when_used_as_spec(spec_empty)]
    pub fn empty() -> (r: Groups)
        ensures
            r == Self::empty(),
    {
        Groups {
            cold: GroupAcc::empty(),
            stable: GroupAcc::empty(),
            step_reaction: GroupAcc::empty(),
            step_quality: GroupAcc::empty(),
        }
    }

    /// With the differences of one more cell.
    #[verifier::opaque]
    pub open spec fn spec_add_cell(self, kind: CellKind, d: Metrics) -> Groups {
        match kind {
            CellKind::ColdStart => Groups {
                cold: self.cold.add_higher(
                    EIGHT,
                    d.convergence_rate,
                    MILLI_5,
                    SCALE_RATE,
                    true,
                ).add_lower(SIX, d.convergence_p50_secs, THIRTY, SCALE_TIME, true).add_lower(
                    EIGHT,
                    d.convergence_p99_secs,
                    SIXTY,
                    SCALE_TIME,
                    true,
                ).add_lower(ONE, d.settled_accuracy_p50, CENTI_8, SCALE_ACC_P50, false).add_lower(
                    TWO,
                    d.settled_accuracy_p99,
                    CENTI_10,
                    SCALE_ACC_P99,
                    false,
                ).add_lower(ONE, d.jitter_mean_per_min, MILLI_5, SCALE_JMEAN, false).add_lower(
                    ONE,
                    d.jitter_p99_per_min,
                    CENTI_2,
                    SCALE_JP99,
                    false,
                ),
                ..self
            },
            CellKind::Stable => Groups {
                stable: self.stable.add_lower(
                    THREE,
                    d.settled_accuracy_p50,
                    CENTI_2,
                    SCALE_ACC_P50,
                    true,
                ).add_lower(FOUR, d.settled_accuracy_p99, CENTI_5, SCALE_ACC_P99, true).add_lower(
                    FOUR,
                    d.jitter_mean_per_min,
                    MILLI_1,
                    SCALE_JMEAN,
                    true,
                ).add_lower(FIVE, d.jitter_p99_per_min, CENTI_1, SCALE_JP99, true),
                ..self
            },
            CellKind::Step => Groups {
                step_reaction: self.step_reaction.add_higher(
                    TEN,
                    d.reaction_rate,
                    CENTI_3,
                    SCALE_RATE,
                    true,
                ).add_lower(SIX, d.reaction_p50_secs, THIRTY, SCALE_TIME, true).add_lower(
                    EIGHT,
                    d.reaction_p99_secs,
                    SIXTY,
                    SCALE_TIME,
                    true,
                ),
                step_quality: self.step_quality.add_lower(
                    TWO,
                    d.settled_accuracy_p50,
                    CENTI_5,
                    SCALE_ACC_P50,
                    true,
                ).add_lower(TWO, d.settled_accuracy_p99, CENTI_10, SCALE_ACC_P99, true).add_lower(
                    ONE,
                    d.jitter_mean_per_min,
                    MILLI_2,
                    SCALE_JMEAN,
                    true,
                ).add_lower(ONE, d.jitter_p99_per_min, CENTI_2, SCALE_JP99, true),
                ..self
            },
            CellKind::Other => self,
        }
    }

    /// Adds the differences of one more cell. How accurate and how steady a cold
    /// start is can only count against it.
    #[verifier::when_used_as_spec(spec_add_cell)]
    pub fn add_cell(self, kind: CellKind, d: Metrics) -> (r: Groups)
        ensures
            r == self.add_cell(kind, d),
    {
        reveal(Groups::spec_add_cell);
        match kind {
            CellKind::ColdStart => Groups {
                cold: self.cold.add_higher(
                    EIGHT,
                    d.convergence_rate,
                    MILLI_5,
                    SCALE_RATE,
                    true,
                ).add_lower(SIX, d.convergence_p50_secs, THIRTY, SCALE_TIME, true).add_lower(
                    EIGHT,
                    d.convergence_p99_secs,
                    SIXTY,
                    SCALE_TIME,
                    true,
                ).add_lower(ONE, d.settled_accuracy_p50, CENTI_8, SCALE_ACC_P50, false).add_lower(
                    TWO,
                    d.settled_accuracy_p99,
                    CENTI_10,
                    SCALE_ACC_P99,
                    false,
                ).add_lower(ONE, d.jitter_mean_per_min, MILLI_5, SCALE_JMEAN, false).add_lower(
                    ONE,
                    d.jitter_p99_per_min,
                    CENTI_2,
                    SCALE_JP99,
                    false,
                ),
                ..self
            },
            CellKind::Stable => Groups {
                stable: self.stable.add_lower(
                    THREE,
                    d.settled_accuracy_p50,
                    CENTI_2,
                    SCALE_ACC_P50,
                    true,
                ).add_lower(FOUR, d.settled_accuracy_p99, CENTI_5, SCALE_ACC_P99, true).add_lower(
                    FOUR,
                    d.jitter_mean_per_min,
                    MILLI_1,
                    SCALE_JMEAN,
                    true,
                ).add_lower(FIVE, d.jitter_p99_per_min, CENTI_1, SCALE_JP99, true),
                ..self
            },
            CellKind::Step => Groups {
                step_reaction: self.step_reaction.add_higher(
                    TEN,
                    d.reaction_rate,
                    CENTI_3,
                    SCALE_RATE,
                    true,
                ).add_lower(SIX, d.reaction_p50_secs, THIRTY, SCALE_TIME, true).add_lower(
                    EIGHT,
                    d.reaction_p99_secs,
                    SIXTY,
                    SCALE_TIME,
                    true,
                ),
                step_quality: self.step_quality.add_lower(
                    TWO,
                    d.settled_accuracy_p50,
                    CENTI_5,
                    SCALE_ACC_P50,
                    true,
                ).add_lower(TWO, d.settled_accuracy_p99, CENTI_10, SCALE_ACC_P99, true).add_lower(
                    ONE,
                    d.jitter_mean_per_min,
                    MILLI_2,
                    SCALE_JMEAN,
                    true,
                ).add_lower(ONE, d.jitter_p99_per_min, CENTI_2, SCALE_JP99, true),
                ..self
            },
            CellKind::Other => self,
        }
    }

    pub open spec fn spec_breakdown(self) -> ScoreBreakdown {
        let (cold_reg, cold_beat) = self.cold.group_norm();
        let (stable_reg, stable_beat) = self.stable.group_norm();
        let (step_reaction_reg, step_reaction_beat) = self.step_reaction.group_norm();
        let (step_quality_reg, step_quality_beat) = self.step_quality.group_norm();
        ScoreBreakdown {
            reg: Double::from_bits(ONE).times(cold_reg).plus(
                Double::from_bits(ONE_AND_A_HALF).times(stable_reg),
            ).plus(Double::from_bits(TWO_AND_A_HALF).times(step_reaction_reg)).plus(
                Double::from_bits(ONE_AND_A_HALF).times(step_quality_reg),
            ),
            beat: Double::from_bits(ONE).times(cold_beat).plus(
                Double::from_bits(ONE).times(stable_beat),
            ).plus(Double::from_bits(TWO).times(step_reaction_beat)).plus(
                Double::from_bits(THREE_QUARTERS).times(step_quality_beat),
            ),
            cold_reg,
            cold_beat,
            stable_reg,
            stable_beat,
            step_reaction_reg,
            step_reaction_beat,
            step_quality_reg,
            step_quality_beat,
        }
    }

    /// The weighted scores of the groups.
    #[verifier::when_used_as_spec(spec_breakdown)]
    pub fn breakdown(self) -> (r: ScoreBreakdown)
        ensures
            r == self.breakdown(),
    {
        let (cold_reg, cold_beat) = self.cold.group_norm();
        let (stable_reg, stable_beat) = self.stable.group_norm();
        let (step_reaction_reg, step_reaction_beat) = self.step_reaction.group_norm();
        let (step_quality_reg, step_quality_beat) = self.step_quality.group_norm();
        let reg = Double::from_bits(ONE).times(cold_reg).plus(
            Double::from_bits(ONE_AND_A_HALF).times(stable_reg),
        ).plus(Double::from_bits(TWO_AND_A_HALF).times(step_reaction_reg)).plus(
            Double::from_bits(ONE_AND_A_HALF).times(step_quality_reg),
        );
        let beat = Double::from_bits(ONE).times(cold_beat).plus(
            Double::from_bits(ONE).times(stable_beat),
        ).plus(Double::from_bits(TWO).times(step_reaction_beat)).plus(
            Double::from_bits(THREE_QUARTERS).times(step_quality_beat),
        );
        ScoreBreakdown {
            reg,
            beat,
            cold_reg,
            cold_beat,
            stable_reg,
            stable_beat,
            step_reaction_reg,
            step_reaction_beat,
            step_quality_reg,
            step_quality_beat,
        }
    }
}

/// How much worse and how much better a run is, as a whole and by group.
#[derive(Clone, Copy, PartialEq, Eq, Structural, Debug)]
pub struct ScoreBreakdown {
    pub reg: Double,
    pub beat: Double,
    pub cold_reg: Double,
    pub cold_beat: Double,
    pub stable_reg: Double,
    pub stable_beat: Double,
    pub step_reaction_reg: Double,
    pub step_reaction_beat: Double,
    pub step_quality_reg: Double,
    pub step_quality_beat: Double,
}

/// The name of a cell: how many shares per minute it has, and its scenario.
pub open spec fn cell_name(shares_per_minute: Single, scenario_key: Seq<char>) -> Seq<char> {
    "spm_"@ + decimal_of(shares_per_minute.trunc_to_u32() as nat) + "."@ + scenario_key
}

impl CellResult {
    pub open spec fn named(self) -> Seq<char> {
        cell_name(self.shares_per_minute, self.scenario_key@)
    }

    /// The name of the cell.
    pub fn name(&self) -> (r: String)
        ensures
            r@ == self.named(),
    {
        let mut out = "spm_".to_owned();
        append_decimal(&mut out, self.shares_per_minute.trunc_to_u32());
        append(&mut out, ".");
        append(&mut out, self.scenario_key.as_str());
        out
    }
}

/// Where each cell stands in some results; the last one of a name counts.
pub open spec fn places_of(results: Seq<CellResult>) -> Map<Seq<char>, usize>
    decreases results.len(),
{
    if results.len() == 0 {
        Map::empty()
    } else {
        places_of(results.drop_last()).insert(
            results.last().named(),
            (results.len() - 1) as usize,
        )
    }
}

/// Finds where each cell stands.
fn places(results: &Vec<CellResult>) -> (r: Table<usize>)
    ensures
        r.wf(),
        r@ == places_of(results@),
        forall|k: Seq<char>| #[trigger] r@.contains_key(k) ==> r@[k] < results@.len(),
{
    let mut table: Table<usize> = Table::new();
    let mut i: usize = 0;
    while i < results.len()
        invariant
            i <= results@.len(),
            table.wf(),
            table@ == places_of(results@.take(i as int)),
            forall|k: Seq<char>| #[trigger] table@.contains_key(k) ==> table@[k] < i,
        decreases results.len() - i,
    {
        proof {
            assert(results@.take(i + 1).drop_last() =~= results@.take(i as int));
        }
        table.insert(results[i].name(), i);
        i = i + 1;
    }
    proof {
        assert(results@.take(i as int) =~= results@);
    }
    table
}

/// The groups after some cells, which both runs may have.
pub open spec fn grouped(
    keys: Seq<Seq<char>>,
    current: Seq<CellResult>,
    baseline: Seq<CellResult>,
) -> Groups
    decreases keys.len(),
{
    if keys.len() == 0 {
        Groups::empty()
    } else {
        let groups = grouped(keys.drop_last(), current, baseline);
        let key = keys.last();
        if places_of(current).contains_key(key) {
            let c = current[places_of(current)[key] as int];
            let v = baseline[places_of(baseline)[key] as int];
            groups.add_cell(
                kind_of(v.scenario_key@),
                c.measures.metrics().minus(v.measures.metrics()),
            )
        } else {
            groups
        }
    }
}

/// Scores a run against a baseline: the cells that both have, in the order of
/// their names.
pub fn score_per_cell(current: &Vec<CellResult>, baseline: &Vec<CellResult>) -> (r: ScoreBreakdown)
    ensures
        r == grouped(
            in_key_order(places_of(baseline@).dom()),
            current@,
            baseline@,
        ).breakdown(),
{
    let vmap = places(baseline);
    let cmap = places(current);
    let mut groups = Groups::empty();
    let n = vmap.entries.len();
    let mut i: usize = 0;
    let ghost keys = keys_of(vmap.entries@);
    proof {
        lemma_entries_in_key_order(vmap.entries@);
    }
    while i < n
        invariant
            i <= n == vmap.entries@.len(),
            keys == keys_of(vmap.entries@),
            vmap.wf(),
            cmap.wf(),
            vmap@ == places_of(baseline@),
            cmap@ == places_of(current@),
            forall|k: Seq<char>| #[trigger] vmap@.contains_key(k) ==> vmap@[k] < baseline@.len(),
            forall|k: Seq<char>| #[trigger] cmap@.contains_key(k) ==> cmap@[k] < current@.len(),
            groups == grouped(keys.take(i as int), current@, baseline@),
        decreases n - i,
    {
        let entry = &vmap.entries[i];
        proof {
            lemma_entry(vmap.entries@, i as int);
            assert(keys.take(i + 1).drop_last() =~= keys.take(i as int));
            assert(keys.take(i + 1).last() == entry.0@);
        }
        match cmap.get(entry.0.as_str()) {
            Some(place) => {
                let v = &baseline[entry.1];
                let c = &current[*place];
                let d = c.measures.metrics().minus(v.measures.metrics());
                groups = groups.add_cell(cell_kind(v.scenario_key.as_str()), d);
            },
            None => {},
        }
        i = i + 1;
    }
    proof {
        assert(keys.take(i as int) =~= keys);
    }
    groups.breakdown()
}

} // verus!
