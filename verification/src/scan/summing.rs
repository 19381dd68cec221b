use vstd::arithmetic::div_mod::lemma_fundamental_div_mod_converse;
use vstd::arithmetic::power2::{lemma_pow2_pos, pow2};
use vstd::prelude::*;

use crate::compare::cells::Metrics;
use crate::compare::directions::{clean, lemma_clean_sum};
use crate::compare::guards::kind_of;
use crate::float::arithmetic::lemma_significand_bounds;
use crate::float::double::Double;
use crate::float::exact::{
    lemma_and_nothing, lemma_less_zero, lemma_nothing_and, lemma_of_u64_exact, lemma_over_one,
    lemma_quotient_is_finite, lemma_same_value, lemma_times_sign, lemma_whole_sum, lemma_zero_plus,
};
use crate::float::format::Format;
use crate::float::laws::{
    lemma_magnitude_of_one, lemma_minus_is_finite, lemma_nearest_zero_is_zero,
    lemma_of_u64_monotone, lemma_over_is_number, lemma_over_monotone, lemma_over_not_negative,
    lemma_plus_commutes, lemma_plus_is_number, lemma_plus_monotone, lemma_plus_not_negative,
    lemma_rank_orders_values, lemma_single_survives_double, lemma_times_commutes,
    lemma_to_double_exact, lemma_to_single_monotone, lemma_zero_over, lemma_zero_times,
};
use crate::float::numbers::{ONE, ONE_AND_A_HALF, THREE, THREE_QUARTERS, TWO, TWO_AND_A_HALF, ZERO};
use crate::float::series::total_of;
use crate::float::single::Single;
use crate::float::whole::{lemma_total_of_whole_numbers, lemma_whole_quotient, sum_of, whole};
use crate::scan::climb::{Candidate, Climb, Evaluation, Settings, Stage};
use crate::scan::directions::all_clean;
use crate::scan::laws::lemma_sample_within_width;
use crate::scan::params::{Range, SearchBounds, TuneParams};
use crate::scan::results::{
    CellResult, Distribution, Measures, Statistic, mean_of, measures_of, numbers_of, summary_of,
    trial_seed,
};
use crate::scan::rng::{SplitMix64, lemma_unit};
use crate::scan::score::{GroupAcc, Groups, ScoreBreakdown, grouped, places_of};
use crate::vardiff::laws::lemma_multiple_is_number;

verus! {

/// Each measure is that percentile, or the mean, of its own quantity; and only steps have
/// reactions.
pub proof fn lemma_measures_are_of_their_names(
    is_step: bool,
    rate: Double,
    convergence: Distribution,
    accuracy: Distribution,
    jitter: Distribution,
    reaction: (Double, Distribution),
)
    ensures
        ({
            let m = measures_of(is_step, rate, convergence, accuracy, jitter, Some(reaction));
            let n = measures_of(is_step, rate, convergence, accuracy, jitter, None);
            &&& m.convergence_rate == rate && n.convergence_rate == rate
            &&& convergence == (Distribution {
                p10: m.convergence_p10_secs,
                p50: m.convergence_p50_secs,
                p90: m.convergence_p90_secs,
                p95: m.convergence_p95_secs,
                p99: m.convergence_p99_secs,
                ..convergence
            })
            &&& accuracy == (Distribution {
                p10: m.settled_accuracy_p10,
                p50: m.settled_accuracy_p50,
                p90: m.settled_accuracy_p90,
                p95: m.settled_accuracy_p95,
                p99: m.settled_accuracy_p99,
                ..accuracy
            })
            &&& jitter == (Distribution {
                p50: m.jitter_p50_per_min,
                p90: m.jitter_p90_per_min,
                p95: m.jitter_p95_per_min,
                p99: m.jitter_p99_per_min,
                mean: m.jitter_mean_per_min,
                ..jitter
            })
            &&& is_step ==> m.reaction_rate == Some(reaction.0) && reaction.1 == (Distribution {
                p10: m.reaction_p10_secs,
                p50: m.reaction_p50_secs,
                p90: m.reaction_p90_secs,
                p99: m.reaction_p99_secs,
                ..reaction.1
            })
            &&& !is_step ==> m == n
            &&& n.reaction_rate is None && n.reaction_p10_secs is None && n.reaction_p50_secs
                is None && n.reaction_p90_secs is None && n.reaction_p99_secs is None
        }),
{
}

/// Cells are compared by the measures of the same names.
pub proof fn lemma_metrics_are_of_their_names(m: Measures)
    ensures
        m.metrics() == (Metrics {
            convergence_rate: Some(m.convergence_rate),
            convergence_p50_secs: m.convergence_p50_secs,
            convergence_p99_secs: m.convergence_p99_secs,
            settled_accuracy_p50: m.settled_accuracy_p50,
            settled_accuracy_p99: m.settled_accuracy_p99,
            jitter_mean_per_min: m.jitter_mean_per_min,
            jitter_p99_per_min: m.jitter_p99_per_min,
            reaction_rate: m.reaction_rate,
            reaction_p50_secs: m.reaction_p50_secs,
            reaction_p99_secs: m.reaction_p99_secs,
        }),
{
}

/// The mean is that of one cell's measure, or zero where the cell has none.
pub open spec fn is_mean_of(mean: Double, measure: Option<Double>) -> bool {
    match measure {
        Some(x) => x.is_finite() ==> mean.rank() == x.rank(),
        None => mean.rank() == 0,
    }
}

/// A summary tells of each quantity under its own name: that of a single cell has the
/// measures of the cell.
pub proof fn lemma_summaries_are_of_their_names(result: CellResult)
    ensures
        ({
            let s = summary_of(seq![result]);
            let m = result.measures;
            &&& is_mean_of(s.conv_rate.mean, Some(m.convergence_rate))
            &&& is_mean_of(s.settled_p50.mean, m.settled_accuracy_p50)
            &&& is_mean_of(s.settled_p99.mean, m.settled_accuracy_p99)
            &&& is_mean_of(s.conv_p50.mean, m.convergence_p50_secs)
            &&& is_mean_of(s.conv_p99.mean, m.convergence_p99_secs)
            &&& is_mean_of(s.react_rate.mean, m.reaction_rate)
            &&& is_mean_of(s.react_p50.mean, m.reaction_p50_secs)
            &&& is_mean_of(s.react_p99.mean, m.reaction_p99_secs)
            &&& is_mean_of(s.jitter_p50.mean, m.jitter_p50_per_min)
            &&& is_mean_of(s.jitter_mean.mean, m.jitter_mean_per_min)
            &&& is_mean_of(s.jitter_p99.mean, m.jitter_p99_per_min)
        }),
{
    lemma_mean_of_one_cell(result, Statistic::SettledP50);
    lemma_mean_of_one_cell(result, Statistic::SettledP99);
    lemma_mean_of_one_cell(result, Statistic::ConvRate);
    lemma_mean_of_one_cell(result, Statistic::ConvP50);
    lemma_mean_of_one_cell(result, Statistic::ConvP99);
    lemma_mean_of_one_cell(result, Statistic::ReactRate);
    lemma_mean_of_one_cell(result, Statistic::ReactP50);
    lemma_mean_of_one_cell(result, Statistic::ReactP99);
    lemma_mean_of_one_cell(result, Statistic::JitterP50);
    lemma_mean_of_one_cell(result, Statistic::JitterMean);
    lemma_mean_of_one_cell(result, Statistic::JitterP99);
}

proof fn lemma_mean_of_one_cell(result: CellResult, statistic: Statistic)
    ensures
        is_mean_of(
            mean_of(numbers_of(seq![result], statistic)),
            result.measures.pick(statistic),
        ),
{
    reveal(Seq::filter);
    let results = seq![result];
    assert(results.drop_last() =~= Seq::<CellResult>::empty());
    assert(numbers_of(results.drop_last(), statistic) =~= Seq::<Double>::empty());
    let keep = |x: Double| x.is_finite();
    let empty = Seq::<Double>::empty();
    assert(empty.filter(keep) =~= empty);
    if let Some(x) = result.measures.pick(statistic) {
        let one = seq![x];
        assert(numbers_of(results, statistic) =~= one);
        assert(one.drop_last() =~= empty);
        assert(one.last() == x);
        if x.is_finite() {
            assert(one.filter(keep) =~= one);
            lemma_total_of_one(x);
            lemma_of_u64_exact(1);
            lemma_magnitude_of_one();
            lemma_same_value(Double::of_u64(1), Double::from_bits(ONE));
            lemma_over_one(total_of(one));
        }
    } else {
        assert(numbers_of(results, statistic) =~= empty);
    }
}

/// The sum of one number is that number.
proof fn lemma_total_of_one(x: Double)
    requires
        x.is_finite(),
    ensures
        total_of(seq![x]).rank() == x.rank(),
        total_of(seq![x]).is_finite(),
{
    let one = seq![x];
    assert(one.drop_last() =~= Seq::<Double>::empty());
    let start = total_of(one.drop_last());
    assert(start.rank() == 0 && start.is_finite());
    lemma_nothing_and(start, x);
}

/// An empty group has no scores.
proof fn lemma_empty_norm()
    ensures
        GroupAcc::empty().group_norm() == (Double::from_bits(ZERO), Double::from_bits(ZERO)),
{
    lemma_zero_over(Double::from_bits(ONE));
}

/// Weighted nothing is nothing.
proof fn lemma_weighted_nothing(weight: u64)
    requires
        Double::from_bits(weight).is_finite(),
    ensures
        Double::from_bits(weight).times(Double::from_bits(ZERO)).is_finite(),
        Double::from_bits(weight).times(Double::from_bits(ZERO)).rank() == 0,
{
    lemma_times_commutes(Double::from_bits(weight), Double::from_bits(ZERO));
    lemma_zero_times(Double::from_bits(ZERO), Double::from_bits(weight));
}

/// A group whose sums are over one or more terms, and stay finite when they are weighted.
pub open spec fn weighable(g: GroupAcc, reg_weight: u64, beat_weight: u64) -> bool {
    &&& Double::from_bits(ONE).le(g.term_count)
    &&& Double::from_bits(reg_weight).times(g.reg_sum.over(g.term_count)).is_finite()
    &&& Double::from_bits(beat_weight).times(g.beat_sum.over(g.term_count)).is_finite()
}

/// The scores are those of one group: its sums over the number of its terms, weighted.
pub open spec fn scores_group(
    b: ScoreBreakdown,
    g: GroupAcc,
    reg_weight: u64,
    beat_weight: u64,
) -> bool {
    &&& b.reg.rank() == Double::from_bits(reg_weight).times(g.reg_sum.over(g.term_count)).rank()
    &&& b.beat.rank() == Double::from_bits(beat_weight).times(g.beat_sum.over(g.term_count)).rank()
}

/// The sum of four numbers of which only one counts.
proof fn lemma_only_one_counts(a: Double, b: Double, c: Double, d: Double)
    requires
        a.is_finite(),
        b.is_finite(),
        c.is_finite(),
        d.is_finite(),
    ensures
        b.rank() == 0 && c.rank() == 0 && d.rank() == 0 ==> a.plus(b).plus(c).plus(d).rank()
            == a.rank(),
        a.rank() == 0 && c.rank() == 0 && d.rank() == 0 ==> a.plus(b).plus(c).plus(d).rank()
            == b.rank(),
        a.rank() == 0 && b.rank() == 0 && d.rank() == 0 ==> a.plus(b).plus(c).plus(d).rank()
            == c.rank(),
        a.rank() == 0 && b.rank() == 0 && c.rank() == 0 ==> a.plus(b).plus(c).plus(d).rank()
            == d.rank(),
{
    if a.rank() == 0 {
        lemma_nothing_and(a, b);
    }
    if b.rank() == 0 {
        lemma_and_nothing(a, b);
    }
    let ab = a.plus(b);
    if ab.is_finite() && ab.rank() == 0 {
        lemma_nothing_and(ab, c);
    }
    if ab.is_finite() && c.rank() == 0 {
        lemma_and_nothing(ab, c);
    }
    let abc = ab.plus(c);
    if abc.is_finite() && abc.rank() == 0 {
        lemma_nothing_and(abc, d);
    }
    if abc.is_finite() && d.rank() == 0 {
        lemma_and_nothing(abc, d);
    }
}

/// The cold starts weigh 1, whether lost or won.
pub proof fn lemma_what_cold_weighs(g: Groups)
    requires
        g.stable == GroupAcc::empty(),
        g.step_reaction == GroupAcc::empty(),
        g.step_quality == GroupAcc::empty(),
        weighable(g.cold, ONE, ONE),
    ensures
        scores_group(g.breakdown(), g.cold, ONE, ONE),
        g.breakdown().cold_reg == g.cold.reg_sum.over(g.cold.term_count),
        g.breakdown().cold_beat == g.cold.beat_sum.over(g.cold.term_count),
{
    let b = g.breakdown();
    lemma_empty_norm();
    lemma_weighted_nothing(ONE);
    lemma_weighted_nothing(ONE_AND_A_HALF);
    lemma_weighted_nothing(TWO);
    lemma_weighted_nothing(TWO_AND_A_HALF);
    lemma_weighted_nothing(THREE_QUARTERS);
    assert(g.cold.group_norm() == (
        g.cold.reg_sum.over(g.cold.term_count),
        g.cold.beat_sum.over(g.cold.term_count),
    ));
    lemma_only_one_counts(
        Double::from_bits(ONE).times(b.cold_reg),
        Double::from_bits(ONE_AND_A_HALF).times(b.stable_reg),
        Double::from_bits(TWO_AND_A_HALF).times(b.step_reaction_reg),
        Double::from_bits(ONE_AND_A_HALF).times(b.step_quality_reg),
    );
    lemma_only_one_counts(
        Double::from_bits(ONE).times(b.cold_beat),
        Double::from_bits(ONE).times(b.stable_beat),
        Double::from_bits(TWO).times(b.step_reaction_beat),
        Double::from_bits(THREE_QUARTERS).times(b.step_quality_beat),
    );
}

/// The stable cells weigh 1.5 where they lose and 1 where they win.
pub proof fn lemma_what_stable_weighs(g: Groups)
    requires
        g.cold == GroupAcc::empty(),
        g.step_reaction == GroupAcc::empty(),
        g.step_quality == GroupAcc::empty(),
        weighable(g.stable, ONE_AND_A_HALF, ONE),
    ensures
        scores_group(g.breakdown(), g.stable, ONE_AND_A_HALF, ONE),
        g.breakdown().stable_reg == g.stable.reg_sum.over(g.stable.term_count),
        g.breakdown().stable_beat == g.stable.beat_sum.over(g.stable.term_count),
{
    let b = g.breakdown();
    lemma_empty_norm();
    lemma_weighted_nothing(ONE);
    lemma_weighted_nothing(ONE_AND_A_HALF);
    lemma_weighted_nothing(TWO);
    lemma_weighted_nothing(TWO_AND_A_HALF);
    lemma_weighted_nothing(THREE_QUARTERS);
    assert(g.stable.group_norm() == (
        g.stable.reg_sum.over(g.stable.term_count),
        g.stable.beat_sum.over(g.stable.term_count),
    ));
    lemma_only_one_counts(
        Double::from_bits(ONE).times(b.cold_reg),
        Double::from_bits(ONE_AND_A_HALF).times(b.stable_reg),
        Double::from_bits(TWO_AND_A_HALF).times(b.step_reaction_reg),
        Double::from_bits(ONE_AND_A_HALF).times(b.step_quality_reg),
    );
    lemma_only_one_counts(
        Double::from_bits(ONE).times(b.cold_beat),
        Double::from_bits(ONE).times(b.stable_beat),
        Double::from_bits(TWO).times(b.step_reaction_beat),
        Double::from_bits(THREE_QUARTERS).times(b.step_quality_beat),
    );
}

/// The reactions to steps weigh 2.5 where they lose and 2 where they win.
pub proof fn lemma_what_step_reaction_weighs(g: Groups)
    requires
        g.cold == GroupAcc::empty(),
        g.stable == GroupAcc::empty(),
        g.step_quality == GroupAcc::empty(),
        weighable(g.step_reaction, TWO_AND_A_HALF, TWO),
    ensures
        scores_group(g.breakdown(), g.step_reaction, TWO_AND_A_HALF, TWO),
        g.breakdown().step_reaction_reg == g.step_reaction.reg_sum.over(g.step_reaction.term_count),
        g.breakdown().step_reaction_beat == g.step_reaction.beat_sum.over(
            g.step_reaction.term_count,
        ),
{
    let b = g.breakdown();
    lemma_empty_norm();
    lemma_weighted_nothing(ONE);
    lemma_weighted_nothing(ONE_AND_A_HALF);
    lemma_weighted_nothing(TWO);
    lemma_weighted_nothing(TWO_AND_A_HALF);
    lemma_weighted_nothing(THREE_QUARTERS);
    assert(g.step_reaction.group_norm() == (
        g.step_reaction.reg_sum.over(g.step_reaction.term_count),
        g.step_reaction.beat_sum.over(g.step_reaction.term_count),
    ));
    lemma_only_one_counts(
        Double::from_bits(ONE).times(b.cold_reg),
        Double::from_bits(ONE_AND_A_HALF).times(b.stable_reg),
        Double::from_bits(TWO_AND_A_HALF).times(b.step_reaction_reg),
        Double::from_bits(ONE_AND_A_HALF).times(b.step_quality_reg),
    );
    lemma_only_one_counts(
        Double::from_bits(ONE).times(b.cold_beat),
        Double::from_bits(ONE).times(b.stable_beat),
        Double::from_bits(TWO).times(b.step_reaction_beat),
        Double::from_bits(THREE_QUARTERS).times(b.step_quality_beat),
    );
}

/// The quality after steps weighs 1.5 where it loses and 0.75 where it wins.
pub proof fn lemma_what_step_quality_weighs(g: Groups)
    requires
        g.cold == GroupAcc::empty(),
        g.stable == GroupAcc::empty(),
        g.step_reaction == GroupAcc::empty(),
        weighable(g.step_quality, ONE_AND_A_HALF, THREE_QUARTERS),
    ensures
        scores_group(g.breakdown(), g.step_quality, ONE_AND_A_HALF, THREE_QUARTERS),
        g.breakdown().step_quality_reg == g.step_quality.reg_sum.over(g.step_quality.term_count),
        g.breakdown().step_quality_beat == g.step_quality.beat_sum.over(g.step_quality.term_count),
{
    let b = g.breakdown();
    lemma_empty_norm();
    lemma_weighted_nothing(ONE);
    lemma_weighted_nothing(ONE_AND_A_HALF);
    lemma_weighted_nothing(TWO);
    lemma_weighted_nothing(TWO_AND_A_HALF);
    lemma_weighted_nothing(THREE_QUARTERS);
    assert(g.step_quality.group_norm() == (
        g.step_quality.reg_sum.over(g.step_quality.term_count),
        g.step_quality.beat_sum.over(g.step_quality.term_count),
    ));
    lemma_only_one_counts(
        Double::from_bits(ONE).times(b.cold_reg),
        Double::from_bits(ONE_AND_A_HALF).times(b.stable_reg),
        Double::from_bits(TWO_AND_A_HALF).times(b.step_reaction_reg),
        Double::from_bits(ONE_AND_A_HALF).times(b.step_quality_reg),
    );
    lemma_only_one_counts(
        Double::from_bits(ONE).times(b.cold_beat),
        Double::from_bits(ONE).times(b.stable_beat),
        Double::from_bits(TWO).times(b.step_reaction_beat),
        Double::from_bits(THREE_QUARTERS).times(b.step_quality_beat),
    );
}

/// The score that is to be low is what was lost where nothing was won, what was won,
/// negated, where nothing was lost, and no higher the more was won.
pub proof fn lemma_scores_are_to_be_low(lost: Evaluation, more: Evaluation)
    requires
        lost.breakdown.reg.is_finite(),
        !lost.breakdown.reg.parts().negative,
        lost.breakdown.beat.is_finite(),
        !lost.breakdown.beat.parts().negative,
        more.breakdown.reg == lost.breakdown.reg,
        more.breakdown.beat.is_finite(),
        lost.breakdown.beat.le(more.breakdown.beat),
        !more.breakdown.beat.parts().negative,
    ensures
        lost.breakdown.beat == Double::from_bits(ZERO) ==> lost.score().rank()
            == lost.breakdown.reg.rank(),
        lost.breakdown.reg == Double::from_bits(ZERO) ==> lost.score().rank()
            == -lost.breakdown.beat.rank(),
        more.score().le(lost.score()),
{
    let one = Double::from_bits(ONE);
    let reg = lost.breakdown.reg;
    let (a, b) = (lost.breakdown.beat, more.breakdown.beat);
    let d = one.plus(reg);
    lemma_plus_not_negative(one, reg);
    lemma_over_is_number(a, d);
    lemma_over_is_number(b, d);
    lemma_over_not_negative(a, d);
    lemma_over_not_negative(b, d);
    lemma_over_monotone(a, b, d);
    let (x, y) = (a.over(d), b.over(d));
    assert(x.neg().parts().code == x.parts().code && y.neg().parts().code == y.parts().code);
    lemma_plus_is_number(reg, x.neg());
    lemma_plus_is_number(reg, y.neg());
    lemma_plus_monotone(reg, y.neg(), x.neg());
    if a == Double::from_bits(ZERO) {
        lemma_zero_over(d);
        lemma_less_zero(reg, x);
    }
    if reg == Double::from_bits(ZERO) {
        lemma_plus_commutes(one, reg);
        lemma_zero_plus(one);
        lemma_over_one(a);
        lemma_nothing_and(reg, x.neg());
    }
}

/// Parameters picked at random lie in the intervals of their own names, as far as
/// rounding allows.
pub proof fn lemma_random_within_bounds(bounds: SearchBounds, rng: SplitMix64)
    requires
        usable(bounds.start_pct),
        usable(bounds.floor_pct),
        usable(bounds.half_life_secs),
        usable(bounds.power),
    ensures
        ({
            let p = bounds.random(rng);
            &&& picked_from(p.start_pct, bounds.start_pct)
            &&& picked_from(p.floor_pct, bounds.floor_pct)
            &&& picked_from(p.half_life_secs, bounds.half_life_secs)
            &&& picked_from(p.power, bounds.power)
        }),
{
    lemma_picked(bounds.start_pct, rng);
    lemma_picked(bounds.floor_pct, rng.after_draws(1));
    lemma_picked(bounds.half_life_secs, rng.after_draws(2));
    lemma_picked(bounds.power, rng.after_draws(3));
}

/// The ends are finite, and so is what lies between them.
pub open spec fn usable(range: Range) -> bool {
    range.min.is_finite() && range.max.is_finite() && range.width().is_finite()
}

/// The number lies between the least one and that plus the width.
pub open spec fn picked_from(x: Single, range: Range) -> bool {
    range.min.to_single().le(x) && x.le(range.min.plus(range.width()).to_single())
}

proof fn lemma_picked(range: Range, rng: SplitMix64)
    requires
        usable(range),
    ensures
        picked_from(range.sampled(rng).to_single(), range),
{
    lemma_sample_within_width(range, rng);
    lemma_to_single_monotone(range.min, range.sampled(rng));
    lemma_to_single_monotone(range.sampled(rng), range.min.plus(range.width()));
}

/// The number is positive and lies in the interval.
pub open spec fn lies_in(x: Single, range: Range) -> bool {
    &&& x.is_finite()
    &&& x.rank() > 0
    &&& range.min.le(x.to_double())
    &&& x.to_double().le(range.max)
}

/// A step of zero moves no parameter that lies in the interval of its own name.
pub proof fn lemma_no_step_moves_nothing(
    bounds: SearchBounds,
    current: TuneParams,
    rng: SplitMix64,
)
    requires
        usable(bounds.start_pct),
        usable(bounds.floor_pct),
        usable(bounds.half_life_secs),
        usable(bounds.power),
        lies_in(current.start_pct, bounds.start_pct),
        lies_in(current.floor_pct, bounds.floor_pct),
        lies_in(current.half_life_secs, bounds.half_life_secs),
        lies_in(current.power, bounds.power),
    ensures
        bounds.perturbed(current, Double::from_bits(ZERO), rng) == current,
{
    lemma_not_moved(bounds.start_pct, current.start_pct, rng);
    lemma_not_moved(bounds.floor_pct, current.floor_pct, rng.after_draws(6));
    lemma_not_moved(bounds.half_life_secs, current.half_life_secs, rng.after_draws(12));
    lemma_not_moved(bounds.power, current.power, rng.after_draws(18));
}

proof fn lemma_not_moved(range: Range, from: Single, rng: SplitMix64)
    requires
        usable(range),
        lies_in(from, range),
    ensures
        range.moved(from, Double::from_bits(ZERO), rng).to_single() == from,
{
    let zero = Double::from_bits(ZERO);
    let drawn = rng.normalish_draw();
    lemma_bell_is_finite(rng);
    lemma_times_commutes(drawn, zero);
    lemma_zero_times(zero, drawn);
    lemma_zero_times(drawn.times(zero), range.width());
    let x = from.to_double();
    lemma_to_double_exact(from);
    lemma_single_survives_double(from);
    let off = drawn.times(zero).times(range.width());
    lemma_and_nothing(x, off);
    if x.rank() == 0 {
        lemma_to_single_of_nothing(x);
    }
    assert(x.plus(off) == x);
}

/// A zero converts to a zero.
proof fn lemma_to_single_of_nothing(x: Double)
    requires
        x.rank() == 0,
        x.is_finite(),
    ensures
        x.to_single().rank() == 0,
{
    reveal(Double::spec_to_single);
    lemma_pow2_pos(1074);
    lemma_significand_bounds(Format::Double, 0);
    lemma_nearest_zero_is_zero(Format::Single, pow2(1074));
    assert(0 * pow2(149) == 0);
}

/// Draws add up to no more than their number.
proof fn lemma_draws_add_up(rng: SplitMix64, n: nat)
    requires
        n < 1000,
    ensures
        rng.sum_of_draws(n).is_finite(),
        rng.sum_of_draws(n).rank() >= 0,
        rng.sum_of_draws(n).le(Double::of_u64(n as u64)),
    decreases n,
{
    lemma_of_u64_exact(n as u64);
    if n > 0 {
        let k = (n - 1) as nat;
        lemma_draws_add_up(rng, k);
        let (a, u) = (rng.sum_of_draws(k), rng.after_draws(k).unit_draw());
        let drawn = rng.after_draws(k).draw();
        assert(drawn >> 11 < 0x20_0000_0000_0000) by (bit_vector);
        lemma_unit(drawn >> 11);
        let (whole, one) = (Double::of_u64(k as u64), Double::from_bits(ONE));
        lemma_of_u64_exact(k as u64);
        lemma_of_u64_exact(1);
        lemma_magnitude_of_one();
        lemma_same_value(Double::of_u64(1), one);
        lemma_whole_sum(k as u64, 1);
        lemma_plus_not_negative(a, u);
        lemma_plus_is_number(a, one);
        lemma_plus_monotone(a, u, one);
        lemma_plus_commutes(a, one);
        lemma_plus_commutes(whole, one);
        lemma_plus_is_number(one, a);
        lemma_plus_is_number(one, whole);
        lemma_plus_monotone(one, a, whole);
    }
}

/// A bell-shaped number is finite.
proof fn lemma_bell_is_finite(rng: SplitMix64)
    ensures
        rng.normalish_draw().is_finite(),
{
    let f = Format::Double;
    lemma_draws_add_up(rng, 6);
    lemma_of_u64_exact(6);
    let three = Double::from_bits(THREE);
    // 1.224744871391589
    let spread = Double::from_bits(0x3ff3_988e_1409_212e);
    let x = rng.sum_of_draws(6).minus(three);
    lemma_minus_is_finite(rng.sum_of_draws(6), three);
    lemma_magnitude_of_one();
    lemma_rank_orders_values(Double::from_bits(ONE), spread);
    let (m, w, d) = (x.parts().magnitude(f), pow2(1074), spread.parts().magnitude(f));
    assert(m * w <= m * d) by (nonlinear_arith)
        requires
            w <= d,
            m >= 0,
    ;
    lemma_quotient_is_finite(x, spread, x.parts().code as nat);
}

/// A search keeps the best that it has tried. It counts what it tries, starts anew from
/// what is better than where it stands, with a step that is greater but no greater than
/// the greatest one, and halves the step after so many misses in a row as it has patience
/// for.
pub proof fn lemma_what_a_trial_means(climb: Climb, evaluation: Evaluation)
    requires
        climb.wf(),
        climb.pending is Some,
        climb.stage matches Stage::Climbing(current) ==> climb.best->0.score.le(current.score),
        !evaluation.score().is_nan(),
    ensures
        ({
            let (next, outcome) = climb.recorded(evaluation);
            let score = evaluation.score();
            let tried = Candidate { score, params: climb.pending->0, evaluation };
            &&& next.evals == climb.evals + 1
            &&& next.pending is None
            &&& next.settings == climb.settings
            &&& next.best == if climb.best is Some && climb.best->0.score.le(score) {
                climb.best
            } else if climb.best is Some && climb.best->0.score.is_nan() {
                climb.best
            } else {
                Some(tried)
            }
            &&& climb.stage matches Stage::Climbing(current) ==> {
                &&& score.lt(current.score) ==> next.stage == Stage::Climbing(tried)
                    && next.misses == 0 && next.restart == climb.restart
                &&& score.lt(current.score) && climb.step.times(
                    Double::from_bits(0x3ff1_47ae_147a_e148),
                ).le(climb.settings.max_step) ==> next.step == climb.step.times(
                    Double::from_bits(0x3ff1_47ae_147a_e148),
                )
                &&& score.lt(current.score) && climb.step.times(
                    Double::from_bits(0x3ff1_47ae_147a_e148),
                ).gt(climb.settings.max_step) ==> next.step == climb.settings.max_step
                &&& !score.lt(current.score) && climb.misses + 1 < climb.settings.patience ==> {
                    &&& next.misses == climb.misses + 1
                    &&& next.step == climb.step
                    &&& next.stage == climb.stage
                }
                &&& !score.lt(current.score) && climb.misses + 1 >= climb.settings.patience ==> {
                    &&& next.misses == 0
                    // 0.5
                    &&& next.step == climb.step.times(Double::from_bits(0x3fe0_0000_0000_0000))
                    &&& next.step.lt(climb.settings.min_step) <==> next.stage is Starting
                    &&& next.step.lt(climb.settings.min_step) ==> next.restart == climb.restart + 1
                    &&& !next.step.lt(climb.settings.min_step) ==> next.stage == climb.stage
                        && next.restart == climb.restart
                }
            }
            &&& climb.stage is Starting ==> {
                &&& next.stage == Stage::Climbing(tried)
                &&& next.step == climb.settings.initial_step
                &&& next.limit == climb.settings.limit_after(next.evals)
                &&& next.misses == 0
            }
        }),
{
}

/// Cells that a run does not have count for nothing.
pub proof fn lemma_missing_cells_count_for_nothing(
    keys: Seq<Seq<char>>,
    current: Seq<CellResult>,
    baseline: Seq<CellResult>,
)
    requires
        forall|i: int|
            0 <= i < keys.len() ==> !places_of(current).contains_key(#[trigger] keys[i]),
    ensures
        grouped(keys, current, baseline) == Groups::empty(),
    decreases keys.len(),
{
    if keys.len() > 0 {
        let rest = keys.drop_last();
        assert forall|i: int| 0 <= i < rest.len() implies !places_of(current).contains_key(
            #[trigger] rest[i],
        ) by {
            assert(rest[i] == keys[i]);
        }
        lemma_missing_cells_count_for_nothing(rest, current, baseline);
        assert(!places_of(current).contains_key(keys[keys.len() - 1]));
    }
}

/// A cell is compared with the one of its name: by what the run has more than the
/// baseline, as a cell of the kind of the baseline's scenario.
pub proof fn lemma_cells_are_compared_by_name(current: CellResult, baseline: CellResult)
    requires
        current.named() == baseline.named(),
    ensures
        grouped(seq![baseline.named()], seq![current], seq![baseline])
            == Groups::empty().add_cell(
            kind_of(baseline.scenario_key@),
            current.measures.metrics().minus(baseline.measures.metrics()),
        ),
{
    reveal_with_fuel(places_of, 2);
    reveal_with_fuel(grouped, 2);
    let (c, b) = (seq![current], seq![baseline]);
    let name = baseline.named();
    let keys = seq![name];
    assert(keys.drop_last() =~= Seq::<Seq<char>>::empty());
    assert(c.drop_last() =~= Seq::<CellResult>::empty());
    assert(b.drop_last() =~= Seq::<CellResult>::empty());
    assert(places_of(c) == Map::<Seq<char>, usize>::empty().insert(name, 0));
    assert(places_of(b) == Map::<Seq<char>, usize>::empty().insert(name, 0));
    assert(grouped(keys.drop_last(), c, b) == Groups::empty());
}

/// The sums and the count of a group are finite and without a sign.
pub open spec fn finite_group(g: GroupAcc) -> bool {
    &&& all_clean(g)
    &&& g.reg_sum.is_finite()
    &&& g.beat_sum.is_finite()
    &&& g.term_count.is_finite()
}

/// The weighted scores of a group have no sign.
proof fn lemma_clean_norm(g: GroupAcc, weight: u64)
    requires
        finite_group(g),
        Double::from_bits(weight).is_finite(),
        Double::from_bits(weight).rank() > 0,
    ensures
        clean(Double::from_bits(weight).times(g.group_norm().0)),
        clean(Double::from_bits(weight).times(g.group_norm().1)),
{
    let w = Double::from_bits(weight);
    let n = g.term_count.max(Double::from_bits(ONE));
    let (r, b) = g.group_norm();
    lemma_over_is_number(g.reg_sum, n);
    lemma_over_is_number(g.beat_sum, n);
    lemma_over_not_negative(g.reg_sum, n);
    lemma_over_not_negative(g.beat_sum, n);
    lemma_multiple_is_number(w, r);
    lemma_multiple_is_number(w, b);
    lemma_times_sign(w, r);
    lemma_times_sign(w, b);
}

/// Weighted nothing is nothing.
proof fn lemma_weighted_zero(weight: u64)
    requires
        Double::from_bits(weight).is_finite(),
        Double::from_bits(weight).rank() > 0,
    ensures
        Double::from_bits(weight).times(Double::from_bits(ZERO)) == Double::from_bits(ZERO),
{
    lemma_weighted_nothing(weight);
    lemma_times_sign(Double::from_bits(weight), Double::from_bits(ZERO));
}

/// The sum of four numbers, and that of each with nothing.
proof fn lemma_four_add_up(a: Double, b: Double, c: Double, d: Double)
    requires
        clean(a),
        clean(b),
        clean(c),
        clean(d),
    ensures
        ({
            let n = Double::from_bits(ZERO);
            &&& a.plus(n).plus(n).plus(n) == a
            &&& n.plus(b).plus(n).plus(n) == b
            &&& n.plus(n).plus(c).plus(n) == c
            &&& n.plus(n).plus(n).plus(d) == d
        }),
{
    let n = Double::from_bits(ZERO);
    lemma_clean_sum(a, n);
    lemma_clean_sum(b, n);
    lemma_clean_sum(c, n);
    lemma_clean_sum(d, n);
    lemma_clean_sum(n, n);
    lemma_zero_plus(b);
    lemma_zero_plus(c);
    lemma_zero_plus(d);
    lemma_zero_plus(n);
}

/// A run scores the sum of what each of its groups scores alone.
pub proof fn lemma_groups_add_up(g: Groups)
    requires
        finite_group(g.cold),
        finite_group(g.stable),
        finite_group(g.step_reaction),
        finite_group(g.step_quality),
    ensures
        ({
            let none = Groups::empty();
            let (a, b, c, d) = (
                (Groups { cold: g.cold, ..none }).breakdown(),
                (Groups { stable: g.stable, ..none }).breakdown(),
                (Groups { step_reaction: g.step_reaction, ..none }).breakdown(),
                (Groups { step_quality: g.step_quality, ..none }).breakdown(),
            );
            &&& g.breakdown().reg == a.reg.plus(b.reg).plus(c.reg).plus(d.reg)
            &&& g.breakdown().beat == a.beat.plus(b.beat).plus(c.beat).plus(d.beat)
        }),
{
    lemma_empty_norm();
    lemma_weighted_zero(ONE);
    lemma_weighted_zero(ONE_AND_A_HALF);
    lemma_weighted_zero(TWO);
    lemma_weighted_zero(TWO_AND_A_HALF);
    lemma_weighted_zero(THREE_QUARTERS);
    lemma_clean_norm(g.cold, ONE);
    lemma_clean_norm(g.stable, ONE_AND_A_HALF);
    lemma_clean_norm(g.stable, ONE);
    lemma_clean_norm(g.step_reaction, TWO_AND_A_HALF);
    lemma_clean_norm(g.step_reaction, TWO);
    lemma_clean_norm(g.step_quality, ONE_AND_A_HALF);
    lemma_clean_norm(g.step_quality, THREE_QUARTERS);
    lemma_four_add_up(
        Double::from_bits(ONE).times(g.cold.group_norm().0),
        Double::from_bits(ONE_AND_A_HALF).times(g.stable.group_norm().0),
        Double::from_bits(TWO_AND_A_HALF).times(g.step_reaction.group_norm().0),
        Double::from_bits(ONE_AND_A_HALF).times(g.step_quality.group_norm().0),
    );
    lemma_four_add_up(
        Double::from_bits(ONE).times(g.cold.group_norm().1),
        Double::from_bits(ONE).times(g.stable.group_norm().1),
        Double::from_bits(TWO).times(g.step_reaction.group_norm().1),
        Double::from_bits(THREE_QUARTERS).times(g.step_quality.group_norm().1),
    );
}

/// What is not finite does not count in a mean.
pub proof fn lemma_means_pass_over_what_is_not_finite(values: Seq<Double>, x: Double)
    requires
        !x.is_finite(),
    ensures
        mean_of(values.push(x)) == mean_of(values),
{
    reveal(Seq::filter);
    assert(values.push(x).drop_last() =~= values);
}

/// What a search tries next: the parameters that it was given first of all, then those
/// that it moves from where it stands, for as long as the climb may go on. It is over once
/// all evaluations are made or all climbs are.
pub proof fn lemma_what_is_tried_next(climb: Climb)
    requires
        climb.wf(),
        climb.pending is None,
    ensures
        ({
            let next = climb.proposed();
            let over = climb.evals >= climb.settings.max_evals;
            &&& climb.stage is Starting && climb.restart == 0 && !over ==> next.pending == Some(
                climb.settings.first,
            )
            &&& climb.stage is Starting && climb.restart < climb.settings.restart_count && !over
                ==> next.pending is Some && next.stage is Starting
            &&& climb.stage is Starting && (over || climb.restart
                >= climb.settings.restart_count) ==> next.pending is None && next.stage is Finished
            &&& climb.stage is Climbing && climb.evals < climb.limit ==> {
                &&& next.stage == climb.stage
                &&& next.pending == Some(
                    climb.settings.bounds.perturbed(
                        climb.stage->Climbing_0.params,
                        climb.step,
                        climb.rng,
                    ),
                )
            }
            &&& climb.stage is Climbing && climb.evals >= climb.limit ==> {
                &&& next.restart == climb.restart + 1
                &&& next.stage is Finished <==> over || climb.restart + 1
                    >= climb.settings.restart_count
            }
            &&& climb.stage is Finished ==> next == climb
        }),
{
}

/// Whole numbers that add up to so many times `m` as there are of them have the mean `m`.
pub proof fn lemma_mean_of_whole_numbers(xs: Seq<u64>, m: u64)
    requires
        0 < xs.len() < 0x20_0000_0000_0000,
        0 < m < 0x20_0000_0000_0000,
        sum_of(xs) == xs.len() * m,
        sum_of(xs) < 0x20_0000_0000_0000,
    ensures
        mean_of(whole(xs)) == Double::of_u64(m),
{
    let n = xs.len() as u64;
    lemma_total_of_whole_numbers(xs);
    assert(xs.len() * m > 0) by (nonlinear_arith)
        requires
            xs.len() > 0,
            m > 0,
    ;
    lemma_whole_quotient(n, m);
    lemma_whole_numbers_are_finite(xs);
}

/// All whole numbers count.
proof fn lemma_whole_numbers_are_finite(xs: Seq<u64>)
    ensures
        whole(xs).filter(|x: Double| x.is_finite()) == whole(xs),
    decreases xs.len(),
{
    reveal(Seq::filter);
    let keep = |x: Double| x.is_finite();
    if xs.len() > 0 {
        let rest = xs.drop_last();
        lemma_whole_numbers_are_finite(rest);
        lemma_of_u64_monotone(xs.last(), xs.last());
        assert(whole(xs).drop_last() =~= whole(rest));
        assert(whole(xs).filter(keep) =~= whole(xs));
    } else {
        assert(whole(xs) =~= Seq::<Double>::empty());
        assert(whole(xs).filter(keep) =~= whole(xs));
    }
}

/// Of several results of one name the last one counts.
pub proof fn lemma_last_of_a_name_counts(results: Seq<CellResult>, last: CellResult)
    requires
        results.len() < usize::MAX,
    ensures
        places_of(results.push(last)).contains_key(last.named()),
        places_of(results.push(last))[last.named()] == results.len(),
        forall|name: Seq<char>|
            name != last.named() ==> (#[trigger] places_of(results.push(last)).contains_key(name)
                <==> places_of(results).contains_key(name)),
{
    assert(results.push(last).drop_last() =~= results);
}

/// The seed of the first trial of the first cell is the one that was given. That of the
/// next trial is one more, and that of the next cell 2^20 more.
pub proof fn lemma_seeds_follow_each_other(base: u64, cell: u64, trial: u64)
    requires
        cell < u64::MAX,
        trial < u64::MAX,
    ensures
        trial_seed(base, 0, 0) == base,
        trial_seed(base, cell, (trial + 1) as u64) == trial_seed(base, cell, trial).wrapping_add(1),
        trial_seed(base, (cell + 1) as u64, trial) == trial_seed(base, cell, trial).wrapping_add(
            0x10_0000,
        ),
{
    let next = (cell + 1) as u64;
    let (x, y) = (cell << 20u64, next << 20u64);
    assert(cell << 20u64 <= 0xffff_ffff_ffef_ffff ==> next << 20u64 == (cell << 20u64) + 0x10_0000)
        by (bit_vector)
        requires
            next == cell + 1,
    ;
    assert(cell << 20u64 > 0xffff_ffff_ffef_ffff ==> cell << 20u64 == 0xffff_ffff_fff0_0000 && next
        << 20u64 == 0) by (bit_vector)
        requires
            next == cell + 1,
    ;
    assert(y == x.wrapping_add(0x10_0000));
    assert(0u64 << 20u64 == 0) by (bit_vector);
}

/// A climb may make so many evaluations after its first one as fall to each climb, and at
/// least one, but no more than there are left.
pub proof fn lemma_how_long_a_climb_goes(settings: Settings, evals: usize)
    requires
        settings.wf(),
        evals <= settings.max_evals,
    ensures
        settings.limit_after(evals) <= settings.max_evals,
        settings.max_evals < settings.restart_count && evals < settings.max_evals
            ==> settings.limit_after(evals) == evals + 1,
        forall|each: int|
            #![trigger settings.restart_count * each]
            each >= 1 && settings.restart_count * each <= settings.max_evals
                < settings.restart_count * each + settings.restart_count ==> (
            settings.limit_after(evals) == if evals + each <= settings.max_evals {
                evals + each
            } else {
                settings.max_evals as int
            }),
{
    let (m, r) = (settings.max_evals as int, settings.restart_count as int);
    if m < r {
        lemma_fundamental_div_mod_converse(m, r, 0, m);
    }
    assert forall|each: int|
        #![trigger settings.restart_count * each]
        each >= 1 && settings.restart_count * each <= settings.max_evals < settings.restart_count
            * each + settings.restart_count implies settings.limit_after(evals) == if evals + each
        <= settings.max_evals {
        evals + each
    } else {
        settings.max_evals as int
    } by {
        assert(each * r == r * each) by (nonlinear_arith);
        lemma_fundamental_div_mod_converse(m, r, each, m - r * each);
    }
}

} // verus!
