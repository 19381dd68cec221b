use vstd::prelude::*;

use crate::compare::cells::Metrics;
use crate::compare::guards::{CellKind, kind_of};
use crate::compare::laws::{
    all_finite, all_zero, lemma_excess_not_below_zero, lemma_metrics_less_themselves,
};
use crate::compare::score::{excess, higher_regression, lower_regression};
use crate::float::double::Double;
use crate::float::laws::{
    lemma_finite_product_is_number, lemma_minus_sign, lemma_plus_is_number, lemma_plus_monotone,
    lemma_plus_zero, lemma_product_not_below_zero, lemma_quotient_not_below_zero,
    lemma_sum_not_below_zero, lemma_times_commutes, lemma_times_monotone, lemma_times_one,
    lemma_times_zero, lemma_to_single_monotone, lemma_zero_over, lemma_zero_plus_zero,
    not_below_zero,
};
use crate::float::numbers::{
    ONE, ONE_AND_A_HALF, THREE_QUARTERS, TWO, TWO_AND_A_HALF, ZERO,
};
use crate::float::single::Single;
use crate::scan::params::{Range, SearchBounds, TuneParams};
use crate::scan::results::{CELL_SEED_BITS, CellResult, trial_seed};
use crate::scan::rng::{NORMALISH_DRAWS, SplitMix64, lemma_unit};
use crate::scan::score::{
    GroupAcc, Groups, MAX_METRIC_BEAT, ScoreBreakdown, capped_excess, grouped, higher_beat,
    lower_beat, places_of,
};

verus! {

/// No metric wins more than the most, whatever its difference is.
pub proof fn lemma_beats_are_capped(delta: Double, tolerance: Double, scale: Double)
    ensures
        lower_beat(delta, tolerance, scale).le(Double::from_bits(MAX_METRIC_BEAT)),
        higher_beat(delta, tolerance, scale).le(Double::from_bits(MAX_METRIC_BEAT)),
{
}

/// A capped excess counts as nothing below zero.
proof fn lemma_capped_excess_not_below_zero(amount: Double, scale: Double)
    ensures
        not_below_zero(excess(amount, scale)),
        not_below_zero(capped_excess(amount, scale)),
{
    lemma_excess_not_below_zero(amount, scale);
}

/// Sums that are not below zero.
pub open spec fn sums_not_below_zero(g: GroupAcc) -> bool {
    not_below_zero(g.reg_sum) && not_below_zero(g.beat_sum)
}

proof fn lemma_term_not_below_zero(
    g: GroupAcc,
    weight: u64,
    regression: Double,
    beat: Double,
    allow_beat: bool,
)
    requires
        sums_not_below_zero(g),
        not_below_zero(Double::from_bits(weight)),
        not_below_zero(regression),
        not_below_zero(beat),
    ensures
        sums_not_below_zero(g.term(weight, regression, beat, allow_beat)),
{
    let w = Double::from_bits(weight);
    lemma_product_not_below_zero(w, regression);
    lemma_product_not_below_zero(w, beat);
    lemma_sum_not_below_zero(g.reg_sum, w.times(regression));
    lemma_sum_not_below_zero(g.beat_sum, w.times(beat));
}

broadcast proof fn lemma_add_lower_not_below_zero(
    g: GroupAcc,
    weight: u64,
    delta: Option<Double>,
    tolerance: u64,
    scale: u64,
    allow_beat: bool,
)
    requires
        sums_not_below_zero(g),
        not_below_zero(Double::from_bits(weight)),
    ensures
        sums_not_below_zero(#[trigger] g.add_lower(weight, delta, tolerance, scale, allow_beat)),
{
    reveal(GroupAcc::spec_add_lower);
    if let Some(d) = delta {
        let (t, s) = (Double::from_bits(tolerance), Double::from_bits(scale));
        lemma_capped_excess_not_below_zero(d.minus(t), s);
        lemma_capped_excess_not_below_zero(d.neg().minus(t), s);
        lemma_term_not_below_zero(
            g,
            weight,
            lower_regression(d, t, s),
            lower_beat(d, t, s),
            allow_beat,
        );
    }
}

broadcast proof fn lemma_add_higher_not_below_zero(
    g: GroupAcc,
    weight: u64,
    delta: Option<Double>,
    tolerance: u64,
    scale: u64,
    allow_beat: bool,
)
    requires
        sums_not_below_zero(g),
        not_below_zero(Double::from_bits(weight)),
    ensures
        sums_not_below_zero(#[trigger] g.add_higher(weight, delta, tolerance, scale, allow_beat)),
{
    reveal(GroupAcc::spec_add_higher);
    if let Some(d) = delta {
        let (t, s) = (Double::from_bits(tolerance), Double::from_bits(scale));
        lemma_capped_excess_not_below_zero(d.minus(t), s);
        lemma_capped_excess_not_below_zero(d.neg().minus(t), s);
        lemma_term_not_below_zero(
            g,
            weight,
            higher_regression(d, t, s),
            higher_beat(d, t, s),
            allow_beat,
        );
    }
}

/// Groups whose sums are not below zero.
pub open spec fn groups_not_below_zero(g: Groups) -> bool {
    &&& sums_not_below_zero(g.cold)
    &&& sums_not_below_zero(g.stable)
    &&& sums_not_below_zero(g.step_reaction)
    &&& sums_not_below_zero(g.step_quality)
}

proof fn lemma_add_cell_not_below_zero(g: Groups, kind: CellKind, d: Metrics)
    requires
        groups_not_below_zero(g),
    ensures
        groups_not_below_zero(g.add_cell(kind, d)),
{
    broadcast use {lemma_add_lower_not_below_zero, lemma_add_higher_not_below_zero};

    reveal(Groups::spec_add_cell);
}

proof fn lemma_grouped_not_below_zero(
    keys: Seq<Seq<char>>,
    current: Seq<CellResult>,
    baseline: Seq<CellResult>,
)
    ensures
        groups_not_below_zero(grouped(keys, current, baseline)),
    decreases keys.len(),
{
    if keys.len() > 0 {
        lemma_grouped_not_below_zero(keys.drop_last(), current, baseline);
        let key = keys.last();
        if places_of(current).contains_key(key) {
            let c = current[places_of(current)[key] as int];
            let v = baseline[places_of(baseline)[key] as int];
            lemma_add_cell_not_below_zero(
                grouped(keys.drop_last(), current, baseline),
                kind_of(v.scenario_key@),
                c.measures.metrics().minus(v.measures.metrics()),
            );
        }
    }
}

proof fn lemma_norm_not_below_zero(g: GroupAcc)
    requires
        sums_not_below_zero(g),
    ensures
        not_below_zero(g.group_norm().0),
        not_below_zero(g.group_norm().1),
{
    let denom = g.term_count.max(Double::from_bits(ONE));
    lemma_quotient_not_below_zero(g.reg_sum, denom);
    lemma_quotient_not_below_zero(g.beat_sum, denom);
}

proof fn lemma_weighted_not_below_zero(
    a: Double,
    wa: u64,
    b: Double,
    wb: u64,
    c: Double,
    wc: u64,
    d: Double,
    wd: u64,
)
    requires
        not_below_zero(a),
        not_below_zero(b),
        not_below_zero(c),
        not_below_zero(d),
        not_below_zero(Double::from_bits(wa)),
        not_below_zero(Double::from_bits(wb)),
        not_below_zero(Double::from_bits(wc)),
        not_below_zero(Double::from_bits(wd)),
    ensures
        not_below_zero(
            Double::from_bits(wa).times(a).plus(Double::from_bits(wb).times(b)).plus(
                Double::from_bits(wc).times(c),
            ).plus(Double::from_bits(wd).times(d)),
        ),
{
    let x = Double::from_bits(wa).times(a);
    let y = Double::from_bits(wb).times(b);
    let z = Double::from_bits(wc).times(c);
    let u = Double::from_bits(wd).times(d);
    lemma_product_not_below_zero(Double::from_bits(wa), a);
    lemma_product_not_below_zero(Double::from_bits(wb), b);
    lemma_product_not_below_zero(Double::from_bits(wc), c);
    lemma_product_not_below_zero(Double::from_bits(wd), d);
    lemma_sum_not_below_zero(x, y);
    lemma_sum_not_below_zero(x.plus(y), z);
    lemma_sum_not_below_zero(x.plus(y).plus(z), u);
}

/// The scores of a run are not below zero.
pub proof fn lemma_scores_not_below_zero(
    keys: Seq<Seq<char>>,
    current: Seq<CellResult>,
    baseline: Seq<CellResult>,
)
    ensures
        not_below_zero(grouped(keys, current, baseline).breakdown().reg),
        not_below_zero(grouped(keys, current, baseline).breakdown().beat),
{
    let g = grouped(keys, current, baseline);
    lemma_grouped_not_below_zero(keys, current, baseline);
    lemma_norm_not_below_zero(g.cold);
    lemma_norm_not_below_zero(g.stable);
    lemma_norm_not_below_zero(g.step_reaction);
    lemma_norm_not_below_zero(g.step_quality);
    lemma_weighted_not_below_zero(
        g.cold.group_norm().0,
        ONE,
        g.stable.group_norm().0,
        ONE_AND_A_HALF,
        g.step_reaction.group_norm().0,
        TWO_AND_A_HALF,
        g.step_quality.group_norm().0,
        ONE_AND_A_HALF,
    );
    lemma_weighted_not_below_zero(
        g.cold.group_norm().1,
        ONE,
        g.stable.group_norm().1,
        ONE,
        g.step_reaction.group_norm().1,
        TWO,
        g.step_quality.group_norm().1,
        THREE_QUARTERS,
    );
}

/// Sums that are nothing.
spec fn sums_nothing(g: GroupAcc) -> bool {
    g.reg_sum == Double::from_bits(ZERO) && g.beat_sum == Double::from_bits(ZERO)
}

/// A weight and a tolerance that make sense.
spec fn sensible(weight: u64, tolerance: u64) -> bool {
    &&& Double::from_bits(weight).is_finite()
    &&& !Double::from_bits(weight).parts().negative
    &&& Double::from_bits(tolerance).is_finite()
    &&& Double::from_bits(ZERO).le(Double::from_bits(tolerance))
}

/// A metric that has not changed is within every tolerance.
proof fn lemma_no_excess(tolerance: Double, scale: Double)
    requires
        tolerance.is_finite(),
        Double::from_bits(ZERO).le(tolerance),
    ensures
        ({
            let zero = Double::from_bits(ZERO);
            &&& lower_regression(zero, tolerance, scale) == zero
            &&& higher_regression(zero, tolerance, scale) == zero
            &&& lower_beat(zero, tolerance, scale) == zero
            &&& higher_beat(zero, tolerance, scale) == zero
        }),
{
    let zero = Double::from_bits(ZERO);
    assert(zero.neg().parts().code == 0);
    lemma_minus_sign(zero, tolerance);
    lemma_minus_sign(zero.neg(), tolerance);
}

broadcast proof fn lemma_add_lower_nothing(
    g: GroupAcc,
    weight: u64,
    delta: Option<Double>,
    tolerance: u64,
    scale: u64,
    allow_beat: bool,
)
    requires
        sums_nothing(g),
        sensible(weight, tolerance),
        delta matches Some(d) ==> d == Double::from_bits(ZERO),
    ensures
        sums_nothing(#[trigger] g.add_lower(weight, delta, tolerance, scale, allow_beat)),
{
    reveal(GroupAcc::spec_add_lower);
    lemma_no_excess(Double::from_bits(tolerance), Double::from_bits(scale));
    lemma_times_zero(Double::from_bits(weight));
    lemma_zero_plus_zero(Double::from_bits(ZERO));
}

broadcast proof fn lemma_add_higher_nothing(
    g: GroupAcc,
    weight: u64,
    delta: Option<Double>,
    tolerance: u64,
    scale: u64,
    allow_beat: bool,
)
    requires
        sums_nothing(g),
        sensible(weight, tolerance),
        delta matches Some(d) ==> d == Double::from_bits(ZERO),
    ensures
        sums_nothing(#[trigger] g.add_higher(weight, delta, tolerance, scale, allow_beat)),
{
    reveal(GroupAcc::spec_add_higher);
    lemma_no_excess(Double::from_bits(tolerance), Double::from_bits(scale));
    lemma_times_zero(Double::from_bits(weight));
    lemma_zero_plus_zero(Double::from_bits(ZERO));
}

spec fn groups_nothing(g: Groups) -> bool {
    &&& sums_nothing(g.cold)
    &&& sums_nothing(g.stable)
    &&& sums_nothing(g.step_reaction)
    &&& sums_nothing(g.step_quality)
}

proof fn lemma_add_cell_nothing(g: Groups, kind: CellKind, d: Metrics)
    requires
        groups_nothing(g),
        all_zero(d),
    ensures
        groups_nothing(g.add_cell(kind, d)),
{
    broadcast use {lemma_add_lower_nothing, lemma_add_higher_nothing};

    reveal(Groups::spec_add_cell);
}

proof fn lemma_places_in_range(results: Seq<CellResult>, key: Seq<char>)
    requires
        places_of(results).contains_key(key),
        results.len() <= usize::MAX,
    ensures
        places_of(results)[key] < results.len(),
    decreases results.len(),
{
    if results.len() > 0 && key != results.last().named() {
        lemma_places_in_range(results.drop_last(), key);
    }
}

proof fn lemma_grouped_nothing(keys: Seq<Seq<char>>, results: Seq<CellResult>)
    requires
        results.len() <= usize::MAX,
        forall|i: int|
            0 <= i < results.len() ==> all_finite((#[trigger] results[i]).measures.metrics()),
    ensures
        groups_nothing(grouped(keys, results, results)),
    decreases keys.len(),
{
    if keys.len() > 0 {
        lemma_grouped_nothing(keys.drop_last(), results);
        let key = keys.last();
        if places_of(results).contains_key(key) {
            lemma_places_in_range(results, key);
            let c = results[places_of(results)[key] as int];
            lemma_metrics_less_themselves(c.measures.metrics());
            lemma_add_cell_nothing(
                grouped(keys.drop_last(), results, results),
                kind_of(c.scenario_key@),
                c.measures.metrics().minus(c.measures.metrics()),
            );
        }
    }
}

/// A run of finite numbers that is scored against itself neither loses nor wins, as
/// a whole and in each group.
pub proof fn lemma_run_scores_nothing_against_itself(
    keys: Seq<Seq<char>>,
    results: Seq<CellResult>,
)
    requires
        results.len() <= usize::MAX,
        forall|i: int|
            0 <= i < results.len() ==> all_finite((#[trigger] results[i]).measures.metrics()),
    ensures
        ({
            let zero = Double::from_bits(ZERO);
            grouped(keys, results, results).breakdown() == (ScoreBreakdown {
                reg: zero,
                beat: zero,
                cold_reg: zero,
                cold_beat: zero,
                stable_reg: zero,
                stable_beat: zero,
                step_reaction_reg: zero,
                step_reaction_beat: zero,
                step_quality_reg: zero,
                step_quality_beat: zero,
            })
        }),
{
    let g = grouped(keys, results, results);
    lemma_grouped_nothing(keys, results);
    lemma_zero_over(g.cold.term_count.max(Double::from_bits(ONE)));
    lemma_zero_over(g.stable.term_count.max(Double::from_bits(ONE)));
    lemma_zero_over(g.step_reaction.term_count.max(Double::from_bits(ONE)));
    lemma_zero_over(g.step_quality.term_count.max(Double::from_bits(ONE)));
    lemma_times_zero(Double::from_bits(ONE));
    lemma_times_zero(Double::from_bits(ONE_AND_A_HALF));
    lemma_times_zero(Double::from_bits(TWO_AND_A_HALF));
    lemma_times_zero(Double::from_bits(TWO));
    lemma_times_zero(Double::from_bits(THREE_QUARTERS));
    lemma_zero_plus_zero(Double::from_bits(ZERO));
}

/// Trials of different cells, or different trials of one cell, have different
/// seeds, as long as no cell has more trials than lie between the seeds of two.
pub proof fn lemma_seeds_differ(
    base_seed: u64,
    cell: u64,
    trial: u64,
    other_cell: u64,
    other_trial: u64,
)
    requires
        trial < 0x10_0000,
        other_trial < 0x10_0000,
        cell < 0x1000_0000_0000,
        other_cell < 0x1000_0000_0000,
        trial_seed(base_seed, cell, trial) == trial_seed(base_seed, other_cell, other_trial),
    ensures
        cell == other_cell,
        trial == other_trial,
{
    let x = cell.wrapping_shl(CELL_SEED_BITS);
    let y = other_cell.wrapping_shl(CELL_SEED_BITS);
    assert(cell << 20 == cell * 0x10_0000) by (bit_vector)
        requires
            cell < 0x1000_0000_0000,
    ;
    assert(other_cell << 20 == other_cell * 0x10_0000) by (bit_vector)
        requires
            other_cell < 0x1000_0000_0000,
    ;
    assert(x == cell * 0x10_0000);
    assert(y == other_cell * 0x10_0000);
}

/// A sampled number lies between the least one and that plus the width.
pub proof fn lemma_sample_within_width(range: Range, rng: SplitMix64)
    requires
        range.min.is_finite(),
        range.max.is_finite(),
        range.width().is_finite(),
    ensures
        range.min.le(range.sampled(rng)),
        range.sampled(rng).le(range.min.plus(range.width())),
{
    let drawn = rng.draw();
    assert(drawn >> 11 < 0x20_0000_0000_0000) by (bit_vector);
    lemma_unit(drawn >> 11);
    let (u, w) = (rng.unit_draw(), range.width());
    let one = Double::from_bits(ONE);
    let zero = Double::from_bits(ZERO);
    lemma_finite_product_is_number(u, w);
    lemma_times_commutes(u, w);
    lemma_times_one(w);
    lemma_times_monotone(w, u, one);
    lemma_product_not_below_zero(u, w);
    lemma_plus_is_number(range.min, u.times(w));
    lemma_plus_is_number(range.min, w);
    lemma_plus_is_number(range.min, zero);
    lemma_plus_monotone(range.min, u.times(w), w);
    lemma_plus_monotone(range.min, zero, u.times(w));
    lemma_plus_zero(range.min);
}

/// A number that is one lies within an interval of binary64 ends, as binary32.
pub open spec fn within(x: Single, range: Range) -> bool {
    x.is_nan() || (range.min.to_single().le(x) && x.le(range.max.to_single()))
}

/// Moving parameters never leaves the bounds.
pub proof fn lemma_perturbed_within_bounds(
    bounds: SearchBounds,
    current: TuneParams,
    step: Double,
    rng: SplitMix64,
)
    requires
        bounds.wf(),
    ensures
        ({
            let p = bounds.perturbed(current, step, rng);
            &&& within(p.start_pct, bounds.start_pct)
            &&& within(p.floor_pct, bounds.floor_pct)
            &&& within(p.half_life_secs, bounds.half_life_secs)
            &&& within(p.power, bounds.power)
        }),
{
    let n = NORMALISH_DRAWS as nat;
    lemma_moved_within(bounds.start_pct, current.start_pct, step, rng);
    lemma_moved_within(bounds.floor_pct, current.floor_pct, step, rng.after_draws(n));
    lemma_moved_within(bounds.half_life_secs, current.half_life_secs, step, rng.after_draws(2 * n));
    lemma_moved_within(bounds.power, current.power, step, rng.after_draws(3 * n));
}

proof fn lemma_moved_within(range: Range, from: Single, step: Double, rng: SplitMix64)
    requires
        range.wf(),
    ensures
        within(range.moved(from, step, rng).to_single(), range),
{
    let x = range.moved(from, step, rng);
    if x.is_nan() {
        reveal(Double::spec_to_single);
    } else {
        lemma_to_single_monotone(range.min, x);
        lemma_to_single_monotone(x, range.max);
    }
}

} // verus!
