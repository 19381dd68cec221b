use vstd::prelude::*;

use crate::compare::cells::{CellText, Metrics, delta};
use crate::compare::guards::{
    CellKind, DeltaText, Limit, breaks, broken, lemma_guards_fail_what_is_broken,
};
use crate::compare::report::{any_failed, scores_of};
use crate::compare::rows::{compared, plain_row, rows_of};
use crate::compare::score::{
    MetricZ, Tally, cell_score_z, deviations, excess, higher_beat, higher_regression, lower_beat,
    lower_regression, scored, scored_rows,
};
use crate::float::double::Double;
use crate::float::laws::{
    lemma_finite_product_is_number, lemma_minus_itself, lemma_minus_leaves_a_place,
    lemma_minus_monotone, lemma_minus_not_above, lemma_minus_sign, lemma_over_is_number,
    lemma_over_monotone, lemma_over_not_negative, lemma_plus_not_negative,
    lemma_product_not_below_zero, lemma_square, lemma_square_monotone,
    lemma_square_of_quotient_above_zero, lemma_sum_not_below_zero, lemma_times_commutes,
    lemma_times_is_number, lemma_times_monotone, lemma_times_one, lemma_times_zero,
    lemma_zero_plus_zero, not_below_zero,
};
use crate::float::numbers::{
    CENTI_1, CENTI_2, CENTI_5, CENTI_8, FIVE, FOUR, HUNDRED_TWENTY, MILLI_1, MINUS_CENTI_1, NANO_1,
    ONE, SIXTY, THREE, TWO, ZERO,
};
use crate::float::series::total_of;
use crate::table::in_key_order;

verus! {

/// A finite excess counts as a number that is not below zero, and as the more the
/// greater it is.
pub proof fn lemma_excess_grows(a: Double, b: Double, z: Double)
    requires
        a.is_finite(),
        b.is_finite(),
        a.le(b),
    ensures
        Double::from_bits(ZERO).le(excess(a, z)),
        excess(a, z).le(excess(b, z)),
{
    let d = z.max(Double::from_bits(NANO_1));
    lemma_excess_is_number(b, d);
    if !a.le(Double::from_bits(ZERO)) {
        lemma_excess_is_number(a, d);
        lemma_over_monotone(a, b, d);
        lemma_square_monotone(a.over(d), b.over(d));
    }
}

/// The square that a finite excess counts as is a number.
pub proof fn lemma_excess_is_number(a: Double, d: Double)
    requires
        a.is_finite(),
        Double::from_bits(NANO_1).le(d),
    ensures
        !a.le(Double::from_bits(ZERO)) ==> {
            &&& !a.over(d).is_nan()
            &&& !a.over(d).parts().negative
            &&& !a.over(d).times(a.over(d)).is_nan()
            &&& !a.over(d).times(a.over(d)).parts().negative
        },
{
    if !a.le(Double::from_bits(ZERO)) {
        lemma_over_is_number(a, d);
        lemma_over_not_negative(a, d);
        lemma_square(a.over(d));
    }
}

/// The more a metric that should be low rises, the more it costs and the less it
/// wins.
pub proof fn lemma_low_is_monotone(a: Double, b: Double, tolerance: Double, z: Double)
    requires
        a.le(b),
        a.minus(tolerance).is_finite(),
        b.minus(tolerance).is_finite(),
        a.neg().minus(tolerance).is_finite(),
        b.neg().minus(tolerance).is_finite(),
    ensures
        lower_regression(a, tolerance, z).le(lower_regression(b, tolerance, z)),
        lower_beat(b, tolerance, z).le(lower_beat(a, tolerance, z)),
{
    assert(a.neg().parts().code == a.parts().code);
    assert(b.neg().parts().code == b.parts().code);
    lemma_minus_monotone(a, b, tolerance);
    lemma_minus_monotone(b.neg(), a.neg(), tolerance);
    lemma_excess_grows(a.minus(tolerance), b.minus(tolerance), z);
    lemma_excess_grows(b.neg().minus(tolerance), a.neg().minus(tolerance), z);
}

/// The more a metric that should be high falls, the more it costs and the less it
/// wins.
pub proof fn lemma_high_is_monotone(a: Double, b: Double, tolerance: Double, z: Double)
    requires
        a.le(b),
        a.minus(tolerance).is_finite(),
        b.minus(tolerance).is_finite(),
        a.neg().minus(tolerance).is_finite(),
        b.neg().minus(tolerance).is_finite(),
    ensures
        higher_regression(b, tolerance, z).le(higher_regression(a, tolerance, z)),
        higher_beat(a, tolerance, z).le(higher_beat(b, tolerance, z)),
{
    lemma_low_is_monotone(a, b, tolerance, z);
}

/// An excess counts as nothing below zero.
pub proof fn lemma_excess_not_below_zero(amount: Double, z: Double)
    ensures
        not_below_zero(excess(amount, z)),
{
    if !amount.le(Double::from_bits(ZERO)) {
        let ratio = amount.over(z.max(Double::from_bits(NANO_1)));
        if ratio.is_nan() {
            reveal(Double::spec_times);
        } else {
            lemma_square(ratio);
        }
    }
}

spec fn tally_not_below_zero(t: Tally) -> bool {
    not_below_zero(t.reg) && not_below_zero(t.beat)
}

proof fn lemma_term_not_below_zero(sum: Double, weight: Double, term: Double)
    requires
        not_below_zero(sum),
        not_below_zero(weight),
        not_below_zero(term),
    ensures
        not_below_zero(sum.plus(weight.times(term))),
{
    lemma_product_not_below_zero(weight, term);
    lemma_sum_not_below_zero(sum, weight.times(term));
}

broadcast proof fn lemma_low_pair_not_below_zero(
    t: Tally,
    weight: u64,
    delta: Option<Double>,
    tolerance: u64,
    z: Double,
)
    requires
        tally_not_below_zero(t),
        not_below_zero(Double::from_bits(weight)),
    ensures
        tally_not_below_zero(#[trigger] t.add_l_pair(weight, delta, tolerance, z)),
{
    reveal(Tally::spec_add_l_pair);
    if let Some(d) = delta {
        let (w, tol) = (Double::from_bits(weight), Double::from_bits(tolerance));
        lemma_excess_not_below_zero(d.minus(tol), z);
        lemma_excess_not_below_zero(d.neg().minus(tol), z);
        lemma_term_not_below_zero(t.reg, w, lower_regression(d, tol, z));
        lemma_term_not_below_zero(t.beat, w, lower_beat(d, tol, z));
    }
}

broadcast proof fn lemma_high_pair_not_below_zero(
    t: Tally,
    weight: u64,
    delta: Option<Double>,
    tolerance: u64,
    z: Double,
)
    requires
        tally_not_below_zero(t),
        not_below_zero(Double::from_bits(weight)),
    ensures
        tally_not_below_zero(#[trigger] t.add_h_pair(weight, delta, tolerance, z)),
{
    reveal(Tally::spec_add_h_pair);
    if let Some(d) = delta {
        let (w, tol) = (Double::from_bits(weight), Double::from_bits(tolerance));
        lemma_excess_not_below_zero(d.minus(tol), z);
        lemma_excess_not_below_zero(d.neg().minus(tol), z);
        lemma_term_not_below_zero(t.reg, w, higher_regression(d, tol, z));
        lemma_term_not_below_zero(t.beat, w, higher_beat(d, tol, z));
    }
}

/// No cell scores below zero.
pub proof fn lemma_cell_scores_not_below_zero(kind: CellKind, d: Metrics, z: MetricZ)
    ensures
        not_below_zero(cell_score_z(kind, d, z).reg),
        not_below_zero(cell_score_z(kind, d, z).beat),
{
    broadcast use {lemma_low_pair_not_below_zero, lemma_high_pair_not_below_zero};

}

/// A metric that should be low and has become worse by no more than the tolerance
/// costs nothing; one that has become better by no more wins nothing.
pub proof fn lemma_low_within_tolerance(delta: Double, tolerance: Double, z: Double)
    requires
        delta.is_finite(),
        tolerance.is_finite(),
    ensures
        delta.le(tolerance) ==> lower_regression(delta, tolerance, z) == Double::from_bits(ZERO),
        delta.neg().le(tolerance) ==> lower_beat(delta, tolerance, z) == Double::from_bits(ZERO),
{
    lemma_minus_sign(delta, tolerance);
    assert(delta.neg().parts().code == delta.parts().code);
    lemma_minus_sign(delta.neg(), tolerance);
}

/// A metric that should be high and has become worse by no more than the tolerance
/// costs nothing; one that has become better by no more wins nothing.
pub proof fn lemma_high_within_tolerance(delta: Double, tolerance: Double, z: Double)
    requires
        delta.is_finite(),
        tolerance.is_finite(),
    ensures
        delta.neg().le(tolerance) ==> higher_regression(delta, tolerance, z) == Double::from_bits(
            ZERO,
        ),
        delta.le(tolerance) ==> higher_beat(delta, tolerance, z) == Double::from_bits(ZERO),
{
    lemma_minus_sign(delta, tolerance);
    assert(delta.neg().parts().code == delta.parts().code);
    lemma_minus_sign(delta.neg(), tolerance);
}

/// No metric both costs and wins.
pub proof fn lemma_never_both(delta: Double, tolerance: Double, z: Double)
    requires
        delta.is_finite(),
        tolerance.is_finite(),
        Double::from_bits(ZERO).le(tolerance),
    ensures
        lower_regression(delta, tolerance, z) == Double::from_bits(ZERO) || lower_beat(
            delta,
            tolerance,
            z,
        ) == Double::from_bits(ZERO),
        higher_regression(delta, tolerance, z) == Double::from_bits(ZERO) || higher_beat(
            delta,
            tolerance,
            z,
        ) == Double::from_bits(ZERO),
{
    lemma_low_within_tolerance(delta, tolerance, z);
    lemma_high_within_tolerance(delta, tolerance, z);
    assert(delta.neg().parts().code == delta.parts().code);
}

/// All differences that are there are finite.
pub open spec fn all_finite(d: Metrics) -> bool {
    &&& d.convergence_rate matches Some(x) ==> x.is_finite()
    &&& d.convergence_p50_secs matches Some(x) ==> x.is_finite()
    &&& d.convergence_p99_secs matches Some(x) ==> x.is_finite()
    &&& d.settled_accuracy_p50 matches Some(x) ==> x.is_finite()
    &&& d.settled_accuracy_p99 matches Some(x) ==> x.is_finite()
    &&& d.jitter_mean_per_min matches Some(x) ==> x.is_finite()
    &&& d.jitter_p99_per_min matches Some(x) ==> x.is_finite()
    &&& d.reaction_rate matches Some(x) ==> x.is_finite()
    &&& d.reaction_p50_secs matches Some(x) ==> x.is_finite()
    &&& d.reaction_p99_secs matches Some(x) ==> x.is_finite()
}

/// A weight and a tolerance that make sense.
spec fn sensible(weight: u64, tolerance: u64) -> bool {
    &&& Double::from_bits(weight).is_finite()
    &&& !Double::from_bits(weight).parts().negative
    &&& Double::from_bits(tolerance).is_finite()
}

/// A metric that should be low and is within its tolerance adds nothing to nothing.
broadcast proof fn lemma_low_pair_adds_nothing(
    t: Tally,
    weight: u64,
    delta: Option<Double>,
    tolerance: u64,
    z: Double,
)
    requires
        t.reg == Double::from_bits(ZERO),
        sensible(weight, tolerance),
        delta matches Some(d) ==> d.is_finite() && d.le(Double::from_bits(tolerance)),
    ensures
        (#[trigger] t.add_l_pair(weight, delta, tolerance, z)).reg == Double::from_bits(ZERO),
{
    reveal(Tally::spec_add_l_pair);
    if let Some(d) = delta {
        lemma_low_within_tolerance(d, Double::from_bits(tolerance), z);
        lemma_times_zero(Double::from_bits(weight));
        lemma_zero_plus_zero(t.reg);
    }
}

/// A metric that should be high and is within its tolerance adds nothing to nothing.
broadcast proof fn lemma_high_pair_adds_nothing(
    t: Tally,
    weight: u64,
    delta: Option<Double>,
    tolerance: u64,
    z: Double,
)
    requires
        t.reg == Double::from_bits(ZERO),
        sensible(weight, tolerance),
        delta matches Some(d) ==> d.is_finite() && d.neg().le(Double::from_bits(tolerance)),
    ensures
        (#[trigger] t.add_h_pair(weight, delta, tolerance, z)).reg == Double::from_bits(ZERO),
{
    reveal(Tally::spec_add_h_pair);
    if let Some(d) = delta {
        lemma_high_within_tolerance(d, Double::from_bits(tolerance), z);
        lemma_times_zero(Double::from_bits(weight));
        lemma_zero_plus_zero(t.reg);
    }
}

/// A stable or a stepping cell that the guards do not fail scores nothing: beyond
/// the tolerances of its score it would have failed.
pub proof fn lemma_unfailed_cells_score_nothing(row: DeltaText, z: MetricZ)
    requires
        all_finite(row.delta),
        row.kind is Stable || row.kind is Step,
        !broken(row.kind, row.delta, row.cell),
    ensures
        cell_score_z(row.kind, row.delta, z).reg == Double::from_bits(ZERO),
{
    broadcast use {lemma_low_pair_adds_nothing, lemma_high_pair_adds_nothing};

}

/// The greatest deviation against which every excess counts, 2^475: beyond it the
/// square of a small excess can be too small for a number above zero.
pub const GREATEST_DEVIATION: u64 = 0x5da0_0000_0000_0000;

/// A deviation that is not too great.
pub open spec fn moderate(z: Double) -> bool {
    !z.gt(Double::from_bits(GREATEST_DEVIATION))
}

/// Deviations of which none is too great.
pub open spec fn all_moderate(z: MetricZ) -> bool {
    &&& moderate(z.cr)
    &&& moderate(z.cp50)
    &&& moderate(z.cp99)
    &&& moderate(z.sa_p50)
    &&& moderate(z.sa_p99)
    &&& moderate(z.jmean)
    &&& moderate(z.jp99)
    &&& moderate(z.rr)
    &&& moderate(z.rp50)
    &&& moderate(z.rp99)
}

/// A finite difference less a tolerance counts as a number that is not below zero.
/// Beyond a tolerance of at least 0.001 it counts as one above zero.
pub proof fn lemma_excess_over_tolerance(delta: Double, tolerance: Double, z: Double)
    requires
        delta.is_finite(),
        tolerance.is_finite(),
        Double::from_bits(ZERO).le(tolerance),
    ensures
        Double::from_bits(ZERO).le(excess(delta.minus(tolerance), z)),
        delta.gt(tolerance) && Double::from_bits(MILLI_1).le(tolerance) && moderate(z)
            ==> excess(delta.minus(tolerance), z).rank() > 0,
{
    let amount = delta.minus(tolerance);
    lemma_minus_sign(delta, tolerance);
    if delta.rank() > tolerance.rank() {
        lemma_minus_not_above(delta, tolerance);
        lemma_excess_is_number(amount, z.max(Double::from_bits(NANO_1)));
        if Double::from_bits(MILLI_1).le(tolerance) && moderate(z) {
            lemma_minus_leaves_a_place(delta, tolerance);
            lemma_square_of_quotient_above_zero(amount, z.max(Double::from_bits(NANO_1)));
        }
    }
}

/// A weighted number that is not below zero is added, and counts if it is above.
pub proof fn lemma_weighted_term(sum: Double, weight: Double, term: Double)
    requires
        Double::from_bits(ZERO).le(sum),
        weight.is_finite(),
        Double::from_bits(ONE).le(weight),
        Double::from_bits(ZERO).le(term),
    ensures
        sum.le(sum.plus(weight.times(term))),
        term.rank() > 0 ==> sum.plus(weight.times(term)).rank() > 0,
{
    let x = weight.times(term);
    lemma_product_not_below_zero(weight, term);
    if term.rank() > 0 {
        lemma_times_is_number(weight, term);
        lemma_times_commutes(weight, term);
        lemma_times_one(term);
        lemma_times_monotone(term, Double::from_bits(ONE), weight);
    } else {
        lemma_finite_product_is_number(weight, term);
    }
    lemma_plus_not_negative(sum, x);
}

/// A weight and a tolerance as the scores have them.
spec fn counts(weight: u64, tolerance: u64) -> bool {
    &&& Double::from_bits(weight).is_finite()
    &&& Double::from_bits(ONE).le(Double::from_bits(weight))
    &&& Double::from_bits(tolerance).is_finite()
    &&& Double::from_bits(ZERO).le(Double::from_bits(tolerance))
}

/// A loss that is a number and not below zero.
#[verifier::opaque]
spec fn sound(t: Tally) -> bool {
    Double::from_bits(ZERO).le(t.reg)
}

/// A loss above zero.
#[verifier::opaque]
spec fn losing(t: Tally) -> bool {
    t.reg.gt(Double::from_bits(ZERO))
}

/// A metric that should be low never lowers the loss, and raises it above zero
/// where it is beyond a tolerance of at least 0.001.
proof fn lemma_low_pair_counts(
    t: Tally,
    weight: u64,
    delta: Option<Double>,
    tolerance: u64,
    z: Double,
)
    requires
        sound(t),
        counts(weight, tolerance),
        delta matches Some(d) ==> d.is_finite(),
    ensures
        sound(t.add_l_pair(weight, delta, tolerance, z)),
        losing(t) ==> losing(t.add_l_pair(weight, delta, tolerance, z)),
        breaks(delta, Limit::Most(tolerance)) && Double::from_bits(MILLI_1).le(
            Double::from_bits(tolerance),
        ) && moderate(z) ==> losing(t.add_l_pair(weight, delta, tolerance, z)),
{
    reveal(Tally::spec_add_l_pair);
    reveal(sound);
    reveal(losing);
    if let Some(d) = delta {
        let tol = Double::from_bits(tolerance);
        lemma_excess_over_tolerance(d, tol, z);
        lemma_weighted_term(t.reg, Double::from_bits(weight), lower_regression(d, tol, z));
    }
}

/// A metric that should be high never lowers the loss, and raises it above zero
/// where it is short of a tolerance of at least 0.001.
proof fn lemma_high_pair_counts(
    t: Tally,
    weight: u64,
    delta: Option<Double>,
    tolerance: u64,
    z: Double,
)
    requires
        sound(t),
        counts(weight, tolerance),
        delta matches Some(d) ==> d.is_finite(),
    ensures
        sound(t.add_h_pair(weight, delta, tolerance, z)),
        losing(t) ==> losing(t.add_h_pair(weight, delta, tolerance, z)),
        (delta matches Some(d) && d.neg().gt(Double::from_bits(tolerance))) && Double::from_bits(
            MILLI_1,
        ).le(Double::from_bits(tolerance)) && moderate(z) ==> losing(
            t.add_h_pair(weight, delta, tolerance, z),
        ),
{
    reveal(Tally::spec_add_h_pair);
    reveal(sound);
    reveal(losing);
    if let Some(d) = delta {
        let tol = Double::from_bits(tolerance);
        assert(d.neg().parts().code == d.parts().code);
        lemma_excess_over_tolerance(d.neg(), tol, z);
        lemma_weighted_term(t.reg, Double::from_bits(weight), higher_regression(d, tol, z));
    }
}

/// A cold start that breaks a limit has a loss above zero.
proof fn lemma_broken_cold_starts_lose(d: Metrics, cell: Seq<char>, z: MetricZ)
    requires
        all_finite(d),
        all_moderate(z),
        broken(CellKind::ColdStart, d, cell),
    ensures
        losing(cell_score_z(CellKind::ColdStart, d, z)),
{
    let a = Tally::nothing();
    assert(sound(a)) by {
        reveal(sound);
    }
    lemma_high_pair_counts(a, THREE, d.convergence_rate, CENTI_1, z.cr);
    if breaks(d.convergence_rate, Limit::Least(MINUS_CENTI_1)) {
        let x = d.convergence_rate->0;
        assert(x.neg().parts().code == x.parts().code);
        assert(x.neg().gt(Double::from_bits(CENTI_1)));
    }
    let a = a.add_h_pair(THREE, d.convergence_rate, CENTI_1, z.cr);
    lemma_low_pair_counts(a, TWO, d.convergence_p50_secs, SIXTY, z.cp50);
    let a = a.add_l_pair(TWO, d.convergence_p50_secs, SIXTY, z.cp50);
    lemma_low_pair_counts(a, THREE, d.convergence_p99_secs, HUNDRED_TWENTY, z.cp99);
    let a = a.add_l_pair(THREE, d.convergence_p99_secs, HUNDRED_TWENTY, z.cp99);
    lemma_low_pair_counts(a, ONE, d.settled_accuracy_p50, CENTI_8, z.sa_p50);
    let a = a.add_l_pair(ONE, d.settled_accuracy_p50, CENTI_8, z.sa_p50);
    lemma_low_pair_counts(a, TWO, d.settled_accuracy_p99, ZERO, z.sa_p99);
    let a = a.add_l_pair(TWO, d.settled_accuracy_p99, ZERO, z.sa_p99);
    lemma_low_pair_counts(a, ONE, d.jitter_mean_per_min, ZERO, z.jmean);
    let a = a.add_l_pair(ONE, d.jitter_mean_per_min, ZERO, z.jmean);
    lemma_low_pair_counts(a, ONE, d.jitter_p99_per_min, ZERO, z.jp99);
}

/// A stable cell that breaks a limit has a loss above zero.
proof fn lemma_broken_stable_cells_lose(d: Metrics, cell: Seq<char>, z: MetricZ)
    requires
        all_finite(d),
        all_moderate(z),
        broken(CellKind::Stable, d, cell),
    ensures
        losing(cell_score_z(CellKind::Stable, d, z)),
{
    let a = Tally::nothing();
    assert(sound(a)) by {
        reveal(sound);
    }
    lemma_low_pair_counts(a, THREE, d.settled_accuracy_p50, CENTI_2, z.sa_p50);
    let a = a.add_l_pair(THREE, d.settled_accuracy_p50, CENTI_2, z.sa_p50);
    lemma_low_pair_counts(a, FOUR, d.settled_accuracy_p99, CENTI_5, z.sa_p99);
    let a = a.add_l_pair(FOUR, d.settled_accuracy_p99, CENTI_5, z.sa_p99);
    lemma_low_pair_counts(a, FOUR, d.jitter_mean_per_min, MILLI_1, z.jmean);
    let a = a.add_l_pair(FOUR, d.jitter_mean_per_min, MILLI_1, z.jmean);
    lemma_low_pair_counts(a, FIVE, d.jitter_p99_per_min, CENTI_1, z.jp99);
}

/// The guards and the scores agree, for finite differences and deviations that are
/// not too great: a stable cell loses exactly where it fails, a stepping cell only
/// where it fails, a cold start that fails loses, and any other cell neither loses
/// nor wins.
pub proof fn lemma_guards_and_scores_agree(row: DeltaText, z: MetricZ)
    requires
        row.fails.len() == 0,
        all_finite(row.delta),
        all_moderate(z),
    ensures
        ({
            let failed = row.guarded().failed();
            let tally = cell_score_z(row.kind, row.delta, z);
            let loses = tally.reg.gt(Double::from_bits(ZERO));
            &&& row.kind is Stable ==> (loses <==> failed)
            &&& row.kind is Step ==> (loses ==> failed)
            &&& row.kind is ColdStart ==> (failed ==> loses)
            &&& row.kind is Other ==> tally == Tally::nothing() && !failed
        }),
{
    lemma_guards_fail_what_is_broken(row);
    if row.kind is Stable || row.kind is Step {
        if !broken(row.kind, row.delta, row.cell) {
            lemma_unfailed_cells_score_nothing(row, z);
        }
    }
    reveal(losing);
    if broken(row.kind, row.delta, row.cell) {
        if row.kind is Stable {
            lemma_broken_stable_cells_lose(row.delta, row.cell, z);
        } else if row.kind is ColdStart {
            lemma_broken_cold_starts_lose(row.delta, row.cell, z);
        }
    }
}

/// All differences that are there are zero.
pub open spec fn all_zero(d: Metrics) -> bool {
    let zero = Double::from_bits(ZERO);
    &&& d.convergence_rate matches Some(x) ==> x == zero
    &&& d.convergence_p50_secs matches Some(x) ==> x == zero
    &&& d.convergence_p99_secs matches Some(x) ==> x == zero
    &&& d.settled_accuracy_p50 matches Some(x) ==> x == zero
    &&& d.settled_accuracy_p99 matches Some(x) ==> x == zero
    &&& d.jitter_mean_per_min matches Some(x) ==> x == zero
    &&& d.jitter_p99_per_min matches Some(x) ==> x == zero
    &&& d.reaction_rate matches Some(x) ==> x == zero
    &&& d.reaction_p50_secs matches Some(x) ==> x == zero
    &&& d.reaction_p99_secs matches Some(x) ==> x == zero
}

proof fn lemma_delta_to_itself(value: Option<Double>)
    requires
        value matches Some(x) ==> x.is_finite(),
    ensures
        delta(value, value) matches Some(x) ==> x == Double::from_bits(ZERO),
{
    if let Some(x) = value {
        lemma_minus_itself(x);
    }
}

/// Finite measurements less themselves are zeros.
pub proof fn lemma_metrics_less_themselves(m: Metrics)
    requires
        all_finite(m),
    ensures
        all_zero(m.minus(m)),
{
    lemma_delta_to_itself(m.convergence_rate);
    lemma_delta_to_itself(m.convergence_p50_secs);
    lemma_delta_to_itself(m.convergence_p99_secs);
    lemma_delta_to_itself(m.settled_accuracy_p50);
    lemma_delta_to_itself(m.settled_accuracy_p99);
    lemma_delta_to_itself(m.jitter_mean_per_min);
    lemma_delta_to_itself(m.jitter_p99_per_min);
    lemma_delta_to_itself(m.reaction_rate);
    lemma_delta_to_itself(m.reaction_p50_secs);
    lemma_delta_to_itself(m.reaction_p99_secs);
}

/// A cell without differences neither fails nor scores.
proof fn lemma_no_difference(kind: CellKind, d: Metrics, cell: Seq<char>, z: MetricZ)
    requires
        all_zero(d),
    ensures
        !broken(kind, d, cell),
        cell_score_z(kind, d, z).reg == Double::from_bits(ZERO),
{
    broadcast use {lemma_low_pair_adds_nothing, lemma_high_pair_adds_nothing};

    assert(Double::from_bits(ZERO).neg().parts().code == 0);
}

/// Zeros add up to next to nothing.
proof fn lemma_zeros_add_up(s: Seq<Double>)
    requires
        forall|i: int| 0 <= i < s.len() ==> #[trigger] s[i] == Double::from_bits(ZERO),
    ensures
        total_of(s).parts().code == 0,
        total_of(s).le(Double::from_bits(NANO_1)),
    decreases s.len(),
{
    if s.len() > 0 {
        lemma_zeros_add_up(s.drop_last());
        lemma_zero_plus_zero(total_of(s.drop_last()));
    }
}

proof fn lemma_rows_without_difference(keys: Seq<Seq<char>>, cells: Map<Seq<char>, CellText>)
    requires
        forall|k: Seq<char>| #[trigger] cells.contains_key(k) ==> all_finite(cells[k].metrics),
    ensures
        forall|i: int|
            0 <= i < rows_of(keys, cells, cells).len() ==> {
                let row = #[trigger] rows_of(keys, cells, cells)[i];
                all_zero(row.delta) && row.fails.len() == 0
            },
    decreases keys.len(),
{
    if keys.len() > 0 {
        lemma_rows_without_difference(keys.drop_last(), cells);
        let k = keys.last();
        if cells.contains_key(k) {
            let row = plain_row(k, cells[k], cells[k]);
            lemma_metrics_less_themselves(cells[k].metrics);
            lemma_no_difference(row.kind, row.delta, row.cell, deviations(Seq::empty()));
            lemma_guards_fail_what_is_broken(row);
        }
    }
}

/// A run of finite numbers that is compared with itself is accepted: no cell has
/// failed, and the scores add up to next to nothing.
pub proof fn lemma_run_accepted_against_itself(cells: Map<Seq<char>, CellText>)
    requires
        forall|k: Seq<char>| #[trigger] cells.contains_key(k) ==> all_finite(cells[k].metrics),
    ensures
        !any_failed(scored_rows(compared(cells, cells))),
        total_of(scores_of(scored_rows(compared(cells, cells)))).le(Double::from_bits(NANO_1)),
{
    let rows = compared(cells, cells);
    let all = scored_rows(rows);
    let z = deviations(rows);
    lemma_rows_without_difference(in_key_order(cells.dom()), cells);
    assert forall|i: int| 0 <= i < all.len() implies !(#[trigger] all[i]).failed() && all[i].score
        == Double::from_bits(ZERO) by {
        let row = rows[i];
        assert(all[i] == scored(row, z));
        lemma_no_difference(row.kind, row.delta, row.cell, z);
    }
    let scores = scores_of(all);
    assert forall|i: int| 0 <= i < scores.len() implies #[trigger] scores[i] == Double::from_bits(
        ZERO,
    ) by {
        assert(scores[i] == all[i].score);
    }
    lemma_zeros_add_up(scores);
}

} // verus!
