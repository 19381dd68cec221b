use vstd::prelude::*;

use crate::compare::cells::Metrics;
use crate::compare::guards::CellKind;
use crate::compare::laws::{
    all_finite, all_moderate, lemma_excess_grows, lemma_excess_is_number,
    lemma_excess_over_tolerance, lemma_high_within_tolerance, lemma_low_within_tolerance,
    lemma_weighted_term, moderate,
};
use crate::compare::score::{
    MetricZ, Tally, cell_score_z, excess, higher_beat, higher_regression, lower_beat,
    lower_regression,
};
use crate::float::arithmetic::lemma_significand_bounds;
use crate::float::double::Double;
use crate::float::exact::{lemma_exact_difference, lemma_times_sign, lemma_zero_plus};
use crate::float::format::Format;
use crate::float::laws::{
    lemma_finite_product_is_number, lemma_minus_monotone, lemma_minus_not_above, lemma_minus_sign,
    lemma_plus_commutes, lemma_plus_monotone, lemma_plus_not_negative, lemma_product_not_below_zero,
    lemma_square_of_quotient_above_zero, lemma_times_is_number, lemma_times_monotone,
    lemma_times_zero, lemma_zero_plus_zero,
};
use crate::float::numbers::{
    CENTI_1, CENTI_10, CENTI_2, CENTI_5, CENTI_8, FIVE, FOUR, HUNDRED_TWENTY, MILLI_1, MILLI_2,
    NANO_1, ONE, SIXTY, THREE, TWO, ZERO,
};

verus! {

/// The second difference is no smaller than the first, and both are there or neither.
pub open spec fn risen(from: Option<Double>, to: Option<Double>) -> bool {
    match (from, to) {
        (Some(x), Some(y)) => x.is_finite() && y.is_finite() && x.le(y),
        (None, None) => true,
        _ => false,
    }
}

/// The second cell is no better than the first in any metric: its rates are no
/// higher, and its times, its errors and its jitters are no lower.
pub open spec fn no_better(d: Metrics, e: Metrics) -> bool {
    &&& risen(e.convergence_rate, d.convergence_rate)
    &&& risen(d.convergence_p50_secs, e.convergence_p50_secs)
    &&& risen(d.convergence_p99_secs, e.convergence_p99_secs)
    &&& risen(d.settled_accuracy_p50, e.settled_accuracy_p50)
    &&& risen(d.settled_accuracy_p99, e.settled_accuracy_p99)
    &&& risen(d.jitter_mean_per_min, e.jitter_mean_per_min)
    &&& risen(d.jitter_p99_per_min, e.jitter_p99_per_min)
    &&& risen(e.reaction_rate, d.reaction_rate)
    &&& risen(d.reaction_p50_secs, e.reaction_p50_secs)
    &&& risen(d.reaction_p99_secs, e.reaction_p99_secs)
}

/// A greater difference is beyond a tolerance by no less, for all finite differences.
pub proof fn lemma_beyond_is_monotone(a: Double, b: Double, tolerance: Double, z: Double)
    requires
        a.is_finite(),
        b.is_finite(),
        a.le(b),
        tolerance.is_finite(),
        Double::from_bits(ZERO).le(tolerance),
    ensures
        Double::from_bits(ZERO).le(excess(a.minus(tolerance), z)),
        excess(a.minus(tolerance), z).le(excess(b.minus(tolerance), z)),
{
    lemma_excess_over_tolerance(a, tolerance, z);
    lemma_excess_over_tolerance(b, tolerance, z);
    lemma_minus_sign(a, tolerance);
    lemma_minus_sign(b, tolerance);
    if a.rank() > tolerance.rank() {
        lemma_minus_not_above(a, tolerance);
        lemma_minus_not_above(b, tolerance);
        lemma_minus_monotone(a, b, tolerance);
        lemma_excess_grows(a.minus(tolerance), b.minus(tolerance), z);
    }
}

/// A weight and a tolerance as the scores have them.
pub open spec fn usable(weight: u64, tolerance: u64) -> bool {
    &&& Double::from_bits(weight).is_finite()
    &&& Double::from_bits(ONE).le(Double::from_bits(weight))
    &&& Double::from_bits(tolerance).is_finite()
    &&& !Double::from_bits(tolerance).parts().negative
}

/// A greater sum and a greater weighted term add up to no less.
pub proof fn lemma_sums_in_order(s: Double, t: Double, weight: Double, x: Double, y: Double)
    requires
        Double::from_bits(ZERO).le(s),
        s.le(t),
        weight.is_finite(),
        Double::from_bits(ONE).le(weight),
        Double::from_bits(ZERO).le(x),
        x.le(y),
    ensures
        Double::from_bits(ZERO).le(s.plus(weight.times(x))),
        s.plus(weight.times(x)).le(t.plus(weight.times(y))),
{
    lemma_weighted_term(s, weight, x);
    lemma_weighted_term(s, weight, y);
    lemma_weighted_term(t, weight, y);
    let (p, q) = (weight.times(x), weight.times(y));
    lemma_weighted_is_number(weight, x);
    lemma_weighted_is_number(weight, y);
    lemma_times_monotone(weight, x, y);
    lemma_plus_monotone(s, p, q);
    lemma_plus_commutes(s, q);
    lemma_plus_commutes(t, q);
    lemma_plus_monotone(q, s, t);
}

/// A weighted number is a number.
pub proof fn lemma_weighted_is_number(weight: Double, x: Double)
    requires
        weight.is_finite(),
        Double::from_bits(ONE).le(weight),
        Double::from_bits(ZERO).le(x),
    ensures
        !weight.times(x).is_nan(),
{
    if x.is_finite() {
        lemma_finite_product_is_number(weight, x);
    } else {
        lemma_times_is_number(weight, x);
    }
}

/// The second tally loses no less and wins no more.
#[verifier::opaque]
spec fn in_order(a: Tally, b: Tally) -> bool {
    &&& Double::from_bits(ZERO).le(a.reg)
    &&& a.reg.le(b.reg)
    &&& Double::from_bits(ZERO).le(b.beat)
    &&& b.beat.le(a.beat)
}

proof fn lemma_low_pair_keeps_order(
    a: Tally,
    b: Tally,
    weight: u64,
    d: Option<Double>,
    e: Option<Double>,
    tolerance: u64,
    z: Double,
)
    requires
        in_order(a, b),
        usable(weight, tolerance),
        risen(d, e),
    ensures
        in_order(a.add_l_pair(weight, d, tolerance, z), b.add_l_pair(weight, e, tolerance, z)),
{
    reveal(Tally::spec_add_l_pair);
    reveal(in_order);
    if d is Some {
        let (x, y) = (d->0, e->0);
        let (w, t) = (Double::from_bits(weight), Double::from_bits(tolerance));
        assert(x.neg().parts().code == x.parts().code && y.neg().parts().code == y.parts().code);
        lemma_beyond_is_monotone(x, y, t, z);
        lemma_beyond_is_monotone(y.neg(), x.neg(), t, z);
        lemma_sums_in_order(a.reg, b.reg, w, lower_regression(x, t, z), lower_regression(y, t, z));
        lemma_sums_in_order(b.beat, a.beat, w, lower_beat(y, t, z), lower_beat(x, t, z));
    }
}

proof fn lemma_high_pair_keeps_order(
    a: Tally,
    b: Tally,
    weight: u64,
    d: Option<Double>,
    e: Option<Double>,
    tolerance: u64,
    z: Double,
)
    requires
        in_order(a, b),
        usable(weight, tolerance),
        risen(e, d),
    ensures
        in_order(a.add_h_pair(weight, d, tolerance, z), b.add_h_pair(weight, e, tolerance, z)),
{
    reveal(Tally::spec_add_h_pair);
    reveal(in_order);
    if d is Some {
        let (x, y) = (d->0, e->0);
        let (w, t) = (Double::from_bits(weight), Double::from_bits(tolerance));
        assert(x.neg().parts().code == x.parts().code && y.neg().parts().code == y.parts().code);
        lemma_beyond_is_monotone(y, x, t, z);
        lemma_beyond_is_monotone(x.neg(), y.neg(), t, z);
        lemma_sums_in_order(
            a.reg,
            b.reg,
            w,
            higher_regression(x, t, z),
            higher_regression(y, t, z),
        );
        lemma_sums_in_order(b.beat, a.beat, w, higher_beat(y, t, z), higher_beat(x, t, z));
    }
}

/// A cell that is no better in any metric loses no less and wins no more, whatever its
/// kind and the deviations are.
pub proof fn lemma_worse_cells_score_worse(kind: CellKind, d: Metrics, e: Metrics, z: MetricZ)
    requires
        no_better(d, e),
    ensures
        cell_score_z(kind, d, z).reg.le(cell_score_z(kind, e, z).reg),
        cell_score_z(kind, e, z).beat.le(cell_score_z(kind, d, z).beat),
{
    assert(in_order(Tally::nothing(), Tally::nothing())) by {
        reveal(in_order);
    }
    match kind {
        CellKind::ColdStart => lemma_worse_cold_starts(d, e, z),
        CellKind::Stable => lemma_worse_stable_cells(d, e, z),
        CellKind::Step => lemma_worse_steps(d, e, z),
        CellKind::Other => {},
    }
    reveal(in_order);
}

proof fn lemma_worse_cold_starts(d: Metrics, e: Metrics, z: MetricZ)
    requires
        no_better(d, e),
    ensures
        in_order(
            cell_score_z(CellKind::ColdStart, d, z),
            cell_score_z(CellKind::ColdStart, e, z),
        ),
{
    let (a, b) = (Tally::nothing(), Tally::nothing());
    assert(in_order(a, b)) by {
        reveal(in_order);
    }
    lemma_high_pair_keeps_order(a, b, THREE, d.convergence_rate, e.convergence_rate, CENTI_1, z.cr);
    let (a, b) = (
        a.add_h_pair(THREE, d.convergence_rate, CENTI_1, z.cr),
        b.add_h_pair(THREE, e.convergence_rate, CENTI_1, z.cr),
    );
    lemma_low_pair_keeps_order(
        a,
        b,
        TWO,
        d.convergence_p50_secs,
        e.convergence_p50_secs,
        SIXTY,
        z.cp50,
    );
    let (a, b) = (
        a.add_l_pair(TWO, d.convergence_p50_secs, SIXTY, z.cp50),
        b.add_l_pair(TWO, e.convergence_p50_secs, SIXTY, z.cp50),
    );
    lemma_low_pair_keeps_order(
        a,
        b,
        THREE,
        d.convergence_p99_secs,
        e.convergence_p99_secs,
        HUNDRED_TWENTY,
        z.cp99,
    );
    let (a, b) = (
        a.add_l_pair(THREE, d.convergence_p99_secs, HUNDRED_TWENTY, z.cp99),
        b.add_l_pair(THREE, e.convergence_p99_secs, HUNDRED_TWENTY, z.cp99),
    );
    lemma_low_pair_keeps_order(
        a,
        b,
        ONE,
        d.settled_accuracy_p50,
        e.settled_accuracy_p50,
        CENTI_8,
        z.sa_p50,
    );
    let (a, b) = (
        a.add_l_pair(ONE, d.settled_accuracy_p50, CENTI_8, z.sa_p50),
        b.add_l_pair(ONE, e.settled_accuracy_p50, CENTI_8, z.sa_p50),
    );
    lemma_low_pair_keeps_order(
        a,
        b,
        TWO,
        d.settled_accuracy_p99,
        e.settled_accuracy_p99,
        ZERO,
        z.sa_p99,
    );
    let (a, b) = (
        a.add_l_pair(TWO, d.settled_accuracy_p99, ZERO, z.sa_p99),
        b.add_l_pair(TWO, e.settled_accuracy_p99, ZERO, z.sa_p99),
    );
    lemma_low_pair_keeps_order(
        a,
        b,
        ONE,
        d.jitter_mean_per_min,
        e.jitter_mean_per_min,
        ZERO,
        z.jmean,
    );
    let (a, b) = (
        a.add_l_pair(ONE, d.jitter_mean_per_min, ZERO, z.jmean),
        b.add_l_pair(ONE, e.jitter_mean_per_min, ZERO, z.jmean),
    );
    lemma_low_pair_keeps_order(a, b, ONE, d.jitter_p99_per_min, e.jitter_p99_per_min, ZERO, z.jp99);
    let (a, b) = (
        a.add_l_pair(ONE, d.jitter_p99_per_min, ZERO, z.jp99),
        b.add_l_pair(ONE, e.jitter_p99_per_min, ZERO, z.jp99),
    );
}

proof fn lemma_worse_stable_cells(d: Metrics, e: Metrics, z: MetricZ)
    requires
        no_better(d, e),
    ensures
        in_order(
            cell_score_z(CellKind::Stable, d, z),
            cell_score_z(CellKind::Stable, e, z),
        ),
{
    let (a, b) = (Tally::nothing(), Tally::nothing());
    assert(in_order(a, b)) by {
        reveal(in_order);
    }
    lemma_low_pair_keeps_order(
        a,
        b,
        THREE,
        d.settled_accuracy_p50,
        e.settled_accuracy_p50,
        CENTI_2,
        z.sa_p50,
    );
    let (a, b) = (
        a.add_l_pair(THREE, d.settled_accuracy_p50, CENTI_2, z.sa_p50),
        b.add_l_pair(THREE, e.settled_accuracy_p50, CENTI_2, z.sa_p50),
    );
    lemma_low_pair_keeps_order(
        a,
        b,
        FOUR,
        d.settled_accuracy_p99,
        e.settled_accuracy_p99,
        CENTI_5,
        z.sa_p99,
    );
    let (a, b) = (
        a.add_l_pair(FOUR, d.settled_accuracy_p99, CENTI_5, z.sa_p99),
        b.add_l_pair(FOUR, e.settled_accuracy_p99, CENTI_5, z.sa_p99),
    );
    lemma_low_pair_keeps_order(
        a,
        b,
        FOUR,
        d.jitter_mean_per_min,
        e.jitter_mean_per_min,
        MILLI_1,
        z.jmean,
    );
    let (a, b) = (
        a.add_l_pair(FOUR, d.jitter_mean_per_min, MILLI_1, z.jmean),
        b.add_l_pair(FOUR, e.jitter_mean_per_min, MILLI_1, z.jmean),
    );
    lemma_low_pair_keeps_order(
        a,
        b,
        FIVE,
        d.jitter_p99_per_min,
        e.jitter_p99_per_min,
        CENTI_1,
        z.jp99,
    );
    let (a, b) = (
        a.add_l_pair(FIVE, d.jitter_p99_per_min, CENTI_1, z.jp99),
        b.add_l_pair(FIVE, e.jitter_p99_per_min, CENTI_1, z.jp99),
    );
}

proof fn lemma_worse_steps(d: Metrics, e: Metrics, z: MetricZ)
    requires
        no_better(d, e),
    ensures
        in_order(
            cell_score_z(CellKind::Step, d, z),
            cell_score_z(CellKind::Step, e, z),
        ),
{
    let (a, b) = (Tally::nothing(), Tally::nothing());
    assert(in_order(a, b)) by {
        reveal(in_order);
    }
    lemma_high_pair_keeps_order(a, b, FIVE, d.reaction_rate, e.reaction_rate, CENTI_5, z.rr);
    let (a, b) = (
        a.add_h_pair(FIVE, d.reaction_rate, CENTI_5, z.rr),
        b.add_h_pair(FIVE, e.reaction_rate, CENTI_5, z.rr),
    );
    lemma_low_pair_keeps_order(
        a,
        b,
        THREE,
        d.reaction_p50_secs,
        e.reaction_p50_secs,
        SIXTY,
        z.rp50,
    );
    let (a, b) = (
        a.add_l_pair(THREE, d.reaction_p50_secs, SIXTY, z.rp50),
        b.add_l_pair(THREE, e.reaction_p50_secs, SIXTY, z.rp50),
    );
    lemma_low_pair_keeps_order(
        a,
        b,
        FOUR,
        d.reaction_p99_secs,
        e.reaction_p99_secs,
        HUNDRED_TWENTY,
        z.rp99,
    );
    let (a, b) = (
        a.add_l_pair(FOUR, d.reaction_p99_secs, HUNDRED_TWENTY, z.rp99),
        b.add_l_pair(FOUR, e.reaction_p99_secs, HUNDRED_TWENTY, z.rp99),
    );
    lemma_low_pair_keeps_order(
        a,
        b,
        FOUR,
        d.settled_accuracy_p50,
        e.settled_accuracy_p50,
        CENTI_5,
        z.sa_p50,
    );
    let (a, b) = (
        a.add_l_pair(FOUR, d.settled_accuracy_p50, CENTI_5, z.sa_p50),
        b.add_l_pair(FOUR, e.settled_accuracy_p50, CENTI_5, z.sa_p50),
    );
    lemma_low_pair_keeps_order(
        a,
        b,
        FIVE,
        d.settled_accuracy_p99,
        e.settled_accuracy_p99,
        CENTI_10,
        z.sa_p99,
    );
    let (a, b) = (
        a.add_l_pair(FIVE, d.settled_accuracy_p99, CENTI_10, z.sa_p99),
        b.add_l_pair(FIVE, e.settled_accuracy_p99, CENTI_10, z.sa_p99),
    );
    lemma_low_pair_keeps_order(
        a,
        b,
        TWO,
        d.jitter_mean_per_min,
        e.jitter_mean_per_min,
        MILLI_2,
        z.jmean,
    );
    let (a, b) = (
        a.add_l_pair(TWO, d.jitter_mean_per_min, MILLI_2, z.jmean),
        b.add_l_pair(TWO, e.jitter_mean_per_min, MILLI_2, z.jmean),
    );
    lemma_low_pair_keeps_order(
        a,
        b,
        THREE,
        d.jitter_p99_per_min,
        e.jitter_p99_per_min,
        CENTI_2,
        z.jp99,
    );
    let (a, b) = (
        a.add_l_pair(THREE, d.jitter_p99_per_min, CENTI_2, z.jp99),
        b.add_l_pair(THREE, e.jitter_p99_per_min, CENTI_2, z.jp99),
    );
}

/// What an amount weighs: its weight times the square of how many deviations it is.
pub open spec fn weighed(weight: u64, amount: Double, z: Double) -> Double {
    Double::from_bits(weight).times(amount.over(z).times(amount.over(z)))
}

/// The tally is that of one metric that should be low: what it has risen beyond the
/// tolerance is lost, what it has fallen beyond it is won.
pub open spec fn weighs_low(t: Tally, weight: u64, x: Double, tolerance: u64, z: Double) -> bool {
    let tol = Double::from_bits(tolerance);
    &&& t.reg == if x.gt(tol) {
        weighed(weight, x.minus(tol), z)
    } else {
        Double::from_bits(ZERO)
    }
    &&& t.beat == if x.neg().gt(tol) {
        weighed(weight, x.neg().minus(tol), z)
    } else {
        Double::from_bits(ZERO)
    }
}

/// The tally is that of one metric that should be high: what it has fallen beyond the
/// tolerance is lost, what it has risen beyond it is won.
pub open spec fn weighs_high(t: Tally, weight: u64, x: Double, tolerance: u64, z: Double) -> bool {
    weighs_low(Tally { reg: t.beat, beat: t.reg }, weight, x, tolerance, z)
}

/// What one weighted excess adds to nothing.
pub proof fn lemma_first_term(weight: u64, x: Double, tolerance: u64, z: Double)
    requires
        usable(weight, tolerance),
        x.is_finite(),
        Double::from_bits(NANO_1).le(z),
    ensures
        Double::from_bits(ZERO).plus(
            Double::from_bits(weight).times(excess(x.minus(Double::from_bits(tolerance)), z)),
        ) == if x.gt(Double::from_bits(tolerance)) {
            weighed(weight, x.minus(Double::from_bits(tolerance)), z)
        } else {
            Double::from_bits(ZERO)
        },
{
    let (w, t) = (Double::from_bits(weight), Double::from_bits(tolerance));
    let term = excess(x.minus(t), z);
    lemma_excess_over_tolerance(x, t, z);
    lemma_minus_sign(x, t);
    lemma_weighted_is_number(w, term);
    lemma_product_not_below_zero(w, term);
    lemma_times_zero(w);
    if x.gt(t) {
        lemma_minus_not_above(x, t);
        lemma_excess_is_number(x.minus(t), z.max(Double::from_bits(NANO_1)));
        lemma_times_sign(w, term);
        lemma_zero_plus(w.times(term));
    } else {
        lemma_zero_plus_zero(Double::from_bits(ZERO));
    }
}

proof fn lemma_first_low(weight: u64, x: Double, tolerance: u64, z: Double)
    requires
        usable(weight, tolerance),
        x.is_finite(),
        Double::from_bits(NANO_1).le(z),
    ensures
        weighs_low(
            Tally::nothing().add_l_pair(weight, Some(x), tolerance, z),
            weight,
            x,
            tolerance,
            z,
        ),
{
    reveal(Tally::spec_add_l_pair);
    assert(x.neg().parts().code == x.parts().code);
    lemma_first_term(weight, x, tolerance, z);
    lemma_first_term(weight, x.neg(), tolerance, z);
}

proof fn lemma_first_high(weight: u64, x: Double, tolerance: u64, z: Double)
    requires
        usable(weight, tolerance),
        x.is_finite(),
        Double::from_bits(NANO_1).le(z),
    ensures
        weighs_high(
            Tally::nothing().add_h_pair(weight, Some(x), tolerance, z),
            weight,
            x,
            tolerance,
            z,
        ),
{
    reveal(Tally::spec_add_h_pair);
    assert(x.neg().parts().code == x.parts().code);
    lemma_first_term(weight, x, tolerance, z);
    lemma_first_term(weight, x.neg(), tolerance, z);
}

broadcast proof fn lemma_no_low(t: Tally, weight: u64, tolerance: u64, z: Double)
    ensures
        #[trigger] t.add_l_pair(weight, None, tolerance, z) == t,
{
    reveal(Tally::spec_add_l_pair);
}

broadcast proof fn lemma_no_high(t: Tally, weight: u64, tolerance: u64, z: Double)
    ensures
        #[trigger] t.add_h_pair(weight, None, tolerance, z) == t,
{
    reveal(Tally::spec_add_h_pair);
}

/// What each metric of a cold start weighs where it is the only one: the weight, the
/// direction and the tolerance of each.
pub proof fn lemma_what_weighs_in_a_cold_start(x: Double, z: MetricZ)
    requires
        x.is_finite(),
        Double::from_bits(NANO_1).le(z.cr),
        Double::from_bits(NANO_1).le(z.cp50),
        Double::from_bits(NANO_1).le(z.cp99),
        Double::from_bits(NANO_1).le(z.sa_p50),
        Double::from_bits(NANO_1).le(z.sa_p99),
        Double::from_bits(NANO_1).le(z.jmean),
        Double::from_bits(NANO_1).le(z.jp99),
    ensures
        weighs_high(
            cell_score_z(
                CellKind::ColdStart,
                (Metrics { convergence_rate: Some(x), ..Metrics::none() }),
                z,
            ),
            THREE,
            x,
            CENTI_1,
            z.cr,
        ),
        weighs_low(
            cell_score_z(
                CellKind::ColdStart,
                (Metrics { convergence_p50_secs: Some(x), ..Metrics::none() }),
                z,
            ),
            TWO,
            x,
            SIXTY,
            z.cp50,
        ),
        weighs_low(
            cell_score_z(
                CellKind::ColdStart,
                (Metrics { convergence_p99_secs: Some(x), ..Metrics::none() }),
                z,
            ),
            THREE,
            x,
            HUNDRED_TWENTY,
            z.cp99,
        ),
        weighs_low(
            cell_score_z(
                CellKind::ColdStart,
                (Metrics { settled_accuracy_p50: Some(x), ..Metrics::none() }),
                z,
            ),
            ONE,
            x,
            CENTI_8,
            z.sa_p50,
        ),
        weighs_low(
            cell_score_z(
                CellKind::ColdStart,
                (Metrics { settled_accuracy_p99: Some(x), ..Metrics::none() }),
                z,
            ),
            TWO,
            x,
            ZERO,
            z.sa_p99,
        ),
        weighs_low(
            cell_score_z(
                CellKind::ColdStart,
                (Metrics { jitter_mean_per_min: Some(x), ..Metrics::none() }),
                z,
            ),
            ONE,
            x,
            ZERO,
            z.jmean,
        ),
        weighs_low(
            cell_score_z(
                CellKind::ColdStart,
                (Metrics { jitter_p99_per_min: Some(x), ..Metrics::none() }),
                z,
            ),
            ONE,
            x,
            ZERO,
            z.jp99,
        ),
{
    broadcast use {lemma_no_low, lemma_no_high};

    lemma_first_high(THREE, x, CENTI_1, z.cr);
    lemma_first_low(TWO, x, SIXTY, z.cp50);
    lemma_first_low(THREE, x, HUNDRED_TWENTY, z.cp99);
    lemma_first_low(ONE, x, CENTI_8, z.sa_p50);
    lemma_first_low(TWO, x, ZERO, z.sa_p99);
    lemma_first_low(ONE, x, ZERO, z.jmean);
    lemma_first_low(ONE, x, ZERO, z.jp99);
}

/// What each metric of a stable cell weighs where it is the only one: the weight, the
/// direction and the tolerance of each.
pub proof fn lemma_what_weighs_in_a_stable_cell(x: Double, z: MetricZ)
    requires
        x.is_finite(),
        Double::from_bits(NANO_1).le(z.sa_p50),
        Double::from_bits(NANO_1).le(z.sa_p99),
        Double::from_bits(NANO_1).le(z.jmean),
        Double::from_bits(NANO_1).le(z.jp99),
    ensures
        weighs_low(
            cell_score_z(
                CellKind::Stable,
                (Metrics { settled_accuracy_p50: Some(x), ..Metrics::none() }),
                z,
            ),
            THREE,
            x,
            CENTI_2,
            z.sa_p50,
        ),
        weighs_low(
            cell_score_z(
                CellKind::Stable,
                (Metrics { settled_accuracy_p99: Some(x), ..Metrics::none() }),
                z,
            ),
            FOUR,
            x,
            CENTI_5,
            z.sa_p99,
        ),
        weighs_low(
            cell_score_z(
                CellKind::Stable,
                (Metrics { jitter_mean_per_min: Some(x), ..Metrics::none() }),
                z,
            ),
            FOUR,
            x,
            MILLI_1,
            z.jmean,
        ),
        weighs_low(
            cell_score_z(
                CellKind::Stable,
                (Metrics { jitter_p99_per_min: Some(x), ..Metrics::none() }),
                z,
            ),
            FIVE,
            x,
            CENTI_1,
            z.jp99,
        ),
{
    broadcast use {lemma_no_low, lemma_no_high};

    lemma_first_low(THREE, x, CENTI_2, z.sa_p50);
    lemma_first_low(FOUR, x, CENTI_5, z.sa_p99);
    lemma_first_low(FOUR, x, MILLI_1, z.jmean);
    lemma_first_low(FIVE, x, CENTI_1, z.jp99);
}

/// What each metric of a stepping cell weighs where it is the only one: the weight, the
/// direction and the tolerance of each.
pub proof fn lemma_what_weighs_in_a_step(x: Double, z: MetricZ)
    requires
        x.is_finite(),
        Double::from_bits(NANO_1).le(z.rr),
        Double::from_bits(NANO_1).le(z.rp50),
        Double::from_bits(NANO_1).le(z.rp99),
        Double::from_bits(NANO_1).le(z.sa_p50),
        Double::from_bits(NANO_1).le(z.sa_p99),
        Double::from_bits(NANO_1).le(z.jmean),
        Double::from_bits(NANO_1).le(z.jp99),
    ensures
        weighs_high(
            cell_score_z(
                CellKind::Step,
                (Metrics { reaction_rate: Some(x), ..Metrics::none() }),
                z,
            ),
            FIVE,
            x,
            CENTI_5,
            z.rr,
        ),
        weighs_low(
            cell_score_z(
                CellKind::Step,
                (Metrics { reaction_p50_secs: Some(x), ..Metrics::none() }),
                z,
            ),
            THREE,
            x,
            SIXTY,
            z.rp50,
        ),
        weighs_low(
            cell_score_z(
                CellKind::Step,
                (Metrics { reaction_p99_secs: Some(x), ..Metrics::none() }),
                z,
            ),
            FOUR,
            x,
            HUNDRED_TWENTY,
            z.rp99,
        ),
        weighs_low(
            cell_score_z(
                CellKind::Step,
                (Metrics { settled_accuracy_p50: Some(x), ..Metrics::none() }),
                z,
            ),
            FOUR,
            x,
            CENTI_5,
            z.sa_p50,
        ),
        weighs_low(
            cell_score_z(
                CellKind::Step,
                (Metrics { settled_accuracy_p99: Some(x), ..Metrics::none() }),
                z,
            ),
            FIVE,
            x,
            CENTI_10,
            z.sa_p99,
        ),
        weighs_low(
            cell_score_z(
                CellKind::Step,
                (Metrics { jitter_mean_per_min: Some(x), ..Metrics::none() }),
                z,
            ),
            TWO,
            x,
            MILLI_2,
            z.jmean,
        ),
        weighs_low(
            cell_score_z(
                CellKind::Step,
                (Metrics { jitter_p99_per_min: Some(x), ..Metrics::none() }),
                z,
            ),
            THREE,
            x,
            CENTI_2,
            z.jp99,
        ),
{
    broadcast use {lemma_no_low, lemma_no_high};

    lemma_first_high(FIVE, x, CENTI_5, z.rr);
    lemma_first_low(THREE, x, SIXTY, z.rp50);
    lemma_first_low(FOUR, x, HUNDRED_TWENTY, z.rp99);
    lemma_first_low(FOUR, x, CENTI_5, z.sa_p50);
    lemma_first_low(FIVE, x, CENTI_10, z.sa_p99);
    lemma_first_low(TWO, x, MILLI_2, z.jmean);
    lemma_first_low(THREE, x, CENTI_2, z.jp99);
}

/// A difference that counts where any rise at all does: at least 2^-62.
pub open spec fn noticeable(x: Double) -> bool {
    x.ge(Double::from_bits(0x3c10_0000_0000_0000))
}

/// A rise beyond the tolerance: of a tolerance of zero, a noticeable one.
pub open spec fn rises_beyond(x: Option<Double>, tolerance: u64) -> bool {
    x matches Some(d) && d.gt(Double::from_bits(tolerance)) && (Double::from_bits(tolerance).gt(
        Double::from_bits(ZERO),
    ) || noticeable(d))
}

/// A fall beyond the tolerance.
pub open spec fn falls_beyond(x: Option<Double>, tolerance: u64) -> bool {
    x matches Some(d) && d.neg().gt(Double::from_bits(tolerance))
}

/// No rise beyond the tolerance.
pub open spec fn stays_below(x: Option<Double>, tolerance: u64) -> bool {
    x matches Some(d) ==> d.le(Double::from_bits(tolerance))
}

/// No fall beyond the tolerance.
pub open spec fn stays_above(x: Option<Double>, tolerance: u64) -> bool {
    x matches Some(d) ==> d.neg().le(Double::from_bits(tolerance))
}

/// A difference beyond its tolerance counts as more than nothing.
pub proof fn lemma_beyond_counts(x: Double, tolerance: Double, z: Double)
    requires
        x.is_finite(),
        tolerance.is_finite(),
        x.gt(tolerance),
        Double::from_bits(MILLI_1).le(tolerance) || tolerance == Double::from_bits(ZERO)
            && noticeable(x),
        moderate(z),
    ensures
        excess(x.minus(tolerance), z).rank() > 0,
{
    if tolerance == Double::from_bits(ZERO) {
        let amount = x.minus(tolerance);
        lemma_significand_bounds(Format::Double, 0);
        lemma_exact_difference(x, tolerance, x.parts().code as nat);
        lemma_square_of_quotient_above_zero(amount, z.max(Double::from_bits(NANO_1)));
    } else {
        lemma_excess_over_tolerance(x, tolerance, z);
    }
}

/// A loss that is a number and not below zero.
#[verifier::opaque]
spec fn sound(t: Tally) -> bool {
    Double::from_bits(ZERO).le(t.reg)
}

/// A loss above zero.
#[verifier::opaque]
spec fn losing(t: Tally) -> bool {
    t.reg.gt(Double::from_bits(ZERO))
}

/// A loss of nothing.
#[verifier::opaque]
spec fn even(t: Tally) -> bool {
    t.reg == Double::from_bits(ZERO)
}

spec fn tolerable(tolerance: u64) -> bool {
    Double::from_bits(MILLI_1).le(Double::from_bits(tolerance)) || tolerance == ZERO
}

proof fn lemma_low_pair_decides(
    t: Tally,
    weight: u64,
    delta: Option<Double>,
    tolerance: u64,
    z: Double,
)
    requires
        sound(t),
        usable(weight, tolerance),
        tolerable(tolerance),
        moderate(z),
        delta matches Some(d) ==> d.is_finite(),
    ensures
        sound(t.add_l_pair(weight, delta, tolerance, z)),
        losing(t) || rises_beyond(delta, tolerance) ==> losing(
            t.add_l_pair(weight, delta, tolerance, z),
        ),
        even(t) && stays_below(delta, tolerance) ==> even(
            t.add_l_pair(weight, delta, tolerance, z),
        ),
{
    reveal(Tally::spec_add_l_pair);
    reveal(sound);
    reveal(losing);
    reveal(even);
    if let Some(d) = delta {
        let (w, tol) = (Double::from_bits(weight), Double::from_bits(tolerance));
        lemma_excess_over_tolerance(d, tol, z);
        if rises_beyond(delta, tolerance) {
            lemma_beyond_counts(d, tol, z);
        }
        lemma_weighted_term(t.reg, w, lower_regression(d, tol, z));
        lemma_low_within_tolerance(d, tol, z);
        lemma_times_zero(w);
        if even(t) {
            lemma_zero_plus_zero(t.reg);
        }
    }
}

proof fn lemma_high_pair_decides(
    t: Tally,
    weight: u64,
    delta: Option<Double>,
    tolerance: u64,
    z: Double,
)
    requires
        sound(t),
        usable(weight, tolerance),
        Double::from_bits(MILLI_1).le(Double::from_bits(tolerance)),
        moderate(z),
        delta matches Some(d) ==> d.is_finite(),
    ensures
        sound(t.add_h_pair(weight, delta, tolerance, z)),
        losing(t) || falls_beyond(delta, tolerance) ==> losing(
            t.add_h_pair(weight, delta, tolerance, z),
        ),
        even(t) && stays_above(delta, tolerance) ==> even(
            t.add_h_pair(weight, delta, tolerance, z),
        ),
{
    reveal(Tally::spec_add_h_pair);
    reveal(sound);
    reveal(losing);
    reveal(even);
    if let Some(d) = delta {
        let (w, tol) = (Double::from_bits(weight), Double::from_bits(tolerance));
        assert(d.neg().parts().code == d.parts().code);
        lemma_excess_over_tolerance(d.neg(), tol, z);
        if falls_beyond(delta, tolerance) {
            lemma_beyond_counts(d.neg(), tol, z);
        }
        lemma_weighted_term(t.reg, w, higher_regression(d, tol, z));
        lemma_high_within_tolerance(d, tol, z);
        lemma_times_zero(w);
        if even(t) {
            lemma_zero_plus_zero(t.reg);
        }
    }
}

/// A cold start loses where its rate falls, or one of its times, errors or jitters
/// rises, beyond the tolerance, and not where all stay within. The tolerance is zero
/// for the 99th percentile of the error and for the jitters.
pub proof fn lemma_when_a_cold_start_loses(d: Metrics, z: MetricZ)
    requires
        all_finite(d),
        all_moderate(z),
    ensures
        ({
            ||| falls_beyond(d.convergence_rate, CENTI_1)
            ||| rises_beyond(d.convergence_p50_secs, SIXTY)
            ||| rises_beyond(d.convergence_p99_secs, HUNDRED_TWENTY)
            ||| rises_beyond(d.settled_accuracy_p50, CENTI_8)
            ||| rises_beyond(d.settled_accuracy_p99, ZERO)
            ||| rises_beyond(d.jitter_mean_per_min, ZERO)
            ||| rises_beyond(d.jitter_p99_per_min, ZERO)
        }) ==> cell_score_z(CellKind::ColdStart, d, z).reg.gt(Double::from_bits(ZERO)),
        ({
            &&& stays_above(d.convergence_rate, CENTI_1)
            &&& stays_below(d.convergence_p50_secs, SIXTY)
            &&& stays_below(d.convergence_p99_secs, HUNDRED_TWENTY)
            &&& stays_below(d.settled_accuracy_p50, CENTI_8)
            &&& stays_below(d.settled_accuracy_p99, ZERO)
            &&& stays_below(d.jitter_mean_per_min, ZERO)
            &&& stays_below(d.jitter_p99_per_min, ZERO)
        }) ==> cell_score_z(CellKind::ColdStart, d, z).reg == Double::from_bits(ZERO),
{
    let a = Tally::nothing();
    assert(sound(a) && even(a)) by {
        reveal(sound);
        reveal(even);
    }
    lemma_high_pair_decides(a, THREE, d.convergence_rate, CENTI_1, z.cr);
    let a = a.add_h_pair(THREE, d.convergence_rate, CENTI_1, z.cr);
    lemma_low_pair_decides(a, TWO, d.convergence_p50_secs, SIXTY, z.cp50);
    let a = a.add_l_pair(TWO, d.convergence_p50_secs, SIXTY, z.cp50);
    lemma_low_pair_decides(a, THREE, d.convergence_p99_secs, HUNDRED_TWENTY, z.cp99);
    let a = a.add_l_pair(THREE, d.convergence_p99_secs, HUNDRED_TWENTY, z.cp99);
    lemma_low_pair_decides(a, ONE, d.settled_accuracy_p50, CENTI_8, z.sa_p50);
    let a = a.add_l_pair(ONE, d.settled_accuracy_p50, CENTI_8, z.sa_p50);
    lemma_low_pair_decides(a, TWO, d.settled_accuracy_p99, ZERO, z.sa_p99);
    let a = a.add_l_pair(TWO, d.settled_accuracy_p99, ZERO, z.sa_p99);
    lemma_low_pair_decides(a, ONE, d.jitter_mean_per_min, ZERO, z.jmean);
    let a = a.add_l_pair(ONE, d.jitter_mean_per_min, ZERO, z.jmean);
    lemma_low_pair_decides(a, ONE, d.jitter_p99_per_min, ZERO, z.jp99);
    let a = a.add_l_pair(ONE, d.jitter_p99_per_min, ZERO, z.jp99);
    assert((losing(a) ==> a.reg.gt(Double::from_bits(ZERO))) && (even(a) ==> a.reg
        == Double::from_bits(ZERO))) by {
        reveal(losing);
        reveal(even);
    }
}

/// A stable cell loses where one of its errors or jitters rises beyond the tolerance,
/// and not where all stay within.
pub proof fn lemma_when_a_stable_cell_loses(d: Metrics, z: MetricZ)
    requires
        all_finite(d),
        all_moderate(z),
    ensures
        ({
            ||| rises_beyond(d.settled_accuracy_p50, CENTI_2)
            ||| rises_beyond(d.settled_accuracy_p99, CENTI_5)
            ||| rises_beyond(d.jitter_mean_per_min, MILLI_1)
            ||| rises_beyond(d.jitter_p99_per_min, CENTI_1)
        }) ==> cell_score_z(CellKind::Stable, d, z).reg.gt(Double::from_bits(ZERO)),
        ({
            &&& stays_below(d.settled_accuracy_p50, CENTI_2)
            &&& stays_below(d.settled_accuracy_p99, CENTI_5)
            &&& stays_below(d.jitter_mean_per_min, MILLI_1)
            &&& stays_below(d.jitter_p99_per_min, CENTI_1)
        }) ==> cell_score_z(CellKind::Stable, d, z).reg == Double::from_bits(ZERO),
{
    let a = Tally::nothing();
    assert(sound(a) && even(a)) by {
        reveal(sound);
        reveal(even);
    }
    lemma_low_pair_decides(a, THREE, d.settled_accuracy_p50, CENTI_2, z.sa_p50);
    let a = a.add_l_pair(THREE, d.settled_accuracy_p50, CENTI_2, z.sa_p50);
    lemma_low_pair_decides(a, FOUR, d.settled_accuracy_p99, CENTI_5, z.sa_p99);
    let a = a.add_l_pair(FOUR, d.settled_accuracy_p99, CENTI_5, z.sa_p99);
    lemma_low_pair_decides(a, FOUR, d.jitter_mean_per_min, MILLI_1, z.jmean);
    let a = a.add_l_pair(FOUR, d.jitter_mean_per_min, MILLI_1, z.jmean);
    lemma_low_pair_decides(a, FIVE, d.jitter_p99_per_min, CENTI_1, z.jp99);
    let a = a.add_l_pair(FIVE, d.jitter_p99_per_min, CENTI_1, z.jp99);
    assert((losing(a) ==> a.reg.gt(Double::from_bits(ZERO))) && (even(a) ==> a.reg
        == Double::from_bits(ZERO))) by {
        reveal(losing);
        reveal(even);
    }
}

/// A stepping cell loses where its rate falls, or one of its times, errors or jitters
/// rises, beyond the tolerance, and not where all stay within.
pub proof fn lemma_when_a_step_loses(d: Metrics, z: MetricZ)
    requires
        all_finite(d),
        all_moderate(z),
    ensures
        ({
            ||| falls_beyond(d.reaction_rate, CENTI_5)
            ||| rises_beyond(d.reaction_p50_secs, SIXTY)
            ||| rises_beyond(d.reaction_p99_secs, HUNDRED_TWENTY)
            ||| rises_beyond(d.settled_accuracy_p50, CENTI_5)
            ||| rises_beyond(d.settled_accuracy_p99, CENTI_10)
            ||| rises_beyond(d.jitter_mean_per_min, MILLI_2)
            ||| rises_beyond(d.jitter_p99_per_min, CENTI_2)
        }) ==> cell_score_z(CellKind::Step, d, z).reg.gt(Double::from_bits(ZERO)),
        ({
            &&& stays_above(d.reaction_rate, CENTI_5)
            &&& stays_below(d.reaction_p50_secs, SIXTY)
            &&& stays_below(d.reaction_p99_secs, HUNDRED_TWENTY)
            &&& stays_below(d.settled_accuracy_p50, CENTI_5)
            &&& stays_below(d.settled_accuracy_p99, CENTI_10)
            &&& stays_below(d.jitter_mean_per_min, MILLI_2)
            &&& stays_below(d.jitter_p99_per_min, CENTI_2)
        }) ==> cell_score_z(CellKind::Step, d, z).reg == Double::from_bits(ZERO),
{
    let a = Tally::nothing();
    assert(sound(a) && even(a)) by {
        reveal(sound);
        reveal(even);
    }
    lemma_high_pair_decides(a, FIVE, d.reaction_rate, CENTI_5, z.rr);
    let a = a.add_h_pair(FIVE, d.reaction_rate, CENTI_5, z.rr);
    lemma_low_pair_decides(a, THREE, d.reaction_p50_secs, SIXTY, z.rp50);
    let a = a.add_l_pair(THREE, d.reaction_p50_secs, SIXTY, z.rp50);
    lemma_low_pair_decides(a, FOUR, d.reaction_p99_secs, HUNDRED_TWENTY, z.rp99);
    let a = a.add_l_pair(FOUR, d.reaction_p99_secs, HUNDRED_TWENTY, z.rp99);
    lemma_low_pair_decides(a, FOUR, d.settled_accuracy_p50, CENTI_5, z.sa_p50);
    let a = a.add_l_pair(FOUR, d.settled_accuracy_p50, CENTI_5, z.sa_p50);
    lemma_low_pair_decides(a, FIVE, d.settled_accuracy_p99, CENTI_10, z.sa_p99);
    let a = a.add_l_pair(FIVE, d.settled_accuracy_p99, CENTI_10, z.sa_p99);
    lemma_low_pair_decides(a, TWO, d.jitter_mean_per_min, MILLI_2, z.jmean);
    let a = a.add_l_pair(TWO, d.jitter_mean_per_min, MILLI_2, z.jmean);
    lemma_low_pair_decides(a, THREE, d.jitter_p99_per_min, CENTI_2, z.jp99);
    let a = a.add_l_pair(THREE, d.jitter_p99_per_min, CENTI_2, z.jp99);
    assert((losing(a) ==> a.reg.gt(Double::from_bits(ZERO))) && (even(a) ==> a.reg
        == Double::from_bits(ZERO))) by {
        reveal(losing);
        reveal(even);
    }
}

/// What one metric adds to a tally is what it scores alone.
#[verifier::opaque]
spec fn adds(t: Tally, alone: Tally, next: Tally) -> bool {
    &&& next.reg == t.reg.plus(alone.reg)
    &&& next.beat == t.beat.plus(alone.beat)
    &&& clean(next.reg)
    &&& clean(next.beat)
}

/// A number without a sign.
pub open spec fn clean(x: Double) -> bool {
    !x.is_nan() && !x.parts().negative
}

/// The sum of two numbers without a sign has none, and adding nothing changes nothing.
pub proof fn lemma_clean_sum(a: Double, b: Double)
    requires
        clean(a),
        clean(b),
    ensures
        clean(a.plus(b)),
        a.plus(Double::from_bits(ZERO)) == a,
{
    lemma_plus_not_negative(a, b);
    lemma_plus_commutes(a, Double::from_bits(ZERO));
    lemma_zero_plus(a);
    reveal(Double::spec_plus);
}

/// A weighted excess over a tolerance has no sign.
pub proof fn lemma_clean_term(weight: u64, x: Double, tolerance: u64, z: Double)
    requires
        usable(weight, tolerance),
        x.is_finite(),
    ensures
        clean(excess(x.minus(Double::from_bits(tolerance)), z)),
        clean(Double::from_bits(weight).times(excess(x.minus(Double::from_bits(tolerance)), z))),
{
    let (w, t) = (Double::from_bits(weight), Double::from_bits(tolerance));
    let term = excess(x.minus(t), z);
    lemma_excess_over_tolerance(x, t, z);
    lemma_minus_sign(x, t);
    if x.gt(t) {
        lemma_minus_not_above(x, t);
        lemma_excess_is_number(x.minus(t), z.max(Double::from_bits(NANO_1)));
    }
    lemma_weighted_is_number(w, term);
    lemma_times_sign(w, term);
}

proof fn lemma_low_pair_adds(
    t: Tally,
    weight: u64,
    delta: Option<Double>,
    tolerance: u64,
    z: Double,
)
    requires
        clean(t.reg),
        clean(t.beat),
        usable(weight, tolerance),
        delta matches Some(d) ==> d.is_finite(),
    ensures
        adds(
            t,
            Tally::nothing().add_l_pair(weight, delta, tolerance, z),
            t.add_l_pair(weight, delta, tolerance, z),
        ),
        clean(t.add_l_pair(weight, delta, tolerance, z).reg),
        clean(t.add_l_pair(weight, delta, tolerance, z).beat),
{
    reveal(Tally::spec_add_l_pair);
    reveal(adds);
    match delta {
        Some(x) => {
            let (w, tol) = (Double::from_bits(weight), Double::from_bits(tolerance));
            assert(x.neg().parts().code == x.parts().code);
            let (a, b) = (
                w.times(excess(x.minus(tol), z)),
                w.times(excess(x.neg().minus(tol), z)),
            );
            lemma_clean_term(weight, x, tolerance, z);
            lemma_clean_term(weight, x.neg(), tolerance, z);
            lemma_zero_plus(a);
            lemma_zero_plus(b);
            lemma_clean_sum(t.reg, a);
            lemma_clean_sum(t.reg, b);
            lemma_clean_sum(t.beat, a);
            lemma_clean_sum(t.beat, b);
        },
        None => {
            lemma_clean_sum(t.reg, Double::from_bits(ZERO));
            lemma_clean_sum(t.beat, Double::from_bits(ZERO));
        },
    }
}

proof fn lemma_high_pair_adds(
    t: Tally,
    weight: u64,
    delta: Option<Double>,
    tolerance: u64,
    z: Double,
)
    requires
        clean(t.reg),
        clean(t.beat),
        usable(weight, tolerance),
        delta matches Some(d) ==> d.is_finite(),
    ensures
        adds(
            t,
            Tally::nothing().add_h_pair(weight, delta, tolerance, z),
            t.add_h_pair(weight, delta, tolerance, z),
        ),
        clean(t.add_h_pair(weight, delta, tolerance, z).reg),
        clean(t.add_h_pair(weight, delta, tolerance, z).beat),
{
    reveal(Tally::spec_add_h_pair);
    reveal(adds);
    match delta {
        Some(x) => {
            let (w, tol) = (Double::from_bits(weight), Double::from_bits(tolerance));
            assert(x.neg().parts().code == x.parts().code);
            let (a, b) = (
                w.times(excess(x.minus(tol), z)),
                w.times(excess(x.neg().minus(tol), z)),
            );
            lemma_clean_term(weight, x, tolerance, z);
            lemma_clean_term(weight, x.neg(), tolerance, z);
            lemma_zero_plus(a);
            lemma_zero_plus(b);
            lemma_clean_sum(t.reg, a);
            lemma_clean_sum(t.reg, b);
            lemma_clean_sum(t.beat, a);
            lemma_clean_sum(t.beat, b);
        },
        None => {
            lemma_clean_sum(t.reg, Double::from_bits(ZERO));
            lemma_clean_sum(t.beat, Double::from_bits(ZERO));
        },
    }
}

/// A cold start scores the sum of what each of its metrics scores alone.
pub proof fn lemma_cold_starts_add_up(d: Metrics, z: MetricZ)
    requires
        all_finite(d),
    ensures
        cell_score_z(CellKind::ColdStart, d, z).reg == cell_score_z(
            CellKind::ColdStart,
            (Metrics { convergence_rate: d.convergence_rate, ..Metrics::none() }),
            z,
        ).reg.plus(
            cell_score_z(
                CellKind::ColdStart,
                (Metrics { convergence_p50_secs: d.convergence_p50_secs, ..Metrics::none() }),
                z,
            ).reg,
        ).plus(
            cell_score_z(
                CellKind::ColdStart,
                (Metrics { convergence_p99_secs: d.convergence_p99_secs, ..Metrics::none() }),
                z,
            ).reg,
        ).plus(
            cell_score_z(
                CellKind::ColdStart,
                (Metrics { settled_accuracy_p50: d.settled_accuracy_p50, ..Metrics::none() }),
                z,
            ).reg,
        ).plus(
            cell_score_z(
                CellKind::ColdStart,
                (Metrics { settled_accuracy_p99: d.settled_accuracy_p99, ..Metrics::none() }),
                z,
            ).reg,
        ).plus(
            cell_score_z(
                CellKind::ColdStart,
                (Metrics { jitter_mean_per_min: d.jitter_mean_per_min, ..Metrics::none() }),
                z,
            ).reg,
        ).plus(
            cell_score_z(
                CellKind::ColdStart,
                (Metrics { jitter_p99_per_min: d.jitter_p99_per_min, ..Metrics::none() }),
                z,
            ).reg,
        ),
        cell_score_z(CellKind::ColdStart, d, z).beat == cell_score_z(
            CellKind::ColdStart,
            (Metrics { convergence_rate: d.convergence_rate, ..Metrics::none() }),
            z,
        ).beat.plus(
            cell_score_z(
                CellKind::ColdStart,
                (Metrics { convergence_p50_secs: d.convergence_p50_secs, ..Metrics::none() }),
                z,
            ).beat,
        ).plus(
            cell_score_z(
                CellKind::ColdStart,
                (Metrics { convergence_p99_secs: d.convergence_p99_secs, ..Metrics::none() }),
                z,
            ).beat,
        ).plus(
            cell_score_z(
                CellKind::ColdStart,
                (Metrics { settled_accuracy_p50: d.settled_accuracy_p50, ..Metrics::none() }),
                z,
            ).beat,
        ).plus(
            cell_score_z(
                CellKind::ColdStart,
                (Metrics { settled_accuracy_p99: d.settled_accuracy_p99, ..Metrics::none() }),
                z,
            ).beat,
        ).plus(
            cell_score_z(
                CellKind::ColdStart,
                (Metrics { jitter_mean_per_min: d.jitter_mean_per_min, ..Metrics::none() }),
                z,
            ).beat,
        ).plus(
            cell_score_z(
                CellKind::ColdStart,
                (Metrics { jitter_p99_per_min: d.jitter_p99_per_min, ..Metrics::none() }),
                z,
            ).beat,
        ),
{
    broadcast use {lemma_no_low, lemma_no_high};

    let t0 = Tally::nothing();
    lemma_high_pair_adds(t0, THREE, d.convergence_rate, CENTI_1, z.cr);
    let t1 = t0.add_h_pair(THREE, d.convergence_rate, CENTI_1, z.cr);
    let a1 = t0.add_h_pair(THREE, d.convergence_rate, CENTI_1, z.cr);
    assert(
        a1 == cell_score_z(
            CellKind::ColdStart,
            (Metrics { convergence_rate: d.convergence_rate, ..Metrics::none() }),
            z,
        )
    );
    lemma_low_pair_adds(t1, TWO, d.convergence_p50_secs, SIXTY, z.cp50);
    let t2 = t1.add_l_pair(TWO, d.convergence_p50_secs, SIXTY, z.cp50);
    let a2 = t0.add_l_pair(TWO, d.convergence_p50_secs, SIXTY, z.cp50);
    assert(
        a2 == cell_score_z(
            CellKind::ColdStart,
            (Metrics { convergence_p50_secs: d.convergence_p50_secs, ..Metrics::none() }),
            z,
        )
    );
    lemma_low_pair_adds(t2, THREE, d.convergence_p99_secs, HUNDRED_TWENTY, z.cp99);
    let t3 = t2.add_l_pair(THREE, d.convergence_p99_secs, HUNDRED_TWENTY, z.cp99);
    let a3 = t0.add_l_pair(THREE, d.convergence_p99_secs, HUNDRED_TWENTY, z.cp99);
    assert(
        a3 == cell_score_z(
            CellKind::ColdStart,
            (Metrics { convergence_p99_secs: d.convergence_p99_secs, ..Metrics::none() }),
            z,
        )
    );
    lemma_low_pair_adds(t3, ONE, d.settled_accuracy_p50, CENTI_8, z.sa_p50);
    let t4 = t3.add_l_pair(ONE, d.settled_accuracy_p50, CENTI_8, z.sa_p50);
    let a4 = t0.add_l_pair(ONE, d.settled_accuracy_p50, CENTI_8, z.sa_p50);
    assert(
        a4 == cell_score_z(
            CellKind::ColdStart,
            (Metrics { settled_accuracy_p50: d.settled_accuracy_p50, ..Metrics::none() }),
            z,
        )
    );
    lemma_low_pair_adds(t4, TWO, d.settled_accuracy_p99, ZERO, z.sa_p99);
    let t5 = t4.add_l_pair(TWO, d.settled_accuracy_p99, ZERO, z.sa_p99);
    let a5 = t0.add_l_pair(TWO, d.settled_accuracy_p99, ZERO, z.sa_p99);
    assert(
        a5 == cell_score_z(
            CellKind::ColdStart,
            (Metrics { settled_accuracy_p99: d.settled_accuracy_p99, ..Metrics::none() }),
            z,
        )
    );
    lemma_low_pair_adds(t5, ONE, d.jitter_mean_per_min, ZERO, z.jmean);
    let t6 = t5.add_l_pair(ONE, d.jitter_mean_per_min, ZERO, z.jmean);
    let a6 = t0.add_l_pair(ONE, d.jitter_mean_per_min, ZERO, z.jmean);
    assert(
        a6 == cell_score_z(
            CellKind::ColdStart,
            (Metrics { jitter_mean_per_min: d.jitter_mean_per_min, ..Metrics::none() }),
            z,
        )
    );
    lemma_low_pair_adds(t6, ONE, d.jitter_p99_per_min, ZERO, z.jp99);
    let t7 = t6.add_l_pair(ONE, d.jitter_p99_per_min, ZERO, z.jp99);
    let a7 = t0.add_l_pair(ONE, d.jitter_p99_per_min, ZERO, z.jp99);
    assert(
        a7 == cell_score_z(
            CellKind::ColdStart,
            (Metrics { jitter_p99_per_min: d.jitter_p99_per_min, ..Metrics::none() }),
            z,
        )
    );
    reveal(adds);
    assert(t7 == cell_score_z(CellKind::ColdStart, d, z));
}

/// A stable cell scores the sum of what each of its metrics scores alone.
pub proof fn lemma_stable_cells_add_up(d: Metrics, z: MetricZ)
    requires
        all_finite(d),
    ensures
        cell_score_z(CellKind::Stable, d, z).reg == cell_score_z(
            CellKind::Stable,
            (Metrics { settled_accuracy_p50: d.settled_accuracy_p50, ..Metrics::none() }),
            z,
        ).reg.plus(
            cell_score_z(
                CellKind::Stable,
                (Metrics { settled_accuracy_p99: d.settled_accuracy_p99, ..Metrics::none() }),
                z,
            ).reg,
        ).plus(
            cell_score_z(
                CellKind::Stable,
                (Metrics { jitter_mean_per_min: d.jitter_mean_per_min, ..Metrics::none() }),
                z,
            ).reg,
        ).plus(
            cell_score_z(
                CellKind::Stable,
                (Metrics { jitter_p99_per_min: d.jitter_p99_per_min, ..Metrics::none() }),
                z,
            ).reg,
        ),
        cell_score_z(CellKind::Stable, d, z).beat == cell_score_z(
            CellKind::Stable,
            (Metrics { settled_accuracy_p50: d.settled_accuracy_p50, ..Metrics::none() }),
            z,
        ).beat.plus(
            cell_score_z(
                CellKind::Stable,
                (Metrics { settled_accuracy_p99: d.settled_accuracy_p99, ..Metrics::none() }),
                z,
            ).beat,
        ).plus(
            cell_score_z(
                CellKind::Stable,
                (Metrics { jitter_mean_per_min: d.jitter_mean_per_min, ..Metrics::none() }),
                z,
            ).beat,
        ).plus(
            cell_score_z(
                CellKind::Stable,
                (Metrics { jitter_p99_per_min: d.jitter_p99_per_min, ..Metrics::none() }),
                z,
            ).beat,
        ),
{
    broadcast use {lemma_no_low, lemma_no_high};

    let t0 = Tally::nothing();
    lemma_low_pair_adds(t0, THREE, d.settled_accuracy_p50, CENTI_2, z.sa_p50);
    let t1 = t0.add_l_pair(THREE, d.settled_accuracy_p50, CENTI_2, z.sa_p50);
    let a1 = t0.add_l_pair(THREE, d.settled_accuracy_p50, CENTI_2, z.sa_p50);
    assert(
        a1 == cell_score_z(
            CellKind::Stable,
            (Metrics { settled_accuracy_p50: d.settled_accuracy_p50, ..Metrics::none() }),
            z,
        )
    );
    lemma_low_pair_adds(t1, FOUR, d.settled_accuracy_p99, CENTI_5, z.sa_p99);
    let t2 = t1.add_l_pair(FOUR, d.settled_accuracy_p99, CENTI_5, z.sa_p99);
    let a2 = t0.add_l_pair(FOUR, d.settled_accuracy_p99, CENTI_5, z.sa_p99);
    assert(
        a2 == cell_score_z(
            CellKind::Stable,
            (Metrics { settled_accuracy_p99: d.settled_accuracy_p99, ..Metrics::none() }),
            z,
        )
    );
    lemma_low_pair_adds(t2, FOUR, d.jitter_mean_per_min, MILLI_1, z.jmean);
    let t3 = t2.add_l_pair(FOUR, d.jitter_mean_per_min, MILLI_1, z.jmean);
    let a3 = t0.add_l_pair(FOUR, d.jitter_mean_per_min, MILLI_1, z.jmean);
    assert(
        a3 == cell_score_z(
            CellKind::Stable,
            (Metrics { jitter_mean_per_min: d.jitter_mean_per_min, ..Metrics::none() }),
            z,
        )
    );
    lemma_low_pair_adds(t3, FIVE, d.jitter_p99_per_min, CENTI_1, z.jp99);
    let t4 = t3.add_l_pair(FIVE, d.jitter_p99_per_min, CENTI_1, z.jp99);
    let a4 = t0.add_l_pair(FIVE, d.jitter_p99_per_min, CENTI_1, z.jp99);
    assert(
        a4 == cell_score_z(
            CellKind::Stable,
            (Metrics { jitter_p99_per_min: d.jitter_p99_per_min, ..Metrics::none() }),
            z,
        )
    );
    reveal(adds);
    assert(t4 == cell_score_z(CellKind::Stable, d, z));
}

/// A stepping cell scores the sum of what each of its metrics scores alone.
pub proof fn lemma_steps_add_up(d: Metrics, z: MetricZ)
    requires
        all_finite(d),
    ensures
        cell_score_z(CellKind::Step, d, z).reg == cell_score_z(
            CellKind::Step,
            (Metrics { reaction_rate: d.reaction_rate, ..Metrics::none() }),
            z,
        ).reg.plus(
            cell_score_z(
                CellKind::Step,
                (Metrics { reaction_p50_secs: d.reaction_p50_secs, ..Metrics::none() }),
                z,
            ).reg,
        ).plus(
            cell_score_z(
                CellKind::Step,
                (Metrics { reaction_p99_secs: d.reaction_p99_secs, ..Metrics::none() }),
                z,
            ).reg,
        ).plus(
            cell_score_z(
                CellKind::Step,
                (Metrics { settled_accuracy_p50: d.settled_accuracy_p50, ..Metrics::none() }),
                z,
            ).reg,
        ).plus(
            cell_score_z(
                CellKind::Step,
                (Metrics { settled_accuracy_p99: d.settled_accuracy_p99, ..Metrics::none() }),
                z,
            ).reg,
        ).plus(
            cell_score_z(
                CellKind::Step,
                (Metrics { jitter_mean_per_min: d.jitter_mean_per_min, ..Metrics::none() }),
                z,
            ).reg,
        ).plus(
            cell_score_z(
                CellKind::Step,
                (Metrics { jitter_p99_per_min: d.jitter_p99_per_min, ..Metrics::none() }),
                z,
            ).reg,
        ),
        cell_score_z(CellKind::Step, d, z).beat == cell_score_z(
            CellKind::Step,
            (Metrics { reaction_rate: d.reaction_rate, ..Metrics::none() }),
            z,
        ).beat.plus(
            cell_score_z(
                CellKind::Step,
                (Metrics { reaction_p50_secs: d.reaction_p50_secs, ..Metrics::none() }),
                z,
            ).beat,
        ).plus(
            cell_score_z(
                CellKind::Step,
                (Metrics { reaction_p99_secs: d.reaction_p99_secs, ..Metrics::none() }),
                z,
            ).beat,
        ).plus(
            cell_score_z(
                CellKind::Step,
                (Metrics { settled_accuracy_p50: d.settled_accuracy_p50, ..Metrics::none() }),
                z,
            ).beat,
        ).plus(
            cell_score_z(
                CellKind::Step,
                (Metrics { settled_accuracy_p99: d.settled_accuracy_p99, ..Metrics::none() }),
                z,
            ).beat,
        ).plus(
            cell_score_z(
                CellKind::Step,
                (Metrics { jitter_mean_per_min: d.jitter_mean_per_min, ..Metrics::none() }),
                z,
            ).beat,
        ).plus(
            cell_score_z(
                CellKind::Step,
                (Metrics { jitter_p99_per_min: d.jitter_p99_per_min, ..Metrics::none() }),
                z,
            ).beat,
        ),
{
    broadcast use {lemma_no_low, lemma_no_high};

    let t0 = Tally::nothing();
    lemma_high_pair_adds(t0, FIVE, d.reaction_rate, CENTI_5, z.rr);
    let t1 = t0.add_h_pair(FIVE, d.reaction_rate, CENTI_5, z.rr);
    let a1 = t0.add_h_pair(FIVE, d.reaction_rate, CENTI_5, z.rr);
    assert(
        a1 == cell_score_z(
            CellKind::Step,
            (Metrics { reaction_rate: d.reaction_rate, ..Metrics::none() }),
            z,
        )
    );
    lemma_low_pair_adds(t1, THREE, d.reaction_p50_secs, SIXTY, z.rp50);
    let t2 = t1.add_l_pair(THREE, d.reaction_p50_secs, SIXTY, z.rp50);
    let a2 = t0.add_l_pair(THREE, d.reaction_p50_secs, SIXTY, z.rp50);
    assert(
        a2 == cell_score_z(
            CellKind::Step,
            (Metrics { reaction_p50_secs: d.reaction_p50_secs, ..Metrics::none() }),
            z,
        )
    );
    lemma_low_pair_adds(t2, FOUR, d.reaction_p99_secs, HUNDRED_TWENTY, z.rp99);
    let t3 = t2.add_l_pair(FOUR, d.reaction_p99_secs, HUNDRED_TWENTY, z.rp99);
    let a3 = t0.add_l_pair(FOUR, d.reaction_p99_secs, HUNDRED_TWENTY, z.rp99);
    assert(
        a3 == cell_score_z(
            CellKind::Step,
            (Metrics { reaction_p99_secs: d.reaction_p99_secs, ..Metrics::none() }),
            z,
        )
    );
    lemma_low_pair_adds(t3, FOUR, d.settled_accuracy_p50, CENTI_5, z.sa_p50);
    let t4 = t3.add_l_pair(FOUR, d.settled_accuracy_p50, CENTI_5, z.sa_p50);
    let a4 = t0.add_l_pair(FOUR, d.settled_accuracy_p50, CENTI_5, z.sa_p50);
    assert(
        a4 == cell_score_z(
            CellKind::Step,
            (Metrics { settled_accuracy_p50: d.settled_accuracy_p50, ..Metrics::none() }),
            z,
        )
    );
    lemma_low_pair_adds(t4, FIVE, d.settled_accuracy_p99, CENTI_10, z.sa_p99);
    let t5 = t4.add_l_pair(FIVE, d.settled_accuracy_p99, CENTI_10, z.sa_p99);
    let a5 = t0.add_l_pair(FIVE, d.settled_accuracy_p99, CENTI_10, z.sa_p99);
    assert(
        a5 == cell_score_z(
            CellKind::Step,
            (Metrics { settled_accuracy_p99: d.settled_accuracy_p99, ..Metrics::none() }),
            z,
        )
    );
    lemma_low_pair_adds(t5, TWO, d.jitter_mean_per_min, MILLI_2, z.jmean);
    let t6 = t5.add_l_pair(TWO, d.jitter_mean_per_min, MILLI_2, z.jmean);
    let a6 = t0.add_l_pair(TWO, d.jitter_mean_per_min, MILLI_2, z.jmean);
    assert(
        a6 == cell_score_z(
            CellKind::Step,
            (Metrics { jitter_mean_per_min: d.jitter_mean_per_min, ..Metrics::none() }),
            z,
        )
    );
    lemma_low_pair_adds(t6, THREE, d.jitter_p99_per_min, CENTI_2, z.jp99);
    let t7 = t6.add_l_pair(THREE, d.jitter_p99_per_min, CENTI_2, z.jp99);
    let a7 = t0.add_l_pair(THREE, d.jitter_p99_per_min, CENTI_2, z.jp99);
    assert(
        a7 == cell_score_z(
            CellKind::Step,
            (Metrics { jitter_p99_per_min: d.jitter_p99_per_min, ..Metrics::none() }),
            z,
        )
    );
    reveal(adds);
    assert(t7 == cell_score_z(CellKind::Step, d, z));
}

/// A deviation below 1e-9 counts as that.
pub proof fn lemma_tiny_deviations(amount: Double, z: Double)
    requires
        !Double::from_bits(0x3e11_2e0b_e826_d695).lt(z),
    ensures
        excess(amount, z) == excess(amount, Double::from_bits(0x3e11_2e0b_e826_d695)),
{
    let least = Double::from_bits(0x3e11_2e0b_e826_d695);
    assert(z.max(least) == least) by {
        assert(!z.is_nan() && z.rank() == least.rank() ==> z == least);
    }
}

} // verus!
