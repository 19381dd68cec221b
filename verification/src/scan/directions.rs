use vstd::prelude::*;

use crate::compare::cells::Metrics;
use crate::compare::directions::{
    clean, falls_beyond, lemma_beyond_counts, lemma_beyond_is_monotone, lemma_clean_sum,
    lemma_clean_term, lemma_first_term, lemma_sums_in_order, lemma_weighted_is_number, no_better,
    risen, rises_beyond, stays_above, stays_below, usable, weighed,
};
use crate::compare::guards::CellKind;
use crate::compare::laws::{
    all_finite, lemma_excess_is_number, lemma_excess_over_tolerance, lemma_weighted_term, moderate,
};
use crate::compare::score::{excess, higher_regression, lower_regression};
use crate::float::double::Double;
use crate::float::exact::{lemma_times_sign, lemma_zero_plus};
use crate::float::laws::{
    lemma_minus_not_above, lemma_minus_sign, lemma_times_zero, lemma_zero_plus_zero,
};
use crate::float::numbers::{
    CENTI_1, CENTI_10, CENTI_2, CENTI_3, CENTI_5, CENTI_8, EIGHT, FIVE, FOUR, MILLI_1, MILLI_2,
    MILLI_5, NANO_1, ONE, SIX, SIXTY, TEN, THIRTY, THREE, TWENTY_FIVE, TWO, ZERO,
};
use crate::scan::score::{GroupAcc, Groups, capped_excess, higher_beat, lower_beat};

verus! {

/// The sums of a group are numbers that are not below zero.
pub open spec fn has_sums(g: GroupAcc) -> bool {
    &&& Double::from_bits(ZERO).le(g.reg_sum)
    &&& Double::from_bits(ZERO).le(g.beat_sum)
}

/// The sums of all groups are numbers that are not below zero.
pub open spec fn all_have_sums(g: Groups) -> bool {
    &&& has_sums(g.cold)
    &&& has_sums(g.stable)
    &&& has_sums(g.step_reaction)
    &&& has_sums(g.step_quality)
}

/// The second group loses no less and wins no more, over as many metrics.
pub open spec fn no_better_group(a: GroupAcc, b: GroupAcc) -> bool {
    &&& a.reg_sum.le(b.reg_sum)
    &&& b.beat_sum.le(a.beat_sum)
    &&& a.term_count == b.term_count
}

#[verifier::opaque]
spec fn in_order(a: GroupAcc, b: GroupAcc) -> bool {
    has_sums(a) && has_sums(b) && no_better_group(a, b)
}

/// What one metric can win grows with it too, for all finite differences.
proof fn lemma_win_is_monotone(a: Double, b: Double, tolerance: Double, scale: Double)
    requires
        a.is_finite(),
        b.is_finite(),
        a.le(b),
        tolerance.is_finite(),
        Double::from_bits(ZERO).le(tolerance),
    ensures
        Double::from_bits(ZERO).le(capped_excess(a.minus(tolerance), scale)),
        capped_excess(a.minus(tolerance), scale).le(capped_excess(b.minus(tolerance), scale)),
{
    lemma_beyond_is_monotone(a, b, tolerance, scale);
}

proof fn lemma_add_lower_keeps_order(
    a: GroupAcc,
    b: GroupAcc,
    weight: u64,
    d: Option<Double>,
    e: Option<Double>,
    tolerance: u64,
    scale: u64,
    allow_beat: bool,
)
    requires
        in_order(a, b),
        usable(weight, tolerance),
        risen(d, e),
    ensures
        in_order(
            a.add_lower(weight, d, tolerance, scale, allow_beat),
            b.add_lower(weight, e, tolerance, scale, allow_beat),
        ),
{
    reveal(GroupAcc::spec_add_lower);
    reveal(in_order);
    if d is Some {
        let (x, y) = (d->0, e->0);
        let w = Double::from_bits(weight);
        let (t, s) = (Double::from_bits(tolerance), Double::from_bits(scale));
        assert(x.neg().parts().code == x.parts().code && y.neg().parts().code == y.parts().code);
        lemma_beyond_is_monotone(x, y, t, s);
        lemma_win_is_monotone(y.neg(), x.neg(), t, s);
        lemma_sums_in_order(
            a.reg_sum,
            b.reg_sum,
            w,
            lower_regression(x, t, s),
            lower_regression(y, t, s),
        );
        lemma_sums_in_order(b.beat_sum, a.beat_sum, w, lower_beat(y, t, s), lower_beat(x, t, s));
    }
}

proof fn lemma_add_higher_keeps_order(
    a: GroupAcc,
    b: GroupAcc,
    weight: u64,
    d: Option<Double>,
    e: Option<Double>,
    tolerance: u64,
    scale: u64,
    allow_beat: bool,
)
    requires
        in_order(a, b),
        usable(weight, tolerance),
        risen(e, d),
    ensures
        in_order(
            a.add_higher(weight, d, tolerance, scale, allow_beat),
            b.add_higher(weight, e, tolerance, scale, allow_beat),
        ),
{
    reveal(GroupAcc::spec_add_higher);
    reveal(in_order);
    if d is Some {
        let (x, y) = (d->0, e->0);
        let w = Double::from_bits(weight);
        let (t, s) = (Double::from_bits(tolerance), Double::from_bits(scale));
        assert(x.neg().parts().code == x.parts().code && y.neg().parts().code == y.parts().code);
        lemma_beyond_is_monotone(x.neg(), y.neg(), t, s);
        lemma_win_is_monotone(y, x, t, s);
        lemma_sums_in_order(
            a.reg_sum,
            b.reg_sum,
            w,
            higher_regression(x, t, s),
            higher_regression(y, t, s),
        );
        lemma_sums_in_order(b.beat_sum, a.beat_sum, w, higher_beat(y, t, s), higher_beat(x, t, s));
    }
}

/// A cell that is no better in any metric loses no less and wins no more in every
/// group, over as many metrics.
pub proof fn lemma_worse_cells_group_worse(g: Groups, kind: CellKind, d: Metrics, e: Metrics)
    requires
        all_have_sums(g),
        no_better(d, e),
    ensures
        no_better_group(g.add_cell(kind, d).cold, g.add_cell(kind, e).cold),
        no_better_group(g.add_cell(kind, d).stable, g.add_cell(kind, e).stable),
        no_better_group(g.add_cell(kind, d).step_reaction, g.add_cell(kind, e).step_reaction),
        no_better_group(g.add_cell(kind, d).step_quality, g.add_cell(kind, e).step_quality),
{
    lemma_kinds_keep_to_their_groups(g, kind, d);
    lemma_kinds_keep_to_their_groups(g, kind, e);
    match kind {
        CellKind::ColdStart => lemma_worse_cold(g, d, e),
        CellKind::Stable => lemma_worse_stable(g, d, e),
        CellKind::Step => {
            lemma_worse_step_reaction(g, d, e);
            lemma_worse_step_quality(g, d, e);
        },
        CellKind::Other => {},
    }
}

/// A cell counts in the groups of its kind only.
pub proof fn lemma_kinds_keep_to_their_groups(g: Groups, kind: CellKind, d: Metrics)
    ensures
        !(kind is ColdStart) ==> g.add_cell(kind, d).cold == g.cold,
        !(kind is Stable) ==> g.add_cell(kind, d).stable == g.stable,
        !(kind is Step) ==> g.add_cell(kind, d).step_reaction == g.step_reaction,
        !(kind is Step) ==> g.add_cell(kind, d).step_quality == g.step_quality,
{
    reveal(Groups::spec_add_cell);
}

proof fn lemma_worse_cold(g: Groups, d: Metrics, e: Metrics)
    requires
        has_sums(g.cold),
        no_better(d, e),
    ensures
        no_better_group(
            g.add_cell(CellKind::ColdStart, d).cold,
            g.add_cell(CellKind::ColdStart, e).cold,
        ),
{
    let (a, b) = (g.cold, g.cold);
    assert(in_order(a, b)) by {
        reveal(in_order);
    }
    lemma_add_higher_keeps_order(
        a,
        b,
        EIGHT,
        d.convergence_rate,
        e.convergence_rate,
        MILLI_5,
        CENTI_5,
        true,
    );
    let (a, b) = (
        a.add_higher(EIGHT, d.convergence_rate, MILLI_5, CENTI_5, true),
        b.add_higher(EIGHT, e.convergence_rate, MILLI_5, CENTI_5, true),
    );
    lemma_add_lower_keeps_order(
        a,
        b,
        SIX,
        d.convergence_p50_secs,
        e.convergence_p50_secs,
        THIRTY,
        SIXTY,
        true,
    );
    let (a, b) = (
        a.add_lower(SIX, d.convergence_p50_secs, THIRTY, SIXTY, true),
        b.add_lower(SIX, e.convergence_p50_secs, THIRTY, SIXTY, true),
    );
    lemma_add_lower_keeps_order(
        a,
        b,
        EIGHT,
        d.convergence_p99_secs,
        e.convergence_p99_secs,
        SIXTY,
        SIXTY,
        true,
    );
    let (a, b) = (
        a.add_lower(EIGHT, d.convergence_p99_secs, SIXTY, SIXTY, true),
        b.add_lower(EIGHT, e.convergence_p99_secs, SIXTY, SIXTY, true),
    );
    lemma_add_lower_keeps_order(
        a,
        b,
        ONE,
        d.settled_accuracy_p50,
        e.settled_accuracy_p50,
        CENTI_8,
        CENTI_5,
        false,
    );
    let (a, b) = (
        a.add_lower(ONE, d.settled_accuracy_p50, CENTI_8, CENTI_5, false),
        b.add_lower(ONE, e.settled_accuracy_p50, CENTI_8, CENTI_5, false),
    );
    lemma_add_lower_keeps_order(
        a,
        b,
        TWO,
        d.settled_accuracy_p99,
        e.settled_accuracy_p99,
        CENTI_10,
        CENTI_10,
        false,
    );
    let (a, b) = (
        a.add_lower(TWO, d.settled_accuracy_p99, CENTI_10, CENTI_10, false),
        b.add_lower(TWO, e.settled_accuracy_p99, CENTI_10, CENTI_10, false),
    );
    lemma_add_lower_keeps_order(
        a,
        b,
        ONE,
        d.jitter_mean_per_min,
        e.jitter_mean_per_min,
        MILLI_5,
        CENTI_1,
        false,
    );
    let (a, b) = (
        a.add_lower(ONE, d.jitter_mean_per_min, MILLI_5, CENTI_1, false),
        b.add_lower(ONE, e.jitter_mean_per_min, MILLI_5, CENTI_1, false),
    );
    lemma_add_lower_keeps_order(
        a,
        b,
        ONE,
        d.jitter_p99_per_min,
        e.jitter_p99_per_min,
        CENTI_2,
        CENTI_5,
        false,
    );
    let (a, b) = (
        a.add_lower(ONE, d.jitter_p99_per_min, CENTI_2, CENTI_5, false),
        b.add_lower(ONE, e.jitter_p99_per_min, CENTI_2, CENTI_5, false),
    );
    assert(no_better_group(a, b)) by {
        reveal(in_order);
    }
    assert(a == g.add_cell(CellKind::ColdStart, d).cold && b == g.add_cell(
        CellKind::ColdStart,
        e,
    ).cold) by {
        reveal(Groups::spec_add_cell);
    }
}

proof fn lemma_worse_stable(g: Groups, d: Metrics, e: Metrics)
    requires
        has_sums(g.stable),
        no_better(d, e),
    ensures
        no_better_group(
            g.add_cell(CellKind::Stable, d).stable,
            g.add_cell(CellKind::Stable, e).stable,
        ),
{
    let (a, b) = (g.stable, g.stable);
    assert(in_order(a, b)) by {
        reveal(in_order);
    }
    lemma_add_lower_keeps_order(
        a,
        b,
        THREE,
        d.settled_accuracy_p50,
        e.settled_accuracy_p50,
        CENTI_2,
        CENTI_5,
        true,
    );
    let (a, b) = (
        a.add_lower(THREE, d.settled_accuracy_p50, CENTI_2, CENTI_5, true),
        b.add_lower(THREE, e.settled_accuracy_p50, CENTI_2, CENTI_5, true),
    );
    lemma_add_lower_keeps_order(
        a,
        b,
        FOUR,
        d.settled_accuracy_p99,
        e.settled_accuracy_p99,
        CENTI_5,
        CENTI_10,
        true,
    );
    let (a, b) = (
        a.add_lower(FOUR, d.settled_accuracy_p99, CENTI_5, CENTI_10, true),
        b.add_lower(FOUR, e.settled_accuracy_p99, CENTI_5, CENTI_10, true),
    );
    lemma_add_lower_keeps_order(
        a,
        b,
        FOUR,
        d.jitter_mean_per_min,
        e.jitter_mean_per_min,
        MILLI_1,
        CENTI_1,
        true,
    );
    let (a, b) = (
        a.add_lower(FOUR, d.jitter_mean_per_min, MILLI_1, CENTI_1, true),
        b.add_lower(FOUR, e.jitter_mean_per_min, MILLI_1, CENTI_1, true),
    );
    lemma_add_lower_keeps_order(
        a,
        b,
        FIVE,
        d.jitter_p99_per_min,
        e.jitter_p99_per_min,
        CENTI_1,
        CENTI_5,
        true,
    );
    let (a, b) = (
        a.add_lower(FIVE, d.jitter_p99_per_min, CENTI_1, CENTI_5, true),
        b.add_lower(FIVE, e.jitter_p99_per_min, CENTI_1, CENTI_5, true),
    );
    assert(no_better_group(a, b)) by {
        reveal(in_order);
    }
    assert(a == g.add_cell(CellKind::Stable, d).stable && b == g.add_cell(
        CellKind::Stable,
        e,
    ).stable) by {
        reveal(Groups::spec_add_cell);
    }
}

proof fn lemma_worse_step_reaction(g: Groups, d: Metrics, e: Metrics)
    requires
        has_sums(g.step_reaction),
        no_better(d, e),
    ensures
        no_better_group(
            g.add_cell(CellKind::Step, d).step_reaction,
            g.add_cell(CellKind::Step, e).step_reaction,
        ),
{
    let (a, b) = (g.step_reaction, g.step_reaction);
    assert(in_order(a, b)) by {
        reveal(in_order);
    }
    lemma_add_higher_keeps_order(
        a,
        b,
        TEN,
        d.reaction_rate,
        e.reaction_rate,
        CENTI_3,
        CENTI_5,
        true,
    );
    let (a, b) = (
        a.add_higher(TEN, d.reaction_rate, CENTI_3, CENTI_5, true),
        b.add_higher(TEN, e.reaction_rate, CENTI_3, CENTI_5, true),
    );
    lemma_add_lower_keeps_order(
        a,
        b,
        SIX,
        d.reaction_p50_secs,
        e.reaction_p50_secs,
        THIRTY,
        SIXTY,
        true,
    );
    let (a, b) = (
        a.add_lower(SIX, d.reaction_p50_secs, THIRTY, SIXTY, true),
        b.add_lower(SIX, e.reaction_p50_secs, THIRTY, SIXTY, true),
    );
    lemma_add_lower_keeps_order(
        a,
        b,
        EIGHT,
        d.reaction_p99_secs,
        e.reaction_p99_secs,
        SIXTY,
        SIXTY,
        true,
    );
    let (a, b) = (
        a.add_lower(EIGHT, d.reaction_p99_secs, SIXTY, SIXTY, true),
        b.add_lower(EIGHT, e.reaction_p99_secs, SIXTY, SIXTY, true),
    );
    assert(no_better_group(a, b)) by {
        reveal(in_order);
    }
    assert(a == g.add_cell(CellKind::Step, d).step_reaction && b == g.add_cell(
        CellKind::Step,
        e,
    ).step_reaction) by {
        reveal(Groups::spec_add_cell);
    }
}

proof fn lemma_worse_step_quality(g: Groups, d: Metrics, e: Metrics)
    requires
        has_sums(g.step_quality),
        no_better(d, e),
    ensures
        no_better_group(
            g.add_cell(CellKind::Step, d).step_quality,
            g.add_cell(CellKind::Step, e).step_quality,
        ),
{
    let (a, b) = (g.step_quality, g.step_quality);
    assert(in_order(a, b)) by {
        reveal(in_order);
    }
    lemma_add_lower_keeps_order(
        a,
        b,
        TWO,
        d.settled_accuracy_p50,
        e.settled_accuracy_p50,
        CENTI_5,
        CENTI_5,
        true,
    );
    let (a, b) = (
        a.add_lower(TWO, d.settled_accuracy_p50, CENTI_5, CENTI_5, true),
        b.add_lower(TWO, e.settled_accuracy_p50, CENTI_5, CENTI_5, true),
    );
    lemma_add_lower_keeps_order(
        a,
        b,
        TWO,
        d.settled_accuracy_p99,
        e.settled_accuracy_p99,
        CENTI_10,
        CENTI_10,
        true,
    );
    let (a, b) = (
        a.add_lower(TWO, d.settled_accuracy_p99, CENTI_10, CENTI_10, true),
        b.add_lower(TWO, e.settled_accuracy_p99, CENTI_10, CENTI_10, true),
    );
    lemma_add_lower_keeps_order(
        a,
        b,
        ONE,
        d.jitter_mean_per_min,
        e.jitter_mean_per_min,
        MILLI_2,
        CENTI_1,
        true,
    );
    let (a, b) = (
        a.add_lower(ONE, d.jitter_mean_per_min, MILLI_2, CENTI_1, true),
        b.add_lower(ONE, e.jitter_mean_per_min, MILLI_2, CENTI_1, true),
    );
    lemma_add_lower_keeps_order(
        a,
        b,
        ONE,
        d.jitter_p99_per_min,
        e.jitter_p99_per_min,
        CENTI_2,
        CENTI_5,
        true,
    );
    let (a, b) = (
        a.add_lower(ONE, d.jitter_p99_per_min, CENTI_2, CENTI_5, true),
        b.add_lower(ONE, e.jitter_p99_per_min, CENTI_2, CENTI_5, true),
    );
    assert(no_better_group(a, b)) by {
        reveal(in_order);
    }
    assert(a == g.add_cell(CellKind::Step, d).step_quality && b == g.add_cell(
        CellKind::Step,
        e,
    ).step_quality) by {
        reveal(Groups::spec_add_cell);
    }
}

#[verifier::opaque]
spec fn sound(g: GroupAcc) -> bool {
    has_sums(g)
}

#[verifier::opaque]
spec fn losing(g: GroupAcc) -> bool {
    g.reg_sum.gt(Double::from_bits(ZERO))
}

#[verifier::opaque]
spec fn winning(g: GroupAcc) -> bool {
    g.beat_sum.gt(Double::from_bits(ZERO))
}

#[verifier::opaque]
spec fn lossless(g: GroupAcc) -> bool {
    g.reg_sum == Double::from_bits(ZERO)
}

#[verifier::opaque]
spec fn winless(g: GroupAcc) -> bool {
    g.beat_sum == Double::from_bits(ZERO)
}

/// What one term does to a sum.
proof fn lemma_term_decides(sum: Double, weight: u64, x: Double, tolerance: u64, scale: u64)
    requires
        Double::from_bits(ZERO).le(sum),
        usable(weight, tolerance),
        Double::from_bits(MILLI_1).le(Double::from_bits(tolerance)),
        moderate(Double::from_bits(scale)),
        x.is_finite(),
    ensures
        ({
            let (w, t) = (Double::from_bits(weight), Double::from_bits(tolerance));
            let amount = x.minus(t);
            let (lost, won) = (
                sum.plus(w.times(excess(amount, Double::from_bits(scale)))),
                sum.plus(w.times(capped_excess(amount, Double::from_bits(scale)))),
            );
            let zero = Double::from_bits(ZERO);
            &&& zero.le(lost) && zero.le(won)
            &&& sum.gt(zero) || x.gt(t) ==> lost.gt(zero) && won.gt(zero)
            &&& sum == zero && x.le(t) ==> lost == zero && won == zero
        }),
{
    let (w, t) = (Double::from_bits(weight), Double::from_bits(tolerance));
    let s = Double::from_bits(scale);
    lemma_excess_over_tolerance(x, t, s);
    lemma_minus_sign(x, t);
    lemma_times_zero(w);
    if x.gt(t) {
        lemma_beyond_counts(x, t, s);
    } else if sum == Double::from_bits(ZERO) {
        lemma_zero_plus_zero(sum);
    }
    lemma_weighted_term(sum, w, excess(x.minus(t), s));
    lemma_weighted_term(sum, w, capped_excess(x.minus(t), s));
}

proof fn lemma_add_lower_decides(
    g: GroupAcc,
    weight: u64,
    d: Option<Double>,
    tolerance: u64,
    scale: u64,
    allow_beat: bool,
)
    requires
        sound(g),
        usable(weight, tolerance),
        Double::from_bits(MILLI_1).le(Double::from_bits(tolerance)),
        moderate(Double::from_bits(scale)),
        d matches Some(x) ==> x.is_finite(),
    ensures
        ({
            let next = g.add_lower(weight, d, tolerance, scale, allow_beat);
            &&& sound(next)
            &&& losing(g) || rises_beyond(d, tolerance) ==> losing(next)
            &&& lossless(g) && stays_below(d, tolerance) ==> lossless(next)
            &&& winning(g) || allow_beat && falls_beyond(d, tolerance) ==> winning(next)
            &&& winless(g) && (!allow_beat || stays_above(d, tolerance)) ==> winless(next)
        }),
{
    reveal(GroupAcc::spec_add_lower);
    reveal(sound);
    reveal(losing);
    reveal(winning);
    reveal(lossless);
    reveal(winless);
    if let Some(x) = d {
        assert(x.neg().parts().code == x.parts().code);
        lemma_term_decides(g.reg_sum, weight, x, tolerance, scale);
        lemma_term_decides(g.beat_sum, weight, x.neg(), tolerance, scale);
    }
}

proof fn lemma_add_higher_decides(
    g: GroupAcc,
    weight: u64,
    d: Option<Double>,
    tolerance: u64,
    scale: u64,
    allow_beat: bool,
)
    requires
        sound(g),
        usable(weight, tolerance),
        Double::from_bits(MILLI_1).le(Double::from_bits(tolerance)),
        moderate(Double::from_bits(scale)),
        d matches Some(x) ==> x.is_finite(),
    ensures
        ({
            let next = g.add_higher(weight, d, tolerance, scale, allow_beat);
            &&& sound(next)
            &&& losing(g) || falls_beyond(d, tolerance) ==> losing(next)
            &&& lossless(g) && stays_above(d, tolerance) ==> lossless(next)
            &&& winning(g) || allow_beat && rises_beyond(d, tolerance) ==> winning(next)
            &&& winless(g) && (!allow_beat || stays_below(d, tolerance)) ==> winless(next)
        }),
{
    reveal(GroupAcc::spec_add_higher);
    reveal(sound);
    reveal(losing);
    reveal(winning);
    reveal(lossless);
    reveal(winless);
    if let Some(x) = d {
        assert(x.neg().parts().code == x.parts().code);
        lemma_term_decides(g.reg_sum, weight, x.neg(), tolerance, scale);
        lemma_term_decides(g.beat_sum, weight, x, tolerance, scale);
    }
}

/// The cold starts lose where the rate falls, or a time, an error or a jitter rises,
/// beyond the tolerance, and not where all stay within. They win where the rate rises,
/// or a time falls, beyond the tolerance; the errors and the jitters win nothing.
pub proof fn lemma_what_counts_in_cold(g: Groups, d: Metrics)
    requires
        has_sums(g.cold),
        all_finite(d),
    ensures
        has_sums(g.add_cell(CellKind::ColdStart, d).cold),
        ({
            ||| falls_beyond(d.convergence_rate, MILLI_5)
            ||| rises_beyond(d.convergence_p50_secs, THIRTY)
            ||| rises_beyond(d.convergence_p99_secs, SIXTY)
            ||| rises_beyond(d.settled_accuracy_p50, CENTI_8)
            ||| rises_beyond(d.settled_accuracy_p99, CENTI_10)
            ||| rises_beyond(d.jitter_mean_per_min, MILLI_5)
            ||| rises_beyond(d.jitter_p99_per_min, CENTI_2)
        }) ==> g.add_cell(CellKind::ColdStart, d).cold.reg_sum.gt(Double::from_bits(ZERO)),
        g.cold.reg_sum == Double::from_bits(ZERO) && ({
            &&& stays_above(d.convergence_rate, MILLI_5)
            &&& stays_below(d.convergence_p50_secs, THIRTY)
            &&& stays_below(d.convergence_p99_secs, SIXTY)
            &&& stays_below(d.settled_accuracy_p50, CENTI_8)
            &&& stays_below(d.settled_accuracy_p99, CENTI_10)
            &&& stays_below(d.jitter_mean_per_min, MILLI_5)
            &&& stays_below(d.jitter_p99_per_min, CENTI_2)
        }) ==> g.add_cell(CellKind::ColdStart, d).cold.reg_sum == Double::from_bits(ZERO),
        ({
            ||| rises_beyond(d.convergence_rate, MILLI_5)
            ||| falls_beyond(d.convergence_p50_secs, THIRTY)
            ||| falls_beyond(d.convergence_p99_secs, SIXTY)
        }) ==> g.add_cell(CellKind::ColdStart, d).cold.beat_sum.gt(Double::from_bits(ZERO)),
        g.cold.beat_sum == Double::from_bits(ZERO) && ({
            &&& stays_below(d.convergence_rate, MILLI_5)
            &&& stays_above(d.convergence_p50_secs, THIRTY)
            &&& stays_above(d.convergence_p99_secs, SIXTY)
        }) ==> g.add_cell(CellKind::ColdStart, d).cold.beat_sum == Double::from_bits(ZERO),
{
    let a = g.cold;
    assert(sound(a)) by {
        reveal(sound);
    }
    assert((a.reg_sum == Double::from_bits(ZERO) ==> lossless(a)) && (a.beat_sum
        == Double::from_bits(ZERO) ==> winless(a))) by {
        reveal(lossless);
        reveal(winless);
    }
    lemma_add_higher_decides(a, EIGHT, d.convergence_rate, MILLI_5, CENTI_5, true);
    let a = a.add_higher(EIGHT, d.convergence_rate, MILLI_5, CENTI_5, true);
    lemma_add_lower_decides(a, SIX, d.convergence_p50_secs, THIRTY, SIXTY, true);
    let a = a.add_lower(SIX, d.convergence_p50_secs, THIRTY, SIXTY, true);
    lemma_add_lower_decides(a, EIGHT, d.convergence_p99_secs, SIXTY, SIXTY, true);
    let a = a.add_lower(EIGHT, d.convergence_p99_secs, SIXTY, SIXTY, true);
    lemma_add_lower_decides(a, ONE, d.settled_accuracy_p50, CENTI_8, CENTI_5, false);
    let a = a.add_lower(ONE, d.settled_accuracy_p50, CENTI_8, CENTI_5, false);
    lemma_add_lower_decides(a, TWO, d.settled_accuracy_p99, CENTI_10, CENTI_10, false);
    let a = a.add_lower(TWO, d.settled_accuracy_p99, CENTI_10, CENTI_10, false);
    lemma_add_lower_decides(a, ONE, d.jitter_mean_per_min, MILLI_5, CENTI_1, false);
    let a = a.add_lower(ONE, d.jitter_mean_per_min, MILLI_5, CENTI_1, false);
    lemma_add_lower_decides(a, ONE, d.jitter_p99_per_min, CENTI_2, CENTI_5, false);
    let a = a.add_lower(ONE, d.jitter_p99_per_min, CENTI_2, CENTI_5, false);
    lemma_decided(a);
    assert(a == g.add_cell(CellKind::ColdStart, d).cold) by {
        reveal(Groups::spec_add_cell);
    }
}

/// The stable cells lose where an error or a jitter rises beyond the tolerance, and not
/// where all stay within; they win where one falls beyond it, and not otherwise.
pub proof fn lemma_what_counts_in_stable(g: Groups, d: Metrics)
    requires
        has_sums(g.stable),
        all_finite(d),
    ensures
        has_sums(g.add_cell(CellKind::Stable, d).stable),
        ({
            ||| rises_beyond(d.settled_accuracy_p50, CENTI_2)
            ||| rises_beyond(d.settled_accuracy_p99, CENTI_5)
            ||| rises_beyond(d.jitter_mean_per_min, MILLI_1)
            ||| rises_beyond(d.jitter_p99_per_min, CENTI_1)
        }) ==> g.add_cell(CellKind::Stable, d).stable.reg_sum.gt(Double::from_bits(ZERO)),
        g.stable.reg_sum == Double::from_bits(ZERO) && ({
            &&& stays_below(d.settled_accuracy_p50, CENTI_2)
            &&& stays_below(d.settled_accuracy_p99, CENTI_5)
            &&& stays_below(d.jitter_mean_per_min, MILLI_1)
            &&& stays_below(d.jitter_p99_per_min, CENTI_1)
        }) ==> g.add_cell(CellKind::Stable, d).stable.reg_sum == Double::from_bits(ZERO),
        ({
            ||| falls_beyond(d.settled_accuracy_p50, CENTI_2)
            ||| falls_beyond(d.settled_accuracy_p99, CENTI_5)
            ||| falls_beyond(d.jitter_mean_per_min, MILLI_1)
            ||| falls_beyond(d.jitter_p99_per_min, CENTI_1)
        }) ==> g.add_cell(CellKind::Stable, d).stable.beat_sum.gt(Double::from_bits(ZERO)),
        g.stable.beat_sum == Double::from_bits(ZERO) && ({
            &&& stays_above(d.settled_accuracy_p50, CENTI_2)
            &&& stays_above(d.settled_accuracy_p99, CENTI_5)
            &&& stays_above(d.jitter_mean_per_min, MILLI_1)
            &&& stays_above(d.jitter_p99_per_min, CENTI_1)
        }) ==> g.add_cell(CellKind::Stable, d).stable.beat_sum == Double::from_bits(ZERO),
{
    let a = g.stable;
    assert(sound(a)) by {
        reveal(sound);
    }
    assert((a.reg_sum == Double::from_bits(ZERO) ==> lossless(a)) && (a.beat_sum
        == Double::from_bits(ZERO) ==> winless(a))) by {
        reveal(lossless);
        reveal(winless);
    }
    lemma_add_lower_decides(a, THREE, d.settled_accuracy_p50, CENTI_2, CENTI_5, true);
    let a = a.add_lower(THREE, d.settled_accuracy_p50, CENTI_2, CENTI_5, true);
    lemma_add_lower_decides(a, FOUR, d.settled_accuracy_p99, CENTI_5, CENTI_10, true);
    let a = a.add_lower(FOUR, d.settled_accuracy_p99, CENTI_5, CENTI_10, true);
    lemma_add_lower_decides(a, FOUR, d.jitter_mean_per_min, MILLI_1, CENTI_1, true);
    let a = a.add_lower(FOUR, d.jitter_mean_per_min, MILLI_1, CENTI_1, true);
    lemma_add_lower_decides(a, FIVE, d.jitter_p99_per_min, CENTI_1, CENTI_5, true);
    let a = a.add_lower(FIVE, d.jitter_p99_per_min, CENTI_1, CENTI_5, true);
    lemma_decided(a);
    assert(a == g.add_cell(CellKind::Stable, d).stable) by {
        reveal(Groups::spec_add_cell);
    }
}

/// The reactions to steps lose where the rate falls, or a time rises, beyond the
/// tolerance, and not where all stay within; they win where the rate rises, or a time
/// falls, beyond it, and not otherwise.
pub proof fn lemma_what_counts_in_step_reaction(g: Groups, d: Metrics)
    requires
        has_sums(g.step_reaction),
        all_finite(d),
    ensures
        has_sums(g.add_cell(CellKind::Step, d).step_reaction),
        ({
            ||| falls_beyond(d.reaction_rate, CENTI_3)
            ||| rises_beyond(d.reaction_p50_secs, THIRTY)
            ||| rises_beyond(d.reaction_p99_secs, SIXTY)
        }) ==> g.add_cell(CellKind::Step, d).step_reaction.reg_sum.gt(Double::from_bits(ZERO)),
        g.step_reaction.reg_sum == Double::from_bits(ZERO) && ({
            &&& stays_above(d.reaction_rate, CENTI_3)
            &&& stays_below(d.reaction_p50_secs, THIRTY)
            &&& stays_below(d.reaction_p99_secs, SIXTY)
        }) ==> g.add_cell(CellKind::Step, d).step_reaction.reg_sum == Double::from_bits(ZERO),
        ({
            ||| rises_beyond(d.reaction_rate, CENTI_3)
            ||| falls_beyond(d.reaction_p50_secs, THIRTY)
            ||| falls_beyond(d.reaction_p99_secs, SIXTY)
        }) ==> g.add_cell(CellKind::Step, d).step_reaction.beat_sum.gt(Double::from_bits(ZERO)),
        g.step_reaction.beat_sum == Double::from_bits(ZERO) && ({
            &&& stays_below(d.reaction_rate, CENTI_3)
            &&& stays_above(d.reaction_p50_secs, THIRTY)
            &&& stays_above(d.reaction_p99_secs, SIXTY)
        }) ==> g.add_cell(CellKind::Step, d).step_reaction.beat_sum == Double::from_bits(ZERO),
{
    let a = g.step_reaction;
    assert(sound(a)) by {
        reveal(sound);
    }
    assert((a.reg_sum == Double::from_bits(ZERO) ==> lossless(a)) && (a.beat_sum
        == Double::from_bits(ZERO) ==> winless(a))) by {
        reveal(lossless);
        reveal(winless);
    }
    lemma_add_higher_decides(a, TEN, d.reaction_rate, CENTI_3, CENTI_5, true);
    let a = a.add_higher(TEN, d.reaction_rate, CENTI_3, CENTI_5, true);
    lemma_add_lower_decides(a, SIX, d.reaction_p50_secs, THIRTY, SIXTY, true);
    let a = a.add_lower(SIX, d.reaction_p50_secs, THIRTY, SIXTY, true);
    lemma_add_lower_decides(a, EIGHT, d.reaction_p99_secs, SIXTY, SIXTY, true);
    let a = a.add_lower(EIGHT, d.reaction_p99_secs, SIXTY, SIXTY, true);
    lemma_decided(a);
    assert(a == g.add_cell(CellKind::Step, d).step_reaction) by {
        reveal(Groups::spec_add_cell);
    }
}

/// The quality after steps loses where an error or a jitter rises beyond the tolerance,
/// and not where all stay within; it wins where one falls beyond it, and not otherwise.
pub proof fn lemma_what_counts_in_step_quality(g: Groups, d: Metrics)
    requires
        has_sums(g.step_quality),
        all_finite(d),
    ensures
        has_sums(g.add_cell(CellKind::Step, d).step_quality),
        ({
            ||| rises_beyond(d.settled_accuracy_p50, CENTI_5)
            ||| rises_beyond(d.settled_accuracy_p99, CENTI_10)
            ||| rises_beyond(d.jitter_mean_per_min, MILLI_2)
            ||| rises_beyond(d.jitter_p99_per_min, CENTI_2)
        }) ==> g.add_cell(CellKind::Step, d).step_quality.reg_sum.gt(Double::from_bits(ZERO)),
        g.step_quality.reg_sum == Double::from_bits(ZERO) && ({
            &&& stays_below(d.settled_accuracy_p50, CENTI_5)
            &&& stays_below(d.settled_accuracy_p99, CENTI_10)
            &&& stays_below(d.jitter_mean_per_min, MILLI_2)
            &&& stays_below(d.jitter_p99_per_min, CENTI_2)
        }) ==> g.add_cell(CellKind::Step, d).step_quality.reg_sum == Double::from_bits(ZERO),
        ({
            ||| falls_beyond(d.settled_accuracy_p50, CENTI_5)
            ||| falls_beyond(d.settled_accuracy_p99, CENTI_10)
            ||| falls_beyond(d.jitter_mean_per_min, MILLI_2)
            ||| falls_beyond(d.jitter_p99_per_min, CENTI_2)
        }) ==> g.add_cell(CellKind::Step, d).step_quality.beat_sum.gt(Double::from_bits(ZERO)),
        g.step_quality.beat_sum == Double::from_bits(ZERO) && ({
            &&& stays_above(d.settled_accuracy_p50, CENTI_5)
            &&& stays_above(d.settled_accuracy_p99, CENTI_10)
            &&& stays_above(d.jitter_mean_per_min, MILLI_2)
            &&& stays_above(d.jitter_p99_per_min, CENTI_2)
        }) ==> g.add_cell(CellKind::Step, d).step_quality.beat_sum == Double::from_bits(ZERO),
{
    let a = g.step_quality;
    assert(sound(a)) by {
        reveal(sound);
    }
    assert((a.reg_sum == Double::from_bits(ZERO) ==> lossless(a)) && (a.beat_sum
        == Double::from_bits(ZERO) ==> winless(a))) by {
        reveal(lossless);
        reveal(winless);
    }
    lemma_add_lower_decides(a, TWO, d.settled_accuracy_p50, CENTI_5, CENTI_5, true);
    let a = a.add_lower(TWO, d.settled_accuracy_p50, CENTI_5, CENTI_5, true);
    lemma_add_lower_decides(a, TWO, d.settled_accuracy_p99, CENTI_10, CENTI_10, true);
    let a = a.add_lower(TWO, d.settled_accuracy_p99, CENTI_10, CENTI_10, true);
    lemma_add_lower_decides(a, ONE, d.jitter_mean_per_min, MILLI_2, CENTI_1, true);
    let a = a.add_lower(ONE, d.jitter_mean_per_min, MILLI_2, CENTI_1, true);
    lemma_add_lower_decides(a, ONE, d.jitter_p99_per_min, CENTI_2, CENTI_5, true);
    let a = a.add_lower(ONE, d.jitter_p99_per_min, CENTI_2, CENTI_5, true);
    lemma_decided(a);
    assert(a == g.add_cell(CellKind::Step, d).step_quality) by {
        reveal(Groups::spec_add_cell);
    }
}

proof fn lemma_decided(g: GroupAcc)
    ensures
        sound(g) ==> has_sums(g),
        losing(g) ==> g.reg_sum.gt(Double::from_bits(ZERO)),
        winning(g) ==> g.beat_sum.gt(Double::from_bits(ZERO)),
        lossless(g) ==> g.reg_sum == Double::from_bits(ZERO),
        winless(g) ==> g.beat_sum == Double::from_bits(ZERO),
{
    reveal(sound);
    reveal(losing);
    reveal(winning);
    reveal(lossless);
    reveal(winless);
}

/// What an amount wins: its weight times the square of how many scales it is, of which
/// no more than 25 counts.
pub open spec fn won(weight: u64, amount: Double, scale: Double) -> Double {
    Double::from_bits(weight).times(
        amount.over(scale).times(amount.over(scale)).min(Double::from_bits(TWENTY_FIVE)),
    )
}

/// The group holds one metric that should be low: what it has risen beyond the
/// tolerance is lost, what it has fallen beyond it is won, where that counts.
pub open spec fn holds_low(
    g: GroupAcc,
    weight: u64,
    x: Double,
    tolerance: u64,
    scale: u64,
    wins: bool,
) -> bool {
    let (t, s) = (Double::from_bits(tolerance), Double::from_bits(scale));
    &&& g.reg_sum == if x.gt(t) {
        weighed(weight, x.minus(t), s)
    } else {
        Double::from_bits(ZERO)
    }
    &&& g.beat_sum == if wins && x.neg().gt(t) {
        won(weight, x.neg().minus(t), s)
    } else {
        Double::from_bits(ZERO)
    }
    &&& g.term_count == Double::from_bits(ONE)
}

/// The group holds one metric that should be high: what it has fallen beyond the
/// tolerance is lost, what it has risen beyond it is won.
pub open spec fn holds_high(
    g: GroupAcc,
    weight: u64,
    x: Double,
    tolerance: u64,
    scale: u64,
    wins: bool,
) -> bool {
    holds_low(g, weight, x.neg(), tolerance, scale, wins)
}

/// What one win adds to nothing.
proof fn lemma_first_win(weight: u64, x: Double, tolerance: u64, scale: Double)
    requires
        usable(weight, tolerance),
        x.is_finite(),
        Double::from_bits(NANO_1).le(scale),
    ensures
        Double::from_bits(ZERO).plus(
            Double::from_bits(weight).times(
                capped_excess(x.minus(Double::from_bits(tolerance)), scale),
            ),
        ) == if x.gt(Double::from_bits(tolerance)) {
            won(weight, x.minus(Double::from_bits(tolerance)), scale)
        } else {
            Double::from_bits(ZERO)
        },
{
    let (w, t) = (Double::from_bits(weight), Double::from_bits(tolerance));
    let term = capped_excess(x.minus(t), scale);
    lemma_excess_over_tolerance(x, t, scale);
    lemma_minus_sign(x, t);
    lemma_times_zero(w);
    if x.gt(t) {
        lemma_minus_not_above(x, t);
        lemma_excess_is_number(x.minus(t), scale.max(Double::from_bits(NANO_1)));
        lemma_weighted_is_number(w, term);
        lemma_times_sign(w, term);
        lemma_zero_plus(w.times(term));
    } else {
        lemma_zero_plus_zero(Double::from_bits(ZERO));
    }
}

proof fn lemma_first_lower(weight: u64, x: Double, tolerance: u64, scale: u64, wins: bool)
    requires
        usable(weight, tolerance),
        x.is_finite(),
        Double::from_bits(NANO_1).le(Double::from_bits(scale)),
    ensures
        holds_low(
            GroupAcc::empty().add_lower(weight, Some(x), tolerance, scale, wins),
            weight,
            x,
            tolerance,
            scale,
            wins,
        ),
{
    reveal(GroupAcc::spec_add_lower);
    assert(x.neg().parts().code == x.parts().code && x.neg().neg() == x);
    lemma_first_term(weight, x, tolerance, Double::from_bits(scale));
    lemma_first_term(weight, x.neg(), tolerance, Double::from_bits(scale));
    lemma_first_win(weight, x, tolerance, Double::from_bits(scale));
    lemma_first_win(weight, x.neg(), tolerance, Double::from_bits(scale));
    lemma_zero_plus(Double::from_bits(ONE));
}

broadcast proof fn lemma_no_lower(
    g: GroupAcc,
    weight: u64,
    tolerance: u64,
    scale: u64,
    allow_beat: bool,
)
    ensures
        #[trigger] g.add_lower(weight, None, tolerance, scale, allow_beat) == g,
{
    reveal(GroupAcc::spec_add_lower);
}

proof fn lemma_first_higher(weight: u64, x: Double, tolerance: u64, scale: u64, wins: bool)
    requires
        usable(weight, tolerance),
        x.is_finite(),
        Double::from_bits(NANO_1).le(Double::from_bits(scale)),
    ensures
        holds_high(
            GroupAcc::empty().add_higher(weight, Some(x), tolerance, scale, wins),
            weight,
            x,
            tolerance,
            scale,
            wins,
        ),
{
    reveal(GroupAcc::spec_add_higher);
    assert(x.neg().parts().code == x.parts().code && x.neg().neg() == x);
    lemma_first_term(weight, x, tolerance, Double::from_bits(scale));
    lemma_first_term(weight, x.neg(), tolerance, Double::from_bits(scale));
    lemma_first_win(weight, x, tolerance, Double::from_bits(scale));
    lemma_first_win(weight, x.neg(), tolerance, Double::from_bits(scale));
    lemma_zero_plus(Double::from_bits(ONE));
}

broadcast proof fn lemma_no_higher(
    g: GroupAcc,
    weight: u64,
    tolerance: u64,
    scale: u64,
    allow_beat: bool,
)
    ensures
        #[trigger] g.add_higher(weight, None, tolerance, scale, allow_beat) == g,
{
    reveal(GroupAcc::spec_add_higher);
}

/// What each metric weighs among the cold starts where it is the only one: the
/// weight, the direction, the tolerance and the scale of each, and whether it can win.
pub proof fn lemma_what_weighs_in_cold(x: Double)
    requires
        x.is_finite(),
    ensures
        holds_high(
            Groups::empty().add_cell(
                CellKind::ColdStart,
                (Metrics { convergence_rate: Some(x), ..Metrics::none() }),
            ).cold,
            EIGHT,
            x,
            MILLI_5,
            CENTI_5,
            true,
        ),
        holds_low(
            Groups::empty().add_cell(
                CellKind::ColdStart,
                (Metrics { convergence_p50_secs: Some(x), ..Metrics::none() }),
            ).cold,
            SIX,
            x,
            THIRTY,
            SIXTY,
            true,
        ),
        holds_low(
            Groups::empty().add_cell(
                CellKind::ColdStart,
                (Metrics { convergence_p99_secs: Some(x), ..Metrics::none() }),
            ).cold,
            EIGHT,
            x,
            SIXTY,
            SIXTY,
            true,
        ),
        holds_low(
            Groups::empty().add_cell(
                CellKind::ColdStart,
                (Metrics { settled_accuracy_p50: Some(x), ..Metrics::none() }),
            ).cold,
            ONE,
            x,
            CENTI_8,
            CENTI_5,
            false,
        ),
        holds_low(
            Groups::empty().add_cell(
                CellKind::ColdStart,
                (Metrics { settled_accuracy_p99: Some(x), ..Metrics::none() }),
            ).cold,
            TWO,
            x,
            CENTI_10,
            CENTI_10,
            false,
        ),
        holds_low(
            Groups::empty().add_cell(
                CellKind::ColdStart,
                (Metrics { jitter_mean_per_min: Some(x), ..Metrics::none() }),
            ).cold,
            ONE,
            x,
            MILLI_5,
            CENTI_1,
            false,
        ),
        holds_low(
            Groups::empty().add_cell(
                CellKind::ColdStart,
                (Metrics { jitter_p99_per_min: Some(x), ..Metrics::none() }),
            ).cold,
            ONE,
            x,
            CENTI_2,
            CENTI_5,
            false,
        ),
{
    reveal(Groups::spec_add_cell);
    broadcast use {lemma_no_lower, lemma_no_higher};

    lemma_first_higher(EIGHT, x, MILLI_5, CENTI_5, true);
    lemma_first_lower(SIX, x, THIRTY, SIXTY, true);
    lemma_first_lower(EIGHT, x, SIXTY, SIXTY, true);
    lemma_first_lower(ONE, x, CENTI_8, CENTI_5, false);
    lemma_first_lower(TWO, x, CENTI_10, CENTI_10, false);
    lemma_first_lower(ONE, x, MILLI_5, CENTI_1, false);
    lemma_first_lower(ONE, x, CENTI_2, CENTI_5, false);
}

/// What each metric weighs among the stable cells where it is the only one: the
/// weight, the direction, the tolerance and the scale of each, and whether it can win.
pub proof fn lemma_what_weighs_in_stable(x: Double)
    requires
        x.is_finite(),
    ensures
        holds_low(
            Groups::empty().add_cell(
                CellKind::Stable,
                (Metrics { settled_accuracy_p50: Some(x), ..Metrics::none() }),
            ).stable,
            THREE,
            x,
            CENTI_2,
            CENTI_5,
            true,
        ),
        holds_low(
            Groups::empty().add_cell(
                CellKind::Stable,
                (Metrics { settled_accuracy_p99: Some(x), ..Metrics::none() }),
            ).stable,
            FOUR,
            x,
            CENTI_5,
            CENTI_10,
            true,
        ),
        holds_low(
            Groups::empty().add_cell(
                CellKind::Stable,
                (Metrics { jitter_mean_per_min: Some(x), ..Metrics::none() }),
            ).stable,
            FOUR,
            x,
            MILLI_1,
            CENTI_1,
            true,
        ),
        holds_low(
            Groups::empty().add_cell(
                CellKind::Stable,
                (Metrics { jitter_p99_per_min: Some(x), ..Metrics::none() }),
            ).stable,
            FIVE,
            x,
            CENTI_1,
            CENTI_5,
            true,
        ),
{
    reveal(Groups::spec_add_cell);
    broadcast use {lemma_no_lower, lemma_no_higher};

    lemma_first_lower(THREE, x, CENTI_2, CENTI_5, true);
    lemma_first_lower(FOUR, x, CENTI_5, CENTI_10, true);
    lemma_first_lower(FOUR, x, MILLI_1, CENTI_1, true);
    lemma_first_lower(FIVE, x, CENTI_1, CENTI_5, true);
}

/// What each metric weighs among the reactions to steps where it is the only one: the
/// weight, the direction, the tolerance and the scale of each, and whether it can win.
pub proof fn lemma_what_weighs_in_step_reaction(x: Double)
    requires
        x.is_finite(),
    ensures
        holds_high(
            Groups::empty().add_cell(
                CellKind::Step,
                (Metrics { reaction_rate: Some(x), ..Metrics::none() }),
            ).step_reaction,
            TEN,
            x,
            CENTI_3,
            CENTI_5,
            true,
        ),
        holds_low(
            Groups::empty().add_cell(
                CellKind::Step,
                (Metrics { reaction_p50_secs: Some(x), ..Metrics::none() }),
            ).step_reaction,
            SIX,
            x,
            THIRTY,
            SIXTY,
            true,
        ),
        holds_low(
            Groups::empty().add_cell(
                CellKind::Step,
                (Metrics { reaction_p99_secs: Some(x), ..Metrics::none() }),
            ).step_reaction,
            EIGHT,
            x,
            SIXTY,
            SIXTY,
            true,
        ),
{
    reveal(Groups::spec_add_cell);
    broadcast use {lemma_no_lower, lemma_no_higher};

    lemma_first_higher(TEN, x, CENTI_3, CENTI_5, true);
    lemma_first_lower(SIX, x, THIRTY, SIXTY, true);
    lemma_first_lower(EIGHT, x, SIXTY, SIXTY, true);
}

/// What each metric weighs among the quality after steps where it is the only one: the
/// weight, the direction, the tolerance and the scale of each, and whether it can win.
pub proof fn lemma_what_weighs_in_step_quality(x: Double)
    requires
        x.is_finite(),
    ensures
        holds_low(
            Groups::empty().add_cell(
                CellKind::Step,
                (Metrics { settled_accuracy_p50: Some(x), ..Metrics::none() }),
            ).step_quality,
            TWO,
            x,
            CENTI_5,
            CENTI_5,
            true,
        ),
        holds_low(
            Groups::empty().add_cell(
                CellKind::Step,
                (Metrics { settled_accuracy_p99: Some(x), ..Metrics::none() }),
            ).step_quality,
            TWO,
            x,
            CENTI_10,
            CENTI_10,
            true,
        ),
        holds_low(
            Groups::empty().add_cell(
                CellKind::Step,
                (Metrics { jitter_mean_per_min: Some(x), ..Metrics::none() }),
            ).step_quality,
            ONE,
            x,
            MILLI_2,
            CENTI_1,
            true,
        ),
        holds_low(
            Groups::empty().add_cell(
                CellKind::Step,
                (Metrics { jitter_p99_per_min: Some(x), ..Metrics::none() }),
            ).step_quality,
            ONE,
            x,
            CENTI_2,
            CENTI_5,
            true,
        ),
{
    reveal(Groups::spec_add_cell);
    broadcast use {lemma_no_lower, lemma_no_higher};

    lemma_first_lower(TWO, x, CENTI_5, CENTI_5, true);
    lemma_first_lower(TWO, x, CENTI_10, CENTI_10, true);
    lemma_first_lower(ONE, x, MILLI_2, CENTI_1, true);
    lemma_first_lower(ONE, x, CENTI_2, CENTI_5, true);
}

/// The sums and the count of a group are numbers without a sign.
pub open spec fn all_clean(g: GroupAcc) -> bool {
    clean(g.reg_sum) && clean(g.beat_sum) && clean(g.term_count)
}

/// What one metric adds to a group is what it comes to alone.
#[verifier::opaque]
spec fn adds(g: GroupAcc, alone: GroupAcc, next: GroupAcc) -> bool {
    &&& next.reg_sum == g.reg_sum.plus(alone.reg_sum)
    &&& next.beat_sum == g.beat_sum.plus(alone.beat_sum)
    &&& next.term_count == g.term_count.plus(alone.term_count)
}

/// A weighted win has no sign.
proof fn lemma_clean_win(weight: u64, x: Double, tolerance: u64, scale: Double)
    requires
        usable(weight, tolerance),
        x.is_finite(),
    ensures
        clean(
            Double::from_bits(weight).times(
                capped_excess(x.minus(Double::from_bits(tolerance)), scale),
            ),
        ),
{
    let (w, t) = (Double::from_bits(weight), Double::from_bits(tolerance));
    let term = capped_excess(x.minus(t), scale);
    lemma_clean_term(weight, x, tolerance, scale);
    lemma_minus_sign(x, t);
    lemma_weighted_is_number(w, term);
    lemma_times_sign(w, term);
}

proof fn lemma_add_lower_adds(
    g: GroupAcc,
    weight: u64,
    d: Option<Double>,
    tolerance: u64,
    scale: u64,
    wins: bool,
)
    requires
        all_clean(g),
        usable(weight, tolerance),
        d matches Some(x) ==> x.is_finite(),
    ensures
        adds(
            g,
            GroupAcc::empty().add_lower(weight, d, tolerance, scale, wins),
            g.add_lower(weight, d, tolerance, scale, wins),
        ),
        all_clean(g.add_lower(weight, d, tolerance, scale, wins)),
{
    reveal(GroupAcc::spec_add_lower);
    reveal(adds);
    let zero = Double::from_bits(ZERO);
    lemma_clean_sum(g.reg_sum, zero);
    lemma_clean_sum(g.beat_sum, zero);
    lemma_clean_sum(g.term_count, zero);
    if let Some(x) = d {
        let (w, t) = (Double::from_bits(weight), Double::from_bits(tolerance));
        let s = Double::from_bits(scale);
        assert(x.neg().parts().code == x.parts().code);
        let (lost, won) = (w.times(lower_regression(x, t, s)), w.times(lower_beat(x, t, s)));
        lemma_clean_term(weight, x, tolerance, s);
        lemma_clean_term(weight, x.neg(), tolerance, s);
        lemma_clean_win(weight, x, tolerance, s);
        lemma_clean_win(weight, x.neg(), tolerance, s);
        lemma_zero_plus(lost);
        lemma_zero_plus(won);
        lemma_zero_plus(Double::from_bits(ONE));
        lemma_clean_sum(g.reg_sum, lost);
        lemma_clean_sum(g.beat_sum, won);
        lemma_clean_sum(g.term_count, Double::from_bits(ONE));
    }
}

proof fn lemma_add_higher_adds(
    g: GroupAcc,
    weight: u64,
    d: Option<Double>,
    tolerance: u64,
    scale: u64,
    wins: bool,
)
    requires
        all_clean(g),
        usable(weight, tolerance),
        d matches Some(x) ==> x.is_finite(),
    ensures
        adds(
            g,
            GroupAcc::empty().add_higher(weight, d, tolerance, scale, wins),
            g.add_higher(weight, d, tolerance, scale, wins),
        ),
        all_clean(g.add_higher(weight, d, tolerance, scale, wins)),
{
    reveal(GroupAcc::spec_add_higher);
    reveal(adds);
    let zero = Double::from_bits(ZERO);
    lemma_clean_sum(g.reg_sum, zero);
    lemma_clean_sum(g.beat_sum, zero);
    lemma_clean_sum(g.term_count, zero);
    if let Some(x) = d {
        let (w, t) = (Double::from_bits(weight), Double::from_bits(tolerance));
        let s = Double::from_bits(scale);
        assert(x.neg().parts().code == x.parts().code);
        let (lost, won) = (w.times(higher_regression(x, t, s)), w.times(higher_beat(x, t, s)));
        lemma_clean_term(weight, x, tolerance, s);
        lemma_clean_term(weight, x.neg(), tolerance, s);
        lemma_clean_win(weight, x, tolerance, s);
        lemma_clean_win(weight, x.neg(), tolerance, s);
        lemma_zero_plus(lost);
        lemma_zero_plus(won);
        lemma_zero_plus(Double::from_bits(ONE));
        lemma_clean_sum(g.reg_sum, lost);
        lemma_clean_sum(g.beat_sum, won);
        lemma_clean_sum(g.term_count, Double::from_bits(ONE));
    }
}

/// A cell adds to the cold starts what each of its metrics comes to alone.
pub proof fn lemma_cold_adds_up(g: Groups, d: Metrics)
    requires
        all_clean(g.cold),
        all_finite(d),
    ensures
        g.add_cell(CellKind::ColdStart, d).cold.reg_sum == g.cold.reg_sum.plus(
            Groups::empty().add_cell(
                CellKind::ColdStart,
                (Metrics { convergence_rate: d.convergence_rate, ..Metrics::none() }),
            ).cold.reg_sum,
        ).plus(
            Groups::empty().add_cell(
                CellKind::ColdStart,
                (Metrics { convergence_p50_secs: d.convergence_p50_secs, ..Metrics::none() }),
            ).cold.reg_sum,
        ).plus(
            Groups::empty().add_cell(
                CellKind::ColdStart,
                (Metrics { convergence_p99_secs: d.convergence_p99_secs, ..Metrics::none() }),
            ).cold.reg_sum,
        ).plus(
            Groups::empty().add_cell(
                CellKind::ColdStart,
                (Metrics { settled_accuracy_p50: d.settled_accuracy_p50, ..Metrics::none() }),
            ).cold.reg_sum,
        ).plus(
            Groups::empty().add_cell(
                CellKind::ColdStart,
                (Metrics { settled_accuracy_p99: d.settled_accuracy_p99, ..Metrics::none() }),
            ).cold.reg_sum,
        ).plus(
            Groups::empty().add_cell(
                CellKind::ColdStart,
                (Metrics { jitter_mean_per_min: d.jitter_mean_per_min, ..Metrics::none() }),
            ).cold.reg_sum,
        ).plus(
            Groups::empty().add_cell(
                CellKind::ColdStart,
                (Metrics { jitter_p99_per_min: d.jitter_p99_per_min, ..Metrics::none() }),
            ).cold.reg_sum,
        ),
        g.add_cell(CellKind::ColdStart, d).cold.beat_sum == g.cold.beat_sum.plus(
            Groups::empty().add_cell(
                CellKind::ColdStart,
                (Metrics { convergence_rate: d.convergence_rate, ..Metrics::none() }),
            ).cold.beat_sum,
        ).plus(
            Groups::empty().add_cell(
                CellKind::ColdStart,
                (Metrics { convergence_p50_secs: d.convergence_p50_secs, ..Metrics::none() }),
            ).cold.beat_sum,
        ).plus(
            Groups::empty().add_cell(
                CellKind::ColdStart,
                (Metrics { convergence_p99_secs: d.convergence_p99_secs, ..Metrics::none() }),
            ).cold.beat_sum,
        ).plus(
            Groups::empty().add_cell(
                CellKind::ColdStart,
                (Metrics { settled_accuracy_p50: d.settled_accuracy_p50, ..Metrics::none() }),
            ).cold.beat_sum,
        ).plus(
            Groups::empty().add_cell(
                CellKind::ColdStart,
                (Metrics { settled_accuracy_p99: d.settled_accuracy_p99, ..Metrics::none() }),
            ).cold.beat_sum,
        ).plus(
            Groups::empty().add_cell(
                CellKind::ColdStart,
                (Metrics { jitter_mean_per_min: d.jitter_mean_per_min, ..Metrics::none() }),
            ).cold.beat_sum,
        ).plus(
            Groups::empty().add_cell(
                CellKind::ColdStart,
                (Metrics { jitter_p99_per_min: d.jitter_p99_per_min, ..Metrics::none() }),
            ).cold.beat_sum,
        ),
        g.add_cell(CellKind::ColdStart, d).cold.term_count == g.cold.term_count.plus(
            Groups::empty().add_cell(
                CellKind::ColdStart,
                (Metrics { convergence_rate: d.convergence_rate, ..Metrics::none() }),
            ).cold.term_count,
        ).plus(
            Groups::empty().add_cell(
                CellKind::ColdStart,
                (Metrics { convergence_p50_secs: d.convergence_p50_secs, ..Metrics::none() }),
            ).cold.term_count,
        ).plus(
            Groups::empty().add_cell(
                CellKind::ColdStart,
                (Metrics { convergence_p99_secs: d.convergence_p99_secs, ..Metrics::none() }),
            ).cold.term_count,
        ).plus(
            Groups::empty().add_cell(
                CellKind::ColdStart,
                (Metrics { settled_accuracy_p50: d.settled_accuracy_p50, ..Metrics::none() }),
            ).cold.term_count,
        ).plus(
            Groups::empty().add_cell(
                CellKind::ColdStart,
                (Metrics { settled_accuracy_p99: d.settled_accuracy_p99, ..Metrics::none() }),
            ).cold.term_count,
        ).plus(
            Groups::empty().add_cell(
                CellKind::ColdStart,
                (Metrics { jitter_mean_per_min: d.jitter_mean_per_min, ..Metrics::none() }),
            ).cold.term_count,
        ).plus(
            Groups::empty().add_cell(
                CellKind::ColdStart,
                (Metrics { jitter_p99_per_min: d.jitter_p99_per_min, ..Metrics::none() }),
            ).cold.term_count,
        ),
{
    broadcast use {lemma_no_lower, lemma_no_higher};

    let (e, t0) = (GroupAcc::empty(), g.cold);
    lemma_add_higher_adds(t0, EIGHT, d.convergence_rate, MILLI_5, CENTI_5, true);
    let t1 = t0.add_higher(EIGHT, d.convergence_rate, MILLI_5, CENTI_5, true);
    assert(e.add_higher(
        EIGHT,
        d.convergence_rate,
        MILLI_5,
        CENTI_5,
        true,
    ) == Groups::empty().add_cell(
        CellKind::ColdStart,
        (Metrics { convergence_rate: d.convergence_rate, ..Metrics::none() }),
    ).cold) by {
        reveal(Groups::spec_add_cell);
    }
    lemma_add_lower_adds(t1, SIX, d.convergence_p50_secs, THIRTY, SIXTY, true);
    let t2 = t1.add_lower(SIX, d.convergence_p50_secs, THIRTY, SIXTY, true);
    assert(e.add_lower(
        SIX,
        d.convergence_p50_secs,
        THIRTY,
        SIXTY,
        true,
    ) == Groups::empty().add_cell(
        CellKind::ColdStart,
        (Metrics { convergence_p50_secs: d.convergence_p50_secs, ..Metrics::none() }),
    ).cold) by {
        reveal(Groups::spec_add_cell);
    }
    lemma_add_lower_adds(t2, EIGHT, d.convergence_p99_secs, SIXTY, SIXTY, true);
    let t3 = t2.add_lower(EIGHT, d.convergence_p99_secs, SIXTY, SIXTY, true);
    assert(e.add_lower(
        EIGHT,
        d.convergence_p99_secs,
        SIXTY,
        SIXTY,
        true,
    ) == Groups::empty().add_cell(
        CellKind::ColdStart,
        (Metrics { convergence_p99_secs: d.convergence_p99_secs, ..Metrics::none() }),
    ).cold) by {
        reveal(Groups::spec_add_cell);
    }
    lemma_add_lower_adds(t3, ONE, d.settled_accuracy_p50, CENTI_8, CENTI_5, false);
    let t4 = t3.add_lower(ONE, d.settled_accuracy_p50, CENTI_8, CENTI_5, false);
    assert(e.add_lower(
        ONE,
        d.settled_accuracy_p50,
        CENTI_8,
        CENTI_5,
        false,
    ) == Groups::empty().add_cell(
        CellKind::ColdStart,
        (Metrics { settled_accuracy_p50: d.settled_accuracy_p50, ..Metrics::none() }),
    ).cold) by {
        reveal(Groups::spec_add_cell);
    }
    lemma_add_lower_adds(t4, TWO, d.settled_accuracy_p99, CENTI_10, CENTI_10, false);
    let t5 = t4.add_lower(TWO, d.settled_accuracy_p99, CENTI_10, CENTI_10, false);
    assert(e.add_lower(
        TWO,
        d.settled_accuracy_p99,
        CENTI_10,
        CENTI_10,
        false,
    ) == Groups::empty().add_cell(
        CellKind::ColdStart,
        (Metrics { settled_accuracy_p99: d.settled_accuracy_p99, ..Metrics::none() }),
    ).cold) by {
        reveal(Groups::spec_add_cell);
    }
    lemma_add_lower_adds(t5, ONE, d.jitter_mean_per_min, MILLI_5, CENTI_1, false);
    let t6 = t5.add_lower(ONE, d.jitter_mean_per_min, MILLI_5, CENTI_1, false);
    assert(e.add_lower(
        ONE,
        d.jitter_mean_per_min,
        MILLI_5,
        CENTI_1,
        false,
    ) == Groups::empty().add_cell(
        CellKind::ColdStart,
        (Metrics { jitter_mean_per_min: d.jitter_mean_per_min, ..Metrics::none() }),
    ).cold) by {
        reveal(Groups::spec_add_cell);
    }
    lemma_add_lower_adds(t6, ONE, d.jitter_p99_per_min, CENTI_2, CENTI_5, false);
    let t7 = t6.add_lower(ONE, d.jitter_p99_per_min, CENTI_2, CENTI_5, false);
    assert(e.add_lower(
        ONE,
        d.jitter_p99_per_min,
        CENTI_2,
        CENTI_5,
        false,
    ) == Groups::empty().add_cell(
        CellKind::ColdStart,
        (Metrics { jitter_p99_per_min: d.jitter_p99_per_min, ..Metrics::none() }),
    ).cold) by {
        reveal(Groups::spec_add_cell);
    }
    assert(t7 == g.add_cell(CellKind::ColdStart, d).cold) by {
        reveal(Groups::spec_add_cell);
    }
    reveal(adds);
}

/// A cell adds to the stable cells what each of its metrics comes to alone.
pub proof fn lemma_stable_adds_up(g: Groups, d: Metrics)
    requires
        all_clean(g.stable),
        all_finite(d),
    ensures
        g.add_cell(CellKind::Stable, d).stable.reg_sum == g.stable.reg_sum.plus(
            Groups::empty().add_cell(
                CellKind::Stable,
                (Metrics { settled_accuracy_p50: d.settled_accuracy_p50, ..Metrics::none() }),
            ).stable.reg_sum,
        ).plus(
            Groups::empty().add_cell(
                CellKind::Stable,
                (Metrics { settled_accuracy_p99: d.settled_accuracy_p99, ..Metrics::none() }),
            ).stable.reg_sum,
        ).plus(
            Groups::empty().add_cell(
                CellKind::Stable,
                (Metrics { jitter_mean_per_min: d.jitter_mean_per_min, ..Metrics::none() }),
            ).stable.reg_sum,
        ).plus(
            Groups::empty().add_cell(
                CellKind::Stable,
                (Metrics { jitter_p99_per_min: d.jitter_p99_per_min, ..Metrics::none() }),
            ).stable.reg_sum,
        ),
        g.add_cell(CellKind::Stable, d).stable.beat_sum == g.stable.beat_sum.plus(
            Groups::empty().add_cell(
                CellKind::Stable,
                (Metrics { settled_accuracy_p50: d.settled_accuracy_p50, ..Metrics::none() }),
            ).stable.beat_sum,
        ).plus(
            Groups::empty().add_cell(
                CellKind::Stable,
                (Metrics { settled_accuracy_p99: d.settled_accuracy_p99, ..Metrics::none() }),
            ).stable.beat_sum,
        ).plus(
            Groups::empty().add_cell(
                CellKind::Stable,
                (Metrics { jitter_mean_per_min: d.jitter_mean_per_min, ..Metrics::none() }),
            ).stable.beat_sum,
        ).plus(
            Groups::empty().add_cell(
                CellKind::Stable,
                (Metrics { jitter_p99_per_min: d.jitter_p99_per_min, ..Metrics::none() }),
            ).stable.beat_sum,
        ),
        g.add_cell(CellKind::Stable, d).stable.term_count == g.stable.term_count.plus(
            Groups::empty().add_cell(
                CellKind::Stable,
                (Metrics { settled_accuracy_p50: d.settled_accuracy_p50, ..Metrics::none() }),
            ).stable.term_count,
        ).plus(
            Groups::empty().add_cell(
                CellKind::Stable,
                (Metrics { settled_accuracy_p99: d.settled_accuracy_p99, ..Metrics::none() }),
            ).stable.term_count,
        ).plus(
            Groups::empty().add_cell(
                CellKind::Stable,
                (Metrics { jitter_mean_per_min: d.jitter_mean_per_min, ..Metrics::none() }),
            ).stable.term_count,
        ).plus(
            Groups::empty().add_cell(
                CellKind::Stable,
                (Metrics { jitter_p99_per_min: d.jitter_p99_per_min, ..Metrics::none() }),
            ).stable.term_count,
        ),
{
    broadcast use {lemma_no_lower, lemma_no_higher};

    let (e, t0) = (GroupAcc::empty(), g.stable);
    lemma_add_lower_adds(t0, THREE, d.settled_accuracy_p50, CENTI_2, CENTI_5, true);
    let t1 = t0.add_lower(THREE, d.settled_accuracy_p50, CENTI_2, CENTI_5, true);
    assert(e.add_lower(
        THREE,
        d.settled_accuracy_p50,
        CENTI_2,
        CENTI_5,
        true,
    ) == Groups::empty().add_cell(
        CellKind::Stable,
        (Metrics { settled_accuracy_p50: d.settled_accuracy_p50, ..Metrics::none() }),
    ).stable) by {
        reveal(Groups::spec_add_cell);
    }
    lemma_add_lower_adds(t1, FOUR, d.settled_accuracy_p99, CENTI_5, CENTI_10, true);
    let t2 = t1.add_lower(FOUR, d.settled_accuracy_p99, CENTI_5, CENTI_10, true);
    assert(e.add_lower(
        FOUR,
        d.settled_accuracy_p99,
        CENTI_5,
        CENTI_10,
        true,
    ) == Groups::empty().add_cell(
        CellKind::Stable,
        (Metrics { settled_accuracy_p99: d.settled_accuracy_p99, ..Metrics::none() }),
    ).stable) by {
        reveal(Groups::spec_add_cell);
    }
    lemma_add_lower_adds(t2, FOUR, d.jitter_mean_per_min, MILLI_1, CENTI_1, true);
    let t3 = t2.add_lower(FOUR, d.jitter_mean_per_min, MILLI_1, CENTI_1, true);
    assert(e.add_lower(
        FOUR,
        d.jitter_mean_per_min,
        MILLI_1,
        CENTI_1,
        true,
    ) == Groups::empty().add_cell(
        CellKind::Stable,
        (Metrics { jitter_mean_per_min: d.jitter_mean_per_min, ..Metrics::none() }),
    ).stable) by {
        reveal(Groups::spec_add_cell);
    }
    lemma_add_lower_adds(t3, FIVE, d.jitter_p99_per_min, CENTI_1, CENTI_5, true);
    let t4 = t3.add_lower(FIVE, d.jitter_p99_per_min, CENTI_1, CENTI_5, true);
    assert(e.add_lower(
        FIVE,
        d.jitter_p99_per_min,
        CENTI_1,
        CENTI_5,
        true,
    ) == Groups::empty().add_cell(
        CellKind::Stable,
        (Metrics { jitter_p99_per_min: d.jitter_p99_per_min, ..Metrics::none() }),
    ).stable) by {
        reveal(Groups::spec_add_cell);
    }
    assert(t4 == g.add_cell(CellKind::Stable, d).stable) by {
        reveal(Groups::spec_add_cell);
    }
    reveal(adds);
}

/// A cell adds to the reactions to steps what each of its metrics comes to alone.
pub proof fn lemma_step_reaction_adds_up(g: Groups, d: Metrics)
    requires
        all_clean(g.step_reaction),
        all_finite(d),
    ensures
        g.add_cell(CellKind::Step, d).step_reaction.reg_sum == g.step_reaction.reg_sum.plus(
            Groups::empty().add_cell(
                CellKind::Step,
                (Metrics { reaction_rate: d.reaction_rate, ..Metrics::none() }),
            ).step_reaction.reg_sum,
        ).plus(
            Groups::empty().add_cell(
                CellKind::Step,
                (Metrics { reaction_p50_secs: d.reaction_p50_secs, ..Metrics::none() }),
            ).step_reaction.reg_sum,
        ).plus(
            Groups::empty().add_cell(
                CellKind::Step,
                (Metrics { reaction_p99_secs: d.reaction_p99_secs, ..Metrics::none() }),
            ).step_reaction.reg_sum,
        ),
        g.add_cell(CellKind::Step, d).step_reaction.beat_sum == g.step_reaction.beat_sum.plus(
            Groups::empty().add_cell(
                CellKind::Step,
                (Metrics { reaction_rate: d.reaction_rate, ..Metrics::none() }),
            ).step_reaction.beat_sum,
        ).plus(
            Groups::empty().add_cell(
                CellKind::Step,
                (Metrics { reaction_p50_secs: d.reaction_p50_secs, ..Metrics::none() }),
            ).step_reaction.beat_sum,
        ).plus(
            Groups::empty().add_cell(
                CellKind::Step,
                (Metrics { reaction_p99_secs: d.reaction_p99_secs, ..Metrics::none() }),
            ).step_reaction.beat_sum,
        ),
        g.add_cell(CellKind::Step, d).step_reaction.term_count == g.step_reaction.term_count.plus(
            Groups::empty().add_cell(
                CellKind::Step,
                (Metrics { reaction_rate: d.reaction_rate, ..Metrics::none() }),
            ).step_reaction.term_count,
        ).plus(
            Groups::empty().add_cell(
                CellKind::Step,
                (Metrics { reaction_p50_secs: d.reaction_p50_secs, ..Metrics::none() }),
            ).step_reaction.term_count,
        ).plus(
            Groups::empty().add_cell(
                CellKind::Step,
                (Metrics { reaction_p99_secs: d.reaction_p99_secs, ..Metrics::none() }),
            ).step_reaction.term_count,
        ),
{
    broadcast use {lemma_no_lower, lemma_no_higher};

    let (e, t0) = (GroupAcc::empty(), g.step_reaction);
    lemma_add_higher_adds(t0, TEN, d.reaction_rate, CENTI_3, CENTI_5, true);
    let t1 = t0.add_higher(TEN, d.reaction_rate, CENTI_3, CENTI_5, true);
    assert(e.add_higher(TEN, d.reaction_rate, CENTI_3, CENTI_5, true) == Groups::empty().add_cell(
        CellKind::Step,
        (Metrics { reaction_rate: d.reaction_rate, ..Metrics::none() }),
    ).step_reaction) by {
        reveal(Groups::spec_add_cell);
    }
    lemma_add_lower_adds(t1, SIX, d.reaction_p50_secs, THIRTY, SIXTY, true);
    let t2 = t1.add_lower(SIX, d.reaction_p50_secs, THIRTY, SIXTY, true);
    assert(e.add_lower(SIX, d.reaction_p50_secs, THIRTY, SIXTY, true) == Groups::empty().add_cell(
        CellKind::Step,
        (Metrics { reaction_p50_secs: d.reaction_p50_secs, ..Metrics::none() }),
    ).step_reaction) by {
        reveal(Groups::spec_add_cell);
    }
    lemma_add_lower_adds(t2, EIGHT, d.reaction_p99_secs, SIXTY, SIXTY, true);
    let t3 = t2.add_lower(EIGHT, d.reaction_p99_secs, SIXTY, SIXTY, true);
    assert(e.add_lower(EIGHT, d.reaction_p99_secs, SIXTY, SIXTY, true) == Groups::empty().add_cell(
        CellKind::Step,
        (Metrics { reaction_p99_secs: d.reaction_p99_secs, ..Metrics::none() }),
    ).step_reaction) by {
        reveal(Groups::spec_add_cell);
    }
    assert(t3 == g.add_cell(CellKind::Step, d).step_reaction) by {
        reveal(Groups::spec_add_cell);
    }
    reveal(adds);
}

/// A cell adds to the quality after steps what each of its metrics comes to alone.
pub proof fn lemma_step_quality_adds_up(g: Groups, d: Metrics)
    requires
        all_clean(g.step_quality),
        all_finite(d),
    ensures
        g.add_cell(CellKind::Step, d).step_quality.reg_sum == g.step_quality.reg_sum.plus(
            Groups::empty().add_cell(
                CellKind::Step,
                (Metrics { settled_accuracy_p50: d.settled_accuracy_p50, ..Metrics::none() }),
            ).step_quality.reg_sum,
        ).plus(
            Groups::empty().add_cell(
                CellKind::Step,
                (Metrics { settled_accuracy_p99: d.settled_accuracy_p99, ..Metrics::none() }),
            ).step_quality.reg_sum,
        ).plus(
            Groups::empty().add_cell(
                CellKind::Step,
                (Metrics { jitter_mean_per_min: d.jitter_mean_per_min, ..Metrics::none() }),
            ).step_quality.reg_sum,
        ).plus(
            Groups::empty().add_cell(
                CellKind::Step,
                (Metrics { jitter_p99_per_min: d.jitter_p99_per_min, ..Metrics::none() }),
            ).step_quality.reg_sum,
        ),
        g.add_cell(CellKind::Step, d).step_quality.beat_sum == g.step_quality.beat_sum.plus(
            Groups::empty().add_cell(
                CellKind::Step,
                (Metrics { settled_accuracy_p50: d.settled_accuracy_p50, ..Metrics::none() }),
            ).step_quality.beat_sum,
        ).plus(
            Groups::empty().add_cell(
                CellKind::Step,
                (Metrics { settled_accuracy_p99: d.settled_accuracy_p99, ..Metrics::none() }),
            ).step_quality.beat_sum,
        ).plus(
            Groups::empty().add_cell(
                CellKind::Step,
                (Metrics { jitter_mean_per_min: d.jitter_mean_per_min, ..Metrics::none() }),
            ).step_quality.beat_sum,
        ).plus(
            Groups::empty().add_cell(
                CellKind::Step,
                (Metrics { jitter_p99_per_min: d.jitter_p99_per_min, ..Metrics::none() }),
            ).step_quality.beat_sum,
        ),
        g.add_cell(CellKind::Step, d).step_quality.term_count == g.step_quality.term_count.plus(
            Groups::empty().add_cell(
                CellKind::Step,
                (Metrics { settled_accuracy_p50: d.settled_accuracy_p50, ..Metrics::none() }),
            ).step_quality.term_count,
        ).plus(
            Groups::empty().add_cell(
                CellKind::Step,
                (Metrics { settled_accuracy_p99: d.settled_accuracy_p99, ..Metrics::none() }),
            ).step_quality.term_count,
        ).plus(
            Groups::empty().add_cell(
                CellKind::Step,
                (Metrics { jitter_mean_per_min: d.jitter_mean_per_min, ..Metrics::none() }),
            ).step_quality.term_count,
        ).plus(
            Groups::empty().add_cell(
                CellKind::Step,
                (Metrics { jitter_p99_per_min: d.jitter_p99_per_min, ..Metrics::none() }),
            ).step_quality.term_count,
        ),
{
    broadcast use {lemma_no_lower, lemma_no_higher};

    let (e, t0) = (GroupAcc::empty(), g.step_quality);
    lemma_add_lower_adds(t0, TWO, d.settled_accuracy_p50, CENTI_5, CENTI_5, true);
    let t1 = t0.add_lower(TWO, d.settled_accuracy_p50, CENTI_5, CENTI_5, true);
    assert(e.add_lower(
        TWO,
        d.settled_accuracy_p50,
        CENTI_5,
        CENTI_5,
        true,
    ) == Groups::empty().add_cell(
        CellKind::Step,
        (Metrics { settled_accuracy_p50: d.settled_accuracy_p50, ..Metrics::none() }),
    ).step_quality) by {
        reveal(Groups::spec_add_cell);
    }
    lemma_add_lower_adds(t1, TWO, d.settled_accuracy_p99, CENTI_10, CENTI_10, true);
    let t2 = t1.add_lower(TWO, d.settled_accuracy_p99, CENTI_10, CENTI_10, true);
    assert(e.add_lower(
        TWO,
        d.settled_accuracy_p99,
        CENTI_10,
        CENTI_10,
        true,
    ) == Groups::empty().add_cell(
        CellKind::Step,
        (Metrics { settled_accuracy_p99: d.settled_accuracy_p99, ..Metrics::none() }),
    ).step_quality) by {
        reveal(Groups::spec_add_cell);
    }
    lemma_add_lower_adds(t2, ONE, d.jitter_mean_per_min, MILLI_2, CENTI_1, true);
    let t3 = t2.add_lower(ONE, d.jitter_mean_per_min, MILLI_2, CENTI_1, true);
    assert(e.add_lower(
        ONE,
        d.jitter_mean_per_min,
        MILLI_2,
        CENTI_1,
        true,
    ) == Groups::empty().add_cell(
        CellKind::Step,
        (Metrics { jitter_mean_per_min: d.jitter_mean_per_min, ..Metrics::none() }),
    ).step_quality) by {
        reveal(Groups::spec_add_cell);
    }
    lemma_add_lower_adds(t3, ONE, d.jitter_p99_per_min, CENTI_2, CENTI_5, true);
    let t4 = t3.add_lower(ONE, d.jitter_p99_per_min, CENTI_2, CENTI_5, true);
    assert(e.add_lower(
        ONE,
        d.jitter_p99_per_min,
        CENTI_2,
        CENTI_5,
        true,
    ) == Groups::empty().add_cell(
        CellKind::Step,
        (Metrics { jitter_p99_per_min: d.jitter_p99_per_min, ..Metrics::none() }),
    ).step_quality) by {
        reveal(Groups::spec_add_cell);
    }
    assert(t4 == g.add_cell(CellKind::Step, d).step_quality) by {
        reveal(Groups::spec_add_cell);
    }
    reveal(adds);
}

} // verus!
