use vstd::prelude::*;

use crate::compare::cells::{CellText, Field, Metrics};
use crate::compare::directions::no_better;
use crate::compare::guards::{
    DeltaText, has_few_shares, kind_of, lemma_guards_fail_what_is_broken, steps_by_half,
};
use crate::compare::report::{
    Concern, any_failed, badness, listed, placed, ranked, scores_of, verdict_of,
};
use crate::compare::rows::plain_row;
use crate::compare::score::{
    cell_score_z, column_of, deviation_of, deviations, scored_rows, squared_distances,
};
use crate::float::double::Double;
use crate::float::exact::{lemma_nothing_and, lemma_of_u64_exact, lemma_same_value};
use crate::float::laws::{
    lemma_magnitude_of_one, lemma_minus_sign, lemma_of_u64_monotone, lemma_plus_not_negative,
};
use crate::float::numbers::{
    CENTI_1, CENTI_10, CENTI_2, CENTI_3, CENTI_5, CENTI_8, HUNDRED_TWENTY, MILLI_1, MILLI_2,
    MINUS_CENTI_1, MINUS_CENTI_3, MINUS_CENTI_5, SIXTY, ZERO,
};
use crate::float::series::total_of;
use crate::float::whole::{
    gap, lemma_root_of_square, lemma_squared_difference, lemma_total_of_whole_numbers,
    lemma_whole_quotient, sum_of, whole,
};
use crate::text::{has_part, joined};

verus! {

/// A difference that is there and above a number.
pub open spec fn above(x: Option<Double>, bits: u64) -> bool {
    x matches Some(d) && d.gt(Double::from_bits(bits))
}

/// A difference that is there and below a number.
pub open spec fn below(x: Option<Double>, bits: u64) -> bool {
    x matches Some(d) && d.lt(Double::from_bits(bits))
}

/// When the guards fail a cell, and when they warn of one.
pub proof fn lemma_when_guards_fail(row: DeltaText)
    requires
        row.fails.len() == 0,
        row.warns.len() == 0,
    ensures
        ({
            let d = row.delta;
            let (failed, warned) = (
                row.guarded().fails.len() > 0,
                row.guarded().warns.len() > 0,
            );
            &&& row.kind is ColdStart ==> (failed <==> {
                ||| below(d.convergence_rate, MINUS_CENTI_1)
                ||| above(d.convergence_p50_secs, SIXTY)
                ||| above(d.convergence_p99_secs, HUNDRED_TWENTY)
                ||| above(d.settled_accuracy_p50, CENTI_8)
            })
            &&& row.kind is ColdStart ==> (warned <==> above(d.settled_accuracy_p50, CENTI_3))
            &&& row.kind is Stable ==> (failed <==> {
                ||| above(d.settled_accuracy_p50, CENTI_2)
                ||| above(d.settled_accuracy_p99, CENTI_5)
                ||| above(d.jitter_mean_per_min, MILLI_1)
                ||| above(d.jitter_p99_per_min, CENTI_1)
            })
            &&& row.kind is Stable ==> (warned <==> above(d.jitter_mean_per_min, ZERO))
            &&& row.kind is Step ==> (failed <==> {
                ||| below(d.reaction_rate, MINUS_CENTI_5)
                ||| above(d.reaction_p50_secs, SIXTY)
                ||| above(d.reaction_p99_secs, HUNDRED_TWENTY)
                ||| above(d.settled_accuracy_p50, CENTI_5)
                ||| above(d.settled_accuracy_p99, CENTI_10)
                ||| above(d.jitter_mean_per_min, MILLI_2)
                ||| above(d.jitter_p99_per_min, CENTI_2)
                ||| below(d.reaction_rate, MINUS_CENTI_3) && (has_part(row.cell, "step_minus_50"@)
                    || has_part(row.cell, "step_plus_50"@))
            })
            &&& row.kind is Step ==> !warned
            &&& row.kind is Other ==> !failed && !warned
        }),
{
    lemma_guards_fail_what_is_broken(row);
    reveal(DeltaText::fail);
    reveal(DeltaText::warn);
}

/// A cell that is no better in any metric fails where the other one does.
pub proof fn lemma_worse_cells_fail_too(row: DeltaText, worse: Metrics)
    requires
        row.fails.len() == 0,
        row.warns.len() == 0,
        no_better(row.delta, worse),
    ensures
        row.guarded().fails.len() > 0 ==> (DeltaText { delta: worse, ..row }).guarded().fails.len()
            > 0,
        row.guarded().warns.len() > 0 ==> (DeltaText { delta: worse, ..row }).guarded().warns.len()
            > 0,
{
    lemma_when_guards_fail(row);
    lemma_when_guards_fail(DeltaText { delta: worse, ..row });
}

/// The kind of a scenario is told by how its name starts.
pub proof fn lemma_kinds_are_told_by_prefixes(rest: Seq<char>)
    ensures
        kind_of("cold_start"@ + rest) is ColdStart,
        kind_of("stable"@ + rest) is Stable,
        kind_of("step_"@ + rest) is Step,
        has_few_shares("spm_6."@ + rest),
        has_few_shares("spm_12."@ + rest),
{
    reveal_strlit("cold_start");
    reveal_strlit("stable");
    reveal_strlit("step_");
    reveal_strlit("spm_6.");
    reveal_strlit("spm_12.");
    assert(("cold_start"@ + rest).subrange(0, 10) =~= "cold_start"@);
    assert(("stable"@ + rest).subrange(0, 6) =~= "stable"@);
    assert(("step_"@ + rest).subrange(0, 5) =~= "step_"@);
    assert(("spm_6."@ + rest).subrange(0, 6) =~= "spm_6."@);
    assert(("spm_12."@ + rest).subrange(0, 7) =~= "spm_12."@);
    assert(("stable"@ + rest)[0] == 's' && "cold_start"@[0] == 'c');
    assert(("step_"@ + rest)[0] == 's');
    assert(("step_"@ + rest)[2] == 'e' && "stable"@[2] == 'a');
}

/// A cell steps by half where its name says so, in either direction.
pub proof fn lemma_half_steps_are_told_by_names(before: Seq<char>, after: Seq<char>)
    ensures
        steps_by_half(before + "step_minus_50"@ + after),
        steps_by_half(before + "step_plus_50"@ + after),
{
    let n = before.len() as int;
    let (down, up) = ("step_minus_50"@, "step_plus_50"@);
    assert((before + down + after).subrange(n, n + down.len()) =~= down);
    assert((before + up + after).subrange(n, n + up.len()) =~= up);
}

/// What a row says of a metric: by how much the candidate is above the baseline, and
/// nothing where one of them lacks it.
pub open spec fn says(
    baseline: Option<Double>,
    candidate: Option<Double>,
    row: Option<Double>,
) -> bool {
    match (baseline, candidate) {
        (Some(b), Some(c)) => {
            &&& row == Some(c.minus(b))
            &&& b.is_finite() && c.is_finite() ==> {
                &&& c.gt(b) ==> row->0.gt(Double::from_bits(ZERO))
                &&& c.lt(b) ==> row->0.lt(Double::from_bits(ZERO))
            }
        },
        _ => row is None,
    }
}

/// A row is above zero in a metric where the candidate is above the baseline in that
/// metric, and below zero where it is below. Its kind is that of the baseline's scenario.
pub proof fn lemma_rows_say_what_rose(cell: Seq<char>, baseline: CellText, candidate: CellText)
    ensures
        ({
            let row = plain_row(cell, baseline, candidate);
            let (b, c, d) = (baseline.metrics, candidate.metrics, row.delta);
            &&& row.cell == cell
            &&& row.kind == kind_of(baseline.scenario)
            &&& row.fails.len() == 0 && row.warns.len() == 0
            &&& says(b.convergence_rate, c.convergence_rate, d.convergence_rate)
            &&& says(b.convergence_p50_secs, c.convergence_p50_secs, d.convergence_p50_secs)
            &&& says(b.convergence_p99_secs, c.convergence_p99_secs, d.convergence_p99_secs)
            &&& says(b.settled_accuracy_p50, c.settled_accuracy_p50, d.settled_accuracy_p50)
            &&& says(b.settled_accuracy_p99, c.settled_accuracy_p99, d.settled_accuracy_p99)
            &&& says(b.jitter_mean_per_min, c.jitter_mean_per_min, d.jitter_mean_per_min)
            &&& says(b.jitter_p99_per_min, c.jitter_p99_per_min, d.jitter_p99_per_min)
            &&& says(b.reaction_rate, c.reaction_rate, d.reaction_rate)
            &&& says(b.reaction_p50_secs, c.reaction_p50_secs, d.reaction_p50_secs)
            &&& says(b.reaction_p99_secs, c.reaction_p99_secs, d.reaction_p99_secs)
        }),
{
    let (b, c) = (baseline.metrics, candidate.metrics);
    lemma_says(b.convergence_rate, c.convergence_rate);
    lemma_says(b.convergence_p50_secs, c.convergence_p50_secs);
    lemma_says(b.convergence_p99_secs, c.convergence_p99_secs);
    lemma_says(b.settled_accuracy_p50, c.settled_accuracy_p50);
    lemma_says(b.settled_accuracy_p99, c.settled_accuracy_p99);
    lemma_says(b.jitter_mean_per_min, c.jitter_mean_per_min);
    lemma_says(b.jitter_p99_per_min, c.jitter_p99_per_min);
    lemma_says(b.reaction_rate, c.reaction_rate);
    lemma_says(b.reaction_p50_secs, c.reaction_p50_secs);
    lemma_says(b.reaction_p99_secs, c.reaction_p99_secs);
}

proof fn lemma_says(baseline: Option<Double>, candidate: Option<Double>)
    ensures
        says(
            baseline,
            candidate,
            match (candidate, baseline) {
                (Some(c), Some(b)) => Some(c.minus(b)),
                _ => None,
            },
        ),
{
    if let (Some(b), Some(c)) = (baseline, candidate) {
        if b.is_finite() && c.is_finite() {
            lemma_minus_sign(c, b);
        }
    }
}

/// Rows that agree in one metric.
pub open spec fn agree(
    rows: Seq<DeltaText>,
    others: Seq<DeltaText>,
    metric: spec_fn(Metrics) -> Option<Double>,
) -> bool {
    &&& rows.len() == others.len()
    &&& forall|i: int|
        0 <= i < rows.len() ==> metric((#[trigger] rows[i]).delta) == metric(others[i].delta)
}

/// The deviation of a metric is that of the differences in this metric and of no others:
/// it is the same for rows that agree in it.
pub proof fn lemma_each_metric_has_its_own_deviation(rows: Seq<DeltaText>, others: Seq<DeltaText>)
    ensures
        agree(rows, others, |m: Metrics| m.convergence_rate) ==> deviations(rows).cr
            == deviations(others).cr,
        agree(rows, others, |m: Metrics| m.convergence_p50_secs) ==> deviations(rows).cp50
            == deviations(others).cp50,
        agree(rows, others, |m: Metrics| m.convergence_p99_secs) ==> deviations(rows).cp99
            == deviations(others).cp99,
        agree(rows, others, |m: Metrics| m.settled_accuracy_p50) ==> deviations(rows).sa_p50
            == deviations(others).sa_p50,
        agree(rows, others, |m: Metrics| m.settled_accuracy_p99) ==> deviations(rows).sa_p99
            == deviations(others).sa_p99,
        agree(rows, others, |m: Metrics| m.jitter_mean_per_min) ==> deviations(rows).jmean
            == deviations(others).jmean,
        agree(rows, others, |m: Metrics| m.jitter_p99_per_min) ==> deviations(rows).jp99
            == deviations(others).jp99,
        agree(rows, others, |m: Metrics| m.reaction_rate) ==> deviations(rows).rr
            == deviations(others).rr,
        agree(rows, others, |m: Metrics| m.reaction_p50_secs) ==> deviations(rows).rp50
            == deviations(others).rp50,
        agree(rows, others, |m: Metrics| m.reaction_p99_secs) ==> deviations(rows).rp99
            == deviations(others).rp99,
{
    if agree(rows, others, |m: Metrics| m.convergence_rate) {
        lemma_same_column(rows, others, Field::ConvergenceRate);
    }
    if agree(rows, others, |m: Metrics| m.convergence_p50_secs) {
        lemma_same_column(rows, others, Field::ConvergenceP50Secs);
    }
    if agree(rows, others, |m: Metrics| m.convergence_p99_secs) {
        lemma_same_column(rows, others, Field::ConvergenceP99Secs);
    }
    if agree(rows, others, |m: Metrics| m.settled_accuracy_p50) {
        lemma_same_column(rows, others, Field::SettledAccuracyP50);
    }
    if agree(rows, others, |m: Metrics| m.settled_accuracy_p99) {
        lemma_same_column(rows, others, Field::SettledAccuracyP99);
    }
    if agree(rows, others, |m: Metrics| m.jitter_mean_per_min) {
        lemma_same_column(rows, others, Field::JitterMeanPerMin);
    }
    if agree(rows, others, |m: Metrics| m.jitter_p99_per_min) {
        lemma_same_column(rows, others, Field::JitterP99PerMin);
    }
    if agree(rows, others, |m: Metrics| m.reaction_rate) {
        lemma_same_column(rows, others, Field::ReactionRate);
    }
    if agree(rows, others, |m: Metrics| m.reaction_p50_secs) {
        lemma_same_column(rows, others, Field::ReactionP50Secs);
    }
    if agree(rows, others, |m: Metrics| m.reaction_p99_secs) {
        lemma_same_column(rows, others, Field::ReactionP99Secs);
    }
}

proof fn lemma_same_column(rows: Seq<DeltaText>, others: Seq<DeltaText>, field: Field)
    requires
        rows.len() == others.len(),
        forall|i: int|
            0 <= i < rows.len() ==> (#[trigger] rows[i]).delta.get(field) == others[i].delta.get(
                field,
            ),
    ensures
        column_of(rows, field) == column_of(others, field),
    decreases rows.len(),
{
    if rows.len() > 0 {
        let (a, b) = (rows.drop_last(), others.drop_last());
        assert forall|i: int| 0 <= i < a.len() implies (#[trigger] a[i]).delta.get(field)
            == b[i].delta.get(field) by {
            assert(a[i] == rows[i]);
        }
        lemma_same_column(a, b, field);
        assert(rows[rows.len() - 1].delta.get(field) == others[rows.len() - 1].delta.get(field));
    }
}

/// Which metrics each concern goes by, and in which direction.
pub proof fn lemma_what_each_concern_goes_by(d: Metrics, x: Double)
    requires
        x.is_finite(),
    ensures
        ({
            let none = Metrics::none();
            &&& badness(
                Concern::SettledAccuracy,
                Metrics { settled_accuracy_p50: Some(x), ..d },
            ) == Some(x)
            &&& badness(
                Concern::SettledAccuracy,
                Metrics { settled_accuracy_p50: None, settled_accuracy_p99: Some(x), ..d },
            ) == Some(x)
            &&& badness(Concern::ReactionRate, Metrics { reaction_rate: Some(x), ..d }) == Some(
                x.neg(),
            )
            &&& badness(Concern::ReactionRate, Metrics { reaction_rate: None, ..d }) is None
            &&& x.ge(Double::from_bits(ZERO)) ==> {
                &&& badness(
                    Concern::ReactionTime,
                    Metrics { reaction_p50_secs: Some(x), ..none },
                )->0.rank() == x.rank()
                &&& badness(
                    Concern::ReactionTime,
                    Metrics { reaction_p99_secs: Some(x), ..none },
                )->0.rank() == x.rank()
                &&& badness(
                    Concern::Jitter,
                    Metrics { jitter_mean_per_min: Some(x), ..none },
                )->0.rank() == x.rank()
                &&& badness(
                    Concern::Jitter,
                    Metrics { jitter_p99_per_min: Some(x), ..none },
                )->0.rank() == x.rank()
            }
            &&& badness(
                Concern::ReactionTime,
                Metrics {
                    reaction_p50_secs: d.reaction_p50_secs,
                    reaction_p99_secs: d.reaction_p99_secs,
                    ..none
                },
            ) == badness(Concern::ReactionTime, d)
            &&& badness(
                Concern::Jitter,
                Metrics {
                    jitter_mean_per_min: d.jitter_mean_per_min,
                    jitter_p99_per_min: d.jitter_p99_per_min,
                    ..none
                },
            ) == badness(Concern::Jitter, d)
        }),
{
}

/// A list names the first five of its cells at most.
pub proof fn lemma_five_cells_are_listed(list: Seq<(Seq<char>, Double)>)
    ensures
        list.len() <= 5 ==> listed(list) == list,
        list.len() > 5 ==> listed(list) == list.take(5),
{
}

/// A cell has no flags but a dash just where nothing is wrong with it. Warnings come
/// before failures, and each is told of as such.
pub proof fn lemma_flags_tell_what_is_wrong(row: DeltaText, message: Seq<char>)
    ensures
        row.fails.len() == 0 && row.warns.len() == 0 ==> row.flags() == "-"@,
        row.fails.len() == 0 && row.warns == seq![message] ==> row.flags() == "WARN:"@ + message,
        row.fails == seq![message] && row.warns.len() == 0 ==> row.flags() == "FAIL:"@ + message,
        row.fails == seq![message] && row.warns == seq![message] ==> row.flags() == "WARN:"@
            + message + " | "@ + ("FAIL:"@ + message),
{
    reveal_with_fuel(joined, 3);
    let (warned, failed) = ("WARN:"@ + message, "FAIL:"@ + message);
    let empty = Seq::<Seq<char>>::empty();
    assert(seq![warned] + empty =~= seq![warned]);
    assert(empty + seq![failed] =~= seq![failed]);
    assert(seq![warned] + seq![failed] =~= seq![warned, failed]);
    assert(seq![warned, failed].drop_last() =~= seq![warned]);
}

/// No deviation is below 1e-6, and that of nothing is one.
pub proof fn lemma_deviations_have_a_floor(values: Seq<Double>)
    ensures
        // 1e-6
        Double::from_bits(0x3eb0_c6f7_a0b5_ed8d).le(deviation_of(values)),
        values.len() == 0 ==> deviation_of(values) == Double::from_bits(0x3ff0_0000_0000_0000),
{
}

/// The squares of how far whole numbers are from one of them.
pub open spec fn square_gaps(xs: Seq<u64>, m: u64) -> Seq<u64> {
    xs.map_values(|x: u64| (gap(x, m) * gap(x, m)) as u64)
}

/// The deviation is the root of the mean square distance from the mean: for whole numbers
/// whose mean is `m`, and whose squared distances from it have the mean `d` times `d`, it
/// is `d`.
pub proof fn lemma_deviation_of_whole_numbers(xs: Seq<u64>, m: u64, d: u64)
    requires
        0 < xs.len() < 0x20_0000_0000_0000,
        sum_of(xs) == xs.len() * m,
        sum_of(xs) < 0x20_0000_0000_0000,
        forall|i: int| 0 <= i < xs.len() ==> gap(#[trigger] xs[i], m) < 0x400_0000,
        forall|i: int| 0 <= i < xs.len() ==> #[trigger] xs[i] < 0x20_0000_0000_0000,
        0 < d < 0x400_0000,
        sum_of(square_gaps(xs, m)) == xs.len() * (d * d),
        sum_of(square_gaps(xs, m)) < 0x20_0000_0000_0000,
        m < 0x20_0000_0000_0000,
        m > 0,
    ensures
        deviation_of(whole(xs)) == Double::of_u64(d),
{
    let n = xs.len() as u64;
    let values = whole(xs);
    lemma_total_of_whole_numbers(xs);
    assert(xs.len() * m > 0) by (nonlinear_arith)
        requires
            xs.len() > 0,
            m > 0,
    ;
    lemma_whole_quotient(n, m);
    let mean = total_of(values).over(Double::of_u64(n));
    assert(mean == Double::of_u64(m));
    let squares = square_gaps(xs, m);
    assert(squared_distances(values, mean) =~= whole(squares)) by {
        assert forall|i: int| 0 <= i < xs.len() implies squared_distances(values, mean)[i]
            == whole(squares)[i] by {
            assert(gap(xs[i], m) < 0x400_0000 && xs[i] < 0x20_0000_0000_0000);
            lemma_squared_difference(xs[i], m);
        }
    }
    lemma_total_of_whole_numbers(squares);
    lemma_root_of_square(d);
    let v = (d * d) as u64;
    assert(d * d > 0) by (nonlinear_arith)
        requires
            d > 0,
    ;
    assert(xs.len() * v > 0) by (nonlinear_arith)
        requires
            xs.len() > 0,
            v > 0,
    ;
    lemma_whole_quotient(n, v);
    lemma_of_u64_monotone(1, d);
    lemma_of_u64_exact(1);
    lemma_magnitude_of_one();
    lemma_same_value(Double::of_u64(1), Double::from_bits(0x3ff0_0000_0000_0000));
}

/// The sum of numbers that are not below zero is no smaller than any of them.
pub proof fn lemma_total_is_no_smaller(values: Seq<Double>, i: int)
    requires
        forall|j: int| 0 <= j < values.len() ==> Double::from_bits(ZERO).le(#[trigger] values[j]),
    ensures
        !total_of(values).is_nan(),
        total_of(values).rank() >= 0,
        0 <= i < values.len() ==> values[i].le(total_of(values)),
    decreases values.len(),
{
    if values.len() > 0 {
        let rest = values.drop_last();
        let last = values.len() - 1;
        assert forall|j: int| 0 <= j < rest.len() implies Double::from_bits(ZERO).le(
            #[trigger] rest[j],
        ) by {
            assert(rest[j] == values[j]);
        }
        lemma_total_is_no_smaller(rest, i);
        assert(Double::from_bits(ZERO).le(values[last]));
        lemma_plus_not_negative(total_of(rest), values[last]);
        if 0 <= i < last {
            assert(rest[i] == values[i]);
        }
    }
}

/// A comparison is rejected where any cell has failed, and where any cell loses more than
/// next to nothing; it is accepted where no cell fails and none loses anything.
pub proof fn lemma_what_is_accepted(rows: Seq<DeltaText>)
    requires
        forall|i: int|
            0 <= i < rows.len() ==> Double::from_bits(ZERO).le((#[trigger] rows[i]).score),
    ensures
        forall|i: int|
            0 <= i < rows.len() && (#[trigger] rows[i]).fails.len() > 0 ==> {
                &&& !verdict_of(rows).accepted
                &&& verdict_of(rows).hard_fail
            },
        // 1e-9
        forall|i: int|
            0 <= i < rows.len() && (#[trigger] rows[i]).score.gt(
                Double::from_bits(0x3e11_2e0b_e826_d695),
            ) ==> !verdict_of(rows).accepted,
        (forall|i: int|
            0 <= i < rows.len() ==> (#[trigger] rows[i]).fails.len() == 0 && rows[i].score.rank()
                == 0) ==> verdict_of(rows).accepted && !verdict_of(rows).hard_fail,
        forall|i: int|
            0 <= i < rows.len() ==> (#[trigger] rows[i]).score.le(verdict_of(rows).total_score),
{
    let scores = scores_of(rows);
    assert forall|j: int| 0 <= j < scores.len() implies Double::from_bits(ZERO).le(
        #[trigger] scores[j],
    ) by {
        assert(scores[j] == rows[j].score);
    }
    assert forall|i: int| 0 <= i < rows.len() implies (#[trigger] rows[i]).score.le(
        verdict_of(rows).total_score,
    ) by {
        lemma_total_is_no_smaller(scores, i);
        assert(scores[i] == rows[i].score);
    }
    assert forall|i: int| 0 <= i < rows.len() && (#[trigger] rows[i]).fails.len() > 0 implies {
        &&& !verdict_of(rows).accepted
        &&& verdict_of(rows).hard_fail
    } by {
        assert(rows[i].failed());
    }
    if forall|i: int|
        0 <= i < rows.len() ==> (#[trigger] rows[i]).fails.len() == 0 && rows[i].score.rank() == 0 {
        assert forall|j: int| 0 <= j < scores.len() implies (#[trigger] scores[j]).rank() == 0
            && !scores[j].is_nan() by {
            assert(scores[j] == rows[j].score);
            assert(rows[j].score.rank() == 0);
        }
        lemma_total_of_nothing(scores);
        assert(!any_failed(rows));
    }
}

/// Zeros add up to zero.
proof fn lemma_total_of_nothing(values: Seq<Double>)
    requires
        forall|j: int|
            0 <= j < values.len() ==> (#[trigger] values[j]).rank() == 0 && !values[j].is_nan(),
    ensures
        total_of(values).rank() == 0,
        total_of(values).is_finite(),
    decreases values.len(),
{
    if values.len() > 0 {
        let rest = values.drop_last();
        assert forall|j: int| 0 <= j < rest.len() implies (#[trigger] rest[j]).rank() == 0
            && !rest[j].is_nan() by {
            assert(rest[j] == values[j]);
        }
        lemma_total_of_nothing(rest);
        assert(values[values.len() - 1].rank() == 0);
        lemma_nothing_and(total_of(rest), values.last());
    }
}

/// Placing an entry adds it to those of the list, and no other.
proof fn lemma_placed_holds(
    list: Seq<(Seq<char>, Double)>,
    entry: (Seq<char>, Double),
    e: (Seq<char>, Double),
)
    ensures
        placed(list, entry).contains(e) <==> e == entry || list.contains(e),
    decreases list.len(),
{
    let after = placed(list, entry);
    if list.len() > 0 && list.last().1.lt(entry.1) {
        let rest = list.drop_last();
        lemma_placed_holds(rest, entry, e);
        lemma_push_holds(placed(rest, entry), list.last(), e);
        lemma_push_holds(rest, list.last(), e);
        assert(rest.push(list.last()) =~= list);
    } else {
        lemma_push_holds(list, entry, e);
    }
}

proof fn lemma_push_holds(
    list: Seq<(Seq<char>, Double)>,
    entry: (Seq<char>, Double),
    e: (Seq<char>, Double),
)
    ensures
        list.push(entry).contains(e) <==> e == entry || list.contains(e),
{
    let after = list.push(entry);
    if after.contains(e) {
        let i = choose|i: int| 0 <= i < after.len() && after[i] == e;
        if i < list.len() {
            assert(list[i] == e);
        }
    }
    if list.contains(e) {
        let i = choose|i: int| 0 <= i < list.len() && list[i] == e;
        assert(after[i] == e);
    }
    assert(after[list.len() as int] == entry);
}

/// A cell is listed, with how bad it is, just where it is bad at all.
pub proof fn lemma_bad_cells_are_listed(
    rows: Seq<DeltaText>,
    concern: Concern,
    cell: Seq<char>,
    x: Double,
)
    ensures
        ranked(rows, concern).contains((cell, x)) <==> exists|i: int|
            0 <= i < rows.len() && (#[trigger] rows[i]).cell == cell && badness(
                concern,
                rows[i].delta,
            ) == Some(x) && x.gt(Double::from_bits(ZERO)),
    decreases rows.len(),
{
    let e = (cell, x);
    if rows.len() > 0 {
        let rest = rows.drop_last();
        let last = rows.len() - 1;
        lemma_bad_cells_are_listed(rest, concern, cell, x);
        let list = ranked(rest, concern);
        if let Some(y) = badness(concern, rows[last].delta) {
            if y.gt(Double::from_bits(ZERO)) {
                lemma_placed_holds(list, (rows[last].cell, y), e);
            }
        }
        if ranked(rows, concern).contains(e) {
            if list.contains(e) {
                let i = choose|i: int|
                    0 <= i < rest.len() && (#[trigger] rest[i]).cell == cell && badness(
                        concern,
                        rest[i].delta,
                    ) == Some(x) && x.gt(Double::from_bits(ZERO));
                assert(rows[i] == rest[i]);
            } else {
                assert(rows[last].cell == cell);
            }
        }
        if exists|i: int|
            0 <= i < rows.len() && (#[trigger] rows[i]).cell == cell && badness(
                concern,
                rows[i].delta,
            ) == Some(x) && x.gt(Double::from_bits(ZERO)) {
            let i = choose|i: int|
                0 <= i < rows.len() && (#[trigger] rows[i]).cell == cell && badness(
                    concern,
                    rows[i].delta,
                ) == Some(x) && x.gt(Double::from_bits(ZERO));
            if i < last {
                assert(rest[i] == rows[i]);
            }
        }
    }
}

/// Each row is scored against the deviations of all rows, and nothing else of it changes.
pub proof fn lemma_rows_are_scored_against_all(rows: Seq<DeltaText>, i: int)
    requires
        0 <= i < rows.len(),
    ensures
        scored_rows(rows).len() == rows.len(),
        scored_rows(rows)[i] == (DeltaText {
            score: cell_score_z(rows[i].kind, rows[i].delta, deviations(rows)).reg,
            beat_score: cell_score_z(rows[i].kind, rows[i].delta, deviations(rows)).beat,
            ..rows[i]
        }),
{
}

} // verus!
