use vstd::prelude::*;

use crate::compare::cells::{Field, Metrics};
use crate::compare::guards::{CellDelta, CellKind, DeltaText, delta_texts};
use crate::float::double::Double;
use crate::float::numbers::{
    CENTI_1, CENTI_10, CENTI_2, CENTI_5, CENTI_8, FIVE, FOUR, HUNDRED_TWENTY, MICRO_1, MILLI_1,
    MILLI_2, NANO_1, ONE, SIXTY, THREE, TWO, ZERO,
};
use crate::float::series::{total, total_of};

verus! {

/// The square of how many deviations an amount is, or zero where it is not
/// positive.
pub open spec fn spec_excess(amount: Double, z: Double) -> Double {
    if amount.le(Double::from_bits(ZERO)) {
        Double::from_bits(ZERO)
    } else {
        let ratio = amount.over(z.max(Double::from_bits(NANO_1)));
        ratio.times(ratio)
    }
}

/// The square of how many deviations an amount is, or zero where it is not
/// positive.
#[verifier::when_used_as_spec(spec_excess)]
pub fn excess(amount: Double, z: Double) -> (r: Double)
    ensures
        r == excess(amount, z),
{
    if amount.le(Double::from_bits(ZERO)) {
        return Double::from_bits(ZERO);
    }
    let denom = z.max(Double::from_bits(NANO_1));
    let ratio = amount.over(denom);
    ratio.times(ratio)
}

pub open spec fn spec_lower_regression(delta: Double, tolerance: Double, z: Double) -> Double {
    spec_excess(delta.minus(tolerance), z)
}

/// How much worse a metric that should be low has become, beyond the tolerance.
#[verifier::when_used_as_spec(spec_lower_regression)]
pub fn lower_regression(delta: Double, tolerance: Double, z: Double) -> (r: Double)
    ensures
        r == lower_regression(delta, tolerance, z),
{
    excess(delta.minus(tolerance), z)
}

pub open spec fn spec_higher_regression(delta: Double, tolerance: Double, z: Double) -> Double {
    spec_excess(delta.neg().minus(tolerance), z)
}

/// How much worse a metric that should be high has become, beyond the tolerance.
#[verifier::when_used_as_spec(spec_higher_regression)]
pub fn higher_regression(delta: Double, tolerance: Double, z: Double) -> (r: Double)
    ensures
        r == higher_regression(delta, tolerance, z),
{
    excess(delta.neg().minus(tolerance), z)
}

pub open spec fn spec_lower_beat(delta: Double, tolerance: Double, z: Double) -> Double {
    spec_excess(delta.neg().minus(tolerance), z)
}

/// How much better a metric that should be low has become, beyond the tolerance.
#[verifier::when_used_as_spec(spec_lower_beat)]
pub fn lower_beat(delta: Double, tolerance: Double, z: Double) -> (r: Double)
    ensures
        r == lower_beat(delta, tolerance, z),
{
    excess(delta.neg().minus(tolerance), z)
}

pub open spec fn spec_higher_beat(delta: Double, tolerance: Double, z: Double) -> Double {
    spec_excess(delta.minus(tolerance), z)
}

/// How much better a metric that should be high has become, beyond the tolerance.
#[verifier::when_used_as_spec(spec_higher_beat)]
pub fn higher_beat(delta: Double, tolerance: Double, z: Double) -> (r: Double)
    ensures
        r == higher_beat(delta, tolerance, z),
{
    excess(delta.minus(tolerance), z)
}

/// What a cell scores: how much it got worse, and how much better.
#[derive(Clone, Copy, Debug)]
pub struct Tally {
    pub reg: Double,
    pub beat: Double,
}

impl Tally {
    pub open spec fn nothing() -> Tally {
        Tally { reg: Double::from_bits(ZERO), beat: Double::from_bits(ZERO) }
    }

    /// With a metric that should be low; the weight and the tolerance are bit
    /// patterns.
    #[verifier::opaque]
    pub open spec fn spec_add_l_pair(
        self,
        weight: u64,
        delta: Option<Double>,
        tolerance: u64,
        z: Double,
    ) -> Tally {
        let (w, t) = (Double::from_bits(weight), Double::from_bits(tolerance));
        match delta {
            Some(d) => Tally {
                reg: self.reg.plus(w.times(lower_regression(d, t, z))),
                beat: self.beat.plus(w.times(lower_beat(d, t, z))),
            },
            None => self,
        }
    }

    /// Adds a metric that should be low; the weight and the tolerance are bit
    /// patterns.
    #[verifier::when_used_as_spec(spec_add_l_pair)]
    pub fn add_l_pair(self, weight: u64, delta: Option<Double>, tolerance: u64, z: Double) -> (r: Tally)
        ensures
            r == self.add_l_pair(weight, delta, tolerance, z),
    {
        reveal(Tally::spec_add_l_pair);
        let w = Double::from_bits(weight);
        let t = Double::from_bits(tolerance);
        match delta {
            Some(d) => Tally {
                reg: self.reg.plus(w.times(lower_regression(d, t, z))),
                beat: self.beat.plus(w.times(lower_beat(d, t, z))),
            },
            None => self,
        }
    }

    /// With a metric that should be high; the weight and the tolerance are bit
    /// patterns.
    #[verifier::opaque]
    pub open spec fn spec_add_h_pair(
        self,
        weight: u64,
        delta: Option<Double>,
        tolerance: u64,
        z: Double,
    ) -> Tally {
        let (w, t) = (Double::from_bits(weight), Double::from_bits(tolerance));
        match delta {
            Some(d) => Tally {
                reg: self.reg.plus(w.times(higher_regression(d, t, z))),
                beat: self.beat.plus(w.times(higher_beat(d, t, z))),
            },
            None => self,
        }
    }

    /// Adds a metric that should be high; the weight and the tolerance are bit
    /// patterns.
    #[verifier::when_used_as_spec(spec_add_h_pair)]
    pub fn add_h_pair(self, weight: u64, delta: Option<Double>, tolerance: u64, z: Double) -> (r: Tally)
        ensures
            r == self.add_h_pair(weight, delta, tolerance, z),
    {
        reveal(Tally::spec_add_h_pair);
        let w = Double::from_bits(weight);
        let t = Double::from_bits(tolerance);
        match delta {
            Some(d) => Tally {
                reg: self.reg.plus(w.times(higher_regression(d, t, z))),
                beat: self.beat.plus(w.times(higher_beat(d, t, z))),
            },
            None => self,
        }
    }
}

/// The deviation of each metric over all cells.
#[derive(Clone, Copy, Debug)]
pub struct MetricZ {
    pub cr: Double,
    pub cp50: Double,
    pub cp99: Double,
    pub sa_p50: Double,
    pub sa_p99: Double,
    pub jmean: Double,
    pub jp99: Double,
    pub rr: Double,
    pub rp50: Double,
    pub rp99: Double,
}

pub open spec fn spec_cell_score_z(kind: CellKind, d: Metrics, z: MetricZ) -> Tally {
    match kind {
        CellKind::ColdStart => Tally::nothing().add_h_pair(
            THREE,
            d.convergence_rate,
            CENTI_1,
            z.cr,
        ).add_l_pair(TWO, d.convergence_p50_secs, SIXTY, z.cp50).add_l_pair(
            THREE,
            d.convergence_p99_secs,
            HUNDRED_TWENTY,
            z.cp99,
        ).add_l_pair(ONE, d.settled_accuracy_p50, CENTI_8, z.sa_p50).add_l_pair(
            TWO,
            d.settled_accuracy_p99,
            ZERO,
            z.sa_p99,
        ).add_l_pair(ONE, d.jitter_mean_per_min, ZERO, z.jmean).add_l_pair(
            ONE,
            d.jitter_p99_per_min,
            ZERO,
            z.jp99,
        ),
        CellKind::Stable => Tally::nothing().add_l_pair(
            THREE,
            d.settled_accuracy_p50,
            CENTI_2,
            z.sa_p50,
        ).add_l_pair(FOUR, d.settled_accuracy_p99, CENTI_5, z.sa_p99).add_l_pair(
            FOUR,
            d.jitter_mean_per_min,
            MILLI_1,
            z.jmean,
        ).add_l_pair(FIVE, d.jitter_p99_per_min, CENTI_1, z.jp99),
        CellKind::Step => Tally::nothing().add_h_pair(
            FIVE,
            d.reaction_rate,
            CENTI_5,
            z.rr,
        ).add_l_pair(THREE, d.reaction_p50_secs, SIXTY, z.rp50).add_l_pair(
            FOUR,
            d.reaction_p99_secs,
            HUNDRED_TWENTY,
            z.rp99,
        ).add_l_pair(FOUR, d.settled_accuracy_p50, CENTI_5, z.sa_p50).add_l_pair(
            FIVE,
            d.settled_accuracy_p99,
            CENTI_10,
            z.sa_p99,
        ).add_l_pair(TWO, d.jitter_mean_per_min, MILLI_2, z.jmean).add_l_pair(
            THREE,
            d.jitter_p99_per_min,
            CENTI_2,
            z.jp99,
        ),
        CellKind::Other => Tally::nothing(),
    }
}

/// Scores a cell, each difference in deviations of its metric.
#[verifier::when_used_as_spec(spec_cell_score_z)]
pub fn cell_score_z(kind: CellKind, d: Metrics, z: MetricZ) -> (r: Tally)
    ensures
        r == cell_score_z(kind, d, z),
{
    let start = Tally { reg: Double::from_bits(ZERO), beat: Double::from_bits(ZERO) };
    match kind {
        CellKind::ColdStart => start.add_h_pair(
            THREE,
            d.convergence_rate,
            CENTI_1,
            z.cr,
        ).add_l_pair(TWO, d.convergence_p50_secs, SIXTY, z.cp50).add_l_pair(
            THREE,
            d.convergence_p99_secs,
            HUNDRED_TWENTY,
            z.cp99,
        ).add_l_pair(ONE, d.settled_accuracy_p50, CENTI_8, z.sa_p50).add_l_pair(
            TWO,
            d.settled_accuracy_p99,
            ZERO,
            z.sa_p99,
        ).add_l_pair(ONE, d.jitter_mean_per_min, ZERO, z.jmean).add_l_pair(
            ONE,
            d.jitter_p99_per_min,
            ZERO,
            z.jp99,
        ),
        CellKind::Stable => start.add_l_pair(
            THREE,
            d.settled_accuracy_p50,
            CENTI_2,
            z.sa_p50,
        ).add_l_pair(FOUR, d.settled_accuracy_p99, CENTI_5, z.sa_p99).add_l_pair(
            FOUR,
            d.jitter_mean_per_min,
            MILLI_1,
            z.jmean,
        ).add_l_pair(FIVE, d.jitter_p99_per_min, CENTI_1, z.jp99),
        CellKind::Step => start.add_h_pair(
            FIVE,
            d.reaction_rate,
            CENTI_5,
            z.rr,
        ).add_l_pair(THREE, d.reaction_p50_secs, SIXTY, z.rp50).add_l_pair(
            FOUR,
            d.reaction_p99_secs,
            HUNDRED_TWENTY,
            z.rp99,
        ).add_l_pair(FOUR, d.settled_accuracy_p50, CENTI_5, z.sa_p50).add_l_pair(
            FIVE,
            d.settled_accuracy_p99,
            CENTI_10,
            z.sa_p99,
        ).add_l_pair(TWO, d.jitter_mean_per_min, MILLI_2, z.jmean).add_l_pair(
            THREE,
            d.jitter_p99_per_min,
            CENTI_2,
            z.jp99,
        ),
        CellKind::Other => start,
    }
}

/// The squared distances of a series from a number.
pub open spec fn squared_distances(values: Seq<Double>, from: Double) -> Seq<Double> {
    values.map_values(|v: Double| v.minus(from).times(v.minus(from)))
}

/// The standard deviation of a series, never less than a small number; one for
/// an empty series.
pub open spec fn deviation_of(values: Seq<Double>) -> Double {
    if values.len() == 0 {
        Double::from_bits(ONE)
    } else {
        let n = Double::of_u64(values.len() as u64);
        let mean = total_of(values).over(n);
        total_of(squared_distances(values, mean)).over(n).sqrt().max(
            Double::from_bits(MICRO_1),
        )
    }
}

/// The standard deviation of a series, never less than a small number; one for
/// an empty series.
pub fn z_std(values: &Vec<Double>) -> (r: Double)
    ensures
        r == deviation_of(values@),
{
    if values.len() == 0 {
        return Double::from_bits(ONE);
    }
    let n = Double::of_u64(values.len() as u64);
    let mean = total(values).over(n);
    let mut squares: Vec<Double> = Vec::new();
    let mut i: usize = 0;
    while i < values.len()
        invariant
            i <= values@.len(),
            squares@ == squared_distances(values@.take(i as int), mean),
        decreases values.len() - i,
    {
        let d = values[i].minus(mean);
        squares.push(d.times(d));
        proof {
            assert(squared_distances(values@.take(i + 1), mean) =~= squared_distances(
                values@.take(i as int),
                mean,
            ).push(values@[i as int].minus(mean).times(values@[i as int].minus(mean))));
        }
        i = i + 1;
    }
    proof {
        assert(values@.take(i as int) =~= values@);
    }
    let var = total(&squares).over(n);
    var.sqrt().max(Double::from_bits(MICRO_1))
}

/// The differences in one field that the rows have.
pub open spec fn column_of(rows: Seq<DeltaText>, field: Field) -> Seq<Double>
    decreases rows.len(),
{
    if rows.len() == 0 {
        Seq::empty()
    } else {
        let column = column_of(rows.drop_last(), field);
        match rows.last().delta.get(field) {
            Some(x) => column.push(x),
            None => column,
        }
    }
}

/// The differences in one field that the rows have.
fn column(rows: &Vec<CellDelta>, field: Field) -> (r: Vec<Double>)
    ensures
        r@ == column_of(delta_texts(rows@), field),
{
    let mut out: Vec<Double> = Vec::new();
    let mut i: usize = 0;
    while i < rows.len()
        invariant
            i <= rows@.len(),
            out@ == column_of(delta_texts(rows@.take(i as int)), field),
        decreases rows.len() - i,
    {
        proof {
            let all = delta_texts(rows@.take(i + 1));
            assert(all.drop_last() =~= delta_texts(rows@.take(i as int)));
            assert(all.last() == rows@[i as int]@);
        }
        match rows[i].delta.get(field) {
            Some(x) => {
                out.push(x);
            },
            None => {},
        }
        i = i + 1;
    }
    proof {
        assert(rows@.take(i as int) =~= rows@);
    }
    out
}

/// The deviation of each metric over some rows.
pub open spec fn deviations(rows: Seq<DeltaText>) -> MetricZ {
    MetricZ {
        cr: deviation_of(column_of(rows, Field::ConvergenceRate)),
        cp50: deviation_of(column_of(rows, Field::ConvergenceP50Secs)),
        cp99: deviation_of(column_of(rows, Field::ConvergenceP99Secs)),
        sa_p50: deviation_of(column_of(rows, Field::SettledAccuracyP50)),
        sa_p99: deviation_of(column_of(rows, Field::SettledAccuracyP99)),
        jmean: deviation_of(column_of(rows, Field::JitterMeanPerMin)),
        jp99: deviation_of(column_of(rows, Field::JitterP99PerMin)),
        rr: deviation_of(column_of(rows, Field::ReactionRate)),
        rp50: deviation_of(column_of(rows, Field::ReactionP50Secs)),
        rp99: deviation_of(column_of(rows, Field::ReactionP99Secs)),
    }
}

/// The deviation of each metric over some rows.
pub fn metric_z(rows: &Vec<CellDelta>) -> (r: MetricZ)
    ensures
        r == deviations(delta_texts(rows@)),
{
    MetricZ {
        cr: z_std(&column(rows, Field::ConvergenceRate)),
        cp50: z_std(&column(rows, Field::ConvergenceP50Secs)),
        cp99: z_std(&column(rows, Field::ConvergenceP99Secs)),
        sa_p50: z_std(&column(rows, Field::SettledAccuracyP50)),
        sa_p99: z_std(&column(rows, Field::SettledAccuracyP99)),
        jmean: z_std(&column(rows, Field::JitterMeanPerMin)),
        jp99: z_std(&column(rows, Field::JitterP99PerMin)),
        rr: z_std(&column(rows, Field::ReactionRate)),
        rp50: z_std(&column(rows, Field::ReactionP50Secs)),
        rp99: z_std(&column(rows, Field::ReactionP99Secs)),
    }
}

/// A row with its scores.
pub open spec fn scored(row: DeltaText, z: MetricZ) -> DeltaText {
    let tally = cell_score_z(row.kind, row.delta, z);
    DeltaText { score: tally.reg, beat_score: tally.beat, ..row }
}

/// Rows with their scores.
pub open spec fn scored_rows(rows: Seq<DeltaText>) -> Seq<DeltaText> {
    rows.map_values(|row: DeltaText| scored(row, deviations(rows)))
}

/// Scores all rows against the deviations of their metrics.
pub fn score_rows(rows: &mut Vec<CellDelta>)
    ensures
        delta_texts(final(rows)@) == scored_rows(delta_texts(old(rows)@)),
{
    let z = metric_z(rows);
    let n = rows.len();
    let mut i: usize = 0;
    let ghost was = rows@;
    while i < n
        invariant
            i <= n == rows@.len() == was.len(),
            z == deviations(delta_texts(was)),
            forall|j: int| 0 <= j < i ==> (#[trigger] rows@[j])@ == scored(was[j]@, z),
            forall|j: int| i <= j < n ==> #[trigger] rows@[j] == was[j],
        decreases n - i,
    {
        let tally = cell_score_z(rows[i].kind, rows[i].delta, z);
        let row = &mut rows[i];
        row.score = tally.reg;
        row.beat_score = tally.beat;
        i = i + 1;
    }
    proof {
        assert(delta_texts(rows@) =~= scored_rows(delta_texts(was)));
    }
}

} // verus!
