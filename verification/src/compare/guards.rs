use vstd::prelude::*;

use crate::compare::cells::Metrics;
use crate::float::double::Double;
use crate::float::numbers::{
    CENTI_1, CENTI_10, CENTI_2, CENTI_3, CENTI_5, CENTI_8, HUNDRED_TWENTY, MILLI_1, MILLI_2,
    MINUS_CENTI_1, MINUS_CENTI_3, MINUS_CENTI_5, SIXTY, ZERO,
};
use crate::text::{chars_of, contains, has_part, starts_with, texts};

verus! {

/// The kind of scenario that a cell measures.
#[derive(Clone, Copy, PartialEq, Eq, Structural, Debug)]
pub enum CellKind {
    ColdStart,
    Stable,
    Step,
    Other,
}

/// The kind that a scenario's name tells.
pub open spec fn kind_of(scenario: Seq<char>) -> CellKind {
    if "cold_start"@.is_prefix_of(scenario) {
        CellKind::ColdStart
    } else if "stable"@.is_prefix_of(scenario) {
        CellKind::Stable
    } else if "step_"@.is_prefix_of(scenario) {
        CellKind::Step
    } else {
        CellKind::Other
    }
}

/// Tells the kind of a scenario by its name.
pub fn cell_kind(scenario: &str) -> (r: CellKind)
    ensures
        r == kind_of(scenario@),
{
    let chars = chars_of(scenario);
    if starts_with(&chars, "cold_start") {
        CellKind::ColdStart
    } else if starts_with(&chars, "stable") {
        CellKind::Stable
    } else if starts_with(&chars, "step_") {
        CellKind::Step
    } else {
        CellKind::Other
    }
}

/// The cell steps the hashrate by half, up or down.
pub open spec fn steps_by_half(cell: Seq<char>) -> bool {
    has_part(cell, "step_minus_50"@) || has_part(cell, "step_plus_50"@)
}

/// Tells whether a cell steps the hashrate by half, up or down.
pub fn is_pm_50_step(cell: &str) -> (r: bool)
    ensures
        r == steps_by_half(cell@),
{
    let chars = chars_of(cell);
    contains(&chars, "step_minus_50") || contains(&chars, "step_plus_50")
}

/// The cell is one of few shares per minute.
pub open spec fn has_few_shares(cell: Seq<char>) -> bool {
    "spm_6."@.is_prefix_of(cell) || "spm_12."@.is_prefix_of(cell)
}

/// Tells whether a cell is one of few shares per minute.
pub fn is_low_spm(cell: &str) -> (r: bool)
    ensures
        r == has_few_shares(cell@),
{
    let chars = chars_of(cell);
    starts_with(&chars, "spm_6.") || starts_with(&chars, "spm_12.")
}

/// How a cell differs between two runs, and what is wrong with that.
#[derive(Debug)]
pub struct CellDelta {
    pub cell: String,
    pub kind: CellKind,
    pub delta: Metrics,
    pub score: Double,
    pub beat_score: Double,
    pub warns: Vec<String>,
    pub fails: Vec<String>,
}

/// What a row says.
pub ghost struct DeltaText {
    pub cell: Seq<char>,
    pub kind: CellKind,
    pub delta: Metrics,
    pub score: Double,
    pub beat_score: Double,
    pub warns: Seq<Seq<char>>,
    pub fails: Seq<Seq<char>>,
}

impl View for CellDelta {
    type V = DeltaText;

    open spec fn view(&self) -> DeltaText {
        DeltaText {
            cell: self.cell@,
            kind: self.kind,
            delta: self.delta,
            score: self.score,
            beat_score: self.beat_score,
            warns: texts(self.warns@),
            fails: texts(self.fails@),
        }
    }
}

pub open spec fn delta_texts(rows: Seq<CellDelta>) -> Seq<DeltaText> {
    rows.map_values(|r: CellDelta| r@)
}

/// A limit on a difference; the number is a bit pattern.
#[derive(Clone, Copy, PartialEq, Eq, Structural, Debug)]
pub enum Limit {
    /// Broken by what is below.
    Least(u64),
    /// Broken by what is above.
    Most(u64),
}

pub open spec fn spec_breaks(value: Option<Double>, limit: Limit) -> bool {
    match value {
        Some(x) => match limit {
            Limit::Least(bits) => x.lt(Double::from_bits(bits)),
            Limit::Most(bits) => x.gt(Double::from_bits(bits)),
        },
        None => false,
    }
}

/// Tells whether a difference breaks a limit. One that is not there, or is a NaN,
/// does not.
#[verifier::when_used_as_spec(spec_breaks)]
pub fn breaks(value: Option<Double>, limit: Limit) -> (r: bool)
    ensures
        r == breaks(value, limit),
{
    match value {
        Some(x) => match limit {
            Limit::Least(bits) => x.lt(Double::from_bits(bits)),
            Limit::Most(bits) => x.gt(Double::from_bits(bits)),
        },
        None => false,
    }
}

impl DeltaText {
    /// Failed with a message where a limit is broken.
    #[verifier::opaque]
    pub open spec fn fail(self, value: Option<Double>, limit: Limit, message: Seq<char>) -> DeltaText {
        if breaks(value, limit) {
            DeltaText { fails: self.fails.push(message), ..self }
        } else {
            self
        }
    }

    /// Warned of with a message where a limit is broken.
    #[verifier::opaque]
    pub open spec fn warn(self, value: Option<Double>, limit: Limit, message: Seq<char>) -> DeltaText {
        if breaks(value, limit) {
            DeltaText { warns: self.warns.push(message), ..self }
        } else {
            self
        }
    }

    /// The same cell with the same differences and scores.
    pub open spec fn same_cell(self, other: DeltaText) -> bool {
        &&& self.cell == other.cell
        &&& self.kind == other.kind
        &&& self.delta == other.delta
        &&& self.score == other.score
        &&& self.beat_score == other.beat_score
    }

    /// With the flags that the guards of its kind raise.
    pub open spec fn guarded(self) -> DeltaText {
        let d = self.delta;
        match self.kind {
            CellKind::ColdStart => self.fail(
                d.convergence_rate,
                Limit::Least(MINUS_CENTI_1),
                "cold: dCR < -0.01"@,
            ).fail(
                d.convergence_p50_secs,
                Limit::Most(SIXTY),
                "cold: dCP50s > +60"@,
            ).fail(
                d.convergence_p99_secs,
                Limit::Most(HUNDRED_TWENTY),
                "cold: dCP99s > +120"@,
            ).warn(
                d.settled_accuracy_p50,
                Limit::Most(CENTI_3),
                "cold: WARN dSA_p50 > +0.03"@,
            ).fail(
                d.settled_accuracy_p50,
                Limit::Most(CENTI_8),
                "cold: dSA_p50 > +0.08"@,
            ),
            CellKind::Stable => self.fail(
                d.settled_accuracy_p50,
                Limit::Most(CENTI_2),
                "stable: dSA_p50 > +0.02"@,
            ).fail(
                d.settled_accuracy_p99,
                Limit::Most(CENTI_5),
                "stable: dSA_p99 > +0.05"@,
            ).fail(
                d.jitter_mean_per_min,
                Limit::Most(MILLI_1),
                "stable: dJmean > +0.001"@,
            ).fail(
                d.jitter_p99_per_min,
                Limit::Most(CENTI_1),
                "stable: dJP99 > +0.01"@,
            ).warn(
                d.jitter_mean_per_min,
                Limit::Most(ZERO),
                "stable: jitter increase is suspicious"@,
            ),
            CellKind::Step => {
                let row = self.fail(
                    d.reaction_rate,
                    Limit::Least(MINUS_CENTI_5),
                    "step: dRR < -0.05"@,
                ).fail(
                    d.reaction_p50_secs,
                    Limit::Most(SIXTY),
                    "step: dRP50s > +60"@,
                ).fail(
                    d.reaction_p99_secs,
                    Limit::Most(HUNDRED_TWENTY),
                    "step: dRP99s > +120"@,
                ).fail(
                    d.settled_accuracy_p50,
                    Limit::Most(CENTI_5),
                    "step: dSA_p50 > +0.05"@,
                ).fail(
                    d.settled_accuracy_p99,
                    Limit::Most(CENTI_10),
                    "step: dSA_p99 > +0.10"@,
                ).fail(
                    d.jitter_mean_per_min,
                    Limit::Most(MILLI_2),
                    "step: dJmean > +0.002"@,
                ).fail(d.jitter_p99_per_min, Limit::Most(CENTI_2), "step: dJP99 > +0.02"@);
                if steps_by_half(self.cell) {
                    let row = row.fail(
                        d.reaction_rate,
                        Limit::Least(MINUS_CENTI_3),
                        "hard: ±50% step dRR < -0.03"@,
                    );
                    if has_few_shares(self.cell) {
                        row.fail(
                            d.settled_accuracy_p50,
                            Limit::Most(CENTI_10),
                            "hard: low-SPM ±50% step dSA_p50 > +0.10"@,
                        )
                    } else {
                        row
                    }
                } else {
                    row
                }
            },
            CellKind::Other => self,
        }
    }
}

/// A difference breaks a limit that the guards fail a cell for.
pub open spec fn broken(kind: CellKind, d: Metrics, cell: Seq<char>) -> bool {
    match kind {
        CellKind::ColdStart => {
            ||| breaks(d.convergence_rate, Limit::Least(MINUS_CENTI_1))
            ||| breaks(d.convergence_p50_secs, Limit::Most(SIXTY))
            ||| breaks(d.convergence_p99_secs, Limit::Most(HUNDRED_TWENTY))
            ||| breaks(d.settled_accuracy_p50, Limit::Most(CENTI_8))
        },
        CellKind::Stable => {
            ||| breaks(d.settled_accuracy_p50, Limit::Most(CENTI_2))
            ||| breaks(d.settled_accuracy_p99, Limit::Most(CENTI_5))
            ||| breaks(d.jitter_mean_per_min, Limit::Most(MILLI_1))
            ||| breaks(d.jitter_p99_per_min, Limit::Most(CENTI_1))
        },
        CellKind::Step => {
            ||| breaks(d.reaction_rate, Limit::Least(MINUS_CENTI_5))
            ||| breaks(d.reaction_p50_secs, Limit::Most(SIXTY))
            ||| breaks(d.reaction_p99_secs, Limit::Most(HUNDRED_TWENTY))
            ||| breaks(d.settled_accuracy_p50, Limit::Most(CENTI_5))
            ||| breaks(d.settled_accuracy_p99, Limit::Most(CENTI_10))
            ||| breaks(d.jitter_mean_per_min, Limit::Most(MILLI_2))
            ||| breaks(d.jitter_p99_per_min, Limit::Most(CENTI_2))
            ||| steps_by_half(cell) && breaks(d.reaction_rate, Limit::Least(MINUS_CENTI_3))
        },
        CellKind::Other => false,
    }
}

/// A failure adds at most one message, and changes nothing else.
broadcast proof fn lemma_fail(d: DeltaText, value: Option<Double>, limit: Limit, message: Seq<char>)
    ensures
        (#[trigger] d.fail(value, limit, message)).fails.len() == d.fails.len() + if breaks(
            value,
            limit,
        ) {
            1int
        } else {
            0
        },
        d.fail(value, limit, message).same_cell(d),
{
    reveal(DeltaText::fail);
}

/// A warning changes nothing else.
broadcast proof fn lemma_warn(d: DeltaText, value: Option<Double>, limit: Limit, message: Seq<char>)
    ensures
        (#[trigger] d.warn(value, limit, message)).fails == d.fails,
        d.warn(value, limit, message).same_cell(d),
{
    reveal(DeltaText::warn);
}

/// The guards fail a cell exactly where a difference breaks one of the limits of
/// its kind, and they change nothing but its flags.
pub proof fn lemma_guards_fail_what_is_broken(d: DeltaText)
    ensures
        d.guarded().fails.len() > d.fails.len() <==> broken(d.kind, d.delta, d.cell),
        d.guarded().fails.len() >= d.fails.len(),
        d.guarded().same_cell(d),
{
    broadcast use {lemma_fail, lemma_warn};

}

/// Fails a cell where a limit is broken.
fn fail_if(d: &mut CellDelta, value: Option<Double>, limit: Limit, message: &str)
    ensures
        final(d)@ == old(d)@.fail(value, limit, message@),
        final(d).cell == old(d).cell,
{
    reveal(DeltaText::fail);
    if breaks(value, limit) {
        d.fails.push(message.to_owned());
        proof {
            assert(texts(d.fails@) =~= texts(old(d).fails@).push(message@));
        }
    }
}

/// Warns of a cell where a limit is broken.
fn warn_if(d: &mut CellDelta, value: Option<Double>, limit: Limit, message: &str)
    ensures
        final(d)@ == old(d)@.warn(value, limit, message@),
        final(d).cell == old(d).cell,
{
    reveal(DeltaText::warn);
    if breaks(value, limit) {
        d.warns.push(message.to_owned());
        proof {
            assert(texts(d.warns@) =~= texts(old(d).warns@).push(message@));
        }
    }
}

/// Applies the guards of its kind to a cell.
pub fn apply_guards(d: &mut CellDelta)
    ensures
        final(d)@ == old(d)@.guarded(),
{
    let m = d.delta;
    match d.kind {
        CellKind::ColdStart => {
            fail_if(d, m.convergence_rate, Limit::Least(MINUS_CENTI_1), "cold: dCR < -0.01");
            fail_if(d, m.convergence_p50_secs, Limit::Most(SIXTY), "cold: dCP50s > +60");
            fail_if(d, m.convergence_p99_secs, Limit::Most(HUNDRED_TWENTY), "cold: dCP99s > +120");
            warn_if(
                d,
                m.settled_accuracy_p50,
                Limit::Most(CENTI_3),
                "cold: WARN dSA_p50 > +0.03",
            );
            fail_if(d, m.settled_accuracy_p50, Limit::Most(CENTI_8), "cold: dSA_p50 > +0.08");
        },
        CellKind::Stable => {
            fail_if(d, m.settled_accuracy_p50, Limit::Most(CENTI_2), "stable: dSA_p50 > +0.02");
            fail_if(d, m.settled_accuracy_p99, Limit::Most(CENTI_5), "stable: dSA_p99 > +0.05");
            fail_if(d, m.jitter_mean_per_min, Limit::Most(MILLI_1), "stable: dJmean > +0.001");
            fail_if(d, m.jitter_p99_per_min, Limit::Most(CENTI_1), "stable: dJP99 > +0.01");
            warn_if(
                d,
                m.jitter_mean_per_min,
                Limit::Most(ZERO),
                "stable: jitter increase is suspicious",
            );
        },
        CellKind::Step => {
            fail_if(d, m.reaction_rate, Limit::Least(MINUS_CENTI_5), "step: dRR < -0.05");
            fail_if(d, m.reaction_p50_secs, Limit::Most(SIXTY), "step: dRP50s > +60");
            fail_if(d, m.reaction_p99_secs, Limit::Most(HUNDRED_TWENTY), "step: dRP99s > +120");
            fail_if(d, m.settled_accuracy_p50, Limit::Most(CENTI_5), "step: dSA_p50 > +0.05");
            fail_if(d, m.settled_accuracy_p99, Limit::Most(CENTI_10), "step: dSA_p99 > +0.10");
            fail_if(d, m.jitter_mean_per_min, Limit::Most(MILLI_2), "step: dJmean > +0.002");
            fail_if(d, m.jitter_p99_per_min, Limit::Most(CENTI_2), "step: dJP99 > +0.02");
            if is_pm_50_step(d.cell.as_str()) {
                fail_if(
                    d,
                    m.reaction_rate,
                    Limit::Least(MINUS_CENTI_3),
                    "hard: ±50% step dRR < -0.03",
                );
                if is_low_spm(d.cell.as_str()) {
                    fail_if(
                        d,
                        m.settled_accuracy_p50,
                        Limit::Most(CENTI_10),
                        "hard: low-SPM ±50% step dSA_p50 > +0.10",
                    );
                }
            }
        },
        CellKind::Other => {},
    }
}

} // verus!
