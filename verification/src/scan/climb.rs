use vstd::prelude::*;

use crate::float::double::Double;
use crate::float::numbers::{FIVE, HALF, MICRO_100, ONE};
use crate::scan::params::{SearchBounds, TuneParams};
use crate::scan::results::MetricsSummary;
use crate::scan::rng::{NORMALISH_DRAWS, SplitMix64};
use crate::scan::score::ScoreBreakdown;

verus! {

/// 1.08, what a step grows by after a success
pub const STEP_GROWTH: u64 = 0x3ff1_47ae_147a_e148;

pub const DEFAULT_MAX_EVALS: usize = 5000;

pub const DEFAULT_RESTART_COUNT: usize = 6;

pub const DEFAULT_PATIENCE: usize = 60;

/// What is known of some parameters once they have been tried.
#[derive(Clone, Copy, PartialEq, Eq, Structural, Debug)]
pub struct Evaluation {
    pub summary: MetricsSummary,
    pub breakdown: ScoreBreakdown,
}

impl Evaluation {
    pub open spec fn spec_score(self) -> Double {
        let b = self.breakdown;
        b.reg.minus(b.beat.over(Double::from_bits(ONE).plus(b.reg)))
    }

    /// The score that is to be low: what was lost, less what was won, which counts
    /// the less the more was lost.
    #[verifier::when_used_as_spec(spec_score)]
    pub fn score(self) -> (r: Double)
        ensures
            r == self.score(),
    {
        let b = self.breakdown;
        b.reg.minus(b.beat.over(Double::from_bits(ONE).plus(b.reg)))
    }
}

/// Some parameters with their score.
#[derive(Clone, Copy, PartialEq, Eq, Structural, Debug)]
pub struct Candidate {
    pub score: Double,
    pub params: TuneParams,
    pub evaluation: Evaluation,
}

/// What a search is given.
#[derive(Clone, Copy, Debug)]
pub struct Settings {
    pub max_evals: usize,
    pub restart_count: usize,
    pub patience: usize,
    pub initial_step: Double,
    pub min_step: Double,
    pub max_step: Double,
    pub bounds: SearchBounds,
    /// What the first climb starts from.
    pub first: TuneParams,
}

pub open spec fn spec_at_least_one(n: usize) -> usize {
    if n == 0 {
        1
    } else {
        n
    }
}

/// A count, or one where it is zero.
#[verifier::when_used_as_spec(spec_at_least_one)]
pub fn at_least_one(n: usize) -> (r: usize)
    ensures
        r == at_least_one(n),
{
    if n == 0 {
        1
    } else {
        n
    }
}

impl Settings {
    pub open spec fn wf(self) -> bool {
        &&& self.max_evals > 0
        &&& self.restart_count > 0
        &&& self.patience > 0
        &&& self.max_evals > 1 ==> self.bounds.wf()
    }

    pub open spec fn spec_standard(first: TuneParams) -> Settings {
        Settings {
            max_evals: DEFAULT_MAX_EVALS,
            restart_count: DEFAULT_RESTART_COUNT,
            patience: DEFAULT_PATIENCE,
            initial_step: Double::from_bits(ONE),
            min_step: Double::from_bits(MICRO_100),
            max_step: Double::from_bits(FIVE),
            bounds: SearchBounds::standard(),
            first,
        }
    }

    /// What a search is given where nothing else is asked for.
    #[verifier::when_used_as_spec(spec_standard)]
    pub fn standard(first: TuneParams) -> (r: Settings)
        ensures
            r == Self::standard(first),
            r.wf(),
    {
        Settings {
            max_evals: DEFAULT_MAX_EVALS,
            restart_count: DEFAULT_RESTART_COUNT,
            patience: DEFAULT_PATIENCE,
            initial_step: Double::from_bits(ONE),
            min_step: Double::from_bits(MICRO_100),
            max_step: Double::from_bits(FIVE),
            bounds: SearchBounds::standard(),
            first,
        }
    }

    /// How many evaluations a climb gets after its first one.
    pub open spec fn spec_evals_per_restart(self) -> usize {
        at_least_one((self.max_evals as int / self.restart_count as int) as usize)
    }

    /// How many evaluations a climb gets after its first one.
    #[verifier::when_used_as_spec(spec_evals_per_restart)]
    pub fn evals_per_restart(self) -> (r: usize)
        requires
            self.wf(),
        ensures
            r == self.evals_per_restart(),
    {
        at_least_one(self.max_evals / self.restart_count)
    }

    /// Up to how many evaluations a climb goes that has just had its first one.
    pub open spec fn limit_after(self, evals: usize) -> usize {
        if evals + self.evals_per_restart() < self.max_evals {
            (evals + self.evals_per_restart()) as usize
        } else {
            self.max_evals
        }
    }
}

/// Where a search stands.
#[derive(Clone, Copy, PartialEq, Eq, Structural, Debug)]
pub enum Stage {
    /// A climb is to start.
    Starting,
    /// A climb goes on from these parameters.
    Climbing(Candidate),
    /// The search is over.
    Finished,
}

/// What an evaluation meant for a search.
#[derive(Clone, Copy, PartialEq, Eq, Structural, Debug)]
pub enum Outcome {
    /// It is not the best.
    Ordinary,
    /// It is the best, and the start of a climb.
    BestStart,
    /// It is the best, found by a climb that goes on with this step.
    BestStep(Double),
}

/// A hill climb that starts over at random some times.
///
/// `propose` names the parameters that are to be tried next, and `record` takes
/// what came of them.
#[derive(Clone, Copy, Debug)]
pub struct Climb {
    pub settings: Settings,
    pub rng: SplitMix64,
    /// How many climbs are behind.
    pub restart: usize,
    /// How many parameters have been tried.
    pub evals: usize,
    pub stage: Stage,
    /// How far the next proposal may go.
    pub step: Double,
    /// How many proposals in a row have been no better.
    pub misses: usize,
    /// Up to how many evaluations this climb goes.
    pub limit: usize,
    /// The parameters that are being tried.
    pub pending: Option<TuneParams>,
    pub best: Option<Candidate>,
}

impl Climb {
    pub open spec fn wf(self) -> bool {
        &&& self.settings.wf()
        &&& self.evals <= self.settings.max_evals
        &&& self.restart <= self.settings.restart_count
        &&& self.misses < self.settings.patience
        &&& self.limit <= self.settings.max_evals
        &&& self.pending is Some ==> self.evals < self.settings.max_evals && !(
        self.stage is Finished)
        &&& !(self.stage is Finished) ==> self.restart < self.settings.restart_count
            || self.pending is None
        &&& self.stage is Climbing ==> self.best is Some && self.restart
            < self.settings.restart_count
        &&& self.best is Some <==> self.evals > 0
    }

    /// A search that is about to start.
    pub open spec fn fresh(settings: Settings, seed: u64) -> Climb {
        Climb {
            settings,
            rng: SplitMix64 { state: seed },
            restart: 0,
            evals: 0,
            stage: Stage::Starting,
            step: settings.initial_step,
            misses: 0,
            limit: 0,
            pending: None,
            best: None,
        }
    }

    /// A search that is about to start.
    pub fn new(settings: Settings, seed: u64) -> (r: Climb)
        requires
            settings.wf(),
        ensures
            r == Climb::fresh(settings, seed),
            r.wf(),
    {
        Climb {
            settings,
            rng: SplitMix64::new(seed),
            restart: 0,
            evals: 0,
            stage: Stage::Starting,
            step: settings.initial_step,
            misses: 0,
            limit: 0,
            pending: None,
            best: None,
        }
    }

    /// With a climb to start, or over.
    pub open spec fn started(self) -> Climb {
        if self.restart >= self.settings.restart_count || self.evals >= self.settings.max_evals {
            Climb { stage: Stage::Finished, pending: None, ..self }
        } else if self.restart == 0 {
            Climb { stage: Stage::Starting, pending: Some(self.settings.first), ..self }
        } else {
            Climb {
                stage: Stage::Starting,
                rng: self.rng.after_draws(4),
                pending: Some(self.settings.bounds.random(self.rng)),
                ..self
            }
        }
    }

    /// With the parameters named that are to be tried next, or over.
    pub open spec fn proposed(self) -> Climb {
        match self.stage {
            Stage::Starting => self.started(),
            Stage::Climbing(current) => if self.evals < self.limit {
                Climb {
                    rng: self.rng.after_draws(4 * NORMALISH_DRAWS as nat),
                    pending: Some(
                        self.settings.bounds.perturbed(current.params, self.step, self.rng),
                    ),
                    ..self
                }
            } else {
                Climb { restart: (self.restart + 1) as usize, ..self }.started()
            },
            Stage::Finished => self,
        }
    }

    /// Names the parameters that the next climb starts from, if there is one.
    fn start(&mut self)
        requires
            old(self).settings.wf(),
        ensures
            *final(self) == old(self).started(),
    {
        if self.restart >= self.settings.restart_count || self.evals >= self.settings.max_evals {
            self.stage = Stage::Finished;
            self.pending = None;
        } else {
            let params = if self.restart == 0 {
                self.settings.first
            } else {
                self.settings.bounds.random_candidate(&mut self.rng)
            };
            self.stage = Stage::Starting;
            self.pending = Some(params);
        }
    }

    /// Names the parameters that are to be tried next; none where the search is
    /// over.
    pub fn propose(&mut self) -> (r: Option<TuneParams>)
        requires
            old(self).wf(),
            old(self).pending is None,
        ensures
            *final(self) == old(self).proposed(),
            r == final(self).pending,
            r is None <==> final(self).stage is Finished,
            final(self).wf(),
    {
        match self.stage {
            Stage::Starting => {
                self.start();
            },
            Stage::Climbing(current) => {
                if self.evals < self.limit {
                    let proposal = self.settings.bounds.perturb(
                        current.params,
                        self.step,
                        &mut self.rng,
                    );
                    self.pending = Some(proposal);
                } else {
                    self.restart = self.restart + 1;
                    self.start();
                }
            },
            Stage::Finished => {},
        }
        self.pending
    }

    pub open spec fn is_best(best: Option<Candidate>, score: Double) -> bool {
        match best {
            Some(b) => score.lt(b.score),
            None => true,
        }
    }

    /// With what came of the parameters that were tried, and what that means.
    pub open spec fn recorded(self, evaluation: Evaluation) -> (Climb, Outcome) {
        let score = evaluation.score();
        let tried = Candidate { score, params: self.pending->0, evaluation };
        let evals = (self.evals + 1) as usize;
        let best = if Self::is_best(self.best, score) {
            Some(tried)
        } else {
            self.best
        };
        let next = Climb { evals, pending: None, ..self };
        match self.stage {
            Stage::Climbing(current) => if score.lt(current.score) {
                let step = self.step.times(Double::from_bits(STEP_GROWTH)).min(
                    self.settings.max_step,
                );
                (
                    Climb { stage: Stage::Climbing(tried), misses: 0, step, best, ..next },
                    if Self::is_best(self.best, score) {
                        Outcome::BestStep(step)
                    } else {
                        Outcome::Ordinary
                    },
                )
            } else if self.misses + 1 < self.settings.patience {
                (Climb { misses: (self.misses + 1) as usize, ..next }, Outcome::Ordinary)
            } else {
                let step = self.step.times(Double::from_bits(HALF));
                if step.lt(self.settings.min_step) {
                    (
                        Climb {
                            stage: Stage::Starting,
                            restart: (self.restart + 1) as usize,
                            misses: 0,
                            step,
                            ..next
                        },
                        Outcome::Ordinary,
                    )
                } else {
                    (Climb { misses: 0, step, ..next }, Outcome::Ordinary)
                }
            },
            _ => (
                Climb {
                    stage: Stage::Climbing(tried),
                    step: self.settings.initial_step,
                    misses: 0,
                    limit: self.settings.limit_after(evals),
                    best,
                    ..next
                },
                if Self::is_best(self.best, score) {
                    Outcome::BestStart
                } else {
                    Outcome::Ordinary
                },
            ),
        }
    }

    /// Tells whether a score is better than the best.
    fn beats(best: Option<Candidate>, score: Double) -> (r: bool)
        ensures
            r == Self::is_best(best, score),
    {
        match best {
            Some(b) => score.lt(b.score),
            None => true,
        }
    }

    /// Takes what came of the parameters that were tried.
    pub fn record(&mut self, evaluation: Evaluation) -> (r: Outcome)
        requires
            old(self).wf(),
            old(self).pending is Some,
        ensures
            (*final(self), r) == old(self).recorded(evaluation),
            final(self).wf(),
            final(self).pending is None,
            final(self).evals == old(self).evals + 1,
    {
        let params = match self.pending {
            Some(params) => params,
            None => self.settings.first,
        };
        let score = evaluation.score();
        let tried = Candidate { score, params, evaluation };
        let best = Self::beats(self.best, score);
        self.evals = self.evals + 1;
        self.pending = None;
        match self.stage {
            Stage::Climbing(current) => {
                if score.lt(current.score) {
                    self.stage = Stage::Climbing(tried);
                    self.misses = 0;
                    self.step = self.step.times(Double::from_bits(STEP_GROWTH)).min(
                        self.settings.max_step,
                    );
                    if best {
                        self.best = Some(tried);
                        return Outcome::BestStep(self.step);
                    }
                } else {
                    self.misses = self.misses + 1;
                    if self.misses >= self.settings.patience {
                        self.step = self.step.times(Double::from_bits(HALF));
                        self.misses = 0;
                        if self.step.lt(self.settings.min_step) {
                            self.restart = self.restart + 1;
                            self.stage = Stage::Starting;
                        }
                    }
                }
                Outcome::Ordinary
            },
            _ => {
                self.stage = Stage::Climbing(tried);
                self.step = self.settings.initial_step;
                self.misses = 0;
                let per_restart = self.settings.evals_per_restart();
                self.limit = if per_restart < self.settings.max_evals - self.evals {
                    self.evals + per_restart
                } else {
                    self.settings.max_evals
                };
                if best {
                    self.best = Some(tried);
                    Outcome::BestStart
                } else {
                    Outcome::Ordinary
                }
            },
        }
    }
}

/// A search first tries the parameters that it was given.
pub proof fn lemma_search_starts_from_the_first(settings: Settings, seed: u64)
    requires
        settings.wf(),
    ensures
        Climb::fresh(settings, seed).proposed().pending == Some(settings.first),
{
}

/// A search is over once it has tried as many parameters as it may.
pub proof fn lemma_search_ends(climb: Climb)
    requires
        climb.wf(),
        climb.pending is None,
        climb.evals == climb.settings.max_evals,
    ensures
        climb.proposed().stage is Finished,
{
}

/// The best parameters never get worse: an evaluation leaves them as they are or
/// beats them.
pub proof fn lemma_best_only_improves(climb: Climb, evaluation: Evaluation)
    requires
        climb.best is Some,
    ensures
        ({
            let next = climb.recorded(evaluation).0;
            next.best == climb.best || next.best->0.score.lt(climb.best->0.score)
        }),
{
}

/// The climb is never below the best.
pub open spec fn best_is_lowest(climb: Climb) -> bool {
    match climb.stage {
        Stage::Climbing(current) => climb.best is Some && climb.best->0.score.le(current.score),
        _ => climb.best matches Some(b) ==> !b.score.is_nan(),
    }
}

/// While scores are numbers, nothing that was tried is better than the best.
pub proof fn lemma_nothing_beats_the_best(climb: Climb, evaluation: Evaluation)
    requires
        climb.wf(),
        climb.pending is Some,
        best_is_lowest(climb),
        !evaluation.score().is_nan(),
    ensures
        ({
            let next = climb.recorded(evaluation).0;
            &&& best_is_lowest(next)
            &&& next.best is Some
            &&& next.best->0.score.le(evaluation.score())
        }),
{
}

/// Naming parameters to try keeps the best ones.
pub proof fn lemma_proposing_keeps_the_best(climb: Climb)
    requires
        best_is_lowest(climb),
    ensures
        best_is_lowest(climb.proposed()),
        climb.proposed().best == climb.best,
        climb.proposed().evals == climb.evals,
{
}

} // verus!
