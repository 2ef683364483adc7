//! The order of the runtime's work: the phases one step tries, first to
//! last, until one makes progress, and the bound on the steps that
//! reconciliation takes before the composition must be quiet.

use vstd::prelude::*;
use crate::error::Error;

verus! {

/// The kinds of work one step tries, in the order it tries them.
#[derive(Clone, Copy, Debug, PartialEq, Eq, Structural)]
pub enum StepPhase {
    /// Commit events the journal took but the event stream has not.
    RetryOutbox,
    /// Take the next pending event.
    PendingEvent,
    /// Take the next pending composition patch.
    PendingPatch,
    /// Send one fiber whose providers changed to unloading.
    Refresh,
    /// Undo one effect of an unloading fiber, or settle it.
    Recover,
    /// Advance one activating fiber.
    Advance,
    /// Remove one retired, inactive fiber.
    Remove,
    /// Begin one activation.
    Begin,
}

/// The position of a phase in a step.
pub open spec fn phase_rank(p: StepPhase) -> nat {
    match p {
        StepPhase::RetryOutbox => 0,
        StepPhase::PendingEvent => 1,
        StepPhase::PendingPatch => 2,
        StepPhase::Refresh => 3,
        StepPhase::Recover => 4,
        StepPhase::Advance => 5,
        StepPhase::Remove => 6,
        StepPhase::Begin => 7,
    }
}

/// What a step does after a phase.
#[derive(Clone, Copy, Debug, PartialEq, Eq, Structural)]
pub enum StepAction {
    /// Run this phase next.
    Run(StepPhase),
    /// The phase made progress: the step ends, having done something.
    Progressed,
    /// No phase made progress: the step ends with nothing done.
    Quiet,
}

/// The phase every step starts with.
pub fn first_phase() -> (r: StepPhase)
    ensures
        phase_rank(r) == 0,
{
    StepPhase::RetryOutbox
}

/// What a step does once `phase` ran and did, or did not, make
/// `progress`: it ends at the first phase that makes progress, and
/// otherwise runs the phase after, until none is left.
pub fn after_phase(phase: StepPhase, progress: bool) -> (r: StepAction)
    ensures
        progress ==> r == StepAction::Progressed,
        !progress && phase_rank(phase) == 7 ==> r == StepAction::Quiet,
        !progress && phase_rank(phase) < 7 ==> (r matches StepAction::Run(next) && phase_rank(next) == phase_rank(phase) + 1),
{
    if progress {
        return StepAction::Progressed;
    }
    match phase {
        StepPhase::RetryOutbox => StepAction::Run(StepPhase::PendingEvent),
        StepPhase::PendingEvent => StepAction::Run(StepPhase::PendingPatch),
        StepPhase::PendingPatch => StepAction::Run(StepPhase::Refresh),
        StepPhase::Refresh => StepAction::Run(StepPhase::Recover),
        StepPhase::Recover => StepAction::Run(StepPhase::Advance),
        StepPhase::Advance => StepAction::Run(StepPhase::Remove),
        StepPhase::Remove => StepAction::Run(StepPhase::Begin),
        StepPhase::Begin => StepAction::Quiet,
    }
}

/// Each phase has its own position, so a step runs each phase at most once.
pub proof fn lemma_phase_rank_distinct(a: StepPhase, b: StepPhase)
    ensures
        phase_rank(a) == phase_rank(b) ==> a == b,
{
}

/// What reconciliation does next.
#[derive(Clone, Debug, PartialEq, Eq)]
pub enum Reconcile {
    /// Take another step.
    Step,
    /// The last step did nothing: the composition is quiet.
    Quiescent,
    /// The bound was reached with work still being done.
    Exceeded(Error),
}

/// What reconciliation does after `taken` steps that each made progress,
/// the last of which did nothing where `quiet`, under the bound `limit`:
/// it stops once a step does nothing, and fails once `limit` steps made
/// progress.
pub fn reconcile_next(taken: usize, limit: usize, quiet: bool) -> (r: Reconcile)
    ensures
        quiet ==> r == Reconcile::Quiescent,
        !quiet && taken < limit ==> r == Reconcile::Step,
        !quiet && taken >= limit ==> r == Reconcile::Exceeded(Error::ReconciliationLimit(limit)),
{
    if quiet {
        Reconcile::Quiescent
    } else if taken < limit {
        Reconcile::Step
    } else {
        Reconcile::Exceeded(Error::ReconciliationLimit(limit))
    }
}

} // verus!
