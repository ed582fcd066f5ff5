//! The guard around a proving step: a prover that panics is restored and tried
//! again, a few times.

use vstd::prelude::*;

verus! {

/// Why a run stopped.
#[derive(Clone, Copy, Debug, PartialEq, Eq, Structural)]
pub enum RunFailure {
    /// The backend returned an error.
    Backend,
    /// A digest from the prover is not the expected one.
    Diverged,
    /// The decider proof did not verify.
    Rejected,
    /// What was reported is not what was asked for.
    OutOfOrder,
}

/// Attempts before a step is given up.
pub const MAX_ATTEMPTS: usize = 4;

/// How one attempt at a proving step ended.
#[derive(Clone, Copy, Debug, PartialEq, Eq, Structural)]
pub enum Attempt {
    Proved,
    /// The prover returned an error.
    Refused,
    /// The prover panicked.
    Panicked,
}

/// What follows an attempt.
#[derive(Clone, Copy, Debug, PartialEq, Eq, Structural)]
pub enum Verdict {
    /// The step is proved, after this many attempts that panicked.
    Done { retries: usize },
    /// Pass the prover's error on.
    PassOn,
    /// Restore the accumulator and make the attempt with this number.
    Retry { attempt: usize },
    /// Restore the accumulator and report that the prover kept panicking.
    GiveUp,
}

/// What follows attempt number `attempt`, counted from zero.
pub open spec fn verdict_on(attempt: usize, outcome: Attempt) -> Verdict {
    match outcome {
        Attempt::Proved => Verdict::Done { retries: attempt },
        Attempt::Refused => Verdict::PassOn,
        Attempt::Panicked => if attempt + 1 < MAX_ATTEMPTS {
            Verdict::Retry { attempt: (attempt + 1) as usize }
        } else {
            Verdict::GiveUp
        },
    }
}

/// What follows attempt number `attempt`, counted from zero: only a panic is
/// tried again, and never more than [`MAX_ATTEMPTS`] attempts are made.
pub fn prove_step_with_retry(attempt: usize, outcome: Attempt) -> (verdict: Verdict)
    requires
        attempt < MAX_ATTEMPTS,
    ensures
        verdict == verdict_on(attempt, outcome),
        verdict matches Verdict::Done { retries } ==> retries < MAX_ATTEMPTS,
{
    match outcome {
        Attempt::Proved => Verdict::Done { retries: attempt },
        Attempt::Refused => Verdict::PassOn,
        Attempt::Panicked => {
            if attempt + 1 < MAX_ATTEMPTS {
                Verdict::Retry { attempt: attempt + 1 }
            } else {
                Verdict::GiveUp
            }
        },
    }
}

/// Where a step ends whose attempts, from number `attempt` on, have the given
/// outcomes.
pub open spec fn end_of_step(outcomes: Seq<Attempt>, attempt: usize) -> Verdict
    decreases MAX_ATTEMPTS - attempt,
{
    match verdict_on(attempt, outcomes[attempt as int]) {
        Verdict::Retry { attempt: next } => if attempt < next {
            end_of_step(outcomes, next)
        } else {
            Verdict::GiveUp
        },
        verdict => verdict,
    }
}

/// Panics are tried again until an attempt ends otherwise: that one decides,
/// and the panics before it are counted. A step that panics every time is given
/// up.
pub proof fn lemma_panics_are_retried(outcomes: Seq<Attempt>, panics: usize, from: usize)
    requires
        from <= panics <= MAX_ATTEMPTS <= outcomes.len(),
        from < MAX_ATTEMPTS,
        forall|i: int| from <= i < panics ==> outcomes[i] == Attempt::Panicked,
        panics < MAX_ATTEMPTS ==> outcomes[panics as int] != Attempt::Panicked,
    ensures
        end_of_step(outcomes, from) == (if panics == MAX_ATTEMPTS {
            Verdict::GiveUp
        } else if outcomes[panics as int] == Attempt::Proved {
            Verdict::Done { retries: panics }
        } else {
            Verdict::PassOn
        }),
    decreases panics - from,
{
    if from < panics && from + 1 < MAX_ATTEMPTS {
        lemma_panics_are_retried(outcomes, panics, (from + 1) as usize);
    }
}

} // verus!
