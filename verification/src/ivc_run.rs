//! An IVC run: setup, the steps, verification with the cross-check of the final
//! state, and the optional compression into a final proof.

use crate::bench_common::{Duration, IvcReport, MAX_NANOS};
use vstd::prelude::*;

verus! {

/// Why a run stopped.
#[derive(Clone, Copy, Debug, PartialEq, Eq, Structural)]
pub enum IvcFailure {
    /// The backend returned an error.
    Backend,
    /// The final state differs from the expected one, first at this element.
    Diverged { at: usize },
    /// The final proof did not verify, or showed another state.
    Rejected,
    /// What was reported is not what was asked for.
    OutOfOrder,
}

#[derive(Clone, Copy, Debug, PartialEq, Eq, Structural)]
pub enum IvcPhase {
    Setup,
    Steps,
    Verify,
    Finalize,
    Finished,
    Failed(IvcFailure),
}

/// What the prover is to do next.
#[derive(Clone, Copy, Debug, PartialEq, Eq, Structural)]
pub enum IvcAction {
    /// Make the parameters, and the compression keys where `with_keys` says
    /// so, measuring from a reset peak; reset the peak again afterwards.
    Setup { with_keys: bool },
    /// Prove the step with this number. All but the first continue a proof.
    ProveStep { step: usize, recursing: bool },
    /// Verify the proof of all steps.
    Verify,
    /// Make and verify the final proof, measuring from a reset peak.
    Finalize,
    /// Nothing: the run is over.
    Stop,
}

/// What the prover did.
pub enum IvcEvent {
    SetUp { time: Duration, peak: Option<usize> },
    Stepped { time: Duration, peak: Option<usize> },
    /// The proof verified and shows this final state.
    Verified { time: Duration, state: Vec<u128> },
    Finalized { time: Duration, peak: Option<usize>, accepted: bool, verify_time: Duration },
    Error,
}

/// First place where two rows differ, or where the shorter one ends.
pub open spec fn differs_at(a: Seq<u128>, b: Seq<u128>, at: int) -> bool {
    &&& a != b
    &&& 0 <= at <= a.len()
    &&& at <= b.len()
    &&& forall|i: int| 0 <= i < at ==> a[i] == b[i]
    &&& at == a.len() || at == b.len() || a[at] != b[at]
}

/// Where two rows first differ; nothing if they are equal.
fn first_difference(a: &Vec<u128>, b: &Vec<u128>) -> (at: Option<usize>)
    ensures
        at is None <==> a@ == b@,
        at matches Some(i) ==> differs_at(a@, b@, i as int),
{
    let n: usize = if a.len() < b.len() {
        a.len()
    } else {
        b.len()
    };
    for i in 0..n
        invariant
            n <= a@.len(),
            n <= b@.len(),
            forall|k: int| 0 <= k < i ==> a@[k] == b@[k],
    {
        if a[i] != b[i] {
            return Some(i);
        }
    }
    if a.len() == b.len() {
        assert(a@ =~= b@);
        None
    } else {
        Some(n)
    }
}

/// A run of `n_steps` steps that is expected to end in the state `expected`.
pub struct IvcRun {
    pub n_steps: usize,
    /// Whether the final proof is made.
    pub finalize: bool,
    pub expected: Vec<u128>,
    pub phase: IvcPhase,
    pub setup_time: Duration,
    pub setup_peak_mem: Option<usize>,
    pub step_times: Vec<Duration>,
    pub steps_peak_mem: Option<usize>,
    pub verify_time: Duration,
    pub finalize_time: Option<Duration>,
    pub finalize_peak_mem: Option<usize>,
    /// The final state that the verified proof showed is the expected one.
    pub checked: bool,
}

impl IvcRun {
    pub open spec fn wf(self) -> bool {
        &&& 1 <= self.n_steps
        &&& self.step_times@.len() <= self.n_steps
        &&& match self.phase {
            IvcPhase::Setup => self.step_times@.len() == 0 && !self.checked,
            IvcPhase::Steps => self.step_times@.len() < self.n_steps && !self.checked,
            IvcPhase::Verify => self.step_times@.len() == self.n_steps && !self.checked,
            IvcPhase::Finalize => self.step_times@.len() == self.n_steps && self.finalize
                && self.checked,
            IvcPhase::Finished => self.step_times@.len() == self.n_steps && self.checked && (
            self.finalize == (self.finalize_time is Some)),
            IvcPhase::Failed(_) => true,
        }
        &&& !(self.phase is Finished) ==> self.finalize_time is None && self.finalize_peak_mem
            is None
        &&& !self.finalize ==> self.finalize_time is None && self.finalize_peak_mem is None
    }

    /// Events that the run still waits for before it is finished.
    pub open spec fn remaining(self) -> int {
        let last: int = if self.finalize {
            1
        } else {
            0
        };
        match self.phase {
            IvcPhase::Setup => self.n_steps + 2 + last,
            IvcPhase::Steps => self.n_steps - self.step_times@.len() + 1 + last,
            IvcPhase::Verify => 1 + last,
            IvcPhase::Finalize => 1,
            IvcPhase::Finished => 0,
            IvcPhase::Failed(_) => 0,
        }
    }

    /// The phase that an event leads to.
    pub open spec fn leads_to(self, event: IvcEvent, next: IvcPhase) -> bool {
        match (self.phase, event) {
            (IvcPhase::Finished, _) => next == self.phase,
            (IvcPhase::Failed(_), _) => next == self.phase,
            (_, IvcEvent::Error) => next == IvcPhase::Failed(IvcFailure::Backend),
            (IvcPhase::Setup, IvcEvent::SetUp { .. }) => next == IvcPhase::Steps,
            (IvcPhase::Steps, IvcEvent::Stepped { .. }) => next == (if self.step_times@.len() + 1
                == self.n_steps {
                IvcPhase::Verify
            } else {
                IvcPhase::Steps
            }),
            (IvcPhase::Verify, IvcEvent::Verified { state, .. }) => if state@ == self.expected@ {
                next == (if self.finalize {
                    IvcPhase::Finalize
                } else {
                    IvcPhase::Finished
                })
            } else {
                next matches IvcPhase::Failed(IvcFailure::Diverged { at }) && differs_at(
                    state@,
                    self.expected@,
                    at as int,
                )
            },
            (IvcPhase::Finalize, IvcEvent::Finalized { accepted, .. }) => next == (if accepted {
                IvcPhase::Finished
            } else {
                IvcPhase::Failed(IvcFailure::Rejected)
            }),
            _ => next == IvcPhase::Failed(IvcFailure::OutOfOrder),
        }
    }

    /// The job is the same.
    pub open spec fn same_job(self, before: IvcRun) -> bool {
        &&& self.n_steps == before.n_steps
        &&& self.finalize == before.finalize
        &&& self.expected == before.expected
    }

    /// A run that has not begun.
    pub fn start(n_steps: usize, finalize: bool, expected: Vec<u128>) -> (run: IvcRun)
        requires
            n_steps >= 1,
        ensures
            run.wf(),
            run.phase == IvcPhase::Setup,
            run.n_steps == n_steps,
            run.finalize == finalize,
            run.expected == expected,
    {
        IvcRun {
            n_steps,
            finalize,
            expected,
            phase: IvcPhase::Setup,
            setup_time: Duration::zero(),
            setup_peak_mem: None,
            step_times: Vec::new(),
            steps_peak_mem: None,
            verify_time: Duration::zero(),
            finalize_time: None,
            finalize_peak_mem: None,
            checked: false,
        }
    }

    /// What the prover is to do next.
    pub fn action(&self) -> (action: IvcAction)
        requires
            self.wf(),
        ensures
            action == (match self.phase {
                IvcPhase::Setup => IvcAction::Setup { with_keys: self.finalize },
                IvcPhase::Steps => IvcAction::ProveStep {
                    step: self.step_times@.len() as usize,
                    recursing: self.step_times@.len() > 0,
                },
                IvcPhase::Verify => IvcAction::Verify,
                IvcPhase::Finalize => IvcAction::Finalize,
                _ => IvcAction::Stop,
            }),
    {
        match self.phase {
            IvcPhase::Setup => IvcAction::Setup { with_keys: self.finalize },
            IvcPhase::Steps => IvcAction::ProveStep {
                step: self.step_times.len(),
                recursing: self.step_times.len() > 0,
            },
            IvcPhase::Verify => IvcAction::Verify,
            IvcPhase::Finalize => IvcAction::Finalize,
            IvcPhase::Finished => IvcAction::Stop,
            IvcPhase::Failed(_) => IvcAction::Stop,
        }
    }

    /// Takes in what the prover did.
    pub fn advance(&mut self, event: IvcEvent)
        requires
            old(self).wf(),
            event matches IvcEvent::Finalized { verify_time, .. } ==> old(self).verify_time.nanos
                + verify_time.nanos <= MAX_NANOS,
        ensures
            final(self).wf(),
            final(self).same_job(*old(self)),
            old(self).leads_to(event, final(self).phase),
            final(self).setup_time == (match (old(self).phase, event) {
                (IvcPhase::Setup, IvcEvent::SetUp { time, .. }) => time,
                _ => old(self).setup_time,
            }),
            final(self).setup_peak_mem == (match (old(self).phase, event) {
                (IvcPhase::Setup, IvcEvent::SetUp { peak, .. }) => peak,
                _ => old(self).setup_peak_mem,
            }),
            final(self).step_times@ == (match (old(self).phase, event) {
                (IvcPhase::Steps, IvcEvent::Stepped { time, .. }) => old(self).step_times@.push(
                    time,
                ),
                _ => old(self).step_times@,
            }),
            final(self).steps_peak_mem == (match (old(self).phase, event) {
                (IvcPhase::Steps, IvcEvent::Stepped { peak, .. }) => peak,
                _ => old(self).steps_peak_mem,
            }),
            final(self).verify_time.nanos == (match (old(self).phase, event) {
                (IvcPhase::Verify, IvcEvent::Verified { time, .. }) => time.nanos as int,
                (
                    IvcPhase::Finalize,
                    IvcEvent::Finalized { accepted: true, verify_time, .. },
                ) => old(self).verify_time.nanos + verify_time.nanos,
                _ => old(self).verify_time.nanos as int,
            }),
            final(self).finalize_time == (match (old(self).phase, event) {
                (IvcPhase::Finalize, IvcEvent::Finalized { accepted: true, time, .. }) => Some(
                    time,
                ),
                _ => old(self).finalize_time,
            }),
            final(self).finalize_peak_mem == (match (old(self).phase, event) {
                (IvcPhase::Finalize, IvcEvent::Finalized { accepted: true, peak, .. }) => peak,
                _ => old(self).finalize_peak_mem,
            }),
            final(self).checked == (old(self).checked || final(self).phase is Finalize
                || final(self).phase is Finished),
            !(old(self).phase is Finished) && !(final(self).phase is Failed)
                ==> final(self).remaining() == old(self).remaining() - 1,
    {
        match self.phase {
            IvcPhase::Finished => {
                return ;
            },
            IvcPhase::Failed(_) => {
                return ;
            },
            _ => {},
        }
        if let IvcEvent::Error = event {
            self.phase = IvcPhase::Failed(IvcFailure::Backend);
            return ;
        }
        match (self.phase, event) {
            (IvcPhase::Setup, IvcEvent::SetUp { time, peak }) => {
                self.setup_time = time;
                self.setup_peak_mem = peak;
                self.phase = IvcPhase::Steps;
            },
            (IvcPhase::Steps, IvcEvent::Stepped { time, peak }) => {
                self.step_times.push(time);
                self.steps_peak_mem = peak;
                if self.step_times.len() == self.n_steps {
                    self.phase = IvcPhase::Verify;
                }
            },
            (IvcPhase::Verify, IvcEvent::Verified { time, state }) => {
                self.verify_time = time;
                match first_difference(&state, &self.expected) {
                    Some(at) => {
                        self.phase = IvcPhase::Failed(IvcFailure::Diverged { at });
                    },
                    None => {
                        self.checked = true;
                        self.phase = if self.finalize {
                            IvcPhase::Finalize
                        } else {
                            IvcPhase::Finished
                        };
                    },
                }
            },
            (IvcPhase::Finalize, IvcEvent::Finalized { time, peak, accepted, verify_time }) => {
                if accepted {
                    self.finalize_time = Some(time);
                    self.finalize_peak_mem = peak;
                    self.verify_time = self.verify_time.plus(verify_time);
                    self.phase = IvcPhase::Finished;
                } else {
                    self.phase = IvcPhase::Failed(IvcFailure::Rejected);
                }
            },
            _ => {
                self.phase = IvcPhase::Failed(IvcFailure::OutOfOrder);
            },
        }
    }

    /// The report of a finished run.
    pub fn into_report(self, backend: String, config: String) -> (report: IvcReport)
        requires
            self.wf(),
            self.phase is Finished,
        ensures
            report.backend == backend,
            report.config == config,
            report.setup_time == self.setup_time,
            report.setup_peak_mem == self.setup_peak_mem,
            report.step_times == self.step_times,
            report.step_times@.len() == self.n_steps,
            report.steps_peak_mem == self.steps_peak_mem,
            report.finalize_time == self.finalize_time,
            report.finalize_time is Some <==> self.finalize,
            report.finalize_peak_mem == self.finalize_peak_mem,
            report.verify_time == Some(self.verify_time),
    {
        IvcReport {
            backend,
            config,
            setup_time: self.setup_time,
            setup_peak_mem: self.setup_peak_mem,
            step_times: self.step_times,
            steps_peak_mem: self.steps_peak_mem,
            finalize_time: self.finalize_time,
            finalize_peak_mem: self.finalize_peak_mem,
            verify_time: Some(self.verify_time),
        }
    }
}

/// A run whose proof shows the expected state does not diverge.
pub proof fn lemma_expected_state_passes(
    run: IvcRun,
    time: Duration,
    state: Vec<u128>,
    next: IvcPhase,
)
    requires
        run.wf(),
        run.phase is Verify,
        state@ == run.expected@,
        run.leads_to(IvcEvent::Verified { time, state }, next),
    ensures
        next == (if run.finalize {
            IvcPhase::Finalize
        } else {
            IvcPhase::Finished
        }),
{
}

/// A run ends well only if the proof showed the expected state and, where a final
/// proof was asked for, that was accepted.
pub proof fn lemma_only_the_expected_state_passes(run: IvcRun, event: IvcEvent, next: IvcPhase)
    requires
        run.wf(),
        !(run.phase is Finished),
        run.leads_to(event, next),
        next is Finished,
    ensures
        run.step_times@.len() == run.n_steps,
        run.finalize ==> run.checked && (event matches IvcEvent::Finalized { accepted, .. }
            && accepted),
        !run.finalize ==> (event matches IvcEvent::Verified { state, .. } && state@
            == run.expected@),
{
}

/// A state that is not the expected one ends the run, at the first element that
/// differs or is missing.
pub proof fn lemma_other_states_diverge(
    run: IvcRun,
    time: Duration,
    state: Vec<u128>,
    next: IvcPhase,
)
    requires
        run.wf(),
        run.phase is Verify,
        state@ != run.expected@,
        run.leads_to(IvcEvent::Verified { time, state }, next),
    ensures
        next matches IvcPhase::Failed(IvcFailure::Diverged { at }) && at <= state@.len() && at
            <= run.expected@.len() && state@.take(at as int) == run.expected@.take(at as int) && (
        at < state@.len() && at < run.expected@.len() ==> state@[at as int] != run.expected@[
            at as int
        ]) && (at == state@.len() || at == run.expected@.len() ==> state@.len()
            != run.expected@.len()),
{
    if let IvcPhase::Failed(IvcFailure::Diverged { at }) = next {
        assert(state@.take(at as int) =~= run.expected@.take(at as int));
        if state@.len() == run.expected@.len() && at == state@.len() {
            assert(state@ =~= run.expected@);
        }
    }
}

/// An error of the prover ends a run that is under way, and a run that is over
/// stays as it is.
pub proof fn lemma_errors_end_the_run(run: IvcRun, event: IvcEvent, next: IvcPhase)
    requires
        run.leads_to(event, next),
    ensures
        run.phase is Finished || run.phase is Failed ==> next == run.phase,
        !(run.phase is Finished || run.phase is Failed) && event is Error ==> next
            == IvcPhase::Failed(IvcFailure::Backend),
{
}

/// As many steps are asked for as the run has: a step leads to another as long as
/// one is missing, and then to the verification.
pub proof fn lemma_steps_are_counted(run: IvcRun, event: IvcEvent, next: IvcPhase)
    requires
        run.wf(),
        run.phase is Steps,
        event is Stepped,
        run.leads_to(event, next),
    ensures
        next is Steps <==> run.step_times@.len() + 1 < run.n_steps,
        next is Verify <==> run.step_times@.len() + 1 == run.n_steps,
{
}

/// What was not asked for ends a run that is under way.
pub proof fn lemma_only_answers_go_on(run: IvcRun, event: IvcEvent, next: IvcPhase)
    requires
        !(run.phase is Finished || run.phase is Failed),
        !(event is Error),
        !(run.phase is Setup && event is SetUp),
        !(run.phase is Steps && event is Stepped),
        !(run.phase is Verify && event is Verified),
        !(run.phase is Finalize && event is Finalized),
        run.leads_to(event, next),
    ensures
        next == IvcPhase::Failed(IvcFailure::OutOfOrder),
{
}

} // verus!
