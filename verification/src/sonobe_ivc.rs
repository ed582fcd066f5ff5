//! The SHA-256 chain on Nova with CycleFold over BN254 and Grumpkin, with a
//! Groth16 decider at the end.

use crate::bench_common::IvcReport;
use crate::chain::{lemma_steps_are_chain, sha256_chain};
use crate::field::{bytes_to_elements, elements_of, elements_to_bytes, low_bytes};
use crate::ivc_run::{IvcPhase, IvcRun};
use crate::r1cs::Circuit;
use crate::sha256_step::{byte_elements, hashes, is_hash_circuit, linear_hash_circuit};
use vstd::prelude::*;

pub use crate::chain::sha256_chain_native;

verus! {

/// The chain's step circuit: 32 bytes of state, one element per byte.
#[derive(Clone, Copy, Debug)]
pub struct Sha256ChainFCircuit {}

impl Sha256ChainFCircuit {
    /// Number of elements in the state.
    pub fn state_len(&self) -> (n: usize)
        ensures
            n == 32,
    {
        32
    }

    /// The constraints of the step `z' = SHA-256(z)`.
    pub fn generate_step_constraints(&self) -> (c: Circuit)
        ensures
            is_hash_circuit(c, 32),
    {
        linear_hash_circuit(32)
    }
}

/// The bytes that the elements of a state hold.
pub fn state_to_bytes(state: &[u128]) -> (bytes: [u8; 32])
    requires
        state@.len() <= 32,
    ensures
        bytes@ == low_bytes(state@),
{
    elements_to_bytes(state)
}

/// The state whose elements hold the given bytes.
pub fn bytes_to_state(bytes: [u8; 32]) -> (state: Vec<u128>)
    ensures
        state@ == elements_of(bytes@),
{
    bytes_to_elements(bytes.as_slice())
}

#[derive(Debug)]
pub struct SonobeIvcOutput {
    pub report: IvcReport,
    pub final_state: [u8; 32],
}

/// A run of the chain.
pub struct SonobeRun {
    pub input: [u8; 32],
    pub final_state: [u8; 32],
    pub ivc: IvcRun,
}

impl SonobeRun {
    pub open spec fn wf(self) -> bool {
        &&& self.ivc.wf()
        &&& self.final_state@ == sha256_chain(self.input@, self.ivc.n_steps as nat)
        &&& self.ivc.expected@ == elements_of(self.final_state@)
    }

    /// The output of a finished run.
    pub fn into_output(self) -> (output: SonobeIvcOutput)
        requires
            self.wf(),
            self.ivc.phase is Finished,
        ensures
            output.final_state@ == sha256_chain(self.input@, self.ivc.n_steps as nat),
            output.report.backend@ == "Sonobe (Nova + CycleFold folding)"@,
            output.report.config@
                == "BN254/Grumpkin cycle, KZG + Pedersen commitments, Groth16 decider"@,
            output.report.setup_time == self.ivc.setup_time,
            output.report.setup_peak_mem == self.ivc.setup_peak_mem,
            output.report.step_times == self.ivc.step_times,
            output.report.steps_peak_mem == self.ivc.steps_peak_mem,
            output.report.finalize_time == self.ivc.finalize_time,
            output.report.finalize_peak_mem == self.ivc.finalize_peak_mem,
            output.report.verify_time == Some(self.ivc.verify_time),
    {
        let config = "BN254/Grumpkin cycle, KZG + Pedersen commitments, Groth16 decider".to_owned();
        SonobeIvcOutput {
            report: self.ivc.into_report("Sonobe (Nova + CycleFold folding)".to_owned(), config),
            final_state: self.final_state,
        }
    }
}

/// Starts a run of `n_steps` steps from `input`. The state that the proof has
/// to show is the SHA-256 chain's.
pub fn run_ivc(input: [u8; 32], n_steps: usize, run_decider: bool) -> (run: SonobeRun)
    requires
        n_steps >= 1,
    ensures
        run.wf(),
        run.input == input,
        run.ivc.n_steps == n_steps,
        run.ivc.finalize == run_decider,
        run.ivc.phase == IvcPhase::Setup,
{
    let final_state = sha256_chain_native(input, n_steps);
    let expected = bytes_to_state(final_state);
    SonobeRun { input, final_state, ivc: IvcRun::start(n_steps, run_decider, expected) }
}

/// An honest run does not diverge: states that lead from the run's input through
/// as many hashing steps as the run has end in the one that the run expects.
pub proof fn lemma_honest_chain_passes(run: SonobeRun, states: Seq<Seq<int>>)
    requires
        run.wf(),
        states.len() == run.ivc.n_steps + 1,
        states[0] == byte_elements(run.input@),
        forall|i: int| 0 <= i < states.len() - 1 ==> hashes(#[trigger] states[i], states[i + 1]),
    ensures
        states.last() == run.ivc.expected@.map_values(|v: u128| v as int),
{
    lemma_steps_are_chain(run.input@, states);
    let end = sha256_chain(run.input@, run.ivc.n_steps as nat);
    assert(byte_elements(end) =~= elements_of(end).map_values(|v: u128| v as int));
}

} // verus!
