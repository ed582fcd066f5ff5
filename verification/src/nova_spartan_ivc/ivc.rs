//! The SHA-256 chain on Nova with a transparent Spartan proof at the end.

use crate::bench_common::IvcReport;
use crate::bits::{le_val, le_value};
use crate::chain::{lemma_steps_are_chain, sha256_chain, sha256_chain_native};
use crate::field::{bytes_to_elements, elements_of};
use crate::ivc_run::{IvcPhase, IvcRun};
use crate::r1cs::Circuit;
use crate::sha256_step::{allocated_hash_circuit, byte_elements, hashes, is_hash_circuit};
use vstd::prelude::*;
use vstd::slice::slice_subrange;

verus! {

/// The chain's step circuit: 32 bytes of state, one element per byte.
#[derive(Clone, Copy, Debug)]
pub struct Sha256ChainCircuit {}

impl Sha256ChainCircuit {
    /// Number of elements in the state.
    pub fn arity(&self) -> (n: usize)
        ensures
            n == 32,
    {
        32
    }

    /// The constraints of the step `z' = SHA-256(z)`.
    pub fn synthesize(&self) -> (c: Circuit)
        ensures
            is_hash_circuit(c, 32),
    {
        allocated_hash_circuit(32)
    }
}

/// The byte that an element holds, from its little-endian representation.
pub fn byte_of(repr: &[u8]) -> (b: u8)
    requires
        repr@.len() >= 1,
    ensures
        b == repr@[0],
{
    repr[0]
}

/// The low 128 bits of an element, from its little-endian representation.
pub fn f_to_u128(repr: &[u8]) -> (v: u128)
    requires
        repr@.len() >= 16,
    ensures
        v == le_val(repr@.take(16)),
{
    let low = slice_subrange(repr, 0, 16);
    assert(low@ =~= repr@.take(16));
    le_value(low)
}

/// The curve cycle that Nova runs on.
#[derive(Clone, Copy, Debug, PartialEq, Eq, Structural)]
pub enum NovaCurve {
    /// Pallas and Vesta.
    Pasta,
    /// BN254 and Grumpkin.
    Bn254,
}

/// Name of the curve cycle.
pub open spec fn curve_name(curve: NovaCurve) -> Seq<char> {
    match curve {
        NovaCurve::Pasta => "Pallas/Vesta"@,
        NovaCurve::Bn254 => "BN254/Grumpkin"@,
    }
}

/// Name of the curve cycle.
pub fn curve_label(curve: NovaCurve) -> (label: &'static str)
    ensures
        label@ == curve_name(curve),
{
    match curve {
        NovaCurve::Pasta => "Pallas/Vesta",
        NovaCurve::Bn254 => "BN254/Grumpkin",
    }
}

#[derive(Debug)]
pub struct NovaIvcOutput {
    pub report: IvcReport,
    pub final_state: [u8; 32],
}

/// A run of the chain.
pub struct NovaRun {
    pub curve: NovaCurve,
    pub input: [u8; 32],
    pub final_state: [u8; 32],
    pub ivc: IvcRun,
}

impl NovaRun {
    pub open spec fn wf(self) -> bool {
        &&& self.ivc.wf()
        &&& self.final_state@ == sha256_chain(self.input@, self.ivc.n_steps as nat)
        &&& self.ivc.expected@ == elements_of(self.final_state@)
    }

    /// The output of a finished run.
    pub fn into_output(self) -> (output: NovaIvcOutput)
        requires
            self.wf(),
            self.ivc.phase is Finished,
        ensures
            output.final_state@ == sha256_chain(self.input@, self.ivc.n_steps as nat),
            output.report.backend@ == "Nova (microsoft) + Spartan"@,
            output.report.config@ == curve_name(self.curve)
                + " cycle, Pedersen commitments, transparent Spartan+IPA compression"@,
            output.report.setup_time == self.ivc.setup_time,
            output.report.setup_peak_mem == self.ivc.setup_peak_mem,
            output.report.step_times == self.ivc.step_times,
            output.report.steps_peak_mem == self.ivc.steps_peak_mem,
            output.report.finalize_time == self.ivc.finalize_time,
            output.report.finalize_peak_mem == self.ivc.finalize_peak_mem,
            output.report.verify_time == Some(self.ivc.verify_time),
    {
        let mut config = curve_label(self.curve).to_owned();
        config.push_str(" cycle, Pedersen commitments, transparent Spartan+IPA compression");
        NovaIvcOutput {
            report: self.ivc.into_report("Nova (microsoft) + Spartan".to_owned(), config),
            final_state: self.final_state,
        }
    }
}

/// Starts a run of `n_steps` steps from `input` on the selected curve cycle.
/// The state that the proof has to show is the SHA-256 chain's.
pub fn run_ivc(
    input: [u8; 32],
    n_steps: usize,
    run_compression: bool,
    curve: NovaCurve,
) -> (run: NovaRun)
    requires
        n_steps >= 1,
    ensures
        run.wf(),
        run.curve == curve,
        run.input == input,
        run.ivc.n_steps == n_steps,
        run.ivc.finalize == run_compression,
        run.ivc.phase == IvcPhase::Setup,
{
    let final_state = sha256_chain_native(input, n_steps);
    let expected = bytes_to_elements(final_state.as_slice());
    NovaRun { curve, input, final_state, ivc: IvcRun::start(n_steps, run_compression, expected) }
}

/// An honest run does not diverge: states that lead from the run's input through
/// as many hashing steps as the run has end in the one that the run expects.
pub proof fn lemma_honest_chain_passes(run: NovaRun, states: Seq<Seq<int>>)
    requires
        run.wf(),
        states.len() == run.ivc.n_steps + 1,
        states[0] == byte_elements(run.input@),
        forall|i: int| 0 <= i < states.len() - 1 ==> hashes(#[trigger] states[i], states[i + 1]),
    ensures
        states.last() == run.ivc.expected@.map_values(|v: u128| v as int),
{
    lemma_steps_are_chain(run.input@, states);
    let end = sha256_chain(run.input@, run.ivc.n_steps as nat);
    assert(byte_elements(end) =~= elements_of(end).map_values(|v: u128| v as int));
}

} // verus!
