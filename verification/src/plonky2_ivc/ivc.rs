//! The SHA-256 chain on Plonky2's cyclic recursion.
//!
//! The public inputs of a step's proof: eight words of the initial state, eight
//! words of the state, the number of steps, and the verifier data.

use crate::bench_common::IvcReport;
use crate::chain::{lemma_chain_len, sha256_chain, sha256_chain_native};
use crate::hash::{lemma_digest_words, sha256_of};
use crate::ivc_run::{IvcPhase, IvcRun};
use crate::plonky2_ivc::gates::ORDER;
use crate::plonky2_ivc::packing::{bytes_of_words, bytes_to_words, lemma_bytes_round_trip,
    lemma_words_round_trip, words_of, words_to_bytes};
use crate::plonky2_ivc::step::{lemma_steps_count_and_hash, step_follows, words_chain, words_from};
use crate::plonky2_ivc::words::sha256_words;
use crate::text::{decimal, push_decimal};
use vstd::prelude::*;

verus! {

#[derive(Debug)]
pub struct Plonky2IvcOutput {
    pub report: IvcReport,
    pub final_state: [u8; 32],
}

/// What a proof of `n` steps that end in the state `words` is to show: the
/// number of steps, then the words.
pub open spec fn expected_of(n: nat, words: Seq<u32>) -> Seq<u128> {
    Seq::new(
        9,
        |i: int|
            if i == 0 {
                n as u128
            } else {
                words[i - 1] as u128
            },
    )
}

/// What the public inputs of a proof show: the number of steps, then the state.
pub open spec fn shown_of(pis: Seq<u64>) -> Seq<u128> {
    Seq::new(
        9,
        |i: int|
            if i == 0 {
                pis[16] as u128
            } else {
                pis[7 + i] as u128
            },
    )
}

/// What the public inputs of a proof show: the number of steps, then the state.
pub fn shown_state(pis: &[u64]) -> (shown: Vec<u128>)
    requires
        pis@.len() >= 17,
    ensures
        shown@ == shown_of(pis@),
{
    let mut shown: Vec<u128> = Vec::with_capacity(9);
    shown.push(pis[16] as u128);
    for j in 0..8usize
        invariant
            pis@.len() >= 17,
            shown@ == shown_of(pis@).take(j + 1),
    {
        shown.push(pis[8 + j] as u128);
        assert(shown@ =~= shown_of(pis@).take(j + 2));
    }
    assert(shown@ =~= shown_of(pis@));
    shown
}

/// A run of the chain.
pub struct Plonky2Run {
    pub input: [u8; 32],
    /// The words of the input, public inputs of every proof.
    pub initial_words: [u32; 8],
    /// The words of the final state.
    pub final_words: [u32; 8],
    pub ivc: IvcRun,
}

impl Plonky2Run {
    pub open spec fn wf(self) -> bool {
        &&& self.ivc.wf()
        &&& !self.ivc.finalize
        &&& self.initial_words@ == words_of(self.input@)
        &&& self.final_words@ == words_of(sha256_chain(self.input@, self.ivc.n_steps as nat))
        &&& self.ivc.expected@ == expected_of(self.ivc.n_steps as nat, self.final_words@)
    }

    /// The output of a finished run on a circuit of `2^degree_bits` rows.
    pub fn into_output(self, degree_bits: usize) -> (output: Plonky2IvcOutput)
        requires
            self.wf(),
            self.ivc.phase is Finished,
        ensures
            output.final_state@ == sha256_chain(self.input@, self.ivc.n_steps as nat),
            output.report.backend@ == "Plonky2 (cyclic STARK/FRI recursion)"@,
            output.report.config@
                == "Goldilocks 64-bit field, Poseidon hasher, degree 2^"@ + decimal(
                degree_bits as nat,
            ),
            output.report.setup_time == self.ivc.setup_time,
            output.report.setup_peak_mem == self.ivc.setup_peak_mem,
            output.report.step_times == self.ivc.step_times,
            output.report.steps_peak_mem == self.ivc.steps_peak_mem,
            output.report.finalize_time is None,
            output.report.finalize_peak_mem is None,
            output.report.verify_time == Some(self.ivc.verify_time),
    {
        let mut config = "Goldilocks 64-bit field, Poseidon hasher, degree 2^".to_owned();
        push_decimal(&mut config, degree_bits as u128);
        let final_state = words_to_bytes(&self.final_words);
        proof {
            let end = sha256_chain(self.input@, self.ivc.n_steps as nat);
            lemma_chain_len(self.input@, self.ivc.n_steps as nat);
            lemma_words_round_trip(end);
        }
        Plonky2IvcOutput {
            report: self.ivc.into_report("Plonky2 (cyclic STARK/FRI recursion)".to_owned(), config),
            final_state,
        }
    }
}

/// A run needs at least one step.
#[derive(Clone, Copy, Debug, PartialEq, Eq, Structural)]
pub struct NoSteps {}

/// Starts a run of `n_steps` steps from `input`. The proof has to show the
/// number of steps, which is a field element, and the SHA-256 chain's state.
pub fn run_ivc(input: [u8; 32], n_steps: usize) -> (started: Result<Plonky2Run, NoSteps>)
    requires
        n_steps < ORDER,
    ensures
        started is Err <==> n_steps == 0,
        started matches Ok(run) ==> {
            &&& run.wf()
            &&& run.input == input
            &&& run.ivc.n_steps == n_steps
            &&& run.ivc.phase == IvcPhase::Setup
        },
{
    if n_steps == 0 {
        return Err(NoSteps {  });
    }
    let initial_words = bytes_to_words(input);
    let final_words = bytes_to_words(sha256_chain_native(input, n_steps));
    let mut expected: Vec<u128> = Vec::with_capacity(9);
    expected.push(n_steps as u128);
    let ghost goal = expected_of(n_steps as nat, final_words@);
    for j in 0..8usize
        invariant
            goal == expected_of(n_steps as nat, final_words@),
            expected@ == goal.take(j + 1),
    {
        expected.push(final_words[j] as u128);
        assert(expected@ =~= goal.take(j + 2));
    }
    assert(expected@ =~= goal);
    Ok(
        Plonky2Run {
            input,
            initial_words,
            final_words,
            ivc: IvcRun::start(n_steps, false, expected),
        },
    )
}

/// A proof whose public inputs show the number of steps and the SHA-256
/// chain's words is the only one that does not make a run diverge.
pub proof fn lemma_only_the_chain_passes(run: Plonky2Run, pis: Seq<u64>)
    requires
        run.wf(),
        pis.len() >= 17,
    ensures
        shown_of(pis) == run.ivc.expected@ <==> pis[16] == run.ivc.n_steps && (forall|j: int|
            0 <= j < 8 ==> #[trigger] pis[8 + j] == words_of(
                sha256_chain(run.input@, run.ivc.n_steps as nat),
            )[j]),
{
    let words = run.final_words@;
    let expected = run.ivc.expected@;
    if shown_of(pis) == expected {
        assert(shown_of(pis)[0] == expected[0]);
        assert forall|j: int| 0 <= j < 8 implies #[trigger] pis[8 + j] == words[j] by {
            assert(shown_of(pis)[j + 1] == expected[j + 1]);
        }
    }
    if pis[16] == run.ivc.n_steps && (forall|j: int|
        0 <= j < 8 ==> #[trigger] pis[8 + j] == words[j]) {
        assert forall|i: int| 0 <= i < 9 implies #[trigger] shown_of(pis)[i] == expected[i] by {
            if i > 0 {
                assert(pis[8 + (i - 1)] == words[i - 1]);
            }
        }
        assert(shown_of(pis) =~= expected);
    }
}

/// The hash that the step's gates constrain is the one that the chain uses.
pub proof fn lemma_hashes_agree(m: Seq<u32>)
    requires
        m.len() == 8,
    ensures
        sha256_words(m) == words_of(sha256_of(bytes_of_words(m))),
{
    lemma_bytes_round_trip(m);
    lemma_digest_words(bytes_of_words(m));
}

proof fn lemma_words_chain_is_chain(input: Seq<u8>, n: nat)
    requires
        input.len() == 32,
    ensures
        words_chain(words_of(input), n) == words_of(sha256_chain(input, n)),
    decreases n,
{
    if n > 0 {
        lemma_words_chain_is_chain(input, (n - 1) as nat);
        lemma_chain_len(input, (n - 1) as nat);
        lemma_digest_words(sha256_chain(input, (n - 1) as nat));
    }
}

/// A chain of steps from the input ends at the number of steps and the native
/// SHA-256 chain.
pub proof fn lemma_steps_show_the_chain(pis: Seq<Seq<int>>, input: Seq<u8>, n: nat)
    requires
        input.len() == 32,
        1 <= n < pis.len(),
        n < ORDER,
        words_from(pis[0], 0) == words_of(input),
        forall|i: int|
            1 <= i < pis.len() ==> step_follows(#[trigger] pis[i], pis[i - 1], i > 1),
    ensures
        pis[n as int][16] == n,
        words_from(pis[n as int], 8) == words_of(sha256_chain(input, n)),
{
    lemma_steps_count_and_hash(pis, n);
    lemma_words_chain_is_chain(input, n);
}

/// An honest run does not diverge: public inputs that a chain of as many steps
/// as the run has leads to, from the run's input, show what the run expects.
pub proof fn lemma_honest_steps_pass(run: Plonky2Run, pis: Seq<Seq<int>>, last: Seq<u64>)
    requires
        run.wf(),
        1 <= run.ivc.n_steps < ORDER,
        pis.len() == run.ivc.n_steps + 1,
        words_from(pis[0], 0) == run.initial_words@,
        forall|i: int|
            1 <= i < pis.len() ==> step_follows(#[trigger] pis[i], pis[i - 1], i > 1),
        last.len() >= 17,
        forall|k: int| 0 <= k < 17 ==> #[trigger] last[k] == pis.last()[k],
    ensures
        shown_of(last) == run.ivc.expected@,
{
    let n = run.ivc.n_steps as nat;
    lemma_steps_show_the_chain(pis, run.input@, n);
    lemma_steps_count_and_hash(pis, n);
    let words = words_of(sha256_chain(run.input@, n));
    assert forall|j: int| 0 <= j < 8 implies #[trigger] last[8 + j] == words[j] by {
        assert(words_from(pis.last(), 8)[j] == words[j]);
        assert(0 <= pis.last()[8 + j] < 0x1_0000_0000);
    }
    lemma_only_the_chain_passes(run, last);
}

} // verus!
