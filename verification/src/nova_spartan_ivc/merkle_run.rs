//! A run of the Merkle-append step, one leaf per step.

use crate::bench_common::IvcReport;
use crate::bits::{le_val, le_value};
use crate::hash::sha256_of;
use crate::ivc_run::{IvcPhase, IvcRun};
use crate::nova_spartan_ivc::append_circuit::{appends_leaf, lemma_appends_of_leaves, tree_state,
    MerkleAppendCircuit};
use crate::nova_spartan_ivc::ivc::{curve_label, curve_name, NovaCurve};
use crate::nova_spartan_ivc::merkle::{bench_leaf, full_root, leaf_preimage, IncrementalMerkleTree};
use crate::text::{decimal, push_decimal};
use vstd::arithmetic::power2::{lemma2_to64, lemma2_to64_rest, lemma_pow2_strictly_increases,
    lemma_pow2_unfold, pow2};
use vstd::prelude::*;
use vstd::slice::slice_subrange;

verus! {

#[derive(Debug)]
pub struct MerkleIvcOutput {
    pub report: IvcReport,
    /// Root after the last append.
    pub root: [u8; 32],
    pub n_leaves: u64,
}

/// The leaves of the benchmark.
pub open spec fn bench_leaves(n: nat) -> Seq<Seq<u8>> {
    Seq::new(n, |i: int| sha256_of(leaf_preimage(i as nat)))
}

/// The tree holds as many leaves.
pub open spec fn fits_tree(depth: nat, n: nat) -> bool {
    depth >= 64 || n <= pow2(depth)
}

/// Whether the tree holds as many leaves.
pub fn can_hold(depth: usize, n: usize) -> (fits: bool)
    ensures
        fits == fits_tree(depth as nat, n as nat),
{
    if depth >= 64 {
        return true;
    }
    let mut room: u128 = 1;
    proof {
        lemma2_to64();
    }
    for k in 0..depth
        invariant
            depth < 64,
            room == pow2(k as nat),
    {
        proof {
            lemma2_to64_rest();
            lemma_pow2_strictly_increases(k as nat, 64);
            lemma_pow2_unfold((k + 1) as nat);
        }
        room = 2 * room;
    }
    n as u128 <= room
}

/// A state vector as pairs of 128-bit halves, the lower one first.
pub open spec fn limbs_of(state: Seq<int>) -> Seq<u128> {
    Seq::new(
        2 * state.len(),
        |i: int|
            if i % 2 == 0 {
                state[i / 2] as u128
            } else {
                0u128
            },
    )
}

/// The halves of a row of elements, from their 32-byte little-endian
/// representations, the lower half first.
pub fn element_limbs(reprs: &Vec<[u8; 32]>) -> (limbs: Vec<u128>)
    requires
        2 * reprs@.len() <= usize::MAX,
    ensures
        limbs@.len() == 2 * reprs@.len(),
        forall|i: int|
            0 <= i < reprs@.len() ==> limbs@[2 * i] == le_val((#[trigger] reprs@[i])@.take(16))
                && limbs@[2 * i + 1] == le_val(reprs@[i]@.skip(16)),
{
    let mut limbs: Vec<u128> = Vec::with_capacity(2 * reprs.len());
    for i in 0..reprs.len()
        invariant
            limbs@.len() == 2 * i,
            forall|k: int|
                0 <= k < i ==> limbs@[2 * k] == le_val((#[trigger] reprs@[k])@.take(16)) && limbs@[2
                    * k + 1] == le_val(reprs@[k]@.skip(16)),
    {
        let repr = reprs[i];
        let bytes = repr.as_slice();
        let low = slice_subrange(bytes, 0, 16);
        let high = slice_subrange(bytes, 16, 32);
        assert(low@ =~= repr@.take(16));
        assert(high@ =~= repr@.skip(16));
        limbs.push(le_value(low));
        limbs.push(le_value(high));
    }
    limbs
}

/// The leaves of the benchmark grow by one leaf per step, the digest of the
/// step's preimage.
pub proof fn lemma_bench_leaves(n: nat)
    ensures
        bench_leaves(0) == Seq::<Seq<u8>>::empty(),
        bench_leaves(n).len() == n,
        bench_leaves(n + 1) == bench_leaves(n).push(sha256_of(leaf_preimage(n))),
{
    assert(bench_leaves(0) =~= Seq::empty());
    assert(bench_leaves(n + 1) =~= bench_leaves(n).push(sha256_of(leaf_preimage(n))));
}

/// A tree one level deeper holds twice as many leaves; a tree without levels
/// holds one, and one of 64 levels or more any number that can be counted.
pub proof fn lemma_tree_holds(depth: nat, n: nat)
    requires
        depth + 1 < 64,
    ensures
        fits_tree(0, n) <==> n <= 1,
        fits_tree(depth + 64, n),
        fits_tree(depth + 1, n) <==> fits_tree(depth, ((n + 1) / 2) as nat),
{
    lemma2_to64();
    lemma_pow2_unfold(depth + 1);
}

/// The halves of an element put together again are the element.
pub proof fn lemma_limbs(state: Seq<int>, i: int)
    requires
        0 <= i < state.len(),
        0 <= state[i] <= u128::MAX,
    ensures
        limbs_of(state).len() == 2 * state.len(),
        limbs_of(state)[2 * i] + limbs_of(state)[2 * i + 1] * (u128::MAX + 1) == state[i],
{
    assert((2 * i) / 2 == i && (2 * i) % 2 == 0 && (2 * i + 1) % 2 == 1);
}

/// A run of appends into a tree of fixed depth.
pub struct MerkleRun {
    pub curve: NovaCurve,
    pub depth: usize,
    /// The state before the first append.
    pub z0: Vec<u128>,
    pub root: [u8; 32],
    pub n_leaves: u64,
    pub ivc: IvcRun,
}

impl MerkleRun {
    pub open spec fn wf(self) -> bool {
        let (d, leaves) = (self.depth as nat, bench_leaves(self.ivc.n_steps as nat));
        &&& self.ivc.wf()
        &&& 1 <= self.depth <= 64
        &&& fits_tree(d, self.ivc.n_steps as nat)
        &&& self.z0@.map_values(|v: u128| v as int) == tree_state(d, Seq::empty())
        &&& self.root@ == full_root(d, leaves)
        &&& self.n_leaves == self.ivc.n_steps
        &&& self.ivc.expected@ == limbs_of(tree_state(d, leaves))
    }

    /// The circuit of a step: it appends the step's leaf.
    pub fn step_circuit(&self, step: usize) -> (circuit: MerkleAppendCircuit)
        requires
            self.wf(),
        ensures
            circuit.wf(),
            circuit.depth() == self.depth,
            circuit.leaf() == sha256_of(leaf_preimage(step as nat)),
    {
        MerkleAppendCircuit::new(self.depth, bench_leaf(step as u64))
    }

    /// The output of a finished run.
    pub fn into_output(self) -> (output: MerkleIvcOutput)
        requires
            self.wf(),
            self.ivc.phase is Finished,
        ensures
            output.root@ == full_root(
                self.depth as nat,
                bench_leaves(self.ivc.n_steps as nat),
            ),
            output.n_leaves == self.ivc.n_steps,
            output.report.backend@ == "Nova (microsoft) + Spartan \u{2014} Merkle append"@,
            output.report.config@ == curve_name(self.curve) + " cycle, depth-"@ + decimal(
                self.depth as nat,
            ) + " incremental SHA-256 Merkle tree (frontier), Pedersen commitments, transparent Spartan+IPA compression"@,
            output.report.setup_time == self.ivc.setup_time,
            output.report.setup_peak_mem == self.ivc.setup_peak_mem,
            output.report.step_times == self.ivc.step_times,
            output.report.steps_peak_mem == self.ivc.steps_peak_mem,
            output.report.finalize_time == self.ivc.finalize_time,
            output.report.finalize_peak_mem == self.ivc.finalize_peak_mem,
            output.report.verify_time == Some(self.ivc.verify_time),
    {
        let mut config = curve_label(self.curve).to_owned();
        config.push_str(" cycle, depth-");
        push_decimal(&mut config, self.depth as u128);
        config.push_str(
            " incremental SHA-256 Merkle tree (frontier), Pedersen commitments, transparent Spartan+IPA compression",
        );
        let backend = "Nova (microsoft) + Spartan \u{2014} Merkle append".to_owned();
        MerkleIvcOutput {
            report: self.ivc.into_report(backend, config),
            root: self.root,
            n_leaves: self.n_leaves,
        }
    }
}

/// An honest run does not diverge: states that lead from the empty tree through
/// an append of each step's leaf end in the one that the run expects.
pub proof fn lemma_honest_appends_pass(run: MerkleRun, states: Seq<Seq<int>>)
    requires
        run.wf(),
        states.len() == run.ivc.n_steps + 1,
        states[0] == run.z0@.map_values(|v: u128| v as int),
        forall|i: int|
            0 <= i < run.ivc.n_steps ==> appends_leaf(
                run.depth as nat,
                #[trigger] states[i],
                states[i + 1],
                sha256_of(leaf_preimage(i as nat)),
            ),
    ensures
        limbs_of(states.last()) == run.ivc.expected@,
        run.root@ == full_root(run.depth as nat, bench_leaves(run.ivc.n_steps as nat)),
{
    let leaves = bench_leaves(run.ivc.n_steps as nat);
    assert forall|i: int| 0 <= i < leaves.len() implies appends_leaf(
        run.depth as nat,
        #[trigger] states[i],
        states[i + 1],
        leaves[i],
    ) by {
        assert(leaves[i] == sha256_of(leaf_preimage(i as nat)));
    }
    lemma_appends_of_leaves(run.depth as nat, states, leaves);
}

/// The elements of a state, each followed by a zero upper half.
fn to_limbs(state: &Vec<u128>) -> (limbs: Vec<u128>)
    ensures
        limbs@ == limbs_of(state@.map_values(|v: u128| v as int)),
{
    let ghost values = state@.map_values(|v: u128| v as int);
    let mut limbs: Vec<u128> = Vec::new();
    for i in 0..state.len()
        invariant
            values == state@.map_values(|v: u128| v as int),
            limbs@ == limbs_of(values).take(2 * i),
    {
        limbs.push(state[i]);
        limbs.push(0);
        assert(limbs@ =~= limbs_of(values).take(2 * (i + 1)));
    }
    assert(limbs@ =~= limbs_of(values));
    limbs
}

/// Starts a run of `n_steps` appends into a tree of depth `depth`. The state
/// that the proof has to show is that of the tree over the benchmark's leaves.
pub fn run_merkle_ivc(
    depth: usize,
    n_steps: usize,
    run_compression: bool,
    curve: NovaCurve,
) -> (run: MerkleRun)
    requires
        n_steps >= 1,
        1 <= depth <= 64,
        fits_tree(depth as nat, n_steps as nat),
    ensures
        run.wf(),
        run.curve == curve,
        run.depth == depth,
        run.ivc.n_steps == n_steps,
        run.ivc.finalize == run_compression,
        run.ivc.phase == IvcPhase::Setup,
{
    let mut native = IncrementalMerkleTree::new(depth);
    let z0 = native.state_fields();
    assert(bench_leaves(0) =~= Seq::empty());
    proof {
        lemma2_to64_rest();
    }
    for i in 0..n_steps
        invariant
            1 <= depth <= 64,
            fits_tree(depth as nat, n_steps as nat),
            pow2(64) == u64::MAX + 1,
            native.wf(),
            native.depth() == depth,
            native@ == bench_leaves(i as nat),
    {
        native.append(bench_leaf(i as u64));
        assert(native@ =~= bench_leaves((i + 1) as nat));
    }
    let state = native.state_fields();
    let expected = to_limbs(&state);
    let root = native.root();
    let n_leaves = native.n_leaves();
    MerkleRun {
        curve,
        depth,
        z0,
        root,
        n_leaves,
        ivc: IvcRun::start(n_steps, run_compression, expected),
    }
}

} // verus!
