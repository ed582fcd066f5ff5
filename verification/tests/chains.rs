//! The SHA-256 chain and the append-only tree: step circuits, and runs with a
//! prover that fills the circuits in.

use sha2::{Digest, Sha256};
use translog::bench_common::{Duration, IvcReport, MemProbe, PeakAllocator};
use translog::bits::{be_value, le_value, pack_bits, unpack_bytes};
use translog::field::{bytes_to_elements, elements_to_bytes};
use translog::hypernova_pcd::circuit::{ExtDigests, Sha256MergeFCircuit};
use translog::ivc_run::{IvcAction, IvcEvent, IvcFailure, IvcPhase, IvcRun};
use translog::nova_spartan_ivc::ivc::{byte_of, curve_label, f_to_u128};
use translog::nova_spartan_ivc::merkle::{
    bench_leaf, digest_halves, run_merkle_ivc, zero_subtree_roots, IncrementalMerkleTree,
    MerkleAppendCircuit,
};
use translog::nova_spartan_ivc::merkle_run::{can_hold, element_limbs};
use translog::nova_spartan_ivc::{run_ivc, sha256_chain_native, NovaCurve, Sha256ChainCircuit};
use translog::r1cs::{Circuit, Op, Term, Var};
use translog::solver::{solve, Solution};
use translog::sonobe_ivc::{self, Sha256ChainFCircuit};

const MS: Duration = Duration { nanos: 1_000_000 };

fn sha(bytes: &[u8]) -> [u8; 32] {
    Sha256::digest(bytes).into()
}

fn h2(l: &[u8; 32], r: &[u8; 32]) -> [u8; 32] {
    sha(&[*l, *r].concat())
}

/// Value of a linear combination, modulo `2^128`.
fn value(terms: &[Term], s: &Solution) -> u128 {
    let mut total: u128 = 0;
    for t in terms {
        let v = match t.var {
            Var::One => 1,
            Var::Bit(i) => s.bits[i] as u128,
            Var::Num(i) => s.nums[i],
        };
        let part = t.coeff.wrapping_mul(v);
        total = if t.negative { total.wrapping_sub(part) } else { total.wrapping_add(part) };
    }
    total
}

/// The outgoing state of a filled-in circuit, all of whose constraints hold.
fn outputs(c: &Circuit, s: &Solution) -> Vec<u128> {
    for op in &c.ops {
        if let Op::Enforce { a, b, c } = op {
            assert_eq!(value(a, s).wrapping_mul(value(b, s)), value(c, s));
        }
    }
    c.outputs.iter().map(|o| value(o, s)).collect()
}

fn elements(bytes: &[u8]) -> Vec<u128> {
    bytes.iter().map(|b| *b as u128).collect()
}

#[test]
fn chain_circuits_hash_their_state() {
    let input: [u8; 32] = std::array::from_fn(|i| (i * 37 + 1) as u8);
    let allocated = Sha256ChainCircuit {}.synthesize();
    let linear = Sha256ChainFCircuit {}.generate_step_constraints();
    for c in [allocated, linear] {
        assert_eq!(c.n_inputs, 32);
        let s = solve(&c, &elements(&input), &[]).unwrap();
        assert_eq!(outputs(&c, &s), elements(&sha(&input)));
    }
    assert_eq!(Sha256ChainCircuit {}.arity(), 32);
    assert_eq!(Sha256ChainFCircuit {}.state_len(), 32);
}

#[test]
fn a_byte_out_of_range_breaks_the_packing_constraint() {
    let c = Sha256ChainCircuit {}.synthesize();
    let mut state = elements(&[0u8; 32]);
    state[3] = 256;
    let s = solve(&c, &state, &[]).unwrap();
    let broken = c.ops.iter().any(|op| match op {
        Op::Enforce { a, b, c } => value(a, &s).wrapping_mul(value(b, &s)) != value(c, &s),
        _ => false,
    });
    assert!(broken);
}

#[test]
fn merge_circuit_hashes_the_state_and_the_other_digests() {
    let bytes: Vec<u8> = (0..128usize).map(|i| (i * i) as u8).collect();
    let circuit = Sha256MergeFCircuit::<4>::new();
    let c = circuit.generate_step_constraints();
    assert_eq!(circuit.state_len(), 32);
    assert_eq!(c.n_inputs, 128);
    let s = solve(&c, &elements(&bytes), &[]).unwrap();
    assert_eq!(outputs(&c, &s), elements(&sha(&bytes)));
    assert_eq!(ExtDigests::<4>::zeros().0, [0u8; 96]);
}

fn naive_root(depth: usize, leaves: &[[u8; 32]]) -> [u8; 32] {
    let size = 1usize << depth;
    assert!(leaves.len() <= size);
    let mut level: Vec<[u8; 32]> = leaves.to_vec();
    level.resize(size, [0u8; 32]);
    while level.len() > 1 {
        level = level.chunks(2).map(|p| h2(&p[0], &p[1])).collect();
    }
    level[0]
}

#[test]
fn incremental_matches_naive_full_tree() {
    let depth = 3;
    let mut tree = IncrementalMerkleTree::new(depth);
    assert_eq!(tree.root(), naive_root(depth, &[]));
    let leaves: Vec<[u8; 32]> = (0..1u64 << depth).map(bench_leaf).collect();
    for i in 0..leaves.len() {
        tree.append(leaves[i]);
        assert_eq!(tree.root(), naive_root(depth, &leaves[..=i]), "after leaf {i}");
    }
    assert_eq!(tree.n_leaves(), 1 << depth);
}

#[test]
fn leaves_and_empty_subtrees() {
    let mut preimage = b"TransLog merkle leaf".to_vec();
    preimage.extend_from_slice(&5u64.to_le_bytes());
    assert_eq!(bench_leaf(5), sha(&preimage));
    let zeros = zero_subtree_roots(3);
    assert_eq!(zeros.len(), 4);
    assert_eq!(zeros[0], [0u8; 32]);
    assert_eq!(zeros[1], h2(&[0; 32], &[0; 32]));
    assert_eq!(zeros[3], naive_root(3, &[]));
    let d: [u8; 32] = std::array::from_fn(|i| i as u8);
    let (hi, lo) = digest_halves(&d);
    assert_eq!(hi, u128::from_be_bytes(d[..16].try_into().unwrap()));
    assert_eq!(lo, u128::from_be_bytes(d[16..].try_into().unwrap()));
}

#[test]
fn append_circuit_follows_the_tree() {
    for depth in [1usize, 2, 5] {
        let mut tree = IncrementalMerkleTree::new(depth);
        let mut state = tree.state_fields();
        for i in 0..(1u64 << depth).min(6) {
            let leaf = bench_leaf(i);
            let circuit = MerkleAppendCircuit::new(depth, leaf);
            assert_eq!(circuit.arity(), state.len());
            let c = circuit.synthesize();
            let s = solve(&c, &state, &circuit.advice()).unwrap();
            state = outputs(&c, &s);
            tree.append(leaf);
            assert_eq!(state, tree.state_fields());
            assert_eq!(tree.n_leaves(), i + 1);
        }
    }
}

/// Lets a run take its course, with the given final state.
fn finish(run: &mut IvcRun, state: Vec<u128>) {
    loop {
        let event = match run.action() {
            IvcAction::Setup { .. } => IvcEvent::SetUp { time: MS, peak: Some(1) },
            IvcAction::ProveStep { step, recursing } => {
                assert_eq!(recursing, step > 0);
                IvcEvent::Stepped { time: MS, peak: Some(2) }
            }
            IvcAction::Verify => IvcEvent::Verified { time: MS, state: state.clone() },
            IvcAction::Finalize => IvcEvent::Finalized {
                time: MS,
                peak: Some(3),
                accepted: true,
                verify_time: MS,
            },
            IvcAction::Stop => return,
        };
        run.advance(event);
    }
}

/// The state that the step circuit reaches in some steps.
fn chained(c: &Circuit, input: [u8; 32], n: usize) -> Vec<u128> {
    let mut state = elements(&input);
    for _ in 0..n {
        let s = solve(c, &state, &[]).unwrap();
        state = outputs(c, &s);
    }
    state
}

#[test]
fn two_step_chain_pasta_compressed() {
    let input = [7u8; 32];
    let mut run = run_ivc(input, 2, true, NovaCurve::Pasta);
    finish(&mut run.ivc, chained(&Sha256ChainCircuit {}.synthesize(), input, 2));
    let out = run.into_output();
    assert_eq!(out.final_state, sha256_chain_native(input, 2));
    assert_eq!(out.report.backend, "Nova (microsoft) + Spartan");
    assert_eq!(
        out.report.config,
        "Pallas/Vesta cycle, Pedersen commitments, transparent Spartan+IPA compression"
    );
    assert_eq!(out.report.n_steps(), 2);
    assert_eq!(out.report.finalize_time, Some(MS));
    assert_eq!(out.report.verify_time, Some(Duration { nanos: 2 * MS.nanos }));
}

#[test]
fn two_step_chain_bn254_compressed() {
    let input = [9u8; 32];
    let mut run = run_ivc(input, 2, true, NovaCurve::Bn254);
    finish(&mut run.ivc, chained(&Sha256ChainCircuit {}.synthesize(), input, 2));
    let out = run.into_output();
    assert_eq!(out.final_state, sha256_chain_native(input, 2));
    assert_eq!(curve_label(NovaCurve::Bn254), "BN254/Grumpkin");
}

#[test]
fn two_step_chain_no_decider() {
    let input = [7u8; 32];
    let mut run = sonobe_ivc::run_ivc(input, 2, false);
    finish(&mut run.ivc, chained(&Sha256ChainFCircuit {}.generate_step_constraints(), input, 2));
    let out = run.into_output();
    assert_eq!(out.final_state, sha256_chain_native(input, 2));
    assert_eq!(out.report.finalize_time, None);
    assert_eq!(out.report.finalize_peak_mem, None);
}

#[test]
fn merkle_ivc_bn254_compressed() {
    let depth = 2;
    let n = 3;
    let mut run = run_merkle_ivc(depth, n, true, NovaCurve::Bn254);
    let mut state = run.z0.clone();
    for step in 0..n {
        let circuit = run.step_circuit(step);
        let c = circuit.synthesize();
        let s = solve(&c, &state, &circuit.advice()).unwrap();
        state = outputs(&c, &s);
    }
    let reprs: Vec<[u8; 32]> = state
        .iter()
        .map(|v| {
            let mut repr = [0u8; 32];
            repr[..16].copy_from_slice(&v.to_le_bytes());
            repr
        })
        .collect();
    finish(&mut run.ivc, element_limbs(&reprs));
    assert_eq!(run.ivc.phase, IvcPhase::Finished);
    let out = run.into_output();
    let leaves: Vec<[u8; 32]> = (0..n as u64).map(bench_leaf).collect();
    assert_eq!(out.root, naive_root(depth, &leaves));
    assert_eq!(out.n_leaves, n as u64);
    assert_eq!(out.report.backend, "Nova (microsoft) + Spartan — Merkle append");
    assert_eq!(
        out.report.config,
        "BN254/Grumpkin cycle, depth-2 incremental SHA-256 Merkle tree (frontier), \
         Pedersen commitments, transparent Spartan+IPA compression"
    );
}

#[test]
fn a_run_says_where_the_state_diverges() {
    let mut run = run_ivc([0u8; 32], 1, false, NovaCurve::Pasta);
    let mut state = elements(&sha(&[0u8; 32]));
    state[17] += 1;
    finish(&mut run.ivc, state);
    assert_eq!(run.ivc.phase, IvcPhase::Failed(IvcFailure::Diverged { at: 17 }));

    let mut run = run_ivc([0u8; 32], 1, false, NovaCurve::Pasta);
    finish(&mut run.ivc, elements(&sha(&[0u8; 32])[..31]));
    assert_eq!(run.ivc.phase, IvcPhase::Failed(IvcFailure::Diverged { at: 31 }));
}

#[test]
fn a_run_stops_on_errors_and_on_a_rejected_proof() {
    let mut run = run_ivc([0u8; 32], 1, true, NovaCurve::Pasta).ivc;
    run.advance(IvcEvent::Error);
    assert_eq!(run.phase, IvcPhase::Failed(IvcFailure::Backend));
    let mut run = run_ivc([0u8; 32], 1, true, NovaCurve::Pasta).ivc;
    run.advance(IvcEvent::Stepped { time: MS, peak: None });
    assert_eq!(run.phase, IvcPhase::Failed(IvcFailure::OutOfOrder));
    let mut run = run_ivc([0u8; 32], 1, true, NovaCurve::Pasta).ivc;
    run.advance(IvcEvent::SetUp { time: MS, peak: None });
    run.advance(IvcEvent::Stepped { time: MS, peak: None });
    run.advance(IvcEvent::Verified { time: MS, state: elements(&sha(&[0u8; 32])) });
    assert_eq!(run.phase, IvcPhase::Finalize);
    run.advance(IvcEvent::Finalized { time: MS, peak: None, accepted: false, verify_time: MS });
    assert_eq!(run.phase, IvcPhase::Failed(IvcFailure::Rejected));
}

#[test]
fn chains_and_their_parts() {
    let input = [3u8; 32];
    assert_eq!(sha256_chain_native(input, 0), input);
    assert_eq!(sha256_chain_native(input, 1), sha(&input));
    let middle = sha256_chain_native(input, 4);
    assert_eq!(sha256_chain_native(middle, 3), sha256_chain_native(input, 7));
}

#[test]
fn states_hold_bytes_and_give_them_back() {
    let bytes: [u8; 32] = std::array::from_fn(|i| 255 - i as u8);
    let state = bytes_to_elements(&bytes);
    assert_eq!(state, elements(&bytes));
    assert_eq!(elements_to_bytes(&state), bytes);
    assert_eq!(sonobe_ivc::state_to_bytes(&sonobe_ivc::bytes_to_state(bytes)), bytes);
    // only the lowest byte of an element counts
    let mut wide = state.clone();
    wide[0] = 0x1_0000_0000_0000_0000_0203;
    assert_eq!(elements_to_bytes(&wide)[0], 0x03);
    assert_eq!(elements_to_bytes(&wide)[1..], bytes[1..]);
}

#[test]
fn numbers_and_bytes() {
    assert_eq!(be_value(&[1, 2, 3]), 0x010203);
    assert_eq!(le_value(&[1, 2, 3]), 0x030201);
    assert_eq!(be_value(&[255; 16]), u128::MAX);
    let bytes = [0x80u8, 0x01, 0xa5];
    let bits = unpack_bytes(&bytes);
    assert!(bits[0] && !bits[1] && bits[15] && !bits[14]);
    assert_eq!(pack_bits(&bits), bytes);
    assert_eq!(byte_of(&[7, 8]), 7);
    let mut repr = [0u8; 32];
    repr[0] = 5;
    repr[15] = 1;
    repr[16] = 9;
    assert_eq!(f_to_u128(&repr), 5 + (1 << 120));
}

#[test]
fn trees_hold_two_to_the_depth_leaves() {
    assert!(can_hold(1, 2));
    assert!(!can_hold(1, 3));
    assert!(can_hold(63, 1 << 63));
    assert!(!can_hold(63, (1 << 63) + 1));
    assert!(can_hold(64, usize::MAX));
}

#[test]
fn step_statistics() {
    let nanos = [30u128, 10, 25];
    let report = IvcReport {
        backend: "x".to_string(),
        config: "y".to_string(),
        setup_time: MS,
        setup_peak_mem: None,
        step_times: nanos.iter().map(|n| Duration { nanos: *n }).collect(),
        steps_peak_mem: None,
        finalize_time: None,
        finalize_peak_mem: None,
        verify_time: None,
    };
    assert_eq!(report.n_steps(), 3);
    assert_eq!(report.total_step_time().nanos, 65);
    assert_eq!(report.avg_step_time().nanos, 21);
    assert_eq!(report.min_step_time().nanos, 10);
    assert_eq!(report.max_step_time().nanos, 30);
    let empty = IvcReport { step_times: Vec::new(), ..report };
    assert_eq!(empty.total_step_time().nanos, 0);
    assert_eq!(empty.avg_step_time().nanos, 0);
    assert_eq!(empty.min_step_time().nanos, 0);
    assert_eq!(empty.max_step_time().nanos, 0);
}

#[test]
fn heap_accounting() {
    let mut a = PeakAllocator::new();
    a.on_alloc(true, 100);
    a.on_alloc(false, 1000);
    a.on_alloc(true, 50);
    a.on_dealloc(100);
    assert_eq!((a.current(), a.peak()), (50, 150));
    a.reset_peak();
    assert_eq!((a.current(), a.peak()), (50, 50));
    a.on_realloc(true, 50, 80);
    assert_eq!((a.current(), a.peak()), (80, 80));
    a.on_realloc(false, 80, 1000);
    assert_eq!((a.current(), a.peak()), (80, 80));
    let mut probe = MemProbe(Some(a));
    probe.reset_peak();
    assert_eq!(probe.peak(), Some(80));
    let mut none = MemProbe::none();
    none.reset_peak();
    assert_eq!(none.peak(), None);
}
