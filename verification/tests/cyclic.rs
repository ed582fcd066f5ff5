//! The chain on cyclic recursion: gates against the real hash, and runs.

use translog::bench_common::Duration;
use translog::ivc_run::{IvcAction, IvcEvent, IvcFailure, IvcPhase};
use translog::plonky2_ivc::cyclic::{CyclicAction, CyclicEvent, CyclicPhase, MAX_LAYERS};
use translog::plonky2_ivc::gates::{Gate, GateCircuit, ORDER};
use translog::plonky2_ivc::ivc::shown_state;
use translog::plonky2_ivc::packing::words_to_bytes;
use translog::plonky2_ivc::sha256::{bytes_to_words, sha256_32bytes, sha256_chain_native};
use translog::plonky2_ivc::step::StepCircuit;
use translog::plonky2_ivc::witness::{fill, satisfied};
use translog::plonky2_ivc::{build_cyclic_circuit, build_step_circuit, run_ivc, NoSteps};

const MS: Duration = Duration { nanos: 1_000_000 };

#[test]
fn hash_gates_agree_with_the_hash() {
    let mut c = GateCircuit::new();
    let input: [usize; 8] = std::array::from_fn(|_| c.push(Gate::Free));
    let output = sha256_32bytes(&mut c, &input);
    let mut messages: Vec<[u8; 32]> = vec![[0; 32], [0xff; 32], [0x80; 32]];
    for seed in 0..4u8 {
        messages.push(std::array::from_fn(|i| (i as u8).wrapping_mul(31).wrapping_add(seed)));
    }
    for bytes in messages {
        let words = bytes_to_words(bytes);
        let inputs: Vec<u64> = words.iter().map(|w| *w as u64).collect();
        let mut v = fill(&c, &inputs);
        assert!(satisfied(&c, &v));
        let digest: [u32; 8] = std::array::from_fn(|j| v[output[j]] as u32);
        assert_eq!(words_to_bytes(&digest), sha256_chain_native(bytes, 1));
        // another digest does not satisfy the gates
        v[output[3]] = (v[output[3]] + 1) % ORDER;
        assert!(!satisfied(&c, &v));
    }
}

#[test]
fn digest_of_zeros() {
    let expected: [u8; 32] = [
        0x66, 0x68, 0x7a, 0xad, 0xf8, 0x62, 0xbd, 0x77, 0x6c, 0x8f, 0xc1, 0x8b, 0x8e, 0x9f, 0x8e,
        0x20, 0x08, 0x97, 0x14, 0x85, 0x6e, 0xe2, 0x33, 0xb3, 0x90, 0x2a, 0x59, 0x1d, 0x0d, 0x5f,
        0x29, 0x25,
    ];
    assert_eq!(sha256_chain_native([0; 32], 1), expected);
}

#[test]
fn single_gates() {
    let mut c = GateCircuit::new();
    let x = c.push(Gate::Free);
    let b = c.push(Gate::Bool);
    let five = c.push(Gate::Constant { value: 5 });
    let s = c.push(Gate::Add { x, y: five });
    let m = c.push(Gate::Arithmetic { c0: 2, c1: ORDER - 1, x, y: five, z: s });
    let pick = c.push(Gate::Select { by: b, x, y: five });
    let all = c.push(Gate::AddMany { terms: vec![x, five, s] });
    let bits = c.push(Gate::SplitLe { x, n: 4 });
    let back = c.push(Gate::LeSum { bits: vec![bits, bits + 1, bits + 2, bits + 3] });
    c.push(Gate::Connect { x, y: back });
    let v = fill(&c, &[11, 1]);
    assert_eq!(v[s], 16);
    assert_eq!(v[m], 2 * 55 - 16);
    assert_eq!(v[pick], 11);
    assert_eq!(v[all], 32);
    assert_eq!(v[bits..bits + 4], [1, 1, 0, 1]);
    assert_eq!(v[back], 11);
    assert!(satisfied(&c, &v));
    // a number of more than four binary digits is not the sum of its last four
    assert!(!satisfied(&c, &fill(&c, &[27, 0])));
    // a Boolean is zero or one
    assert!(!satisfied(&c, &fill(&c, &[11, 2])));
    // sums wrap around the order of the field
    let v = fill(&c, &[ORDER - 1, 0]);
    assert_eq!(v[s], 4);
    assert_eq!(v[pick], 5);
}

/// The free wires of a step, for an inner proof with these public inputs.
fn inputs(step: &StepCircuit, initial: &[u32; 8], inner: &[u64], recursing: bool) -> Vec<u64> {
    let input: Vec<u64> = if recursing {
        inner[8..16].to_vec()
    } else {
        initial.iter().map(|w| *w as u64).collect()
    };
    let counter = if recursing { inner[16] + 1 } else { 1 };
    let mut row: Vec<u64> = initial.iter().map(|w| *w as u64).collect();
    row.extend(input);
    row.push(counter);
    if step.recursion.is_some() {
        row.push(recursing as u64);
        row.extend_from_slice(inner);
    }
    row
}

fn public_inputs(step: &StepCircuit, v: &[u64]) -> Vec<u64> {
    let mut pis: Vec<u64> = step.initial_state.iter().map(|w| v[*w]).collect();
    pis.extend(step.step_output.iter().map(|w| v[*w]));
    pis.push(v[step.counter]);
    pis
}

#[test]
fn three_step_chain() {
    let input = [7u8; 32];
    let mut run = run_ivc(input, 3).unwrap();
    let step = build_step_circuit(true);
    let mut pis: Vec<u64> = run.initial_words.iter().map(|w| *w as u64).collect();
    pis.resize(17, 0);
    loop {
        let event = match run.ivc.action() {
            IvcAction::Setup { with_keys } => {
                assert!(!with_keys);
                IvcEvent::SetUp { time: MS, peak: None }
            }
            IvcAction::ProveStep { recursing, .. } => {
                let row = inputs(&step, &run.initial_words, &pis, recursing);
                let v = fill(&step.circuit, &row);
                assert!(satisfied(&step.circuit, &v));
                pis = public_inputs(&step, &v);
                IvcEvent::Stepped { time: MS, peak: None }
            }
            IvcAction::Verify => IvcEvent::Verified { time: MS, state: shown_state(&pis) },
            IvcAction::Finalize => panic!("no final proof is asked for"),
            IvcAction::Stop => break,
        };
        run.ivc.advance(event);
    }
    assert_eq!(run.ivc.phase, IvcPhase::Finished);
    assert_eq!(pis[16], 3);
    let out = run.into_output(17);
    assert_eq!(out.final_state, sha256_chain_native(input, 3));
    assert_eq!(out.report.backend, "Plonky2 (cyclic STARK/FRI recursion)");
    assert_eq!(out.report.config, "Goldilocks 64-bit field, Poseidon hasher, degree 2^17");
    assert_eq!(out.report.finalize_time, None);
}

#[test]
fn the_seed_layer_is_one_step() {
    let step = build_step_circuit(false);
    assert!(step.recursion.is_none());
    let bytes = [4u8; 32];
    let words = bytes_to_words(bytes);
    let v = fill(&step.circuit, &inputs(&step, &words, &[], false));
    assert!(satisfied(&step.circuit, &v));
    let digest: [u32; 8] = std::array::from_fn(|j| v[step.step_output[j]] as u32);
    assert_eq!(words_to_bytes(&digest), sha256_chain_native(bytes, 1));
}

#[test]
fn a_step_that_miscounts_is_not_satisfied() {
    let step = build_step_circuit(true);
    let words = bytes_to_words([1u8; 32]);
    let mut inner: Vec<u64> = words.iter().map(|w| *w as u64).collect();
    inner.resize(17, 0);
    let mut row = inputs(&step, &words, &inner, false);
    assert!(satisfied(&step.circuit, &fill(&step.circuit, &row)));
    row[16] = 2;
    assert!(!satisfied(&step.circuit, &fill(&step.circuit, &row)));
    // another initial state than the inner proof's
    inner[0] += 1;
    let row = inputs(&step, &words, &inner, false);
    assert!(!satisfied(&step.circuit, &fill(&step.circuit, &row)));
}

#[test]
fn a_run_without_steps_is_refused() {
    assert_eq!(run_ivc([0; 32], 0).err(), Some(NoSteps {}));
}

#[test]
fn a_wrong_counter_or_word_diverges() {
    for (at, pos) in [(0usize, 16usize), (1, 8), (8, 15)] {
        let input = [2u8; 32];
        let mut run = run_ivc(input, 1).unwrap();
        run.ivc.advance(IvcEvent::SetUp { time: MS, peak: None });
        run.ivc.advance(IvcEvent::Stepped { time: MS, peak: None });
        let mut pis: Vec<u64> = bytes_to_words(input).iter().map(|w| *w as u64).collect();
        pis.extend(bytes_to_words(sha256_chain_native(input, 1)).iter().map(|w| *w as u64));
        pis.push(1);
        pis[pos] += 1;
        run.ivc.advance(IvcEvent::Verified { time: MS, state: shown_state(&pis) });
        assert_eq!(run.ivc.phase, IvcPhase::Failed(IvcFailure::Diverged { at }));
    }
}

#[test]
fn words_are_big_endian() {
    let bytes: [u8; 32] = std::array::from_fn(|i| i as u8);
    let words = bytes_to_words(bytes);
    assert_eq!(words[0], 0x00010203);
    assert_eq!(words[7], 0x1c1d1e1f);
    assert_eq!(words_to_bytes(&words), bytes);
}

#[test]
fn the_search_for_a_fixed_point() {
    let mut search = build_cyclic_circuit();
    assert_eq!(search.action(), CyclicAction::BuildSeed);
    search.advance(CyclicEvent::Seeded);
    search.advance(CyclicEvent::Layered { same: false });
    assert_eq!(search.action(), CyclicAction::BuildLayer);
    search.advance(CyclicEvent::Layered { same: true });
    assert_eq!(search.phase, CyclicPhase::Found);
    assert_eq!(search.action(), CyclicAction::Stop);

    let mut search = build_cyclic_circuit();
    search.advance(CyclicEvent::Seeded);
    for _ in 0..MAX_LAYERS {
        assert_eq!(search.action(), CyclicAction::BuildLayer);
        search.advance(CyclicEvent::Layered { same: false });
    }
    assert_eq!(search.phase, CyclicPhase::NoFixedPoint);

    let mut search = build_cyclic_circuit();
    search.advance(CyclicEvent::Error);
    assert_eq!(search.phase, CyclicPhase::Failed);
}
