//! Step circuits replayed on the constraint systems of the proof systems, with
//! their own SHA-256 gadgets.

use ark_crypto_primitives::crh::sha256::constraints::{Sha256Gadget, UnitVar};
use ark_crypto_primitives::crh::CRHSchemeGadget;
use ark_r1cs_std::alloc::AllocVar;
use ark_r1cs_std::boolean::Boolean as ArkBoolean;
use ark_r1cs_std::convert::ToBitsGadget;
use ark_r1cs_std::eq::EqGadget;
use ark_r1cs_std::fields::fp::FpVar;
use ark_r1cs_std::fields::FieldVar;
use ark_r1cs_std::uint8::UInt8;
use ark_r1cs_std::R1CSVar;
use ff::{Field, PrimeField};
use nova_snark::frontend::gadgets::boolean::{AllocatedBit, Boolean};
use nova_snark::frontend::gadgets::sha256::sha256;
use nova_snark::frontend::num::AllocatedNum;
use nova_snark::frontend::test_cs::TestConstraintSystem;
use nova_snark::frontend::{ConstraintSystem, LinearCombination};
use nova_snark::provider::{Bn256EngineIPA, PallasEngine};
use nova_snark::traits::Engine;
use sha2::{Digest, Sha256};
use translog::hypernova_pcd::circuit::Sha256MergeFCircuit;
use translog::nova_spartan_ivc::ivc::f_to_u128;
use translog::nova_spartan_ivc::merkle::{bench_leaf, IncrementalMerkleTree, MerkleAppendCircuit};
use translog::nova_spartan_ivc::Sha256ChainCircuit;
use translog::r1cs::{BitHint, Circuit, Lit, NumHint, Op, Term, Var};
use translog::sonobe_ivc::Sha256ChainFCircuit;

fn literal(lit: &Lit, bits: &[Boolean]) -> Boolean {
    match lit {
        Lit::Constant(b) => Boolean::Constant(*b),
        Lit::Bit(i) => bits[*i].clone(),
    }
}

fn combination<F: PrimeField>(
    terms: &[Term],
    bits: &[Boolean],
    nums: &[AllocatedNum<F>],
) -> LinearCombination<F> {
    let one = TestConstraintSystem::<F>::one();
    let mut lc = LinearCombination::<F>::zero();
    for t in terms {
        let coeff = if t.negative { -F::from_u128(t.coeff) } else { F::from_u128(t.coeff) };
        lc = match t.var {
            Var::One => lc + (coeff, one),
            Var::Bit(i) => lc + &bits[i].lc(one, coeff),
            Var::Num(i) => lc + (coeff, nums[i].get_variable()),
        };
    }
    lc
}

/// Replays a circuit on Nova's frontend; returns the outgoing state, and
/// whether all constraints are satisfied.
fn on_nova<F: PrimeField>(c: &Circuit, state: &[u128], advice: &[bool]) -> (Vec<u128>, bool) {
    let mut cs = TestConstraintSystem::<F>::new();
    let mut bits: Vec<Boolean> = Vec::new();
    let mut nums: Vec<AllocatedNum<F>> = Vec::new();
    for (i, v) in state.iter().enumerate() {
        let v = F::from_u128(*v);
        nums.push(AllocatedNum::alloc(cs.namespace(|| format!("z {i}")), || Ok(v)).unwrap());
    }
    for (k, op) in c.ops.iter().enumerate() {
        match op {
            Op::AllocBit { slot, hint } => {
                let value = match hint {
                    BitHint::Input { num, shift } => {
                        let v = nums[*num].get_value().unwrap();
                        (f_to_u128(v.to_repr().as_ref()) >> shift) & 1 == 1
                    }
                    BitHint::Advice { index } => advice[*index],
                    BitHint::Select { by, yes, no } => {
                        let by = literal(by, &bits).get_value().unwrap();
                        literal(if by { yes } else { no }, &bits).get_value().unwrap()
                    }
                };
                assert_eq!(*slot, bits.len());
                let bit = AllocatedBit::alloc(cs.namespace(|| format!("b {slot}")), Some(value));
                bits.push(Boolean::from(bit.unwrap()));
            }
            Op::AllocNum { slot, value } => {
                let value: F = match value {
                    NumHint::Pack(lits) => F::from_u128(lits.iter().fold(0u128, |acc, l| {
                        (acc << 1) | literal(l, &bits).get_value().unwrap() as u128
                    })),
                    NumHint::Successor => nums[0].get_value().unwrap() + F::ONE,
                };
                assert_eq!(*slot, nums.len());
                let num = AllocatedNum::alloc(cs.namespace(|| format!("n {slot}")), || Ok(value));
                nums.push(num.unwrap());
            }
            Op::Enforce { a, b, c } => {
                let a = combination(a, &bits, &nums);
                let b = combination(b, &bits, &nums);
                let c = combination(c, &bits, &nums);
                cs.enforce(|| format!("c {k}"), |lc| lc + &a, |lc| lc + &b, |lc| lc + &c);
            }
            Op::Sha256 { message, first } => {
                assert_eq!(*first, bits.len());
                let message: Vec<Boolean> = message.iter().map(|l| literal(l, &bits)).collect();
                bits.extend(sha256(cs.namespace(|| format!("h {k}")), &message).unwrap());
            }
        }
    }
    let out = c
        .outputs
        .iter()
        .map(|terms| match terms.as_slice() {
            [Term { coeff: 1, negative: false, var: Var::Num(i) }] => {
                f_to_u128(nums[*i].get_value().unwrap().to_repr().as_ref())
            }
            _ => panic!("an output is no single element"),
        })
        .collect();
    (out, cs.is_satisfied())
}

fn elements(bytes: &[u8]) -> Vec<u128> {
    bytes.iter().map(|b| *b as u128).collect()
}

type PallasScalar = <PallasEngine as Engine>::Scalar;
type Bn254Scalar = <Bn256EngineIPA as Engine>::Scalar;

#[test]
fn chain_circuit_on_nova() {
    let input: [u8; 32] = std::array::from_fn(|i| (7 * i + 3) as u8);
    let c = Sha256ChainCircuit {}.synthesize();
    let expected = elements(&Sha256::digest(input));
    assert_eq!(on_nova::<PallasScalar>(&c, &elements(&input), &[]), (expected.clone(), true));
    assert_eq!(on_nova::<Bn254Scalar>(&c, &elements(&input), &[]), (expected, true));
    let mut wide = elements(&input);
    wide[5] += 256;
    assert!(!on_nova::<PallasScalar>(&c, &wide, &[]).1);
}

#[test]
fn append_circuit_on_nova() {
    let mut tree = IncrementalMerkleTree::new(2);
    for i in 0..3 {
        let leaf = bench_leaf(i);
        let circuit = MerkleAppendCircuit::new(2, leaf);
        let state = tree.state_fields();
        let (out, ok) = on_nova::<Bn254Scalar>(&circuit.synthesize(), &state, &circuit.advice());
        tree.append(leaf);
        assert_eq!(out, tree.state_fields());
        assert!(ok);
    }
    // a full tree has no room for another leaf
    tree.append(bench_leaf(3));
    let circuit = MerkleAppendCircuit::new(2, bench_leaf(4));
    let state = tree.state_fields();
    assert!(!on_nova::<Bn254Scalar>(&circuit.synthesize(), &state, &circuit.advice()).1);
}

type Fr = ark_bn254::Fr;

fn ark_literal(lit: &Lit, bits: &[ArkBoolean<Fr>]) -> ArkBoolean<Fr> {
    match lit {
        Lit::Constant(b) => ArkBoolean::constant(*b),
        Lit::Bit(i) => bits[*i].clone(),
    }
}

fn ark_combination(terms: &[Term], bits: &[ArkBoolean<Fr>], nums: &[FpVar<Fr>]) -> FpVar<Fr> {
    let mut total = FpVar::zero();
    for t in terms {
        let coeff = if t.negative { -Fr::from(t.coeff) } else { Fr::from(t.coeff) };
        total += match t.var {
            Var::One => FpVar::constant(coeff),
            Var::Bit(i) => FpVar::from(bits[i].clone()) * coeff,
            Var::Num(i) => &nums[i] * coeff,
        };
    }
    total
}

/// Replays a circuit of the linear kind on arkworks.
fn on_ark(c: &Circuit, state: &[u128]) -> (Vec<Fr>, bool) {
    let cs = ark_relations::r1cs::ConstraintSystem::<Fr>::new_ref();
    let nums: Vec<FpVar<Fr>> = state
        .iter()
        .map(|v| FpVar::new_witness(cs.clone(), || Ok(Fr::from(*v))).unwrap())
        .collect();
    let mut bits: Vec<ArkBoolean<Fr>> = Vec::new();
    for op in &c.ops {
        match op {
            Op::AllocBit { hint: BitHint::Input { num, shift }, .. } => {
                let value = (state[*num] >> shift) & 1 == 1;
                bits.push(ArkBoolean::new_witness(cs.clone(), || Ok(value)).unwrap());
            }
            Op::Enforce { a, b, c } => {
                let a = ark_combination(a, &bits, &nums);
                let b = ark_combination(b, &bits, &nums);
                (a * b).enforce_equal(&ark_combination(c, &bits, &nums)).unwrap();
            }
            Op::Sha256 { message, .. } => {
                let bytes: Vec<UInt8<Fr>> = message
                    .chunks(8)
                    .map(|byte| {
                        let le: Vec<ArkBoolean<Fr>> =
                            byte.iter().rev().map(|l| ark_literal(l, &bits)).collect();
                        UInt8::from_bits_le(&le)
                    })
                    .collect();
                let digest = Sha256Gadget::evaluate(&UnitVar::default(), &bytes).unwrap();
                for byte in &digest.0 {
                    bits.extend(byte.to_bits_le().unwrap().into_iter().rev());
                }
            }
            _ => panic!("not a circuit of the linear kind"),
        }
    }
    let out = c
        .outputs
        .iter()
        .map(|terms| ark_combination(terms, &bits, &nums).value().unwrap())
        .collect();
    (out, cs.is_satisfied().unwrap())
}

fn fr_elements(bytes: &[u8]) -> Vec<Fr> {
    bytes.iter().map(|b| Fr::from(*b)).collect()
}

#[test]
fn chain_circuit_on_arkworks() {
    let input: [u8; 32] = std::array::from_fn(|i| (11 * i + 200) as u8);
    let c = Sha256ChainFCircuit {}.generate_step_constraints();
    let (out, ok) = on_ark(&c, &elements(&input));
    assert_eq!(out, fr_elements(&Sha256::digest(input)));
    assert!(ok);
    let mut wide = elements(&input);
    wide[0] += 512;
    assert!(!on_ark(&c, &wide).1);
}

#[test]
fn node_circuit_on_arkworks() {
    let bytes: Vec<u8> = (0..64usize).map(|i| (5 * i) as u8).collect();
    let c = Sha256MergeFCircuit::<2>::new().generate_step_constraints();
    let (out, ok) = on_ark(&c, &elements(&bytes));
    assert_eq!(out, fr_elements(&Sha256::digest(&bytes)));
    assert!(ok);
}

#[test]
fn elements_of_both_frontends_hold_the_same_numbers() {
    let v: u128 = 0x0123_4567_89ab_cdef_0011_2233_4455_6677;
    let pallas = PallasScalar::from_u128(v);
    assert_eq!(f_to_u128(pallas.to_repr().as_ref()), v);
    assert_eq!(f_to_u128((pallas + PallasScalar::ONE).to_repr().as_ref()), v + 1);
    // past 128 bits only the low ones are read
    let shifted = PallasScalar::from_u128(1 << 127) * PallasScalar::from_u128(4);
    assert_eq!(f_to_u128((shifted + PallasScalar::ONE).to_repr().as_ref()), 1);
}
