//! The step that every node of the tree proves: `z' = SHA-256(z || ext)`.

use crate::field::{bytes_to_elements, elements_of, elements_to_bytes, low_bytes};
use crate::r1cs::Circuit;
use crate::sha256_step::{is_hash_circuit, linear_hash_circuit};
use vstd::prelude::*;

verus! {

/// External input of a node: the digests of the children but the leftmost, or
/// the rest of a leaf's data block, one byte per element.
#[derive(Clone, Debug)]
pub struct ExtDigests<const ARITY: usize>(pub Vec<u8>);

impl<const ARITY: usize> ExtDigests<ARITY> {
    /// All zeros.
    pub fn zeros() -> (ext: Self)
        requires
            1 <= ARITY,
            32 * (ARITY - 1) <= usize::MAX,
        ensures
            ext.0@ == Seq::new((32 * (ARITY - 1)) as nat, |i: int| 0u8),
    {
        let n = 32 * (ARITY - 1);
        let mut bytes: Vec<u8> = Vec::with_capacity(n);
        for i in 0..n
            invariant
                bytes@.len() == i,
                forall|k: int| 0 <= k < i ==> #[trigger] bytes@[k] == 0,
        {
            bytes.push(0);
        }
        assert(bytes@ =~= Seq::new((32 * (ARITY - 1)) as nat, |i: int| 0u8));
        ExtDigests(bytes)
    }
}

/// The node circuit: `32 * ARITY` bytes are hashed per node. State and
/// external input hold one byte per element.
#[derive(Clone, Copy, Debug)]
pub struct Sha256MergeFCircuit<const ARITY: usize> {}

impl<const ARITY: usize> Sha256MergeFCircuit<ARITY> {
    pub fn new() -> (circuit: Self) {
        Sha256MergeFCircuit {  }
    }

    /// Number of elements in the state.
    pub fn state_len(&self) -> (n: usize)
        ensures
            n == 32,
    {
        32
    }

    /// The constraints of the step. The first 32 inputs are the state, the
    /// others the external input.
    pub fn generate_step_constraints(&self) -> (c: Circuit)
        requires
            1 <= ARITY,
            256 * ARITY + 256 <= usize::MAX,
        ensures
            is_hash_circuit(c, (32 * ARITY) as nat),
    {
        linear_hash_circuit(32 * ARITY)
    }
}

/// The state whose elements hold the given bytes.
pub fn bytes_to_state(bytes: &[u8]) -> (state: Vec<u128>)
    ensures
        state@ == elements_of(bytes@),
{
    bytes_to_elements(bytes)
}

/// The bytes that the elements of a state hold.
pub fn state_to_bytes(state: &[u128]) -> (bytes: [u8; 32])
    requires
        state@.len() <= 32,
    ensures
        bytes@ == low_bytes(state@),
{
    elements_to_bytes(state)
}

} // verus!
