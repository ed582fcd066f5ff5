//! States of field elements that hold one byte each, by the elements' values.

use ark_ff::{BigInteger, PrimeField};
use crate::bits::le_bytes;
use vstd::prelude::*;

verus! {

/// Calls `ark_bn254::Fr::from` on a 128-bit number, `into_bigint` on the
/// element and `to_bytes_le` on the result. The scalar field of BN254 has more
/// than `2^128` elements, so the 32 bytes that come back are those of the
/// number itself, least significant first.
#[verifier::external_body]
fn element_bytes(value: u128) -> (bytes: Vec<u8>)
    ensures
        bytes@ == le_bytes(value as nat, 32),
{
    ark_bn254::Fr::from(value).into_bigint().to_bytes_le()
}

/// The element values of a row of bytes.
pub open spec fn elements_of(bytes: Seq<u8>) -> Seq<u128> {
    bytes.map_values(|b: u8| b as u128)
}

/// The low byte of each element value, followed by zeros up to 32 bytes.
pub open spec fn low_bytes(state: Seq<u128>) -> Seq<u8> {
    Seq::new(
        32,
        |i: int|
            if i < state.len() {
                (state[i] % 256) as u8
            } else {
                0u8
            },
    )
}

/// The element values of a row of bytes.
pub fn bytes_to_elements(bytes: &[u8]) -> (state: Vec<u128>)
    ensures
        state@ == elements_of(bytes@),
{
    let mut state: Vec<u128> = Vec::with_capacity(bytes.len());
    for i in 0..bytes.len()
        invariant
            state@ == elements_of(bytes@).take(i as int),
    {
        state.push(bytes[i] as u128);
        assert(state@ =~= elements_of(bytes@).take(i + 1));
    }
    assert(state@ =~= elements_of(bytes@));
    state
}

/// The bytes that a state of at most 32 elements holds.
pub fn elements_to_bytes(state: &[u128]) -> (bytes: [u8; 32])
    requires
        state@.len() <= 32,
    ensures
        bytes@ == low_bytes(state@),
{
    let mut bytes: [u8; 32] = [0u8; 32];
    for i in 0..state.len()
        invariant
            state@.len() <= 32,
            forall|k: int|
                0 <= k < 32 ==> #[trigger] bytes@[k] == (if k < i {
                    (state@[k] % 256) as u8
                } else {
                    0u8
                }),
    {
        let repr = element_bytes(state[i]);
        assert(repr@[0] == (state@[i as int] as nat % 256) as u8 && repr@.len() == 32) by {
            lemma_le_bytes_len(state@[i as int] as nat, 32);
        }
        bytes[i] = repr[0];
    }
    assert(bytes@ =~= low_bytes(state@));
    bytes
}

proof fn lemma_le_bytes_len(v: nat, n: nat)
    ensures
        le_bytes(v, n).len() == n,
    decreases n,
{
    if n > 0 {
        lemma_le_bytes_len(v / 256, (n - 1) as nat);
    }
}

/// An element holds its byte as a number; read back, it is the number modulo 256,
/// and what is not there is zero.
pub proof fn lemma_elements(bytes: Seq<u8>, state: Seq<u128>, i: int)
    ensures
        elements_of(bytes).len() == bytes.len(),
        0 <= i < bytes.len() ==> elements_of(bytes)[i] == bytes[i],
        low_bytes(state).len() == 32,
        0 <= i < 32 && i < state.len() ==> (state[i] - low_bytes(state)[i]) % 256 == 0,
        state.len() <= i < 32 ==> low_bytes(state)[i] == 0,
{
}

/// Reading a state back gives the bytes that were written into it.
pub proof fn lemma_state_round_trip(bytes: Seq<u8>)
    requires
        bytes.len() == 32,
    ensures
        low_bytes(elements_of(bytes)) == bytes,
{
    assert(low_bytes(elements_of(bytes)) =~= bytes);
}

} // verus!
