//! The SHA-256 chain that every IVC backend computes.

use crate::hash::{lemma_digest_len, sha256_native, sha256_of};
use crate::sha256_step::{byte_elements, hashes};
use vstd::prelude::*;

verus! {

/// `n` times SHA-256, from `input` on.
pub open spec fn sha256_chain(input: Seq<u8>, n: nat) -> Seq<u8>
    decreases n,
{
    if n == 0 {
        input
    } else {
        sha256_of(sha256_chain(input, (n - 1) as nat))
    }
}

/// `n_steps` times SHA-256, from `input` on.
pub fn sha256_chain_native(input: [u8; 32], n_steps: usize) -> (state: [u8; 32])
    ensures
        state@ == sha256_chain(input@, n_steps as nat),
{
    let mut state: [u8; 32] = input;
    for i in 0..n_steps
        invariant
            state@ == sha256_chain(input@, i as nat),
    {
        state = sha256_native(state.as_slice());
    }
    state
}

/// A chain keeps the length of its state.
pub proof fn lemma_chain_len(input: Seq<u8>, n: nat)
    requires
        input.len() == 32,
    ensures
        sha256_chain(input, n).len() == 32,
{
    if n > 0 {
        lemma_digest_len(sha256_chain(input, (n - 1) as nat));
    }
}

/// No step leaves the state as it is, and one step hashes it once.
pub proof fn lemma_chain_starts(input: Seq<u8>)
    ensures
        sha256_chain(input, 0) == input,
        sha256_chain(input, 1) == sha256_of(input),
{
    assert(sha256_chain(input, 1) == sha256_of(sha256_chain(input, 0)));
}

/// A chain can be continued: `m` steps and then `n` steps are `m + n` steps.
pub proof fn lemma_chain_adds(input: Seq<u8>, m: nat, n: nat)
    ensures
        sha256_chain(sha256_chain(input, m), n) == sha256_chain(input, m + n),
    decreases n,
{
    if n > 0 {
        lemma_chain_adds(input, m, (n - 1) as nat);
    }
}

/// Elements that hold the same bytes come from the same bytes.
pub proof fn lemma_byte_elements_injective(a: Seq<u8>, b: Seq<u8>)
    requires
        byte_elements(a) == byte_elements(b),
    ensures
        a == b,
{
    assert(a.len() == byte_elements(a).len() && b.len() == byte_elements(b).len());
    assert forall|i: int| 0 <= i < a.len() implies a[i] == b[i] by {
        assert(byte_elements(a)[i] == a[i] as int);
        assert(byte_elements(b)[i] == b[i] as int);
    }
    assert(a =~= b);
}

/// States linked by steps of a hashing circuit, from the bytes of `input` on,
/// end at the bytes of the SHA-256 chain.
pub proof fn lemma_steps_are_chain(input: Seq<u8>, states: Seq<Seq<int>>)
    requires
        states.len() > 0,
        states[0] == byte_elements(input),
        forall|i: int| 0 <= i < states.len() - 1 ==> hashes(#[trigger] states[i], states[i + 1]),
    ensures
        states.last() == byte_elements(sha256_chain(input, (states.len() - 1) as nat)),
    decreases states.len(),
{
    if states.len() > 1 {
        let shorter = states.drop_last();
        let n = states.len() - 2;
        assert forall|i: int| 0 <= i < shorter.len() - 1 implies hashes(
            #[trigger] shorter[i],
            shorter[i + 1],
        ) by {
            assert(states[i] == shorter[i]);
        }
        lemma_steps_are_chain(input, shorter);
        let before = sha256_chain(input, n as nat);
        assert(hashes(states[n], states[n + 1]));
        let m = choose|m: Seq<u8>| #[trigger]
            byte_elements(m) == states[n] && states[n + 1] == byte_elements(sha256_of(m))
                && states[n + 1].len() == 32;
        lemma_byte_elements_injective(m, before);
    }
}

} // verus!
