//! SHA-256 as the rest of the library sees it.

use crate::plonky2_ivc::packing::{bytes_of_words, lemma_bytes_round_trip, lemma_words_round_trip,
    words_of};
use crate::plonky2_ivc::words::sha256_words;
use vstd::prelude::*;

verus! {

/// What `sha2`'s `Sha256::digest` returns for the bytes `data`.
pub uninterp spec fn sha256_digest(data: Seq<u8>) -> [u8; 32];

/// SHA-256 of `data` as a byte string. A message of 32 bytes is one block, and
/// its digest is given word by word; of others only `sha2` says what it is.
#[verifier::opaque]
pub open spec fn sha256_of(data: Seq<u8>) -> Seq<u8> {
    if data.len() == 32 {
        bytes_of_words(sha256_words(words_of(data)))
    } else {
        sha256_digest(data)@
    }
}

/// Calls `sha2::Sha256::digest` on `data`: the 32 bytes that come back depend on
/// these bytes alone. Of a message of 32 bytes they are the eight words, most
/// significant byte first, that the rounds of SHA-256 make of the message's eight
/// words and its padding.
#[verifier::external_body]
fn digest_bytes(data: &[u8]) -> (digest: [u8; 32])
    ensures
        digest == sha256_digest(data@),
        data@.len() == 32 ==> words_of(digest@) == sha256_words(words_of(data@)),
{
    <sha2::Sha256 as sha2::Digest>::digest(data).into()
}

/// SHA-256 of `data`.
pub(crate) fn sha256_native(data: &[u8]) -> (digest: [u8; 32])
    ensures
        digest@ == sha256_of(data@),
{
    let digest = digest_bytes(data);
    proof {
        reveal(sha256_of);
        lemma_words_round_trip(digest@);
    }
    digest
}

/// A digest has 32 bytes.
pub proof fn lemma_digest_len(data: Seq<u8>)
    ensures
        sha256_of(data).len() == 32,
{
    reveal(sha256_of);
}

/// The words of a 32-byte message's digest are those that the rounds of SHA-256
/// make of the message's words.
pub proof fn lemma_digest_words(data: Seq<u8>)
    requires
        data.len() == 32,
    ensures
        words_of(sha256_of(data)) == sha256_words(words_of(data)),
{
    reveal(sha256_of);
    lemma_bytes_round_trip(sha256_words(words_of(data)));
}

/// The 32 bytes of an array of digests, one sequence per digest.
pub open spec fn digest_views(digests: Seq<[u8; 32]>) -> Seq<Seq<u8>> {
    digests.map_values(|d: [u8; 32]| d@)
}

/// The all-zero digest.
pub open spec fn zero_digest() -> Seq<u8> {
    Seq::new(32, |i: int| 0u8)
}

/// SHA-256 of the 64 bytes `l || r`.
pub fn h2(l: &[u8; 32], r: &[u8; 32]) -> (digest: [u8; 32])
    ensures
        digest@ == sha256_of(l@ + r@),
{
    let mut buf: Vec<u8> = Vec::with_capacity(64);
    buf.extend_from_slice(l.as_slice());
    buf.extend_from_slice(r.as_slice());
    assert(buf@ =~= l@ + r@);
    sha256_native(buf.as_slice())
}

/// Whether two digests hold the same bytes.
pub fn same_digest(a: &[u8; 32], b: &[u8; 32]) -> (same: bool)
    ensures
        same == (a@ == b@),
        same == (*a == *b),
{
    for i in 0..32usize
        invariant
            forall|k: int| 0 <= k < i ==> a@[k] == b@[k],
    {
        if a[i] != b[i] {
            return false;
        }
    }
    assert(a@ =~= b@);
    assert(*a == *b);
    true
}

} // verus!
