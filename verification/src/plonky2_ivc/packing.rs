//! 32 bytes as eight big-endian words.

use crate::bits::{be_val, be_value};
use vstd::prelude::*;
use vstd::slice::slice_subrange;

verus! {

/// The eight words that 32 bytes write.
pub open spec fn words_of(bytes: Seq<u8>) -> Seq<u32> {
    Seq::new(8, |i: int| be_val(bytes.subrange(4 * i, 4 * i + 4)) as u32)
}

/// The four bytes of a word, most significant first.
pub open spec fn word_bytes(w: u32) -> Seq<u8> {
    seq![
        (w / 0x100_0000) as u8,
        (w / 0x1_0000 % 256) as u8,
        (w / 256 % 256) as u8,
        (w % 256) as u8,
    ]
}

/// The 32 bytes that eight words hold.
pub open spec fn bytes_of_words(words: Seq<u32>) -> Seq<u8> {
    Seq::new(32, |i: int| word_bytes(words[i / 4])[i % 4])
}

proof fn lemma_four_bytes(b: Seq<u8>)
    requires
        b.len() == 4,
    ensures
        be_val(b) == b[0] * 0x100_0000 + b[1] * 0x1_0000 + b[2] * 256 + b[3],
{
    reveal_with_fuel(be_val, 5);
    assert(b.drop_last().drop_last().drop_last().drop_last().len() == 0);
}

/// The digits of a number to the base 256.
proof fn lemma_digits(a: u8, b: u8, c: u8, d: u8, w: u32)
    by (bit_vector)
    requires
        w == a * 0x100_0000 + b * 0x1_0000 + c * 256 + d,
    ensures
        w / 0x100_0000 == a,
        w / 0x1_0000 % 256 == b,
        w / 256 % 256 == c,
        w % 256 == d,
{
}

proof fn lemma_from_digits(w: u32)
    by (bit_vector)
    ensures
        w / 0x100_0000 < 256,
        w / 0x100_0000 * 0x100_0000 + w / 0x1_0000 % 256 * 0x1_0000 + w / 256 % 256 * 256 + w % 256
            == w,
{
}

proof fn lemma_word_of_bytes(b: Seq<u8>)
    requires
        b.len() == 4,
    ensures
        be_val(b) <= u32::MAX,
        word_bytes(be_val(b) as u32) == b,
{
    lemma_four_bytes(b);
    let w = be_val(b) as u32;
    lemma_digits(b[0], b[1], b[2], b[3], w);
    assert(word_bytes(w) =~= b);
}

/// Unpacking the words that bytes were packed into gives the bytes back.
pub proof fn lemma_words_round_trip(bytes: Seq<u8>)
    requires
        bytes.len() == 32,
    ensures
        bytes_of_words(words_of(bytes)) == bytes,
{
    assert forall|i: int| 0 <= i < 32 implies #[trigger] bytes_of_words(words_of(bytes))[i]
        == bytes[i] by {
        let part = bytes.subrange(4 * (i / 4), 4 * (i / 4) + 4);
        lemma_word_of_bytes(part);
        assert(part[i % 4] == bytes[i]);
    }
    assert(bytes_of_words(words_of(bytes)) =~= bytes);
}

/// Packing the bytes of words gives the words back.
pub proof fn lemma_bytes_round_trip(words: Seq<u32>)
    requires
        words.len() == 8,
    ensures
        words_of(bytes_of_words(words)) == words,
{
    let bytes = bytes_of_words(words);
    assert forall|i: int| 0 <= i < 8 implies #[trigger] words_of(bytes)[i] == words[i] by {
        let part = bytes.subrange(4 * i, 4 * i + 4);
        assert(part =~= word_bytes(words[i]));
        lemma_four_bytes(part);
        lemma_from_digits(words[i]);
    }
    assert(words_of(bytes) =~= words);
}

/// Packs 32 bytes into eight big-endian words.
pub fn bytes_to_words(bytes: [u8; 32]) -> (words: [u32; 8])
    ensures
        words@ == words_of(bytes@),
{
    let mut words: [u32; 8] = [0; 8];
    for i in 0..8usize
        invariant
            forall|k: int| 0 <= k < i ==> #[trigger] words@[k] == words_of(bytes@)[k],
    {
        let part = slice_subrange(bytes.as_slice(), 4 * i, 4 * i + 4);
        proof {
            lemma_word_of_bytes(part@);
        }
        words[i] = be_value(part) as u32;
    }
    assert(words@ =~= words_of(bytes@));
    words
}

/// Unpacks eight words into their bytes.
pub fn words_to_bytes(words: &[u32; 8]) -> (bytes: [u8; 32])
    ensures
        bytes@ == bytes_of_words(words@),
{
    let mut bytes: [u8; 32] = [0; 32];
    for i in 0..8usize
        invariant
            forall|k: int| 0 <= k < 4 * i ==> #[trigger] bytes@[k] == bytes_of_words(words@)[k],
    {
        let w = words[i];
        bytes[4 * i] = (w / 0x100_0000) as u8;
        bytes[4 * i + 1] = (w / 0x1_0000 % 256) as u8;
        bytes[4 * i + 2] = (w / 256 % 256) as u8;
        bytes[4 * i + 3] = (w % 256) as u8;
    }
    assert(bytes@ =~= bytes_of_words(words@));
    bytes
}

/// A word is four bytes, the first of which counts most.
pub proof fn lemma_word_value(bytes: Seq<u8>, i: int)
    requires
        bytes.len() == 32,
        0 <= i < 8,
    ensures
        words_of(bytes).len() == 8,
        words_of(bytes)[i] == bytes[4 * i] * 0x100_0000 + bytes[4 * i + 1] * 0x1_0000 + bytes[4 * i
            + 2] * 0x100 + bytes[4 * i + 3],
{
    let part = bytes.subrange(4 * i, 4 * i + 4);
    lemma_word_of_bytes(part);
    lemma_four_bytes(part);
}

} // verus!
