//! SHA-256 of one 32-byte message, word by word.

use crate::bits::digit;
use vstd::bits::lemma_u32_shr_is_div;
use vstd::prelude::*;

verus! {

/// Round constants.
pub const K: [u32; 64] = [
    0x428a2f98, 0x71374491, 0xb5c0fbcf, 0xe9b5dba5, 0x3956c25b, 0x59f111f1, 0x923f82a4, 0xab1c5ed5,
    0xd807aa98, 0x12835b01, 0x243185be, 0x550c7dc3, 0x72be5d74, 0x80deb1fe, 0x9bdc06a7, 0xc19bf174,
    0xe49b69c1, 0xefbe4786, 0x0fc19dc6, 0x240ca1cc, 0x2de92c6f, 0x4a7484aa, 0x5cb0a9dc, 0x76f988da,
    0x983e5152, 0xa831c66d, 0xb00327c8, 0xbf597fc7, 0xc6e00bf3, 0xd5a79147, 0x06ca6351, 0x14292967,
    0x27b70a85, 0x2e1b2138, 0x4d2c6dfc, 0x53380d13, 0x650a7354, 0x766a0abb, 0x81c2c92e, 0x92722c85,
    0xa2bfe8a1, 0xa81a664b, 0xc24b8b70, 0xc76c51a3, 0xd192e819, 0xd6990624, 0xf40e3585, 0x106aa070,
    0x19a4c116, 0x1e376c08, 0x2748774c, 0x34b0bcb5, 0x391c0cb3, 0x4ed8aa4a, 0x5b9cca4f, 0x682e6ff3,
    0x748f82ee, 0x78a5636f, 0x84c87814, 0x8cc70208, 0x90befffa, 0xa4506ceb, 0xbef9a3f7, 0xc67178f2,
];

/// Initial state.
pub const IV: [u32; 8] = [
    0x6a09e667, 0xbb67ae85, 0x3c6ef372, 0xa54ff53a, 0x510e527f, 0x9b05688c, 0x1f83d9ab, 0x5be0cd19,
];

/// Rotation to the right.
pub open spec fn rotate_right(x: u32, n: u32) -> u32 {
    (x >> n) | (x << ((32 - n) as u32))
}

pub open spec fn big_sigma_of(x: u32, r1: u32, r2: u32, r3: u32) -> u32 {
    rotate_right(x, r1) ^ rotate_right(x, r2) ^ rotate_right(x, r3)
}

pub open spec fn small_sigma_of(x: u32, r1: u32, r2: u32, s: u32) -> u32 {
    rotate_right(x, r1) ^ rotate_right(x, r2) ^ (x >> s)
}

pub open spec fn choice(e: u32, f: u32, g: u32) -> u32 {
    (e & f) ^ (!e & g)
}

pub open spec fn majority(x: u32, y: u32, z: u32) -> u32 {
    (x & y) ^ (x & z) ^ (y & z)
}

/// A sum reduced to 32 bits.
pub open spec fn word32(sum: int) -> u32 {
    (sum % 0x1_0000_0000) as u32
}

/// Word `t` of the message schedule of the padded message `m` of eight words.
pub open spec fn schedule(m: Seq<u32>, t: nat) -> u32
    decreases t,
{
    if t < 8 {
        m[t as int]
    } else if t == 8 {
        0x8000_0000
    } else if t < 15 {
        0
    } else if t == 15 {
        256
    } else {
        word32(
            small_sigma_of(schedule(m, (t - 2) as nat), 17, 19, 10) + schedule(m, (t - 7) as nat)
                + small_sigma_of(schedule(m, (t - 15) as nat), 7, 18, 3) + schedule(
                m,
                (t - 16) as nat,
            ),
        )
    }
}

/// `h + S1(e) + ch(e, f, g) + k + w`.
pub open spec fn temp1_of(s: Seq<u32>, k: u32, w: u32) -> int {
    s[7] + big_sigma_of(s[4], 6, 11, 25) + choice(s[4], s[5], s[6]) + k + w
}

/// `S0(a) + maj(a, b, c)`.
pub open spec fn temp2_of(s: Seq<u32>) -> int {
    big_sigma_of(s[0], 2, 13, 22) + majority(s[0], s[1], s[2])
}

/// One round on the working variables.
pub open spec fn round_of(s: Seq<u32>, k: u32, w: u32) -> Seq<u32> {
    seq![
        word32(temp1_of(s, k, w) + temp2_of(s)),
        s[0],
        s[1],
        s[2],
        word32(s[3] + temp1_of(s, k, w)),
        s[4],
        s[5],
        s[6],
    ]
}

/// The working variables after `t` rounds.
pub open spec fn rounds(m: Seq<u32>, t: nat) -> Seq<u32>
    decreases t,
{
    if t == 0 {
        IV@
    } else {
        round_of(rounds(m, (t - 1) as nat), K@[t - 1], schedule(m, (t - 1) as nat))
    }
}

/// SHA-256 of the 32-byte message with the given eight big-endian words, as
/// eight big-endian words.
pub open spec fn sha256_words(m: Seq<u32>) -> Seq<u32> {
    Seq::new(8, |j: int| word32(IV@[j] + rounds(m, 64)[j]))
}

/// Bit `i` of a word.
pub open spec fn bit_of(x: u32, i: u32) -> bool {
    (x >> i) & 1 == 1
}

proof fn lemma_bit_is_digit(x: u32, i: u32)
    requires
        i < 32,
    ensures
        bit_of(x, i) == digit(x as nat, i as nat),
{
    lemma_u32_shr_is_div(x, i);
    let s = x >> i;
    assert((s & 1u32 == 1u32) == (s % 2 == 1)) by (bit_vector);
}

/// Bits of an exclusive or.
pub proof fn lemma_digit_xor(x: u32, y: u32, i: nat)
    requires
        i < 32,
    ensures
        digit((x ^ y) as nat, i) == (digit(x as nat, i) != digit(y as nat, i)),
{
    let k = i as u32;
    lemma_bit_is_digit(x, k);
    lemma_bit_is_digit(y, k);
    lemma_bit_is_digit(x ^ y, k);
    assert((((x ^ y) >> k) & 1 == 1) == (((x >> k) & 1 == 1) != ((y >> k) & 1 == 1)))
        by (bit_vector);
}

/// Bits of a rotation.
pub proof fn lemma_digit_rotate(x: u32, n: u32, i: nat)
    requires
        0 < n < 32,
        i < 32,
    ensures
        digit(rotate_right(x, n) as nat, i) == digit(x as nat, ((i + n) % 32) as nat),
{
    let k = i as u32;
    let r = rotate_right(x, n);
    let m = (32 - n) as u32;
    let j = ((i + n) % 32) as u32;
    lemma_bit_is_digit(r, k);
    lemma_bit_is_digit(x, j);
    assert(((r >> k) & 1 == 1) == ((x >> j) & 1 == 1)) by (bit_vector)
        requires
            r == (x >> n) | (x << m),
            0 < n < 32,
            m == 32 - n,
            k < 32,
            j == (k + n) % 32,
    ;
}

/// Bits of a shift.
pub proof fn lemma_digit_shift_right(x: u32, s: u32, i: nat)
    requires
        s < 32,
        i < 32,
    ensures
        digit((x >> s) as nat, i) == (i + s < 32 && digit(x as nat, i + s as nat)),
{
    let k = i as u32;
    let y = x >> s;
    lemma_bit_is_digit(y, k);
    if i + s < 32 {
        let j = (i + s) as u32;
        lemma_bit_is_digit(x, j);
        assert(((y >> k) & 1 == 1) == ((x >> j) & 1 == 1)) by (bit_vector)
            requires
                y == x >> s,
                s < 32,
                k < 32,
                j == k + s,
                j < 32,
        ;
    } else {
        assert((y >> k) & 1 == 0) by (bit_vector)
            requires
                y == x >> s,
                s < 32,
                k < 32,
                k + s >= 32,
        ;
    }
}

/// Bits of a choice.
pub proof fn lemma_digit_choice(e: u32, f: u32, g: u32, i: nat)
    requires
        i < 32,
    ensures
        digit(choice(e, f, g) as nat, i) == (if digit(e as nat, i) {
            digit(f as nat, i)
        } else {
            digit(g as nat, i)
        }),
{
    let k = i as u32;
    let r = choice(e, f, g);
    lemma_bit_is_digit(e, k);
    lemma_bit_is_digit(f, k);
    lemma_bit_is_digit(g, k);
    lemma_bit_is_digit(r, k);
    assert(((r >> k) & 1 == 1) == (if (e >> k) & 1 == 1 {
        (f >> k) & 1 == 1
    } else {
        (g >> k) & 1 == 1
    })) by (bit_vector)
        requires
            r == (e & f) ^ (!e & g),
            k < 32,
    ;
}

/// Bits of a majority.
pub proof fn lemma_digit_majority(x: u32, y: u32, z: u32, i: nat)
    requires
        i < 32,
    ensures
        digit(majority(x, y, z) as nat, i) == (if digit(x as nat, i) != digit(y as nat, i) {
            digit(z as nat, i)
        } else {
            digit(x as nat, i)
        }),
{
    let k = i as u32;
    let r = majority(x, y, z);
    lemma_bit_is_digit(x, k);
    lemma_bit_is_digit(y, k);
    lemma_bit_is_digit(z, k);
    lemma_bit_is_digit(r, k);
    assert(((r >> k) & 1 == 1) == (if ((x >> k) & 1 == 1) != ((y >> k) & 1 == 1) {
        (z >> k) & 1 == 1
    } else {
        (x >> k) & 1 == 1
    })) by (bit_vector)
        requires
            r == (x & y) ^ (x & z) ^ (y & z),
            k < 32,
    ;
}

} // verus!
