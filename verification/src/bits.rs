//! Bit strings, the numbers they write and the bytes they pack into. Every
//! string is read with its most significant bit first.

use vstd::arithmetic::div_mod::lemma_div_denominator;
use vstd::arithmetic::power2::{lemma2_to64, lemma2_to64_rest, lemma_pow2_adds, lemma_pow2_pos,
    lemma_pow2_strictly_increases, lemma_pow2_unfold, pow2};
use vstd::bits::lemma_u8_shr_is_div;
use vstd::prelude::*;

verus! {

/// The number that a bit string writes.
pub open spec fn bits_val(bits: Seq<bool>) -> nat
    decreases bits.len(),
{
    if bits.len() == 0 {
        0
    } else {
        2 * bits_val(bits.drop_last()) + bit_nat(bits.last())
    }
}

/// A bit as a number.
pub open spec fn bit_nat(b: bool) -> nat {
    if b {
        1
    } else {
        0
    }
}

/// Digit of weight `2^k` of `v`.
pub open spec fn digit(v: nat, k: nat) -> bool {
    (v / pow2(k)) % 2 == 1
}

/// The number that a byte string writes, most significant byte first.
pub open spec fn be_val(bytes: Seq<u8>) -> nat
    decreases bytes.len(),
{
    if bytes.len() == 0 {
        0
    } else {
        256 * be_val(bytes.drop_last()) + bytes.last() as nat
    }
}

/// The bytes that a bit string packs into, eight bits to the byte.
pub open spec fn bytes_of_bits(bits: Seq<bool>) -> Seq<u8> {
    Seq::new(bits.len() / 8, |i: int| bits_val(bits.subrange(8 * i, 8 * i + 8)) as u8)
}

/// The bits of a byte string.
pub open spec fn bits_of_bytes(bytes: Seq<u8>) -> Seq<bool> {
    Seq::new(8 * bytes.len(), |k: int| digit(bytes[k / 8] as nat, (7 - k % 8) as nat))
}

pub proof fn lemma_bits_val_push(bits: Seq<bool>, b: bool)
    ensures
        bits_val(bits.push(b)) == 2 * bits_val(bits) + bit_nat(b),
{
    assert(bits.push(b).drop_last() =~= bits);
}

pub proof fn lemma_bits_val_bound(bits: Seq<bool>)
    ensures
        bits_val(bits) < pow2(bits.len()),
    decreases bits.len(),
{
    lemma2_to64();
    if bits.len() > 0 {
        lemma_bits_val_bound(bits.drop_last());
        lemma_pow2_unfold(bits.len());
    }
}

pub proof fn lemma_bits_val_concat(a: Seq<bool>, b: Seq<bool>)
    ensures
        bits_val(a + b) == bits_val(a) * pow2(b.len()) + bits_val(b),
    decreases b.len(),
{
    lemma2_to64();
    if b.len() == 0 {
        assert(a + b =~= a);
        assert(bits_val(a) * pow2(0) == bits_val(a)) by (nonlinear_arith)
            requires
                pow2(0) == 1,
        ;
    } else {
        let c = b.drop_last();
        assert((a + b).drop_last() =~= a + c);
        lemma_bits_val_concat(a, c);
        lemma_pow2_unfold(b.len());
        assert(2 * (bits_val(a) * pow2(c.len())) == bits_val(a) * pow2(b.len()))
            by (nonlinear_arith)
            requires
                pow2(b.len()) == 2 * pow2(c.len()),
        ;
    }
}

/// Dropping the last digit halves the number.
proof fn lemma_digit_shift(v: nat, k: nat)
    ensures
        digit(v / 2, k) == digit(v, k + 1),
{
    lemma_pow2_pos(k);
    lemma_pow2_unfold(k + 1);
    lemma_div_denominator(v as int, 2, pow2(k) as int);
}

/// Each bit of a string is the digit of its place.
pub proof fn lemma_bits_val_digit(bits: Seq<bool>, k: int)
    requires
        0 <= k < bits.len(),
    ensures
        bits[k] == digit(bits_val(bits), (bits.len() - 1 - k) as nat),
    decreases bits.len(),
{
    lemma2_to64();
    let v = bits_val(bits);
    let w = bits_val(bits.drop_last());
    assert(v / 2 == w && v % 2 == bit_nat(bits.last()));
    if k == bits.len() - 1 {
        assert(v / pow2(0) == v) by (nonlinear_arith)
            requires
                pow2(0) == 1,
        ;
    } else {
        lemma_bits_val_digit(bits.drop_last(), k);
        lemma_digit_shift(v, (bits.len() - 2 - k) as nat);
    }
}

/// A string of the digits of a number writes that number.
pub proof fn lemma_bits_val_of_digits(bits: Seq<bool>, v: nat)
    requires
        v < pow2(bits.len()),
        forall|k: int|
            0 <= k < bits.len() ==> #[trigger] bits[k] == digit(v, (bits.len() - 1 - k) as nat),
    ensures
        bits_val(bits) == v,
    decreases bits.len(),
{
    lemma2_to64();
    if bits.len() > 0 {
        let rest = bits.drop_last();
        lemma_pow2_unfold(bits.len());
        assert(bits[bits.len() - 1] == digit(v, 0));
        assert(v / pow2(0) == v) by (nonlinear_arith)
            requires
                pow2(0) == 1,
        ;
        assert forall|k: int| 0 <= k < rest.len() implies #[trigger] rest[k] == digit(
            v / 2,
            (rest.len() - 1 - k) as nat,
        ) by {
            assert(rest[k] == bits[k]);
            lemma_digit_shift(v, (rest.len() - 1 - k) as nat);
        }
        lemma_bits_val_of_digits(rest, v / 2);
    }
}

/// Packing bits into bytes keeps the number.
pub proof fn lemma_be_val_of_bits(bits: Seq<bool>)
    requires
        bits.len() % 8 == 0,
    ensures
        be_val(bytes_of_bits(bits)) == bits_val(bits),
    decreases bits.len(),
{
    if bits.len() > 0 {
        let n = bits.len() - 8;
        let head = bits.subrange(0, n);
        let tail = bits.subrange(n, n + 8);
        lemma_be_val_of_bits(head);
        let bytes = bytes_of_bits(bits);
        assert(bytes.drop_last() =~= bytes_of_bits(head)) by {
            assert forall|i: int| 0 <= i < bytes.len() - 1 implies bytes.drop_last()[i]
                == bytes_of_bits(head)[i] by {
                assert(head.subrange(8 * i, 8 * i + 8) =~= bits.subrange(8 * i, 8 * i + 8));
            }
        }
        assert(8 * (bytes.len() - 1) == n);
        lemma_bits_val_bound(tail);
        lemma2_to64();
        assert(bits =~= head + tail);
        lemma_bits_val_concat(head, tail);
        assert(bytes.last() == bits_val(tail) as u8);
        assert(bits_val(head) * pow2(8) == 256 * bits_val(head));
    } else {
        assert(bytes_of_bits(bits) =~= Seq::empty());
    }
}

/// Unpacking bytes into bits and packing them again gives the bytes back.
pub proof fn lemma_bytes_of_bits_of_bytes(bytes: Seq<u8>)
    ensures
        bytes_of_bits(bits_of_bytes(bytes)) == bytes,
{
    let bits = bits_of_bytes(bytes);
    assert forall|i: int| 0 <= i < bytes.len() implies bytes_of_bits(bits)[i] == bytes[i] by {
        let part = bits.subrange(8 * i, 8 * i + 8);
        lemma2_to64();
        assert forall|k: int| 0 <= k < 8 implies #[trigger] part[k] == digit(
            bytes[i] as nat,
            (part.len() - 1 - k) as nat,
        ) by {
            assert((8 * i + k) / 8 == i && (8 * i + k) % 8 == k);
        }
        lemma_bits_val_of_digits(part, bytes[i] as nat);
    }
    assert(bytes_of_bits(bits) =~= bytes);
}

/// Packing bits into bytes and unpacking them again gives the bits back.
pub proof fn lemma_bits_of_bytes_of_bits(bits: Seq<bool>)
    requires
        bits.len() % 8 == 0,
    ensures
        bits_of_bytes(bytes_of_bits(bits)) == bits,
{
    let bytes = bytes_of_bits(bits);
    assert forall|k: int| 0 <= k < bits.len() implies bits_of_bytes(bytes)[k] == bits[k] by {
        let i = k / 8;
        let part = bits.subrange(8 * i, 8 * i + 8);
        lemma2_to64();
        lemma_bits_val_bound(part);
        lemma_bits_val_digit(part, k % 8);
    }
    assert(bits_of_bytes(bytes) =~= bits);
}

/// Byte strings of one length that write one number are equal.
pub proof fn lemma_be_val_injective(a: Seq<u8>, b: Seq<u8>)
    requires
        a.len() == b.len(),
        be_val(a) == be_val(b),
    ensures
        a == b,
    decreases a.len(),
{
    if a.len() > 0 {
        lemma_be_val_injective(a.drop_last(), b.drop_last());
        assert(a =~= a.drop_last().push(a.last()));
        assert(b =~= b.drop_last().push(b.last()));
    }
}

pub proof fn lemma_be_val_bound(bytes: Seq<u8>)
    ensures
        be_val(bytes) < pow2(8 * bytes.len()),
    decreases bytes.len(),
{
    lemma2_to64();
    if bytes.len() > 0 {
        lemma_be_val_bound(bytes.drop_last());
        lemma_pow2_adds(8 * bytes.drop_last().len(), 8);
        assert(be_val(bytes) < 256 * pow2(8 * bytes.drop_last().len()));
    }
}

/// Digit `k` of a byte, by shifting.
pub fn byte_digit(byte: u8, k: u8) -> (b: bool)
    requires
        k < 8,
    ensures
        b == digit(byte as nat, k as nat),
{
    proof {
        lemma_u8_shr_is_div(byte, k);
        let s = byte >> k;
        assert((s & 1u8 == 1u8) == (s % 2 == 1)) by (bit_vector);
    }
    (byte >> k) & 1u8 == 1u8
}

/// The bits of a byte string.
pub fn unpack_bytes(bytes: &[u8]) -> (bits: Vec<bool>)
    requires
        8 * bytes@.len() <= usize::MAX,
    ensures
        bits@ == bits_of_bytes(bytes@),
{
    let mut bits: Vec<bool> = Vec::with_capacity(8 * bytes.len());
    for i in 0..bytes.len()
        invariant
            8 * bytes@.len() <= usize::MAX,
            bits@ =~= bits_of_bytes(bytes@).subrange(0, 8 * i),
    {
        for j in 0..8u8
            invariant
                0 <= i < bytes@.len(),
                bits@ =~= bits_of_bytes(bytes@).subrange(0, 8 * i + j),
        {
            assert((8 * i + j) / 8 == i && (8 * i + j) % 8 == j as int);
            bits.push(byte_digit(bytes[i], 7 - j));
        }
    }
    bits
}

/// Bytes are packed piece by piece.
pub proof fn lemma_bytes_of_bits_concat(a: Seq<bool>, b: Seq<bool>)
    requires
        a.len() % 8 == 0,
    ensures
        bytes_of_bits(a + b) == bytes_of_bits(a) + bytes_of_bits(b),
{
    let n = a.len() / 8;
    assert forall|i: int| 0 <= i < bytes_of_bits(a + b).len() implies bytes_of_bits(a + b)[i] == (
    bytes_of_bits(a) + bytes_of_bits(b))[i] by {
        let part = (a + b).subrange(8 * i, 8 * i + 8);
        if i < n {
            assert(part =~= a.subrange(8 * i, 8 * i + 8));
        } else {
            assert(part =~= b.subrange(8 * (i - n), 8 * (i - n) + 8));
        }
    }
    assert(bytes_of_bits(a + b) =~= bytes_of_bits(a) + bytes_of_bits(b));
}

/// A run of whole bytes is packed as it is inside the string.
pub proof fn lemma_bytes_of_bits_subrange(bits: Seq<bool>, from: int, to: int)
    requires
        0 <= from <= to,
        8 * to <= bits.len(),
    ensures
        bytes_of_bits(bits).subrange(from, to) == bytes_of_bits(bits.subrange(8 * from, 8 * to)),
{
    let inner = bits.subrange(8 * from, 8 * to);
    assert forall|i: int| 0 <= i < to - from implies bytes_of_bits(bits).subrange(from, to)[i]
        == bytes_of_bits(inner)[i] by {
        assert(bits.subrange(8 * (from + i), 8 * (from + i) + 8) =~= inner.subrange(
            8 * i,
            8 * i + 8,
        ));
    }
    assert(bytes_of_bits(bits).subrange(from, to) =~= bytes_of_bits(inner));
}

/// The byte string that a row of whole bytes writes.
pub fn pack_bits(bits: &[bool]) -> (bytes: Vec<u8>)
    ensures
        bytes@ == bytes_of_bits(bits@),
{
    let total = bits.len();
    let n = total / 8;
    let mut bytes: Vec<u8> = Vec::with_capacity(n);
    for i in 0..n
        invariant
            n == bits@.len() / 8,
            total == bits@.len(),
            bytes@.len() == i,
            forall|k: int|
                0 <= k < i ==> #[trigger] bytes@[k] == bits_val(
                    bits@.subrange(8 * k, 8 * k + 8),
                ) as u8,
    {
        let mut byte: u8 = 0;
        let ghost part = bits@.subrange(8 * i, 8 * i + 8);
        proof {
            lemma2_to64();
            assert(part.take(0) =~= Seq::empty());
        }
        for j in 0..8usize
            invariant
                n == bits@.len() / 8,
                total == bits@.len(),
                i < n,
                part == bits@.subrange(8 * i, 8 * i + 8),
                byte == bits_val(part.take(j as int)),
        {
            proof {
                lemma_bits_val_bound(part.take(j as int));
                lemma2_to64();
                if j < 7 {
                    lemma_pow2_strictly_increases(j as nat, 7);
                }
                lemma_bits_val_push(part.take(j as int), part[j as int]);
                assert(part.take(j + 1) =~= part.take(j as int).push(part[j as int]));
            }
            byte = 2 * byte + (if bits[8 * i + j] {
                1u8
            } else {
                0u8
            });
        }
        assert(part.take(8) =~= part);
        bytes.push(byte);
    }
    assert(bytes@ =~= bytes_of_bits(bits@));
    bytes
}

/// The number that at most 16 bytes write.
pub fn be_value(bytes: &[u8]) -> (v: u128)
    requires
        bytes@.len() <= 16,
    ensures
        v == be_val(bytes@),
{
    let mut v: u128 = 0;
    assert(bytes@.take(0) =~= Seq::empty());
    for i in 0..bytes.len()
        invariant
            bytes@.len() <= 16,
            v == be_val(bytes@.take(i as int)),
    {
        proof {
            lemma_be_val_bound(bytes@.take(i as int));
            if i < 15 {
                lemma_pow2_strictly_increases(8 * i as nat, 120);
            }
            lemma2_to64();
            lemma2_to64_rest();
            lemma_pow2_adds(56, 64);
            assert(0x100_0000_0000_0000int * 0x1_0000_0000_0000_0000int * 256 == u128::MAX + 1)
                by (nonlinear_arith);
            assert(bytes@.take(i + 1).drop_last() =~= bytes@.take(i as int));
        }
        v = 256 * v + bytes[i] as u128;
    }
    assert(bytes@.take(bytes@.len() as int) =~= bytes@);
    v
}

/// The `n` least significant bytes of `v`, least significant first.
pub open spec fn le_bytes(v: nat, n: nat) -> Seq<u8>
    decreases n,
{
    if n == 0 {
        Seq::empty()
    } else {
        seq![(v % 256) as u8] + le_bytes(v / 256, (n - 1) as nat)
    }
}

/// Appends the eight bytes of `v`, least significant first.
pub fn push_le_bytes(out: &mut Vec<u8>, v: u64)
    ensures
        final(out)@ == old(out)@ + le_bytes(v as nat, 8),
{
    let ghost before = out@;
    let mut rest: u64 = v;
    assert(before + le_bytes(v as nat, 8) =~= out@ + le_bytes(rest as nat, 8));
    for i in 0..8usize
        invariant
            before + le_bytes(v as nat, 8) == out@ + le_bytes(rest as nat, (8 - i) as nat),
    {
        let ghost head = out@;
        let byte = (rest % 256) as u8;
        out.push(byte);
        rest = rest / 256;
        assert(out@ + le_bytes(rest as nat, (7 - i) as nat) =~= head + (seq![byte] + le_bytes(
            rest as nat,
            (7 - i) as nat,
        )));
    }
    assert(out@ + le_bytes(rest as nat, 0) =~= out@);
}

/// The number that a byte string writes, least significant byte first.
pub open spec fn le_val(bytes: Seq<u8>) -> nat
    decreases bytes.len(),
{
    if bytes.len() == 0 {
        0
    } else {
        bytes[0] as nat + 256 * le_val(bytes.skip(1))
    }
}

/// The bytes of a number, read again, give the number, as far as they hold it.
pub proof fn lemma_le_round_trip(v: nat, n: nat)
    ensures
        le_bytes(v, n).len() == n,
        v < pow2(8 * n) ==> le_val(le_bytes(v, n)) == v,
    decreases n,
{
    lemma2_to64();
    if n > 0 {
        let m = (n - 1) as nat;
        lemma_le_round_trip(v / 256, m);
        assert(le_bytes(v, n).skip(1) =~= le_bytes(v / 256, m));
        lemma_pow2_adds(8, 8 * m);
        assert(v < pow2(8 * n) ==> v / 256 < pow2(8 * m)) by (nonlinear_arith)
            requires
                pow2(8) == 256,
                pow2(8 * n) == pow2(8) * pow2(8 * m),
        ;
    }
}

/// Of the bytes of a number, the first is what is left of it modulo 256, and the
/// others are those of the rest.
pub proof fn lemma_le_bytes_first(v: nat, n: nat)
    ensures
        le_bytes(v, n + 1)[0] == v % 256,
        le_bytes(v, n + 1).skip(1) == le_bytes(v / 256, n),
{
    lemma_le_round_trip(v / 256, n);
    assert(le_bytes(v, n + 1).skip(1) =~= le_bytes(v / 256, n));
}

/// Reading bytes as a number and writing it again gives the bytes.
pub proof fn lemma_le_bytes_of_val(bytes: Seq<u8>)
    ensures
        le_bytes(le_val(bytes), bytes.len()) == bytes,
    decreases bytes.len(),
{
    if bytes.len() > 0 {
        lemma_le_bytes_of_val(bytes.skip(1));
        let v = le_val(bytes);
        assert(v % 256 == bytes[0] as nat && v / 256 == le_val(bytes.skip(1)));
        assert(le_bytes(v, bytes.len()) =~= bytes);
    } else {
        assert(bytes =~= Seq::empty());
    }
}

pub proof fn lemma_le_val_bound(bytes: Seq<u8>)
    ensures
        le_val(bytes) < pow2(8 * bytes.len()),
    decreases bytes.len(),
{
    lemma2_to64();
    if bytes.len() > 0 {
        lemma_le_val_bound(bytes.skip(1));
        lemma_pow2_adds(8, (8 * (bytes.len() - 1)) as nat);
        assert(pow2(8) * pow2((8 * (bytes.len() - 1)) as nat) == 256 * pow2(
            (8 * (bytes.len() - 1)) as nat,
        )) by (nonlinear_arith)
            requires
                pow2(8) == 256,
        ;
        assert(8 + 8 * (bytes.len() - 1) == 8 * bytes.len());
    }
}

/// Bytes that follow others move them up by eight binary digits each; a single byte
/// writes itself.
pub proof fn lemma_be_val_concat(a: Seq<u8>, b: Seq<u8>)
    ensures
        be_val(a + b) == be_val(a) * pow2(8 * b.len()) + be_val(b),
        b.len() == 0 ==> be_val(b) == 0,
        b.len() == 1 ==> be_val(b) == b[0],
    decreases b.len(),
{
    lemma2_to64();
    if b.len() == 1 {
        assert(be_val(b.drop_last()) == 0);
    }
    if b.len() == 0 {
        assert(a + b =~= a);
        assert(be_val(a) * pow2(0) == be_val(a)) by (nonlinear_arith)
            requires
                pow2(0) == 1,
        ;
    } else {
        let c = b.drop_last();
        lemma_be_val_concat(a, c);
        assert((a + b).drop_last() =~= a + c);
        lemma_pow2_adds(8, 8 * c.len());
        let (x, p) = (be_val(a), pow2(8 * c.len()));
        assert(8 * b.len() == 8 + 8 * c.len());
        assert(256 * (x * p) == x * (256 * p)) by (nonlinear_arith);
    }
}

/// The number that at most 16 bytes write, least significant first.
pub fn le_value(bytes: &[u8]) -> (v: u128)
    requires
        bytes@.len() <= 16,
    ensures
        v == le_val(bytes@),
{
    let n = bytes.len();
    let mut v: u128 = 0;
    assert(bytes@.skip(n as int) =~= Seq::empty());
    for i in 0..n
        invariant
            n == bytes@.len(),
            n <= 16,
            v == le_val(bytes@.skip(n - i)),
    {
        let ghost tail = bytes@.skip(n - i);
        let ghost longer = bytes@.skip(n - i - 1);
        proof {
            assert(longer.skip(1) =~= tail);
            lemma_le_val_bound(tail);
            if i < 15 {
                lemma_pow2_strictly_increases(8 * i as nat, 120);
            }
            lemma2_to64();
            lemma2_to64_rest();
            lemma_pow2_adds(56, 64);
            assert(0x100_0000_0000_0000int * 0x1_0000_0000_0000_0000int * 256 == u128::MAX + 1)
                by (nonlinear_arith);
        }
        v = bytes[n - 1 - i] as u128 + 256 * v;
    }
    assert(bytes@.skip(0) =~= bytes@);
    v
}

} // verus!
