//! Rows of 32 wires that hold the bits of a word, least significant first.

use crate::bits::{bit_nat, digit};
use crate::plonky2_ivc::gates::wire_le_sum;
use vstd::arithmetic::div_mod::{lemma_fundamental_div_mod, lemma_fundamental_div_mod_converse};
use vstd::arithmetic::power2::{lemma2_to64, lemma_pow2_adds, lemma_pow2_pos, lemma_pow2_unfold,
    pow2};
use vstd::prelude::*;

verus! {

/// Every wire of the row is zero or one.
pub open spec fn bool_row(bits: Seq<usize>, v: Seq<int>) -> bool {
    forall|i: int|
        0 <= i < bits.len() ==> v[#[trigger] bits[i] as int] == 0 || v[bits[i] as int] == 1
}

/// The word that a row writes.
pub open spec fn row_word(bits: Seq<usize>, v: Seq<int>) -> u32 {
    wire_le_sum(v, bits) as u32
}

pub open spec fn row_in(bits: Seq<usize>, n: nat) -> bool {
    forall|i: int| 0 <= i < bits.len() ==> #[trigger] bits[i] < n
}

/// A row of Booleans writes a number of as many bits, and each wire is its
/// digit.
pub proof fn lemma_le_sum(bits: Seq<usize>, v: Seq<int>)
    requires
        bool_row(bits, v),
    ensures
        0 <= wire_le_sum(v, bits) < pow2(bits.len()),
        forall|i: int|
            0 <= i < bits.len() ==> v[#[trigger] bits[i] as int] == bit_nat(
                digit(wire_le_sum(v, bits) as nat, i as nat),
            ),
    decreases bits.len(),
{
    lemma2_to64();
    if bits.len() > 0 {
        let head = bits.drop_last();
        let n = head.len();
        assert forall|i: int| 0 <= i < head.len() implies v[#[trigger] head[i] as int] == 0
            || v[head[i] as int] == 1 by {
            assert(head[i] == bits[i]);
        }
        lemma_le_sum(head, v);
        lemma_pow2_unfold(bits.len());
        lemma_pow2_pos(n);
        let b = v[bits.last() as int];
        let low = wire_le_sum(v, head);
        let p = pow2(n) as int;
        let x = wire_le_sum(v, bits);
        assert(bits[n as int] == bits.last());
        assert(x == low + b * p);
        assert(b * p == 0 || b * p == p) by (nonlinear_arith)
            requires
                b == 0 || b == 1,
        ;
        assert forall|i: int| 0 <= i < bits.len() implies v[#[trigger] bits[i] as int] == bit_nat(
            digit(x as nat, i as nat),
        ) by {
            if i == n {
                assert(b * p == p * b) by (nonlinear_arith);
                lemma_fundamental_div_mod_converse(x, p, b, low);
            } else {
                assert(head[i] == bits[i]);
                lemma_low_digit(low as nat, b as nat, n, i as nat);
                assert(p * b == b * p) by (nonlinear_arith);
            }
        }
    }
}

/// Adding a multiple of a larger power of two changes no low digit.
pub proof fn lemma_low_digit(low: nat, b: nat, n: nat, i: nat)
    requires
        i < n,
    ensures
        digit(low + b * pow2(n), i) == digit(low, i),
{
    let p = pow2(i) as int;
    let q = pow2((n - i - 1) as nat) as int;
    lemma_pow2_pos(i);
    lemma_pow2_adds(i, (n - i - 1) as nat);
    lemma_pow2_unfold(n);
    assert(pow2(n) == 2 * (p * q)) by {
        assert(i + (n - i - 1) as nat == n - 1);
    }
    let x = low as int;
    lemma_fundamental_div_mod(x, p);
    let (d, r) = (x / p, x % p);
    let e = d + 2 * q * b;
    assert(x + b * (2 * (p * q)) == e * p + r) by (nonlinear_arith)
        requires
            x == p * d + r,
            e == d + 2 * q * b,
    ;
    lemma_fundamental_div_mod_converse(x + b * (2 * (p * q)), p, e, r);
    assert(e % 2 == d % 2) by {
        let h = q * b;
        assert(2 * q * b == 2 * h) by (nonlinear_arith)
            requires
                h == q * b,
        ;
    }
}

/// A row whose wires are the digits of `x` writes `x`.
pub proof fn lemma_le_sum_of_digits(bits: Seq<usize>, v: Seq<int>, x: nat)
    requires
        x < pow2(bits.len()),
        forall|i: int|
            0 <= i < bits.len() ==> v[#[trigger] bits[i] as int] == bit_nat(digit(x, i as nat)),
    ensures
        bool_row(bits, v),
        wire_le_sum(v, bits) == x,
    decreases bits.len(),
{
    lemma2_to64();
    if bits.len() > 0 {
        let head = bits.drop_last();
        let n = head.len();
        lemma_pow2_unfold(bits.len());
        lemma_pow2_pos(n);
        let p = pow2(n) as int;
        lemma_fundamental_div_mod(x as int, p);
        let (b, low) = (x as int / p, x as int % p);
        assert(0 <= b <= 1) by (nonlinear_arith)
            requires
                x == p * b + low,
                0 <= low < p,
                x < 2 * p,
        ;
        assert(p * b == b * p) by (nonlinear_arith);
        assert forall|i: int| 0 <= i < head.len() implies v[#[trigger] head[i] as int] == bit_nat(
            digit(low as nat, i as nat),
        ) by {
            assert(head[i] == bits[i]);
            lemma_low_digit(low as nat, b as nat, n, i as nat);
        }
        lemma_le_sum_of_digits(head, v, low as nat);
        assert(v[bits[n as int] as int] == bit_nat(digit(x, n)));
        assert(v[bits.last() as int] == b);
    }
}

/// A row of 32 Booleans writes its word.
pub proof fn lemma_row(bits: Seq<usize>, v: Seq<int>)
    requires
        bits.len() == 32,
        bool_row(bits, v),
    ensures
        wire_le_sum(v, bits) == row_word(bits, v),
        forall|i: int|
            0 <= i < 32 ==> v[#[trigger] bits[i] as int] == bit_nat(
                digit(row_word(bits, v) as nat, i as nat),
            ),
{
    lemma_le_sum(bits, v);
    lemma2_to64();
}

/// A row whose wires are the bits of `x` writes `x`.
pub proof fn lemma_row_of(bits: Seq<usize>, v: Seq<int>, x: u32)
    requires
        bits.len() == 32,
        forall|i: int|
            0 <= i < 32 ==> v[#[trigger] bits[i] as int] == bit_nat(digit(x as nat, i as nat)),
    ensures
        bool_row(bits, v),
        row_word(bits, v) == x,
{
    lemma2_to64();
    lemma_le_sum_of_digits(bits, v, x as nat);
}

} // verus!
