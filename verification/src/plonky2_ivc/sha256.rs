//! Bit-level SHA-256 of one 32-byte message, as gates.
//!
//! The message fills half a block, so the padding is constant. A word is kept
//! as 32 wires for its bits, least significant first, and one for its value.

use crate::bits::{bit_nat, digit};
use crate::plonky2_ivc::gates::{gate_holds, lemma_gates_trans, wire_le_sum, wire_range, wire_sum,
    Gate, GateCircuit, ORDER};
use crate::plonky2_ivc::rows::{bool_row, lemma_le_sum, lemma_le_sum_of_digits, lemma_low_digit,
    lemma_row, lemma_row_of, row_in, row_word};
use crate::plonky2_ivc::words::{big_sigma_of, choice, lemma_digit_choice, lemma_digit_majority,
    lemma_digit_rotate, lemma_digit_shift_right, lemma_digit_xor, majority, rotate_right, round_of,
    rounds, schedule, sha256_words, small_sigma_of, temp1_of, temp2_of, word32, IV, K};
use vstd::arithmetic::div_mod::{lemma_fundamental_div_mod, lemma_small_mod};
use vstd::arithmetic::power2::{lemma2_to64, lemma2_to64_rest, lemma_pow2_strictly_increases, pow2};
use vstd::bits::lemma_u32_shr_is_div;
use vstd::prelude::*;

pub use crate::chain::sha256_chain_native;
pub use crate::plonky2_ivc::packing::bytes_to_words;

verus! {

pub open spec fn is_bool(x: int) -> bool {
    x == 0 || x == 1
}

/// Exclusive or: `x + y - 2xy`.
fn xor2(c: &mut GateCircuit, x: usize, y: usize) -> (out: usize)
    requires
        old(c).wf(),
        old(c).n_wires + 2 <= usize::MAX,
        x < old(c).n_wires,
        y < old(c).n_wires,
    ensures
        final(c).wf(),
        final(c).grew_from(*old(c)),
        final(c).n_wires == old(c).n_wires + 2,
        out < final(c).n_wires,
        forall|v: Seq<int>| #[trigger]
            final(c).holds(v) && is_bool(v[x as int]) && is_bool(v[y as int]) ==> v[out as int]
                == bit_nat((v[x as int] == 1) != (v[y as int] == 1)),
        forall|v: Seq<int>| #[trigger]
            final(c).followed(v) && old(c).holds(v) ==> final(c).holds(v),
{
    let ghost before = *c;
    let s = c.push(Gate::Add { x, y });
    let ghost middle = *c;
    let out = c.push(Gate::Arithmetic { c0: ORDER - 2, c1: 1, x, y, z: s });
    proof {
        lemma_gates_trans(before, middle, *c);
        assert forall|v: Seq<int>| #[trigger]
            c.holds(v) && is_bool(v[x as int]) && is_bool(v[y as int]) implies v[out as int]
            == bit_nat((v[x as int] == 1) != (v[y as int] == 1)) by {
            assert(middle.holds(v));
            let (a, b) = (v[x as int], v[y as int]);
            lemma_small_mod((a + b) as nat, ORDER as nat);
            let k = (ORDER - 2) as int;
            assert(a * b == (if a == 1 && b == 1 {
                1int
            } else {
                0int
            })) by (nonlinear_arith)
                requires
                    a == 0 || a == 1,
                    b == 0 || b == 1,
            ;
            let m = a * b;
            assert(k * m == (if m == 1 {
                k
            } else {
                0int
            })) by (nonlinear_arith)
                requires
                    m == 0 || m == 1,
            ;
            assert(1 * v[s as int] == v[s as int]);
            if a == 1 && b == 1 {
                assert((ORDER as int) % (ORDER as int) == 0);
            } else {
                lemma_small_mod((a + b) as nat, ORDER as nat);
            }
        }
    }
    out
}

/// Exclusive or of three.
fn xor3(c: &mut GateCircuit, x: usize, y: usize, z: usize) -> (out: usize)
    requires
        old(c).wf(),
        old(c).n_wires + 4 <= usize::MAX,
        x < old(c).n_wires,
        y < old(c).n_wires,
        z < old(c).n_wires,
    ensures
        final(c).wf(),
        final(c).grew_from(*old(c)),
        final(c).n_wires == old(c).n_wires + 4,
        out < final(c).n_wires,
        forall|v: Seq<int>| #[trigger]
            final(c).holds(v) && is_bool(v[x as int]) && is_bool(v[y as int]) && is_bool(
                v[z as int],
            ) ==> v[out as int] == bit_nat(
                ((v[x as int] == 1) != (v[y as int] == 1)) != (v[z as int] == 1),
            ),
        forall|v: Seq<int>| #[trigger]
            final(c).followed(v) && old(c).holds(v) ==> final(c).holds(v),
{
    let ghost before = *c;
    let t = xor2(c, x, y);
    let ghost middle = *c;
    let out = xor2(c, t, z);
    proof {
        lemma_gates_trans(before, middle, *c);
        assert forall|v: Seq<int>| #[trigger]
            c.holds(v) && is_bool(v[x as int]) && is_bool(v[y as int]) && is_bool(
                v[z as int],
            ) implies v[out as int] == bit_nat(
            ((v[x as int] == 1) != (v[y as int] == 1)) != (v[z as int] == 1),
        ) by {
            assert(middle.holds(v));
        }
    }
    out
}

/// `f` where `e` is one, `g` where it is zero.
fn ch(c: &mut GateCircuit, e: usize, f: usize, g: usize) -> (out: usize)
    requires
        old(c).wf(),
        old(c).n_wires < usize::MAX,
        e < old(c).n_wires,
        f < old(c).n_wires,
        g < old(c).n_wires,
    ensures
        final(c).wf(),
        final(c).grew_from(*old(c)),
        final(c).n_wires == old(c).n_wires + 1,
        out < final(c).n_wires,
        forall|v: Seq<int>| #[trigger]
            final(c).holds(v) && is_bool(v[e as int]) && is_bool(v[f as int]) && is_bool(
                v[g as int],
            ) ==> v[out as int] == (if v[e as int] == 1 {
                v[f as int]
            } else {
                v[g as int]
            }),
        forall|v: Seq<int>| #[trigger]
            final(c).followed(v) && old(c).holds(v) ==> final(c).holds(v),
{
    let out = c.push(Gate::Select { by: e, x: f, y: g });
    proof {
        assert forall|v: Seq<int>| #[trigger]
            c.holds(v) && is_bool(v[e as int]) && is_bool(v[f as int]) && is_bool(
                v[g as int],
            ) implies v[out as int] == (if v[e as int] == 1 {
            v[f as int]
        } else {
            v[g as int]
        }) by {
            let (x, y, z) = (v[e as int], v[f as int], v[g as int]);
            let d = y - z;
            assert(x * d == (if x == 1 {
                d
            } else {
                0int
            })) by (nonlinear_arith)
                requires
                    x == 0 || x == 1,
            ;
            lemma_small_mod(y as nat, ORDER as nat);
            lemma_small_mod(z as nat, ORDER as nat);
        }
    }
    out
}

/// Majority: `z` where `x` and `y` differ, `x` where they agree.
fn maj(c: &mut GateCircuit, x: usize, y: usize, z: usize) -> (out: usize)
    requires
        old(c).wf(),
        old(c).n_wires + 3 <= usize::MAX,
        x < old(c).n_wires,
        y < old(c).n_wires,
        z < old(c).n_wires,
    ensures
        final(c).wf(),
        final(c).grew_from(*old(c)),
        final(c).n_wires == old(c).n_wires + 3,
        out < final(c).n_wires,
        forall|v: Seq<int>| #[trigger]
            final(c).holds(v) && is_bool(v[x as int]) && is_bool(v[y as int]) && is_bool(
                v[z as int],
            ) ==> v[out as int] == (if v[x as int] != v[y as int] {
                v[z as int]
            } else {
                v[x as int]
            }),
        forall|v: Seq<int>| #[trigger]
            final(c).followed(v) && old(c).holds(v) ==> final(c).holds(v),
{
    let ghost before = *c;
    let t = xor2(c, x, y);
    let ghost middle = *c;
    let out = ch(c, t, z, x);
    proof {
        lemma_gates_trans(before, middle, *c);
        assert forall|v: Seq<int>| #[trigger]
            c.holds(v) && is_bool(v[x as int]) && is_bool(v[y as int]) && is_bool(
                v[z as int],
            ) implies v[out as int] == (if v[x as int] != v[y as int] {
            v[z as int]
        } else {
            v[x as int]
        }) by {
            assert(middle.holds(v));
        }
    }
    out
}

/// The row of a rotated word: bit `i` is bit `(i + n) mod 32`.
fn rotr(bits: &Vec<usize>, n: usize) -> (out: Vec<usize>)
    requires
        bits@.len() == 32,
        0 < n < 32,
    ensures
        out@.len() == 32,
        forall|m: nat| row_in(bits@, m) ==> #[trigger] row_in(out@, m),
        forall|i: int| 0 <= i < 32 ==> #[trigger] out@[i] == bits@[(i + n) % 32],
{
    let mut out: Vec<usize> = Vec::with_capacity(32);
    for i in 0..32usize
        invariant
            bits@.len() == 32,
            0 < n < 32,
            out@.len() == i,
            forall|k: int| 0 <= k < i ==> #[trigger] out@[k] == bits@[(k + n) % 32],
    {
        out.push(bits[(i + n) % 32]);
    }
    out
}

/// A rotated row writes the rotated word.
proof fn lemma_rotr_row(bits: Seq<usize>, out: Seq<usize>, n: int, v: Seq<int>)
    requires
        bits.len() == 32,
        out.len() == 32,
        0 < n < 32,
        bool_row(bits, v),
        forall|i: int| 0 <= i < 32 ==> #[trigger] out[i] == bits[(i + n) % 32],
    ensures
        bool_row(out, v),
        row_word(out, v) == rotate_right(row_word(bits, v), n as u32),
{
    let x = row_word(bits, v);
    lemma_row(bits, v);
    assert forall|i: int| 0 <= i < 32 implies v[#[trigger] out[i] as int] == bit_nat(
        digit(rotate_right(x, n as u32) as nat, i as nat),
    ) by {
        lemma_digit_rotate(x, n as u32, i as nat);
        let j = (i + n) % 32;
        assert(v[bits[j] as int] == bit_nat(digit(x as nat, j as nat)));
    }
    lemma_row_of(out, v, rotate_right(x, n as u32));
}

/// Digit by digit exclusive or of three words.
proof fn lemma_digit_xor3(x: u32, y: u32, z: u32, i: nat)
    requires
        i < 32,
    ensures
        digit((x ^ y ^ z) as nat, i) == ((digit(x as nat, i) != digit(y as nat, i)) != digit(
            z as nat,
            i,
        )),
{
    lemma_digit_xor(x, y, i);
    lemma_digit_xor(x ^ y, z, i);
}

/// Big sigma: the exclusive or of three rotations.
fn big_sigma(c: &mut GateCircuit, bits: &Vec<usize>, r1: usize, r2: usize, r3: usize) -> (out: Vec<
    usize,
>)
    requires
        old(c).wf(),
        old(c).n_wires + 128 <= usize::MAX,
        bits@.len() == 32,
        row_in(bits@, old(c).n_wires as nat),
        0 < r1 < 32,
        0 < r2 < 32,
        0 < r3 < 32,
    ensures
        final(c).wf(),
        final(c).grew_from(*old(c)),
        final(c).n_wires == old(c).n_wires + 128,
        out@.len() == 32,
        row_in(out@, final(c).n_wires as nat),
        forall|v: Seq<int>| #[trigger]
            final(c).holds(v) && bool_row(bits@, v) ==> bool_row(out@, v) && row_word(out@, v)
                == big_sigma_of(row_word(bits@, v), r1 as u32, r2 as u32, r3 as u32),
        forall|v: Seq<int>| #[trigger]
            final(c).followed(v) && old(c).holds(v) ==> final(c).holds(v),
{
    let ghost before = *c;
    let a1 = rotr(bits, r1);
    let a2 = rotr(bits, r2);
    let a3 = rotr(bits, r3);
    let mut out: Vec<usize> = Vec::with_capacity(32);
    assert(row_in(a1@, before.n_wires as nat));
    assert(row_in(a2@, before.n_wires as nat));
    assert(row_in(a3@, before.n_wires as nat));
    for i in 0..32usize
        invariant
            c.wf(),
            c.grew_from(before),
            before.n_wires + 128 <= usize::MAX,
            c.n_wires == before.n_wires + 4 * i,
            a1@.len() == 32,
            a2@.len() == 32,
            a3@.len() == 32,
            row_in(a1@, before.n_wires as nat),
            row_in(a2@, before.n_wires as nat),
            row_in(a3@, before.n_wires as nat),
            out@.len() == i,
            row_in(out@, c.n_wires as nat),
            forall|v: Seq<int>, k: int|
                0 <= k < i && #[trigger] c.holds(v) && bool_row(a1@, v) && bool_row(a2@, v)
                    && bool_row(a3@, v) ==> v[#[trigger] out@[k] as int] == bit_nat(
                    ((v[a1@[k] as int] == 1) != (v[a2@[k] as int] == 1)) != (v[a3@[k] as int] == 1),
                ),
            forall|v: Seq<int>| #[trigger] c.followed(v) && before.holds(v) ==> c.holds(v),
    {
        let ghost middle = *c;
        assert(a1@[i as int] < before.n_wires);
        assert(a2@[i as int] < before.n_wires);
        assert(a3@[i as int] < before.n_wires);
        let bit = xor3(c, a1[i], a2[i], a3[i]);
        out.push(bit);
        proof {
            lemma_gates_trans(before, middle, *c);
        }
    }
    proof {
        assert forall|v: Seq<int>| #[trigger]
            c.holds(v) && bool_row(bits@, v) implies bool_row(out@, v) && row_word(out@, v)
            == big_sigma_of(row_word(bits@, v), r1 as u32, r2 as u32, r3 as u32) by {
            let x = row_word(bits@, v);
            lemma_rotr_row(bits@, a1@, r1 as int, v);
            lemma_rotr_row(bits@, a2@, r2 as int, v);
            lemma_rotr_row(bits@, a3@, r3 as int, v);
            lemma_row(a1@, v);
            lemma_row(a2@, v);
            lemma_row(a3@, v);
            let (y1, y2, y3) = (
                rotate_right(x, r1 as u32),
                rotate_right(x, r2 as u32),
                rotate_right(x, r3 as u32),
            );
            assert forall|i: int| 0 <= i < 32 implies v[#[trigger] out@[i] as int] == bit_nat(
                digit((y1 ^ y2 ^ y3) as nat, i as nat),
            ) by {
                lemma_digit_xor3(y1, y2, y3, i as nat);
                assert(v[a1@[i] as int] == bit_nat(digit(y1 as nat, i as nat)));
                assert(v[a2@[i] as int] == bit_nat(digit(y2 as nat, i as nat)));
                assert(v[a3@[i] as int] == bit_nat(digit(y3 as nat, i as nat)));
            }
            lemma_row_of(out@, v, y1 ^ y2 ^ y3);
        }
    }
    out
}

/// Small sigma: the exclusive or of two rotations and a shift. Where the shift
/// has moved the bit out, two operands are left.
fn small_sigma(c: &mut GateCircuit, bits: &Vec<usize>, r1: usize, r2: usize, s: usize) -> (out: Vec<
    usize,
>)
    requires
        old(c).wf(),
        old(c).n_wires + 128 <= usize::MAX,
        bits@.len() == 32,
        row_in(bits@, old(c).n_wires as nat),
        0 < r1 < 32,
        0 < r2 < 32,
        0 < s < 32,
    ensures
        final(c).wf(),
        final(c).grew_from(*old(c)),
        final(c).n_wires <= old(c).n_wires + 128,
        out@.len() == 32,
        row_in(out@, final(c).n_wires as nat),
        forall|v: Seq<int>| #[trigger]
            final(c).holds(v) && bool_row(bits@, v) ==> bool_row(out@, v) && row_word(out@, v)
                == small_sigma_of(row_word(bits@, v), r1 as u32, r2 as u32, s as u32),
        forall|v: Seq<int>| #[trigger]
            final(c).followed(v) && old(c).holds(v) ==> final(c).holds(v),
{
    let ghost before = *c;
    let a1 = rotr(bits, r1);
    let a2 = rotr(bits, r2);
    let mut out: Vec<usize> = Vec::with_capacity(32);
    assert(row_in(a1@, before.n_wires as nat));
    assert(row_in(a2@, before.n_wires as nat));
    for i in 0..32usize
        invariant
            c.wf(),
            c.grew_from(before),
            before.n_wires + 128 <= usize::MAX,
            c.n_wires <= before.n_wires + 4 * i,
            0 < s < 32,
            a1@.len() == 32,
            a2@.len() == 32,
            bits@.len() == 32,
            row_in(a1@, before.n_wires as nat),
            row_in(a2@, before.n_wires as nat),
            row_in(bits@, before.n_wires as nat),
            out@.len() == i,
            row_in(out@, c.n_wires as nat),
            forall|v: Seq<int>, k: int|
                0 <= k < i && #[trigger] c.holds(v) && bool_row(a1@, v) && bool_row(a2@, v)
                    && bool_row(bits@, v) ==> v[#[trigger] out@[k] as int] == bit_nat(
                    ((v[a1@[k] as int] == 1) != (v[a2@[k] as int] == 1)) != (k + s < 32
                        && v[bits@[k + s] as int] == 1),
                ),
            forall|v: Seq<int>| #[trigger] c.followed(v) && before.holds(v) ==> c.holds(v),
    {
        let ghost middle = *c;
        assert(a1@[i as int] < before.n_wires);
        assert(a2@[i as int] < before.n_wires);
        let bit = if i + s < 32 {
            assert(bits@[i + s] < before.n_wires);
            xor3(c, a1[i], a2[i], bits[i + s])
        } else {
            xor2(c, a1[i], a2[i])
        };
        out.push(bit);
        proof {
            lemma_gates_trans(before, middle, *c);
        }
    }
    proof {
        assert forall|v: Seq<int>| #[trigger]
            c.holds(v) && bool_row(bits@, v) implies bool_row(out@, v) && row_word(out@, v)
            == small_sigma_of(row_word(bits@, v), r1 as u32, r2 as u32, s as u32) by {
            let x = row_word(bits@, v);
            lemma_rotr_row(bits@, a1@, r1 as int, v);
            lemma_rotr_row(bits@, a2@, r2 as int, v);
            lemma_row(a1@, v);
            lemma_row(a2@, v);
            lemma_row(bits@, v);
            let (y1, y2, y3) = (
                rotate_right(x, r1 as u32),
                rotate_right(x, r2 as u32),
                x >> (s as u32),
            );
            assert forall|i: int| 0 <= i < 32 implies v[#[trigger] out@[i] as int] == bit_nat(
                digit((y1 ^ y2 ^ y3) as nat, i as nat),
            ) by {
                lemma_digit_xor3(y1, y2, y3, i as nat);
                lemma_digit_shift_right(x, s as u32, i as nat);
                assert(v[a1@[i] as int] == bit_nat(digit(y1 as nat, i as nat)));
                assert(v[a2@[i] as int] == bit_nat(digit(y2 as nat, i as nat)));
                if i + s < 32 {
                    assert(v[bits@[i + s] as int] == bit_nat(digit(x as nat, (i + s) as nat)));
                }
            }
            lemma_row_of(out@, v, y1 ^ y2 ^ y3);
        }
    }
    out
}

/// The choice, bit by bit.
fn ch_row(c: &mut GateCircuit, e: &Vec<usize>, f: &Vec<usize>, g: &Vec<usize>) -> (out: Vec<usize>)
    requires
        old(c).wf(),
        old(c).n_wires + 32 <= usize::MAX,
        e@.len() == 32,
        f@.len() == 32,
        g@.len() == 32,
        row_in(e@, old(c).n_wires as nat),
        row_in(f@, old(c).n_wires as nat),
        row_in(g@, old(c).n_wires as nat),
    ensures
        final(c).wf(),
        final(c).grew_from(*old(c)),
        final(c).n_wires == old(c).n_wires + 32,
        out@.len() == 32,
        row_in(out@, final(c).n_wires as nat),
        forall|v: Seq<int>| #[trigger]
            final(c).holds(v) && bool_row(e@, v) && bool_row(f@, v) && bool_row(g@, v) ==> bool_row(
                out@,
                v,
            ) && row_word(out@, v) == choice(
                row_word(e@, v),
                row_word(f@, v),
                row_word(g@, v),
            ),
        forall|v: Seq<int>| #[trigger]
            final(c).followed(v) && old(c).holds(v) ==> final(c).holds(v),
{
    let ghost before = *c;
    let mut out: Vec<usize> = Vec::with_capacity(32);
    for i in 0..32usize
        invariant
            c.wf(),
            c.grew_from(before),
            before.n_wires + 32 <= usize::MAX,
            c.n_wires == before.n_wires + i,
            e@.len() == 32,
            f@.len() == 32,
            g@.len() == 32,
            row_in(e@, before.n_wires as nat),
            row_in(f@, before.n_wires as nat),
            row_in(g@, before.n_wires as nat),
            out@.len() == i,
            row_in(out@, c.n_wires as nat),
            forall|v: Seq<int>, k: int|
                0 <= k < i && #[trigger] c.holds(v) && bool_row(e@, v) && bool_row(f@, v)
                    && bool_row(g@, v) ==> v[#[trigger] out@[k] as int] == (if v[e@[k] as int]
                    == 1 {
                    v[f@[k] as int]
                } else {
                    v[g@[k] as int]
                }),
            forall|v: Seq<int>| #[trigger] c.followed(v) && before.holds(v) ==> c.holds(v),
    {
        let ghost middle = *c;
        assert(e@[i as int] < before.n_wires);
        assert(f@[i as int] < before.n_wires);
        assert(g@[i as int] < before.n_wires);
        let bit = ch(c, e[i], f[i], g[i]);
        out.push(bit);
        proof {
            lemma_gates_trans(before, middle, *c);
        }
    }
    proof {
        assert forall|v: Seq<int>| #[trigger]
            c.holds(v) && bool_row(e@, v) && bool_row(f@, v) && bool_row(g@, v) implies bool_row(
            out@,
            v,
        ) && row_word(out@, v) == choice(row_word(e@, v), row_word(f@, v), row_word(g@, v)) by {
            let (x, y, z) = (row_word(e@, v), row_word(f@, v), row_word(g@, v));
            lemma_row(e@, v);
            lemma_row(f@, v);
            lemma_row(g@, v);
            assert forall|i: int| 0 <= i < 32 implies v[#[trigger] out@[i] as int] == bit_nat(
                digit(choice(x, y, z) as nat, i as nat),
            ) by {
                lemma_digit_choice(x, y, z, i as nat);
                assert(v[e@[i] as int] == bit_nat(digit(x as nat, i as nat)));
                assert(v[f@[i] as int] == bit_nat(digit(y as nat, i as nat)));
                assert(v[g@[i] as int] == bit_nat(digit(z as nat, i as nat)));
            }
            lemma_row_of(out@, v, choice(x, y, z));
        }
    }
    out
}

/// The majority, bit by bit.
fn maj_row(c: &mut GateCircuit, x: &Vec<usize>, y: &Vec<usize>, z: &Vec<usize>) -> (out: Vec<usize>)
    requires
        old(c).wf(),
        old(c).n_wires + 96 <= usize::MAX,
        x@.len() == 32,
        y@.len() == 32,
        z@.len() == 32,
        row_in(x@, old(c).n_wires as nat),
        row_in(y@, old(c).n_wires as nat),
        row_in(z@, old(c).n_wires as nat),
    ensures
        final(c).wf(),
        final(c).grew_from(*old(c)),
        final(c).n_wires == old(c).n_wires + 96,
        out@.len() == 32,
        row_in(out@, final(c).n_wires as nat),
        forall|v: Seq<int>| #[trigger]
            final(c).holds(v) && bool_row(x@, v) && bool_row(y@, v) && bool_row(z@, v) ==> bool_row(
                out@,
                v,
            ) && row_word(out@, v) == majority(
                row_word(x@, v),
                row_word(y@, v),
                row_word(z@, v),
            ),
        forall|v: Seq<int>| #[trigger]
            final(c).followed(v) && old(c).holds(v) ==> final(c).holds(v),
{
    let ghost before = *c;
    let mut out: Vec<usize> = Vec::with_capacity(32);
    for i in 0..32usize
        invariant
            c.wf(),
            c.grew_from(before),
            before.n_wires + 96 <= usize::MAX,
            c.n_wires == before.n_wires + 3 * i,
            x@.len() == 32,
            y@.len() == 32,
            z@.len() == 32,
            row_in(x@, before.n_wires as nat),
            row_in(y@, before.n_wires as nat),
            row_in(z@, before.n_wires as nat),
            out@.len() == i,
            row_in(out@, c.n_wires as nat),
            forall|v: Seq<int>, k: int|
                0 <= k < i && #[trigger] c.holds(v) && bool_row(x@, v) && bool_row(y@, v)
                    && bool_row(z@, v) ==> v[#[trigger] out@[k] as int] == (if v[x@[k] as int]
                    != v[y@[k] as int] {
                    v[z@[k] as int]
                } else {
                    v[x@[k] as int]
                }),
            forall|v: Seq<int>| #[trigger] c.followed(v) && before.holds(v) ==> c.holds(v),
    {
        let ghost middle = *c;
        assert(x@[i as int] < before.n_wires);
        assert(y@[i as int] < before.n_wires);
        assert(z@[i as int] < before.n_wires);
        let bit = maj(c, x[i], y[i], z[i]);
        out.push(bit);
        proof {
            lemma_gates_trans(before, middle, *c);
        }
    }
    proof {
        assert forall|v: Seq<int>| #[trigger]
            c.holds(v) && bool_row(x@, v) && bool_row(y@, v) && bool_row(z@, v) implies bool_row(
            out@,
            v,
        ) && row_word(out@, v) == majority(row_word(x@, v), row_word(y@, v), row_word(z@, v)) by {
            let (a, b, d) = (row_word(x@, v), row_word(y@, v), row_word(z@, v));
            lemma_row(x@, v);
            lemma_row(y@, v);
            lemma_row(z@, v);
            assert forall|i: int| 0 <= i < 32 implies v[#[trigger] out@[i] as int] == bit_nat(
                digit(majority(a, b, d) as nat, i as nat),
            ) by {
                lemma_digit_majority(a, b, d, i as nat);
                assert(v[x@[i] as int] == bit_nat(digit(a as nat, i as nat)));
                assert(v[y@[i] as int] == bit_nat(digit(b as nat, i as nat)));
                assert(v[z@[i] as int] == bit_nat(digit(d as nat, i as nat)));
            }
            lemma_row_of(out@, v, majority(a, b, d));
        }
    }
    out
}

/// The value of a row of 32 bits.
fn pack(c: &mut GateCircuit, bits: &Vec<usize>) -> (out: usize)
    requires
        old(c).wf(),
        old(c).n_wires < usize::MAX,
        bits@.len() == 32,
        row_in(bits@, old(c).n_wires as nat),
    ensures
        final(c).wf(),
        final(c).grew_from(*old(c)),
        final(c).n_wires == old(c).n_wires + 1,
        out < final(c).n_wires,
        forall|v: Seq<int>| #[trigger]
            final(c).holds(v) && bool_row(bits@, v) ==> v[out as int] == row_word(bits@, v),
        forall|v: Seq<int>| #[trigger]
            final(c).followed(v) && old(c).holds(v) ==> final(c).holds(v),
{
    let row = bits.clone();
    assert(row@ =~= bits@);
    let out = c.push(Gate::LeSum { bits: row });
    proof {
        assert forall|v: Seq<int>| #[trigger] c.holds(v) && bool_row(bits@, v) implies v[out as int]
            == row_word(bits@, v) by {
            lemma_row(bits@, v);
            lemma_small_mod(row_word(bits@, v) as nat, ORDER as nat);
        }
    }
    out
}

/// The wires of a word.
pub struct Word {
    pub bits: Vec<usize>,
    pub word: usize,
}

pub open spec fn word_in(w: Word, n: nat) -> bool {
    w.bits@.len() == 32 && row_in(w.bits@, n) && w.word < n
}

/// The bits are Boolean and write the value.
pub open spec fn good(w: Word, v: Seq<int>) -> bool {
    bool_row(w.bits@, v) && v[w.word as int] == row_word(w.bits@, v)
}

/// The value of a word.
pub open spec fn word_at(w: Word, v: Seq<int>) -> u32 {
    row_word(w.bits@, v)
}

proof fn lemma_wire_sum_push(v: Seq<int>, terms: Seq<usize>, t: usize)
    ensures
        wire_sum(v, terms.push(t)) == wire_sum(v, terms) + v[t as int],
{
    assert(terms.push(t).drop_last() =~= terms);
}

proof fn lemma_wire_sum2(v: Seq<int>, a: usize, b: usize)
    ensures
        wire_sum(v, seq![a, b]) == v[a as int] + v[b as int],
{
    let e = Seq::<usize>::empty();
    lemma_wire_sum_push(v, e, a);
    lemma_wire_sum_push(v, e.push(a), b);
    assert(seq![a, b] =~= e.push(a).push(b));
}

proof fn lemma_wire_sum3(v: Seq<int>, a: usize, b: usize, c: usize)
    ensures
        wire_sum(v, seq![a, b, c]) == v[a as int] + v[b as int] + v[c as int],
{
    lemma_wire_sum2(v, a, b);
    lemma_wire_sum_push(v, seq![a, b], c);
    assert(seq![a, b, c] =~= seq![a, b].push(c));
}

proof fn lemma_wire_sum4(v: Seq<int>, a: usize, b: usize, c: usize, d: usize)
    ensures
        wire_sum(v, seq![a, b, c, d]) == v[a as int] + v[b as int] + v[c as int] + v[d as int],
{
    lemma_wire_sum3(v, a, b, c);
    lemma_wire_sum_push(v, seq![a, b, c], d);
    assert(seq![a, b, c, d] =~= seq![a, b, c].push(d));
}

proof fn lemma_wire_sum5(v: Seq<int>, a: usize, b: usize, c: usize, d: usize, e: usize)
    ensures
        wire_sum(v, seq![a, b, c, d, e]) == v[a as int] + v[b as int] + v[c as int] + v[d as int]
            + v[e as int],
{
    lemma_wire_sum4(v, a, b, c, d);
    lemma_wire_sum_push(v, seq![a, b, c, d], e);
    assert(seq![a, b, c, d, e] =~= seq![a, b, c, d].push(e));
}

/// The low 32 of a longer row of bits write the number modulo `2^32`.
proof fn lemma_low_row(first: int, n: nat, low: Seq<usize>, v: Seq<int>)
    requires
        32 <= n <= 63,
        0 <= first,
        first + n <= usize::MAX,
        low == wire_range(first, n).take(32),
        bool_row(wire_range(first, n), v),
    ensures
        bool_row(low, v),
        row_word(low, v) == word32(wire_le_sum(v, wire_range(first, n))),
{
    let row = wire_range(first, n);
    lemma_le_sum(row, v);
    let x = wire_le_sum(v, row);
    let r = word32(x);
    lemma2_to64();
    lemma_fundamental_div_mod(x, 0x1_0000_0000);
    let b = x / 0x1_0000_0000;
    assert(b * pow2(32) == 0x1_0000_0000 * b);
    assert forall|i: int| 0 <= i < 32 implies v[#[trigger] low[i] as int] == bit_nat(
        digit(r as nat, i as nat),
    ) by {
        assert(low[i] == row[i]);
        lemma_low_digit(r as nat, b as nat, 32, i as nat);
    }
    lemma_row_of(low, v, r);
}

/// The sum of the terms, reduced to 32 bits; `num_bits` bounds the sum.
fn add_mod32(c: &mut GateCircuit, terms: Vec<usize>, num_bits: usize) -> (out: Word)
    requires
        old(c).wf(),
        32 <= num_bits <= 63,
        old(c).n_wires + 2 + num_bits <= usize::MAX,
        row_in(terms@, old(c).n_wires as nat),
    ensures
        final(c).wf(),
        final(c).grew_from(*old(c)),
        final(c).n_wires == old(c).n_wires + 2 + num_bits,
        word_in(out, final(c).n_wires as nat),
        forall|v: Seq<int>| #[trigger]
            final(c).holds(v) && final(c).fits(v) ==> good(out, v) && word_at(out, v) == word32(
                wire_sum(v, terms@) % (ORDER as int),
            ),
        forall|v: Seq<int>| #[trigger]
            final(c).followed(v) && old(c).holds(v) && final(c).fits(v) && 0 <= wire_sum(v, terms@)
                < pow2(num_bits as nat) ==> final(c).holds(v),
{
    let ghost c0 = *c;
    let ghost sum_of = terms@;
    let raw = c.push(Gate::AddMany { terms });
    let ghost c1 = *c;
    let first = c.push(Gate::SplitLe { x: raw, n: num_bits });
    let ghost c2 = *c;
    let mut bits: Vec<usize> = Vec::with_capacity(32);
    let ghost row = wire_range(first as int, num_bits as nat);
    for i in 0..32usize
        invariant
            32 <= num_bits,
            first + num_bits <= usize::MAX,
            row == wire_range(first as int, num_bits as nat),
            bits@ == row.take(i as int),
    {
        bits.push(first + i);
        assert(bits@ =~= row.take(i + 1));
    }
    assert(row_in(bits@, c2.n_wires as nat));
    let word = pack(c, &bits);
    let out = Word { bits, word };
    proof {
        lemma_gates_trans(c0, c1, c2);
        lemma_gates_trans(c0, c2, *c);
        lemma2_to64();
        lemma2_to64_rest();
        if num_bits < 63 {
            lemma_pow2_strictly_increases(num_bits as nat, 63);
        }
        assert forall|v: Seq<int>| #[trigger] c.holds(v) && c.fits(v) implies good(out, v)
            && word_at(out, v) == word32(wire_sum(v, sum_of) % (ORDER as int)) by {
            assert(c2.holds(v) && c1.holds(v));
            assert(bool_row(row, v)) by {
                assert forall|i: int| 0 <= i < row.len() implies v[#[trigger] row[i] as int] == 0
                    || v[row[i] as int] == 1 by {
                    assert(v[first + i] == 0 || v[first + i] == 1);
                }
            }
            lemma_le_sum(row, v);
            lemma_small_mod(wire_le_sum(v, row) as nat, ORDER as nat);
            lemma_low_row(first as int, num_bits as nat, bits@, v);
        }
        assert forall|v: Seq<int>| #[trigger]
            c.followed(v) && c0.holds(v) && c.fits(v) && 0 <= wire_sum(v, sum_of) < pow2(
                num_bits as nat,
            ) implies c.holds(v) by {
            assert(c2.followed(v) && c1.followed(v));
            assert(c1.holds(v));
            lemma_small_mod(wire_sum(v, sum_of) as nat, ORDER as nat);
            let x = v[raw as int] as nat;
            assert forall|i: int| 0 <= i < row.len() implies v[#[trigger] row[i] as int] == bit_nat(
                digit(x, i as nat),
            ) by {
                assert(v[first + i] == bit_nat(digit(x, i as nat)));
            }
            lemma_le_sum_of_digits(row, v, x);
            lemma_small_mod(x, ORDER as nat);
            assert forall|i: int| 0 <= i < num_bits implies #[trigger] v[first + i] == 0 || v[first
                + i] == 1 by {
                assert(row[i] == first + i);
            }
            assert(gate_holds(Gate::SplitLe { x: raw, n: num_bits }, first as int, v));
            assert(c2.holds(v));
        }
    }
    out
}

/// A word that is constant.
fn constant_word(c: &mut GateCircuit, value: u32) -> (out: Word)
    requires
        old(c).wf(),
        old(c).n_wires + 33 <= usize::MAX,
    ensures
        final(c).wf(),
        final(c).grew_from(*old(c)),
        final(c).n_wires == old(c).n_wires + 33,
        word_in(out, final(c).n_wires as nat),
        forall|v: Seq<int>| #[trigger]
            final(c).holds(v) ==> good(out, v) && word_at(out, v) == value,
        forall|v: Seq<int>| #[trigger]
            final(c).followed(v) && old(c).holds(v) ==> final(c).holds(v),
{
    let ghost before = *c;
    let mut bits: Vec<usize> = Vec::with_capacity(32);
    for i in 0..32u32
        invariant
            c.wf(),
            c.grew_from(before),
            before.n_wires + 33 <= usize::MAX,
            c.n_wires == before.n_wires + i,
            bits@.len() == i,
            row_in(bits@, c.n_wires as nat),
            forall|v: Seq<int>, k: int|
                0 <= k < i && #[trigger] c.holds(v) ==> v[#[trigger] bits@[k] as int] == bit_nat(
                    digit(value as nat, k as nat),
                ),
            forall|v: Seq<int>| #[trigger] c.followed(v) && before.holds(v) ==> c.holds(v),
    {
        let ghost middle = *c;
        let shifted = value >> i;
        let bit: u64 = if shifted & 1 == 1 {
            1
        } else {
            0
        };
        proof {
            lemma_u32_shr_is_div(value, i);
            assert((shifted & 1u32 == 1u32) == (shifted % 2 == 1)) by (bit_vector);
        }
        let wire = c.push(Gate::Constant { value: bit });
        bits.push(wire);
        proof {
            lemma_gates_trans(before, middle, *c);
        }
    }
    let ghost middle = *c;
    let word = c.push(Gate::Constant { value: value as u64 });
    let out = Word { bits, word };
    proof {
        lemma_gates_trans(before, middle, *c);
        assert forall|v: Seq<int>| #[trigger] c.holds(v) implies good(out, v) && word_at(out, v)
            == value by {
            assert(middle.holds(v));
            lemma_row_of(bits@, v, value);
        }
    }
    out
}

/// Takes an input wire apart into a word.
fn input_word(c: &mut GateCircuit, t: usize) -> (out: Word)
    requires
        old(c).wf(),
        old(c).n_wires + 32 <= usize::MAX,
        t < old(c).n_wires,
    ensures
        final(c).wf(),
        final(c).grew_from(*old(c)),
        final(c).n_wires == old(c).n_wires + 32,
        word_in(out, final(c).n_wires as nat),
        forall|v: Seq<int>| #[trigger]
            final(c).holds(v) ==> 0 <= v[t as int] < 0x1_0000_0000 && good(out, v) && word_at(
                out,
                v,
            ) == v[t as int],
        forall|v: Seq<int>| #[trigger]
            final(c).followed(v) && old(c).holds(v) && 0 <= v[t as int] < 0x1_0000_0000
                ==> final(c).holds(v),
{
    let first = c.push(Gate::SplitLe { x: t, n: 32 });
    let ghost row = wire_range(first as int, 32);
    let mut bits: Vec<usize> = Vec::with_capacity(32);
    for i in 0..32usize
        invariant
            first + 32 <= usize::MAX,
            row == wire_range(first as int, 32),
            bits@ == row.take(i as int),
    {
        bits.push(first + i);
        assert(bits@ =~= row.take(i + 1));
    }
    assert(bits@ =~= row);
    proof {
        lemma2_to64();
        assert forall|v: Seq<int>| #[trigger] c.holds(v) implies 0 <= v[t as int] < 0x1_0000_0000
            && bool_row(row, v) && row_word(row, v) == v[t as int] by {
            assert forall|i: int| 0 <= i < row.len() implies v[#[trigger] row[i] as int] == 0
                || v[row[i] as int] == 1 by {
                assert(v[first + i] == 0 || v[first + i] == 1);
            }
            lemma_row(row, v);
            lemma_small_mod(row_word(row, v) as nat, ORDER as nat);
        }
        assert forall|v: Seq<int>| #[trigger]
            c.followed(v) && old(c).holds(v) && 0 <= v[t as int] < 0x1_0000_0000 implies c.holds(
            v,
        ) by {
            let x = v[t as int] as nat;
            assert forall|i: int| 0 <= i < row.len() implies v[#[trigger] row[i] as int] == bit_nat(
                digit(x, i as nat),
            ) by {
                assert(v[first + i] == bit_nat(digit(x, i as nat)));
            }
            lemma_le_sum_of_digits(row, v, x);
            lemma_small_mod(x, ORDER as nat);
            assert forall|i: int| 0 <= i < 32 implies #[trigger] v[first + i] == 0 || v[first + i]
                == 1 by {
                assert(row[i] == first + i);
            }
            assert(gate_holds(Gate::SplitLe { x: t, n: 32 }, first as int, v));
        }
    }
    Word { bits, word: t }
}

/// The message in the input wires.
pub open spec fn message_at(input: Seq<usize>, v: Seq<int>) -> Seq<u32> {
    Seq::new(8, |j: int| v[input[j] as int] as u32)
}

/// The input wires hold words.
pub open spec fn words_in(input: Seq<usize>, v: Seq<int>) -> bool {
    forall|j: int| 0 <= j < 8 ==> 0 <= v[#[trigger] input[j] as int] < 0x1_0000_0000
}

/// Every word of the row holds its word of the schedule.
spec fn scheduled(w: Seq<Word>, input: Seq<usize>, v: Seq<int>) -> bool {
    forall|t: int|
        0 <= t < w.len() ==> good(#[trigger] w[t], v) && word_at(w[t], v) == schedule(
            message_at(input, v),
            t as nat,
        )
}

spec fn words_fit(w: Seq<Word>, n: nat) -> bool {
    forall|t: int| 0 <= t < w.len() ==> word_in(#[trigger] w[t], n)
}

proof fn lemma_words_fit(w: Seq<Word>, n: nat, m: nat)
    requires
        words_fit(w, n),
        n <= m,
    ensures
        words_fit(w, m),
{
    assert forall|t: int| 0 <= t < w.len() implies word_in(#[trigger] w[t], m) by {
        assert(word_in(w[t], n));
    }
}

/// The first sixteen words: the message and its padding.
fn padded_message(c: &mut GateCircuit, input: &[usize; 8]) -> (w: Vec<Word>)
    requires
        old(c).wf(),
        old(c).n_wires + 520 <= usize::MAX,
        row_in(input@, old(c).n_wires as nat),
    ensures
        final(c).wf(),
        final(c).grew_from(*old(c)),
        final(c).n_wires == old(c).n_wires + 520,
        w@.len() == 16,
        words_fit(w@, final(c).n_wires as nat),
        forall|v: Seq<int>| #[trigger]
            final(c).holds(v) ==> words_in(input@, v) && scheduled(w@, input@, v),
        forall|v: Seq<int>| #[trigger]
            final(c).followed(v) && old(c).holds(v) && words_in(input@, v) ==> final(c).holds(v),
{
    let ghost before = *c;
    let mut w: Vec<Word> = Vec::with_capacity(64);
    for j in 0..8usize
        invariant
            c.wf(),
            c.grew_from(before),
            before.n_wires + 520 <= usize::MAX,
            row_in(input@, before.n_wires as nat),
            c.n_wires == before.n_wires + 32 * j,
            w@.len() == j,
            words_fit(w@, c.n_wires as nat),
            forall|v: Seq<int>| #[trigger]
                c.holds(v) ==> scheduled(w@, input@, v) && forall|i: int|
                    0 <= i < j ==> 0 <= v[#[trigger] input@[i] as int] < 0x1_0000_0000,
            forall|v: Seq<int>| #[trigger]
                c.followed(v) && before.holds(v) && words_in(input@, v) ==> c.holds(v),
    {
        let ghost middle = *c;
        let ghost was = w@;
        assert(input@[j as int] < before.n_wires);
        let word = input_word(c, input[j]);
        w.push(word);
        proof {
            lemma_gates_trans(before, middle, *c);
            lemma_words_fit(was, middle.n_wires as nat, c.n_wires as nat);
            assert forall|v: Seq<int>| #[trigger] c.holds(v) implies scheduled(w@, input@, v)
                && forall|i: int|
                0 <= i < j + 1 ==> 0 <= v[#[trigger] input@[i] as int] < 0x1_0000_0000 by {
                assert(middle.holds(v));
                assert forall|t: int| 0 <= t < w@.len() implies good(#[trigger] w@[t], v)
                    && word_at(w@[t], v) == schedule(message_at(input@, v), t as nat) by {
                    if t < j {
                        assert(good(was[t], v));
                    }
                }
            }
        }
    }
    for j in 8..16usize
        invariant
            c.wf(),
            c.grew_from(before),
            before.n_wires + 520 <= usize::MAX,
            c.n_wires == before.n_wires + 256 + 33 * (j - 8),
            w@.len() == j,
            words_fit(w@, c.n_wires as nat),
            forall|v: Seq<int>| #[trigger]
                c.holds(v) ==> words_in(input@, v) && scheduled(w@, input@, v),
            forall|v: Seq<int>| #[trigger]
                c.followed(v) && before.holds(v) && words_in(input@, v) ==> c.holds(v),
    {
        let ghost middle = *c;
        let ghost was = w@;
        let value: u32 = if j == 8 {
            0x8000_0000
        } else if j < 15 {
            0
        } else {
            256
        };
        let word = constant_word(c, value);
        w.push(word);
        proof {
            lemma_gates_trans(before, middle, *c);
            lemma_words_fit(was, middle.n_wires as nat, c.n_wires as nat);
            assert forall|v: Seq<int>| #[trigger] c.holds(v) implies words_in(input@, v)
                && scheduled(w@, input@, v) by {
                assert(middle.holds(v));
                assert forall|t: int| 0 <= t < w@.len() implies good(#[trigger] w@[t], v)
                    && word_at(w@[t], v) == schedule(message_at(input@, v), t as nat) by {
                    if t < j {
                        assert(good(was[t], v));
                    }
                }
            }
        }
    }
    w
}

/// One further word of the schedule.
fn next_word(c: &mut GateCircuit, w: &Vec<Word>, input: &[usize; 8]) -> (next: Word)
    requires
        old(c).wf(),
        old(c).n_wires + 294 <= usize::MAX,
        16 <= w@.len(),
        words_fit(w@, old(c).n_wires as nat),
        forall|v: Seq<int>| #[trigger]
            old(c).holds(v) && old(c).fits(v) ==> scheduled(w@, input@, v),
    ensures
        final(c).wf(),
        final(c).grew_from(*old(c)),
        final(c).n_wires <= old(c).n_wires + 294,
        word_in(next, final(c).n_wires as nat),
        forall|v: Seq<int>| #[trigger]
            final(c).holds(v) && final(c).fits(v) ==> good(next, v) && word_at(next, v) == schedule(
                message_at(input@, v),
                w@.len(),
            ),
        forall|v: Seq<int>| #[trigger]
            final(c).followed(v) && old(c).holds(v) && final(c).fits(v) ==> final(c).holds(v),
{
    let t = w.len();
    let ghost c0 = *c;
    assert(word_in(w@[t - 15], c0.n_wires as nat));
    assert(word_in(w@[t - 2], c0.n_wires as nat));
    assert(word_in(w@[t - 7], c0.n_wires as nat));
    assert(word_in(w@[t - 16], c0.n_wires as nat));
    let s0 = small_sigma(c, &w[t - 15].bits, 7, 18, 3);
    let ghost c1 = *c;
    let s1 = small_sigma(c, &w[t - 2].bits, 17, 19, 10);
    let ghost c2 = *c;
    assert(row_in(s0@, c2.n_wires as nat));
    let s0w = pack(c, &s0);
    let ghost c3 = *c;
    assert(row_in(s1@, c3.n_wires as nat));
    let s1w = pack(c, &s1);
    let ghost c4 = *c;
    let (w7, w16) = (w[t - 7].word, w[t - 16].word);
    let terms: Vec<usize> = vec![s1w, w7, s0w, w16];
    assert(terms@ =~= seq![s1w, w7, s0w, w16]);
    assert(row_in(terms@, c4.n_wires as nat));
    let next = add_mod32(c, terms, 34);
    proof {
        lemma_gates_trans(c0, c1, c2);
        lemma_gates_trans(c0, c2, c3);
        lemma_gates_trans(c0, c3, c4);
        lemma_gates_trans(c0, c4, *c);
        lemma2_to64_rest();
        assert forall|v: Seq<int>| #[trigger] c4.holds(v) && c4.fits(v) implies {
            let x = wire_sum(v, terms@);
            &&& 0 <= x < 0x4_0000_0000
            &&& word32(x) == schedule(message_at(input@, v), t as nat)
        } by {
            assert(c3.holds(v) && c2.holds(v) && c1.holds(v) && c0.holds(v));
            assert(c0.fits(v));
            lemma_wire_sum4(v, s1w, w7, s0w, w16);
            assert(good(w@[t - 15], v));
            assert(good(w@[t - 2], v));
            assert(good(w@[t - 7], v));
            assert(good(w@[t - 16], v));
        }
        assert forall|v: Seq<int>| #[trigger] c.holds(v) && c.fits(v) implies good(next, v)
            && word_at(next, v) == schedule(message_at(input@, v), t as nat) by {
            assert(c4.holds(v) && c4.fits(v));
            lemma_small_mod(wire_sum(v, terms@) as nat, ORDER as nat);
        }
        assert forall|v: Seq<int>| #[trigger]
            c.followed(v) && c0.holds(v) && c.fits(v) implies c.holds(v) by {
            assert(c4.followed(v) && c3.followed(v) && c2.followed(v) && c1.followed(v));
            assert(c1.holds(v));
            assert(c2.holds(v));
            assert(c3.holds(v));
            assert(c4.holds(v) && c4.fits(v));
            assert(wire_sum(v, terms@) < pow2(34));
        }
    }
    next
}

/// The words of the schedule.
fn message_schedule(c: &mut GateCircuit, input: &[usize; 8]) -> (w: Vec<Word>)
    requires
        old(c).wf(),
        old(c).n_wires + 14632 <= usize::MAX,
        row_in(input@, old(c).n_wires as nat),
    ensures
        final(c).wf(),
        final(c).grew_from(*old(c)),
        final(c).n_wires <= old(c).n_wires + 14632,
        w@.len() == 64,
        words_fit(w@, final(c).n_wires as nat),
        forall|v: Seq<int>| #[trigger]
            final(c).holds(v) && final(c).fits(v) ==> words_in(input@, v) && scheduled(
                w@,
                input@,
                v,
            ),
        forall|v: Seq<int>| #[trigger]
            final(c).followed(v) && old(c).holds(v) && final(c).fits(v) && words_in(input@, v)
                ==> final(c).holds(v),
{
    let ghost before = *c;
    let mut w = padded_message(c, input);
    for t in 16..64usize
        invariant
            c.wf(),
            c.grew_from(before),
            before.n_wires + 14632 <= usize::MAX,
            c.n_wires <= before.n_wires + 520 + 294 * (t - 16),
            w@.len() == t,
            words_fit(w@, c.n_wires as nat),
            forall|v: Seq<int>| #[trigger]
                c.holds(v) && c.fits(v) ==> words_in(input@, v) && scheduled(w@, input@, v),
            forall|v: Seq<int>| #[trigger]
                c.followed(v) && before.holds(v) && c.fits(v) && words_in(input@, v) ==> c.holds(v),
    {
        let ghost middle = *c;
        let ghost was = w@;
        let next = next_word(c, &w, input);
        w.push(next);
        proof {
            lemma_gates_trans(before, middle, *c);
            lemma_words_fit(was, middle.n_wires as nat, c.n_wires as nat);
            assert forall|v: Seq<int>| #[trigger] c.holds(v) && c.fits(v) implies words_in(
                input@,
                v,
            ) && scheduled(w@, input@, v) by {
                assert(middle.holds(v) && middle.fits(v));
                assert forall|i: int| 0 <= i < w@.len() implies good(#[trigger] w@[i], v)
                    && word_at(w@[i], v) == schedule(message_at(input@, v), i as nat) by {
                    if i < t {
                        assert(good(was[i], v));
                    }
                }
            }
        }
    }
    w
}

/// The words in a row of wires.
pub open spec fn words_of(vars: Seq<Word>, v: Seq<int>) -> Seq<u32> {
    vars.map_values(|w: Word| word_at(w, v))
}

spec fn all_good(vars: Seq<Word>, v: Seq<int>) -> bool {
    forall|j: int| 0 <= j < vars.len() ==> good(#[trigger] vars[j], v)
}

/// The two new words of a round.
fn round(c: &mut GateCircuit, vars: &Vec<Word>, w: &Word, k: u32) -> (out: (Word, Word))
    requires
        old(c).wf(),
        old(c).n_wires + 464 <= usize::MAX,
        vars@.len() == 8,
        words_fit(vars@, old(c).n_wires as nat),
        word_in(*w, old(c).n_wires as nat),
    ensures
        final(c).wf(),
        final(c).grew_from(*old(c)),
        final(c).n_wires == old(c).n_wires + 464,
        word_in(out.0, final(c).n_wires as nat),
        word_in(out.1, final(c).n_wires as nat),
        forall|v: Seq<int>| #[trigger]
            final(c).holds(v) && final(c).fits(v) && all_good(vars@, v) && good(*w, v) ==> {
                let next = round_of(words_of(vars@, v), k, word_at(*w, v));
                &&& good(out.0, v)
                &&& word_at(out.0, v) == next[0]
                &&& good(out.1, v)
                &&& word_at(out.1, v) == next[4]
            },
        forall|v: Seq<int>| #[trigger]
            final(c).followed(v) && old(c).holds(v) && final(c).fits(v) && all_good(vars@, v)
                && good(*w, v) ==> final(c).holds(v),
{
    let ghost c0 = *c;
    let ghost n0 = c0.n_wires as nat;
    assert(word_in(vars@[0], n0));
    assert(word_in(vars@[1], n0));
    assert(word_in(vars@[2], n0));
    assert(word_in(vars@[3], n0));
    assert(word_in(vars@[4], n0));
    assert(word_in(vars@[5], n0));
    assert(word_in(vars@[6], n0));
    assert(word_in(vars@[7], n0));
    let (hw, dw, ww) = (vars[7].word, vars[3].word, w.word);
    let s1 = big_sigma(c, &vars[4].bits, 6, 11, 25);
    let ghost c1 = *c;
    let s1w = pack(c, &s1);
    let ghost c2 = *c;
    let chosen = ch_row(c, &vars[4].bits, &vars[5].bits, &vars[6].bits);
    let ghost c3 = *c;
    let chw = pack(c, &chosen);
    let ghost c4 = *c;
    let kw = c.push(Gate::Constant { value: k as u64 });
    let ghost c5 = *c;
    let five: Vec<usize> = vec![hw, s1w, chw, kw, ww];
    assert(five@ =~= seq![hw, s1w, chw, kw, ww]);
    let temp1 = c.push(Gate::AddMany { terms: five });
    let ghost c6 = *c;
    let s0 = big_sigma(c, &vars[0].bits, 2, 13, 22);
    let ghost c7 = *c;
    let s0w = pack(c, &s0);
    let ghost c8 = *c;
    let most = maj_row(c, &vars[0].bits, &vars[1].bits, &vars[2].bits);
    let ghost c9 = *c;
    let mjw = pack(c, &most);
    let ghost c10 = *c;
    let two: Vec<usize> = vec![dw, temp1];
    assert(two@ =~= seq![dw, temp1]);
    let new_e = add_mod32(c, two, 35);
    let ghost c11 = *c;
    let three: Vec<usize> = vec![temp1, s0w, mjw];
    assert(three@ =~= seq![temp1, s0w, mjw]);
    let new_a = add_mod32(c, three, 35);
    proof {
        lemma_gates_trans(c0, c1, c2);
        lemma_gates_trans(c0, c2, c3);
        lemma_gates_trans(c0, c3, c4);
        lemma_gates_trans(c0, c4, c5);
        lemma_gates_trans(c0, c5, c6);
        lemma_gates_trans(c0, c6, c7);
        lemma_gates_trans(c0, c7, c8);
        lemma_gates_trans(c0, c8, c9);
        lemma_gates_trans(c0, c9, c10);
        lemma_gates_trans(c0, c10, c11);
        lemma_gates_trans(c0, c11, *c);
        lemma2_to64_rest();
        assert forall|v: Seq<int>| #[trigger]
            c10.holds(v) && all_good(vars@, v) && good(*w, v) implies {
            let s = words_of(vars@, v);
            let t1 = temp1_of(s, k, word_at(*w, v));
            &&& 0 <= t1 < 5 * 0x1_0000_0000
            &&& wire_sum(v, two@) == s[3] + t1
            &&& wire_sum(v, three@) == t1 + temp2_of(s)
            &&& 0 <= s[3] + t1 < 0x8_0000_0000
            &&& 0 <= t1 + temp2_of(s) < 0x8_0000_0000
        } by {
            assert(c9.holds(v) && c8.holds(v) && c7.holds(v) && c6.holds(v) && c5.holds(v));
            assert(c4.holds(v) && c3.holds(v) && c2.holds(v) && c1.holds(v));
            let s = words_of(vars@, v);
            assert(good(vars@[0], v) && good(vars@[1], v) && good(vars@[2], v) && good(vars@[3], v));
            assert(good(vars@[4], v) && good(vars@[5], v) && good(vars@[6], v) && good(vars@[7], v));
            lemma_wire_sum5(v, hw, s1w, chw, kw, ww);
            let t1 = temp1_of(s, k, word_at(*w, v));
            assert(wire_sum(v, five@) == t1);
            lemma_small_mod(t1 as nat, ORDER as nat);
            assert(v[temp1 as int] == t1);
            lemma_wire_sum2(v, dw, temp1);
            lemma_wire_sum3(v, temp1, s0w, mjw);
        }
        assert forall|v: Seq<int>| #[trigger]
            c.holds(v) && c.fits(v) && all_good(vars@, v) && good(*w, v) implies {
            let next = round_of(words_of(vars@, v), k, word_at(*w, v));
            &&& good(new_a, v)
            &&& word_at(new_a, v) == next[0]
            &&& good(new_e, v)
            &&& word_at(new_e, v) == next[4]
        } by {
            assert(c11.holds(v) && c11.fits(v));
            assert(c10.holds(v));
            lemma_small_mod(wire_sum(v, two@) as nat, ORDER as nat);
            lemma_small_mod(wire_sum(v, three@) as nat, ORDER as nat);
        }
        assert forall|v: Seq<int>| #[trigger]
            c.followed(v) && c0.holds(v) && c.fits(v) && all_good(vars@, v) && good(
                *w,
                v,
            ) implies c.holds(v) by {
            assert(c11.followed(v) && c10.followed(v) && c9.followed(v) && c8.followed(v));
            assert(c7.followed(v) && c6.followed(v) && c5.followed(v) && c4.followed(v));
            assert(c3.followed(v) && c2.followed(v) && c1.followed(v));
            assert(c1.holds(v));
            assert(c2.holds(v));
            assert(c3.holds(v));
            assert(c4.holds(v));
            assert(c5.holds(v));
            assert(c6.holds(v));
            assert(c7.holds(v));
            assert(c8.holds(v));
            assert(c9.holds(v));
            assert(c10.holds(v));
            assert(c11.fits(v));
            assert(c11.holds(v));
        }
    }
    (new_a, new_e)
}

/// The working variables start at the initial state.
fn initial_vars(c: &mut GateCircuit) -> (vars: Vec<Word>)
    requires
        old(c).wf(),
        old(c).n_wires + 264 <= usize::MAX,
    ensures
        final(c).wf(),
        final(c).grew_from(*old(c)),
        final(c).n_wires == old(c).n_wires + 264,
        vars@.len() == 8,
        words_fit(vars@, final(c).n_wires as nat),
        forall|v: Seq<int>| #[trigger]
            final(c).holds(v) ==> all_good(vars@, v) && words_of(vars@, v) == IV@,
        forall|v: Seq<int>| #[trigger]
            final(c).followed(v) && old(c).holds(v) ==> final(c).holds(v),
{
    let ghost before = *c;
    let iv = IV;
    let mut vars: Vec<Word> = Vec::with_capacity(8);
    for j in 0..8usize
        invariant
            c.wf(),
            c.grew_from(before),
            iv@ == IV@,
            before.n_wires + 264 <= usize::MAX,
            c.n_wires == before.n_wires + 33 * j,
            vars@.len() == j,
            words_fit(vars@, c.n_wires as nat),
            forall|v: Seq<int>| #[trigger]
                c.holds(v) ==> all_good(vars@, v) && forall|i: int|
                    0 <= i < j ==> word_at(#[trigger] vars@[i], v) == IV@[i],
            forall|v: Seq<int>| #[trigger] c.followed(v) && before.holds(v) ==> c.holds(v),
    {
        let ghost middle = *c;
        let ghost was = vars@;
        let word = constant_word(c, iv[j]);
        vars.push(word);
        proof {
            lemma_gates_trans(before, middle, *c);
            lemma_words_fit(was, middle.n_wires as nat, c.n_wires as nat);
            assert forall|v: Seq<int>| #[trigger] c.holds(v) implies all_good(vars@, v)
                && forall|i: int|
                0 <= i < j + 1 ==> word_at(#[trigger] vars@[i], v) == IV@[i] by {
                assert(middle.holds(v));
                assert forall|i: int| 0 <= i < vars@.len() implies good(#[trigger] vars@[i], v)
                    && word_at(vars@[i], v) == IV@[i] by {
                    if i < j {
                        assert(good(was[i], v));
                        assert(word_at(was[i], v) == IV@[i]);
                    }
                }
            }
        }
    }
    proof {
        assert forall|v: Seq<int>| #[trigger] c.holds(v) implies all_good(vars@, v) && words_of(
            vars@,
            v,
        ) == IV@ by {
            assert(words_of(vars@, v) =~= IV@);
        }
    }
    vars
}

/// The new words go in at the front and in the middle, the others move down.
proof fn lemma_shifted_vars(
    old_vars: Seq<Word>,
    vars: Seq<Word>,
    new_a: Word,
    new_e: Word,
    v: Seq<int>,
    k: u32,
    w: u32,
)
    requires
        old_vars.len() == 8,
        vars == seq![
            new_a,
            old_vars[0],
            old_vars[1],
            old_vars[2],
            new_e,
            old_vars[4],
            old_vars[5],
            old_vars[6],
        ],
        all_good(old_vars, v),
        good(new_a, v),
        good(new_e, v),
        word_at(new_a, v) == round_of(words_of(old_vars, v), k, w)[0],
        word_at(new_e, v) == round_of(words_of(old_vars, v), k, w)[4],
    ensures
        all_good(vars, v),
        words_of(vars, v) == round_of(words_of(old_vars, v), k, w),
{
    assert forall|j: int| 0 <= j < vars.len() implies good(#[trigger] vars[j], v) by {
        if j > 0 && j < 4 {
            assert(good(old_vars[j - 1], v));
        } else if j > 4 {
            assert(good(old_vars[j - 1], v));
        }
    }
    assert(words_of(vars, v) =~= round_of(words_of(old_vars, v), k, w));
}

/// The working variables after all rounds.
fn all_rounds(c: &mut GateCircuit, w: &Vec<Word>, input: &[usize; 8]) -> (vars: Vec<Word>)
    requires
        old(c).wf(),
        old(c).n_wires + 29960 <= usize::MAX,
        w@.len() == 64,
        words_fit(w@, old(c).n_wires as nat),
        forall|v: Seq<int>| #[trigger]
            old(c).holds(v) && old(c).fits(v) ==> scheduled(w@, input@, v),
    ensures
        final(c).wf(),
        final(c).grew_from(*old(c)),
        final(c).n_wires == old(c).n_wires + 29960,
        vars@.len() == 8,
        words_fit(vars@, final(c).n_wires as nat),
        forall|v: Seq<int>| #[trigger]
            final(c).holds(v) && final(c).fits(v) ==> all_good(vars@, v) && words_of(vars@, v)
                == rounds(message_at(input@, v), 64),
        forall|v: Seq<int>| #[trigger]
            final(c).followed(v) && old(c).holds(v) && final(c).fits(v) ==> final(c).holds(v),
{
    let ghost before = *c;
    let constants = K;
    let mut vars = initial_vars(c);
    for t in 0..64usize
        invariant
            c.wf(),
            c.grew_from(before),
            constants@ == K@,
            before.n_wires + 29960 <= usize::MAX,
            c.n_wires == before.n_wires + 264 + 464 * t,
            w@.len() == 64,
            words_fit(w@, before.n_wires as nat),
            forall|v: Seq<int>| #[trigger]
                before.holds(v) && before.fits(v) ==> scheduled(w@, input@, v),
            vars@.len() == 8,
            words_fit(vars@, c.n_wires as nat),
            forall|v: Seq<int>| #[trigger]
                c.holds(v) && c.fits(v) ==> all_good(vars@, v) && words_of(vars@, v) == rounds(
                    message_at(input@, v),
                    t as nat,
                ),
            forall|v: Seq<int>| #[trigger]
                c.followed(v) && before.holds(v) && c.fits(v) ==> c.holds(v),
    {
        let ghost middle = *c;
        let ghost was = vars@;
        proof {
            lemma_words_fit(w@, before.n_wires as nat, middle.n_wires as nat);
            assert(word_in(w@[t as int], middle.n_wires as nat));
        }
        let k = constants[t];
        let (new_a, new_e) = round(c, &vars, &w[t], k);
        let ghost (a, e) = (new_a, new_e);
        vars.pop();
        vars.insert(0, new_a);
        vars.set(4, new_e);
        proof {
            assert(vars@ =~= seq![a, was[0], was[1], was[2], e, was[4], was[5], was[6]]);
            lemma_gates_trans(before, middle, *c);
            lemma_words_fit(was, middle.n_wires as nat, c.n_wires as nat);
            assert forall|j: int| 0 <= j < vars@.len() implies word_in(
                #[trigger] vars@[j],
                c.n_wires as nat,
            ) by {
                if j > 0 && j != 4 {
                    assert(word_in(was[j - 1], c.n_wires as nat));
                }
            }
            assert forall|v: Seq<int>| #[trigger] c.holds(v) && c.fits(v) implies all_good(vars@, v)
                && words_of(vars@, v) == rounds(message_at(input@, v), (t + 1) as nat) by {
                assert(middle.holds(v) && middle.fits(v));
                assert(before.holds(v) && before.fits(v));
                assert(good(w@[t as int], v));
                lemma_shifted_vars(was, vars@, a, e, v, k, word_at(w@[t as int], v));
            }
            assert forall|v: Seq<int>| #[trigger]
                c.followed(v) && before.holds(v) && c.fits(v) implies c.holds(v) by {
                assert(middle.followed(v) && middle.fits(v));
                assert(middle.holds(v));
                assert(before.fits(v));
                assert(good(w@[t as int], v));
            }
        }
    }
    vars
}

/// SHA-256 of the 32-byte message whose eight big-endian words the input wires
/// hold. The gates constrain every input wire to 32 bits and the returned wires
/// to the words of the digest, and honest values for 32-bit inputs satisfy
/// them.
pub fn sha256_32bytes(c: &mut GateCircuit, input_words: &[usize; 8]) -> (out: [usize; 8])
    requires
        old(c).wf(),
        old(c).n_wires + 44880 <= usize::MAX,
        row_in(input_words@, old(c).n_wires as nat),
    ensures
        final(c).wf(),
        final(c).grew_from(*old(c)),
        final(c).n_wires <= old(c).n_wires + 44880,
        row_in(out@, final(c).n_wires as nat),
        forall|v: Seq<int>| #[trigger]
            final(c).holds(v) && final(c).fits(v) ==> words_in(input_words@, v) && forall|j: int|
                0 <= j < 8 ==> v[#[trigger] out@[j] as int] == sha256_words(
                    message_at(input_words@, v),
                )[j],
        forall|v: Seq<int>| #[trigger]
            final(c).followed(v) && old(c).holds(v) && final(c).fits(v) && words_in(input_words@, v)
                ==> final(c).holds(v),
{
    let ghost c0 = *c;
    let w = message_schedule(c, input_words);
    let ghost c1 = *c;
    let vars = all_rounds(c, &w, input_words);
    let ghost c2 = *c;
    let iv = IV;
    let mut out: [usize; 8] = [0usize; 8];
    for j in 0..8usize
        invariant
            c.wf(),
            c.grew_from(c2),
            iv@ == IV@,
            c2.n_wires + 288 <= usize::MAX,
            c.n_wires == c2.n_wires + 36 * j,
            vars@.len() == 8,
            words_fit(vars@, c2.n_wires as nat),
            forall|v: Seq<int>| #[trigger]
                c2.holds(v) && c2.fits(v) ==> all_good(vars@, v) && words_of(vars@, v) == rounds(
                    message_at(input_words@, v),
                    64,
                ),
            forall|i: int| 0 <= i < j ==> #[trigger] out@[i] < c.n_wires,
            forall|v: Seq<int>, i: int|
                0 <= i < j && #[trigger] c.holds(v) && c.fits(v) ==> v[#[trigger] out@[i] as int]
                    == sha256_words(message_at(input_words@, v))[i],
            forall|v: Seq<int>| #[trigger] c.followed(v) && c2.holds(v) && c.fits(v) ==> c.holds(v),
    {
        let ghost middle = *c;
        let ghost was = out@;
        let ivw = c.push(Gate::Constant { value: iv[j] as u64 });
        let ghost constant = *c;
        assert(word_in(vars@[j as int], c2.n_wires as nat));
        let vw = vars[j].word;
        let terms: Vec<usize> = vec![ivw, vw];
        assert(terms@ =~= seq![ivw, vw]);
        let word = add_mod32(c, terms, 33);
        out[j] = word.word;
        proof {
            lemma_gates_trans(middle, constant, *c);
            lemma_gates_trans(c2, middle, *c);
            lemma2_to64_rest();
            assert forall|v: Seq<int>| #[trigger]
                constant.holds(v) && constant.fits(v) implies wire_sum(v, terms@) == IV@[j as int]
                + rounds(message_at(input_words@, v), 64)[j as int] by {
                assert(middle.holds(v) && middle.fits(v));
                assert(c2.holds(v) && c2.fits(v));
                lemma_wire_sum2(v, ivw, vw);
                assert(good(vars@[j as int], v));
                assert(words_of(vars@, v)[j as int] == word_at(vars@[j as int], v));
            }
            assert forall|v: Seq<int>, i: int|
                0 <= i < j + 1 && #[trigger] c.holds(v) && c.fits(v) implies v[#[trigger] out@[i] as int]
                == sha256_words(message_at(input_words@, v))[i] by {
                assert(constant.holds(v) && constant.fits(v));
                assert(middle.holds(v) && middle.fits(v));
                if i < j {
                    assert(out@[i] == was[i]);
                    assert(v[was[i] as int] == sha256_words(message_at(input_words@, v))[i]);
                } else {
                    lemma_small_mod(wire_sum(v, terms@) as nat, ORDER as nat);
                }
            }
            assert forall|v: Seq<int>| #[trigger]
                c.followed(v) && c2.holds(v) && c.fits(v) implies c.holds(v) by {
                assert(constant.followed(v) && constant.fits(v));
                assert(middle.followed(v) && middle.fits(v));
                assert(middle.holds(v));
                assert(constant.holds(v));
            }
        }
    }
    proof {
        lemma_gates_trans(c0, c1, c2);
        lemma_gates_trans(c0, c2, *c);
        assert forall|v: Seq<int>| #[trigger] c.holds(v) && c.fits(v) implies words_in(
            input_words@,
            v,
        ) && forall|j: int|
            0 <= j < 8 ==> v[#[trigger] out@[j] as int] == sha256_words(
                message_at(input_words@, v),
            )[j] by {
            assert(c2.holds(v) && c2.fits(v));
            assert(c1.holds(v) && c1.fits(v));
        }
        assert forall|v: Seq<int>| #[trigger]
            c.followed(v) && c0.holds(v) && c.fits(v) && words_in(input_words@, v) implies c.holds(
            v,
        ) by {
            assert(c2.followed(v) && c2.fits(v));
            assert(c1.followed(v) && c1.fits(v));
            assert(c1.holds(v));
            assert(c2.holds(v));
        }
    }
    out
}

} // verus!
