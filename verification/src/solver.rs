//! The values that an honest prover fills into a circuit.

use crate::bits::{bits_val, digit, lemma_bits_val_bound, lemma_bits_val_push,
    lemma_bytes_of_bits_of_bytes, pack_bits, unpack_bytes};
use crate::hash::sha256_native;
use crate::r1cs::{bit_count, bit_hint_val, digest_bits, lit_bool, lit_in, lits_bits, lits_in,
    num_count, op_followed, op_in, Assignment, BitHint, Circuit, Lit, NumHint, Op};
use vstd::arithmetic::div_mod::lemma_small_mod;
use vstd::arithmetic::power2::{lemma2_to64, lemma2_to64_rest, lemma_pow2_adds,
    lemma_pow2_strictly_increases, lemma_pow2_unfold, pow2};
use vstd::bits::lemma_u128_shr_is_div;
use vstd::prelude::*;

verus! {

/// Values for the slots of a circuit.
pub struct Solution {
    pub bits: Vec<bool>,
    pub nums: Vec<u128>,
}

impl Solution {
    /// The assignment over the field of `modulus` elements.
    pub open spec fn assignment(self, modulus: int, advice: Seq<bool>) -> Assignment {
        Assignment {
            modulus,
            bits: self.bits@.map_values(
                |b: bool|
                    if b {
                        1int
                    } else {
                        0int
                    },
            ),
            nums: self.nums@.map_values(|v: u128| v as int),
            advice,
        }
    }
}

/// Whether some instruction takes the successor of the largest 128-bit number.
pub open spec fn overflows(c: Circuit, inputs: Seq<u128>) -> bool {
    exists|k: int| 0 <= k < c.ops@.len() && op_overflows(#[trigger] c.ops@[k], inputs)
}

pub open spec fn op_overflows(op: Op, inputs: Seq<u128>) -> bool {
    op matches Op::AllocNum { value: NumHint::Successor, .. } && inputs[0] == u128::MAX
}

/// A circuit can be filled in unless its first input is the largest 128-bit
/// number.
pub proof fn lemma_no_overflow(c: Circuit, inputs: Seq<u128>)
    requires
        c.wf(),
        inputs.len() == c.n_inputs,
        inputs.len() > 0 ==> inputs[0] < u128::MAX,
    ensures
        !overflows(c, inputs),
{
    reveal(Circuit::wf);
}

/// `b` continues `a`.
spec fn continues(a: Solution, b: Solution) -> bool {
    &&& a.bits@.len() <= b.bits@.len()
    &&& a.nums@.len() <= b.nums@.len()
    &&& forall|i: int| 0 <= i < a.bits@.len() ==> a.bits@[i] == #[trigger] b.bits@[i]
    &&& forall|i: int| 0 <= i < a.nums@.len() ==> a.nums@[i] == #[trigger] b.nums@[i]
}

/// Further slots leave what earlier instructions filled in as it was.
proof fn lemma_followed_stable(
    op: Op,
    a: Solution,
    b: Solution,
    modulus: int,
    advice: Seq<bool>,
    n_inputs: nat,
    n_bits: nat,
    n_nums: nat,
)
    requires
        continues(a, b),
        op_in(op, n_inputs, advice.len(), n_bits, n_nums),
        n_inputs <= n_nums <= a.nums@.len(),
        op is AllocNum ==> n_nums < a.nums@.len(),
        n_bits <= a.bits@.len(),
        op is AllocBit ==> n_bits < a.bits@.len(),
        op is Sha256 ==> n_bits + 256 <= a.bits@.len(),
        op_followed(op, a.assignment(modulus, advice)),
    ensures
        op_followed(op, b.assignment(modulus, advice)),
{
    let wa = a.assignment(modulus, advice);
    let wb = b.assignment(modulus, advice);
    match op {
        Op::AllocBit { slot, hint } => {},
        Op::AllocNum { slot, value } => {
            match value {
                NumHint::Pack(bits) => {
                    assert forall|i: int| 0 <= i < bits@.len() implies lit_bool(bits@[i], wa)
                        == lit_bool(bits@[i], wb) by {
                        assert(lit_in(bits@[i], n_bits));
                    }
                    assert(lits_bits(bits@, wa) =~= lits_bits(bits@, wb));
                },
                NumHint::Successor => {},
            }
        },
        Op::Enforce { .. } => {},
        Op::Sha256 { message, first } => {
            assert forall|i: int| 0 <= i < message@.len() implies lit_bool(message@[i], wa)
                == lit_bool(message@[i], wb) by {
                assert(lit_in(message@[i], n_bits));
            }
            assert(lits_bits(message@, wa) =~= lits_bits(message@, wb));
            assert forall|i: int| 0 <= i < 256 implies wa.bits[first + i] == #[trigger] wb.bits[first
                + i] by {}
            assert(digest_bits(first as int, wa) =~= digest_bits(first as int, wb));
        },
    }
}

/// The slots of an instruction are counted before those of a later one.
proof fn lemma_counts_grow(ops: Seq<Op>, i: int, k: int)
    requires
        0 <= i < k <= ops.len(),
    ensures
        bit_count(ops.take(i + 1)) <= bit_count(ops.take(k)),
        num_count(ops.take(i + 1)) <= num_count(ops.take(k)),
        bit_count(ops.take(i + 1)) == bit_count(ops.take(i)) + (match ops[i] {
            Op::AllocBit { .. } => 1nat,
            Op::Sha256 { .. } => 256nat,
            _ => 0nat,
        }),
        num_count(ops.take(i + 1)) == num_count(ops.take(i)) + (if ops[i] is AllocNum {
            1nat
        } else {
            0nat
        }),
    decreases k,
{
    assert(ops.take(i + 1).drop_last() =~= ops.take(i));
    assert(ops.take(k).drop_last() =~= ops.take(k - 1));
    if i + 1 < k {
        lemma_counts_grow(ops, i, k - 1);
    }
}

/// What was filled in for the first `k` instructions stands when further slots
/// are filled in.
proof fn lemma_prefix_followed(
    c: Circuit,
    before: Solution,
    after: Solution,
    advice: Seq<bool>,
    k: int,
)
    requires
        c.wf(),
        advice.len() == c.n_advice,
        0 <= k <= c.ops@.len(),
        continues(before, after),
        before.bits@.len() == bit_count(c.ops@.take(k)),
        before.nums@.len() == c.n_inputs + num_count(c.ops@.take(k)),
        forall|modulus: int, i: int|
            pow2(128) < modulus && 0 <= i < k ==> op_followed(
                #[trigger] c.ops@[i],
                #[trigger] before.assignment(modulus, advice),
            ),
    ensures
        forall|modulus: int, i: int|
            pow2(128) < modulus && 0 <= i < k ==> op_followed(
                #[trigger] c.ops@[i],
                #[trigger] after.assignment(modulus, advice),
            ),
{
    assert forall|modulus: int, i: int| pow2(128) < modulus && 0 <= i < k implies op_followed(
        #[trigger] c.ops@[i],
        #[trigger] after.assignment(modulus, advice),
    ) by {
        assert(op_followed(c.ops@[i], before.assignment(modulus, advice)));
        lemma_counts_grow(c.ops@, i, k);
        let n_bits = bit_count(c.ops@.take(i));
        let n_nums = (c.n_inputs + num_count(c.ops@.take(i))) as nat;
        assert(op_in(c.ops@[i], c.n_inputs as nat, advice.len(), n_bits, n_nums)) by {
            reveal(Circuit::wf);
        }
        lemma_followed_stable(
            c.ops@[i],
            before,
            after,
            modulus,
            advice,
            c.n_inputs as nat,
            n_bits,
            n_nums,
        );
    }
}

proof fn lemma_pow2_128()
    ensures
        pow2(128) == u128::MAX + 1,
{
    lemma2_to64();
    lemma2_to64_rest();
    lemma_pow2_adds(64, 64);
    assert(0x1_0000_0000_0000_0000int * 0x1_0000_0000_0000_0000int == u128::MAX + 1)
        by (nonlinear_arith);
}

impl Solution {
    fn lit_value(&self, l: Lit) -> (b: bool)
        requires
            lit_in(l, self.bits@.len()),
        ensures
            forall|m: int, adv: Seq<bool>| b == #[trigger] lit_bool(l, self.assignment(m, adv)),
    {
        match l {
            Lit::Constant(c) => c,
            Lit::Bit(i) => self.bits[i],
        }
    }

    fn lit_values(&self, ls: &[Lit]) -> (row: Vec<bool>)
        requires
            lits_in(ls@, self.bits@.len()),
        ensures
            forall|m: int, adv: Seq<bool>|
                row@ == #[trigger] lits_bits(ls@, self.assignment(m, adv)),
    {
        let mut row: Vec<bool> = Vec::with_capacity(ls.len());
        for i in 0..ls.len()
            invariant
                lits_in(ls@, self.bits@.len()),
                row@.len() == i,
                forall|m: int, adv: Seq<bool>, k: int|
                    0 <= k < i ==> #[trigger] row@[k] == #[trigger] lit_bool(
                        ls@[k],
                        self.assignment(m, adv),
                    ),
        {
            assert(lit_in(ls@[i as int], self.bits@.len()));
            row.push(self.lit_value(ls[i]));
        }
        assert forall|m: int, adv: Seq<bool>|
            row@ == #[trigger] lits_bits(ls@, self.assignment(m, adv)) by {
            assert(row@ =~= lits_bits(ls@, self.assignment(m, adv)));
        }
        row
    }
}

/// The number that a row of at most 128 bits writes.
fn row_value(row: &[bool]) -> (v: u128)
    requires
        row@.len() <= 128,
    ensures
        v == bits_val(row@),
{
    let mut v: u128 = 0;
    assert(row@.take(0) =~= Seq::empty());
    for i in 0..row.len()
        invariant
            row@.len() <= 128,
            v == bits_val(row@.take(i as int)),
    {
        proof {
            lemma_bits_val_bound(row@.take(i as int));
            lemma_pow2_128();
            lemma_pow2_unfold(128);
            if i < 127 {
                lemma_pow2_strictly_increases(i as nat, 127);
            }
            lemma_bits_val_push(row@.take(i as int), row@[i as int]);
            assert(row@.take(i + 1) =~= row@.take(i as int).push(row@[i as int]));
        }
        v = 2 * v + (if row[i] {
            1u128
        } else {
            0u128
        });
    }
    assert(row@.take(row@.len() as int) =~= row@);
    v
}

/// The digit of weight `2^shift`.
fn num_digit(v: u128, shift: u32) -> (b: bool)
    requires
        shift < 128,
    ensures
        b == digit(v as nat, shift as nat),
{
    let s = v >> shift as u128;
    proof {
        lemma_u128_shr_is_div(v, shift as u128);
        assert((s & 1u128 == 1u128) == (s % 2 == 1)) by (bit_vector);
    }
    s & 1u128 == 1u128
}

/// Fills in one instruction; `false` if it takes a successor that 128 bits
/// cannot hold.
fn solve_op(s: &mut Solution, op: &Op, inputs: &[u128], advice: &[bool]) -> (done: bool)
    requires
        op_in(
            *op,
            inputs@.len(),
            advice@.len(),
            old(s).bits@.len(),
            old(s).nums@.len(),
        ),
        inputs@.len() <= old(s).nums@.len(),
        old(s).nums@.take(inputs@.len() as int) == inputs@,
    ensures
        done == !op_overflows(*op, inputs@),
        done ==> {
            &&& continues(*old(s), *final(s))
            &&& final(s).bits@.len() == old(s).bits@.len() + (match *op {
                Op::AllocBit { .. } => 1int,
                Op::Sha256 { .. } => 256,
                _ => 0,
            })
            &&& final(s).nums@.len() == old(s).nums@.len() + (if *op is AllocNum {
                1int
            } else {
                0
            })
            &&& forall|modulus: int|
                pow2(128) < modulus ==> op_followed(
                    *op,
                    #[trigger] final(s).assignment(modulus, advice@),
                )
        },
{
    let ghost before = *s;
    assert forall|i: int| 0 <= i < inputs@.len() implies #[trigger] inputs@[i] == before.nums@[i] by {
        assert(before.nums@.take(inputs@.len() as int)[i] == before.nums@[i]);
    }
    match op {
        Op::AllocBit { slot, hint } => {
            let b = match hint {
                BitHint::Input { num, shift } => num_digit(inputs[*num], *shift),
                BitHint::Advice { index } => advice[*index],
                BitHint::Select { by, yes, no } => {
                    if s.lit_value(*by) {
                        s.lit_value(*yes)
                    } else {
                        s.lit_value(*no)
                    }
                },
            };
            s.bits.push(b);
            assert forall|modulus: int| pow2(128) < modulus implies op_followed(
                *op,
                #[trigger] s.assignment(modulus, advice@),
            ) by {
                let was = before.assignment(modulus, advice@);
                let w = s.assignment(modulus, advice@);
                assert(b == bit_hint_val(*hint, was));
                assert(bit_hint_val(*hint, was) == bit_hint_val(*hint, w));
            }
        },
        Op::AllocNum { slot, value } => {
            match value {
                NumHint::Pack(bits) => {
                    let row = s.lit_values(bits.as_slice());
                    assert(row@ == lits_bits(bits@, before.assignment(0, advice@)));
                    let v = row_value(row.as_slice());
                    s.nums.push(v);
                    assert forall|modulus: int| pow2(128) < modulus implies op_followed(
                        *op,
                        #[trigger] s.assignment(modulus, advice@),
                    ) by {
                        assert(row@ == lits_bits(bits@, before.assignment(modulus, advice@)));
                        assert(row@ =~= lits_bits(bits@, s.assignment(modulus, advice@)));
                    }
                },
                NumHint::Successor => {
                    if inputs[0] == u128::MAX {
                        return false;
                    }
                    s.nums.push(inputs[0] + 1);
                    assert forall|modulus: int| pow2(128) < modulus implies op_followed(
                        *op,
                        #[trigger] s.assignment(modulus, advice@),
                    ) by {
                        lemma_pow2_128();
                        lemma_small_mod((inputs@[0] + 1) as nat, modulus as nat);
                    }
                },
            }
        },
        Op::Enforce { .. } => {},
        Op::Sha256 { message, first } => {
            let row = s.lit_values(message.as_slice());
            let bytes = pack_bits(row.as_slice());
            let digest = sha256_native(bytes.as_slice());
            let mut digest_row = unpack_bytes(digest.as_slice());
            let ghost added = digest_row@;
            s.bits.append(&mut digest_row);
            assert(s.bits@ == before.bits@ + added);
            assert forall|modulus: int| pow2(128) < modulus implies op_followed(
                *op,
                #[trigger] s.assignment(modulus, advice@),
            ) by {
                let was = before.assignment(modulus, advice@);
                let w = s.assignment(modulus, advice@);
                assert forall|i: int| 0 <= i < message@.len() implies lit_bool(message@[i], was)
                    == lit_bool(message@[i], w) by {
                    assert(lit_in(message@[i], before.bits@.len()));
                }
                assert(row@ == lits_bits(message@, was));
                assert(row@ =~= lits_bits(message@, w));
                assert(digest_bits(*first as int, w) =~= added);
                lemma_bytes_of_bits_of_bytes(digest@);
            }
        },
    }
    true
}

/// Fills in a circuit for the given incoming state and advice; nothing if the
/// circuit asks for the successor of a number that has none in 128 bits.
pub fn solve(c: &Circuit, inputs: &[u128], advice: &[bool]) -> (solution: Option<Solution>)
    requires
        c.wf(),
        inputs@.len() == c.n_inputs,
        advice@.len() == c.n_advice,
    ensures
        solution is None <==> overflows(*c, inputs@),
        solution matches Some(s) ==> {
            &&& s.bits@.len() == c.n_bits
            &&& s.nums@.len() == c.n_nums
            &&& s.nums@.take(c.n_inputs as int) == inputs@
            &&& forall|modulus: int|
                pow2(128) < modulus ==> {
                    let w = #[trigger] s.assignment(modulus, advice@);
                    c.followed(w) && c.fits(w)
                }
        },
{
    proof {
        reveal(Circuit::wf);
        lemma_pow2_128();
    }
    let mut s = Solution { bits: Vec::with_capacity(c.n_bits), nums: Vec::with_capacity(c.n_nums) };
    s.nums.extend_from_slice(inputs);
    assert(s.nums@ =~= inputs@);
    assert(c.ops@.take(0) =~= Seq::empty());
    for k in 0..c.ops.len()
        invariant
            c.wf(),
            inputs@.len() == c.n_inputs,
            advice@.len() == c.n_advice,
            s.bits@.len() == bit_count(c.ops@.take(k as int)),
            s.nums@.len() == c.n_inputs + num_count(c.ops@.take(k as int)),
            s.nums@.take(c.n_inputs as int) == inputs@,
            forall|i: int| 0 <= i < k ==> !op_overflows(#[trigger] c.ops@[i], inputs@),
            forall|modulus: int, i: int|
                pow2(128) < modulus && 0 <= i < k ==> op_followed(
                    #[trigger] c.ops@[i],
                    #[trigger] s.assignment(modulus, advice@),
                ),
    {
        let ghost before = s;
        let ghost op = c.ops@[k as int];
        proof {
            assert(op_in(
                op,
                c.n_inputs as nat,
                c.n_advice as nat,
                s.bits@.len(),
                s.nums@.len(),
            )) by {
                reveal(Circuit::wf);
            }
            assert(c.ops@.take(k + 1).drop_last() =~= c.ops@.take(k as int));
            assert(c.ops@.take(k + 1).last() == op);
        }
        if !solve_op(&mut s, &c.ops[k], inputs, advice) {
            assert(op_overflows(c.ops@[k as int], inputs@));
            return None;
        }
        proof {
            lemma_prefix_followed(*c, before, s, advice@, k as int);
            assert(s.nums@.take(c.n_inputs as int) =~= inputs@) by {
                assert forall|i: int| 0 <= i < c.n_inputs implies s.nums@[i] == inputs@[i] by {
                    assert(before.nums@.take(c.n_inputs as int)[i] == before.nums@[i]);
                }
            }
        }
    }
    proof {
        assert(c.ops@.take(c.ops@.len() as int) =~= c.ops@);
        reveal(Circuit::followed);
    }
    Some(s)
}

} // verus!
