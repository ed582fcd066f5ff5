//! Step circuits as plain data: the allocations and rank-one constraints of a
//! circuit, in the order in which a proving backend is to replay them, each
//! allocation with the rule that gives its value to an honest prover.

use crate::bits::{bits_val, digit, lemma_bits_val_bound, lemma_bits_val_of_digits,
    lemma_bits_val_push, bytes_of_bits};
use crate::hash::sha256_of;
use vstd::arithmetic::div_mod::{lemma_fundamental_div_mod, lemma_mod_bound, lemma_small_mod,
    lemma_sub_mod_noop};
use vstd::arithmetic::power2::{lemma2_to64, lemma_pow2_pos, lemma_pow2_strictly_increases,
    lemma_pow2_unfold, pow2};
use vstd::prelude::*;

verus! {

/// A Boolean of a circuit.
#[derive(Clone, Copy, Debug)]
pub enum Lit {
    Constant(bool),
    /// The bit slot of the given number.
    Bit(usize),
}

/// A variable of a linear combination.
#[derive(Clone, Copy, Debug)]
pub enum Var {
    One,
    Bit(usize),
    Num(usize),
}

/// A variable with its coefficient.
#[derive(Clone, Copy, Debug)]
pub struct Term {
    pub coeff: u128,
    pub negative: bool,
    pub var: Var,
}

/// Where an honest prover takes the value of a bit from.
#[derive(Clone, Copy, Debug)]
pub enum BitHint {
    /// The digit of weight `2^shift` of an input element.
    Input { num: usize, shift: u32 },
    /// A bit of the advice that comes with the step.
    Advice { index: usize },
    /// One of two Booleans, picked by a third.
    Select { by: Lit, yes: Lit, no: Lit },
}

/// Where an honest prover takes the value of an element from.
#[derive(Debug)]
pub enum NumHint {
    /// The number that the given bits write, most significant first.
    Pack(Vec<Lit>),
    /// One more than the first input element, which is the counter of a circuit
    /// that counts.
    Successor,
}

/// One instruction of a circuit.
#[derive(Debug)]
pub enum Op {
    /// Allocates the next bit slot, constrained to be zero or one.
    AllocBit { slot: usize, hint: BitHint },
    /// Allocates the next element slot.
    AllocNum { slot: usize, value: NumHint },
    /// Constrains `a * b = c`.
    Enforce { a: Vec<Term>, b: Vec<Term>, c: Vec<Term> },
    /// Runs the SHA-256 gadget on a message of whole bytes. Its 256 digest
    /// bits take the next bit slots.
    Sha256 { message: Vec<Lit>, first: usize },
}

/// A step circuit over a prime field. Element slots `0..n_inputs` hold the
/// incoming state, `n_advice` advice bits come with the step, and `outputs` are
/// the linear combinations that make up the outgoing state.
pub struct Circuit {
    pub n_inputs: usize,
    pub n_advice: usize,
    pub n_bits: usize,
    pub n_nums: usize,
    pub ops: Vec<Op>,
    pub outputs: Vec<Vec<Term>>,
}

/// Values for the slots of a circuit over the field of `modulus` elements, and
/// the advice of the step.
pub struct Assignment {
    pub modulus: int,
    pub bits: Seq<int>,
    pub nums: Seq<int>,
    pub advice: Seq<bool>,
}

pub open spec fn lit_val(l: Lit, w: Assignment) -> int {
    match l {
        Lit::Constant(c) => if c {
            1
        } else {
            0
        },
        Lit::Bit(i) => w.bits[i as int],
    }
}

/// Whether a literal stands for a Boolean under `w`.
pub open spec fn lit_is_bool(l: Lit, w: Assignment) -> bool {
    lit_val(l, w) == 0 || lit_val(l, w) == 1
}

pub open spec fn lit_bool(l: Lit, w: Assignment) -> bool {
    lit_val(l, w) == 1
}

pub open spec fn lits_are_bool(ls: Seq<Lit>, w: Assignment) -> bool {
    forall|i: int| 0 <= i < ls.len() ==> lit_is_bool(#[trigger] ls[i], w)
}

/// The bit string that a row of literals stands for.
pub open spec fn lits_bits(ls: Seq<Lit>, w: Assignment) -> Seq<bool> {
    Seq::new(ls.len(), |i: int| lit_bool(ls[i], w))
}

pub open spec fn var_val(v: Var, w: Assignment) -> int {
    match v {
        Var::One => 1,
        Var::Bit(i) => w.bits[i as int],
        Var::Num(i) => w.nums[i as int],
    }
}

pub open spec fn term_val(t: Term, w: Assignment) -> int {
    if t.negative {
        -(t.coeff * var_val(t.var, w))
    } else {
        t.coeff * var_val(t.var, w)
    }
}

/// Value of a linear combination, before reduction.
pub open spec fn lc_val(terms: Seq<Term>, w: Assignment) -> int
    decreases terms.len(),
{
    if terms.len() == 0 {
        0
    } else {
        lc_val(terms.drop_last(), w) + term_val(terms.last(), w)
    }
}

pub open spec fn product_holds(a: Seq<Term>, b: Seq<Term>, c: Seq<Term>, w: Assignment) -> bool {
    (lc_val(a, w) * lc_val(b, w) - lc_val(c, w)) % w.modulus == 0
}

/// The digest slots of a SHA-256 gadget, as a bit string.
pub open spec fn digest_bits(first: int, w: Assignment) -> Seq<bool> {
    Seq::new(256, |i: int| w.bits[first + i] == 1)
}

/// The digest slots hold the digest of the message.
pub open spec fn gadget_holds(message: Seq<Lit>, first: int, w: Assignment) -> bool {
    &&& forall|i: int|
        0 <= i < 256 ==> #[trigger] w.bits[first + i] == 0 || w.bits[first + i] == 1
    &&& bytes_of_bits(digest_bits(first, w)) == sha256_of(bytes_of_bits(lits_bits(message, w)))
}

/// What an instruction constrains.
pub open spec fn op_holds(op: Op, w: Assignment) -> bool {
    match op {
        Op::AllocBit { slot, .. } => w.bits[slot as int] == 0 || w.bits[slot as int] == 1,
        Op::AllocNum { .. } => true,
        Op::Enforce { a, b, c } => product_holds(a@, b@, c@, w),
        Op::Sha256 { message, first } => gadget_holds(message@, first as int, w),
    }
}

pub open spec fn bit_hint_val(hint: BitHint, w: Assignment) -> bool {
    match hint {
        BitHint::Input { num, shift } => digit(w.nums[num as int] as nat, shift as nat),
        BitHint::Advice { index } => w.advice[index as int],
        BitHint::Select { by, yes, no } => if lit_bool(by, w) {
            lit_bool(yes, w)
        } else {
            lit_bool(no, w)
        },
    }
}

pub open spec fn num_hint_val(hint: NumHint, w: Assignment) -> int {
    match hint {
        NumHint::Pack(bits) => bits_val(lits_bits(bits@, w)) as int,
        NumHint::Successor => (w.nums[0] + 1) % w.modulus,
    }
}

/// What an honest prover fills in for an instruction.
pub open spec fn op_followed(op: Op, w: Assignment) -> bool {
    match op {
        Op::AllocBit { slot, hint } => w.bits[slot as int] == (if bit_hint_val(hint, w) {
            1int
        } else {
            0int
        }),
        Op::AllocNum { slot, value } => w.nums[slot as int] == num_hint_val(value, w),
        Op::Enforce { .. } => true,
        Op::Sha256 { message, first } => gadget_holds(message@, first as int, w),
    }
}

/// Bit slots taken by a program.
pub open spec fn bit_count(ops: Seq<Op>) -> nat
    decreases ops.len(),
{
    if ops.len() == 0 {
        0
    } else {
        bit_count(ops.drop_last()) + match ops.last() {
            Op::AllocBit { .. } => 1nat,
            Op::Sha256 { .. } => 256nat,
            _ => 0nat,
        }
    }
}

/// Element slots taken by a program, the inputs aside.
pub open spec fn num_count(ops: Seq<Op>) -> nat
    decreases ops.len(),
{
    if ops.len() == 0 {
        0
    } else {
        num_count(ops.drop_last()) + match ops.last() {
            Op::AllocNum { .. } => 1nat,
            _ => 0nat,
        }
    }
}

pub open spec fn lit_in(l: Lit, n_bits: nat) -> bool {
    match l {
        Lit::Constant(_) => true,
        Lit::Bit(i) => i < n_bits,
    }
}

pub open spec fn lits_in(ls: Seq<Lit>, n_bits: nat) -> bool {
    forall|i: int| 0 <= i < ls.len() ==> lit_in(#[trigger] ls[i], n_bits)
}

pub open spec fn bit_hint_in(hint: BitHint, n_inputs: nat, n_advice: nat, n_bits: nat) -> bool {
    match hint {
        BitHint::Input { num, shift } => num < n_inputs && shift < 128,
        BitHint::Advice { index } => index < n_advice,
        BitHint::Select { by, yes, no } => lit_in(by, n_bits) && lit_in(yes, n_bits) && lit_in(
            no,
            n_bits,
        ),
    }
}

pub open spec fn num_hint_in(hint: NumHint, n_inputs: nat, n_bits: nat) -> bool {
    match hint {
        NumHint::Pack(bits) => bits@.len() <= 128 && lits_in(bits@, n_bits),
        NumHint::Successor => 0 < n_inputs,
    }
}

pub open spec fn term_in(t: Term, n_bits: nat, n_nums: nat) -> bool {
    match t.var {
        Var::One => true,
        Var::Bit(i) => i < n_bits,
        Var::Num(i) => i < n_nums,
    }
}

pub open spec fn terms_in(terms: Seq<Term>, n_bits: nat, n_nums: nat) -> bool {
    forall|i: int| 0 <= i < terms.len() ==> term_in(#[trigger] terms[i], n_bits, n_nums)
}

/// An instruction names its own slots by their number and refers only to
/// slots that were taken before it.
pub open spec fn op_in(op: Op, n_inputs: nat, n_advice: nat, n_bits: nat, n_nums: nat) -> bool {
    match op {
        Op::AllocBit { slot, hint } => slot == n_bits && bit_hint_in(
            hint,
            n_inputs,
            n_advice,
            n_bits,
        ),
        Op::AllocNum { slot, value } => slot == n_nums && num_hint_in(value, n_inputs, n_bits),
        Op::Enforce { a, b, c } => terms_in(a@, n_bits, n_nums) && terms_in(b@, n_bits, n_nums)
            && terms_in(c@, n_bits, n_nums),
        Op::Sha256 { message, first } => first == n_bits && lits_in(message@, n_bits)
            && message@.len() % 8 == 0,
    }
}

impl Circuit {
    /// Slots are numbered in order and used only once taken.
    #[verifier::opaque]
    pub open spec fn wf(self) -> bool {
        &&& self.n_bits == bit_count(self.ops@)
        &&& self.n_nums == self.n_inputs + num_count(self.ops@)
        &&& forall|k: int|
            0 <= k < self.ops@.len() ==> op_in(
                #[trigger] self.ops@[k],
                self.n_inputs as nat,
                self.n_advice as nat,
                bit_count(self.ops@.take(k)),
                (self.n_inputs + num_count(self.ops@.take(k))) as nat,
            )
        &&& forall|i: int|
            0 <= i < self.outputs@.len() ==> terms_in(
                (#[trigger] self.outputs@[i])@,
                self.n_bits as nat,
                self.n_nums as nat,
            )
    }

    /// `w` satisfies every constraint.
    #[verifier::opaque]
    pub open spec fn holds(self, w: Assignment) -> bool {
        forall|k: int| 0 <= k < self.ops@.len() ==> op_holds(#[trigger] self.ops@[k], w)
    }

    /// `w` is filled in as the hints say.
    #[verifier::opaque]
    pub open spec fn followed(self, w: Assignment) -> bool {
        forall|k: int| 0 <= k < self.ops@.len() ==> op_followed(#[trigger] self.ops@[k], w)
    }

    /// `w` has a reduced value for every element slot, in a field large enough
    /// for 128-bit numbers.
    pub open spec fn fits(self, w: Assignment) -> bool {
        &&& pow2(128) < w.modulus
        &&& self.n_nums <= w.nums.len()
        &&& forall|i: int| 0 <= i < w.nums.len() ==> 0 <= #[trigger] w.nums[i] < w.modulus
    }

    /// Outgoing state under `w`.
    pub open spec fn state_out(self, w: Assignment) -> Seq<int> {
        Seq::new(self.outputs@.len(), |i: int| lc_val(self.outputs@[i]@, w) % w.modulus)
    }

    /// `self` starts with the instructions of `before`, on the same inputs.
    pub open spec fn grew_from(self, before: Circuit) -> bool {
        &&& self.n_inputs == before.n_inputs
        &&& self.n_advice == before.n_advice
        &&& self.outputs == before.outputs
        &&& before.ops@.len() <= self.ops@.len()
        &&& forall|k: int|
            #![trigger self.ops@[k]]
            #![trigger before.ops@[k]]
            0 <= k < before.ops@.len() ==> self.ops@[k] == before.ops@[k]
        &&& before.n_bits <= self.n_bits
        &&& before.n_nums <= self.n_nums
        &&& forall|w: Assignment| #[trigger] self.holds(w) ==> before.holds(w)
        &&& forall|w: Assignment| #[trigger] self.followed(w) ==> before.followed(w)
        &&& forall|w: Assignment| #[trigger] self.fits(w) ==> before.fits(w)
    }

    /// The circuit without constraints on the given number of inputs.
    pub fn new(n_inputs: usize, n_advice: usize) -> (circuit: Circuit)
        ensures
            circuit.wf(),
            circuit.n_inputs == n_inputs,
            circuit.n_advice == n_advice,
            circuit.n_nums == n_inputs,
            circuit.n_bits == 0,
            circuit.ops@.len() == 0,
            circuit.outputs@.len() == 0,
            forall|w: Assignment| #[trigger] circuit.holds(w),
    {
        proof {
            reveal(Circuit::wf);
            reveal(Circuit::holds);
        }
        Circuit {
            n_inputs,
            n_advice,
            n_bits: 0,
            n_nums: n_inputs,
            ops: Vec::new(),
            outputs: Vec::new(),
        }
    }

    /// Appends one instruction.
    fn push(&mut self, op: Op)
        requires
            old(self).wf(),
            op_in(
                op,
                old(self).n_inputs as nat,
                old(self).n_advice as nat,
                old(self).n_bits as nat,
                old(self).n_nums as nat,
            ),
            op is Sha256 ==> old(self).n_bits + 256 <= usize::MAX,
            op is AllocBit ==> old(self).n_bits < usize::MAX,
            op is AllocNum ==> old(self).n_nums < usize::MAX,
        ensures
            final(self).wf(),
            final(self).grew_from(*old(self)),
            final(self).ops@ == old(self).ops@.push(op),
            final(self).n_bits == old(self).n_bits + (if op is Sha256 {
                256int
            } else if op is AllocBit {
                1
            } else {
                0
            }),
            final(self).n_nums == old(self).n_nums + (if op is AllocNum {
                1int
            } else {
                0
            }),
            forall|w: Assignment|
                #[trigger] final(self).holds(w) == (old(self).holds(w) && op_holds(op, w)),
            forall|w: Assignment|
                #[trigger] final(self).followed(w) == (old(self).followed(w) && op_followed(
                    op,
                    w,
                )),
    {
        let ghost before = *self;
        match &op {
            Op::AllocBit { .. } => {
                self.n_bits = self.n_bits + 1;
            },
            Op::AllocNum { .. } => {
                self.n_nums = self.n_nums + 1;
            },
            Op::Enforce { .. } => {},
            Op::Sha256 { .. } => {
                self.n_bits = self.n_bits + 256;
            },
        }
        self.ops.push(op);
        proof {
            reveal(Circuit::wf);
            reveal(Circuit::holds);
            reveal(Circuit::followed);
            let n = before.ops@.len() as int;
            assert(self.ops@.drop_last() =~= before.ops@);
            assert(self.ops@.take(n) =~= before.ops@);
            assert forall|k: int| 0 <= k < self.ops@.len() implies op_in(
                #[trigger] self.ops@[k],
                self.n_inputs as nat,
                self.n_advice as nat,
                bit_count(self.ops@.take(k)),
                (self.n_inputs + num_count(self.ops@.take(k))) as nat,
            ) by {
                if k < n {
                    assert(self.ops@.take(k) =~= before.ops@.take(k));
                    assert(self.ops@[k] == before.ops@[k]);
                }
            }
            assert forall|i: int| 0 <= i < self.outputs@.len() implies terms_in(
                (#[trigger] self.outputs@[i])@,
                self.n_bits as nat,
                self.n_nums as nat,
            ) by {
                assert(terms_in(
                    before.outputs@[i]@,
                    before.n_bits as nat,
                    before.n_nums as nat,
                ));
            }
            assert forall|w: Assignment| #[trigger] self.holds(w) == (before.holds(w) && op_holds(
                op,
                w,
            )) by {
                assert(forall|k: int| 0 <= k < n ==> self.ops@[k] == #[trigger] before.ops@[k]);
                if self.holds(w) {
                    assert(op_holds(self.ops@[n], w));
                }
            }
            assert forall|w: Assignment| #[trigger]
                self.followed(w) == (before.followed(w) && op_followed(op, w)) by {
                assert(forall|k: int| 0 <= k < n ==> self.ops@[k] == #[trigger] before.ops@[k]);
                if self.followed(w) {
                    assert(op_followed(self.ops@[n], w));
                }
            }
        }
    }
}

/// The bits below a given slot number are Boolean wherever the constraints
/// hold.
proof fn lemma_prefix_bits(c: Circuit, w: Assignment, n: int)
    requires
        c.wf(),
        c.holds(w),
        0 <= n <= c.ops@.len(),
    ensures
        forall|i: int|
            0 <= i < bit_count(c.ops@.take(n)) ==> #[trigger] w.bits[i] == 0 || w.bits[i] == 1,
    decreases n,
{
    if n > 0 {
        lemma_prefix_bits(c, w, n - 1);
        assert(c.ops@.take(n).drop_last() =~= c.ops@.take(n - 1));
        let before = bit_count(c.ops@.take(n - 1));
        let n_nums = (c.n_inputs + num_count(c.ops@.take(n - 1))) as nat;
        assert(op_in(c.ops@[n - 1], c.n_inputs as nat, c.n_advice as nat, before, n_nums)) by {
            reveal(Circuit::wf);
        }
        assert(op_holds(c.ops@[n - 1], w)) by {
            reveal(Circuit::holds);
        }
        assert forall|i: int| 0 <= i < bit_count(c.ops@.take(n)) implies #[trigger] w.bits[i] == 0
            || w.bits[i] == 1 by {
            if i >= before {
                match c.ops@[n - 1] {
                    Op::Sha256 { message, first } => {
                        assert(w.bits[first + (i - first)] == 0 || w.bits[first + (i - first)]
                            == 1);
                    },
                    _ => {},
                }
            }
        }
    }
}

/// Wherever the constraints hold, every literal over taken slots is Boolean.
pub proof fn lemma_lits_are_bool(c: Circuit, w: Assignment, ls: Seq<Lit>)
    requires
        c.wf(),
        c.holds(w),
        lits_in(ls, c.n_bits as nat),
    ensures
        lits_are_bool(ls, w),
{
    reveal(Circuit::wf);
    lemma_prefix_bits(c, w, c.ops@.len() as int);
    assert(c.ops@.take(c.ops@.len() as int) =~= c.ops@);
}

proof fn lemma_lc_push(terms: Seq<Term>, t: Term, w: Assignment)
    ensures
        lc_val(terms.push(t), w) == lc_val(terms, w) + term_val(t, w),
{
    assert(terms.push(t).drop_last() =~= terms);
}

/// A linear combination of one variable.
proof fn lemma_lc_single(terms: Seq<Term>, w: Assignment)
    requires
        terms.len() == 1,
        terms[0].coeff == 1,
        !terms[0].negative,
    ensures
        lc_val(terms, w) == var_val(terms[0].var, w),
{
    assert(terms =~= Seq::empty().push(terms[0]));
    lemma_lc_push(Seq::empty(), terms[0], w);
    let v = var_val(terms[0].var, w);
    assert(1 * v == v);
}

/// `1 << k` is the `k`-th power of two.
proof fn lemma_one_shl(k: u32)
    requires
        k < 128,
    ensures
        1u128 << k == pow2(k as nat),
    decreases k,
{
    lemma2_to64();
    if k == 0 {
        assert(1u128 << 0u32 == 1u128) by (bit_vector);
    } else {
        let j = (k - 1) as u32;
        lemma_one_shl(j);
        lemma_pow2_unfold(k as nat);
        assert(1u128 << k == 2 * (1u128 << j)) by (bit_vector)
            requires
                0 < k < 128,
                j == k - 1,
        ;
    }
}

/// The linear combination that recomposes a row of bits, most significant
/// first.
pub fn packing_terms(bits: &[Lit]) -> (terms: Vec<Term>)
    requires
        bits@.len() <= 128,
    ensures
        forall|w: Assignment|
            lits_are_bool(bits@, w) ==> #[trigger] lc_val(terms@, w) == bits_val(
                lits_bits(bits@, w),
            ),
        forall|n_bits: nat, n_nums: nat|
            lits_in(bits@, n_bits) ==> #[trigger] terms_in(terms@, n_bits, n_nums),
{
    let n = bits.len();
    let mut terms: Vec<Term> = Vec::with_capacity(n);
    proof {
        lemma2_to64();
        assert forall|w: Assignment| #[trigger] lc_val(terms@, w) == bits_val(
            lits_bits(bits@.take(0), w),
        ) * pow2(n as nat) by {
            assert(bits_val(lits_bits(bits@.take(0), w)) == 0);
            assert(0 * pow2(n as nat) == 0) by (nonlinear_arith);
        }
    }
    for k in 0..n
        invariant
            n == bits@.len(),
            n <= 128,
            forall|w: Assignment|
                lits_are_bool(bits@, w) ==> #[trigger] lc_val(terms@, w) == bits_val(
                    lits_bits(bits@.take(k as int), w),
                ) * pow2((n - k) as nat),
            forall|n_bits: nat, n_nums: nat|
                lits_in(bits@, n_bits) ==> #[trigger] terms_in(terms@, n_bits, n_nums),
    {
        let shift = (n - 1 - k) as u32;
        let coeff = 1u128 << shift;
        let ghost before = terms@;
        match bits[k] {
            Lit::Constant(c) => {
                if c {
                    terms.push(Term { coeff, negative: false, var: Var::One });
                }
            },
            Lit::Bit(i) => {
                terms.push(Term { coeff, negative: false, var: Var::Bit(i) });
            },
        }
        proof {
            assert forall|n_bits: nat, n_nums: nat| lits_in(bits@, n_bits) implies #[trigger]
                terms_in(terms@, n_bits, n_nums) by {
                assert(terms_in(before, n_bits, n_nums));
                assert(lit_in(bits@[k as int], n_bits));
                assert(forall|i: int| 0 <= i < before.len() ==> terms@[i] == before[i]);
            }
            lemma_one_shl(shift);
            lemma_pow2_unfold((n - k) as nat);
            let p = pow2((n - k - 1) as nat);
            assert forall|w: Assignment| lits_are_bool(bits@, w) implies #[trigger] lc_val(
                terms@,
                w,
            ) == bits_val(lits_bits(bits@.take(k + 1), w)) * p by {
                let b = lit_bool(bits@[k as int], w);
                let head = lits_bits(bits@.take(k as int), w);
                assert(lits_bits(bits@.take(k + 1), w) =~= head.push(b));
                lemma_bits_val_push(head, b);
                assert(lc_val(before, w) == bits_val(head) * pow2((n - k) as nat));
                assert(lit_is_bool(bits@[k as int], w));
                if terms@.len() > before.len() {
                    lemma_lc_push(before, terms@.last(), w);
                    assert(terms@ =~= before.push(terms@.last()));
                }
                let v = lit_val(bits@[k as int], w);
                assert(lc_val(terms@, w) == lc_val(before, w) + p * v);
                let h = bits_val(head);
                assert(h * (2 * p) + p * v == (2 * h + v) * p) by (nonlinear_arith);
            }
        }
    }
    proof {
        assert(bits@.take(n as int) =~= bits@);
        lemma2_to64();
        assert(forall|x: nat| #[trigger] (x * pow2(0)) == x) by (nonlinear_arith)
            requires
                pow2(0) == 1,
        ;
    }
    terms
}

pub proof fn lemma_grew_trans(a: Circuit, b: Circuit, c: Circuit)
    requires
        b.grew_from(a),
        c.grew_from(b),
    ensures
        c.grew_from(a),
{
    assert forall|k: int|
        #![trigger c.ops@[k]]
        #![trigger a.ops@[k]]
        0 <= k < a.ops@.len() implies c.ops@[k] == a.ops@[k] by {
        assert(b.ops@[k] == a.ops@[k]);
    }
}

/// A value and an element that agree modulo the field size, both reduced, are
/// equal.
proof fn lemma_congruent(x: int, y: int, m: int)
    requires
        0 <= x < m,
        0 <= y < m,
    ensures
        ((x - y) % m == 0) == (x == y),
{
    if (x - y) % m == 0 {
        let q = (x - y) / m;
        lemma_fundamental_div_mod(x - y, m);
        assert(q == 0) by (nonlinear_arith)
            requires
                x - y == m * q,
                -m < x - y < m,
                m > 0,
        ;
        assert(m * q == 0) by (nonlinear_arith)
            requires
                q == 0,
        ;
    } else {
        lemma_small_mod(0, m as nat);
    }
}

impl Circuit {
    /// Allocates a bit.
    pub fn alloc_bit(&mut self, hint: BitHint) -> (slot: usize)
        requires
            old(self).wf(),
            old(self).n_bits < usize::MAX,
            bit_hint_in(
                hint,
                old(self).n_inputs as nat,
                old(self).n_advice as nat,
                old(self).n_bits as nat,
            ),
        ensures
            final(self).wf(),
            final(self).grew_from(*old(self)),
            slot == old(self).n_bits,
            final(self).n_bits == old(self).n_bits + 1,
            final(self).n_nums == old(self).n_nums,
            final(self).ops@ == old(self).ops@.push(Op::AllocBit { slot, hint }),
            forall|w: Assignment| #[trigger]
                final(self).holds(w) == (old(self).holds(w) && (w.bits[slot as int] == 0
                    || w.bits[slot as int] == 1)),
            forall|w: Assignment| #[trigger]
                final(self).followed(w) == (old(self).followed(w) && w.bits[slot as int] == (
                if bit_hint_val(hint, w) {
                    1int
                } else {
                    0int
                })),
    {
        let slot = self.n_bits;
        self.push(Op::AllocBit { slot, hint });
        slot
    }

    /// Allocates an element.
    pub fn alloc_num(&mut self, value: NumHint) -> (slot: usize)
        requires
            old(self).wf(),
            old(self).n_nums < usize::MAX,
            num_hint_in(value, old(self).n_inputs as nat, old(self).n_bits as nat),
        ensures
            final(self).wf(),
            final(self).grew_from(*old(self)),
            slot == old(self).n_nums,
            final(self).n_bits == old(self).n_bits,
            final(self).n_nums == old(self).n_nums + 1,
            final(self).ops@ == old(self).ops@.push(Op::AllocNum { slot, value }),
            forall|w: Assignment| #[trigger] final(self).holds(w) == old(self).holds(w),
            forall|w: Assignment| #[trigger]
                final(self).followed(w) == (old(self).followed(w) && w.nums[slot as int]
                    == num_hint_val(value, w)),
    {
        let slot = self.n_nums;
        self.push(Op::AllocNum { slot, value });
        slot
    }

    /// Constrains `a * b = c`.
    pub fn enforce(&mut self, a: Vec<Term>, b: Vec<Term>, c: Vec<Term>)
        requires
            old(self).wf(),
            terms_in(a@, old(self).n_bits as nat, old(self).n_nums as nat),
            terms_in(b@, old(self).n_bits as nat, old(self).n_nums as nat),
            terms_in(c@, old(self).n_bits as nat, old(self).n_nums as nat),
        ensures
            final(self).wf(),
            final(self).grew_from(*old(self)),
            final(self).n_bits == old(self).n_bits,
            final(self).n_nums == old(self).n_nums,
            final(self).ops@ == old(self).ops@.push(Op::Enforce { a, b, c }),
            forall|w: Assignment| #[trigger]
                final(self).holds(w) == (old(self).holds(w) && product_holds(a@, b@, c@, w)),
            forall|w: Assignment| #[trigger] final(self).followed(w) == old(self).followed(w),
    {
        self.push(Op::Enforce { a, b, c });
    }

    /// Runs the SHA-256 gadget on a message of whole bytes and returns the
    /// digest bits.
    pub fn sha256(&mut self, message: Vec<Lit>) -> (digest: Vec<Lit>)
        requires
            old(self).wf(),
            old(self).n_bits + 256 <= usize::MAX,
            lits_in(message@, old(self).n_bits as nat),
            message@.len() % 8 == 0,
        ensures
            final(self).wf(),
            final(self).grew_from(*old(self)),
            final(self).n_bits == old(self).n_bits + 256,
            final(self).n_nums == old(self).n_nums,
            final(self).ops@ == old(self).ops@.push(
                Op::Sha256 { message, first: old(self).n_bits },
            ),
            digest@.len() == 256,
            lits_in(digest@, final(self).n_bits as nat),
            forall|w: Assignment| #[trigger]
                final(self).holds(w) ==> bytes_of_bits(lits_bits(digest@, w)) == sha256_of(
                    bytes_of_bits(lits_bits(message@, w)),
                ),
            forall|w: Assignment| #[trigger]
                final(self).followed(w) && old(self).holds(w) ==> final(self).holds(w),
    {
        let first = self.n_bits;
        self.push(Op::Sha256 { message, first });
        let mut digest: Vec<Lit> = Vec::with_capacity(256);
        for i in 0..256usize
            invariant
                first + 256 <= usize::MAX,
                digest@.len() == i,
                forall|k: int| 0 <= k < i ==> #[trigger] digest@[k] == Lit::Bit((first + k) as usize),
        {
            digest.push(Lit::Bit(first + i));
        }
        assert forall|w: Assignment| #[trigger] self.holds(w) implies bytes_of_bits(
            lits_bits(digest@, w),
        ) == sha256_of(bytes_of_bits(lits_bits(message@, w))) by {
            assert(lits_bits(digest@, w) =~= digest_bits(first as int, w));
            assert(gadget_holds(message@, first as int, w));
        }
        digest
    }

    /// Constrains an element to be the number that a row of bits writes.
    pub fn enforce_packing(&mut self, bits: &[Lit], num: usize)
        requires
            old(self).wf(),
            lits_in(bits@, old(self).n_bits as nat),
            bits@.len() <= 128,
            num < old(self).n_nums,
        ensures
            final(self).wf(),
            final(self).grew_from(*old(self)),
            final(self).n_bits == old(self).n_bits,
            final(self).n_nums == old(self).n_nums,
            forall|w: Assignment| #[trigger]
                final(self).holds(w) && final(self).fits(w) ==> w.nums[num as int] == bits_val(
                    lits_bits(bits@, w),
                ),
            forall|w: Assignment| #[trigger]
                final(self).followed(w) && old(self).holds(w) && final(self).fits(w)
                    && w.nums[num as int] == bits_val(lits_bits(bits@, w)) ==> final(self).holds(w),
    {
        let packed = packing_terms(bits);
        let one = vec![Term { coeff: 1, negative: false, var: Var::One }];
        let whole = vec![Term { coeff: 1, negative: false, var: Var::Num(num) }];
        let ghost before = *self;
        self.enforce(packed, one, whole);
        proof {
            assert forall|w: Assignment| before.holds(w) && self.fits(w) implies #[trigger] (
            self.holds(w)) == (w.nums[num as int] == bits_val(lits_bits(bits@, w))) by {
                lemma_lits_are_bool(before, w, bits@);
                let v = bits_val(lits_bits(bits@, w));
                lemma_bits_val_bound(lits_bits(bits@, w));
                if bits@.len() < 128 {
                    lemma_pow2_strictly_increases(bits@.len(), 128);
                }
                lemma_lc_single(one@, w);
                lemma_lc_single(whole@, w);
                assert(lc_val(packed@, w) * 1 == v) by (nonlinear_arith)
                    requires
                        lc_val(packed@, w) == v,
                ;
                lemma_congruent(v as int, w.nums[num as int], w.modulus);
            }
        }
    }

    /// A new element that holds the number that a row of bits writes.
    pub fn pack(&mut self, bits: &[Lit]) -> (num: usize)
        requires
            old(self).wf(),
            old(self).n_nums < usize::MAX,
            lits_in(bits@, old(self).n_bits as nat),
            bits@.len() <= 128,
        ensures
            final(self).wf(),
            final(self).grew_from(*old(self)),
            num == old(self).n_nums,
            final(self).n_bits == old(self).n_bits,
            final(self).n_nums == old(self).n_nums + 1,
            forall|w: Assignment| #[trigger]
                final(self).holds(w) && final(self).fits(w) ==> w.nums[num as int] == bits_val(
                    lits_bits(bits@, w),
                ),
            forall|w: Assignment| #[trigger]
                final(self).followed(w) && old(self).holds(w) && final(self).fits(w)
                    ==> final(self).holds(w),
    {
        let ghost before = *self;
        let mut row: Vec<Lit> = Vec::with_capacity(bits.len());
        row.extend_from_slice(bits);
        assert(row@ =~= bits@);
        let num = self.alloc_num(NumHint::Pack(row));
        let ghost middle = *self;
        self.enforce_packing(bits, num);
        proof {
            lemma_grew_trans(before, middle, *self);
        }
        num
    }
}

/// Adds a literal to a linear combination, or takes it away.
fn push_lit(terms: &mut Vec<Term>, l: Lit, negative: bool)
    ensures
        forall|n_bits: nat, n_nums: nat|
            terms_in(old(terms)@, n_bits, n_nums) && lit_in(l, n_bits) ==> #[trigger] terms_in(
                final(terms)@,
                n_bits,
                n_nums,
            ),
        forall|w: Assignment| #[trigger]
            lc_val(final(terms)@, w) == lc_val(old(terms)@, w) + (if negative {
                -lit_val(l, w)
            } else {
                lit_val(l, w)
            }),
{
    let ghost before = terms@;
    match l {
        Lit::Constant(c) => {
            if c {
                terms.push(Term { coeff: 1, negative, var: Var::One });
            }
        },
        Lit::Bit(i) => {
            terms.push(Term { coeff: 1, negative, var: Var::Bit(i) });
        },
    }
    proof {
        assert forall|w: Assignment| #[trigger] lc_val(terms@, w) == lc_val(before, w) + (
        if negative {
            -lit_val(l, w)
        } else {
            lit_val(l, w)
        }) by {
            if terms@.len() > before.len() {
                assert(terms@ =~= before.push(terms@.last()));
                lemma_lc_push(before, terms@.last(), w);
                let v = var_val(terms@.last().var, w);
                assert(1 * v == v);
            }
        }
    }
}

impl Circuit {
    /// A Boolean that is `x` where `by` holds and `y` elsewhere, by the one
    /// constraint `(x - y) * by = out - y`.
    pub fn mux(&mut self, by: Lit, x: Lit, y: Lit) -> (out: Lit)
        requires
            old(self).wf(),
            old(self).n_bits < usize::MAX,
            lit_in(by, old(self).n_bits as nat),
            lit_in(x, old(self).n_bits as nat),
            lit_in(y, old(self).n_bits as nat),
        ensures
            final(self).wf(),
            final(self).grew_from(*old(self)),
            lit_in(out, final(self).n_bits as nat),
            final(self).n_bits == old(self).n_bits + (if by is Bit {
                1int
            } else {
                0
            }),
            final(self).n_nums == old(self).n_nums,
            forall|w: Assignment| #[trigger]
                final(self).holds(w) && final(self).fits(w) ==> lit_bool(out, w) == (if lit_bool(
                    by,
                    w,
                ) {
                    lit_bool(x, w)
                } else {
                    lit_bool(y, w)
                }),
            forall|w: Assignment| #[trigger]
                final(self).followed(w) && old(self).holds(w) && final(self).fits(w)
                    ==> final(self).holds(w),
    {
        if let Lit::Constant(c) = by {
            return if c {
                x
            } else {
                y
            };
        }
        let ghost before = *self;
        let slot = self.alloc_bit(BitHint::Select { by, yes: x, no: y });
        let out = Lit::Bit(slot);
        let mut difference: Vec<Term> = Vec::new();
        push_lit(&mut difference, x, false);
        push_lit(&mut difference, y, true);
        let mut selector: Vec<Term> = Vec::new();
        push_lit(&mut selector, by, false);
        let mut change: Vec<Term> = Vec::new();
        push_lit(&mut change, out, false);
        push_lit(&mut change, y, true);
        let ghost middle = *self;
        self.enforce(difference, selector, change);
        proof {
            lemma_grew_trans(before, middle, *self);
            assert forall|w: Assignment| middle.holds(w) && self.fits(w) implies #[trigger] (
            self.holds(w)) == (lit_bool(out, w) == (if lit_bool(by, w) {
                lit_bool(x, w)
            } else {
                lit_bool(y, w)
            })) by {
                let row = seq![by, x, y, out];
                lemma_lits_are_bool(middle, w, row);
                assert(lit_is_bool(row[0], w));
                assert(lit_is_bool(row[1], w));
                assert(lit_is_bool(row[2], w));
                assert(lit_is_bool(row[3], w));
                lemma_pow2_strictly_increases(2, 128);
                lemma2_to64();
                let (b, xv, yv, o) = (
                    lit_val(by, w),
                    lit_val(x, w),
                    lit_val(y, w),
                    lit_val(out, w),
                );
                let d = xv - yv;
                assert(d * b == (if b == 1 {
                    d
                } else {
                    0
                })) by (nonlinear_arith)
                    requires
                        b == 0 || b == 1,
                ;
                let target = if b == 1 {
                    xv
                } else {
                    yv
                };
                assert(lc_val(Seq::<Term>::empty(), w) == 0);
                assert(lc_val(difference@, w) * lc_val(selector@, w) - lc_val(change@, w) == target
                    - o);
                lemma_congruent(target, o, w.modulus);
            }
        }
        out
    }

    /// Decomposes an input element into bits, most significant first, and
    /// constrains them to recompose to it. `lsb_first` is the order in which
    /// the slots are taken.
    pub fn unpack(&mut self, num: usize, width: usize, lsb_first: bool) -> (bits: Vec<Lit>)
        requires
            old(self).wf(),
            num < old(self).n_inputs,
            width <= 128,
            old(self).n_bits + width <= usize::MAX,
        ensures
            final(self).wf(),
            final(self).grew_from(*old(self)),
            final(self).n_bits == old(self).n_bits + width,
            final(self).n_nums == old(self).n_nums,
            bits@.len() == width,
            lits_in(bits@, final(self).n_bits as nat),
            forall|k: int|
                0 <= k < width ==> #[trigger] bits@[k] == Lit::Bit(
                    (old(self).n_bits + (if lsb_first {
                        width - 1 - k
                    } else {
                        k
                    })) as usize,
                ),
            forall|w: Assignment| #[trigger]
                final(self).holds(w) && final(self).fits(w) ==> w.nums[num as int] == bits_val(
                    lits_bits(bits@, w),
                ),
            forall|w: Assignment| #[trigger]
                final(self).followed(w) && old(self).holds(w) && final(self).fits(w)
                    && w.nums[num as int] < pow2(width as nat) ==> final(self).holds(w),
    {
        let ghost before = *self;
        assert(before.n_inputs <= before.n_nums) by {
            reveal(Circuit::wf);
        }
        let first = self.n_bits;
        for j in 0..width
            invariant
                self.wf(),
                before.wf(),
                self.grew_from(before),
                num < before.n_inputs,
                first == before.n_bits,
                first + width <= usize::MAX,
                width <= 128,
                self.n_bits == first + j,
                self.n_nums == before.n_nums,
                forall|w: Assignment| #[trigger]
                    self.followed(w) && before.holds(w) ==> self.holds(w),
                forall|w: Assignment, i: int|
                    0 <= i < j && #[trigger] self.followed(w) ==> #[trigger] w.bits[first + i] == (
                    if digit(
                        w.nums[num as int] as nat,
                        (if lsb_first {
                            i
                        } else {
                            width - 1 - i
                        }) as nat,
                    ) {
                        1int
                    } else {
                        0int
                    }),
        {
            let shift = (if lsb_first {
                j
            } else {
                width - 1 - j
            }) as u32;
            let ghost middle = *self;
            self.alloc_bit(BitHint::Input { num, shift });
            proof {
                lemma_grew_trans(before, middle, *self);
            }
        }
        let mut bits: Vec<Lit> = Vec::with_capacity(width);
        for k in 0..width
            invariant
                first + width <= usize::MAX,
                bits@.len() == k,
                forall|i: int|
                    0 <= i < k ==> #[trigger] bits@[i] == Lit::Bit(
                        (if lsb_first {
                            first + (width - 1 - i)
                        } else {
                            first + i
                        }) as usize,
                    ),
        {
            bits.push(
                Lit::Bit(
                    if lsb_first {
                        first + (width - 1 - k)
                    } else {
                        first + k
                    },
                ),
            );
        }
        let ghost middle = *self;
        self.enforce_packing(bits.as_slice(), num);
        proof {
            lemma_grew_trans(before, middle, *self);
            assert forall|w: Assignment| #[trigger]
                self.followed(w) && before.holds(w) && self.fits(w) && w.nums[num as int] < pow2(
                    width as nat,
                ) implies self.holds(w) by {
                let v = w.nums[num as int] as nat;
                let row = lits_bits(bits@, w);
                assert(middle.followed(w));
                assert forall|k: int| 0 <= k < row.len() implies #[trigger] row[k] == digit(
                    v,
                    (row.len() - 1 - k) as nat,
                ) by {
                    if lsb_first {
                        assert(w.bits[first + (width - 1 - k)] == (if digit(
                            v,
                            (width - 1 - k) as nat,
                        ) {
                            1int
                        } else {
                            0int
                        }));
                    } else {
                        assert(w.bits[first + k] == (if digit(v, (width - 1 - k) as nat) {
                            1int
                        } else {
                            0int
                        }));
                    }
                    assert(lit_bool(bits@[k], w) == row[k]);
                }
                lemma_bits_val_of_digits(row, v);
            }
        }
        bits
    }
}

impl Circuit {
    /// A new element that holds the successor of the first input element.
    pub fn successor(&mut self) -> (num: usize)
        requires
            old(self).wf(),
            0 < old(self).n_inputs,
            old(self).n_nums < usize::MAX,
        ensures
            final(self).wf(),
            final(self).grew_from(*old(self)),
            num == old(self).n_nums,
            final(self).n_bits == old(self).n_bits,
            final(self).n_nums == old(self).n_nums + 1,
            forall|w: Assignment| #[trigger]
                final(self).holds(w) && final(self).fits(w) ==> w.nums[num as int] == (w.nums[0]
                    + 1) % w.modulus,
            forall|w: Assignment| #[trigger]
                final(self).followed(w) && old(self).holds(w) && final(self).fits(w)
                    ==> final(self).holds(w),
    {
        let ghost before = *self;
        let num = self.alloc_num(NumHint::Successor);
        let ghost middle = *self;
        let mut sum = num_terms(0);
        let ghost own = sum@;
        sum.push(Term { coeff: 1, negative: false, var: Var::One });
        let one = vec![Term { coeff: 1, negative: false, var: Var::One }];
        let next = num_terms(num);
        assert(before.n_inputs <= before.n_nums) by {
            reveal(Circuit::wf);
        }
        assert(terms_in(own, self.n_bits as nat, self.n_nums as nat));
        self.enforce(sum, one, next);
        proof {
            lemma_grew_trans(before, middle, *self);
            assert(sum@ =~= own.push(sum@.last()));
            assert forall|w: Assignment| middle.holds(w) && self.fits(w) implies #[trigger] (
            self.holds(w)) == (w.nums[num as int] == (w.nums[0] + 1) % w.modulus) by {
                let x = w.nums[0] + 1;
                let y = w.nums[num as int];
                lemma_pow2_pos(128);
                lemma_lc_push(own, sum@.last(), w);
                lemma_lc_single(one@, w);
                assert(lc_val(sum@, w) == x);
                assert(x * 1 == x);
                lemma_sub_mod_noop(x, y, w.modulus);
                lemma_small_mod(y as nat, w.modulus as nat);
                lemma_mod_bound(x, w.modulus);
                lemma_congruent(x % w.modulus, y, w.modulus);
            }
        }
        num
    }

    /// Declares the outgoing state.
    pub fn set_outputs(&mut self, outputs: Vec<Vec<Term>>)
        requires
            old(self).wf(),
            forall|i: int|
                0 <= i < outputs@.len() ==> terms_in(
                    (#[trigger] outputs@[i])@,
                    old(self).n_bits as nat,
                    old(self).n_nums as nat,
                ),
        ensures
            *final(self) == (Circuit { outputs, ..*old(self) }),
            final(self).wf(),
            forall|w: Assignment| #[trigger] final(self).holds(w) == old(self).holds(w),
            forall|w: Assignment| #[trigger] final(self).followed(w) == old(self).followed(w),
    {
        proof {
            reveal(Circuit::wf);
            reveal(Circuit::holds);
            reveal(Circuit::followed);
        }
        self.outputs = outputs;
    }
}

/// The linear combination that is one element.
pub fn num_terms(num: usize) -> (terms: Vec<Term>)
    ensures
        forall|w: Assignment| #[trigger] lc_val(terms@, w) == w.nums[num as int],
        forall|n_bits: nat, n_nums: nat|
            num < n_nums ==> #[trigger] terms_in(terms@, n_bits, n_nums),
{
    let terms = vec![Term { coeff: 1, negative: false, var: Var::Num(num) }];
    assert forall|w: Assignment| #[trigger] lc_val(terms@, w) == w.nums[num as int] by {
        lemma_lc_single(terms@, w);
    }
    terms
}

} // verus!
