//! The step circuit that appends one leaf to the tree in its state.

use crate::bits::{be_val, bits_of_bytes, bits_val, bytes_of_bits, digit, lemma_be_val_bound,
    lemma_be_val_concat, lemma_be_val_injective, lemma_be_val_of_bits, lemma_bits_val_bound,
    lemma_bits_val_digit, lemma_bytes_of_bits_concat, lemma_bytes_of_bits_of_bytes,
    lemma_bytes_of_bits_subrange, unpack_bytes};
use crate::hash::{lemma_digest_len, sha256_of};
use crate::nova_spartan_ivc::merkle::{all_digests, encode_state, frontier_of, frontier_pos,
    full_root, lemma_append_is_full_tree, lower_half, node, refreshed, running, upper_half,
    zero_root, zero_subtree_roots};
use crate::r1cs::{digest_bits, lc_val, lemma_grew_trans, lit_bool, lit_in, lits_bits, lits_in,
    num_terms, terms_in, Assignment, BitHint, Circuit, Lit, Term};
use crate::solver::{lemma_no_overflow, overflows};
use vstd::arithmetic::div_mod::lemma_small_mod;
use vstd::arithmetic::power2::{lemma2_to64_rest, lemma_pow2_strictly_increases, pow2};
use vstd::prelude::*;
use vstd::slice::slice_subrange;

verus! {

/// The 32 bytes in the 256 bit slots from `first` on.
pub open spec fn slot_bytes(first: int, w: Assignment) -> Seq<u8> {
    bytes_of_bits(digest_bits(first, w))
}

/// The upper half of 32 bytes is the number that their first 128 bits write,
/// the lower half that of the last 128.
proof fn lemma_halves(row: Seq<bool>)
    requires
        row.len() == 256,
    ensures
        upper_half(bytes_of_bits(row)) == bits_val(row.subrange(0, 128)),
        lower_half(bytes_of_bits(row)) == bits_val(row.subrange(128, 256)),
{
    lemma_bytes_of_bits_subrange(row, 0, 16);
    lemma_bytes_of_bits_subrange(row, 16, 32);
    lemma_be_val_of_bits(row.subrange(0, 128));
    lemma_be_val_of_bits(row.subrange(128, 256));
}

/// The bits of a constant digest.
fn constant_digest_bits(d: &[u8; 32]) -> (bits: Vec<Lit>)
    ensures
        bits@.len() == 256,
        lits_in(bits@, 0),
        forall|w: Assignment| bytes_of_bits(#[trigger] lits_bits(bits@, w)) == d@,
{
    let row = unpack_bytes(d.as_slice());
    let mut bits: Vec<Lit> = Vec::with_capacity(256);
    for k in 0..256usize
        invariant
            row@ == bits_of_bytes(d@),
            row@.len() == 256,
            bits@.len() == k,
            forall|i: int| 0 <= i < k ==> #[trigger] bits@[i] == Lit::Constant(row@[i]),
    {
        bits.push(Lit::Constant(row[k]));
    }
    assert forall|w: Assignment| bytes_of_bits(#[trigger] lits_bits(bits@, w)) == d@ by {
        assert(lits_bits(bits@, w) =~= row@);
        lemma_bytes_of_bits_of_bytes(d@);
    }
    bits
}

/// The row `x` where `by` holds and `y` elsewhere.
fn mux_row(c: &mut Circuit, by: Lit, x: &[Lit], y: &[Lit]) -> (out: Vec<Lit>)
    requires
        old(c).wf(),
        by is Bit,
        x@.len() == y@.len(),
        old(c).n_bits + x@.len() <= usize::MAX,
        lit_in(by, old(c).n_bits as nat),
        lits_in(x@, old(c).n_bits as nat),
        lits_in(y@, old(c).n_bits as nat),
    ensures
        final(c).wf(),
        final(c).grew_from(*old(c)),
        final(c).n_bits == old(c).n_bits + x@.len(),
        final(c).n_nums == old(c).n_nums,
        out@.len() == x@.len(),
        lits_in(out@, final(c).n_bits as nat),
        forall|w: Assignment| #[trigger]
            final(c).holds(w) && final(c).fits(w) ==> lits_bits(out@, w) == (if lit_bool(by, w) {
                lits_bits(x@, w)
            } else {
                lits_bits(y@, w)
            }),
        forall|w: Assignment| #[trigger]
            final(c).followed(w) && old(c).holds(w) && final(c).fits(w) ==> final(c).holds(w),
{
    let ghost before = *c;
    let n = x.len();
    let mut out: Vec<Lit> = Vec::with_capacity(n);
    for k in 0..n
        invariant
            c.wf(),
            c.grew_from(before),
            by is Bit,
            n == x@.len(),
            x@.len() == y@.len(),
            before.n_bits + n <= usize::MAX,
            lit_in(by, before.n_bits as nat),
            lits_in(x@, before.n_bits as nat),
            lits_in(y@, before.n_bits as nat),
            c.n_bits == before.n_bits + k,
            c.n_nums == before.n_nums,
            out@.len() == k,
            lits_in(out@, c.n_bits as nat),
            forall|w: Assignment, i: int|
                0 <= i < k && #[trigger] c.holds(w) && c.fits(w) ==> lit_bool(#[trigger] out@[i], w)
                    == (if lit_bool(by, w) {
                    lit_bool(x@[i], w)
                } else {
                    lit_bool(y@[i], w)
                }),
            forall|w: Assignment| #[trigger]
                c.followed(w) && before.holds(w) && c.fits(w) ==> c.holds(w),
    {
        let ghost middle = *c;
        assert(lit_in(x@[k as int], before.n_bits as nat));
        assert(lit_in(y@[k as int], before.n_bits as nat));
        let lit = c.mux(by, x[k], y[k]);
        out.push(lit);
        proof {
            lemma_grew_trans(before, middle, *c);
        }
    }
    assert forall|w: Assignment| #[trigger] c.holds(w) && c.fits(w) implies lits_bits(out@, w) == (
    if lit_bool(by, w) {
        lits_bits(x@, w)
    } else {
        lits_bits(y@, w)
    }) by {
        assert(lits_bits(out@, w) =~= (if lit_bool(by, w) {
            lits_bits(x@, w)
        } else {
            lits_bits(y@, w)
        }));
    }
    out
}

/// What one level constrains: the frontier node in the slots from `first` on is
/// the one in the incoming state, its successor is in the outgoing state, and
/// the hash is carried from `below` to `above`.
spec fn level_holds(
    first: int,
    num_in: int,
    num_out: int,
    odd: bool,
    below: Seq<u8>,
    above: Seq<u8>,
    zero: Seq<u8>,
    w: Assignment,
) -> bool {
    let node = slot_bytes(first, w);
    let left = if odd {
        node
    } else {
        below
    };
    let right = if odd {
        below
    } else {
        zero
    };
    &&& w.nums[num_in] == upper_half(node)
    &&& w.nums[num_in + 1] == lower_half(node)
    &&& w.nums[num_out] == upper_half(left)
    &&& w.nums[num_out + 1] == lower_half(left)
    &&& above == sha256_of(left + right)
}

/// One level of an append: `odd` says whether the running hash `cur` is a
/// right child, whose sibling is the frontier node in elements `num_in` and
/// `num_in + 1`, or a left one, whose sibling is the constant `zero`.
fn append_level(c: &mut Circuit, odd: Lit, cur: &Vec<Lit>, zero: &[u8; 32], num_in: usize) -> (next:
    Vec<Lit>)
    requires
        old(c).wf(),
        old(c).n_bits + 1024 <= usize::MAX,
        old(c).n_nums + 2 <= usize::MAX,
        num_in + 1 < old(c).n_inputs,
        odd is Bit,
        lit_in(odd, old(c).n_bits as nat),
        cur@.len() == 256,
        lits_in(cur@, old(c).n_bits as nat),
    ensures
        final(c).wf(),
        final(c).grew_from(*old(c)),
        final(c).n_bits == old(c).n_bits + 1024,
        final(c).n_nums == old(c).n_nums + 2,
        next@.len() == 256,
        lits_in(next@, final(c).n_bits as nat),
        forall|w: Assignment| #[trigger]
            final(c).holds(w) && final(c).fits(w) ==> level_holds(
                old(c).n_bits as int,
                num_in as int,
                old(c).n_nums as int,
                lit_bool(odd, w),
                bytes_of_bits(lits_bits(cur@, w)),
                bytes_of_bits(lits_bits(next@, w)),
                zero@,
                w,
            ),
        forall|w: Assignment| #[trigger]
            final(c).followed(w) && old(c).holds(w) && final(c).fits(w) && w.nums[num_in as int]
                < pow2(128) && w.nums[num_in + 1] < pow2(128) ==> final(c).holds(w),
{
    let ghost c0 = *c;
    let mut node = c.unpack(num_in, 128, false);
    let ghost upper = node@;
    let ghost c1 = *c;
    let mut rest = c.unpack(num_in + 1, 128, false);
    let ghost lower = rest@;
    node.append(&mut rest);
    let ghost c2 = *c;
    let zero_bits = constant_digest_bits(zero);
    assert(lits_in(zero_bits@, c2.n_bits as nat)) by {
        assert forall|i: int| 0 <= i < zero_bits@.len() implies lit_in(
            #[trigger] zero_bits@[i],
            c2.n_bits as nat,
        ) by {
            assert(lit_in(zero_bits@[i], 0));
        }
    }
    let mut left = mux_row(c, odd, node.as_slice(), cur.as_slice());
    let ghost left_row = left@;
    let ghost c3 = *c;
    let mut right = mux_row(c, odd, cur.as_slice(), zero_bits.as_slice());
    let ghost right_row = right@;
    let ghost c4 = *c;
    c.pack(slice_subrange(left.as_slice(), 0, 128));
    let ghost c5 = *c;
    c.pack(slice_subrange(left.as_slice(), 128, 256));
    let ghost c6 = *c;
    left.append(&mut right);
    let ghost message = left@;
    let next = c.sha256(left);
    proof {
        lemma_grew_trans(c0, c1, c2);
        lemma_grew_trans(c0, c2, c3);
        lemma_grew_trans(c0, c3, c4);
        lemma_grew_trans(c0, c4, c5);
        lemma_grew_trans(c0, c5, c6);
        lemma_grew_trans(c0, c6, *c);
        assert forall|w: Assignment| #[trigger] c.holds(w) && c.fits(w) implies level_holds(
            c0.n_bits as int,
            num_in as int,
            c0.n_nums as int,
            lit_bool(odd, w),
            bytes_of_bits(lits_bits(cur@, w)),
            bytes_of_bits(lits_bits(next@, w)),
            zero@,
            w,
        ) by {
            assert(c6.holds(w) && c6.fits(w));
            assert(c5.holds(w) && c5.fits(w));
            assert(c4.holds(w) && c4.fits(w));
            assert(c3.holds(w) && c3.fits(w));
            assert(c2.holds(w) && c2.fits(w));
            assert(c1.holds(w) && c1.fits(w));
            let row = lits_bits(node@, w);
            assert(row =~= digest_bits(c0.n_bits as int, w));
            assert(row.subrange(0, 128) =~= lits_bits(upper, w));
            assert(row.subrange(128, 256) =~= lits_bits(lower, w));
            lemma_halves(row);
            let l = lits_bits(left_row, w);
            let r = lits_bits(right_row, w);
            assert(l.subrange(0, 128) =~= lits_bits(left_row.subrange(0, 128), w));
            assert(l.subrange(128, 256) =~= lits_bits(left_row.subrange(128, 256), w));
            lemma_halves(l);
            assert(lits_bits(message, w) =~= l + r);
            lemma_bytes_of_bits_concat(l, r);
        }
        assert forall|w: Assignment| #[trigger]
            c.followed(w) && c0.holds(w) && c.fits(w) && w.nums[num_in as int] < pow2(128)
                && w.nums[num_in + 1] < pow2(128) implies c.holds(w) by {
            assert(c6.followed(w) && c6.fits(w));
            assert(c5.followed(w) && c5.fits(w));
            assert(c4.followed(w) && c4.fits(w));
            assert(c3.followed(w) && c3.fits(w));
            assert(c2.followed(w) && c2.fits(w));
            assert(c1.followed(w) && c1.fits(w));
        }
    }
    next
}

/// `z_out` is the state after `leaf` is appended to a tree whose frontier and
/// index `z_in` holds.
pub open spec fn append_step(
    depth: nat,
    z_in: Seq<int>,
    z_out: Seq<int>,
    frontier: Seq<Seq<u8>>,
    leaf: Seq<u8>,
) -> bool {
    let index = z_in[0] as nat;
    &&& z_in.len() == 3 + 2 * depth
    &&& 0 <= z_in[0] < pow2(depth)
    &&& leaf.len() == 32
    &&& frontier.len() == depth
    &&& forall|j: int|
        0 <= j < depth ==> {
            let node = #[trigger] frontier[j];
            node.len() == 32 && z_in[3 + 2 * j] == upper_half(node) && z_in[4 + 2 * j]
                == lower_half(node)
        }
    &&& z_out == encode_state(
        index + 1,
        running(frontier, leaf, index, depth),
        refreshed(frontier, leaf, index),
    )
}

/// The leaf in the bit slots of an append circuit.
pub open spec fn stored_leaf(depth: nat, w: Assignment) -> Seq<u8> {
    slot_bytes(depth as int, w)
}

/// The frontier in the bit slots of an append circuit.
pub open spec fn stored_frontier(depth: nat, w: Assignment) -> Seq<Seq<u8>> {
    Seq::new(depth, |j: int| slot_bytes(depth + 256 + 1024 * j, w))
}

/// The incoming elements are in the range that the circuit decomposes.
pub open spec fn decomposable(depth: nat, z_in: Seq<int>) -> bool {
    &&& z_in[0] < pow2(depth)
    &&& forall|i: int| 3 <= i < 3 + 2 * depth ==> #[trigger] z_in[i] < pow2(128)
}

/// The circuit appends one leaf to a tree of the given depth: whatever
/// satisfies it takes the incoming state to the state after some leaf was
/// appended, that leaf is the advice where the values are honest, and a
/// decomposable state has honest values, which satisfy it.
pub open spec fn is_append_circuit(c: Circuit, depth: nat) -> bool {
    &&& c.wf()
    &&& c.n_inputs == 3 + 2 * depth
    &&& c.n_advice == 256
    &&& c.outputs@.len() == 3 + 2 * depth
    &&& forall|w: Assignment| #[trigger]
        c.holds(w) && c.fits(w) ==> append_step(
            depth,
            w.nums.take((3 + 2 * depth) as int),
            c.state_out(w),
            stored_frontier(depth, w),
            stored_leaf(depth, w),
        )
    &&& forall|w: Assignment| #[trigger]
        c.followed(w) && w.advice.len() == 256 ==> stored_leaf(depth, w) == bytes_of_bits(w.advice)
    &&& forall|w: Assignment| #[trigger]
        c.followed(w) && c.fits(w) && decomposable(depth, w.nums) ==> c.holds(w)
    &&& forall|inputs: Seq<u128>|
        inputs.len() == c.n_inputs && decomposable(
            depth,
            inputs.map_values(|v: u128| v as int),
        ) ==> !#[trigger] overflows(c, inputs)
}

/// The first `j` levels hold what they should: the stored frontier nodes are
/// those of the incoming state, and the elements from `num_out` on are the
/// refreshed ones.
spec fn levels_hold(depth: nat, num_out: int, j: int, w: Assignment) -> bool {
    let frontier = stored_frontier(depth, w);
    let fresh = refreshed(frontier, stored_leaf(depth, w), w.nums[0] as nat);
    forall|k: int|
        #![trigger frontier[k]]
        #![trigger fresh[k]]
        0 <= k < j ==> {
            &&& w.nums[3 + 2 * k] == upper_half(frontier[k])
            &&& w.nums[4 + 2 * k] == lower_half(frontier[k])
            &&& w.nums[num_out + 2 * k] == upper_half(fresh[k])
            &&& w.nums[num_out + 2 * k + 1] == lower_half(fresh[k])
        }
}

/// The hash carried into level `j` of an append circuit.
spec fn carried(depth: nat, j: nat, w: Assignment) -> Seq<u8> {
    running(stored_frontier(depth, w), stored_leaf(depth, w), w.nums[0] as nat, j)
}

proof fn lemma_level_step(
    depth: nat,
    num_out: int,
    j: int,
    above: Seq<u8>,
    w: Assignment,
)
    requires
        0 <= j < depth,
        levels_hold(depth, num_out, j, w),
        level_holds(
            depth + 256 + 1024 * j,
            3 + 2 * j,
            num_out + 2 * j,
            digit(w.nums[0] as nat, j as nat),
            carried(depth, j as nat, w),
            above,
            zero_root(j as nat),
            w,
        ),
    ensures
        levels_hold(depth, num_out, j + 1, w),
        above == carried(depth, (j + 1) as nat, w),
{
    let frontier = stored_frontier(depth, w);
    let fresh = refreshed(frontier, stored_leaf(depth, w), w.nums[0] as nat);
    assert(frontier[j] == slot_bytes(depth + 256 + 1024 * j, w));
}

/// Allocates the advice leaf.
fn alloc_leaf(c: &mut Circuit) -> (leaf: Vec<Lit>)
    requires
        old(c).wf(),
        old(c).n_advice == 256,
        old(c).n_bits + 256 <= usize::MAX,
    ensures
        final(c).wf(),
        final(c).grew_from(*old(c)),
        final(c).n_bits == old(c).n_bits + 256,
        final(c).n_nums == old(c).n_nums,
        leaf@.len() == 256,
        lits_in(leaf@, final(c).n_bits as nat),
        forall|w: Assignment| #[trigger]
            lits_bits(leaf@, w) == digest_bits(old(c).n_bits as int, w),
        forall|w: Assignment| #[trigger]
            final(c).followed(w) && w.advice.len() == 256 ==> digest_bits(old(c).n_bits as int, w)
                == w.advice,
        forall|w: Assignment| #[trigger]
            final(c).followed(w) && old(c).holds(w) ==> final(c).holds(w),
{
    let ghost before = *c;
    let first = c.n_bits;
    let mut leaf: Vec<Lit> = Vec::with_capacity(256);
    for k in 0..256usize
        invariant
            c.wf(),
            c.grew_from(before),
            before.n_advice == 256,
            first == before.n_bits,
            first + 256 <= usize::MAX,
            c.n_bits == first + k,
            c.n_nums == before.n_nums,
            leaf@.len() == k,
            forall|i: int| 0 <= i < k ==> #[trigger] leaf@[i] == Lit::Bit((first + i) as usize),
            forall|w: Assignment, i: int|
                0 <= i < k && #[trigger] c.followed(w) ==> (#[trigger] w.bits[first + i] == 1)
                    == w.advice[i],
            forall|w: Assignment| #[trigger] c.followed(w) && before.holds(w) ==> c.holds(w),
    {
        let ghost middle = *c;
        let slot = c.alloc_bit(BitHint::Advice { index: k });
        leaf.push(Lit::Bit(slot));
        proof {
            lemma_grew_trans(before, middle, *c);
        }
    }
    proof {
        assert forall|w: Assignment| #[trigger]
            lits_bits(leaf@, w) == digest_bits(first as int, w) by {
            assert(lits_bits(leaf@, w) =~= digest_bits(first as int, w));
        }
        assert forall|w: Assignment| #[trigger]
            c.followed(w) && w.advice.len() == 256 implies digest_bits(first as int, w)
            == w.advice by {
            assert(digest_bits(first as int, w) =~= w.advice);
        }
    }
    leaf
}

/// The levels of an append circuit, from the leaf to the root.
fn append_levels(
    c: &mut Circuit,
    index_row: &Vec<Lit>,
    leaf: Vec<Lit>,
    zeros: &Vec<[u8; 32]>,
    depth: usize,
) -> (root: Vec<Lit>)
    requires
        1 <= depth <= 64,
        old(c).wf(),
        old(c).n_inputs == 3 + 2 * depth,
        old(c).n_nums == 3 + 2 * depth,
        old(c).n_bits == depth + 256,
        index_row@.len() == depth,
        lits_in(index_row@, old(c).n_bits as nat),
        forall|k: int| 0 <= k < depth ==> #[trigger] index_row@[k] is Bit,
        leaf@.len() == 256,
        lits_in(leaf@, old(c).n_bits as nat),
        forall|w: Assignment| #[trigger] lits_bits(leaf@, w) == digest_bits(depth as int, w),
        zeros@.len() >= depth,
        forall|j: int| 0 <= j < depth ==> (#[trigger] zeros@[j])@ == zero_root(j as nat),
        forall|w: Assignment| #[trigger]
            old(c).holds(w) && old(c).fits(w) ==> w.nums[0] == bits_val(
                lits_bits(index_row@, w),
            ),
    ensures
        final(c).wf(),
        final(c).grew_from(*old(c)),
        final(c).n_bits == depth + 256 + 1024 * depth,
        final(c).n_nums == 3 + 4 * depth,
        root@.len() == 256,
        lits_in(root@, final(c).n_bits as nat),
        forall|w: Assignment| #[trigger]
            final(c).holds(w) && final(c).fits(w) ==> levels_hold(
                depth as nat,
                3 + 2 * depth,
                depth as int,
                w,
            ) && bytes_of_bits(lits_bits(root@, w)) == carried(depth as nat, depth as nat, w),
        forall|w: Assignment| #[trigger]
            final(c).followed(w) && old(c).holds(w) && final(c).fits(w) && decomposable(
                depth as nat,
                w.nums,
            ) ==> final(c).holds(w),
{
    let ghost before = *c;
    let ghost num_out = 3 + 2 * depth;
    let mut cur = leaf;
    for j in 0..depth
        invariant
            1 <= depth <= 64,
            c.wf(),
            c.grew_from(before),
            before.n_inputs == 3 + 2 * depth,
            before.n_bits == depth + 256,
            num_out == 3 + 2 * depth,
            c.n_bits == depth + 256 + 1024 * j,
            c.n_nums == num_out + 2 * j,
            index_row@.len() == depth,
            lits_in(index_row@, before.n_bits as nat),
            forall|k: int| 0 <= k < depth ==> #[trigger] index_row@[k] is Bit,
            zeros@.len() >= depth,
            forall|i: int| 0 <= i < depth ==> (#[trigger] zeros@[i])@ == zero_root(i as nat),
            forall|w: Assignment| #[trigger]
                before.holds(w) && before.fits(w) ==> w.nums[0] == bits_val(
                    lits_bits(index_row@, w),
                ),
            cur@.len() == 256,
            lits_in(cur@, c.n_bits as nat),
            forall|w: Assignment| #[trigger]
                c.holds(w) && c.fits(w) ==> levels_hold(depth as nat, num_out, j as int, w)
                    && bytes_of_bits(lits_bits(cur@, w)) == carried(depth as nat, j as nat, w),
            forall|w: Assignment| #[trigger]
                c.followed(w) && before.holds(w) && c.fits(w) && decomposable(depth as nat, w.nums)
                    ==> c.holds(w),
    {
        let ghost middle = *c;
        let ghost below = cur@;
        assert(lit_in(index_row@[depth - 1 - j], before.n_bits as nat));
        let odd = index_row[depth - 1 - j];
        cur = append_level(c, odd, &cur, &zeros[j], 3 + 2 * j);
        proof {
            lemma_grew_trans(before, middle, *c);
            assert forall|w: Assignment| #[trigger] c.holds(w) && c.fits(w) implies levels_hold(
                depth as nat,
                num_out,
                j + 1,
                w,
            ) && bytes_of_bits(lits_bits(cur@, w)) == carried(depth as nat, (j + 1) as nat, w) by {
                assert(middle.holds(w) && middle.fits(w));
                assert(before.holds(w) && before.fits(w));
                let row = lits_bits(index_row@, w);
                lemma_bits_val_digit(row, depth - 1 - j);
                assert(lit_bool(odd, w) == digit(w.nums[0] as nat, j as nat));
                lemma_level_step(
                    depth as nat,
                    num_out,
                    j as int,
                    bytes_of_bits(lits_bits(cur@, w)),
                    w,
                );
            }
            assert forall|w: Assignment| #[trigger]
                c.followed(w) && before.holds(w) && c.fits(w) && decomposable(
                    depth as nat,
                    w.nums,
                ) implies c.holds(w) by {
                assert(middle.followed(w) && middle.fits(w));
                assert(w.nums[3 + 2 * j] < pow2(128));
                assert(w.nums[3 + 2 * j + 1] < pow2(128));
            }
        }
    }
    cur
}

/// One step: append `leaf`, advice that changes per step, to the tree of depth
/// `depth` carried in the state.
pub struct MerkleAppendCircuit {
    depth: usize,
    leaf: [u8; 32],
    zeros: Vec<[u8; 32]>,
}

impl MerkleAppendCircuit {
    /// Number of levels above the leaves.
    pub closed spec fn depth(self) -> nat {
        self.depth as nat
    }

    /// The leaf that the step appends.
    pub closed spec fn leaf(self) -> Seq<u8> {
        self.leaf@
    }

    pub closed spec fn wf(self) -> bool {
        &&& 1 <= self.depth <= 64
        &&& self.zeros@.len() == self.depth + 1
        &&& forall|j: int|
            0 <= j <= self.depth ==> (#[trigger] self.zeros@[j])@ == zero_root(j as nat)
    }

    pub fn new(depth: usize, leaf: [u8; 32]) -> (circuit: Self)
        requires
            1 <= depth <= 64,
        ensures
            circuit.wf(),
            circuit.depth() == depth,
            circuit.leaf() == leaf@,
    {
        MerkleAppendCircuit { depth, leaf, zeros: zero_subtree_roots(depth) }
    }

    /// Number of elements in the state.
    pub fn arity(&self) -> (n: usize)
        requires
            self.wf(),
        ensures
            n == 3 + 2 * self.depth(),
    {
        3 + 2 * self.depth
    }

    /// The advice that makes the honest values those of this step's leaf.
    pub fn advice(&self) -> (advice: Vec<bool>)
        ensures
            advice@ == bits_of_bytes(self.leaf()),
    {
        unpack_bytes(self.leaf.as_slice())
    }

    /// The constraints of the step. They do not depend on the leaf.
    pub fn synthesize(&self) -> (c: Circuit)
        requires
            self.wf(),
        ensures
            is_append_circuit(c, self.depth()),
    {
        let d = self.depth;
        let mut c = Circuit::new(3 + 2 * d, 256);
        let index_row = c.unpack(0, d, true);
        let ghost c1 = c;
        let leaf = alloc_leaf(&mut c);
        let ghost c2 = c;
        assert forall|k: int| 0 <= k < index_row@.len() implies lit_in(
            #[trigger] index_row@[k],
            c2.n_bits as nat,
        ) by {
            assert(lit_in(index_row@[k], c1.n_bits as nat));
        }
        let root = append_levels(&mut c, &index_row, leaf, &self.zeros, d);
        let ghost c3 = c;
        let next_index = c.successor();
        let ghost c4 = c;
        let root_hi = c.pack(slice_subrange(root.as_slice(), 0, 128));
        let ghost c5 = c;
        let root_lo = c.pack(slice_subrange(root.as_slice(), 128, 256));
        let ghost c6 = c;
        let mut outputs: Vec<Vec<Term>> = Vec::with_capacity(3 + 2 * d);
        outputs.push(num_terms(next_index));
        outputs.push(num_terms(root_hi));
        outputs.push(num_terms(root_lo));
        for k in 0..2 * d
            invariant
                d <= 64,
                outputs@.len() == 3 + k,
                3 + 4 * d <= c.n_nums,
                forall|i: int|
                    0 <= i < outputs@.len() ==> terms_in(
                        (#[trigger] outputs@[i])@,
                        c.n_bits as nat,
                        c.n_nums as nat,
                    ),
                forall|w: Assignment| #[trigger]
                    lc_val(outputs@[0]@, w) == w.nums[next_index as int],
                forall|w: Assignment| #[trigger] lc_val(outputs@[1]@, w) == w.nums[root_hi as int],
                forall|w: Assignment| #[trigger] lc_val(outputs@[2]@, w) == w.nums[root_lo as int],
                forall|w: Assignment, i: int|
                    #![trigger lc_val(outputs@[i]@, w)]
                    3 <= i < 3 + k ==> lc_val(outputs@[i]@, w) == w.nums[2 * d + i],
        {
            outputs.push(num_terms(3 + 2 * d + k));
        }
        c.set_outputs(outputs);
        proof {
            lemma_grew_trans(c1, c2, c3);
            assert forall|w: Assignment| #[trigger] c.holds(w) && c.fits(w) implies append_step(
                d as nat,
                w.nums.take(3 + 2 * d),
                c.state_out(w),
                stored_frontier(d as nat, w),
                stored_leaf(d as nat, w),
            ) by {
                assert(c6.holds(w) && c6.fits(w));
                assert(c5.holds(w) && c5.fits(w));
                assert(c4.holds(w) && c4.fits(w));
                assert(c3.holds(w) && c3.fits(w));
                assert(c2.holds(w) && c2.fits(w));
                assert(c1.holds(w) && c1.fits(w));
                lemma_bits_val_bound(lits_bits(index_row@, w));
                let r = lits_bits(root@, w);
                assert(r.subrange(0, 128) =~= lits_bits(root@.subrange(0, 128), w));
                assert(r.subrange(128, 256) =~= lits_bits(root@.subrange(128, 256), w));
                lemma_halves(r);
                lemma_state_out(c, d as nat, w);
            }
            assert forall|w: Assignment| #[trigger]
                c.followed(w) && w.advice.len() == 256 implies stored_leaf(d as nat, w)
                == bytes_of_bits(w.advice) by {
                assert(c6.followed(w) && c5.followed(w) && c4.followed(w) && c3.followed(w));
                assert(c2.followed(w));
            }
            assert forall|w: Assignment| #[trigger]
                c.followed(w) && c.fits(w) && decomposable(d as nat, w.nums) implies c.holds(w) by {
                assert(c6.followed(w) && c6.fits(w));
                assert(c5.followed(w) && c5.fits(w));
                assert(c4.followed(w) && c4.fits(w));
                assert(c3.followed(w) && c3.fits(w));
                assert(c2.followed(w) && c2.fits(w));
                assert(c1.followed(w) && c1.fits(w));
            }
            assert forall|inputs: Seq<u128>|
                inputs.len() == c.n_inputs && decomposable(
                    d as nat,
                    inputs.map_values(|v: u128| v as int),
                ) implies !#[trigger] overflows(c, inputs) by {
                assert(inputs.map_values(|v: u128| v as int)[0] == inputs[0] as int);
                lemma2_to64_rest();
                if d < 64 {
                    lemma_pow2_strictly_increases(d as nat, 64);
                }
                lemma_no_overflow(c, inputs);
            }
        }
        c
    }
}

/// The outgoing elements, put together from the levels, the index and the root.
proof fn lemma_state_out(c: Circuit, d: nat, w: Assignment)
    requires
        1 <= d <= 64,
        c.fits(w),
        c.n_nums == 6 + 4 * d,
        c.outputs@.len() == 3 + 2 * d,
        0 <= w.nums[0] < pow2(d),
        levels_hold(d, (3 + 2 * d) as int, d as int, w),
        w.nums[(3 + 4 * d) as int] == (w.nums[0] + 1) % w.modulus,
        w.nums[(4 + 4 * d) as int] == upper_half(carried(d, d, w)),
        w.nums[(5 + 4 * d) as int] == lower_half(carried(d, d, w)),
        lc_val(c.outputs@[0]@, w) == w.nums[(3 + 4 * d) as int],
        lc_val(c.outputs@[1]@, w) == w.nums[(4 + 4 * d) as int],
        lc_val(c.outputs@[2]@, w) == w.nums[(5 + 4 * d) as int],
        forall|i: int|
            #![trigger c.outputs@[i]]
            3 <= i < 3 + 2 * d ==> lc_val(c.outputs@[i]@, w) == w.nums[2 * d + i],
    ensures
        append_step(
            d,
            w.nums.take((3 + 2 * d) as int),
            c.state_out(w),
            stored_frontier(d, w),
            stored_leaf(d, w),
        ),
{
    let z_in = w.nums.take((3 + 2 * d) as int);
    let frontier = stored_frontier(d, w);
    let leaf = stored_leaf(d, w);
    let index = w.nums[0] as nat;
    let fresh = refreshed(frontier, leaf, index);
    let out = encode_state(index + 1, running(frontier, leaf, index, d), fresh);
    lemma_pow2_strictly_increases(d, 128);
    lemma_small_mod(index + 1, w.modulus as nat);
    assert forall|j: int| 0 <= j < d implies {
        let node = #[trigger] frontier[j];
        node.len() == 32 && z_in[3 + 2 * j] == upper_half(node) && z_in[4 + 2 * j] == lower_half(
            node,
        )
    } by {}
    assert forall|i: int| 0 <= i < 3 + 2 * d implies c.state_out(w)[i] == out[i] by {
        let slot = if i < 3 {
            3 + 4 * d + i
        } else {
            2 * d + i
        };
        assert(lc_val(c.outputs@[i]@, w) == w.nums[slot]);
        lemma_small_mod(w.nums[slot] as nat, w.modulus as nat);
        if i >= 3 {
            let k = (i - 3) / 2;
            assert(fresh[k] == fresh[k]);
            assert(i == 3 + 2 * k || i == 4 + 2 * k);
        }
    }
    assert(c.state_out(w) =~= out);
}

/// State vector of the tree over `leaves`.
pub open spec fn tree_state(depth: nat, leaves: Seq<Seq<u8>>) -> Seq<int> {
    encode_state(leaves.len(), full_root(depth, leaves), frontier_of(depth, leaves))
}

/// Every node of a tree over digests is a digest.
proof fn lemma_node_len(leaves: Seq<Seq<u8>>, height: nat, pos: nat)
    requires
        all_digests(leaves),
    ensures
        node(leaves, height, pos).len() == 32,
{
    if height == 0 {
        if pos < leaves.len() {
            assert(leaves[pos as int].len() == 32);
        }
    } else {
        let below = (height - 1) as nat;
        lemma_digest_len(node(leaves, below, 2 * pos) + node(leaves, below, 2 * pos + 1));
    }
}

/// Two digests with equal halves are equal.
proof fn lemma_halves_injective(a: Seq<u8>, b: Seq<u8>)
    requires
        a.len() == 32,
        b.len() == 32,
        upper_half(a) == upper_half(b),
        lower_half(a) == lower_half(b),
    ensures
        a == b,
{
    lemma_be_val_injective(a.subrange(0, 16), b.subrange(0, 16));
    lemma_be_val_injective(a.subrange(16, 32), b.subrange(16, 32));
    assert(a =~= a.subrange(0, 16) + a.subrange(16, 32));
    assert(b =~= b.subrange(0, 16) + b.subrange(16, 32));
}

/// A step of the append circuit from the state of a tree leads to the state of
/// the tree with one more leaf, whatever frontier the prover stored.
pub proof fn lemma_step_extends_tree(
    depth: nat,
    leaves: Seq<Seq<u8>>,
    z_out: Seq<int>,
    frontier: Seq<Seq<u8>>,
    leaf: Seq<u8>,
)
    requires
        all_digests(leaves),
        append_step(depth, tree_state(depth, leaves), z_out, frontier, leaf),
    ensures
        z_out == tree_state(depth, leaves.push(leaf)),
{
    let front = frontier_of(depth, leaves);
    let z_in = tree_state(depth, leaves);
    assert forall|j: int| 0 <= j < depth implies frontier[j] == front[j] by {
        lemma_node_len(leaves, j as nat, frontier_pos(j as nat, leaves.len()));
        assert((3 + 2 * j - 3) / 2 == j && (4 + 2 * j - 3) / 2 == j);
        assert(z_in[3 + 2 * j] == upper_half(front[j]));
        assert(z_in[4 + 2 * j] == lower_half(front[j]));
        assert(z_in[3 + 2 * j] == upper_half(frontier[j]));
        lemma_halves_injective(frontier[j], front[j]);
    }
    assert(frontier =~= front);
    lemma_append_is_full_tree(depth, leaves, leaf);
}

/// `z_out` is the state after some leaf is appended to the tree in `z_in`.
pub open spec fn appends(depth: nat, z_in: Seq<int>, z_out: Seq<int>) -> bool {
    exists|frontier: Seq<Seq<u8>>, leaf: Seq<u8>| append_step(depth, z_in, z_out, frontier, leaf)
}

/// Consecutive states are linked by steps of the append circuit.
pub open spec fn is_append_chain(depth: nat, states: Seq<Seq<int>>) -> bool {
    forall|i: int|
        0 <= i < states.len() - 1 ==> appends(depth, #[trigger] states[i], states[i + 1])
}

/// A chain of steps that starts at the empty tree ends at the state of a tree
/// into which as many leaves were appended, in order.
pub proof fn lemma_chain_is_tree(depth: nat, states: Seq<Seq<int>>) -> (leaves: Seq<Seq<u8>>)
    requires
        states.len() > 0,
        states[0] == tree_state(depth, Seq::empty()),
        is_append_chain(depth, states),
    ensures
        leaves.len() == states.len() - 1,
        all_digests(leaves),
        states.last() == tree_state(depth, leaves),
    decreases states.len(),
{
    if states.len() == 1 {
        Seq::empty()
    } else {
        let shorter = states.drop_last();
        let n = states.len() - 2;
        assert forall|i: int| 0 <= i < shorter.len() - 1 implies appends(
            depth,
            #[trigger] shorter[i],
            shorter[i + 1],
        ) by {
            assert(states[i] == shorter[i]);
        }
        let before = lemma_chain_is_tree(depth, shorter);
        assert(states[n] == shorter.last());
        let (z_in, z_out) = (states[n], states.last());
        assert(appends(depth, z_in, states[n + 1]));
        let (frontier, leaf) = choose|frontier: Seq<Seq<u8>>, leaf: Seq<u8>|
            append_step(depth, z_in, z_out, frontier, leaf);
        lemma_step_extends_tree(depth, before, states.last(), frontier, leaf);
        before.push(leaf)
    }
}

/// `z_out` is the state after `leaf` is appended to the tree in `z_in`.
pub open spec fn appends_leaf(depth: nat, z_in: Seq<int>, z_out: Seq<int>, leaf: Seq<u8>) -> bool {
    exists|frontier: Seq<Seq<u8>>| append_step(depth, z_in, z_out, frontier, leaf)
}

/// A chain of steps that starts at the empty tree and appends the given leaves
/// ends at the state of the tree over them.
pub proof fn lemma_appends_of_leaves(depth: nat, states: Seq<Seq<int>>, leaves: Seq<Seq<u8>>)
    requires
        states.len() == leaves.len() + 1,
        states[0] == tree_state(depth, Seq::empty()),
        forall|i: int|
            0 <= i < leaves.len() ==> appends_leaf(
                depth,
                #[trigger] states[i],
                states[i + 1],
                leaves[i],
            ),
    ensures
        all_digests(leaves),
        states.last() == tree_state(depth, leaves),
    decreases leaves.len(),
{
    if leaves.len() == 0 {
        assert(leaves =~= Seq::empty());
    } else {
        let n = leaves.len() - 1;
        let (fewer, shorter) = (leaves.drop_last(), states.drop_last());
        assert forall|i: int| 0 <= i < fewer.len() implies appends_leaf(
            depth,
            #[trigger] shorter[i],
            shorter[i + 1],
            fewer[i],
        ) by {
            assert(states[i] == shorter[i]);
        }
        lemma_appends_of_leaves(depth, shorter, fewer);
        let (z_in, z_out, leaf) = (states[n], states.last(), leaves.last());
        assert(appends_leaf(depth, z_in, states[n + 1], leaf));
        let frontier = choose|frontier: Seq<Seq<u8>>|
            append_step(depth, z_in, z_out, frontier, leaf);
        assert(z_in == shorter.last());
        lemma_step_extends_tree(depth, fewer, z_out, frontier, leaf);
        assert(leaves =~= fewer.push(leaf));
        assert forall|i: int| 0 <= i < leaves.len() implies (#[trigger] leaves[i]).len() == 32 by {
            if i < n {
                assert(fewer[i].len() == 32);
            }
        }
    }
}

/// The state vector begins with the index and tells trees apart: two that are equal
/// hold the same index, root and frontier.
pub proof fn lemma_state_determines_tree(
    index: nat,
    root: Seq<u8>,
    frontier: Seq<Seq<u8>>,
    other_index: nat,
    other_root: Seq<u8>,
    other_frontier: Seq<Seq<u8>>,
)
    requires
        root.len() == 32,
        other_root.len() == 32,
        all_digests(frontier),
        all_digests(other_frontier),
        encode_state(index, root, frontier) == encode_state(
            other_index,
            other_root,
            other_frontier,
        ),
    ensures
        encode_state(index, root, frontier).len() == 3 + 2 * frontier.len(),
        encode_state(index, root, frontier)[0] == index,
        index == other_index,
        root == other_root,
        frontier == other_frontier,
{
    let (a, b) = (
        encode_state(index, root, frontier),
        encode_state(other_index, other_root, other_frontier),
    );
    assert(a.len() == b.len());
    assert(a[0] == b[0] && a[1] == b[1] && a[2] == b[2]);
    lemma_halves_injective(root, other_root);
    assert forall|j: int| 0 <= j < frontier.len() implies frontier[j] == other_frontier[j] by {
        assert((3 + 2 * j - 3) / 2 == j && (4 + 2 * j - 3) / 2 == j);
        assert((3 + 2 * j) % 2 == 1 && (4 + 2 * j) % 2 == 0);
        assert(a[3 + 2 * j] == b[3 + 2 * j] && a[4 + 2 * j] == b[4 + 2 * j]);
        lemma_halves_injective(frontier[j], other_frontier[j]);
    }
    assert(frontier =~= other_frontier);
}

/// The two halves of a digest, put together, are the number that it writes.
proof fn lemma_halves_value(d: Seq<u8>)
    requires
        d.len() == 32,
    ensures
        upper_half(d) * pow2(128) + lower_half(d) == be_val(d),
{
    lemma_be_val_concat(d.subrange(0, 16), d.subrange(16, 32));
    assert(d.subrange(0, 16) + d.subrange(16, 32) =~= d);
}

/// The state vector: the index, then the root, then the frontier from the leaves up,
/// each digest as two numbers that are the upper and the lower half of the number
/// that it writes.
pub proof fn lemma_state_layout(index: nat, root: Seq<u8>, frontier: Seq<Seq<u8>>, j: int)
    requires
        root.len() == 32,
        all_digests(frontier),
        0 <= j < frontier.len(),
    ensures
        encode_state(index, root, frontier)[0] == index,
        encode_state(index, root, frontier)[1] * pow2(128) + encode_state(index, root, frontier)[2]
            == be_val(root),
        encode_state(index, root, frontier)[3 + 2 * j] * pow2(128) + encode_state(
            index,
            root,
            frontier,
        )[4 + 2 * j] == be_val(frontier[j]),
{
    assert((3 + 2 * j - 3) / 2 == j && (4 + 2 * j - 3) / 2 == j);
    assert((3 + 2 * j) % 2 == 1 && (4 + 2 * j) % 2 == 0);
    lemma_halves_value(root);
    assert(frontier[j].len() == 32);
    lemma_halves_value(frontier[j]);
}

/// A tree with room can be appended to: its state is one that the circuit decomposes,
/// and a step leads from it to the state of the tree with one more leaf.
pub proof fn lemma_tree_can_be_extended(depth: nat, leaves: Seq<Seq<u8>>, leaf: Seq<u8>)
    requires
        all_digests(leaves),
        leaf.len() == 32,
        leaves.len() < pow2(depth),
    ensures
        decomposable(depth, tree_state(depth, leaves)),
        append_step(
            depth,
            tree_state(depth, leaves),
            tree_state(depth, leaves.push(leaf)),
            frontier_of(depth, leaves),
            leaf,
        ),
{
    let front = frontier_of(depth, leaves);
    let state = tree_state(depth, leaves);
    lemma_append_is_full_tree(depth, leaves, leaf);
    assert forall|j: int| 0 <= j < depth implies ({
        let node = #[trigger] front[j];
        node.len() == 32 && state[3 + 2 * j] == upper_half(node) && state[4 + 2 * j] == lower_half(
            node,
        )
    }) by {
        lemma_node_len(leaves, j as nat, frontier_pos(j as nat, leaves.len()));
        assert((3 + 2 * j - 3) / 2 == j && (4 + 2 * j - 3) / 2 == j);
        assert((3 + 2 * j) % 2 == 1 && (4 + 2 * j) % 2 == 0);
    }
    assert forall|i: int| 3 <= i < 3 + 2 * depth implies #[trigger] state[i] < pow2(128) by {
        let j = (i - 3) / 2;
        assert(front[j].len() == 32);
        lemma_be_val_bound(front[j].subrange(0, 16));
        lemma_be_val_bound(front[j].subrange(16, 32));
        assert(i == 3 + 2 * j || i == 4 + 2 * j);
    }
}

/// An append circuit lets nothing through but an append: whatever satisfies it takes
/// the state of a tree to the state of the tree with one more leaf, the one in its
/// slots.
pub proof fn lemma_append_circuit_is_sound(
    c: Circuit,
    depth: nat,
    w: Assignment,
    leaves: Seq<Seq<u8>>,
)
    requires
        is_append_circuit(c, depth),
        c.holds(w),
        c.fits(w),
        all_digests(leaves),
        w.nums.take((3 + 2 * depth) as int) == tree_state(depth, leaves),
    ensures
        leaves.len() < pow2(depth),
        c.state_out(w) == tree_state(depth, leaves.push(stored_leaf(depth, w))),
{
    lemma_step_extends_tree(
        depth,
        leaves,
        c.state_out(w),
        stored_frontier(depth, w),
        stored_leaf(depth, w),
    );
}

/// An append circuit can be met: for the state of a tree with room, values filled in
/// as its hints say satisfy it, and append the leaf in the advice.
pub proof fn lemma_append_circuit_is_complete(
    c: Circuit,
    depth: nat,
    w: Assignment,
    leaves: Seq<Seq<u8>>,
)
    requires
        is_append_circuit(c, depth),
        c.followed(w),
        c.fits(w),
        w.advice.len() == 256,
        all_digests(leaves),
        leaves.len() < pow2(depth),
        w.nums.take((3 + 2 * depth) as int) == tree_state(depth, leaves),
    ensures
        c.holds(w),
        c.state_out(w) == tree_state(depth, leaves.push(bytes_of_bits(w.advice))),
{
    let state = tree_state(depth, leaves);
    lemma_tree_can_be_extended(depth, leaves, Seq::new(32, |i: int| 0u8));
    assert(c.n_inputs <= c.n_nums) by {
        reveal(Circuit::wf);
    }
    let head = w.nums.take((3 + 2 * depth) as int);
    assert(head[0] == w.nums[0]);
    assert forall|i: int| 3 <= i < 3 + 2 * depth implies #[trigger] w.nums[i] < pow2(128) by {
        assert(head[i] == w.nums[i]);
        assert(state[i] < pow2(128));
    }
    assert(decomposable(depth, w.nums));
    lemma_append_circuit_is_sound(c, depth, w, leaves);
}

} // verus!
