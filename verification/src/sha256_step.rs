//! Step circuits that hash their incoming elements, one byte per element.

use crate::bits::{bits_val, bytes_of_bits, lemma_bits_val_bound};
use crate::chain::lemma_byte_elements_injective;
use crate::hash::sha256_of;
use crate::r1cs::{lc_val, lemma_grew_trans, lemma_lits_are_bool, lits_are_bool, lits_bits, lits_in,
    num_terms, packing_terms, terms_in, Assignment, Circuit, Lit, Term};
use crate::solver::{lemma_no_overflow, overflows};
use vstd::arithmetic::div_mod::lemma_small_mod;
use vstd::arithmetic::power2::{lemma2_to64, lemma_pow2_strictly_increases, pow2};
use vstd::prelude::*;
use vstd::slice::slice_subrange;

verus! {

/// Field elements that hold one byte each.
pub open spec fn byte_elements(bytes: Seq<u8>) -> Seq<int> {
    bytes.map_values(|b: u8| b as int)
}

/// The outgoing elements are the digest of the bytes that the incoming
/// elements hold.
pub open spec fn hashes(z_in: Seq<int>, z_out: Seq<int>) -> bool {
    exists|m: Seq<u8>| #[trigger]
        byte_elements(m) == z_in && z_out == byte_elements(sha256_of(m)) && z_out.len() == 32
}

/// Each of the first `n` elements is recomposed from its eight bits.
spec fn recomposed(message: Seq<Lit>, n: int, w: Assignment) -> bool {
    forall|k: int|
        0 <= k < n ==> #[trigger] w.nums[k] == bits_val(
            lits_bits(message.subrange(8 * k, 8 * k + 8), w),
        )
}

/// Elements that are recomposed from bits hold the bytes that the bits write.
proof fn lemma_recomposed(message: Seq<Lit>, n: int, w: Assignment)
    requires
        message.len() == 8 * n,
        0 <= n <= w.nums.len(),
        recomposed(message, n, w),
    ensures
        w.nums.take(n) == byte_elements(bytes_of_bits(lits_bits(message, w))),
{
    let row = lits_bits(message, w);
    assert forall|k: int| 0 <= k < n implies w.nums[k] == bytes_of_bits(row)[k] by {
        let part = lits_bits(message.subrange(8 * k, 8 * k + 8), w);
        assert(row.subrange(8 * k, 8 * k + 8) =~= part);
        lemma_bits_val_bound(part);
        lemma2_to64();
    }
    assert(w.nums.take(n) =~= byte_elements(bytes_of_bits(row)));
}

/// Decomposes every incoming element into a byte and hashes the bytes.
/// `lsb_first` is the order in which a byte's bits are allocated.
fn hash_inputs(c: &mut Circuit, lsb_first: bool) -> (digest: Vec<Lit>)
    requires
        old(c).wf(),
        old(c).n_bits + 8 * old(c).n_inputs + 256 <= usize::MAX,
    ensures
        final(c).wf(),
        final(c).grew_from(*old(c)),
        final(c).n_bits == old(c).n_bits + 8 * old(c).n_inputs + 256,
        final(c).n_nums == old(c).n_nums,
        digest@.len() == 256,
        lits_in(digest@, final(c).n_bits as nat),
        forall|w: Assignment| #[trigger]
            final(c).holds(w) && final(c).fits(w) ==> exists|m: Seq<u8>| #[trigger]
                byte_elements(m) == w.nums.take(old(c).n_inputs as int) && bytes_of_bits(
                    lits_bits(digest@, w),
                ) == sha256_of(m),
        forall|w: Assignment| #[trigger]
            final(c).followed(w) && old(c).holds(w) && final(c).fits(w) && (forall|k: int|
                0 <= k < old(c).n_inputs ==> 0 <= #[trigger] w.nums[k] < 256) ==> final(c).holds(w),
{
    let ghost before = *c;
    assert(before.n_inputs <= before.n_nums) by {
        reveal(Circuit::wf);
    }
    let n = c.n_inputs;
    let mut message: Vec<Lit> = Vec::with_capacity(8 * n);
    for i in 0..n
        invariant
            c.wf(),
            c.grew_from(before),
            n == before.n_inputs,
            before.n_inputs <= before.n_nums,
            before.n_bits + 8 * n + 256 <= usize::MAX,
            c.n_bits == before.n_bits + 8 * i,
            c.n_nums == before.n_nums,
            message@.len() == 8 * i,
            lits_in(message@, c.n_bits as nat),
            forall|w: Assignment| #[trigger]
                c.holds(w) && c.fits(w) ==> recomposed(message@, i as int, w),
            forall|w: Assignment| #[trigger]
                c.followed(w) && before.holds(w) && c.fits(w) && (forall|k: int|
                    0 <= k < n ==> 0 <= #[trigger] w.nums[k] < 256) ==> c.holds(w),
    {
        let ghost middle = *c;
        let ghost head = message@;
        let mut byte = c.unpack(i, 8, lsb_first);
        let ghost added = byte@;
        message.append(&mut byte);
        proof {
            lemma2_to64();
            lemma_grew_trans(before, middle, *c);
            assert(message@ == head + added);
            assert forall|w: Assignment| #[trigger] c.holds(w) && c.fits(w) implies recomposed(
                message@,
                i + 1,
                w,
            ) by {
                assert(middle.holds(w) && middle.fits(w));
                assert forall|k: int| 0 <= k < i + 1 implies #[trigger] w.nums[k] == bits_val(
                    lits_bits(message@.subrange(8 * k, 8 * k + 8), w),
                ) by {
                    if k < i {
                        assert(message@.subrange(8 * k, 8 * k + 8) =~= head.subrange(
                            8 * k,
                            8 * k + 8,
                        ));
                    } else {
                        assert(message@.subrange(8 * k, 8 * k + 8) =~= added);
                    }
                }
            }
        }
    }
    let ghost middle = *c;
    let ghost row = message@;
    let digest = c.sha256(message);
    proof {
        lemma_grew_trans(before, middle, *c);
        assert forall|w: Assignment| #[trigger] c.holds(w) && c.fits(w) implies exists|m: Seq<u8>|
            #[trigger] byte_elements(m) == w.nums.take(n as int) && bytes_of_bits(
                lits_bits(digest@, w),
            ) == sha256_of(m) by {
            assert(middle.holds(w) && middle.fits(w));
            lemma_recomposed(row, n as int, w);
            assert(byte_elements(bytes_of_bits(lits_bits(row, w))) == w.nums.take(n as int));
        }
    }
    digest
}

/// The circuit takes `n` elements to the digest of their bytes: whatever
/// satisfies it has bytes in its incoming elements and their digest in the
/// outgoing ones, and incoming bytes have honest values, which satisfy it.
pub open spec fn is_hash_circuit(c: Circuit, n: nat) -> bool {
    &&& c.wf()
    &&& c.n_inputs == n
    &&& c.n_advice == 0
    &&& c.outputs@.len() == 32
    &&& forall|w: Assignment| #[trigger]
        c.holds(w) && c.fits(w) ==> hashes(w.nums.take(n as int), c.state_out(w))
    &&& forall|w: Assignment| #[trigger]
        c.followed(w) && c.fits(w) && (forall|k: int|
            0 <= k < n ==> 0 <= #[trigger] w.nums[k] < 256) ==> c.holds(w)
    &&& forall|inputs: Seq<u128>|
        inputs.len() == n && (forall|k: int| 0 <= k < n ==> #[trigger] inputs[k] < 256)
            ==> !#[trigger] overflows(c, inputs)
}

/// Element values that are recomposed from the digest bits are the digest.
proof fn lemma_digest_out(c: Circuit, digest: Seq<Lit>, w: Assignment, m: Seq<u8>)
    requires
        c.outputs@.len() == 32,
        digest.len() == 256,
        pow2(128) < w.modulus,
        bytes_of_bits(lits_bits(digest, w)) == sha256_of(m),
        forall|i: int|
            0 <= i < 32 ==> lc_val(#[trigger] c.outputs@[i]@, w) == bits_val(
                lits_bits(digest.subrange(8 * i, 8 * i + 8), w),
            ),
    ensures
        c.state_out(w) == byte_elements(sha256_of(m)),
{
    let row = lits_bits(digest, w);
    lemma2_to64();
    lemma_pow2_strictly_increases(8, 128);
    assert forall|i: int| 0 <= i < 32 implies #[trigger] c.state_out(w)[i] == sha256_of(m)[i] by {
        let part = lits_bits(digest.subrange(8 * i, 8 * i + 8), w);
        assert(row.subrange(8 * i, 8 * i + 8) =~= part);
        lemma_bits_val_bound(part);
        assert(lc_val(c.outputs@[i]@, w) == bits_val(part));
        lemma_small_mod(bits_val(part), w.modulus as nat);
    }
    assert(c.state_out(w) =~= byte_elements(sha256_of(m)));
}

/// A hashing circuit over `n` elements whose digest is packed into newly
/// allocated elements.
pub fn allocated_hash_circuit(n: usize) -> (c: Circuit)
    requires
        8 * n + 256 <= usize::MAX,
    ensures
        is_hash_circuit(c, n as nat),
{
    let mut c = Circuit::new(n, 0);
    let digest = hash_inputs(&mut c, false);
    let ghost hashed = c;
    let mut outputs: Vec<Vec<Term>> = Vec::with_capacity(32);
    for i in 0..32usize
        invariant
            c.wf(),
            c.grew_from(hashed),
            n + 32 <= usize::MAX,
            hashed.n_nums == n,
            c.n_nums == n + i,
            c.n_bits == hashed.n_bits,
            digest@.len() == 256,
            lits_in(digest@, hashed.n_bits as nat),
            outputs@.len() == i,
            forall|k: int|
                0 <= k < i ==> terms_in((#[trigger] outputs@[k])@, c.n_bits as nat, c.n_nums as nat),
            forall|w: Assignment, k: int|
                0 <= k < i && #[trigger] c.holds(w) && c.fits(w) ==> lc_val(
                    #[trigger] outputs@[k]@,
                    w,
                ) == bits_val(lits_bits(digest@.subrange(8 * k, 8 * k + 8), w)),
            forall|w: Assignment| #[trigger]
                c.followed(w) && hashed.holds(w) && c.fits(w) ==> c.holds(w),
    {
        let ghost middle = c;
        let ghost before = outputs@;
        let byte = slice_subrange(digest.as_slice(), 8 * i, 8 * i + 8);
        let num = c.pack(byte);
        outputs.push(num_terms(num));
        proof {
            lemma_grew_trans(hashed, middle, c);
            assert forall|k: int| 0 <= k < i + 1 implies terms_in(
                (#[trigger] outputs@[k])@,
                c.n_bits as nat,
                c.n_nums as nat,
            ) by {
                if k < i {
                    assert(terms_in(before[k]@, middle.n_bits as nat, middle.n_nums as nat));
                }
            }
        }
    }
    let ghost packed = c;
    c.set_outputs(outputs);
    proof {
        assert forall|w: Assignment| #[trigger] c.holds(w) && c.fits(w) implies hashes(
            w.nums.take(n as int),
            c.state_out(w),
        ) by {
            assert(packed.holds(w) && packed.fits(w));
            assert(hashed.holds(w) && hashed.fits(w));
            let m = choose|m: Seq<u8>| #[trigger]
                byte_elements(m) == w.nums.take(n as int) && bytes_of_bits(lits_bits(digest@, w))
                    == sha256_of(m);
            lemma_digest_out(c, digest@, w, m);
            assert(byte_elements(m) == w.nums.take(n as int));
        }
        assert forall|w: Assignment| #[trigger]
            c.followed(w) && c.fits(w) && (forall|k: int|
                0 <= k < n ==> 0 <= #[trigger] w.nums[k] < 256) implies c.holds(w) by {
            assert(packed.followed(w) && packed.fits(w));
            assert(hashed.followed(w) && hashed.fits(w));
        }
        assert forall|inputs: Seq<u128>|
            inputs.len() == n && (forall|k: int| 0 <= k < n ==> #[trigger] inputs[k]
                < 256) implies !#[trigger] overflows(c, inputs) by {
            lemma_no_overflow(c, inputs);
        }
    }
    c
}

/// A hashing circuit over `n` elements whose outgoing elements are linear
/// combinations of the digest bits.
pub fn linear_hash_circuit(n: usize) -> (c: Circuit)
    requires
        8 * n + 256 <= usize::MAX,
    ensures
        is_hash_circuit(c, n as nat),
{
    let mut c = Circuit::new(n, 0);
    let digest = hash_inputs(&mut c, true);
    let ghost hashed = c;
    let mut outputs: Vec<Vec<Term>> = Vec::with_capacity(32);
    for i in 0..32usize
        invariant
            digest@.len() == 256,
            lits_in(digest@, hashed.n_bits as nat),
            outputs@.len() == i,
            forall|k: int|
                0 <= k < i ==> terms_in(
                    (#[trigger] outputs@[k])@,
                    hashed.n_bits as nat,
                    hashed.n_nums as nat,
                ),
            forall|w: Assignment, k: int|
                #![trigger lc_val(outputs@[k]@, w)]
                0 <= k < i && lits_are_bool(digest@, w) ==> lc_val(outputs@[k]@, w) == bits_val(
                    lits_bits(digest@.subrange(8 * k, 8 * k + 8), w),
                ),
    {
        let ghost before = outputs@;
        let byte = slice_subrange(digest.as_slice(), 8 * i, 8 * i + 8);
        outputs.push(packing_terms(byte));
        proof {
            assert(lits_in(byte@, hashed.n_bits as nat));
            assert forall|k: int| 0 <= k < i + 1 implies terms_in(
                (#[trigger] outputs@[k])@,
                hashed.n_bits as nat,
                hashed.n_nums as nat,
            ) by {
                if k < i {
                    assert(terms_in(before[k]@, hashed.n_bits as nat, hashed.n_nums as nat));
                }
            }
            assert forall|w: Assignment, k: int|
                #![trigger lc_val(outputs@[k]@, w)]
                0 <= k < i + 1 && lits_are_bool(digest@, w) implies lc_val(outputs@[k]@, w)
                == bits_val(lits_bits(digest@.subrange(8 * k, 8 * k + 8), w)) by {
                if k < i {
                    assert(outputs@[k] == before[k]);
                    assert(lc_val(before[k]@, w) == bits_val(
                        lits_bits(digest@.subrange(8 * k, 8 * k + 8), w),
                    ));
                } else {
                    assert(lits_are_bool(byte@, w)) by {
                        assert forall|j: int| 0 <= j < 8 implies crate::r1cs::lit_is_bool(
                            #[trigger] byte@[j],
                            w,
                        ) by {
                            assert(byte@[j] == digest@[8 * i + j]);
                        }
                    }
                }
            }
        }
    }
    c.set_outputs(outputs);
    proof {
        assert forall|w: Assignment| #[trigger] c.holds(w) && c.fits(w) implies hashes(
            w.nums.take(n as int),
            c.state_out(w),
        ) by {
            assert(hashed.holds(w) && hashed.fits(w));
            lemma_lits_are_bool(hashed, w, digest@);
            let m = choose|m: Seq<u8>| #[trigger]
                byte_elements(m) == w.nums.take(n as int) && bytes_of_bits(lits_bits(digest@, w))
                    == sha256_of(m);
            lemma_digest_out(c, digest@, w, m);
            assert(byte_elements(m) == w.nums.take(n as int));
        }
        assert forall|w: Assignment| #[trigger]
            c.followed(w) && c.fits(w) && (forall|k: int|
                0 <= k < n ==> 0 <= #[trigger] w.nums[k] < 256) implies c.holds(w) by {
            assert(hashed.followed(w) && hashed.fits(w));
        }
        assert forall|inputs: Seq<u128>|
            inputs.len() == n && (forall|k: int| 0 <= k < n ==> #[trigger] inputs[k]
                < 256) implies !#[trigger] overflows(c, inputs) by {
            lemma_no_overflow(c, inputs);
        }
    }
    c
}

/// A hash circuit lets nothing through but the digest: whatever satisfies it takes
/// elements that hold the bytes `m` to elements that hold their digest.
pub proof fn lemma_hash_circuit_is_sound(c: Circuit, n: nat, w: Assignment, m: Seq<u8>)
    requires
        is_hash_circuit(c, n),
        c.holds(w),
        c.fits(w),
        w.nums.take(n as int) == m.map_values(|b: u8| b as int),
    ensures
        c.state_out(w) == sha256_of(m).map_values(|b: u8| b as int),
{
    let z_in = w.nums.take(n as int);
    assert(hashes(z_in, c.state_out(w)));
    let other = choose|other: Seq<u8>| #[trigger]
        byte_elements(other) == z_in && c.state_out(w) == byte_elements(sha256_of(other))
            && c.state_out(w).len() == 32;
    lemma_byte_elements_injective(other, m);
}

/// A hash circuit can be met: values filled in as its hints say satisfy it, for all
/// incoming bytes.
pub proof fn lemma_hash_circuit_is_complete(c: Circuit, n: nat, w: Assignment)
    requires
        is_hash_circuit(c, n),
        c.followed(w),
        c.fits(w),
        forall|k: int| 0 <= k < n ==> 0 <= #[trigger] w.nums[k] < 256,
    ensures
        c.holds(w),
{
}

} // verus!
