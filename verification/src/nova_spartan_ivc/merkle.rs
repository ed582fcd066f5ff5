//! Append-only SHA-256 Merkle tree of fixed depth.
//!
//! The tree keeps, per level, the root of the most recent left-hand subtree
//! (the frontier). Appending the leaf with index `i` walks the levels once: at
//! level `j`, bit `j` of `i` says whether the running hash is a right child,
//! whose sibling is the frontier node, or a left child, whose sibling is still
//! the all-zero subtree.

use crate::bits::{be_val, be_value, digit, le_bytes, le_val, lemma_le_round_trip, push_le_bytes};
use crate::hash::{digest_views, h2, sha256_native, sha256_of, zero_digest};
use vstd::arithmetic::div_mod::{lemma_div_denominator, lemma_fundamental_div_mod};
use vstd::arithmetic::power2::{lemma2_to64, lemma2_to64_rest, lemma_pow2_pos, lemma_pow2_unfold,
    pow2};
use vstd::prelude::*;
use vstd::slice::slice_subrange;

pub use crate::nova_spartan_ivc::append_circuit::MerkleAppendCircuit;
pub use crate::nova_spartan_ivc::merkle_run::{run_merkle_ivc, MerkleIvcOutput};

verus! {

/// Root of the subtree of height `height` whose leaves are all zero.
pub open spec fn zero_root(height: nat) -> Seq<u8>
    decreases height,
{
    if height == 0 {
        zero_digest()
    } else {
        sha256_of(zero_root((height - 1) as nat) + zero_root((height - 1) as nat))
    }
}

/// Root of the `pos`-th subtree of height `height` of the full binary tree
/// over `leaves`, continued by zero leaves.
pub open spec fn node(leaves: Seq<Seq<u8>>, height: nat, pos: nat) -> Seq<u8>
    decreases height,
{
    if height == 0 {
        if pos < leaves.len() {
            leaves[pos as int]
        } else {
            zero_digest()
        }
    } else {
        sha256_of(
            node(leaves, (height - 1) as nat, 2 * pos) + node(
                leaves,
                (height - 1) as nat,
                2 * pos + 1,
            ),
        )
    }
}

/// Root of the full binary tree of the given depth over `leaves`, padded with
/// zero leaves.
pub open spec fn full_root(depth: nat, leaves: Seq<Seq<u8>>) -> Seq<u8> {
    node(leaves, depth, 0)
}

/// Every leaf is a digest.
pub open spec fn all_digests(leaves: Seq<Seq<u8>>) -> bool {
    forall|i: int| 0 <= i < leaves.len() ==> (#[trigger] leaves[i]).len() == 32
}

/// Position of the left-hand subtree of height `height` that an append of the
/// `count`-th leaf (counted from one) last touched or completed.
pub open spec fn frontier_pos(height: nat, count: nat) -> nat {
    if count == 0 {
        0
    } else {
        let at = (count - 1) as nat / pow2(height);
        (at - at % 2) as nat
    }
}

/// Frontier of a tree of the given depth after `leaves` were appended.
pub open spec fn frontier_of(depth: nat, leaves: Seq<Seq<u8>>) -> Seq<Seq<u8>> {
    Seq::new(depth, |j: int| node(leaves, j as nat, frontier_pos(j as nat, leaves.len())))
}

/// Hash that an append carries into level `j`, from the frontier before it,
/// the leaf and its index.
pub open spec fn running(frontier: Seq<Seq<u8>>, leaf: Seq<u8>, index: nat, j: nat) -> Seq<u8>
    decreases j,
{
    if j == 0 {
        leaf
    } else {
        let below = running(frontier, leaf, index, (j - 1) as nat);
        if digit(index, (j - 1) as nat) {
            sha256_of(frontier[j - 1] + below)
        } else {
            sha256_of(below + zero_root((j - 1) as nat))
        }
    }
}

/// Frontier after an append: the nodes at even positions are refreshed.
pub open spec fn refreshed(frontier: Seq<Seq<u8>>, leaf: Seq<u8>, index: nat) -> Seq<Seq<u8>> {
    Seq::new(
        frontier.len(),
        |j: int|
            if digit(index, j as nat) {
                frontier[j]
            } else {
                running(frontier, leaf, index, j as nat)
            },
    )
}

/// Upper half of a digest as a number.
pub open spec fn upper_half(d: Seq<u8>) -> int {
    be_val(d.subrange(0, 16)) as int
}

/// Lower half of a digest as a number.
pub open spec fn lower_half(d: Seq<u8>) -> int {
    be_val(d.subrange(16, 32)) as int
}

/// State vector of the append circuit: the index, the root and the frontier,
/// each digest as two 128-bit numbers.
pub open spec fn encode_state(index: nat, root: Seq<u8>, frontier: Seq<Seq<u8>>) -> Seq<int> {
    Seq::new(
        3 + 2 * frontier.len(),
        |i: int|
            if i == 0 {
                index as int
            } else if i == 1 {
                upper_half(root)
            } else if i == 2 {
                lower_half(root)
            } else if i % 2 == 1 {
                upper_half(frontier[(i - 3) / 2])
            } else {
                lower_half(frontier[(i - 3) / 2])
            },
    )
}

/// An append walks up exactly the nodes of the full tree: started on the
/// frontier of `leaves`, the hash carried into level `j` is the node above the
/// new leaf, and the refreshed frontier is that of the longer sequence.
pub proof fn lemma_running_is_node(depth: nat, leaves: Seq<Seq<u8>>, leaf: Seq<u8>, j: nat)
    requires
        j <= depth,
    ensures
        running(frontier_of(depth, leaves), leaf, leaves.len(), j) == node(
            leaves.push(leaf),
            j,
            leaves.len() / pow2(j),
        ),
        j < depth ==> refreshed(frontier_of(depth, leaves), leaf, leaves.len())[j as int]
            == frontier_of(depth, leaves.push(leaf))[j as int],
    decreases j,
{
    let front = frontier_of(depth, leaves);
    let n = leaves.len();
    lemma2_to64();
    if j == 0 {
        assert(n / pow2(0) == n) by (nonlinear_arith)
            requires
                pow2(0) == 1,
        ;
    } else {
        lemma_running_is_node(depth, leaves, leaf, (j - 1) as nat);
        lemma_append_level(leaves, leaf, (j - 1) as nat);
    }
    lemma_append_level(leaves, leaf, j);
}

/// Appending a leaf to a tree with room, by way of the frontier alone, gives
/// the root and the frontier of the full tree over the longer sequence.
pub proof fn lemma_append_is_full_tree(depth: nat, leaves: Seq<Seq<u8>>, leaf: Seq<u8>)
    requires
        leaves.len() < pow2(depth),
    ensures
        running(frontier_of(depth, leaves), leaf, leaves.len(), depth) == full_root(
            depth,
            leaves.push(leaf),
        ),
        refreshed(frontier_of(depth, leaves), leaf, leaves.len()) == frontier_of(
            depth,
            leaves.push(leaf),
        ),
{
    lemma_running_is_node(depth, leaves, leaf, depth);
    assert(leaves.len() / pow2(depth) == 0) by (nonlinear_arith)
        requires
            leaves.len() < pow2(depth),
    ;
    assert forall|j: int| 0 <= j < depth implies refreshed(
        frontier_of(depth, leaves),
        leaf,
        leaves.len(),
    )[j] == frontier_of(depth, leaves.push(leaf))[j] by {
        lemma_running_is_node(depth, leaves, leaf, j as nat);
    }
    assert(refreshed(frontier_of(depth, leaves), leaf, leaves.len()) =~= frontier_of(
        depth,
        leaves.push(leaf),
    ));
}

/// A subtree that starts past the last leaf is the all-zero subtree.
pub proof fn lemma_empty_subtree(leaves: Seq<Seq<u8>>, height: nat, pos: nat)
    requires
        leaves.len() <= pos * pow2(height),
    ensures
        node(leaves, height, pos) == zero_root(height),
    decreases height,
{
    lemma2_to64();
    if height == 0 {
        assert(pos * pow2(0) == pos) by (nonlinear_arith)
            requires
                pow2(0) == 1,
        ;
    } else {
        let h = (height - 1) as nat;
        lemma_pow2_unfold(height);
        assert((2 * pos) * pow2(h) == pos * pow2(height)) by (nonlinear_arith)
            requires
                pow2(height) == 2 * pow2(h),
        ;
        lemma_pow2_pos(h);
        assert((2 * pos + 1) * pow2(h) >= (2 * pos) * pow2(h)) by (nonlinear_arith)
            requires
                pow2(h) > 0,
        ;
        lemma_empty_subtree(leaves, h, 2 * pos);
        lemma_empty_subtree(leaves, h, 2 * pos + 1);
    }
}

/// Appending a leaf changes no subtree that lies wholly before it.
pub proof fn lemma_complete_subtree(leaves: Seq<Seq<u8>>, leaf: Seq<u8>, height: nat, pos: nat)
    requires
        (pos + 1) * pow2(height) <= leaves.len(),
    ensures
        node(leaves.push(leaf), height, pos) == node(leaves, height, pos),
    decreases height,
{
    lemma2_to64();
    if height == 0 {
        assert((pos + 1) * pow2(0) == pos + 1) by (nonlinear_arith)
            requires
                pow2(0) == 1,
        ;
    } else {
        let h = (height - 1) as nat;
        lemma_pow2_unfold(height);
        lemma_pow2_pos(h);
        assert((2 * pos + 1 + 1) * pow2(h) == (pos + 1) * pow2(height)) by (nonlinear_arith)
            requires
                pow2(height) == 2 * pow2(h),
        ;
        assert((2 * pos + 1) * pow2(h) <= (2 * pos + 1 + 1) * pow2(h)) by (nonlinear_arith)
            requires
                pow2(h) > 0,
        ;
        lemma_complete_subtree(leaves, leaf, h, 2 * pos);
        lemma_complete_subtree(leaves, leaf, h, 2 * pos + 1);
    }
}

/// A node depends only on the leaves under it: it is the node in the same place
/// of the tree over the leaves from any multiple of its span on.
proof fn lemma_node_shift(leaves: Seq<Seq<u8>>, height: nat, pos: nat, from: nat)
    requires
        from * pow2(height) <= leaves.len(),
    ensures
        node(leaves, height, from + pos) == node(
            leaves.skip((from * pow2(height)) as int),
            height,
            pos,
        ),
    decreases height,
{
    lemma2_to64();
    let start = from * pow2(height);
    if height == 0 {
        assert(from * pow2(0) == from) by (nonlinear_arith)
            requires
                pow2(0) == 1,
        ;
    } else {
        let h = (height - 1) as nat;
        lemma_pow2_unfold(height);
        assert((2 * from) * pow2(h) == from * pow2(height)) by (nonlinear_arith)
            requires
                pow2(height) == 2 * pow2(h),
        ;
        lemma_node_shift(leaves, h, 2 * pos, 2 * from);
        lemma_node_shift(leaves, h, 2 * pos + 1, 2 * from);
        assert(2 * (from + pos) == 2 * from + 2 * pos);
        assert(2 * (from + pos) + 1 == 2 * from + (2 * pos + 1));
    }
}

/// Leaves past the span of a node do not count for it.
proof fn lemma_node_take(leaves: Seq<Seq<u8>>, height: nat, pos: nat, n: nat)
    requires
        (pos + 1) * pow2(height) <= n <= leaves.len(),
    ensures
        node(leaves, height, pos) == node(leaves.take(n as int), height, pos),
    decreases height,
{
    lemma2_to64();
    if height == 0 {
        assert((pos + 1) * pow2(0) == pos + 1) by (nonlinear_arith)
            requires
                pow2(0) == 1,
        ;
    } else {
        let h = (height - 1) as nat;
        lemma_pow2_unfold(height);
        lemma_pow2_pos(h);
        assert((2 * pos + 1 + 1) * pow2(h) == (pos + 1) * pow2(height)) by (nonlinear_arith)
            requires
                pow2(height) == 2 * pow2(h),
        ;
        assert((2 * pos + 1) * pow2(h) <= (2 * pos + 1 + 1) * pow2(h)) by (nonlinear_arith)
            requires
                pow2(h) > 0,
        ;
        lemma_node_take(leaves, h, 2 * pos, n);
        lemma_node_take(leaves, h, 2 * pos + 1, n);
    }
}

/// The tree from the top down: a tree without levels is its leaf, or 32 zero
/// bytes; a deeper one hashes the roots of its two halves, the first half of the
/// leaves on the left, and a half without leaves is the empty tree.
pub proof fn lemma_tree_halves(depth: nat, leaves: Seq<Seq<u8>>)
    ensures
        leaves.len() == 0 ==> full_root(0, leaves) == Seq::new(32, |i: int| 0u8),
        leaves.len() > 0 ==> full_root(0, leaves) == leaves[0],
        leaves.len() >= pow2(depth) ==> full_root(depth + 1, leaves) == sha256_of(
            full_root(depth, leaves.take(pow2(depth) as int)) + full_root(
                depth,
                leaves.skip(pow2(depth) as int),
            ),
        ),
        leaves.len() <= pow2(depth) ==> full_root(depth + 1, leaves) == sha256_of(
            full_root(depth, leaves) + full_root(depth, Seq::empty()),
        ),
{
    assert(full_root(depth + 1, leaves) == sha256_of(
        node(leaves, depth, 0) + node(leaves, depth, 1),
    ));
    assert(1 * pow2(depth) == pow2(depth) && 0 * pow2(depth) == 0 && (0 + 1) * pow2(depth) == pow2(
        depth,
    )) by (nonlinear_arith);
    if leaves.len() >= pow2(depth) {
        lemma_node_take(leaves, depth, 0, pow2(depth));
        lemma_node_shift(leaves, depth, 0, 1);
    }
    if leaves.len() <= pow2(depth) {
        lemma_empty_subtree(leaves, depth, 1);
        lemma_empty_subtree(Seq::empty(), depth, 0);
    }
}

/// Roots of the all-zero subtrees, one per height: the first is the empty leaf,
/// the last the root of the empty tree of depth `depth`.
pub fn zero_subtree_roots(depth: usize) -> (zeros: Vec<[u8; 32]>)
    requires
        depth < usize::MAX,
    ensures
        zeros@.len() == depth + 1,
        forall|j: int| 0 <= j <= depth ==> (#[trigger] zeros@[j])@ == zero_root(j as nat),
{
    let mut zeros: Vec<[u8; 32]> = Vec::with_capacity(depth + 1);
    let empty: [u8; 32] = [0u8; 32];
    assert(empty@ =~= zero_digest());
    zeros.push(empty);
    for j in 1..depth + 1
        invariant
            depth < usize::MAX,
            zeros@.len() == j,
            forall|k: int| 0 <= k < j ==> (#[trigger] zeros@[k])@ == zero_root(k as nat),
    {
        let prev = zeros[j - 1];
        zeros.push(h2(&prev, &prev));
    }
    zeros
}

/// Append-only Merkle tree of fixed depth that keeps only its frontier. Its
/// view is the sequence of the leaves appended so far.
pub struct IncrementalMerkleTree {
    depth: usize,
    zeros: Vec<[u8; 32]>,
    frontier: Vec<[u8; 32]>,
    index: u64,
    root: [u8; 32],
    leaves: Ghost<Seq<Seq<u8>>>,
}

impl View for IncrementalMerkleTree {
    type V = Seq<Seq<u8>>;

    closed spec fn view(&self) -> Seq<Seq<u8>> {
        self.leaves@
    }
}

impl IncrementalMerkleTree {
    /// Number of levels above the leaves.
    pub closed spec fn depth(self) -> nat {
        self.depth as nat
    }

    /// The stored nodes are those of the full tree over the appended leaves.
    pub closed spec fn wf(self) -> bool {
        &&& 1 <= self.depth <= 64
        &&& self.index == self.leaves@.len()
        &&& self.depth < 64 ==> self.index <= pow2(self.depth as nat)
        &&& all_digests(self.leaves@)
        &&& self.zeros@.len() == self.depth + 1
        &&& forall|j: int|
            0 <= j <= self.depth ==> (#[trigger] self.zeros@[j])@ == zero_root(j as nat)
        &&& digest_views(self.frontier@) == frontier_of(self.depth as nat, self.leaves@)
        &&& self.root@ == full_root(self.depth as nat, self.leaves@)
    }

    /// The empty tree of the given depth.
    pub fn new(depth: usize) -> (tree: Self)
        requires
            1 <= depth <= 64,
        ensures
            tree.wf(),
            tree.depth() == depth,
            tree@ == Seq::<Seq<u8>>::empty(),
    {
        let zeros = zero_subtree_roots(depth);
        let mut frontier: Vec<[u8; 32]> = Vec::with_capacity(depth);
        let ghost leaves = Seq::<Seq<u8>>::empty();
        for j in 0..depth
            invariant
                1 <= depth <= 64,
                zeros@.len() == depth + 1,
                frontier@ == zeros@.subrange(0, j as int),
        {
            frontier.push(zeros[j]);
            assert(frontier@ =~= zeros@.subrange(0, j + 1));
        }
        let root = zeros[depth];
        proof {
            lemma_empty_subtree(leaves, depth as nat, 0);
            assert forall|j: int| 0 <= j < depth implies digest_views(frontier@)[j] == frontier_of(
                depth as nat,
                leaves,
            )[j] by {
                lemma_empty_subtree(leaves, j as nat, 0);
                assert(zeros@[j]@ == zero_root(j as nat));
            }
            assert(digest_views(frontier@) =~= frontier_of(depth as nat, leaves));
            lemma_pow2_pos(depth as nat);
        }
        IncrementalMerkleTree { depth, zeros, frontier, index: 0, root, leaves: Ghost(leaves) }
    }

    /// Whether the tree has room for another leaf.
    pub open spec fn has_room(self) -> bool {
        self@.len() < pow2(self.depth()) && self@.len() < u64::MAX
    }

    /// Appends one leaf, refreshing the frontier and the root.
    pub fn append(&mut self, leaf: [u8; 32])
        requires
            old(self).wf(),
            old(self).has_room(),
        ensures
            final(self).wf(),
            final(self).depth() == old(self).depth(),
            final(self)@ == old(self)@.push(leaf@),
    {
        let ghost before = self.leaves@;
        let ghost after = before.push(leaf@);
        let ghost front = digest_views(self.frontier@);
        let mut cur: [u8; 32] = leaf;
        let mut idx: u64 = self.index;
        proof {
            lemma2_to64();
            assert(self.index as nat / pow2(0) == self.index) by (nonlinear_arith)
                requires
                    pow2(0) == 1,
            ;
            assert(front.len() == self.frontier@.len());
            assert(forall|k: int|
                0 <= k < front.len() ==> front[k] == (#[trigger] self.frontier@[k])@);
        }
        let depth = self.depth;
        for j in 0..depth
            invariant
                depth == self.depth,
                1 <= self.depth <= 64,
                self.depth == old(self).depth,
                self.index == old(self).index,
                self.index == before.len(),
                self.index < u64::MAX,
                self.zeros == old(self).zeros,
                self.zeros@.len() == self.depth + 1,
                forall|k: int|
                    0 <= k <= self.depth ==> (#[trigger] self.zeros@[k])@ == zero_root(k as nat),
                after == before.push(leaf@),
                front == frontier_of(self.depth as nat, before),
                self.frontier@.len() == self.depth,
                forall|k: int|
                    0 <= k < j ==> (#[trigger] self.frontier@[k])@ == frontier_of(
                        self.depth as nat,
                        after,
                    )[k],
                forall|k: int| j <= k < self.depth ==> (#[trigger] self.frontier@[k])@ == front[k],
                idx == self.index as nat / pow2(j as nat),
                cur@ == node(after, j as nat, idx as nat),
        {
            proof {
                lemma_append_level(before, leaf@, j as nat);
            }
            let odd = idx & 1 != 0;
            assert((idx & 1 != 0) == (idx % 2 == 1)) by (bit_vector);
            if !odd {
                self.frontier.set(j, cur);
                cur = h2(&cur, &self.zeros[j]);
            } else {
                assert(self.frontier@[j as int]@ == front[j as int]);
                cur = h2(&self.frontier[j], &cur);
            }
            assert(idx >> 1 == idx / 2) by (bit_vector);
            idx = idx >> 1;
        }
        self.root = cur;
        self.index = self.index + 1;
        self.leaves = Ghost(after);
        proof {
            assert(before.len() as nat / pow2(self.depth as nat) == 0) by (nonlinear_arith)
                requires
                    before.len() < pow2(self.depth as nat),
            ;
            assert(digest_views(self.frontier@) =~= frontier_of(self.depth as nat, after));
        }
    }

    /// Current root: that of the full tree over the appended leaves, padded
    /// with zero leaves.
    pub fn root(&self) -> (root: [u8; 32])
        requires
            self.wf(),
        ensures
            root@ == full_root(self.depth(), self@),
    {
        self.root
    }

    /// The state vector that matches the layout of the append circuit.
    pub fn state_fields(&self) -> (z: Vec<u128>)
        requires
            self.wf(),
        ensures
            z@.map_values(|v: u128| v as int) == encode_state(
                self@.len(),
                full_root(self.depth(), self@),
                frontier_of(self.depth(), self@),
            ),
    {
        let ghost front = frontier_of(self.depth as nat, self.leaves@);
        let ghost state = encode_state(self.index as nat, self.root@, front);
        let mut z: Vec<u128> = Vec::with_capacity(3 + 2 * self.depth);
        z.push(self.index as u128);
        let (hi, lo) = digest_halves(&self.root);
        z.push(hi);
        z.push(lo);
        for j in 0..self.depth
            invariant
                1 <= self.depth <= 64,
                self.frontier@.len() == self.depth,
                digest_views(self.frontier@) == front,
                state == encode_state(self.index as nat, self.root@, front),
                z@.len() == 3 + 2 * j,
                forall|i: int| 0 <= i < z@.len() ==> #[trigger] z@[i] == state[i],
        {
            assert(front[j as int] == self.frontier@[j as int]@);
            let (hi, lo) = digest_halves(&self.frontier[j]);
            z.push(hi);
            z.push(lo);
            assert((3 + 2 * j - 3) / 2 == j && (4 + 2 * j - 3) / 2 == j);
        }
        assert(z@.map_values(|v: u128| v as int) =~= state);
        z
    }

    /// Number of leaves appended so far.
    pub fn n_leaves(&self) -> (n: u64)
        requires
            self.wf(),
        ensures
            n == self@.len(),
    {
        self.index
    }
}

/// A tree holds at most as many leaves as its depth has room for, each of them a
/// digest.
pub proof fn lemma_tree_fits(t: IncrementalMerkleTree)
    requires
        t.wf(),
    ensures
        t@.len() <= pow2(t.depth()),
        all_digests(t@),
{
    lemma2_to64_rest();
}

/// Packs a digest into two 128-bit numbers: the first 16 bytes and the last.
pub fn digest_halves(d: &[u8; 32]) -> (halves: (u128, u128))
    ensures
        halves.0 == upper_half(d@),
        halves.1 == lower_half(d@),
{
    let bytes = d.as_slice();
    (be_value(slice_subrange(bytes, 0, 16)), be_value(slice_subrange(bytes, 16, 32)))
}

/// The bytes that are hashed into the leaf of step `i`.
pub open spec fn leaf_preimage(i: nat) -> Seq<u8> {
    LEAF_TAG@ + le_bytes(i, 8)
}

/// ASCII `TransLog merkle leaf`.
pub const LEAF_TAG: [u8; 20] = [
    84, 114, 97, 110, 115, 76, 111, 103, 32, 109, 101, 114, 107, 108, 101, 32, 108, 101, 97, 102,
];

/// The preimage of a leaf is the tag, then eight bytes that write the number of
/// the step, least significant first.
pub proof fn lemma_leaf_preimage(i: nat)
    requires
        i < pow2(64),
    ensures
        leaf_preimage(i).len() == 28,
        leaf_preimage(i).take(20) == LEAF_TAG@,
        le_val(leaf_preimage(i).skip(20)) == i,
{
    lemma_le_round_trip(i, 8);
    assert(leaf_preimage(i).take(20) =~= LEAF_TAG@);
    assert(leaf_preimage(i).skip(20) =~= le_bytes(i, 8));
}

/// Different steps hash different preimages.
pub proof fn lemma_leaf_preimages_differ(a: nat, b: nat)
    requires
        a < pow2(64),
        b < pow2(64),
        a != b,
    ensures
        leaf_preimage(a) != leaf_preimage(b),
{
    lemma_leaf_preimage(a);
    lemma_leaf_preimage(b);
}

/// Deterministic pseudo-random leaf for step `i` of the benchmark.
pub fn bench_leaf(i: u64) -> (leaf: [u8; 32])
    ensures
        leaf@ == sha256_of(leaf_preimage(i as nat)),
{
    let mut preimage: Vec<u8> = Vec::with_capacity(28);
    let tag = LEAF_TAG;
    preimage.extend_from_slice(tag.as_slice());
    assert(preimage@ =~= LEAF_TAG@);
    push_le_bytes(&mut preimage, i);
    sha256_native(preimage.as_slice())
}

/// What one level of an append finds: on an even position the right-hand
/// sibling is still empty; on an odd one the left-hand sibling is complete and
/// is the frontier node. Either way the new frontier node is the one named.
proof fn lemma_append_level(before: Seq<Seq<u8>>, leaf: Seq<u8>, j: nat)
    ensures
        ({
            let after = before.push(leaf);
            let at = before.len() / pow2(j);
            &&& at / 2 == before.len() / pow2(j + 1)
            &&& frontier_pos(j, after.len()) == at - at % 2
            &&& at % 2 == 0 ==> node(after, j, at + 1) == zero_root(j) && node(after, j + 1, at / 2)
                == sha256_of(node(after, j, at) + zero_root(j))
            &&& at % 2 == 1 ==> {
                let sibling = node(before, j, frontier_pos(j, before.len()));
                &&& node(after, j, frontier_pos(j, after.len())) == sibling
                &&& node(after, j + 1, at / 2) == sha256_of(sibling + node(after, j, at))
            }
        }),
{
    let after = before.push(leaf);
    let n = before.len();
    let at = n / pow2(j);
    lemma_pow2_pos(j);
    lemma_pow2_unfold(j + 1);
    lemma2_to64();
    lemma_div_denominator(n as int, pow2(j) as int, 2);
    assert(pow2(j) * 2 == pow2(j + 1));
    lemma_fundamental_div_mod(n as int, pow2(j) as int);
    let r = n % pow2(j);
    assert(n == pow2(j) * at + r);
    if at % 2 == 0 {
        assert((at + 1) * pow2(j) >= n + 1) by (nonlinear_arith)
            requires
                n == pow2(j) * at + r,
                0 <= r < pow2(j),
        ;
        lemma_empty_subtree(after, j, at + 1);
        assert(2 * (at / 2) == at);
    } else {
        assert(at * pow2(j) <= n) by (nonlinear_arith)
            requires
                n == pow2(j) * at + r,
                0 <= r,
        ;
        assert(at >= 1);
        assert(n >= 1) by (nonlinear_arith)
            requires
                at * pow2(j) <= n,
                at >= 1,
                pow2(j) >= 1,
        ;
        let prev = (n - 1) as nat / pow2(j);
        assert(prev == at || prev == at - 1) by {
            lemma_fundamental_div_mod(n - 1, pow2(j) as int);
            let q = (n - 1) % (pow2(j) as int);
            assert(prev * pow2(j) == n - 1 - q) by (nonlinear_arith)
                requires
                    n - 1 == pow2(j) * prev + q,
            ;
            assert(prev <= at) by (nonlinear_arith)
                requires
                    n == pow2(j) * at + r,
                    n - 1 == pow2(j) * prev + q,
                    0 <= r < pow2(j),
                    0 <= q < pow2(j),
                    pow2(j) > 0,
            ;
            assert(prev >= at - 1) by (nonlinear_arith)
                requires
                    n == pow2(j) * at + r,
                    n - 1 == pow2(j) * prev + q,
                    0 <= r < pow2(j),
                    0 <= q < pow2(j),
                    pow2(j) > 0,
            ;
        }
        assert(frontier_pos(j, n) == at - 1);
        assert((at - 1) as nat + 1 == at);
        lemma_complete_subtree(before, leaf, j, (at - 1) as nat);
        assert(2 * (at / 2) == at - 1);
    }
}

} // verus!
