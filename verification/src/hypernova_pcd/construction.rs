//! Bottom-up construction of the proof tree: which node is proved next, from
//! which bytes, and what was recorded of those proved before.

use crate::bench_common::Duration;
use crate::hash::{digest_views, sha256_of};
use crate::hypernova_pcd::tree::{block_views, children, join, join_digests, leaf_layer,
    lemma_bucket_splits, lemma_root_is_top, lemma_subtree_children, lemma_tree_size_pos,
    merkle_root, resize_bytes, resized, subtree, tree_size};
use vstd::prelude::*;
use vstd::slice::slice_subrange;

verus! {

/// Number of nodes on a level of the full tree.
pub open spec fn level_size(arity: nat, depth: nat, level: nat) -> nat {
    tree_size(arity, (depth - level) as nat)
}

/// Number of nodes below a level of the full tree.
pub open spec fn level_offset(arity: nat, depth: nat, level: nat) -> nat
    decreases level,
{
    if level == 0 {
        0
    } else {
        level_offset(arity, depth, (level - 1) as nat) + level_size(
            arity,
            depth,
            (level - 1) as nat,
        )
    }
}

/// Number of nodes of the full tree.
pub open spec fn node_count(arity: nat, depth: nat) -> nat {
    level_offset(arity, depth, depth + 1)
}

/// The bytes that the node at `pos` of `level` hashes, given the digests
/// recorded for the nodes before it.
pub open spec fn hashed_bytes(
    w: nat,
    arity: nat,
    depth: nat,
    blocks: Seq<Seq<u8>>,
    digests: Seq<Seq<u8>>,
    level: nat,
    pos: nat,
) -> Seq<u8> {
    if level == 0 {
        blocks[pos as int]
    } else {
        let from = level_offset(arity, depth, (level - 1) as nat) + pos * arity;
        resized(join(digests.subrange(from as int, (from + arity) as int)), 32 * w)
    }
}

/// Timing of one node of the tree.
#[derive(Clone, Copy, Debug)]
pub struct PcdNodeTiming {
    /// 0 for leaf nodes, `k` for the `k`-th merge layer.
    pub level: usize,
    /// Time of the proof.
    pub prove_time: Duration,
    /// Native verification of the siblings before a merge.
    pub sibling_check: Option<Duration>,
    /// Attempts of the prover that were given up.
    pub retries: usize,
}

/// Number of the nodes on a level.
pub open spec fn nodes_on(nodes: Seq<PcdNodeTiming>, level: int) -> nat
    decreases nodes.len(),
{
    if nodes.len() == 0 {
        0
    } else {
        nodes_on(nodes.drop_last(), level) + (if nodes.last().level == level {
            1nat
        } else {
            0nat
        })
    }
}

/// The nodes stand level by level: node `i` is one of the nodes of its level.
pub open spec fn level_by_level(nodes: Seq<PcdNodeTiming>, arity: nat, depth: nat) -> bool {
    forall|i: int|
        0 <= i < nodes.len() ==> {
            let level = (#[trigger] nodes[i]).level as nat;
            &&& level <= depth
            &&& level_offset(arity, depth, level) <= i < level_offset(arity, depth, level)
                + level_size(arity, depth, level)
        }
}

/// A node to prove.
pub struct NodeTask {
    pub level: usize,
    pub pos: usize,
    /// Number of the leftmost child among all nodes; no child where the level
    /// is 0.
    pub first_child: usize,
    /// Incoming state.
    pub z: Vec<u8>,
    /// External input.
    pub ext: Vec<u8>,
}

/// A tree under construction: nodes are numbered level by level, from the
/// leaves up and from left to right.
pub struct TreeBuild {
    pub w: usize,
    pub mu: usize,
    pub depth: usize,
    pub blocks: Vec<Vec<u8>>,
    /// Digests of the nodes proved so far.
    pub digests: Vec<[u8; 32]>,
    /// Timings of the nodes proved so far.
    pub nodes: Vec<PcdNodeTiming>,
    /// Level of the next node.
    pub level: usize,
    /// Number of the first node of that level.
    pub start: usize,
    /// Nodes on that level.
    pub size: usize,
}

impl TreeBuild {
    pub open spec fn wf(self) -> bool {
        let (a, d) = (self.mu as nat, self.depth as nat);
        &&& 2 <= self.mu <= self.w
        &&& 32 * self.w <= usize::MAX
        &&& node_count(a, d) <= usize::MAX
        &&& self.blocks@.len() == tree_size(a, d)
        &&& forall|i: int| 0 <= i < self.blocks@.len() ==> (#[trigger] self.blocks@[i])@.len() == 32
            * self.w
        &&& self.digests@.len() == self.nodes@.len()
        &&& level_by_level(self.nodes@, a, d)
        &&& self.digests@.len() <= node_count(a, d)
        &&& self.level <= self.depth + 1
        &&& self.start == level_offset(a, d, self.level as nat)
        &&& self.level <= self.depth ==> self.size == level_size(a, d, self.level as nat)
        &&& self.level <= self.depth ==> self.start <= self.digests@.len() < self.start + self.size
        &&& self.level > self.depth ==> self.digests@.len() == self.start
    }

    /// All nodes are proved.
    pub open spec fn complete(self) -> bool {
        self.level > self.depth
    }

    /// The bytes that node `pos` of `level` hashes.
    pub open spec fn input(self, level: nat, pos: nat) -> Seq<u8> {
        hashed_bytes(
            self.w as nat,
            self.mu as nat,
            self.depth as nat,
            block_views(self.blocks@),
            digest_views(self.digests@),
            level,
            pos,
        )
    }

    /// Number of the node at `pos` of `level`.
    pub open spec fn node_index(self, level: nat, pos: nat) -> int {
        level_offset(self.mu as nat, self.depth as nat, level) as int + pos
    }

    /// The node at `pos` of `level` is proved.
    pub open spec fn recorded(self, level: nat, pos: nat) -> bool {
        &&& level <= self.depth
        &&& pos < level_size(self.mu as nat, self.depth as nat, level)
        &&& self.node_index(level, pos) < self.digests@.len()
    }

    /// Digest of the node at `pos` of `level` of the tree over the blocks.
    pub open spec fn expected(self, level: nat, pos: nat) -> Seq<u8> {
        subtree(
            Some(self.w as nat),
            self.mu as nat,
            leaf_layer(block_views(self.blocks@)),
            level,
            pos,
        )
    }

    /// Every digest recorded is that of its node of the tree over the blocks.
    pub open spec fn follows_tree(self) -> bool {
        forall|level: nat, pos: nat|
            self.recorded(level, pos) ==> self.digests@[self.node_index(level, pos)]@
                == #[trigger] self.expected(level, pos)
    }
}

/// Lower levels end before higher ones start.
proof fn lemma_offset_grows(arity: nat, depth: nat, k: nat, level: nat)
    requires
        k < level,
    ensures
        level_offset(arity, depth, k) + level_size(arity, depth, k) <= level_offset(
            arity,
            depth,
            level,
        ),
    decreases level,
{
    if k + 1 < level {
        lemma_offset_grows(arity, depth, k, (level - 1) as nat);
    }
}

/// Every level has a node.
pub proof fn lemma_offset_at_least(arity: nat, depth: nat, level: nat)
    requires
        arity >= 1,
        level <= depth + 1,
    ensures
        level_offset(arity, depth, level) >= level,
    decreases level,
{
    if level > 0 {
        lemma_offset_at_least(arity, depth, (level - 1) as nat);
        lemma_tree_size_pos(arity, (depth - (level - 1)) as nat);
    }
}

/// A level has `arity` times as many nodes as the one above.
pub proof fn lemma_level_size(arity: nat, depth: nat, level: nat)
    requires
        level < depth,
    ensures
        level_size(arity, depth, level) == arity * level_size(arity, depth, level + 1),
{
    assert((depth - level) as nat - 1 == (depth - (level + 1)) as nat);
}

impl TreeBuild {
    /// A tree of which no node is proved yet.
    pub fn new(w: usize, mu: usize, depth: usize, blocks: Vec<Vec<u8>>) -> (build: TreeBuild)
        requires
            2 <= mu <= w,
            32 * w <= usize::MAX,
            node_count(mu as nat, depth as nat) <= usize::MAX,
            blocks@.len() == tree_size(mu as nat, depth as nat),
            forall|i: int| 0 <= i < blocks@.len() ==> (#[trigger] blocks@[i])@.len() == 32 * w,
        ensures
            build.wf(),
            build.w == w,
            build.mu == mu,
            build.depth == depth,
            build.blocks == blocks,
            build.digests@.len() == 0,
            build.level == 0,
            !build.complete(),
            build.follows_tree(),
    {
        proof {
            lemma_tree_size_pos(mu as nat, depth as nat);
        }
        let size = blocks.len();
        TreeBuild {
            w,
            mu,
            depth,
            blocks,
            digests: Vec::new(),
            nodes: Vec::new(),
            level: 0,
            start: 0,
            size,
        }
    }

    /// The node to prove next. What the prover is handed is the bucket of the
    /// node: the data block of a leaf, or the digests recorded for the
    /// children.
    pub fn next_task(&self) -> (task: Option<NodeTask>)
        requires
            self.wf(),
        ensures
            task is None <==> self.complete(),
            task matches Some(t) ==> {
                &&& t.level == self.level
                &&& t.pos == self.digests@.len() - self.start
                &&& t.pos < level_size(self.mu as nat, self.depth as nat, t.level as nat)
                &&& t.level > 0 ==> t.first_child == level_offset(
                    self.mu as nat,
                    self.depth as nat,
                    (t.level - 1) as nat,
                ) + t.pos * self.mu
                &&& t.level > 0 ==> t.first_child + self.mu <= self.start
                &&& t.level > 0 ==> t.z@ == self.digests@[t.first_child as int]@
                &&& t.z@.len() == 32
                &&& t.ext@.len() == 32 * (self.w - 1)
                &&& t.z@ + t.ext@ == self.input(t.level as nat, t.pos as nat)
            },
    {
        if self.level > self.depth {
            return None;
        }
        let pos = self.digests.len() - self.start;
        if self.level == 0 {
            let block = self.blocks[pos].as_slice();
            assert(block@.len() == 32 * self.w);
            let mut z: Vec<u8> = Vec::with_capacity(32);
            z.extend_from_slice(slice_subrange(block, 0, 32));
            let mut ext: Vec<u8> = Vec::with_capacity(32 * (self.w - 1));
            ext.extend_from_slice(slice_subrange(block, 32, 32 * self.w));
            assert(z@ + ext@ =~= block@);
            assert(block_views(self.blocks@)[pos as int] == block@);
            return Some(NodeTask { level: 0, pos, first_child: 0, z, ext });
        }
        let ghost (a, d, l) = (self.mu as nat, self.depth as nat, (self.level - 1) as nat);
        let ghost below = level_offset(a, d, l);
        proof {
            lemma_level_size(a, d, l);
            lemma_tree_size_pos(a, (d - self.level) as nat);
            let s = self.size as int;
            assert(pos * a + a <= a * s) by (nonlinear_arith)
                requires
                    pos + 1 <= s,
            ;
            assert(0 <= pos * a) by (nonlinear_arith);
            assert(a * s == level_size(a, d, l));
            assert(self.start == below + a * s);
        }
        let width: usize = self.mu * self.size;
        let from = self.start - width + pos * self.mu;
        let ghost parts = digest_views(self.digests@).subrange(from as int, from + self.mu);
        let left = self.digests[from];
        let mut z: Vec<u8> = Vec::with_capacity(32);
        z.extend_from_slice(left.as_slice());
        let mut ext = join_digests(&self.digests, from + 1, from + self.mu);
        resize_bytes(&mut ext, 32 * (self.w - 1));
        proof {
            assert(parts[0] == left@);
            assert(z@ =~= left@);
            assert(parts.skip(1) =~= digest_views(self.digests@).subrange(
                from + 1,
                from + self.mu,
            ));
            lemma_bucket_splits(parts, self.w as nat);
        }
        Some(NodeTask { level: self.level, pos, first_child: from, z, ext })
    }
}

/// Every node number but those past a level belongs to a level below or to
/// the level itself.
proof fn lemma_same_node(b: TreeBuild, level: nat, pos: nat)
    requires
        b.wf(),
        !b.complete(),
        level <= b.depth,
        pos < level_size(b.mu as nat, b.depth as nat, level),
        b.node_index(level, pos) == b.digests@.len(),
    ensures
        level == b.level,
        pos == b.digests@.len() - b.start,
{
    let (a, d) = (b.mu as nat, b.depth as nat);
    if level < b.level {
        lemma_offset_grows(a, d, level, b.level as nat);
    } else if level > b.level {
        lemma_offset_grows(a, d, b.level as nat, level);
    }
}

/// The bytes that the next node hashes are the bucket of its node of the tree,
/// as long as the digests recorded are.
proof fn lemma_input_is_bucket(b: TreeBuild, level: nat, pos: nat)
    requires
        b.wf(),
        b.follows_tree(),
        !b.complete(),
        level == b.level,
        pos == b.digests@.len() - b.start,
    ensures
        sha256_of(b.input(level, pos)) == b.expected(level, pos),
{
    let (w, a, d) = (b.w as nat, b.mu as nat, b.depth as nat);
    let blocks = block_views(b.blocks@);
    let leaves = leaf_layer(blocks);
    let digests = digest_views(b.digests@);
    if level > 0 {
        let l = (level - 1) as nat;
        let below = level_offset(a, d, l);
        let s = level_size(a, d, level);
        lemma_level_size(a, d, l);
        let from = below + pos * a;
        assert(pos * a + a <= a * s) by (nonlinear_arith)
            requires
                pos + 1 <= s,
        ;
        assert(0 <= pos * a) by (nonlinear_arith);
        assert(b.start == below + a * s);
        let kids = children(Some(w), a, leaves, level, pos);
        let parts = digests.subrange(from as int, (from + a) as int);
        assert forall|c: int| 0 <= c < a implies parts[c] == kids[c] by {
            let q = (pos * a + c) as nat;
            assert(b.recorded(l, q));
            assert(b.digests@[b.node_index(l, q)]@ == b.expected(l, q));
            assert(digests[from + c] == b.digests@[from + c]@);
        }
        assert(parts =~= kids);
        lemma_subtree_children(Some(w), a, leaves, level, pos);
    } else {
        assert(blocks[pos as int] == b.blocks@[pos as int]@);
    }
}

/// In a complete tree whose digests follow the tree over the blocks, the last
/// digest is the root.
pub proof fn lemma_complete_root(b: TreeBuild)
    requires
        b.wf(),
        b.complete(),
    ensures
        b.digests@.len() >= 1,
        b.follows_tree() ==> b.digests@.last()@ == merkle_root(
            Some(b.w as nat),
            b.mu as nat,
            block_views(b.blocks@),
        ),
{
    let (a, d) = (b.mu as nat, b.depth as nat);
    assert(level_size(a, d, d) == 1) by {
        assert((d - d) as nat == 0);
    }
    assert(b.digests@.len() == level_offset(a, d, d) + 1);
    if b.follows_tree() {
        assert(b.recorded(d, 0));
        assert(b.digests@[b.node_index(d, 0)]@ == b.expected(d, 0));
        lemma_root_is_top(Some(b.w as nat), a, block_views(b.blocks@), d);
    }
}

impl TreeBuild {
    /// Records the node that was to be proved next.
    pub fn record(
        &mut self,
        digest: [u8; 32],
        prove_time: Duration,
        sibling_check: Option<Duration>,
        retries: usize,
    )
        requires
            old(self).wf(),
            !old(self).complete(),
        ensures
            final(self).wf(),
            final(self).w == old(self).w,
            final(self).mu == old(self).mu,
            final(self).depth == old(self).depth,
            final(self).blocks == old(self).blocks,
            final(self).digests@ == old(self).digests@.push(digest),
            final(self).nodes@ == old(self).nodes@.push(
                PcdNodeTiming { level: old(self).level, prove_time, sibling_check, retries },
            ),
            final(self).complete() <==> final(self).digests@.len() == node_count(
                final(self).mu as nat,
                final(self).depth as nat,
            ),
            old(self).follows_tree() && digest@ == sha256_of(
                old(self).input(
                    old(self).level as nat,
                    (old(self).digests@.len() - old(self).start) as nat,
                ),
            ) ==> final(self).follows_tree(),
    {
        let ghost before = *self;
        let ghost (a, d) = (self.mu as nat, self.depth as nat);
        let ghost (level, pos) = (self.level as nat, (self.digests@.len() - self.start) as nat);
        proof {
            lemma_offset_at_least(a, d, d + 1);
            if self.level < self.depth {
                lemma_offset_grows(a, d, (self.level + 1) as nat, d + 1);
                lemma_level_size(a, d, self.level as nat);
                lemma_tree_size_pos(a, (d - (self.level + 1)) as nat);
            }
        }
        self.digests.push(digest);
        self.nodes.push(
            PcdNodeTiming { level: self.level, prove_time, sibling_check, retries },
        );
        if self.digests.len() - self.start == self.size {
            self.start = self.start + self.size;
            self.level = self.level + 1;
            if self.level <= self.depth {
                proof {
                    let s = level_size(a, d, self.level as nat) as int;
                    assert((a * s) / (a as int) == s) by (nonlinear_arith)
                        requires
                            a >= 2,
                    ;
                }
                self.size = self.size / self.mu;
            }
        }
        proof {
            if before.follows_tree() && digest@ == sha256_of(before.input(level, pos)) {
                assert forall|l: nat, p: nat| self.recorded(l, p) implies self.digests@[
                    self.node_index(l, p)
                ]@ == #[trigger] self.expected(l, p) by {
                    if self.node_index(l, p) < before.digests@.len() {
                        assert(before.recorded(l, p));
                        assert(before.expected(l, p) == self.expected(l, p));
                    } else {
                        lemma_same_node(before, l, p);
                        lemma_input_is_bucket(before, level, pos);
                    }
                }
            }
        }
    }

    /// Digest of the root. Where every digest follows the tree, it is the root
    /// over the data blocks.
    pub fn root(&self) -> (root: [u8; 32])
        requires
            self.wf(),
            self.complete(),
        ensures
            root == self.digests@.last(),
            self.follows_tree() ==> root@ == merkle_root(
                Some(self.w as nat),
                self.mu as nat,
                block_views(self.blocks@),
            ),
    {
        proof {
            lemma_complete_root(*self);
        }
        self.digests[self.digests.len() - 1]
    }
}

proof fn lemma_offset_times(arity: nat, depth: nat, level: nat)
    requires
        arity >= 1,
        level <= depth,
    ensures
        (arity - 1) * level_offset(arity, depth, level) + arity * level_size(arity, depth, level)
            == arity * tree_size(arity, depth),
    decreases level,
{
    if level == 0 {
        assert((arity - 1) * 0 == 0) by (nonlinear_arith);
    } else {
        let l = (level - 1) as nat;
        lemma_offset_times(arity, depth, l);
        lemma_level_size(arity, depth, l);
        let (o, s) = (level_offset(arity, depth, l) as int, level_size(arity, depth, l) as int);
        assert((arity - 1) * (o + s) + s == (arity - 1) * o + arity * s) by (nonlinear_arith);
    }
}

/// A full tree with `n` leaves has `(arity * n - 1) / (arity - 1)` nodes.
pub proof fn lemma_node_count(arity: nat, depth: nat)
    requires
        arity >= 1,
    ensures
        (arity - 1) * node_count(arity, depth) + 1 == arity * tree_size(arity, depth),
{
    lemma_offset_times(arity, depth, depth);
    assert(level_size(arity, depth, depth) == 1) by {
        assert((depth - depth) as nat == 0);
    }
    let o = level_offset(arity, depth, depth) as int;
    assert((arity - 1) * (o + 1) + 1 == (arity - 1) * o + arity * 1) by (nonlinear_arith);
}

/// A full tree has fewer than twice as many nodes as leaves.
pub proof fn lemma_node_count_bound(arity: nat, depth: nat)
    requires
        arity >= 2,
    ensures
        node_count(arity, depth) < 2 * tree_size(arity, depth),
{
    lemma_node_count(arity, depth);
    let (n, s, b) = (node_count(arity, depth) as int, tree_size(arity, depth) as int, arity as int);
    assert(n < 2 * s) by (nonlinear_arith)
        requires
            (b - 1) * n + 1 == b * s,
            b >= 2,
            n >= 0,
            s >= 0,
    ;
}

/// The first `n` nodes of a tree hold as many nodes of a level as lie between
/// the start of the level and node `n`.
proof fn lemma_nodes_on_prefix(
    nodes: Seq<PcdNodeTiming>,
    arity: nat,
    depth: nat,
    level: nat,
    n: nat,
)
    requires
        level_by_level(nodes, arity, depth),
        level <= depth,
        n <= nodes.len(),
    ensures
        nodes_on(nodes.take(n as int), level as int) == ({
            let start = level_offset(arity, depth, level);
            let size = level_size(arity, depth, level);
            if n <= start {
                0
            } else if n <= start + size {
                n - start
            } else {
                size as int
            }
        }),
    decreases n,
{
    if n > 0 {
        let m = (n - 1) as nat;
        lemma_nodes_on_prefix(nodes, arity, depth, level, m);
        assert(nodes.take(n as int).drop_last() =~= nodes.take(m as int));
        let l = nodes[m as int].level as nat;
        assert(nodes.take(n as int).last() == nodes[m as int]);
        if l < level {
            lemma_offset_grows(arity, depth, l, level);
        } else if level < l {
            lemma_offset_grows(arity, depth, level, l);
        }
    }
}

/// A complete tree has its nodes in the order of their levels, and
/// `arity^(depth - l)` of them on level `l`.
pub proof fn lemma_levels_of_tree(nodes: Seq<PcdNodeTiming>, arity: nat, depth: nat)
    requires
        level_by_level(nodes, arity, depth),
        nodes.len() == node_count(arity, depth),
    ensures
        forall|l: nat|
            l <= depth ==> #[trigger] nodes_on(nodes, l as int) == tree_size(
                arity,
                (depth - l) as nat,
            ),
        forall|i: int| 0 <= i < nodes.len() ==> (#[trigger] nodes[i]).level <= depth,
        forall|i: int, j: int|
            0 <= i <= j < nodes.len() ==> (#[trigger] nodes[i]).level <= (#[trigger] nodes[j]).level,
{
    assert forall|l: nat| l <= depth implies #[trigger] nodes_on(nodes, l as int) == tree_size(
        arity,
        (depth - l) as nat,
    ) by {
        lemma_nodes_on_prefix(nodes, arity, depth, l, nodes.len());
        assert(nodes.take(nodes.len() as int) =~= nodes);
        lemma_offset_grows(arity, depth, l, depth + 1);
    }
    assert forall|i: int, j: int| 0 <= i <= j < nodes.len() implies (#[trigger] nodes[i]).level <= (
    #[trigger] nodes[j]).level by {
        let (a, b) = (nodes[i].level as nat, nodes[j].level as nat);
        if b < a {
            lemma_offset_grows(arity, depth, b, a);
        }
    }
}

} // verus!
