//! A tree whose leaves all hold the same block. All subtrees of one height are
//! alike, so one accumulator per level stands for the whole tree.

use crate::bench_common::Duration;
use crate::hash::{same_digest, sha256_native, sha256_of};
use crate::hypernova_pcd::retry::RunFailure;
use crate::hypernova_pcd::tree::{children, join, lemma_bucket_splits, lemma_child_span,
    lemma_remainder_moves, lemma_subtree_children, resize_bytes, resized, subtree, tree_size};
use vstd::arithmetic::div_mod::lemma_fundamental_div_mod_converse;
use vstd::prelude::*;
use vstd::slice::slice_subrange;

verus! {

/// The same byte string `n` times.
pub open spec fn repeated(bytes: Seq<u8>, n: nat) -> Seq<Seq<u8>> {
    Seq::new(n, |i: int| bytes)
}

/// Digest of a subtree of height `k` all of whose leaves hold `block`.
pub open spec fn identical_digest(w: nat, mu: nat, block: Seq<u8>, k: nat) -> Seq<u8>
    decreases k,
{
    if k == 0 {
        sha256_of(block)
    } else {
        let below = identical_digest(w, mu, block, (k - 1) as nat);
        sha256_of(resized(join(repeated(below, mu)), 32 * w))
    }
}

/// In a tree over equal leaves every node of a level is the same.
pub proof fn lemma_identical(
    w: nat,
    mu: nat,
    block: Seq<u8>,
    leaves: Seq<Seq<u8>>,
    k: nat,
    pos: nat,
)
    requires
        (pos + 1) * tree_size(mu, k) <= leaves.len(),
        forall|i: int|
            pos * tree_size(mu, k) <= i < (pos + 1) * tree_size(mu, k) ==> #[trigger] leaves[i]
                == sha256_of(block),
    ensures
        subtree(Some(w), mu, leaves, k, pos) == identical_digest(w, mu, block, k),
    decreases k,
{
    if k == 0 {
        assert((pos + 1) * 1 == pos + 1 && pos * 1 == pos);
        assert(leaves[pos as int] == sha256_of(block));
    } else {
        let kids = children(Some(w), mu, leaves, k, pos);
        let below = identical_digest(w, mu, block, (k - 1) as nat);
        assert forall|c: int| 0 <= c < mu implies kids[c] == below by {
            lemma_child_span(mu, k, pos, c, leaves.len());
            assert(0 <= pos * mu) by (nonlinear_arith);
            lemma_identical(w, mu, block, leaves, (k - 1) as nat, (pos * mu + c) as nat);
        }
        assert(kids =~= repeated(below, mu));
        lemma_subtree_children(Some(w), mu, leaves, k, pos);
    }
}

/// Copies of a digest, one after the other.
pub fn repeat_digest(digest: &[u8; 32], n: usize) -> (bytes: Vec<u8>)
    ensures
        bytes@ == join(repeated(digest@, n as nat)),
{
    let mut bytes: Vec<u8> = Vec::new();
    for i in 0..n
        invariant
            bytes@ == join(repeated(digest@, i as nat)),
    {
        bytes.extend_from_slice(digest.as_slice());
        proof {
            let longer = repeated(digest@, (i + 1) as nat);
            assert(longer.drop_last() =~= repeated(digest@, i as nat));
            assert(bytes@ =~= join(longer));
        }
    }
    bytes
}

/// The digests of the subtrees of height `0..=depth` over equal blocks.
pub fn identical_digests(w: usize, mu: usize, depth: usize, block: &Vec<u8>) -> (digests: Vec<
    [u8; 32],
>)
    requires
        32 * w <= usize::MAX,
        depth < usize::MAX,
    ensures
        digests@.len() == depth + 1,
        forall|k: int|
            0 <= k <= depth ==> (#[trigger] digests@[k])@ == identical_digest(
                w as nat,
                mu as nat,
                block@,
                k as nat,
            ),
{
    let mut digests: Vec<[u8; 32]> = Vec::with_capacity(depth + 1);
    digests.push(sha256_native(block.as_slice()));
    for k in 1..depth + 1
        invariant
            32 * w <= usize::MAX,
            depth < usize::MAX,
            digests@.len() == k,
            forall|i: int|
                0 <= i < k ==> (#[trigger] digests@[i])@ == identical_digest(
                    w as nat,
                    mu as nat,
                    block@,
                    i as nat,
                ),
    {
        let mut bucket = repeat_digest(&digests[k - 1], mu);
        resize_bytes(&mut bucket, 32 * w);
        digests.push(sha256_native(bucket.as_slice()));
    }
    digests
}

/// Byte `j` of the block that every leaf holds.
pub open spec fn old_byte(j: int) -> u8 {
    ((0xA0 + j) % 256) as u8
}

/// The block that every leaf holds.
pub open spec fn old_block_of(w: nat) -> Seq<u8> {
    Seq::new(32 * w, |j: int| old_byte(j))
}

/// The block that every leaf holds: its first byte is 160, and every byte is one
/// more than the one before, modulo 256.
pub proof fn lemma_old_block(w: nat, j: int)
    requires
        0 <= j < 32 * w,
    ensures
        old_block_of(w).len() == 32 * w,
        old_block_of(w)[0] == 160,
        j + 1 < 32 * w ==> (old_block_of(w)[j + 1] - old_block_of(w)[j]) % 256 == 1,
{
    lemma_remainder_moves(0xA0 + j, 1);
    assert(old_block_of(w)[0] == old_byte(0));
    assert(old_block_of(w)[j] == old_byte(j) && old_byte(j) as int == (0xA0 + j) % 256);
    if j + 1 < 32 * w {
        assert(old_block_of(w)[j + 1] == old_byte(j + 1));
        assert(old_byte(j + 1) as int == (0xA0 + j + 1) % 256);
    }
}

/// The block that every leaf holds.
pub fn make_old_block(w: usize) -> (block: Vec<u8>)
    requires
        32 * w <= usize::MAX,
    ensures
        block@ == old_block_of(w as nat),
{
    let mut block: Vec<u8> = Vec::with_capacity(32 * w);
    for j in 0..32 * w
        invariant
            32 * w <= usize::MAX,
            block@.len() == j,
            forall|i: int| 0 <= i < j ==> #[trigger] block@[i] == old_byte(i),
    {
        let low: u32 = 0xA0 + (j % 256) as u32;
        proof {
            let q = j as int / 256;
            lemma_fundamental_div_mod_converse(
                0xA0 + j,
                256,
                q + low as int / 256,
                low as int % 256,
            );
        }
        block.push((low % 256) as u8);
    }
    assert(block@ =~= old_block_of(w as nat));
    block
}

#[derive(Clone, Copy, Debug, PartialEq, Eq, Structural)]
pub enum IdenticalPhase {
    Setup,
    Nodes,
    Verify,
    Built,
    Failed(RunFailure),
}

/// What the prover is to do next.
pub enum IdenticalAction {
    /// Preprocess and make the trivial accumulator.
    Setup,
    /// Start a chain on `z` and fold the trivial accumulators into it.
    ProveLeaf { z: Vec<u8>, ext: Vec<u8> },
    /// Copy the representative of the level below and fold copies of it in.
    ProveLevel { level: usize, ext: Vec<u8> },
    /// Verify the representative of the top level.
    VerifyTop,
    /// Nothing: the tree is built, or it failed.
    Stop,
}

/// What the prover did.
#[derive(Clone, Copy, Debug)]
pub enum IdenticalEvent {
    SetUp { time: Duration },
    Proved { digest: [u8; 32] },
    /// The top level is verified; the time is that since the setup.
    Verified { build_time: Duration },
    Error,
}

/// A tree over equal blocks, built by one representative per level.
pub struct IdenticalTree {
    pub w: usize,
    pub mu: usize,
    pub depth: usize,
    pub old_block: Vec<u8>,
    /// Digest of the subtree of each height.
    pub d_old: Vec<[u8; 32]>,
    /// Representatives proved so far.
    pub proved: usize,
    pub phase: IdenticalPhase,
    pub setup_time: Duration,
    pub build_time: Duration,
}

impl IdenticalTree {
    pub open spec fn wf(self) -> bool {
        &&& 1 <= self.mu <= self.w
        &&& 32 * self.w <= usize::MAX
        &&& self.depth < usize::MAX
        &&& self.old_block@ == old_block_of(self.w as nat)
        &&& self.d_old@.len() == self.depth + 1
        &&& forall|k: int|
            0 <= k <= self.depth ==> (#[trigger] self.d_old@[k])@ == self.digest_at(k as nat)
        &&& match self.phase {
            IdenticalPhase::Setup => self.proved == 0,
            IdenticalPhase::Nodes => self.proved <= self.depth,
            IdenticalPhase::Verify => self.proved == self.depth + 1,
            IdenticalPhase::Built => self.proved == self.depth + 1,
            IdenticalPhase::Failed(_) => self.proved <= self.depth + 1,
        }
    }

    /// Digest of the subtree of height `k`.
    pub open spec fn digest_at(self, k: nat) -> Seq<u8> {
        identical_digest(self.w as nat, self.mu as nat, old_block_of(self.w as nat), k)
    }

    /// The bytes that the representative of a level hashes.
    pub open spec fn input(self, level: nat) -> Seq<u8> {
        if level == 0 {
            old_block_of(self.w as nat)
        } else {
            resized(
                join(repeated(self.digest_at((level - 1) as nat), self.mu as nat)),
                32 * self.w as nat,
            )
        }
    }

    /// The event is what a prover without error reports: what was asked for,
    /// with the digest of the bytes handed out.
    pub open spec fn answers(self, event: IdenticalEvent) -> bool {
        match (self.phase, event) {
            (IdenticalPhase::Setup, IdenticalEvent::SetUp { .. }) => true,
            (IdenticalPhase::Nodes, IdenticalEvent::Proved { digest }) => digest@ == sha256_of(
                self.input(self.proved as nat),
            ),
            (IdenticalPhase::Verify, IdenticalEvent::Verified { .. }) => true,
            _ => false,
        }
    }

    /// Events that the tree still waits for before it is built.
    pub open spec fn remaining(self) -> int {
        match self.phase {
            IdenticalPhase::Setup => self.depth + 3,
            IdenticalPhase::Nodes => self.depth + 2 - self.proved,
            IdenticalPhase::Verify => 1,
            IdenticalPhase::Built => 0,
            IdenticalPhase::Failed(_) => 0,
        }
    }

    /// The phase that an event leads to.
    pub open spec fn phase_after(self, event: IdenticalEvent) -> IdenticalPhase {
        match (self.phase, event) {
            (IdenticalPhase::Built, _) => self.phase,
            (IdenticalPhase::Failed(_), _) => self.phase,
            (_, IdenticalEvent::Error) => IdenticalPhase::Failed(RunFailure::Backend),
            (IdenticalPhase::Setup, IdenticalEvent::SetUp { .. }) => IdenticalPhase::Nodes,
            (IdenticalPhase::Nodes, IdenticalEvent::Proved { digest }) => if digest@
                != self.digest_at(self.proved as nat) {
                IdenticalPhase::Failed(RunFailure::Diverged)
            } else if self.proved == self.depth {
                IdenticalPhase::Verify
            } else {
                IdenticalPhase::Nodes
            },
            (IdenticalPhase::Verify, IdenticalEvent::Verified { .. }) => IdenticalPhase::Built,
            _ => IdenticalPhase::Failed(RunFailure::OutOfOrder),
        }
    }

    /// What is handed to the prover of a level splits into the left child's
    /// digest and the rest.
    proof fn lemma_input_splits(self, level: nat)
        requires
            self.wf(),
            1 <= level <= self.depth,
        ensures
            self.input(level) == self.digest_at((level - 1) as nat) + resized(
                join(repeated(self.digest_at((level - 1) as nat), (self.mu - 1) as nat)),
                (32 * (self.w - 1)) as nat,
            ),
    {
        let below = self.digest_at((level - 1) as nat);
        let parts = repeated(below, self.mu as nat);
        assert(parts[0] == below);
        assert(self.d_old@[level - 1]@ == below);
        assert(parts.skip(1) =~= repeated(below, (self.mu - 1) as nat));
        lemma_bucket_splits(parts, self.w as nat);
    }

    /// What the prover is to do next.
    pub fn action(&self) -> (action: IdenticalAction)
        requires
            self.wf(),
        ensures
            match self.phase {
                IdenticalPhase::Setup => action is Setup,
                IdenticalPhase::Nodes => if self.proved == 0 {
                    action matches IdenticalAction::ProveLeaf { z, ext } && z@.len() == 32 && z@
                        + ext@ == self.input(0)
                } else {
                    action matches IdenticalAction::ProveLevel { level, ext } && level
                        == self.proved && self.digest_at((level - 1) as nat) + ext@ == self.input(
                        level as nat,
                    )
                },
                IdenticalPhase::Verify => action is VerifyTop,
                _ => action is Stop,
            },
    {
        match self.phase {
            IdenticalPhase::Setup => IdenticalAction::Setup,
            IdenticalPhase::Nodes => {
                if self.proved == 0 {
                    let block = self.old_block.as_slice();
                    let mut z: Vec<u8> = Vec::with_capacity(32);
                    z.extend_from_slice(slice_subrange(block, 0, 32));
                    let mut ext: Vec<u8> = Vec::with_capacity(32 * (self.w - 1));
                    ext.extend_from_slice(slice_subrange(block, 32, 32 * self.w));
                    assert(z@ + ext@ =~= block@);
                    IdenticalAction::ProveLeaf { z, ext }
                } else {
                    let level = self.proved;
                    let ext = self.sibling_bytes(level);
                    proof {
                        self.lemma_input_splits(level as nat);
                    }
                    IdenticalAction::ProveLevel { level, ext }
                }
            },
            IdenticalPhase::Verify => IdenticalAction::VerifyTop,
            IdenticalPhase::Built => IdenticalAction::Stop,
            IdenticalPhase::Failed(_) => IdenticalAction::Stop,
        }
    }

    /// The padded digests of the right-hand siblings on the level below.
    pub fn sibling_bytes(&self, level: usize) -> (ext: Vec<u8>)
        requires
            self.wf(),
            1 <= level <= self.depth,
        ensures
            ext@ == resized(
                join(repeated(self.digest_at((level - 1) as nat), (self.mu - 1) as nat)),
                (32 * (self.w - 1)) as nat,
            ),
    {
        let mut ext = repeat_digest(&self.d_old[level - 1], self.mu - 1);
        resize_bytes(&mut ext, 32 * (self.w - 1));
        ext
    }

    /// Takes in what the prover did.
    pub fn advance(&mut self, event: IdenticalEvent)
        requires
            old(self).wf(),
        ensures
            final(self).wf(),
            final(self).w == old(self).w,
            final(self).mu == old(self).mu,
            final(self).depth == old(self).depth,
            final(self).old_block == old(self).old_block,
            final(self).d_old == old(self).d_old,
            final(self).phase == old(self).phase_after(event),
            final(self).proved == (if old(self).phase is Nodes && event is Proved && !(
            final(self).phase is Failed) {
                old(self).proved + 1
            } else {
                old(self).proved as int
            }),
            final(self).setup_time == (match (old(self).phase, event) {
                (IdenticalPhase::Setup, IdenticalEvent::SetUp { time }) => time,
                _ => old(self).setup_time,
            }),
            final(self).build_time == (match (old(self).phase, event) {
                (IdenticalPhase::Verify, IdenticalEvent::Verified { build_time }) => build_time,
                _ => old(self).build_time,
            }),
            !(old(self).phase is Built) && !(final(self).phase is Failed)
                ==> final(self).remaining() == old(self).remaining() - 1,
    {
        match self.phase {
            IdenticalPhase::Built => {
                return ;
            },
            IdenticalPhase::Failed(_) => {
                return ;
            },
            _ => {},
        }
        if let IdenticalEvent::Error = event {
            self.phase = IdenticalPhase::Failed(RunFailure::Backend);
            return ;
        }
        match (self.phase, event) {
            (IdenticalPhase::Setup, IdenticalEvent::SetUp { time }) => {
                self.setup_time = time;
                self.phase = IdenticalPhase::Nodes;
            },
            (IdenticalPhase::Nodes, IdenticalEvent::Proved { digest }) => {
                if !same_digest(&digest, &self.d_old[self.proved]) {
                    self.phase = IdenticalPhase::Failed(RunFailure::Diverged);
                } else {
                    if self.proved == self.depth {
                        self.phase = IdenticalPhase::Verify;
                    }
                    self.proved = self.proved + 1;
                }
            },
            (IdenticalPhase::Verify, IdenticalEvent::Verified { build_time }) => {
                self.build_time = build_time;
                self.phase = IdenticalPhase::Built;
            },
            _ => {
                self.phase = IdenticalPhase::Failed(RunFailure::OutOfOrder);
            },
        }
    }
}

/// With an honest prover no representative diverges: the bytes handed out for a
/// level hash to that level's digest.
pub proof fn lemma_honest_representative(tree: IdenticalTree)
    requires
        tree.wf(),
        tree.phase is Nodes,
    ensures
        sha256_of(tree.input(tree.proved as nat)) == tree.digest_at(tree.proved as nat),
{
}

/// Starts to build the tree of the given depth.
pub fn build_identical_tree<const W: usize, const MU: usize>(depth: usize) -> (tree: IdenticalTree)
    requires
        1 <= MU <= W,
        32 * W <= usize::MAX,
        depth < usize::MAX,
    ensures
        tree.wf(),
        tree.w == W,
        tree.mu == MU,
        tree.depth == depth,
        tree.phase == IdenticalPhase::Setup,
        tree.remaining() == depth + 3,
{
    let old_block = make_old_block(W);
    let d_old = identical_digests(W, MU, depth, &old_block);
    IdenticalTree {
        w: W,
        mu: MU,
        depth,
        old_block,
        d_old,
        proved: 0,
        phase: IdenticalPhase::Setup,
        setup_time: Duration::zero(),
        build_time: Duration::zero(),
    }
}

/// A prover without error never makes the construction fail. As each such event
/// is one less to wait for, the tree is built in the end.
pub proof fn lemma_answers_build_the_tree(tree: IdenticalTree, event: IdenticalEvent)
    requires
        tree.wf(),
        tree.answers(event),
    ensures
        !(tree.phase_after(event) is Failed),
{
}

/// A representative is taken in only with the digest of the bytes that were handed
/// out for its level.
pub proof fn lemma_wrong_representatives_fail(tree: IdenticalTree, digest: [u8; 32])
    requires
        tree.wf(),
        tree.phase is Nodes,
    ensures
        tree.phase_after(IdenticalEvent::Proved { digest }) is Failed <==> digest@ != sha256_of(
            tree.input(tree.proved as nat),
        ),
{
    lemma_honest_representative(tree);
}

/// An error or what was not asked for ends a construction that is under way, and one
/// that is over stays as it is.
pub proof fn lemma_only_answers_go_on(tree: IdenticalTree, event: IdenticalEvent)
    ensures
        tree.phase is Built || tree.phase is Failed ==> tree.phase_after(event) == tree.phase,
        !(tree.phase is Built || tree.phase is Failed) && event is Error ==> tree.phase_after(event)
            == IdenticalPhase::Failed(RunFailure::Backend),
        !(tree.phase is Built || tree.phase is Failed) && !(event is Error) && !(tree.phase is Setup
            && event is SetUp) && !(tree.phase is Nodes && event is Proved) && !(
        tree.phase is Verify && event is Verified) ==> tree.phase_after(event)
            == IdenticalPhase::Failed(RunFailure::OutOfOrder),
{
}

} // verus!
