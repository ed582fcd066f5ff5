//! Update of a single leaf: the leaf is proved anew, and the path from it to
//! the root is merged anew with the siblings that did not change.

use crate::bench_common::{sum_durations, total_nanos, Duration, MAX_NANOS};
use crate::hash::{same_digest, sha256_native, sha256_of};
use crate::hypernova_pcd::identical::{build_identical_tree, identical_digest,
    lemma_answers_build_the_tree, lemma_identical, lemma_old_block, old_block_of, repeated,
    IdenticalAction, IdenticalEvent, IdenticalPhase, IdenticalTree};
use crate::hypernova_pcd::retry::RunFailure;
use crate::hypernova_pcd::tree::{children, join, leaf_layer, lemma_bucket_splits,
    lemma_remainder_moves, lemma_root_is_top, lemma_subtree_children, lemma_tree_size_grows,
    lemma_tree_size_pos, merkle_root, resized, subtree, tree_size};
use vstd::arithmetic::div_mod::lemma_fundamental_div_mod_converse;
use vstd::prelude::*;
use vstd::slice::slice_subrange;

verus! {

/// The children of a node on the path of the updated leaf: the path's own
/// digest, and the unchanged siblings.
pub open spec fn path_children(below: Seq<u8>, sibling: Seq<u8>, mu: nat) -> Seq<Seq<u8>> {
    seq![below] + repeated(sibling, (mu - 1) as nat)
}

/// Digest on level `k` of the path from the updated leaf 0.
pub open spec fn updated_digest(
    w: nat,
    mu: nat,
    old_block: Seq<u8>,
    new_block: Seq<u8>,
    k: nat,
) -> Seq<u8>
    decreases k,
{
    if k == 0 {
        sha256_of(new_block)
    } else {
        let below = updated_digest(w, mu, old_block, new_block, (k - 1) as nat);
        let sibling = identical_digest(w, mu, old_block, (k - 1) as nat);
        sha256_of(resized(join(path_children(below, sibling, mu)), 32 * w))
    }
}

/// `n` equal blocks, of which the first was replaced.
pub open spec fn updated_blocks(n: nat, old_block: Seq<u8>, new_block: Seq<u8>) -> Seq<Seq<u8>> {
    repeated(old_block, n).update(0, new_block)
}

/// The path's digests are the leftmost nodes of the tree over the updated
/// blocks.
proof fn lemma_path_is_leftmost(
    w: nat,
    mu: nat,
    depth: nat,
    old_block: Seq<u8>,
    new_block: Seq<u8>,
    k: nat,
)
    requires
        mu >= 1,
        k <= depth,
    ensures
        subtree(
            Some(w),
            mu,
            leaf_layer(updated_blocks(tree_size(mu, depth), old_block, new_block)),
            k,
            0,
        ) == updated_digest(w, mu, old_block, new_block, k),
    decreases k,
{
    let n = tree_size(mu, depth);
    let leaves = leaf_layer(updated_blocks(n, old_block, new_block));
    lemma_tree_size_pos(mu, depth);
    if k > 0 {
        let j = (k - 1) as nat;
        let below = updated_digest(w, mu, old_block, new_block, j);
        let sibling = identical_digest(w, mu, old_block, j);
        let kids = children(Some(w), mu, leaves, k, 0);
        let parts = path_children(below, sibling, mu);
        let s = tree_size(mu, j);
        lemma_tree_size_pos(mu, j);
        lemma_tree_size_grows(mu, k, depth);
        assert forall|c: int| 0 <= c < mu implies kids[c] == parts[c] by {
            if c == 0 {
                lemma_path_is_leftmost(w, mu, depth, old_block, new_block, j);
            } else {
                assert((c + 1) * s <= mu * s) by (nonlinear_arith)
                    requires
                        c + 1 <= mu,
                ;
                assert(1 <= c * s) by (nonlinear_arith)
                    requires
                        1 <= c,
                        1 <= s,
                ;
                let pos = c as nat;
                assert((pos + 1) * s <= leaves.len());
                lemma_identical(w, mu, old_block, leaves, j, pos);
            }
        }
        assert(kids =~= parts);
        lemma_subtree_children(Some(w), mu, leaves, k, 0);
    }
}

/// Updating one leaf and merging its path anew with the stored siblings gives
/// the root of the tree over the updated blocks.
pub proof fn lemma_update_is_root(
    w: nat,
    mu: nat,
    depth: nat,
    old_block: Seq<u8>,
    new_block: Seq<u8>,
)
    requires
        mu >= 2,
    ensures
        updated_digest(w, mu, old_block, new_block, depth) == merkle_root(
            Some(w),
            mu,
            updated_blocks(tree_size(mu, depth), old_block, new_block),
        ),
{
    lemma_tree_size_pos(mu, depth);
    lemma_path_is_leftmost(w, mu, depth, old_block, new_block, depth);
    lemma_root_is_top(
        Some(w),
        mu,
        updated_blocks(tree_size(mu, depth), old_block, new_block),
        depth,
    );
}

/// Some full tree of the given arity has `n` leaves.
pub open spec fn is_tree_size(arity: nat, n: nat) -> bool {
    n > 0 && exists|d: nat| #[trigger] tree_size(arity, d) == n
}

/// The depth of a full tree with `n` leaves; nothing if no full tree of that
/// arity has so many.
pub fn exact_log(arity: usize, n: usize) -> (depth: Option<usize>)
    requires
        n > 1 ==> arity >= 2,
    ensures
        depth is Some <==> is_tree_size(arity as nat, n as nat),
        depth matches Some(d) ==> tree_size(arity as nat, d as nat) == n && d < n,
{
    if n == 0 {
        return None;
    }
    if n == 1 {
        assert(tree_size(arity as nat, 0) == n);
        return Some(0);
    }
    let mut d: usize = 0;
    let mut m: usize = 1;
    while m < n
        invariant
            n > 1,
            arity >= 2,
            m == tree_size(arity as nat, d as nat),
            d < m,
            d > 0 ==> tree_size(arity as nat, (d - 1) as nat) < n,
        decreases usize::MAX - m,
    {
        if m > usize::MAX / arity {
            proof {
                assert(arity * m > usize::MAX) by (nonlinear_arith)
                    requires
                        m > usize::MAX as int / arity as int,
                        arity >= 2,
                ;
                lemma_skips(arity as nat, n as nat, d as nat);
            }
            return None;
        }
        proof {
            assert(arity * m <= usize::MAX) by (nonlinear_arith)
                requires
                    m <= usize::MAX as int / arity as int,
                    arity >= 2,
            ;
            assert(m < arity * m) by (nonlinear_arith)
                requires
                    m >= 1,
                    arity >= 2,
            ;
        }
        m = arity * m;
        d = d + 1;
    }
    if m == n {
        assert(tree_size(arity as nat, d as nat) == n);
        Some(d)
    } else {
        proof {
            lemma_skips(arity as nat, n as nat, (d - 1) as nat);
        }
        None
    }
}

/// A number between the sizes of two consecutive full trees is no size.
proof fn lemma_skips(arity: nat, n: nat, d: nat)
    requires
        arity >= 2,
        tree_size(arity, d) < n < tree_size(arity, d + 1),
    ensures
        forall|e: nat| #[trigger] tree_size(arity, e) != n,
{
    assert forall|e: nat| #[trigger] tree_size(arity, e) != n by {
        if e <= d {
            lemma_tree_size_grows(arity, e, d);
        } else {
            lemma_tree_size_grows(arity, d + 1, e);
        }
    }
}

/// Byte `j` of the block that the updated leaf receives.
pub open spec fn new_byte(j: int) -> u8 {
    ((0x35 * (j + 7)) % 256) as u8
}

/// The block that the updated leaf receives.
pub open spec fn new_block_of(w: nat) -> Seq<u8> {
    Seq::new(32 * w, |j: int| new_byte(j))
}

fn make_new_block(w: usize) -> (block: Vec<u8>)
    requires
        32 * w <= usize::MAX,
    ensures
        block@ == new_block_of(w as nat),
{
    let mut block: Vec<u8> = Vec::with_capacity(32 * w);
    for j in 0..32 * w
        invariant
            32 * w <= usize::MAX,
            block@.len() == j,
            forall|i: int| 0 <= i < j ==> #[trigger] block@[i] == new_byte(i),
    {
        let r: u32 = (j % 256) as u32;
        let product: u32 = 0x35 * (r + 7);
        proof {
            let q = j as int / 256;
            assert(0x35 * (j + 7) == 256 * (0x35 * q) + product);
            lemma_fundamental_div_mod_converse(
                0x35 * (j + 7),
                256,
                0x35 * q + product as int / 256,
                product as int % 256,
            );
        }
        block.push((product % 256) as u8);
    }
    assert(block@ =~= new_block_of(w as nat));
    block
}

/// The block that the updated leaf receives: its first byte is 115, and every
/// byte is 53 more than the one before, modulo 256.
pub proof fn lemma_new_block(w: nat, j: int)
    requires
        0 <= j < 32 * w,
    ensures
        new_block_of(w).len() == 32 * w,
        new_block_of(w)[0] == 115,
        j + 1 < 32 * w ==> (new_block_of(w)[j + 1] - new_block_of(w)[j]) % 256 == 53,
{
    let x = 0x35 * (j + 7);
    lemma_remainder_moves(x, 53);
    assert(new_block_of(w)[0] == new_byte(0));
    assert(new_block_of(w)[j] == new_byte(j) && new_byte(j) as int == x % 256);
    if j + 1 < 32 * w {
        assert(new_block_of(w)[j + 1] == new_byte(j + 1));
        assert(new_byte(j + 1) as int == (x + 53) % 256);
    }
}

/// No two of 256 consecutive bytes of the new block are equal.
pub proof fn lemma_new_block_varies(w: nat, i: int, j: int)
    requires
        0 <= i < j < 32 * w,
        j - i < 256,
    ensures
        new_block_of(w)[i] != new_block_of(w)[j],
{
    if new_block_of(w)[i] == new_block_of(w)[j] {
        assert(new_block_of(w)[i] as int == (53 * (i + 7)) % 256);
        assert(new_block_of(w)[j] as int == (53 * (j + 7)) % 256);
        lemma_places_apart(i, j);
    }
}

/// 53 has the inverse 29 modulo 256, so a product with it is a multiple of 256 only
/// if the other factor is.
proof fn lemma_places_apart(i: int, j: int)
    requires
        (53 * (i + 7)) % 256 == (53 * (j + 7)) % 256,
    ensures
        (j - i) % 256 == 0,
{
    assert((53 * (j - i)) % 256 == 0);
    let q = (53 * (j - i)) / 256;
    assert(j - i == 256 * (29 * q - 6 * (j - i)));
}

/// The updated leaf does not keep its block.
pub proof fn lemma_new_block_is_new(w: nat)
    requires
        w > 0,
    ensures
        new_block_of(w).len() == old_block_of(w).len(),
        new_block_of(w) != old_block_of(w),
{
    lemma_old_block(w, 0);
    lemma_new_block(w, 0);
}

/// Timing of one node on the path of the updated leaf.
#[derive(Clone, Copy, Debug)]
pub struct UpdatePathTiming {
    /// 0 for the leaf, `k` for the `k`-th merge on its path to the root.
    pub level: usize,
    pub prove_time: Duration,
    pub retries: usize,
}

/// Timing and memory report of a single-leaf update.
#[derive(Clone, Debug)]
pub struct UpdateReport {
    pub arity: usize,
    /// Bytes hashed per node.
    pub bucket_bytes: usize,
    pub depth: usize,
    pub n_leaves: usize,
    /// Cryptographic setup.
    pub setup_time: Duration,
    /// Construction of the tree before the update.
    pub initial_tree_time: Duration,
    pub setup_peak_mem: Option<usize>,
    /// The measured update: the leaf and the merges on its path.
    pub path: Vec<UpdatePathTiming>,
    pub update_peak_mem: Option<usize>,
    pub decider_time: Option<Duration>,
    pub decider_peak_mem: Option<usize>,
    pub verify_time: Duration,
    pub new_root: [u8; 32],
}

/// The proof times along a path.
pub open spec fn path_times(path: Seq<UpdatePathTiming>) -> Seq<Duration> {
    path.map_values(|p: UpdatePathTiming| p.prove_time)
}

impl UpdateReport {
    /// Total time of the update.
    pub fn total_update_time(&self) -> (d: Duration)
        requires
            total_nanos(path_times(self.path@)) <= MAX_NANOS,
        ensures
            d.nanos == total_nanos(path_times(self.path@)),
    {
        let mut times: Vec<Duration> = Vec::with_capacity(self.path.len());
        for i in 0..self.path.len()
            invariant
                times@ == path_times(self.path@).take(i as int),
        {
            times.push(self.path[i].prove_time);
            assert(times@ =~= path_times(self.path@).take(i + 1));
        }
        assert(times@ =~= path_times(self.path@));
        sum_durations(times.as_slice())
    }
}

pub struct UpdateOptions {
    pub n_leaves: usize,
    pub run_decider: bool,
}

#[derive(Clone, Copy, Debug, PartialEq, Eq, Structural)]
pub enum UpdatePhase {
    /// The tree before the update is being built.
    Tree,
    Path,
    Verify,
    Decider,
    Finished,
    Failed(RunFailure),
}

/// What the prover is to do next.
pub enum UpdateAction {
    /// Build the tree before the update, measuring from a reset peak; reset
    /// the peak again once it is built.
    Tree(IdenticalAction),
    /// Start a chain on `z` and fold the trivial accumulators into it.
    ProveLeaf { z: Vec<u8>, ext: Vec<u8> },
    /// Continue the chain and fold copies of the representative of level
    /// `level - 1` into it.
    Merge { level: usize, ext: Vec<u8> },
    /// Verify the updated root's proof.
    VerifyRoot,
    /// Make and verify the decider proof, measuring from a reset peak.
    Decide,
    /// Nothing: the run is over.
    Stop,
}

/// What the prover did.
#[derive(Clone, Copy, Debug)]
pub enum UpdateEvent {
    Tree { event: IdenticalEvent, peak: Option<usize> },
    Proved { digest: [u8; 32], time: Duration, retries: usize, peak: Option<usize> },
    RootVerified { time: Duration },
    Decided { time: Duration, peak: Option<usize>, accepted: bool, verify_time: Duration },
    Error,
}

/// A single-leaf update of a tree over equal blocks.
pub struct UpdateRun {
    pub n_leaves: usize,
    pub run_decider: bool,
    pub phase: UpdatePhase,
    pub tree: IdenticalTree,
    pub new_block: Vec<u8>,
    /// Digests on the path proved so far.
    pub digests: Vec<[u8; 32]>,
    pub path: Vec<UpdatePathTiming>,
    pub setup_peak_mem: Option<usize>,
    pub update_peak_mem: Option<usize>,
    pub verify_time: Duration,
    pub decider_time: Option<Duration>,
    pub decider_peak_mem: Option<usize>,
}

impl UpdateRun {
    /// Digest on level `k` of the path of the updated leaf.
    pub open spec fn path_digest(self, k: nat) -> Seq<u8> {
        updated_digest(
            self.tree.w as nat,
            self.tree.mu as nat,
            old_block_of(self.tree.w as nat),
            new_block_of(self.tree.w as nat),
            k,
        )
    }

    /// The digests that came back are those of the path.
    pub open spec fn follows_path(self) -> bool {
        forall|k: int|
            0 <= k < self.digests@.len() ==> (#[trigger] self.digests@[k])@ == self.path_digest(
                k as nat,
            )
    }

    /// The event is what a prover without error reports: what was asked for,
    /// with the digest of the bytes handed out.
    pub open spec fn answers(self, event: UpdateEvent) -> bool {
        match (self.phase, event) {
            (UpdatePhase::Tree, UpdateEvent::Tree { event: inner, .. }) => self.tree.answers(inner),
            (UpdatePhase::Path, UpdateEvent::Proved { .. }) => self.honest(event),
            (UpdatePhase::Verify, UpdateEvent::RootVerified { .. }) => true,
            (UpdatePhase::Decider, UpdateEvent::Decided { accepted, .. }) => accepted,
            _ => false,
        }
    }

    /// Events that the run still waits for before it is finished.
    pub open spec fn remaining(self) -> int {
        let decider: int = if self.run_decider {
            1
        } else {
            0
        };
        match self.phase {
            UpdatePhase::Tree => self.tree.remaining() + self.tree.depth + 2 + decider,
            UpdatePhase::Path => self.tree.depth + 2 - self.digests@.len() + decider,
            UpdatePhase::Verify => 1 + decider,
            UpdatePhase::Decider => 1,
            UpdatePhase::Finished => 0,
            UpdatePhase::Failed(_) => 0,
        }
    }

    pub open spec fn wf(self) -> bool {
        &&& self.tree.wf()
        &&& 2 <= self.tree.mu
        &&& 1 <= self.tree.depth
        &&& self.n_leaves == tree_size(self.tree.mu as nat, self.tree.depth as nat)
        &&& self.new_block@ == new_block_of(self.tree.w as nat)
        &&& self.digests@.len() == self.path@.len()
        &&& self.digests@.len() <= self.tree.depth + 1
        &&& forall|l: int| 0 <= l < self.path@.len() ==> (#[trigger] self.path@[l]).level == l
        &&& match self.phase {
            UpdatePhase::Tree => self.digests@.len() == 0 && !(self.tree.phase is Built) && !(
            self.tree.phase is Failed),
            UpdatePhase::Path => self.tree.phase is Built && self.digests@.len() <= self.tree.depth,
            UpdatePhase::Verify => self.digests@.len() == self.tree.depth + 1,
            UpdatePhase::Decider => self.run_decider && self.digests@.len() == self.tree.depth + 1
                && self.digests@.last()@ == self.path_digest(self.tree.depth as nat),
            UpdatePhase::Finished => self.digests@.len() == self.tree.depth + 1
                && self.digests@.last()@ == self.path_digest(self.tree.depth as nat) && (
            self.run_decider == (self.decider_time is Some)),
            UpdatePhase::Failed(_) => true,
        }
        &&& (self.phase is Tree || self.phase is Path || self.phase is Verify
            || self.phase is Decider) ==> self.decider_time is None && self.decider_peak_mem is None
    }

    /// The bytes that the next node of the path hashes.
    pub open spec fn input(self) -> Seq<u8> {
        let k = self.digests@.len();
        if k == 0 {
            new_block_of(self.tree.w as nat)
        } else {
            resized(
                join(
                    path_children(
                        self.digests@[k - 1]@,
                        self.tree.digest_at((k - 1) as nat),
                        self.tree.mu as nat,
                    ),
                ),
                32 * self.tree.w as nat,
            )
        }
    }

    /// The phase that an event leads to.
    pub open spec fn phase_after(self, event: UpdateEvent) -> UpdatePhase {
        match (self.phase, event) {
            (UpdatePhase::Finished, _) => self.phase,
            (UpdatePhase::Failed(_), _) => self.phase,
            (_, UpdateEvent::Error) => UpdatePhase::Failed(RunFailure::Backend),
            (UpdatePhase::Tree, UpdateEvent::Tree { event, .. }) => match self.tree.phase_after(
                event,
            ) {
                IdenticalPhase::Built => UpdatePhase::Path,
                IdenticalPhase::Failed(why) => UpdatePhase::Failed(why),
                _ => UpdatePhase::Tree,
            },
            (UpdatePhase::Path, UpdateEvent::Proved { .. }) => if self.digests@.len()
                == self.tree.depth {
                UpdatePhase::Verify
            } else {
                UpdatePhase::Path
            },
            (UpdatePhase::Verify, UpdateEvent::RootVerified { .. }) => if self.digests@.last()@
                != self.path_digest(self.tree.depth as nat) {
                UpdatePhase::Failed(RunFailure::Diverged)
            } else if self.run_decider {
                UpdatePhase::Decider
            } else {
                UpdatePhase::Finished
            },
            (UpdatePhase::Decider, UpdateEvent::Decided { accepted, .. }) => if accepted {
                UpdatePhase::Finished
            } else {
                UpdatePhase::Failed(RunFailure::Rejected)
            },
            _ => UpdatePhase::Failed(RunFailure::OutOfOrder),
        }
    }

    /// The event is what an honest prover reports of the path.
    pub open spec fn honest(self, event: UpdateEvent) -> bool {
        event matches UpdateEvent::Proved { digest, .. } ==> digest@ == sha256_of(self.input())
    }

    /// The job is the same.
    pub open spec fn same_job(self, before: UpdateRun) -> bool {
        &&& self.n_leaves == before.n_leaves
        &&& self.run_decider == before.run_decider
        &&& self.tree.w == before.tree.w
        &&& self.tree.mu == before.tree.mu
        &&& self.tree.depth == before.tree.depth
    }

    /// The root that the native path leads to.
    fn expected_root(&self) -> (root: [u8; 32])
        requires
            self.wf(),
        ensures
            root@ == self.path_digest(self.tree.depth as nat),
    {
        let mut expected = sha256_native(self.new_block.as_slice());
        for k in 1..self.tree.depth + 1
            invariant
                self.wf(),
                1 <= k <= self.tree.depth + 1,
                expected@ == self.path_digest((k - 1) as nat),
        {
            let mut bucket: Vec<u8> = Vec::with_capacity(32 * self.tree.w);
            bucket.extend_from_slice(expected.as_slice());
            let mut rest = self.tree.sibling_bytes(k);
            bucket.append(&mut rest);
            proof {
                self.lemma_path_bucket((k - 1) as nat, expected@);
                assert(bucket@ =~= expected@ + resized(
                    join(
                        repeated(
                            self.tree.digest_at((k - 1) as nat),
                            (self.tree.mu - 1) as nat,
                        ),
                    ),
                    (32 * (self.tree.w - 1)) as nat,
                ));
            }
            expected = sha256_native(bucket.as_slice());
        }
        expected
    }

    /// The bucket of a node on the path is the digest below and the padded
    /// siblings.
    proof fn lemma_path_bucket(self, k: nat, below: Seq<u8>)
        requires
            self.wf(),
            k < self.tree.depth,
            below.len() == 32,
        ensures
            resized(
                join(path_children(below, self.tree.digest_at(k), self.tree.mu as nat)),
                32 * self.tree.w as nat,
            ) == below + resized(
                join(repeated(self.tree.digest_at(k), (self.tree.mu - 1) as nat)),
                (32 * (self.tree.w - 1)) as nat,
            ),
    {
        let parts = path_children(below, self.tree.digest_at(k), self.tree.mu as nat);
        assert(parts.skip(1) =~= repeated(self.tree.digest_at(k), (self.tree.mu - 1) as nat));
        lemma_bucket_splits(parts, self.tree.w as nat);
    }
}

/// Starts a single-leaf update, with buckets of `W` digests.
pub fn run_update2<const W: usize, const MU: usize>(opts: &UpdateOptions) -> (run: UpdateRun)
    requires
        2 <= MU <= W,
        32 * W <= usize::MAX,
        opts.n_leaves >= 2,
        is_tree_size(MU as nat, opts.n_leaves as nat),
    ensures
        run.wf(),
        run.phase == UpdatePhase::Tree,
        run.tree.phase == IdenticalPhase::Setup,
        run.n_leaves == opts.n_leaves,
        run.run_decider == opts.run_decider,
        run.tree.w == W,
        run.tree.mu == MU,
{
    let depth = match exact_log(MU, opts.n_leaves) {
        Some(d) => d,
        None => 0,
    };
    UpdateRun {
        n_leaves: opts.n_leaves,
        run_decider: opts.run_decider,
        phase: UpdatePhase::Tree,
        tree: build_identical_tree::<W, MU>(depth),
        new_block: make_new_block(W),
        digests: Vec::new(),
        path: Vec::new(),
        setup_peak_mem: None,
        update_peak_mem: None,
        verify_time: Duration::zero(),
        decider_time: None,
        decider_peak_mem: None,
    }
}

/// Starts a single-leaf update whose buckets are as wide as the tree's arity.
pub fn run_update<const ARITY: usize>(opts: &UpdateOptions) -> (run: UpdateRun)
    requires
        2 <= ARITY,
        32 * ARITY <= usize::MAX,
        opts.n_leaves >= 2,
        is_tree_size(ARITY as nat, opts.n_leaves as nat),
    ensures
        run.wf(),
        run.phase == UpdatePhase::Tree,
        run.tree.phase == IdenticalPhase::Setup,
        run.n_leaves == opts.n_leaves,
        run.run_decider == opts.run_decider,
        run.tree.w == ARITY,
        run.tree.mu == ARITY,
{
    run_update2::<ARITY, ARITY>(opts)
}

impl UpdateRun {
    /// What the prover is to do next.
    pub fn action(&self) -> (action: UpdateAction)
        requires
            self.wf(),
        ensures
            match self.phase {
                UpdatePhase::Tree => action matches UpdateAction::Tree(inner) && match self.tree.phase {
                    IdenticalPhase::Setup => inner is Setup,
                    IdenticalPhase::Nodes => if self.tree.proved == 0 {
                        inner matches IdenticalAction::ProveLeaf { z, ext } && z@.len() == 32 && z@
                            + ext@ == self.tree.input(0)
                    } else {
                        inner matches IdenticalAction::ProveLevel { level, ext } && level
                            == self.tree.proved && self.tree.digest_at((level - 1) as nat) + ext@
                            == self.tree.input(level as nat)
                    },
                    _ => inner is VerifyTop,
                },
                UpdatePhase::Path => if self.digests@.len() == 0 {
                    action matches UpdateAction::ProveLeaf { z, ext } && z@.len() == 32 && z@ + ext@
                        == self.input()
                } else {
                    action matches UpdateAction::Merge { level, ext } && level
                        == self.digests@.len() && self.digests@[level - 1]@ + ext@ == self.input()
                },
                UpdatePhase::Verify => action is VerifyRoot,
                UpdatePhase::Decider => action is Decide,
                _ => action is Stop,
            },
    {
        match self.phase {
            UpdatePhase::Tree => UpdateAction::Tree(self.tree.action()),
            UpdatePhase::Path => {
                let level = self.digests.len();
                if level == 0 {
                    let block = self.new_block.as_slice();
                    let mut z: Vec<u8> = Vec::with_capacity(32);
                    z.extend_from_slice(slice_subrange(block, 0, 32));
                    let mut ext: Vec<u8> = Vec::with_capacity(32 * (self.tree.w - 1));
                    ext.extend_from_slice(slice_subrange(block, 32, 32 * self.tree.w));
                    assert(z@ + ext@ =~= block@);
                    UpdateAction::ProveLeaf { z, ext }
                } else {
                    proof {
                        self.lemma_path_bucket((level - 1) as nat, self.digests@[level - 1]@);
                    }
                    UpdateAction::Merge { level, ext: self.tree.sibling_bytes(level) }
                }
            },
            UpdatePhase::Verify => UpdateAction::VerifyRoot,
            UpdatePhase::Decider => UpdateAction::Decide,
            UpdatePhase::Finished => UpdateAction::Stop,
            UpdatePhase::Failed(_) => UpdateAction::Stop,
        }
    }

    /// Takes in what the prover did.
    pub fn advance(&mut self, event: UpdateEvent)
        requires
            old(self).wf(),
            event matches UpdateEvent::Decided { verify_time, .. } ==> old(self).verify_time.nanos
                + verify_time.nanos <= MAX_NANOS,
        ensures
            final(self).wf(),
            final(self).same_job(*old(self)),
            final(self).phase == old(self).phase_after(event),
            old(self).follows_path() && old(self).honest(event) ==> final(self).follows_path(),
            old(self).phase is Tree ==> (event matches UpdateEvent::Tree { event: inner, peak }
                ==> {
                &&& final(self).tree.phase == old(self).tree.phase_after(inner)
                &&& final(self).tree.setup_time == (match (old(self).tree.phase, inner) {
                    (IdenticalPhase::Setup, IdenticalEvent::SetUp { time }) => time,
                    _ => old(self).tree.setup_time,
                })
                &&& final(self).tree.build_time == (match (old(self).tree.phase, inner) {
                    (IdenticalPhase::Verify, IdenticalEvent::Verified { build_time }) => build_time,
                    _ => old(self).tree.build_time,
                })
                &&& final(self).tree.proved == (if old(self).tree.phase is Nodes && inner is Proved
                    && !(final(self).tree.phase is Failed) {
                    old(self).tree.proved + 1
                } else {
                    old(self).tree.proved as int
                })
                &&& final(self).setup_peak_mem == peak
            }),
            !(old(self).phase is Tree && event is Tree) ==> final(self).tree == old(self).tree
                && final(self).setup_peak_mem == old(self).setup_peak_mem,
            old(self).phase is Path ==> (event matches UpdateEvent::Proved {
                digest,
                time,
                retries,
                peak,
            } ==> {
                &&& final(self).digests@ == old(self).digests@.push(digest)
                &&& final(self).path@ == old(self).path@.push(
                    UpdatePathTiming {
                        level: old(self).digests@.len() as usize,
                        prove_time: time,
                        retries,
                    },
                )
                &&& final(self).update_peak_mem == peak
            }),
            !(old(self).phase is Path && event is Proved) ==> final(self).digests == old(
                self,
            ).digests && final(self).path == old(self).path && final(self).update_peak_mem == old(
                self,
            ).update_peak_mem,
            old(self).phase is Verify ==> (event matches UpdateEvent::RootVerified { time }
                ==> final(self).verify_time == time),
            old(self).phase is Decider ==> (event matches UpdateEvent::Decided {
                time,
                peak,
                accepted: true,
                verify_time,
            } ==> {
                &&& final(self).decider_time == Some(time)
                &&& final(self).decider_peak_mem == peak
                &&& final(self).verify_time.nanos == old(self).verify_time.nanos + verify_time.nanos
            }),
            !(old(self).phase is Verify && event is RootVerified) && !(old(self).phase is Decider
                && event is Decided) ==> final(self).verify_time == old(self).verify_time,
            !(old(self).phase is Decider && event is Decided) ==> final(self).decider_time == old(
                self,
            ).decider_time && final(self).decider_peak_mem == old(self).decider_peak_mem,
            !(old(self).phase is Finished) && !(final(self).phase is Failed)
                ==> final(self).remaining() == old(self).remaining() - 1,
    {
        match self.phase {
            UpdatePhase::Finished => {
                return ;
            },
            UpdatePhase::Failed(_) => {
                return ;
            },
            _ => {},
        }
        if let UpdateEvent::Error = event {
            self.phase = UpdatePhase::Failed(RunFailure::Backend);
            return ;
        }
        match (self.phase, event) {
            (UpdatePhase::Tree, UpdateEvent::Tree { event: inner, peak }) => {
                self.tree.advance(inner);
                self.setup_peak_mem = peak;
                match self.tree.phase {
                    IdenticalPhase::Built => {
                        self.phase = UpdatePhase::Path;
                    },
                    IdenticalPhase::Failed(why) => {
                        self.phase = UpdatePhase::Failed(why);
                    },
                    _ => {},
                }
            },
            (UpdatePhase::Path, UpdateEvent::Proved { digest, time, retries, peak }) => {
                let ghost before = *self;
                let level = self.digests.len();
                self.digests.push(digest);
                self.path.push(UpdatePathTiming { level, prove_time: time, retries });
                self.update_peak_mem = peak;
                if level == self.tree.depth {
                    self.phase = UpdatePhase::Verify;
                }
                proof {
                    if before.follows_path() && before.honest(event) {
                        assert forall|k: int| 0 <= k < self.digests@.len() implies (
                        #[trigger] self.digests@[k])@ == self.path_digest(k as nat) by {
                            if k < level {
                                assert(before.digests@[k]@ == before.path_digest(k as nat));
                            } else if k > 0 {
                                assert(before.digests@[k - 1]@ == before.path_digest(
                                    (k - 1) as nat,
                                ));
                            }
                        }
                    }
                }
            },
            (UpdatePhase::Verify, UpdateEvent::RootVerified { time }) => {
                self.verify_time = time;
                let root = self.digests[self.digests.len() - 1];
                let expected = self.expected_root();
                if !same_digest(&root, &expected) {
                    self.phase = UpdatePhase::Failed(RunFailure::Diverged);
                } else if self.run_decider {
                    self.phase = UpdatePhase::Decider;
                } else {
                    self.phase = UpdatePhase::Finished;
                }
            },
            (
                UpdatePhase::Decider,
                UpdateEvent::Decided { time, peak, accepted, verify_time },
            ) => {
                if accepted {
                    self.decider_time = Some(time);
                    self.decider_peak_mem = peak;
                    self.verify_time = self.verify_time.plus(verify_time);
                    self.phase = UpdatePhase::Finished;
                } else {
                    self.phase = UpdatePhase::Failed(RunFailure::Rejected);
                }
            },
            _ => {
                self.phase = UpdatePhase::Failed(RunFailure::OutOfOrder);
            },
        }
    }

    /// The report of a finished run. Its root is the root over the blocks of
    /// which the first was replaced.
    pub fn report(self) -> (report: UpdateReport)
        requires
            self.wf(),
            self.phase is Finished,
        ensures
            report.arity == self.tree.mu,
            report.bucket_bytes == 32 * self.tree.w,
            report.depth == self.tree.depth,
            report.n_leaves == self.n_leaves,
            report.setup_time == self.tree.setup_time,
            report.initial_tree_time == self.tree.build_time,
            report.setup_peak_mem == self.setup_peak_mem,
            report.path == self.path,
            report.path@.len() == self.tree.depth + 1,
            forall|l: int| 0 <= l <= self.tree.depth ==> (#[trigger] report.path@[l]).level == l,
            report.update_peak_mem == self.update_peak_mem,
            report.decider_time == self.decider_time,
            report.decider_peak_mem == self.decider_peak_mem,
            report.verify_time == self.verify_time,
            report.new_root == self.digests@.last(),
            report.new_root@ == merkle_root(
                Some(self.tree.w as nat),
                self.tree.mu as nat,
                updated_blocks(
                    self.n_leaves as nat,
                    old_block_of(self.tree.w as nat),
                    new_block_of(self.tree.w as nat),
                ),
            ),
    {
        proof {
            lemma_update_is_root(
                self.tree.w as nat,
                self.tree.mu as nat,
                self.tree.depth as nat,
                old_block_of(self.tree.w as nat),
                new_block_of(self.tree.w as nat),
            );
        }
        let new_root = self.digests[self.digests.len() - 1];
        UpdateReport {
            arity: self.tree.mu,
            bucket_bytes: 32 * self.tree.w,
            depth: self.tree.depth,
            n_leaves: self.n_leaves,
            setup_time: self.tree.setup_time,
            initial_tree_time: self.tree.build_time,
            setup_peak_mem: self.setup_peak_mem,
            path: self.path,
            update_peak_mem: self.update_peak_mem,
            decider_time: self.decider_time,
            decider_peak_mem: self.decider_peak_mem,
            verify_time: self.verify_time,
            new_root,
        }
    }
}

/// The proof times along a path are the nodes' own.
pub proof fn lemma_path_times(path: Seq<UpdatePathTiming>, i: int)
    requires
        0 <= i < path.len(),
    ensures
        path_times(path).len() == path.len(),
        path_times(path)[i] == path[i].prove_time,
{
}

/// An update replaces the first block and keeps the others.
pub proof fn lemma_updated_blocks(n: nat, old_block: Seq<u8>, new_block: Seq<u8>, i: int)
    requires
        0 <= i < n,
    ensures
        updated_blocks(n, old_block, new_block).len() == n,
        updated_blocks(n, old_block, new_block)[0] == new_block,
        i > 0 ==> updated_blocks(n, old_block, new_block)[i] == old_block,
{
}

/// An update ends well only with the root over the blocks of which the first was
/// replaced and, where a decider was asked for, with an accepted decider proof.
pub proof fn lemma_only_the_updated_root_passes(run: UpdateRun, event: UpdateEvent)
    requires
        run.wf(),
        !(run.phase is Finished),
        run.phase_after(event) is Finished,
    ensures
        run.digests@.last()@ == merkle_root(
            Some(run.tree.w as nat),
            run.tree.mu as nat,
            updated_blocks(
                run.n_leaves as nat,
                old_block_of(run.tree.w as nat),
                new_block_of(run.tree.w as nat),
            ),
        ),
        run.run_decider ==> (event matches UpdateEvent::Decided { accepted, .. } && accepted),
{
    let w = run.tree.w as nat;
    lemma_update_is_root(
        w,
        run.tree.mu as nat,
        run.tree.depth as nat,
        old_block_of(w),
        new_block_of(w),
    );
}

/// An error of the prover ends an update that is under way, and one that is over
/// stays as it is.
pub proof fn lemma_errors_end_the_update(run: UpdateRun, event: UpdateEvent)
    ensures
        run.phase is Finished || run.phase is Failed ==> run.phase_after(event) == run.phase,
        !(run.phase is Finished || run.phase is Failed) && event is Error ==> run.phase_after(event)
            == UpdatePhase::Failed(RunFailure::Backend),
{
}

/// With an honest prover the updated root never diverges.
pub proof fn lemma_honest_update_does_not_diverge(run: UpdateRun, time: Duration)
    requires
        run.wf(),
        run.phase is Verify,
        run.follows_path(),
    ensures
        run.phase_after(UpdateEvent::RootVerified { time }) == (if run.run_decider {
            UpdatePhase::Decider
        } else {
            UpdatePhase::Finished
        }),
{
    assert(run.digests@[run.tree.depth as int]@ == run.path_digest(run.tree.depth as nat));
}

/// A prover without error never makes an update fail. As each such event is one
/// less to wait for, the run is finished in the end.
pub proof fn lemma_answers_finish_the_update(run: UpdateRun, event: UpdateEvent)
    requires
        run.wf(),
        run.follows_path(),
        run.answers(event),
    ensures
        !(run.phase_after(event) is Failed),
{
    if let UpdateEvent::Tree { event: inner, .. } = event {
        lemma_answers_build_the_tree(run.tree, inner);
    }
    if run.phase is Verify {
        assert(run.digests@[run.tree.depth as int]@ == run.path_digest(run.tree.depth as nat));
    }
}

/// What was not asked for ends an update that is under way.
pub proof fn lemma_only_answers_go_on(run: UpdateRun, event: UpdateEvent)
    requires
        !(run.phase is Finished || run.phase is Failed),
        !(event is Error),
        !(run.phase is Tree && event is Tree),
        !(run.phase is Path && event is Proved),
        !(run.phase is Verify && event is RootVerified),
        !(run.phase is Decider && event is Decided),
    ensures
        run.phase_after(event) == UpdatePhase::Failed(RunFailure::OutOfOrder),
{
}

/// A root that is not the one over the updated blocks ends an update, and so does a
/// decider proof that is not accepted.
pub proof fn lemma_wrong_updates_fail(run: UpdateRun, event: UpdateEvent)
    requires
        run.wf(),
    ensures
        run.phase is Verify && event is RootVerified && run.digests@.last()@ != merkle_root(
            Some(run.tree.w as nat),
            run.tree.mu as nat,
            updated_blocks(
                run.n_leaves as nat,
                old_block_of(run.tree.w as nat),
                new_block_of(run.tree.w as nat),
            ),
        ) ==> run.phase_after(event) == UpdatePhase::Failed(RunFailure::Diverged),
        run.phase is Decider && (event matches UpdateEvent::Decided { accepted, .. } && !accepted)
            ==> run.phase_after(event) == UpdatePhase::Failed(RunFailure::Rejected),
{
    let w = run.tree.w as nat;
    lemma_update_is_root(
        w,
        run.tree.mu as nat,
        run.tree.depth as nat,
        old_block_of(w),
        new_block_of(w),
    );
}

} // verus!
