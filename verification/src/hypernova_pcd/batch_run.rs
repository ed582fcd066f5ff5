//! A batch update from setup to the verified root.

use crate::bench_common::{sum_durations, total_nanos, Duration, MAX_NANOS};
use crate::hash::{same_digest, sha256_native, sha256_of};
use crate::hypernova_pcd::batch::{are_parents, batch_block_of, batch_new_block, bucket_at,
    children_at, covers_paths, has_pos, in_order, is_parent, lemma_all_paths,
    lemma_leaves_cover_paths, lemma_node_at, lemma_parent_count, lemma_parents_cover_paths,
    lemma_parents_unique, lemma_path_count, merge_tasks, node_at, on_paths, task_fits,
    task_positions, MergeTask, UpdatedNode};
use crate::hypernova_pcd::construction::{level_offset, level_size, lemma_level_size, node_count};
use crate::hypernova_pcd::identical::{build_identical_tree, lemma_answers_build_the_tree,
    old_block_of, repeated, IdenticalAction, IdenticalEvent, IdenticalPhase, IdenticalTree};
use crate::hypernova_pcd::lcg::{ascending, pick_leaves, picked, updated_leaves};
use crate::hypernova_pcd::retry::RunFailure;
use crate::hypernova_pcd::tree::{children, leaf_layer, lemma_root_is_top, lemma_subtree_children,
    merkle_root, subtree, tree_size};
use crate::hypernova_pcd::update::{exact_log, is_tree_size};
use vstd::arithmetic::div_mod::lemma_fundamental_div_mod_converse;
use vstd::prelude::*;
use vstd::slice::slice_subrange;

verus! {

/// Timing of one level of a batch update.
#[derive(Clone, Copy, Debug)]
pub struct BatchLevelTiming {
    pub level: usize,
    /// Nodes proved anew on this level.
    pub nodes: usize,
    /// Wall-clock time of the level, whose nodes are proved in parallel.
    pub wall: Duration,
    /// Sum of the times of the individual nodes.
    pub work: Duration,
    pub retries: usize,
}

/// Timing and memory report of a batch update.
#[derive(Clone, Debug)]
pub struct BatchUpdateReport {
    pub arity: usize,
    /// Bytes hashed per node.
    pub bucket_bytes: usize,
    pub depth: usize,
    pub n_leaves: usize,
    pub k: usize,
    pub setup_time: Duration,
    pub initial_tree_time: Duration,
    pub setup_peak_mem: Option<usize>,
    pub levels: Vec<BatchLevelTiming>,
    /// Wall-clock time of the whole update.
    pub total_wall: Duration,
    pub update_peak_mem: Option<usize>,
    pub verify_time: Duration,
    pub new_root: [u8; 32],
}

/// Nodes proved anew on a row of levels.
pub open spec fn total_nodes(levels: Seq<BatchLevelTiming>) -> nat
    decreases levels.len(),
{
    if levels.len() == 0 {
        0
    } else {
        total_nodes(levels.drop_last()) + levels.last().nodes as nat
    }
}

/// The work on a row of levels.
pub open spec fn works(levels: Seq<BatchLevelTiming>) -> Seq<Duration> {
    levels.map_values(|l: BatchLevelTiming| l.work)
}

proof fn lemma_total_nodes_prefix(levels: Seq<BatchLevelTiming>, n: int)
    requires
        0 <= n <= levels.len(),
    ensures
        total_nodes(levels.take(n)) <= total_nodes(levels),
    decreases levels.len(),
{
    if n == levels.len() {
        assert(levels.take(n) =~= levels);
    } else {
        lemma_total_nodes_prefix(levels.drop_last(), n);
        assert(levels.drop_last().take(n) =~= levels.take(n));
    }
}

impl BatchUpdateReport {
    /// Nodes in the union of the updated leaves' paths.
    pub fn union_nodes(&self) -> (n: usize)
        requires
            total_nodes(self.levels@) <= usize::MAX,
        ensures
            n == total_nodes(self.levels@),
    {
        let mut n: usize = 0;
        for i in 0..self.levels.len()
            invariant
                total_nodes(self.levels@) <= usize::MAX,
                n == total_nodes(self.levels@.take(i as int)),
        {
            proof {
                assert(self.levels@.take(i + 1).drop_last() =~= self.levels@.take(i as int));
                lemma_total_nodes_prefix(self.levels@, i + 1);
            }
            n = n + self.levels[i].nodes;
        }
        assert(self.levels@.take(self.levels@.len() as int) =~= self.levels@);
        n
    }

    /// Nodes on all paths, counted one by one.
    pub fn naive_nodes(&self) -> (n: usize)
        requires
            self.depth < usize::MAX,
            self.k * (self.depth + 1) <= usize::MAX,
        ensures
            n == self.k * (self.depth + 1),
    {
        self.k * (self.depth + 1)
    }

    /// Sum of the times of all nodes.
    pub fn total_work(&self) -> (d: Duration)
        requires
            total_nanos(works(self.levels@)) <= MAX_NANOS,
        ensures
            d.nanos == total_nanos(works(self.levels@)),
    {
        let mut times: Vec<Duration> = Vec::with_capacity(self.levels.len());
        for i in 0..self.levels.len()
            invariant
                times@ == works(self.levels@).take(i as int),
        {
            times.push(self.levels[i].work);
            assert(times@ =~= works(self.levels@).take(i + 1));
        }
        assert(times@ =~= works(self.levels@));
        sum_durations(times.as_slice())
    }
}

pub struct BatchUpdateOptions {
    pub n_leaves: usize,
    /// Number of distinct leaves updated at once.
    pub k: usize,
    /// Threads for each concurrent task.
    pub task_threads: usize,
}

#[derive(Clone, Copy, Debug, PartialEq, Eq, Structural)]
pub enum BatchPhase {
    /// The tree before the update is being built.
    Tree,
    Leaves,
    Merging,
    Verify,
    Finished,
    Failed(RunFailure),
}

/// A leaf to prove anew.
pub struct LeafTask {
    pub leaf: usize,
    pub z: Vec<u8>,
    pub ext: Vec<u8>,
}

/// What the prover is to do next.
pub enum BatchAction {
    /// Build the tree before the update, measuring from a reset peak; reset
    /// the peak again once it is built.
    Tree(IdenticalAction),
    /// Prove the leaves anew, each on a chain of its own.
    Leaves(Vec<LeafTask>),
    /// Merge the nodes of a level anew.
    Merge { level: usize, tasks: Vec<MergeTask> },
    /// Verify the updated root's proof.
    VerifyRoot,
    /// Nothing: the run is over.
    Stop,
}

/// A node that was proved.
#[derive(Clone, Copy, Debug)]
pub struct NodeResult {
    pub pos: usize,
    pub digest: [u8; 32],
    pub time: Duration,
    pub retries: usize,
}

/// What the prover did.
pub enum BatchEvent {
    Tree { event: IdenticalEvent, peak: Option<usize> },
    /// The nodes of a level are proved, in the order of the tasks. `elapsed`
    /// is the time since the tree was built.
    LevelProved {
        results: Vec<NodeResult>,
        wall: Duration,
        elapsed: Duration,
        peak: Option<usize>,
    },
    RootVerified { time: Duration },
    Error,
}

pub open spec fn result_positions(results: Seq<NodeResult>) -> Seq<usize> {
    results.map_values(|r: NodeResult| r.pos)
}

pub open spec fn result_nodes(results: Seq<NodeResult>) -> Seq<UpdatedNode> {
    results.map_values(|r: NodeResult| UpdatedNode { pos: r.pos, digest: r.digest })
}

pub open spec fn result_times(results: Seq<NodeResult>) -> Seq<Duration> {
    results.map_values(|r: NodeResult| r.time)
}

pub open spec fn total_retries(results: Seq<NodeResult>) -> nat
    decreases results.len(),
{
    if results.len() == 0 {
        0
    } else {
        total_retries(results.drop_last()) + results.last().retries as nat
    }
}

proof fn lemma_total_retries_prefix(results: Seq<NodeResult>, n: int)
    requires
        0 <= n <= results.len(),
    ensures
        total_retries(results.take(n)) <= total_retries(results),
    decreases results.len(),
{
    if n == results.len() {
        assert(results.take(n) =~= results);
    } else {
        lemma_total_retries_prefix(results.drop_last(), n);
        assert(results.drop_last().take(n) =~= results.take(n));
    }
}

/// The timing of a level whose nodes gave the results.
pub open spec fn level_timing(
    timing: BatchLevelTiming,
    level: int,
    results: Seq<NodeResult>,
    wall: Duration,
) -> bool {
    &&& timing.level == level
    &&& timing.nodes == results.len()
    &&& timing.wall == wall
    &&& timing.work.nanos == total_nanos(result_times(results))
    &&& timing.retries == total_retries(results)
}

fn summarize(level: usize, results: &Vec<NodeResult>, wall: Duration) -> (timing: BatchLevelTiming)
    requires
        total_nanos(result_times(results@)) <= MAX_NANOS,
        total_retries(results@) <= usize::MAX,
    ensures
        level_timing(timing, level as int, results@, wall),
{
    let mut times: Vec<Duration> = Vec::with_capacity(results.len());
    let mut retries: usize = 0;
    for i in 0..results.len()
        invariant
            total_retries(results@) <= usize::MAX,
            times@ == result_times(results@).take(i as int),
            retries == total_retries(results@.take(i as int)),
    {
        proof {
            assert(results@.take(i + 1).drop_last() =~= results@.take(i as int));
            lemma_total_retries_prefix(results@, i + 1);
        }
        times.push(results[i].time);
        retries = retries + results[i].retries;
        assert(times@ =~= result_times(results@).take(i + 1));
    }
    proof {
        assert(results@.take(results@.len() as int) =~= results@);
        assert(times@ =~= result_times(results@));
    }
    BatchLevelTiming {
        level,
        nodes: results.len(),
        wall,
        work: sum_durations(times.as_slice()),
        retries,
    }
}

/// A batch update of a tree over equal blocks.
pub struct BatchRun {
    pub n_leaves: usize,
    pub phase: BatchPhase,
    pub tree: IdenticalTree,
    /// The updated leaves, ascending.
    pub chosen: Vec<usize>,
    /// Level of the nodes in `updated`.
    pub level: usize,
    /// The new nodes of that level.
    pub updated: Vec<UpdatedNode>,
    pub levels: Vec<BatchLevelTiming>,
    pub setup_peak_mem: Option<usize>,
    pub total_wall: Duration,
    pub update_peak_mem: Option<usize>,
    pub verify_time: Duration,
    /// The leaves' digests, once the updated ones are proved.
    pub leaves: Ghost<Seq<Seq<u8>>>,
}

/// The blocks after the update.
pub open spec fn batch_blocks(w: nat, n: nat, chosen: Seq<usize>) -> Seq<Seq<u8>> {
    Seq::new(
        n,
        |i: int|
            if chosen.contains(i as usize) {
                batch_block_of(w, i)
            } else {
                old_block_of(w)
            },
    )
}

impl BatchRun {
    /// The nodes of `level` are those of the tree over the leaves' digests, and
    /// the new ones are those on the updated leaves' paths.
    pub open spec fn follows_leaves(self) -> bool {
        let (w, mu) = (self.tree.w as nat, self.tree.mu as nat);
        &&& in_order(self.updated@)
        &&& covers_paths(self.updated@, self.chosen@, mu, self.level as nat)
        &&& 1 <= self.updated@.len() <= self.chosen@.len()
        &&& self.leaves@.len() == self.n_leaves
        &&& forall|i: int|
            0 <= i < self.updated@.len() ==> (#[trigger] self.updated@[i]).pos < level_size(
                mu,
                self.tree.depth as nat,
                self.level as nat,
            )
        &&& forall|q: int|
            0 <= q < level_size(mu, self.tree.depth as nat, self.level as nat)
                ==> #[trigger] node_at(
                self.updated@,
                self.tree.digest_at(self.level as nat),
                q,
            ) == subtree(Some(w), mu, self.leaves@, self.level as nat, q as nat)
    }

    /// The event is what a prover without error reports: what was asked for,
    /// with the digests of the bytes handed out.
    pub open spec fn answers(self, event: BatchEvent) -> bool {
        match (self.phase, event) {
            (BatchPhase::Tree, BatchEvent::Tree { event: inner, .. }) => self.tree.answers(inner),
            (BatchPhase::Leaves, BatchEvent::LevelProved { results, .. }) => {
                &&& result_positions(results@) == self.chosen@
                &&& forall|i: int|
                    0 <= i < results@.len() ==> (#[trigger] results@[i]).digest@ == sha256_of(
                        batch_block_of(self.tree.w as nat, results@[i].pos as int),
                    )
            },
            (BatchPhase::Merging, BatchEvent::LevelProved { results, .. }) => {
                &&& are_parents(result_positions(results@), self.updated@, self.tree.mu as nat)
                &&& self.merged_right(results@)
            },
            (BatchPhase::Verify, BatchEvent::RootVerified { .. }) => true,
            _ => false,
        }
    }

    /// Events that the run still waits for before it is finished.
    pub open spec fn remaining(self) -> int {
        match self.phase {
            BatchPhase::Tree => self.tree.remaining() + self.tree.depth + 2,
            BatchPhase::Leaves => self.tree.depth + 2,
            BatchPhase::Merging => self.tree.depth + 1 - self.level,
            BatchPhase::Verify => 1,
            BatchPhase::Finished => 0,
            BatchPhase::Failed(_) => 0,
        }
    }

    /// The timing is that of level `l`, with the nodes on the updated leaves'
    /// paths.
    pub open spec fn counted(self, timing: BatchLevelTiming, l: int) -> bool {
        &&& timing.level == l
        &&& timing.nodes == on_paths(self.chosen@, self.tree.mu as nat, l as nat).len()
        &&& 1 <= timing.nodes <= self.chosen@.len()
    }

    pub open spec fn wf(self) -> bool {
        &&& self.tree.wf()
        &&& self.n_leaves > 1 ==> self.tree.mu >= 2
        &&& self.n_leaves == tree_size(self.tree.mu as nat, self.tree.depth as nat)
        &&& 1 <= self.chosen@.len() <= self.n_leaves
        &&& ascending(self.chosen@)
        &&& self.chosen@ == updated_leaves(self.n_leaves as nat, self.chosen@.len())
        &&& forall|i: int|
            0 <= i < self.chosen@.len() ==> #[trigger] self.chosen@[i] < self.n_leaves
        &&& forall|l: int|
            0 <= l < self.levels@.len() ==> self.counted(#[trigger] self.levels@[l], l)
        &&& match self.phase {
            BatchPhase::Tree => self.levels@.len() == 0 && !(self.tree.phase is Built) && !(
            self.tree.phase is Failed),
            BatchPhase::Leaves => self.levels@.len() == 0 && self.tree.phase is Built,
            BatchPhase::Merging => self.level < self.tree.depth && self.levels@.len() == self.level
                + 1 && self.follows_leaves(),
            BatchPhase::Verify => self.level == self.tree.depth && self.levels@.len() == self.level
                + 1 && self.follows_leaves(),
            BatchPhase::Finished => self.level == self.tree.depth && self.levels@.len()
                == self.level + 1 && self.follows_leaves(),
            BatchPhase::Failed(_) => true,
        }
    }

    /// The updated leaves have the digests of their new blocks.
    pub open spec fn leaves_are_new_blocks(self) -> bool {
        self.leaves@ == leaf_layer(
            batch_blocks(self.tree.w as nat, self.n_leaves as nat, self.chosen@),
        )
    }

    /// Every digest is that of the bytes handed out for its node.
    pub open spec fn merged_right(self, results: Seq<NodeResult>) -> bool {
        forall|i: int|
            0 <= i < results.len() ==> (#[trigger] results[i]).digest@ == sha256_of(
                bucket_at(
                    self.updated@,
                    self.tree.digest_at(self.level as nat),
                    self.tree.w as nat,
                    self.tree.mu as nat,
                    results[i].pos as int,
                ),
            )
    }

    /// The phase that an event leads to.
    pub open spec fn phase_after(self, event: BatchEvent) -> BatchPhase {
        match (self.phase, event) {
            (BatchPhase::Finished, _) => self.phase,
            (BatchPhase::Failed(_), _) => self.phase,
            (_, BatchEvent::Error) => BatchPhase::Failed(RunFailure::Backend),
            (BatchPhase::Tree, BatchEvent::Tree { event, .. }) => match self.tree.phase_after(
                event,
            ) {
                IdenticalPhase::Built => BatchPhase::Leaves,
                IdenticalPhase::Failed(why) => BatchPhase::Failed(why),
                _ => BatchPhase::Tree,
            },
            (BatchPhase::Leaves, BatchEvent::LevelProved { results, .. }) => if result_positions(
                results@,
            ) != self.chosen@ {
                BatchPhase::Failed(RunFailure::OutOfOrder)
            } else if self.tree.depth > 0 {
                BatchPhase::Merging
            } else if results@[0].digest@ != sha256_of(batch_block_of(self.tree.w as nat, 0)) {
                BatchPhase::Failed(RunFailure::Diverged)
            } else {
                BatchPhase::Verify
            },
            (BatchPhase::Merging, BatchEvent::LevelProved { results, .. }) => if !are_parents(
                result_positions(results@),
                self.updated@,
                self.tree.mu as nat,
            ) {
                BatchPhase::Failed(RunFailure::OutOfOrder)
            } else if !self.merged_right(results@) {
                BatchPhase::Failed(RunFailure::Diverged)
            } else if self.level + 1 < self.tree.depth {
                BatchPhase::Merging
            } else {
                BatchPhase::Verify
            },
            (BatchPhase::Verify, BatchEvent::RootVerified { .. }) => BatchPhase::Finished,
            _ => BatchPhase::Failed(RunFailure::OutOfOrder),
        }
    }

    /// No level was taken in.
    pub open spec fn same_level(self, before: BatchRun) -> bool {
        &&& self.level == before.level
        &&& self.updated == before.updated
        &&& self.levels == before.levels
        &&& self.total_wall == before.total_wall
        &&& self.update_peak_mem == before.update_peak_mem
    }

    /// The job is the same.
    pub open spec fn same_job(self, before: BatchRun) -> bool {
        &&& self.n_leaves == before.n_leaves
        &&& self.chosen == before.chosen
        &&& self.tree.w == before.tree.w
        &&& self.tree.mu == before.tree.mu
        &&& self.tree.depth == before.tree.depth
    }
}

/// Once the parents of the new nodes are merged, the nodes of the level above
/// are those of the tree over the leaves' digests.
proof fn lemma_level_up(run: BatchRun, t: Seq<UpdatedNode>)
    requires
        run.wf(),
        run.phase is Merging,
        are_parents(t.map_values(|n: UpdatedNode| n.pos), run.updated@, run.tree.mu as nat),
        forall|i: int|
            0 <= i < t.len() ==> (#[trigger] t[i]).digest@ == sha256_of(
                bucket_at(
                    run.updated@,
                    run.tree.digest_at(run.level as nat),
                    run.tree.w as nat,
                    run.tree.mu as nat,
                    t[i].pos as int,
                ),
            ),
    ensures
        in_order(t),
        1 <= t.len() <= run.updated@.len(),
        forall|i: int|
            0 <= i < t.len() ==> (#[trigger] t[i]).pos < level_size(
                run.tree.mu as nat,
                run.tree.depth as nat,
                (run.level + 1) as nat,
            ),
        forall|q: int|
            0 <= q < level_size(
                run.tree.mu as nat,
                run.tree.depth as nat,
                (run.level + 1) as nat,
            ) ==> #[trigger] node_at(t, run.tree.digest_at((run.level + 1) as nat), q) == subtree(
                Some(run.tree.w as nat),
                run.tree.mu as nat,
                run.leaves@,
                (run.level + 1) as nat,
                q as nat,
            ),
{
    let (w, mu, depth) = (run.tree.w as nat, run.tree.mu as nat, run.tree.depth as nat);
    let level = run.level as nat;
    let s = run.updated@;
    let ps = t.map_values(|n: UpdatedNode| n.pos);
    let unchanged = run.tree.digest_at(level);
    let size = level_size(mu, depth, level + 1);
    lemma_level_size(mu, depth, level);
    assert forall|i: int, j: int| 0 <= i < j < t.len() implies (#[trigger] t[i]).pos < (
    #[trigger] t[j]).pos by {
        assert(ps[i] < ps[j]);
    }
    lemma_parent_count(ps, s, mu);
    assert forall|i: int| 0 <= i < t.len() implies (#[trigger] t[i]).pos < size by {
        assert(is_parent(s, mu, ps[i] as int));
        let j = choose|j: int|
            0 <= j < s.len() && (#[trigger] s[j]).pos as int / mu as int == ps[i] as int;
        let q = s[j].pos as int;
        assert(q < mu * size);
        assert(q / (mu as int) < size) by (nonlinear_arith)
            requires
                q < mu * size,
                0 <= q,
                mu >= 1,
        ;
    }
    assert forall|q: int| 0 <= q < size implies #[trigger] node_at(
        t,
        run.tree.digest_at(level + 1),
        q,
    ) == subtree(Some(w), mu, run.leaves@, level + 1, q as nat) by {
        let kids = children(Some(w), mu, run.leaves@, level + 1, q as nat);
        let now = children_at(s, unchanged, mu, q);
        assert forall|c: int| 0 <= c < mu implies now[c] == kids[c] by {
            assert(q * mu + c < mu * size) by (nonlinear_arith)
                requires
                    q + 1 <= size,
                    c < mu,
            ;
            assert(0 <= q * mu) by (nonlinear_arith)
                requires
                    0 <= q,
            ;
            assert(node_at(s, unchanged, q * mu + c) == subtree(
                Some(w),
                mu,
                run.leaves@,
                level,
                (q * mu + c) as nat,
            ));
        }
        assert(now =~= kids);
        lemma_subtree_children(Some(w), mu, run.leaves@, level + 1, q as nat);
        if has_pos(t, q) {
            let i = choose|i: int| 0 <= i < t.len() && (#[trigger] t[i]).pos == q;
            lemma_node_at(t, run.tree.digest_at(level + 1), i);
        } else {
            assert forall|c: int| 0 <= c < mu implies now[c] == unchanged by {
                let x = q * mu + c;
                if has_pos(s, x) {
                    let i = choose|i: int| 0 <= i < s.len() && (#[trigger] s[i]).pos == x;
                    assert(mu * q == q * mu) by (nonlinear_arith);
                    lemma_fundamental_div_mod_converse(x, mu as int, q, c);
                    assert(ps.contains((s[i].pos as int / mu as int) as usize));
                    let j = choose|j: int| 0 <= j < ps.len() && ps[j] == q as usize;
                    assert(t[j].pos == q);
                }
            }
            assert(now =~= repeated(unchanged, mu));
        }
    }
}

/// Starts a batch update, with buckets of `W` digests. Leaves are picked by 48
/// bits, so that no more than `2^48` of them can be distinct.
pub fn run_batch_update2<const W: usize, const MU: usize>(opts: &BatchUpdateOptions) -> (run:
    BatchRun)
    requires
        1 <= MU <= W,
        32 * W <= usize::MAX,
        opts.n_leaves > 1 ==> MU >= 2,
        is_tree_size(MU as nat, opts.n_leaves as nat),
        1 <= opts.k <= opts.n_leaves,
        opts.k <= 0x1_0000_0000_0000u64,
    ensures
        run.wf(),
        run.phase == BatchPhase::Tree,
        run.tree.phase == IdenticalPhase::Setup,
        run.n_leaves == opts.n_leaves,
        run.chosen@.len() == opts.k,
        exists|m: nat| picked(run.chosen@, opts.n_leaves as nat, m),
        run.chosen@ == updated_leaves(opts.n_leaves as nat, opts.k as nat),
        run.tree.w == W,
        run.tree.mu == MU,
        run.tree.depth < opts.n_leaves,
{
    let depth = match exact_log(MU, opts.n_leaves) {
        Some(d) => d,
        None => 0,
    };
    BatchRun {
        n_leaves: opts.n_leaves,
        phase: BatchPhase::Tree,
        tree: build_identical_tree::<W, MU>(depth),
        chosen: pick_leaves(opts.n_leaves, opts.k),
        level: 0,
        updated: Vec::new(),
        levels: Vec::new(),
        setup_peak_mem: None,
        total_wall: Duration::zero(),
        update_peak_mem: None,
        verify_time: Duration::zero(),
        leaves: Ghost(Seq::empty()),
    }
}

/// Starts a batch update whose buckets are as wide as the tree's arity.
pub fn run_batch_update<const ARITY: usize>(opts: &BatchUpdateOptions) -> (run: BatchRun)
    requires
        1 <= ARITY,
        32 * ARITY <= usize::MAX,
        opts.n_leaves > 1 ==> ARITY >= 2,
        is_tree_size(ARITY as nat, opts.n_leaves as nat),
        1 <= opts.k <= opts.n_leaves,
        opts.k <= 0x1_0000_0000_0000u64,
    ensures
        run.wf(),
        run.phase == BatchPhase::Tree,
        run.tree.phase == IdenticalPhase::Setup,
        run.n_leaves == opts.n_leaves,
        run.chosen@.len() == opts.k,
        exists|m: nat| picked(run.chosen@, opts.n_leaves as nat, m),
        run.chosen@ == updated_leaves(opts.n_leaves as nat, opts.k as nat),
        run.tree.w == ARITY,
        run.tree.mu == ARITY,
        run.tree.depth < opts.n_leaves,
{
    run_batch_update2::<ARITY, ARITY>(opts)
}

/// The positions of the results are those asked for.
fn same_positions(results: &Vec<NodeResult>, asked: &Vec<usize>) -> (same: bool)
    ensures
        same == (result_positions(results@) == asked@),
{
    if results.len() != asked.len() {
        return false;
    }
    for i in 0..results.len()
        invariant
            results@.len() == asked@.len(),
            forall|k: int| 0 <= k < i ==> (#[trigger] results@[k]).pos == asked@[k],
    {
        if results[i].pos != asked[i] {
            assert(result_positions(results@)[i as int] != asked@[i as int]);
            return false;
        }
    }
    assert(result_positions(results@) =~= asked@);
    true
}

fn nodes_of(results: &Vec<NodeResult>) -> (nodes: Vec<UpdatedNode>)
    ensures
        nodes@ == result_nodes(results@),
{
    let mut nodes: Vec<UpdatedNode> = Vec::with_capacity(results.len());
    for i in 0..results.len()
        invariant
            nodes@ == result_nodes(results@).take(i as int),
    {
        nodes.push(UpdatedNode { pos: results[i].pos, digest: results[i].digest });
        assert(nodes@ =~= result_nodes(results@).take(i + 1));
    }
    assert(nodes@ =~= result_nodes(results@));
    nodes
}

impl BatchRun {
    /// The tasks of the level above.
    fn tasks(&self) -> (tasks: Vec<MergeTask>)
        requires
            self.wf(),
            self.phase is Merging,
        ensures
            are_parents(task_positions(tasks@), self.updated@, self.tree.mu as nat),
            forall|i: int|
                0 <= i < tasks@.len() ==> task_fits(
                    #[trigger] tasks@[i],
                    self.updated@,
                    self.tree.digest_at(self.level as nat),
                    self.tree.w as nat,
                    self.tree.mu as nat,
                ),
    {
        let ghost (mu, depth) = (self.tree.mu as nat, self.tree.depth as nat);
        let above = self.size_above();
        proof {
            lemma_level_size(mu, depth, self.level as nat);
            assert(above * mu == mu * above) by (nonlinear_arith);
            crate::hypernova_pcd::tree::lemma_tree_size_grows(
                mu,
                (depth - self.level) as nat,
                depth,
            );
            assert(self.tree.d_old@[self.level as int]@ == self.tree.digest_at(self.level as nat));
        }
        merge_tasks(
            &self.updated,
            &self.tree.d_old[self.level],
            self.tree.w,
            self.tree.mu,
            above,
        )
    }

    /// Number of nodes on the level above.
    fn size_above(&self) -> (n: usize)
        requires
            self.wf(),
            self.phase is Merging,
        ensures
            n == level_size(self.tree.mu as nat, self.tree.depth as nat, (self.level + 1) as nat),
    {
        let ghost (mu, depth) = (self.tree.mu as nat, self.tree.depth as nat);
        let mut n: usize = 1;
        let rest = self.tree.depth - self.level - 1;
        for k in 0..rest
            invariant
                mu == self.tree.mu,
                depth == self.tree.depth,
                mu >= 1,
                rest <= depth,
                tree_size(mu, depth) <= usize::MAX,
                n == tree_size(mu, k as nat),
        {
            proof {
                crate::hypernova_pcd::tree::lemma_tree_size_grows(mu, (k + 1) as nat, depth);
            }
            n = self.tree.mu * n;
        }
        n
    }

    /// What the prover is to do next.
    pub fn action(&self) -> (action: BatchAction)
        requires
            self.wf(),
        ensures
            match self.phase {
                BatchPhase::Tree => action matches BatchAction::Tree(inner)
                    && match self.tree.phase {
                    IdenticalPhase::Setup => inner is Setup,
                    IdenticalPhase::Nodes => if self.tree.proved == 0 {
                        inner matches IdenticalAction::ProveLeaf { z, ext } && z@.len() == 32 && z@
                            + ext@ == self.tree.input(0)
                    } else {
                        inner matches IdenticalAction::ProveLevel { level, ext } && level
                            == self.tree.proved && self.tree.digest_at((level - 1) as nat) + ext@
                            == self.tree.input(level as nat)
                    },
                    _ => inner is VerifyTop,
                },
                BatchPhase::Leaves => action matches BatchAction::Leaves(tasks) && tasks@.len()
                    == self.chosen@.len() && forall|i: int|
                    0 <= i < tasks@.len() ==> (#[trigger] tasks@[i]).leaf == self.chosen@[i]
                        && tasks@[i].z@.len() == 32 && tasks@[i].z@ + tasks@[i].ext@
                        == batch_block_of(self.tree.w as nat, tasks@[i].leaf as int),
                BatchPhase::Merging => action matches BatchAction::Merge { level, tasks } && level
                    == self.level + 1 && are_parents(
                    task_positions(tasks@),
                    self.updated@,
                    self.tree.mu as nat,
                ) && forall|i: int|
                    0 <= i < tasks@.len() ==> task_fits(
                        #[trigger] tasks@[i],
                        self.updated@,
                        self.tree.digest_at(self.level as nat),
                        self.tree.w as nat,
                        self.tree.mu as nat,
                    ),
                BatchPhase::Verify => action is VerifyRoot,
                _ => action is Stop,
            },
    {
        match self.phase {
            BatchPhase::Tree => BatchAction::Tree(self.tree.action()),
            BatchPhase::Leaves => {
                let w = self.tree.w;
                let mut tasks: Vec<LeafTask> = Vec::with_capacity(self.chosen.len());
                for i in 0..self.chosen.len()
                    invariant
                        w == self.tree.w,
                        1 <= w,
                        32 * w <= usize::MAX,
                        tasks@.len() == i,
                        forall|k: int|
                            0 <= k < i ==> (#[trigger] tasks@[k]).leaf == self.chosen@[k]
                                && tasks@[k].z@.len() == 32 && tasks@[k].z@ + tasks@[k].ext@
                                == batch_block_of(w as nat, tasks@[k].leaf as int),
                {
                    let leaf = self.chosen[i];
                    let block = batch_new_block(w, leaf);
                    let bytes = block.as_slice();
                    let mut z: Vec<u8> = Vec::with_capacity(32);
                    z.extend_from_slice(slice_subrange(bytes, 0, 32));
                    let mut ext: Vec<u8> = Vec::with_capacity(32 * (w - 1));
                    ext.extend_from_slice(slice_subrange(bytes, 32, 32 * w));
                    assert(z@ + ext@ =~= bytes@);
                    tasks.push(LeafTask { leaf, z, ext });
                }
                BatchAction::Leaves(tasks)
            },
            BatchPhase::Merging => BatchAction::Merge {
                level: self.level + 1,
                tasks: self.tasks(),
            },
            BatchPhase::Verify => BatchAction::VerifyRoot,
            BatchPhase::Finished => BatchAction::Stop,
            BatchPhase::Failed(_) => BatchAction::Stop,
        }
    }
}

/// What a level that was taken in leaves behind.
pub open spec fn took_level(
    before: BatchRun,
    after: BatchRun,
    level: int,
    results: Seq<NodeResult>,
    wall: Duration,
    elapsed: Duration,
    peak: Option<usize>,
) -> bool {
    &&& after.level == level
    &&& after.updated@ == result_nodes(results)
    &&& after.levels@.len() == before.levels@.len() + 1
    &&& after.levels@.drop_last() == before.levels@
    &&& level_timing(after.levels@.last(), level, results, wall)
    &&& after.total_wall == elapsed
    &&& after.update_peak_mem == peak
}

impl BatchRun {
    /// Takes in the proved leaves.
    fn take_leaves(
        &mut self,
        results: Vec<NodeResult>,
        wall: Duration,
        elapsed: Duration,
        peak: Option<usize>,
    )
        requires
            old(self).wf(),
            old(self).phase is Leaves,
            total_nanos(result_times(results@)) <= MAX_NANOS,
            total_retries(results@) <= usize::MAX,
        ensures
            final(self).wf(),
            final(self).same_job(*old(self)),
            final(self).tree == old(self).tree,
            final(self).setup_peak_mem == old(self).setup_peak_mem,
            final(self).verify_time == old(self).verify_time,
            final(self).phase == old(self).phase_after(
                BatchEvent::LevelProved { results, wall, elapsed, peak },
            ),
            !(final(self).phase is Failed) ==> took_level(
                *old(self),
                *final(self),
                0,
                results@,
                wall,
                elapsed,
                peak,
            ),
            !(final(self).phase is Failed) && (forall|i: int|
                0 <= i < results@.len() ==> (#[trigger] results@[i]).digest@ == sha256_of(
                    batch_block_of(old(self).tree.w as nat, results@[i].pos as int),
                )) ==> final(self).leaves_are_new_blocks(),
            final(self).phase is Failed ==> final(self).same_level(*old(self))
                && final(self).leaves == old(self).leaves,
    {
        if !same_positions(&results, &self.chosen) {
            self.phase = BatchPhase::Failed(RunFailure::OutOfOrder);
            return ;
        }
        let ghost before = *self;
        let ghost nodes = result_nodes(results@);
        let ghost (w, mu) = (self.tree.w as nat, self.tree.mu as nat);
        let ghost unchanged = sha256_of(old_block_of(w));
        let ghost leaves = Seq::new(self.n_leaves as nat, |i: int| node_at(nodes, unchanged, i));
        assert(results@.len() == result_positions(results@).len());
        if self.tree.depth == 0 {
            let block = batch_new_block(self.tree.w, 0);
            let native = sha256_native(block.as_slice());
            if !same_digest(&results[0].digest, &native) {
                self.phase = BatchPhase::Failed(RunFailure::Diverged);
                return ;
            }
            self.phase = BatchPhase::Verify;
        } else {
            self.phase = BatchPhase::Merging;
        }
        let timing = summarize(0, &results, wall);
        self.level = 0;
        self.levels.push(timing);
        self.updated = nodes_of(&results);
        self.total_wall = elapsed;
        self.update_peak_mem = peak;
        self.leaves = Ghost(leaves);
        proof {
            assert forall|i: int| 0 <= i < nodes.len() implies (#[trigger] nodes[i]).pos
                == self.chosen@[i] by {
                assert(result_positions(results@)[i] == results@[i].pos);
            }
            assert forall|i: int, j: int| 0 <= i < j < nodes.len() implies (#[trigger] nodes[i]).pos
                < (#[trigger] nodes[j]).pos by {
                assert(self.chosen@[i] < self.chosen@[j]);
            }
            assert(level_size(mu, self.tree.depth as nat, 0) == self.n_leaves);
            assert forall|i: int| 0 <= i < nodes.len() implies (#[trigger] nodes[i]).pos
                < self.n_leaves by {
                assert(self.chosen@[i] < self.n_leaves);
            }
            lemma_leaves_cover_paths(nodes, self.chosen@, mu);
            lemma_path_count(nodes, self.chosen@, mu, 0);
            assert forall|l: int| 0 <= l < self.levels@.len() implies self.counted(
                #[trigger] self.levels@[l],
                l,
            ) by {
                if l < before.levels@.len() {
                    assert(before.counted(before.levels@[l], l));
                }
            }
            assert(self.levels@.drop_last() =~= before.levels@);
            if forall|i: int|
                0 <= i < results@.len() ==> (#[trigger] results@[i]).digest@ == sha256_of(
                    batch_block_of(w, results@[i].pos as int),
                ) {
                let blocks = batch_blocks(w, self.n_leaves as nat, self.chosen@);
                assert forall|i: int| 0 <= i < leaves.len() implies leaves[i] == leaf_layer(
                    blocks,
                )[i] by {
                    if self.chosen@.contains(i as usize) {
                        let j = choose|j: int|
                            0 <= j < self.chosen@.len() && self.chosen@[j] == i as usize;
                        lemma_node_at(nodes, unchanged, j);
                        assert(nodes[j].pos == i);
                        assert(results@[j].digest == nodes[j].digest);
                    } else if has_pos(nodes, i) {
                        let j = choose|j: int| 0 <= j < nodes.len() && (#[trigger] nodes[j]).pos == i;
                        assert(self.chosen@[j] == i);
                    }
                }
                assert(leaves =~= leaf_layer(blocks));
            }
        }
    }

    /// Takes in the merged nodes of a level.
    fn take_level(
        &mut self,
        results: Vec<NodeResult>,
        wall: Duration,
        elapsed: Duration,
        peak: Option<usize>,
    )
        requires
            old(self).wf(),
            old(self).phase is Merging,
            total_nanos(result_times(results@)) <= MAX_NANOS,
            total_retries(results@) <= usize::MAX,
        ensures
            final(self).wf(),
            final(self).same_job(*old(self)),
            final(self).tree == old(self).tree,
            final(self).setup_peak_mem == old(self).setup_peak_mem,
            final(self).verify_time == old(self).verify_time,
            final(self).leaves == old(self).leaves,
            final(self).phase is Failed ==> final(self).same_level(*old(self)),
            final(self).phase == old(self).phase_after(
                BatchEvent::LevelProved { results, wall, elapsed, peak },
            ),
            !(final(self).phase is Failed) ==> took_level(
                *old(self),
                *final(self),
                old(self).level + 1,
                results@,
                wall,
                elapsed,
                peak,
            ),
    {
        let ghost before = *self;
        let tasks = self.tasks();
        let mut asked: Vec<usize> = Vec::with_capacity(tasks.len());
        for i in 0..tasks.len()
            invariant
                asked@ == task_positions(tasks@).take(i as int),
        {
            asked.push(tasks[i].pos);
            assert(asked@ =~= task_positions(tasks@).take(i + 1));
        }
        assert(asked@ =~= task_positions(tasks@));
        if !same_positions(&results, &asked) {
            proof {
                if are_parents(result_positions(results@), self.updated@, self.tree.mu as nat) {
                    lemma_parents_unique(
                        result_positions(results@),
                        asked@,
                        self.updated@,
                        self.tree.mu as nat,
                    );
                }
            }
            self.phase = BatchPhase::Failed(RunFailure::OutOfOrder);
            return ;
        }
        assert(results@.len() == result_positions(results@).len());
        for i in 0..results.len()
            invariant
                *self == before,
                before == *old(self),
                results@.len() == tasks@.len(),
                result_positions(results@) == task_positions(tasks@),
                forall|k: int|
                    0 <= k < tasks@.len() ==> task_fits(
                        #[trigger] tasks@[k],
                        self.updated@,
                        self.tree.digest_at(self.level as nat),
                        self.tree.w as nat,
                        self.tree.mu as nat,
                    ),
                before.phase is Merging,
                before.wf(),
                are_parents(result_positions(results@), before.updated@, before.tree.mu as nat),
                forall|k: int|
                    0 <= k < i ==> (#[trigger] results@[k]).digest@ == sha256_of(
                        bucket_at(
                            self.updated@,
                            self.tree.digest_at(self.level as nat),
                            self.tree.w as nat,
                            self.tree.mu as nat,
                            results@[k].pos as int,
                        ),
                    ),
        {
            assert(result_positions(results@)[i as int] == task_positions(tasks@)[i as int]);
            assert(task_fits(
                tasks@[i as int],
                self.updated@,
                self.tree.digest_at(self.level as nat),
                self.tree.w as nat,
                self.tree.mu as nat,
            ));
            if !same_digest(&results[i].digest, &tasks[i].native) {
                self.phase = BatchPhase::Failed(RunFailure::Diverged);
                return ;
            }
        }
        let ghost nodes = result_nodes(results@);
        proof {
            assert(nodes.map_values(|n: UpdatedNode| n.pos) =~= result_positions(results@));
            assert forall|i: int| 0 <= i < nodes.len() implies (#[trigger] nodes[i]).digest@
                == sha256_of(
                bucket_at(
                    before.updated@,
                    before.tree.digest_at(before.level as nat),
                    before.tree.w as nat,
                    before.tree.mu as nat,
                    nodes[i].pos as int,
                ),
            ) by {
                assert(results@[i].digest == nodes[i].digest);
            }
            lemma_level_up(before, nodes);
        }
        let timing = summarize(self.level + 1, &results, wall);
        self.level = self.level + 1;
        self.levels.push(timing);
        self.updated = nodes_of(&results);
        self.total_wall = elapsed;
        self.update_peak_mem = peak;
        if self.level == self.tree.depth {
            self.phase = BatchPhase::Verify;
        }
        proof {
            lemma_parents_cover_paths(
                before.updated@,
                nodes,
                self.chosen@,
                before.tree.mu as nat,
                before.level as nat,
            );
            lemma_path_count(nodes, self.chosen@, before.tree.mu as nat, self.level as nat);
            assert forall|l: int| 0 <= l < self.levels@.len() implies self.counted(
                #[trigger] self.levels@[l],
                l,
            ) by {
                if l < before.levels@.len() {
                    assert(before.counted(before.levels@[l], l));
                }
            }
            assert(self.levels@.drop_last() =~= before.levels@);
            assert(before.merged_right(results@));
            assert(self.updated@ == nodes);
            assert(in_order(self.updated@));
            assert(1 <= self.updated@.len() <= self.chosen@.len());
            let up = (before.level + 1) as nat;
            assert(self.level as nat == up);
            assert(self.tree == before.tree);
            assert(self.tree.digest_at(self.level as nat) == before.tree.digest_at(up));
            assert forall|q: int|
                0 <= q < level_size(self.tree.mu as nat, self.tree.depth as nat, self.level as nat)
                implies #[trigger] node_at(
                self.updated@,
                self.tree.digest_at(self.level as nat),
                q,
            ) == subtree(
                Some(self.tree.w as nat),
                self.tree.mu as nat,
                self.leaves@,
                self.level as nat,
                q as nat,
            ) by {
                assert(node_at(nodes, before.tree.digest_at(up), q) == subtree(
                    Some(before.tree.w as nat),
                    before.tree.mu as nat,
                    before.leaves@,
                    up,
                    q as nat,
                ));
            }
            assert(self.follows_leaves());
        }
    }
}

impl BatchRun {
    /// Takes in what the prover did.
    pub fn advance(&mut self, event: BatchEvent)
        requires
            old(self).wf(),
            event matches BatchEvent::LevelProved { results, .. } ==> total_nanos(
                result_times(results@),
            ) <= MAX_NANOS && total_retries(results@) <= usize::MAX,
        ensures
            final(self).wf(),
            final(self).same_job(*old(self)),
            final(self).phase == old(self).phase_after(event),
            old(self).phase is Tree ==> (event matches BatchEvent::Tree { event: inner, peak } ==> {
                &&& final(self).tree.phase == old(self).tree.phase_after(inner)
                &&& final(self).tree.setup_time == (match (old(self).tree.phase, inner) {
                    (IdenticalPhase::Setup, IdenticalEvent::SetUp { time }) => time,
                    _ => old(self).tree.setup_time,
                })
                &&& final(self).tree.build_time == (match (old(self).tree.phase, inner) {
                    (IdenticalPhase::Verify, IdenticalEvent::Verified { build_time }) => build_time,
                    _ => old(self).tree.build_time,
                })
                &&& final(self).tree.proved == (if old(self).tree.phase is Nodes && inner is Proved
                    && !(final(self).tree.phase is Failed) {
                    old(self).tree.proved + 1
                } else {
                    old(self).tree.proved as int
                })
                &&& final(self).setup_peak_mem == peak
            }),
            !(old(self).phase is Tree && event is Tree) ==> final(self).tree == old(self).tree
                && final(self).setup_peak_mem == old(self).setup_peak_mem,
            old(self).phase is Leaves ==> (event matches BatchEvent::LevelProved {
                results,
                wall,
                elapsed,
                peak,
            } ==> {
                &&& !(final(self).phase is Failed) ==> took_level(
                    *old(self),
                    *final(self),
                    0,
                    results@,
                    wall,
                    elapsed,
                    peak,
                )
                &&& !(final(self).phase is Failed) && (forall|i: int|
                    0 <= i < results@.len() ==> (#[trigger] results@[i]).digest@ == sha256_of(
                        batch_block_of(old(self).tree.w as nat, results@[i].pos as int),
                    )) ==> final(self).leaves_are_new_blocks()
            }),
            old(self).phase is Merging ==> (event matches BatchEvent::LevelProved {
                results,
                wall,
                elapsed,
                peak,
            } ==> (!(final(self).phase is Failed) ==> took_level(
                *old(self),
                *final(self),
                old(self).level + 1,
                results@,
                wall,
                elapsed,
                peak,
            ))),
            !(old(self).phase is Leaves && event is LevelProved) || final(self).phase is Failed
                ==> final(self).leaves == old(self).leaves,
            !(event is LevelProved) || final(self).phase is Failed || !(old(self).phase is Leaves
                || old(self).phase is Merging) ==> final(self).same_level(*old(self)),
            !(old(self).phase is Finished) && !(final(self).phase is Failed)
                ==> final(self).remaining() == old(self).remaining() - 1,
            final(self).verify_time == (match (old(self).phase, event) {
                (BatchPhase::Verify, BatchEvent::RootVerified { time }) => time,
                _ => old(self).verify_time,
            }),
    {
        match self.phase {
            BatchPhase::Finished => {
                return ;
            },
            BatchPhase::Failed(_) => {
                return ;
            },
            _ => {},
        }
        if let BatchEvent::Error = event {
            self.phase = BatchPhase::Failed(RunFailure::Backend);
            return ;
        }
        match (self.phase, event) {
            (BatchPhase::Tree, BatchEvent::Tree { event: inner, peak }) => {
                self.tree.advance(inner);
                self.setup_peak_mem = peak;
                match self.tree.phase {
                    IdenticalPhase::Built => {
                        self.phase = BatchPhase::Leaves;
                    },
                    IdenticalPhase::Failed(why) => {
                        self.phase = BatchPhase::Failed(why);
                    },
                    _ => {},
                }
            },
            (BatchPhase::Leaves, BatchEvent::LevelProved { results, wall, elapsed, peak }) => {
                self.take_leaves(results, wall, elapsed, peak);
            },
            (BatchPhase::Merging, BatchEvent::LevelProved { results, wall, elapsed, peak }) => {
                self.take_level(results, wall, elapsed, peak);
            },
            (BatchPhase::Verify, BatchEvent::RootVerified { time }) => {
                self.verify_time = time;
                self.phase = BatchPhase::Finished;
            },
            _ => {
                self.phase = BatchPhase::Failed(RunFailure::OutOfOrder);
            },
        }
    }

    /// The report of a finished run. Its root is the top of the tree over the
    /// leaves' digests; where those are the digests of the new blocks, it is
    /// the root over the updated blocks.
    pub fn report(self) -> (report: BatchUpdateReport)
        requires
            self.wf(),
            self.phase is Finished,
        ensures
            report.arity == self.tree.mu,
            report.bucket_bytes == 32 * self.tree.w,
            report.depth == self.tree.depth,
            report.n_leaves == self.n_leaves,
            report.k == self.chosen@.len(),
            report.setup_time == self.tree.setup_time,
            report.initial_tree_time == self.tree.build_time,
            report.setup_peak_mem == self.setup_peak_mem,
            report.levels == self.levels,
            report.levels@.len() == self.tree.depth + 1,
            forall|l: int|
                0 <= l <= self.tree.depth ==> (#[trigger] report.levels@[l]).level == l
                    && report.levels@[l].nodes == on_paths(
                    self.chosen@,
                    self.tree.mu as nat,
                    l as nat,
                ).len(),
            report.depth + 1 <= total_nodes(report.levels@) <= report.k * (report.depth + 1),
            report.k == 1 ==> total_nodes(report.levels@) == report.depth + 1,
            report.k == report.n_leaves ==> total_nodes(report.levels@) == node_count(
                self.tree.mu as nat,
                self.tree.depth as nat,
            ),
            report.total_wall == self.total_wall,
            report.update_peak_mem == self.update_peak_mem,
            report.verify_time == self.verify_time,
            report.new_root@ == subtree(
                Some(self.tree.w as nat),
                self.tree.mu as nat,
                self.leaves@,
                self.tree.depth as nat,
                0,
            ),
            self.leaves_are_new_blocks() && self.tree.mu >= 2 ==> report.new_root@ == merkle_root(
                Some(self.tree.w as nat),
                self.tree.mu as nat,
                batch_blocks(
                    self.tree.w as nat,
                    self.n_leaves as nat,
                    updated_leaves(report.n_leaves as nat, report.k as nat),
                ),
            ),
    {
        let ghost (w, mu, depth) = (
            self.tree.w as nat,
            self.tree.mu as nat,
            self.tree.depth as nat,
        );
        proof {
            assert(level_size(mu, depth, depth) == 1) by {
                assert((depth - depth) as nat == 0);
            }
            assert(self.updated@[0].pos == 0);
            lemma_node_at(self.updated@, self.tree.digest_at(depth), 0);
            assert(node_at(self.updated@, self.tree.digest_at(depth), 0) == subtree(
                Some(w),
                mu,
                self.leaves@,
                depth,
                0,
            ));
            assert forall|l: int| 0 <= l < self.levels@.len() implies 1 <= (
            #[trigger] self.levels@[l]).nodes <= self.chosen@.len() by {
                assert(self.counted(self.levels@[l], l));
            }
            lemma_level_counts(self.levels@, self.chosen@.len());
            assert(1 * (depth + 1) == depth + 1);
            if self.chosen@.len() == self.n_leaves {
                assert forall|l: int| 0 <= l < self.levels@.len() implies (
                #[trigger] self.levels@[l]).nodes == level_size(mu, depth, l as nat) by {
                    assert(self.counted(self.levels@[l], l));
                    lemma_all_paths(self.chosen@, mu, l as nat, depth);
                }
                lemma_full_counts(self.levels@, mu, depth);
            }
            if self.leaves_are_new_blocks() && mu >= 2 {
                lemma_root_is_top(
                    Some(w),
                    mu,
                    batch_blocks(w, self.n_leaves as nat, self.chosen@),
                    depth,
                );
            }
        }
        let new_root = self.updated[0].digest;
        BatchUpdateReport {
            arity: self.tree.mu,
            bucket_bytes: 32 * self.tree.w,
            depth: self.tree.depth,
            n_leaves: self.n_leaves,
            k: self.chosen.len(),
            setup_time: self.tree.setup_time,
            initial_tree_time: self.tree.build_time,
            setup_peak_mem: self.setup_peak_mem,
            levels: self.levels,
            total_wall: self.total_wall,
            update_peak_mem: self.update_peak_mem,
            verify_time: self.verify_time,
            new_root,
        }
    }
}

/// The nodes proved anew on a row of levels are those of its parts together, and
/// those of a single level are the level's.
pub proof fn lemma_total_nodes(a: Seq<BatchLevelTiming>, b: Seq<BatchLevelTiming>)
    ensures
        total_nodes(a + b) == total_nodes(a) + total_nodes(b),
        b.len() == 0 ==> total_nodes(b) == 0,
        b.len() == 1 ==> total_nodes(b) == b[0].nodes,
    decreases b.len(),
{
    if b.len() == 0 {
        assert(a + b =~= a);
    } else {
        lemma_total_nodes(a, b.drop_last());
        assert((a + b).drop_last() =~= a + b.drop_last());
        if b.len() == 1 {
            assert(total_nodes(b.drop_last()) == 0);
        }
    }
}

/// The retries of a row of results are those of its parts together, and those of
/// a single result are its own.
pub proof fn lemma_total_retries(a: Seq<NodeResult>, b: Seq<NodeResult>)
    ensures
        total_retries(a + b) == total_retries(a) + total_retries(b),
        b.len() == 0 ==> total_retries(b) == 0,
        b.len() == 1 ==> total_retries(b) == b[0].retries,
    decreases b.len(),
{
    if b.len() == 0 {
        assert(a + b =~= a);
    } else {
        lemma_total_retries(a, b.drop_last());
        assert((a + b).drop_last() =~= a + b.drop_last());
        if b.len() == 1 {
            assert(total_retries(b.drop_last()) == 0);
        }
    }
}

/// The work of a row of levels is the levels' own, and the times of a row of
/// results are the results' own.
pub proof fn lemma_works(levels: Seq<BatchLevelTiming>, results: Seq<NodeResult>, i: int)
    ensures
        works(levels).len() == levels.len(),
        result_times(results).len() == results.len(),
        0 <= i < levels.len() ==> works(levels)[i] == levels[i].work,
        0 <= i < results.len() ==> result_times(results)[i] == results[i].time,
{
}

/// The blocks after a batch update: a chosen leaf holds its own new block, every
/// other leaf the block it held before.
pub proof fn lemma_batch_blocks(w: nat, n: nat, chosen: Seq<usize>, i: usize)
    requires
        i < n,
    ensures
        batch_blocks(w, n, chosen).len() == n,
        chosen.contains(i) ==> batch_blocks(w, n, chosen)[i as int] == batch_block_of(w, i as int),
        !chosen.contains(i) ==> batch_blocks(w, n, chosen)[i as int] == old_block_of(w),
{
}

/// A level that was taken in adds one entry to the report: the number of nodes,
/// the time of the level, and the time and retries of its nodes together. The
/// update has taken as long as was reported last.
pub proof fn lemma_level_taken(
    before: BatchRun,
    after: BatchRun,
    level: int,
    results: Seq<NodeResult>,
    wall: Duration,
    elapsed: Duration,
    peak: Option<usize>,
)
    requires
        took_level(before, after, level, results, wall, elapsed, peak),
    ensures
        after.level == level,
        after.total_wall == elapsed,
        after.update_peak_mem == peak,
        after.levels@.len() == before.levels@.len() + 1,
        after.levels@.drop_last() == before.levels@,
        after.levels@.last().level == level,
        after.levels@.last().nodes == results.len(),
        after.levels@.last().wall == wall,
        after.levels@.last().work.nanos == total_nanos(result_times(results)),
        after.levels@.last().retries == total_retries(results),
        after.updated@.len() == results.len(),
        forall|i: int|
            0 <= i < results.len() ==> (#[trigger] after.updated@[i]).pos == results[i].pos
                && after.updated@[i].digest == results[i].digest,
{
    assert(after.levels@.drop_last() =~= before.levels@);
}

/// An error of the prover ends a batch update that is under way, and one that is
/// over stays as it is.
pub proof fn lemma_errors_end_the_batch(run: BatchRun, event: BatchEvent)
    ensures
        run.phase is Finished || run.phase is Failed ==> run.phase_after(event) == run.phase,
        !(run.phase is Finished || run.phase is Failed) && event is Error ==> run.phase_after(event)
            == BatchPhase::Failed(RunFailure::Backend),
{
}

/// Digests of other bytes than were handed out, or of other nodes than were asked
/// for, end a batch update.
pub proof fn lemma_wrong_level_fails(
    run: BatchRun,
    results: Vec<NodeResult>,
    wall: Duration,
    elapsed: Duration,
    peak: Option<usize>,
)
    requires
        run.wf(),
        run.phase is Merging,
        !(run.phase_after(BatchEvent::LevelProved { results, wall, elapsed, peak }) is Failed),
    ensures
        forall|i: int|
            0 <= i < results@.len() ==> is_parent(
                run.updated@,
                run.tree.mu as nat,
                (#[trigger] results@[i]).pos as int,
            ) && results@[i].digest@ == sha256_of(
                bucket_at(
                    run.updated@,
                    run.tree.digest_at(run.level as nat),
                    run.tree.w as nat,
                    run.tree.mu as nat,
                    results@[i].pos as int,
                ),
            ),
{
    let ps = result_positions(results@);
    assert forall|i: int| 0 <= i < results@.len() implies is_parent(
        run.updated@,
        run.tree.mu as nat,
        (#[trigger] results@[i]).pos as int,
    ) by {
        assert(is_parent(run.updated@, run.tree.mu as nat, ps[i] as int));
    }
}

/// Levels that each hold every node of their level hold the whole tree.
proof fn lemma_full_counts(levels: Seq<BatchLevelTiming>, mu: nat, depth: nat)
    requires
        forall|l: int|
            0 <= l < levels.len() ==> (#[trigger] levels[l]).nodes == level_size(
                mu,
                depth,
                l as nat,
            ),
    ensures
        total_nodes(levels) == level_offset(mu, depth, levels.len()),
    decreases levels.len(),
{
    if levels.len() > 0 {
        lemma_full_counts(levels.drop_last(), mu, depth);
        assert(levels.last() == levels[levels.len() - 1]);
    }
}

/// Levels of one to `k` nodes have one to `k` times as many in all.
proof fn lemma_level_counts(levels: Seq<BatchLevelTiming>, k: nat)
    requires
        forall|l: int| 0 <= l < levels.len() ==> 1 <= (#[trigger] levels[l]).nodes <= k,
    ensures
        levels.len() <= total_nodes(levels) <= k * levels.len(),
    decreases levels.len(),
{
    if levels.len() > 0 {
        lemma_level_counts(levels.drop_last(), k);
        let n = levels.len() - 1;
        assert(k * n + k == k * (n + 1)) by (nonlinear_arith);
    } else {
        assert(k * 0 == 0) by (nonlinear_arith);
    }
}

/// With an honest prover no level diverges: the digests asked for are those of
/// the bytes handed out.
pub proof fn lemma_honest_level_does_not_diverge(
    run: BatchRun,
    tasks: Seq<MergeTask>,
    results: Vec<NodeResult>,
    wall: Duration,
    elapsed: Duration,
    peak: Option<usize>,
)
    requires
        run.wf(),
        run.phase is Merging,
        are_parents(task_positions(tasks), run.updated@, run.tree.mu as nat),
        forall|i: int|
            0 <= i < tasks.len() ==> task_fits(
                #[trigger] tasks[i],
                run.updated@,
                run.tree.digest_at(run.level as nat),
                run.tree.w as nat,
                run.tree.mu as nat,
            ),
        results@.len() == tasks.len(),
        forall|i: int|
            0 <= i < tasks.len() ==> (#[trigger] results@[i]).pos == tasks[i].pos
                && results@[i].digest@ == sha256_of(tasks[i].z@ + tasks[i].ext@),
    ensures
        !(run.phase_after(BatchEvent::LevelProved { results, wall, elapsed, peak }) is Failed),
{
    assert(result_positions(results@) =~= task_positions(tasks));
    assert forall|i: int| 0 <= i < results@.len() implies (#[trigger] results@[i]).digest@
        == sha256_of(
        bucket_at(
            run.updated@,
            run.tree.digest_at(run.level as nat),
            run.tree.w as nat,
            run.tree.mu as nat,
            results@[i].pos as int,
        ),
    ) by {
        assert(task_fits(
            tasks[i],
            run.updated@,
            run.tree.digest_at(run.level as nat),
            run.tree.w as nat,
            run.tree.mu as nat,
        ));
    }
}

/// A prover without error never makes a batch update fail. As each such event is
/// one less to wait for, the run is finished in the end.
pub proof fn lemma_answers_finish_the_batch(run: BatchRun, event: BatchEvent)
    requires
        run.wf(),
        run.answers(event),
    ensures
        !(run.phase_after(event) is Failed),
{
    match event {
        BatchEvent::Tree { event: inner, .. } => {
            lemma_answers_build_the_tree(run.tree, inner);
        },
        BatchEvent::LevelProved { results, .. } => {
            if run.phase is Leaves && run.tree.depth == 0 {
                assert(run.chosen@[0] < run.n_leaves);
                assert(result_positions(results@)[0] == results@[0].pos);
                assert(results@[0].digest@ == sha256_of(
                    batch_block_of(run.tree.w as nat, results@[0].pos as int),
                ));
            }
        },
        _ => {},
    }
}

/// What was not asked for ends a batch update that is under way.
pub proof fn lemma_only_answers_go_on(run: BatchRun, event: BatchEvent)
    requires
        !(run.phase is Finished || run.phase is Failed),
        !(event is Error),
        !(run.phase is Tree && event is Tree),
        !(run.phase is Leaves && event is LevelProved),
        !(run.phase is Merging && event is LevelProved),
        !(run.phase is Verify && event is RootVerified),
    ensures
        run.phase_after(event) == BatchPhase::Failed(RunFailure::OutOfOrder),
{
}

/// Results for other leaves than were asked for end a batch update.
pub proof fn lemma_other_leaves_fail(
    run: BatchRun,
    results: Vec<NodeResult>,
    wall: Duration,
    elapsed: Duration,
    peak: Option<usize>,
)
    requires
        run.phase is Leaves,
        !(run.phase_after(BatchEvent::LevelProved { results, wall, elapsed, peak }) is Failed),
    ensures
        results@.len() == run.chosen@.len(),
        forall|i: int| 0 <= i < results@.len() ==> (#[trigger] results@[i]).pos == run.chosen@[i],
{
    let ps = result_positions(results@);
    assert(ps.len() == results@.len());
    assert forall|i: int| 0 <= i < results@.len() implies (#[trigger] results@[i]).pos
        == run.chosen@[i] by {
        assert(ps[i] == results@[i].pos);
    }
}

} // verus!
