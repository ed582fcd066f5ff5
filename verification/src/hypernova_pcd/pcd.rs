//! A whole tree: setup, every node from the leaves up, verification of the
//! root and the optional decider.

use crate::bench_common::{sum_durations, total_nanos, Duration, MAX_NANOS};
use crate::hash::{same_digest, sha256_of};
use crate::hypernova_pcd::construction::{lemma_complete_root, lemma_levels_of_tree,
    lemma_node_count_bound, node_count, nodes_on, PcdNodeTiming, TreeBuild};
use crate::hypernova_pcd::retry::{RunFailure, MAX_ATTEMPTS};
use crate::hypernova_pcd::tree::{bench_blocks, block_views, leaf_count, lemma_full_bucket_is_plain,
    lemma_tree_size_pos, make_blocks, merkle_root, merkle_root_native_bucketed, tree_size};
use vstd::prelude::*;

verus! {

pub struct PcdOptions {
    /// Tree depth: `arity^depth` leaves.
    pub depth: usize,
    pub run_decider: bool,
    pub verify_siblings: bool,
}

/// Timing and memory report of a whole tree.
#[derive(Clone, Debug)]
pub struct PcdReport {
    pub arity: usize,
    /// Bytes hashed per node.
    pub bucket_bytes: usize,
    pub depth: usize,
    pub data_bytes: usize,
    pub setup_time: Duration,
    pub setup_peak_mem: Option<usize>,
    pub nodes: Vec<PcdNodeTiming>,
    pub tree_peak_mem: Option<usize>,
    pub decider_time: Option<Duration>,
    pub decider_peak_mem: Option<usize>,
    pub verify_time: Duration,
    pub root_digest: [u8; 32],
}

/// The proof times of a row of nodes.
pub open spec fn prove_times(nodes: Seq<PcdNodeTiming>) -> Seq<Duration> {
    nodes.map_values(|n: PcdNodeTiming| n.prove_time)
}

impl PcdReport {
    /// Total time of all proofs.
    pub fn total_prove_time(&self) -> (d: Duration)
        requires
            total_nanos(prove_times(self.nodes@)) <= MAX_NANOS,
        ensures
            d.nanos == total_nanos(prove_times(self.nodes@)),
    {
        let mut times: Vec<Duration> = Vec::with_capacity(self.nodes.len());
        for i in 0..self.nodes.len()
            invariant
                times@ == prove_times(self.nodes@).take(i as int),
        {
            times.push(self.nodes[i].prove_time);
            assert(times@ =~= prove_times(self.nodes@).take(i + 1));
        }
        assert(times@ =~= prove_times(self.nodes@));
        sum_durations(times.as_slice())
    }
}

#[derive(Clone, Copy, Debug, PartialEq, Eq, Structural)]
pub enum PcdPhase {
    Setup,
    Tree,
    Verify,
    Decider,
    Finished,
    Failed(RunFailure),
}

/// What the prover is to do next.
pub enum PcdAction {
    /// Preprocess and make the trivial accumulator, measuring from a reset
    /// peak; reset the peak again afterwards.
    Setup,
    /// Start a chain on `z` and fold the trivial accumulators into it.
    ProveLeaf { leaf: usize, z: Vec<u8>, ext: Vec<u8> },
    /// Continue the chain of node `first_child` and fold its `arity - 1` right
    /// neighbours into it, after verifying them where `check_siblings` says so.
    Merge { level: usize, first_child: usize, check_siblings: bool, ext: Vec<u8> },
    /// Verify the root's proof.
    VerifyRoot,
    /// Make and verify the decider proof, measuring from a reset peak.
    Decide,
    /// Nothing: the run is over.
    Stop,
}

/// What the prover did.
#[derive(Clone, Copy, Debug)]
pub enum PcdEvent {
    SetUp { time: Duration, peak: Option<usize> },
    Proved {
        digest: [u8; 32],
        time: Duration,
        sibling_check: Duration,
        retries: usize,
        peak: Option<usize>,
    },
    RootVerified { time: Duration },
    Decided { time: Duration, peak: Option<usize>, accepted: bool, verify_time: Duration },
    Error,
}

/// A run over a tree of fan-in `mu` whose nodes hash `32 * w` bytes.
pub struct PcdRun {
    pub run_decider: bool,
    pub verify_siblings: bool,
    pub phase: PcdPhase,
    pub build: TreeBuild,
    pub setup_time: Duration,
    pub setup_peak_mem: Option<usize>,
    pub tree_peak_mem: Option<usize>,
    pub verify_time: Duration,
    pub decider_time: Option<Duration>,
    pub decider_peak_mem: Option<usize>,
}

impl PcdRun {
    /// Root over the run's data blocks.
    pub open spec fn native_root(self) -> Seq<u8> {
        merkle_root(Some(self.build.w as nat), self.build.mu as nat, block_views(self.build.blocks@))
    }

    pub open spec fn wf(self) -> bool {
        let n = tree_size(self.build.mu as nat, self.build.depth as nat);
        &&& self.build.wf()
        &&& 32 * self.build.w * n <= usize::MAX
        &&& block_views(self.build.blocks@) == bench_blocks(self.build.w as nat, n)
        &&& match self.phase {
            PcdPhase::Setup => self.build.digests@.len() == 0,
            PcdPhase::Tree => !self.build.complete(),
            PcdPhase::Verify => self.build.complete(),
            PcdPhase::Decider => self.build.complete() && self.run_decider
                && self.build.digests@.last()@ == self.native_root() && self.decider_time is None
                && self.decider_peak_mem is None,
            PcdPhase::Finished => self.build.complete() && self.build.digests@.last()@
                == self.native_root() && (!self.run_decider ==> self.decider_time is None
                && self.decider_peak_mem is None) && (self.run_decider ==> self.decider_time is Some),
            PcdPhase::Failed(_) => true,
        }
        &&& (self.phase is Setup || self.phase is Tree || self.phase is Verify)
            ==> self.decider_time is None && self.decider_peak_mem is None
    }

    /// The event is what a prover without error reports: what was asked for,
    /// with the digest of the bytes handed out.
    pub open spec fn answers(self, event: PcdEvent) -> bool {
        match (self.phase, event) {
            (PcdPhase::Setup, PcdEvent::SetUp { .. }) => true,
            (PcdPhase::Tree, PcdEvent::Proved { .. }) => self.honest(event),
            (PcdPhase::Verify, PcdEvent::RootVerified { .. }) => true,
            (PcdPhase::Decider, PcdEvent::Decided { accepted, .. }) => accepted,
            _ => false,
        }
    }

    /// Events that the run still waits for before it is finished.
    pub open spec fn remaining(self) -> int {
        let nodes = node_count(self.build.mu as nat, self.build.depth as nat);
        let decider: int = if self.run_decider {
            1
        } else {
            0
        };
        match self.phase {
            PcdPhase::Setup => nodes + 2 + decider,
            PcdPhase::Tree => nodes - self.build.digests@.len() + 1 + decider,
            PcdPhase::Verify => 1 + decider,
            PcdPhase::Decider => 1,
            PcdPhase::Finished => 0,
            PcdPhase::Failed(_) => 0,
        }
    }

    /// The phase that an event leads to.
    pub open spec fn phase_after(self, event: PcdEvent) -> PcdPhase {
        match (self.phase, event) {
            (PcdPhase::Finished, _) => self.phase,
            (PcdPhase::Failed(_), _) => self.phase,
            (_, PcdEvent::Error) => PcdPhase::Failed(RunFailure::Backend),
            (PcdPhase::Setup, PcdEvent::SetUp { .. }) => PcdPhase::Tree,
            (PcdPhase::Tree, PcdEvent::Proved { .. }) => if self.build.digests@.len() + 1
                == node_count(self.build.mu as nat, self.build.depth as nat) {
                PcdPhase::Verify
            } else {
                PcdPhase::Tree
            },
            (PcdPhase::Verify, PcdEvent::RootVerified { .. }) => if self.build.digests@.last()@
                != self.native_root() {
                PcdPhase::Failed(RunFailure::Diverged)
            } else if self.run_decider {
                PcdPhase::Decider
            } else {
                PcdPhase::Finished
            },
            (PcdPhase::Decider, PcdEvent::Decided { accepted, .. }) => if accepted {
                PcdPhase::Finished
            } else {
                PcdPhase::Failed(RunFailure::Rejected)
            },
            _ => PcdPhase::Failed(RunFailure::OutOfOrder),
        }
    }

    /// No node took more attempts than are made.
    pub open spec fn attempts_kept(self) -> bool {
        forall|i: int|
            0 <= i < self.build.nodes@.len() ==> (#[trigger] self.build.nodes@[i]).retries
                < MAX_ATTEMPTS
    }

    /// Neither the options nor the tree changed.
    pub open spec fn same_job(self, before: PcdRun) -> bool {
        &&& self.run_decider == before.run_decider
        &&& self.verify_siblings == before.verify_siblings
        &&& self.build.w == before.build.w
        &&& self.build.mu == before.build.mu
        &&& self.build.depth == before.build.depth
        &&& self.build.blocks == before.build.blocks
    }

    /// What is recorded for a node.
    pub open spec fn timing(
        self,
        time: Duration,
        sibling_check: Duration,
        retries: usize,
    ) -> PcdNodeTiming {
        PcdNodeTiming {
            level: self.build.level,
            prove_time: time,
            sibling_check: if self.build.level > 0 && self.verify_siblings {
                Some(sibling_check)
            } else {
                None
            },
            retries,
        }
    }

    /// The event is what an honest prover reports: the digest of the bytes it
    /// was handed.
    pub open spec fn honest(self, event: PcdEvent) -> bool {
        event matches PcdEvent::Proved { digest, .. } ==> digest@ == sha256_of(
            self.build.input(
                self.build.level as nat,
                (self.build.digests@.len() - self.build.start) as nat,
            ),
        )
    }
}

/// Starts a run over the benchmark blocks, with buckets of `W` digests.
pub fn run_pcd2<const W: usize, const MU: usize>(opts: &PcdOptions) -> (run: PcdRun)
    requires
        2 <= MU <= W,
        opts.depth >= 1,
        32 * W * tree_size(MU as nat, opts.depth as nat) <= usize::MAX,
    ensures
        run.wf(),
        run.phase == PcdPhase::Setup,
        run.run_decider == opts.run_decider,
        run.verify_siblings == opts.verify_siblings,
        run.build.w == W,
        run.build.mu == MU,
        run.build.depth == opts.depth,
        run.build.follows_tree(),
        run.attempts_kept(),
{
    let ghost size = tree_size(MU as nat, opts.depth as nat);
    proof {
        lemma_tree_size_pos(MU as nat, opts.depth as nat);
        lemma_node_count_bound(MU as nat, opts.depth as nat);
        assert(32 * W <= 32 * W * size && 64 * size <= 32 * W * size) by (nonlinear_arith)
            requires
                size >= 1,
                W >= 2,
        ;
    }
    let n_leaves = leaf_count(MU, opts.depth);
    let blocks = make_blocks(W, n_leaves);
    assert(blocks@.len() == block_views(blocks@).len());
    assert forall|i: int| 0 <= i < blocks@.len() implies (#[trigger] blocks@[i])@.len() == 32 * W by {
        assert(block_views(blocks@)[i] == blocks@[i]@);
        assert(bench_blocks(W as nat, size)[i].len() == 32 * W);
    }
    PcdRun {
        run_decider: opts.run_decider,
        verify_siblings: opts.verify_siblings,
        phase: PcdPhase::Setup,
        build: TreeBuild::new(W, MU, opts.depth, blocks),
        setup_time: Duration::zero(),
        setup_peak_mem: None,
        tree_peak_mem: None,
        verify_time: Duration::zero(),
        decider_time: None,
        decider_peak_mem: None,
    }
}

/// Starts a run whose buckets are as wide as the tree's arity.
pub fn run_pcd<const ARITY: usize>(opts: &PcdOptions) -> (run: PcdRun)
    requires
        2 <= ARITY,
        opts.depth >= 1,
        32 * ARITY * tree_size(ARITY as nat, opts.depth as nat) <= usize::MAX,
    ensures
        run.wf(),
        run.phase == PcdPhase::Setup,
        run.run_decider == opts.run_decider,
        run.verify_siblings == opts.verify_siblings,
        run.build.w == ARITY,
        run.build.mu == ARITY,
        run.build.depth == opts.depth,
        run.build.follows_tree(),
        run.attempts_kept(),
        run.native_root() == merkle_root(
            None,
            ARITY as nat,
            bench_blocks(ARITY as nat, tree_size(ARITY as nat, opts.depth as nat)),
        ),
{
    let run = run_pcd2::<ARITY, ARITY>(opts);
    proof {
        lemma_full_bucket_is_plain(
            ARITY as nat,
            block_views(run.build.blocks@),
            opts.depth as nat,
        );
    }
    run
}

impl PcdRun {
    /// What the prover is to do next.
    pub fn action(&self) -> (action: PcdAction)
        requires
            self.wf(),
        ensures
            match self.phase {
                PcdPhase::Setup => action is Setup,
                PcdPhase::Tree => {
                    let pos = (self.build.digests@.len() - self.build.start) as nat;
                    let input = self.build.input(self.build.level as nat, pos);
                    if self.build.level == 0 {
                        action matches PcdAction::ProveLeaf { leaf, z, ext } && leaf == pos
                            && z@.len() == 32 && z@ + ext@ == input
                    } else {
                        action matches PcdAction::Merge { level, first_child, check_siblings, ext }
                            && level == self.build.level && first_child == self.build.node_index(
                            (level - 1) as nat,
                            (pos * self.build.mu) as nat,
                        ) && first_child + self.build.mu <= self.build.start && check_siblings
                            == self.verify_siblings
                            && self.build.digests@[first_child as int]@ + ext@ == input
                    }
                },
                PcdPhase::Verify => action is VerifyRoot,
                PcdPhase::Decider => action is Decide,
                _ => action is Stop,
            },
    {
        match self.phase {
            PcdPhase::Setup => PcdAction::Setup,
            PcdPhase::Tree => {
                match self.build.next_task() {
                    Some(task) => {
                        if task.level == 0 {
                            PcdAction::ProveLeaf { leaf: task.pos, z: task.z, ext: task.ext }
                        } else {
                            PcdAction::Merge {
                                level: task.level,
                                first_child: task.first_child,
                                check_siblings: self.verify_siblings,
                                ext: task.ext,
                            }
                        }
                    },
                    None => PcdAction::Stop,
                }
            },
            PcdPhase::Verify => PcdAction::VerifyRoot,
            PcdPhase::Decider => PcdAction::Decide,
            PcdPhase::Finished => PcdAction::Stop,
            PcdPhase::Failed(_) => PcdAction::Stop,
        }
    }

    /// Takes in what the prover did.
    pub fn advance(&mut self, event: PcdEvent)
        requires
            old(self).wf(),
            event matches PcdEvent::Decided { verify_time, .. } ==> old(self).verify_time.nanos
                + verify_time.nanos <= MAX_NANOS,
        ensures
            final(self).wf(),
            final(self).same_job(*old(self)),
            final(self).phase == old(self).phase_after(event),
            old(self).build.follows_tree() && old(self).honest(event)
                ==> final(self).build.follows_tree(),
            old(self).attempts_kept() && (event matches PcdEvent::Proved { retries, .. } ==> retries
                < MAX_ATTEMPTS) ==> final(self).attempts_kept(),
            old(self).phase is Setup ==> (event matches PcdEvent::SetUp { time, peak } ==> {
                &&& final(self).setup_time == time
                &&& final(self).setup_peak_mem == peak
            }),
            old(self).phase is Tree ==> (event matches PcdEvent::Proved {
                digest,
                time,
                sibling_check,
                retries,
                peak,
            } ==> {
                &&& final(self).build.digests@ == old(self).build.digests@.push(digest)
                &&& final(self).build.nodes@ == old(self).build.nodes@.push(
                    old(self).timing(time, sibling_check, retries),
                )
                &&& final(self).tree_peak_mem == peak
            }),
            old(self).phase is Verify ==> (event matches PcdEvent::RootVerified { time }
                ==> final(self).verify_time == time),
            old(self).phase is Decider ==> (event matches PcdEvent::Decided {
                time,
                peak,
                accepted: true,
                verify_time,
            } ==> {
                &&& final(self).decider_time == Some(time)
                &&& final(self).decider_peak_mem == peak
                &&& final(self).verify_time.nanos == old(self).verify_time.nanos + verify_time.nanos
            }),
            !(old(self).phase is Tree && event is Proved) ==> final(self).build == old(self).build,
            !(old(self).phase is Tree && event is Proved) ==> final(self).tree_peak_mem == old(
                self,
            ).tree_peak_mem,
            !(old(self).phase is Setup && event is SetUp) ==> final(self).setup_time == old(
                self,
            ).setup_time && final(self).setup_peak_mem == old(self).setup_peak_mem,
            !(old(self).phase is Verify && event is RootVerified) && !(old(self).phase is Decider
                && event is Decided) ==> final(self).verify_time == old(self).verify_time,
            !(old(self).phase is Decider && event is Decided) ==> final(self).decider_time == old(
                self,
            ).decider_time && final(self).decider_peak_mem == old(self).decider_peak_mem,
            !(old(self).phase is Finished) && !(final(self).phase is Failed)
                ==> final(self).remaining() == old(self).remaining() - 1,
    {
        match self.phase {
            PcdPhase::Finished => {
                return ;
            },
            PcdPhase::Failed(_) => {
                return ;
            },
            _ => {},
        }
        if let PcdEvent::Error = event {
            self.phase = PcdPhase::Failed(RunFailure::Backend);
            return ;
        }
        match (self.phase, event) {
            (PcdPhase::Setup, PcdEvent::SetUp { time, peak }) => {
                self.setup_time = time;
                self.setup_peak_mem = peak;
                self.phase = PcdPhase::Tree;
            },
            (
                PcdPhase::Tree,
                PcdEvent::Proved { digest, time, sibling_check, retries, peak },
            ) => {
                let checked = if self.build.level > 0 && self.verify_siblings {
                    Some(sibling_check)
                } else {
                    None
                };
                self.build.record(digest, time, checked, retries);
                self.tree_peak_mem = peak;
                if self.build.level > self.build.depth {
                    self.phase = PcdPhase::Verify;
                }
            },
            (PcdPhase::Verify, PcdEvent::RootVerified { time }) => {
                self.verify_time = time;
                let root = self.build.root();
                proof {
                    lemma_tree_size_pos(self.build.mu as nat, self.build.depth as nat);
                }
                let expected = merkle_root_native_bucketed(
                    self.build.w,
                    self.build.mu,
                    self.build.blocks.as_slice(),
                );
                if !same_digest(&root, &expected) {
                    self.phase = PcdPhase::Failed(RunFailure::Diverged);
                } else if self.run_decider {
                    self.phase = PcdPhase::Decider;
                } else {
                    self.phase = PcdPhase::Finished;
                }
            },
            (
                PcdPhase::Decider,
                PcdEvent::Decided { time, peak, accepted, verify_time },
            ) => {
                if accepted {
                    self.decider_time = Some(time);
                    self.decider_peak_mem = peak;
                    self.verify_time = self.verify_time.plus(verify_time);
                    self.phase = PcdPhase::Finished;
                } else {
                    self.phase = PcdPhase::Failed(RunFailure::Rejected);
                }
            },
            _ => {
                self.phase = PcdPhase::Failed(RunFailure::OutOfOrder);
            },
        }
    }

    /// The report of a finished run. Its root is the root over the data blocks.
    pub fn report(self) -> (report: PcdReport)
        requires
            self.wf(),
            self.phase is Finished,
        ensures
            report.arity == self.build.mu,
            report.bucket_bytes == 32 * self.build.w,
            report.depth == self.build.depth,
            report.data_bytes == 32 * self.build.w * tree_size(
                self.build.mu as nat,
                self.build.depth as nat,
            ),
            report.setup_time == self.setup_time,
            report.setup_peak_mem == self.setup_peak_mem,
            report.nodes == self.build.nodes,
            report.nodes@.len() == node_count(self.build.mu as nat, self.build.depth as nat),
            forall|l: nat|
                l <= self.build.depth ==> #[trigger] nodes_on(report.nodes@, l as int) == tree_size(
                    self.build.mu as nat,
                    (self.build.depth - l) as nat,
                ),
            forall|i: int|
                0 <= i < report.nodes@.len() ==> (#[trigger] report.nodes@[i]).level
                    <= self.build.depth,
            forall|i: int, j: int|
                0 <= i <= j < report.nodes@.len() ==> (#[trigger] report.nodes@[i]).level <= (
                #[trigger] report.nodes@[j]).level,
            self.attempts_kept() ==> forall|i: int|
                0 <= i < report.nodes@.len() ==> (#[trigger] report.nodes@[i]).retries <= 3,
            report.tree_peak_mem == self.tree_peak_mem,
            report.decider_time == self.decider_time,
            report.decider_peak_mem == self.decider_peak_mem,
            report.verify_time == self.verify_time,
            report.root_digest == self.build.digests@.last(),
            report.root_digest@ == self.native_root(),
    {
        proof {
            lemma_levels_of_tree(
                self.build.nodes@,
                self.build.mu as nat,
                self.build.depth as nat,
            );
        }
        let n_leaves = self.build.blocks.len();
        let root_digest = self.build.root();
        PcdReport {
            arity: self.build.mu,
            bucket_bytes: 32 * self.build.w,
            depth: self.build.depth,
            data_bytes: 32 * self.build.w * n_leaves,
            setup_time: self.setup_time,
            setup_peak_mem: self.setup_peak_mem,
            nodes: self.build.nodes,
            tree_peak_mem: self.tree_peak_mem,
            decider_time: self.decider_time,
            decider_peak_mem: self.decider_peak_mem,
            verify_time: self.verify_time,
            root_digest,
        }
    }
}

/// A node's record holds what was measured: its proof's time and retries, and the
/// time of the sibling check where the node is a merge and siblings are checked.
pub proof fn lemma_timing(run: PcdRun, time: Duration, sibling_check: Duration, retries: usize)
    ensures
        run.timing(time, sibling_check, retries).level == run.build.level,
        run.timing(time, sibling_check, retries).prove_time == time,
        run.timing(time, sibling_check, retries).retries == retries,
        run.timing(time, sibling_check, retries).sibling_check is Some <==> run.build.level > 0
            && run.verify_siblings,
        run.timing(time, sibling_check, retries).sibling_check matches Some(t) ==> t
            == sibling_check,
{
}

/// The proof times of a row of nodes are the nodes' own.
pub proof fn lemma_prove_times(nodes: Seq<PcdNodeTiming>, i: int)
    requires
        0 <= i < nodes.len(),
    ensures
        prove_times(nodes).len() == nodes.len(),
        prove_times(nodes)[i] == nodes[i].prove_time,
{
}

/// A run ends well only with the root over its data blocks and, where a decider
/// was asked for, with an accepted decider proof.
pub proof fn lemma_only_the_root_passes(run: PcdRun, event: PcdEvent)
    requires
        run.wf(),
        !(run.phase is Finished),
        run.phase_after(event) is Finished,
    ensures
        run.build.digests@.last()@ == run.native_root(),
        run.run_decider ==> (event matches PcdEvent::Decided { accepted, .. } && accepted),
        !run.run_decider ==> event is RootVerified,
{
}

/// An error of the prover ends a run that is under way, and a run that is over
/// stays as it is.
pub proof fn lemma_errors_end_the_run(run: PcdRun, event: PcdEvent)
    ensures
        run.phase is Finished || run.phase is Failed ==> run.phase_after(event) == run.phase,
        !(run.phase is Finished || run.phase is Failed) && event is Error ==> run.phase_after(event)
            == PcdPhase::Failed(RunFailure::Backend),
{
}

/// With an honest prover the root never diverges: as long as every digest
/// reported is that of the bytes handed out, the root that comes out is the
/// root over the data blocks.
pub proof fn lemma_honest_run_does_not_diverge(run: PcdRun, time: Duration)
    requires
        run.wf(),
        run.phase is Verify,
        run.build.follows_tree(),
    ensures
        run.phase_after(PcdEvent::RootVerified { time }) == (if run.run_decider {
            PcdPhase::Decider
        } else {
            PcdPhase::Finished
        }),
{
    lemma_complete_root(run.build);
}

/// A prover without error never makes a run fail. As each such event is one less
/// to wait for, the run is finished in the end.
pub proof fn lemma_answers_finish_the_run(run: PcdRun, event: PcdEvent)
    requires
        run.wf(),
        run.build.follows_tree(),
        run.answers(event),
    ensures
        !(run.phase_after(event) is Failed),
{
    if let PcdEvent::RootVerified { time } = event {
        lemma_honest_run_does_not_diverge(run, time);
    }
}

/// What was not asked for ends a run that is under way.
pub proof fn lemma_only_answers_go_on(run: PcdRun, event: PcdEvent)
    requires
        !(run.phase is Finished || run.phase is Failed),
        !(event is Error),
        !(run.phase is Setup && event is SetUp),
        !(run.phase is Tree && event is Proved),
        !(run.phase is Verify && event is RootVerified),
        !(run.phase is Decider && event is Decided),
    ensures
        run.phase_after(event) == PcdPhase::Failed(RunFailure::OutOfOrder),
{
}

/// A root that is not the one over the data blocks ends a run, and so does a decider
/// proof that is not accepted.
pub proof fn lemma_wrong_roots_fail(run: PcdRun, event: PcdEvent)
    requires
        run.wf(),
    ensures
        run.phase is Verify && event is RootVerified && run.build.digests@.last()@
            != run.native_root() ==> run.phase_after(event) == PcdPhase::Failed(
            RunFailure::Diverged,
        ),
        run.phase is Decider && (event matches PcdEvent::Decided { accepted, .. } && !accepted)
            ==> run.phase_after(event) == PcdPhase::Failed(RunFailure::Rejected),
{
}

} // verus!
