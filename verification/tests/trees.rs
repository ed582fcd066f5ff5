//! Whole trees and their updates, with a prover that hashes what it is handed.

use sha2::{Digest, Sha256};
use translog::bench_common::Duration;
use translog::hypernova_pcd::batch_run::{
    run_batch_update, run_batch_update2, BatchAction, BatchEvent, BatchPhase, BatchRun,
    BatchUpdateOptions, BatchUpdateReport, NodeResult,
};
use translog::hypernova_pcd::identical::{IdenticalAction, IdenticalEvent};
use translog::hypernova_pcd::lcg::pick_leaves;
use translog::hypernova_pcd::pcd::{
    run_pcd, run_pcd2, PcdAction, PcdEvent, PcdOptions, PcdPhase, PcdReport, PcdRun,
};
use translog::hypernova_pcd::retry::{
    prove_step_with_retry, Attempt, RunFailure, Verdict, MAX_ATTEMPTS,
};
use translog::hypernova_pcd::tree::{make_blocks, merkle_root_native, merkle_root_native_bucketed};
use translog::hypernova_pcd::update::{
    exact_log, run_update, run_update2, UpdateAction, UpdateEvent, UpdateOptions, UpdatePhase,
    UpdateReport, UpdateRun,
};

const MS: Duration = Duration { nanos: 1_000_000 };

fn digest(z: &[u8], ext: &[u8]) -> [u8; 32] {
    let mut h = Sha256::new();
    h.update(z);
    h.update(ext);
    h.finalize().into()
}

fn drive_pcd(mut run: PcdRun) -> PcdRun {
    let mut digests: Vec<[u8; 32]> = Vec::new();
    loop {
        let event = match run.action() {
            PcdAction::Setup => PcdEvent::SetUp { time: MS, peak: Some(10) },
            PcdAction::ProveLeaf { z, ext, .. } => {
                digests.push(digest(&z, &ext));
                PcdEvent::Proved {
                    digest: digests[digests.len() - 1],
                    time: MS,
                    sibling_check: MS,
                    retries: 0,
                    peak: Some(20),
                }
            }
            PcdAction::Merge { first_child, ext, .. } => {
                let z = digests[first_child];
                digests.push(digest(&z, &ext));
                PcdEvent::Proved {
                    digest: digests[digests.len() - 1],
                    time: MS,
                    sibling_check: MS,
                    retries: 1,
                    peak: Some(30),
                }
            }
            PcdAction::VerifyRoot => PcdEvent::RootVerified { time: MS },
            PcdAction::Decide => PcdEvent::Decided {
                time: MS,
                peak: Some(40),
                accepted: true,
                verify_time: MS,
            },
            PcdAction::Stop => return run,
        };
        run.advance(event);
    }
}

fn pcd_report(run: PcdRun) -> PcdReport {
    let run = drive_pcd(run);
    assert_eq!(run.phase, PcdPhase::Finished);
    run.report()
}

#[test]
fn depth_1_binary_tree_no_decider() {
    let report = pcd_report(run_pcd::<2>(&PcdOptions {
        depth: 1,
        run_decider: false,
        verify_siblings: true,
    }));
    assert_eq!(report.nodes.len(), 3);
    assert_eq!(
        report.root_digest,
        merkle_root_native(2, &make_blocks(2, 2))
    );
}

#[test]
fn depth_1_quaternary_tree_no_decider() {
    let report = pcd_report(run_pcd::<4>(&PcdOptions {
        depth: 1,
        run_decider: false,
        verify_siblings: true,
    }));
    assert_eq!(report.nodes.len(), 5);
    assert_eq!(
        report.root_digest,
        merkle_root_native(4, &make_blocks(4, 4))
    );
}

#[test]
fn depth_2_bucketed_tree_with_decider() {
    let report = pcd_report(run_pcd2::<8, 4>(&PcdOptions {
        depth: 2,
        run_decider: true,
        verify_siblings: false,
    }));
    assert_eq!(report.nodes.len(), 21);
    assert_eq!(report.arity, 4);
    assert_eq!(report.bucket_bytes, 256);
    assert_eq!(report.data_bytes, 16 * 256);
    assert_eq!(report.decider_time, Some(MS));
    assert_eq!(report.verify_time.nanos, 2 * MS.nanos);
    assert_eq!(report.total_prove_time().nanos, 21 * MS.nanos);
    assert!(report.nodes.iter().all(|n| n.sibling_check.is_none()));
    assert_eq!(
        report.root_digest,
        merkle_root_native_bucketed(8, 4, &make_blocks(8, 16))
    );
}

#[test]
fn levels_and_sibling_checks_of_a_binary_tree() {
    let report = pcd_report(run_pcd::<2>(&PcdOptions {
        depth: 3,
        run_decider: false,
        verify_siblings: true,
    }));
    let levels: Vec<usize> = report.nodes.iter().map(|n| n.level).collect();
    assert_eq!(levels, [0, 0, 0, 0, 0, 0, 0, 0, 1, 1, 1, 1, 2, 2, 3]);
    for n in &report.nodes {
        assert_eq!(n.sibling_check.is_some(), n.level > 0);
    }
    assert_eq!(report.setup_peak_mem, Some(10));
    assert_eq!(report.tree_peak_mem, Some(30));
    assert_eq!(report.decider_time, None);
}

#[test]
fn a_tree_with_a_wrong_digest_diverges() {
    let mut run = run_pcd::<2>(&PcdOptions {
        depth: 1,
        run_decider: false,
        verify_siblings: false,
    });
    run.advance(PcdEvent::SetUp { time: MS, peak: None });
    for _ in 0..3 {
        run.advance(PcdEvent::Proved {
            digest: [9; 32],
            time: MS,
            sibling_check: MS,
            retries: 0,
            peak: None,
        });
    }
    assert_eq!(run.phase, PcdPhase::Verify);
    run.advance(PcdEvent::RootVerified { time: MS });
    assert_eq!(run.phase, PcdPhase::Failed(RunFailure::Diverged));
}

#[test]
fn a_tree_stops_on_errors_and_on_a_rejected_decider() {
    let opts = PcdOptions { depth: 1, run_decider: true, verify_siblings: false };
    let mut run = run_pcd::<2>(&opts);
    run.advance(PcdEvent::Error);
    assert_eq!(run.phase, PcdPhase::Failed(RunFailure::Backend));
    let mut run = run_pcd::<2>(&opts);
    run.advance(PcdEvent::RootVerified { time: MS });
    assert_eq!(run.phase, PcdPhase::Failed(RunFailure::OutOfOrder));

    let mut run = run_pcd::<2>(&opts);
    run.advance(PcdEvent::SetUp { time: MS, peak: None });
    let mut digests: Vec<[u8; 32]> = Vec::new();
    while run.phase == PcdPhase::Tree {
        let d = match run.action() {
            PcdAction::ProveLeaf { z, ext, .. } => digest(&z, &ext),
            PcdAction::Merge { first_child, ext, .. } => digest(&digests[first_child], &ext),
            _ => unreachable!(),
        };
        digests.push(d);
        run.advance(PcdEvent::Proved {
            digest: d,
            time: MS,
            sibling_check: MS,
            retries: 0,
            peak: None,
        });
    }
    run.advance(PcdEvent::RootVerified { time: MS });
    assert_eq!(run.phase, PcdPhase::Decider);
    run.advance(PcdEvent::Decided { time: MS, peak: None, accepted: false, verify_time: MS });
    assert_eq!(run.phase, PcdPhase::Failed(RunFailure::Rejected));
}

#[test]
fn blocks_are_distinct_and_the_root_by_hand() {
    let blocks = make_blocks(2, 4);
    assert_eq!(blocks.len(), 4);
    for b in &blocks {
        assert_eq!(b.len(), 64);
    }
    let leaves: Vec<[u8; 32]> = blocks.iter().map(|b| digest(b, &[])).collect();
    let left = digest(&leaves[0], &leaves[1]);
    let right = digest(&leaves[2], &leaves[3]);
    assert_eq!(merkle_root_native(2, &blocks), digest(&left, &right));
    // in buckets of three digests the last one is zero
    let wide = make_blocks(3, 4);
    let leaves: Vec<[u8; 32]> = wide.iter().map(|b| digest(b, &[])).collect();
    let zero = [0u8; 32];
    let left = digest(&leaves[0], &[leaves[1], zero].concat());
    let right = digest(&leaves[2], &[leaves[3], zero].concat());
    assert_eq!(
        merkle_root_native_bucketed(3, 2, &wide),
        digest(&left, &[right, zero].concat())
    );
}

#[test]
fn only_panics_are_retried() {
    assert_eq!(prove_step_with_retry(0, Attempt::Proved), Verdict::Done { retries: 0 });
    assert_eq!(prove_step_with_retry(2, Attempt::Proved), Verdict::Done { retries: 2 });
    assert_eq!(prove_step_with_retry(1, Attempt::Refused), Verdict::PassOn);
    assert_eq!(prove_step_with_retry(0, Attempt::Panicked), Verdict::Retry { attempt: 1 });
    assert_eq!(MAX_ATTEMPTS, 4);
    assert_eq!(prove_step_with_retry(3, Attempt::Panicked), Verdict::GiveUp);
}

/// Answers the actions of a tree over equal blocks.
fn answer_identical(action: IdenticalAction, digests: &mut Vec<[u8; 32]>) -> IdenticalEvent {
    match action {
        IdenticalAction::Setup => IdenticalEvent::SetUp { time: MS },
        IdenticalAction::ProveLeaf { z, ext } => {
            digests.push(digest(&z, &ext));
            IdenticalEvent::Proved { digest: digests[digests.len() - 1] }
        }
        IdenticalAction::ProveLevel { level, ext } => {
            let z = digests[level - 1];
            digests.push(digest(&z, &ext));
            IdenticalEvent::Proved { digest: digests[level] }
        }
        IdenticalAction::VerifyTop => IdenticalEvent::Verified { build_time: MS },
        IdenticalAction::Stop => IdenticalEvent::Error,
    }
}

fn drive_update(mut run: UpdateRun) -> UpdateRun {
    let mut old: Vec<[u8; 32]> = Vec::new();
    let mut path: Vec<[u8; 32]> = Vec::new();
    loop {
        let event = match run.action() {
            UpdateAction::Tree(action) => UpdateEvent::Tree {
                event: answer_identical(action, &mut old),
                peak: Some(1),
            },
            UpdateAction::ProveLeaf { z, ext } => {
                path.push(digest(&z, &ext));
                UpdateEvent::Proved { digest: path[0], time: MS, retries: 0, peak: Some(2) }
            }
            UpdateAction::Merge { level, ext } => {
                path.push(digest(&path[level - 1], &ext));
                UpdateEvent::Proved { digest: path[level], time: MS, retries: 1, peak: Some(3) }
            }
            UpdateAction::VerifyRoot => UpdateEvent::RootVerified { time: MS },
            UpdateAction::Decide => UpdateEvent::Decided {
                time: MS,
                peak: None,
                accepted: true,
                verify_time: MS,
            },
            UpdateAction::Stop => return run,
        };
        run.advance(event);
    }
}

fn update_report(run: UpdateRun) -> UpdateReport {
    let run = drive_update(run);
    assert_eq!(run.phase, UpdatePhase::Finished);
    run.report()
}

/// The blocks of an updated tree: the first leaf holds the new one.
fn updated_blocks(run: &UpdateRun, n: usize) -> Vec<Vec<u8>> {
    let mut blocks = vec![run.tree.old_block.clone(); n];
    blocks[0] = run.new_block.clone();
    blocks
}

#[test]
fn an_update_gives_the_root_of_the_updated_tree() {
    let run = run_update::<2>(&UpdateOptions { n_leaves: 16, run_decider: false });
    let blocks = updated_blocks(&run, 16);
    assert_ne!(blocks[0], blocks[1]);
    let report = update_report(run);
    assert_eq!(report.path.len(), 5);
    assert_eq!(report.depth, 4);
    assert_eq!(report.new_root, merkle_root_native(2, &blocks));
    assert_eq!(report.total_update_time().nanos, 5 * MS.nanos);
    assert_eq!(report.setup_peak_mem, Some(1));
    assert_eq!(report.update_peak_mem, Some(3));

    let run = run_update2::<8, 4>(&UpdateOptions { n_leaves: 64, run_decider: true });
    let blocks = updated_blocks(&run, 64);
    let report = update_report(run);
    assert_eq!(report.path.len(), 4);
    assert_eq!(report.new_root, merkle_root_native_bucketed(8, 4, &blocks));
    assert_eq!(report.decider_time, Some(MS));
}

#[test]
fn an_update_with_a_wrong_digest_diverges() {
    let mut run = run_update::<2>(&UpdateOptions { n_leaves: 2, run_decider: false });
    let mut old: Vec<[u8; 32]> = Vec::new();
    while let UpdateAction::Tree(action) = run.action() {
        run.advance(UpdateEvent::Tree { event: answer_identical(action, &mut old), peak: None });
    }
    while run.phase == UpdatePhase::Path {
        run.advance(UpdateEvent::Proved { digest: [1; 32], time: MS, retries: 0, peak: None });
    }
    run.advance(UpdateEvent::RootVerified { time: MS });
    assert_eq!(run.phase, UpdatePhase::Failed(RunFailure::Diverged));
}

#[test]
fn exact_logarithms() {
    assert_eq!(exact_log(2, 1), Some(0));
    assert_eq!(exact_log(2, 4096), Some(12));
    assert_eq!(exact_log(4, 4096), Some(6));
    assert_eq!(exact_log(16, 4096), Some(3));
    assert_eq!(exact_log(8, 100), None);
    assert_eq!(exact_log(3, usize::MAX), None);
    assert_eq!(exact_log(2, 0), None);
}

fn drive_batch(mut run: BatchRun) -> BatchRun {
    let mut old: Vec<[u8; 32]> = Vec::new();
    loop {
        let event = match run.action() {
            BatchAction::Tree(action) => BatchEvent::Tree {
                event: answer_identical(action, &mut old),
                peak: Some(1),
            },
            BatchAction::Leaves(tasks) => BatchEvent::LevelProved {
                results: tasks
                    .iter()
                    .map(|t| NodeResult {
                        pos: t.leaf,
                        digest: digest(&t.z, &t.ext),
                        time: MS,
                        retries: 0,
                    })
                    .collect(),
                wall: MS,
                elapsed: MS,
                peak: Some(2),
            },
            BatchAction::Merge { tasks, .. } => {
                let mut results: Vec<NodeResult> = Vec::new();
                for t in &tasks {
                    results.push(NodeResult {
                        pos: t.pos,
                        digest: digest(&t.z, &t.ext),
                        time: MS,
                        retries: 1,
                    });
                }
                BatchEvent::LevelProved { results, wall: MS, elapsed: MS, peak: Some(3) }
            }
            BatchAction::VerifyRoot => BatchEvent::RootVerified { time: MS },
            BatchAction::Stop => return run,
        };
        run.advance(event);
    }
}

fn batch_report(run: BatchRun) -> BatchUpdateReport {
    let run = drive_batch(run);
    assert_eq!(run.phase, BatchPhase::Finished);
    run.report()
}

/// The block that the batch update puts into a leaf.
fn batch_block(words: usize, leaf: usize) -> Vec<u8> {
    translog::hypernova_pcd::batch::batch_new_block(words, leaf)
}

#[test]
fn a_batch_update_gives_the_root_of_the_updated_tree() {
    for k in [1usize, 2, 5, 16, 64] {
        let run = run_batch_update::<4>(&BatchUpdateOptions { n_leaves: 64, k, task_threads: 8 });
        let mut blocks = vec![run.tree.old_block.clone(); 64];
        for leaf in &run.chosen {
            blocks[*leaf] = batch_block(4, *leaf);
        }
        let report = batch_report(run);
        assert_eq!(report.new_root, merkle_root_native(4, &blocks));
        assert_eq!(report.k, k);
        assert_eq!(report.levels.len(), 4);
        assert_eq!(report.levels[0].nodes, k);
        assert_eq!(report.levels[3].nodes, 1);
        assert_eq!(report.naive_nodes(), 4 * k);
        assert!(report.union_nodes() <= report.naive_nodes());
        assert_eq!(report.total_work().nanos, report.union_nodes() as u128 * MS.nanos);
    }
    let run = run_batch_update2::<8, 4>(&BatchUpdateOptions {
        n_leaves: 16,
        k: 3,
        task_threads: 1,
    });
    let mut blocks = vec![run.tree.old_block.clone(); 16];
    for leaf in &run.chosen {
        blocks[*leaf] = batch_block(8, *leaf);
    }
    assert_eq!(batch_report(run).new_root, merkle_root_native_bucketed(8, 4, &blocks));
}

#[test]
fn a_batch_of_one_leaf_in_a_tree_of_one_leaf() {
    let run = run_batch_update::<2>(&BatchUpdateOptions { n_leaves: 1, k: 1, task_threads: 1 });
    assert_eq!(run.chosen, [0]);
    let report = batch_report(run);
    assert_eq!(report.union_nodes(), 1);
    assert_eq!(report.new_root, digest(&batch_block(2, 0), &[]));
}

#[test]
fn a_batch_update_with_a_wrong_digest_diverges() {
    let mut run = run_batch_update::<2>(&BatchUpdateOptions {
        n_leaves: 4,
        k: 2,
        task_threads: 1,
    });
    let mut old: Vec<[u8; 32]> = Vec::new();
    while let BatchAction::Tree(action) = run.action() {
        run.advance(BatchEvent::Tree { event: answer_identical(action, &mut old), peak: None });
    }
    if let BatchAction::Leaves(tasks) = run.action() {
        let results = tasks
            .iter()
            .map(|t| NodeResult { pos: t.leaf, digest: [3; 32], time: MS, retries: 0 })
            .collect();
        run.advance(BatchEvent::LevelProved { results, wall: MS, elapsed: MS, peak: None });
    }
    assert_eq!(run.phase, BatchPhase::Merging);
    if let BatchAction::Merge { tasks, .. } = run.action() {
        let results = tasks
            .iter()
            .map(|t| NodeResult { pos: t.pos, digest: [4; 32], time: MS, retries: 0 })
            .collect();
        run.advance(BatchEvent::LevelProved { results, wall: MS, elapsed: MS, peak: None });
    }
    assert_eq!(run.phase, BatchPhase::Failed(RunFailure::Diverged));
}

#[test]
fn picked_leaves_by_hand() {
    for (n, k) in [(1usize, 1usize), (7, 7), (64, 5), (4096, 16), (4096, 512)] {
        let mut chosen = std::collections::BTreeSet::new();
        let mut x: u64 = 0x9E37_79B9_7F4A_7C15;
        while chosen.len() < k {
            x = x.wrapping_mul(6_364_136_223_846_793_005).wrapping_add(1_442_695_040_888_963_407);
            chosen.insert((x >> 16) as usize % n);
        }
        assert_eq!(pick_leaves(n, k), chosen.into_iter().collect::<Vec<usize>>());
    }
    assert_eq!(pick_leaves(5, 0), Vec::<usize>::new());
}

#[test]
fn node_counts_of_trees_of_two_kilobytes() {
    for (nodes, report) in [
        (63, pcd_report(run_pcd::<2>(&small(5)))),
        (21, pcd_report(run_pcd::<4>(&small(2)))),
        (9, pcd_report(run_pcd::<8>(&small(1)))),
    ] {
        assert_eq!(report.nodes.len(), nodes);
        assert_eq!(report.data_bytes, 2048);
    }
    assert_eq!(pcd_report(run_pcd::<16>(&small(1))).nodes.len(), 17);
}

fn small(depth: usize) -> PcdOptions {
    PcdOptions { depth, run_decider: false, verify_siblings: true }
}

#[test]
fn path_lengths_in_a_tree_of_4096_leaves() {
    let opts = UpdateOptions { n_leaves: 4096, run_decider: false };
    assert_eq!(update_report(run_update::<2>(&opts)).path.len(), 13);
    assert_eq!(update_report(run_update::<4>(&opts)).path.len(), 7);
    assert_eq!(update_report(run_update::<8>(&opts)).path.len(), 5);
    assert_eq!(update_report(run_update::<16>(&opts)).path.len(), 4);
}

#[test]
fn path_unions_in_a_tree_of_four_billion_leaves() {
    for (k, nodes) in [(1usize, 17usize), (16, 238), (256, 3295)] {
        let report = batch_report(run_batch_update::<4>(&BatchUpdateOptions {
            n_leaves: 1 << 32,
            k,
            task_threads: 8,
        }));
        assert_eq!(report.depth, 16);
        assert_eq!(report.union_nodes(), nodes);
        assert_eq!(report.naive_nodes(), 17 * k);
    }
}

#[test]
fn path_unions_of_one_leaf_and_of_all() {
    for (n_leaves, depth, nodes) in [(4usize, 2usize, 7usize), (16, 4, 31)] {
        let one = BatchUpdateOptions { n_leaves, k: 1, task_threads: 8 };
        let report = batch_report(run_batch_update::<2>(&one));
        assert_eq!(report.depth, depth);
        assert_eq!(report.union_nodes(), depth + 1);
        assert_eq!(report.naive_nodes(), depth + 1);
        let all = BatchUpdateOptions { n_leaves, k: n_leaves, task_threads: 8 };
        let report = batch_report(run_batch_update2::<2, 2>(&all));
        assert_eq!(report.union_nodes(), nodes);
        assert_eq!(report.naive_nodes(), n_leaves * (depth + 1));
    }
}

#[test]
fn the_batch_of_one_leaf_of_four_updates_leaf_two() {
    let run = run_batch_update2::<2, 2>(&BatchUpdateOptions {
        n_leaves: 4,
        k: 1,
        task_threads: 8,
    });
    assert_eq!(run.chosen, [2]);
    let old: Vec<u8> = (0..64u8).map(|j| 0xA0u8.wrapping_add(j)).collect();
    let blocks = [old.clone(), old.clone(), batch_block(2, 2), old];
    let report = batch_report(run);
    assert_eq!(report.new_root, merkle_root_native(2, &blocks));
    assert_eq!(report.levels.iter().map(|l| l.nodes).collect::<Vec<_>>(), [1, 1, 1]);
}

#[test]
fn runs_with_the_same_options_update_the_same_leaves() {
    for k in [1usize, 7, 16] {
        let opts = BatchUpdateOptions { n_leaves: 256, k, task_threads: 8 };
        let narrow = run_batch_update2::<2, 2>(&opts);
        let wide = run_batch_update2::<32, 16>(&opts);
        assert_eq!(narrow.chosen, wide.chosen);
    }
}

#[test]
fn a_late_level_changes_nothing() {
    let opts = BatchUpdateOptions { n_leaves: 4, k: 2, task_threads: 1 };
    let mut run = drive_batch(run_batch_update::<2>(&opts));
    let (level, nodes, wall) = (run.level, run.levels.len(), run.total_wall);
    run.advance(BatchEvent::LevelProved {
        results: Vec::new(),
        wall: MS,
        elapsed: Duration { nanos: 77 },
        peak: None,
    });
    assert_eq!(run.phase, BatchPhase::Finished);
    assert_eq!((run.level, run.levels.len(), run.total_wall), (level, nodes, wall));
    assert_eq!(run.update_peak_mem, Some(3));
}

#[test]
fn every_representative_of_the_old_tree_is_asked_for() {
    let opts = UpdateOptions { n_leaves: 16, run_decider: false };
    let mut run = run_update::<2>(&opts);
    let mut old: Vec<[u8; 32]> = Vec::new();
    let mut levels: Vec<usize> = Vec::new();
    while let UpdateAction::Tree(action) = run.action() {
        match &action {
            IdenticalAction::ProveLeaf { .. } => levels.push(0),
            IdenticalAction::ProveLevel { level, .. } => levels.push(*level),
            _ => {}
        }
        let event = answer_identical(action, &mut old);
        run.advance(UpdateEvent::Tree { event, peak: None });
    }
    assert_eq!(levels, [0, 1, 2, 3, 4]);
}

#[test]
fn nodes_and_path_entries_stand_by_level() {
    let opts = PcdOptions { depth: 3, run_decider: false, verify_siblings: true };
    let report = pcd_report(run_pcd::<2>(&opts));
    let levels: Vec<usize> = report.nodes.iter().map(|n| n.level).collect();
    assert_eq!(levels, [0, 0, 0, 0, 0, 0, 0, 0, 1, 1, 1, 1, 2, 2, 3]);
    assert!(report.nodes.iter().all(|n| n.retries <= 3));
    let report = update_report(run_update::<4>(&UpdateOptions {
        n_leaves: 64,
        run_decider: false,
    }));
    assert_eq!(report.path.iter().map(|p| p.level).collect::<Vec<_>>(), [0, 1, 2, 3]);
}
