//! Reports, against the standard library's formatting.

use translog::bench_common::{
    fmt_bytes, fmt_duration, print_comparative_report, Duration, IvcReport,
};
use translog::float::ratio;
use translog::hypernova_pcd::{
    print_arity_comparison, print_batch_comparison, print_batch_report, print_report,
    print_update_comparison, print_update_report, BatchLevelTiming, BatchUpdateReport,
    PcdNodeTiming, PcdReport, UpdatePathTiming, UpdateReport,
};
use translog::nova_spartan_ivc::merkle::MerkleIvcOutput;
use translog::nova_spartan_ivc::merkle_bench::print_merkle_report;
use translog::ranking::rank;

const RULE: &str =
    "================================================================================";

fn dur(nanos: u128) -> Duration {
    Duration { nanos }
}

fn secs(d: Duration) -> f64 {
    std::time::Duration::new(
        (d.nanos / 1_000_000_000) as u64,
        (d.nanos % 1_000_000_000) as u32,
    )
    .as_secs_f64()
}

fn mem(m: Option<usize>) -> String {
    m.map(fmt_bytes).unwrap_or_else(|| "n/a".into())
}

fn hex(bytes: &[u8]) -> String {
    bytes.iter().map(|b| format!("{b:02x}")).collect()
}

fn ivc_report(backend: &str, steps: &[u128], finalize: Option<u128>) -> IvcReport {
    IvcReport {
        backend: backend.to_string(),
        config: format!("config of {backend}"),
        setup_time: dur(61_500_000_000),
        setup_peak_mem: Some(3_000_000_000),
        step_times: steps.iter().map(|n| dur(*n)).collect(),
        steps_peak_mem: None,
        finalize_time: finalize.map(dur),
        finalize_peak_mem: Some(123_456),
        verify_time: finalize.map(dur),
    }
}

fn ivc_by_hand(r: &IvcReport, none: &str) -> String {
    let mut s = format!("    config           : {}\n", r.config);
    s += &format!(
        "    setup latency    : {:>12}   (peak mem {})\n",
        fmt_duration(r.setup_time),
        mem(r.setup_peak_mem)
    );
    s += &format!(
        "    step proving     : avg {:>10} | min {} | max {} | total {}   (peak mem {})\n",
        fmt_duration(r.avg_step_time()),
        fmt_duration(r.min_step_time()),
        fmt_duration(r.max_step_time()),
        fmt_duration(r.total_step_time()),
        mem(r.steps_peak_mem)
    );
    match r.finalize_time {
        Some(t) => {
            s += &format!(
                "    final SNARK      : {:>12}   (peak mem {})\n",
                fmt_duration(t),
                mem(r.finalize_peak_mem)
            )
        }
        None => s += none,
    }
    if let Some(t) = r.verify_time {
        s += &format!("    verification     : {:>12}\n", fmt_duration(t));
    }
    s
}

fn comparison_by_hand(n_steps: usize, reports: &[IvcReport]) -> String {
    let mut s = format!(
        "\n{RULE}\n IVC benchmark — SHA-256 chain over 32-byte state, N = {n_steps} steps\n{RULE}\n"
    );
    for r in reports {
        s += &format!("\n--- {} ---\n", r.backend);
        s += &ivc_by_hand(
            r,
            "    final SNARK      :          n/a   (last recursive proof is final)\n",
        );
    }
    s += "\n--- head-to-head (avg per-step proving, fastest first) ---\n";
    let mut ranked: Vec<&IvcReport> = reports.iter().collect();
    ranked.sort_by_key(|r| r.avg_step_time().nanos);
    if let Some(fastest) = ranked.first() {
        let base = secs(fastest.avg_step_time()).max(1e-12);
        for r in &ranked {
            let ratio = secs(r.avg_step_time()) / base;
            s += &format!(
                "    {:>8} /step  ({ratio:.2}x)  {}\n",
                fmt_duration(r.avg_step_time()),
                r.backend
            );
        }
    }
    s += RULE;
    s += "\n";
    s
}

#[test]
fn comparative_reports() {
    let reports = vec![
        ivc_report("slow", &[2_000_000_000, 1_234_567_891], Some(70_123_456_789)),
        ivc_report("fast", &[1_500_000, 2_500_001, 3], None),
        ivc_report("tie", &[3_234_567_891], Some(5)),
        ivc_report("also fast", &[1_333_334, 1_333_334], None),
    ];
    assert_eq!(print_comparative_report(3, &reports), comparison_by_hand(3, &reports));
    assert_eq!(print_comparative_report(0, &[]), comparison_by_hand(0, &[]));
    // without steps the averages are zero
    let empty = vec![ivc_report("a", &[], None), ivc_report("b", &[7], None)];
    assert_eq!(print_comparative_report(9, &empty), comparison_by_hand(9, &empty));
}

#[test]
fn append_reports() {
    for finalize in [None, Some(1_000_000_007)] {
        let out = MerkleIvcOutput {
            report: ivc_report("x", &[5_000_000, 6_000_000], finalize),
            root: [0xa5; 32],
            n_leaves: 2,
        };
        let mut s = format!(
            "\n{RULE}\n IVC benchmark — Merkle append (SHA-256, frontier), depth = 7, N = 2 leaves\n{RULE}\n"
        );
        s += &ivc_by_hand(
            &out.report,
            "    final SNARK      :      skipped   (--skip-spartan)\n",
        );
        s += &format!("    final root       : {}\n{RULE}\n", hex(&out.root));
        assert_eq!(print_merkle_report(7, &out), s);
    }
}

fn pcd_report(arity: usize, unit: u128, retries: usize, decider: Option<u128>) -> PcdReport {
    let mut nodes = Vec::new();
    for i in 0..arity {
        nodes.push(PcdNodeTiming {
            level: 0,
            prove_time: dur(unit * (i as u128 + 1)),
            sibling_check: None,
            retries: 0,
        });
    }
    nodes.push(PcdNodeTiming {
        level: 1,
        prove_time: dur(unit * 7),
        sibling_check: decider.map(|n| dur(n / 3)),
        retries,
    });
    PcdReport {
        arity,
        bucket_bytes: 32 * arity,
        depth: 1,
        data_bytes: 32 * arity * arity,
        setup_time: dur(1_234_567_890),
        setup_peak_mem: None,
        nodes,
        tree_peak_mem: Some(987_654_321),
        decider_time: decider.map(dur),
        decider_peak_mem: Some(1),
        verify_time: dur(4_000_000),
        root_digest: std::array::from_fn(|i| i as u8),
    }
}

fn stats(times: &[Duration]) -> [Duration; 4] {
    let total: u128 = times.iter().map(|t| t.nanos).sum();
    let avg = if times.is_empty() { 0 } else { total / times.len() as u128 };
    let min = times.iter().map(|t| t.nanos).min().unwrap_or(0);
    let max = times.iter().map(|t| t.nanos).max().unwrap_or(0);
    [dur(avg), dur(min), dur(max), dur(total)]
}

fn throughput(r: &PcdReport) -> f64 {
    let total: u128 = r.nodes.iter().map(|n| n.prove_time.nanos).sum();
    r.data_bytes as f64 / secs(dur(total)).max(1e-9)
}

fn pcd_by_hand(r: &PcdReport) -> String {
    let mut s = format!(
        "\n{RULE}\n HyperNova PCD — {}-ary SHA-256 tree, depth {} ({} leaves, {} nodes, {} data, bucket {}B)\n",
        r.arity,
        r.depth,
        r.arity.pow(r.depth as u32),
        r.nodes.len(),
        fmt_bytes(r.data_bytes),
        r.bucket_bytes
    );
    s += &format!(
        " config: HyperNova MU={}/NU=1 on BN254/Grumpkin, KZG + Pedersen, Groth16 decider\n{RULE}\n",
        r.arity
    );
    s += &format!(
        "    setup latency    : {:>12}   (peak mem {})\n",
        fmt_duration(r.setup_time),
        mem(r.setup_peak_mem)
    );
    let max_level = r.nodes.iter().map(|n| n.level).max().unwrap_or(0);
    for lvl in 0..=max_level {
        let times: Vec<Duration> =
            r.nodes.iter().filter(|n| n.level == lvl).map(|n| n.prove_time).collect();
        let [avg, min, max, total] = stats(&times);
        let label = if lvl == 0 {
            format!("level 0 ({} leaf nodes)", times.len())
        } else {
            format!("level {} ({} merge nodes)", lvl, times.len())
        };
        s += &format!(
            "    {label:<26}: avg {:>10} | min {} | max {} | total {}\n",
            fmt_duration(avg),
            fmt_duration(min),
            fmt_duration(max),
            fmt_duration(total)
        );
    }
    let all: Vec<Duration> = r.nodes.iter().map(|n| n.prove_time).collect();
    let [avg, _, _, total] = stats(&all);
    s += &format!(
        "    all nodes          : avg {:>10} per node | total tree proving {}   (peak mem {})\n",
        fmt_duration(avg),
        fmt_duration(total),
        mem(r.tree_peak_mem)
    );
    s += &format!(
        "    throughput         : {:>12}/s of data proved\n",
        fmt_bytes(throughput(r) as usize)
    );
    let sib: Vec<Duration> = r.nodes.iter().filter_map(|n| n.sibling_check).collect();
    if !sib.is_empty() {
        let [avg, _, _, total] = stats(&sib);
        s += &format!(
            "    sibling IVC checks : avg {:>10} per merge | total {}   (native, outside circuit)\n",
            fmt_duration(avg),
            fmt_duration(total)
        );
    }
    let retries: usize = r.nodes.iter().map(|n| n.retries).sum();
    if retries > 0 {
        s += &format!("    prover retries     : {retries} (defensive guard, see README)\n");
    }
    match r.decider_time {
        Some(t) => {
            s += &format!(
                "    final SNARK        : {:>12}   (Groth16 decider on root accumulator, peak mem {})\n",
                fmt_duration(t),
                mem(r.decider_peak_mem)
            )
        }
        None => s += "    final SNARK        :      skipped\n",
    }
    s += &format!("    verification       : {:>12}\n", fmt_duration(r.verify_time));
    s += &format!("    root digest        : {}\n{RULE}\n", hex(&r.root_digest));
    s
}

#[test]
fn tree_reports() {
    for r in [
        pcd_report(2, 1_234_567_891, 0, None),
        pcd_report(4, 20_000_000_123, 3, Some(100_000_000_001)),
        pcd_report(16, 1, 0, None),
        PcdReport { nodes: Vec::new(), ..pcd_report(2, 1, 0, None) },
        PcdReport { data_bytes: usize::MAX, ..pcd_report(2, 0, 0, None) },
    ] {
        assert_eq!(print_report(&r), pcd_by_hand(&r));
        let f = r.throughput_bps();
        assert_eq!(f.mant as f64 * 2f64.powi(f.exp), throughput(&r));
    }
}

#[test]
fn arity_comparisons() {
    let reports = vec![
        pcd_report(2, 2_000_000_000, 0, None),
        pcd_report(4, 1_000_000, 0, None),
        pcd_report(8, 987_654_321, 0, None),
        pcd_report(2, 2_000_000_000, 1, Some(1)),
        PcdReport { data_bytes: 0, ..pcd_report(16, 5, 0, None) },
    ];
    let mut s = String::from("\n--- arity head-to-head (data throughput, best first) ---\n");
    let mut ranked: Vec<&PcdReport> = reports.iter().collect();
    ranked.sort_by(|a, b| throughput(b).total_cmp(&throughput(a)));
    let best = throughput(ranked[0]);
    for r in ranked {
        let total: u128 = r.nodes.iter().map(|n| n.prove_time.nanos).sum();
        s += &format!(
            "    arity {:>2}: {:>10}/s  ({:.2}x)  [{} over {} nodes, avg {} per node]\n",
            r.arity,
            fmt_bytes(throughput(r) as usize),
            throughput(r) / best,
            fmt_bytes(r.data_bytes),
            r.nodes.len(),
            fmt_duration(dur(total / r.nodes.len().max(1) as u128))
        );
    }
    assert_eq!(print_arity_comparison(&reports), s);
    assert_eq!(print_arity_comparison(&reports[..1]), "");
}

fn update_report(arity: usize, unit: u128, decider: Option<u128>) -> UpdateReport {
    UpdateReport {
        arity,
        bucket_bytes: 64,
        depth: 2,
        n_leaves: arity * arity,
        setup_time: dur(3_000_000_000),
        initial_tree_time: dur(999_999_999),
        setup_peak_mem: Some(5000),
        path: (0..3)
            .map(|level| UpdatePathTiming {
                level,
                prove_time: dur(unit * (level as u128 + 1)),
                retries: level * (arity % 3),
            })
            .collect(),
        update_peak_mem: None,
        decider_time: decider.map(dur),
        decider_peak_mem: None,
        verify_time: dur(60_000_000_000),
        new_root: [0x0f; 32],
    }
}

fn update_by_hand(r: &UpdateReport) -> String {
    let mut s = format!(
        "\n{RULE}\n HyperNova PCD single-leaf update — {}-ary tree, {} leaves (depth {}, bucket {}B)\n",
        r.arity, r.n_leaves, r.depth, r.bucket_bytes
    );
    s += &format!(
        " config: HyperNova MU={}/NU=1 on BN254/Grumpkin; Reckle-style path re-proving\n{RULE}\n",
        r.arity
    );
    s += &format!(
        "    setup latency      : {:>12}   (initial tree via clone trick: {}, peak mem {})\n",
        fmt_duration(r.setup_time),
        fmt_duration(r.initial_tree_time),
        mem(r.setup_peak_mem)
    );
    for p in &r.path {
        let label = if p.level == 0 {
            "leaf re-prove".to_string()
        } else {
            format!("path merge level {}", p.level)
        };
        s += &format!("    {label:<22} : {:>12}\n", fmt_duration(p.prove_time));
    }
    s += &format!(
        "    TOTAL update       : {:>12}   ({} path nodes, peak mem {})\n",
        fmt_duration(r.total_update_time()),
        r.path.len(),
        mem(r.update_peak_mem)
    );
    let retries: usize = r.path.iter().map(|p| p.retries).sum();
    if retries > 0 {
        s += &format!("    prover retries     : {retries}\n");
    }
    match r.decider_time {
        Some(t) => {
            s += &format!(
                "    final SNARK        : {:>12}   (Groth16 decider on updated root)\n",
                fmt_duration(t)
            )
        }
        None => s += "    final SNARK        :      skipped\n",
    }
    s += &format!("    verification       : {:>12}\n", fmt_duration(r.verify_time));
    s += &format!("    new root           : {}\n{RULE}\n", hex(&r.new_root));
    s
}

#[test]
fn update_reports_and_their_comparison() {
    let reports = vec![
        update_report(2, 1_500_000_000, None),
        update_report(3, 700, Some(90_000_000_000)),
        update_report(4, 65_000_000_000, None),
    ];
    for r in &reports {
        assert_eq!(print_update_report(r), update_by_hand(r));
    }
    let mut s =
        String::from("\n--- arity head-to-head (single-leaf update latency, best first) ---\n");
    let mut ranked: Vec<&UpdateReport> = reports.iter().collect();
    ranked.sort_by_key(|r| r.total_update_time().nanos);
    let best = secs(ranked[0].total_update_time());
    for r in ranked {
        s += &format!(
            "    arity {:>2}: {:>10}  ({:.2}x)  [{} path nodes over depth {}]\n",
            r.arity,
            fmt_duration(r.total_update_time()),
            secs(r.total_update_time()) / best,
            r.path.len(),
            r.depth
        );
    }
    assert_eq!(print_update_comparison(&reports), s);
    assert_eq!(print_update_comparison(&[]), "");
}

fn batch_report(arity: usize, wall: u128) -> BatchUpdateReport {
    BatchUpdateReport {
        arity,
        bucket_bytes: 128,
        depth: 2,
        n_leaves: 16,
        k: 5,
        setup_time: dur(3_000_000_000),
        initial_tree_time: dur(1_000_000_001),
        setup_peak_mem: None,
        levels: vec![
            BatchLevelTiming {
                level: 0,
                nodes: 5,
                wall: dur(wall),
                work: dur(4 * wall + 3),
                retries: 0,
            },
            BatchLevelTiming { level: 1, nodes: 3, wall: dur(0), work: dur(7), retries: arity },
            BatchLevelTiming {
                level: 2,
                nodes: 1,
                wall: dur(wall / 2),
                work: dur(wall / 2),
                retries: 0,
            },
        ],
        total_wall: dur(2 * wall),
        update_peak_mem: Some(1 << 30),
        verify_time: dur(17),
        new_root: [0xc3; 32],
    }
}

fn batch_by_hand(r: &BatchUpdateReport) -> String {
    let mut s = format!(
        "\n{RULE}\n HyperNova PCD multi-update (k leaves at once) — {}-ary tree, {} leaves, k = {}, bucket {}B\n",
        r.arity, r.n_leaves, r.k, r.bucket_bytes
    );
    s += &format!(
        " config: HyperNova MU={}/NU=1; level-parallel path-union re-proving\n{RULE}\n",
        r.arity
    );
    s += &format!(
        "    setup latency      : {:>12}   (initial tree via clone trick: {}, peak mem {})\n",
        fmt_duration(r.setup_time),
        fmt_duration(r.initial_tree_time),
        mem(r.setup_peak_mem)
    );
    for l in &r.levels {
        s += &format!(
            "    level {:>2} ({:>3} nodes) : wall {:>10} | work {:>10} | parallel {:.2}x\n",
            l.level,
            l.nodes,
            fmt_duration(l.wall),
            fmt_duration(l.work),
            secs(l.work) / secs(l.wall).max(1e-9)
        );
    }
    s += &format!(
        "    path union         : {} nodes re-proved (naive k paths: {}, amortization {:.2}x)\n",
        r.union_nodes(),
        r.naive_nodes(),
        r.naive_nodes() as f64 / r.union_nodes() as f64
    );
    s += &format!(
        "    TOTAL multi-update : wall {:>10} | work {:>10} | parallel speedup {:.2}x   (peak mem {})\n",
        fmt_duration(r.total_wall),
        fmt_duration(r.total_work()),
        secs(r.total_work()) / secs(r.total_wall).max(1e-9),
        mem(r.update_peak_mem)
    );
    let retries: usize = r.levels.iter().map(|l| l.retries).sum();
    if retries > 0 {
        s += &format!("    prover retries     : {retries}\n");
    }
    s += &format!("    verification       : {:>12}\n", fmt_duration(r.verify_time));
    s += &format!("    new root           : {}\n{RULE}\n", hex(&r.new_root));
    s
}

#[test]
fn batch_reports_and_their_comparison() {
    let reports = vec![
        batch_report(8, 1_234_567_890),
        batch_report(0, 0),
        batch_report(4, 70_000_000_000),
        BatchUpdateReport { levels: Vec::new(), ..batch_report(2, 5) },
    ];
    for r in &reports {
        assert_eq!(print_batch_report(r), batch_by_hand(r));
    }
    for rows in [&reports[..], &reports[2..]] {
        let mut s =
            String::from("\n--- arity head-to-head (multi-update wall-clock, best first) ---\n");
        let mut ranked: Vec<&BatchUpdateReport> = rows.iter().collect();
        ranked.sort_by_key(|r| r.total_wall.nanos);
        let best = secs(ranked[0].total_wall);
        for r in &ranked {
            s += &format!(
                "    arity {:>2}: wall {:>10.2}s  ({:.2}x)  [{} union nodes, work {:.1}s, speedup {:.2}x]\n",
                r.arity,
                secs(r.total_wall),
                secs(r.total_wall) / best,
                r.union_nodes(),
                secs(r.total_work()),
                secs(r.total_work()) / secs(r.total_wall).max(1e-9)
            );
        }
        assert_eq!(print_batch_comparison(rows), s);
    }
    assert_eq!(print_batch_comparison(&reports[..1]), "");
}

#[test]
fn rankings_are_stable() {
    let keys: Vec<Duration> = [5u128, 3, 5, 1, 3, 9, 1].iter().map(|n| dur(*n)).collect();
    assert_eq!(rank(&keys), [3, 6, 1, 4, 0, 2, 5]);
    let none: Vec<Duration> = Vec::new();
    assert_eq!(rank(&none), Vec::<usize>::new());
    assert_eq!(ratio(3, 2, 0).floor(), 1);
}

#[test]
fn reports_of_trees_of_any_arity() {
    for (arity, depth, leaves) in [(0usize, 0usize, 1usize), (0, 1, 0), (1, 1, 1), (1, 40, 1)] {
        let mut report = pcd_report(2, 1, 0, None);
        report.arity = arity;
        report.depth = depth;
        report.nodes.clear();
        let text = print_report(&report);
        let heading = format!(
            " HyperNova PCD — {arity}-ary SHA-256 tree, depth {depth} ({leaves} leaves, 0 nodes, "
        );
        assert!(text.contains(&heading));
        assert_eq!(text, pcd_by_hand(&report));
    }
}
