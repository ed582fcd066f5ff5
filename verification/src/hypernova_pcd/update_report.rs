//! The report of a single-leaf update, and the comparison of updates in trees
//! of several arities.

use crate::bench_common::{total_nanos, Duration, MAX_NANOS};
use crate::comparative::push_duration;
use crate::float::Dyadic;
use crate::float::Float;
use crate::format::{as_seconds, duration_text, fmt_duration, mem_text, opt_mem, push_quotient,
    quotient_text, seconds};
use crate::hypernova_pcd::update::{path_times, UpdatePathTiming, UpdateReport};
use crate::ranking::{as_ints, is_permutation, lemma_ranking_is_stable, rank, ranking, Ranked};
use crate::text::{decimal, hex, hex_text, left_aligned, push_decimal, push_decimal_right, push_left,
    right_aligned};
use vstd::prelude::*;

verus! {

/// Attempts of the prover that were given up on a path.
pub open spec fn path_retries(path: Seq<UpdatePathTiming>) -> nat
    decreases path.len(),
{
    if path.len() == 0 {
        0
    } else {
        path_retries(path.drop_last()) + path.last().retries as nat
    }
}

impl UpdateReport {
    /// Everything in the report can be shown.
    pub open spec fn showable(self) -> bool {
        &&& self.setup_time.wf()
        &&& self.initial_tree_time.wf()
        &&& self.verify_time.wf()
        &&& self.decider_time matches Some(t) ==> t.wf()
        &&& total_nanos(path_times(self.path@)) <= MAX_NANOS
        &&& forall|i: int| 0 <= i < self.path@.len() ==> (#[trigger] self.path@[i]).prove_time.wf()
        &&& path_retries(self.path@) <= usize::MAX
    }
}

proof fn lemma_path_retries_prefix(path: Seq<UpdatePathTiming>, n: int)
    requires
        0 <= n <= path.len(),
    ensures
        path_retries(path.take(n)) <= path_retries(path),
    decreases path.len(),
{
    if n == path.len() {
        assert(path.take(n) =~= path);
    } else {
        lemma_path_retries_prefix(path.drop_last(), n);
        assert(path.drop_last().take(n) =~= path.take(n));
    }
}

fn total_retries(path: &Vec<UpdatePathTiming>) -> (n: usize)
    requires
        path_retries(path@) <= usize::MAX,
    ensures
        n == path_retries(path@),
{
    let mut n: usize = 0;
    for i in 0..path.len()
        invariant
            path_retries(path@) <= usize::MAX,
            n == path_retries(path@.take(i as int)),
    {
        proof {
            assert(path@.take(i + 1).drop_last() =~= path@.take(i as int));
            lemma_path_retries_prefix(path@, i + 1);
        }
        n = n + path[i].retries;
    }
    assert(path@.take(path@.len() as int) =~= path@);
    n
}

/// The heading.
pub open spec fn update_heading(r: UpdateReport) -> Seq<char> {
    "\n================================================================================\n HyperNova PCD single-leaf update — "@
        + decimal(r.arity as nat) + "-ary tree, "@ + decimal(r.n_leaves as nat)
        + " leaves (depth "@ + decimal(r.depth as nat) + ", bucket "@ + decimal(
        r.bucket_bytes as nat,
    ) + "B)\n config: HyperNova MU="@ + decimal(r.arity as nat)
        + "/NU=1 on BN254/Grumpkin; Reckle-style path re-proving\n================================================================================\n    setup latency      : "@
        + right_aligned(duration_text(r.setup_time.nanos as nat), 12)
        + "   (initial tree via clone trick: "@ + duration_text(r.initial_tree_time.nanos as nat)
        + ", peak mem "@ + mem_text(r.setup_peak_mem) + ")\n"@
}

fn show_update_heading(r: &UpdateReport) -> (text: String)
    requires
        r.showable(),
    ensures
        text@ == update_heading(*r),
{
    let mut text =
        "\n================================================================================\n HyperNova PCD single-leaf update — ".to_owned();
    push_decimal(&mut text, r.arity as u128);
    text.push_str("-ary tree, ");
    push_decimal(&mut text, r.n_leaves as u128);
    text.push_str(" leaves (depth ");
    push_decimal(&mut text, r.depth as u128);
    text.push_str(", bucket ");
    push_decimal(&mut text, r.bucket_bytes as u128);
    text.push_str("B)\n config: HyperNova MU=");
    push_decimal(&mut text, r.arity as u128);
    text.push_str(
        "/NU=1 on BN254/Grumpkin; Reckle-style path re-proving\n================================================================================\n    setup latency      : ",
    );
    push_duration(&mut text, r.setup_time, 12);
    text.push_str("   (initial tree via clone trick: ");
    text.push_str(fmt_duration(r.initial_tree_time).as_str());
    text.push_str(", peak mem ");
    text.push_str(opt_mem(r.setup_peak_mem).as_str());
    text.push_str(")\n");
    text
}

/// What a node on the path is called.
pub open spec fn path_label(level: nat) -> Seq<char> {
    if level == 0 {
        "leaf re-prove"@
    } else {
        "path merge level "@ + decimal(level)
    }
}

/// The line on a node of the path.
#[verifier::opaque]
pub open spec fn path_line(p: UpdatePathTiming) -> Seq<char> {
    "    "@ + left_aligned(path_label(p.level as nat), 22) + " : "@ + right_aligned(
        duration_text(p.prove_time.nanos as nat),
        12,
    ) + "\n"@
}

/// The lines on the nodes of a path.
pub open spec fn path_lines(path: Seq<UpdatePathTiming>) -> Seq<char>
    decreases path.len(),
{
    if path.len() == 0 {
        Seq::empty()
    } else {
        path_lines(path.drop_last()) + path_line(path.last())
    }
}

fn show_path_line(p: &UpdatePathTiming) -> (text: String)
    requires
        p.prove_time.wf(),
    ensures
        text@ == path_line(*p),
{
    proof {
        reveal(path_line);
    }
    let label = if p.level == 0 {
        "leaf re-prove".to_owned()
    } else {
        let mut label = "path merge level ".to_owned();
        push_decimal(&mut label, p.level as u128);
        label
    };
    let mut text = "    ".to_owned();
    push_left(&mut text, label.as_str(), 22);
    text.push_str(" : ");
    push_duration(&mut text, p.prove_time, 12);
    text.push_str("\n");
    text
}

fn show_path(r: &UpdateReport) -> (text: String)
    requires
        r.showable(),
    ensures
        text@ == path_lines(r.path@),
{
    let mut text = String::new();
    for i in 0..r.path.len()
        invariant
            r.showable(),
            text@ == path_lines(r.path@.take(i as int)),
    {
        text.push_str(show_path_line(&r.path[i]).as_str());
        assert(r.path@.take(i + 1).drop_last() =~= r.path@.take(i as int));
    }
    assert(r.path@.take(r.path@.len() as int) =~= r.path@);
    text
}

/// The lines behind those on the path.
pub open spec fn update_totals(r: UpdateReport) -> Seq<char> {
    let retries = path_retries(r.path@);
    "    TOTAL update       : "@ + right_aligned(
        duration_text(total_nanos(path_times(r.path@))),
        12,
    ) + "   ("@ + decimal(r.path@.len()) + " path nodes, peak mem "@ + mem_text(r.update_peak_mem)
        + ")\n"@ + (if retries > 0 {
        "    prover retries     : "@ + decimal(retries) + "\n"@
    } else {
        ""@
    }) + (match r.decider_time {
        Some(t) => "    final SNARK        : "@ + right_aligned(duration_text(t.nanos as nat), 12)
            + "   (Groth16 decider on updated root)\n"@,
        None => "    final SNARK        :      skipped\n"@,
    })
}

fn show_update_totals(r: &UpdateReport) -> (text: String)
    requires
        r.showable(),
    ensures
        text@ == update_totals(*r),
{
    let mut text = "    TOTAL update       : ".to_owned();
    push_duration(&mut text, r.total_update_time(), 12);
    text.push_str("   (");
    push_decimal(&mut text, r.path.len() as u128);
    text.push_str(" path nodes, peak mem ");
    text.push_str(opt_mem(r.update_peak_mem).as_str());
    text.push_str(")\n");
    let retries = total_retries(&r.path);
    let line = if retries > 0 {
        let mut line = "    prover retries     : ".to_owned();
        push_decimal(&mut line, retries as u128);
        line.push_str("\n");
        line
    } else {
        "".to_owned()
    };
    text.push_str(line.as_str());
    let line = match r.decider_time {
        Some(t) => {
            let mut line = "    final SNARK        : ".to_owned();
            push_duration(&mut line, t, 12);
            line.push_str("   (Groth16 decider on updated root)\n");
            line
        },
        None => "    final SNARK        :      skipped\n".to_owned(),
    };
    text.push_str(line.as_str());
    text
}

/// The whole report.
pub open spec fn update_report_text(r: UpdateReport) -> Seq<char> {
    update_heading(r) + path_lines(r.path@) + update_totals(r) + "    verification       : "@
        + right_aligned(duration_text(r.verify_time.nanos as nat), 12)
        + "\n    new root           : "@ + hex_text(r.new_root@)
        + "\n================================================================================\n"@
}

/// The report of a single-leaf update.
pub fn print_update_report(r: &UpdateReport) -> (text: String)
    requires
        r.showable(),
    ensures
        text@ == update_report_text(*r),
{
    let mut text = show_update_heading(r);
    text.push_str(show_path(r).as_str());
    text.push_str(show_update_totals(r).as_str());
    text.push_str("    verification       : ");
    push_duration(&mut text, r.verify_time, 12);
    text.push_str("\n    new root           : ");
    hex(&mut text, r.new_root.as_slice());
    text.push_str(
        "\n================================================================================\n",
    );
    text
}

/// The update times of a row of reports.
pub open spec fn update_times(reports: Seq<UpdateReport>) -> Seq<Duration> {
    reports.map_values(
        |r: UpdateReport| Duration { nanos: total_nanos(path_times(r.path@)) as u128 },
    )
}

/// The line on an update.
#[verifier::opaque]
pub open spec fn update_line(r: UpdateReport, best: Dyadic) -> Seq<char> {
    let nanos = total_nanos(path_times(r.path@));
    "    arity "@ + right_aligned(decimal(r.arity as nat), 2) + ": "@ + right_aligned(
        duration_text(nanos),
        10,
    ) + "  ("@ + quotient_text(seconds(nanos), best) + "x)  ["@ + decimal(r.path@.len())
        + " path nodes over depth "@ + decimal(r.depth as nat) + "]\n"@
}

/// The first `n` lines, best first.
pub open spec fn update_lines(reports: Seq<UpdateReport>, n: nat) -> Seq<char>
    decreases n,
{
    if n == 0 {
        Seq::empty()
    } else {
        let order = ranking(update_times(reports), reports.len());
        let best = seconds(total_nanos(path_times(reports[order[0]].path@)));
        update_lines(reports, (n - 1) as nat) + update_line(reports[order[n - 1]], best)
    }
}

/// The comparison; nothing for fewer than two updates.
pub open spec fn update_comparison_text(reports: Seq<UpdateReport>) -> Seq<char> {
    if reports.len() < 2 {
        ""@
    } else {
        "\n--- arity head-to-head (single-leaf update latency, best first) ---\n"@ + update_lines(
            reports,
            reports.len(),
        )
    }
}

/// The total time of the update can be told.
pub open spec fn has_total(r: UpdateReport) -> bool {
    total_nanos(path_times(r.path@)) <= MAX_NANOS
}

fn show_update_line(r: &UpdateReport, best: Float) -> (text: String)
    requires
        has_total(*r),
        best@.wf(),
        -82 <= best.exp <= 14,
    ensures
        text@ == update_line(*r, best@),
{
    proof {
        reveal(update_line);
    }
    let total = r.total_update_time();
    let mut text = "    arity ".to_owned();
    push_decimal_right(&mut text, r.arity as u128, 2);
    text.push_str(": ");
    push_duration(&mut text, total, 10);
    text.push_str("  (");
    push_quotient(&mut text, as_seconds(total), best);
    text.push_str("x)  [");
    push_decimal(&mut text, r.path.len() as u128);
    text.push_str(" path nodes over depth ");
    push_decimal(&mut text, r.depth as u128);
    text.push_str("]\n");
    text
}

fn totals(reports: &[UpdateReport]) -> (keys: Vec<Duration>)
    requires
        forall|i: int| 0 <= i < reports@.len() ==> has_total(#[trigger] reports@[i]),
    ensures
        keys@ == update_times(reports@),
{
    let mut keys: Vec<Duration> = Vec::with_capacity(reports.len());
    for i in 0..reports.len()
        invariant
            forall|k: int| 0 <= k < reports@.len() ==> has_total(#[trigger] reports@[k]),
            keys@ == update_times(reports@).take(i as int),
    {
        keys.push(reports[i].total_update_time());
        assert(keys@ =~= update_times(reports@).take(i + 1));
    }
    assert(keys@ =~= update_times(reports@));
    keys
}

/// The comparison of updates in trees of several arities, fastest first;
/// nothing for fewer than two.
pub fn print_update_comparison(reports: &[UpdateReport]) -> (text: String)
    requires
        forall|i: int| 0 <= i < reports@.len() ==> has_total(#[trigger] reports@[i]),
    ensures
        text@ == update_comparison_text(reports@),
{
    if reports.len() < 2 {
        return "".to_owned();
    }
    let keys = totals(reports);
    let order = rank(&keys);
    let ghost ints = ranking(update_times(reports@), reports@.len());
    assert(as_ints(order@)[0] == order@[0]);
    let best = as_seconds(reports[order[0]].total_update_time());
    let mut lines = String::new();
    for i in 0..order.len()
        invariant
            ints == ranking(update_times(reports@), reports@.len()),
            as_ints(order@) == ints,
            order@.len() > 0,
            forall|k: int| 0 <= k < order@.len() ==> #[trigger] order@[k] < reports@.len(),
            forall|k: int| 0 <= k < reports@.len() ==> has_total(#[trigger] reports@[k]),
            best@ == seconds(total_nanos(path_times(reports@[ints[0]].path@))),
            best@.wf(),
            -82 <= best.exp <= 14,
            lines@ == update_lines(reports@, i as nat),
    {
        assert(as_ints(order@)[i as int] == order@[i as int]);
        lines.push_str(show_update_line(&reports[order[i]], best).as_str());
    }
    let mut text =
        "\n--- arity head-to-head (single-leaf update latency, best first) ---\n".to_owned();
    text.push_str(lines.as_str());
    text
}

/// The retries along a path are those of its parts together, and those of a single
/// node are its own.
pub proof fn lemma_path_retries(a: Seq<UpdatePathTiming>, b: Seq<UpdatePathTiming>)
    ensures
        path_retries(a + b) == path_retries(a) + path_retries(b),
        b.len() == 0 ==> path_retries(b) == 0,
        b.len() == 1 ==> path_retries(b) == b[0].retries,
    decreases b.len(),
{
    if b.len() == 0 {
        assert(a + b =~= a);
    } else {
        lemma_path_retries(a, b.drop_last());
        assert((a + b).drop_last() =~= a + b.drop_last());
        if b.len() == 1 {
            assert(path_retries(b.drop_last()) == 0);
        }
    }
}

/// Every node of a path has its line, in the order of the path.
pub proof fn lemma_path_lines(a: Seq<UpdatePathTiming>, b: Seq<UpdatePathTiming>)
    ensures
        path_lines(a + b) == path_lines(a) + path_lines(b),
        b.len() == 0 ==> path_lines(b) == Seq::<char>::empty(),
        b.len() == 1 ==> path_lines(b) == path_line(b[0]),
    decreases b.len(),
{
    if b.len() == 0 {
        assert(a + b =~= a);
        assert(path_lines(a) + path_lines(b) =~= path_lines(a));
    } else {
        lemma_path_lines(a, b.drop_last());
        assert((a + b).drop_last() =~= a + b.drop_last());
        assert(path_lines(a + b) =~= path_lines(a) + path_lines(b));
        if b.len() == 1 {
            assert(path_lines(b) =~= path_line(b[0]));
        }
    }
}

/// The updates are listed by their total time, the shortest first, each of them
/// once.
pub proof fn lemma_shortest_update_first(reports: Seq<UpdateReport>, a: int, b: int)
    requires
        0 <= a < b < reports.len(),
        forall|i: int| 0 <= i < reports.len() ==> has_total(#[trigger] reports[i]),
    ensures
        is_permutation(ranking(update_times(reports), reports.len()), reports.len()),
        total_nanos(
            path_times(reports[ranking(update_times(reports), reports.len())[a]].path@),
        ) <= total_nanos(
            path_times(reports[ranking(update_times(reports), reports.len())[b]].path@),
        ),
{
    let times = update_times(reports);
    let order = ranking(times, reports.len());
    lemma_ranking_is_stable(times, reports.len());
    let (i, j) = (order[a], order[b]);
    assert(times[i].leads(times[j]));
    assert(has_total(reports[i]) && has_total(reports[j]));
}

} // verus!
