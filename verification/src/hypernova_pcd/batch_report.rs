//! The report of a batch update, and the comparison of batch updates in trees
//! of several arities.

use crate::bench_common::{total_nanos, Duration, MAX_NANOS};
use crate::comparative::push_duration;
use crate::float::{lemma_bit_len_at_most, lemma_bit_len_is, ratio, rounded, scaled, Dyadic, Float};
use crate::format::{as_seconds, duration_text, fmt_duration, larger, max, mem_text, opt_mem,
    push_quotient, quotient_text, seconds};
use crate::hypernova_pcd::batch_run::{total_nodes, works, BatchLevelTiming, BatchUpdateReport};
use crate::ranking::{as_ints, is_permutation, lemma_ranking_is_stable, rank, ranking, Ranked};
use crate::text::{decimal, fixed, hex, hex_text, push_decimal, push_decimal_right, push_fixed,
    push_right, right_aligned};
use vstd::arithmetic::power2::{lemma2_to64, lemma2_to64_rest};
use vstd::prelude::*;

verus! {

/// Attempts of the prover that were given up on a row of levels.
pub open spec fn level_retries(levels: Seq<BatchLevelTiming>) -> nat
    decreases levels.len(),
{
    if levels.len() == 0 {
        0
    } else {
        level_retries(levels.drop_last()) + levels.last().retries as nat
    }
}

impl BatchUpdateReport {
    /// The counts and totals of the report can be told.
    pub open spec fn countable(self) -> bool {
        &&& self.total_wall.wf()
        &&& total_nanos(works(self.levels@)) <= MAX_NANOS
        &&& total_nodes(self.levels@) <= usize::MAX
    }

    /// Everything in the report can be shown.
    pub open spec fn showable(self) -> bool {
        &&& self.countable()
        &&& self.setup_time.wf()
        &&& self.initial_tree_time.wf()
        &&& self.verify_time.wf()
        &&& forall|i: int|
            0 <= i < self.levels@.len() ==> (#[trigger] self.levels@[i]).wall.wf()
                && self.levels@[i].work.wf()
        &&& self.depth < usize::MAX
        &&& self.k * (self.depth + 1) <= usize::MAX
        &&& level_retries(self.levels@) <= usize::MAX
    }
}

/// How much work was done in parallel: the work over the wall-clock time, which
/// counts as at least a nanosecond.
pub open spec fn speedup_text(work: nat, wall: nat) -> Seq<char> {
    quotient_text(seconds(work), larger(seconds(wall), rounded(1, 1_000_000_000, 0)))
}

fn push_speedup(text: &mut String, work: Duration, wall: Duration)
    requires
        work.wf(),
        wall.wf(),
    ensures
        final(text)@ == old(text)@ + speedup_text(work.nanos as nat, wall.nanos as nat),
{
    proof {
        lemma2_to64();
        lemma2_to64_rest();
        lemma_bit_len_is(1, 0);
        lemma_bit_len_is(1_000_000_000, 29);
    }
    let base = max(as_seconds(wall), ratio(1, 1_000_000_000, 0));
    push_quotient(text, as_seconds(work), base);
}

proof fn lemma_level_retries_prefix(levels: Seq<BatchLevelTiming>, n: int)
    requires
        0 <= n <= levels.len(),
    ensures
        level_retries(levels.take(n)) <= level_retries(levels),
    decreases levels.len(),
{
    if n == levels.len() {
        assert(levels.take(n) =~= levels);
    } else {
        lemma_level_retries_prefix(levels.drop_last(), n);
        assert(levels.drop_last().take(n) =~= levels.take(n));
    }
}

fn total_retries(levels: &Vec<BatchLevelTiming>) -> (n: usize)
    requires
        level_retries(levels@) <= usize::MAX,
    ensures
        n == level_retries(levels@),
{
    let mut n: usize = 0;
    for i in 0..levels.len()
        invariant
            level_retries(levels@) <= usize::MAX,
            n == level_retries(levels@.take(i as int)),
    {
        proof {
            assert(levels@.take(i + 1).drop_last() =~= levels@.take(i as int));
            lemma_level_retries_prefix(levels@, i + 1);
        }
        n = n + levels[i].retries;
    }
    assert(levels@.take(levels@.len() as int) =~= levels@);
    n
}

/// The heading.
pub open spec fn batch_heading(r: BatchUpdateReport) -> Seq<char> {
    "\n================================================================================\n HyperNova PCD multi-update (k leaves at once) — "@
        + decimal(r.arity as nat) + "-ary tree, "@ + decimal(r.n_leaves as nat) + " leaves, k = "@
        + decimal(r.k as nat) + ", bucket "@ + decimal(r.bucket_bytes as nat)
        + "B\n config: HyperNova MU="@ + decimal(r.arity as nat)
        + "/NU=1; level-parallel path-union re-proving\n================================================================================\n    setup latency      : "@
        + right_aligned(duration_text(r.setup_time.nanos as nat), 12)
        + "   (initial tree via clone trick: "@ + duration_text(r.initial_tree_time.nanos as nat)
        + ", peak mem "@ + mem_text(r.setup_peak_mem) + ")\n"@
}

fn show_batch_heading(r: &BatchUpdateReport) -> (text: String)
    requires
        r.showable(),
    ensures
        text@ == batch_heading(*r),
{
    let mut text =
        "\n================================================================================\n HyperNova PCD multi-update (k leaves at once) — ".to_owned();
    push_decimal(&mut text, r.arity as u128);
    text.push_str("-ary tree, ");
    push_decimal(&mut text, r.n_leaves as u128);
    text.push_str(" leaves, k = ");
    push_decimal(&mut text, r.k as u128);
    text.push_str(", bucket ");
    push_decimal(&mut text, r.bucket_bytes as u128);
    text.push_str("B\n config: HyperNova MU=");
    push_decimal(&mut text, r.arity as u128);
    text.push_str(
        "/NU=1; level-parallel path-union re-proving\n================================================================================\n    setup latency      : ",
    );
    push_duration(&mut text, r.setup_time, 12);
    text.push_str("   (initial tree via clone trick: ");
    text.push_str(fmt_duration(r.initial_tree_time).as_str());
    text.push_str(", peak mem ");
    text.push_str(opt_mem(r.setup_peak_mem).as_str());
    text.push_str(")\n");
    text
}

/// The line on a level.
#[verifier::opaque]
pub open spec fn batch_level_line(l: BatchLevelTiming) -> Seq<char> {
    "    level "@ + right_aligned(decimal(l.level as nat), 2) + " ("@ + right_aligned(
        decimal(l.nodes as nat),
        3,
    ) + " nodes) : wall "@ + right_aligned(duration_text(l.wall.nanos as nat), 10) + " | work "@
        + right_aligned(duration_text(l.work.nanos as nat), 10) + " | parallel "@ + speedup_text(
        l.work.nanos as nat,
        l.wall.nanos as nat,
    ) + "x\n"@
}

/// The lines on a row of levels.
pub open spec fn batch_level_lines(levels: Seq<BatchLevelTiming>) -> Seq<char>
    decreases levels.len(),
{
    if levels.len() == 0 {
        Seq::empty()
    } else {
        batch_level_lines(levels.drop_last()) + batch_level_line(levels.last())
    }
}

fn show_batch_level(l: &BatchLevelTiming) -> (text: String)
    requires
        l.wall.wf(),
        l.work.wf(),
    ensures
        text@ == batch_level_line(*l),
{
    proof {
        reveal(batch_level_line);
    }
    let mut text = "    level ".to_owned();
    push_decimal_right(&mut text, l.level as u128, 2);
    text.push_str(" (");
    push_decimal_right(&mut text, l.nodes as u128, 3);
    text.push_str(" nodes) : wall ");
    push_duration(&mut text, l.wall, 10);
    text.push_str(" | work ");
    push_duration(&mut text, l.work, 10);
    text.push_str(" | parallel ");
    push_speedup(&mut text, l.work, l.wall);
    text.push_str("x\n");
    text
}

fn show_batch_levels(r: &BatchUpdateReport) -> (text: String)
    requires
        r.showable(),
    ensures
        text@ == batch_level_lines(r.levels@),
{
    let mut text = String::new();
    for i in 0..r.levels.len()
        invariant
            r.showable(),
            text@ == batch_level_lines(r.levels@.take(i as int)),
    {
        assert(r.levels@[i as int].wall.wf());
        text.push_str(show_batch_level(&r.levels[i]).as_str());
        assert(r.levels@.take(i + 1).drop_last() =~= r.levels@.take(i as int));
    }
    assert(r.levels@.take(r.levels@.len() as int) =~= r.levels@);
    text
}

/// The line on the union of the paths.
pub open spec fn union_text(r: BatchUpdateReport) -> Seq<char> {
    let union = total_nodes(r.levels@);
    let naive = (r.k * (r.depth + 1)) as nat;
    "    path union         : "@ + decimal(union) + " nodes re-proved (naive k paths: "@ + decimal(
        naive,
    ) + ", amortization "@ + quotient_text(rounded(naive, 1, 0), rounded(union, 1, 0)) + "x)\n"@
}

fn show_union(r: &BatchUpdateReport) -> (text: String)
    requires
        r.showable(),
    ensures
        text@ == union_text(*r),
{
    let union = r.union_nodes();
    let naive = r.naive_nodes();
    proof {
        lemma2_to64();
        lemma_bit_len_is(1, 0);
        lemma_bit_len_at_most(union as nat, 64);
        lemma_bit_len_at_most(naive as nat, 64);
    }
    let mut text = "    path union         : ".to_owned();
    push_decimal(&mut text, union as u128);
    text.push_str(" nodes re-proved (naive k paths: ");
    push_decimal(&mut text, naive as u128);
    text.push_str(", amortization ");
    push_quotient(&mut text, ratio(naive as u64, 1, 0), ratio(union as u64, 1, 0));
    text.push_str("x)\n");
    text
}

/// The lines on the whole update.
pub open spec fn batch_totals(r: BatchUpdateReport) -> Seq<char> {
    let work = total_nanos(works(r.levels@));
    let retries = level_retries(r.levels@);
    "    TOTAL multi-update : wall "@ + right_aligned(duration_text(r.total_wall.nanos as nat), 10)
        + " | work "@ + right_aligned(duration_text(work), 10) + " | parallel speedup "@
        + speedup_text(work, r.total_wall.nanos as nat) + "x   (peak mem "@ + mem_text(
        r.update_peak_mem,
    ) + ")\n"@ + (if retries > 0 {
        "    prover retries     : "@ + decimal(retries) + "\n"@
    } else {
        ""@
    })
}

fn show_batch_totals(r: &BatchUpdateReport) -> (text: String)
    requires
        r.showable(),
    ensures
        text@ == batch_totals(*r),
{
    let work = r.total_work();
    let mut text = "    TOTAL multi-update : wall ".to_owned();
    push_duration(&mut text, r.total_wall, 10);
    text.push_str(" | work ");
    push_duration(&mut text, work, 10);
    text.push_str(" | parallel speedup ");
    push_speedup(&mut text, work, r.total_wall);
    text.push_str("x   (peak mem ");
    text.push_str(opt_mem(r.update_peak_mem).as_str());
    text.push_str(")\n");
    let retries = total_retries(&r.levels);
    let line = if retries > 0 {
        let mut line = "    prover retries     : ".to_owned();
        push_decimal(&mut line, retries as u128);
        line.push_str("\n");
        line
    } else {
        "".to_owned()
    };
    text.push_str(line.as_str());
    text
}

/// The whole report.
pub open spec fn batch_report_text(r: BatchUpdateReport) -> Seq<char> {
    batch_heading(r) + batch_level_lines(r.levels@) + union_text(r) + batch_totals(r)
        + "    verification       : "@ + right_aligned(duration_text(r.verify_time.nanos as nat), 12)
        + "\n    new root           : "@ + hex_text(r.new_root@)
        + "\n================================================================================\n"@
}

/// The report of a batch update.
pub fn print_batch_report(r: &BatchUpdateReport) -> (text: String)
    requires
        r.showable(),
    ensures
        text@ == batch_report_text(*r),
{
    let mut text = show_batch_heading(r);
    text.push_str(show_batch_levels(r).as_str());
    text.push_str(show_union(r).as_str());
    text.push_str(show_batch_totals(r).as_str());
    text.push_str("    verification       : ");
    push_duration(&mut text, r.verify_time, 12);
    text.push_str("\n    new root           : ");
    hex(&mut text, r.new_root.as_slice());
    text.push_str(
        "\n================================================================================\n",
    );
    text
}

/// The wall-clock times of a row of updates.
pub open spec fn walls(reports: Seq<BatchUpdateReport>) -> Seq<Duration> {
    reports.map_values(|r: BatchUpdateReport| r.total_wall)
}

/// The line on an update.
#[verifier::opaque]
pub open spec fn batch_line(r: BatchUpdateReport, best: Dyadic) -> Seq<char> {
    let wall = seconds(r.total_wall.nanos as nat);
    let work = total_nanos(works(r.levels@));
    "    arity "@ + right_aligned(decimal(r.arity as nat), 2) + ": wall "@ + right_aligned(
        fixed(scaled(wall, 100), 2),
        10,
    ) + "s  ("@ + quotient_text(wall, best) + "x)  ["@ + decimal(total_nodes(r.levels@))
        + " union nodes, work "@ + fixed(scaled(seconds(work), 10), 1) + "s, speedup "@
        + speedup_text(work, r.total_wall.nanos as nat) + "x]\n"@
}

/// The first `n` lines, best first.
pub open spec fn batch_lines(reports: Seq<BatchUpdateReport>, n: nat) -> Seq<char>
    decreases n,
{
    if n == 0 {
        Seq::empty()
    } else {
        let order = ranking(walls(reports), reports.len());
        let best = seconds(reports[order[0]].total_wall.nanos as nat);
        batch_lines(reports, (n - 1) as nat) + batch_line(reports[order[n - 1]], best)
    }
}

/// The comparison; nothing for fewer than two updates.
pub open spec fn batch_comparison_text(reports: Seq<BatchUpdateReport>) -> Seq<char> {
    if reports.len() < 2 {
        ""@
    } else {
        "\n--- arity head-to-head (multi-update wall-clock, best first) ---\n"@ + batch_lines(
            reports,
            reports.len(),
        )
    }
}

fn show_batch_line(r: &BatchUpdateReport, best: Float) -> (text: String)
    requires
        r.countable(),
        best@.wf(),
        -82 <= best.exp <= 14,
    ensures
        text@ == batch_line(*r, best@),
{
    proof {
        reveal(batch_line);
    }
    let wall = as_seconds(r.total_wall);
    let work = r.total_work();
    let mut text = "    arity ".to_owned();
    push_decimal_right(&mut text, r.arity as u128, 2);
    text.push_str(": wall ");
    let mut shown = String::new();
    push_fixed(&mut shown, wall.scaled_by(100), 2);
    assert(shown@ =~= fixed(scaled(wall@, 100), 2));
    push_right(&mut text, shown.as_str(), 10);
    text.push_str("s  (");
    push_quotient(&mut text, wall, best);
    text.push_str("x)  [");
    push_decimal(&mut text, r.union_nodes() as u128);
    text.push_str(" union nodes, work ");
    push_fixed(&mut text, as_seconds(work).scaled_by(10), 1);
    text.push_str("s, speedup ");
    push_speedup(&mut text, work, r.total_wall);
    text.push_str("x]\n");
    text
}

fn wall_times(reports: &[BatchUpdateReport]) -> (keys: Vec<Duration>)
    ensures
        keys@ == walls(reports@),
{
    let mut keys: Vec<Duration> = Vec::with_capacity(reports.len());
    for i in 0..reports.len()
        invariant
            keys@ == walls(reports@).take(i as int),
    {
        keys.push(reports[i].total_wall);
        assert(keys@ =~= walls(reports@).take(i + 1));
    }
    assert(keys@ =~= walls(reports@));
    keys
}

/// The comparison of batch updates in trees of several arities, fastest first;
/// nothing for fewer than two.
pub fn print_batch_comparison(reports: &[BatchUpdateReport]) -> (text: String)
    requires
        forall|i: int| 0 <= i < reports@.len() ==> (#[trigger] reports@[i]).countable(),
    ensures
        text@ == batch_comparison_text(reports@),
{
    if reports.len() < 2 {
        return "".to_owned();
    }
    let keys = wall_times(reports);
    let order = rank(&keys);
    let ghost ints = ranking(walls(reports@), reports@.len());
    assert(as_ints(order@)[0] == order@[0]);
    let best = as_seconds(reports[order[0]].total_wall);
    let mut lines = String::new();
    for i in 0..order.len()
        invariant
            ints == ranking(walls(reports@), reports@.len()),
            as_ints(order@) == ints,
            order@.len() > 0,
            forall|k: int| 0 <= k < order@.len() ==> #[trigger] order@[k] < reports@.len(),
            forall|k: int| 0 <= k < reports@.len() ==> (#[trigger] reports@[k]).countable(),
            best@ == seconds(reports@[ints[0]].total_wall.nanos as nat),
            best@.wf(),
            -82 <= best.exp <= 14,
            lines@ == batch_lines(reports@, i as nat),
    {
        assert(as_ints(order@)[i as int] == order@[i as int]);
        lines.push_str(show_batch_line(&reports[order[i]], best).as_str());
    }
    let mut text = "\n--- arity head-to-head (multi-update wall-clock, best first) ---\n".to_owned();
    text.push_str(lines.as_str());
    text
}

/// The retries of a row of levels are those of its parts together, and those of a
/// single level are its own.
pub proof fn lemma_level_retries(a: Seq<BatchLevelTiming>, b: Seq<BatchLevelTiming>)
    ensures
        level_retries(a + b) == level_retries(a) + level_retries(b),
        b.len() == 0 ==> level_retries(b) == 0,
        b.len() == 1 ==> level_retries(b) == b[0].retries,
    decreases b.len(),
{
    if b.len() == 0 {
        assert(a + b =~= a);
    } else {
        lemma_level_retries(a, b.drop_last());
        assert((a + b).drop_last() =~= a + b.drop_last());
        if b.len() == 1 {
            assert(level_retries(b.drop_last()) == 0);
        }
    }
}

/// Every level has its line, in the order of the levels.
pub proof fn lemma_batch_level_lines(a: Seq<BatchLevelTiming>, b: Seq<BatchLevelTiming>)
    ensures
        batch_level_lines(a + b) == batch_level_lines(a) + batch_level_lines(b),
        b.len() == 0 ==> batch_level_lines(b) == Seq::<char>::empty(),
        b.len() == 1 ==> batch_level_lines(b) == batch_level_line(b[0]),
    decreases b.len(),
{
    if b.len() == 0 {
        assert(a + b =~= a);
        assert(batch_level_lines(a) + batch_level_lines(b) =~= batch_level_lines(a));
    } else {
        lemma_batch_level_lines(a, b.drop_last());
        assert((a + b).drop_last() =~= a + b.drop_last());
        assert(batch_level_lines(a + b) =~= batch_level_lines(a) + batch_level_lines(b));
        if b.len() == 1 {
            assert(batch_level_lines(b) =~= batch_level_line(b[0]));
        }
    }
}

/// The updates are listed by their wall-clock time, the shortest first, each of
/// them once.
pub proof fn lemma_shortest_batch_first(reports: Seq<BatchUpdateReport>, a: int, b: int)
    requires
        0 <= a < b < reports.len(),
    ensures
        is_permutation(ranking(walls(reports), reports.len()), reports.len()),
        reports[ranking(walls(reports), reports.len())[a]].total_wall.nanos <= reports[ranking(
            walls(reports),
            reports.len(),
        )[b]].total_wall.nanos,
{
    let times = walls(reports);
    let order = ranking(times, reports.len());
    lemma_ranking_is_stable(times, reports.len());
    assert(times[order[a]].leads(times[order[b]]));
}

} // verus!
