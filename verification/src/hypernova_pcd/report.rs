//! The report of a whole tree.

use crate::bench_common::{average_nanos, averageable, avg_duration, divisor, low_bits, max_duration,
    max_nanos, min_duration, min_nanos, sum_durations, total_nanos, Duration, MAX_NANOS};
use crate::comparative::{lemma_stats_fit, push_duration};
use crate::float::{at_most, lemma_bit_len_at_most, lemma_bit_len_is, lemma_rounded_nearest,
    lemma_sum_with_zero, ratio, rounded, Dyadic, Float};
use crate::format::{as_seconds, bytes_text, duration_text, fmt_bytes, fmt_duration, larger, max,
    mem_text, opt_mem, quotient, seconds};
use crate::hypernova_pcd::construction::{nodes_on, PcdNodeTiming};
use crate::hypernova_pcd::pcd::{prove_times, PcdReport};
use crate::hypernova_pcd::tree::{leaf_count, lemma_tree_size_above, tree_size};
use crate::text::{decimal, hex, hex_text, left_aligned, push_decimal, push_left, push_right,
    right_aligned};
use vstd::arithmetic::div_mod::lemma_small_mod;
use vstd::arithmetic::power2::{lemma2_to64, lemma2_to64_rest, pow2};
use vstd::prelude::*;

verus! {

/// The proof times of the nodes on a level.
pub open spec fn times_at(nodes: Seq<PcdNodeTiming>, level: int) -> Seq<Duration>
    decreases nodes.len(),
{
    if nodes.len() == 0 {
        Seq::empty()
    } else if nodes.last().level == level {
        times_at(nodes.drop_last(), level).push(nodes.last().prove_time)
    } else {
        times_at(nodes.drop_last(), level)
    }
}

/// The times of the sibling checks that were made.
pub open spec fn sibling_times(nodes: Seq<PcdNodeTiming>) -> Seq<Duration>
    decreases nodes.len(),
{
    if nodes.len() == 0 {
        Seq::empty()
    } else {
        match nodes.last().sibling_check {
            Some(t) => sibling_times(nodes.drop_last()).push(t),
            None => sibling_times(nodes.drop_last()),
        }
    }
}

/// The highest level of a row of nodes; 0 for an empty row.
pub open spec fn top_level(nodes: Seq<PcdNodeTiming>) -> nat
    decreases nodes.len(),
{
    if nodes.len() == 0 {
        0
    } else if nodes.last().level > top_level(nodes.drop_last()) {
        nodes.last().level as nat
    } else {
        top_level(nodes.drop_last())
    }
}

/// The top level is the highest that a node of the row has: no node lies above
/// it, and one lies on it, unless the row is empty.
pub proof fn lemma_top_level(nodes: Seq<PcdNodeTiming>)
    ensures
        forall|i: int| 0 <= i < nodes.len() ==> (#[trigger] nodes[i]).level <= top_level(nodes),
        nodes.len() > 0 ==> exists|i: int|
            0 <= i < nodes.len() && (#[trigger] nodes[i]).level == top_level(nodes),
        nodes.len() == 0 ==> top_level(nodes) == 0,
    decreases nodes.len(),
{
    if nodes.len() > 0 {
        let rest = nodes.drop_last();
        lemma_top_level(rest);
        assert forall|i: int| 0 <= i < nodes.len() implies (#[trigger] nodes[i]).level
            <= top_level(nodes) by {
            if i < rest.len() {
                assert(rest[i].level <= top_level(rest));
            }
        }
        if nodes.last().level > top_level(rest) || rest.len() == 0 {
            assert(nodes[nodes.len() - 1].level == top_level(nodes));
        } else {
            let i = choose|i: int|
                0 <= i < rest.len() && (#[trigger] rest[i]).level == top_level(rest);
            assert(nodes[i].level == top_level(nodes));
        }
    }
}

/// The times of a level are those of the nodes on it and of no other, in the
/// order of the row.
pub proof fn lemma_times_at(nodes: Seq<PcdNodeTiming>, level: int)
    ensures
        times_at(nodes, level) == nodes.filter(|t: PcdNodeTiming| t.level == level).map_values(
            |t: PcdNodeTiming| t.prove_time,
        ),
    decreases nodes.len(),
{
    reveal(Seq::filter);
    let on = |t: PcdNodeTiming| t.level == level;
    let time = |t: PcdNodeTiming| t.prove_time;
    if nodes.len() > 0 {
        lemma_times_at(nodes.drop_last(), level);
    }
    assert(times_at(nodes, level) =~= nodes.filter(on).map_values(time));
}

/// The times of the sibling checks are those that the nodes hold, in the order
/// of the row.
pub proof fn lemma_sibling_times(nodes: Seq<PcdNodeTiming>)
    ensures
        sibling_times(nodes) == nodes.filter(
            |t: PcdNodeTiming| t.sibling_check is Some,
        ).map_values(|t: PcdNodeTiming| t.sibling_check->0),
    decreases nodes.len(),
{
    reveal(Seq::filter);
    let made = |t: PcdNodeTiming| t.sibling_check is Some;
    let time = |t: PcdNodeTiming| t.sibling_check->0;
    if nodes.len() > 0 {
        lemma_sibling_times(nodes.drop_last());
    }
    assert(sibling_times(nodes) =~= nodes.filter(made).map_values(time));
}

/// Nodes on the lines of the first `n` levels.
pub open spec fn nodes_shown(nodes: Seq<PcdNodeTiming>, n: nat) -> nat
    decreases n,
{
    if n == 0 {
        0
    } else {
        nodes_shown(nodes, (n - 1) as nat) + times_at(nodes, n - 1).len()
    }
}

/// Time on the lines of the first `n` levels.
pub open spec fn nanos_shown(nodes: Seq<PcdNodeTiming>, n: nat) -> nat
    decreases n,
{
    if n == 0 {
        0
    } else {
        nanos_shown(nodes, (n - 1) as nat) + total_nanos(times_at(nodes, n - 1))
    }
}

/// One more node adds to the lines of its own level only.
proof fn lemma_shown_push(nodes: Seq<PcdNodeTiming>, n: nat)
    requires
        nodes.len() > 0,
    ensures
        ({
            let (rest, last) = (nodes.drop_last(), nodes.last());
            &&& nodes_shown(nodes, n) == nodes_shown(rest, n) + (if last.level < n {
                1nat
            } else {
                0
            })
            &&& nanos_shown(nodes, n) == nanos_shown(rest, n) + (if last.level < n {
                last.prove_time.nanos as nat
            } else {
                0
            })
        }),
    decreases n,
{
    if n > 0 {
        lemma_shown_push(nodes, (n - 1) as nat);
        let before = times_at(nodes.drop_last(), n - 1);
        assert(before.push(nodes.last().prove_time).drop_last() =~= before);
    }
}

/// Every node is counted on exactly one of the lines up to the top level: the
/// lines' nodes add up to the nodes of the row, and their times to its time.
pub proof fn lemma_levels_add_up(nodes: Seq<PcdNodeTiming>, n: nat)
    requires
        n > top_level(nodes),
    ensures
        nodes_shown(nodes, n) == nodes.len(),
        nanos_shown(nodes, n) == total_nanos(prove_times(nodes)),
    decreases nodes.len(),
{
    if nodes.len() == 0 {
        lemma_none_shown(nodes, n);
    } else {
        lemma_top_level(nodes);
        lemma_top_level(nodes.drop_last());
        lemma_levels_add_up(nodes.drop_last(), n);
        lemma_shown_push(nodes, n);
        assert(nodes[nodes.len() - 1].level <= top_level(nodes));
        assert(prove_times(nodes).drop_last() =~= prove_times(nodes.drop_last()));
    }
}

proof fn lemma_none_shown(nodes: Seq<PcdNodeTiming>, n: nat)
    requires
        nodes.len() == 0,
    ensures
        nodes_shown(nodes, n) == 0,
        nanos_shown(nodes, n) == 0,
    decreases n,
{
    if n > 0 {
        lemma_none_shown(nodes, (n - 1) as nat);
    }
}

/// The retries of a row are those of its parts together, and those of a single
/// node are its own.
pub proof fn lemma_retries_add(a: Seq<PcdNodeTiming>, b: Seq<PcdNodeTiming>)
    ensures
        node_retries(a + b) == node_retries(a) + node_retries(b),
        b.len() == 1 ==> node_retries(b) == b[0].retries,
    decreases b.len(),
{
    if b.len() == 0 {
        assert(a + b =~= a);
    } else {
        lemma_retries_add(a, b.drop_last());
        assert((a + b).drop_last() =~= a + b.drop_last());
        if b.len() == 1 {
            assert(node_retries(b.drop_last()) == 0);
        }
    }
}

/// Attempts of the prover that were given up.
pub open spec fn node_retries(nodes: Seq<PcdNodeTiming>) -> nat
    decreases nodes.len(),
{
    if nodes.len() == 0 {
        0
    } else {
        node_retries(nodes.drop_last()) + nodes.last().retries as nat
    }
}

/// Bytes of data per second of proving, over at least a nanosecond.
pub open spec fn rate(data_bytes: nat, nanos: nat) -> Dyadic {
    quotient(rounded(data_bytes, 1, 0), larger(seconds(nanos), rounded(1, 1_000_000_000, 0)))
}

/// The leaves that the heading counts: the power is taken with the bits of the
/// depth past the 32nd dropped.
pub open spec fn leaves_shown(arity: nat, depth: nat) -> nat {
    tree_size(arity, divisor(depth))
}

/// The leaves can be counted: the number of leaves fits, or the number shown
/// does.
pub open spec fn leaves_fit(arity: nat, depth: nat) -> bool {
    tree_size(arity, depth) <= usize::MAX || leaves_shown(arity, depth) <= usize::MAX
}

/// Leaves that can be counted can be shown: a fitting power of two or more has
/// a small exponent, and lower powers are zero or one.
proof fn lemma_leaves_fit(arity: nat, depth: nat)
    requires
        leaves_fit(arity, depth),
    ensures
        leaves_shown(arity, depth) <= usize::MAX,
{
    let low = divisor(depth);
    if arity >= 2 {
        if depth < 0x1_0000_0000 {
            lemma_small_mod(depth, 0x1_0000_0000);
        } else {
            lemma_tree_size_above(arity, depth);
        }
    } else {
        lemma_small_power(arity, low);
    }
}

/// Powers of zero and one.
proof fn lemma_small_power(arity: nat, depth: nat)
    requires
        arity <= 1,
    ensures
        tree_size(arity, depth) <= 1,
    decreases depth,
{
    if depth > 0 {
        lemma_small_power(arity, (depth - 1) as nat);
        let below = tree_size(arity, (depth - 1) as nat);
        assert(arity * below <= 1) by (nonlinear_arith)
            requires
                arity <= 1,
                below <= 1,
        ;
    }
}

impl PcdReport {
    /// Everything in the report can be shown.
    pub open spec fn showable(self) -> bool {
        let nodes = self.nodes@;
        &&& leaves_fit(self.arity as nat, self.depth as nat)
        &&& self.setup_time.wf()
        &&& self.verify_time.wf()
        &&& self.decider_time matches Some(t) ==> t.wf()
        &&& averageable(prove_times(nodes))
        &&& averageable(sibling_times(nodes))
        &&& forall|level: int| averageable(#[trigger] times_at(nodes, level))
        &&& node_retries(nodes) <= usize::MAX
    }

    /// Bytes of data per second of proving; setup and decider do not count.
    pub open spec fn data_rate(self) -> Dyadic {
        rate(self.data_bytes as nat, total_nanos(prove_times(self.nodes@)))
    }

    /// Bytes of data per second of proving; setup and decider do not count.
    pub fn throughput_bps(&self) -> (f: Float)
        requires
            total_nanos(prove_times(self.nodes@)) <= MAX_NANOS,
        ensures
            f@ == self.data_rate(),
            f@.wf(),
            -200 <= f.exp <= 60,
    {
        proof {
            lemma2_to64();
            lemma2_to64_rest();
            lemma_bit_len_is(1, 0);
            lemma_bit_len_is(1_000_000_000, 29);
            lemma_bit_len_at_most(self.data_bytes as nat, 64);
        }
        let bytes = ratio(self.data_bytes as u64, 1, 0);
        let tick = ratio(1, 1_000_000_000, 0);
        let time = max(as_seconds(self.total_prove_time()), tick);
        proof {
            lemma_larger_of_positive(seconds(total_nanos(prove_times(self.nodes@))), tick@);
            lemma_bit_len_is(time.mant as nat, 52);
            if bytes.mant > 0 {
                lemma_bit_len_is(bytes.mant as nat, 52);
            }
        }
        ratio(bytes.mant, time.mant, bytes.exp - time.exp)
    }
}

/// What is at least a positive number is positive.
proof fn lemma_larger_of_positive(a: Dyadic, b: Dyadic)
    requires
        b.mant > 0,
    ensures
        larger(a, b).mant > 0,
{
    if a.mant == 0 {
        assert(a.num() == 0) by {
            if a.exp >= 0 {
                assert(0 * pow2(a.exp as nat) == 0) by (nonlinear_arith);
            }
        }
        assert(0 * b.den() == 0) by (nonlinear_arith);
        assert(b.num() * a.den() >= 0) by (nonlinear_arith)
            requires
                b.num() >= 0,
                a.den() >= 0,
        ;
        assert(at_most(a, b));
    }
}

/// A rate in whole bytes, as far as they can be counted.
pub open spec fn whole_bytes(f: Dyadic) -> nat {
    if f.floor() > usize::MAX {
        usize::MAX as nat
    } else {
        f.floor()
    }
}

/// A rate in whole bytes, as far as they can be counted.
pub fn to_whole_bytes(f: Float) -> (n: usize)
    requires
        f@.wf(),
        -1000 <= f.exp <= 60,
    ensures
        n == whole_bytes(f@),
{
    let n = f.floor();
    if n > usize::MAX as u128 {
        usize::MAX
    } else {
        n as usize
    }
}

/// Average, minimum, maximum and total of a row of spans.
fn stats(times: &[Duration]) -> (s: (Duration, Duration, Duration, Duration))
    requires
        averageable(times@),
    ensures
        s.0.nanos == average_nanos(times@),
        s.1.nanos == min_nanos(times@),
        s.2.nanos == max_nanos(times@),
        s.3.nanos == total_nanos(times@),
        s.0.wf(),
        s.1.wf(),
        s.2.wf(),
        s.3.wf(),
{
    proof {
        lemma_stats_fit(times@);
    }
    (avg_duration(times), min_duration(times), max_duration(times), sum_durations(times))
}

/// The proof times of the nodes on a level.
fn level_times(nodes: &Vec<PcdNodeTiming>, level: usize) -> (times: Vec<Duration>)
    ensures
        times@ == times_at(nodes@, level as int),
{
    let mut times: Vec<Duration> = Vec::new();
    for i in 0..nodes.len()
        invariant
            times@ == times_at(nodes@.take(i as int), level as int),
    {
        assert(nodes@.take(i + 1).drop_last() =~= nodes@.take(i as int));
        if nodes[i].level == level {
            times.push(nodes[i].prove_time);
        }
    }
    assert(nodes@.take(nodes@.len() as int) =~= nodes@);
    times
}

/// The times of the sibling checks that were made.
fn sibling_checks(nodes: &Vec<PcdNodeTiming>) -> (times: Vec<Duration>)
    ensures
        times@ == sibling_times(nodes@),
{
    let mut times: Vec<Duration> = Vec::new();
    for i in 0..nodes.len()
        invariant
            times@ == sibling_times(nodes@.take(i as int)),
    {
        assert(nodes@.take(i + 1).drop_last() =~= nodes@.take(i as int));
        if let Some(t) = nodes[i].sibling_check {
            times.push(t);
        }
    }
    assert(nodes@.take(nodes@.len() as int) =~= nodes@);
    times
}

fn all_times(nodes: &Vec<PcdNodeTiming>) -> (times: Vec<Duration>)
    ensures
        times@ == prove_times(nodes@),
{
    let mut times: Vec<Duration> = Vec::with_capacity(nodes.len());
    for i in 0..nodes.len()
        invariant
            times@ == prove_times(nodes@).take(i as int),
    {
        times.push(nodes[i].prove_time);
        assert(times@ =~= prove_times(nodes@).take(i + 1));
    }
    assert(times@ =~= prove_times(nodes@));
    times
}

fn max_level(nodes: &Vec<PcdNodeTiming>) -> (level: usize)
    ensures
        level == top_level(nodes@),
{
    let mut level: usize = 0;
    for i in 0..nodes.len()
        invariant
            level == top_level(nodes@.take(i as int)),
    {
        assert(nodes@.take(i + 1).drop_last() =~= nodes@.take(i as int));
        if nodes[i].level > level {
            level = nodes[i].level;
        }
    }
    assert(nodes@.take(nodes@.len() as int) =~= nodes@);
    level
}

proof fn lemma_retries_prefix(nodes: Seq<PcdNodeTiming>, n: int)
    requires
        0 <= n <= nodes.len(),
    ensures
        node_retries(nodes.take(n)) <= node_retries(nodes),
    decreases nodes.len(),
{
    if n == nodes.len() {
        assert(nodes.take(n) =~= nodes);
    } else {
        lemma_retries_prefix(nodes.drop_last(), n);
        assert(nodes.drop_last().take(n) =~= nodes.take(n));
    }
}

fn total_retries(nodes: &Vec<PcdNodeTiming>) -> (n: usize)
    requires
        node_retries(nodes@) <= usize::MAX,
    ensures
        n == node_retries(nodes@),
{
    let mut n: usize = 0;
    for i in 0..nodes.len()
        invariant
            node_retries(nodes@) <= usize::MAX,
            n == node_retries(nodes@.take(i as int)),
    {
        proof {
            assert(nodes@.take(i + 1).drop_last() =~= nodes@.take(i as int));
            lemma_retries_prefix(nodes@, i + 1);
        }
        n = n + nodes[i].retries;
    }
    assert(nodes@.take(nodes@.len() as int) =~= nodes@);
    n
}

/// The heading.
pub open spec fn heading_text(r: PcdReport) -> Seq<char> {
    "\n================================================================================\n HyperNova PCD — "@
        + decimal(r.arity as nat) + "-ary SHA-256 tree, depth "@ + decimal(r.depth as nat) + " ("@
        + decimal(leaves_shown(r.arity as nat, r.depth as nat)) + " leaves, "@ + decimal(
        r.nodes@.len(),
    ) + " nodes, "@ + bytes_text(r.data_bytes as nat) + " data, bucket "@ + decimal(
        r.bucket_bytes as nat,
    ) + "B)\n config: HyperNova MU="@ + decimal(r.arity as nat)
        + "/NU=1 on BN254/Grumpkin, KZG + Pedersen, Groth16 decider\n================================================================================\n"@
}

fn show_heading(r: &PcdReport) -> (text: String)
    requires
        r.showable(),
    ensures
        text@ == heading_text(*r),
{
    proof {
        lemma_leaves_fit(r.arity as nat, r.depth as nat);
    }
    let mut text =
        "\n================================================================================\n HyperNova PCD — ".to_owned();
    push_decimal(&mut text, r.arity as u128);
    text.push_str("-ary SHA-256 tree, depth ");
    push_decimal(&mut text, r.depth as u128);
    text.push_str(" (");
    push_decimal(&mut text, leaf_count(r.arity, low_bits(r.depth) as usize) as u128);
    text.push_str(" leaves, ");
    push_decimal(&mut text, r.nodes.len() as u128);
    text.push_str(" nodes, ");
    text.push_str(fmt_bytes(r.data_bytes).as_str());
    text.push_str(" data, bucket ");
    push_decimal(&mut text, r.bucket_bytes as u128);
    text.push_str("B)\n config: HyperNova MU=");
    push_decimal(&mut text, r.arity as u128);
    text.push_str(
        "/NU=1 on BN254/Grumpkin, KZG + Pedersen, Groth16 decider\n================================================================================\n",
    );
    text
}

/// What a level is called.
pub open spec fn level_label(level: nat, n: nat) -> Seq<char> {
    if level == 0 {
        "level 0 ("@ + decimal(n) + " leaf nodes)"@
    } else {
        "level "@ + decimal(level) + " ("@ + decimal(n) + " merge nodes)"@
    }
}

fn show_label(level: usize, n: usize) -> (text: String)
    ensures
        text@ == level_label(level as nat, n as nat),
{
    if level == 0 {
        let mut text = "level 0 (".to_owned();
        push_decimal(&mut text, n as u128);
        text.push_str(" leaf nodes)");
        text
    } else {
        let mut text = "level ".to_owned();
        push_decimal(&mut text, level as u128);
        text.push_str(" (");
        push_decimal(&mut text, n as u128);
        text.push_str(" merge nodes)");
        text
    }
}

/// The line on a level.
#[verifier::opaque]
pub open spec fn level_line(level: nat, times: Seq<Duration>) -> Seq<char> {
    "    "@ + left_aligned(level_label(level, times.len()), 26) + ": avg "@ + right_aligned(
        duration_text(average_nanos(times)),
        10,
    ) + " | min "@ + duration_text(min_nanos(times)) + " | max "@ + duration_text(max_nanos(times))
        + " | total "@ + duration_text(total_nanos(times)) + "\n"@
}

fn show_level(level: usize, times: &Vec<Duration>) -> (text: String)
    requires
        averageable(times@),
    ensures
        text@ == level_line(level as nat, times@),
{
    proof {
        reveal(level_line);
    }
    let (avg, min, max, total) = stats(times.as_slice());
    let mut text = "    ".to_owned();
    push_left(&mut text, show_label(level, times.len()).as_str(), 26);
    text.push_str(": avg ");
    push_duration(&mut text, avg, 10);
    text.push_str(" | min ");
    text.push_str(fmt_duration(min).as_str());
    text.push_str(" | max ");
    text.push_str(fmt_duration(max).as_str());
    text.push_str(" | total ");
    text.push_str(fmt_duration(total).as_str());
    text.push_str("\n");
    text
}

/// The lines on the first `n` levels.
pub open spec fn level_lines(nodes: Seq<PcdNodeTiming>, n: nat) -> Seq<char>
    decreases n,
{
    if n == 0 {
        Seq::empty()
    } else {
        level_lines(nodes, (n - 1) as nat) + level_line((n - 1) as nat, times_at(nodes, n - 1))
    }
}

fn show_levels(r: &PcdReport) -> (text: String)
    requires
        r.showable(),
    ensures
        text@ == level_lines(r.nodes@, top_level(r.nodes@) + 1),
{
    let top = max_level(&r.nodes);
    let mut text = String::new();
    for level in 0..top
        invariant
            r.showable(),
            text@ == level_lines(r.nodes@, level as nat),
    {
        let times = level_times(&r.nodes, level);
        text.push_str(show_level(level, &times).as_str());
    }
    let times = level_times(&r.nodes, top);
    text.push_str(show_level(top, &times).as_str());
    text
}

/// The lines on all nodes together.
pub open spec fn totals_text(r: PcdReport) -> Seq<char> {
    let times = prove_times(r.nodes@);
    "    all nodes          : avg "@ + right_aligned(duration_text(average_nanos(times)), 10)
        + " per node | total tree proving "@ + duration_text(total_nanos(times))
        + "   (peak mem "@ + mem_text(r.tree_peak_mem) + ")\n    throughput         : "@
        + right_aligned(bytes_text(whole_bytes(r.data_rate())), 12) + "/s of data proved\n"@
}

fn show_totals(r: &PcdReport) -> (text: String)
    requires
        r.showable(),
    ensures
        text@ == totals_text(*r),
{
    let times = all_times(&r.nodes);
    let (avg, _, _, total) = stats(times.as_slice());
    let mut text = "    all nodes          : avg ".to_owned();
    push_duration(&mut text, avg, 10);
    text.push_str(" per node | total tree proving ");
    text.push_str(fmt_duration(total).as_str());
    text.push_str("   (peak mem ");
    text.push_str(opt_mem(r.tree_peak_mem).as_str());
    text.push_str(")\n    throughput         : ");
    push_right(&mut text, fmt_bytes(to_whole_bytes(r.throughput_bps())).as_str(), 12);
    text.push_str("/s of data proved\n");
    text
}

/// The line on the sibling checks, where any were made.
pub open spec fn siblings_text(times: Seq<Duration>) -> Seq<char> {
    if times.len() == 0 {
        ""@
    } else {
        "    sibling IVC checks : avg "@ + right_aligned(duration_text(average_nanos(times)), 10)
            + " per merge | total "@ + duration_text(total_nanos(times))
            + "   (native, outside circuit)\n"@
    }
}

fn show_siblings(r: &PcdReport) -> (text: String)
    requires
        r.showable(),
    ensures
        text@ == siblings_text(sibling_times(r.nodes@)),
{
    let times = sibling_checks(&r.nodes);
    if times.len() == 0 {
        return "".to_owned();
    }
    let (avg, _, _, total) = stats(times.as_slice());
    let mut text = "    sibling IVC checks : avg ".to_owned();
    push_duration(&mut text, avg, 10);
    text.push_str(" per merge | total ");
    text.push_str(fmt_duration(total).as_str());
    text.push_str("   (native, outside circuit)\n");
    text
}

/// The lines on retries and the decider.
pub open spec fn decider_text(r: PcdReport) -> Seq<char> {
    let retries = node_retries(r.nodes@);
    (if retries > 0 {
        "    prover retries     : "@ + decimal(retries) + " (defensive guard, see README)\n"@
    } else {
        ""@
    }) + (match r.decider_time {
        Some(t) => "    final SNARK        : "@ + right_aligned(duration_text(t.nanos as nat), 12)
            + "   (Groth16 decider on root accumulator, peak mem "@ + mem_text(r.decider_peak_mem)
            + ")\n"@,
        None => "    final SNARK        :      skipped\n"@,
    })
}

fn show_decider(r: &PcdReport) -> (text: String)
    requires
        r.showable(),
    ensures
        text@ == decider_text(*r),
{
    let retries = total_retries(&r.nodes);
    let mut text = if retries > 0 {
        let mut line = "    prover retries     : ".to_owned();
        push_decimal(&mut line, retries as u128);
        line.push_str(" (defensive guard, see README)\n");
        line
    } else {
        "".to_owned()
    };
    match r.decider_time {
        Some(t) => {
            let mut line = "    final SNARK        : ".to_owned();
            push_duration(&mut line, t, 12);
            line.push_str("   (Groth16 decider on root accumulator, peak mem ");
            line.push_str(opt_mem(r.decider_peak_mem).as_str());
            line.push_str(")\n");
            text.push_str(line.as_str());
        },
        None => {
            text.push_str("    final SNARK        :      skipped\n");
        },
    }
    text
}

/// The whole report.
pub open spec fn report_text(r: PcdReport) -> Seq<char> {
    heading_text(r) + "    setup latency    : "@ + right_aligned(
        duration_text(r.setup_time.nanos as nat),
        12,
    ) + "   (peak mem "@ + mem_text(r.setup_peak_mem) + ")\n"@ + level_lines(
        r.nodes@,
        top_level(r.nodes@) + 1,
    ) + totals_text(r) + siblings_text(sibling_times(r.nodes@)) + decider_text(r)
        + "    verification       : "@ + right_aligned(duration_text(r.verify_time.nanos as nat), 12)
        + "\n    root digest        : "@ + hex_text(r.root_digest@)
        + "\n================================================================================\n"@
}

/// The report of a whole tree.
pub fn print_report(r: &PcdReport) -> (text: String)
    requires
        r.showable(),
    ensures
        text@ == report_text(*r),
{
    let mut text = show_heading(r);
    text.push_str("    setup latency    : ");
    push_duration(&mut text, r.setup_time, 12);
    text.push_str("   (peak mem ");
    text.push_str(opt_mem(r.setup_peak_mem).as_str());
    text.push_str(")\n");
    text.push_str(show_levels(r).as_str());
    text.push_str(show_totals(r).as_str());
    text.push_str(show_siblings(r).as_str());
    text.push_str(show_decider(r).as_str());
    text.push_str("    verification       : ");
    push_duration(&mut text, r.verify_time, 12);
    text.push_str("\n    root digest        : ");
    hex(&mut text, r.root_digest.as_slice());
    text.push_str(
        "\n================================================================================\n",
    );
    text
}

/// The line of a level has as many nodes as the tree has on that level.
pub proof fn lemma_nodes_of_level(nodes: Seq<PcdNodeTiming>, level: int)
    ensures
        times_at(nodes, level).len() == nodes_on(nodes, level),
    decreases nodes.len(),
{
    if nodes.len() > 0 {
        lemma_nodes_of_level(nodes.drop_last(), level);
    }
}

/// A level is called by its number and the number of its nodes, which are leaves on
/// level 0 and merges above it.
pub proof fn lemma_level_label(level: nat, n: nat)
    ensures
        ("level "@ + decimal(level) + " ("@ + decimal(n)).is_prefix_of(level_label(level, n)),
        level == 0 ==> " leaf nodes)"@.is_suffix_of(level_label(level, n)),
        level > 0 ==> " merge nodes)"@.is_suffix_of(level_label(level, n)),
        level_label(level, n).len() == "level "@.len() + decimal(level).len() + " ("@.len()
            + decimal(n).len() + (if level == 0 {
            " leaf nodes)"@.len()
        } else {
            " merge nodes)"@.len()
        }),
{
    let head = "level "@ + decimal(level) + " ("@ + decimal(n);
    let label = level_label(level, n);
    reveal_strlit("level 0 (");
    reveal_strlit("level ");
    reveal_strlit(" (");
    if level == 0 {
        assert("level 0 ("@ =~= "level "@ + decimal(0) + " ("@);
        assert(label =~= head + " leaf nodes)"@);
    } else {
        assert(label =~= head + " merge nodes)"@);
    }
    let tail = if level == 0 {
        " leaf nodes)"@
    } else {
        " merge nodes)"@
    };
    assert(label.subrange(0, head.len() as int) =~= head);
    assert(label.subrange(label.len() - tail.len(), label.len() as int) =~= tail);
}

/// Every level up to the top has its line, in order.
pub proof fn lemma_level_lines(nodes: Seq<PcdNodeTiming>, level: nat, n: nat)
    requires
        level < n,
    ensures
        (level_lines(nodes, level) + level_line(level, times_at(nodes, level as int))).is_prefix_of(
            level_lines(nodes, n),
        ),
        level_lines(nodes, 0) == Seq::<char>::empty(),
    decreases n,
{
    let head = level_lines(nodes, level) + level_line(level, times_at(nodes, level as int));
    let all = level_lines(nodes, n);
    if n == level + 1 {
        assert(all.subrange(0, head.len() as int) =~= head);
    } else {
        let m = (n - 1) as nat;
        lemma_level_lines(nodes, level, m);
        let before = level_lines(nodes, m);
        assert(head == before.subrange(0, head.len() as int));
        assert(all.subrange(0, head.len() as int) =~= head);
    }
}

/// A rate in whole bytes is the largest number that is not larger, as far as it can
/// be counted.
pub proof fn lemma_whole_bytes(f: Dyadic)
    requires
        f.den() > 0,
    ensures
        whole_bytes(f) * f.den() <= f.num(),
        whole_bytes(f) < usize::MAX ==> f.num() < (whole_bytes(f) + 1) * f.den(),
        whole_bytes(f) <= usize::MAX,
{
    let (n, d) = (f.num(), f.den());
    let q = n / d;
    assert(q * d <= n && n < (q + 1) * d) by (nonlinear_arith)
        requires
            q == n / d,
            d > 0,
    ;
    if q > usize::MAX {
        assert(usize::MAX * d <= q * d) by (nonlinear_arith)
            requires
                usize::MAX <= q,
                d > 0,
        ;
    }
}

/// The heading counts the leaves of the tree, `arity^depth`.
pub proof fn lemma_leaves_shown(arity: nat, depth: nat)
    requires
        depth < 0x1_0000_0000,
    ensures
        leaves_shown(arity, 0) == 1,
        leaves_shown(arity, depth) == tree_size(arity, depth),
{
    lemma_small_mod(depth, 0x1_0000_0000);
}

/// A time of nothing counts as a nanosecond, and no data has no rate.
pub proof fn lemma_rate(data_bytes: nat, nanos: nat)
    ensures
        rate(data_bytes, 0) == rate(data_bytes, 1),
        rate(0, nanos).mant == 0,
        rate(data_bytes, nanos).mant == 0 ==> data_bytes == 0,
{
    let zero = Dyadic { mant: 0, exp: 0 };
    let tick = rounded(1, 1_000_000_000, 0);
    lemma_rounded_nearest(1, 1_000_000_000, 0);
    lemma_sum_with_zero(zero);
    lemma_sum_with_zero(tick);
    assert(seconds(0) == zero);
    assert(seconds(1) == tick);
    lemma_larger_of_positive(zero, tick);
    lemma_zero_is_least(tick);
    let time = larger(seconds(nanos), tick);
    lemma_larger_of_positive(seconds(nanos), tick);
    lemma_rounded_nearest(data_bytes, 1, 0);
    let bytes = rounded(data_bytes, 1, 0);
    lemma_rounded_nearest(bytes.mant, time.mant, bytes.exp - time.exp);
}

proof fn lemma_zero_is_least(f: Dyadic)
    ensures
        larger(Dyadic { mant: 0, exp: 0 }, f) == f,
        larger(f, f) == f,
{
    let zero = Dyadic { mant: 0, exp: 0 };
    assert(0 * pow2(0) == 0 && 0 * f.den() == 0 && f.num() * 1 == f.num()) by (nonlinear_arith);
    assert(at_most(zero, f));
}

} // verus!
