//! The comparative report of a set of IVC runs over the same number of steps.

use crate::bench_common::{average_nanos, lemma_min_max_nanos, max_nanos, min_nanos, total_nanos,
    Duration, IvcReport};
use crate::float::{lemma_bit_len_is, ratio, rounded, Dyadic, Float};
use crate::format::{as_seconds, duration_text, fmt_duration, larger, lemma_larger, max, mem_text,
    opt_mem, push_quotient, quotient_text, seconds};
use crate::ranking::{as_ints, is_permutation, lemma_ranking_is_stable, rank, ranking, Ranked};
use crate::text::{decimal, push_decimal, push_right, right_aligned};
use vstd::arithmetic::power2::{lemma2_to64, lemma2_to64_rest};
use vstd::prelude::*;

verus! {

impl Ranked for Duration {
    /// Shorter spans first.
    open spec fn leads(self, other: Duration) -> bool {
        self.nanos <= other.nanos
    }

    proof fn lemma_leads_total(a: Duration, b: Duration) {
    }

    proof fn lemma_leads_transitive(a: Duration, b: Duration, c: Duration) {
    }

    fn may_lead(&self, other: &Duration) -> (ok: bool) {
        self.nanos <= other.nanos
    }
}

/// Appends a span, brought to a width with spaces before it.
pub fn push_duration(text: &mut String, d: Duration, width: usize)
    requires
        d.wf(),
    ensures
        final(text)@ == old(text)@ + right_aligned(duration_text(d.nanos as nat), width as nat),
{
    push_right(text, fmt_duration(d).as_str(), width);
}

/// The lines on the setup and the steps.
pub open spec fn steps_text(r: IvcReport) -> Seq<char> {
    let times = r.step_times@;
    "    config           : "@ + r.config@ + "\n    setup latency    : "@ + right_aligned(
        duration_text(r.setup_time.nanos as nat),
        12,
    ) + "   (peak mem "@ + mem_text(r.setup_peak_mem) + ")\n    step proving     : avg "@
        + right_aligned(duration_text(average_nanos(times)), 10) + " | min "@ + duration_text(
        min_nanos(times),
    ) + " | max "@ + duration_text(max_nanos(times)) + " | total "@ + duration_text(
        total_nanos(times),
    ) + "   (peak mem "@ + mem_text(r.steps_peak_mem) + ")\n"@
}

/// The line on the final proof; `none` where there is no such proof.
pub open spec fn finalize_text(r: IvcReport, none: Seq<char>) -> Seq<char> {
    match r.finalize_time {
        Some(t) => "    final SNARK      : "@ + right_aligned(duration_text(t.nanos as nat), 12)
            + "   (peak mem "@ + mem_text(r.finalize_peak_mem) + ")\n"@,
        None => none,
    }
}

/// The line on the verification.
pub open spec fn verify_text(r: IvcReport) -> Seq<char> {
    match r.verify_time {
        Some(t) => "    verification     : "@ + right_aligned(duration_text(t.nanos as nat), 12)
            + "\n"@,
        None => ""@,
    }
}

/// All spans of a report can be shown.
pub open spec fn showable(r: IvcReport) -> bool {
    &&& r.wf()
    &&& r.setup_time.wf()
    &&& r.finalize_time matches Some(t) ==> t.wf()
    &&& r.verify_time matches Some(t) ==> t.wf()
}

/// Average and bounds of a row are no longer than its total.
pub proof fn lemma_stats_fit(times: Seq<Duration>)
    requires
        times.len() > 0 ==> times.len() % 0x1_0000_0000 != 0,
    ensures
        average_nanos(times) <= total_nanos(times),
        min_nanos(times) <= total_nanos(times),
        max_nanos(times) <= total_nanos(times),
{
    if times.len() > 0 {
        lemma_min_max_nanos(times);
        let d = times.len() % 0x1_0000_0000;
        let t = total_nanos(times);
        assert(t / d <= t) by (nonlinear_arith)
            requires
                d > 0,
        ;
    }
}

/// The lines on the setup and the steps.
pub fn show_steps(r: &IvcReport) -> (text: String)
    requires
        showable(*r),
    ensures
        text@ == steps_text(*r),
{
    proof {
        lemma_stats_fit(r.step_times@);
    }
    let mut text = "    config           : ".to_owned();
    text.push_str(r.config.as_str());
    text.push_str("\n    setup latency    : ");
    push_duration(&mut text, r.setup_time, 12);
    text.push_str("   (peak mem ");
    text.push_str(opt_mem(r.setup_peak_mem).as_str());
    text.push_str(")\n    step proving     : avg ");
    push_duration(&mut text, r.avg_step_time(), 10);
    text.push_str(" | min ");
    text.push_str(fmt_duration(r.min_step_time()).as_str());
    text.push_str(" | max ");
    text.push_str(fmt_duration(r.max_step_time()).as_str());
    text.push_str(" | total ");
    text.push_str(fmt_duration(r.total_step_time()).as_str());
    text.push_str("   (peak mem ");
    text.push_str(opt_mem(r.steps_peak_mem).as_str());
    text.push_str(")\n");
    text
}

/// The line on the final proof; `none` where there is no such proof.
pub fn show_finalize(r: &IvcReport, none: &str) -> (text: String)
    requires
        showable(*r),
    ensures
        text@ == finalize_text(*r, none@),
{
    match r.finalize_time {
        Some(t) => {
            let mut text = "    final SNARK      : ".to_owned();
            push_duration(&mut text, t, 12);
            text.push_str("   (peak mem ");
            text.push_str(opt_mem(r.finalize_peak_mem).as_str());
            text.push_str(")\n");
            text
        },
        None => none.to_owned(),
    }
}

/// The line on the verification.
pub fn show_verify(r: &IvcReport) -> (text: String)
    requires
        showable(*r),
    ensures
        text@ == verify_text(*r),
{
    match r.verify_time {
        Some(t) => {
            let mut text = "    verification     : ".to_owned();
            push_duration(&mut text, t, 12);
            text.push_str("\n");
            text
        },
        None => "".to_owned(),
    }
}

/// The section on one run.
#[verifier::opaque]
pub open spec fn section_text(r: IvcReport) -> Seq<char> {
    "\n--- "@ + r.backend@ + " ---\n"@ + steps_text(r) + finalize_text(
        r,
        "    final SNARK      :          n/a   (last recursive proof is final)\n"@,
    ) + verify_text(r)
}

fn show_section(r: &IvcReport) -> (text: String)
    requires
        showable(*r),
    ensures
        text@ == section_text(*r),
{
    proof {
        reveal(section_text);
    }
    let mut text = "\n--- ".to_owned();
    text.push_str(r.backend.as_str());
    text.push_str(" ---\n");
    text.push_str(show_steps(r).as_str());
    text.push_str(
        show_finalize(
            r,
            "    final SNARK      :          n/a   (last recursive proof is final)\n",
        ).as_str(),
    );
    text.push_str(show_verify(r).as_str());
    text
}

/// The sections on a row of runs.
pub open spec fn sections_text(reports: Seq<IvcReport>) -> Seq<char>
    decreases reports.len(),
{
    if reports.len() == 0 {
        Seq::empty()
    } else {
        sections_text(reports.drop_last()) + section_text(reports.last())
    }
}

/// The average step times of a row of runs.
pub open spec fn averages(reports: Seq<IvcReport>) -> Seq<Duration> {
    reports.map_values(
        |r: IvcReport| Duration { nanos: average_nanos(r.step_times@) as u128 },
    )
}

/// What the averages are divided by: the fastest one, but no less than a
/// picosecond.
pub open spec fn base_of(fastest: nat) -> Dyadic {
    larger(seconds(fastest), rounded(1, 1_000_000_000_000, 0))
}

/// A line of the ranking.
#[verifier::opaque]
pub open spec fn rank_line(r: IvcReport, base: Dyadic) -> Seq<char> {
    let avg = average_nanos(r.step_times@);
    "    "@ + right_aligned(duration_text(avg), 8) + " /step  ("@ + quotient_text(
        seconds(avg),
        base,
    ) + "x)  "@ + r.backend@ + "\n"@
}

/// The first `n` lines of the ranking.
pub open spec fn rank_lines(reports: Seq<IvcReport>, n: nat) -> Seq<char>
    decreases n,
{
    if n == 0 {
        Seq::empty()
    } else {
        let order = ranking(averages(reports), reports.len());
        let base = base_of(average_nanos(reports[order[0]].step_times@));
        rank_lines(reports, (n - 1) as nat) + rank_line(reports[order[n - 1]], base)
    }
}

/// The whole report.
pub open spec fn comparative_text(n_steps: nat, reports: Seq<IvcReport>) -> Seq<char> {
    "\n================================================================================\n IVC benchmark — SHA-256 chain over 32-byte state, N = "@
        + decimal(n_steps)
        + " steps\n================================================================================\n"@
        + sections_text(reports)
        + "\n--- head-to-head (avg per-step proving, fastest first) ---\n"@ + rank_lines(
        reports,
        reports.len(),
    ) + "================================================================================\n"@
}

fn show_rank_line(r: &IvcReport, base: Float) -> (text: String)
    requires
        showable(*r),
        base@.wf(),
        -92 <= base.exp <= 14,
    ensures
        text@ == rank_line(*r, base@),
{
    proof {
        reveal(rank_line);
        lemma_stats_fit(r.step_times@);
    }
    let avg = r.avg_step_time();
    let mut text = "    ".to_owned();
    push_duration(&mut text, avg, 8);
    text.push_str(" /step  (");
    push_quotient(&mut text, as_seconds(avg), base);
    text.push_str("x)  ");
    text.push_str(r.backend.as_str());
    text.push_str("\n");
    text
}

fn show_sections(reports: &[IvcReport]) -> (text: String)
    requires
        forall|i: int| 0 <= i < reports@.len() ==> showable(#[trigger] reports@[i]),
    ensures
        text@ == sections_text(reports@),
{
    let mut text = String::new();
    for i in 0..reports.len()
        invariant
            forall|k: int| 0 <= k < reports@.len() ==> showable(#[trigger] reports@[k]),
            text@ == sections_text(reports@.take(i as int)),
    {
        text.push_str(show_section(&reports[i]).as_str());
        assert(reports@.take(i + 1).drop_last() =~= reports@.take(i as int));
    }
    assert(reports@.take(reports@.len() as int) =~= reports@);
    text
}

/// The average step times of a row of runs.
fn average_times(reports: &[IvcReport]) -> (keys: Vec<Duration>)
    requires
        forall|i: int| 0 <= i < reports@.len() ==> showable(#[trigger] reports@[i]),
    ensures
        keys@ == averages(reports@),
{
    let mut keys: Vec<Duration> = Vec::with_capacity(reports.len());
    for i in 0..reports.len()
        invariant
            forall|k: int| 0 <= k < reports@.len() ==> showable(#[trigger] reports@[k]),
            keys@ == averages(reports@).take(i as int),
    {
        keys.push(reports[i].avg_step_time());
        assert(keys@ =~= averages(reports@).take(i + 1));
    }
    assert(keys@ =~= averages(reports@));
    keys
}

/// What the averages are divided by.
fn base_for(fastest: &IvcReport) -> (base: Float)
    requires
        showable(*fastest),
    ensures
        base@ == base_of(average_nanos(fastest.step_times@)),
        base@.wf(),
        -92 <= base.exp <= 14,
{
    proof {
        lemma_stats_fit(fastest.step_times@);
        lemma2_to64();
        lemma2_to64_rest();
        lemma_bit_len_is(1, 0);
        lemma_bit_len_is(1_000_000_000_000, 39);
    }
    max(as_seconds(fastest.avg_step_time()), ratio(1, 1_000_000_000_000, 0))
}

/// The ranking of the runs.
fn show_ranking(reports: &[IvcReport]) -> (text: String)
    requires
        forall|i: int| 0 <= i < reports@.len() ==> showable(#[trigger] reports@[i]),
    ensures
        text@ == rank_lines(reports@, reports@.len()),
{
    let keys = average_times(reports);
    let order = rank(&keys);
    let ghost ints = ranking(averages(reports@), reports@.len());
    let mut text = String::new();
    if order.len() == 0 {
        return text;
    }
    assert(as_ints(order@)[0] == order@[0]);
    let base = base_for(&reports[order[0]]);
    for i in 0..order.len()
        invariant
            ints == ranking(averages(reports@), reports@.len()),
            as_ints(order@) == ints,
            order@.len() > 0,
            forall|k: int| 0 <= k < order@.len() ==> #[trigger] order@[k] < reports@.len(),
            forall|k: int| 0 <= k < reports@.len() ==> showable(#[trigger] reports@[k]),
            base@ == base_of(average_nanos(reports@[ints[0]].step_times@)),
            base@.wf(),
            -92 <= base.exp <= 14,
            text@ == rank_lines(reports@, i as nat),
    {
        assert(as_ints(order@)[i as int] == order@[i as int]);
        text.push_str(show_rank_line(&reports[order[i]], base).as_str());
    }
    text
}

/// The comparative report of runs over the same number of steps.
pub fn print_comparative_report(n_steps: usize, reports: &[IvcReport]) -> (text: String)
    requires
        forall|i: int| 0 <= i < reports@.len() ==> showable(#[trigger] reports@[i]),
    ensures
        text@ == comparative_text(n_steps as nat, reports@),
{
    let mut text =
        "\n================================================================================\n IVC benchmark — SHA-256 chain over 32-byte state, N = ".to_owned();
    push_decimal(&mut text, n_steps as u128);
    text.push_str(
        " steps\n================================================================================\n",
    );
    text.push_str(show_sections(reports).as_str());
    text.push_str("\n--- head-to-head (avg per-step proving, fastest first) ---\n");
    text.push_str(show_ranking(reports).as_str());
    text.push_str(
        "================================================================================\n",
    );
    text
}

/// Every run has its section, in the order of the runs.
pub proof fn lemma_sections(a: Seq<IvcReport>, b: Seq<IvcReport>)
    ensures
        sections_text(a + b) == sections_text(a) + sections_text(b),
        b.len() == 0 ==> sections_text(b) == Seq::<char>::empty(),
        b.len() == 1 ==> sections_text(b) == section_text(b[0]),
    decreases b.len(),
{
    if b.len() == 0 {
        assert(a + b =~= a);
        assert(sections_text(a) + sections_text(b) =~= sections_text(a));
    } else {
        lemma_sections(a, b.drop_last());
        assert((a + b).drop_last() =~= a + b.drop_last());
        assert(sections_text(a + b) =~= sections_text(a) + sections_text(b));
        if b.len() == 1 {
            assert(sections_text(b) =~= section_text(b[0]));
        }
    }
}

/// The runs are listed by their average step time, the shortest first, each of
/// them once.
pub proof fn lemma_fastest_first(reports: Seq<IvcReport>, a: int, b: int)
    requires
        0 <= a < b < reports.len(),
        forall|i: int| 0 <= i < reports.len() ==> showable(#[trigger] reports[i]),
    ensures
        is_permutation(ranking(averages(reports), reports.len()), reports.len()),
        average_nanos(reports[ranking(averages(reports), reports.len())[a]].step_times@)
            <= average_nanos(reports[ranking(averages(reports), reports.len())[b]].step_times@),
{
    let times = averages(reports);
    let order = ranking(times, reports.len());
    lemma_ranking_is_stable(times, reports.len());
    let (i, j) = (order[a], order[b]);
    assert(times[i].leads(times[j]));
    assert(showable(reports[i]) && showable(reports[j]));
    lemma_stats_fit(reports[i].step_times@);
    lemma_stats_fit(reports[j].step_times@);
}

/// Averages are divided by the fastest one, or by a picosecond if that is more.
pub proof fn lemma_base(fastest: nat)
    ensures
        base_of(fastest) == seconds(fastest) || base_of(fastest) == rounded(
            1,
            1_000_000_000_000,
            0,
        ),
        seconds(fastest).num() * base_of(fastest).den() <= base_of(fastest).num() * seconds(
            fastest,
        ).den(),
        rounded(1, 1_000_000_000_000, 0).num() * base_of(fastest).den() <= base_of(fastest).num()
            * rounded(1, 1_000_000_000_000, 0).den(),
{
    lemma_larger(seconds(fastest), rounded(1, 1_000_000_000_000, 0));
}

} // verus!
