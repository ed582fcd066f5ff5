//! The comparison of trees of several arities by their throughput.

use crate::bench_common::{divisor, low_bits, total_nanos, Duration, MAX_NANOS};
use crate::float::{at_most, is_at_most, lemma_at_most_exponents, lemma_at_most_transitive, Dyadic,
    Float};
use crate::format::{bytes_text, duration_text, fmt_bytes, fmt_duration, push_quotient,
    quotient_text};
use crate::hypernova_pcd::pcd::{prove_times, PcdReport};
use crate::hypernova_pcd::report::{to_whole_bytes, whole_bytes};
use crate::ranking::{as_ints, is_permutation, is_ranked, lemma_ranking_is_stable, rank, ranking,
    Ranked};
use crate::text::{decimal, push_decimal, push_decimal_right, push_right, right_aligned};
use vstd::prelude::*;

verus! {

/// A throughput. Higher ones rank first.
pub struct Rate {
    pub per_second: Float,
}

impl Ranked for Rate {
    open spec fn leads(self, other: Rate) -> bool {
        at_most(other.per_second@, self.per_second@)
    }

    proof fn lemma_leads_total(a: Rate, b: Rate) {
    }

    proof fn lemma_leads_transitive(a: Rate, b: Rate, c: Rate) {
        lemma_at_most_transitive(c.per_second@, b.per_second@, a.per_second@);
    }

    fn may_lead(&self, other: &Rate) -> (ok: bool) {
        is_at_most(other.per_second, self.per_second)
    }
}

/// The throughput of a tree.
pub open spec fn rate_of(r: PcdReport) -> Rate {
    let f = r.data_rate();
    Rate { per_second: Float { mant: f.mant as u64, exp: f.exp as i32 } }
}

/// The throughputs of a row of trees.
pub open spec fn rates_of(reports: Seq<PcdReport>) -> Seq<Rate> {
    reports.map_values(|r: PcdReport| rate_of(r))
}

/// What the total is divided by for the average per node: the number of nodes,
/// at least one, with the bits past the 32nd dropped.
pub open spec fn node_divisor(n: nat) -> nat {
    divisor(
        if n == 0 {
            1
        } else {
            n
        },
    )
}

/// The total time of the proofs, and their average, can be told.
pub open spec fn comparable(r: PcdReport) -> bool {
    &&& total_nanos(prove_times(r.nodes@)) <= MAX_NANOS
    &&& node_divisor(r.nodes@.len()) != 0
}

/// The line on a tree.
#[verifier::opaque]
pub open spec fn arity_line(r: PcdReport, best: Dyadic) -> Seq<char> {
    let f = r.data_rate();
    "    arity "@ + right_aligned(decimal(r.arity as nat), 2) + ": "@ + right_aligned(
        bytes_text(whole_bytes(f)),
        10,
    ) + "/s  ("@ + quotient_text(f, best) + "x)  ["@ + bytes_text(r.data_bytes as nat) + " over "@
        + decimal(r.nodes@.len()) + " nodes, avg "@ + duration_text(
        total_nanos(prove_times(r.nodes@)) / node_divisor(r.nodes@.len()),
    ) + " per node]\n"@
}

/// The first `n` lines, best first.
pub open spec fn arity_lines(reports: Seq<PcdReport>, n: nat) -> Seq<char>
    decreases n,
{
    if n == 0 {
        Seq::empty()
    } else {
        let order = ranking(rates_of(reports), reports.len());
        arity_lines(reports, (n - 1) as nat) + arity_line(
            reports[order[n - 1]],
            reports[order[0]].data_rate(),
        )
    }
}

/// The comparison; nothing for fewer than two trees.
pub open spec fn arity_comparison_text(reports: Seq<PcdReport>) -> Seq<char> {
    if reports.len() < 2 {
        ""@
    } else {
        "\n--- arity head-to-head (data throughput, best first) ---\n"@ + arity_lines(
            reports,
            reports.len(),
        )
    }
}

/// The average time per node.
fn node_average(r: &PcdReport) -> (d: Duration)
    requires
        comparable(*r),
    ensures
        d.nanos == total_nanos(prove_times(r.nodes@)) / node_divisor(r.nodes@.len()),
        d.wf(),
{
    let n: usize = if r.nodes.len() == 0 {
        1
    } else {
        r.nodes.len()
    };
    let total = r.total_prove_time();
    let d = total.divided_by(low_bits(n));
    assert(d.nanos <= total.nanos) by (nonlinear_arith)
        requires
            d.nanos == total.nanos as nat / divisor(n as nat),
            divisor(n as nat) > 0,
    ;
    d
}

fn show_arity(r: &PcdReport, best: Float) -> (text: String)
    requires
        comparable(*r),
        best@.wf(),
        -200 <= best.exp <= 60,
        at_most(r.data_rate(), best@),
    ensures
        text@ == arity_line(*r, best@),
{
    let f = r.throughput_bps();
    proof {
        reveal(arity_line);
        if f.mant > 0 && best.mant > 0 {
            lemma_at_most_exponents(f@, best@);
        }
    }
    let mut text = "    arity ".to_owned();
    push_decimal_right(&mut text, r.arity as u128, 2);
    text.push_str(": ");
    push_right(&mut text, fmt_bytes(to_whole_bytes(f)).as_str(), 10);
    text.push_str("/s  (");
    push_quotient(&mut text, f, best);
    text.push_str("x)  [");
    text.push_str(fmt_bytes(r.data_bytes).as_str());
    text.push_str(" over ");
    push_decimal(&mut text, r.nodes.len() as u128);
    text.push_str(" nodes, avg ");
    text.push_str(fmt_duration(node_average(r)).as_str());
    text.push_str(" per node]\n");
    text
}

fn rates(reports: &[PcdReport]) -> (keys: Vec<Rate>)
    requires
        forall|i: int| 0 <= i < reports@.len() ==> comparable(#[trigger] reports@[i]),
    ensures
        keys@ == rates_of(reports@),
        forall|i: int|
            0 <= i < keys@.len() ==> {
                let f = (#[trigger] keys@[i]).per_second;
                f@ == reports@[i].data_rate() && f@.wf() && -200 <= f.exp <= 60
            },
{
    let mut keys: Vec<Rate> = Vec::with_capacity(reports.len());
    for i in 0..reports.len()
        invariant
            forall|k: int| 0 <= k < reports@.len() ==> comparable(#[trigger] reports@[k]),
            keys@ == rates_of(reports@).take(i as int),
            forall|k: int|
                0 <= k < i ==> {
                    let f = (#[trigger] keys@[k]).per_second;
                    f@ == reports@[k].data_rate() && f@.wf() && -200 <= f.exp <= 60
                },
    {
        let f = reports[i].throughput_bps();
        keys.push(Rate { per_second: f });
        assert(keys@ =~= rates_of(reports@).take(i + 1));
    }
    assert(keys@ =~= rates_of(reports@));
    keys
}

/// No tree has a higher throughput than the one that ranks first.
proof fn lemma_first_is_best(reports: Seq<PcdReport>, keys: Seq<Rate>, order: Seq<int>)
    requires
        keys == rates_of(reports),
        is_permutation(order, reports.len()),
        is_ranked(order, keys),
        reports.len() > 0,
        forall|k: int|
            0 <= k < keys.len() ==> (#[trigger] keys[k]).per_second@ == reports[k].data_rate(),
    ensures
        forall|k: int|
            0 <= k < order.len() ==> at_most(
                reports[#[trigger] order[k]].data_rate(),
                reports[order[0]].data_rate(),
            ),
{
    assert forall|k: int| 0 <= k < order.len() implies at_most(
        reports[#[trigger] order[k]].data_rate(),
        reports[order[0]].data_rate(),
    ) by {
        let (first, this) = (order[0], order[k]);
        if k > 0 {
            assert(keys[first].leads(keys[this]));
        }
        assert(keys[first].per_second@ == reports[first].data_rate());
        assert(keys[this].per_second@ == reports[this].data_rate());
    }
}

/// The comparison of trees of several arities, best throughput first; nothing
/// for fewer than two.
pub fn print_arity_comparison(reports: &[PcdReport]) -> (text: String)
    requires
        forall|i: int| 0 <= i < reports@.len() ==> comparable(#[trigger] reports@[i]),
    ensures
        text@ == arity_comparison_text(reports@),
{
    if reports.len() < 2 {
        return "".to_owned();
    }
    let keys = rates(reports);
    let order = rank(&keys);
    let ghost ints = ranking(rates_of(reports@), reports@.len());
    proof {
        lemma_ranking_is_stable(keys@, keys@.len());
        lemma_first_is_best(reports@, keys@, ints);
        assert(as_ints(order@)[0] == order@[0]);
    }
    let best = keys[order[0]].per_second;
    let mut lines = String::new();
    for i in 0..order.len()
        invariant
            ints == ranking(rates_of(reports@), reports@.len()),
            as_ints(order@) == ints,
            order@.len() == reports@.len(),
            order@.len() > 0,
            forall|k: int| 0 <= k < order@.len() ==> #[trigger] order@[k] < reports@.len(),
            forall|k: int| 0 <= k < reports@.len() ==> comparable(#[trigger] reports@[k]),
            forall|k: int|
                0 <= k < ints.len() ==> at_most(
                    reports@[#[trigger] ints[k]].data_rate(),
                    best@,
                ),
            best@ == reports@[ints[0]].data_rate(),
            best@.wf(),
            -200 <= best.exp <= 60,
            lines@ == arity_lines(reports@, i as nat),
    {
        assert(as_ints(order@)[i as int] == order@[i as int]);
        assert(at_most(reports@[ints[i as int]].data_rate(), best@));
        lines.push_str(show_arity(&reports[order[i]], best).as_str());
    }
    let mut text = "\n--- arity head-to-head (data throughput, best first) ---\n".to_owned();
    text.push_str(lines.as_str());
    text
}

/// The trees are listed by their throughput, the largest first, each of them
/// once.
pub proof fn lemma_largest_rate_first(reports: Seq<PcdReport>, a: int, b: int)
    requires
        0 <= a < b < reports.len(),
    ensures
        is_permutation(ranking(rates_of(reports), reports.len()), reports.len()),
        ({
            let order = ranking(rates_of(reports), reports.len());
            let ahead = rate_of(reports[order[a]]).per_second@;
            let behind = rate_of(reports[order[b]]).per_second@;
            behind.num() * ahead.den() <= ahead.num() * behind.den()
        }),
{
    let rates = rates_of(reports);
    let order = ranking(rates, reports.len());
    lemma_ranking_is_stable(rates, reports.len());
    assert(rates[order[a]].leads(rates[order[b]]));
}

/// The average per node is the total over the number of nodes, of which there is at
/// least one.
pub proof fn lemma_node_divisor(n: nat)
    requires
        n < 0x1_0000_0000,
    ensures
        node_divisor(n) >= 1,
        n > 0 ==> node_divisor(n) == n,
        n == 0 ==> node_divisor(n) == 1,
{
}

} // verus!
