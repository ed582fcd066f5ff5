//! What every benchmark run shares: heap accounting, durations and the report
//! of an IVC run.

use vstd::arithmetic::div_mod::lemma_small_mod;
use vstd::prelude::*;

pub use crate::comparative::print_comparative_report;
pub use crate::format::{fmt_bytes, fmt_duration};

verus! {

/// Counts live heap bytes and their high-water mark.
#[derive(Clone, Copy, Debug, PartialEq, Eq, Structural)]
pub struct PeakAllocator {
    pub current: usize,
    pub peak: usize,
}

/// What `bytes` live bytes become when `freed` bytes are given back; the
/// counter wraps.
pub open spec fn freed_from(bytes: usize, freed: usize) -> int {
    if freed <= bytes {
        bytes - freed
    } else {
        bytes - freed + usize::MAX + 1
    }
}

/// Giving bytes back takes them off the live ones; where more are given back than
/// are live, the counter goes on from its largest value.
pub proof fn lemma_freed(bytes: usize, freed: usize)
    ensures
        0 <= freed_from(bytes, freed) <= usize::MAX,
        freed <= bytes ==> freed_from(bytes, freed) + freed == bytes,
        freed > bytes ==> freed_from(bytes, freed) + freed == bytes + (usize::MAX + 1),
{
}

impl PeakAllocator {
    pub fn new() -> (a: Self)
        ensures
            a.current == 0,
            a.peak == 0,
    {
        PeakAllocator { current: 0, peak: 0 }
    }

    /// Live heap bytes right now.
    pub fn current(&self) -> (bytes: usize)
        ensures
            bytes == self.current,
    {
        self.current
    }

    /// Peak live heap bytes since the last [`PeakAllocator::reset_peak`].
    pub fn peak(&self) -> (bytes: usize)
        ensures
            bytes == self.peak,
    {
        self.peak
    }

    /// Resets the peak to the current live size, so that the next phase
    /// measures its own high-water mark.
    pub fn reset_peak(&mut self)
        ensures
            final(self).current == old(self).current,
            final(self).peak == old(self).current,
    {
        self.peak = self.current;
    }

    fn add(&mut self, bytes: usize)
        requires
            old(self).current + bytes <= usize::MAX,
        ensures
            final(self).current == old(self).current + bytes,
            final(self).peak == (if old(self).peak < final(self).current {
                final(self).current
            } else {
                old(self).peak
            }),
    {
        self.current = self.current + bytes;
        if self.peak < self.current {
            self.peak = self.current;
        }
    }

    fn sub(&mut self, bytes: usize)
        ensures
            final(self).current == freed_from(old(self).current, bytes),
            final(self).peak == old(self).peak,
    {
        self.current = self.current.wrapping_sub(bytes);
    }

    /// Accounts for an allocation; a failed one counts nothing.
    pub fn on_alloc(&mut self, succeeded: bool, size: usize)
        requires
            succeeded ==> old(self).current + size <= usize::MAX,
        ensures
            !succeeded ==> *final(self) == *old(self),
            succeeded ==> *final(self) == after_alloc(*old(self), size as nat),
    {
        if succeeded {
            self.add(size);
        }
    }

    /// Accounts for a deallocation.
    pub fn on_dealloc(&mut self, size: usize)
        ensures
            final(self).current == freed_from(old(self).current, size),
            final(self).peak == old(self).peak,
            size <= old(self).current ==> *final(self) == after_dealloc(*old(self), size as nat),
    {
        self.sub(size);
    }

    /// Accounts for a reallocation: the old block is given back before the new
    /// one is counted, so that the peak never holds both.
    pub fn on_realloc(&mut self, succeeded: bool, old_size: usize, new_size: usize)
        requires
            succeeded ==> freed_from(old(self).current, old_size) + new_size <= usize::MAX,
        ensures
            !succeeded ==> *final(self) == *old(self),
            succeeded ==> {
                &&& final(self).current == freed_from(old(self).current, old_size) + new_size
                &&& final(self).peak == (if old(self).peak < final(self).current {
                    final(self).current
                } else {
                    old(self).peak
                })
            },
            succeeded && old_size <= old(self).current ==> *final(self) == after_alloc(
                after_dealloc(*old(self), old_size as nat),
                new_size as nat,
            ),
    {
        if succeeded {
            self.sub(old_size);
            self.add(new_size);
        }
    }
}

/// The accounts after an allocation.
pub open spec fn after_alloc(a: PeakAllocator, size: nat) -> PeakAllocator {
    let current = (a.current + size) as usize;
    PeakAllocator {
        current,
        peak: if a.peak < current {
            current
        } else {
            a.peak
        },
    }
}

/// The accounts after a deallocation.
pub open spec fn after_dealloc(a: PeakAllocator, size: nat) -> PeakAllocator {
    PeakAllocator { current: (a.current - size) as usize, peak: a.peak }
}

/// The accounts after a row of changes to the live bytes, positive ones for
/// allocations.
pub open spec fn after_changes(a: PeakAllocator, changes: Seq<int>) -> PeakAllocator
    decreases changes.len(),
{
    if changes.len() == 0 {
        a
    } else {
        let before = after_changes(a, changes.drop_last());
        if changes.last() >= 0 {
            after_alloc(before, changes.last() as nat)
        } else {
            after_dealloc(before, (-changes.last()) as nat)
        }
    }
}

/// Live bytes after a row of changes.
pub open spec fn live_after(start: int, changes: Seq<int>) -> int
    decreases changes.len(),
{
    if changes.len() == 0 {
        start
    } else {
        live_after(start, changes.drop_last()) + changes.last()
    }
}

/// The peak is the most that was live at any time since the last reset.
pub proof fn lemma_peak_is_maximum(a: PeakAllocator, changes: Seq<int>)
    requires
        a.peak == a.current,
        forall|i: int|
            0 <= i <= changes.len() ==> 0 <= #[trigger] live_after(
                a.current as int,
                changes.take(i),
            ) <= usize::MAX,
    ensures
        after_changes(a, changes).current == live_after(a.current as int, changes),
        forall|i: int|
            0 <= i <= changes.len() ==> #[trigger] live_after(a.current as int, changes.take(i))
                <= after_changes(a, changes).peak,
        exists|i: int|
            0 <= i <= changes.len() && #[trigger] live_after(a.current as int, changes.take(i))
                == after_changes(a, changes).peak,
    decreases changes.len(),
{
    let start = a.current as int;
    let all = changes.len() as int;
    assert(changes.take(all) =~= changes);
    assert(0 <= live_after(start, changes.take(all)) <= usize::MAX);
    if changes.len() > 0 {
        let shorter = changes.drop_last();
        assert forall|i: int| 0 <= i <= shorter.len() implies 0 <= #[trigger] live_after(
            start,
            shorter.take(i),
        ) <= usize::MAX by {
            assert(shorter.take(i) =~= changes.take(i));
        }
        lemma_peak_is_maximum(a, shorter);
        let before = after_changes(a, shorter);
        let now = after_changes(a, changes);
        assert(shorter.take(shorter.len() as int) =~= shorter);
        assert(live_after(start, shorter.take(shorter.len() as int)) <= before.peak);
        assert(now.current == live_after(start, changes));
        assert forall|i: int| 0 <= i <= changes.len() implies #[trigger] live_after(
            start,
            changes.take(i),
        ) <= now.peak by {
            if i < changes.len() {
                assert(shorter.take(i) =~= changes.take(i));
                assert(live_after(start, shorter.take(i)) <= before.peak);
            } else {
                assert(changes.take(i) =~= changes);
            }
        }
        if now.peak == before.peak {
            let i = choose|i: int|
                0 <= i <= shorter.len() && #[trigger] live_after(start, shorter.take(i))
                    == before.peak;
            assert(shorter.take(i) =~= changes.take(i));
            assert(live_after(start, changes.take(i)) == now.peak);
        } else {
            assert(live_after(start, changes.take(all)) == now.peak);
        }
    } else {
        assert(live_after(start, changes.take(0)) == after_changes(a, changes).peak);
    }
}

/// What a run records per-phase peak memory with. Without an allocator nothing
/// is measured.
#[derive(Clone, Copy, Debug)]
pub struct MemProbe(pub Option<PeakAllocator>);

impl MemProbe {
    /// The probe that measures nothing.
    pub fn none() -> (probe: MemProbe)
        ensures
            probe.0 is None,
    {
        MemProbe(None)
    }

    pub fn reset_peak(&mut self)
        ensures
            old(self).0 is None ==> final(self).0 is None,
            old(self).0 matches Some(a) ==> final(self).0 == Some(
                PeakAllocator { current: a.current, peak: a.current },
            ),
    {
        if let Some(a) = self.0 {
            let mut marked = a;
            marked.reset_peak();
            self.0 = Some(marked);
        }
    }

    pub fn peak(&self) -> (bytes: Option<usize>)
        ensures
            bytes == (match self.0 {
                Some(a) => Some(a.peak),
                None => None,
            }),
    {
        match &self.0 {
            Some(a) => Some(a.peak()),
            None => None,
        }
    }
}

/// Nanoseconds in a second.
pub const NANOS_PER_SEC: u128 = 1_000_000_000;

/// The longest duration, in nanoseconds: 64 bits of seconds.
pub const MAX_NANOS: u128 = 18_446_744_073_709_551_615_999_999_999;

/// A span of time.
#[derive(Clone, Copy, Debug, PartialEq, Eq, Structural)]
pub struct Duration {
    pub nanos: u128,
}

impl Duration {
    /// Not longer than the longest duration.
    pub open spec fn wf(self) -> bool {
        self.nanos <= MAX_NANOS
    }

    pub fn zero() -> (d: Duration)
        ensures
            d.nanos == 0,
    {
        Duration { nanos: 0 }
    }

    /// Whole seconds.
    pub fn as_secs(&self) -> (secs: u64)
        requires
            self.wf(),
        ensures
            secs == self.nanos / NANOS_PER_SEC,
    {
        (self.nanos / NANOS_PER_SEC) as u64
    }

    /// Nanoseconds past the whole seconds.
    pub fn subsec_nanos(&self) -> (nanos: u32)
        ensures
            nanos == self.nanos % NANOS_PER_SEC,
    {
        (self.nanos % NANOS_PER_SEC) as u32
    }

    /// The sum of two spans.
    pub fn plus(self, other: Duration) -> (d: Duration)
        requires
            self.nanos + other.nanos <= MAX_NANOS,
        ensures
            d.nanos == self.nanos + other.nanos,
    {
        Duration { nanos: self.nanos + other.nanos }
    }

    /// The span divided into `n` parts, in whole nanoseconds.
    pub fn divided_by(self, n: u32) -> (d: Duration)
        requires
            n > 0,
        ensures
            d.nanos == self.nanos as nat / n as nat,
    {
        Duration { nanos: self.nanos / n as u128 }
    }
}

/// Total of a row of spans, in nanoseconds.
pub open spec fn total_nanos(times: Seq<Duration>) -> nat
    decreases times.len(),
{
    if times.len() == 0 {
        0
    } else {
        total_nanos(times.drop_last()) + times.last().nanos as nat
    }
}

/// A shorter row has no larger total.
pub proof fn lemma_total_prefix(times: Seq<Duration>, n: int)
    requires
        0 <= n <= times.len(),
    ensures
        total_nanos(times.take(n)) <= total_nanos(times),
    decreases times.len(),
{
    if n == times.len() {
        assert(times.take(n) =~= times);
    } else {
        lemma_total_prefix(times.drop_last(), n);
        assert(times.drop_last().take(n) =~= times.take(n));
    }
}

/// The total of a row is that of its parts together, and that of a single span is
/// the span.
pub proof fn lemma_total_adds(a: Seq<Duration>, b: Seq<Duration>)
    ensures
        total_nanos(a + b) == total_nanos(a) + total_nanos(b),
        b.len() == 0 ==> total_nanos(b) == 0,
        b.len() == 1 ==> total_nanos(b) == b[0].nanos,
    decreases b.len(),
{
    if b.len() == 0 {
        assert(a + b =~= a);
    } else {
        lemma_total_adds(a, b.drop_last());
        assert((a + b).drop_last() =~= a + b.drop_last());
        if b.len() == 1 {
            assert(total_nanos(b.drop_last()) == 0);
        }
    }
}

/// The sum of a row of spans.
pub fn sum_durations(times: &[Duration]) -> (total: Duration)
    requires
        total_nanos(times@) <= MAX_NANOS,
    ensures
        total.nanos == total_nanos(times@),
{
    let mut total = Duration::zero();
    for i in 0..times.len()
        invariant
            total_nanos(times@) <= MAX_NANOS,
            total.nanos == total_nanos(times@.take(i as int)),
    {
        proof {
            assert(times@.take(i + 1).drop_last() =~= times@.take(i as int));
            lemma_total_prefix(times@, i + 1);
        }
        total = total.plus(times[i]);
    }
    assert(times@.take(times@.len() as int) =~= times@);
    total
}

/// `d` is in the row and no span of the row is shorter.
pub open spec fn is_shortest(d: Duration, times: Seq<Duration>) -> bool {
    times.contains(d) && forall|i: int| 0 <= i < times.len() ==> d.nanos <= #[trigger] times[i].nanos
}

/// `d` is in the row and no span of the row is longer.
pub open spec fn is_longest(d: Duration, times: Seq<Duration>) -> bool {
    times.contains(d) && forall|i: int| 0 <= i < times.len() ==> #[trigger] times[i].nanos <= d.nanos
}

/// The shortest span of a row, in nanoseconds; zero for an empty row.
pub open spec fn min_nanos(times: Seq<Duration>) -> nat
    decreases times.len(),
{
    if times.len() == 0 {
        0
    } else if times.len() == 1 || times.last().nanos < min_nanos(times.drop_last()) {
        times.last().nanos as nat
    } else {
        min_nanos(times.drop_last())
    }
}

/// The longest span of a row, in nanoseconds; zero for an empty row.
pub open spec fn max_nanos(times: Seq<Duration>) -> nat
    decreases times.len(),
{
    if times.len() == 0 {
        0
    } else if times.last().nanos > max_nanos(times.drop_last()) {
        times.last().nanos as nat
    } else {
        max_nanos(times.drop_last())
    }
}

/// The bounds of a row are bounds, and are reached.
pub proof fn lemma_min_max_nanos(times: Seq<Duration>)
    requires
        times.len() > 0,
    ensures
        times.contains(Duration { nanos: min_nanos(times) as u128 }),
        times.contains(Duration { nanos: max_nanos(times) as u128 }),
        forall|i: int|
            0 <= i < times.len() ==> min_nanos(times) <= #[trigger] times[i].nanos <= max_nanos(
                times,
            ),
        min_nanos(times) <= max_nanos(times) <= total_nanos(times),
        max_nanos(times) <= u128::MAX,
    decreases times.len(),
{
    let shorter = times.drop_last();
    assert(times[times.len() - 1] == times.last());
    if times.len() > 1 {
        lemma_min_max_nanos(shorter);
        let low = Duration { nanos: min_nanos(shorter) as u128 };
        let high = Duration { nanos: max_nanos(shorter) as u128 };
        let i = choose|i: int| 0 <= i < shorter.len() && shorter[i] == low;
        let j = choose|j: int| 0 <= j < shorter.len() && shorter[j] == high;
        assert(times[i] == low);
        assert(times[j] == high);
        assert forall|k: int| 0 <= k < times.len() implies min_nanos(times)
            <= #[trigger] times[k].nanos <= max_nanos(times) by {
            if k < shorter.len() {
                assert(shorter[k] == times[k]);
            }
        }
    }
}

proof fn lemma_shortest_is_min(d: Duration, times: Seq<Duration>)
    requires
        is_shortest(d, times),
    ensures
        d.nanos == min_nanos(times),
{
    lemma_min_max_nanos(times);
    let low = Duration { nanos: min_nanos(times) as u128 };
    let i = choose|i: int| 0 <= i < times.len() && times[i] == d;
    let j = choose|j: int| 0 <= j < times.len() && times[j] == low;
    assert(times[i].nanos == d.nanos && times[j].nanos == low.nanos);
}

proof fn lemma_longest_is_max(d: Duration, times: Seq<Duration>)
    requires
        is_longest(d, times),
    ensures
        d.nanos == max_nanos(times),
{
    lemma_min_max_nanos(times);
    let high = Duration { nanos: max_nanos(times) as u128 };
    let i = choose|i: int| 0 <= i < times.len() && times[i] == d;
    let j = choose|j: int| 0 <= j < times.len() && times[j] == high;
    assert(times[i].nanos == d.nanos && times[j].nanos == high.nanos);
}

/// The shortest span of a row; zero for an empty row.
pub fn min_duration(times: &[Duration]) -> (d: Duration)
    ensures
        times@.len() > 0 ==> is_shortest(d, times@),
        d.nanos == min_nanos(times@),
{
    if times.len() == 0 {
        return Duration::zero();
    }
    let mut best = times[0];
    for i in 1..times.len()
        invariant
            times@.len() > 0,
            times@.contains(best),
            forall|k: int| 0 <= k < i ==> best.nanos <= #[trigger] times@[k].nanos,
    {
        if times[i].nanos < best.nanos {
            best = times[i];
            assert(times@[i as int] == best);
        }
    }
    proof {
        lemma_shortest_is_min(best, times@);
    }
    best
}

/// The longest span of a row; zero for an empty row.
pub fn max_duration(times: &[Duration]) -> (d: Duration)
    ensures
        times@.len() > 0 ==> is_longest(d, times@),
        d.nanos == max_nanos(times@),
{
    if times.len() == 0 {
        return Duration::zero();
    }
    let mut best = times[0];
    for i in 1..times.len()
        invariant
            times@.len() > 0,
            times@.contains(best),
            forall|k: int| 0 <= k < i ==> #[trigger] times@[k].nanos <= best.nanos,
    {
        if times[i].nanos > best.nanos {
            best = times[i];
            assert(times@[i as int] == best);
        }
    }
    proof {
        lemma_longest_is_max(best, times@);
    }
    best
}

/// The 32-bit number that a row's total is divided by: its length, with the
/// bits past the 32nd dropped.
pub open spec fn divisor(n: nat) -> nat {
    n % 0x1_0000_0000
}

/// A number below `2^32` divides as it is; a larger one loses a multiple of
/// `2^32`.
pub proof fn lemma_divisor(n: nat)
    ensures
        n < 0x1_0000_0000 ==> divisor(n) == n,
        divisor(n) < 0x1_0000_0000,
        (n - divisor(n)) % 0x1_0000_0000 == 0,
{
}

/// Average of a row of spans, in whole nanoseconds; zero for an empty row.
pub open spec fn average_nanos(times: Seq<Duration>) -> nat {
    if times.len() == 0 {
        0
    } else {
        total_nanos(times) / divisor(times.len())
    }
}

/// The spans of a row have a total and an average.
pub open spec fn averageable(times: Seq<Duration>) -> bool {
    &&& total_nanos(times) <= MAX_NANOS
    &&& times.len() == 0 || divisor(times.len()) != 0
}

proof fn lemma_low_bits(n: u64)
    ensures
        n as u32 == n % 0x1_0000_0000,
{
    assert(n as u32 == n % 0x1_0000_0000) by (bit_vector);
}

/// A row's total lies between its length times its bounds.
proof fn lemma_total_between(times: Seq<Duration>)
    requires
        times.len() > 0,
    ensures
        times.len() * min_nanos(times) <= total_nanos(times) <= times.len() * max_nanos(times),
    decreases times.len(),
{
    let shorter = times.drop_last();
    let (n, m) = (times.len(), shorter.len());
    let (low, high) = (min_nanos(times), max_nanos(times));
    if m > 0 {
        lemma_total_between(shorter);
        lemma_min_max_nanos(times);
        assert(times[n - 1] == times.last());
        assert(low <= times.last().nanos <= high);
        assert(m * low <= m * min_nanos(shorter) && m * max_nanos(shorter) <= m * high)
            by (nonlinear_arith)
            requires
                low <= min_nanos(shorter),
                max_nanos(shorter) <= high,
                m >= 0,
        ;
        assert(n * low == m * low + low && n * high == m * high + high) by (nonlinear_arith)
            requires
                n == m + 1,
        ;
    } else {
        assert(total_nanos(shorter) == 0);
        assert(max_nanos(shorter) == 0);
        assert(1 * low == low && 1 * high == high);
    }
}

/// The average of a row lies between its shortest and its longest span.
pub proof fn lemma_average_between(times: Seq<Duration>)
    requires
        0 < times.len() < 0x1_0000_0000,
    ensures
        min_nanos(times) <= average_nanos(times) <= max_nanos(times),
{
    lemma_total_between(times);
    lemma_small_mod(times.len(), 0x1_0000_0000);
    let (n, t) = (times.len(), total_nanos(times));
    let (low, high) = (min_nanos(times), max_nanos(times));
    assert(low <= t / n <= high) by (nonlinear_arith)
        requires
            n * low <= t <= n * high,
            n > 0,
    ;
}

/// As many times the average as there are spans come to the total, but for less
/// than one nanosecond a span; an empty row has average zero.
pub proof fn lemma_average(times: Seq<Duration>)
    requires
        times.len() < 0x1_0000_0000,
    ensures
        times.len() == 0 ==> average_nanos(times) == 0,
        times.len() > 0 ==> times.len() * average_nanos(times) <= total_nanos(times) < times.len()
            * (average_nanos(times) + 1),
{
    if times.len() > 0 {
        lemma_small_mod(times.len(), 0x1_0000_0000);
        let (n, t) = (times.len(), total_nanos(times));
        assert(n * (t / n) <= t && t < n * (t / n + 1)) by (nonlinear_arith)
            requires
                n > 0,
        ;
    }
}

/// A number with the bits past the 32nd dropped.
pub fn low_bits(n: usize) -> (low: u32)
    ensures
        low == divisor(n as nat),
{
    let wide = n as u64;
    proof {
        lemma_low_bits(wide);
    }
    #[verifier::truncate]
    (wide as u32)
}

/// The average of a row of spans; zero for an empty row.
pub fn avg_duration(times: &[Duration]) -> (d: Duration)
    requires
        averageable(times@),
    ensures
        d.nanos == average_nanos(times@),
{
    if times.len() == 0 {
        Duration::zero()
    } else {
        sum_durations(times).divided_by(low_bits(times.len()))
    }
}

/// Timing and memory report of one IVC run.
#[derive(Clone, Debug)]
pub struct IvcReport {
    /// Human-readable backend label.
    pub backend: String,
    /// Field and curve configuration.
    pub config: String,
    /// One-time cryptographic setup: parameters, keys and base circuit.
    pub setup_time: Duration,
    /// Peak heap during setup, if measured.
    pub setup_peak_mem: Option<usize>,
    /// Proving time of each step.
    pub step_times: Vec<Duration>,
    /// Peak heap during the stepping loop, if measured.
    pub steps_peak_mem: Option<usize>,
    /// Compression into the final proof, where there is one.
    pub finalize_time: Option<Duration>,
    /// Peak heap during compression, if measured.
    pub finalize_peak_mem: Option<usize>,
    /// Time spent verifying the final proof.
    pub verify_time: Option<Duration>,
}

impl IvcReport {
    /// The step times have a total and an average.
    pub open spec fn wf(self) -> bool {
        averageable(self.step_times@)
    }

    pub fn n_steps(&self) -> (n: usize)
        ensures
            n == self.step_times@.len(),
    {
        self.step_times.len()
    }

    pub fn total_step_time(&self) -> (d: Duration)
        requires
            total_nanos(self.step_times@) <= MAX_NANOS,
        ensures
            d.nanos == total_nanos(self.step_times@),
    {
        sum_durations(self.step_times.as_slice())
    }

    pub fn avg_step_time(&self) -> (d: Duration)
        requires
            self.wf(),
        ensures
            d.nanos == average_nanos(self.step_times@),
    {
        avg_duration(self.step_times.as_slice())
    }

    pub fn min_step_time(&self) -> (d: Duration)
        ensures
            d.nanos == min_nanos(self.step_times@),
    {
        min_duration(self.step_times.as_slice())
    }

    pub fn max_step_time(&self) -> (d: Duration)
        ensures
            d.nanos == max_nanos(self.step_times@),
    {
        max_duration(self.step_times.as_slice())
    }
}

} // verus!
