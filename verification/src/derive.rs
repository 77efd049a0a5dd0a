//! Derived metrics from raw signals: pure functions, no state.
use vstd::arithmetic::div_mod::lemma_fundamental_div_mod;
use vstd::prelude::*;

use crate::accuracy::{
    is_near, lemma_integer_near, lemma_minus_near, lemma_over_near, lemma_plus_near,
    lemma_times_near,
};
use crate::binary64::{integer, lemma_share_at_most_one, minus, Binary64};
use crate::gpu::EnergySource;
use crate::kvcache::{KvCacheSample, KvCacheTimeline};
use crate::metrics::{
    EfficiencyMetrics, KvCacheMetrics, LatencyDistribution, PhaseEnergyMetrics, ResourceMetrics,
    TimingMetrics,
};
use crate::phase::{PhaseSample, PhaseTimeline};
use crate::resource::{ResourceSample, ResourceTimeline};
use crate::stats::{
    greatest, law_mean_spreads_the_total, law_percentile_divides_the_values, least, lemma_extremes,
    lemma_percentile_index, lemma_sorted, mean, percentile_index, percentile_nearest_rank, sort,
    sorted, total,
};
use crate::timing::{RequestTiming, TokenArrival};
use crate::trajectory::{
    breaks, has_kv_regression, kv_regresses, lemma_kv_ascending, phase_regresses,
};

verus! {

/// What kept a report from being derived.
#[derive(Debug, Clone, Copy, PartialEq, Eq, Structural)]
pub enum ReportError {
    /// The clock tick rate is unknown, so jiffies cannot become seconds.
    UnknownClockTick,
}

impl ReportError {
    /// The error in words.
    pub fn message(self) -> (text: &'static str)
        ensures
            text@ == "could not determine system clock tick rate (_SC_CLK_TCK)"@,
    {
        "could not determine system clock tick rate (_SC_CLK_TCK)"
    }
}

// ---------------------------------------------------------------------------
// Timing.
// ---------------------------------------------------------------------------

/// Whether tokens arrived in order of time.
pub open spec fn arrivals_in_order(tokens: Seq<TokenArrival>) -> bool {
    forall|i: int, j: int|
        0 <= i <= j < tokens.len() ==> (#[trigger] tokens[i]).elapsed_ns <= (
        #[trigger] tokens[j]).elapsed_ns
}

/// Whether tokens arrived in order of time.
pub fn are_arrivals_in_order(timing: &RequestTiming) -> (r: bool)
    ensures
        r == arrivals_in_order(timing.tokens@),
{
    let mut i: usize = 1;
    while i < timing.tokens.len()
        invariant
            1 <= i,
            i <= timing.tokens@.len() || timing.tokens@.len() == 0,
            forall|a: int, b: int|
                0 <= a <= b < i && b < timing.tokens@.len() ==> (
                #[trigger] timing.tokens@[a]).elapsed_ns <= (
                #[trigger] timing.tokens@[b]).elapsed_ns,
        decreases timing.tokens@.len() - i,
    {
        if timing.tokens[i].elapsed_ns < timing.tokens[i - 1].elapsed_ns {
            assert(timing.tokens@[i - 1].elapsed_ns > timing.tokens@[i as int].elapsed_ns);
            return false;
        }
        assert forall|a: int, b: int| 0 <= a <= b < i + 1 && b < timing.tokens@.len() implies (
        #[trigger] timing.tokens@[a]).elapsed_ns <= (#[trigger] timing.tokens@[b]).elapsed_ns by {
            if b == i && a < i {
                assert(timing.tokens@[a].elapsed_ns <= timing.tokens@[i - 1].elapsed_ns);
            }
        }
        i += 1;
    }
    true
}

/// The intervals between consecutive tokens, in nanoseconds.
pub open spec fn intervals(tokens: Seq<TokenArrival>) -> Seq<u64> {
    Seq::new(
        (tokens.len() - 1) as nat,
        |i: int| (tokens[i + 1].elapsed_ns - tokens[i].elapsed_ns) as u64,
    )
}

/// Nanoseconds from the first to the last token.
pub open spec fn span_ns(tokens: Seq<TokenArrival>) -> nat {
    (tokens.last().elapsed_ns - tokens[0].elapsed_ns) as nat
}

/// Whether `d` summarizes the intervals `s`.
pub open spec fn summarizes(d: LatencyDistribution, s: Seq<u64>) -> bool {
    let n = s.len();
    &&& d.count == n as u32
    &&& d.mean_ns == interval_sum(s) / n
    &&& d.p50_ns == sorted(s)[percentile_index(n, 50)]
    &&& d.p95_ns == sorted(s)[percentile_index(n, 95)]
    &&& d.p99_ns == sorted(s)[percentile_index(n, 99)]
    &&& d.max_ns == sorted(s)[n - 1]
}

/// The sum of intervals.
pub open spec fn interval_sum(s: Seq<u64>) -> nat
    decreases s.len(),
{
    if s.len() == 0 {
        0
    } else {
        interval_sum(s.drop_last()) + s.last() as nat
    }
}

/// The intervals of a request add up to its span.
pub proof fn lemma_intervals_sum(tokens: Seq<TokenArrival>)
    requires
        arrivals_in_order(tokens),
        tokens.len() >= 1,
    ensures
        interval_sum(intervals(tokens)) == span_ns(tokens),
    decreases tokens.len(),
{
    if tokens.len() > 1 {
        let rest = tokens.drop_last();
        assert(arrivals_in_order(rest)) by {
            assert forall|i: int, j: int| 0 <= i <= j < rest.len() implies (
            #[trigger] rest[i]).elapsed_ns <= (#[trigger] rest[j]).elapsed_ns by {
                assert(rest[i] == tokens[i] && rest[j] == tokens[j]);
            }
        }
        lemma_intervals_sum(rest);
        let all = intervals(tokens);
        assert(all.drop_last() =~= intervals(rest));
        let n = tokens.len() as int;
        assert(tokens[0].elapsed_ns <= tokens[n - 2].elapsed_ns);
        assert(tokens[n - 2].elapsed_ns <= tokens[n - 1].elapsed_ns);
        assert(rest.last() == tokens[n - 2]);
        assert(all.last() == (tokens[n - 1].elapsed_ns - tokens[n - 2].elapsed_ns) as u64);
    } else {
        assert(intervals(tokens) =~= Seq::<u64>::empty());
    }
}

/// Whether `m` describes the timing of a request.
pub open spec fn describes_request(m: TimingMetrics, timing: RequestTiming) -> bool {
    let tokens = timing.tokens@;
    &&& m.token_count == tokens.len() as u32
    &&& m.total_latency_ns == timing.total_ns
    &&& m.ttft_ns == if tokens.len() > 0 {
        Some(tokens[0].elapsed_ns)
    } else {
        None
    }
    &&& m.tokens_per_second == if tokens.len() >= 2 && span_ns(tokens) > 0 {
        Some(
            integer((tokens.len() - 1) as nat).over(
                integer(span_ns(tokens)).over(integer(1_000_000_000)),
            ),
        )
    } else {
        None
    }
    &&& m.inter_token_latency is Some <==> tokens.len() >= 2
    &&& m.inter_token_latency is Some ==> summarizes(m.inter_token_latency->0, intervals(tokens))
}

/// Derives the timing metrics of a request.
pub fn derive_timing(timing: &RequestTiming) -> (m: TimingMetrics)
    requires
        arrivals_in_order(timing.tokens@),
    ensures
        describes_request(m, *timing),
{
    let tokens: &Vec<TokenArrival> = &timing.tokens;
    let n: usize = tokens.len();
    let ttft_ns: Option<u64> = if n > 0 {
        Some(tokens[0].elapsed_ns)
    } else {
        None
    };
    if n < 2 {
        return TimingMetrics {
            token_count: n as u32,
            ttft_ns,
            total_latency_ns: timing.total_ns,
            tokens_per_second: None,
            inter_token_latency: None,
        };
    }
    assert(tokens@[0].elapsed_ns <= tokens@[n - 1].elapsed_ns);
    let span: u64 = tokens[n - 1].elapsed_ns - tokens[0].elapsed_ns;
    // The wait for the first token is no part of the generation rate.
    let tokens_per_second: Option<Binary64> = if span > 0 {
        let seconds: Binary64 = Binary64::from_u64(span).quotient(
            Binary64::from_u64(1_000_000_000),
        );
        Some(Binary64::from_u64((n - 1) as u64).quotient(seconds))
    } else {
        None
    };
    let mut deltas: Vec<u64> = Vec::new();
    let mut i: usize = 1;
    assert(deltas@ =~= intervals(tokens@.take(1)));
    while i < n
        invariant
            1 <= i <= n,
            n == tokens@.len(),
            n >= 2,
            arrivals_in_order(tokens@),
            deltas@ == intervals(tokens@).take(i - 1),
        decreases n - i,
    {
        assert(tokens@[i - 1].elapsed_ns <= tokens@[i as int].elapsed_ns);
        deltas.push(tokens[i].elapsed_ns - tokens[i - 1].elapsed_ns);
        i += 1;
        assert(intervals(tokens@).take(i - 1) =~= intervals(tokens@).take(i - 2).push(
            intervals(tokens@)[i - 2],
        ));
    }
    assert(intervals(tokens@).take(i - 1) =~= intervals(tokens@));
    let ordered: Vec<u64> = sort(&deltas);
    proof {
        lemma_sorted(deltas@);
        lemma_intervals_sum(tokens@);
        lemma_percentile_index(deltas@.len(), 50, 95);
        lemma_percentile_index(deltas@.len(), 95, 99);
    }
    let count: usize = deltas.len();
    let distribution: LatencyDistribution = LatencyDistribution {
        count: count as u32,
        mean_ns: span / count as u64,
        p50_ns: percentile_nearest_rank(ordered.as_slice(), 50),
        p95_ns: percentile_nearest_rank(ordered.as_slice(), 95),
        p99_ns: percentile_nearest_rank(ordered.as_slice(), 99),
        max_ns: ordered[count - 1],
    };
    TimingMetrics {
        token_count: n as u32,
        ttft_ns,
        total_latency_ns: timing.total_ns,
        tokens_per_second,
        inter_token_latency: Some(distribution),
    }
}

/// The percentiles of a distribution rise to its maximum, which its mean does
/// not exceed.
pub proof fn law_distribution_rises(d: LatencyDistribution, s: Seq<u64>)
    requires
        s.len() > 0,
        summarizes(d, s),
    ensures
        d.p50_ns <= d.p95_ns <= d.p99_ns <= d.max_ns,
        d.mean_ns <= d.max_ns,
        forall|i: int| 0 <= i < s.len() ==> #[trigger] s[i] <= d.max_ns,
{
    lemma_sorted(s);
    lemma_percentile_index(s.len(), 50, 95);
    lemma_percentile_index(s.len(), 95, 99);
    let all = sorted(s);
    assert forall|i: int| 0 <= i < s.len() implies #[trigger] s[i] <= d.max_ns by {
        broadcast use vstd::seq_lib::group_to_multiset_ensures;

        assert(s.contains(s[i]));
        assert(all.to_multiset().count(s[i]) > 0);
        let j = choose|j: int| 0 <= j < all.len() && all[j] == s[i];
        assert(all[j] <= all[all.len() - 1]);
    }
    lemma_sum_bounded(s, d.max_ns as nat);
    let sum = interval_sum(s);
    let n = s.len();
    assert(sum as int / n as int <= d.max_ns) by (nonlinear_arith)
        requires
            sum <= n * d.max_ns,
            n > 0,
    ;
}

proof fn lemma_sum_bounded(s: Seq<u64>, limit: nat)
    requires
        forall|i: int| 0 <= i < s.len() ==> #[trigger] s[i] <= limit,
    ensures
        interval_sum(s) <= s.len() * limit,
    decreases s.len(),
{
    if s.len() > 0 {
        assert(s[s.len() - 1] <= limit);
        assert forall|i: int| 0 <= i < s.drop_last().len() implies #[trigger] s.drop_last()[i]
            <= limit by {
            assert(s.drop_last()[i] == s[i]);
        }
        lemma_sum_bounded(s.drop_last(), limit);
        assert(s.len() * limit == (s.len() - 1) * limit + limit) by (nonlinear_arith);
    }
}

/// The arrivals of a request whose every token comes `by` nanoseconds later.
pub open spec fn delayed(tokens: Seq<TokenArrival>, by: nat) -> Seq<TokenArrival> {
    tokens.map_values(
        |t: TokenArrival|
            TokenArrival { index: t.index, elapsed_ns: (t.elapsed_ns + by) as u64 },
    )
}

/// The time to the first token enters neither the rate of a request nor the
/// distribution of its intervals: a request that starts to answer later has
/// the same, and a time to the first token that is longer by the delay.
pub proof fn law_rate_excludes_time_to_first_token(
    m: TimingMetrics,
    timing: RequestTiming,
    later: TimingMetrics,
    delayed_timing: RequestTiming,
    by: nat,
)
    requires
        forall|i: int|
            0 <= i < timing.tokens@.len() ==> (#[trigger] timing.tokens@[i]).elapsed_ns + by
                <= u64::MAX,
        delayed_timing.tokens@ == delayed(timing.tokens@, by),
        describes_request(m, timing),
        describes_request(later, delayed_timing),
    ensures
        m.tokens_per_second == later.tokens_per_second,
        m.inter_token_latency == later.inter_token_latency,
        match m.ttft_ns {
            Some(ns) => later.ttft_ns == Some((ns + by) as u64) && ns + by <= u64::MAX,
            None => later.ttft_ns is None,
        },
{
    let tokens = timing.tokens@;
    let after = delayed(tokens, by);
    if tokens.len() > 0 {
        assert(after[0].elapsed_ns == tokens[0].elapsed_ns + by);
    }
    if tokens.len() >= 2 {
        assert(after.last().elapsed_ns == tokens[tokens.len() - 1].elapsed_ns + by);
        assert forall|i: int| 0 <= i < tokens.len() - 1 implies #[trigger] intervals(after)[i]
            == intervals(tokens)[i] by {
            assert(after[i].elapsed_ns == tokens[i].elapsed_ns + by);
            assert(after[i + 1].elapsed_ns == tokens[i + 1].elapsed_ns + by);
        }
        assert(intervals(after) =~= intervals(tokens));
    }
}

/// The distribution is one of the gaps between neighbouring tokens: as many as
/// there are, their mean the span over their number, each percentile a gap that
/// divides them as its rank says, the maximum the longest of them.
pub proof fn law_distribution_is_of_the_gaps(m: TimingMetrics, timing: RequestTiming)
    requires
        arrivals_in_order(timing.tokens@),
        describes_request(m, timing),
        2 <= timing.tokens@.len() <= u32::MAX,
    ensures
        m.inter_token_latency is Some,
        ({
            let tokens = timing.tokens@;
            let d = m.inter_token_latency->0;
            let n = tokens.len() - 1;
            let gaps = Seq::new(
                n as nat,
                |i: int| (tokens[i + 1].elapsed_ns - tokens[i].elapsed_ns) as u64,
            );
            let span = tokens[n].elapsed_ns - tokens[0].elapsed_ns;
            &&& m.token_count == tokens.len()
            &&& m.ttft_ns == Some(tokens[0].elapsed_ns)
            &&& m.total_latency_ns == timing.total_ns
            &&& d.count == n
            &&& d.mean_ns * n <= span < (d.mean_ns + 1) * n
            &&& gaps.contains(d.p50_ns) && gaps.contains(d.p95_ns) && gaps.contains(d.p99_ns)
            &&& 50 * n <= 100 * gaps.filter(|v: u64| v <= d.p50_ns).len()
            &&& 100 * gaps.filter(|v: u64| v < d.p50_ns).len() < 50 * n
            &&& 95 * n <= 100 * gaps.filter(|v: u64| v <= d.p95_ns).len()
            &&& 100 * gaps.filter(|v: u64| v < d.p95_ns).len() < 95 * n
            &&& 99 * n <= 100 * gaps.filter(|v: u64| v <= d.p99_ns).len()
            &&& 100 * gaps.filter(|v: u64| v < d.p99_ns).len() < 99 * n
            &&& gaps.contains(d.max_ns)
            &&& forall|i: int|
                0 <= i < n ==> #[trigger] tokens[i + 1].elapsed_ns - tokens[i].elapsed_ns
                    <= d.max_ns
        }),
{
    let tokens = timing.tokens@;
    let d = m.inter_token_latency->0;
    let n = tokens.len() - 1;
    let gaps = Seq::new(
        n as nat,
        |i: int| (tokens[i + 1].elapsed_ns - tokens[i].elapsed_ns) as u64,
    );
    assert(gaps =~= intervals(tokens));
    law_percentile_divides_the_values(gaps, 50);
    law_percentile_divides_the_values(gaps, 95);
    law_percentile_divides_the_values(gaps, 99);
    law_distribution_rises(d, gaps);
    lemma_sorted(gaps);
    assert(gaps.contains(d.max_ns)) by {
        broadcast use vstd::seq_lib::group_to_multiset_ensures;

        assert(sorted(gaps).contains(sorted(gaps)[n - 1]));
        assert(gaps.to_multiset().count(d.max_ns) > 0);
    }
    assert forall|i: int| 0 <= i < n implies #[trigger] tokens[i + 1].elapsed_ns
        - tokens[i].elapsed_ns <= d.max_ns by {
        assert(tokens[i].elapsed_ns <= tokens[i + 1].elapsed_ns);
        assert(gaps[i] <= d.max_ns);
    }
    lemma_intervals_sum(tokens);
    let span = interval_sum(gaps);
    assert(tokens[0].elapsed_ns <= tokens[n].elapsed_ns);
    assert(tokens.last() == tokens[n]);
    assert(span == tokens[n].elapsed_ns - tokens[0].elapsed_ns);
    lemma_fundamental_div_mod(span as int, n);
    let q = d.mean_ns as int;
    assert(n * q == q * n && (q + 1) * n == q * n + n) by (nonlinear_arith);
}

/// The rate is the tokens behind the first over the seconds from the first to
/// the last, up to a few roundings; it is there exactly if that time is.
pub proof fn law_rate_is_tokens_over_seconds(m: TimingMetrics, timing: RequestTiming)
    requires
        arrivals_in_order(timing.tokens@),
        describes_request(m, timing),
        1 <= timing.tokens@.len() <= u32::MAX,
    ensures
        ({
            let tokens = timing.tokens@;
            let n = tokens.len() - 1;
            let span = tokens[n].elapsed_ns - tokens[0].elapsed_ns;
            &&& m.tokens_per_second is Some <==> span > 0
            &&& m.tokens_per_second matches Some(rate) ==> is_near(
                rate,
                (n * 1_000_000_000) as nat,
                span as nat,
                5,
            )
        }),
{
    let tokens = timing.tokens@;
    let n = (tokens.len() - 1) as nat;
    assert(tokens[0].elapsed_ns <= tokens[n as int].elapsed_ns);
    assert(tokens.last() == tokens[n as int]);
    let span = (tokens[n as int].elapsed_ns - tokens[0].elapsed_ns) as nat;
    if span > 0 {
        lemma_integer_near(n);
        lemma_integer_near(span);
        lemma_integer_near(1_000_000_000);
        let billion = integer(1_000_000_000);
        lemma_over_near(integer(span), 64, span, 1, 1, billion, 64, 1_000_000_000, 1, 1);
        let seconds = integer(span).over(billion);
        assert(span * 1 == span && 1 * 1_000_000_000 == 1_000_000_000) by (nonlinear_arith);
        lemma_over_near(integer(n), 64, n, 1, 1, seconds, 188, span, 1_000_000_000, 3);
        assert(1 * span == span) by (nonlinear_arith);
    }
}

// ---------------------------------------------------------------------------
// Process resources.
// ---------------------------------------------------------------------------

/// The clock tick rate from what the system reported; a rate that is not
/// positive means the system could not answer.
pub fn clock_tick_hz(raw: i64) -> (hz: Result<u64, ReportError>)
    ensures
        raw > 0 ==> hz == Ok::<u64, ReportError>(raw as u64),
        raw <= 0 ==> hz == Err::<u64, ReportError>(ReportError::UnknownClockTick),
{
    if raw <= 0 {
        Err(ReportError::UnknownClockTick)
    } else {
        Ok(raw as u64)
    }
}

/// Resident set sizes.
pub open spec fn rss(samples: Seq<ResourceSample>) -> Seq<nat> {
    samples.map_values(|s: ResourceSample| s.rss_bytes as nat)
}

/// Thread counts.
pub open spec fn threads(samples: Seq<ResourceSample>) -> Seq<nat> {
    samples.map_values(|s: ResourceSample| s.thread_count as nat)
}

/// CPU time of a sample, in jiffies.
pub open spec fn jiffies(s: ResourceSample) -> nat {
    s.cpu_user_jiffies as nat + s.cpu_system_jiffies as nat
}

/// Whether the CPU time of the first and the last sample fits 64 bits; a
/// single sample is not evaluated for CPU time.
pub open spec fn jiffies_fit(samples: Seq<ResourceSample>) -> bool {
    samples.len() >= 2 ==> jiffies(samples[0]) <= u64::MAX && jiffies(samples.last()) <= u64::MAX
}

/// Whether the CPU time of the first and the last sample fits 64 bits; a
/// single sample is not evaluated for CPU time.
pub fn can_derive_resource(timeline: &ResourceTimeline) -> (fits: bool)
    ensures
        fits == jiffies_fit(timeline.samples@),
{
    let n: usize = timeline.samples.len();
    if n < 2 {
        return true;
    }
    let first: ResourceSample = timeline.samples[0];
    let last: ResourceSample = timeline.samples[n - 1];
    first.cpu_user_jiffies.checked_add(first.cpu_system_jiffies).is_some()
        && last.cpu_user_jiffies.checked_add(last.cpu_system_jiffies).is_some()
}

/// `a - b`, or zero where `b` is larger.
pub open spec fn excess(a: nat, b: nat) -> nat {
    if a > b {
        (a - b) as nat
    } else {
        0
    }
}

/// Mean CPU utilisation in percent between the first and the last sample.
pub open spec fn cpu_percent(first: ResourceSample, last: ResourceSample, hz: nat) -> Option<
    Binary64,
> {
    let wall = excess(last.elapsed_ns as nat, first.elapsed_ns as nat);
    if wall == 0 {
        None
    } else {
        Some(
            integer(excess(jiffies(last), jiffies(first))).over(integer(hz)).over(
                integer(wall).over(integer(1_000_000_000)),
            ).times(integer(100)),
        )
    }
}

/// Whether `m` summarizes the samples.
pub open spec fn summarizes_process(
    m: ResourceMetrics,
    samples: Seq<ResourceSample>,
    hz: nat,
) -> bool {
    &&& m.sample_count == samples.len() as u32
    &&& m.rss_min_bytes == least(rss(samples))
    &&& m.rss_max_bytes == greatest(rss(samples))
    &&& m.rss_mean_bytes == mean(rss(samples))
    &&& m.rss_final_bytes == samples.last().rss_bytes
    &&& m.thread_min == least(threads(samples))
    &&& m.thread_max == greatest(threads(samples))
    &&& m.cpu_mean_percent == if samples.len() < 2 {
        None
    } else {
        cpu_percent(samples[0], samples.last(), hz)
    }
}

/// Of the memory of a process, the mean and the final figure lie between the
/// extremes.
pub proof fn law_process_figures_between_extremes(
    m: ResourceMetrics,
    samples: Seq<ResourceSample>,
    hz: nat,
)
    requires
        samples.len() > 0,
        summarizes_process(m, samples, hz),
    ensures
        m.rss_min_bytes <= m.rss_mean_bytes <= m.rss_max_bytes,
        m.rss_min_bytes <= m.rss_final_bytes <= m.rss_max_bytes,
        m.thread_min <= m.thread_max,
{
    lemma_extremes(rss(samples));
    lemma_extremes(threads(samples));
    assert(rss(samples)[samples.len() - 1] == m.rss_final_bytes);
    assert(threads(samples)[0] == samples[0].thread_count);
}

/// Each extreme of a process is reached by a sample and passed by none, the
/// final memory is that of the last sample, and the mean times the number of
/// samples is the total of them, less what was cut.
pub proof fn law_process_figures_are_of_the_samples(
    m: ResourceMetrics,
    samples: Seq<ResourceSample>,
    hz: nat,
)
    requires
        0 < samples.len() <= u32::MAX,
        summarizes_process(m, samples, hz),
    ensures
        m.sample_count == samples.len(),
        forall|i: int|
            0 <= i < samples.len() ==> m.rss_min_bytes <= (#[trigger] samples[i]).rss_bytes
                <= m.rss_max_bytes && m.thread_min <= samples[i].thread_count <= m.thread_max,
        exists|i: int| 0 <= i < samples.len() && (#[trigger] samples[i]).rss_bytes == m.rss_min_bytes,
        exists|i: int| 0 <= i < samples.len() && (#[trigger] samples[i]).rss_bytes == m.rss_max_bytes,
        exists|i: int| 0 <= i < samples.len() && (#[trigger] samples[i]).thread_count == m.thread_min,
        exists|i: int| 0 <= i < samples.len() && (#[trigger] samples[i]).thread_count == m.thread_max,
        m.rss_final_bytes == samples[samples.len() - 1].rss_bytes,
        m.rss_mean_bytes * samples.len() <= total(
            samples.map_values(|s: ResourceSample| s.rss_bytes as nat),
        ) < (m.rss_mean_bytes + 1) * samples.len(),
{
    law_mean_spreads_the_total(rss(samples), 0, 0);
    let r = rss(samples);
    let t = threads(samples);
    lemma_extremes(r);
    lemma_extremes(t);
    assert forall|i: int| 0 <= i < samples.len() implies m.rss_min_bytes <= (
    #[trigger] samples[i]).rss_bytes <= m.rss_max_bytes && m.thread_min <= samples[i].thread_count
        <= m.thread_max by {
        assert(r[i] == samples[i].rss_bytes);
        assert(t[i] == samples[i].thread_count);
    }
    let a = choose|i: int| 0 <= i < r.len() && r[i] == least(r);
    assert(samples[a].rss_bytes == m.rss_min_bytes);
    let b = choose|i: int| 0 <= i < r.len() && r[i] == greatest(r);
    assert(samples[b].rss_bytes == m.rss_max_bytes);
    let c = choose|i: int| 0 <= i < t.len() && t[i] == least(t);
    assert(samples[c].thread_count == m.thread_min);
    let d = choose|i: int| 0 <= i < t.len() && t[i] == greatest(t);
    assert(samples[d].thread_count == m.thread_max);
}

/// The mean memory weighs every sample alike: `d` bytes more in one of them for
/// each sample there is raise it by `d`.
pub proof fn law_mean_memory_weighs_samples_alike(
    m: ResourceMetrics,
    samples: Seq<ResourceSample>,
    more: ResourceMetrics,
    heavier: Seq<ResourceSample>,
    i: int,
    d: nat,
    hz: nat,
)
    requires
        0 <= i < samples.len(),
        samples[i].rss_bytes + d * samples.len() <= u64::MAX,
        heavier == samples.update(
            i,
            ResourceSample {
                rss_bytes: (samples[i].rss_bytes + d * samples.len()) as u64,
                ..samples[i]
            },
        ),
        summarizes_process(m, samples, hz),
        summarizes_process(more, heavier, hz),
    ensures
        more.rss_mean_bytes == m.rss_mean_bytes + d,
{
    law_mean_spreads_the_total(rss(samples), i, d);
    assert(rss(heavier) =~= rss(samples).update(i, rss(samples)[i] + d * samples.len()));
}

/// Utilisation is CPU time over wall time, in percent, up to a few roundings:
/// the ticks of both modes that were added from the first sample to the last,
/// at so many ticks a second, over the seconds between them. It is there
/// exactly if those seconds are.
pub proof fn law_utilization_is_cpu_over_wall(
    m: ResourceMetrics,
    samples: Seq<ResourceSample>,
    hz: nat,
)
    requires
        samples.len() >= 2,
        0 < hz <= u64::MAX,
        jiffies_fit(samples),
        summarizes_process(m, samples, hz),
    ensures
        ({
            let first = samples[0];
            let last = samples[samples.len() - 1];
            let wall = last.elapsed_ns - first.elapsed_ns;
            let ticks = (last.cpu_user_jiffies + last.cpu_system_jiffies) - (first.cpu_user_jiffies
                + first.cpu_system_jiffies);
            let busy: nat = if ticks > 0 {
                ticks as nat
            } else {
                0
            };
            &&& m.cpu_mean_percent is Some <==> wall > 0
            &&& m.cpu_mean_percent matches Some(percent) ==> is_near(
                percent,
                100 * (busy * 1_000_000_000),
                hz * wall as nat,
                9,
            )
        }),
{
    let first = samples[0];
    let last = samples[samples.len() - 1];
    assert(samples.last() == last);
    if last.elapsed_ns > first.elapsed_ns {
        let wall = (last.elapsed_ns - first.elapsed_ns) as nat;
        let busy = excess(jiffies(last), jiffies(first));
        let billion: nat = 1_000_000_000;
        lemma_integer_near(busy);
        lemma_integer_near(hz);
        lemma_integer_near(wall);
        lemma_integer_near(billion);
        lemma_integer_near(100);
        lemma_over_near(integer(busy), 64, busy, 1, 1, integer(hz), 64, hz, 1, 1);
        lemma_over_near(integer(wall), 64, wall, 1, 1, integer(billion), 64, billion, 1, 1);
        let cpu = integer(busy).over(integer(hz));
        let seconds = integer(wall).over(integer(billion));
        assert(busy * 1 == busy && 1 * hz == hz && wall * 1 == wall && 1 * billion == billion)
            by (nonlinear_arith);
        lemma_over_near(cpu, 188, busy, hz, 3, seconds, 188, wall, billion, 3);
        lemma_times_near(
            cpu.over(seconds),
            436,
            busy * billion,
            hz * wall,
            7,
            integer(100),
            64,
            100,
            1,
            1,
        );
        assert((busy * billion) * 100 == 100 * (busy * billion) && (hz * wall) * 1 == hz * wall)
            by (nonlinear_arith);
    }
}

/// Utilisation rests on the CPU time of both modes together: however the ticks
/// of a sample are divided between them, it is the same.
pub proof fn law_modes_count_alike(
    m: ResourceMetrics,
    samples: Seq<ResourceSample>,
    n: ResourceMetrics,
    others: Seq<ResourceSample>,
    hz: nat,
)
    requires
        samples.len() >= 2,
        others.len() >= 2,
        summarizes_process(m, samples, hz),
        summarizes_process(n, others, hz),
        samples[0].elapsed_ns == others[0].elapsed_ns,
        samples.last().elapsed_ns == others.last().elapsed_ns,
        samples[0].cpu_user_jiffies + samples[0].cpu_system_jiffies == others[0].cpu_user_jiffies
            + others[0].cpu_system_jiffies,
        samples.last().cpu_user_jiffies + samples.last().cpu_system_jiffies
            == others.last().cpu_user_jiffies + others.last().cpu_system_jiffies,
    ensures
        m.cpu_mean_percent == n.cpu_mean_percent,
{
}

/// Derives the resource metrics of a process. `clock_ticks` is the tick rate
/// as the system reported it; it matters only from two samples on.
pub fn derive_resource(timeline: &ResourceTimeline, clock_ticks: i64) -> (r: Result<
    Option<ResourceMetrics>,
    ReportError,
>)
    requires
        jiffies_fit(timeline.samples@),
    ensures
        r is Err <==> timeline.samples@.len() >= 2 && clock_ticks <= 0,
        r is Err ==> r->Err_0 == ReportError::UnknownClockTick,
        r is Ok ==> (r->Ok_0 is None <==> timeline.samples@.len() == 0),
        r is Ok && r->Ok_0 is Some ==> summarizes_process(
            r->Ok_0->0,
            timeline.samples@,
            clock_ticks as nat,
        ),
{
    let samples: &Vec<ResourceSample> = &timeline.samples;
    let n: usize = samples.len();
    if n == 0 {
        return Ok(None);
    }
    let mut rss_min: u64 = samples[0].rss_bytes;
    let mut rss_max: u64 = samples[0].rss_bytes;
    let mut rss_sum: u128 = samples[0].rss_bytes as u128;
    let mut thread_min: u32 = samples[0].thread_count;
    let mut thread_max: u32 = samples[0].thread_count;
    let mut i: usize = 1;
    proof {
        let head = samples@.take(1);
        assert(rss(head).len() == 1 && threads(head).len() == 1);
        assert(rss(head)[0] == samples@[0].rss_bytes);
        assert(threads(head)[0] == samples@[0].thread_count);
        assert(rss(head).drop_last() =~= Seq::<nat>::empty());
        assert(total(rss(head)) == total(rss(head).drop_last()) + rss(head).last());
        assert(total(rss(head).drop_last()) == 0);
    }
    while i < n
        invariant
            1 <= i <= n,
            n == samples@.len(),
            rss_min == least(rss(samples@.take(i as int))),
            rss_max == greatest(rss(samples@.take(i as int))),
            rss_sum == total(rss(samples@.take(i as int))),
            rss_sum <= i * 0xffff_ffff_ffff_ffff,
            thread_min == least(threads(samples@.take(i as int))),
            thread_max == greatest(threads(samples@.take(i as int))),
        decreases n - i,
    {
        let s: ResourceSample = samples[i];
        proof {
            let head = samples@.take(i + 1);
            assert(rss(head).drop_last() =~= rss(samples@.take(i as int)));
            assert(rss(head).last() == s.rss_bytes);
            assert(threads(head).drop_last() =~= threads(samples@.take(i as int)));
            assert(threads(head).last() == s.thread_count);
            assert(i * 0xffff_ffff_ffff_ffff <= 0xffff_ffff_ffff_ffff * 0xffff_ffff_ffff_ffff)
                by (nonlinear_arith)
                requires
                    i <= 0xffff_ffff_ffff_ffff,
            ;
        }
        if s.rss_bytes < rss_min {
            rss_min = s.rss_bytes;
        }
        if s.rss_bytes > rss_max {
            rss_max = s.rss_bytes;
        }
        rss_sum = rss_sum + s.rss_bytes as u128;
        if s.thread_count < thread_min {
            thread_min = s.thread_count;
        }
        if s.thread_count > thread_max {
            thread_max = s.thread_count;
        }
        i += 1;
    }
    assert(samples@.take(i as int) =~= samples@);
    proof {
        let t = rss_sum as int;
        let k = n as int;
        assert(t / k <= 0xffff_ffff_ffff_ffff) by (nonlinear_arith)
            requires
                t <= k * 0xffff_ffff_ffff_ffff,
                k > 0,
        ;
    }
    let rss_mean: u64 = (rss_sum / n as u128) as u64;
    let first: ResourceSample = samples[0];
    let last: ResourceSample = samples[n - 1];
    let cpu_mean_percent: Option<Binary64> = if n < 2 {
        None
    } else {
        let hz: u64 = match clock_tick_hz(clock_ticks) {
            Ok(hz) => hz,
            Err(e) => return Err(e),
        };
        let busy: u64 = (last.cpu_user_jiffies + last.cpu_system_jiffies).saturating_sub(
            first.cpu_user_jiffies + first.cpu_system_jiffies,
        );
        let wall_ns: u64 = last.elapsed_ns.saturating_sub(first.elapsed_ns);
        if wall_ns == 0 {
            None
        } else {
            let cpu_seconds: Binary64 = Binary64::from_u64(busy).quotient(Binary64::from_u64(hz));
            let wall_seconds: Binary64 = Binary64::from_u64(wall_ns).quotient(
                Binary64::from_u64(1_000_000_000),
            );
            Some(cpu_seconds.quotient(wall_seconds).product(Binary64::from_u64(100)))
        }
    };
    Ok(
        Some(
            ResourceMetrics {
                sample_count: n as u32,
                rss_min_bytes: rss_min,
                rss_max_bytes: rss_max,
                rss_mean_bytes: rss_mean,
                rss_final_bytes: last.rss_bytes,
                cpu_mean_percent,
                thread_min,
                thread_max,
            },
        ),
    )
}

// ---------------------------------------------------------------------------
// Efficiency, cache and phases.
// ---------------------------------------------------------------------------

/// The energy efficiency of a run. `None` when there is nothing to divide: no
/// energy, zero energy, or no tokens.
pub open spec fn efficiency_of(
    energy_millijoules: Option<u64>,
    energy_source: Option<EnergySource>,
    token_count: u32,
) -> Option<EfficiencyMetrics> {
    match (energy_millijoules, energy_source) {
        (Some(mj), Some(energy_source)) => if mj > 0 && token_count > 0 {
            let joules = integer(mj as nat).over(integer(1000));
            Some(
                EfficiencyMetrics {
                    energy_joules: joules,
                    energy_per_token_mj: integer(mj as nat).over(integer(token_count as nat)),
                    tokens_per_joule: integer(token_count as nat).over(joules),
                    tokens_per_watt: integer(token_count as nat).over(joules),
                    energy_source,
                },
            )
        } else {
            None
        },
        _ => None,
    }
}

/// Derives the energy efficiency of a run. `None` when there is nothing to
/// divide: no energy, zero energy, or no tokens.
pub fn derive_efficiency(
    energy_millijoules: Option<u64>,
    energy_source: Option<EnergySource>,
    token_count: u32,
) -> (m: Option<EfficiencyMetrics>)
    ensures
        m == efficiency_of(energy_millijoules, energy_source, token_count),
{
    match (energy_millijoules, energy_source) {
        (Some(mj), Some(source)) => {
            if mj == 0 || token_count == 0 {
                return None;
            }
            let tokens: Binary64 = Binary64::from_u64(token_count as u64);
            let energy: Binary64 = Binary64::from_u64(mj);
            let energy_joules: Binary64 = energy.quotient(Binary64::from_u64(1000));
            let tokens_per_joule: Binary64 = tokens.quotient(energy_joules);
            Some(
                EfficiencyMetrics {
                    energy_joules,
                    energy_per_token_mj: energy.quotient(tokens),
                    tokens_per_joule,
                    tokens_per_watt: tokens_per_joule,
                    energy_source: source,
                },
            )
        },
        _ => None,
    }
}

/// The prefix-cache metrics over a window. `None` when no rate can be formed:
/// fewer than two scrapes, a counter that steps back somewhere (the engine was
/// reset, so no delta can be trusted), or no query in the window.
pub open spec fn kvcache_of(samples: Seq<KvCacheSample>) -> Option<KvCacheMetrics> {
    let first = samples[0];
    let last = samples.last();
    if samples.len() >= 2 && !kv_regresses(samples) && last.queries > first.queries {
        Some(
            KvCacheMetrics {
                hits_delta: (last.hits - first.hits) as u64,
                queries_delta: (last.queries - first.queries) as u64,
                hit_rate: integer((last.hits - first.hits) as nat).over(
                    integer((last.queries - first.queries) as nat),
                ),
            },
        )
    } else {
        None
    }
}

/// A hit rate lies between zero and one wherever the engine counts no more
/// hits than queries.
pub proof fn law_hit_rate_is_a_share(samples: Seq<KvCacheSample>)
    requires
        kvcache_of(samples) matches Some(m) ==> m.hits_delta <= m.queries_delta,
    ensures
        kvcache_of(samples) matches Some(m) ==> m.hit_rate.num() <= m.hit_rate.den(),
{
    if let Some(m) = kvcache_of(samples) {
        lemma_kv_ascending(samples, 0, samples.len() - 1);
        lemma_share_at_most_one(m.hits_delta as nat, m.queries_delta as nat);
    }
}

/// Derives the prefix-cache metrics over the scrape window. `None` when no
/// rate can be formed.
pub fn derive_kvcache(timeline: &KvCacheTimeline) -> (m: Option<KvCacheMetrics>)
    ensures
        m == kvcache_of(timeline.samples@),
{
    let n: usize = timeline.samples.len();
    if n < 2 {
        return None;
    }
    if has_kv_regression(&timeline.samples) {
        return None;
    }
    let first: KvCacheSample = timeline.samples[0];
    let last: KvCacheSample = timeline.samples[n - 1];
    proof {
        lemma_kv_ascending(timeline.samples@, 0, n - 1);
    }
    let hits_delta: u64 = last.hits - first.hits;
    let queries_delta: u64 = last.queries - first.queries;
    if queries_delta == 0 {
        return None;
    }
    Some(
        KvCacheMetrics {
            hits_delta,
            queries_delta,
            hit_rate: Binary64::from_u64(hits_delta).quotient(Binary64::from_u64(queries_delta)),
        },
    )
}

/// `total * part / whole`, rounded to an integer, a half going up.
pub open spec fn share(total: nat, part: nat, whole: nat) -> nat {
    let q = total * part / whole;
    if 2 * (total * part % whole) >= whole {
        q + 1
    } else {
        q
    }
}

/// A share is no more than the total.
pub proof fn lemma_share_bounded(total: nat, part: nat, whole: nat)
    requires
        part <= whole,
        whole > 0,
    ensures
        share(total, part, whole) <= total,
{
    let p = (total * part) as int;
    let w = whole as int;
    vstd::arithmetic::div_mod::lemma_fundamental_div_mod(p, w);
    let q = p / w;
    let r = p % w;
    assert(q < total || (q == total && r == 0)) by (nonlinear_arith)
        requires
            p == total * part,
            part <= w,
            p == w * q + r,
            0 <= r < w,
    ;
}

/// `total * part / whole`, rounded.
fn apportion(amount: u64, part: u64, whole: u128) -> (r: u64)
    requires
        part <= whole,
        0 < whole <= 0x1_ffff_ffff_ffff_fffe,
    ensures
        r == share(amount as nat, part as nat, whole as nat),
        r <= amount,
{
    assert(amount as nat * part as nat <= 0xffff_ffff_ffff_ffff * 0xffff_ffff_ffff_ffff)
        by (nonlinear_arith)
        requires
            amount <= 0xffff_ffff_ffff_ffff,
            part <= 0xffff_ffff_ffff_ffff,
    ;
    let product: u128 = amount as u128 * part as u128;
    proof {
        lemma_share_bounded(amount as nat, part as nat, whole as nat);
    }
    let q: u128 = product / whole;
    if 2 * (product % whole) >= whole {
        (q + 1) as u64
    } else {
        q as u64
    }
}

/// Rise of a counter that may be absent.
pub open spec fn rise(before: Option<u64>, after: Option<u64>) -> Option<u64> {
    match (before, after) {
        (Some(a), Some(b)) => Some((b - a) as u64),
        _ => None,
    }
}

/// Whether the window yields a split of `mj` millijoules: two scrapes or more,
/// no counter that regresses, tokens in the window and, where phase times are
/// exposed, time in the window.
pub open spec fn splits(samples: Seq<PhaseSample>) -> bool {
    let first = samples[0];
    let last = samples.last();
    let prefill = rise(first.prefill_ns, last.prefill_ns);
    let decode = rise(first.decode_ns, last.decode_ns);
    &&& samples.len() >= 2
    &&& !phase_regresses(samples)
    &&& last.prompt_tokens > first.prompt_tokens || last.generation_tokens
        > first.generation_tokens
    &&& prefill is Some && decode is Some ==> prefill->0 > 0 || decode->0 > 0
}

/// Whether `m` splits `mj` millijoules over the window of `samples`.
pub open spec fn is_split(m: PhaseEnergyMetrics, samples: Seq<PhaseSample>, mj: nat) -> bool {
    let first = samples[0];
    let last = samples.last();
    let prefill = rise(first.prefill_ns, last.prefill_ns);
    let decode = rise(first.decode_ns, last.decode_ns);
    let prompt = (last.prompt_tokens - first.prompt_tokens) as nat;
    let generation = (last.generation_tokens - first.generation_tokens) as nat;
    &&& m.prefill_ns_delta == prefill
    &&& m.decode_ns_delta == decode
    &&& m.prompt_tokens_delta == prompt
    &&& m.generation_tokens_delta == generation
    &&& m.energy_prefill_by_tokens_mj == share(mj, prompt, prompt + generation)
    &&& m.energy_decode_by_tokens_mj == mj - m.energy_prefill_by_tokens_mj
    &&& if prefill is Some && decode is Some {
        let p = prefill->0 as nat;
        let d = decode->0 as nat;
        &&& m.energy_prefill_by_time_mj == Some(share(mj, p, p + d) as u64)
        &&& m.energy_decode_by_time_mj == Some((mj - share(mj, p, p + d)) as u64)
        &&& m.phase_energy_divergence == Some(
            minus(
                integer(p).over(integer(p).plus(integer(d))),
                integer(prompt).over(integer(prompt).plus(integer(generation))),
            ),
        )
    } else {
        &&& m.energy_prefill_by_time_mj is None
        &&& m.energy_decode_by_time_mj is None
        &&& m.phase_energy_divergence is None
    }
}

/// Without a regression, a time counter that is present at both ends has not
/// fallen.
proof fn lemma_phase_times_ascend(samples: Seq<PhaseSample>, i: int, j: int)
    requires
        !phase_regresses(samples),
        0 <= i <= j < samples.len(),
    ensures
        samples[i].prompt_tokens <= samples[j].prompt_tokens,
        samples[i].generation_tokens <= samples[j].generation_tokens,
        !breaks(samples[i].prefill_ns, samples[j].prefill_ns),
        !breaks(samples[i].decode_ns, samples[j].decode_ns),
    decreases j - i,
{
    if i < j {
        lemma_phase_times_ascend(samples, i, j - 1);
        assert(!(samples[j].prompt_tokens < samples[j - 1].prompt_tokens));
    }
}

/// The share of `part` in `part + other`, both over zero together.
fn fraction(part: u64, other: u64) -> (r: Binary64)
    requires
        part > 0 || other > 0,
    ensures
        r == integer(part as nat).over(integer(part as nat).plus(integer(other as nat))),
        r.within(2900),
{
    let a: Binary64 = Binary64::from_u64(part);
    let b: Binary64 = Binary64::from_u64(other);
    a.quotient(a.sum(b))
}

/// Splits the energy of the window between prefill and decode. `None` when the
/// window yields no split, or when there is no energy to split.
pub fn derive_phase_energy(
    timeline: &PhaseTimeline,
    energy_millijoules: Option<u64>,
    energy_source: Option<EnergySource>,
) -> (m: Option<PhaseEnergyMetrics>)
    ensures
        m is Some <==> energy_millijoules is Some && energy_source is Some && splits(
            timeline.samples@,
        ),
        m is Some ==> is_split(m->0, timeline.samples@, energy_millijoules->0 as nat),
{
    let mj: u64 = match (energy_millijoules, energy_source) {
        (Some(mj), Some(_)) => mj,
        _ => return None,
    };
    let n: usize = timeline.samples.len();
    if n < 2 || crate::trajectory::has_phase_regression(&timeline.samples) {
        return None;
    }
    let first: PhaseSample = timeline.samples[0];
    let last: PhaseSample = timeline.samples[n - 1];
    proof {
        lemma_phase_times_ascend(timeline.samples@, 0, n - 1);
    }
    let prompt: u64 = last.prompt_tokens - first.prompt_tokens;
    let generation: u64 = last.generation_tokens - first.generation_tokens;
    if prompt == 0 && generation == 0 {
        return None;
    }
    let prefill_ns_delta: Option<u64> = match (first.prefill_ns, last.prefill_ns) {
        (Some(a), Some(b)) => Some(b - a),
        _ => None,
    };
    let decode_ns_delta: Option<u64> = match (first.decode_ns, last.decode_ns) {
        (Some(a), Some(b)) => Some(b - a),
        _ => None,
    };
    let prefill_by_tokens: u64 = apportion(mj, prompt, prompt as u128 + generation as u128);
    match (prefill_ns_delta, decode_ns_delta) {
        (Some(prefill), Some(decode)) => {
            if prefill == 0 && decode == 0 {
                return None;
            }
            let prefill_by_time: u64 = apportion(mj, prefill, prefill as u128 + decode as u128);
            let time_share: Binary64 = fraction(prefill, decode);
            let token_share: Binary64 = fraction(prompt, generation);
            Some(
                PhaseEnergyMetrics {
                    prefill_ns_delta,
                    decode_ns_delta,
                    prompt_tokens_delta: prompt,
                    generation_tokens_delta: generation,
                    energy_prefill_by_time_mj: Some(prefill_by_time),
                    energy_decode_by_time_mj: Some(mj - prefill_by_time),
                    energy_prefill_by_tokens_mj: prefill_by_tokens,
                    energy_decode_by_tokens_mj: mj - prefill_by_tokens,
                    phase_energy_divergence: Some(time_share.difference(token_share)),
                },
            )
        },
        _ => Some(
            PhaseEnergyMetrics {
                prefill_ns_delta,
                decode_ns_delta,
                prompt_tokens_delta: prompt,
                generation_tokens_delta: generation,
                energy_prefill_by_time_mj: None,
                energy_decode_by_time_mj: None,
                energy_prefill_by_tokens_mj: prefill_by_tokens,
                energy_decode_by_tokens_mj: mj - prefill_by_tokens,
                phase_energy_divergence: None,
            },
        ),
    }
}

/// In each basis, prefill and decode add up to the energy of the window
/// exactly.
pub proof fn law_split_is_exact(m: PhaseEnergyMetrics, samples: Seq<PhaseSample>, mj: u64)
    requires
        splits(samples),
        is_split(m, samples, mj as nat),
    ensures
        m.energy_prefill_by_tokens_mj + m.energy_decode_by_tokens_mj == mj,
        m.energy_prefill_by_time_mj is Some ==> m.energy_prefill_by_time_mj->0
            + m.energy_decode_by_time_mj->0 == mj,
{
    let first = samples[0];
    let last = samples.last();
    lemma_phase_times_ascend(samples, 0, samples.len() - 1);
    let prompt = (last.prompt_tokens - first.prompt_tokens) as nat;
    let generation = (last.generation_tokens - first.generation_tokens) as nat;
    lemma_share_bounded(mj as nat, prompt, prompt + generation);
    let prefill = rise(first.prefill_ns, last.prefill_ns);
    let decode = rise(first.decode_ns, last.decode_ns);
    if prefill is Some && decode is Some {
        lemma_share_bounded(
            mj as nat,
            prefill->0 as nat,
            prefill->0 as nat + decode->0 as nat,
        );
    }
}

/// Energy per token times the tokens is the energy, and tokens per joule times
/// the joules are the tokens, up to a few roundings. The figures are there
/// exactly if there is energy, with a source, and a token.
pub proof fn law_efficiency_is_energy_over_tokens(
    energy_millijoules: Option<u64>,
    energy_source: Option<EnergySource>,
    token_count: u32,
)
    ensures
        ({
            let r = efficiency_of(energy_millijoules, energy_source, token_count);
            &&& r is Some <==> energy_source is Some && token_count > 0
                && energy_millijoules is Some && energy_millijoules->0 > 0
            &&& r matches Some(e) ==> {
                let mj = energy_millijoules->0 as nat;
                &&& is_near(e.energy_joules, mj, 1000, 3)
                &&& is_near(e.energy_per_token_mj, mj, token_count as nat, 3)
                &&& is_near(e.tokens_per_joule, token_count as nat * 1000, mj, 5)
                &&& e.tokens_per_watt == e.tokens_per_joule
                &&& energy_source == Some(e.energy_source)
            }
        }),
{
    if let Some(e) = efficiency_of(energy_millijoules, energy_source, token_count) {
        let mj = energy_millijoules->0 as nat;
        let n = token_count as nat;
        lemma_integer_near(mj);
        lemma_integer_near(n);
        lemma_integer_near(1000);
        lemma_over_near(integer(mj), 64, mj, 1, 1, integer(1000), 64, 1000, 1, 1);
        lemma_over_near(integer(mj), 64, mj, 1, 1, integer(n), 64, n, 1, 1);
        assert(mj * 1 == mj && 1 * n == n && 1 * mj == mj) by (nonlinear_arith);
        lemma_over_near(integer(n), 64, n, 1, 1, e.energy_joules, 188, mj, 1000, 3);
    }
}

/// The cache figures are of the window alone: the first reading and the rise
/// make up the last reading, and the rate is the one rise over the other, up to
/// a few roundings. There is a rate exactly if neither counter ever falls and
/// the queries rise.
pub proof fn law_cache_figures_are_of_the_window(samples: Seq<KvCacheSample>)
    ensures
        kvcache_of(samples) is Some <==> samples.len() >= 2 && samples[0].queries
            < samples[samples.len() - 1].queries && forall|i: int, j: int|
            0 <= i < j < samples.len() ==> (#[trigger] samples[i]).hits <= (
            #[trigger] samples[j]).hits && samples[i].queries <= samples[j].queries,
        kvcache_of(samples) matches Some(m) ==> {
            let last = samples[samples.len() - 1];
            &&& samples[0].hits + m.hits_delta == last.hits
            &&& samples[0].queries + m.queries_delta == last.queries
            &&& is_near(m.hit_rate, m.hits_delta as nat, m.queries_delta as nat, 3)
        },
{
    if samples.len() >= 2 {
        if !kv_regresses(samples) {
            assert forall|i: int, j: int| 0 <= i < j < samples.len() implies (
            #[trigger] samples[i]).hits <= (#[trigger] samples[j]).hits && samples[i].queries
                <= samples[j].queries by {
                lemma_kv_ascending(samples, i, j);
            }
        } else {
            let i = choose|i: int|
                0 < i < samples.len() && ((#[trigger] samples[i]).hits < samples[i - 1].hits
                    || samples[i].queries < samples[i - 1].queries);
            assert(!(samples[i - 1].hits <= samples[i].hits && samples[i - 1].queries
                <= samples[i].queries));
        }
        if let Some(m) = kvcache_of(samples) {
            lemma_kv_ascending(samples, 0, samples.len() - 1);
            let (h, q) = (m.hits_delta as nat, m.queries_delta as nat);
            lemma_integer_near(h);
            lemma_integer_near(q);
            lemma_over_near(integer(h), 64, h, 1, 1, integer(q), 64, q, 1, 1);
            assert(h * 1 == h && 1 * q == q) by (nonlinear_arith);
        }
    }
}

/// A share is the nearest whole number to the part of the total, the greater one
/// halfway.
proof fn lemma_share_is_nearest(total: nat, part: nat, whole: nat)
    requires
        whole > 0,
    ensures
        2 * (total * part) < 2 * (share(total, part, whole) * whole) + whole,
        2 * (share(total, part, whole) * whole) <= 2 * (total * part) + whole,
{
    let p = total * part;
    lemma_fundamental_div_mod(p as int, whole as int);
    let q = p / whole;
    assert(whole * q == q * whole && (q + 1) * whole == q * whole + whole) by (nonlinear_arith);
}

/// The split is of the window alone: each first reading and the rise make up
/// the last reading. Where times are exposed, prefill has of the energy what it
/// has of the time, and in any case what its tokens have of the tokens, to the
/// nearest millijoule, halfway to the greater; decode has the rest.
pub proof fn law_split_is_in_proportion(m: PhaseEnergyMetrics, samples: Seq<PhaseSample>, mj: u64)
    requires
        splits(samples),
        is_split(m, samples, mj as nat),
    ensures
        ({
            let first = samples[0];
            let last = samples[samples.len() - 1];
            let p = last.prompt_tokens - first.prompt_tokens;
            let g = last.generation_tokens - first.generation_tokens;
            &&& first.prompt_tokens + m.prompt_tokens_delta == last.prompt_tokens
            &&& first.generation_tokens + m.generation_tokens_delta == last.generation_tokens
            &&& m.prefill_ns_delta is Some <==> first.prefill_ns is Some && last.prefill_ns is Some
            &&& m.decode_ns_delta is Some <==> first.decode_ns is Some && last.decode_ns is Some
            &&& m.prefill_ns_delta is Some ==> first.prefill_ns->0 + m.prefill_ns_delta->0
                == last.prefill_ns->0
            &&& m.decode_ns_delta is Some ==> first.decode_ns->0 + m.decode_ns_delta->0
                == last.decode_ns->0
            &&& 2 * (mj * p) < 2 * (m.energy_prefill_by_tokens_mj * (p + g)) + (p + g)
            &&& 2 * (m.energy_prefill_by_tokens_mj * (p + g)) <= 2 * (mj * p) + (p + g)
            &&& m.energy_prefill_by_tokens_mj + m.energy_decode_by_tokens_mj == mj
            &&& m.energy_prefill_by_time_mj is Some <==> m.prefill_ns_delta is Some
                && m.decode_ns_delta is Some
            &&& m.energy_decode_by_time_mj is Some <==> m.energy_prefill_by_time_mj is Some
            &&& m.energy_prefill_by_time_mj is Some ==> {
                let t = last.prefill_ns->0 - first.prefill_ns->0;
                let u = last.decode_ns->0 - first.decode_ns->0;
                let e = m.energy_prefill_by_time_mj->0;
                &&& 2 * (mj * t) < 2 * (e * (t + u)) + (t + u)
                &&& 2 * (e * (t + u)) <= 2 * (mj * t) + (t + u)
                &&& e + m.energy_decode_by_time_mj->0 == mj
            }
        }),
{
    let first = samples[0];
    let last = samples[samples.len() - 1];
    assert(samples.last() == last);
    lemma_phase_times_ascend(samples, 0, samples.len() - 1);
    law_split_is_exact(m, samples, mj);
    let p = (last.prompt_tokens - first.prompt_tokens) as nat;
    let g = (last.generation_tokens - first.generation_tokens) as nat;
    lemma_share_is_nearest(mj as nat, p, p + g);
    lemma_share_bounded(mj as nat, p, p + g);
    if first.prefill_ns is Some && last.prefill_ns is Some && first.decode_ns is Some
        && last.decode_ns is Some {
        let t = (last.prefill_ns->0 - first.prefill_ns->0) as nat;
        let u = (last.decode_ns->0 - first.decode_ns->0) as nat;
        lemma_share_is_nearest(mj as nat, t, t + u);
        lemma_share_bounded(mj as nat, t, t + u);
    }
}

/// `n` more in a counter that may be absent.
pub open spec fn counted_on(value: Option<u64>, n: nat) -> Option<u64> {
    match value {
        Some(v) => Some((v + n) as u64),
        None => None,
    }
}

/// The scrapes of an engine that had counted further before the window began.
pub open spec fn of_older_engine(
    samples: Seq<PhaseSample>,
    prompt: nat,
    generation: nat,
    prefill: nat,
    decode: nat,
) -> Seq<PhaseSample> {
    samples.map_values(
        |s: PhaseSample|
            PhaseSample {
                elapsed_ns: s.elapsed_ns,
                prompt_tokens: (s.prompt_tokens + prompt) as u64,
                generation_tokens: (s.generation_tokens + generation) as u64,
                prefill_ns: counted_on(s.prefill_ns, prefill),
                decode_ns: counted_on(s.decode_ns, decode),
            },
    )
}

/// Whether the counters of an older engine fit their types.
pub open spec fn ages_within_bounds(
    s: PhaseSample,
    prompt: nat,
    generation: nat,
    prefill: nat,
    decode: nat,
) -> bool {
    &&& s.prompt_tokens + prompt <= u64::MAX
    &&& s.generation_tokens + generation <= u64::MAX
    &&& s.prefill_ns is Some ==> s.prefill_ns->0 + prefill <= u64::MAX
    &&& s.decode_ns is Some ==> s.decode_ns->0 + decode <= u64::MAX
}

/// Whether a counter falls, appears or disappears from one scrape to the next.
spec fn slips(a: PhaseSample, b: PhaseSample) -> bool {
    ||| b.prompt_tokens < a.prompt_tokens
    ||| b.generation_tokens < a.generation_tokens
    ||| breaks(a.prefill_ns, b.prefill_ns)
    ||| breaks(a.decode_ns, b.decode_ns)
}

proof fn lemma_regression_is_a_slip(samples: Seq<PhaseSample>)
    ensures
        phase_regresses(samples) <==> exists|i: int|
            0 < i < samples.len() && slips(samples[i - 1], #[trigger] samples[i]),
{
    if phase_regresses(samples) {
        let i = choose|i: int|
            0 < i < samples.len() && ((#[trigger] samples[i]).prompt_tokens < samples[i
                - 1].prompt_tokens || samples[i].generation_tokens < samples[i
                - 1].generation_tokens || breaks(samples[i - 1].prefill_ns, samples[i].prefill_ns)
                || breaks(samples[i - 1].decode_ns, samples[i].decode_ns));
        assert(slips(samples[i - 1], samples[i]));
    }
}

proof fn lemma_older_engine_slips_alike(
    samples: Seq<PhaseSample>,
    prompt: nat,
    generation: nat,
    prefill: nat,
    decode: nat,
)
    requires
        forall|i: int|
            0 <= i < samples.len() ==> ages_within_bounds(
                #[trigger] samples[i],
                prompt,
                generation,
                prefill,
                decode,
            ),
    ensures
        phase_regresses(of_older_engine(samples, prompt, generation, prefill, decode))
            <==> phase_regresses(samples),
{
    let older = of_older_engine(samples, prompt, generation, prefill, decode);
    lemma_regression_is_a_slip(samples);
    lemma_regression_is_a_slip(older);
    assert forall|i: int| 0 < i < samples.len() implies slips(older[i - 1], #[trigger] older[i])
        == slips(samples[i - 1], samples[i]) by {
        assert(ages_within_bounds(samples[i - 1], prompt, generation, prefill, decode));
        assert(ages_within_bounds(samples[i], prompt, generation, prefill, decode));
    }
    if phase_regresses(samples) {
        let i = choose|i: int|
            0 < i < samples.len() && slips(samples[i - 1], #[trigger] samples[i]);
        assert(slips(older[i - 1], older[i]));
    }
    if phase_regresses(older) {
        let i = choose|i: int| 0 < i < older.len() && slips(older[i - 1], #[trigger] older[i]);
        assert(slips(samples[i - 1], samples[i]));
    }
}

/// What an engine had counted before the window changes no figure of the split,
/// nor whether there is one.
pub proof fn law_split_forgets_the_past(
    samples: Seq<PhaseSample>,
    prompt: nat,
    generation: nat,
    prefill: nat,
    decode: nat,
    m: PhaseEnergyMetrics,
    mj: nat,
)
    requires
        samples.len() >= 2,
        forall|i: int|
            0 <= i < samples.len() ==> ages_within_bounds(
                #[trigger] samples[i],
                prompt,
                generation,
                prefill,
                decode,
            ),
    ensures
        splits(of_older_engine(samples, prompt, generation, prefill, decode)) <==> splits(samples),
        splits(samples) ==> (is_split(
            m,
            of_older_engine(samples, prompt, generation, prefill, decode),
            mj,
        ) <==> is_split(m, samples, mj)),
{
    let older = of_older_engine(samples, prompt, generation, prefill, decode);
    let n = samples.len() as int;
    lemma_older_engine_slips_alike(samples, prompt, generation, prefill, decode);
    let (a, b) = (samples[0], samples[n - 1]);
    let (c, d) = (older[0], older[n - 1]);
    assert(older.last() == d && samples.last() == b);
    assert(ages_within_bounds(a, prompt, generation, prefill, decode));
    assert(ages_within_bounds(b, prompt, generation, prefill, decode));
    if !phase_regresses(samples) {
        lemma_phase_times_ascend(samples, 0, n - 1);
        assert(rise(c.prefill_ns, d.prefill_ns) == rise(a.prefill_ns, b.prefill_ns));
        assert(rise(c.decode_ns, d.decode_ns) == rise(a.decode_ns, b.decode_ns));
        assert(d.prompt_tokens - c.prompt_tokens == b.prompt_tokens - a.prompt_tokens);
        assert(d.generation_tokens - c.generation_tokens == b.generation_tokens
            - a.generation_tokens);
    }
}

/// The share of `part` in `part + other`, up to a few roundings.
proof fn lemma_fraction_near(part: nat, other: nat)
    requires
        part <= u64::MAX,
        other <= u64::MAX,
        part + other > 0,
    ensures
        ({
            let x = integer(part).over(integer(part).plus(integer(other)));
            &&& is_near(x, part, part + other, 4)
            &&& x.within(300)
        }),
{
    lemma_integer_near(part);
    lemma_integer_near(other);
    lemma_plus_near(integer(part), integer(other), 64, part, other, 1, 1);
    let sum = integer(part).plus(integer(other));
    lemma_over_near(integer(part), 64, part, 1, 1, sum, 124, part + other, 1, 2);
    assert(part * 1 == part && 1 * (part + other) == part + other) by (nonlinear_arith);
}

/// The divergence is prefill's share of the time less its share of the tokens:
/// the difference of two figures, each up to a few roundings the share it
/// stands for, below zero exactly if the first is the smaller one.
pub proof fn law_divergence_is_time_less_tokens(
    m: PhaseEnergyMetrics,
    samples: Seq<PhaseSample>,
    mj: u64,
)
    requires
        splits(samples),
        is_split(m, samples, mj as nat),
    ensures
        m.phase_energy_divergence is Some <==> m.prefill_ns_delta is Some
            && m.decode_ns_delta is Some,
        m.phase_energy_divergence matches Some(divergence) ==> exists|x: Binary64, y: Binary64|
            {
                &&& #[trigger] is_near(
                    x,
                    m.prefill_ns_delta->0 as nat,
                    (m.prefill_ns_delta->0 + m.decode_ns_delta->0) as nat,
                    4,
                )
                &&& #[trigger] is_near(
                    y,
                    m.prompt_tokens_delta as nat,
                    (m.prompt_tokens_delta + m.generation_tokens_delta) as nat,
                    4,
                )
                &&& divergence.negative <==> x.num() < y.num()
                &&& is_near(
                    divergence.magnitude,
                    if x.num() >= y.num() {
                        (x.num() - y.num()) as nat
                    } else {
                        (y.num() - x.num()) as nat
                    },
                    x.den(),
                    1,
                )
            },
{
    lemma_phase_times_ascend(samples, 0, samples.len() - 1);
    law_split_is_in_proportion(m, samples, mj);
    if m.prefill_ns_delta is Some && m.decode_ns_delta is Some {
        let t = m.prefill_ns_delta->0 as nat;
        let u = m.decode_ns_delta->0 as nat;
        let p = m.prompt_tokens_delta as nat;
        let g = m.generation_tokens_delta as nat;
        lemma_fraction_near(t, u);
        lemma_fraction_near(p, g);
        let x = integer(t).over(integer(t).plus(integer(u)));
        let y = integer(p).over(integer(p).plus(integer(g)));
        lemma_minus_near(x, y, 300);
        assert(is_near(x, t, t + u, 4) && is_near(y, p, p + g, 4));
    }
}

/// There is a split exactly if no token counter ever falls, no time counter
/// falls, appears or disappears, some token was counted in the window and, where
/// times are exposed at both of its ends, some time.
pub proof fn law_split_needs_rising_counters(samples: Seq<PhaseSample>)
    ensures
        splits(samples) <==> {
            let first = samples[0];
            let last = samples[samples.len() - 1];
            &&& samples.len() >= 2
            &&& forall|i: int, j: int|
                0 <= i < j < samples.len() ==> {
                    let (a, b) = (#[trigger] samples[i], #[trigger] samples[j]);
                    &&& a.prompt_tokens <= b.prompt_tokens
                    &&& a.generation_tokens <= b.generation_tokens
                    &&& a.prefill_ns is Some <==> b.prefill_ns is Some
                    &&& a.decode_ns is Some <==> b.decode_ns is Some
                    &&& a.prefill_ns is Some ==> a.prefill_ns->0 <= b.prefill_ns->0
                    &&& a.decode_ns is Some ==> a.decode_ns->0 <= b.decode_ns->0
                }
            &&& first.prompt_tokens != last.prompt_tokens || first.generation_tokens
                != last.generation_tokens
            &&& first.prefill_ns is Some && first.decode_ns is Some ==> first.prefill_ns
                != last.prefill_ns || first.decode_ns != last.decode_ns
        },
{
    if samples.len() >= 2 {
        let n = samples.len() as int;
        assert(samples.last() == samples[n - 1]);
        if phase_regresses(samples) {
            let i = choose|i: int|
                0 < i < samples.len() && ((#[trigger] samples[i]).prompt_tokens < samples[i
                    - 1].prompt_tokens || samples[i].generation_tokens < samples[i
                    - 1].generation_tokens || breaks(
                    samples[i - 1].prefill_ns,
                    samples[i].prefill_ns,
                ) || breaks(samples[i - 1].decode_ns, samples[i].decode_ns));
            let (a, b) = (samples[i - 1], samples[i]);
            assert(!(a.prompt_tokens <= b.prompt_tokens && a.generation_tokens
                <= b.generation_tokens && (a.prefill_ns is Some <==> b.prefill_ns is Some) && (
            a.decode_ns is Some <==> b.decode_ns is Some) && (a.prefill_ns is Some
                ==> a.prefill_ns->0 <= b.prefill_ns->0) && (a.decode_ns is Some ==> a.decode_ns->0
                <= b.decode_ns->0)));
        } else {
            assert forall|i: int, j: int| 0 <= i < j < samples.len() implies {
                let (a, b) = (#[trigger] samples[i], #[trigger] samples[j]);
                &&& a.prompt_tokens <= b.prompt_tokens
                &&& a.generation_tokens <= b.generation_tokens
                &&& a.prefill_ns is Some <==> b.prefill_ns is Some
                &&& a.decode_ns is Some <==> b.decode_ns is Some
                &&& a.prefill_ns is Some ==> a.prefill_ns->0 <= b.prefill_ns->0
                &&& a.decode_ns is Some ==> a.decode_ns->0 <= b.decode_ns->0
            } by {
                lemma_phase_times_ascend(samples, i, j);
            }
            lemma_phase_times_ascend(samples, 0, n - 1);
            assert(samples[0].prompt_tokens <= samples[n - 1].prompt_tokens);
        }
    }
}

} // verus!
