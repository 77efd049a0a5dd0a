//! Attribution of a run to the steps of a trajectory.
//!
//! Steps are placed on the run's clock, and the energy, tokens and cache
//! counters inside each window are read off the timelines. Steps need not tile
//! the run: what no window covers is a figure of its own, and the steps and
//! that remainder add up to the whole run exactly.
use vstd::prelude::*;

use crate::accuracy::{is_near, lemma_integer_near, lemma_over_near};
use crate::binary64::{integer, Binary64};
use crate::energy::{
    area2, devices_area2, devices_area2_mw_ns, devices_area_fits, gap_ns, in_window,
    law_devices_add_up, lemma_devices_window, of_device, segment2,
};
use crate::gpu::{are_devices, device_list, lemma_devices_listed, GpuSample, GpuTimeline};
use crate::kvcache::{KvCacheSample, KvCacheTimeline};
use crate::phase::{PhaseSample, PhaseTimeline};
use crate::stats::total;
use crate::steps::{StepKind, StepRecord};

verus! {

/// Why a step was left out of the attribution.
#[derive(Debug, Clone, Copy, PartialEq, Eq, Structural)]
pub enum DropReason {
    /// The window is not inside the run, the span covered by GPU samples.
    OutsideRunWindow,
    /// The window overlaps the preceding kept step: counting both would count
    /// energy twice.
    OverlapsPrecedingStep,
}

/// A step that was left out.
#[derive(Debug, Clone, Copy, PartialEq, Eq, Structural)]
pub struct DroppedStep {
    /// The step.
    pub step_id: u64,
    /// Why it was left out.
    pub reason: DropReason,
}

/// The figures of one step.
#[derive(Debug, Clone, Copy, PartialEq, Eq, Structural)]
pub struct StepMetrics {
    /// The step.
    pub step_id: u64,
    /// What it did.
    pub kind: StepKind,
    /// Start, in nanoseconds from the reference instant.
    pub start_elapsed_ns: u64,
    /// End, in nanoseconds from the reference instant.
    pub end_elapsed_ns: u64,
    /// GPU samples inside the window, over all devices, boundaries included.
    pub samples_in_window: u64,
    /// Energy over the window, in millijoules.
    pub energy_mj: u64,
    /// Generation tokens over the window; `None` when none were observed.
    pub generation_tokens_delta: Option<u64>,
    /// Prompt tokens over the window; `None` when none were observed.
    pub prompt_tokens_delta: Option<u64>,
    /// Cache hits over the window; `None` when none were observed.
    pub cache_hits_delta: Option<u64>,
    /// Cache queries over the window; `None` when none were observed.
    pub cache_queries_delta: Option<u64>,
    /// Generation tokens per joule; `None` for tool steps and where tokens or
    /// energy are zero.
    pub tokens_per_joule: Option<Binary64>,
    /// Cache hit rate; `None` without queries.
    pub cache_hit_rate: Option<Binary64>,
}

/// The attribution of a whole run.
#[derive(Debug, Clone, PartialEq, Eq)]
pub struct TrajectoryMetrics {
    /// The kept steps, in window order.
    pub steps: Vec<StepMetrics>,
    /// Energy of the whole run, in millijoules.
    pub total_energy_mj: u64,
    /// Generation tokens of the whole run; zero when none were observed.
    pub total_generation_tokens: u64,
    /// Generation tokens per joule of the whole run; `None` where tokens or
    /// energy are zero.
    pub trajectory_tokens_per_joule: Option<Binary64>,
    /// Energy inside LLM-call steps.
    pub llm_energy_mj: u64,
    /// Energy inside tool steps.
    pub tool_energy_mj: u64,
    /// Energy inside no kept step.
    pub unattributed_energy_mj: u64,
    /// Length of the run window, in nanoseconds.
    pub run_duration_ns: u64,
    /// Time inside no kept step, in nanoseconds.
    pub unattributed_duration_ns: u64,
    /// The steps that were left out.
    pub dropped_steps: Vec<DroppedStep>,
}

/// A step on the run's clock.
#[derive(Debug, Clone, Copy, PartialEq, Eq, Structural)]
pub struct PlacedStep {
    /// The step as the driver wrote it.
    pub record: StepRecord,
    /// Start, in nanoseconds from the reference instant.
    pub start: u64,
    /// End, in nanoseconds from the reference instant.
    pub end: u64,
}

// ---------------------------------------------------------------------------
// Order and placement of steps.
// ---------------------------------------------------------------------------

/// Whether `a` comes strictly before `b`: by start, then by id.
pub open spec fn precedes(a: StepRecord, b: StepRecord) -> bool {
    a.t_start_unix_ns < b.t_start_unix_ns || (a.t_start_unix_ns == b.t_start_unix_ns && a.step_id
        < b.step_id)
}

/// How many steps at the head of an ordered sequence `x` does not precede.
pub open spec fn rank(sorted: Seq<StepRecord>, x: StepRecord) -> nat
    decreases sorted.len(),
{
    if sorted.len() == 0 {
        0
    } else if precedes(x, sorted.last()) {
        rank(sorted.drop_last(), x)
    } else {
        sorted.len()
    }
}

/// The steps in order of start and id, those equal in both as they came.
pub open spec fn in_order(steps: Seq<StepRecord>) -> Seq<StepRecord>
    decreases steps.len(),
{
    if steps.len() == 0 {
        Seq::empty()
    } else {
        let sorted = in_order(steps.drop_last());
        sorted.insert(rank(sorted, steps.last()) as int, steps.last())
    }
}

/// Where a step goes, given the end of the last kept one: on the run's clock,
/// or out.
pub open spec fn place(
    step: StepRecord,
    anchor: u64,
    run_start: u64,
    run_end: u64,
    last_end: Option<u64>,
) -> Result<PlacedStep, DropReason> {
    if step.t_start_unix_ns < anchor || step.t_end_unix_ns < anchor {
        Err(DropReason::OutsideRunWindow)
    } else {
        let start = (step.t_start_unix_ns - anchor) as u64;
        let end = (step.t_end_unix_ns - anchor) as u64;
        if start < run_start || end > run_end {
            Err(DropReason::OutsideRunWindow)
        } else if last_end is Some && start < last_end->0 {
            Err(DropReason::OverlapsPrecedingStep)
        } else {
            Ok(PlacedStep { record: step, start, end })
        }
    }
}

/// The end of the last kept step.
pub open spec fn last_end(kept: Seq<PlacedStep>) -> Option<u64> {
    if kept.len() == 0 {
        None
    } else {
        Some(kept.last().end)
    }
}

/// The kept and the dropped steps of an ordered sequence.
pub open spec fn placement(
    ordered: Seq<StepRecord>,
    anchor: u64,
    run_start: u64,
    run_end: u64,
) -> (Seq<PlacedStep>, Seq<DroppedStep>)
    decreases ordered.len(),
{
    if ordered.len() == 0 {
        (Seq::empty(), Seq::empty())
    } else {
        let (kept, dropped) = placement(ordered.drop_last(), anchor, run_start, run_end);
        match place(ordered.last(), anchor, run_start, run_end, last_end(kept)) {
            Ok(step) => (kept.push(step), dropped),
            Err(reason) => (
                kept,
                dropped.push(DroppedStep { step_id: ordered.last().step_id, reason }),
            ),
        }
    }
}

/// Whether the windows lie inside the run, none inverted, each beginning no
/// earlier than the one before it ended.
pub open spec fn disjoint(kept: Seq<PlacedStep>, run_start: u64, run_end: u64) -> bool {
    &&& forall|i: int|
        0 <= i < kept.len() ==> run_start <= (#[trigger] kept[i]).start <= kept[i].end <= run_end
    &&& forall|i: int, j: int|
        0 <= i < j < kept.len() ==> (#[trigger] kept[i]).end <= (#[trigger] kept[j]).start
}

/// Whether no step ends before it starts.
pub open spec fn none_inverted(steps: Seq<StepRecord>) -> bool {
    forall|i: int|
        0 <= i < steps.len() ==> (#[trigger] steps[i]).t_start_unix_ns <= steps[i].t_end_unix_ns
}

/// Sorting neither adds nor loses a step.
pub proof fn lemma_order_is_permutation(steps: Seq<StepRecord>)
    ensures
        in_order(steps).to_multiset() == steps.to_multiset(),
        in_order(steps).len() == steps.len(),
    decreases steps.len(),
{
    broadcast use vstd::seq_lib::group_to_multiset_ensures;

    if steps.len() > 0 {
        let rest = steps.drop_last();
        lemma_order_is_permutation(rest);
        let sorted = in_order(rest);
        lemma_rank(sorted, steps.last());
        vstd::seq_lib::to_multiset_insert(
            sorted,
            rank(sorted, steps.last()) as int,
            steps.last(),
        );
        assert(steps =~= rest.push(steps.last()));
    } else {
        assert(in_order(steps) =~= steps);
    }
}

proof fn lemma_rank(sorted: Seq<StepRecord>, x: StepRecord)
    ensures
        rank(sorted, x) <= sorted.len(),
        forall|i: int| rank(sorted, x) <= i < sorted.len() ==> precedes(x, #[trigger] sorted[i]),
        rank(sorted, x) > 0 ==> !precedes(x, sorted[rank(sorted, x) - 1]),
    decreases sorted.len(),
{
    if sorted.len() > 0 {
        lemma_rank(sorted.drop_last(), x);
        if precedes(x, sorted.last()) {
            assert forall|i: int| rank(sorted, x) <= i < sorted.len() implies precedes(
                x,
                #[trigger] sorted[i],
            ) by {
                if i < sorted.len() - 1 {
                    assert(sorted.drop_last()[i] == sorted[i]);
                }
            }
        }
    }
}

/// Sorted steps are in order: none is preceded by a later one.
pub proof fn lemma_order_is_ascending(steps: Seq<StepRecord>)
    ensures
        forall|i: int, j: int|
            0 <= i < j < in_order(steps).len() ==> !precedes(
                #[trigger] in_order(steps)[j],
                #[trigger] in_order(steps)[i],
            ),
    decreases steps.len(),
{
    if steps.len() > 0 {
        let rest = steps.drop_last();
        let x = steps.last();
        let sorted = in_order(rest);
        let k = rank(sorted, x) as int;
        lemma_order_is_ascending(rest);
        lemma_rank(sorted, x);
        let all = in_order(steps);
        assert forall|i: int, j: int| 0 <= i < j < all.len() implies !precedes(
            #[trigger] all[j],
            #[trigger] all[i],
        ) by {
            let p = if i < k {
                i
            } else {
                i - 1
            };
            let q = if j < k {
                j
            } else {
                j - 1
            };
            if i == k {
                assert(all[j] == sorted[q]);
            } else if j == k {
                assert(all[i] == sorted[p]);
                if i < k - 1 {
                    assert(!precedes(sorted[k - 1], sorted[i]));
                }
                assert(!precedes(x, sorted[k - 1]));
            } else {
                assert(all[i] == sorted[p] && all[j] == sorted[q]);
                assert(p < q);
            }
        }
    }
}

/// Kept windows are disjoint and inside the run.
pub proof fn lemma_kept_disjoint(
    ordered: Seq<StepRecord>,
    anchor: u64,
    run_start: u64,
    run_end: u64,
)
    requires
        none_inverted(ordered),
    ensures
        disjoint(placement(ordered, anchor, run_start, run_end).0, run_start, run_end),
    decreases ordered.len(),
{
    if ordered.len() > 0 {
        let rest = ordered.drop_last();
        assert(none_inverted(rest)) by {
            assert forall|i: int| 0 <= i < rest.len() implies (
            #[trigger] rest[i]).t_start_unix_ns <= rest[i].t_end_unix_ns by {
                assert(rest[i] == ordered[i]);
            }
        }
        lemma_kept_disjoint(rest, anchor, run_start, run_end);
        let kept = placement(rest, anchor, run_start, run_end).0;
        let all = placement(ordered, anchor, run_start, run_end).0;
        assert(ordered[ordered.len() - 1] == ordered.last());
        match place(ordered.last(), anchor, run_start, run_end, last_end(kept)) {
            Ok(step) => {
                assert forall|i: int, j: int| 0 <= i < j < all.len() implies (
                #[trigger] all[i]).end <= (#[trigger] all[j]).start by {
                    if j == kept.len() && i < kept.len() - 1 {
                        assert(kept[i].end <= kept[kept.len() - 1].start);
                    }
                }
            },
            Err(_) => {},
        }
    }
}

// ---------------------------------------------------------------------------
// Counters over a window.
// ---------------------------------------------------------------------------

/// How many of the times are earlier than `t`.
pub open spec fn count_below(times: Seq<u64>, t: u64) -> nat
    decreases times.len(),
{
    if times.len() == 0 {
        0
    } else {
        count_below(times.drop_last(), t) + if times.last() < t {
            1nat
        } else {
            0
        }
    }
}

/// How many of the times are no later than `t`.
pub open spec fn count_up_to(times: Seq<u64>, t: u64) -> nat
    decreases times.len(),
{
    if times.len() == 0 {
        0
    } else {
        count_up_to(times.drop_last(), t) + if times.last() <= t {
            1nat
        } else {
            0
        }
    }
}

/// Whether the times never step back.
pub open spec fn ascending(times: Seq<u64>) -> bool {
    forall|i: int, j: int| 0 <= i <= j < times.len() ==> times[i] <= times[j]
}

/// The samples between which a counter is read over `[s, e]`: the last one no
/// later than `e`, against the last one no later than `s`, or against the first
/// sample where every one is later. `None` when no sample lies in the window.
pub open spec fn bracket_of(times: Seq<u64>, s: u64, e: u64) -> Option<(int, int)> {
    let base = count_up_to(times, s);
    let hi = count_up_to(times, e);
    if hi > count_below(times, s) {
        Some(
            (
                if base > 0 {
                    base - 1
                } else {
                    0
                },
                hi - 1,
            ),
        )
    } else {
        None
    }
}

proof fn lemma_count_bounds(times: Seq<u64>, s: u64, e: u64)
    ensures
        count_below(times, s) <= times.len(),
        count_up_to(times, e) <= times.len(),
        s <= e ==> count_below(times, s) <= count_up_to(times, e),
        s <= e ==> count_up_to(times, s) <= count_up_to(times, e),
        s > e ==> count_up_to(times, e) <= count_below(times, s),
    decreases times.len(),
{
    if times.len() > 0 {
        lemma_count_bounds(times.drop_last(), s, e);
    }
}

/// On a timeline in order of time, the counts are positions: the samples
/// earlier than `s` stand first, and those no later than `e` stand first.
pub proof fn lemma_counts_are_positions(times: Seq<u64>, s: u64, e: u64)
    requires
        ascending(times),
    ensures
        forall|i: int| 0 <= i < times.len() ==> (#[trigger] times[i] < s <==> i < count_below(
            times,
            s,
        )),
        forall|i: int| 0 <= i < times.len() ==> (#[trigger] times[i] <= e <==> i < count_up_to(
            times,
            e,
        )),
    decreases times.len(),
{
    lemma_count_bounds(times, s, e);
    if times.len() > 0 {
        let rest = times.drop_last();
        assert(ascending(rest)) by {
            assert forall|i: int, j: int| 0 <= i <= j < rest.len() implies rest[i] <= rest[j] by {
                assert(rest[i] == times[i] && rest[j] == times[j]);
            }
        }
        lemma_counts_are_positions(rest, s, e);
        lemma_count_bounds(rest, s, e);
        let n = rest.len() as int;
        assert forall|i: int| 0 <= i < times.len() implies (#[trigger] times[i] < s <==> i
            < count_below(times, s)) by {
            if i < n {
                assert(rest[i] == times[i]);
            }
            if times[n] < s {
                if count_below(rest, s) < n {
                    assert(rest[count_below(rest, s) as int] >= s);
                    assert(times[count_below(rest, s) as int] <= times[n]);
                }
            }
        }
        assert forall|i: int| 0 <= i < times.len() implies (#[trigger] times[i] <= e <==> i
            < count_up_to(times, e)) by {
            if i < n {
                assert(rest[i] == times[i]);
            }
            if times[n] <= e {
                if count_up_to(rest, e) < n {
                    assert(rest[count_up_to(rest, e) as int] > e);
                    assert(times[count_up_to(rest, e) as int] <= times[n]);
                }
            }
        }
    }
}

/// Counts the times earlier than `s`, and those no later than `e`.
fn count_both(times: &[u64], s: u64, e: u64) -> (counts: (usize, usize))
    ensures
        counts.0 == count_below(times@, s),
        counts.1 == count_up_to(times@, e),
        counts.0 <= times@.len(),
        counts.1 <= times@.len(),
{
    let mut lo: usize = 0;
    let mut hi: usize = 0;
    let mut i: usize = 0;
    while i < times.len()
        invariant
            i <= times@.len(),
            lo == count_below(times@.take(i as int), s),
            hi == count_up_to(times@.take(i as int), e),
            lo <= i,
            hi <= i,
        decreases times@.len() - i,
    {
        assert(times@.take(i + 1).drop_last() =~= times@.take(i as int));
        if times[i] < s {
            lo += 1;
        }
        if times[i] <= e {
            hi += 1;
        }
        i += 1;
    }
    assert(times@.take(i as int) =~= times@);
    (lo, hi)
}

/// Positions of the baseline and the end sample of a counter delta over
/// `[s, e]`; `None` when no sample lies in the window.
///
/// The baseline stands at the start of the window or before it where a sample
/// does: a counter that jumps between the start of the window and its first
/// sample would otherwise read as zero.
pub fn bracket(times: &[u64], s: u64, e: u64) -> (ends: Option<(usize, usize)>)
    ensures
        ends is Some <==> bracket_of(times@, s, e) is Some,
        ends is Some ==> (ends->0).0 == (bracket_of(times@, s, e)->0).0 && (ends->0).1 == (
        bracket_of(times@, s, e)->0).1,
        ends is Some ==> (ends->0).0 <= (ends->0).1 < times@.len(),
{
    let (lo, hi) = count_both(times, s, e);
    let (_, base) = count_both(times, s, s);
    proof {
        lemma_count_bounds(times@, s, e);
    }
    if hi > lo {
        if base > 0 {
            Some((base - 1, hi - 1))
        } else {
            Some((0, hi - 1))
        }
    } else {
        None
    }
}

/// On a timeline in order of time, a counter is read over `[s, e]` wherever a
/// sample lies in the window: up to the last sample at or before `e`, from the
/// last sample at or before `s`, or from the first sample where none is.
pub proof fn law_baseline_is_at_or_before_the_start(times: Seq<u64>, s: u64, e: u64)
    requires
        ascending(times),
    ensures
        bracket_of(times, s, e) is Some <==> exists|i: int|
            0 <= i < times.len() && s <= #[trigger] times[i] <= e,
        bracket_of(times, s, e) matches Some((first, last)) ==> {
            &&& 0 <= first <= last < times.len()
            &&& times[last] <= e
            &&& last + 1 < times.len() ==> times[last + 1] > e
            &&& if times[0] <= s {
                times[first] <= s && (first + 1 < times.len() ==> times[first + 1] > s)
            } else {
                first == 0
            }
        },
{
    lemma_count_bounds(times, s, e);
    lemma_count_bounds(times, s, s);
    lemma_counts_are_positions(times, s, e);
    lemma_counts_are_positions(times, s, s);
    if let Some((first, last)) = bracket_of(times, s, e) {
        let i = count_below(times, s) as int;
        assert(s <= times[i] <= e);
    }
}

/// The times of GPU samples.
pub open spec fn gpu_times(samples: Seq<GpuSample>) -> Seq<u64> {
    Seq::new(samples.len(), |i: int| samples[i].elapsed_ns)
}

/// The times of cache scrapes.
pub open spec fn kv_times(samples: Seq<KvCacheSample>) -> Seq<u64> {
    Seq::new(samples.len(), |i: int| samples[i].elapsed_ns)
}

/// The times of phase scrapes.
pub open spec fn phase_times(samples: Seq<PhaseSample>) -> Seq<u64> {
    Seq::new(samples.len(), |i: int| samples[i].elapsed_ns)
}

/// Whether a cache counter steps back somewhere.
pub open spec fn kv_regresses(samples: Seq<KvCacheSample>) -> bool {
    exists|i: int|
        0 < i < samples.len() && ((#[trigger] samples[i]).hits < samples[i - 1].hits
            || samples[i].queries < samples[i - 1].queries)
}

/// Whether a counter that may be absent steps back, appears or disappears.
pub open spec fn breaks(before: Option<u64>, after: Option<u64>) -> bool {
    match (before, after) {
        (Some(a), Some(b)) => b < a,
        (None, None) => false,
        _ => true,
    }
}

/// Whether a phase counter steps back, appears or disappears somewhere.
pub open spec fn phase_regresses(samples: Seq<PhaseSample>) -> bool {
    exists|i: int|
        0 < i < samples.len() && ((#[trigger] samples[i]).prompt_tokens < samples[i
            - 1].prompt_tokens || samples[i].generation_tokens < samples[i - 1].generation_tokens
            || breaks(samples[i - 1].prefill_ns, samples[i].prefill_ns) || breaks(
            samples[i - 1].decode_ns,
            samples[i].decode_ns,
        ))
}

/// Without a regression, a later sample never reads below an earlier one.
pub proof fn lemma_kv_ascending(samples: Seq<KvCacheSample>, i: int, j: int)
    requires
        !kv_regresses(samples),
        0 <= i <= j < samples.len(),
    ensures
        samples[i].hits <= samples[j].hits,
        samples[i].queries <= samples[j].queries,
    decreases j - i,
{
    if i < j {
        lemma_kv_ascending(samples, i, j - 1);
        assert(!(samples[j].hits < samples[j - 1].hits));
    }
}

/// Without a regression, a later sample never reads below an earlier one.
proof fn lemma_phase_ascending(samples: Seq<PhaseSample>, i: int, j: int)
    requires
        !phase_regresses(samples),
        0 <= i <= j < samples.len(),
    ensures
        samples[i].prompt_tokens <= samples[j].prompt_tokens,
        samples[i].generation_tokens <= samples[j].generation_tokens,
    decreases j - i,
{
    if i < j {
        lemma_phase_ascending(samples, i, j - 1);
        assert(!(samples[j].prompt_tokens < samples[j - 1].prompt_tokens));
    }
}

/// Whether a cache counter steps back somewhere.
pub fn has_kv_regression(samples: &Vec<KvCacheSample>) -> (r: bool)
    ensures
        r == kv_regresses(samples@),
{
    let mut i: usize = 1;
    while i < samples.len()
        invariant
            1 <= i,
            forall|j: int|
                0 < j < i && j < samples@.len() ==> !((#[trigger] samples@[j]).hits < samples@[j
                    - 1].hits || samples@[j].queries < samples@[j - 1].queries),
        decreases samples@.len() - i,
    {
        if samples[i].hits < samples[i - 1].hits || samples[i].queries < samples[i - 1].queries {
            assert(samples@[i as int].hits == samples@[i as int].hits);
            return true;
        }
        i += 1;
    }
    false
}

/// Whether a counter that may be absent steps back, appears or disappears.
fn counter_breaks(before: Option<u64>, after: Option<u64>) -> (r: bool)
    ensures
        r == breaks(before, after),
{
    match (before, after) {
        (Some(a), Some(b)) => b < a,
        (None, None) => false,
        _ => true,
    }
}

/// Whether a phase counter steps back, appears or disappears somewhere.
pub fn has_phase_regression(samples: &Vec<PhaseSample>) -> (r: bool)
    ensures
        r == phase_regresses(samples@),
{
    let mut i: usize = 1;
    while i < samples.len()
        invariant
            1 <= i,
            forall|j: int|
                0 < j < i && j < samples@.len() ==> !((#[trigger] samples@[j]).prompt_tokens
                    < samples@[j - 1].prompt_tokens || samples@[j].generation_tokens < samples@[j
                    - 1].generation_tokens || breaks(
                    samples@[j - 1].prefill_ns,
                    samples@[j].prefill_ns,
                ) || breaks(samples@[j - 1].decode_ns, samples@[j].decode_ns)),
        decreases samples@.len() - i,
    {
        let a: PhaseSample = samples[i - 1];
        let b: PhaseSample = samples[i];
        if b.prompt_tokens < a.prompt_tokens || b.generation_tokens < a.generation_tokens
            || counter_breaks(a.prefill_ns, b.prefill_ns) || counter_breaks(
            a.decode_ns,
            b.decode_ns,
        ) {
            assert(samples@[i as int] == b);
            return true;
        }
        i += 1;
    }
    false
}

// ---------------------------------------------------------------------------
// Energy over windows.
// ---------------------------------------------------------------------------

/// Whole millijoules in a doubled area of milliwatt-nanoseconds.
pub open spec fn millijoules(area2: nat) -> nat {
    area2 / 2_000_000_000
}

/// The window of a placed step.
pub open spec fn window_of(step: PlacedStep) -> Option<(u64, u64)> {
    Some((step.start, step.end))
}

/// Whole millijoules inside a placed step, over all devices.
pub open spec fn step_mj(samples: Seq<GpuSample>, step: PlacedStep) -> nat {
    millijoules(devices_area2(samples, device_list(samples), window_of(step)))
}

/// Whole millijoules of the run, over all devices.
pub open spec fn run_mj(samples: Seq<GpuSample>) -> nat {
    millijoules(devices_area2(samples, device_list(samples), None))
}

/// Millijoules inside the kept steps.
pub open spec fn kept_mj(samples: Seq<GpuSample>, kept: Seq<PlacedStep>) -> nat
    decreases kept.len(),
{
    if kept.len() == 0 {
        0
    } else {
        kept_mj(samples, kept.drop_last()) + step_mj(samples, kept.last())
    }
}

/// The contribution of one segment to each window, summed over the windows.
spec fn segment_over_windows(a: GpuSample, b: GpuSample, kept: Seq<PlacedStep>) -> nat
    decreases kept.len(),
{
    if kept.len() == 0 {
        0
    } else {
        segment_over_windows(a, b, kept.drop_last()) + if in_window(
            a,
            b,
            window_of(kept.last()),
        ) {
            segment2(a, b)
        } else {
            0
        }
    }
}

/// One device's area inside each window, summed over the windows.
spec fn area_over_windows(samples: Seq<GpuSample>, kept: Seq<PlacedStep>) -> nat
    decreases kept.len(),
{
    if kept.len() == 0 {
        0
    } else {
        area_over_windows(samples, kept.drop_last()) + area2(samples, window_of(kept.last()))
    }
}

/// All devices' area inside each window, summed over the windows.
spec fn devices_over_windows(
    samples: Seq<GpuSample>,
    devices: Seq<u32>,
    kept: Seq<PlacedStep>,
) -> nat
    decreases kept.len(),
{
    if kept.len() == 0 {
        0
    } else {
        devices_over_windows(samples, devices, kept.drop_last()) + devices_area2(
            samples,
            devices,
            window_of(kept.last()),
        )
    }
}

proof fn lemma_disjoint_prefix(kept: Seq<PlacedStep>, run_start: u64, run_end: u64, n: int)
    requires
        disjoint(kept, run_start, run_end),
        0 <= n <= kept.len(),
    ensures
        disjoint(kept.take(n), run_start, run_end),
        kept.len() > 0 ==> disjoint(kept.drop_last(), run_start, run_end),
{
    let head = kept.take(n);
    assert forall|i: int| 0 <= i < head.len() implies run_start <= (#[trigger] head[i]).start
        <= head[i].end <= run_end by {
        assert(head[i] == kept[i]);
    }
    assert forall|i: int, j: int| 0 <= i < j < head.len() implies (#[trigger] head[i]).end <= (
    #[trigger] head[j]).start by {
        assert(head[i] == kept[i] && head[j] == kept[j]);
    }
    if kept.len() > 0 {
        let rest = kept.drop_last();
        assert forall|i: int| 0 <= i < rest.len() implies run_start <= (#[trigger] rest[i]).start
            <= rest[i].end <= run_end by {
            assert(rest[i] == kept[i]);
        }
        assert forall|i: int, j: int| 0 <= i < j < rest.len() implies (#[trigger] rest[i]).end <= (
        #[trigger] rest[j]).start by {
            assert(rest[i] == kept[i] && rest[j] == kept[j]);
        }
    }
}

/// A segment that ends after every window lies in none.
proof fn lemma_segment_after_windows(a: GpuSample, b: GpuSample, kept: Seq<PlacedStep>)
    requires
        forall|i: int| 0 <= i < kept.len() ==> (#[trigger] kept[i]).end < b.elapsed_ns,
    ensures
        segment_over_windows(a, b, kept) == 0,
    decreases kept.len(),
{
    if kept.len() > 0 {
        let rest = kept.drop_last();
        assert forall|i: int| 0 <= i < rest.len() implies (#[trigger] rest[i]).end
            < b.elapsed_ns by {
            assert(rest[i] == kept[i]);
        }
        lemma_segment_after_windows(a, b, rest);
        assert(kept[kept.len() - 1].end < b.elapsed_ns);
    }
}

/// Disjoint windows count a segment at most once.
proof fn lemma_segment_once(
    a: GpuSample,
    b: GpuSample,
    kept: Seq<PlacedStep>,
    run_start: u64,
    run_end: u64,
)
    requires
        disjoint(kept, run_start, run_end),
    ensures
        segment_over_windows(a, b, kept) <= segment2(a, b),
    decreases kept.len(),
{
    if kept.len() > 0 {
        lemma_disjoint_prefix(kept, run_start, run_end, 0);
        let rest = kept.drop_last();
        lemma_segment_once(a, b, rest, run_start, run_end);
        if in_window(a, b, window_of(kept.last())) {
            if gap_ns(a, b) == 0 {
                assert(segment2(a, b) == 0) by (nonlinear_arith)
                    requires
                        segment2(a, b) == (a.power_draw_milliwatts as nat
                            + b.power_draw_milliwatts as nat) * gap_ns(a, b),
                        gap_ns(a, b) == 0,
                ;
            } else {
                assert forall|i: int| 0 <= i < rest.len() implies (#[trigger] rest[i]).end
                    < b.elapsed_ns by {
                    assert(rest[i] == kept[i]);
                    assert(kept[i].end <= kept[kept.len() - 1].start);
                }
                lemma_segment_after_windows(a, b, rest);
            }
        }
    }
}

/// Adding a sample adds its segment to every window it lies in.
proof fn lemma_area_over_windows_unfolds(samples: Seq<GpuSample>, kept: Seq<PlacedStep>)
    requires
        samples.len() >= 2,
    ensures
        area_over_windows(samples, kept) == area_over_windows(samples.drop_last(), kept)
            + segment_over_windows(
            samples[samples.len() - 2],
            samples[samples.len() - 1],
            kept,
        ),
    decreases kept.len(),
{
    if kept.len() > 0 {
        lemma_area_over_windows_unfolds(samples, kept.drop_last());
    }
}

proof fn lemma_area_over_windows_empty(samples: Seq<GpuSample>, kept: Seq<PlacedStep>)
    requires
        samples.len() < 2,
    ensures
        area_over_windows(samples, kept) == 0,
    decreases kept.len(),
{
    if kept.len() > 0 {
        lemma_area_over_windows_empty(samples, kept.drop_last());
    }
}

/// Disjoint windows cover no more of a device's area than there is.
proof fn lemma_area_once(
    samples: Seq<GpuSample>,
    kept: Seq<PlacedStep>,
    run_start: u64,
    run_end: u64,
)
    requires
        disjoint(kept, run_start, run_end),
    ensures
        area_over_windows(samples, kept) <= area2(samples, None),
    decreases samples.len(),
{
    if samples.len() < 2 {
        lemma_area_over_windows_empty(samples, kept);
    } else {
        let a = samples[samples.len() - 2];
        let b = samples[samples.len() - 1];
        lemma_area_once(samples.drop_last(), kept, run_start, run_end);
        lemma_area_over_windows_unfolds(samples, kept);
        lemma_segment_once(a, b, kept, run_start, run_end);
    }
}

proof fn lemma_devices_over_windows_unfolds(
    samples: Seq<GpuSample>,
    devices: Seq<u32>,
    kept: Seq<PlacedStep>,
)
    requires
        devices.len() > 0,
    ensures
        devices_over_windows(samples, devices, kept) == devices_over_windows(
            samples,
            devices.drop_last(),
            kept,
        ) + area_over_windows(of_device(samples, devices.last()), kept),
    decreases kept.len(),
{
    if kept.len() > 0 {
        lemma_devices_over_windows_unfolds(samples, devices, kept.drop_last());
    }
}

proof fn lemma_devices_over_windows_empty(
    samples: Seq<GpuSample>,
    devices: Seq<u32>,
    kept: Seq<PlacedStep>,
)
    requires
        devices.len() == 0,
    ensures
        devices_over_windows(samples, devices, kept) == 0,
    decreases kept.len(),
{
    if kept.len() > 0 {
        lemma_devices_over_windows_empty(samples, devices, kept.drop_last());
    }
}

/// Disjoint windows cover no more area than the run has.
proof fn lemma_devices_once(
    samples: Seq<GpuSample>,
    devices: Seq<u32>,
    kept: Seq<PlacedStep>,
    run_start: u64,
    run_end: u64,
)
    requires
        disjoint(kept, run_start, run_end),
    ensures
        devices_over_windows(samples, devices, kept) <= devices_area2(samples, devices, None),
    decreases devices.len(),
{
    if devices.len() == 0 {
        lemma_devices_over_windows_empty(samples, devices, kept);
    } else {
        lemma_devices_once(samples, devices.drop_last(), kept, run_start, run_end);
        lemma_devices_over_windows_unfolds(samples, devices, kept);
        lemma_area_once(of_device(samples, devices.last()), kept, run_start, run_end);
    }
}

/// Cutting each window to whole millijoules loses at most what cutting their
/// sum does.
proof fn lemma_kept_mj_floor(samples: Seq<GpuSample>, kept: Seq<PlacedStep>)
    ensures
        kept_mj(samples, kept) <= millijoules(
            devices_over_windows(samples, device_list(samples), kept),
        ),
    decreases kept.len(),
{
    if kept.len() > 0 {
        lemma_kept_mj_floor(samples, kept.drop_last());
    }
}

/// Energy inside disjoint windows never exceeds the energy of the run: nothing
/// is counted twice.
pub proof fn lemma_no_double_counting(
    samples: Seq<GpuSample>,
    kept: Seq<PlacedStep>,
    run_start: u64,
    run_end: u64,
)
    requires
        disjoint(kept, run_start, run_end),
    ensures
        kept_mj(samples, kept) <= run_mj(samples),
{
    lemma_kept_mj_floor(samples, kept);
    lemma_devices_once(samples, device_list(samples), kept, run_start, run_end);
}

/// Time inside the kept windows.
pub open spec fn kept_ns(kept: Seq<PlacedStep>) -> nat
    decreases kept.len(),
{
    if kept.len() == 0 {
        0
    } else {
        kept_ns(kept.drop_last()) + (kept.last().end - kept.last().start) as nat
    }
}

/// Nanoseconds from the first to the last sample; zero if the last is not
/// later.
pub open spec fn run_ns(run_start: u64, run_end: u64) -> nat {
    if run_end > run_start {
        (run_end - run_start) as nat
    } else {
        0
    }
}

/// Disjoint windows take no more time than the run.
pub proof fn lemma_time_once(kept: Seq<PlacedStep>, run_start: u64, run_end: u64)
    requires
        disjoint(kept, run_start, run_end),
    ensures
        kept_ns(kept) <= run_ns(run_start, run_end),
        kept.len() > 0 ==> kept_ns(kept) <= kept.last().end - run_start,
    decreases kept.len(),
{
    if kept.len() > 0 {
        lemma_disjoint_prefix(kept, run_start, run_end, 0);
        let rest = kept.drop_last();
        lemma_time_once(rest, run_start, run_end);
        let last = kept[kept.len() - 1];
        assert(run_start <= last.start <= last.end <= run_end);
        if rest.len() > 0 {
            assert(kept[kept.len() - 2].end <= last.start);
            assert(rest.last() == kept[kept.len() - 2]);
        }
    }
}

// ---------------------------------------------------------------------------
// The figures.
// ---------------------------------------------------------------------------

/// Tokens per joule, from tokens and millijoules.
pub open spec fn per_joule(tokens: nat, mj: nat) -> Binary64 {
    integer(tokens).over(integer(mj).over(integer(1000)))
}

/// The rise of the cache counters over a window: hits and queries.
pub open spec fn kv_deltas(samples: Seq<KvCacheSample>, s: u64, e: u64) -> Option<(u64, u64)> {
    match bracket_of(kv_times(samples), s, e) {
        Some((first, last)) => Some(
            (
                (samples[last].hits - samples[first].hits) as u64,
                (samples[last].queries - samples[first].queries) as u64,
            ),
        ),
        None => None,
    }
}

/// The rise of the token counters over a window: generation and prompt.
pub open spec fn phase_deltas(samples: Seq<PhaseSample>, s: u64, e: u64) -> Option<(u64, u64)> {
    match bracket_of(phase_times(samples), s, e) {
        Some((first, last)) => Some(
            (
                (samples[last].generation_tokens - samples[first].generation_tokens) as u64,
                (samples[last].prompt_tokens - samples[first].prompt_tokens) as u64,
            ),
        ),
        None => None,
    }
}

/// The figures of one placed step.
pub open spec fn figures(
    gpu: Seq<GpuSample>,
    kv: Option<Seq<KvCacheSample>>,
    phase: Option<Seq<PhaseSample>>,
    step: PlacedStep,
) -> StepMetrics {
    let mj = step_mj(gpu, step);
    let cache = match kv {
        Some(samples) => kv_deltas(samples, step.start, step.end),
        None => None,
    };
    let tokens = match phase {
        Some(samples) => phase_deltas(samples, step.start, step.end),
        None => None,
    };
    StepMetrics {
        step_id: step.record.step_id,
        kind: step.record.kind,
        start_elapsed_ns: step.start,
        end_elapsed_ns: step.end,
        samples_in_window: (count_up_to(gpu_times(gpu), step.end) - count_below(
            gpu_times(gpu),
            step.start,
        )) as u64,
        energy_mj: mj as u64,
        generation_tokens_delta: match tokens {
            Some((g, _)) => Some(g),
            None => None,
        },
        prompt_tokens_delta: match tokens {
            Some((_, p)) => Some(p),
            None => None,
        },
        cache_hits_delta: match cache {
            Some((h, _)) => Some(h),
            None => None,
        },
        cache_queries_delta: match cache {
            Some((_, q)) => Some(q),
            None => None,
        },
        tokens_per_joule: match tokens {
            Some((g, _)) => if step.record.kind == StepKind::LlmCall && g > 0 && mj > 0 {
                Some(per_joule(g as nat, mj))
            } else {
                None
            },
            None => None,
        },
        cache_hit_rate: match cache {
            Some((h, q)) => if q > 0 {
                Some(integer(h as nat).over(integer(q as nat)))
            } else {
                None
            },
            None => None,
        },
    }
}

/// Energy of the steps of one kind.
pub open spec fn kind_mj(steps: Seq<StepMetrics>, kind: StepKind) -> nat
    decreases steps.len(),
{
    if steps.len() == 0 {
        0
    } else {
        kind_mj(steps.drop_last(), kind) + if steps.last().kind == kind {
            steps.last().energy_mj as nat
        } else {
            0
        }
    }
}

/// Energy of all steps.
pub open spec fn steps_mj(steps: Seq<StepMetrics>) -> nat
    decreases steps.len(),
{
    if steps.len() == 0 {
        0
    } else {
        steps_mj(steps.drop_last()) + steps.last().energy_mj as nat
    }
}

/// The kinds partition the energy of the steps.
pub proof fn lemma_kinds_partition(steps: Seq<StepMetrics>)
    ensures
        kind_mj(steps, StepKind::LlmCall) + kind_mj(steps, StepKind::Tool) == steps_mj(steps),
    decreases steps.len(),
{
    if steps.len() > 0 {
        lemma_kinds_partition(steps.drop_last());
    }
}

/// Generation tokens over the whole run.
pub open spec fn run_tokens(phase: Option<Seq<PhaseSample>>) -> u64 {
    match phase {
        Some(samples) => if samples.len() > 0 {
            (samples.last().generation_tokens - samples[0].generation_tokens) as u64
        } else {
            0
        },
        None => 0,
    }
}

/// Whether there is no attribution: no wall-clock anchor, no two GPU samples
/// to take energy from, or a counter that regressed.
pub open spec fn withheld(
    anchor: Option<u64>,
    gpu: Option<GpuTimeline>,
    kv: Option<Seq<KvCacheSample>>,
    phase: Option<Seq<PhaseSample>>,
) -> bool {
    ||| anchor is None
    ||| gpu is None
    ||| gpu->0.samples@.len() < 2
    ||| kv is Some && kv_regresses(kv->0)
    ||| phase is Some && phase_regresses(phase->0)
}

/// Whether `t` is the attribution of a run to `steps`.
pub open spec fn is_attribution(
    t: TrajectoryMetrics,
    anchor: u64,
    gpu: Seq<GpuSample>,
    kv: Option<Seq<KvCacheSample>>,
    phase: Option<Seq<PhaseSample>>,
    steps: Seq<StepRecord>,
) -> bool {
    let run_start = gpu[0].elapsed_ns;
    let run_end = gpu.last().elapsed_ns;
    let (kept, dropped) = placement(in_order(steps), anchor, run_start, run_end);
    &&& t.steps@ == kept.map_values(|step: PlacedStep| figures(gpu, kv, phase, step))
    &&& t.dropped_steps@ == dropped
    &&& t.total_energy_mj == run_mj(gpu)
    &&& t.llm_energy_mj == kind_mj(t.steps@, StepKind::LlmCall)
    &&& t.tool_energy_mj == kind_mj(t.steps@, StepKind::Tool)
    &&& t.unattributed_energy_mj == t.total_energy_mj - steps_mj(t.steps@)
    &&& t.run_duration_ns == run_ns(run_start, run_end)
    &&& t.unattributed_duration_ns == t.run_duration_ns - kept_ns(kept)
    &&& t.total_generation_tokens == run_tokens(phase)
    &&& t.trajectory_tokens_per_joule == if t.total_generation_tokens > 0 && t.total_energy_mj
        > 0 {
        Some(per_joule(t.total_generation_tokens as nat, t.total_energy_mj as nat))
    } else {
        None
    }
}

/// Sorting inverts no window.
proof fn lemma_order_keeps_windows(steps: Seq<StepRecord>)
    requires
        none_inverted(steps),
    ensures
        none_inverted(in_order(steps)),
    decreases steps.len(),
{
    if steps.len() > 0 {
        let rest = steps.drop_last();
        assert forall|i: int| 0 <= i < rest.len() implies (#[trigger] rest[i]).t_start_unix_ns
            <= rest[i].t_end_unix_ns by {
            assert(rest[i] == steps[i]);
        }
        lemma_order_keeps_windows(rest);
        let sorted = in_order(rest);
        let k = rank(sorted, steps.last()) as int;
        lemma_rank(sorted, steps.last());
        let all = in_order(steps);
        assert forall|i: int| 0 <= i < all.len() implies (#[trigger] all[i]).t_start_unix_ns
            <= all[i].t_end_unix_ns by {
            if i < k {
                assert(all[i] == sorted[i]);
            } else if i == k {
                assert(all[i] == steps[steps.len() - 1]);
            } else {
                assert(all[i] == sorted[i - 1]);
            }
        }
    }
}

/// The steps in order of start and id.
fn sort_steps(steps: &[StepRecord]) -> (sorted: Vec<StepRecord>)
    ensures
        sorted@ == in_order(steps@),
{
    let mut sorted: Vec<StepRecord> = Vec::new();
    let mut i: usize = 0;
    while i < steps.len()
        invariant
            i <= steps@.len(),
            sorted@ == in_order(steps@.take(i as int)),
        decreases steps@.len() - i,
    {
        let x: StepRecord = steps[i];
        let mut k: usize = sorted.len();
        assert(sorted@.take(k as int) =~= sorted@);
        while k > 0 && (x.t_start_unix_ns < sorted[k - 1].t_start_unix_ns || (x.t_start_unix_ns
            == sorted[k - 1].t_start_unix_ns && x.step_id < sorted[k - 1].step_id))
            invariant
                k <= sorted@.len(),
                rank(sorted@.take(k as int), x) == rank(sorted@, x),
            decreases k,
        {
            assert(sorted@.take(k as int).drop_last() =~= sorted@.take(k - 1));
            k -= 1;
        }
        assert(rank(sorted@, x) == k);
        sorted.insert(k, x);
        assert(steps@.take(i + 1).drop_last() =~= steps@.take(i as int));
        i += 1;
    }
    assert(steps@.take(i as int) =~= steps@);
    sorted
}

/// Places ordered steps on the run's clock: the kept ones and the dropped.
fn place_steps(ordered: &Vec<StepRecord>, anchor: u64, run_start: u64, run_end: u64) -> (placed: (
    Vec<PlacedStep>,
    Vec<DroppedStep>,
))
    ensures
        placed.0@ == placement(ordered@, anchor, run_start, run_end).0,
        placed.1@ == placement(ordered@, anchor, run_start, run_end).1,
{
    let mut kept: Vec<PlacedStep> = Vec::new();
    let mut dropped: Vec<DroppedStep> = Vec::new();
    let mut i: usize = 0;
    while i < ordered.len()
        invariant
            i <= ordered@.len(),
            kept@ == placement(ordered@.take(i as int), anchor, run_start, run_end).0,
            dropped@ == placement(ordered@.take(i as int), anchor, run_start, run_end).1,
        decreases ordered@.len() - i,
    {
        let step: StepRecord = ordered[i];
        assert(ordered@.take(i + 1).drop_last() =~= ordered@.take(i as int));
        assert(ordered@.take(i + 1).last() == step);
        if step.t_start_unix_ns < anchor || step.t_end_unix_ns < anchor {
            dropped.push(
                DroppedStep { step_id: step.step_id, reason: DropReason::OutsideRunWindow },
            );
        } else {
            let start: u64 = step.t_start_unix_ns - anchor;
            let end: u64 = step.t_end_unix_ns - anchor;
            if start < run_start || end > run_end {
                dropped.push(
                    DroppedStep { step_id: step.step_id, reason: DropReason::OutsideRunWindow },
                );
            } else if kept.len() > 0 && start < kept[kept.len() - 1].end {
                dropped.push(
                    DroppedStep {
                        step_id: step.step_id,
                        reason: DropReason::OverlapsPrecedingStep,
                    },
                );
            } else {
                kept.push(PlacedStep { record: step, start, end });
            }
        }
        i += 1;
    }
    assert(ordered@.take(i as int) =~= ordered@);
    (kept, dropped)
}

/// Generation tokens per joule.
fn tokens_per_joule(tokens: u64, mj: u64) -> (r: Binary64)
    requires
        mj > 0,
    ensures
        r == per_joule(tokens as nat, mj as nat),
{
    let joules: Binary64 = Binary64::from_u64(mj).quotient(Binary64::from_u64(1000));
    Binary64::from_u64(tokens).quotient(joules)
}

fn kv_window(samples: &Vec<KvCacheSample>, s: u64, e: u64) -> (deltas: Option<(u64, u64)>)
    requires
        !kv_regresses(samples@),
    ensures
        deltas == kv_deltas(samples@, s, e),
{
    let mut times: Vec<u64> = Vec::new();
    let mut i: usize = 0;
    while i < samples.len()
        invariant
            i <= samples@.len(),
            times@ == kv_times(samples@).take(i as int),
        decreases samples@.len() - i,
    {
        times.push(samples[i].elapsed_ns);
        i += 1;
        assert(kv_times(samples@).take(i as int) =~= kv_times(samples@).take(i - 1).push(
            samples@[i - 1].elapsed_ns,
        ));
    }
    assert(kv_times(samples@).take(i as int) =~= kv_times(samples@));
    match bracket(times.as_slice(), s, e) {
        Some((first, last)) => {
            proof {
                lemma_kv_ascending(samples@, first as int, last as int);
            }
            Some(
                (
                    samples[last].hits - samples[first].hits,
                    samples[last].queries - samples[first].queries,
                ),
            )
        },
        None => None,
    }
}

fn phase_window(samples: &Vec<PhaseSample>, s: u64, e: u64) -> (deltas: Option<(u64, u64)>)
    requires
        !phase_regresses(samples@),
    ensures
        deltas == phase_deltas(samples@, s, e),
{
    let mut times: Vec<u64> = Vec::new();
    let mut i: usize = 0;
    while i < samples.len()
        invariant
            i <= samples@.len(),
            times@ == phase_times(samples@).take(i as int),
        decreases samples@.len() - i,
    {
        times.push(samples[i].elapsed_ns);
        i += 1;
        assert(phase_times(samples@).take(i as int) =~= phase_times(samples@).take(i - 1).push(
            samples@[i - 1].elapsed_ns,
        ));
    }
    assert(phase_times(samples@).take(i as int) =~= phase_times(samples@));
    match bracket(times.as_slice(), s, e) {
        Some((first, last)) => {
            proof {
                lemma_phase_ascending(samples@, first as int, last as int);
            }
            Some(
                (
                    samples[last].generation_tokens - samples[first].generation_tokens,
                    samples[last].prompt_tokens - samples[first].prompt_tokens,
                ),
            )
        },
        None => None,
    }
}

/// The cache scrapes of a timeline, if there is one.
pub open spec fn kv_view(timeline: Option<&KvCacheTimeline>) -> Option<Seq<KvCacheSample>> {
    match timeline {
        Some(t) => Some(t.samples@),
        None => None,
    }
}

/// The phase scrapes of a timeline, if there is one.
pub open spec fn phase_view(timeline: Option<&PhaseTimeline>) -> Option<Seq<PhaseSample>> {
    match timeline {
        Some(t) => Some(t.samples@),
        None => None,
    }
}

/// The GPU timeline itself, if there is one.
pub open spec fn gpu_view(timeline: Option<&GpuTimeline>) -> Option<GpuTimeline> {
    match timeline {
        Some(t) => Some(*t),
        None => None,
    }
}

fn step_figures(
    gpu: &Vec<GpuSample>,
    devices: &Vec<u32>,
    times: &Vec<u64>,
    kv: Option<&KvCacheTimeline>,
    phase: Option<&PhaseTimeline>,
    step: PlacedStep,
) -> (m: StepMetrics)
    requires
        devices@ == device_list(gpu@),
        times@ == gpu_times(gpu@),
        run_mj(gpu@) <= u64::MAX,
        step.start <= step.end,
        kv is Some ==> !kv_regresses(kv->0.samples@),
        phase is Some ==> !phase_regresses(phase->0.samples@),
    ensures
        m == figures(gpu@, kv_view(kv), phase_view(phase), step),
{
    proof {
        lemma_devices_window(gpu@, devices@, window_of(step));
        lemma_count_bounds(times@, step.start, step.end);
    }
    let area: u128 = devices_area2_mw_ns(gpu, devices, Some((step.start, step.end)));
    let energy_mj: u64 = (area / 2_000_000_000) as u64;
    let (below, up_to) = count_both(times.as_slice(), step.start, step.end);
    let cache: Option<(u64, u64)> = match kv {
        Some(t) => kv_window(&t.samples, step.start, step.end),
        None => None,
    };
    let tokens: Option<(u64, u64)> = match phase {
        Some(t) => phase_window(&t.samples, step.start, step.end),
        None => None,
    };
    let efficiency: Option<Binary64> = match (step.record.kind, tokens) {
        (StepKind::LlmCall, Some((generation, _))) => if generation > 0 && energy_mj > 0 {
            Some(tokens_per_joule(generation, energy_mj))
        } else {
            None
        },
        _ => None,
    };
    let hit_rate: Option<Binary64> = match cache {
        Some((hits, queries)) => if queries > 0 {
            Some(Binary64::from_u64(hits).quotient(Binary64::from_u64(queries)))
        } else {
            None
        },
        None => None,
    };
    StepMetrics {
        step_id: step.record.step_id,
        kind: step.record.kind,
        start_elapsed_ns: step.start,
        end_elapsed_ns: step.end,
        samples_in_window: (up_to - below) as u64,
        energy_mj,
        generation_tokens_delta: match tokens {
            Some((generation, _)) => Some(generation),
            None => None,
        },
        prompt_tokens_delta: match tokens {
            Some((_, prompt)) => Some(prompt),
            None => None,
        },
        cache_hits_delta: match cache {
            Some((hits, _)) => Some(hits),
            None => None,
        },
        cache_queries_delta: match cache {
            Some((_, queries)) => Some(queries),
            None => None,
        },
        tokens_per_joule: efficiency,
        cache_hit_rate: hit_rate,
    }
}

/// The steps' figures carry the energy of their windows.
proof fn lemma_steps_mj(
    gpu: Seq<GpuSample>,
    kv: Option<Seq<KvCacheSample>>,
    phase: Option<Seq<PhaseSample>>,
    kept: Seq<PlacedStep>,
    run_start: u64,
    run_end: u64,
)
    requires
        disjoint(kept, run_start, run_end),
        run_mj(gpu) <= u64::MAX,
    ensures
        steps_mj(kept.map_values(|step: PlacedStep| figures(gpu, kv, phase, step))) == kept_mj(
            gpu,
            kept,
        ),
        kept_mj(gpu, kept) <= run_mj(gpu),
    decreases kept.len(),
{
    let f = |step: PlacedStep| figures(gpu, kv, phase, step);
    lemma_no_double_counting(gpu, kept, run_start, run_end);
    if kept.len() > 0 {
        lemma_disjoint_prefix(kept, run_start, run_end, 0);
        lemma_steps_mj(gpu, kv, phase, kept.drop_last(), run_start, run_end);
        let all = kept.map_values(f);
        assert(all.drop_last() =~= kept.drop_last().map_values(f));
        assert(all.last() == f(kept.last()));
        lemma_devices_window(gpu, device_list(gpu), window_of(kept.last()));
    } else {
        assert(kept.map_values(f) =~= Seq::empty());
    }
}

/// Whether the energy of a run fits its figure.
pub fn run_energy_fits(timeline: &GpuTimeline) -> (fits: bool)
    ensures
        fits == (run_mj(timeline.samples@) <= u64::MAX),
{
    let devices: Vec<u32> = timeline.device_indices();
    match devices_area_fits(&timeline.samples, &devices) {
        Some(area) => area / 2_000_000_000 <= u64::MAX as u128,
        None => false,
    }
}

/// Attributes a run to the steps of a trajectory, from the raw timelines.
///
/// `None` when the join is impossible: no wall-clock anchor, fewer than two
/// GPU samples, or a cache or phase counter that regressed. Steps outside the
/// run, or overlapping the preceding kept step, are left out and named.
pub fn derive_trajectory_from_timelines(
    reference_instant_unix_ns: Option<u64>,
    gpu_timeline: Option<&GpuTimeline>,
    kvcache_timeline: Option<&KvCacheTimeline>,
    phase_timeline: Option<&PhaseTimeline>,
    steps: &[StepRecord],
) -> (trajectory: Option<TrajectoryMetrics>)
    requires
        none_inverted(steps@),
        gpu_timeline is Some ==> run_mj(gpu_timeline->0.samples@) <= u64::MAX,
    ensures
        trajectory is None <==> withheld(
            reference_instant_unix_ns,
            gpu_view(gpu_timeline),
            kv_view(kvcache_timeline),
            phase_view(phase_timeline),
        ),
        trajectory is Some ==> is_attribution(
            trajectory->0,
            reference_instant_unix_ns->0,
            gpu_timeline->0.samples@,
            kv_view(kvcache_timeline),
            phase_view(phase_timeline),
            steps@,
        ),
{
    let anchor: u64 = match reference_instant_unix_ns {
        Some(anchor) => anchor,
        None => return None,
    };
    let timeline: &GpuTimeline = match gpu_timeline {
        Some(timeline) => timeline,
        None => return None,
    };
    if timeline.samples.len() < 2 {
        return None;
    }
    if let Some(kv) = kvcache_timeline {
        if has_kv_regression(&kv.samples) {
            return None;
        }
    }
    if let Some(phase) = phase_timeline {
        if has_phase_regression(&phase.samples) {
            return None;
        }
    }
    let gpu: &Vec<GpuSample> = &timeline.samples;
    let run_start: u64 = gpu[0].elapsed_ns;
    let run_end: u64 = gpu[gpu.len() - 1].elapsed_ns;
    let devices: Vec<u32> = timeline.device_indices();
    let mut times: Vec<u64> = Vec::new();
    let mut i: usize = 0;
    while i < gpu.len()
        invariant
            i <= gpu@.len(),
            times@ == gpu_times(gpu@).take(i as int),
        decreases gpu@.len() - i,
    {
        times.push(gpu[i].elapsed_ns);
        i += 1;
        assert(gpu_times(gpu@).take(i as int) =~= gpu_times(gpu@).take(i - 1).push(
            gpu@[i - 1].elapsed_ns,
        ));
    }
    assert(gpu_times(gpu@).take(i as int) =~= gpu_times(gpu@));
    let ordered: Vec<StepRecord> = sort_steps(steps);
    let (kept, dropped_steps) = place_steps(&ordered, anchor, run_start, run_end);
    proof {
        lemma_order_keeps_windows(steps@);
        lemma_kept_disjoint(ordered@, anchor, run_start, run_end);
        lemma_time_once(kept@, run_start, run_end);
    }
    let ghost kv_samples = kv_view(kvcache_timeline);
    let ghost phase_samples = phase_view(phase_timeline);
    let ghost f = |step: PlacedStep| figures(gpu@, kv_samples, phase_samples, step);
    let mut figures_of: Vec<StepMetrics> = Vec::new();
    let mut llm_energy_mj: u64 = 0;
    let mut tool_energy_mj: u64 = 0;
    let mut inside_ns: u64 = 0;
    let mut k: usize = 0;
    assert(kept@.take(0).map_values(f) =~= Seq::empty());
    while k < kept.len()
        invariant
            k <= kept@.len(),
            disjoint(kept@, run_start, run_end),
            devices@ == device_list(gpu@),
            times@ == gpu_times(gpu@),
            run_mj(gpu@) <= u64::MAX,
            kv_samples == kv_view(kvcache_timeline),
            phase_samples == phase_view(phase_timeline),
            kvcache_timeline is Some ==> !kv_regresses(kvcache_timeline->0.samples@),
            phase_timeline is Some ==> !phase_regresses(phase_timeline->0.samples@),
            f == (|step: PlacedStep| figures(gpu@, kv_samples, phase_samples, step)),
            figures_of@ == kept@.take(k as int).map_values(f),
            llm_energy_mj == kind_mj(figures_of@, StepKind::LlmCall),
            tool_energy_mj == kind_mj(figures_of@, StepKind::Tool),
            inside_ns == kept_ns(kept@.take(k as int)),
        decreases kept@.len() - k,
    {
        let step: PlacedStep = kept[k];
        let m: StepMetrics = step_figures(
            gpu,
            &devices,
            &times,
            kvcache_timeline,
            phase_timeline,
            step,
        );
        let ghost before = figures_of@;
        figures_of.push(m);
        proof {
            let head = kept@.take(k + 1);
            assert(head.drop_last() =~= kept@.take(k as int));
            assert(head.last() == step);
            assert(figures_of@ =~= head.map_values(f));
            assert(figures_of@.drop_last() =~= before);
            lemma_disjoint_prefix(kept@, run_start, run_end, k + 1);
            lemma_steps_mj(gpu@, kv_samples, phase_samples, head, run_start, run_end);
            lemma_kinds_partition(figures_of@);
            lemma_time_once(head, run_start, run_end);
        }
        match step.record.kind {
            StepKind::LlmCall => {
                llm_energy_mj = llm_energy_mj + m.energy_mj;
            },
            StepKind::Tool => {
                tool_energy_mj = tool_energy_mj + m.energy_mj;
            },
        }
        inside_ns = inside_ns + (step.end - step.start);
        k += 1;
    }
    assert(kept@.take(k as int) =~= kept@);
    proof {
        lemma_steps_mj(gpu@, kv_samples, phase_samples, kept@, run_start, run_end);
        lemma_kinds_partition(figures_of@);
    }
    let total_area: u128 = devices_area2_mw_ns(gpu, &devices, None);
    let total_energy_mj: u64 = (total_area / 2_000_000_000) as u64;
    let unattributed_energy_mj: u64 = total_energy_mj - (llm_energy_mj + tool_energy_mj);
    let run_duration_ns: u64 = run_end.saturating_sub(run_start);
    let total_generation_tokens: u64 = match phase_timeline {
        Some(phase) => if phase.samples.len() > 0 {
            let last: usize = phase.samples.len() - 1;
            proof {
                lemma_phase_ascending(phase.samples@, 0, last as int);
            }
            phase.samples[last].generation_tokens - phase.samples[0].generation_tokens
        } else {
            0
        },
        None => 0,
    };
    let trajectory_tokens_per_joule: Option<Binary64> = if total_generation_tokens > 0
        && total_energy_mj > 0 {
        Some(tokens_per_joule(total_generation_tokens, total_energy_mj))
    } else {
        None
    };
    Some(
        TrajectoryMetrics {
            steps: figures_of,
            total_energy_mj,
            total_generation_tokens,
            trajectory_tokens_per_joule,
            llm_energy_mj,
            tool_energy_mj,
            unattributed_energy_mj,
            run_duration_ns,
            unattributed_duration_ns: run_duration_ns - inside_ns,
            dropped_steps,
        },
    )
}

// ---------------------------------------------------------------------------
// Laws.
// ---------------------------------------------------------------------------

/// Time inside the steps, from their figures.
pub open spec fn steps_ns(steps: Seq<StepMetrics>) -> nat
    decreases steps.len(),
{
    if steps.len() == 0 {
        0
    } else {
        steps_ns(steps.drop_last()) + (steps.last().end_elapsed_ns
            - steps.last().start_elapsed_ns) as nat
    }
}

proof fn lemma_steps_ns(
    gpu: Seq<GpuSample>,
    kv: Option<Seq<KvCacheSample>>,
    phase: Option<Seq<PhaseSample>>,
    kept: Seq<PlacedStep>,
)
    ensures
        steps_ns(kept.map_values(|step: PlacedStep| figures(gpu, kv, phase, step))) == kept_ns(
            kept,
        ),
    decreases kept.len(),
{
    let f = |step: PlacedStep| figures(gpu, kv, phase, step);
    if kept.len() > 0 {
        lemma_steps_ns(gpu, kv, phase, kept.drop_last());
        assert(kept.map_values(f).drop_last() =~= kept.drop_last().map_values(f));
        assert(kept.map_values(f).last() == f(kept.last()));
    } else {
        assert(kept.map_values(f) =~= Seq::empty());
    }
}

/// Steps and remainder reconcile: the energy of the steps, which is that of
/// LLM calls and of tools, and the unattributed energy add up to the energy of
/// the run exactly.
pub proof fn law_energy_reconciles(
    t: TrajectoryMetrics,
    anchor: u64,
    gpu: Seq<GpuSample>,
    kv: Option<Seq<KvCacheSample>>,
    phase: Option<Seq<PhaseSample>>,
    steps: Seq<StepRecord>,
)
    requires
        is_attribution(t, anchor, gpu, kv, phase, steps),
    ensures
        steps_mj(t.steps@) + t.unattributed_energy_mj == t.total_energy_mj,
        t.llm_energy_mj + t.tool_energy_mj + t.unattributed_energy_mj == t.total_energy_mj,
{
    lemma_kinds_partition(t.steps@);
}

/// Time reconciles as energy does: the windows of the steps and the
/// unattributed time add up to the run.
pub proof fn law_time_reconciles(
    t: TrajectoryMetrics,
    anchor: u64,
    gpu: Seq<GpuSample>,
    kv: Option<Seq<KvCacheSample>>,
    phase: Option<Seq<PhaseSample>>,
    steps: Seq<StepRecord>,
)
    requires
        is_attribution(t, anchor, gpu, kv, phase, steps),
    ensures
        steps_ns(t.steps@) + t.unattributed_duration_ns == t.run_duration_ns,
{
    let kept = placement(in_order(steps), anchor, gpu[0].elapsed_ns, gpu.last().elapsed_ns).0;
    lemma_steps_ns(gpu, kv, phase, kept);
}

/// The windows of the attributed steps lie inside the run and do not overlap.
pub proof fn law_windows_disjoint(
    t: TrajectoryMetrics,
    anchor: u64,
    gpu: Seq<GpuSample>,
    kv: Option<Seq<KvCacheSample>>,
    phase: Option<Seq<PhaseSample>>,
    steps: Seq<StepRecord>,
)
    requires
        none_inverted(steps),
        is_attribution(t, anchor, gpu, kv, phase, steps),
    ensures
        forall|i: int|
            0 <= i < t.steps@.len() ==> gpu[0].elapsed_ns <= (
            #[trigger] t.steps@[i]).start_elapsed_ns <= t.steps@[i].end_elapsed_ns
                <= gpu.last().elapsed_ns,
        forall|i: int, j: int|
            0 <= i < j < t.steps@.len() ==> (#[trigger] t.steps@[i]).end_elapsed_ns <= (
            #[trigger] t.steps@[j]).start_elapsed_ns,
{
    let run_start = gpu[0].elapsed_ns;
    let run_end = gpu.last().elapsed_ns;
    let kept = placement(in_order(steps), anchor, run_start, run_end).0;
    lemma_order_keeps_windows(steps);
    lemma_kept_disjoint(in_order(steps), anchor, run_start, run_end);
    assert forall|i: int| 0 <= i < t.steps@.len() implies (
    #[trigger] t.steps@[i]).start_elapsed_ns == kept[i].start && t.steps@[i].end_elapsed_ns
        == kept[i].end by {}
}

/// Two sequences of the same steps, both in order, are the same sequence where
/// an id stands for one step.
proof fn lemma_order_is_unique(a: Seq<StepRecord>, b: Seq<StepRecord>)
    requires
        a.to_multiset() == b.to_multiset(),
        forall|i: int, j: int|
            0 <= i < j < a.len() ==> !precedes(#[trigger] a[j], #[trigger] a[i]),
        forall|i: int, j: int|
            0 <= i < j < b.len() ==> !precedes(#[trigger] b[j], #[trigger] b[i]),
        forall|i: int, j: int|
            0 <= i < a.len() && 0 <= j < a.len() && (#[trigger] a[i]).step_id == (
            #[trigger] a[j]).step_id ==> a[i] == a[j],
    ensures
        a == b,
    decreases a.len(),
{
    broadcast use vstd::seq_lib::group_to_multiset_ensures;

    assert(a.len() == a.to_multiset().len());
    assert(b.len() == b.to_multiset().len());
    if a.len() == 0 {
        assert(a =~= b);
    } else {
        let x = a.last();
        let y = b.last();
        assert(b.contains(y));
        assert(b.to_multiset().count(y) > 0);
        assert(a.contains(y));
        assert(a.contains(x));
        assert(a.to_multiset().count(x) > 0);
        assert(b.contains(x));
        let i = choose|i: int| 0 <= i < a.len() && a[i] == y;
        let j = choose|j: int| 0 <= j < b.len() && b[j] == x;
        if i < a.len() - 1 && j < b.len() - 1 {
            assert(!precedes(a[a.len() - 1], a[i]));
            assert(!precedes(b[b.len() - 1], b[j]));
            assert(a[i].step_id == a[a.len() - 1].step_id);
        }
        assert(x == y);
        let p = a.drop_last();
        let q = b.drop_last();
        assert(a =~= p.push(x));
        assert(b =~= q.push(x));
        assert(p.to_multiset() =~= a.to_multiset().remove(x));
        assert(q.to_multiset() =~= b.to_multiset().remove(x));
        lemma_order_is_unique(p, q);
    }
}

/// The order of the lines in a steps file does not matter: the same steps, no
/// two of which share an id, are attributed in the same way however they come.
pub proof fn law_line_order_is_immaterial(
    t: TrajectoryMetrics,
    anchor: u64,
    gpu: Seq<GpuSample>,
    kv: Option<Seq<KvCacheSample>>,
    phase: Option<Seq<PhaseSample>>,
    steps: Seq<StepRecord>,
    shuffled: Seq<StepRecord>,
)
    requires
        steps.to_multiset() == shuffled.to_multiset(),
        forall|i: int, j: int|
            0 <= i < j < steps.len() ==> (#[trigger] steps[i]).step_id != (
            #[trigger] steps[j]).step_id,
    ensures
        is_attribution(t, anchor, gpu, kv, phase, steps) <==> is_attribution(
            t,
            anchor,
            gpu,
            kv,
            phase,
            shuffled,
        ),
{
    let a = in_order(steps);
    let b = in_order(shuffled);
    lemma_order_is_permutation(steps);
    lemma_order_is_permutation(shuffled);
    lemma_order_is_ascending(steps);
    lemma_order_is_ascending(shuffled);
    assert forall|i: int, j: int|
        0 <= i < a.len() && 0 <= j < a.len() && (#[trigger] a[i]).step_id == (
        #[trigger] a[j]).step_id implies a[i] == a[j] by {
        broadcast use vstd::seq_lib::group_to_multiset_ensures;

        assert(a.contains(a[i]) && a.contains(a[j]));
        assert(steps.to_multiset().count(a[i]) > 0 && steps.to_multiset().count(a[j]) > 0);
        assert(steps.contains(a[i]) && steps.contains(a[j]));
        let k = choose|k: int| 0 <= k < steps.len() && steps[k] == a[i];
        let l = choose|l: int| 0 <= l < steps.len() && steps[l] == a[j];
        assert(steps[k].step_id == steps[l].step_id);
    }
    lemma_order_is_unique(a, b);
}

/// No step is lost: each is attributed or named among the dropped.
pub proof fn law_every_step_accounted(
    t: TrajectoryMetrics,
    anchor: u64,
    gpu: Seq<GpuSample>,
    kv: Option<Seq<KvCacheSample>>,
    phase: Option<Seq<PhaseSample>>,
    steps: Seq<StepRecord>,
)
    requires
        is_attribution(t, anchor, gpu, kv, phase, steps),
    ensures
        t.steps@.len() + t.dropped_steps@.len() == steps.len(),
        forall|i: int|
            0 <= i < steps.len() ==> attributed(t, (#[trigger] steps[i]).step_id) || dropped(
                t,
                steps[i].step_id,
            ),
{
    let run_start = gpu[0].elapsed_ns;
    let run_end = gpu.last().elapsed_ns;
    let ordered = in_order(steps);
    lemma_order_is_permutation(steps);
    lemma_placement_accounts(ordered, anchor, run_start, run_end);
    let (kept, out) = placement(ordered, anchor, run_start, run_end);
    assert forall|i: int| 0 <= i < steps.len() implies attributed(
        t,
        (#[trigger] steps[i]).step_id,
    ) || dropped(t, steps[i].step_id) by {
        broadcast use vstd::seq_lib::group_to_multiset_ensures;

        assert(steps.to_multiset().count(steps[i]) > 0) by {
            assert(steps.contains(steps[i]));
        }
        assert(ordered.contains(steps[i]));
        let j = choose|j: int| 0 <= j < ordered.len() && ordered[j] == steps[i];
        if exists|k: int| 0 <= k < kept.len() && (#[trigger] kept[k]).record == ordered[j] {
            let k = choose|k: int| 0 <= k < kept.len() && (#[trigger] kept[k]).record == ordered[j];
            assert(t.steps@[k].step_id == steps[i].step_id);
        } else {
            let k = choose|k: int|
                0 <= k < out.len() && (#[trigger] out[k]).step_id == ordered[j].step_id;
            assert(t.dropped_steps@[k].step_id == steps[i].step_id);
        }
    }
}

/// Whether a step with this id has figures.
pub open spec fn attributed(t: TrajectoryMetrics, step_id: u64) -> bool {
    exists|k: int| 0 <= k < t.steps@.len() && (#[trigger] t.steps@[k]).step_id == step_id
}

/// Whether a step with this id is named among the dropped.
pub open spec fn dropped(t: TrajectoryMetrics, step_id: u64) -> bool {
    exists|k: int|
        0 <= k < t.dropped_steps@.len() && (#[trigger] t.dropped_steps@[k]).step_id == step_id
}

proof fn lemma_placement_accounts(
    ordered: Seq<StepRecord>,
    anchor: u64,
    run_start: u64,
    run_end: u64,
)
    ensures
        ({
            let (kept, out) = placement(ordered, anchor, run_start, run_end);
            &&& kept.len() + out.len() == ordered.len()
            &&& forall|j: int|
                0 <= j < ordered.len() ==> (exists|k: int|
                    0 <= k < kept.len() && (#[trigger] kept[k]).record == #[trigger] ordered[j])
                    || (exists|k: int|
                    0 <= k < out.len() && (#[trigger] out[k]).step_id == ordered[j].step_id)
        }),
    decreases ordered.len(),
{
    if ordered.len() > 0 {
        let rest = ordered.drop_last();
        lemma_placement_accounts(rest, anchor, run_start, run_end);
        let (kept0, out0) = placement(rest, anchor, run_start, run_end);
        let (kept, out) = placement(ordered, anchor, run_start, run_end);
        assert forall|j: int| 0 <= j < ordered.len() implies (exists|k: int|
            0 <= k < kept.len() && (#[trigger] kept[k]).record == #[trigger] ordered[j]) || (
        exists|k: int| 0 <= k < out.len() && (#[trigger] out[k]).step_id == ordered[j].step_id) by {
            if j < rest.len() {
                assert(rest[j] == ordered[j]);
                if exists|k: int| 0 <= k < kept0.len() && (#[trigger] kept0[k]).record == rest[j] {
                    let k = choose|k: int|
                        0 <= k < kept0.len() && (#[trigger] kept0[k]).record == rest[j];
                    assert(kept[k] == kept0[k]);
                } else {
                    let k = choose|k: int|
                        0 <= k < out0.len() && (#[trigger] out0[k]).step_id == rest[j].step_id;
                    assert(out[k] == out0[k]);
                }
            } else {
                match place(ordered.last(), anchor, run_start, run_end, last_end(kept0)) {
                    Ok(step) => {
                        assert(kept[kept0.len() as int].record == ordered[j]);
                    },
                    Err(_) => {
                        assert(out[out0.len() as int].step_id == ordered[j].step_id);
                    },
                }
            }
        }
    }
}

/// An efficiency is never reported for a tool step, nor where tokens or energy
/// are zero or unobserved: absence is not a measured zero.
pub proof fn law_absence_is_not_zero(
    t: TrajectoryMetrics,
    anchor: u64,
    gpu: Seq<GpuSample>,
    kv: Option<Seq<KvCacheSample>>,
    phase: Option<Seq<PhaseSample>>,
    steps: Seq<StepRecord>,
    i: int,
)
    requires
        is_attribution(t, anchor, gpu, kv, phase, steps),
        0 <= i < t.steps@.len(),
    ensures
        t.steps@[i].kind == StepKind::Tool ==> t.steps@[i].tokens_per_joule is None,
        phase is None ==> t.steps@[i].generation_tokens_delta is None
            && t.steps@[i].prompt_tokens_delta is None && t.steps@[i].tokens_per_joule is None,
        kv is None ==> t.steps@[i].cache_hits_delta is None && t.steps@[i].cache_queries_delta
            is None && t.steps@[i].cache_hit_rate is None,
        t.steps@[i].generation_tokens_delta == Some(0u64) ==> t.steps@[i].tokens_per_joule is None,
        t.steps@[i].cache_queries_delta == Some(0u64) ==> t.steps@[i].cache_hit_rate is None,
{
}

/// Without steps, the whole run is unattributed.
pub proof fn law_no_steps(
    t: TrajectoryMetrics,
    anchor: u64,
    gpu: Seq<GpuSample>,
    kv: Option<Seq<KvCacheSample>>,
    phase: Option<Seq<PhaseSample>>,
)
    requires
        is_attribution(t, anchor, gpu, kv, phase, Seq::empty()),
    ensures
        t.unattributed_energy_mj == t.total_energy_mj,
        t.unattributed_duration_ns == t.run_duration_ns,
{
}

/// The kept steps and the dropped ones, each against the record it came from.
proof fn lemma_placement_reasons(
    ordered: Seq<StepRecord>,
    anchor: u64,
    run_start: u64,
    run_end: u64,
)
    requires
        forall|i: int, j: int|
            0 <= i < j < ordered.len() ==> (#[trigger] ordered[i]).t_start_unix_ns <= (
            #[trigger] ordered[j]).t_start_unix_ns,
    ensures
        ({
            let (kept, out) = placement(ordered, anchor, run_start, run_end);
            &&& forall|k: int|
                0 <= k < kept.len() ==> ordered.contains((#[trigger] kept[k]).record)
                    && kept[k].record.t_start_unix_ns == anchor + kept[k].start
                    && kept[k].record.t_end_unix_ns == anchor + kept[k].end && run_start
                    <= kept[k].start && kept[k].end <= run_end
            &&& forall|k: int|
                0 <= k < out.len() ==> exists|r: StepRecord|
                    #[trigger] ordered.contains(r) && r.step_id == (#[trigger] out[k]).step_id
                        && match out[k].reason {
                        DropReason::OutsideRunWindow => r.t_start_unix_ns < anchor + run_start
                            || r.t_end_unix_ns < anchor || r.t_end_unix_ns > anchor + run_end,
                        DropReason::OverlapsPrecedingStep => r.t_start_unix_ns >= anchor
                            + run_start && r.t_end_unix_ns <= anchor + run_end && exists|i: int|
                            0 <= i < kept.len() && anchor + (#[trigger] kept[i]).start
                                <= r.t_start_unix_ns < anchor + kept[i].end,
                    }
        }),
    decreases ordered.len(),
{
    if ordered.len() > 0 {
        let rest = ordered.drop_last();
        let x = ordered.last();
        assert forall|i: int, j: int| 0 <= i < j < rest.len() implies (
        #[trigger] rest[i]).t_start_unix_ns <= (#[trigger] rest[j]).t_start_unix_ns by {
            assert(rest[i] == ordered[i] && rest[j] == ordered[j]);
        }
        lemma_placement_reasons(rest, anchor, run_start, run_end);
        let (kept0, out0) = placement(rest, anchor, run_start, run_end);
        let (kept, out) = placement(ordered, anchor, run_start, run_end);
        assert(ordered[ordered.len() - 1] == x);
        assert(ordered.contains(x));
        assert forall|r: StepRecord| #[trigger] rest.contains(r) implies ordered.contains(r)
            && r.t_start_unix_ns <= x.t_start_unix_ns by {
            let i = choose|i: int| 0 <= i < rest.len() && rest[i] == r;
            assert(ordered[i] == r);
            assert(ordered[i].t_start_unix_ns <= ordered[ordered.len() - 1].t_start_unix_ns);
        }
        assert forall|k: int| 0 <= k < kept.len() implies ordered.contains(
            (#[trigger] kept[k]).record,
        ) && kept[k].record.t_start_unix_ns == anchor + kept[k].start
            && kept[k].record.t_end_unix_ns == anchor + kept[k].end && run_start <= kept[k].start
            && kept[k].end <= run_end by {
            if k < kept0.len() {
                assert(kept[k] == kept0[k]);
                assert(rest.contains(kept0[k].record));
            }
        }
        assert forall|k: int| 0 <= k < out.len() implies exists|r: StepRecord|
            #[trigger] ordered.contains(r) && r.step_id == (#[trigger] out[k]).step_id
                && match out[k].reason {
                DropReason::OutsideRunWindow => r.t_start_unix_ns < anchor + run_start
                    || r.t_end_unix_ns < anchor || r.t_end_unix_ns > anchor + run_end,
                DropReason::OverlapsPrecedingStep => r.t_start_unix_ns >= anchor + run_start
                    && r.t_end_unix_ns <= anchor + run_end && exists|i: int|
                    0 <= i < kept.len() && anchor + (#[trigger] kept[i]).start
                        <= r.t_start_unix_ns < anchor + kept[i].end,
            } by {
            if k < out0.len() {
                assert(out[k] == out0[k]);
                let r = choose|r: StepRecord|
                    #[trigger] rest.contains(r) && r.step_id == out0[k].step_id
                        && match out0[k].reason {
                        DropReason::OutsideRunWindow => r.t_start_unix_ns < anchor + run_start
                            || r.t_end_unix_ns < anchor || r.t_end_unix_ns > anchor + run_end,
                        DropReason::OverlapsPrecedingStep => r.t_start_unix_ns >= anchor
                            + run_start && r.t_end_unix_ns <= anchor + run_end && exists|i: int|
                            0 <= i < kept0.len() && anchor + (#[trigger] kept0[i]).start
                                <= r.t_start_unix_ns < anchor + kept0[i].end,
                    };
                assert(ordered.contains(r));
                if out0[k].reason is OverlapsPrecedingStep {
                    let i = choose|i: int|
                        0 <= i < kept0.len() && anchor + (#[trigger] kept0[i]).start
                            <= r.t_start_unix_ns < anchor + kept0[i].end;
                    assert(kept[i] == kept0[i]);
                }
            } else {
                assert(out[k].step_id == x.step_id);
                if out[k].reason is OverlapsPrecedingStep {
                    let i = kept0.len() - 1;
                    assert(kept[i] == kept0[i]);
                    assert(rest.contains(kept0[i].record));
                }
            }
        }
    }
}

/// Every kept step stands where its record says, on the run's clock and inside
/// the run. A step is out as outside only if its record reaches beyond the run,
/// and out as overlapping only if its record lies inside the run and begins
/// within the window of a kept step.
pub proof fn law_steps_are_placed_by_their_records(
    t: TrajectoryMetrics,
    anchor: u64,
    gpu: Seq<GpuSample>,
    kv: Option<Seq<KvCacheSample>>,
    phase: Option<Seq<PhaseSample>>,
    steps: Seq<StepRecord>,
)
    requires
        is_attribution(t, anchor, gpu, kv, phase, steps),
    ensures
        forall|k: int|
            0 <= k < t.steps@.len() ==> gpu[0].elapsed_ns <= (
            #[trigger] t.steps@[k]).start_elapsed_ns && t.steps@[k].end_elapsed_ns
                <= gpu[gpu.len() - 1].elapsed_ns && exists|r: StepRecord|
                #[trigger] steps.contains(r) && r.step_id == t.steps@[k].step_id && r.kind
                    == t.steps@[k].kind && r.t_start_unix_ns == anchor
                    + t.steps@[k].start_elapsed_ns && r.t_end_unix_ns == anchor
                    + t.steps@[k].end_elapsed_ns,
        forall|k: int|
            0 <= k < t.dropped_steps@.len() ==> exists|r: StepRecord|
                #[trigger] steps.contains(r) && r.step_id == (
                #[trigger] t.dropped_steps@[k]).step_id && match t.dropped_steps@[k].reason {
                    DropReason::OutsideRunWindow => r.t_start_unix_ns < anchor + gpu[0].elapsed_ns
                        || r.t_end_unix_ns < anchor || r.t_end_unix_ns > anchor + gpu[gpu.len()
                        - 1].elapsed_ns,
                    DropReason::OverlapsPrecedingStep => r.t_start_unix_ns >= anchor
                        + gpu[0].elapsed_ns && r.t_end_unix_ns <= anchor + gpu[gpu.len()
                        - 1].elapsed_ns && exists|i: int|
                        0 <= i < t.steps@.len() && anchor + (
                        #[trigger] t.steps@[i]).start_elapsed_ns <= r.t_start_unix_ns < anchor
                            + t.steps@[i].end_elapsed_ns,
                },
{
    broadcast use vstd::seq_lib::group_to_multiset_ensures;

    let run_start = gpu[0].elapsed_ns;
    let run_end = gpu.last().elapsed_ns;
    let ordered = in_order(steps);
    let (kept, out) = placement(ordered, anchor, run_start, run_end);
    lemma_order_is_permutation(steps);
    lemma_order_is_ascending(steps);
    lemma_placement_reasons(ordered, anchor, run_start, run_end);
    assert forall|r: StepRecord| #[trigger] ordered.contains(r) implies steps.contains(r) by {
        assert(ordered.to_multiset().count(r) > 0);
    }
    assert forall|k: int| 0 <= k < t.steps@.len() implies run_start <= (
    #[trigger] t.steps@[k]).start_elapsed_ns && t.steps@[k].end_elapsed_ns <= run_end
        && exists|r: StepRecord| #[trigger]
        steps.contains(r) && r.step_id == t.steps@[k].step_id && r.kind == t.steps@[k].kind
            && r.t_start_unix_ns == anchor + t.steps@[k].start_elapsed_ns && r.t_end_unix_ns
            == anchor + t.steps@[k].end_elapsed_ns by {
        assert(ordered.contains(kept[k].record));
        assert(steps.contains(kept[k].record));
    }
    assert forall|k: int| 0 <= k < t.dropped_steps@.len() implies exists|r: StepRecord|
        #[trigger] steps.contains(r) && r.step_id == (#[trigger] t.dropped_steps@[k]).step_id
            && match t.dropped_steps@[k].reason {
            DropReason::OutsideRunWindow => r.t_start_unix_ns < anchor + run_start
                || r.t_end_unix_ns < anchor || r.t_end_unix_ns > anchor + run_end,
            DropReason::OverlapsPrecedingStep => r.t_start_unix_ns >= anchor + run_start
                && r.t_end_unix_ns <= anchor + run_end && exists|i: int|
                0 <= i < t.steps@.len() && anchor + (#[trigger] t.steps@[i]).start_elapsed_ns
                    <= r.t_start_unix_ns < anchor + t.steps@[i].end_elapsed_ns,
        } by {
        let r = choose|r: StepRecord|
            #[trigger] ordered.contains(r) && r.step_id == out[k].step_id && match out[k].reason {
                DropReason::OutsideRunWindow => r.t_start_unix_ns < anchor + run_start
                    || r.t_end_unix_ns < anchor || r.t_end_unix_ns > anchor + run_end,
                DropReason::OverlapsPrecedingStep => r.t_start_unix_ns >= anchor + run_start
                    && r.t_end_unix_ns <= anchor + run_end && exists|i: int|
                    0 <= i < kept.len() && anchor + (#[trigger] kept[i]).start
                        <= r.t_start_unix_ns < anchor + kept[i].end,
            };
        assert(steps.contains(r));
        if out[k].reason is OverlapsPrecedingStep {
            let i = choose|i: int|
                0 <= i < kept.len() && anchor + (#[trigger] kept[i]).start <= r.t_start_unix_ns
                    < anchor + kept[i].end;
            assert(t.steps@[i].start_elapsed_ns == kept[i].start);
        }
    }
}

/// The energy of a step is the area under the power curves of all devices
/// inside its window, a two-billionth of the doubled one, cut to whole
/// millijoules; that of the run is the whole area.
pub proof fn law_energy_is_the_area_in_the_window(
    t: TrajectoryMetrics,
    anchor: u64,
    gpu: Seq<GpuSample>,
    kv: Option<Seq<KvCacheSample>>,
    phase: Option<Seq<PhaseSample>>,
    steps: Seq<StepRecord>,
    k: int,
)
    requires
        is_attribution(t, anchor, gpu, kv, phase, steps),
        0 <= k < t.steps@.len(),
    ensures
        ({
            let window = Some((t.steps@[k].start_elapsed_ns, t.steps@[k].end_elapsed_ns));
            let devices = device_list(gpu);
            let inside = total(
                devices.map_values(
                    |d: u32| area2(gpu.filter(|s: GpuSample| s.device_index == d), window),
                ),
            );
            let whole = total(
                devices.map_values(
                    |d: u32| area2(gpu.filter(|s: GpuSample| s.device_index == d), None),
                ),
            );
            let (e, r) = (t.steps@[k].energy_mj, t.total_energy_mj);
            &&& are_devices(devices, gpu)
            &&& e * 2_000_000_000 <= inside < (e + 1) * 2_000_000_000
            &&& r * 2_000_000_000 <= whole < (r + 1) * 2_000_000_000
        }),
{
    let kept = placement(in_order(steps), anchor, gpu[0].elapsed_ns, gpu.last().elapsed_ns).0;
    let devices = device_list(gpu);
    let window = window_of(kept[k]);
    lemma_devices_listed(gpu);
    law_devices_add_up(gpu, devices, window);
    law_devices_add_up(gpu, devices, None);
    lemma_devices_window(gpu, devices, window);
}

/// The samples in the window of a step are those whose time lies in it, both
/// ends included.
pub proof fn law_samples_are_counted_by_their_time(
    t: TrajectoryMetrics,
    anchor: u64,
    gpu: Seq<GpuSample>,
    kv: Option<Seq<KvCacheSample>>,
    phase: Option<Seq<PhaseSample>>,
    steps: Seq<StepRecord>,
    k: int,
)
    requires
        is_attribution(t, anchor, gpu, kv, phase, steps),
        0 <= k < t.steps@.len(),
        t.steps@[k].start_elapsed_ns <= t.steps@[k].end_elapsed_ns,
        gpu.len() <= u64::MAX,
    ensures
        t.steps@[k].samples_in_window == gpu.filter(
            |s: GpuSample|
                t.steps@[k].start_elapsed_ns <= s.elapsed_ns <= t.steps@[k].end_elapsed_ns,
        ).len(),
{
    lemma_counts_are_filters(gpu, t.steps@[k].start_elapsed_ns, t.steps@[k].end_elapsed_ns);
    lemma_count_bounds(gpu_times(gpu), t.steps@[k].start_elapsed_ns, t.steps@[k].end_elapsed_ns);
}

proof fn lemma_counts_are_filters(gpu: Seq<GpuSample>, s: u64, e: u64)
    requires
        s <= e,
    ensures
        count_up_to(gpu_times(gpu), e) - count_below(gpu_times(gpu), s) == gpu.filter(
            |x: GpuSample| s <= x.elapsed_ns <= e,
        ).len(),
    decreases gpu.len(),
{
    reveal(Seq::filter);
    if gpu.len() > 0 {
        lemma_counts_are_filters(gpu.drop_last(), s, e);
        assert(gpu_times(gpu).drop_last() =~= gpu_times(gpu.drop_last()));
    }
}

/// Tokens per joule of a step times its joules are its generation tokens, and
/// the hit rate times the queries are the hits, up to a few roundings; each is
/// there exactly if it is owed. The same holds of the tokens of the run.
pub proof fn law_step_ratios_are_of_the_step(
    t: TrajectoryMetrics,
    anchor: u64,
    gpu: Seq<GpuSample>,
    kv: Option<Seq<KvCacheSample>>,
    phase: Option<Seq<PhaseSample>>,
    steps: Seq<StepRecord>,
    k: int,
)
    requires
        is_attribution(t, anchor, gpu, kv, phase, steps),
        0 <= k < t.steps@.len(),
    ensures
        ({
            let s = t.steps@[k];
            &&& s.tokens_per_joule is Some <==> s.kind is LlmCall && s.energy_mj > 0
                && s.generation_tokens_delta is Some && s.generation_tokens_delta->0 > 0
            &&& s.tokens_per_joule matches Some(v) ==> is_near(
                v,
                s.generation_tokens_delta->0 as nat * 1000,
                s.energy_mj as nat,
                5,
            )
            &&& s.cache_hit_rate is Some <==> s.cache_queries_delta is Some
                && s.cache_queries_delta->0 > 0
            &&& s.cache_hits_delta is Some <==> s.cache_queries_delta is Some
            &&& s.cache_hit_rate matches Some(v) ==> is_near(
                v,
                s.cache_hits_delta->0 as nat,
                s.cache_queries_delta->0 as nat,
                3,
            )
        }),
        t.trajectory_tokens_per_joule is Some <==> t.total_generation_tokens > 0
            && t.total_energy_mj > 0,
        t.trajectory_tokens_per_joule matches Some(v) ==> is_near(
            v,
            t.total_generation_tokens as nat * 1000,
            t.total_energy_mj as nat,
            5,
        ),
{
    let kept = placement(in_order(steps), anchor, gpu[0].elapsed_ns, gpu.last().elapsed_ns).0;
    let s = t.steps@[k];
    assert(s == figures(gpu, kv, phase, kept[k]));
    let devices = device_list(gpu);
    lemma_devices_window(gpu, devices, window_of(kept[k]));
    assert(step_mj(gpu, kept[k]) <= run_mj(gpu));
    if s.tokens_per_joule is Some {
        lemma_per_joule_near(s.generation_tokens_delta->0 as nat, s.energy_mj as nat);
    }
    if s.cache_hit_rate is Some {
        let (h, q) = (s.cache_hits_delta->0 as nat, s.cache_queries_delta->0 as nat);
        lemma_integer_near(h);
        lemma_integer_near(q);
        lemma_over_near(integer(h), 64, h, 1, 1, integer(q), 64, q, 1, 1);
        assert(h * 1 == h && 1 * q == q) by (nonlinear_arith);
    }
    if t.trajectory_tokens_per_joule is Some {
        lemma_per_joule_near(t.total_generation_tokens as nat, t.total_energy_mj as nat);
    }
}

proof fn lemma_per_joule_near(tokens: nat, mj: nat)
    requires
        tokens <= u64::MAX,
        0 < mj <= u64::MAX,
    ensures
        is_near(per_joule(tokens, mj), tokens * 1000, mj, 5),
{
    lemma_integer_near(tokens);
    lemma_integer_near(mj);
    lemma_integer_near(1000);
    lemma_over_near(integer(mj), 64, mj, 1, 1, integer(1000), 64, 1000, 1, 1);
    assert(mj * 1 == mj && 1 * mj == mj) by (nonlinear_arith);
    let joules = integer(mj).over(integer(1000));
    lemma_over_near(integer(tokens), 64, tokens, 1, 1, joules, 188, mj, 1000, 3);
}

/// The token counters of a step are read at two scrapes: the last one up to the
/// end of its window, and the last one up to its start, or the first of all if
/// none is that early. The earlier reading and the figure make up the later
/// one. There are figures exactly if a scrape lies in the window.
#[verifier::rlimit(40)]
pub proof fn law_tokens_are_read_between_two_scrapes(
    t: TrajectoryMetrics,
    anchor: u64,
    gpu: Seq<GpuSample>,
    kv: Option<Seq<KvCacheSample>>,
    samples: Seq<PhaseSample>,
    steps: Seq<StepRecord>,
    k: int,
)
    requires
        is_attribution(t, anchor, gpu, kv, Some(samples), steps),
        0 <= k < t.steps@.len(),
        !phase_regresses(samples),
        forall|i: int, j: int|
            0 <= i <= j < samples.len() ==> (#[trigger] samples[i]).elapsed_ns <= (
            #[trigger] samples[j]).elapsed_ns,
    ensures
        ({
            let s = t.steps@[k];
            &&& s.generation_tokens_delta is Some <==> exists|i: int|
                0 <= i < samples.len() && s.start_elapsed_ns <= (#[trigger] samples[i]).elapsed_ns
                    <= s.end_elapsed_ns
            &&& s.prompt_tokens_delta is Some <==> s.generation_tokens_delta is Some
            &&& s.generation_tokens_delta is Some ==> exists|a: int, b: int|
                {
                    &&& 0 <= a <= b < samples.len()
                    &&& (#[trigger] samples[b]).elapsed_ns <= s.end_elapsed_ns
                    &&& b + 1 < samples.len() ==> samples[b + 1].elapsed_ns > s.end_elapsed_ns
                    &&& a == 0 || (#[trigger] samples[a]).elapsed_ns <= s.start_elapsed_ns
                    &&& a + 1 < samples.len() && samples[0].elapsed_ns <= s.start_elapsed_ns
                        ==> samples[a + 1].elapsed_ns > s.start_elapsed_ns
                    &&& samples[a].generation_tokens + s.generation_tokens_delta->0
                        == samples[b].generation_tokens
                    &&& samples[a].prompt_tokens + s.prompt_tokens_delta->0
                        == samples[b].prompt_tokens
                }
        }),
        samples.len() > 0 ==> samples[0].generation_tokens + t.total_generation_tokens
            == samples[samples.len() - 1].generation_tokens,
{
    let s = t.steps@[k];
    let times = phase_times(samples);
    let kept = placement(in_order(steps), anchor, gpu[0].elapsed_ns, gpu.last().elapsed_ns).0;
    assert(s == figures(gpu, kv, Some(samples), kept[k]));
    law_baseline_is_at_or_before_the_start(times, s.start_elapsed_ns, s.end_elapsed_ns);
    if exists|i: int|
        0 <= i < samples.len() && s.start_elapsed_ns <= (#[trigger] samples[i]).elapsed_ns
            <= s.end_elapsed_ns {
        let i = choose|i: int|
            0 <= i < samples.len() && s.start_elapsed_ns <= (#[trigger] samples[i]).elapsed_ns
                <= s.end_elapsed_ns;
        assert(s.start_elapsed_ns <= times[i] <= s.end_elapsed_ns);
    }
    if let Some((a, b)) = bracket_of(times, s.start_elapsed_ns, s.end_elapsed_ns) {
        let i = choose|i: int|
            0 <= i < times.len() && s.start_elapsed_ns <= #[trigger] times[i] <= s.end_elapsed_ns;
        assert(samples[i].elapsed_ns == times[i]);
        lemma_phase_ascending(samples, a, b);
        assert(samples[a].elapsed_ns == times[a] && samples[b].elapsed_ns == times[b]);
        if b + 1 < samples.len() {
            assert(times[b + 1] == samples[b + 1].elapsed_ns);
        }
        if a + 1 < samples.len() {
            assert(times[a + 1] == samples[a + 1].elapsed_ns);
        }
        assert(times[0] == samples[0].elapsed_ns);
    }
    if samples.len() > 0 {
        lemma_phase_ascending(samples, 0, samples.len() - 1);
    }
}

/// The cache counters of a step are read at two scrapes: the last one up to the
/// end of its window, and the last one up to its start, or the first of all if
/// none is that early. The earlier reading and the figure make up the later
/// one. There are figures exactly if a scrape lies in the window.
#[verifier::rlimit(40)]
pub proof fn law_cache_is_read_between_two_scrapes(
    t: TrajectoryMetrics,
    anchor: u64,
    gpu: Seq<GpuSample>,
    samples: Seq<KvCacheSample>,
    phase: Option<Seq<PhaseSample>>,
    steps: Seq<StepRecord>,
    k: int,
)
    requires
        is_attribution(t, anchor, gpu, Some(samples), phase, steps),
        0 <= k < t.steps@.len(),
        !kv_regresses(samples),
        forall|i: int, j: int|
            0 <= i <= j < samples.len() ==> (#[trigger] samples[i]).elapsed_ns <= (
            #[trigger] samples[j]).elapsed_ns,
    ensures
        ({
            let s = t.steps@[k];
            &&& s.cache_hits_delta is Some <==> exists|i: int|
                0 <= i < samples.len() && s.start_elapsed_ns <= (#[trigger] samples[i]).elapsed_ns
                    <= s.end_elapsed_ns
            &&& s.cache_queries_delta is Some <==> s.cache_hits_delta is Some
            &&& s.cache_hits_delta is Some ==> exists|a: int, b: int|
                {
                    &&& 0 <= a <= b < samples.len()
                    &&& (#[trigger] samples[b]).elapsed_ns <= s.end_elapsed_ns
                    &&& b + 1 < samples.len() ==> samples[b + 1].elapsed_ns > s.end_elapsed_ns
                    &&& a == 0 || (#[trigger] samples[a]).elapsed_ns <= s.start_elapsed_ns
                    &&& a + 1 < samples.len() && samples[0].elapsed_ns <= s.start_elapsed_ns
                        ==> samples[a + 1].elapsed_ns > s.start_elapsed_ns
                    &&& samples[a].hits + s.cache_hits_delta->0 == samples[b].hits
                    &&& samples[a].queries + s.cache_queries_delta->0 == samples[b].queries
                }
        }),
{
    let s = t.steps@[k];
    let times = kv_times(samples);
    let kept = placement(in_order(steps), anchor, gpu[0].elapsed_ns, gpu.last().elapsed_ns).0;
    assert(s == figures(gpu, Some(samples), phase, kept[k]));
    law_baseline_is_at_or_before_the_start(times, s.start_elapsed_ns, s.end_elapsed_ns);
    if exists|i: int|
        0 <= i < samples.len() && s.start_elapsed_ns <= (#[trigger] samples[i]).elapsed_ns
            <= s.end_elapsed_ns {
        let i = choose|i: int|
            0 <= i < samples.len() && s.start_elapsed_ns <= (#[trigger] samples[i]).elapsed_ns
                <= s.end_elapsed_ns;
        assert(s.start_elapsed_ns <= times[i] <= s.end_elapsed_ns);
    }
    if let Some((a, b)) = bracket_of(times, s.start_elapsed_ns, s.end_elapsed_ns) {
        let i = choose|i: int|
            0 <= i < times.len() && s.start_elapsed_ns <= #[trigger] times[i] <= s.end_elapsed_ns;
        assert(samples[i].elapsed_ns == times[i]);
        lemma_kv_ascending(samples, a, b);
        assert(samples[a].elapsed_ns == times[a] && samples[b].elapsed_ns == times[b]);
        if b + 1 < samples.len() {
            assert(times[b + 1] == samples[b + 1].elapsed_ns);
        }
        if a + 1 < samples.len() {
            assert(times[a + 1] == samples[a + 1].elapsed_ns);
        }
        assert(times[0] == samples[0].elapsed_ns);
    }
}

/// The energies of the steps add up: over the LLM calls, over the tools, and
/// over all with the remainder to the energy of the run. So do their times, and
/// the run lasts from the first GPU sample to the last.
pub proof fn law_steps_and_remainder_make_the_run(
    t: TrajectoryMetrics,
    anchor: u64,
    gpu: Seq<GpuSample>,
    kv: Option<Seq<KvCacheSample>>,
    phase: Option<Seq<PhaseSample>>,
    steps: Seq<StepRecord>,
)
    requires
        is_attribution(t, anchor, gpu, kv, phase, steps),
    ensures
        t.llm_energy_mj == total(
            t.steps@.map_values(
                |s: StepMetrics|
                    if s.kind is LlmCall {
                        s.energy_mj as nat
                    } else {
                        0
                    },
            ),
        ),
        t.tool_energy_mj == total(
            t.steps@.map_values(
                |s: StepMetrics|
                    if s.kind is Tool {
                        s.energy_mj as nat
                    } else {
                        0
                    },
            ),
        ),
        total(t.steps@.map_values(|s: StepMetrics| s.energy_mj as nat)) + t.unattributed_energy_mj
            == t.total_energy_mj,
        total(
            t.steps@.map_values(
                |s: StepMetrics| (s.end_elapsed_ns - s.start_elapsed_ns) as nat,
            ),
        ) + t.unattributed_duration_ns == t.run_duration_ns,
        gpu[0].elapsed_ns <= gpu[gpu.len() - 1].elapsed_ns ==> gpu[0].elapsed_ns
            + t.run_duration_ns == gpu[gpu.len() - 1].elapsed_ns,
{
    law_time_reconciles(t, anchor, gpu, kv, phase, steps);
    lemma_step_sums(t.steps@);
}

proof fn lemma_step_sums(steps: Seq<StepMetrics>)
    ensures
        kind_mj(steps, StepKind::LlmCall) == total(
            steps.map_values(
                |s: StepMetrics|
                    if s.kind is LlmCall {
                        s.energy_mj as nat
                    } else {
                        0
                    },
            ),
        ),
        kind_mj(steps, StepKind::Tool) == total(
            steps.map_values(
                |s: StepMetrics|
                    if s.kind is Tool {
                        s.energy_mj as nat
                    } else {
                        0
                    },
            ),
        ),
        steps_mj(steps) == total(steps.map_values(|s: StepMetrics| s.energy_mj as nat)),
        steps_ns(steps) == total(
            steps.map_values(|s: StepMetrics| (s.end_elapsed_ns - s.start_elapsed_ns) as nat),
        ),
    decreases steps.len(),
{
    if steps.len() > 0 {
        let rest = steps.drop_last();
        lemma_step_sums(rest);
        let llm = |s: StepMetrics|
            if s.kind is LlmCall {
                s.energy_mj as nat
            } else {
                0
            };
        let tool = |s: StepMetrics|
            if s.kind is Tool {
                s.energy_mj as nat
            } else {
                0
            };
        let all = |s: StepMetrics| s.energy_mj as nat;
        let time = |s: StepMetrics| (s.end_elapsed_ns - s.start_elapsed_ns) as nat;
        assert(steps.map_values(llm).drop_last() =~= rest.map_values(llm));
        assert(steps.map_values(tool).drop_last() =~= rest.map_values(tool));
        assert(steps.map_values(all).drop_last() =~= rest.map_values(all));
        assert(steps.map_values(time).drop_last() =~= rest.map_values(time));
    }
}

/// A run is attributed exactly if its clock is anchored, at least two GPU
/// samples were taken, and no counter ever falls; of the times, none appears or
/// disappears either.
pub proof fn law_attribution_needs_rising_counters(
    anchor: Option<u64>,
    gpu: Option<GpuTimeline>,
    kv: Option<Seq<KvCacheSample>>,
    phase: Option<Seq<PhaseSample>>,
)
    ensures
        !withheld(anchor, gpu, kv, phase) <==> {
            &&& anchor is Some
            &&& gpu is Some
            &&& gpu->0.samples@.len() >= 2
            &&& kv matches Some(samples) ==> forall|i: int, j: int|
                0 <= i < j < samples.len() ==> (#[trigger] samples[i]).hits <= (
                #[trigger] samples[j]).hits && samples[i].queries <= samples[j].queries
            &&& phase matches Some(samples) ==> forall|i: int, j: int|
                0 <= i < j < samples.len() ==> {
                    let (a, b) = (#[trigger] samples[i], #[trigger] samples[j]);
                    &&& a.prompt_tokens <= b.prompt_tokens
                    &&& a.generation_tokens <= b.generation_tokens
                    &&& a.prefill_ns is Some <==> b.prefill_ns is Some
                    &&& a.decode_ns is Some <==> b.decode_ns is Some
                    &&& a.prefill_ns is Some ==> a.prefill_ns->0 <= b.prefill_ns->0
                    &&& a.decode_ns is Some ==> a.decode_ns->0 <= b.decode_ns->0
                }
        },
{
    if let Some(samples) = kv {
        if kv_regresses(samples) {
            let i = choose|i: int|
                0 < i < samples.len() && ((#[trigger] samples[i]).hits < samples[i - 1].hits
                    || samples[i].queries < samples[i - 1].queries);
            assert(!(samples[i - 1].hits <= samples[i].hits && samples[i - 1].queries
                <= samples[i].queries));
        } else {
            assert forall|i: int, j: int| 0 <= i < j < samples.len() implies (
            #[trigger] samples[i]).hits <= (#[trigger] samples[j]).hits && samples[i].queries
                <= samples[j].queries by {
                lemma_kv_ascending(samples, i, j);
            }
        }
    }
    if let Some(samples) = phase {
        if phase_regresses(samples) {
            let i = choose|i: int|
                0 < i < samples.len() && ((#[trigger] samples[i]).prompt_tokens < samples[i
                    - 1].prompt_tokens || samples[i].generation_tokens < samples[i
                    - 1].generation_tokens || breaks(
                    samples[i - 1].prefill_ns,
                    samples[i].prefill_ns,
                ) || breaks(samples[i - 1].decode_ns, samples[i].decode_ns));
            let (a, b) = (samples[i - 1], samples[i]);
            assert(!(a.prompt_tokens <= b.prompt_tokens && a.generation_tokens
                <= b.generation_tokens && (a.prefill_ns is Some <==> b.prefill_ns is Some) && (
            a.decode_ns is Some <==> b.decode_ns is Some) && (a.prefill_ns is Some
                ==> a.prefill_ns->0 <= b.prefill_ns->0) && (a.decode_ns is Some ==> a.decode_ns->0
                <= b.decode_ns->0)));
        } else {
            assert forall|i: int, j: int| 0 <= i < j < samples.len() implies {
                let (a, b) = (#[trigger] samples[i], #[trigger] samples[j]);
                &&& a.prompt_tokens <= b.prompt_tokens
                &&& a.generation_tokens <= b.generation_tokens
                &&& a.prefill_ns is Some <==> b.prefill_ns is Some
                &&& a.decode_ns is Some <==> b.decode_ns is Some
                &&& a.prefill_ns is Some ==> a.prefill_ns->0 <= b.prefill_ns->0
                &&& a.decode_ns is Some ==> a.decode_ns->0 <= b.decode_ns->0
            } by {
                lemma_times_ascend(samples, i, j);
            }
        }
    }
}

proof fn lemma_times_ascend(samples: Seq<PhaseSample>, i: int, j: int)
    requires
        !phase_regresses(samples),
        0 <= i <= j < samples.len(),
    ensures
        samples[i].prompt_tokens <= samples[j].prompt_tokens,
        samples[i].generation_tokens <= samples[j].generation_tokens,
        !breaks(samples[i].prefill_ns, samples[j].prefill_ns),
        !breaks(samples[i].decode_ns, samples[j].decode_ns),
    decreases j - i,
{
    if i < j {
        lemma_times_ascend(samples, i, j - 1);
        assert(!(samples[j].prompt_tokens < samples[j - 1].prompt_tokens));
    }
}

} // verus!
