//! From the raw signals of a run to its report.
use vstd::prelude::*;
use vstd::string::*;

use crate::accuracy::is_near;
use crate::derive::{
    arrivals_in_order, derive_efficiency, derive_kvcache, derive_phase_energy, derive_resource,
    derive_timing, describes_request, efficiency_of, is_split, jiffies_fit, kvcache_of,
    law_efficiency_is_energy_over_tokens, law_split_is_exact, splits, summarizes_process,
};
use crate::gpu::{EnergySource, GpuTimeline};
use crate::gpu_metrics::{derive_gpu, describes_gpus, gpu_fits};
use crate::kvcache::{KvCacheSample, KvCacheTimeline};
use crate::lora::LoraObservation;
use crate::metrics::{
    GpuMetrics, KvCacheMetrics, PhaseEnergyMetrics, Report, ResourceMetrics, REPORT_SCHEMA_VERSION,
};
use crate::phase::{PhaseSample, PhaseTimeline};
use crate::resource::{ResourceSample, ResourceTimeline};
use crate::speculative::SpecTimeline;
use crate::steps::StepRecord;
use crate::text::{digits, push_decimal};
use crate::timing::RequestTiming;
use crate::trajectory::{
    derive_trajectory_from_timelines, is_attribution, none_inverted, run_mj, withheld,
    TrajectoryMetrics,
};

verus! {

// ---------------------------------------------------------------------------
// A process that does no work.
// ---------------------------------------------------------------------------

/// Whether a sample shows no work: under ten mebibytes, one thread, no CPU
/// time.
pub open spec fn is_idle(s: ResourceSample) -> bool {
    s.rss_bytes < 10_485_760 && s.thread_count == 1 && s.cpu_user_jiffies == 0
        && s.cpu_system_jiffies == 0
}

/// Whether samples were taken and every one of them shows no work: the process
/// is then likely a wrapper and not the engine.
pub fn looks_idle(timeline: &ResourceTimeline) -> (r: bool)
    ensures
        r == (timeline.samples@.len() > 0 && forall|i: int|
            0 <= i < timeline.samples@.len() ==> is_idle(#[trigger] timeline.samples@[i])),
{
    if timeline.samples.len() == 0 {
        return false;
    }
    let mut i: usize = 0;
    while i < timeline.samples.len()
        invariant
            i <= timeline.samples@.len(),
            forall|j: int| 0 <= j < i ==> is_idle(#[trigger] timeline.samples@[j]),
        decreases timeline.samples@.len() - i,
    {
        let s: ResourceSample = timeline.samples[i];
        if s.rss_bytes >= 10 * 1024 * 1024 || s.thread_count != 1 || s.cpu_user_jiffies != 0
            || s.cpu_system_jiffies != 0 {
            assert(!is_idle(timeline.samples@[i as int]));
            return false;
        }
        i += 1;
    }
    true
}

/// The warning about a process that does no work.
pub fn idle_warning(samples: usize) -> (text: String)
    ensures
        text@ == "inferscope: warning: monitored PID looks idle across all "@ + digits(
            samples as nat,
        )
            + " samples (RSS < 10 MiB, 1 thread, 0 CPU jiffies). The --pid argument may point to a wrapper shell rather than the actual workload. Verify with: cat /proc/<pid>/status | grep -E 'VmRSS|Threads'."@,
{
    let mut text: String = String::from_str(
        "inferscope: warning: monitored PID looks idle across all ",
    );
    push_decimal(&mut text, samples as u128);
    text.append(
        " samples (RSS < 10 MiB, 1 thread, 0 CPU jiffies). The --pid argument may point to a wrapper shell rather than the actual workload. Verify with: cat /proc/<pid>/status | grep -E 'VmRSS|Threads'.",
    );
    text
}

// ---------------------------------------------------------------------------
// What both kinds of report derive.
// ---------------------------------------------------------------------------

/// Whether `m` is what a process timeline gives.
pub open spec fn is_resource_of(
    m: Option<ResourceMetrics>,
    timeline: Option<ResourceTimeline>,
    clock_ticks: i64,
) -> bool {
    match timeline {
        None => m is None,
        Some(timeline) => {
            &&& m is None <==> timeline.samples@.len() == 0
            &&& m matches Some(m) ==> summarizes_process(
                m,
                timeline.samples@,
                clock_ticks as nat,
            )
        },
    }
}

/// Whether a process timeline cannot be evaluated: two samples or more, and no
/// clock rate.
pub open spec fn lacks_clock(timeline: Option<ResourceTimeline>, clock_ticks: i64) -> bool {
    timeline matches Some(timeline) && timeline.samples@.len() >= 2 && clock_ticks <= 0
}

/// Whether `m` is what a device timeline gives.
pub open spec fn is_gpu_of(m: Option<GpuMetrics>, timeline: Option<GpuTimeline>) -> bool {
    match timeline {
        None => m is None,
        Some(timeline) => {
            &&& m is None <==> timeline.samples@.len() == 0
            &&& m matches Some(m) ==> describes_gpus(m, timeline)
        },
    }
}

/// The energy of the devices and its source.
pub open spec fn energy_of(gpu: Option<GpuMetrics>) -> (Option<u64>, Option<EnergySource>) {
    match gpu {
        Some(gpu) => (gpu.energy_millijoules, gpu.energy_source),
        None => (None, None),
    }
}

/// Whether `m` splits the energy of the devices over the phases.
pub open spec fn is_phase_energy_of(
    m: Option<PhaseEnergyMetrics>,
    timeline: Option<PhaseTimeline>,
    gpu: Option<GpuMetrics>,
) -> bool {
    let (mj, source) = energy_of(gpu);
    match timeline {
        None => m is None,
        Some(timeline) => {
            &&& m is Some <==> mj is Some && source is Some && splits(timeline.samples@)
            &&& m matches Some(m) ==> is_split(m, timeline.samples@, mj->0 as nat)
        },
    }
}

/// What a prefix-cache timeline gives.
pub open spec fn kvcache_metrics(timeline: Option<KvCacheTimeline>) -> Option<KvCacheMetrics> {
    match timeline {
        Some(timeline) => kvcache_of(timeline.samples@),
        None => None,
    }
}

/// The complaint about a clock whose rate is not known.
pub open spec fn derivation_failed() -> Seq<char> {
    "report derivation failed: "@ + "could not determine system clock tick rate (_SC_CLK_TCK)"@
}

fn resource_metrics(timeline: &Option<ResourceTimeline>, clock_ticks: i64) -> (r: Result<
    Option<ResourceMetrics>,
    String,
>)
    requires
        timeline matches Some(timeline) ==> jiffies_fit(timeline.samples@),
    ensures
        if lacks_clock(*timeline, clock_ticks) {
            r matches Err(words) && words@ == derivation_failed()
        } else {
            r matches Ok(m) && is_resource_of(m, *timeline, clock_ticks)
        },
{
    match timeline {
        None => Ok(None),
        Some(timeline) => match derive_resource(timeline, clock_ticks) {
            Ok(m) => Ok(m),
            Err(e) => {
                let mut words: String = String::from_str("report derivation failed: ");
                words.append(&e.message());
                Err(words)
            },
        },
    }
}

fn gpu_metrics(timeline: &Option<GpuTimeline>) -> (m: Option<GpuMetrics>)
    requires
        timeline matches Some(timeline) ==> gpu_fits(*timeline),
    ensures
        is_gpu_of(m, *timeline),
{
    match timeline {
        Some(timeline) => derive_gpu(timeline),
        None => None,
    }
}

fn phase_energy_metrics(timeline: &Option<PhaseTimeline>, gpu: &Option<GpuMetrics>) -> (m: Option<
    PhaseEnergyMetrics,
>)
    ensures
        is_phase_energy_of(m, *timeline, *gpu),
{
    let (mj, source): (Option<u64>, Option<EnergySource>) = match gpu {
        Some(gpu) => (gpu.energy_millijoules, gpu.energy_source),
        None => (None, None),
    };
    match timeline {
        Some(timeline) => derive_phase_energy(timeline, mj, source),
        None => None,
    }
}

fn kvcache_of_timeline(timeline: &Option<KvCacheTimeline>) -> (m: Option<KvCacheMetrics>)
    ensures
        m == kvcache_metrics(*timeline),
{
    match timeline {
        Some(timeline) => derive_kvcache(timeline),
        None => None,
    }
}

// ---------------------------------------------------------------------------
// The report of a probe run.
// ---------------------------------------------------------------------------

/// The raw signals of a probe run.
pub struct RunSignals {
    /// Token timing.
    pub request_timing: RequestTiming,
    /// Process samples, if taken.
    pub resource_timeline: Option<ResourceTimeline>,
    /// Device samples, if taken.
    pub gpu_timeline: Option<GpuTimeline>,
    /// Prefix-cache scrapes, if any.
    pub kvcache_timeline: Option<KvCacheTimeline>,
    /// Phase scrapes, if any.
    pub phase_timeline: Option<PhaseTimeline>,
    /// Speculation scrapes, if any.
    pub spec_timeline: Option<SpecTimeline>,
    /// Wall-clock time of the reference instant.
    pub reference_instant_unix_ns: Option<u64>,
}

/// Whether a report carries the signals, and derives from them what it should;
/// it has no trajectory yet.
pub open spec fn reports_run(report: Report, signals: RunSignals, clock_ticks: i64) -> bool {
    &&& report.request_timing == signals.request_timing
    &&& report.resource_timeline == signals.resource_timeline
    &&& report.gpu_timeline == signals.gpu_timeline
    &&& report.kvcache_timeline == signals.kvcache_timeline
    &&& report.phase_timeline == signals.phase_timeline
    &&& report.spec_timeline == signals.spec_timeline
    &&& report.reference_instant_unix_ns == signals.reference_instant_unix_ns
    &&& describes_request(report.timing, signals.request_timing)
    &&& is_resource_of(report.resource, signals.resource_timeline, clock_ticks)
    &&& is_gpu_of(report.gpu, signals.gpu_timeline)
    &&& report.efficiency == efficiency_of(
        energy_of(report.gpu).0,
        energy_of(report.gpu).1,
        report.timing.token_count,
    )
    &&& report.kvcache == kvcache_metrics(signals.kvcache_timeline)
    &&& is_phase_energy_of(report.phase_energy, signals.phase_timeline, report.gpu)
    &&& report.trajectory is None
    &&& report.schema_version == Some(REPORT_SCHEMA_VERSION)
}

/// Derives the report of a probe run from its signals. Fails only where
/// process samples need a clock rate that is not known.
pub fn build_report(signals: RunSignals, clock_ticks: i64) -> (r: Result<Report, String>)
    requires
        arrivals_in_order(signals.request_timing.tokens@),
        signals.resource_timeline matches Some(timeline) ==> jiffies_fit(timeline.samples@),
        signals.gpu_timeline matches Some(timeline) ==> gpu_fits(timeline),
    ensures
        if lacks_clock(signals.resource_timeline, clock_ticks) {
            r matches Err(words) && words@ == derivation_failed()
        } else {
            r matches Ok(report) && reports_run(report, signals, clock_ticks)
        },
{
    let timing = derive_timing(&signals.request_timing);
    let resource: Option<ResourceMetrics> = match resource_metrics(
        &signals.resource_timeline,
        clock_ticks,
    ) {
        Ok(m) => m,
        Err(words) => {
            return Err(words);
        },
    };
    let gpu: Option<GpuMetrics> = gpu_metrics(&signals.gpu_timeline);
    let efficiency = match &gpu {
        Some(g) => derive_efficiency(g.energy_millijoules, g.energy_source, timing.token_count),
        None => None,
    };
    let kvcache: Option<KvCacheMetrics> = kvcache_of_timeline(&signals.kvcache_timeline);
    let phase_energy: Option<PhaseEnergyMetrics> = phase_energy_metrics(
        &signals.phase_timeline,
        &gpu,
    );
    Ok(
        Report {
            request_timing: signals.request_timing,
            resource_timeline: signals.resource_timeline,
            gpu_timeline: signals.gpu_timeline,
            timing,
            resource,
            gpu,
            efficiency,
            kvcache_timeline: signals.kvcache_timeline,
            kvcache,
            phase_timeline: signals.phase_timeline,
            spec_timeline: signals.spec_timeline,
            phase_energy,
            reference_instant_unix_ns: signals.reference_instant_unix_ns,
            trajectory: None,
            schema_version: Some(REPORT_SCHEMA_VERSION),
        },
    )
}

/// The samples of an optional timeline.
pub open spec fn kv_samples(timeline: Option<KvCacheTimeline>) -> Option<Seq<KvCacheSample>> {
    match timeline {
        Some(timeline) => Some(timeline.samples@),
        None => None,
    }
}

/// The samples of an optional timeline.
pub open spec fn phase_samples(timeline: Option<PhaseTimeline>) -> Option<Seq<PhaseSample>> {
    match timeline {
        Some(timeline) => Some(timeline.samples@),
        None => None,
    }
}

/// Whether `t` attributes a run to its steps; absent where the join cannot be
/// made.
pub open spec fn is_trajectory_of(
    t: Option<TrajectoryMetrics>,
    anchor: Option<u64>,
    gpu: Option<GpuTimeline>,
    kvcache: Option<KvCacheTimeline>,
    phase: Option<PhaseTimeline>,
    steps: Seq<StepRecord>,
) -> bool {
    &&& t is None <==> withheld(
        anchor,
        gpu,
        kv_samples(kvcache),
        phase_samples(phase),
    )
    &&& t matches Some(t) ==> is_attribution(
        t,
        anchor->0,
        gpu->0.samples@,
        kv_samples(kvcache),
        phase_samples(phase),
        steps,
    )
}

fn attribute(
    anchor: Option<u64>,
    gpu: &Option<GpuTimeline>,
    kvcache: &Option<KvCacheTimeline>,
    phase: &Option<PhaseTimeline>,
    steps: &[StepRecord],
) -> (t: Option<TrajectoryMetrics>)
    requires
        none_inverted(steps@),
        gpu matches Some(timeline) ==> run_mj(timeline.samples@) <= u64::MAX,
    ensures
        is_trajectory_of(t, anchor, *gpu, *kvcache, *phase, steps@),
{
    derive_trajectory_from_timelines(
        anchor,
        gpu.as_ref(),
        kvcache.as_ref(),
        phase.as_ref(),
        steps,
    )
}

/// Attributes the run of a report to the steps of a trajectory.
pub fn derive_trajectory(report: &Report, steps: &[StepRecord]) -> (t: Option<TrajectoryMetrics>)
    requires
        none_inverted(steps@),
        report.gpu_timeline matches Some(timeline) ==> run_mj(timeline.samples@) <= u64::MAX,
    ensures
        is_trajectory_of(
            t,
            report.reference_instant_unix_ns,
            report.gpu_timeline,
            report.kvcache_timeline,
            report.phase_timeline,
            steps@,
        ),
{
    attribute(
        report.reference_instant_unix_ns,
        &report.gpu_timeline,
        &report.kvcache_timeline,
        &report.phase_timeline,
        steps,
    )
}

// ---------------------------------------------------------------------------
// The report of a sampling window.
// ---------------------------------------------------------------------------

/// The report of a window in which a process was sampled and no request sent.
#[derive(Debug, Clone)]
pub struct ResourceReport {
    /// Wall-clock time of the reference instant, UTC unix-epoch nanoseconds.
    pub reference_instant_unix_ns: Option<u64>,
    /// The process.
    pub pid: u32,
    /// Whether its direct children were added to it.
    pub include_descendants: bool,
    /// Sampling period in milliseconds.
    pub sample_period_ms: u64,
    /// Requested length of the window in seconds.
    pub duration_secs: u64,
    /// Process metrics.
    pub resource: Option<ResourceMetrics>,
    /// Device metrics.
    pub gpu: Option<GpuMetrics>,
    /// Prefix-cache scrapes, if any.
    pub kvcache_timeline: Option<KvCacheTimeline>,
    /// Prefix-cache metrics.
    pub kvcache: Option<KvCacheMetrics>,
    /// Phase scrapes, if any.
    pub phase_timeline: Option<PhaseTimeline>,
    /// Energy by phase.
    pub phase_energy: Option<PhaseEnergyMetrics>,
    /// Speculation scrapes, if any.
    pub spec_timeline: Option<SpecTimeline>,
    /// The LoRA read, if there was an endpoint to read.
    pub lora: Option<LoraObservation>,
    /// Attribution to the steps of a trajectory.
    pub trajectory: Option<TrajectoryMetrics>,
    /// Version of the serialized schema; `None` on reports older than it.
    pub schema_version: Option<u32>,
}

/// What was asked of a sampling window.
pub struct WindowRequest {
    /// The process.
    pub pid: u32,
    /// Whether its direct children are added to it.
    pub include_descendants: bool,
    /// Sampling period in milliseconds.
    pub sample_period_ms: u64,
    /// Requested length of the window in seconds.
    pub duration_secs: u64,
}

/// The raw signals of a sampling window.
pub struct WindowSignals {
    /// Process samples, if taken.
    pub resource_timeline: Option<ResourceTimeline>,
    /// Device samples, if taken.
    pub gpu_timeline: Option<GpuTimeline>,
    /// Prefix-cache scrapes, if any.
    pub kvcache_timeline: Option<KvCacheTimeline>,
    /// Phase scrapes, if any.
    pub phase_timeline: Option<PhaseTimeline>,
    /// Speculation scrapes, if any.
    pub spec_timeline: Option<SpecTimeline>,
    /// The LoRA read, if there was an endpoint to read.
    pub lora: Option<LoraObservation>,
    /// Wall-clock time of the reference instant.
    pub reference_instant_unix_ns: Option<u64>,
}

/// Whether a report says what was asked and what was measured.
pub open spec fn reports_window(
    report: ResourceReport,
    request: WindowRequest,
    signals: WindowSignals,
    clock_ticks: i64,
    steps: Option<Seq<StepRecord>>,
) -> bool {
    &&& report.pid == request.pid
    &&& report.include_descendants == request.include_descendants
    &&& report.sample_period_ms == request.sample_period_ms
    &&& report.duration_secs == request.duration_secs
    &&& report.kvcache_timeline == signals.kvcache_timeline
    &&& report.phase_timeline == signals.phase_timeline
    &&& report.spec_timeline == signals.spec_timeline
    &&& report.lora == signals.lora
    &&& report.reference_instant_unix_ns == signals.reference_instant_unix_ns
    &&& is_resource_of(report.resource, signals.resource_timeline, clock_ticks)
    &&& is_gpu_of(report.gpu, signals.gpu_timeline)
    &&& report.kvcache == kvcache_metrics(signals.kvcache_timeline)
    &&& is_phase_energy_of(report.phase_energy, signals.phase_timeline, report.gpu)
    &&& match steps {
        Some(steps) => is_trajectory_of(
            report.trajectory,
            signals.reference_instant_unix_ns,
            signals.gpu_timeline,
            signals.kvcache_timeline,
            signals.phase_timeline,
            steps,
        ),
        None => report.trajectory is None,
    }
    &&& report.schema_version == Some(REPORT_SCHEMA_VERSION)
}

/// Derives the report of a sampling window from its signals, with the steps of
/// a trajectory where they are given. Fails only where process samples need a
/// clock rate that is not known.
pub fn build_resource_report(
    request: WindowRequest,
    signals: WindowSignals,
    clock_ticks: i64,
    steps: Option<&[StepRecord]>,
) -> (r: Result<ResourceReport, String>)
    requires
        signals.resource_timeline matches Some(timeline) ==> jiffies_fit(timeline.samples@),
        signals.gpu_timeline matches Some(timeline) ==> gpu_fits(timeline),
        steps matches Some(steps) ==> none_inverted(steps@),
        steps is Some && signals.gpu_timeline is Some ==> run_mj(
            signals.gpu_timeline->0.samples@,
        ) <= u64::MAX,
    ensures
        if lacks_clock(signals.resource_timeline, clock_ticks) {
            r matches Err(words) && words@ == derivation_failed()
        } else {
            r matches Ok(report) && reports_window(
                report,
                request,
                signals,
                clock_ticks,
                match steps {
                    Some(steps) => Some(steps@),
                    None => None,
                },
            )
        },
{
    let resource: Option<ResourceMetrics> = match resource_metrics(
        &signals.resource_timeline,
        clock_ticks,
    ) {
        Ok(m) => m,
        Err(words) => {
            return Err(words);
        },
    };
    let gpu: Option<GpuMetrics> = gpu_metrics(&signals.gpu_timeline);
    let kvcache: Option<KvCacheMetrics> = kvcache_of_timeline(&signals.kvcache_timeline);
    let phase_energy: Option<PhaseEnergyMetrics> = phase_energy_metrics(
        &signals.phase_timeline,
        &gpu,
    );
    let trajectory: Option<TrajectoryMetrics> = match steps {
        Some(steps) => attribute(
            signals.reference_instant_unix_ns,
            &signals.gpu_timeline,
            &signals.kvcache_timeline,
            &signals.phase_timeline,
            steps,
        ),
        None => None,
    };
    Ok(
        ResourceReport {
            reference_instant_unix_ns: signals.reference_instant_unix_ns,
            pid: request.pid,
            include_descendants: request.include_descendants,
            sample_period_ms: request.sample_period_ms,
            duration_secs: request.duration_secs,
            resource,
            gpu,
            kvcache_timeline: signals.kvcache_timeline,
            kvcache,
            phase_timeline: signals.phase_timeline,
            phase_energy,
            spec_timeline: signals.spec_timeline,
            lora: signals.lora,
            trajectory,
            schema_version: Some(REPORT_SCHEMA_VERSION),
        },
    )
}

/// The figures of a report are of its own signals: energy per token is the
/// energy of the devices over the tokens that arrived, and the phases share the
/// energy of the devices out among them, to the millijoule.
pub proof fn law_report_figures_are_of_its_signals(
    report: Report,
    signals: RunSignals,
    clock_ticks: i64,
)
    requires
        reports_run(report, signals, clock_ticks),
        signals.request_timing.tokens@.len() <= u32::MAX,
    ensures
        report.efficiency is Some <==> signals.request_timing.tokens@.len() > 0 && (
        report.gpu matches Some(gpu) && gpu.energy_millijoules is Some && gpu.energy_source is Some
            && gpu.energy_millijoules->0 > 0),
        report.efficiency matches Some(e) ==> {
            let mj = report.gpu->0.energy_millijoules->0 as nat;
            let n = signals.request_timing.tokens@.len();
            &&& is_near(e.energy_joules, mj, 1000, 3)
            &&& is_near(e.energy_per_token_mj, mj, n, 3)
            &&& is_near(e.tokens_per_joule, n * 1000, mj, 5)
            &&& report.gpu->0.energy_source == Some(e.energy_source)
        },
        report.phase_energy matches Some(m) ==> {
            let mj = report.gpu->0.energy_millijoules->0;
            &&& m.energy_prefill_by_tokens_mj + m.energy_decode_by_tokens_mj == mj
            &&& m.energy_prefill_by_time_mj is Some ==> m.energy_prefill_by_time_mj->0
                + m.energy_decode_by_time_mj->0 == mj
        },
        report.resource_timeline == signals.resource_timeline && report.gpu_timeline
            == signals.gpu_timeline && report.kvcache_timeline == signals.kvcache_timeline
            && report.phase_timeline == signals.phase_timeline && report.spec_timeline
            == signals.spec_timeline && report.request_timing == signals.request_timing
            && report.reference_instant_unix_ns == signals.reference_instant_unix_ns,
{
    let (mj, source) = energy_of(report.gpu);
    law_efficiency_is_energy_over_tokens(mj, source, report.timing.token_count);
    if let Some(m) = report.phase_energy {
        let samples = signals.phase_timeline->0.samples@;
        law_split_is_exact(m, samples, mj->0);
    }
}

/// A window's phases share the energy of its devices out among them, to the
/// millijoule, and the window says what it was asked for.
pub proof fn law_window_figures_are_of_its_signals(
    report: ResourceReport,
    request: WindowRequest,
    signals: WindowSignals,
    clock_ticks: i64,
    steps: Option<Seq<StepRecord>>,
)
    requires
        reports_window(report, request, signals, clock_ticks, steps),
    ensures
        report.pid == request.pid && report.duration_secs == request.duration_secs
            && report.sample_period_ms == request.sample_period_ms && report.include_descendants
            == request.include_descendants,
        report.lora == signals.lora && report.kvcache_timeline == signals.kvcache_timeline
            && report.phase_timeline == signals.phase_timeline && report.spec_timeline
            == signals.spec_timeline && report.reference_instant_unix_ns
            == signals.reference_instant_unix_ns,
        report.phase_energy matches Some(m) ==> {
            let mj = report.gpu->0.energy_millijoules->0;
            &&& m.energy_prefill_by_tokens_mj + m.energy_decode_by_tokens_mj == mj
            &&& m.energy_prefill_by_time_mj is Some ==> m.energy_prefill_by_time_mj->0
                + m.energy_decode_by_time_mj->0 == mj
        },
        steps is None ==> report.trajectory is None,
        report.trajectory is Some ==> signals.reference_instant_unix_ns is Some
            && signals.gpu_timeline is Some && signals.gpu_timeline->0.samples@.len() >= 2,
{
    if let Some(m) = report.phase_energy {
        let samples = signals.phase_timeline->0.samples@;
        law_split_is_exact(m, samples, report.gpu->0.energy_millijoules->0);
    }
}

/// A process that looks idle holds less than ten mebibytes, in one thread, and
/// has used no CPU time in either mode; one that differs in any of these does
/// not.
pub proof fn law_idle_is_small_single_and_unused(s: ResourceSample)
    ensures
        is_idle(s) <==> s.rss_bytes < 10 * 1024 * 1024 && s.thread_count == 1 && s.cpu_user_jiffies
            + s.cpu_system_jiffies == 0,
{
}

} // verus!
