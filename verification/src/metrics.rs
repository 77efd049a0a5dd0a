//! Derived metric types of the report layer.
//!
//! Ratios are [`Binary64`] values; everything else is an integer in the unit
//! its name says.
use vstd::prelude::*;

use crate::binary64::{Binary64, SignedBinary64};
use crate::gpu::{EnergySource, GpuTimeline};
use crate::kvcache::KvCacheTimeline;
use crate::phase::PhaseTimeline;
use crate::resource::ResourceTimeline;
use crate::speculative::SpecTimeline;
use crate::timing::RequestTiming;
use crate::trajectory::TrajectoryMetrics;

verus! {

/// Version of the serialized report schema that this build writes.
pub const REPORT_SCHEMA_VERSION: u32 = 2;

/// Summary of the inter-token intervals, in nanoseconds. Percentiles are
/// nearest-rank, rounded up.
#[derive(Debug, Clone, Copy, PartialEq, Eq, Structural)]
pub struct LatencyDistribution {
    /// Number of intervals.
    pub count: u32,
    /// Arithmetic mean.
    pub mean_ns: u64,
    /// Median.
    pub p50_ns: u64,
    /// 95th percentile.
    pub p95_ns: u64,
    /// 99th percentile.
    pub p99_ns: u64,
    /// Maximum.
    pub max_ns: u64,
}

/// Timing metrics of a request.
#[derive(Debug, Clone, Copy, PartialEq, Eq, Structural)]
pub struct TimingMetrics {
    /// Number of tokens.
    pub token_count: u32,
    /// Time to the first token; `None` without tokens.
    pub ttft_ns: Option<u64>,
    /// Duration of the request.
    pub total_latency_ns: u64,
    /// Generation rate over the intervals between tokens, the first token's
    /// latency excluded; `None` without a positive span.
    pub tokens_per_second: Option<Binary64>,
    /// Distribution of the intervals; `None` with fewer than two tokens.
    pub inter_token_latency: Option<LatencyDistribution>,
}

/// Resource metrics of the engine process.
#[derive(Debug, Clone, Copy, PartialEq, Eq, Structural)]
pub struct ResourceMetrics {
    /// Number of samples.
    pub sample_count: u32,
    /// Least resident set size, in bytes.
    pub rss_min_bytes: u64,
    /// Greatest resident set size, in bytes.
    pub rss_max_bytes: u64,
    /// Mean resident set size, in bytes.
    pub rss_mean_bytes: u64,
    /// Resident set size of the last sample, in bytes.
    pub rss_final_bytes: u64,
    /// Mean CPU utilisation in percent; above 100 on several cores. `None`
    /// with fewer than two samples or no wall time between them.
    pub cpu_mean_percent: Option<Binary64>,
    /// Least thread count.
    pub thread_min: u32,
    /// Greatest thread count.
    pub thread_max: u32,
}

/// Metrics of one GPU device.
#[derive(Debug, Clone, Copy, PartialEq, Eq, Structural)]
pub struct GpuDeviceMetrics {
    /// Index of the device.
    pub device_index: u32,
    /// Number of samples of the device.
    pub sample_count: u32,
    /// Least memory in use, in bytes.
    pub memory_used_min_bytes: u64,
    /// Greatest memory in use, in bytes.
    pub memory_used_max_bytes: u64,
    /// Mean memory in use, in bytes.
    pub memory_used_mean_bytes: u64,
    /// Memory capacity of the device.
    pub memory_total_bytes: u64,
    /// Least utilisation, in percent.
    pub utilization_min_percent: u8,
    /// Greatest utilisation, in percent.
    pub utilization_max_percent: u8,
    /// Mean utilisation, in percent.
    pub utilization_mean_percent: u8,
    /// Greatest temperature, in degrees Celsius.
    pub temperature_max_celsius: u32,
    /// Greatest power draw, in milliwatts.
    pub power_max_milliwatts: u32,
    /// Mean power draw, in milliwatts.
    pub power_mean_milliwatts: u32,
    /// Energy over the window, in millijoules; `None` when neither the counter
    /// nor the power samples give one.
    pub energy_millijoules: Option<u64>,
    /// Where the energy came from; `None` exactly when the energy is.
    pub energy_source: Option<EnergySource>,
}

/// GPU metrics over all devices, with a breakdown by device.
#[derive(Debug, Clone, PartialEq, Eq)]
pub struct GpuMetrics {
    /// Number of samples.
    pub sample_count: u32,
    /// Number of distinct devices.
    pub device_count: u32,
    /// Least memory in use, in bytes.
    pub memory_used_min_bytes: u64,
    /// Greatest memory in use, in bytes.
    pub memory_used_max_bytes: u64,
    /// Mean memory in use, in bytes.
    pub memory_used_mean_bytes: u64,
    /// Memory capacity of the device of the first sample.
    pub memory_total_bytes: u64,
    /// Least utilisation, in percent.
    pub utilization_min_percent: u8,
    /// Greatest utilisation, in percent.
    pub utilization_max_percent: u8,
    /// Mean utilisation over all samples, in percent.
    pub utilization_mean_percent: u8,
    /// Greatest temperature, in degrees Celsius.
    pub temperature_max_celsius: u32,
    /// Greatest power draw, in milliwatts.
    pub power_max_milliwatts: u32,
    /// Mean power draw over all samples, in milliwatts.
    pub power_mean_milliwatts: u32,
    /// Energy over all devices, in millijoules; `None` when no device has one.
    pub energy_millijoules: Option<u64>,
    /// Counter only if every contributing device used the counter: the weakest
    /// link governs. `None` exactly when the energy is.
    pub energy_source: Option<EnergySource>,
    /// One entry per device, in ascending order.
    pub per_device: Vec<GpuDeviceMetrics>,
}

/// Energy-efficiency metrics.
///
/// Tokens per watt and tokens per joule are one quantity under two names: with
/// time in seconds, tokens/(W*s) is tokens/J.
#[derive(Debug, Clone, Copy, PartialEq, Eq, Structural)]
pub struct EfficiencyMetrics {
    /// GPU energy, in joules.
    pub energy_joules: Binary64,
    /// Energy per output token, in millijoules.
    pub energy_per_token_mj: Binary64,
    /// Output tokens per joule.
    pub tokens_per_joule: Binary64,
    /// Output tokens per watt: the same value.
    pub tokens_per_watt: Binary64,
    /// Where the energy came from.
    pub energy_source: EnergySource,
}

/// Prefix-cache metrics over the scrape window.
#[derive(Debug, Clone, Copy, PartialEq, Eq, Structural)]
pub struct KvCacheMetrics {
    /// Rise of the hit counter.
    pub hits_delta: u64,
    /// Rise of the query counter.
    pub queries_delta: u64,
    /// Hits per query.
    pub hit_rate: Binary64,
}

/// The window's energy split between prefill and decode, by two bases.
///
/// This apportions a device-level figure; it does not measure phases. In each
/// basis prefill is a rounded share and decode the remainder, so the two add
/// up to the total exactly. The time basis is absent where the engine exposes
/// no phase timing.
#[derive(Debug, Clone, Copy, PartialEq, Eq, Structural)]
pub struct PhaseEnergyMetrics {
    /// Rise of prefill time, in nanoseconds.
    pub prefill_ns_delta: Option<u64>,
    /// Rise of decode time, in nanoseconds.
    pub decode_ns_delta: Option<u64>,
    /// Rise of prompt tokens.
    pub prompt_tokens_delta: u64,
    /// Rise of generation tokens.
    pub generation_tokens_delta: u64,
    /// Energy of prefill by its share of phase time, in millijoules.
    pub energy_prefill_by_time_mj: Option<u64>,
    /// Energy of decode by time, in millijoules.
    pub energy_decode_by_time_mj: Option<u64>,
    /// Energy of prefill by its share of tokens, in millijoules.
    pub energy_prefill_by_tokens_mj: u64,
    /// Energy of decode by tokens, in millijoules.
    pub energy_decode_by_tokens_mj: u64,
    /// Prefill's share of time minus its share of tokens.
    pub phase_energy_divergence: Option<SignedBinary64>,
}

/// One probe run: the raw signals and what was derived from them.
#[derive(Debug, Clone)]
pub struct Report {
    /// Token timing.
    pub request_timing: RequestTiming,
    /// Process samples, if taken.
    pub resource_timeline: Option<ResourceTimeline>,
    /// GPU samples, if taken.
    pub gpu_timeline: Option<GpuTimeline>,
    /// Timing metrics.
    pub timing: TimingMetrics,
    /// Resource metrics.
    pub resource: Option<ResourceMetrics>,
    /// GPU metrics.
    pub gpu: Option<GpuMetrics>,
    /// Energy-efficiency metrics.
    pub efficiency: Option<EfficiencyMetrics>,
    /// Prefix-cache scrapes, if any.
    pub kvcache_timeline: Option<KvCacheTimeline>,
    /// Prefix-cache metrics.
    pub kvcache: Option<KvCacheMetrics>,
    /// Phase scrapes, if any.
    pub phase_timeline: Option<PhaseTimeline>,
    /// Speculative-decoding scrapes, if any.
    pub spec_timeline: Option<SpecTimeline>,
    /// Energy by phase.
    pub phase_energy: Option<PhaseEnergyMetrics>,
    /// Wall-clock time of the reference instant, UTC unix-epoch nanoseconds.
    pub reference_instant_unix_ns: Option<u64>,
    /// Attribution to the steps of a trajectory.
    pub trajectory: Option<TrajectoryMetrics>,
    /// Version of the serialized schema; `None` on reports older than it.
    pub schema_version: Option<u32>,
}

} // verus!
