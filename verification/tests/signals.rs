//! The raw signals: timing, process, devices, cache, phases, speculation.
use inferscope::error::CoreError;
use inferscope::gpu::{GpuSample, GpuTimeline};
use inferscope::kvcache::{HitRateAccounting, KvCacheSample, KvCacheTimeline};
use inferscope::phase::{PhaseSample, PhaseTimeline};
use inferscope::resource::{ResourceSample, ResourceTimeline};
use inferscope::speculative::SpecTimeline;
use inferscope::timing::{RequestTiming, TokenArrival};

fn gpu_sample(elapsed_ns: u64, device_index: u32, mem_used: u64) -> GpuSample {
    GpuSample {
        elapsed_ns,
        device_index,
        memory_used_bytes: mem_used,
        memory_total_bytes: 80 * 1024 * 1024 * 1024,
        utilization_percent: 50,
        temperature_celsius: 45,
        power_draw_milliwatts: 250_000,
    }
}

#[test]
fn gpu_timeline_starts_empty() {
    let t = GpuTimeline::new(50_000_000);
    assert_eq!(t.len(), 0);
    assert!(t.is_empty());
    assert_eq!(t.sample_period_ns, 50_000_000);
}

#[test]
fn gpu_push_appends_samples() {
    let mut t = GpuTimeline::new(50_000_000);
    t.push(gpu_sample(50_000_000, 0, 1_000_000_000));
    t.push(gpu_sample(100_000_000, 0, 2_000_000_000));
    t.push(gpu_sample(150_000_000, 0, 3_000_000_000));
    assert_eq!(t.len(), 3);
    assert_eq!(t.samples[0].memory_used_bytes, 1_000_000_000);
    assert_eq!(t.samples[2].memory_used_bytes, 3_000_000_000);
}

#[test]
fn device_indices_single_gpu() {
    let mut t = GpuTimeline::new(50_000_000);
    t.push(gpu_sample(50_000_000, 0, 100));
    t.push(gpu_sample(100_000_000, 0, 200));
    assert_eq!(t.device_indices(), vec![0]);
}

#[test]
fn device_indices_multi_gpu_sorted_and_deduped() {
    let mut t = GpuTimeline::new(50_000_000);
    t.push(gpu_sample(50_000_000, 2, 100));
    t.push(gpu_sample(50_000_000, 0, 100));
    t.push(gpu_sample(50_000_000, 3, 100));
    t.push(gpu_sample(50_000_000, 1, 100));
    t.push(gpu_sample(100_000_000, 0, 200));
    t.push(gpu_sample(100_000_000, 1, 200));
    t.push(gpu_sample(100_000_000, 2, 200));
    t.push(gpu_sample(100_000_000, 3, 200));
    assert_eq!(t.device_indices(), vec![0, 1, 2, 3]);
}

#[test]
fn device_indices_empty_timeline() {
    let t = GpuTimeline::new(50_000_000);
    assert_eq!(t.device_indices(), Vec::<u32>::new());
}

fn kv_sample(elapsed_ns: u64, hits: u64, queries: u64) -> KvCacheSample {
    KvCacheSample { elapsed_ns, hits, queries }
}

#[test]
fn kvcache_timeline_starts_empty() {
    let t = KvCacheTimeline::new(500_000_000, HitRateAccounting::BlockAligned);
    assert_eq!(t.len(), 0);
    assert!(t.is_empty());
    assert_eq!(t.sample_period_ns, 500_000_000);
}

#[test]
fn kvcache_push_appends_samples() {
    let mut t = KvCacheTimeline::new(500_000_000, HitRateAccounting::BlockAligned);
    t.push(kv_sample(500_000_000, 10, 40));
    t.push(kv_sample(1_000_000_000, 48, 120));
    t.push(kv_sample(1_500_000_000, 96, 196));
    assert_eq!(t.len(), 3);
    assert_eq!(t.samples[0].hits, 10);
    assert_eq!(t.samples[2].hits, 96);
    assert_eq!(t.samples[2].queries, 196);
}

#[test]
fn a_timeline_keeps_the_accounting_it_was_built_with() {
    let t = KvCacheTimeline::new(500_000_000, HitRateAccounting::ExactTokens);
    assert_eq!(t.accounting, Some(HitRateAccounting::ExactTokens));
}

fn phase_sample(
    elapsed_ns: u64,
    prompt: u64,
    generation: u64,
    prefill_ns: u64,
    decode_ns: u64,
) -> PhaseSample {
    PhaseSample {
        elapsed_ns,
        prompt_tokens: prompt,
        generation_tokens: generation,
        prefill_ns: Some(prefill_ns),
        decode_ns: Some(decode_ns),
    }
}

#[test]
fn new_timeline_is_empty() {
    let t = PhaseTimeline::new(500_000_000);
    assert!(t.is_empty());
    assert_eq!(t.len(), 0);
    assert_eq!(t.sample_period_ns, 500_000_000);
}

#[test]
fn phase_push_appends_in_order() {
    let mut t = PhaseTimeline::new(500_000_000);
    t.push(phase_sample(100, 10, 2, 5, 8));
    t.push(phase_sample(200, 20, 6, 9, 14));
    assert_eq!(t.len(), 2);
    assert_eq!(t.samples[0].elapsed_ns, 100);
    assert_eq!(t.samples[1].generation_tokens, 6);
}

fn resource_sample(elapsed_ns: u64, rss: u64) -> ResourceSample {
    ResourceSample {
        elapsed_ns,
        rss_bytes: rss,
        cpu_user_jiffies: 0,
        cpu_system_jiffies: 0,
        thread_count: 1,
    }
}

#[test]
fn resource_timeline_starts_empty() {
    let t = ResourceTimeline::new(50_000_000);
    assert_eq!(t.len(), 0);
    assert!(t.is_empty());
    assert_eq!(t.sample_period_ns, 50_000_000);
}

#[test]
fn resource_push_appends_in_order() {
    let mut t = ResourceTimeline::new(50_000_000);
    t.push(resource_sample(50_000_000, 100));
    t.push(resource_sample(100_000_000, 200));
    t.push(resource_sample(150_000_000, 300));
    assert_eq!(t.len(), 3);
    assert_eq!(t.samples[0].rss_bytes, 100);
    assert_eq!(t.samples[2].rss_bytes, 300);
}

#[test]
fn push_keeps_a_complete_family() {
    let mut t = SpecTimeline::new(250_000_000);
    assert!(t.push(1_000, Some(40), Some(12), Some(10)));
    assert_eq!(t.samples.len(), 1);
    assert_eq!(t.samples[0].draft_tokens, 40);
    assert_eq!(t.samples[0].accepted_tokens, 12);
    assert_eq!(t.samples[0].drafts, 10);
}

#[test]
fn push_drops_a_partial_family() {
    let mut t = SpecTimeline::new(250_000_000);
    assert!(!t.push(1_000, None, Some(12), Some(10)));
    assert!(!t.push(2_000, Some(40), None, Some(10)));
    assert!(!t.push(3_000, Some(40), Some(12), None));
    assert!(t.is_empty());
}

#[test]
fn an_engine_without_the_family_yields_an_empty_timeline() {
    let t = SpecTimeline::new(250_000_000);
    assert!(t.is_empty());
    assert_eq!(t.sample_period_ns, 250_000_000);
}

#[test]
fn token_arrival_holds_its_fields() {
    let t = TokenArrival::new(3, 458_000_000);
    assert_eq!(t.index, 3);
    assert_eq!(t.elapsed_ns, 458_000_000);
}

#[test]
fn request_timing_reports_token_count() {
    let timing = RequestTiming::new(
        vec![TokenArrival::new(0, 100), TokenArrival::new(1, 200), TokenArrival::new(2, 300)],
        350,
    );
    assert_eq!(timing.token_count(), 3);
    assert!(!timing.is_empty());
}

#[test]
fn empty_request_timing_is_empty() {
    let timing = RequestTiming::new(Vec::new(), 0);
    assert_eq!(timing.token_count(), 0);
    assert!(timing.is_empty());
}

#[test]
fn an_invalid_metric_names_the_field_and_the_reason() {
    let e = CoreError::InvalidMetric { field: "rss".to_string(), reason: "negative".to_string() };
    assert_eq!(e.message(), "invalid metric value for rss: negative");
}
