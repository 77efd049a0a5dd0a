//! Metrics derived from the raw signals, and the reports that hold them.
use inferscope::binary64::{Binary64, SignedBinary64};
use inferscope::derive::{
    are_arrivals_in_order, can_derive_resource, clock_tick_hz, derive_efficiency, derive_kvcache,
    derive_phase_energy, derive_resource, derive_timing, ReportError,
};
use inferscope::energy::integrate_power_trapezoidal;
use inferscope::gpu::{DeviceEnergy, EnergySource, GpuSample, GpuTimeline};
use inferscope::gpu_metrics::{can_derive_gpu, derive_gpu};
use inferscope::kvcache::{HitRateAccounting, KvCacheSample, KvCacheTimeline};
use inferscope::metrics::REPORT_SCHEMA_VERSION;
use inferscope::phase::{PhaseSample, PhaseTimeline};
use inferscope::resource::{ResourceSample, ResourceTimeline};
use inferscope::session::{
    build_report, build_resource_report, idle_warning, looks_idle, RunSignals, WindowRequest,
    WindowSignals,
};
use inferscope::stats::percentile_nearest_rank;
use inferscope::steps::{StepKind, StepRecord};
use inferscope::timing::{RequestTiming, TokenArrival};

fn double(x: Binary64) -> f64 {
    x.mantissa as f64 * 2f64.powi(x.exponent)
}

fn signed(x: SignedBinary64) -> f64 {
    if x.negative {
        -double(x.magnitude)
    } else {
        double(x.magnitude)
    }
}

#[test]
fn derive_timing_for_empty_request() {
    let timing = RequestTiming::new(vec![], 0);
    let m = derive_timing(&timing);
    assert_eq!(m.token_count, 0);
    assert_eq!(m.ttft_ns, None);
    assert_eq!(m.total_latency_ns, 0);
    assert_eq!(m.tokens_per_second, None);
    assert!(m.inter_token_latency.is_none());
}

#[test]
fn derive_timing_for_single_token() {
    let timing = RequestTiming::new(vec![TokenArrival::new(0, 412_000_000)], 412_500_000);
    let m = derive_timing(&timing);
    assert_eq!(m.token_count, 1);
    assert_eq!(m.ttft_ns, Some(412_000_000));
    assert_eq!(m.total_latency_ns, 412_500_000);
    assert_eq!(m.tokens_per_second, None);
    assert!(m.inter_token_latency.is_none());
}

#[test]
fn derive_timing_excludes_ttft_from_tokens_per_second() {
    let tokens = vec![
        TokenArrival::new(0, 1_000_000_000),
        TokenArrival::new(1, 1_100_000_000),
        TokenArrival::new(2, 1_200_000_000),
        TokenArrival::new(3, 1_300_000_000),
        TokenArrival::new(4, 1_400_000_000),
    ];
    let timing = RequestTiming::new(tokens, 1_500_000_000);
    let m = derive_timing(&timing);
    let tps = double(m.tokens_per_second.expect("rate should be defined"));
    assert!((tps - 10.0).abs() < 0.001, "expected ~10 tokens/s, got {tps}");
    assert_eq!(tps, 4.0 / (400_000_000f64 / 1e9));
}

#[test]
fn derive_timing_inter_token_distribution_with_uniform_spacing() {
    let tokens = vec![
        TokenArrival::new(0, 100_000_000),
        TokenArrival::new(1, 150_000_000),
        TokenArrival::new(2, 200_000_000),
        TokenArrival::new(3, 250_000_000),
    ];
    let timing = RequestTiming::new(tokens, 260_000_000);
    let m = derive_timing(&timing);
    let dist = m.inter_token_latency.unwrap();
    assert_eq!(dist.count, 3);
    assert_eq!(dist.mean_ns, 50_000_000);
    assert_eq!(dist.p50_ns, 50_000_000);
    assert_eq!(dist.max_ns, 50_000_000);
}

#[test]
fn derive_timing_inter_token_distribution_with_spike() {
    let mut tokens = vec![TokenArrival::new(0, 100_000_000)];
    let mut t = 100_000_000u64;
    for (i, delta) in [10, 10, 10, 10, 100].iter().enumerate() {
        t += delta * 1_000_000;
        tokens.push(TokenArrival::new((i + 1) as u32, t));
    }
    let timing = RequestTiming::new(tokens, t + 1_000_000);
    let m = derive_timing(&timing);
    let dist = m.inter_token_latency.unwrap();
    assert_eq!(dist.count, 5);
    assert_eq!(dist.mean_ns, 28_000_000);
    assert_eq!(dist.p50_ns, 10_000_000);
    assert_eq!(dist.p95_ns, 100_000_000);
    assert_eq!(dist.max_ns, 100_000_000);
}

#[test]
fn tokens_at_one_instant_have_no_rate() {
    let timing = RequestTiming::new(vec![TokenArrival::new(0, 5), TokenArrival::new(1, 5)], 6);
    assert!(are_arrivals_in_order(&timing));
    let m = derive_timing(&timing);
    assert_eq!(m.tokens_per_second, None);
    assert_eq!(m.inter_token_latency.unwrap().max_ns, 0);
    let back = RequestTiming::new(vec![TokenArrival::new(0, 5), TokenArrival::new(1, 4)], 6);
    assert!(!are_arrivals_in_order(&back));
    assert!(are_arrivals_in_order(&RequestTiming::new(vec![], 0)));
}

fn sample(elapsed_ns: u64, rss: u64, ujif: u64, sjif: u64, threads: u32) -> ResourceSample {
    ResourceSample {
        elapsed_ns,
        rss_bytes: rss,
        cpu_user_jiffies: ujif,
        cpu_system_jiffies: sjif,
        thread_count: threads,
    }
}

#[test]
fn derive_resource_for_empty_timeline_returns_none() {
    let tl = ResourceTimeline::new(50_000_000);
    let m = derive_resource(&tl, 100).expect("derive should not error");
    assert!(m.is_none());
}

#[test]
fn derive_resource_with_single_sample_omits_cpu() {
    let mut tl = ResourceTimeline::new(50_000_000);
    tl.push(sample(50_000_000, 1024, 100, 5, 4));
    let m = derive_resource(&tl, 100).expect("derive should not error").unwrap();
    assert_eq!(m.sample_count, 1);
    assert_eq!(m.rss_min_bytes, 1024);
    assert_eq!(m.rss_max_bytes, 1024);
    assert_eq!(m.rss_mean_bytes, 1024);
    assert_eq!(m.rss_final_bytes, 1024);
    assert_eq!(m.thread_min, 4);
    assert_eq!(m.thread_max, 4);
    assert_eq!(m.cpu_mean_percent, None);
}

#[test]
fn derive_resource_rss_aggregations() {
    let mut tl = ResourceTimeline::new(50_000_000);
    tl.push(sample(50_000_000, 100, 0, 0, 1));
    tl.push(sample(100_000_000, 300, 0, 0, 1));
    tl.push(sample(150_000_000, 200, 0, 0, 1));
    let m = derive_resource(&tl, 100).expect("derive should not error").unwrap();
    assert_eq!(m.sample_count, 3);
    assert_eq!(m.rss_min_bytes, 100);
    assert_eq!(m.rss_max_bytes, 300);
    assert_eq!(m.rss_mean_bytes, 200);
    assert_eq!(m.rss_final_bytes, 200);
}

#[test]
fn derive_resource_cpu_utilisation_within_plausible_range() {
    let mut tl = ResourceTimeline::new(50_000_000);
    tl.push(sample(0, 100, 100, 0, 1));
    tl.push(sample(1_000_000_000, 100, 150, 0, 1));
    let m = derive_resource(&tl, 100).expect("derive should not error").unwrap();
    let cpu = double(m.cpu_mean_percent.expect("two samples -> defined"));
    assert!((0.0..=10_000.0).contains(&cpu), "CPU utilisation out of plausible range: {cpu}");
    assert_eq!(cpu, 50.0);
}

#[test]
fn a_clock_without_a_rate_is_an_error() {
    let mut tl = ResourceTimeline::new(50_000_000);
    tl.push(sample(0, 1, 0, 0, 1));
    assert!(derive_resource(&tl, 0).is_ok());
    tl.push(sample(1, 1, 0, 0, 1));
    assert_eq!(derive_resource(&tl, 0), Err(ReportError::UnknownClockTick));
    assert_eq!(clock_tick_hz(-1), Err(ReportError::UnknownClockTick));
    assert_eq!(clock_tick_hz(100), Ok(100));
    assert_eq!(
        ReportError::UnknownClockTick.message(),
        "could not determine system clock tick rate (_SC_CLK_TCK)"
    );
}

#[test]
fn cpu_time_beyond_64_bits_is_noticed() {
    let mut tl = ResourceTimeline::new(1);
    assert!(can_derive_resource(&tl));
    tl.push(sample(0, 1, u64::MAX, 1, 1));
    assert!(can_derive_resource(&tl));
    assert_eq!(derive_resource(&tl, 100).unwrap().unwrap().cpu_mean_percent, None);
    tl.push(sample(0, 1, u64::MAX, 0, 1));
    assert!(!can_derive_resource(&tl));
}

#[test]
fn percentile_basics() {
    let sorted = [10u64, 20, 30, 40, 50];
    assert_eq!(percentile_nearest_rank(&sorted, 50), 30);
    assert_eq!(percentile_nearest_rank(&sorted, 95), 50);
    assert_eq!(percentile_nearest_rank(&sorted, 99), 50);
    assert_eq!(percentile_nearest_rank(&sorted, 100), 50);
}

#[test]
fn higher_percentiles_are_no_smaller() {
    let sorted = [1u64, 1, 2, 3, 5, 8, 13, 21];
    let mut last = 0;
    for p in 1..=100 {
        let v = percentile_nearest_rank(&sorted, p);
        assert!(v >= last);
        last = v;
    }
    assert_eq!(last, 21);
}

fn gpu_sample(
    elapsed_ns: u64,
    device_index: u32,
    mem_used: u64,
    util: u8,
    temp: u32,
    power_mw: u32,
) -> GpuSample {
    GpuSample {
        elapsed_ns,
        device_index,
        memory_used_bytes: mem_used,
        memory_total_bytes: 80 * 1024 * 1024 * 1024,
        utilization_percent: util,
        temperature_celsius: temp,
        power_draw_milliwatts: power_mw,
    }
}

#[test]
fn derive_gpu_returns_none_on_empty_timeline() {
    let tl = GpuTimeline::new(50_000_000);
    assert!(derive_gpu(&tl).is_none());
}

#[test]
fn derive_gpu_single_sample_collapses_to_that_sample() {
    let mut tl = GpuTimeline::new(50_000_000);
    tl.push(gpu_sample(0, 0, 1_000_000_000, 50, 45, 200_000));
    let m = derive_gpu(&tl).expect("non-empty");
    assert_eq!(m.sample_count, 1);
    assert_eq!(m.device_count, 1);
    assert_eq!(m.memory_used_min_bytes, 1_000_000_000);
    assert_eq!(m.memory_used_max_bytes, 1_000_000_000);
    assert_eq!(m.memory_used_mean_bytes, 1_000_000_000);
    assert_eq!(m.utilization_min_percent, 50);
    assert_eq!(m.utilization_max_percent, 50);
    assert_eq!(m.utilization_mean_percent, 50);
    assert_eq!(m.temperature_max_celsius, 45);
    assert_eq!(m.power_max_milliwatts, 200_000);
    assert_eq!(m.power_mean_milliwatts, 200_000);
}

#[test]
fn derive_gpu_multiple_samples_aggregates_min_max_mean() {
    let mut tl = GpuTimeline::new(50_000_000);
    tl.push(gpu_sample(0, 0, 1_000_000_000, 10, 40, 100_000));
    tl.push(gpu_sample(50_000_000, 0, 2_000_000_000, 50, 50, 200_000));
    tl.push(gpu_sample(100_000_000, 0, 3_000_000_000, 90, 60, 300_000));
    let m = derive_gpu(&tl).expect("non-empty");
    assert_eq!(m.sample_count, 3);
    assert_eq!(m.device_count, 1);
    assert_eq!(m.memory_used_min_bytes, 1_000_000_000);
    assert_eq!(m.memory_used_max_bytes, 3_000_000_000);
    assert_eq!(m.memory_used_mean_bytes, 2_000_000_000);
    assert_eq!(m.utilization_min_percent, 10);
    assert_eq!(m.utilization_max_percent, 90);
    assert_eq!(m.utilization_mean_percent, 50);
    assert_eq!(m.temperature_max_celsius, 60);
    assert_eq!(m.power_max_milliwatts, 300_000);
    assert_eq!(m.power_mean_milliwatts, 200_000);
}

#[test]
fn derive_gpu_multi_gpu_counts_devices_correctly() {
    let mut tl = GpuTimeline::new(50_000_000);
    tl.push(gpu_sample(0, 0, 1_000_000_000, 50, 45, 200_000));
    tl.push(gpu_sample(0, 1, 1_000_000_000, 50, 45, 200_000));
    tl.push(gpu_sample(0, 2, 1_000_000_000, 50, 45, 200_000));
    tl.push(gpu_sample(0, 3, 1_000_000_000, 50, 45, 200_000));
    let m = derive_gpu(&tl).expect("non-empty");
    assert_eq!(m.sample_count, 4);
    assert_eq!(m.device_count, 4);
}

#[test]
fn derive_gpu_populates_per_device_for_multi_gpu_run() {
    let mut tl = GpuTimeline::new(50_000_000);
    for elapsed in [0u64, 50_000_000] {
        tl.push(gpu_sample(elapsed, 0, 2_000_000_000, 30, 50, 150_000));
        tl.push(gpu_sample(elapsed, 1, 3_000_000_000, 40, 55, 160_000));
        tl.push(gpu_sample(elapsed, 2, 0, 0, 33, 34_000));
        tl.push(gpu_sample(elapsed, 3, 0, 0, 34, 32_000));
    }
    let m = derive_gpu(&tl).expect("non-empty");
    assert_eq!(m.sample_count, 8);
    assert_eq!(m.device_count, 4);
    assert_eq!(m.per_device.len(), 4);
    assert_eq!(m.per_device[0].device_index, 0);
    assert_eq!(m.per_device[1].device_index, 1);
    assert_eq!(m.per_device[2].device_index, 2);
    assert_eq!(m.per_device[3].device_index, 3);
    for d in &m.per_device {
        assert_eq!(d.sample_count, 2);
    }
    assert_eq!(m.per_device[1].memory_used_max_bytes, 3_000_000_000);
    assert_eq!(m.per_device[1].utilization_mean_percent, 40);
    assert_eq!(m.per_device[1].power_mean_milliwatts, 160_000);
    assert_eq!(m.per_device[1].temperature_max_celsius, 55);
    assert_eq!(m.per_device[3].memory_used_max_bytes, 0);
    assert_eq!(m.per_device[3].utilization_mean_percent, 0);
    assert_eq!(m.per_device[3].power_mean_milliwatts, 32_000);
}

#[test]
fn integral_constant_power_equals_power_times_time() {
    let owned = [
        gpu_sample(0, 0, 0, 0, 0, 100_000),
        gpu_sample(500_000_000, 0, 0, 0, 0, 100_000),
        gpu_sample(1_000_000_000, 0, 0, 0, 0, 100_000),
        gpu_sample(2_000_000_000, 0, 0, 0, 0, 100_000),
    ];
    let refs: Vec<&GpuSample> = owned.iter().collect();
    assert_eq!(integrate_power_trapezoidal(&refs), 200_000);
}

#[test]
fn integral_linear_ramp_equals_mean_power_times_time() {
    let owned = [
        gpu_sample(0, 0, 0, 0, 0, 0),
        gpu_sample(1_000_000_000, 0, 0, 0, 0, 100_000),
        gpu_sample(2_000_000_000, 0, 0, 0, 0, 200_000),
    ];
    let refs: Vec<&GpuSample> = owned.iter().collect();
    assert_eq!(integrate_power_trapezoidal(&refs), 200_000);
}

#[test]
fn integral_fewer_than_two_samples_is_zero() {
    let owned = [gpu_sample(0, 0, 0, 0, 0, 100_000)];
    let refs: Vec<&GpuSample> = owned.iter().collect();
    assert_eq!(integrate_power_trapezoidal(&refs), 0);
    assert_eq!(integrate_power_trapezoidal(&[]), 0);
}

#[test]
fn derive_gpu_prefers_counter_energy_when_present() {
    let mut tl = GpuTimeline::new(1_000_000_000);
    tl.push(gpu_sample(0, 0, 0, 0, 0, 100_000));
    tl.push(gpu_sample(2_000_000_000, 0, 0, 0, 0, 100_000));
    tl.energy = Some(vec![DeviceEnergy {
        device_index: 0,
        energy_millijoules: 51_500,
        source: EnergySource::Counter,
    }]);
    let m = derive_gpu(&tl).expect("non-empty");
    assert_eq!(m.per_device[0].energy_millijoules, Some(51_500));
    assert_eq!(m.per_device[0].energy_source, Some(EnergySource::Counter));
    assert_eq!(m.energy_millijoules, Some(51_500));
    assert_eq!(m.energy_source, Some(EnergySource::Counter));
}

#[test]
fn derive_gpu_falls_back_to_integral_without_counter() {
    let mut tl = GpuTimeline::new(1_000_000_000);
    tl.push(gpu_sample(0, 0, 0, 0, 0, 100_000));
    tl.push(gpu_sample(2_000_000_000, 0, 0, 0, 0, 100_000));
    let m = derive_gpu(&tl).expect("non-empty");
    assert_eq!(m.per_device[0].energy_millijoules, Some(200_000));
    assert_eq!(m.per_device[0].energy_source, Some(EnergySource::IntegratedFallback));
}

#[test]
fn derive_gpu_aggregate_is_fallback_grade_if_any_device_estimated() {
    let mut tl = GpuTimeline::new(1_000_000_000);
    tl.push(gpu_sample(0, 0, 0, 0, 0, 100_000));
    tl.push(gpu_sample(2_000_000_000, 0, 0, 0, 0, 100_000));
    tl.push(gpu_sample(0, 1, 0, 0, 0, 50_000));
    tl.push(gpu_sample(2_000_000_000, 1, 0, 0, 0, 50_000));
    tl.energy = Some(vec![DeviceEnergy {
        device_index: 0,
        energy_millijoules: 60_000,
        source: EnergySource::Counter,
    }]);
    let m = derive_gpu(&tl).expect("non-empty");
    assert_eq!(m.per_device[1].energy_millijoules, Some(100_000));
    assert_eq!(m.energy_millijoules, Some(160_000));
    assert_eq!(m.energy_source, Some(EnergySource::IntegratedFallback));
}

#[test]
fn derive_gpu_aggregate_is_counter_grade_when_all_counter() {
    let mut tl = GpuTimeline::new(1_000_000_000);
    tl.push(gpu_sample(0, 0, 0, 0, 0, 100_000));
    tl.push(gpu_sample(2_000_000_000, 0, 0, 0, 0, 100_000));
    tl.push(gpu_sample(0, 1, 0, 0, 0, 100_000));
    tl.push(gpu_sample(2_000_000_000, 1, 0, 0, 0, 100_000));
    tl.energy = Some(vec![
        DeviceEnergy {
            device_index: 0,
            energy_millijoules: 40_000,
            source: EnergySource::Counter,
        },
        DeviceEnergy {
            device_index: 1,
            energy_millijoules: 45_000,
            source: EnergySource::Counter,
        },
    ]);
    let m = derive_gpu(&tl).expect("non-empty");
    assert_eq!(m.energy_millijoules, Some(85_000));
    assert_eq!(m.energy_source, Some(EnergySource::Counter));
}

#[test]
fn a_device_is_described_by_its_own_samples_alone() {
    let mut one = GpuTimeline::new(1_000_000_000);
    let mut two = GpuTimeline::new(1_000_000_000);
    two.push(gpu_sample(0, 1, 77, 90, 80, 300_000));
    for (t, power) in [(0, 100_000), (2_000_000_000, 140_000)] {
        one.push(gpu_sample(t, 3, 5 + t, 10, 40, power));
        two.push(gpu_sample(t, 3, 5 + t, 10, 40, power));
        two.push(gpu_sample(t + 1, 1, 99, 100, 85, 350_000));
    }
    two.energy = Some(vec![DeviceEnergy {
        device_index: 1,
        energy_millijoules: 60_000,
        source: EnergySource::Counter,
    }]);
    let alone = derive_gpu(&one).unwrap();
    let among = derive_gpu(&two).unwrap();
    assert_eq!(alone.per_device[0].device_index, 3);
    assert_eq!(alone.per_device[0].energy_millijoules, Some(240_000));
    assert_eq!(among.per_device[1], alone.per_device[0]);
}

#[test]
fn energies_beyond_64_bits_are_noticed() {
    let mut tl = GpuTimeline::new(1);
    tl.push(gpu_sample(0, 0, 0, 0, 0, 0));
    tl.push(gpu_sample(0, 1, 0, 0, 0, 0));
    assert!(can_derive_gpu(&tl));
    tl.energy = Some(vec![
        DeviceEnergy {
            device_index: 0,
            energy_millijoules: u64::MAX,
            source: EnergySource::Counter,
        },
        DeviceEnergy { device_index: 1, energy_millijoules: 1, source: EnergySource::Counter },
    ]);
    assert!(!can_derive_gpu(&tl));
}

#[test]
fn efficiency_known_values() {
    let e = derive_efficiency(Some(200_000), Some(EnergySource::Counter), 1000)
        .expect("some efficiency");
    assert_eq!(double(e.energy_joules), 200.0);
    assert_eq!(double(e.energy_per_token_mj), 200.0);
    assert_eq!(double(e.tokens_per_joule), 5.0);
    assert_eq!(double(e.tokens_per_watt), 5.0);
    assert_eq!(e.energy_source, EnergySource::Counter);
}

#[test]
fn efficiency_tokens_per_watt_equals_tokens_per_joule() {
    let e = derive_efficiency(Some(73_456), Some(EnergySource::IntegratedFallback), 337)
        .expect("some efficiency");
    assert_eq!(e.tokens_per_watt, e.tokens_per_joule);
    assert_eq!(e.energy_source, EnergySource::IntegratedFallback);
    assert_eq!(double(e.tokens_per_joule), 337.0 / (73_456.0 / 1000.0));
}

#[test]
fn efficiency_none_without_energy() {
    assert!(derive_efficiency(None, None, 1000).is_none());
}

#[test]
fn efficiency_none_on_zero_energy_or_zero_tokens() {
    assert!(derive_efficiency(Some(0), Some(EnergySource::Counter), 1000).is_none());
    assert!(derive_efficiency(Some(200_000), Some(EnergySource::Counter), 0).is_none());
}

fn kv_sample(elapsed_ns: u64, hits: u64, queries: u64) -> KvCacheSample {
    KvCacheSample { elapsed_ns, hits, queries }
}

fn kv_timeline() -> KvCacheTimeline {
    KvCacheTimeline::new(1_000_000_000, HitRateAccounting::BlockAligned)
}

#[test]
fn derive_kvcache_window_delta_and_rate() {
    let mut tl = kv_timeline();
    tl.push(kv_sample(0, 10, 40));
    tl.push(kv_sample(1_000_000_000, 48, 120));
    tl.push(kv_sample(2_000_000_000, 96, 196));
    let m = derive_kvcache(&tl).expect("valid window");
    assert_eq!(m.hits_delta, 86);
    assert_eq!(m.queries_delta, 156);
    assert!((double(m.hit_rate) - (86.0 / 156.0)).abs() < 1e-12);
    assert_eq!(double(m.hit_rate), 86.0 / 156.0);
}

#[test]
fn derive_kvcache_two_samples_minimum() {
    let mut tl = kv_timeline();
    tl.push(kv_sample(0, 0, 0));
    tl.push(kv_sample(1_000_000_000, 96, 196));
    let m = derive_kvcache(&tl).expect("valid window");
    assert_eq!(m.hits_delta, 96);
    assert_eq!(m.queries_delta, 196);
    assert!((double(m.hit_rate) - (96.0 / 196.0)).abs() < 1e-12);
}

#[test]
fn derive_kvcache_empty_timeline_is_none() {
    assert!(derive_kvcache(&kv_timeline()).is_none());
}

#[test]
fn derive_kvcache_single_sample_is_none() {
    let mut tl = kv_timeline();
    tl.push(kv_sample(0, 96, 196));
    assert!(derive_kvcache(&tl).is_none());
}

#[test]
fn derive_kvcache_counter_regression_is_none() {
    let mut tl = kv_timeline();
    tl.push(kv_sample(0, 96, 196));
    tl.push(kv_sample(1_000_000_000, 5, 12));
    assert!(derive_kvcache(&tl).is_none());
}

#[test]
fn a_counter_reset_within_the_window_withholds_the_rate() {
    for middle in [kv_sample(1_000_000_000, 5, 12), kv_sample(1_000_000_000, 12, 39)] {
        let mut tl = kv_timeline();
        tl.push(kv_sample(0, 10, 40));
        tl.push(middle);
        tl.push(kv_sample(2_000_000_000, 96, 196));
        assert!(derive_kvcache(&tl).is_none());
    }
}

#[test]
fn derive_kvcache_zero_queries_delta_is_none() {
    let mut tl = kv_timeline();
    tl.push(kv_sample(0, 50, 100));
    tl.push(kv_sample(1_000_000_000, 50, 100));
    assert!(derive_kvcache(&tl).is_none());
}

fn phase_sample(
    elapsed_ns: u64,
    prompt_tokens: u64,
    generation_tokens: u64,
    prefill_ns: Option<u64>,
    decode_ns: Option<u64>,
) -> PhaseSample {
    PhaseSample { elapsed_ns, prompt_tokens, generation_tokens, prefill_ns, decode_ns }
}

#[test]
fn the_energy_of_a_window_is_split_by_time_and_by_tokens() {
    let mut tl = PhaseTimeline::new(1_000_000_000);
    tl.push(phase_sample(0, 0, 0, Some(0), Some(0)));
    tl.push(phase_sample(1, 196, 38, Some(14_493), Some(28_432)));
    let m = derive_phase_energy(&tl, Some(100_000), Some(EnergySource::Counter)).unwrap();
    assert_eq!(m.prefill_ns_delta, Some(14_493));
    assert_eq!(m.decode_ns_delta, Some(28_432));
    assert_eq!(m.prompt_tokens_delta, 196);
    assert_eq!(m.generation_tokens_delta, 38);
    let by_time = m.energy_prefill_by_time_mj.unwrap() + m.energy_decode_by_time_mj.unwrap();
    assert_eq!(by_time, 100_000);
    assert_eq!(m.energy_prefill_by_tokens_mj + m.energy_decode_by_tokens_mj, 100_000);
    assert_eq!(m.energy_prefill_by_time_mj.unwrap().abs_diff(33_764), 0);
    assert_eq!(m.energy_prefill_by_tokens_mj.abs_diff(83_761), 0);
    let divergence = signed(m.phase_energy_divergence.unwrap());
    assert!((divergence - (14_493.0 / 42_925.0 - 196.0 / 234.0)).abs() < 1e-12);
}

#[test]
fn an_engine_without_phase_times_is_split_by_tokens_alone() {
    let mut tl = PhaseTimeline::new(1_000_000_000);
    tl.push(phase_sample(0, 0, 0, None, None));
    tl.push(phase_sample(1, 30, 10, None, None));
    let m = derive_phase_energy(&tl, Some(400), Some(EnergySource::Counter)).unwrap();
    assert_eq!(m.energy_prefill_by_tokens_mj, 300);
    assert_eq!(m.energy_decode_by_tokens_mj, 100);
    assert_eq!(m.energy_prefill_by_time_mj, None);
    assert_eq!(m.phase_energy_divergence, None);
}

#[test]
fn a_split_needs_energy_and_a_window() {
    let mut tl = PhaseTimeline::new(1_000_000_000);
    tl.push(phase_sample(0, 5, 5, Some(1), Some(1)));
    assert!(derive_phase_energy(&tl, Some(1), Some(EnergySource::Counter)).is_none());
    tl.push(phase_sample(1, 9, 9, Some(2), Some(2)));
    assert!(derive_phase_energy(&tl, None, None).is_none());
    assert!(derive_phase_energy(&tl, Some(1), Some(EnergySource::Counter)).is_some());
    tl.push(phase_sample(2, 4, 9, Some(2), Some(2)));
    assert!(derive_phase_energy(&tl, Some(1), Some(EnergySource::Counter)).is_none());
}

#[test]
fn a_process_that_does_no_work_is_suspected() {
    let mut tl = ResourceTimeline::new(1);
    assert!(!looks_idle(&tl));
    tl.push(sample(0, 10 * 1024 * 1024 - 1, 0, 0, 1));
    assert!(looks_idle(&tl));
    for busy in [
        sample(1, 10 * 1024 * 1024, 0, 0, 1),
        sample(1, 1, 1, 0, 1),
        sample(1, 1, 0, 1, 1),
        sample(1, 1, 0, 0, 2),
    ] {
        let mut other = tl.clone();
        other.push(busy);
        assert!(!looks_idle(&other));
    }
    let text = idle_warning(21);
    assert!(text.contains("looks idle across all 21 samples (RSS < 10 MiB"), "{text}");
}

fn busy_gpu() -> GpuTimeline {
    let mut tl = GpuTimeline::new(1_000_000_000);
    tl.push(gpu_sample(0, 0, 1, 10, 50, 100_000));
    tl.push(gpu_sample(2_000_000_000, 0, 1, 10, 50, 100_000));
    tl
}

fn signals() -> RunSignals {
    let mut resource = ResourceTimeline::new(50_000_000);
    resource.push(sample(0, 100, 100, 0, 1));
    resource.push(sample(1_000_000_000, 100, 150, 0, 1));
    let mut kv = kv_timeline();
    kv.push(kv_sample(0, 144, 270));
    kv.push(kv_sample(1, 200, 400));
    let mut phase = PhaseTimeline::new(1);
    phase.push(phase_sample(0, 0, 0, None, None));
    phase.push(phase_sample(1, 30, 10, None, None));
    RunSignals {
        request_timing: RequestTiming::new(
            vec![TokenArrival::new(0, 1_000), TokenArrival::new(1, 2_000)],
            3_000,
        ),
        resource_timeline: Some(resource),
        gpu_timeline: Some(busy_gpu()),
        kvcache_timeline: Some(kv),
        phase_timeline: Some(phase),
        spec_timeline: None,
        reference_instant_unix_ns: Some(77),
    }
}

#[test]
fn a_report_holds_the_signals_and_what_follows_from_them() {
    let report = build_report(signals(), 100).unwrap();
    assert_eq!(report.timing.token_count, 2);
    assert_eq!(double(report.resource.unwrap().cpu_mean_percent.unwrap()), 50.0);
    assert_eq!(report.gpu.unwrap().energy_millijoules, Some(200_000));
    assert_eq!(double(report.efficiency.unwrap().tokens_per_joule), 0.01);
    let kv = report.kvcache.unwrap();
    assert_eq!(kv.hits_delta, 56);
    assert_eq!(kv.queries_delta, 130);
    assert_eq!(report.phase_energy.unwrap().energy_prefill_by_tokens_mj, 150_000);
    assert_eq!(report.reference_instant_unix_ns, Some(77));
    assert!(report.trajectory.is_none());
    assert_eq!(report.schema_version, Some(REPORT_SCHEMA_VERSION));
    assert_eq!(REPORT_SCHEMA_VERSION, 2);
}

#[test]
fn a_report_without_a_clock_rate_fails() {
    assert_eq!(
        build_report(signals(), 0).unwrap_err(),
        "report derivation failed: could not determine system clock tick rate (_SC_CLK_TCK)"
    );
    let mut quiet = signals();
    quiet.resource_timeline = None;
    assert!(build_report(quiet, 0).is_ok());
}

#[test]
fn a_window_report_says_what_was_asked_and_measured() {
    let s = signals();
    let request = WindowRequest {
        pid: 4242,
        include_descendants: true,
        sample_period_ms: 100,
        duration_secs: 30,
    };
    let window = WindowSignals {
        resource_timeline: s.resource_timeline,
        gpu_timeline: s.gpu_timeline,
        kvcache_timeline: s.kvcache_timeline,
        phase_timeline: s.phase_timeline,
        spec_timeline: None,
        lora: None,
        reference_instant_unix_ns: s.reference_instant_unix_ns,
    };
    let steps = [StepRecord {
        step_id: 1,
        kind: StepKind::LlmCall,
        t_start_unix_ns: 77,
        t_end_unix_ns: 77 + 2_000_000_000,
    }];
    let report = build_resource_report(request, window, 100, Some(&steps)).unwrap();
    assert_eq!(report.pid, 4242);
    assert!(report.include_descendants);
    assert_eq!(report.sample_period_ms, 100);
    assert_eq!(report.duration_secs, 30);
    assert_eq!(report.kvcache.unwrap().hits_delta, 56);
    assert_eq!(report.schema_version, Some(2));
    let t = report.trajectory.unwrap();
    assert_eq!(t.total_energy_mj, 200_000);
    assert_eq!(t.steps[0].energy_mj, 200_000);
    assert_eq!(t.steps[0].cache_hits_delta, Some(56));
    assert_eq!(t.steps[0].cache_queries_delta, Some(130));
}

#[test]
fn a_hit_rate_is_a_share() {
    for (hits, queries) in [(0, 1), (1, 3), (u64::MAX - 1, u64::MAX), (u64::MAX, u64::MAX)] {
        let mut tl = kv_timeline();
        tl.push(kv_sample(0, 0, 0));
        tl.push(kv_sample(1, hits, queries));
        let rate = double(derive_kvcache(&tl).unwrap().hit_rate);
        assert!((0.0..=1.0).contains(&rate), "{hits} / {queries} = {rate}");
        assert_eq!(rate, hits as f64 / queries as f64);
    }
}

#[test]
fn every_sample_belongs_to_one_device() {
    let mut tl = GpuTimeline::new(1);
    for (i, device) in [7, 2, 7, 0, 2, 7].iter().enumerate() {
        tl.push(gpu_sample(i as u64, *device, 0, 0, 0, 0));
    }
    let m = derive_gpu(&tl).unwrap();
    let indices: Vec<u32> = m.per_device.iter().map(|d| d.device_index).collect();
    let counts: Vec<u32> = m.per_device.iter().map(|d| d.sample_count).collect();
    assert_eq!(indices, [0, 2, 7]);
    assert_eq!(counts, [1, 2, 3]);
    assert_eq!(counts.iter().sum::<u32>(), m.sample_count);
}

#[test]
fn memory_figures_lie_between_the_extremes() {
    let mut tl = ResourceTimeline::new(1);
    for (i, rss) in [7u64, 3, 9, 4].iter().enumerate() {
        tl.push(sample(i as u64, *rss, 0, 0, i as u32 + 1));
    }
    let m = derive_resource(&tl, 100).unwrap().unwrap();
    assert_eq!((m.rss_min_bytes, m.rss_mean_bytes, m.rss_max_bytes), (3, 5, 9));
    assert_eq!(m.rss_final_bytes, 4);
    assert_eq!((m.thread_min, m.thread_max), (1, 4));
}

#[test]
fn the_time_to_the_first_token_does_not_enter_the_rate() {
    let at = |delay: u64| {
        let tokens = [10, 25, 45].iter().enumerate();
        let tokens = tokens.map(|(i, ms)| TokenArrival::new(i as u32, delay + ms * 1_000_000));
        derive_timing(&RequestTiming::new(tokens.collect(), u64::MAX))
    };
    let (early, late) = (at(0), at(5_000_000_000));
    assert_eq!(early.ttft_ns, Some(10_000_000));
    assert_eq!(late.ttft_ns, Some(5_010_000_000));
    assert_eq!(early.tokens_per_second, late.tokens_per_second);
    assert_eq!(early.inter_token_latency, late.inter_token_latency);
}
