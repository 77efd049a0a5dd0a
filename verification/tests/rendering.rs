//! Reports as text and as a trace.
use inferscope::binary64::Binary64;
use inferscope::error::CoreError;
use inferscope::gpu::{EnergySource, GpuSample, GpuTimeline};
use inferscope::gpu_metrics::derive_gpu;
use inferscope::metrics::{
    EfficiencyMetrics, LatencyDistribution, Report, ResourceMetrics, TimingMetrics,
};
use inferscope::otel::{
    span_attributes, span_start, token_events, Attribute, AttributeValue, OtelExportError,
    SpanStart, TokenEvent,
};
use inferscope::render::{
    align_left, align_right, fixed, format_bytes, format_duration_ns, render_text,
};
use inferscope::resource::ResourceTimeline;
use inferscope::timing::{RequestTiming, TokenArrival};

/// The value of a normal, positive double.
fn value(x: f64) -> Binary64 {
    let bits = x.to_bits();
    Binary64 {
        mantissa: (bits & 0xf_ffff_ffff_ffff) | 0x10_0000_0000_0000,
        exponent: (bits >> 52) as i32 - 1075,
    }
}

fn sample_report() -> Report {
    Report {
        request_timing: RequestTiming::new(
            vec![
                TokenArrival::new(0, 412_000_000),
                TokenArrival::new(1, 458_000_000),
                TokenArrival::new(2, 504_000_000),
            ],
            550_000_000,
        ),
        resource_timeline: Some(ResourceTimeline {
            samples: vec![],
            sample_period_ns: 50_000_000,
        }),
        gpu_timeline: None,
        timing: TimingMetrics {
            token_count: 3,
            ttft_ns: Some(412_000_000),
            total_latency_ns: 550_000_000,
            tokens_per_second: Some(value(21.74)),
            inter_token_latency: Some(LatencyDistribution {
                count: 2,
                mean_ns: 46_000_000,
                p50_ns: 46_000_000,
                p95_ns: 46_000_000,
                p99_ns: 46_000_000,
                max_ns: 46_000_000,
            }),
        },
        resource: Some(ResourceMetrics {
            sample_count: 5,
            rss_min_bytes: 600 * 1024 * 1024,
            rss_max_bytes: 612 * 1024 * 1024,
            rss_mean_bytes: 605 * 1024 * 1024,
            rss_final_bytes: 612 * 1024 * 1024,
            cpu_mean_percent: Some(value(245.7)),
            thread_min: 8,
            thread_max: 8,
        }),
        gpu: None,
        efficiency: None,
        kvcache_timeline: None,
        kvcache: None,
        phase_timeline: None,
        spec_timeline: None,
        phase_energy: None,
        reference_instant_unix_ns: None,
        trajectory: None,
        schema_version: None,
    }
}

#[test]
fn text_render_includes_all_three_sections_when_data_present() {
    let r = sample_report();
    let text = render_text(&r);
    assert!(text.contains("Probe summary"));
    assert!(text.contains("Inter-token latency"));
    assert!(text.contains("Process resource usage"));
}

#[test]
fn text_render_omits_inter_token_when_distribution_missing() {
    let mut r = sample_report();
    r.timing.inter_token_latency = None;
    let text = render_text(&r);
    assert!(text.contains("Probe summary"));
    assert!(!text.contains("Inter-token latency"));
}

#[test]
fn text_render_omits_resource_when_missing() {
    let mut r = sample_report();
    r.resource = None;
    let text = render_text(&r);
    assert!(!text.contains("Process resource usage"));
}

#[test]
fn text_render_handles_an_empty_request() {
    let mut r = sample_report();
    r.request_timing = RequestTiming::new(vec![], 0);
    r.resource_timeline = None;
    r.timing = TimingMetrics {
        token_count: 0,
        ttft_ns: None,
        total_latency_ns: 0,
        tokens_per_second: None,
        inter_token_latency: None,
    };
    r.resource = None;
    let text = render_text(&r);
    assert!(text.contains("Tokens generated      0"));
    assert!(text.contains("no tokens produced"));
    assert!(text.contains("not enough tokens"));
}

#[test]
fn text_render_reports_constant_threads_compactly() {
    let r = sample_report();
    let text = render_text(&r);
    assert!(text.contains("8 throughout"));
}

#[test]
fn text_render_reports_varying_threads_as_range() {
    let mut r = sample_report();
    if let Some(res) = r.resource.as_mut() {
        res.thread_min = 4;
        res.thread_max = 8;
    }
    let text = render_text(&r);
    assert!(text.contains("4 .. 8"));
}

#[test]
fn a_report_is_rendered_line_by_line() {
    let text = "Probe summary
  Tokens generated      3
  Time to first token   412 ms
  Generation rate       21.7 tokens/s
  Total latency         550 ms

Inter-token latency (from 2 intervals)
  mean      46 ms      max       46 ms
  p50       46 ms      p95       46 ms
  p99       46 ms

Process resource usage (5 samples)
  RSS                peak 612 MiB  mean 605 MiB
                     min  600 MiB  final 612 MiB
  CPU utilization    mean 246%
  Threads            8 throughout
";
    assert_eq!(render_text(&sample_report()), text);
}

#[test]
fn gpu_usage_is_rendered_for_one_device_and_for_several() {
    let mut timeline = GpuTimeline::new(1_000_000_000);
    let sample = GpuSample {
        elapsed_ns: 0,
        device_index: 0,
        memory_used_bytes: 3 << 30,
        memory_total_bytes: 80 << 30,
        utilization_percent: 50,
        temperature_celsius: 45,
        power_draw_milliwatts: 200_250,
    };
    timeline.push(sample);
    let mut r = sample_report();
    r.gpu = derive_gpu(&timeline);
    let text = render_text(&r);
    assert!(
        text.ends_with(
            "
GPU resource usage (1 samples)
  VRAM               peak 3.00 GiB  mean 3.00 GiB
                     min  3.00 GiB  total 80.00 GiB
  SM utilization     peak 50%  mean 50%  min 50%
  Temperature        peak 45 C
  Power draw         peak 200.2 W  mean 200.2 W
"
        ),
        "{text}"
    );
    timeline.push(GpuSample { device_index: 1, ..sample });
    r.gpu = derive_gpu(&timeline);
    let text = render_text(&r);
    assert!(text.contains("GPU resource usage (2 samples, 2 devices)"), "{text}");
}

#[test]
fn format_duration_sub_microsecond() {
    assert_eq!(format_duration_ns(500), "<1 us");
}

#[test]
fn format_duration_microseconds() {
    assert_eq!(format_duration_ns(45_000), "45 us");
}

#[test]
fn format_duration_milliseconds() {
    assert_eq!(format_duration_ns(46_000_000), "46 ms");
}

#[test]
fn format_duration_seconds_three_decimals() {
    assert_eq!(format_duration_ns(1_547_000_000), "1.547 s");
}

#[test]
fn durations_change_unit_where_one_is_full() {
    assert_eq!(format_duration_ns(999), "<1 us");
    assert_eq!(format_duration_ns(1_000), "1 us");
    assert_eq!(format_duration_ns(999_999), "999 us");
    assert_eq!(format_duration_ns(1_000_000), "1 ms");
    assert_eq!(format_duration_ns(999_999_999), "999 ms");
    assert_eq!(format_duration_ns(1_000_000_000), "1.000 s");
    assert_eq!(format_duration_ns(u64::MAX), format!("{:.3} s", u64::MAX as f64 / 1e9));
}

#[test]
fn format_bytes_uses_binary_prefixes() {
    assert_eq!(format_bytes(512), "512 B");
    assert_eq!(format_bytes(1024), "1 KiB");
    assert_eq!(format_bytes(1024 * 1024), "1 MiB");
    assert_eq!(format_bytes(612 * 1024 * 1024), "612 MiB");
    assert_eq!(format_bytes(2 * 1024 * 1024 * 1024), "2.00 GiB");
}

#[test]
fn columns_are_padded_and_never_cut() {
    assert_eq!(align_right("ab", 4), "  ab");
    assert_eq!(align_left("ab", 4), "ab  ");
    assert_eq!(align_right("abc", 2), "abc");
    assert_eq!(align_left("abc", 2), "abc");
}

#[test]
fn fixed_places_round_as_the_formatter_does() {
    for x in [0.5, 1.25, 2.675, 1e-9, 123_456.789, 1e22, 0.999_999_9] {
        for places in 0..=6usize {
            assert_eq!(fixed(value(x), places), format!("{x:.places$}"), "{x} at {places}");
        }
    }
}

#[test]
fn a_span_carries_what_was_derived() {
    let mut r = sample_report();
    r.efficiency = Some(EfficiencyMetrics {
        energy_joules: value(200.0),
        energy_per_token_mj: value(200.0),
        tokens_per_joule: value(5.0),
        tokens_per_watt: value(5.0),
        energy_source: EnergySource::Counter,
    });
    let attributes = span_attributes(&r, "http://collector:4318");
    let found = |key: &str| attributes.iter().find(|a| a.key == key).map(|a| a.value);
    assert_eq!(
        attributes[0],
        Attribute {
            key: "inferscope.endpoint",
            value: AttributeValue::Text("http://collector:4318"),
        }
    );
    assert_eq!(found("inferscope.timing.token_count"), Some(AttributeValue::Int(3)));
    assert_eq!(found("inferscope.timing.ttft_ns"), Some(AttributeValue::Int(412_000_000)));
    assert_eq!(
        found("inferscope.timing.tokens_per_second"),
        Some(AttributeValue::Double(value(21.74)))
    );
    assert_eq!(
        found("inferscope.efficiency.energy_source"),
        Some(AttributeValue::Text("counter"))
    );
    assert!(attributes.iter().any(|a| a.key.starts_with("inferscope.resource.")));
    assert!(!attributes.iter().any(|a| a.key.starts_with("inferscope.gpu.")));
    r.resource = None;
    r.timing.ttft_ns = None;
    let fewer = span_attributes(&r, "e");
    assert!(!fewer.iter().any(|a| a.key.starts_with("inferscope.resource.")));
    assert!(!fewer.iter().any(|a| a.key == "inferscope.timing.ttft_ns"));
}

#[test]
fn a_span_starts_with_the_run() {
    let mut r = sample_report();
    assert_eq!(span_start(&r), SpanStart::EndingNow { duration_ns: 550_000_000 });
    r.reference_instant_unix_ns = Some(77);
    assert_eq!(span_start(&r), SpanStart::Anchored { unix_ns: 77 });
}

#[test]
fn every_token_is_an_event() {
    let events = token_events(&sample_report());
    assert_eq!(events.len(), 3);
    assert_eq!(
        events[1],
        TokenEvent { offset_ns: 458_000_000, index: 1, elapsed_ns: 458_000_000 }
    );
}

#[test]
fn export_errors_read_as_sentences() {
    assert_eq!(
        OtelExportError::SetupFailed("x".to_string()).message(),
        "failed to initialise OTLP exporter: x"
    );
    assert_eq!(
        OtelExportError::ExportFailed { endpoint: "e".to_string(), message: "m".to_string() }
            .message(),
        "failed to export span to e: m"
    );
}

#[test]
fn an_invalid_metric_names_its_field() {
    let e = CoreError::InvalidMetric { field: "ttft".to_string(), reason: "negative".to_string() };
    assert!(e.message().contains("ttft"), "{}", e.message());
    assert!(e.message().contains("negative"), "{}", e.message());
}

#[test]
fn reports_are_plain_ascii() {
    assert!(render_text(&sample_report()).is_ascii());
}
