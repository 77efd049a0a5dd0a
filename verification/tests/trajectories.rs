//! Step files and the attribution of a run to its steps.
use inferscope::binary64::Binary64;
use inferscope::gpu::{GpuSample, GpuTimeline};
use inferscope::kvcache::{HitRateAccounting, KvCacheSample, KvCacheTimeline};
use inferscope::metrics::{Report, TimingMetrics};
use inferscope::phase::{PhaseSample, PhaseTimeline};
use inferscope::session::derive_trajectory;
use inferscope::steps::{
    parse_steps, step_lines, DecodedLine, StepFileError, StepKind, StepLine, StepRecord,
};
use inferscope::timing::RequestTiming;
use inferscope::trajectory::{
    bracket, derive_trajectory_from_timelines, run_energy_fits, DropReason, DroppedStep,
};

fn double(x: Binary64) -> f64 {
    x.mantissa as f64 * 2f64.powi(x.exponent)
}

/// Decodes one line of a step file.
fn decode(text: &str) -> Result<StepRecord, String> {
    let value: serde_json::Value = serde_json::from_str(text).map_err(|e| e.to_string())?;
    let number = |key: &str| value[key].as_u64().ok_or(format!("missing field `{key}`"));
    let kind = match value["kind"].as_str() {
        Some("llm_call") => StepKind::LlmCall,
        Some("tool") => StepKind::Tool,
        other => return Err(format!("unknown variant {other:?}")),
    };
    Ok(StepRecord {
        step_id: number("step_id")?,
        kind,
        t_start_unix_ns: number("t_start_unix_ns")?,
        t_end_unix_ns: number("t_end_unix_ns")?,
    })
}

fn parse(content: &str) -> Result<Vec<StepRecord>, StepFileError> {
    let lines: Vec<DecodedLine> = step_lines(content)
        .iter()
        .map(|l| DecodedLine { line: l.line, record: decode(&l.text) })
        .collect();
    parse_steps(&lines)
}

#[test]
fn parses_llm_and_tool_steps_in_order() {
    let content = r#"{"step_id": 1, "kind": "llm_call", "t_start_unix_ns": 100, "t_end_unix_ns": 200}
{"step_id": 2, "kind": "tool", "t_start_unix_ns": 200, "t_end_unix_ns": 350}"#;
    let steps = parse(content).unwrap();
    assert_eq!(steps.len(), 2);
    assert_eq!(steps[0].kind, StepKind::LlmCall);
    assert_eq!(steps[1].kind, StepKind::Tool);
    assert_eq!(steps[1].t_end_unix_ns, 350);
}

#[test]
fn skips_blank_lines() {
    let content =
        "\n{\"step_id\": 1, \"kind\": \"tool\", \"t_start_unix_ns\": 1, \"t_end_unix_ns\": 2}\n\n";
    assert_eq!(parse(content).unwrap().len(), 1);
}

#[test]
fn lines_keep_their_numbers() {
    assert_eq!(
        step_lines("\n  a \r\n \t\nb"),
        vec![
            StepLine { line: 2, text: "a".to_string() },
            StepLine { line: 4, text: "b".to_string() },
        ]
    );
    assert!(step_lines("").is_empty());
}

#[test]
fn zero_length_window_is_structurally_valid() {
    let content = r#"{"step_id": 1, "kind": "tool", "t_start_unix_ns": 5, "t_end_unix_ns": 5}"#;
    assert_eq!(parse(content).unwrap().len(), 1);
}

#[test]
fn unknown_kind_is_malformed_with_line_number() {
    let content = r#"{"step_id": 1, "kind": "llm_call", "t_start_unix_ns": 1, "t_end_unix_ns": 2}
{"step_id": 2, "kind": "banana", "t_start_unix_ns": 3, "t_end_unix_ns": 4}"#;
    match parse(content) {
        Err(StepFileError::Malformed { line, .. }) => assert_eq!(line, 2),
        other => panic!("expected Malformed on line 2, got {other:?}"),
    }
}

#[test]
fn inverted_window_is_rejected() {
    let content = r#"{"step_id": 7, "kind": "tool", "t_start_unix_ns": 10, "t_end_unix_ns": 9}"#;
    match parse(content) {
        Err(StepFileError::InvertedWindow { step_id, line, .. }) => {
            assert_eq!(step_id, 7);
            assert_eq!(line, 1);
        }
        other => panic!("expected InvertedWindow, got {other:?}"),
    }
}

#[test]
fn duplicate_id_names_both_lines() {
    let content = r#"{"step_id": 1, "kind": "tool", "t_start_unix_ns": 1, "t_end_unix_ns": 2}
{"step_id": 1, "kind": "llm_call", "t_start_unix_ns": 3, "t_end_unix_ns": 4}"#;
    match parse(content) {
        Err(StepFileError::DuplicateId { line, first_line, .. }) => {
            assert_eq!((first_line, line), (1, 2));
        }
        other => panic!("expected DuplicateId, got {other:?}"),
    }
}

#[test]
fn step_file_errors_name_the_line() {
    assert_eq!(
        StepFileError::Malformed { line: 3, message: "x".to_string() }.message(),
        "line 3: not a valid step record: x"
    );
    assert_eq!(
        StepFileError::InvertedWindow {
            line: 1,
            step_id: 7,
            t_start_unix_ns: 10,
            t_end_unix_ns: 9,
        }
        .message(),
        "line 1: step 7 ends before it starts (t_end 9 < t_start 10)"
    );
    assert_eq!(
        StepFileError::DuplicateId { line: 2, first_line: 1, step_id: 5 }.message(),
        "line 2: duplicate step_id 5 (first seen on line 1)"
    );
}

/// Wall-clock anchor of the synthetic run.
const ANCHOR: u64 = 1_000_000_000_000_000_000;
/// One second in nanoseconds; also the sample period.
const S: u64 = 1_000_000_000;

fn gpu_sample(elapsed_ns: u64, device_index: u32, power_mw: u32) -> GpuSample {
    GpuSample {
        elapsed_ns,
        device_index,
        memory_used_bytes: 1024,
        memory_total_bytes: 2048,
        utilization_percent: 50,
        temperature_celsius: 60,
        power_draw_milliwatts: power_mw,
    }
}

/// Five ticks, two devices at a constant 100 W and 50 W: 150,000 mJ per second.
/// Cache counters advance by 10 and 20 per tick, phase counters by 100
/// generation and 50 prompt tokens.
fn synthetic_report() -> Report {
    let mut gpu = GpuTimeline::new(S);
    for tick in 0..5u64 {
        gpu.push(gpu_sample(tick * S, 0, 100_000));
        gpu.push(gpu_sample(tick * S, 1, 50_000));
    }
    let kv = KvCacheTimeline {
        accounting: Some(HitRateAccounting::BlockAligned),
        samples: (0..5u64)
            .map(|t| KvCacheSample { elapsed_ns: t * S, hits: t * 10, queries: t * 20 })
            .collect(),
        sample_period_ns: S,
    };
    let phase = PhaseTimeline {
        samples: (0..5u64)
            .map(|t| PhaseSample {
                elapsed_ns: t * S,
                prompt_tokens: t * 50,
                generation_tokens: t * 100,
                prefill_ns: Some(t * 1_000),
                decode_ns: Some(t * 2_000),
            })
            .collect(),
        sample_period_ns: S,
    };
    Report {
        reference_instant_unix_ns: Some(ANCHOR),
        request_timing: RequestTiming::new(vec![], 0),
        resource_timeline: None,
        gpu_timeline: Some(gpu),
        timing: TimingMetrics {
            token_count: 0,
            ttft_ns: None,
            total_latency_ns: 0,
            tokens_per_second: None,
            inter_token_latency: None,
        },
        resource: None,
        gpu: None,
        efficiency: None,
        kvcache_timeline: Some(kv),
        kvcache: None,
        phase_timeline: Some(phase),
        spec_timeline: None,
        phase_energy: None,
        trajectory: None,
        schema_version: None,
    }
}

fn step(step_id: u64, kind: StepKind, start_ns: u64, end_ns: u64) -> StepRecord {
    StepRecord {
        step_id,
        kind,
        t_start_unix_ns: ANCHOR + start_ns,
        t_end_unix_ns: ANCHOR + end_ns,
    }
}

#[test]
fn happy_path_two_llm_one_tool() {
    let report = synthetic_report();
    let steps = vec![
        step(1, StepKind::LlmCall, 0, S),
        step(2, StepKind::Tool, 2 * S, 3 * S),
        step(3, StepKind::LlmCall, 3 * S, 4 * S),
    ];
    let t = derive_trajectory(&report, &steps).expect("valid inputs derive");
    assert_eq!(t.steps.len(), 3);
    assert!(t.dropped_steps.is_empty());

    let s1 = &t.steps[0];
    assert_eq!(s1.energy_mj, 150_000);
    assert_eq!(s1.samples_in_window, 4);
    assert_eq!(s1.cache_hits_delta, Some(10));
    assert_eq!(s1.cache_queries_delta, Some(20));
    assert_eq!(s1.cache_hit_rate.map(double), Some(0.5));
    assert_eq!(s1.generation_tokens_delta, Some(100));
    assert_eq!(s1.prompt_tokens_delta, Some(50));
    let tpj = double(s1.tokens_per_joule.expect("llm step with tokens"));
    assert!((tpj - 100.0 / 150.0).abs() < 1e-12);

    let s2 = &t.steps[1];
    assert_eq!(s2.kind, StepKind::Tool);
    assert_eq!(s2.energy_mj, 150_000);
    assert_eq!(s2.tokens_per_joule, None);

    assert_eq!(t.total_energy_mj, 600_000);
    assert_eq!(t.llm_energy_mj, 300_000);
    assert_eq!(t.tool_energy_mj, 150_000);
    assert_eq!(t.unattributed_energy_mj, 150_000);
    assert_eq!(t.total_generation_tokens, 400);
    let ttpj = double(t.trajectory_tokens_per_joule.expect("tokens and energy"));
    assert!((ttpj - 400.0 / 600.0).abs() < 1e-12);
}

#[test]
fn reconciliation_steps_plus_unattributed_equals_total() {
    let report = synthetic_report();
    let steps =
        vec![step(1, StepKind::LlmCall, 0, S), step(2, StepKind::Tool, 2 * S, 3 * S)];
    let t = derive_trajectory(&report, &steps).expect("derives");
    assert_eq!(
        t.llm_energy_mj + t.tool_energy_mj + t.unattributed_energy_mj,
        t.total_energy_mj,
        "steps plus unattributed must reconcile exactly to whole-run energy"
    );
}

#[test]
fn boundary_straddling_segments_land_in_unattributed() {
    let report = synthetic_report();
    let steps = vec![step(1, StepKind::LlmCall, S / 2, S + S / 2)];
    let t = derive_trajectory(&report, &steps).expect("derives");
    assert_eq!(t.steps[0].energy_mj, 0);
    assert_eq!(t.steps[0].samples_in_window, 2);
    assert_eq!(t.unattributed_energy_mj, t.total_energy_mj);
    assert_eq!(
        t.llm_energy_mj + t.tool_energy_mj + t.unattributed_energy_mj,
        t.total_energy_mj
    );
}

#[test]
fn sub_period_step_declares_grid_resolution() {
    let report = synthetic_report();
    let steps = vec![step(1, StepKind::LlmCall, S - S / 10, S + S / 10)];
    let t = derive_trajectory(&report, &steps).expect("derives");
    let s1 = &t.steps[0];
    assert_eq!(s1.samples_in_window, 2);
    assert_eq!(s1.energy_mj, 0);
    assert_eq!(s1.cache_hits_delta, Some(10));
    assert_eq!(s1.generation_tokens_delta, Some(100));
    assert_eq!(s1.tokens_per_joule, None);
}

#[test]
fn withheld_without_anchor() {
    let mut report = synthetic_report();
    report.reference_instant_unix_ns = None;
    let steps = vec![step(1, StepKind::LlmCall, 0, S)];
    assert_eq!(derive_trajectory(&report, &steps), None);
}

#[test]
fn withheld_without_gpu_timeline_or_enough_samples() {
    let mut report = synthetic_report();
    report.gpu_timeline = None;
    let steps = vec![step(1, StepKind::LlmCall, 0, S)];
    assert_eq!(derive_trajectory(&report, &steps), None);

    let mut report = synthetic_report();
    let mut gpu = GpuTimeline::new(S);
    gpu.push(gpu_sample(0, 0, 100_000));
    report.gpu_timeline = Some(gpu);
    assert_eq!(derive_trajectory(&report, &steps), None);
}

#[test]
fn withheld_on_kv_counter_regression() {
    let mut report = synthetic_report();
    report.kvcache_timeline.as_mut().unwrap().samples[3].queries = 0;
    let steps = vec![step(1, StepKind::LlmCall, 0, S)];
    assert_eq!(derive_trajectory(&report, &steps), None);
}

#[test]
fn withheld_on_phase_counter_regression() {
    let mut report = synthetic_report();
    report.phase_timeline.as_mut().unwrap().samples[2].generation_tokens = 0;
    let steps = vec![step(1, StepKind::LlmCall, 0, S)];
    assert_eq!(derive_trajectory(&report, &steps), None);
}

#[test]
fn steps_outside_run_window_are_dropped_with_reason() {
    let report = synthetic_report();
    let steps = vec![
        StepRecord {
            step_id: 1,
            kind: StepKind::LlmCall,
            t_start_unix_ns: ANCHOR - S,
            t_end_unix_ns: ANCHOR + S,
        },
        step(2, StepKind::LlmCall, 3 * S, 5 * S),
        step(3, StepKind::LlmCall, 0, S),
    ];
    let t = derive_trajectory(&report, &steps).expect("derives");
    assert_eq!(t.steps.len(), 1);
    assert_eq!(t.steps[0].step_id, 3);
    assert_eq!(t.dropped_steps.len(), 2);
    assert!(t
        .dropped_steps
        .contains(&DroppedStep { step_id: 1, reason: DropReason::OutsideRunWindow }));
    assert!(t
        .dropped_steps
        .contains(&DroppedStep { step_id: 2, reason: DropReason::OutsideRunWindow }));
}

#[test]
fn overlapping_step_is_dropped_and_never_double_counted() {
    let report = synthetic_report();
    let steps =
        vec![step(1, StepKind::LlmCall, 0, 2 * S), step(2, StepKind::LlmCall, S, 3 * S)];
    let t = derive_trajectory(&report, &steps).expect("derives");
    assert_eq!(t.steps.len(), 1);
    assert_eq!(t.steps[0].step_id, 1);
    assert_eq!(
        t.dropped_steps,
        vec![DroppedStep { step_id: 2, reason: DropReason::OverlapsPrecedingStep }]
    );
    assert_eq!(t.llm_energy_mj, 300_000);
    assert_eq!(
        t.llm_energy_mj + t.tool_energy_mj + t.unattributed_energy_mj,
        t.total_energy_mj
    );
}

#[test]
fn window_opening_between_samples_counts_the_pre_window_increment() {
    let report = synthetic_report();
    let steps = vec![step(1, StepKind::LlmCall, 3 * S / 2, 3 * S)];
    let t = derive_trajectory(&report, &steps).expect("valid inputs derive");
    let s1 = &t.steps[0];
    assert_eq!(s1.generation_tokens_delta, Some(200));
    assert_eq!(s1.prompt_tokens_delta, Some(100));
    assert_eq!(s1.cache_hits_delta, Some(20));
    assert_eq!(s1.cache_queries_delta, Some(40));
}

#[test]
fn a_counter_is_read_from_the_sample_at_the_start() {
    let times = [0, 1, 2, 3, 4];
    assert_eq!(bracket(&times, 2, 3), Some((2, 3)));
    assert_eq!(bracket(&times, 0, 4), Some((0, 4)));
    assert_eq!(bracket(&times, 2, 2), Some((2, 2)));
    assert_eq!(bracket(&times, 5, 9), None);
    assert_eq!(bracket(&times, 3, 2), None);
    let spread = [10, 20, 30];
    assert_eq!(bracket(&spread, 15, 30), Some((0, 2)));
    assert_eq!(bracket(&spread, 5, 20), Some((0, 1)));
    assert_eq!(bracket(&spread, 21, 29), None);
    let report = synthetic_report();
    let t = derive_trajectory(&report, &[step(1, StepKind::LlmCall, 2 * S, 3 * S)]).unwrap();
    assert_eq!(t.steps[0].generation_tokens_delta, Some(100));
    assert_eq!(t.steps[0].cache_hits_delta, Some(10));
}

#[test]
fn missing_kv_and_phase_timelines_yield_absent_deltas_not_withholding() {
    let mut report = synthetic_report();
    report.kvcache_timeline = None;
    report.phase_timeline = None;
    let steps = vec![step(1, StepKind::LlmCall, 0, S)];
    let t = derive_trajectory(&report, &steps).expect("derives on GPU alone");
    assert_eq!(t.steps[0].cache_hits_delta, None);
    assert_eq!(t.steps[0].cache_hit_rate, None);
    assert_eq!(t.steps[0].generation_tokens_delta, None);
    assert_eq!(t.steps[0].tokens_per_joule, None);
    assert_eq!(t.total_generation_tokens, 0);
    assert_eq!(t.trajectory_tokens_per_joule, None);
}

#[test]
fn time_reconciles_too() {
    let report = synthetic_report();
    let steps =
        vec![step(2, StepKind::Tool, 2 * S, 3 * S), step(1, StepKind::LlmCall, 0, S / 2)];
    let t = derive_trajectory(&report, &steps).expect("derives");
    assert_eq!(t.run_duration_ns, 4 * S);
    assert_eq!(t.unattributed_duration_ns, 4 * S - S - S / 2);
    // Steps come out in window order.
    assert_eq!(t.steps[0].step_id, 1);
    assert_eq!(t.steps[1].step_id, 2);
}

#[test]
fn no_steps_leave_the_whole_run_unattributed() {
    let report = synthetic_report();
    let t = derive_trajectory(&report, &[]).expect("derives");
    assert!(t.steps.is_empty());
    assert_eq!(t.unattributed_energy_mj, t.total_energy_mj);
    assert_eq!(t.unattributed_duration_ns, t.run_duration_ns);
}

#[test]
fn a_run_is_attributed_from_its_timelines() {
    let report = synthetic_report();
    let steps = vec![step(1, StepKind::LlmCall, 0, S)];
    let gpu = report.gpu_timeline.as_ref();
    assert!(run_energy_fits(gpu.unwrap()));
    let t = derive_trajectory_from_timelines(Some(ANCHOR), gpu, None, None, &steps).unwrap();
    assert_eq!(t.steps[0].energy_mj, 150_000);
    assert_eq!(t.steps[0].generation_tokens_delta, None);
}

#[test]
fn the_order_of_the_steps_does_not_matter() {
    let report = synthetic_report();
    let steps = vec![
        step(4, StepKind::Tool, 0, S / 2),
        step(1, StepKind::LlmCall, 0, S),
        step(2, StepKind::Tool, 2 * S, 3 * S),
        step(3, StepKind::LlmCall, 3 * S, 4 * S),
    ];
    let t = derive_trajectory(&report, &steps).unwrap();
    assert_eq!(t.steps[0].step_id, 1);
    assert_eq!(t.dropped_steps[0].step_id, 4);
    for order in [[3, 2, 1, 0], [1, 0, 3, 2], [2, 0, 3, 1]] {
        let shuffled: Vec<StepRecord> = order.iter().map(|&i| steps[i].clone()).collect();
        assert_eq!(derive_trajectory(&report, &shuffled).unwrap(), t);
    }
}

#[test]
fn energy_beyond_64_bits_is_noticed() {
    let mut gpu = GpuTimeline::new(S);
    for device in 0..3u32 {
        gpu.push(gpu_sample(0, device, u32::MAX));
        gpu.push(gpu_sample(u64::MAX, device, u32::MAX));
    }
    assert!(!run_energy_fits(&gpu));
}
