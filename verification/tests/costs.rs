//! Pricing a trajectory and showing the result.
use inferscope::binary64::Binary64;
use inferscope::cost::{derive_cost, CostBasis, MJ_PER_KWH, NS_PER_HOUR};
use inferscope::gpu::{DeviceEnergy, EnergySource, GpuSample, GpuTimeline};
use inferscope::pricing::{checked_rate, cost_basis, price_report, render_cost, DeclaredRate};
use inferscope::steps::{StepKind, StepRecord};
use inferscope::trajectory::{
    derive_trajectory_from_timelines, DroppedStep, StepMetrics, TrajectoryMetrics,
};

fn double(x: Binary64) -> f64 {
    x.mantissa as f64 * 2f64.powi(x.exponent)
}

/// The value of a normal, positive double.
fn value(x: f64) -> Binary64 {
    let bits = x.to_bits();
    Binary64 {
        mantissa: (bits & 0xf_ffff_ffff_ffff) | 0x10_0000_0000_0000,
        exponent: (bits >> 52) as i32 - 1075,
    }
}

fn rate(x: f64) -> DeclaredRate {
    DeclaredRate { bits: x.to_bits(), shown: format!("{x}") }
}

fn hourly(x: f64) -> CostBasis {
    CostBasis::Occupancy { usd_per_hour: value(x) }
}

fn metered(x: f64) -> CostBasis {
    CostBasis::Energy { usd_per_kwh: value(x) }
}

/// One second in nanoseconds.
const S: u64 = 1_000_000_000;

fn step_metrics(
    step_id: u64,
    kind: StepKind,
    start_ns: u64,
    end_ns: u64,
    energy_mj: u64,
    generation_tokens_delta: Option<u64>,
) -> StepMetrics {
    StepMetrics {
        step_id,
        kind,
        start_elapsed_ns: start_ns,
        end_elapsed_ns: end_ns,
        samples_in_window: 2,
        energy_mj,
        generation_tokens_delta,
        prompt_tokens_delta: None,
        cache_hits_delta: None,
        cache_queries_delta: None,
        tokens_per_joule: None,
        cache_hit_rate: None,
    }
}

/// A 4 s run of 600,000 mJ and 400 generation tokens: an LLM step of 1 s,
/// 150,000 mJ and 100 tokens, a tool step of 1 s and 150,000 mJ, and as
/// residuals 2 s and 300,000 mJ.
fn trajectory() -> TrajectoryMetrics {
    TrajectoryMetrics {
        steps: vec![
            step_metrics(1, StepKind::LlmCall, 0, S, 150_000, Some(100)),
            step_metrics(2, StepKind::Tool, 2 * S, 3 * S, 150_000, None),
        ],
        total_energy_mj: 600_000,
        total_generation_tokens: 400,
        trajectory_tokens_per_joule: Some(value(400.0 / 600.0)),
        llm_energy_mj: 150_000,
        tool_energy_mj: 150_000,
        unattributed_energy_mj: 300_000,
        run_duration_ns: 4 * S,
        unattributed_duration_ns: 2 * S,
        dropped_steps: Vec::<DroppedStep>::new(),
    }
}

#[test]
fn llm_and_tool_partition_the_attributed_cost() {
    for basis in [hourly(1.0), metered(0.25)] {
        let c = derive_cost(&trajectory(), basis).expect("priceable");
        assert!(
            (double(c.llm_usd) + double(c.tool_usd) - double(c.attributed_usd)).abs() < 1e-12,
            "{basis:?}: {:?} + {:?} != {:?}",
            c.llm_usd,
            c.tool_usd,
            c.attributed_usd
        );
    }
}

#[test]
fn the_tool_share_is_the_cost_that_bought_no_tokens() {
    let c = derive_cost(&trajectory(), metered(0.25)).expect("energy is non-zero");
    assert!((double(c.tool_usd) / double(c.attributed_usd) - 0.5).abs() < 1e-12);
    assert!((double(c.llm_usd) - double(c.tool_usd)).abs() < 1e-12);
}

#[test]
fn a_trajectory_without_tools_has_no_tool_cost() {
    let mut t = trajectory();
    t.steps.retain(|s| s.kind == StepKind::LlmCall);
    t.tool_energy_mj = 0;
    let c = derive_cost(&t, hourly(1.0)).expect("priceable");
    assert_eq!(double(c.tool_usd), 0.0);
    assert!((double(c.llm_usd) - double(c.attributed_usd)).abs() < 1e-12);
    assert_eq!(c.llm_usd, c.attributed_usd);
}

#[test]
fn occupancy_prices_wall_clock_time() {
    let c = derive_cost(&trajectory(), hourly(1.0)).expect("run duration is non-zero");
    assert!((double(c.run_usd) - 4.0 / 3600.0).abs() < 1e-12);
    assert!((double(c.steps[0].usd) - 1.0 / 3600.0).abs() < 1e-12);
    assert!((double(c.unattributed_usd) - 2.0 / 3600.0).abs() < 1e-12);
    assert!(
        (double(c.attributed_usd) + double(c.unattributed_usd) - double(c.run_usd)).abs() < 1e-12
    );
    assert_eq!(NS_PER_HOUR, 3_600_000_000_000);
}

#[test]
fn energy_prices_measured_joules() {
    let c = derive_cost(&trajectory(), metered(0.5)).expect("run energy is non-zero");
    assert!((double(c.run_usd) - 0.5 * 600_000.0 / 3_600_000_000.0).abs() < 1e-15);
    assert!((double(c.steps[0].usd) - 0.5 * 150_000.0 / 3_600_000_000.0).abs() < 1e-15);
    assert!(
        (double(c.attributed_usd) + double(c.unattributed_usd) - double(c.run_usd)).abs() < 1e-15
    );
    assert_eq!(MJ_PER_KWH, 3_600_000_000);
    assert_eq!(double(c.run_usd), 0.5 * 600_000.0 / 3_600_000_000.0);
}

#[test]
fn the_two_bases_are_not_the_same_figure() {
    let t = trajectory();
    let occ = derive_cost(&t, hourly(1.0)).expect("occ");
    let ene = derive_cost(&t, metered(0.5)).expect("ene");
    assert_ne!(occ.run_usd, ene.run_usd);
    assert_eq!(occ.basis, hourly(1.0));
    assert_eq!(ene.basis, metered(0.5));
}

#[test]
fn cost_per_token_is_withheld_not_zeroed() {
    let mut t = trajectory();
    t.steps.push(step_metrics(3, StepKind::LlmCall, 3 * S, 4 * S, 1, Some(0)));
    let c = derive_cost(&t, hourly(1.0)).expect("occ");
    assert!(c.steps[0].usd_per_million_tokens.is_some(), "LLM, 100 tok");
    assert_eq!(c.steps[1].usd_per_million_tokens, None, "tool step");
    assert_eq!(c.steps[2].usd_per_million_tokens, None, "zero tokens");
    assert!(double(c.steps[1].usd) > 0.0);
}

#[test]
fn pre_adr015_report_yields_no_occupancy_cost() {
    let mut t = trajectory();
    t.run_duration_ns = 0;
    t.unattributed_duration_ns = 0;
    assert_eq!(derive_cost(&t, hourly(1.0)), None);
    assert!(derive_cost(&t, metered(0.5)).is_some());
}

#[test]
fn a_run_without_tokens_has_no_price_per_token() {
    let mut t = trajectory();
    let c = derive_cost(&t, hourly(1.0)).unwrap();
    let per_million = double(c.trajectory_usd_per_million_tokens.unwrap());
    assert_eq!(per_million, double(c.run_usd) * 1_000_000.0 / 400.0);
    t.total_generation_tokens = 0;
    let c = derive_cost(&t, hourly(1.0)).unwrap();
    assert_eq!(c.trajectory_usd_per_million_tokens, None);
}

/// A run of one hour with an LLM step of half an hour and a tool step of a
/// quarter.
fn an_hour() -> TrajectoryMetrics {
    TrajectoryMetrics {
        steps: vec![
            StepMetrics {
                step_id: 1,
                kind: StepKind::LlmCall,
                start_elapsed_ns: 0,
                end_elapsed_ns: 1_800_000_000_000,
                samples_in_window: 10,
                energy_mj: 500_000,
                generation_tokens_delta: Some(1_000),
                prompt_tokens_delta: Some(50),
                cache_hits_delta: None,
                cache_queries_delta: None,
                tokens_per_joule: Some(value(2.0)),
                cache_hit_rate: None,
            },
            StepMetrics {
                step_id: 2,
                kind: StepKind::Tool,
                start_elapsed_ns: 1_800_000_000_000,
                end_elapsed_ns: 2_700_000_000_000,
                samples_in_window: 5,
                energy_mj: 100_000,
                generation_tokens_delta: None,
                prompt_tokens_delta: None,
                cache_hits_delta: None,
                cache_queries_delta: None,
                tokens_per_joule: None,
                cache_hit_rate: None,
            },
        ],
        total_energy_mj: 700_000,
        total_generation_tokens: 1_000,
        trajectory_tokens_per_joule: Some(value(1.428_571_4)),
        llm_energy_mj: 500_000,
        tool_energy_mj: 100_000,
        unattributed_energy_mj: 100_000,
        run_duration_ns: 3_600_000_000_000,
        unattributed_duration_ns: 900_000_000_000,
        dropped_steps: vec![],
    }
}

fn derive_cost_from(
    trajectory: Option<&TrajectoryMetrics>,
    usd_per_hour: Option<f64>,
    usd_per_kwh: Option<f64>,
) -> Result<String, String> {
    let basis = cost_basis(usd_per_hour.map(rate), usd_per_kwh.map(rate))?;
    price_report(trajectory, basis, "report.json")
}

#[test]
fn cost_round_trips_through_a_serialized_report() {
    let out = derive_cost_from(Some(&an_hour()), Some(1.0), None).unwrap();
    assert!(out.contains("$1.0000/hour"), "{out}");
    assert!(out.contains("run window:       $1.000000 at $1.0000/hour"), "{out}");
    assert!(out.contains("$0.250000 (25.0% of run)"), "{out}");
    assert!(out.contains("derived, not measured"), "{out}");
    assert!(out.contains("step    1  llmcall"), "{out}");
    assert!(out.contains("step    2  tool"), "{out}");
}

#[test]
fn cost_is_withheld_for_a_report_predating_adr_015() {
    let mut pre = an_hour();
    pre.run_duration_ns = 0;
    let err = derive_cost_from(Some(&pre), Some(1.0), None).unwrap_err();
    assert!(err.contains("withheld rather than priced at zero"), "{err}");
}

#[test]
fn cost_names_the_missing_section_when_there_is_no_trajectory() {
    let err = derive_cost_from(None, Some(1.0), None).unwrap_err();
    assert!(err.contains("no trajectory section"), "{err}");
    assert!(err.contains("--steps-file"), "{err}");
}

#[test]
fn a_rate_outside_its_domain_is_rejected_before_it_multiplies() {
    for bad in [0.0, -1.0, f64::NAN, f64::INFINITY] {
        let err = derive_cost_from(Some(&an_hour()), Some(bad), None).unwrap_err();
        assert!(err.contains("--usd-per-hour"), "{bad}: {err}");
    }
    assert_eq!(
        checked_rate(&rate(-0.0), "--usd-per-kwh"),
        Err("--usd-per-kwh must be greater than zero, got -0".to_string())
    );
    assert_eq!(
        checked_rate(&rate(f64::NEG_INFINITY), "--usd-per-kwh"),
        Err("--usd-per-kwh must be a finite number, got -inf".to_string())
    );
}

#[test]
fn a_rate_keeps_its_value() {
    for x in [1.5, 3.60, 0.1, 1e-300, f64::MAX, f64::MIN_POSITIVE] {
        assert_eq!(checked_rate(&rate(x), "r"), Ok(value(x)));
    }
    let least = checked_rate(&rate(f64::from_bits(1)), "r").unwrap();
    assert_eq!(least, Binary64 { mantissa: 1 << 52, exponent: -1074 - 52 });
}

#[test]
fn one_rate_is_given() {
    assert_eq!(cost_basis(None, Some(rate(0.25))), Ok(metered(0.25)));
    let err = "exactly one rate must be given".to_string();
    assert_eq!(cost_basis(None, None), Err(err.clone()));
    assert_eq!(cost_basis(Some(rate(1.0)), Some(rate(1.0))), Err(err));
}

#[test]
fn a_metered_cost_is_rendered_with_its_rate() {
    let c = derive_cost(&an_hour(), metered(0.25)).unwrap();
    let out = render_cost(&c);
    assert!(out.contains("$0.2500/kWh"), "{out}");
    assert!(out.contains("The run window is not the invoice"), "{out}");
}

const ANCHOR: u64 = 1_700_000_000_000_000_000;
const TICK_NS: u64 = 100_000_000;
const WATTS: u32 = 200_000;

/// Constant draw on one device for `secs` seconds.
fn timeline(secs: u64) -> GpuTimeline {
    let ticks = secs * 1_000_000_000 / TICK_NS;
    GpuTimeline {
        samples: (0..=ticks)
            .map(|i| GpuSample {
                elapsed_ns: i * TICK_NS,
                device_index: 0,
                memory_used_bytes: 8_000_000_000,
                memory_total_bytes: 24_000_000_000,
                utilization_percent: 90,
                temperature_celsius: 60,
                power_draw_milliwatts: WATTS,
            })
            .collect(),
        sample_period_ns: TICK_NS,
        energy: Some(vec![DeviceEnergy {
            device_index: 0,
            energy_millijoules: (WATTS as u64) * secs,
            source: EnergySource::Counter,
        }]),
    }
}

fn step(id: u64, kind: StepKind, start_s: u64, end_s: u64) -> StepRecord {
    StepRecord {
        step_id: id,
        kind,
        t_start_unix_ns: ANCHOR + start_s * 1_000_000_000,
        t_end_unix_ns: ANCHOR + end_s * 1_000_000_000,
    }
}

fn priced(steps: &[StepRecord], secs: u64, usd_per_hour: f64) -> Result<String, String> {
    let gpu = timeline(secs);
    let trajectory = derive_trajectory_from_timelines(Some(ANCHOR), Some(&gpu), None, None, steps)
        .expect("synthetic timeline yields a trajectory");
    derive_cost_from(Some(&trajectory), Some(usd_per_hour), None)
}

#[test]
fn occupancy_prices_a_post_adr_015_report() {
    let steps = [
        step(1, StepKind::LlmCall, 5, 25),
        step(2, StepKind::Tool, 25, 30),
        step(3, StepKind::LlmCall, 30, 45),
    ];
    let out = priced(&steps, 60, 3.60).unwrap();
    assert!(out.contains("run window:       $0.060000"), "{out}");
    assert!(out.contains("$0.020000 (33.3% of run)"), "{out}");
    assert!(out.contains("$3.6000/hour"), "{out}");
}

#[test]
fn a_step_outside_the_window_is_dropped_rather_than_clipped() {
    let inside = [step(1, StepKind::LlmCall, 5, 25)];
    let straddling = [step(1, StepKind::LlmCall, 5, 25), step(2, StepKind::LlmCall, 50, 70)];
    let out1 = priced(&inside, 60, 3.60).unwrap();
    let out2 = priced(&straddling, 60, 3.60).unwrap();
    assert!(out1.contains("run window:       $0.060000"), "{out1}");
    assert!(out2.contains("run window:       $0.060000"), "{out2}");
    assert!(out1.contains("(66.7% of run)"), "{out1}");
    assert!(out2.contains("(66.7% of run)"), "{out2}");
    assert!(out2.contains("(1 steps"), "{out2}");
}

#[test]
fn rounding_can_part_the_kinds_from_their_sum() {
    let mut t = trajectory();
    t.steps = vec![
        step_metrics(1, StepKind::LlmCall, 0, S, 1, None),
        step_metrics(2, StepKind::Tool, S, 2 * S, 1, None),
        step_metrics(3, StepKind::LlmCall, 2 * S, 6 * S, 1, None),
    ];
    let c = derive_cost(&t, hourly(1.0)).unwrap();
    let hour = |s: f64| s * 1e9 / 3.6e12;
    assert_eq!(double(c.llm_usd), hour(1.0) + hour(4.0));
    assert_eq!(double(c.attributed_usd), hour(1.0) + hour(1.0) + hour(4.0));
    assert!((double(c.llm_usd) + double(c.tool_usd) - double(c.attributed_usd)).abs() < 1e-12);
}
