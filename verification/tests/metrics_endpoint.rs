//! The metrics endpoint: configuration, vocabulary, exposition, LoRA.
use std::time::Duration;

use inferscope::exposition::{
    extract_label, parse_counter_value, parse_kvcache, parse_phase, parse_seconds_as_nanos,
    parse_series, parse_spec, require, MetricsError, SpecReading,
};
use inferscope::kvcache::{HitRateAccounting, KvCacheSample};
use inferscope::lora::{observe_lora, LoraObservation};
use inferscope::schema::{sglang_schema, vllm_schema, Aggregation, Engine, Series};
use inferscope::scrape::{check_status, MetricsConfig};

const FIXTURE: &str = r#"# HELP vllm:generation_tokens_total Number of generation tokens processed.
# TYPE vllm:generation_tokens_total counter
vllm:generation_tokens_total{model_name="facebook/opt-125m"} 38
# HELP vllm:prefix_cache_hits Prefix cache hits.
# TYPE vllm:prefix_cache_hits counter
vllm:prefix_cache_hits{model_name="facebook/opt-125m"} 96
# HELP vllm:prefix_cache_queries Prefix cache queries.
# TYPE vllm:prefix_cache_queries counter
vllm:prefix_cache_queries{model_name="facebook/opt-125m"} 196
# HELP vllm:prompt_tokens_total Number of prefill tokens processed.
# TYPE vllm:prompt_tokens_total counter
vllm:prompt_tokens_total{model_name="facebook/opt-125m"} 196
# HELP vllm:request_decode_time_seconds Histogram of time spent in decode.
# TYPE vllm:request_decode_time_seconds histogram
vllm:request_decode_time_seconds_bucket{model_name="facebook/opt-125m",le="0.3"} 4
vllm:request_decode_time_seconds_bucket{model_name="facebook/opt-125m",le="+Inf"} 4
vllm:request_decode_time_seconds_sum{model_name="facebook/opt-125m"} 2.8431999999999998e-05
vllm:request_decode_time_seconds_count{model_name="facebook/opt-125m"} 4
# HELP vllm:request_prefill_time_seconds Histogram of time spent in prefill.
# TYPE vllm:request_prefill_time_seconds histogram
vllm:request_prefill_time_seconds_bucket{model_name="facebook/opt-125m",le="0.3"} 4
vllm:request_prefill_time_seconds_bucket{model_name="facebook/opt-125m",le="+Inf"} 4
vllm:request_prefill_time_seconds_sum{model_name="facebook/opt-125m"} 1.4493e-05
vllm:request_prefill_time_seconds_count{model_name="facebook/opt-125m"} 4
"#;

const VLLM_EXPOSITION: &str = r#"# HELP vllm:prefix_cache_queries_total Prefix cache queries, in terms of number of queried tokens.
# TYPE vllm:prefix_cache_queries_total counter
vllm:prefix_cache_queries_total{model_name="Qwen/Qwen2.5-7B-Instruct"} 270.0
# HELP vllm:prefix_cache_queries_created Prefix cache queries, in terms of number of queried tokens.
# TYPE vllm:prefix_cache_queries_created gauge
vllm:prefix_cache_queries_created{model_name="Qwen/Qwen2.5-7B-Instruct"} 1.7849664e+09
# HELP vllm:prefix_cache_hits_total Prefix cache hits, in terms of number of cached tokens.
# TYPE vllm:prefix_cache_hits_total counter
vllm:prefix_cache_hits_total{model_name="Qwen/Qwen2.5-7B-Instruct"} 144.0
# HELP vllm:prefix_cache_hits_created Prefix cache hits, in terms of number of cached tokens.
# TYPE vllm:prefix_cache_hits_created gauge
vllm:prefix_cache_hits_created{model_name="Qwen/Qwen2.5-7B-Instruct"} 1.7849664e+09
# HELP vllm:prompt_tokens_total Number of prefill tokens processed.
# TYPE vllm:prompt_tokens_total counter
vllm:prompt_tokens_total{model_name="Qwen/Qwen2.5-7B-Instruct"} 196.0
# HELP vllm:generation_tokens_total Number of generation tokens processed.
# TYPE vllm:generation_tokens_total counter
vllm:generation_tokens_total{model_name="Qwen/Qwen2.5-7B-Instruct"} 38.0
# HELP vllm:request_prefill_time_seconds Histogram of time spent in PREFILL phase for request.
# TYPE vllm:request_prefill_time_seconds histogram
vllm:request_prefill_time_seconds_bucket{le="0.3",model_name="Qwen/Qwen2.5-7B-Instruct"} 1.0
vllm:request_prefill_time_seconds_count{model_name="Qwen/Qwen2.5-7B-Instruct"} 1.0
vllm:request_prefill_time_seconds_sum{model_name="Qwen/Qwen2.5-7B-Instruct"} 1.4493e-05
# HELP vllm:request_decode_time_seconds Histogram of time spent in DECODE phase for request.
# TYPE vllm:request_decode_time_seconds histogram
vllm:request_decode_time_seconds_count{model_name="Qwen/Qwen2.5-7B-Instruct"} 1.0
vllm:request_decode_time_seconds_sum{model_name="Qwen/Qwen2.5-7B-Instruct"} 2.8431999999999998e-05
"#;

const SGLANG_PER_SOURCE: &str = r#"# HELP sglang:prompt_tokens_total Number of prefill tokens processed.
# TYPE sglang:prompt_tokens_total counter
sglang:prompt_tokens_total{engine_type="unified",model_name="Qwen/Qwen2.5-7B-Instruct"} 3400.0
# HELP sglang:generation_tokens_total Number of generation tokens processed.
# TYPE sglang:generation_tokens_total counter
sglang:generation_tokens_total{engine_type="unified",model_name="Qwen/Qwen2.5-7B-Instruct"} 512.0
# HELP sglang:cached_tokens_total Number of cached prompt tokens.
# TYPE sglang:cached_tokens_total counter
sglang:cached_tokens_total{cache_source="device",engine_type="unified",model_name="Qwen/Qwen2.5-7B-Instruct"} 1800.0
sglang:cached_tokens_total{cache_source="host",engine_type="unified",model_name="Qwen/Qwen2.5-7B-Instruct"} 400.0
sglang:cached_tokens_total{cache_source="storage_hf3fs",engine_type="unified",model_name="Qwen/Qwen2.5-7B-Instruct"} 120.0
sglang:cached_tokens_total{cache_source="total",engine_type="unified",model_name="Qwen/Qwen2.5-7B-Instruct"} 999.0
sglang:cached_tokens_total{cache_source="device",engine_type="unified",model_name="meta-llama/Llama-3.1-8B"} 55.0
# HELP sglang:cached_tokens_created Number of cached prompt tokens.
# TYPE sglang:cached_tokens_created gauge
sglang:cached_tokens_created{cache_source="device",engine_type="unified",model_name="Qwen/Qwen2.5-7B-Instruct"} 1.7849664e+09
"#;

const SGLANG_TOTAL_ONLY: &str = r#"# TYPE sglang:prompt_tokens_total counter
sglang:prompt_tokens_total{engine_type="unified",model_name="Qwen/Qwen2.5-7B-Instruct"} 3400.0
# TYPE sglang:cached_tokens_total counter
sglang:cached_tokens_total{cache_source="total",engine_type="unified",model_name="Qwen/Qwen2.5-7B-Instruct"} 2320.0
"#;

const SGLANG_MODEL: &str = "Qwen/Qwen2.5-7B-Instruct";
const SGLANG: Engine = Engine::Sglang { page_size: 1 };

#[test]
fn new_applies_the_default_period() {
    let cfg =
        MetricsConfig::new("http://127.0.0.1:18000/metrics", "facebook/opt-125m", Engine::Vllm);
    assert_eq!(cfg.endpoint, "http://127.0.0.1:18000/metrics");
    assert_eq!(cfg.model_name, "facebook/opt-125m");
    assert_eq!(cfg.engine, Engine::Vllm);
    assert_eq!(cfg.sample_period, Duration::from_millis(1000));
    assert_eq!(cfg.sample_period, MetricsConfig::default_period());
}

#[test]
fn with_period_overrides_the_default() {
    let cfg = MetricsConfig::with_period(
        "http://127.0.0.1:18000/metrics",
        "facebook/opt-125m",
        Engine::Sglang { page_size: 1 },
        Duration::from_millis(250),
    );
    assert_eq!(cfg.sample_period, Duration::from_millis(250));
    assert_eq!(cfg.model_name, "facebook/opt-125m");
    assert_eq!(cfg.engine, Engine::Sglang { page_size: 1 });
}

#[test]
fn accepts_string_and_str_for_endpoint_and_model() {
    let from_str = MetricsConfig::new("http://h/metrics", "m", Engine::Vllm);
    let from_owned =
        MetricsConfig::new(String::from("http://h/metrics"), String::from("m"), Engine::Vllm);
    assert_eq!(from_str.endpoint, from_owned.endpoint);
    assert_eq!(from_str.model_name, from_owned.model_name);
}

#[test]
fn a_clone_keeps_the_configuration() {
    let cfg = MetricsConfig::new("http://h/metrics", "m", SGLANG);
    let copy = cfg.clone();
    assert_eq!(copy.endpoint, cfg.endpoint);
    assert_eq!(copy.model_name, cfg.model_name);
    assert_eq!(copy.engine, cfg.engine);
    assert_eq!(copy.sample_period, cfg.sample_period);
}

#[test]
fn vllm_is_block_aligned_at_every_block_size() {
    assert_eq!(Engine::Vllm.accounting(), HitRateAccounting::BlockAligned);
}

#[test]
fn sglang_counts_exact_tokens_only_at_page_size_one() {
    assert_eq!(Engine::Sglang { page_size: 1 }.accounting(), HitRateAccounting::ExactTokens);
}

#[test]
fn sglang_above_page_size_one_is_page_aligned() {
    for page_size in [2, 16, 64] {
        assert_eq!(
            Engine::Sglang { page_size }.accounting(),
            HitRateAccounting::BlockAligned,
            "page_size {page_size} must not be read as exact tokens"
        );
    }
}

#[test]
fn extract_label_single() {
    let labels = r#"model_name="facebook/opt-125m""#;
    assert_eq!(extract_label(labels, "model_name"), Some("facebook/opt-125m"));
}

#[test]
fn extract_label_multi_label_any_position() {
    let labels = r#"le="0.3",model_name="facebook/opt-125m",engine_type="unified""#;
    assert_eq!(extract_label(labels, "model_name"), Some("facebook/opt-125m"));
    assert_eq!(extract_label(labels, "le"), Some("0.3"));
    assert_eq!(extract_label(labels, "engine_type"), Some("unified"));
}

#[test]
fn extract_label_absent_key_is_none() {
    let labels = r#"model_name="m""#;
    assert_eq!(extract_label(labels, "cache_source"), None);
}

#[test]
fn extract_label_does_not_match_suffix_key() {
    let labels = r#"model_name="m""#;
    assert_eq!(extract_label(labels, "name"), None);
}

#[test]
fn extract_label_edges() {
    assert_eq!(extract_label("", "a"), None);
    assert_eq!(extract_label("a", "a"), None);
    assert_eq!(extract_label("x,a=\"1\"", "a"), Some("1"));
    assert_eq!(extract_label("b=1,a=\"2\"", "a"), Some("2"));
    assert_eq!(extract_label("a=\"1\",x", "a"), Some("1"));
    assert_eq!(extract_label("a=1", "a"), None);
    assert_eq!(extract_label("a=\"", "a"), None);
    assert_eq!(extract_label("a=\"\"", "a"), Some(""));
    assert_eq!(extract_label(" b = \"\u{e9}\" ", "b"), Some("\u{e9}"));
    assert_eq!(extract_label("a=\"1\",a=\"2\"", "a"), Some("1"));
}

#[test]
fn a_label_is_found_beside_any_other() {
    let labels = r#"custom="a,b",model_name="m""#;
    assert_eq!(extract_label(labels, "model_name"), Some("m"));
    assert_eq!(extract_label(labels, "custom"), Some("a,b"));
    let labels = r#"custom="model_name=\"x\",y",model_name="m",le="0.3""#;
    assert_eq!(extract_label(labels, "model_name"), Some("m"));
    assert_eq!(extract_label(labels, "le"), Some("0.3"));
    assert_eq!(extract_label(r#"path="c:\\",model_name="m""#, "model_name"), Some("m"));
}

#[test]
fn a_series_with_an_operator_label_is_read() {
    let body = "vllm:prefix_cache_queries_total{zone=\"eu,west\",model_name=\"m\"} 7\n";
    let series = vllm_schema().hit_denominator;
    assert_eq!(parse_series(body, &series, "m"), Ok(Some(7)));
}

#[test]
fn kvcache_parses_against_a_prometheus_client_body() {
    let (hits, queries) =
        parse_kvcache(VLLM_EXPOSITION, "Qwen/Qwen2.5-7B-Instruct", Engine::Vllm).unwrap();
    assert_eq!(hits, Some(144));
    assert_eq!(queries, 270);
}

#[test]
fn phase_parses_against_a_prometheus_client_body() {
    let (prompt, generation, prefill_ns, decode_ns) =
        parse_phase(VLLM_EXPOSITION, "Qwen/Qwen2.5-7B-Instruct", Engine::Vllm).unwrap();
    assert_eq!(prompt, 196);
    assert_eq!(generation, 38);
    assert!(prefill_ns.is_some());
    assert!(decode_ns.is_some());
}

#[test]
fn the_created_line_is_not_mistaken_for_the_counter() {
    assert!(VLLM_EXPOSITION.contains("vllm:prefix_cache_hits_created"));
    let v =
        parse_series(VLLM_EXPOSITION, &vllm_schema().hit_numerator, "Qwen/Qwen2.5-7B-Instruct")
            .unwrap();
    assert_eq!(v, Some(144));
}

#[test]
fn the_simulator_is_not_a_vllm_endpoint_for_kv() {
    let (prompt, generation, _, _) =
        parse_phase(FIXTURE, "facebook/opt-125m", Engine::Vllm).unwrap();
    assert_eq!(prompt, 196);
    assert_eq!(generation, 38);
    let err = parse_kvcache(FIXTURE, "facebook/opt-125m", Engine::Vllm).unwrap_err();
    assert!(matches!(err, MetricsError::Parse { .. }), "{err:?}");
}

#[test]
fn parse_kvcache_wrong_model_name_errors() {
    let err = parse_kvcache(FIXTURE, "no/such-model", Engine::Vllm).unwrap_err();
    assert!(matches!(err, MetricsError::Parse { .. }));
}

#[test]
fn parse_series_skips_comment_lines() {
    let body = "# HELP vllm:prefix_cache_hits_total Prefix cache hits.\n\
                # TYPE vllm:prefix_cache_hits_total counter\n";
    let v = parse_series(body, &vllm_schema().hit_numerator, "m").unwrap();
    assert_eq!(v, None);
}

#[test]
fn parse_series_exact_name_match() {
    let body = "vllm:prefix_cache_hits_total_extra{model_name=\"m\"} 7\n";
    assert_eq!(parse_series(body, &vllm_schema().hit_numerator, "m").unwrap(), None);
}

#[test]
fn parse_series_reads_float_value_as_u64() {
    let body = "vllm:prefix_cache_hits_total{model_name=\"m\"} 9.0\n";
    let v = parse_series(body, &vllm_schema().hit_numerator, "m").unwrap();
    assert_eq!(v, Some(9));
}

#[test]
fn parse_series_rejects_negative() {
    let body = "vllm:prefix_cache_hits_total{model_name=\"m\"} -3\n";
    let err = parse_series(body, &vllm_schema().hit_numerator, "m").unwrap_err();
    assert!(matches!(err, MetricsError::Parse { .. }));
}

#[test]
fn parse_series_absent_is_none_not_zero() {
    let body = "vllm:prefix_cache_queries_total{model_name=\"m\"} 100\n";
    assert_eq!(parse_series(body, &vllm_schema().hit_numerator, "m").unwrap(), None);
    let zero = "vllm:prefix_cache_hits_total{model_name=\"m\"} 0\n";
    assert_eq!(parse_series(zero, &vllm_schema().hit_numerator, "m").unwrap(), Some(0));
}

#[test]
fn sglang_numerator_sums_every_source_but_the_reserved_total() {
    let n = parse_series(SGLANG_PER_SOURCE, &sglang_schema().hit_numerator, SGLANG_MODEL).unwrap();
    assert_eq!(n, Some(2320));
}

#[test]
fn sglang_numerator_does_not_cross_models() {
    let n = parse_series(
        SGLANG_PER_SOURCE,
        &sglang_schema().hit_numerator,
        "meta-llama/Llama-3.1-8B",
    )
    .unwrap();
    assert_eq!(n, Some(55));
}

#[test]
fn sglang_total_only_body_yields_an_absent_numerator() {
    let (hits, queries) = parse_kvcache(SGLANG_TOTAL_ONLY, SGLANG_MODEL, SGLANG).unwrap();
    assert_eq!(hits, None);
    assert_eq!(queries, 3400);
}

#[test]
fn sglang_denominator_is_the_prompt_counter() {
    let (_, queries) = parse_kvcache(SGLANG_PER_SOURCE, SGLANG_MODEL, SGLANG).unwrap();
    let prompt = parse_series(SGLANG_PER_SOURCE, &sglang_schema().prompt_tokens, SGLANG_MODEL)
        .unwrap()
        .unwrap();
    assert_eq!(queries, 3400);
    assert_eq!(queries, prompt);
}

#[test]
fn sglang_created_lines_are_not_read_as_counters() {
    let n = parse_series(SGLANG_PER_SOURCE, &sglang_schema().hit_numerator, SGLANG_MODEL).unwrap();
    assert_eq!(n, Some(2320));
    assert!(SGLANG_PER_SOURCE.contains("sglang:cached_tokens_created"));
}

#[test]
fn vllm_schema_does_not_read_an_sglang_body() {
    let err = parse_kvcache(SGLANG_PER_SOURCE, SGLANG_MODEL, Engine::Vllm).unwrap_err();
    assert!(matches!(err, MetricsError::Parse { .. }));
}

#[test]
fn parse_seconds_as_nanos_prefill_from_real_fixture() {
    let ns = parse_seconds_as_nanos(
        FIXTURE,
        vllm_schema().prefill_time_sum.unwrap(),
        "facebook/opt-125m",
    )
    .unwrap();
    assert_eq!(ns, 14_493);
}

#[test]
fn parse_seconds_as_nanos_decode_from_real_fixture() {
    let ns = parse_seconds_as_nanos(
        FIXTURE,
        vllm_schema().decode_time_sum.unwrap(),
        "facebook/opt-125m",
    )
    .unwrap();
    assert_eq!(ns, 28_432);
}

#[test]
fn parse_seconds_as_nanos_does_not_truncate_subsecond() {
    let body = "vllm:request_prefill_time_seconds_sum{model_name=\"m\"} 1.4493e-05\n";
    let ns = parse_seconds_as_nanos(body, "vllm:request_prefill_time_seconds_sum", "m").unwrap();
    assert_eq!(ns, 14_493);
}

#[test]
fn parse_seconds_as_nanos_missing_series_errors() {
    let err = parse_seconds_as_nanos("", "vllm:request_prefill_time_seconds_sum", "m").unwrap_err();
    assert!(matches!(err, MetricsError::Parse { .. }));
}

#[test]
fn parse_seconds_as_nanos_rejects_negative() {
    let body = "vllm:request_prefill_time_seconds_sum{model_name=\"m\"} -1.0\n";
    let err =
        parse_seconds_as_nanos(body, "vllm:request_prefill_time_seconds_sum", "m").unwrap_err();
    assert!(matches!(err, MetricsError::Parse { .. }));
}

#[test]
fn parse_seconds_as_nanos_exact_name_match() {
    let body = "vllm:request_prefill_time_seconds_count{model_name=\"m\"} 4\n";
    let err =
        parse_seconds_as_nanos(body, "vllm:request_prefill_time_seconds_sum", "m").unwrap_err();
    assert!(matches!(err, MetricsError::Parse { .. }));
}

#[test]
fn parse_phase_from_real_fixture() {
    let (prompt_tokens, generation_tokens, prefill_ns, decode_ns) =
        parse_phase(FIXTURE, "facebook/opt-125m", Engine::Vllm).unwrap();
    assert_eq!(prompt_tokens, 196);
    assert_eq!(generation_tokens, 38);
    assert_eq!(prefill_ns, Some(14_493));
    assert_eq!(decode_ns, Some(28_432));
}

#[test]
fn parse_phase_missing_a_declared_series_still_errors() {
    let body = "vllm:prompt_tokens_total{model_name=\"m\"} 10\n\
                vllm:generation_tokens_total{model_name=\"m\"} 5\n";
    let err = parse_phase(body, "m", Engine::Vllm).unwrap_err();
    assert!(matches!(err, MetricsError::Parse { .. }));
}

#[test]
fn parse_phase_on_an_engine_without_timing_yields_absence_not_error() {
    let (prompt_tokens, generation_tokens, prefill_ns, decode_ns) =
        parse_phase(SGLANG_PER_SOURCE, SGLANG_MODEL, SGLANG).unwrap();
    assert_eq!(prompt_tokens, 3400);
    assert_eq!(generation_tokens, 512);
    assert_eq!(prefill_ns, None);
    assert_eq!(decode_ns, None);
}

#[test]
fn sglang_collides_the_denominator_onto_the_prompt_counter() {
    assert_eq!(sglang_schema().hit_denominator.name, sglang_schema().prompt_tokens.name);
}

#[test]
fn vllm_keeps_the_denominator_and_the_prompt_counter_apart() {
    assert_ne!(vllm_schema().hit_denominator.name, vllm_schema().prompt_tokens.name);
}

#[test]
fn only_the_sglang_numerator_is_summed() {
    assert_eq!(vllm_schema().hit_numerator.aggregation, Aggregation::Single);
    assert_eq!(
        sglang_schema().hit_numerator.aggregation,
        Aggregation::SumOverLabel { label: "cache_source", excluded: "total" }
    );
}

#[test]
fn sglang_declares_no_phase_timing() {
    assert!(sglang_schema().prefill_time_sum.is_none());
    assert!(sglang_schema().decode_time_sum.is_none());
    assert!(vllm_schema().prefill_time_sum.is_some());
    assert!(vllm_schema().decode_time_sum.is_some());
}

#[test]
fn page_size_does_not_select_the_schema() {
    for page_size in [1, 16, 64] {
        assert_eq!(Engine::Sglang { page_size }.schema(), sglang_schema());
    }
    assert_eq!(Engine::Vllm.schema(), vllm_schema());
}

#[test]
fn speculation_counters_are_read_where_the_engine_has_them() {
    let body = "vllm:spec_decode_num_draft_tokens_total{model_name=\"m\"} 40.0\n\
                vllm:spec_decode_num_accepted_tokens_total{model_name=\"m\"} 12.0\n";
    assert_eq!(
        parse_spec(body, "m", Engine::Vllm).unwrap(),
        SpecReading { draft_tokens: Some(40), accepted_tokens: Some(12), drafts: None }
    );
    assert_eq!(
        parse_spec(body, "m", SGLANG).unwrap(),
        SpecReading { draft_tokens: None, accepted_tokens: None, drafts: None }
    );
    let broken = "vllm:spec_decode_num_drafts_total{model_name=\"m\"} x\n";
    assert!(parse_spec(broken, "m", Engine::Vllm).is_err());
}

fn detail(e: MetricsError) -> String {
    match e {
        MetricsError::Parse { detail } => detail,
        other => panic!("expected Parse, got {other:?}"),
    }
}

#[test]
fn complaints_name_the_metric_and_quote_the_text() {
    assert_eq!(
        detail(parse_counter_value("a\"b", "m").unwrap_err()),
        "metric m: value \"a\\\"b\" is not a number"
    );
    assert_eq!(
        detail(parse_counter_value("-3", "m").unwrap_err()),
        "metric m: value -3 is not a valid counter"
    );
    assert_eq!(
        detail(require(None, "hits", "a\tb").unwrap_err()),
        "metric hits not found for model_name \"a\\tb\""
    );
    assert_eq!(require(Some(0), "hits", "m").unwrap(), 0);
    assert_eq!(
        detail(parse_seconds_as_nanos("s{model_name=\"m\"} -1\n", "s", "m").unwrap_err()),
        "metric s: value -1 is not a valid duration"
    );
}

#[test]
fn complaints_name_values_that_are_not_finite() {
    for text in ["NaN", "-nan", "+Inf", "-inf", "infinity", "-INFINITY", "1e400", "-1e400", "inf"] {
        let value: f64 = text.parse().unwrap();
        assert_eq!(
            detail(parse_counter_value(text, "m").unwrap_err()),
            format!("metric m: value {value} is not a valid counter")
        );
        let body = format!("s{{model_name=\"m\"}} {text}\n");
        assert_eq!(
            detail(parse_seconds_as_nanos(&body, "s", "m").unwrap_err()),
            format!("metric s: value {value} is not a valid duration")
        );
    }
}

/// The complaint about a value below zero, against the standard library's
/// notation of the same double.
fn assert_shown_as_double(text: &str) {
    let value: f64 = text.parse().unwrap();
    assert_eq!(
        detail(parse_counter_value(text, "m").unwrap_err()),
        format!("metric m: value {value} is not a valid counter"),
        "{text:?}"
    );
}

#[test]
fn complaints_show_numbers_in_their_shortest_form() {
    for text in [
        "-1.0", "-1e3", "-0.50", "-00.1250", "-1.5e-3", "-3.0000000000000001", "-1E2", "-.5", "-9.",
        "-0.1", "-0.3", "-123456.789e3", "-1e22", "-1e23", "-123456789012345678901234567890",
        "-9007199254740993", "-5.684341886080802e-14", "-5.684341886080801e-14",
        "-1.7976931348623157e308", "-2.2250738585072014e-308", "-2.2250738585072011e-308",
        "-4.9e-324", "-1e-323", "-2.5e-324", "-1e-310", "-9.5367431640625e-7", "-99999999999999999",
        "-0.99999999999999999", "-8.41e21", "-2.0019765625e-5", "-4.35", "-1e-5", "-1e16",
    ] {
        assert_shown_as_double(text);
    }
    assert_eq!(
        detail(parse_counter_value("-1e3", "m").unwrap_err()),
        "metric m: value -1000 is not a valid counter"
    );
    assert_eq!(
        detail(parse_seconds_as_nanos("s{model_name=\"m\"} -0.50\n", "s", "m").unwrap_err()),
        "metric s: value -0.5 is not a valid duration"
    );
}

#[test]
fn complaints_show_scattered_numbers_in_their_shortest_form() {
    let mut state: u64 = 0x9e37_79b9_7f4a_7c15;
    for _ in 0..60 {
        state = state.wrapping_mul(6_364_136_223_846_793_005).wrapping_add(1_442_695_040_888_963_407);
        let value = f64::from_bits((state >> 1) % 0x7ff0_0000_0000_0000);
        assert_shown_as_double(&format!("-{value:e}"));
        assert_shown_as_double(&format!("-{:.25e}", value));
        // The powers of two, below which the neighbours stand closer.
        let power = f64::from_bits(value.to_bits() & 0x7ff0_0000_0000_0000);
        if power > 0.0 {
            assert_shown_as_double(&format!("-{power:e}"));
        }
    }
}

#[test]
fn a_sum_beyond_the_largest_count_is_an_error() {
    let series = Series {
        name: "s",
        aggregation: Aggregation::SumOverLabel { label: "l", excluded: "all" },
    };
    let body = "s{model_name=\"m\",l=\"a\"} 1.8e19\ns{model_name=\"m\",l=\"b\"} 1.8e19\n";
    assert_eq!(
        detail(parse_series(body, &series, "m").unwrap_err()),
        "metric s: summed value overflows u64"
    );
    // A line without the split label counts.
    let plain = "s{model_name=\"m\"} 5\ns{model_name=\"m\",l=\"all\"} 7\n";
    assert_eq!(parse_series(plain, &series, "m").unwrap(), Some(5));
}

#[test]
fn the_first_of_two_lines_wins_where_one_carries_the_value() {
    let body = "s{model_name=\"m\"} 5\r\ns{model_name=\"m\"} x\r\n";
    assert_eq!(parse_series(body, &Series::single("s"), "m").unwrap(), Some(5));
}

#[test]
fn values_read_as_the_standard_library_reads_doubles() {
    let texts = [
        "0", "-0", "+7", "1.", ".5", "0.99999999999999999999", "1e3", "1E3", "1e+3", "12e-1",
        "9007199254740993", "18446744073709551615", "18446744073709551616", "1e19", "1e20", "1e400",
        "-1e400", "1e-400", "-1e-400", "nan", "NaN", "inf", "-inf", "Infinity", "infinity", "infinit",
        "", "+", "-", ".", "e5", "1e", "1e+", "1_000", "0x10", " 1", "1 ", "1.2.3", "--1", "5e-324",
        "2.2250738585072014e-308", "4503599627370496.5", "4503599627370497.5", "0.1", "1.5",
        "179769313486231570000000000000000000000000000000000", "1e308", "1.7976931348623157e308",
        "1.7976931348623159e308", "123456789012345678901234567890e-10", "1.0000000000000002",
    ];
    for text in texts {
        let expected: Option<u64> = match text.parse::<f64>() {
            Ok(x) if x >= 0.0 && x.is_finite() => Some(x as u64),
            _ => None,
        };
        assert_eq!(parse_counter_value(text, "m").ok(), expected, "{text:?}");
        if text.contains(' ') || text.is_empty() {
            continue;
        }
        let nanos: Option<u64> = match text.parse::<f64>() {
            Ok(x) if x >= 0.0 && x.is_finite() => Some((x * 1e9).round() as u64),
            _ => None,
        };
        let body = format!("s{{model_name=\"m\"}} {text}\n");
        assert_eq!(parse_seconds_as_nanos(&body, "s", "m").ok(), nanos, "{text:?}");
    }
}

#[test]
fn seconds_round_as_doubles_do() {
    for i in 0..2000u64 {
        let x = (i as f64) * 0.000_000_123_456_7 + 1.0 / ((i + 1) as f64);
        let text = format!("{x:?}");
        let body = format!("s{{model_name=\"m\"}} {text}\n");
        assert_eq!(
            parse_seconds_as_nanos(&body, "s", "m").unwrap(),
            (x * 1e9).round() as u64,
            "{text}"
        );
    }
}

#[test]
fn a_status_is_a_success_between_two_and_three_hundred() {
    assert_eq!(check_status(200), Ok(()));
    assert_eq!(check_status(299), Ok(()));
    assert_eq!(check_status(300), Err(MetricsError::Status { status: 300 }));
    assert_eq!(check_status(199), Err(MetricsError::Status { status: 199 }));
    assert_eq!(
        check_status(503).unwrap_err().message(),
        "metrics endpoint returned status 503"
    );
}

#[test]
fn errors_say_what_failed() {
    let http = MetricsError::Http { message: "refused".to_string() };
    assert_eq!(http.message(), "metrics request failed: refused");
    let parse = MetricsError::Parse { detail: "x".to_string() };
    assert_eq!(parse.message(), "failed to parse metrics body: x");
}

#[test]
fn a_scrape_becomes_a_sample_only_if_both_counters_are_there() {
    let config = MetricsConfig::new("http://h/metrics", SGLANG_MODEL, SGLANG);
    assert_eq!(
        config.kvcache_sample(7, SGLANG_PER_SOURCE).unwrap(),
        KvCacheSample { elapsed_ns: 7, hits: 2320, queries: 3400 }
    );
    assert_eq!(
        detail(config.kvcache_sample(7, SGLANG_TOTAL_ONLY).unwrap_err()),
        "metric sglang:cached_tokens_total not found for model_name \"Qwen/Qwen2.5-7B-Instruct\""
    );
    let mut timeline = config.kvcache_timeline();
    assert_eq!(timeline.sample_period_ns, 1_000_000_000);
    assert_eq!(timeline.accounting, Some(HitRateAccounting::ExactTokens));
    timeline.record(config.kvcache_sample(7, SGLANG_PER_SOURCE));
    timeline.record(config.kvcache_sample(8, SGLANG_TOTAL_ONLY));
    assert_eq!(timeline.len(), 1);
}

#[test]
fn a_phase_scrape_becomes_a_sample() {
    let config = MetricsConfig::with_period(
        "http://h/metrics",
        "facebook/opt-125m",
        Engine::Vllm,
        Duration::from_millis(20),
    );
    let sample = config.phase_sample(9, FIXTURE).unwrap();
    assert_eq!(sample.elapsed_ns, 9);
    assert_eq!(sample.prompt_tokens, 196);
    assert_eq!(sample.generation_tokens, 38);
    assert_eq!(sample.prefill_ns, Some(14493));
    assert_eq!(sample.decode_ns, Some(28432));
    let mut timeline = config.phase_timeline();
    assert_eq!(timeline.sample_period_ns, 20_000_000);
    timeline.record(Ok(sample));
    timeline.record(config.phase_sample(10, "# nothing useful here\n"));
    assert_eq!(timeline.len(), 1);
}

#[test]
fn a_speculation_scrape_is_kept_whole_or_not_at_all() {
    let config = MetricsConfig::new("http://h/metrics", "m", Engine::Vllm);
    let mut timeline = config.spec_timeline();
    let whole = SpecReading { draft_tokens: Some(4), accepted_tokens: Some(3), drafts: Some(1) };
    let part = SpecReading { draft_tokens: Some(4), accepted_tokens: None, drafts: Some(1) };
    timeline.record(1, Ok(whole));
    timeline.record(2, Ok(part));
    timeline.record(3, Err(MetricsError::Status { status: 500 }));
    assert_eq!(timeline.samples.len(), 1);
    assert_eq!(timeline.samples[0].elapsed_ns, 1);
    assert_eq!(timeline.sample_period_ns, 1_000_000_000);
}

const LORA: &str = r#"# HELP vllm:lora_requests_info Running stats on lora requests.
# TYPE vllm:lora_requests_info gauge
vllm:lora_requests_info{max_lora="8",running_lora_adapters="",waiting_lora_adapters=""} 1.790060019e+09
vllm:lora_requests_info{max_lora="8",running_lora_adapters="a1",waiting_lora_adapters=""} 1.790060021e+09
"#;

#[test]
fn sample_only_records_the_most_recent_adapter_set() {
    match observe_lora(LORA) {
        LoraObservation::Latest { series } => {
            assert_eq!(series.running_lora_adapters, vec!["a1".to_string()]);
            assert!(series.waiting_lora_adapters.is_empty());
            assert_eq!(series.max_lora, Some(8));
            let value = series.value.mantissa as f64 * 2f64.powi(series.value.exponent);
            assert_eq!(value, 1.790060021e9);
        }
        other => panic!("expected Latest, got {other:?}"),
    }
}

#[test]
fn adapters_are_listed_in_the_order_written() {
    let body = "vllm:lora_requests_info{running_lora_adapters=\"b,a,c\",waiting_lora_adapters=\"d,\"} 5\n";
    match observe_lora(body) {
        LoraObservation::Latest { series } => {
            assert_eq!(series.running_lora_adapters, vec!["b", "a", "c"]);
            assert_eq!(series.waiting_lora_adapters, vec!["d", ""]);
            assert_eq!(series.max_lora, None);
        }
        other => panic!("expected Latest, got {other:?}"),
    }
}

#[test]
fn series_of_one_time_are_a_tie() {
    let body = "vllm:lora_requests_info{max_lora=\"8\",running_lora_adapters=\"\",waiting_lora_adapters=\"\"} 1.790059976e+09\n\
                vllm:lora_requests_info{max_lora=\"8\",running_lora_adapters=\"x\",waiting_lora_adapters=\"\"} 1\n\
                vllm:lora_requests_info{max_lora=\"8\",running_lora_adapters=\"a2\",waiting_lora_adapters=\"\"} 1790059976\n";
    match observe_lora(body) {
        LoraObservation::Tie { candidates } => {
            assert_eq!(candidates.len(), 2);
            assert!(candidates[0].running_lora_adapters.is_empty());
            assert_eq!(candidates[1].running_lora_adapters, vec!["a2"]);
        }
        other => panic!("expected Tie, got {other:?}"),
    }
}

#[test]
fn a_body_without_the_family_has_no_series() {
    assert_eq!(observe_lora(FIXTURE), LoraObservation::NoSeries);
    assert_eq!(observe_lora(""), LoraObservation::NoSeries);
}

#[test]
fn series_are_told_apart_at_any_size_of_time() {
    let line = |name: &str, value: &str| {
        format!(
            "vllm:lora_requests_info{{running_lora_adapters=\"{name}\",waiting_lora_adapters=\"\"}} {value}\n"
        )
    };
    for (earlier, later) in [
        ("0", "4.9e-324"),
        ("1e-12", "2e-12"),
        ("1e-310", "1.0000001e-310"),
        ("1e21", "1e22"),
        ("9e307", "1.7976931348623157e308"),
    ] {
        match observe_lora(&(line("new", later) + &line("old", earlier))) {
            LoraObservation::Latest { series } => {
                assert_eq!(series.running_lora_adapters, vec!["new"], "{later}");
            }
            other => panic!("expected Latest, got {other:?}"),
        }
    }
    // Two texts of one double are one time.
    for (one, two) in [("5e-324", "4e-324"), ("1e23", "9.999999999999999e22")] {
        let tie = matches!(
            observe_lora(&(line("a", one) + &line("b", two))),
            LoraObservation::Tie { .. }
        );
        assert_eq!(tie, one.parse::<f64>().unwrap() == two.parse::<f64>().unwrap(), "{one} {two}");
    }
}

#[test]
fn a_series_that_does_not_read_fails_the_read() {
    let lists = "running_lora_adapters=\"\",waiting_lora_adapters=\"\"";
    for line in [
        format!("vllm:lora_requests_info{{{lists}}} x\n"),
        format!("vllm:lora_requests_info{{{lists}}} -1\n"),
        format!("vllm:lora_requests_info{{{lists}}} inf\n"),
        format!("vllm:lora_requests_info{{max_lora=\"x\",{lists}}} 1\n"),
        "vllm:lora_requests_info{running_lora_adapters=\"\"} 1\n".to_string(),
    ] {
        assert_eq!(observe_lora(&line), LoraObservation::ReadFailed, "{line}");
    }
}
