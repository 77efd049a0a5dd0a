//! The metric vocabulary each engine speaks.
//!
//! The two engines do not name the same series for the same roles, and the
//! difference is no renaming: on one the hit-rate denominator and the prefill
//! token count are two series, on the other one series serves both roles.
use vstd::prelude::*;

use crate::kvcache::HitRateAccounting;

verus! {

/// Which inference engine speaks on the scraped endpoint. Declared by the
/// caller, never read off the response.
#[derive(Debug, Clone, Copy, PartialEq, Eq, Structural)]
pub enum Engine {
    /// An endpoint that exposes the `vllm:` vocabulary.
    Vllm,
    /// An endpoint that exposes the `sglang:` vocabulary.
    Sglang {
        /// The server's page size, which no scrape shows.
        page_size: u32,
    },
}

/// How the lines of one metric family combine into a single value.
#[derive(Debug, Clone, Copy, PartialEq, Eq)]
pub enum Aggregation {
    /// One line carries the value; the first match wins.
    Single,
    /// The family is split across a label, and the total is the sum of the
    /// lines whose label does not carry the reserved value.
    SumOverLabel {
        /// The label the family is split across.
        label: &'static str,
        /// The reserved label value that repeats the whole.
        excluded: &'static str,
    },
}

/// One metric family: the name of its series and how its lines combine.
#[derive(Debug, Clone, Copy, PartialEq, Eq)]
pub struct Series {
    /// The exact metric name.
    pub name: &'static str,
    /// How the matching lines reduce to one value.
    pub aggregation: Aggregation,
}

impl Series {
    /// A family carried by a single line.
    pub fn single(name: &'static str) -> (series: Self)
        ensures
            series.name == name,
            series.aggregation == Aggregation::Single,
    {
        Series { name, aggregation: Aggregation::Single }
    }
}

/// The series one engine exposes. A signal it does not expose is `None`: a
/// declared gap, not something that failed to turn up.
#[derive(Debug, Clone, Copy, PartialEq, Eq)]
pub struct EngineSchema {
    /// Cached prompt tokens: the hit-rate numerator.
    pub hit_numerator: Series,
    /// Queried prompt tokens: the hit-rate denominator.
    pub hit_denominator: Series,
    /// Prompt tokens.
    pub prompt_tokens: Series,
    /// Generation tokens.
    pub generation_tokens: Series,
    /// Total seconds spent in prefill.
    pub prefill_time_sum: Option<&'static str>,
    /// Total seconds spent in decode.
    pub decode_time_sum: Option<&'static str>,
    /// Draft tokens proposed by speculative decoding.
    pub spec_draft_tokens: Option<Series>,
    /// Draft tokens that survived verification.
    pub spec_accepted_tokens: Option<Series>,
    /// Speculation rounds.
    pub spec_drafts: Option<Series>,
}

/// A family carried by a single line.
pub open spec fn one_line(name: &'static str) -> Series {
    Series { name, aggregation: Aggregation::Single }
}

/// The `vllm:` vocabulary. The `_total` suffix is what an endpoint exposes.
pub open spec fn vllm() -> EngineSchema {
    EngineSchema {
        hit_numerator: one_line("vllm:prefix_cache_hits_total"),
        hit_denominator: one_line("vllm:prefix_cache_queries_total"),
        prompt_tokens: one_line("vllm:prompt_tokens_total"),
        generation_tokens: one_line("vllm:generation_tokens_total"),
        prefill_time_sum: Some("vllm:request_prefill_time_seconds_sum"),
        decode_time_sum: Some("vllm:request_decode_time_seconds_sum"),
        spec_draft_tokens: Some(one_line("vllm:spec_decode_num_draft_tokens_total")),
        spec_accepted_tokens: Some(one_line("vllm:spec_decode_num_accepted_tokens_total")),
        spec_drafts: Some(one_line("vllm:spec_decode_num_drafts_total")),
    }
}

/// The `sglang:` vocabulary. The numerator is split by cache source, with a
/// reserved source that repeats the whole; the prompt counter is the
/// denominator too; times per phase and speculation counters are not exposed.
pub open spec fn sglang() -> EngineSchema {
    EngineSchema {
        hit_numerator: Series {
            name: "sglang:cached_tokens_total",
            aggregation: Aggregation::SumOverLabel { label: "cache_source", excluded: "total" },
        },
        hit_denominator: one_line("sglang:prompt_tokens_total"),
        prompt_tokens: one_line("sglang:prompt_tokens_total"),
        generation_tokens: one_line("sglang:generation_tokens_total"),
        prefill_time_sum: None,
        decode_time_sum: None,
        spec_draft_tokens: None,
        spec_accepted_tokens: None,
        spec_drafts: None,
    }
}

/// The `vllm:` vocabulary.
pub fn vllm_schema() -> (schema: EngineSchema)
    ensures
        schema == vllm(),
{
    EngineSchema {
        hit_numerator: Series::single("vllm:prefix_cache_hits_total"),
        hit_denominator: Series::single("vllm:prefix_cache_queries_total"),
        prompt_tokens: Series::single("vllm:prompt_tokens_total"),
        generation_tokens: Series::single("vllm:generation_tokens_total"),
        prefill_time_sum: Some("vllm:request_prefill_time_seconds_sum"),
        decode_time_sum: Some("vllm:request_decode_time_seconds_sum"),
        spec_draft_tokens: Some(Series::single("vllm:spec_decode_num_draft_tokens_total")),
        spec_accepted_tokens: Some(Series::single("vllm:spec_decode_num_accepted_tokens_total")),
        spec_drafts: Some(Series::single("vllm:spec_decode_num_drafts_total")),
    }
}

/// The `sglang:` vocabulary.
pub fn sglang_schema() -> (schema: EngineSchema)
    ensures
        schema == sglang(),
{
    EngineSchema {
        hit_numerator: Series {
            name: "sglang:cached_tokens_total",
            aggregation: Aggregation::SumOverLabel { label: "cache_source", excluded: "total" },
        },
        hit_denominator: Series::single("sglang:prompt_tokens_total"),
        prompt_tokens: Series::single("sglang:prompt_tokens_total"),
        generation_tokens: Series::single("sglang:generation_tokens_total"),
        prefill_time_sum: None,
        decode_time_sum: None,
        spec_draft_tokens: None,
        spec_accepted_tokens: None,
        spec_drafts: None,
    }
}

/// The vocabulary that `engine` speaks.
pub open spec fn schema_of(engine: Engine) -> EngineSchema {
    match engine {
        Engine::Vllm => vllm(),
        Engine::Sglang { .. } => sglang(),
    }
}

/// How `engine` accounts the hit-rate numerator: in exact tokens only on a
/// server that pages by single tokens.
pub open spec fn accounting_of(engine: Engine) -> HitRateAccounting {
    if engine == (Engine::Sglang { page_size: 1 }) {
        HitRateAccounting::ExactTokens
    } else {
        HitRateAccounting::BlockAligned
    }
}

impl Engine {
    /// How this engine accounts the hit-rate numerator.
    pub fn accounting(self) -> (accounting: HitRateAccounting)
        ensures
            accounting == accounting_of(self),
    {
        match self {
            Engine::Vllm => HitRateAccounting::BlockAligned,
            Engine::Sglang { page_size } => {
                if page_size == 1 {
                    HitRateAccounting::ExactTokens
                } else {
                    HitRateAccounting::BlockAligned
                }
            },
        }
    }

    /// The vocabulary this engine speaks.
    pub fn schema(self) -> (schema: EngineSchema)
        ensures
            schema == schema_of(self),
    {
        match self {
            Engine::Vllm => vllm_schema(),
            Engine::Sglang { .. } => sglang_schema(),
        }
    }
}

/// The page size does not select the vocabulary.
pub proof fn law_page_size_keeps_schema(one: u32, other: u32)
    ensures
        schema_of(Engine::Sglang { page_size: one }) == schema_of(
            Engine::Sglang { page_size: other },
        ),
{
}

/// The hit-rate denominator and the prompt counter are one series exactly
/// where the engine has no separate count of queried tokens.
pub proof fn law_denominator_collides(engine: Engine)
    ensures
        schema_of(engine).hit_denominator.name@ == schema_of(engine).prompt_tokens.name@
            <==> engine is Sglang,
{
    reveal_strlit("vllm:prefix_cache_queries_total");
    reveal_strlit("vllm:prompt_tokens_total");
    assert("vllm:prefix_cache_queries_total"@.len() != "vllm:prompt_tokens_total"@.len());
}

/// Hits are counted in exact tokens by one kind of server alone, the one that
/// pages by single tokens; by every other they are cut to a boundary.
pub proof fn law_only_single_token_pages_are_exact(page_size: u32)
    ensures
        accounting_of(Engine::Vllm) is BlockAligned,
        accounting_of(Engine::Sglang { page_size }) is ExactTokens <==> page_size == 1,
{
}

} // verus!
