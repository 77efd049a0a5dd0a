//! Scraping a metrics endpoint: what to scrape, and what one answer becomes.
use core::time::Duration;
use vstd::prelude::*;
use vstd::string::*;

use crate::exposition::{
    kvcache_values, missing, parse_kvcache, parse_phase, phase_values, reads_as, require,
    MetricsError, SpecReading,
};
use crate::kvcache::{KvCacheSample, KvCacheTimeline};
use crate::period::{nanos, period_ns};
use crate::phase::{PhaseSample, PhaseTimeline};
use crate::schema::{accounting_of, schema_of, Engine};
use crate::speculative::{SpecSample, SpecTimeline};

verus! {

/// The configuration of one scraping run.
#[derive(Debug)]
pub struct MetricsConfig {
    /// The full address of the metrics endpoint.
    pub endpoint: String,
    /// The value of the `model_name` label to select.
    pub model_name: String,
    /// Which engine speaks on the endpoint.
    pub engine: Engine,
    /// The interval between scrapes.
    pub sample_period: Duration,
}

impl Clone for MetricsConfig {
    fn clone(&self) -> (config: Self)
        ensures
            config.endpoint@ == self.endpoint@,
            config.model_name@ == self.model_name@,
            config.engine == self.engine,
            config.sample_period == self.sample_period,
    {
        MetricsConfig {
            endpoint: self.endpoint.clone(),
            model_name: self.model_name.clone(),
            engine: self.engine,
            sample_period: self.sample_period,
        }
    }
}

impl MetricsConfig {
    /// The default interval between scrapes: one second.
    pub fn default_period() -> (period: Duration)
        ensures
            nanos(period) == 1_000_000_000,
    {
        Duration::from_millis(1000)
    }

    /// A configuration with the default interval.
    pub fn new(
        endpoint: impl Into<String>,
        model_name: impl Into<String>,
        engine: Engine,
    ) -> (config: Self)
        ensures
            call_ensures(<_ as Into<String>>::into, (endpoint,), config.endpoint),
            call_ensures(<_ as Into<String>>::into, (model_name,), config.model_name),
            config.engine == engine,
            nanos(config.sample_period) == 1_000_000_000,
    {
        MetricsConfig {
            endpoint: endpoint.into(),
            model_name: model_name.into(),
            engine,
            sample_period: Self::default_period(),
        }
    }

    /// A configuration with an explicit interval.
    pub fn with_period(
        endpoint: impl Into<String>,
        model_name: impl Into<String>,
        engine: Engine,
        sample_period: Duration,
    ) -> (config: Self)
        ensures
            call_ensures(<_ as Into<String>>::into, (endpoint,), config.endpoint),
            call_ensures(<_ as Into<String>>::into, (model_name,), config.model_name),
            config.engine == engine,
            config.sample_period == sample_period,
    {
        MetricsConfig {
            endpoint: endpoint.into(),
            model_name: model_name.into(),
            engine,
            sample_period,
        }
    }
}

impl MetricsConfig {
    /// The empty prefix-cache timeline of a run.
    pub fn kvcache_timeline(&self) -> (timeline: KvCacheTimeline)
        ensures
            timeline.samples@ == Seq::<KvCacheSample>::empty(),
            timeline.sample_period_ns == nanos(self.sample_period) as u64,
            timeline.accounting == Some(accounting_of(self.engine)),
    {
        KvCacheTimeline::new(period_ns(&self.sample_period), self.engine.accounting())
    }

    /// The empty phase timeline of a run.
    pub fn phase_timeline(&self) -> (timeline: PhaseTimeline)
        ensures
            timeline.samples@ == Seq::<PhaseSample>::empty(),
            timeline.sample_period_ns == nanos(self.sample_period) as u64,
    {
        PhaseTimeline::new(period_ns(&self.sample_period))
    }

    /// The empty speculation timeline of a run.
    pub fn spec_timeline(&self) -> (timeline: SpecTimeline)
        ensures
            timeline.samples@ == Seq::<SpecSample>::empty(),
            timeline.sample_period_ns == nanos(self.sample_period) as u64,
    {
        SpecTimeline::new(period_ns(&self.sample_period))
    }
}

/// Whether a status says success.
pub open spec fn is_success(status: u16) -> bool {
    200 <= status < 300
}

/// Refuses an answer whose status is no success.
pub fn check_status(status: u16) -> (r: Result<(), MetricsError>)
    ensures
        r == if is_success(status) {
            Ok(())
        } else {
            Err(MetricsError::Status { status })
        },
{
    if 200 <= status && status < 300 {
        Ok(())
    } else {
        Err(MetricsError::Status { status })
    }
}

/// The prefix-cache sample a body gives. Both counters have to be there: a
/// body without hits gives no rate, and no rate is not a rate of zero.
pub open spec fn kvcache_sample_of(
    body: Seq<char>,
    model_name: Seq<char>,
    engine: Engine,
    elapsed_ns: u64,
) -> Result<KvCacheSample, Seq<char>> {
    match kvcache_values(body, model_name, schema_of(engine)) {
        Err(words) => Err(words),
        Ok((hits, queries)) => match hits {
            Some(hits) => Ok(KvCacheSample { elapsed_ns, hits, queries }),
            None => Err(missing(schema_of(engine).hit_numerator.name@, model_name)),
        },
    }
}

/// The phase sample a body gives.
pub open spec fn phase_sample_of(
    body: Seq<char>,
    model_name: Seq<char>,
    engine: Engine,
    elapsed_ns: u64,
) -> Result<PhaseSample, Seq<char>> {
    match phase_values(body, model_name, schema_of(engine)) {
        Err(words) => Err(words),
        Ok((prompt_tokens, generation_tokens, prefill_ns, decode_ns)) => Ok(
            PhaseSample { elapsed_ns, prompt_tokens, generation_tokens, prefill_ns, decode_ns },
        ),
    }
}

impl MetricsConfig {
    /// The prefix-cache sample that a body scraped at `elapsed_ns` gives.
    pub fn kvcache_sample(&self, elapsed_ns: u64, body: &str) -> (r: Result<
        KvCacheSample,
        MetricsError,
    >)
        ensures
            reads_as(r, kvcache_sample_of(body@, self.model_name@, self.engine, elapsed_ns)),
    {
        match parse_kvcache(body, &self.model_name, self.engine) {
            Err(e) => Err(e),
            Ok((hits, queries)) => match require(
                hits,
                self.engine.schema().hit_numerator.name,
                &self.model_name,
            ) {
                Err(e) => Err(e),
                Ok(hits) => Ok(KvCacheSample { elapsed_ns, hits, queries }),
            },
        }
    }

    /// The phase sample that a body scraped at `elapsed_ns` gives.
    pub fn phase_sample(&self, elapsed_ns: u64, body: &str) -> (r: Result<
        PhaseSample,
        MetricsError,
    >)
        ensures
            reads_as(r, phase_sample_of(body@, self.model_name@, self.engine, elapsed_ns)),
    {
        match parse_phase(body, &self.model_name, self.engine) {
            Err(e) => Err(e),
            Ok((prompt_tokens, generation_tokens, prefill_ns, decode_ns)) => Ok(
                PhaseSample { elapsed_ns, prompt_tokens, generation_tokens, prefill_ns, decode_ns },
            ),
        }
    }
}

impl KvCacheTimeline {
    /// Takes up one scrape; a failed one leaves the timeline as it was.
    pub fn record(&mut self, scrape: Result<KvCacheSample, MetricsError>)
        ensures
            final(self).samples@ == match scrape {
                Ok(sample) => old(self).samples@.push(sample),
                Err(_) => old(self).samples@,
            },
            final(self).sample_period_ns == old(self).sample_period_ns,
            final(self).accounting == old(self).accounting,
    {
        match scrape {
            Ok(sample) => self.push(sample),
            Err(_) => {},
        }
    }
}

impl PhaseTimeline {
    /// Takes up one scrape; a failed one leaves the timeline as it was.
    pub fn record(&mut self, scrape: Result<PhaseSample, MetricsError>)
        ensures
            final(self).samples@ == match scrape {
                Ok(sample) => old(self).samples@.push(sample),
                Err(_) => old(self).samples@,
            },
            final(self).sample_period_ns == old(self).sample_period_ns,
    {
        match scrape {
            Ok(sample) => self.push(sample),
            Err(_) => {},
        }
    }
}

impl SpecTimeline {
    /// Takes up one scrape, if it succeeded and holds every counter.
    pub fn record(&mut self, elapsed_ns: u64, scrape: Result<SpecReading, MetricsError>)
        ensures
            final(self).samples@ == match scrape {
                Ok(SpecReading {
                    draft_tokens: Some(draft_tokens),
                    accepted_tokens: Some(accepted_tokens),
                    drafts: Some(drafts),
                }) => old(self).samples@.push(
                    SpecSample { elapsed_ns, draft_tokens, accepted_tokens, drafts },
                ),
                _ => old(self).samples@,
            },
            final(self).sample_period_ns == old(self).sample_period_ns,
    {
        match scrape {
            Ok(reading) => {
                let _kept: bool = self.push(
                    elapsed_ns,
                    reading.draft_tokens,
                    reading.accepted_tokens,
                    reading.drafts,
                );
            },
            Err(_) => {},
        }
    }
}

/// A sample carries the time of its scrape and the counters of the body, each in
/// its place; there is one exactly if the counters it needs are there.
pub proof fn law_samples_carry_the_counters(
    body: Seq<char>,
    model_name: Seq<char>,
    engine: Engine,
    elapsed_ns: u64,
)
    ensures
        ({
            let schema = schema_of(engine);
            let cache = kvcache_sample_of(body, model_name, engine, elapsed_ns);
            let phase = phase_sample_of(body, model_name, engine, elapsed_ns);
            &&& cache is Ok <==> kvcache_values(body, model_name, schema) is Ok && (kvcache_values(
                body,
                model_name,
                schema,
            )->Ok_0).0 is Some
            &&& cache matches Ok(s) ==> s.elapsed_ns == elapsed_ns && kvcache_values(
                body,
                model_name,
                schema,
            ) == Ok::<(Option<u64>, u64), Seq<char>>((Some(s.hits), s.queries))
            &&& phase is Ok <==> phase_values(body, model_name, schema) is Ok
            &&& phase matches Ok(s) ==> s.elapsed_ns == elapsed_ns && phase_values(
                body,
                model_name,
                schema,
            ) == Ok::<(u64, u64, Option<u64>, Option<u64>), Seq<char>>(
                (s.prompt_tokens, s.generation_tokens, s.prefill_ns, s.decode_ns),
            )
        }),
{
}

} // verus!
