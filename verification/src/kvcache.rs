//! Prefix-cache counters scraped from an engine's metrics endpoint.
//!
//! Both counters are cumulative; the window delta and the hit rate are derived
//! from the first and the last sample of a timeline.
use vstd::prelude::*;

verus! {

/// How the engine accounts the numerator of the hit rate.
///
/// The engines do not count the same thing under the same name, and the
/// setting that decides it is not exposed by the endpoint: it is declared by
/// the caller, never inferred.
#[derive(Debug, Clone, Copy, PartialEq, Eq, Structural)]
pub enum HitRateAccounting {
    /// The numerator is cut to a block or page boundary: the rate is a lower
    /// bound.
    BlockAligned,
    /// Numerator and denominator are both exact token counts.
    ExactTokens,
}

/// One scrape of the prefix-cache counters.
#[derive(Debug, Clone, Copy, PartialEq, Eq, Structural)]
pub struct KvCacheSample {
    /// Nanoseconds from the reference instant to this scrape.
    pub elapsed_ns: u64,
    /// Prompt tokens served from cache since the engine started.
    pub hits: u64,
    /// Prompt tokens looked up since the engine started.
    pub queries: u64,
}

/// The scrapes of one run, in the order they were taken.
#[derive(Debug, Clone, PartialEq, Eq)]
pub struct KvCacheTimeline {
    /// The scrapes.
    pub samples: Vec<KvCacheSample>,
    /// The nominal scrape period in nanoseconds; informational.
    pub sample_period_ns: u64,
    /// How the engine accounts the numerator. `None` only in reports older
    /// than the field: absence is not a measurement.
    pub accounting: Option<HitRateAccounting>,
}

impl KvCacheTimeline {
    /// An empty timeline with the given nominal period and accounting.
    pub fn new(sample_period_ns: u64, accounting: HitRateAccounting) -> (timeline: Self)
        ensures
            timeline.samples@ == Seq::<KvCacheSample>::empty(),
            timeline.sample_period_ns == sample_period_ns,
            timeline.accounting == Some(accounting),
    {
        KvCacheTimeline { samples: Vec::new(), sample_period_ns, accounting: Some(accounting) }
    }

    /// The number of scrapes.
    pub fn len(&self) -> (n: usize)
        ensures
            n == self.samples@.len(),
    {
        self.samples.len()
    }

    /// Whether no scrape was taken.
    pub fn is_empty(&self) -> (b: bool)
        ensures
            b == (self.samples@.len() == 0),
    {
        self.samples.len() == 0
    }

    /// Appends a scrape; the caller keeps `elapsed_ns` in order.
    pub fn push(&mut self, sample: KvCacheSample)
        ensures
            final(self).samples@ == old(self).samples@.push(sample),
            final(self).sample_period_ns == old(self).sample_period_ns,
            final(self).accounting == old(self).accounting,
    {
        self.samples.push(sample);
    }
}

} // verus!
