//! Per-phase counters scraped from an engine's metrics endpoint: prompt and
//! generation tokens, and the time spent in prefill and decode.
//!
//! The counters are cumulative. Times arrive as fractional seconds and are
//! held as integer nanoseconds, the unit of `elapsed_ns`.
use vstd::prelude::*;

verus! {

/// One scrape of the phase counters.
#[derive(Debug, Clone, Copy, PartialEq, Eq, Structural)]
pub struct PhaseSample {
    /// Nanoseconds from the reference instant to this scrape.
    pub elapsed_ns: u64,
    /// Prompt tokens processed since the engine started.
    pub prompt_tokens: u64,
    /// Generation tokens produced since the engine started.
    pub generation_tokens: u64,
    /// Nanoseconds spent in prefill since the engine started; `None` where
    /// the engine has no such counter.
    pub prefill_ns: Option<u64>,
    /// Nanoseconds spent in decode since the engine started; `None` where the
    /// engine has no such counter.
    pub decode_ns: Option<u64>,
}

/// The scrapes of one run, in the order they were taken.
#[derive(Debug, Clone, PartialEq, Eq)]
pub struct PhaseTimeline {
    /// The scrapes.
    pub samples: Vec<PhaseSample>,
    /// The nominal scrape period in nanoseconds; informational.
    pub sample_period_ns: u64,
}

impl PhaseTimeline {
    /// An empty timeline with the given nominal period.
    pub fn new(sample_period_ns: u64) -> (timeline: Self)
        ensures
            timeline.samples@ == Seq::<PhaseSample>::empty(),
            timeline.sample_period_ns == sample_period_ns,
    {
        PhaseTimeline { samples: Vec::new(), sample_period_ns }
    }

    /// The number of scrapes.
    pub fn len(&self) -> (n: usize)
        ensures
            n == self.samples@.len(),
    {
        self.samples.len()
    }

    /// Whether no scrape was taken.
    pub fn is_empty(&self) -> (b: bool)
        ensures
            b == (self.samples@.len() == 0),
    {
        self.samples.len() == 0
    }

    /// Appends a scrape; the caller keeps `elapsed_ns` in order.
    pub fn push(&mut self, sample: PhaseSample)
        ensures
            final(self).samples@ == old(self).samples@.push(sample),
            final(self).sample_period_ns == old(self).sample_period_ns,
    {
        self.samples.push(sample);
    }
}

} // verus!
