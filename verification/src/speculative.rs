//! Speculative-decoding counters scraped from an engine.
//!
//! A draft token that fails verification is a forward pass that produced
//! nothing. The counters sit on the clock of the energy samples, so what the
//! rejected drafts cost can be read off by comparing times.
use vstd::prelude::*;

verus! {

/// One scrape of the speculative-decoding counters, complete or not taken.
#[derive(Debug, Clone, Copy, PartialEq, Eq, Structural)]
pub struct SpecSample {
    /// Nanoseconds from the reference instant to this scrape.
    pub elapsed_ns: u64,
    /// Draft tokens proposed so far.
    pub draft_tokens: u64,
    /// Draft tokens that survived verification so far.
    pub accepted_tokens: u64,
    /// Speculation rounds so far.
    pub drafts: u64,
}

/// The scrapes of one run, in the order they were taken. Empty where the
/// engine does not expose the family.
#[derive(Debug, Clone, PartialEq, Eq)]
pub struct SpecTimeline {
    /// The nominal scrape period in nanoseconds; informational.
    pub sample_period_ns: u64,
    /// The scrapes.
    pub samples: Vec<SpecSample>,
}

/// The sample that the counters of a scrape make, where all of them were read.
pub open spec fn complete(
    elapsed_ns: u64,
    draft_tokens: Option<u64>,
    accepted_tokens: Option<u64>,
    drafts: Option<u64>,
) -> Option<SpecSample> {
    match (draft_tokens, accepted_tokens, drafts) {
        (Some(draft_tokens), Some(accepted_tokens), Some(drafts)) => Some(
            SpecSample { elapsed_ns, draft_tokens, accepted_tokens, drafts },
        ),
        _ => None::<SpecSample>,
    }
}

/// A scrape is kept with every counter in its place, and only if every one was
/// read: an unread one never passes for zero.
pub proof fn law_scrapes_are_kept_whole(
    elapsed_ns: u64,
    draft_tokens: Option<u64>,
    accepted_tokens: Option<u64>,
    drafts: Option<u64>,
)
    ensures
        ({
            let sample = complete(elapsed_ns, draft_tokens, accepted_tokens, drafts);
            &&& sample is None <==> draft_tokens is None || accepted_tokens is None
                || drafts is None
            &&& sample matches Some(s) ==> s.elapsed_ns == elapsed_ns && draft_tokens == Some(
                s.draft_tokens,
            ) && accepted_tokens == Some(s.accepted_tokens) && drafts == Some(s.drafts)
        }),
{
}

impl SpecTimeline {
    /// An empty timeline with the given nominal period.
    pub fn new(sample_period_ns: u64) -> (timeline: Self)
        ensures
            timeline.samples@ == Seq::<SpecSample>::empty(),
            timeline.sample_period_ns == sample_period_ns,
    {
        SpecTimeline { sample_period_ns, samples: Vec::new() }
    }

    /// Records a scrape if the family was complete, and says whether it did.
    /// A partial read is dropped whole: a zero in place of an unread counter
    /// would pass for a measurement.
    pub fn push(
        &mut self,
        elapsed_ns: u64,
        draft_tokens: Option<u64>,
        accepted_tokens: Option<u64>,
        drafts: Option<u64>,
    ) -> (kept: bool)
        ensures
            kept == (complete(elapsed_ns, draft_tokens, accepted_tokens, drafts) is Some),
            final(self).samples@ == match complete(
                elapsed_ns,
                draft_tokens,
                accepted_tokens,
                drafts,
            ) {
                Some(sample) => old(self).samples@.push(sample),
                None => old(self).samples@,
            },
            final(self).sample_period_ns == old(self).sample_period_ns,
    {
        match (draft_tokens, accepted_tokens, drafts) {
            (Some(draft_tokens), Some(accepted_tokens), Some(drafts)) => {
                self.samples.push(
                    SpecSample { elapsed_ns, draft_tokens, accepted_tokens, drafts },
                );
                true
            },
            _ => false,
        }
    }

    /// Whether no scrape was kept.
    pub fn is_empty(&self) -> (b: bool)
        ensures
            b == (self.samples@.len() == 0),
    {
        self.samples.len() == 0
    }
}

} // verus!
