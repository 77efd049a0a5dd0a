//! Raw samples of the engine process: memory, CPU time and threads, in the
//! units the kernel reports them.
use vstd::prelude::*;

verus! {

/// The state of the process at one moment.
#[derive(Debug, Clone, Copy, PartialEq, Eq, Structural)]
pub struct ResourceSample {
    /// Nanoseconds from the reference instant to this sample.
    pub elapsed_ns: u64,
    /// Resident set size in bytes.
    pub rss_bytes: u64,
    /// User-mode CPU time since the process started, in scheduler jiffies.
    pub cpu_user_jiffies: u64,
    /// Kernel-mode CPU time since the process started, in scheduler jiffies.
    pub cpu_system_jiffies: u64,
    /// Number of threads.
    pub thread_count: u32,
}

/// The samples of one run, in order of `elapsed_ns`.
#[derive(Debug, Clone, PartialEq, Eq)]
pub struct ResourceTimeline {
    /// The samples.
    pub samples: Vec<ResourceSample>,
    /// The nominal sampling period in nanoseconds; informational.
    pub sample_period_ns: u64,
}

impl ResourceTimeline {
    /// An empty timeline with the given nominal period.
    pub fn new(sample_period_ns: u64) -> (timeline: Self)
        ensures
            timeline.samples@ == Seq::<ResourceSample>::empty(),
            timeline.sample_period_ns == sample_period_ns,
    {
        ResourceTimeline { samples: Vec::new(), sample_period_ns }
    }

    /// The number of samples.
    pub fn len(&self) -> (n: usize)
        ensures
            n == self.samples@.len(),
    {
        self.samples.len()
    }

    /// Whether no sample was taken.
    pub fn is_empty(&self) -> (b: bool)
        ensures
            b == (self.samples@.len() == 0),
    {
        self.samples.len() == 0
    }

    /// Appends a sample; the caller keeps `elapsed_ns` in order.
    pub fn push(&mut self, sample: ResourceSample)
        ensures
            final(self).samples@ == old(self).samples@.push(sample),
            final(self).sample_period_ns == old(self).sample_period_ns,
    {
        self.samples.push(sample);
    }
}

} // verus!
