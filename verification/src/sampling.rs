//! Sampling a process and its devices: what to sample, and what one reading
//! becomes.
use core::time::Duration;
use vstd::prelude::*;
use vstd::string::*;

use crate::gpu::{GpuSample, GpuTimeline};
use crate::period::{nanos, period_ns};
use crate::procfs::SysmonError;
use crate::resource::{ResourceSample, ResourceTimeline};

verus! {

/// The configuration of one sampling run.
#[derive(Debug, Clone, Copy)]
pub struct SysmonConfig {
    /// The process to sample.
    pub pid: u32,
    /// The interval between samples.
    pub sample_period: Duration,
    /// Whether each sample adds up the process and its direct children.
    pub include_descendants: bool,
}

impl SysmonConfig {
    /// The default interval between samples: 50 milliseconds.
    pub fn default_period() -> (period: Duration)
        ensures
            nanos(period) == 50_000_000,
    {
        Duration::from_millis(50)
    }

    /// A configuration with the default interval, without children.
    pub fn new(pid: u32) -> (config: Self)
        ensures
            config.pid == pid,
            nanos(config.sample_period) == 50_000_000,
            !config.include_descendants,
    {
        SysmonConfig { pid, sample_period: Self::default_period(), include_descendants: false }
    }

    /// A configuration with an explicit interval, without children.
    pub fn with_period(pid: u32, sample_period: Duration) -> (config: Self)
        ensures
            config == (SysmonConfig { pid, sample_period, include_descendants: false }),
    {
        SysmonConfig { pid, sample_period, include_descendants: false }
    }

    /// This configuration, with children.
    pub fn with_descendants(self) -> (config: Self)
        ensures
            config == (SysmonConfig { include_descendants: true, ..self }),
    {
        SysmonConfig {
            pid: self.pid,
            sample_period: self.sample_period,
            include_descendants: true,
        }
    }

    /// The empty process timeline of a run.
    pub fn resource_timeline(&self) -> (timeline: ResourceTimeline)
        ensures
            timeline.samples@ == Seq::<ResourceSample>::empty(),
            timeline.sample_period_ns == nanos(self.sample_period) as u64,
    {
        ResourceTimeline::new(period_ns(&self.sample_period))
    }

    /// The empty device timeline of a run.
    pub fn gpu_timeline(&self) -> (timeline: GpuTimeline)
        ensures
            timeline.samples@ == Seq::<GpuSample>::empty(),
            timeline.sample_period_ns == nanos(self.sample_period) as u64,
            timeline.energy is None,
    {
        GpuTimeline::new(period_ns(&self.sample_period))
    }
}

impl ResourceTimeline {
    /// Takes up one reading; a failed one leaves the timeline as it was.
    pub fn record(&mut self, reading: Result<ResourceSample, SysmonError>)
        ensures
            final(self).samples@ == match reading {
                Ok(sample) => old(self).samples@.push(sample),
                Err(_) => old(self).samples@,
            },
            final(self).sample_period_ns == old(self).sample_period_ns,
    {
        match reading {
            Ok(sample) => self.push(sample),
            Err(_) => {},
        }
    }
}

/// What can go wrong while opening the devices of a host.
#[derive(Debug, Clone, PartialEq, Eq)]
pub enum GpuError {
    /// The driver library could not be loaded.
    NvmlUnavailable {
        /// What the loader reported.
        details: String,
    },
    /// The driver answered a query with an error.
    DeviceQueryFailed {
        /// Which query it was.
        stage: &'static str,
        /// What the driver reported.
        details: String,
    },
}

impl GpuError {
    /// The error in words.
    pub open spec fn words(self) -> Seq<char> {
        match self {
            GpuError::NvmlUnavailable { details } => "NVML unavailable: "@ + details@,
            GpuError::DeviceQueryFailed { stage, details } => "NVML query failed during "@ + stage@
                + ": "@ + details@,
        }
    }

    /// The error in words.
    pub fn message(&self) -> (text: String)
        ensures
            text@ == self.words(),
    {
        match self {
            GpuError::NvmlUnavailable { details } => {
                let mut text: String = String::from_str("NVML unavailable: ");
                text.append(details.as_str());
                text
            },
            GpuError::DeviceQueryFailed { stage, details } => {
                let mut text: String = String::from_str("NVML query failed during ");
                text.append(stage);
                text.append(": ");
                text.append(details.as_str());
                text
            },
        }
    }
}

/// What the driver answered about the memory of a device.
#[derive(Debug, Clone, Copy, PartialEq, Eq, Structural)]
pub struct DeviceMemory {
    /// Memory in use, in bytes.
    pub used: u64,
    /// Memory capacity, in bytes.
    pub total: u64,
}

/// The sample that the answers of a device make; none where one is missing.
pub open spec fn sample_of_answers(
    elapsed_ns: u64,
    device_index: u32,
    memory: Option<DeviceMemory>,
    utilization: Option<u32>,
    temperature: Option<u32>,
    power: Option<u32>,
) -> Option<GpuSample> {
    match (memory, utilization, temperature, power) {
        (Some(memory), Some(utilization), Some(temperature), Some(power)) => Some(
            GpuSample {
                elapsed_ns,
                device_index,
                memory_used_bytes: memory.used,
                memory_total_bytes: memory.total,
                utilization_percent: if utilization > 100 {
                    100
                } else {
                    utilization as u8
                },
                temperature_celsius: temperature,
                power_draw_milliwatts: power,
            },
        ),
        _ => None::<GpuSample>,
    }
}

/// The sample that the driver's answers about one device give. One query
/// without an answer drops the whole sample: there is no sample with zeros in
/// it. Utilisation is held at a hundred percent.
pub fn device_sample(
    elapsed_ns: u64,
    device_index: u32,
    memory: Option<DeviceMemory>,
    utilization: Option<u32>,
    temperature: Option<u32>,
    power: Option<u32>,
) -> (sample: Option<GpuSample>)
    ensures
        sample == sample_of_answers(
            elapsed_ns,
            device_index,
            memory,
            utilization,
            temperature,
            power,
        ),
{
    match (memory, utilization, temperature, power) {
        (Some(memory), Some(utilization), Some(temperature), Some(power)) => {
            let utilization_percent: u8 = if utilization > 100 {
                100
            } else {
                utilization as u8
            };
            Some(
                GpuSample {
                    elapsed_ns,
                    device_index,
                    memory_used_bytes: memory.used,
                    memory_total_bytes: memory.total,
                    utilization_percent,
                    temperature_celsius: temperature,
                    power_draw_milliwatts: power,
                },
            )
        },
        _ => None,
    }
}

/// A sample holds every answer in its place, and there is none unless every
/// answer came: a missing one never reads as zero. Of utilisation, what exceeds
/// a hundred percent is left off.
pub proof fn law_samples_hold_every_answer(
    elapsed_ns: u64,
    device_index: u32,
    memory: Option<DeviceMemory>,
    utilization: Option<u32>,
    temperature: Option<u32>,
    power: Option<u32>,
)
    ensures
        ({
            let sample = sample_of_answers(
                elapsed_ns,
                device_index,
                memory,
                utilization,
                temperature,
                power,
            );
            &&& sample is None <==> memory is None || utilization is None || temperature is None
                || power is None
            &&& sample matches Some(s) ==> {
                &&& s.elapsed_ns == elapsed_ns && s.device_index == device_index
                &&& memory == Some(
                    DeviceMemory { used: s.memory_used_bytes, total: s.memory_total_bytes },
                )
                &&& temperature == Some(s.temperature_celsius)
                &&& power == Some(s.power_draw_milliwatts)
                &&& s.utilization_percent <= 100 && s.utilization_percent <= utilization->0
                &&& s.utilization_percent < 100 ==> utilization == Some(s.utilization_percent as u32)
            }
        }),
{
}

} // verus!
