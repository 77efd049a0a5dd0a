//! GPU metrics of a run: aggregates over all samples, and by device.
use vstd::prelude::*;

use crate::energy::{
    integrate_power_trapezoidal, integrated_mj, law_device_samples_carry_its_index,
    lemma_device_has_samples, of_device, samples_of,
};
use crate::gpu::{
    are_devices, device_list, has_device, lemma_devices_listed, strictly_ascending, DeviceEnergy,
    EnergySource, GpuSample, GpuTimeline,
};
use crate::metrics::{GpuDeviceMetrics, GpuMetrics};
use crate::stats::{greatest, least, mean, total};

verus! {

/// Memory in use, sample by sample.
pub open spec fn memory(samples: Seq<GpuSample>) -> Seq<nat> {
    samples.map_values(|s: GpuSample| s.memory_used_bytes as nat)
}

/// Utilisation, sample by sample.
pub open spec fn utilization(samples: Seq<GpuSample>) -> Seq<nat> {
    samples.map_values(|s: GpuSample| s.utilization_percent as nat)
}

/// Temperature, sample by sample.
pub open spec fn temperature(samples: Seq<GpuSample>) -> Seq<nat> {
    samples.map_values(|s: GpuSample| s.temperature_celsius as nat)
}

/// Power draw, sample by sample.
pub open spec fn power(samples: Seq<GpuSample>) -> Seq<nat> {
    samples.map_values(|s: GpuSample| s.power_draw_milliwatts as nat)
}

/// What the samples of a device, or of all devices, come to.
#[derive(Debug, Clone, Copy, PartialEq, Eq, Structural)]
pub struct GpuStats {
    /// Number of samples.
    pub count: u32,
    /// Least memory in use.
    pub memory_min: u64,
    /// Greatest memory in use.
    pub memory_max: u64,
    /// Mean memory in use.
    pub memory_mean: u64,
    /// Memory capacity according to the first sample.
    pub memory_total: u64,
    /// Least utilisation.
    pub utilization_min: u8,
    /// Greatest utilisation.
    pub utilization_max: u8,
    /// Mean utilisation.
    pub utilization_mean: u8,
    /// Greatest temperature.
    pub temperature_max: u32,
    /// Greatest power draw.
    pub power_max: u32,
    /// Mean power draw.
    pub power_mean: u32,
}

/// Whether `stats` is what `samples` come to.
pub open spec fn are_stats(stats: GpuStats, samples: Seq<GpuSample>) -> bool {
    &&& stats.count == samples.len()
    &&& stats.memory_min == least(memory(samples))
    &&& stats.memory_max == greatest(memory(samples))
    &&& stats.memory_mean == mean(memory(samples))
    &&& stats.memory_total == samples[0].memory_total_bytes
    &&& stats.utilization_min == least(utilization(samples))
    &&& stats.utilization_max == greatest(utilization(samples))
    &&& stats.utilization_mean == mean(utilization(samples))
    &&& stats.temperature_max == greatest(temperature(samples))
    &&& stats.power_max == greatest(power(samples))
    &&& stats.power_mean == mean(power(samples))
}

/// The stats of a non-empty group of samples.
fn stats(samples: &Vec<&GpuSample>) -> (r: GpuStats)
    requires
        0 < samples@.len() <= u32::MAX,
        total(utilization(samples@.unref())) <= u32::MAX,
    ensures
        are_stats(r, samples@.unref()),
{
    let ghost all = samples@.unref();
    let n: usize = samples.len();
    let first: &GpuSample = samples[0];
    let mut memory_min: u64 = first.memory_used_bytes;
    let mut memory_max: u64 = first.memory_used_bytes;
    let mut memory_sum: u128 = first.memory_used_bytes as u128;
    let mut utilization_min: u8 = first.utilization_percent;
    let mut utilization_max: u8 = first.utilization_percent;
    let mut utilization_sum: u32 = first.utilization_percent as u32;
    let mut temperature_max: u32 = first.temperature_celsius;
    let mut power_max: u32 = first.power_draw_milliwatts;
    let mut power_sum: u64 = first.power_draw_milliwatts as u64;
    let mut i: usize = 1;
    proof {
        let head = all.take(1);
        lemma_single(memory(head));
        lemma_single(utilization(head));
        lemma_single(temperature(head));
        lemma_single(power(head));
    }
    while i < n
        invariant
            1 <= i <= n,
            n == samples@.len(),
            n <= u32::MAX,
            all == samples@.unref(),
            total(utilization(all)) <= u32::MAX,
            memory_min == least(memory(all.take(i as int))),
            memory_max == greatest(memory(all.take(i as int))),
            memory_sum == total(memory(all.take(i as int))),
            memory_sum <= i * 0xffff_ffff_ffff_ffff,
            utilization_min == least(utilization(all.take(i as int))),
            utilization_max == greatest(utilization(all.take(i as int))),
            utilization_sum == total(utilization(all.take(i as int))),
            utilization_sum <= i * 255,
            temperature_max == greatest(temperature(all.take(i as int))),
            power_max == greatest(power(all.take(i as int))),
            power_sum == total(power(all.take(i as int))),
            power_sum <= i * 0xffff_ffff,
        decreases n - i,
    {
        let s: &GpuSample = samples[i];
        proof {
            let head = all.take(i + 1);
            let prior = all.take(i as int);
            assert(memory(head).drop_last() =~= memory(prior));
            assert(utilization(head).drop_last() =~= utilization(prior));
            assert(temperature(head).drop_last() =~= temperature(prior));
            assert(power(head).drop_last() =~= power(prior));
            assert(memory(head).last() == s.memory_used_bytes);
            assert(utilization(head).last() == s.utilization_percent);
            assert(temperature(head).last() == s.temperature_celsius);
            assert(power(head).last() == s.power_draw_milliwatts);
            lemma_total_grows(utilization(all), i + 1);
            assert(utilization(all).take(i + 1) =~= utilization(head));
        }
        if s.memory_used_bytes < memory_min {
            memory_min = s.memory_used_bytes;
        }
        if s.memory_used_bytes > memory_max {
            memory_max = s.memory_used_bytes;
        }
        memory_sum = memory_sum + s.memory_used_bytes as u128;
        if s.utilization_percent < utilization_min {
            utilization_min = s.utilization_percent;
        }
        if s.utilization_percent > utilization_max {
            utilization_max = s.utilization_percent;
        }
        utilization_sum = utilization_sum + s.utilization_percent as u32;
        if s.temperature_celsius > temperature_max {
            temperature_max = s.temperature_celsius;
        }
        if s.power_draw_milliwatts > power_max {
            power_max = s.power_draw_milliwatts;
        }
        power_sum = power_sum + s.power_draw_milliwatts as u64;
        i += 1;
    }
    assert(all.take(i as int) =~= all);
    proof {
        lemma_mean_bounded(memory_sum as nat, n as nat, 0xffff_ffff_ffff_ffff);
        lemma_mean_bounded(utilization_sum as nat, n as nat, 255);
        lemma_mean_bounded(power_sum as nat, n as nat, 0xffff_ffff);
    }
    GpuStats {
        count: n as u32,
        memory_min,
        memory_max,
        memory_mean: (memory_sum / n as u128) as u64,
        memory_total: first.memory_total_bytes,
        utilization_min,
        utilization_max,
        utilization_mean: (utilization_sum / n as u32) as u8,
        temperature_max,
        power_max,
        power_mean: (power_sum / n as u64) as u32,
    }
}

proof fn lemma_single(s: Seq<nat>)
    requires
        s.len() == 1,
    ensures
        least(s) == s[0],
        greatest(s) == s[0],
        total(s) == s[0],
{
    assert(s.drop_last() =~= Seq::<nat>::empty());
    assert(total(s.drop_last()) == 0);
}

proof fn lemma_total_grows(s: Seq<nat>, n: int)
    requires
        0 <= n <= s.len(),
    ensures
        total(s.take(n)) <= total(s),
    decreases s.len(),
{
    if n == s.len() {
        assert(s.take(n) =~= s);
    } else {
        lemma_total_grows(s.drop_last(), n);
        assert(s.drop_last().take(n) =~= s.take(n));
    }
}

proof fn lemma_mean_bounded(sum: nat, n: nat, limit: nat)
    requires
        n > 0,
        sum <= n * limit,
    ensures
        sum / n <= limit,
{
    assert(sum as int / n as int <= limit) by (nonlinear_arith)
        requires
            n > 0,
            sum <= n * limit,
    ;
}

/// The samples of one device weigh no more than all of them.
proof fn lemma_device_share(samples: Seq<GpuSample>, d: u32)
    ensures
        total(utilization(of_device(samples, d))) <= total(utilization(samples)),
        of_device(samples, d).len() <= samples.len(),
    decreases samples.len(),
{
    if samples.len() > 0 {
        let rest = samples.drop_last();
        lemma_device_share(rest, d);
        assert(utilization(samples).drop_last() =~= utilization(rest));
        assert(utilization(samples).last() == samples.last().utilization_percent);
        let chosen = of_device(samples, d);
        if samples.last().device_index == d {
            assert(utilization(chosen).drop_last() =~= utilization(of_device(rest, d)));
            assert(utilization(chosen).last() == samples.last().utilization_percent);
        }
    }
}

/// References to all samples, in order.
fn all_of<'a>(samples: &'a Vec<GpuSample>) -> (refs: Vec<&'a GpuSample>)
    ensures
        refs@.unref() == samples@,
{
    let mut refs: Vec<&'a GpuSample> = Vec::new();
    let mut i: usize = 0;
    while i < samples.len()
        invariant
            i <= samples@.len(),
            refs@.unref() == samples@.take(i as int),
        decreases samples@.len() - i,
    {
        let ghost before = refs@;
        refs.push(&samples[i]);
        i += 1;
        assert(refs@.unref() =~= before.unref().push(samples@[i - 1]));
        assert(samples@.take(i as int) =~= samples@.take(i - 1).push(samples@[i - 1]));
    }
    assert(samples@.take(i as int) =~= samples@);
    refs
}

/// The counter reading of device `d`: the first one listed.
pub open spec fn counter_mj(energy: Seq<DeviceEnergy>, d: u32) -> Option<u64>
    decreases energy.len(),
{
    if energy.len() == 0 {
        None
    } else {
        match counter_mj(energy.drop_last(), d) {
            Some(mj) => Some(mj),
            None => if energy.last().device_index == d && energy.last().source
                == EnergySource::Counter {
                Some(energy.last().energy_millijoules)
            } else {
                None
            },
        }
    }
}

fn counter_reading(energy: &Vec<DeviceEnergy>, d: u32) -> (r: Option<u64>)
    ensures
        r == counter_mj(energy@, d),
{
    let mut found: Option<u64> = None;
    let mut i: usize = 0;
    while i < energy.len()
        invariant
            i <= energy@.len(),
            found == counter_mj(energy@.take(i as int), d),
        decreases energy@.len() - i,
    {
        assert(energy@.take(i + 1).drop_last() =~= energy@.take(i as int));
        let e: DeviceEnergy = energy[i];
        if found.is_none() && e.device_index == d && e.source == EnergySource::Counter {
            found = Some(e.energy_millijoules);
        }
        i += 1;
    }
    assert(energy@.take(i as int) =~= energy@);
    found
}

/// The energy of device `d` and where it comes from: its counter where there
/// is a reading, else the power samples where they give anything.
pub open spec fn device_energy(
    samples: Seq<GpuSample>,
    energy: Option<Seq<DeviceEnergy>>,
    d: u32,
) -> (Option<u64>, Option<EnergySource>) {
    let counter = match energy {
        Some(readings) => counter_mj(readings, d),
        None => None,
    };
    let integrated = integrated_mj(of_device(samples, d));
    match counter {
        Some(mj) => (Some(mj), Some(EnergySource::Counter)),
        None => if integrated > 0 {
            (Some(integrated), Some(EnergySource::IntegratedFallback))
        } else {
            (None, None)
        },
    }
}

/// The listed energy readings, if there are any.
pub open spec fn readings(timeline: GpuTimeline) -> Option<Seq<DeviceEnergy>> {
    match timeline.energy {
        Some(energy) => Some(energy@),
        None => None,
    }
}

/// The counter reading of device `d` in a run.
pub open spec fn counter_of(timeline: GpuTimeline, d: u32) -> Option<u64> {
    match readings(timeline) {
        Some(energy) => counter_mj(energy, d),
        None => None,
    }
}

/// Whether `m` describes device `d`.
pub open spec fn describes_device(
    m: GpuDeviceMetrics,
    samples: Seq<GpuSample>,
    energy: Option<Seq<DeviceEnergy>>,
    d: u32,
) -> bool {
    &&& m.device_index == d
    &&& are_stats(
        GpuStats {
            count: m.sample_count,
            memory_min: m.memory_used_min_bytes,
            memory_max: m.memory_used_max_bytes,
            memory_mean: m.memory_used_mean_bytes,
            memory_total: m.memory_total_bytes,
            utilization_min: m.utilization_min_percent,
            utilization_max: m.utilization_max_percent,
            utilization_mean: m.utilization_mean_percent,
            temperature_max: m.temperature_max_celsius,
            power_max: m.power_max_milliwatts,
            power_mean: m.power_mean_milliwatts,
        },
        of_device(samples, d),
    )
    &&& (m.energy_millijoules, m.energy_source) == device_energy(samples, energy, d)
}

/// The energies of the listed devices, added up.
pub open spec fn energy_sum(
    samples: Seq<GpuSample>,
    energy: Option<Seq<DeviceEnergy>>,
    devices: Seq<u32>,
) -> nat
    decreases devices.len(),
{
    if devices.len() == 0 {
        0
    } else {
        energy_sum(samples, energy, devices.drop_last()) + match device_energy(
            samples,
            energy,
            devices.last(),
        ).0 {
            Some(mj) => mj as nat,
            None => 0,
        }
    }
}

/// Whether one of the listed devices has an energy from the given source.
pub open spec fn some_device_from(
    samples: Seq<GpuSample>,
    energy: Option<Seq<DeviceEnergy>>,
    devices: Seq<u32>,
    source: EnergySource,
) -> bool {
    exists|i: int|
        0 <= i < devices.len() && device_energy(samples, energy, #[trigger] devices[i]).1 == Some(
            source,
        )
}

/// Whether `m` describes the run.
pub open spec fn describes_gpus(m: GpuMetrics, timeline: GpuTimeline) -> bool {
    let samples = timeline.samples@;
    let energy = readings(timeline);
    let devices = device_list(samples);
    let integrated = some_device_from(
        samples,
        energy,
        devices,
        EnergySource::IntegratedFallback,
    );
    let counted = some_device_from(samples, energy, devices, EnergySource::Counter);
    &&& are_stats(
        GpuStats {
            count: m.sample_count,
            memory_min: m.memory_used_min_bytes,
            memory_max: m.memory_used_max_bytes,
            memory_mean: m.memory_used_mean_bytes,
            memory_total: m.memory_total_bytes,
            utilization_min: m.utilization_min_percent,
            utilization_max: m.utilization_max_percent,
            utilization_mean: m.utilization_mean_percent,
            temperature_max: m.temperature_max_celsius,
            power_max: m.power_max_milliwatts,
            power_mean: m.power_mean_milliwatts,
        },
        samples,
    )
    &&& m.device_count == devices.len()
    &&& m.per_device@.len() == devices.len()
    &&& forall|i: int|
        0 <= i < devices.len() ==> describes_device(
            #[trigger] m.per_device@[i],
            samples,
            energy,
            devices[i],
        )
    &&& m.energy_millijoules == if counted || integrated {
        Some(energy_sum(samples, energy, devices) as u64)
    } else {
        None
    }
    &&& m.energy_source == if integrated {
        Some(EnergySource::IntegratedFallback)
    } else if counted {
        Some(EnergySource::Counter)
    } else {
        None
    }
}

/// A list of distinct devices is no longer than the samples.
proof fn lemma_devices_fit(samples: Seq<GpuSample>, devices: Seq<u32>)
    requires
        are_devices(devices, samples),
    ensures
        devices.len() <= samples.len(),
{
    let owners = samples.map_values(|s: GpuSample| s.device_index);
    assert(devices.no_duplicates());
    devices.unique_seq_to_set();
    vstd::seq_lib::seq_to_set_is_finite(owners);
    assert(devices.to_set().subset_of(owners.to_set())) by {
        assert forall|d: u32| devices.to_set().contains(d) implies owners.to_set().contains(
            d,
        ) by {
            assert(devices.contains(d));
            let i = choose|i: int| 0 <= i < samples.len() && (#[trigger] samples[i]).device_index == d;
            assert(owners[i] == d);
        }
    }
    vstd::set_lib::lemma_len_subset(devices.to_set(), owners.to_set());
    owners.lemma_cardinality_of_set();
}

proof fn lemma_energy_sum_grows(
    samples: Seq<GpuSample>,
    energy: Option<Seq<DeviceEnergy>>,
    devices: Seq<u32>,
    n: int,
)
    requires
        0 <= n <= devices.len(),
    ensures
        energy_sum(samples, energy, devices.take(n)) <= energy_sum(samples, energy, devices),
    decreases devices.len(),
{
    if n == devices.len() {
        assert(devices.take(n) =~= devices);
    } else {
        lemma_energy_sum_grows(samples, energy, devices.drop_last(), n);
        assert(devices.drop_last().take(n) =~= devices.take(n));
    }
}

fn device_metrics(timeline: &GpuTimeline, d: u32) -> (m: GpuDeviceMetrics)
    requires
        timeline.samples@.len() <= u32::MAX,
        total(utilization(timeline.samples@)) <= u32::MAX,
        of_device(timeline.samples@, d).len() > 0,
    ensures
        describes_device(m, timeline.samples@, readings(*timeline), d),
{
    let chosen: Vec<&GpuSample> = samples_of(&timeline.samples, d);
    proof {
        lemma_device_share(timeline.samples@, d);
    }
    let s: GpuStats = stats(&chosen);
    let counter: Option<u64> = match &timeline.energy {
        Some(energy) => counter_reading(energy, d),
        None => None,
    };
    let (energy_millijoules, energy_source): (Option<u64>, Option<EnergySource>) = match counter {
        Some(mj) => (Some(mj), Some(EnergySource::Counter)),
        None => {
            let integrated: u64 = integrate_power_trapezoidal(chosen.as_slice());
            if integrated > 0 {
                (Some(integrated), Some(EnergySource::IntegratedFallback))
            } else {
                (None, None)
            }
        },
    };
    GpuDeviceMetrics {
        device_index: d,
        sample_count: s.count,
        memory_used_min_bytes: s.memory_min,
        memory_used_max_bytes: s.memory_max,
        memory_used_mean_bytes: s.memory_mean,
        memory_total_bytes: s.memory_total,
        utilization_min_percent: s.utilization_min,
        utilization_max_percent: s.utilization_max,
        utilization_mean_percent: s.utilization_mean,
        temperature_max_celsius: s.temperature_max,
        power_max_milliwatts: s.power_max,
        power_mean_milliwatts: s.power_mean,
        energy_millijoules,
        energy_source,
    }
}

/// Whether the counts and sums of a run fit their figures.
pub open spec fn gpu_fits(timeline: GpuTimeline) -> bool {
    &&& timeline.samples@.len() <= u32::MAX
    &&& total(utilization(timeline.samples@)) <= u32::MAX
    &&& energy_sum(timeline.samples@, readings(timeline), device_list(timeline.samples@))
        <= u64::MAX
}

/// Whether the counts and sums of a run fit their figures.
pub fn can_derive_gpu(timeline: &GpuTimeline) -> (fits: bool)
    ensures
        fits == gpu_fits(*timeline),
{
    if timeline.samples.len() as u64 > u32::MAX as u64 {
        return false;
    }
    let ghost samples = timeline.samples@;
    let ghost energy = readings(*timeline);
    let mut percent: u64 = 0;
    let mut i: usize = 0;
    assert(utilization(samples).take(0) =~= Seq::empty());
    while i < timeline.samples.len()
        invariant
            i <= timeline.samples@.len() <= u32::MAX,
            samples == timeline.samples@,
            percent == total(utilization(samples).take(i as int)),
            percent <= i * 255,
        decreases timeline.samples@.len() - i,
    {
        proof {
            let now = utilization(samples).take(i + 1);
            assert(now.drop_last() =~= utilization(samples).take(i as int));
            assert(now.last() == samples[i as int].utilization_percent as nat);
        }
        percent = percent + timeline.samples[i].utilization_percent as u64;
        i += 1;
    }
    assert(utilization(samples).take(i as int) =~= utilization(samples));
    if percent > u32::MAX as u64 {
        return false;
    }
    let devices: Vec<u32> = timeline.device_indices();
    let mut sum: u64 = 0;
    let mut k: usize = 0;
    while k < devices.len()
        invariant
            k <= devices@.len(),
            samples == timeline.samples@,
            energy == readings(*timeline),
            samples.len() <= u32::MAX,
            total(utilization(samples)) <= u32::MAX,
            are_devices(devices@, samples),
            devices@ == device_list(samples),
            sum == energy_sum(samples, energy, devices@.take(k as int)),
        decreases devices@.len() - k,
    {
        let d: u32 = devices[k];
        proof {
            assert(devices@.contains(d));
            lemma_device_has_samples(samples, d);
            let head = devices@.take(k + 1);
            assert(head.drop_last() =~= devices@.take(k as int));
            assert(head.last() == d);
            lemma_energy_sum_grows(samples, energy, devices@, k + 1);
        }
        let m: GpuDeviceMetrics = device_metrics(timeline, d);
        if let Some(mj) = m.energy_millijoules {
            match sum.checked_add(mj) {
                Some(next) => {
                    sum = next;
                },
                None => {
                    return false;
                },
            }
        }
        k += 1;
    }
    assert(devices@.take(k as int) =~= devices@);
    true
}

/// Derives the GPU metrics of a run; `None` without samples.
pub fn derive_gpu(timeline: &GpuTimeline) -> (m: Option<GpuMetrics>)
    requires
        gpu_fits(*timeline),
    ensures
        m is None <==> timeline.samples@.len() == 0,
        m is Some ==> describes_gpus(m->0, *timeline),
{
    if timeline.samples.len() == 0 {
        return None;
    }
    let ghost samples = timeline.samples@;
    let ghost energy = readings(*timeline);
    let refs: Vec<&GpuSample> = all_of(&timeline.samples);
    let s: GpuStats = stats(&refs);
    let devices: Vec<u32> = timeline.device_indices();
    proof {
        lemma_devices_fit(samples, devices@);
    }
    let mut per_device: Vec<GpuDeviceMetrics> = Vec::new();
    let mut sum: u64 = 0;
    let mut counted: bool = false;
    let mut integrated: bool = false;
    let mut i: usize = 0;
    while i < devices.len()
        invariant
            i <= devices@.len(),
            samples == timeline.samples@,
            energy == readings(*timeline),
            samples.len() <= u32::MAX,
            total(utilization(samples)) <= u32::MAX,
            are_devices(devices@, samples),
            energy_sum(samples, energy, devices@) <= u64::MAX,
            per_device@.len() == i,
            forall|j: int|
                0 <= j < i ==> describes_device(
                    #[trigger] per_device@[j],
                    samples,
                    energy,
                    devices@[j],
                ),
            sum == energy_sum(samples, energy, devices@.take(i as int)),
            counted == some_device_from(
                samples,
                energy,
                devices@.take(i as int),
                EnergySource::Counter,
            ),
            integrated == some_device_from(
                samples,
                energy,
                devices@.take(i as int),
                EnergySource::IntegratedFallback,
            ),
        decreases devices@.len() - i,
    {
        let d: u32 = devices[i];
        proof {
            assert(devices@.contains(d));
            lemma_device_has_samples(samples, d);
            let head = devices@.take(i + 1);
            assert(head.drop_last() =~= devices@.take(i as int));
            assert(head.last() == d);
            assert(head =~= devices@.take(i as int).push(d));
            lemma_energy_sum_grows(samples, energy, devices@, i + 1);
            lemma_some_device(samples, energy, devices@.take(i as int), head, d);
        }
        let m: GpuDeviceMetrics = device_metrics(timeline, d);
        if let Some(mj) = m.energy_millijoules {
            sum = sum + mj;
        }
        match m.energy_source {
            Some(EnergySource::Counter) => {
                counted = true;
            },
            Some(EnergySource::IntegratedFallback) => {
                integrated = true;
            },
            None => {},
        }
        per_device.push(m);
        i += 1;
    }
    assert(devices@.take(i as int) =~= devices@);
    Some(
        GpuMetrics {
            sample_count: s.count,
            device_count: devices.len() as u32,
            memory_used_min_bytes: s.memory_min,
            memory_used_max_bytes: s.memory_max,
            memory_used_mean_bytes: s.memory_mean,
            memory_total_bytes: s.memory_total,
            utilization_min_percent: s.utilization_min,
            utilization_max_percent: s.utilization_max,
            utilization_mean_percent: s.utilization_mean,
            temperature_max_celsius: s.temperature_max,
            power_max_milliwatts: s.power_max,
            power_mean_milliwatts: s.power_mean,
            energy_millijoules: if counted || integrated {
                Some(sum)
            } else {
                None
            },
            energy_source: if integrated {
                Some(EnergySource::IntegratedFallback)
            } else if counted {
                Some(EnergySource::Counter)
            } else {
                None
            },
            per_device,
        },
    )
}

proof fn lemma_some_device(
    samples: Seq<GpuSample>,
    energy: Option<Seq<DeviceEnergy>>,
    before: Seq<u32>,
    after: Seq<u32>,
    d: u32,
)
    requires
        after == before.push(d),
    ensures
        forall|source: EnergySource| #[trigger]
            some_device_from(samples, energy, after, source) <==> (some_device_from(
                samples,
                energy,
                before,
                source,
            ) || device_energy(samples, energy, d).1 == Some(source)),
{
    assert forall|source: EnergySource| #[trigger]
        some_device_from(samples, energy, after, source) <==> (some_device_from(
        samples,
        energy,
        before,
        source,
    ) || device_energy(samples, energy, d).1 == Some(source)) by {
        if some_device_from(samples, energy, before, source) {
            let i = choose|i: int|
                0 <= i < before.len() && device_energy(
                    samples,
                    energy,
                    #[trigger] before[i],
                ).1 == Some(source);
            assert(after[i] == before[i]);
        }
        if device_energy(samples, energy, d).1 == Some(source) {
            assert(after[before.len() as int] == d);
        }
        if some_device_from(samples, energy, after, source) {
            let i = choose|i: int|
                0 <= i < after.len() && device_energy(
                    samples,
                    energy,
                    #[trigger] after[i],
                ).1 == Some(source);
            if i < before.len() {
                assert(before[i] == after[i]);
            }
        }
    }
}

/// An aggregate is never presented as counter-grade when it is partly
/// estimated, and has a source exactly when it has a figure.
pub proof fn law_weakest_link(m: GpuMetrics, timeline: GpuTimeline)
    requires
        describes_gpus(m, timeline),
    ensures
        m.energy_source is Some <==> m.energy_millijoules is Some,
        m.energy_source == Some(EnergySource::Counter) ==> forall|i: int|
            0 <= i < m.per_device@.len() ==> (
            #[trigger] m.per_device@[i]).energy_source != Some(
                EnergySource::IntegratedFallback,
            ),
        forall|i: int|
            0 <= i < m.per_device@.len() ==> ((#[trigger] m.per_device@[i]).energy_source is Some
                <==> m.per_device@[i].energy_millijoules is Some),
{
    let devices = device_list(timeline.samples@);
    assert forall|i: int| 0 <= i < m.per_device@.len() implies describes_device(
        #[trigger] m.per_device@[i],
        timeline.samples@,
        readings(timeline),
        devices[i],
    ) by {}
}

/// Of each quantity, the mean lies between the extremes.
pub proof fn law_means_between_extremes(m: GpuMetrics, timeline: GpuTimeline)
    requires
        timeline.samples@.len() > 0,
        describes_gpus(m, timeline),
    ensures
        m.memory_used_min_bytes <= m.memory_used_mean_bytes <= m.memory_used_max_bytes,
        m.utilization_min_percent <= m.utilization_mean_percent <= m.utilization_max_percent,
        m.power_mean_milliwatts <= m.power_max_milliwatts,
{
    crate::stats::lemma_extremes(memory(timeline.samples@));
    crate::stats::lemma_extremes(utilization(timeline.samples@));
    crate::stats::lemma_extremes(power(timeline.samples@));
}

/// The sample counts of devices, added up.
pub open spec fn counts(per_device: Seq<GpuDeviceMetrics>) -> nat
    decreases per_device.len(),
{
    if per_device.len() == 0 {
        0
    } else {
        counts(per_device.drop_last()) + per_device.last().sample_count as nat
    }
}

/// The lengths of the parts of `samples` that belong to the listed devices,
/// added up.
spec fn lengths(samples: Seq<GpuSample>, devices: Seq<u32>) -> nat
    decreases devices.len(),
{
    if devices.len() == 0 {
        0
    } else {
        lengths(samples, devices.drop_last()) + of_device(samples, devices.last()).len()
    }
}

proof fn lemma_lengths_grow(samples: Seq<GpuSample>, devices: Seq<u32>)
    requires
        samples.len() > 0,
        strictly_ascending(devices),
    ensures
        lengths(samples, devices) == lengths(samples.drop_last(), devices) + if devices.contains(
            samples.last().device_index,
        ) {
            1nat
        } else {
            0nat
        },
    decreases devices.len(),
{
    if devices.len() > 0 {
        let d = samples.last().device_index;
        let fewer = devices.drop_last();
        lemma_lengths_grow(samples, fewer);
        assert(devices =~= fewer.push(devices.last()));
        if devices.last() == d {
            assert(devices[devices.len() - 1] == d);
            assert forall|i: int| 0 <= i < fewer.len() implies #[trigger] fewer[i] != d by {
                assert(devices[i] < devices[devices.len() - 1]);
            }
        } else if devices.contains(d) {
            let i = choose|i: int| 0 <= i < devices.len() && devices[i] == d;
            assert(fewer[i] == d);
        } else if fewer.contains(d) {
            let i = choose|i: int| 0 <= i < fewer.len() && fewer[i] == d;
            assert(devices[i] == d);
        }
    }
}

proof fn lemma_no_lengths(samples: Seq<GpuSample>, devices: Seq<u32>)
    requires
        samples.len() == 0,
    ensures
        lengths(samples, devices) == 0,
    decreases devices.len(),
{
    if devices.len() > 0 {
        lemma_no_lengths(samples, devices.drop_last());
    }
}

proof fn lemma_lengths_complete(samples: Seq<GpuSample>, devices: Seq<u32>)
    requires
        strictly_ascending(devices),
        forall|i: int|
            0 <= i < samples.len() ==> devices.contains((#[trigger] samples[i]).device_index),
    ensures
        lengths(samples, devices) == samples.len(),
    decreases samples.len(),
{
    if samples.len() == 0 {
        lemma_no_lengths(samples, devices);
    } else {
        lemma_lengths_grow(samples, devices);
        assert(devices.contains(samples[samples.len() - 1].device_index));
        assert forall|i: int| 0 <= i < samples.drop_last().len() implies devices.contains(
            (#[trigger] samples.drop_last()[i]).device_index,
        ) by {
            assert(samples.drop_last()[i] == samples[i]);
        }
        lemma_lengths_complete(samples.drop_last(), devices);
    }
}

proof fn lemma_counts_are_lengths(
    per_device: Seq<GpuDeviceMetrics>,
    samples: Seq<GpuSample>,
    energy: Option<Seq<DeviceEnergy>>,
    devices: Seq<u32>,
)
    requires
        per_device.len() == devices.len(),
        forall|i: int|
            0 <= i < devices.len() ==> describes_device(
                #[trigger] per_device[i],
                samples,
                energy,
                devices[i],
            ),
    ensures
        counts(per_device) == lengths(samples, devices),
    decreases devices.len(),
{
    if devices.len() > 0 {
        let n = devices.len() - 1;
        assert(describes_device(per_device[n], samples, energy, devices[n]));
        assert forall|i: int| 0 <= i < n implies describes_device(
            #[trigger] per_device.drop_last()[i],
            samples,
            energy,
            devices.drop_last()[i],
        ) by {
            assert(per_device.drop_last()[i] == per_device[i]);
        }
        lemma_counts_are_lengths(per_device.drop_last(), samples, energy, devices.drop_last());
    }
}

/// The breakdown by device leaves no sample out and counts none twice.
pub proof fn law_devices_partition_samples(m: GpuMetrics, timeline: GpuTimeline)
    requires
        describes_gpus(m, timeline),
    ensures
        counts(m.per_device@) == m.sample_count,
{
    let samples = timeline.samples@;
    let devices = device_list(samples);
    lemma_devices_listed(samples);
    assert forall|i: int| 0 <= i < samples.len() implies devices.contains(
        (#[trigger] samples[i]).device_index,
    ) by {
        assert(has_device(samples, samples[i].device_index));
    }
    lemma_lengths_complete(samples, devices);
    lemma_counts_are_lengths(m.per_device@, samples, readings(timeline), devices);
}

/// The figures of a device rest on its own samples and its own counter: two
/// runs that agree on those agree on the device, whatever the others did.
pub proof fn law_devices_stand_alone(
    m: GpuMetrics,
    timeline: GpuTimeline,
    n: GpuMetrics,
    other: GpuTimeline,
    i: int,
    j: int,
    d: u32,
)
    requires
        describes_gpus(m, timeline),
        describes_gpus(n, other),
        0 <= i < m.per_device@.len(),
        0 <= j < n.per_device@.len(),
        m.per_device@[i].device_index == d,
        n.per_device@[j].device_index == d,
        of_device(timeline.samples@, d) == of_device(other.samples@, d),
        counter_of(timeline, d) == counter_of(other, d),
    ensures
        m.per_device@[i] == n.per_device@[j],
{
    assert(device_list(timeline.samples@)[i] == d);
    assert(device_list(other.samples@)[j] == d);
}

/// Whether `x` is a figure of one of the samples, and none has less.
pub open spec fn is_low_of(
    samples: Seq<GpuSample>,
    figure: spec_fn(GpuSample) -> nat,
    x: nat,
) -> bool {
    &&& exists|i: int| 0 <= i < samples.len() && figure(#[trigger] samples[i]) == x
    &&& forall|i: int| 0 <= i < samples.len() ==> x <= figure(#[trigger] samples[i])
}

/// Whether `x` is a figure of one of the samples, and none has more.
pub open spec fn is_high_of(
    samples: Seq<GpuSample>,
    figure: spec_fn(GpuSample) -> nat,
    x: nat,
) -> bool {
    &&& exists|i: int| 0 <= i < samples.len() && figure(#[trigger] samples[i]) == x
    &&& forall|i: int| 0 <= i < samples.len() ==> figure(#[trigger] samples[i]) <= x
}

/// Whether `x` times the number of samples is the total of a figure over them,
/// less than one per sample apart.
pub open spec fn is_mean_of(
    samples: Seq<GpuSample>,
    figure: spec_fn(GpuSample) -> nat,
    x: nat,
) -> bool {
    x * samples.len() <= total(samples.map_values(figure)) < (x + 1) * samples.len()
}

proof fn lemma_figures(samples: Seq<GpuSample>, figure: spec_fn(GpuSample) -> nat)
    requires
        samples.len() > 0,
    ensures
        is_low_of(samples, figure, least(samples.map_values(figure))),
        is_high_of(samples, figure, greatest(samples.map_values(figure))),
        is_mean_of(samples, figure, mean(samples.map_values(figure))),
{
    let all = samples.map_values(figure);
    crate::stats::lemma_extremes(all);
    crate::stats::law_mean_spreads_the_total(all, 0, 0);
    let a = choose|i: int| 0 <= i < all.len() && all[i] == least(all);
    let b = choose|i: int| 0 <= i < all.len() && all[i] == greatest(all);
    assert(figure(samples[a]) == least(all));
    assert(figure(samples[b]) == greatest(all));
    assert forall|i: int| 0 <= i < samples.len() implies least(all) <= figure(#[trigger] samples[i])
        <= greatest(all) by {
        assert(all[i] == figure(samples[i]));
    }
}

proof fn lemma_all_figures(samples: Seq<GpuSample>)
    requires
        samples.len() > 0,
    ensures
        is_low_of(samples, |s: GpuSample| s.memory_used_bytes as nat, least(memory(samples))),
        is_high_of(samples, |s: GpuSample| s.memory_used_bytes as nat, greatest(memory(samples))),
        is_mean_of(samples, |s: GpuSample| s.memory_used_bytes as nat, mean(memory(samples))),
        is_low_of(samples, |s: GpuSample| s.utilization_percent as nat, least(utilization(samples))),
        is_high_of(
            samples,
            |s: GpuSample| s.utilization_percent as nat,
            greatest(utilization(samples)),
        ),
        is_mean_of(samples, |s: GpuSample| s.utilization_percent as nat, mean(utilization(samples))),
        is_high_of(
            samples,
            |s: GpuSample| s.temperature_celsius as nat,
            greatest(temperature(samples)),
        ),
        is_high_of(samples, |s: GpuSample| s.power_draw_milliwatts as nat, greatest(power(samples))),
        is_mean_of(samples, |s: GpuSample| s.power_draw_milliwatts as nat, mean(power(samples))),
{
    lemma_figures(samples, |s: GpuSample| s.memory_used_bytes as nat);
    lemma_figures(samples, |s: GpuSample| s.utilization_percent as nat);
    lemma_figures(samples, |s: GpuSample| s.temperature_celsius as nat);
    lemma_figures(samples, |s: GpuSample| s.power_draw_milliwatts as nat);
}

/// Each extreme of a run is reached by a sample and passed by none, and each
/// mean spreads the total over the samples.
pub proof fn law_run_figures_are_of_the_samples(m: GpuMetrics, timeline: GpuTimeline)
    requires
        timeline.samples@.len() > 0,
        describes_gpus(m, timeline),
    ensures
        ({
            let samples = timeline.samples@;
            &&& is_low_of(samples, |s: GpuSample| s.memory_used_bytes as nat, m.memory_used_min_bytes as nat)
            &&& is_high_of(samples, |s: GpuSample| s.memory_used_bytes as nat, m.memory_used_max_bytes as nat)
            &&& is_mean_of(samples, |s: GpuSample| s.memory_used_bytes as nat, m.memory_used_mean_bytes as nat)
            &&& is_low_of(samples, |s: GpuSample| s.utilization_percent as nat, m.utilization_min_percent as nat)
            &&& is_high_of(samples, |s: GpuSample| s.utilization_percent as nat, m.utilization_max_percent as nat)
            &&& is_mean_of(samples, |s: GpuSample| s.utilization_percent as nat, m.utilization_mean_percent as nat)
            &&& is_high_of(samples, |s: GpuSample| s.temperature_celsius as nat, m.temperature_max_celsius as nat)
            &&& is_high_of(samples, |s: GpuSample| s.power_draw_milliwatts as nat, m.power_max_milliwatts as nat)
            &&& is_mean_of(samples, |s: GpuSample| s.power_draw_milliwatts as nat, m.power_mean_milliwatts as nat)
            &&& m.memory_total_bytes == samples[0].memory_total_bytes
            &&& m.sample_count == samples.len()
        }),
{
    lemma_all_figures(timeline.samples@);
}

/// Each device has an entry, in ascending order, and its figures are of the
/// samples that carry its index: each extreme is reached by one of them and
/// passed by none, and each mean spreads the total over them.
pub proof fn law_device_figures_are_of_its_samples(m: GpuMetrics, timeline: GpuTimeline, i: int)
    requires
        describes_gpus(m, timeline),
        0 <= i < m.per_device@.len(),
    ensures
        m.device_count == m.per_device@.len(),
        forall|a: int, b: int|
            0 <= a < b < m.per_device@.len() ==> (#[trigger] m.per_device@[a]).device_index < (
            #[trigger] m.per_device@[b]).device_index,
        forall|k: int|
            0 <= k < timeline.samples@.len() ==> exists|a: int|
                0 <= a < m.per_device@.len() && (#[trigger] m.per_device@[a]).device_index == (
                #[trigger] timeline.samples@[k]).device_index,
        ({
            let d = m.per_device@[i];
            let samples = timeline.samples@.filter(
                |s: GpuSample| s.device_index == d.device_index,
            );
            &&& samples.len() > 0
            &&& is_low_of(samples, |s: GpuSample| s.memory_used_bytes as nat, d.memory_used_min_bytes as nat)
            &&& is_high_of(samples, |s: GpuSample| s.memory_used_bytes as nat, d.memory_used_max_bytes as nat)
            &&& is_mean_of(samples, |s: GpuSample| s.memory_used_bytes as nat, d.memory_used_mean_bytes as nat)
            &&& is_low_of(samples, |s: GpuSample| s.utilization_percent as nat, d.utilization_min_percent as nat)
            &&& is_high_of(samples, |s: GpuSample| s.utilization_percent as nat, d.utilization_max_percent as nat)
            &&& is_mean_of(samples, |s: GpuSample| s.utilization_percent as nat, d.utilization_mean_percent as nat)
            &&& is_high_of(samples, |s: GpuSample| s.temperature_celsius as nat, d.temperature_max_celsius as nat)
            &&& is_high_of(samples, |s: GpuSample| s.power_draw_milliwatts as nat, d.power_max_milliwatts as nat)
            &&& is_mean_of(samples, |s: GpuSample| s.power_draw_milliwatts as nat, d.power_mean_milliwatts as nat)
            &&& d.memory_total_bytes == samples[0].memory_total_bytes
            &&& d.sample_count == samples.len()
        }),
{
    let all = timeline.samples@;
    let devices = device_list(all);
    let d = m.per_device@[i];
    lemma_devices_listed(all);
    assert(describes_device(m.per_device@[i], all, readings(timeline), devices[i]));
    assert(devices.contains(devices[i]));
    lemma_device_has_samples(all, d.device_index);
    law_device_samples_carry_its_index(all, d.device_index);
    lemma_all_figures(of_device(all, d.device_index));
    assert forall|a: int, b: int| 0 <= a < b < m.per_device@.len() implies (
    #[trigger] m.per_device@[a]).device_index < (#[trigger] m.per_device@[b]).device_index by {
        assert(describes_device(m.per_device@[a], all, readings(timeline), devices[a]));
        assert(describes_device(m.per_device@[b], all, readings(timeline), devices[b]));
    }
    assert forall|k: int| 0 <= k < all.len() implies exists|a: int|
        0 <= a < m.per_device@.len() && (#[trigger] m.per_device@[a]).device_index == (
        #[trigger] all[k]).device_index by {
        assert(has_device(all, all[k].device_index));
        assert(devices.contains(all[k].device_index));
        let a = choose|a: int| 0 <= a < devices.len() && devices[a] == all[k].device_index;
        assert(describes_device(m.per_device@[a], all, readings(timeline), devices[a]));
    }
}

/// Whether a reading is one of the counter of device `d`.
pub open spec fn is_counter_of(reading: DeviceEnergy, d: u32) -> bool {
    reading.device_index == d && reading.source is Counter
}

/// The energy of a device is its counter's where a counter was read: the first
/// reading if there are several, whatever the power samples say.
pub proof fn law_counter_comes_before_power(
    m: GpuMetrics,
    timeline: GpuTimeline,
    energy: Seq<DeviceEnergy>,
    i: int,
    k: int,
)
    requires
        describes_gpus(m, timeline),
        timeline.energy is Some,
        energy == timeline.energy->0@,
        0 <= i < m.per_device@.len(),
        0 <= k < energy.len(),
        is_counter_of(energy[k], m.per_device@[i].device_index),
        forall|j: int|
            0 <= j < k ==> !#[trigger] is_counter_of(energy[j], m.per_device@[i].device_index),
    ensures
        m.per_device@[i].energy_millijoules == Some(energy[k].energy_millijoules),
        m.per_device@[i].energy_source == Some(EnergySource::Counter),
{
    let all = timeline.samples@;
    assert(describes_device(m.per_device@[i], all, readings(timeline), device_list(all)[i]));
    lemma_first_counter(energy, m.per_device@[i].device_index, k);
}

/// Where no counter of a device was read, its energy is the area under its own
/// power samples, marked as such, and absent where that is nothing.
pub proof fn law_power_stands_in_for_the_counter(m: GpuMetrics, timeline: GpuTimeline, i: int)
    requires
        describes_gpus(m, timeline),
        0 <= i < m.per_device@.len(),
        timeline.energy is Some ==> forall|j: int|
            0 <= j < timeline.energy->0@.len() ==> !#[trigger] is_counter_of(
                timeline.energy->0@[j],
                m.per_device@[i].device_index,
            ),
    ensures
        ({
            let d = m.per_device@[i];
            let own = timeline.samples@.filter(|s: GpuSample| s.device_index == d.device_index);
            let mj = integrated_mj(own);
            &&& mj > 0 ==> d.energy_millijoules == Some(mj) && d.energy_source == Some(
                EnergySource::IntegratedFallback,
            )
            &&& mj == 0 ==> d.energy_millijoules is None && d.energy_source is None
        }),
{
    let all = timeline.samples@;
    let d = m.per_device@[i].device_index;
    assert(describes_device(m.per_device@[i], all, readings(timeline), device_list(all)[i]));
    law_device_samples_carry_its_index(all, d);
    if timeline.energy is Some {
        lemma_no_counter(timeline.energy->0@, d);
    }
}

proof fn lemma_first_counter(energy: Seq<DeviceEnergy>, d: u32, k: int)
    requires
        0 <= k < energy.len(),
        is_counter_of(energy[k], d),
        forall|j: int| 0 <= j < k ==> !#[trigger] is_counter_of(energy[j], d),
    ensures
        counter_mj(energy, d) == Some(energy[k].energy_millijoules),
    decreases energy.len(),
{
    let rest = energy.drop_last();
    if k == energy.len() - 1 {
        assert forall|j: int| 0 <= j < rest.len() implies !#[trigger] is_counter_of(
            rest[j],
            d,
        ) by {
            assert(is_counter_of(rest[j], d) == is_counter_of(energy[j], d));
        }
        lemma_no_counter(rest, d);
    } else {
        assert forall|j: int| 0 <= j < k implies !#[trigger] is_counter_of(rest[j], d) by {
            assert(is_counter_of(rest[j], d) == is_counter_of(energy[j], d));
        }
        lemma_first_counter(rest, d, k);
    }
}

proof fn lemma_no_counter(energy: Seq<DeviceEnergy>, d: u32)
    requires
        forall|j: int| 0 <= j < energy.len() ==> !#[trigger] is_counter_of(energy[j], d),
    ensures
        counter_mj(energy, d) is None,
    decreases energy.len(),
{
    if energy.len() > 0 {
        let rest = energy.drop_last();
        assert forall|j: int| 0 <= j < rest.len() implies !#[trigger] is_counter_of(
            rest[j],
            d,
        ) by {
            assert(is_counter_of(rest[j], d) == is_counter_of(energy[j], d));
        }
        lemma_no_counter(rest, d);
        assert(!is_counter_of(energy[energy.len() - 1], d));
    }
}

/// The energy of a run is the sum of the energies its devices have; there is
/// one exactly if a device has one.
pub proof fn law_run_energy_is_the_sum_of_devices(m: GpuMetrics, timeline: GpuTimeline)
    requires
        describes_gpus(m, timeline),
        gpu_fits(timeline),
    ensures
        m.energy_millijoules is Some <==> exists|i: int|
            0 <= i < m.per_device@.len() && (#[trigger] m.per_device@[i]).energy_millijoules is Some,
        m.energy_millijoules is Some ==> m.energy_millijoules->0 == total(
            m.per_device@.map_values(
                |d: GpuDeviceMetrics|
                    match d.energy_millijoules {
                        Some(mj) => mj as nat,
                        None => 0,
                    },
            ),
        ),
        m.energy_source == Some(EnergySource::Counter) <==> m.energy_millijoules is Some && forall|
            i: int,
        |
            0 <= i < m.per_device@.len() ==> (#[trigger] m.per_device@[i]).energy_source != Some(
                EnergySource::IntegratedFallback,
            ),
{
    let all = timeline.samples@;
    let energy = readings(timeline);
    let devices = device_list(all);
    assert forall|i: int| 0 <= i < m.per_device@.len() implies (#[trigger] m.per_device@[i])
        .energy_millijoules == device_energy(all, energy, devices[i]).0
        && m.per_device@[i].energy_source == device_energy(all, energy, devices[i]).1 by {
        assert(describes_device(m.per_device@[i], all, energy, devices[i]));
    }
    if m.energy_millijoules is Some {
        let counted = some_device_from(all, energy, devices, EnergySource::Counter);
        let source = if counted {
            EnergySource::Counter
        } else {
            EnergySource::IntegratedFallback
        };
        let i = choose|i: int|
            0 <= i < devices.len() && device_energy(all, energy, #[trigger] devices[i]).1 == Some(
                source,
            );
        assert(m.per_device@[i].energy_millijoules is Some);
    }
    if exists|i: int|
        0 <= i < m.per_device@.len() && (#[trigger] m.per_device@[i]).energy_millijoules is Some {
        let i = choose|i: int|
            0 <= i < m.per_device@.len() && (#[trigger] m.per_device@[i]).energy_millijoules is Some;
        assert(device_energy(all, energy, devices[i]).1 is Some);
    }
    if some_device_from(all, energy, devices, EnergySource::IntegratedFallback) {
        let i = choose|i: int|
            0 <= i < devices.len() && device_energy(all, energy, #[trigger] devices[i]).1 == Some(
                EnergySource::IntegratedFallback,
            );
        assert(m.per_device@[i].energy_source == Some(EnergySource::IntegratedFallback));
    }
    lemma_energy_sum(m.per_device@, all, energy, devices);
}

proof fn lemma_energy_sum(
    per_device: Seq<GpuDeviceMetrics>,
    samples: Seq<GpuSample>,
    energy: Option<Seq<DeviceEnergy>>,
    devices: Seq<u32>,
)
    requires
        per_device.len() == devices.len(),
        forall|i: int|
            0 <= i < devices.len() ==> (#[trigger] per_device[i]).energy_millijoules
                == device_energy(samples, energy, devices[i]).0,
    ensures
        energy_sum(samples, energy, devices) == total(
            per_device.map_values(
                |d: GpuDeviceMetrics|
                    match d.energy_millijoules {
                        Some(mj) => mj as nat,
                        None => 0,
                    },
            ),
        ),
    decreases devices.len(),
{
    if devices.len() > 0 {
        let own = |d: GpuDeviceMetrics|
            match d.energy_millijoules {
                Some(mj) => mj as nat,
                None => 0,
            };
        let rest = per_device.drop_last();
        assert forall|i: int| 0 <= i < rest.len() implies (#[trigger] rest[i]).energy_millijoules
            == device_energy(samples, energy, devices.drop_last()[i]).0 by {
            assert(rest[i] == per_device[i]);
        }
        lemma_energy_sum(rest, samples, energy, devices.drop_last());
        assert(per_device.map_values(own).drop_last() =~= rest.map_values(own));
        assert(per_device[devices.len() - 1].energy_millijoules == device_energy(
            samples,
            energy,
            devices.last(),
        ).0);
    }
}

} // verus!
