//! Raw GPU samples: memory, utilisation, temperature and power, in the integer
//! units the driver exposes.
use vstd::prelude::*;

verus! {

/// Where an energy figure came from.
#[derive(Debug, Clone, Copy, PartialEq, Eq, Structural)]
pub enum EnergySource {
    /// Delta of the hardware energy counter over the window.
    Counter,
    /// Trapezoidal integral of the power samples: second best.
    IntegratedFallback,
}

/// Energy consumed by one device over the measurement window.
#[derive(Debug, Clone, Copy, PartialEq, Eq, Structural)]
pub struct DeviceEnergy {
    /// Index of the device on the host.
    pub device_index: u32,
    /// Energy over the window, in millijoules.
    pub energy_millijoules: u64,
    /// How the figure was obtained.
    pub source: EnergySource,
}

/// The state of one device at one moment.
#[derive(Debug, Clone, Copy, PartialEq, Eq, Structural)]
pub struct GpuSample {
    /// Nanoseconds from the reference instant to this sample.
    pub elapsed_ns: u64,
    /// Index of the device on the host.
    pub device_index: u32,
    /// Memory in use, in bytes.
    pub memory_used_bytes: u64,
    /// Memory capacity, in bytes.
    pub memory_total_bytes: u64,
    /// Utilisation in percent.
    pub utilization_percent: u8,
    /// Temperature in degrees Celsius.
    pub temperature_celsius: u32,
    /// Power draw in milliwatts.
    pub power_draw_milliwatts: u32,
}

/// The samples of one run, in the order they were taken: on a host with
/// several devices, one sample per device per tick.
#[derive(Debug, Clone, PartialEq, Eq)]
pub struct GpuTimeline {
    /// The samples.
    pub samples: Vec<GpuSample>,
    /// The nominal sampling period in nanoseconds; informational.
    pub sample_period_ns: u64,
    /// Energy per device over the window; `None` when none was measured.
    pub energy: Option<Vec<DeviceEnergy>>,
}

/// Whether some sample belongs to device `d`.
pub open spec fn has_device(samples: Seq<GpuSample>, d: u32) -> bool {
    exists|i: int| 0 <= i < samples.len() && (#[trigger] samples[i]).device_index == d
}

/// Whether every element is greater than those before it.
pub open spec fn strictly_ascending(s: Seq<u32>) -> bool {
    forall|i: int, j: int| 0 <= i < j < s.len() ==> s[i] < s[j]
}

/// Whether `devices` are the devices of `samples`: each once, in ascending
/// order, and no other.
pub open spec fn are_devices(devices: Seq<u32>, samples: Seq<GpuSample>) -> bool {
    &&& strictly_ascending(devices)
    &&& forall|d: u32| #[trigger] devices.contains(d) <==> has_device(samples, d)
}

/// The devices of `samples`, in ascending order.
pub open spec fn device_list(samples: Seq<GpuSample>) -> Seq<u32> {
    choose|devices: Seq<u32>| are_devices(devices, samples)
}

/// Where `d` belongs in an ascending list that does not hold it.
proof fn lemma_place(devices: Seq<u32>, d: u32) -> (p: int)
    requires
        strictly_ascending(devices),
        !devices.contains(d),
    ensures
        0 <= p <= devices.len(),
        forall|i: int| 0 <= i < p ==> devices[i] < d,
        forall|i: int| p <= i < devices.len() ==> devices[i] > d,
    decreases devices.len(),
{
    if devices.len() == 0 || devices.last() < d {
        devices.len() as int
    } else {
        assert(devices[devices.len() - 1] != d);
        assert(forall|i: int| 0 <= i < devices.len() - 1 ==> devices.drop_last()[i] == devices[i]);
        assert(!devices.drop_last().contains(d));
        lemma_place(devices.drop_last(), d)
    }
}

/// The devices of any samples can be listed.
pub proof fn lemma_devices_listed(samples: Seq<GpuSample>)
    ensures
        are_devices(device_list(samples), samples),
    decreases samples.len(),
{
    if samples.len() == 0 {
        assert(are_devices(Seq::empty(), samples));
    } else {
        let rest = samples.drop_last();
        let d = samples.last().device_index;
        lemma_devices_listed(rest);
        let listed = device_list(rest);
        assert forall|x: u32| has_device(samples, x) <==> has_device(rest, x) || x == d by {
            if has_device(rest, x) {
                let i = choose|i: int| 0 <= i < rest.len() && (#[trigger] rest[i]).device_index == x;
                assert(samples[i].device_index == x);
            }
            if x == d {
                assert(samples[samples.len() - 1].device_index == x);
            }
            if has_device(samples, x) && x != d {
                let i = choose|i: int|
                    0 <= i < samples.len() && (#[trigger] samples[i]).device_index == x;
                assert(rest[i].device_index == x);
            }
        }
        if listed.contains(d) {
            assert(are_devices(listed, samples));
        } else {
            let p = lemma_place(listed, d);
            let devices = listed.insert(p, d);
            assert forall|x: u32| #[trigger] devices.contains(x) <==> has_device(samples, x) by {
                if devices.contains(x) && x != d {
                    let i = choose|i: int| 0 <= i < devices.len() && devices[i] == x;
                    assert(listed[if i < p {
                        i
                    } else {
                        i - 1
                    }] == x);
                    assert(listed.contains(x));
                }
                if listed.contains(x) {
                    let i = choose|i: int| 0 <= i < listed.len() && listed[i] == x;
                    assert(devices[if i < p {
                        i
                    } else {
                        i + 1
                    }] == x);
                }
                assert(devices[p] == d);
            }
            assert(are_devices(devices, samples));
        }
    }
}

/// There is one way to list the devices of a timeline.
pub proof fn lemma_device_list(devices: Seq<u32>, samples: Seq<GpuSample>)
    requires
        are_devices(devices, samples),
    ensures
        devices == device_list(samples),
{
    let chosen = device_list(samples);
    assert forall|d: u32| devices.contains(d) <==> #[trigger] chosen.contains(d) by {
        assert(devices.contains(d) <==> has_device(samples, d));
    }
    lemma_ascending_unique(devices, chosen);
}

proof fn lemma_ascending_unique(a: Seq<u32>, b: Seq<u32>)
    requires
        strictly_ascending(a),
        strictly_ascending(b),
        forall|d: u32| a.contains(d) <==> #[trigger] b.contains(d),
    ensures
        a == b,
    decreases a.len(),
{
    if a.len() == 0 {
        if b.len() > 0 {
            assert(b.contains(b[0]));
        }
        assert(a =~= b);
    } else {
        assert(a.contains(a.last()));
        assert(b.contains(a.last()));
        assert(b.len() > 0);
        assert(b.contains(b.last()));
        assert(a.contains(b.last()));
        assert(a.last() == b.last());
        let x = a.drop_last();
        let y = b.drop_last();
        assert forall|d: u32| x.contains(d) <==> #[trigger] y.contains(d) by {
            if x.contains(d) {
                let i = choose|i: int| 0 <= i < x.len() && x[i] == d;
                assert(a[i] == d && a[i] < a[a.len() - 1]);
                assert(a.contains(d));
                assert(b.contains(d));
                let j = choose|j: int| 0 <= j < b.len() && b[j] == d;
                assert(y[j] == d);
            }
            if y.contains(d) {
                let i = choose|i: int| 0 <= i < y.len() && y[i] == d;
                assert(b[i] == d && b[i] < b[b.len() - 1]);
                assert(b.contains(d));
                assert(a.contains(d));
                let j = choose|j: int| 0 <= j < a.len() && a[j] == d;
                assert(x[j] == d);
            }
        }
        lemma_ascending_unique(x, y);
        assert(a =~= x.push(a.last()));
        assert(b =~= y.push(b.last()));
    }
}

impl GpuTimeline {
    /// An empty timeline with the given nominal period.
    pub fn new(sample_period_ns: u64) -> (timeline: Self)
        ensures
            timeline.samples@ == Seq::<GpuSample>::empty(),
            timeline.sample_period_ns == sample_period_ns,
            timeline.energy is None,
    {
        GpuTimeline { samples: Vec::new(), sample_period_ns, energy: None }
    }

    /// The number of samples over all devices.
    pub fn len(&self) -> (n: usize)
        ensures
            n == self.samples@.len(),
    {
        self.samples.len()
    }

    /// Whether no sample was taken.
    pub fn is_empty(&self) -> (b: bool)
        ensures
            b == (self.samples@.len() == 0),
    {
        self.samples.len() == 0
    }

    /// Appends a sample; the caller keeps `elapsed_ns` in order.
    pub fn push(&mut self, sample: GpuSample)
        ensures
            final(self).samples@ == old(self).samples@.push(sample),
            final(self).sample_period_ns == old(self).sample_period_ns,
            final(self).energy == old(self).energy,
    {
        self.samples.push(sample);
    }

    /// The distinct device indices in the timeline, in ascending order.
    pub fn device_indices(&self) -> (indices: Vec<u32>)
        ensures
            are_devices(indices@, self.samples@),
            indices@ == device_list(self.samples@),
    {
        let mut indices: Vec<u32> = Vec::new();
        let mut i: usize = 0;
        while i < self.samples.len()
            invariant
                i <= self.samples@.len(),
                are_devices(indices@, self.samples@.take(i as int)),
            decreases self.samples@.len() - i,
        {
            let d: u32 = self.samples[i].device_index;
            let ghost seen = self.samples@.take(i as int);
            let ghost now = self.samples@.take(i + 1);
            proof {
                assert forall|x: u32| #[trigger] has_device(now, x) <==> (has_device(seen, x) || x
                    == d) by {
                    if has_device(seen, x) {
                        let j = choose|j: int|
                            0 <= j < seen.len() && (#[trigger] seen[j]).device_index == x;
                        assert(now[j] == seen[j]);
                    }
                    if x == d {
                        assert(now[i as int].device_index == d);
                    }
                    if has_device(now, x) && x != d {
                        let j = choose|j: int|
                            0 <= j < now.len() && (#[trigger] now[j]).device_index == x;
                        assert(seen[j] == now[j]);
                    }
                }
            }
            insert_sorted(&mut indices, d);
            i += 1;
        }
        assert(self.samples@.take(i as int) =~= self.samples@);
        proof {
            lemma_device_list(indices@, self.samples@);
        }
        indices
    }
}

/// Puts `d` in its place among ascending indices, unless it stands there.
fn insert_sorted(indices: &mut Vec<u32>, d: u32)
    requires
        strictly_ascending(old(indices)@),
    ensures
        strictly_ascending(final(indices)@),
        forall|x: u32| #[trigger]
            final(indices)@.contains(x) <==> (old(indices)@.contains(x) || x == d),
{
    let ghost before = indices@;
    let mut k: usize = 0;
    while k < indices.len() && indices[k] < d
        invariant
            k <= indices@.len(),
            indices@ == before,
            forall|j: int| 0 <= j < k ==> #[trigger] indices@[j] < d,
        decreases indices@.len() - k,
    {
        k += 1;
    }
    if k < indices.len() && indices[k] == d {
        assert(before[k as int] == d);
        return ;
    }
    proof {
        if k < before.len() {
            assert forall|j: int| k <= j < before.len() implies #[trigger] before[j] > d by {}
        }
    }
    indices.insert(k, d);
    let ghost after = indices@;
    proof {
        assert(after =~= before.insert(k as int, d));
        assert forall|x: u32| #[trigger] after.contains(x) <==> (before.contains(x) || x == d) by {
            if before.contains(x) {
                let j = choose|j: int| 0 <= j < before.len() && before[j] == x;
                if j < k {
                    assert(after[j] == x);
                } else {
                    assert(after[j + 1] == x);
                }
            }
            if x == d {
                assert(after[k as int] == d);
            }
            if after.contains(x) && x != d {
                let j = choose|j: int| 0 <= j < after.len() && after[j] == x;
                if j < k {
                    assert(before[j] == x);
                } else {
                    assert(before[j - 1] == x);
                }
            }
        }
    }
}

} // verus!
