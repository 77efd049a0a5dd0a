//! Energy from sampled power: trapezoids between consecutive samples of one
//! device.
use vstd::prelude::*;

use crate::accuracy::{
    above, below, is_near, lemma_integer_near, lemma_near_widens, lemma_over_near, lemma_plus_near,
    lemma_times_near,
};
use crate::binary64::{
    integer, integer_part, lemma_scale_adds, lemma_total_bounded, lemma_value_bound, saturated,
    scale, Binary64,
};
use crate::gpu::{has_device, GpuSample};
use crate::stats::total;

verus! {

/// Nanoseconds from sample `a` to sample `b`; zero if `b` is not later.
pub open spec fn gap_ns(a: GpuSample, b: GpuSample) -> nat {
    if b.elapsed_ns > a.elapsed_ns {
        (b.elapsed_ns - a.elapsed_ns) as nat
    } else {
        0
    }
}

/// Twice the trapezoid between two samples, in milliwatt-nanoseconds.
pub open spec fn segment2(a: GpuSample, b: GpuSample) -> nat {
    (a.power_draw_milliwatts as nat + b.power_draw_milliwatts as nat) * gap_ns(a, b)
}

/// Whether the segment between two samples lies inside the window; with no
/// window, every segment does.
pub open spec fn in_window(a: GpuSample, b: GpuSample, window: Option<(u64, u64)>) -> bool {
    match window {
        Some((s, e)) => s <= a.elapsed_ns && b.elapsed_ns <= e,
        None => true,
    }
}

/// Twice the area under the power curve of one device over the segments
/// inside the window, in milliwatt-nanoseconds. A segment that straddles a
/// boundary belongs to no window.
pub open spec fn area2(samples: Seq<GpuSample>, window: Option<(u64, u64)>) -> nat
    decreases samples.len(),
{
    if samples.len() < 2 {
        0
    } else {
        let a = samples[samples.len() - 2];
        let b = samples[samples.len() - 1];
        area2(samples.drop_last(), window) + if in_window(a, b, window) {
            segment2(a, b)
        } else {
            0
        }
    }
}

/// The samples of device `d`, in order.
pub open spec fn of_device(samples: Seq<GpuSample>, d: u32) -> Seq<GpuSample>
    decreases samples.len(),
{
    if samples.len() == 0 {
        Seq::empty()
    } else if samples.last().device_index == d {
        of_device(samples.drop_last(), d).push(samples.last())
    } else {
        of_device(samples.drop_last(), d)
    }
}

/// [`area2`] summed over the given devices.
pub open spec fn devices_area2(
    samples: Seq<GpuSample>,
    devices: Seq<u32>,
    window: Option<(u64, u64)>,
) -> nat
    decreases devices.len(),
{
    if devices.len() == 0 {
        0
    } else {
        devices_area2(samples, devices.drop_last(), window) + area2(
            of_device(samples, devices.last()),
            window,
        )
    }
}

/// No window covers more than the whole.
pub proof fn lemma_window_area(samples: Seq<GpuSample>, window: Option<(u64, u64)>)
    ensures
        area2(samples, window) <= area2(samples, None),
    decreases samples.len(),
{
    if samples.len() >= 2 {
        lemma_window_area(samples.drop_last(), window);
    }
}

/// A prefix covers no more than the whole.
proof fn lemma_area_grows(samples: Seq<GpuSample>, n: int, window: Option<(u64, u64)>)
    requires
        0 <= n <= samples.len(),
    ensures
        area2(samples.take(n), window) <= area2(samples, window),
    decreases samples.len(),
{
    if n == samples.len() {
        assert(samples.take(n) =~= samples);
    } else {
        lemma_area_grows(samples.drop_last(), n, window);
        assert(samples.drop_last().take(n) =~= samples.take(n));
    }
}

/// Twice the trapezoid area over the inter-sample segments of one device, in
/// milliwatt-nanoseconds; millijoules are a two-billionth of it. With a window
/// `(s, e)`, only segments with both ends in `[s, e]` count.
pub fn area2_mw_ns(samples: &[&GpuSample], window: Option<(u64, u64)>) -> (area: u128)
    requires
        area2(samples@.unref(), None) <= u128::MAX,
    ensures
        area == area2(samples@.unref(), window),
{
    let ghost all = samples@.unref();
    let mut area: u128 = 0;
    let mut i: usize = 1;
    proof {
        lemma_window_area(all, window);
        if all.len() >= 1 {
            assert(all.take(1).len() == 1);
        }
    }
    if samples.len() < 2 {
        return 0;
    }
    while i < samples.len()
        invariant
            1 <= i <= samples@.len(),
            all == samples@.unref(),
            area == area2(all.take(i as int), window),
            area2(all, window) <= area2(all, None) <= u128::MAX,
        decreases samples@.len() - i,
    {
        let a: &GpuSample = samples[i - 1];
        let b: &GpuSample = samples[i];
        let ghost now = all.take(i + 1);
        proof {
            assert(now.drop_last() =~= all.take(i as int));
            assert(now[i - 1] == *a);
            assert(now[i as int] == *b);
            lemma_area_grows(all, i + 1, window);
            let p = a.power_draw_milliwatts as nat + b.power_draw_milliwatts as nat;
            let g = gap_ns(*a, *b);
            assert(p * g <= 0x1_ffff_fffe * 0xffff_ffff_ffff_ffff) by (nonlinear_arith)
                requires
                    p <= 0x1_ffff_fffe,
                    g <= 0xffff_ffff_ffff_ffff,
            ;
        }
        let inside: bool = match window {
            Some((s, e)) => s <= a.elapsed_ns && b.elapsed_ns <= e,
            None => true,
        };
        if inside {
            let gap: u64 = b.elapsed_ns.saturating_sub(a.elapsed_ns);
            area = area + (a.power_draw_milliwatts as u128 + b.power_draw_milliwatts as u128)
                * gap as u128;
        }
        i += 1;
    }
    assert(all.take(i as int) =~= all);
    area
}

/// The samples of device `d`, in order.
pub fn samples_of<'a>(samples: &'a Vec<GpuSample>, d: u32) -> (chosen: Vec<&'a GpuSample>)
    ensures
        chosen@.unref() == of_device(samples@, d),
        chosen@.len() <= samples@.len(),
{
    let mut chosen: Vec<&'a GpuSample> = Vec::new();
    let mut i: usize = 0;
    assert(chosen@.unref() =~= of_device(samples@.take(0), d));
    while i < samples.len()
        invariant
            i <= samples@.len(),
            chosen@.len() <= i,
            chosen@.unref() == of_device(samples@.take(i as int), d),
        decreases samples@.len() - i,
    {
        let ghost before = chosen@;
        assert(samples@.take(i + 1).drop_last() =~= samples@.take(i as int));
        if samples[i].device_index == d {
            chosen.push(&samples[i]);
            assert(chosen@.unref() =~= before.unref().push(samples@[i as int]));
        }
        i += 1;
    }
    assert(samples@.take(i as int) =~= samples@);
    chosen
}

/// A device that occurs has samples.
pub proof fn lemma_device_has_samples(samples: Seq<GpuSample>, d: u32)
    ensures
        has_device(samples, d) <==> of_device(samples, d).len() > 0,
    decreases samples.len(),
{
    if samples.len() > 0 {
        let rest = samples.drop_last();
        lemma_device_has_samples(rest, d);
        if has_device(samples, d) {
            let i = choose|i: int|
                0 <= i < samples.len() && (#[trigger] samples[i]).device_index == d;
            if i < rest.len() {
                assert(rest[i].device_index == d);
            }
        }
        if has_device(rest, d) {
            let i = choose|i: int| 0 <= i < rest.len() && (#[trigger] rest[i]).device_index == d;
            assert(samples[i].device_index == d);
        }
        if samples.last().device_index == d {
            assert(samples[samples.len() - 1].device_index == d);
        }
    }
}

/// Part of the devices cover no more than all of them.
proof fn lemma_devices_grow(
    samples: Seq<GpuSample>,
    devices: Seq<u32>,
    n: int,
    window: Option<(u64, u64)>,
)
    requires
        0 <= n <= devices.len(),
    ensures
        devices_area2(samples, devices.take(n), window) <= devices_area2(samples, devices, window),
    decreases devices.len(),
{
    if n == devices.len() {
        assert(devices.take(n) =~= devices);
    } else {
        lemma_devices_grow(samples, devices.drop_last(), n, window);
        assert(devices.drop_last().take(n) =~= devices.take(n));
    }
}

/// No window covers more than the whole, over any devices.
pub proof fn lemma_devices_window(
    samples: Seq<GpuSample>,
    devices: Seq<u32>,
    window: Option<(u64, u64)>,
)
    ensures
        devices_area2(samples, devices, window) <= devices_area2(samples, devices, None),
    decreases devices.len(),
{
    if devices.len() > 0 {
        lemma_devices_window(samples, devices.drop_last(), window);
        lemma_window_area(of_device(samples, devices.last()), window);
    }
}

/// [`area2_mw_ns`] summed over the given devices.
pub fn devices_area2_mw_ns(
    samples: &Vec<GpuSample>,
    devices: &Vec<u32>,
    window: Option<(u64, u64)>,
) -> (area: u128)
    requires
        devices_area2(samples@, devices@, None) <= u128::MAX,
    ensures
        area == devices_area2(samples@, devices@, window),
{
    let mut area: u128 = 0;
    let mut i: usize = 0;
    proof {
        lemma_devices_window(samples@, devices@, window);
    }
    while i < devices.len()
        invariant
            i <= devices@.len(),
            area == devices_area2(samples@, devices@.take(i as int), window),
            devices_area2(samples@, devices@, window) <= devices_area2(samples@, devices@, None)
                <= u128::MAX,
        decreases devices@.len() - i,
    {
        let chosen: Vec<&GpuSample> = samples_of(samples, devices[i]);
        proof {
            let now = devices@.take(i + 1);
            assert(now.drop_last() =~= devices@.take(i as int));
            assert(now.last() == devices@[i as int]);
            lemma_devices_grow(samples@, devices@, i + 1, None);
            lemma_devices_grow(samples@, devices@, i + 1, window);
        }
        area = area + area2_mw_ns(chosen.as_slice(), window);
        i += 1;
    }
    assert(devices@.take(i as int) =~= devices@);
    area
}

/// Whether twice the area under the power curve of one device stays within
/// 128 bits.
fn area_fits(samples: &[&GpuSample]) -> (area: Option<u128>)
    ensures
        area matches Some(a) ==> a == area2(samples@.unref(), None),
        area is None ==> area2(samples@.unref(), None) > u128::MAX,
{
    let ghost all = samples@.unref();
    if samples.len() < 2 {
        return Some(0);
    }
    let mut area: u128 = 0;
    let mut i: usize = 1;
    assert(all.take(1).len() == 1);
    while i < samples.len()
        invariant
            1 <= i <= samples@.len(),
            all == samples@.unref(),
            area == area2(all.take(i as int), None),
        decreases samples@.len() - i,
    {
        let a: &GpuSample = samples[i - 1];
        let b: &GpuSample = samples[i];
        let ghost now = all.take(i + 1);
        proof {
            assert(now.drop_last() =~= all.take(i as int));
            assert(now[i - 1] == *a);
            assert(now[i as int] == *b);
            lemma_area_grows(all, i + 1, None);
            let p = a.power_draw_milliwatts as nat + b.power_draw_milliwatts as nat;
            let g = gap_ns(*a, *b);
            assert(p * g <= 0x1_ffff_fffe * 0xffff_ffff_ffff_ffff) by (nonlinear_arith)
                requires
                    p <= 0x1_ffff_fffe,
                    g <= 0xffff_ffff_ffff_ffff,
            ;
        }
        let gap: u64 = b.elapsed_ns.saturating_sub(a.elapsed_ns);
        let segment: u128 = (a.power_draw_milliwatts as u128 + b.power_draw_milliwatts as u128)
            * gap as u128;
        match area.checked_add(segment) {
            Some(sum) => {
                area = sum;
            },
            None => {
                return None;
            },
        }
        i += 1;
    }
    assert(all.take(i as int) =~= all);
    Some(area)
}

/// Twice the area under the power curves of the given devices, if it stays
/// within 128 bits.
pub fn devices_area_fits(samples: &Vec<GpuSample>, devices: &Vec<u32>) -> (area: Option<u128>)
    ensures
        area matches Some(a) ==> a == devices_area2(samples@, devices@, None),
        area is None ==> devices_area2(samples@, devices@, None) > u128::MAX,
{
    let mut area: u128 = 0;
    let mut i: usize = 0;
    while i < devices.len()
        invariant
            i <= devices@.len(),
            area == devices_area2(samples@, devices@.take(i as int), None),
        decreases devices@.len() - i,
    {
        let chosen: Vec<&GpuSample> = samples_of(samples, devices[i]);
        proof {
            let now = devices@.take(i + 1);
            assert(now.drop_last() =~= devices@.take(i as int));
            assert(now.last() == devices@[i as int]);
            lemma_devices_grow(samples@, devices@, i + 1, None);
        }
        match area_fits(chosen.as_slice()) {
            Some(one) => {
                match area.checked_add(one) {
                    Some(sum) => {
                        area = sum;
                    },
                    None => {
                        return None;
                    },
                }
            },
            None => {
                return None;
            },
        }
        i += 1;
    }
    assert(devices@.take(i as int) =~= devices@);
    Some(area)
}

/// Mean power between two samples times the gap between them, in
/// milliwatt-nanoseconds.
pub open spec fn trapezoid(a: GpuSample, b: GpuSample) -> Binary64 {
    integer(
        a.power_draw_milliwatts as nat + b.power_draw_milliwatts as nat,
    ).over(integer(2)).times(integer(gap_ns(a, b)))
}

/// The area under the power curve of one device, accumulated in sample order.
pub open spec fn power_area(samples: Seq<GpuSample>) -> Binary64
    decreases samples.len(),
{
    if samples.len() < 2 {
        integer(0)
    } else {
        power_area(samples.drop_last()).plus(
            trapezoid(samples[samples.len() - 2], samples[samples.len() - 1]),
        )
    }
}

/// The trapezoidal energy of one device's samples, in whole millijoules.
pub open spec fn integrated_mj(samples: Seq<GpuSample>) -> u64 {
    saturated(integer_part(power_area(samples).over(integer(1_000_000_000))))
}

/// Trapezoidal integral of one device's power samples over time, in
/// millijoules: the fallback where the energy counter is unavailable. Fewer
/// than two samples leave no interval and give zero.
pub fn integrate_power_trapezoidal(samples: &[&GpuSample]) -> (mj: u64)
    requires
        samples@.len() <= u32::MAX,
    ensures
        mj == integrated_mj(samples@.unref()),
        samples@.len() < 2 ==> mj == 0,
{
    let ghost all = samples@.unref();
    let mut area: Binary64 = Binary64::from_u64(0);
    let billion: Binary64 = Binary64::from_u64(1_000_000_000);
    if samples.len() < 2 {
        let mj: u64 = area.quotient(billion).to_u64();
        proof {
            assert(area.over(billion) == (Binary64 { mantissa: 0, exponent: 0 })) by {
                assert(area.num() * billion.den() == 0) by (nonlinear_arith)
                    requires
                        area.num() == 0 * scale(0),
                ;
            }
            lemma_zero_part();
        }
        return mj;
    }
    let two: Binary64 = Binary64::from_u64(2);
    let mut i: usize = 1;
    assert(all.take(1).len() == 1);
    assert(area.num() == 0) by (nonlinear_arith)
        requires
            area.num() == 0 * scale(0),
    ;
    assert(0 <= 1 * scale(400)) by (nonlinear_arith)
        requires
            scale(400) >= 0,
    ;
    while i < samples.len()
        invariant
            1 <= i <= samples@.len() <= u32::MAX,
            all == samples@.unref(),
            two == integer(2),
            two.within(64),
            two.mantissa > 0,
            area == power_area(all.take(i as int)),
            area.within(2000),
            area.mantissa > 0 ==> -400 <= area.exponent <= 400,
            area.num() <= i * scale(400),
        decreases samples@.len() - i,
    {
        let a: &GpuSample = samples[i - 1];
        let b: &GpuSample = samples[i];
        let ghost now = all.take(i + 1);
        proof {
            assert(now.drop_last() =~= all.take(i as int));
            assert(now[i - 1] == *a);
            assert(now[i as int] == *b);
        }
        let power: Binary64 = Binary64::from_u64(
            a.power_draw_milliwatts as u64 + b.power_draw_milliwatts as u64,
        );
        let gap: Binary64 = Binary64::from_u64(b.elapsed_ns.saturating_sub(a.elapsed_ns));
        let mean: Binary64 = power.quotient(two);
        let term: Binary64 = mean.product(gap);
        proof {
            lemma_value_bound(term, 400);
            lemma_total_bounded(area, term, i as nat, 400);
        }
        area = area.sum(term);
        i += 1;
    }
    assert(all.take(i as int) =~= all);
    area.quotient(billion).to_u64()
}

/// Zero has no integer part.
proof fn lemma_zero_part()
    ensures
        saturated(integer_part(Binary64 { mantissa: 0, exponent: 0 })) == 0,
{
    let zero = Binary64 { mantissa: 0, exponent: 0 };
    assert(zero.num() == 0) by (nonlinear_arith)
        requires
            zero.num() == 0 * scale(0),
    ;
    crate::binary64::lemma_den_positive(zero);
    vstd::arithmetic::div_mod::lemma_div_of0(zero.den() as int);
}

/// The sample at `i` drawing `d` milliwatts more.
pub open spec fn with_more_power(samples: Seq<GpuSample>, i: int, d: nat) -> Seq<GpuSample> {
    samples.update(
        i,
        GpuSample {
            power_draw_milliwatts: (samples[i].power_draw_milliwatts + d) as u32,
            ..samples[i]
        },
    )
}

/// A sample counts toward the segment before it and the segment behind it, and
/// toward both alike: `d` milliwatts more at one sample add `d` times the time
/// of either segment to the doubled area, where the segment lies in the window,
/// and nothing else.
pub proof fn law_power_counts_on_both_sides(
    samples: Seq<GpuSample>,
    i: int,
    d: nat,
    window: Option<(u64, u64)>,
)
    requires
        0 <= i < samples.len(),
        samples[i].power_draw_milliwatts + d <= u32::MAX,
    ensures
        ({
            let t = samples[i].elapsed_ns;
            let before: int = if i > 0 && samples[i - 1].elapsed_ns <= t && (window is Some
                ==> (window->0).0 <= samples[i - 1].elapsed_ns && t <= (window->0).1) {
                t - samples[i - 1].elapsed_ns
            } else {
                0
            };
            let behind: int = if i + 1 < samples.len() && t <= samples[i + 1].elapsed_ns && (
            window is Some ==> (window->0).0 <= t && samples[i + 1].elapsed_ns <= (window->0).1) {
                samples[i + 1].elapsed_ns - t
            } else {
                0
            };
            area2(with_more_power(samples, i, d), window) == area2(samples, window) + d * before
                + d * behind
        }),
    decreases samples.len(),
{
    let more = with_more_power(samples, i, d);
    let n = samples.len() as int;
    if n >= 2 {
        let a = samples[n - 2];
        let b = samples[n - 1];
        let p = a.power_draw_milliwatts as int + b.power_draw_milliwatts as int;
        let g = gap_ns(a, b) as int;
        assert((p + d) * g == p * g + d * g) by (nonlinear_arith);
        if i == n - 1 {
            assert(more.drop_last() =~= samples.drop_last());
        } else {
            assert(more.drop_last() =~= with_more_power(samples.drop_last(), i, d));
            law_power_counts_on_both_sides(samples.drop_last(), i, d, window);
        }
        assert(d * 0 == 0) by (nonlinear_arith);
    } else {
        assert(d * 0 == 0) by (nonlinear_arith);
    }
}

/// No power, no area.
pub proof fn law_no_power_no_area(samples: Seq<GpuSample>, window: Option<(u64, u64)>)
    requires
        forall|i: int|
            0 <= i < samples.len() ==> (#[trigger] samples[i]).power_draw_milliwatts == 0,
    ensures
        area2(samples, window) == 0,
    decreases samples.len(),
{
    if samples.len() >= 2 {
        let rest = samples.drop_last();
        assert forall|i: int| 0 <= i < rest.len() implies (
        #[trigger] rest[i]).power_draw_milliwatts == 0 by {
            assert(rest[i] == samples[i]);
        }
        law_no_power_no_area(rest, window);
        let a = samples[samples.len() - 2];
        let b = samples[samples.len() - 1];
        let g = gap_ns(a, b);
        assert(0 * g == 0) by (nonlinear_arith);
    }
}

/// Two samples a gap apart give the mean of their powers over the gap, in
/// whichever order the powers come.
pub proof fn law_two_samples_make_a_trapezoid(a: GpuSample, b: GpuSample)
    requires
        a.elapsed_ns <= b.elapsed_ns,
    ensures
        area2(seq![a, b], None) == (a.power_draw_milliwatts + b.power_draw_milliwatts) * (
        b.elapsed_ns - a.elapsed_ns),
        area2(
            seq![
                GpuSample { power_draw_milliwatts: b.power_draw_milliwatts, ..a },
                GpuSample { power_draw_milliwatts: a.power_draw_milliwatts, ..b },
            ],
            None,
        ) == area2(seq![a, b], None),
{
    let s = seq![a, b];
    let x = GpuSample { power_draw_milliwatts: b.power_draw_milliwatts, ..a };
    let y = GpuSample { power_draw_milliwatts: a.power_draw_milliwatts, ..b };
    let t = seq![x, y];
    assert(area2(s.drop_last(), None) == 0);
    assert(area2(t.drop_last(), None) == 0);
    assert(s[s.len() - 2] == a && s[s.len() - 1] == b);
    assert(t[t.len() - 2] == x && t[t.len() - 1] == y);
}

/// A stretch of time splits at any of its samples: the area up to it and the
/// area from it on make up the whole.
pub proof fn law_area_splits_at_a_sample(samples: Seq<GpuSample>, i: int, window: Option<(u64, u64)>)
    requires
        0 <= i < samples.len(),
    ensures
        area2(samples, window) == area2(samples.take(i + 1), window) + area2(
            samples.skip(i),
            window,
        ),
    decreases samples.len(),
{
    let n = samples.len() as int;
    if i == n - 1 {
        assert(samples.take(i + 1) =~= samples);
    } else {
        let rest = samples.drop_last();
        law_area_splits_at_a_sample(rest, i, window);
        assert(rest.take(i + 1) =~= samples.take(i + 1));
        assert(samples.skip(i).drop_last() =~= rest.skip(i));
    }
}

/// The fallback's area in range, and near the doubled area.
proof fn lemma_power_area(samples: Seq<GpuSample>)
    requires
        samples.len() <= u32::MAX,
    ensures
        power_area(samples).within(400),
        power_area(samples).num() <= samples.len() * scale(400),
        is_near(power_area(samples), area2(samples, None), 2, samples.len() + 6),
    decreases samples.len(),
{
    lemma_scale_adds(400, 0);
    if samples.len() < 2 {
        lemma_integer_near(0);
        let x = integer(0);
        assert(x.num() == 0) by (nonlinear_arith)
            requires
                x.num() == 0 * scale(0),
        ;
        assert(0 <= samples.len() * scale(400)) by (nonlinear_arith)
            requires
                scale(400) >= 0,
        ;
        lemma_near_zero(x, samples.len() + 6);
    } else {
        let n = samples.len();
        let rest = samples.drop_last();
        let a = samples[n - 2];
        let b = samples[n - 1];
        let p = a.power_draw_milliwatts as nat + b.power_draw_milliwatts as nat;
        let g = gap_ns(a, b);
        lemma_power_area(rest);
        lemma_integer_near(p);
        lemma_integer_near(2);
        lemma_integer_near(g);
        let mean = integer(p).over(integer(2));
        lemma_over_near(integer(p), 64, p, 1, 1, integer(2), 64, 2, 1, 1);
        let term = mean.times(integer(g));
        lemma_times_near(mean, 188, p * 1, 1 * 2, 3, integer(g), 64, g, 1, 1);
        assert(term == trapezoid(a, b));
        assert((p * 1) * g == p * g && (1 * 2) * 1 == 2) by (nonlinear_arith);
        assert(is_near(term, p * g, 2, 5));
        let sum = power_area(rest);
        lemma_near_widens(term.num(), term.den(), p * g, 2, 5, rest.len() + 6);
        lemma_plus_near(sum, term, 400, area2(rest, None), p * g, 2, rest.len() + 6);
        lemma_value_bound(term, 400);
        lemma_total_bounded(sum, term, (n - 1) as nat, 400);
    }
}

/// Zero is near zero.
proof fn lemma_near_zero(x: Binary64, n: nat)
    requires
        x.num() == 0,
    ensures
        is_near(x, 0, 2, n),
{
    let d = x.den();
    let (l, h) = (below(n), above(n));
    assert((0 * 2) * l == 0 && (0 * d) * h == 0) by (nonlinear_arith);
    assert((0 * 2) * h == 0 && (0 * d) * l == 0) by (nonlinear_arith);
}

/// The energy integrated from power samples is the area under them: a
/// two-billionth of the doubled area, cut to whole millijoules, up to one
/// rounding per sample and a few more.
pub proof fn law_fallback_is_the_area(samples: Seq<GpuSample>)
    requires
        samples.len() <= u32::MAX,
        integrated_mj(samples) < u64::MAX,
    ensures
        ({
            let n = samples.len() + 8;
            let mj = integrated_mj(samples) as nat;
            &&& (2_000_000_000 * mj) * below(n) <= area2(samples, None) * above(n)
            &&& area2(samples, None) * below(n) <= (2_000_000_000 * (mj + 1)) * above(n)
        }),
{
    let n = samples.len() + 8;
    let area = area2(samples, None);
    lemma_power_area(samples);
    lemma_integer_near(1_000_000_000);
    let sum = power_area(samples);
    let x = sum.over(integer(1_000_000_000));
    lemma_over_near(
        sum,
        400,
        area,
        2,
        samples.len() + 6,
        integer(1_000_000_000),
        64,
        1_000_000_000,
        1,
        1,
    );
    assert(area * 1 == area) by (nonlinear_arith);
    assert(is_near(x, area, 2_000_000_000, n));
    let mj = integrated_mj(samples) as nat;
    let s0 = scale(0);
    lemma_scale_adds(0, 0);
    let v = x.num();
    vstd::arithmetic::div_mod::lemma_fundamental_div_mod(v as int, s0 as int);
    assert(integer_part(x) == mj);
    let (l, h) = (below(n), above(n));
    assert(s0 * mj == mj * s0 && (mj + 1) * s0 == mj * s0 + s0) by (nonlinear_arith);
    assert(mj * s0 <= v && v <= (mj + 1) * s0);
    let two: nat = 2_000_000_000;
    assert((two * mj) * l <= area * h) by (nonlinear_arith)
        requires
            (v * two) * l <= (area * s0) * h,
            mj * s0 <= v,
            s0 > 0,
            l >= 0,
            two > 0,
    ;
    assert(area * l <= (two * (mj + 1)) * h) by (nonlinear_arith)
        requires
            (area * s0) * l <= (v * two) * h,
            v <= (mj + 1) * s0,
            s0 > 0,
            h >= 0,
            two > 0,
    ;
}

/// The samples of a device are those that carry its index, in order.
pub proof fn law_device_samples_carry_its_index(samples: Seq<GpuSample>, d: u32)
    ensures
        of_device(samples, d) == samples.filter(|s: GpuSample| s.device_index == d),
    decreases samples.len(),
{
    reveal(Seq::filter);
    if samples.len() > 0 {
        law_device_samples_carry_its_index(samples.drop_last(), d);
    }
}

/// The area of several devices is the sum of their areas.
pub proof fn law_devices_add_up(
    samples: Seq<GpuSample>,
    devices: Seq<u32>,
    window: Option<(u64, u64)>,
)
    ensures
        devices_area2(samples, devices, window) == total(
            devices.map_values(
                |d: u32| area2(samples.filter(|s: GpuSample| s.device_index == d), window),
            ),
        ),
    decreases devices.len(),
{
    if devices.len() > 0 {
        law_devices_add_up(samples, devices.drop_last(), window);
        law_device_samples_carry_its_index(samples, devices.last());
        let area = |d: u32| area2(samples.filter(|s: GpuSample| s.device_index == d), window);
        assert(devices.map_values(area).drop_last() =~= devices.drop_last().map_values(area));
    }
}

} // verus!
