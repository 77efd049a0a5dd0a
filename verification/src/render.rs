//! A report as plain text for a terminal.
//!
//! Sections without data are left out rather than filled with placeholders.
use vstd::arithmetic::div_mod::lemma_fundamental_div_mod;
use vstd::prelude::*;
use vstd::string::*;
use vstd::utf8::is_ascii_chars;

use crate::accuracy::{is_near, lemma_integer_near, lemma_over_near};
use crate::binary64::{fixed_point, half_even, integer, push_fixed, scale, Binary64};
use crate::decimal::pow10;
use crate::metrics::{GpuMetrics, LatencyDistribution, Report, ResourceMetrics, TimingMetrics};
use crate::text::{
    all_decimal, digits, law_digits_read_back, law_padded_digits_read_back, number, padded_digits,
    push_decimal,
};

verus! {

/// `n` spaces.
pub open spec fn spaces(n: nat) -> Seq<char> {
    Seq::new(n, |i: int| ' ')
}

/// `s` behind as many spaces as fill `width` places.
pub open spec fn right_aligned(s: Seq<char>, width: nat) -> Seq<char> {
    if s.len() < width {
        spaces((width - s.len()) as nat) + s
    } else {
        s
    }
}

/// `s` before as many spaces as fill `width` places.
pub open spec fn left_aligned(s: Seq<char>, width: nat) -> Seq<char> {
    if s.len() < width {
        s + spaces((width - s.len()) as nat)
    } else {
        s
    }
}

/// A string of `n` spaces.
fn blank(n: usize) -> (s: String)
    ensures
        s@ == spaces(n as nat),
{
    let mut s: String = String::new();
    let mut i: usize = 0;
    assert(s@ =~= spaces(0));
    while i < n
        invariant
            i <= n,
            s@ == spaces(i as nat),
        decreases n - i,
    {
        s.push(' ');
        i += 1;
        assert(spaces(i as nat) =~= spaces((i - 1) as nat).push(' '));
    }
    s
}

/// `s` behind as many spaces as fill `width` places.
pub fn align_right(s: &str, width: usize) -> (r: String)
    ensures
        r@ == right_aligned(s@, width as nat),
{
    let len: usize = s.unicode_len();
    if len < width {
        let mut r: String = blank(width - len);
        r.append(s);
        r
    } else {
        String::from_str(s)
    }
}

/// `s` before as many spaces as fill `width` places.
pub fn align_left(s: &str, width: usize) -> (r: String)
    ensures
        r@ == left_aligned(s@, width as nat),
{
    let len: usize = s.unicode_len();
    let mut r: String = String::from_str(s);
    if len < width {
        r.append(&blank(width - len));
    }
    r
}

/// An integer in decimal.
pub fn decimal(n: u64) -> (s: String)
    ensures
        s@ == digits(n as nat),
{
    let mut s: String = String::new();
    push_decimal(&mut s, n as u128);
    assert(Seq::<char>::empty() + digits(n as nat) =~= digits(n as nat));
    s
}

/// A value with a fixed number of decimal places.
pub fn fixed(value: Binary64, places: usize) -> (s: String)
    requires
        places <= 6,
    ensures
        s@ == fixed_point(value, places as nat),
{
    let mut s: String = String::new();
    push_fixed(&mut s, value, places);
    assert(Seq::<char>::empty() + fixed_point(value, places as nat) =~= fixed_point(
        value,
        places as nat,
    ));
    s
}

/// A number of nanoseconds in words: in seconds to three places from one
/// second on, else in whole milliseconds or microseconds.
pub open spec fn duration_text(ns: u64) -> Seq<char> {
    if ns < 1_000 {
        "<1 us"@
    } else if ns < 1_000_000 {
        digits((ns / 1_000) as nat) + " us"@
    } else if ns < 1_000_000_000 {
        digits((ns / 1_000_000) as nat) + " ms"@
    } else {
        fixed_point(integer(ns as nat).over(integer(1_000_000_000)), 3) + " s"@
    }
}

/// A number of nanoseconds in words.
pub fn format_duration_ns(ns: u64) -> (s: String)
    ensures
        s@ == duration_text(ns),
{
    if ns < 1_000 {
        String::from_str("<1 us")
    } else if ns < 1_000_000 {
        let mut s: String = decimal(ns / 1_000);
        s.append(" us");
        s
    } else if ns < 1_000_000_000 {
        let mut s: String = decimal(ns / 1_000_000);
        s.append(" ms");
        s
    } else {
        let seconds: Binary64 = Binary64::from_u64(ns).quotient(Binary64::from_u64(1_000_000_000));
        let mut s: String = fixed(seconds, 3);
        s.append(" s");
        s
    }
}

/// A number of bytes in words: in gibibytes to two places from one gibibyte
/// on, else in whole mebibytes, kibibytes or bytes.
pub open spec fn bytes_text(bytes: u64) -> Seq<char> {
    if bytes < 1024 {
        digits(bytes as nat) + " B"@
    } else if bytes < 1_048_576 {
        digits((bytes / 1024) as nat) + " KiB"@
    } else if bytes < 1_073_741_824 {
        digits((bytes / 1_048_576) as nat) + " MiB"@
    } else {
        fixed_point(integer(bytes as nat).over(integer(1_073_741_824)), 2) + " GiB"@
    }
}

/// A number of bytes in words.
pub fn format_bytes(bytes: u64) -> (s: String)
    ensures
        s@ == bytes_text(bytes),
{
    if bytes < 1024 {
        let mut s: String = decimal(bytes);
        s.append(" B");
        s
    } else if bytes < 1_048_576 {
        let mut s: String = decimal(bytes / 1024);
        s.append(" KiB");
        s
    } else if bytes < 1_073_741_824 {
        let mut s: String = decimal(bytes / 1_048_576);
        s.append(" MiB");
        s
    } else {
        let gib: Binary64 = Binary64::from_u64(bytes).quotient(Binary64::from_u64(1_073_741_824));
        let mut s: String = fixed(gib, 2);
        s.append(" GiB");
        s
    }
}

/// The section on the request as a whole.
pub open spec fn probe_summary(timing: TimingMetrics) -> Seq<char> {
    "Probe summary\n  Tokens generated      "@ + digits(timing.token_count as nat)
        + "\n  Time to first token   "@ + (match timing.ttft_ns {
        Some(ns) => duration_text(ns),
        None => "(no tokens produced)"@,
    }) + "\n  Generation rate       "@ + (match timing.tokens_per_second {
        Some(rate) => fixed_point(rate, 1) + " tokens/s"@,
        None => "(not enough tokens)"@,
    }) + "\n  Total latency         "@ + duration_text(timing.total_latency_ns) + "\n"@
}

fn render_probe_summary(timing: &TimingMetrics) -> (out: String)
    ensures
        out@ == probe_summary(*timing),
{
    let first: String = match timing.ttft_ns {
        Some(ns) => format_duration_ns(ns),
        None => String::from_str("(no tokens produced)"),
    };
    let rate: String = match timing.tokens_per_second {
        Some(rate) => {
            let mut s: String = fixed(rate, 1);
            s.append(" tokens/s");
            s
        },
        None => String::from_str("(not enough tokens)"),
    };
    let mut out: String = String::from_str("Probe summary\n  Tokens generated      ");
    out.append(&decimal(timing.token_count as u64));
    out.append("\n  Time to first token   ");
    out.append(&first);
    out.append("\n  Generation rate       ");
    out.append(&rate);
    out.append("\n  Total latency         ");
    out.append(&format_duration_ns(timing.total_latency_ns));
    out.append("\n");
    out
}

/// A duration in eight places.
pub open spec fn duration_cell(ns: u64) -> Seq<char> {
    right_aligned(duration_text(ns), 8)
}

fn format_cell(ns: u64) -> (s: String)
    ensures
        s@ == duration_cell(ns),
{
    align_right(&format_duration_ns(ns), 8)
}

/// The section on the intervals between tokens.
pub open spec fn inter_token_section(dist: LatencyDistribution) -> Seq<char> {
    "Inter-token latency (from "@ + digits(dist.count as nat) + " intervals)\n  mean   "@
        + duration_cell(dist.mean_ns) + "      max    "@ + duration_cell(dist.max_ns)
        + "\n  p50    "@ + duration_cell(dist.p50_ns) + "      p95    "@ + duration_cell(
        dist.p95_ns,
    ) + "\n  p99    "@ + duration_cell(dist.p99_ns) + "\n"@
}

fn render_inter_token_latency(dist: &LatencyDistribution) -> (out: String)
    ensures
        out@ == inter_token_section(*dist),
{
    let mut out: String = String::from_str("Inter-token latency (from ");
    out.append(&decimal(dist.count as u64));
    out.append(" intervals)\n  mean   ");
    out.append(&format_cell(dist.mean_ns));
    out.append("      max    ");
    out.append(&format_cell(dist.max_ns));
    out.append("\n  p50    ");
    out.append(&format_cell(dist.p50_ns));
    out.append("      p95    ");
    out.append(&format_cell(dist.p95_ns));
    out.append("\n  p99    ");
    out.append(&format_cell(dist.p99_ns));
    out.append("\n");
    out
}

/// The section on the process.
pub open spec fn resource_section(res: ResourceMetrics) -> Seq<char> {
    "Process resource usage ("@ + digits(res.sample_count as nat)
        + " samples)\n  RSS                peak "@ + bytes_text(res.rss_max_bytes) + "  mean "@
        + bytes_text(res.rss_mean_bytes) + "\n                     min  "@ + bytes_text(
        res.rss_min_bytes,
    ) + "  final "@ + bytes_text(res.rss_final_bytes) + "\n  CPU utilization    "@ + (
    match res.cpu_mean_percent {
        Some(percent) => "mean "@ + fixed_point(percent, 0) + "%"@,
        None => "(not enough samples)"@,
    }) + "\n  Threads            "@ + (if res.thread_min == res.thread_max {
        digits(res.thread_min as nat) + " throughout"@
    } else {
        digits(res.thread_min as nat) + " .. "@ + digits(res.thread_max as nat)
    }) + "\n"@
}

fn render_resource_usage(res: &ResourceMetrics) -> (out: String)
    ensures
        out@ == resource_section(*res),
{
    let cpu: String = match res.cpu_mean_percent {
        Some(percent) => {
            let mut s: String = String::from_str("mean ");
            s.append(&fixed(percent, 0));
            s.append("%");
            s
        },
        None => String::from_str("(not enough samples)"),
    };
    let mut threads: String = decimal(res.thread_min as u64);
    if res.thread_min == res.thread_max {
        threads.append(" throughout");
    } else {
        threads.append(" .. ");
        threads.append(&decimal(res.thread_max as u64));
    }
    let mut out: String = String::from_str("Process resource usage (");
    out.append(&decimal(res.sample_count as u64));
    out.append(" samples)\n  RSS                peak ");
    out.append(&format_bytes(res.rss_max_bytes));
    out.append("  mean ");
    out.append(&format_bytes(res.rss_mean_bytes));
    out.append("\n                     min  ");
    out.append(&format_bytes(res.rss_min_bytes));
    out.append("  final ");
    out.append(&format_bytes(res.rss_final_bytes));
    out.append("\n  CPU utilization    ");
    out.append(&cpu);
    out.append("\n  Threads            ");
    out.append(&threads);
    out.append("\n");
    out
}

/// Milliwatts in watts, to one place.
pub open spec fn watts_text(milliwatts: u32) -> Seq<char> {
    fixed_point(integer(milliwatts as nat).over(integer(1000)), 1)
}

fn format_watts(milliwatts: u32) -> (s: String)
    ensures
        s@ == watts_text(milliwatts),
{
    fixed(Binary64::from_u64(milliwatts as u64).quotient(Binary64::from_u64(1000)), 1)
}

/// The section on the devices.
pub open spec fn gpu_section(gpu: GpuMetrics) -> Seq<char> {
    "GPU resource usage ("@ + digits(gpu.sample_count as nat) + " samples"@ + (
    if gpu.device_count == 1 {
        ""@
    } else {
        ", "@ + digits(gpu.device_count as nat) + " devices"@
    }) + ")\n  VRAM               peak "@ + bytes_text(gpu.memory_used_max_bytes) + "  mean "@
        + bytes_text(gpu.memory_used_mean_bytes) + "\n                     min  "@ + bytes_text(
        gpu.memory_used_min_bytes,
    ) + "  total "@ + bytes_text(gpu.memory_total_bytes) + "\n  SM utilization     peak "@ + digits(
        gpu.utilization_max_percent as nat,
    ) + "%  mean "@ + digits(gpu.utilization_mean_percent as nat) + "%  min "@ + digits(
        gpu.utilization_min_percent as nat,
    ) + "%\n  Temperature        peak "@ + digits(gpu.temperature_max_celsius as nat)
        + " C\n  Power draw         peak "@ + watts_text(gpu.power_max_milliwatts) + " W  mean "@
        + watts_text(gpu.power_mean_milliwatts) + " W\n"@
}

fn render_gpu_usage(gpu: &GpuMetrics) -> (out: String)
    ensures
        out@ == gpu_section(*gpu),
{
    let devices: String = if gpu.device_count == 1 {
        String::from_str("")
    } else {
        let mut s: String = String::from_str(", ");
        s.append(&decimal(gpu.device_count as u64));
        s.append(" devices");
        s
    };
    let mut out: String = String::from_str("GPU resource usage (");
    out.append(&decimal(gpu.sample_count as u64));
    out.append(" samples");
    out.append(&devices);
    out.append(")\n  VRAM               peak ");
    out.append(&format_bytes(gpu.memory_used_max_bytes));
    out.append("  mean ");
    out.append(&format_bytes(gpu.memory_used_mean_bytes));
    out.append("\n                     min  ");
    out.append(&format_bytes(gpu.memory_used_min_bytes));
    out.append("  total ");
    out.append(&format_bytes(gpu.memory_total_bytes));
    out.append("\n  SM utilization     peak ");
    out.append(&decimal(gpu.utilization_max_percent as u64));
    out.append("%  mean ");
    out.append(&decimal(gpu.utilization_mean_percent as u64));
    out.append("%  min ");
    out.append(&decimal(gpu.utilization_min_percent as u64));
    out.append("%\n  Temperature        peak ");
    out.append(&decimal(gpu.temperature_max_celsius as u64));
    out.append(" C\n  Power draw         peak ");
    out.append(&format_watts(gpu.power_max_milliwatts));
    out.append(" W  mean ");
    out.append(&format_watts(gpu.power_mean_milliwatts));
    out.append(" W\n");
    out
}

/// A section that may be missing, set off by a blank line.
pub open spec fn set_off(section: Option<Seq<char>>) -> Seq<char> {
    match section {
        Some(text) => "\n"@ + text,
        None => Seq::empty(),
    }
}

/// The whole text of a report.
pub open spec fn report_text(report: Report) -> Seq<char> {
    probe_summary(report.timing) + set_off(
        match report.timing.inter_token_latency {
            Some(dist) => Some(inter_token_section(dist)),
            None => None,
        },
    ) + set_off(
        match report.resource {
            Some(res) => Some(resource_section(res)),
            None => None,
        },
    ) + set_off(
        match report.gpu {
            Some(gpu) => Some(gpu_section(gpu)),
            None => None,
        },
    )
}

fn push_section(out: &mut String, section: Option<String>)
    ensures
        final(out)@ == old(out)@ + set_off(
            match section {
                Some(text) => Some(text@),
                None => None,
            },
        ),
{
    match section {
        Some(text) => {
            out.append("\n");
            out.append(&text);
            assert(out@ =~= old(out)@ + ("\n"@ + text@));
        },
        None => {
            assert(out@ =~= old(out)@ + Seq::<char>::empty());
        },
    }
}

/// Renders a report as plain text: the request, then, each where there is data
/// for it, the intervals between tokens, the process and the devices.
pub fn render_text(report: &Report) -> (out: String)
    ensures
        out@ == report_text(*report),
{
    let mut out: String = render_probe_summary(&report.timing);
    push_section(
        &mut out,
        match &report.timing.inter_token_latency {
            Some(dist) => Some(render_inter_token_latency(dist)),
            None => None,
        },
    );
    push_section(
        &mut out,
        match &report.resource {
            Some(res) => Some(render_resource_usage(res)),
            None => None,
        },
    );
    push_section(
        &mut out,
        match &report.gpu {
            Some(gpu) => Some(render_gpu_usage(gpu)),
            None => None,
        },
    );
    out
}

// ---------------------------------------------------------------------------
// Plain text.
// ---------------------------------------------------------------------------

/// Whether a text holds ASCII characters alone.
#[verifier::opaque]
pub open spec fn is_plain(s: Seq<char>) -> bool {
    is_ascii_chars(s)
}

broadcast proof fn lemma_joined(a: Seq<char>, b: Seq<char>)
    requires
        is_plain(a),
        is_plain(b),
    ensures
        #[trigger] is_plain(a + b),
{
    reveal(is_plain);
}

proof fn lemma_digits_plain(n: nat)
    ensures
        is_plain(digits(n)),
    decreases n,
{
    reveal(is_plain);
    if n >= 10 {
        lemma_digits_plain(n / 10);
    }
}

proof fn lemma_padded_plain(n: nat, width: nat)
    ensures
        is_plain(padded_digits(n, width)),
    decreases width,
{
    reveal(is_plain);
    if width > 0 {
        lemma_padded_plain(n / 10, (width - 1) as nat);
    }
}

proof fn lemma_fixed_plain(value: Binary64, places: nat)
    ensures
        is_plain(fixed_point(value, places)),
{
    broadcast use lemma_joined;

    let q = half_even(value.num() * pow10(places), value.den());
    lemma_digits_plain(q);
    lemma_digits_plain(q / pow10(places));
    lemma_padded_plain(q % pow10(places), places);
    assert(is_plain(seq!['.'])) by {
        reveal(is_plain);
    }
}

proof fn lemma_duration_plain(ns: u64)
    ensures
        is_plain(duration_text(ns)),
        is_plain(duration_cell(ns)),
{
    broadcast use lemma_joined;

    assert(is_plain("<1 us"@)) by {
        reveal(is_plain);
        reveal_strlit("<1 us");
    }
    assert(is_plain(" us"@)) by {
        reveal(is_plain);
        reveal_strlit(" us");
    }
    assert(is_plain(" ms"@)) by {
        reveal(is_plain);
        reveal_strlit(" ms");
    }
    assert(is_plain(" s"@)) by {
        reveal(is_plain);
        reveal_strlit(" s");
    }
    lemma_digits_plain((ns / 1_000) as nat);
    lemma_digits_plain((ns / 1_000_000) as nat);
    lemma_fixed_plain(integer(ns as nat).over(integer(1_000_000_000)), 3);
    let fill = spaces((8 - duration_text(ns).len()) as nat);
    assert(is_plain(fill)) by {
        reveal(is_plain);
    }
}

proof fn lemma_bytes_plain(bytes: u64)
    ensures
        is_plain(bytes_text(bytes)),
{
    broadcast use lemma_joined;

    assert(is_plain(" B"@)) by {
        reveal(is_plain);
        reveal_strlit(" B");
    }
    assert(is_plain(" KiB"@)) by {
        reveal(is_plain);
        reveal_strlit(" KiB");
    }
    assert(is_plain(" MiB"@)) by {
        reveal(is_plain);
        reveal_strlit(" MiB");
    }
    assert(is_plain(" GiB"@)) by {
        reveal(is_plain);
        reveal_strlit(" GiB");
    }
    lemma_digits_plain(bytes as nat);
    lemma_digits_plain((bytes / 1024) as nat);
    lemma_digits_plain((bytes / 1_048_576) as nat);
    lemma_fixed_plain(integer(bytes as nat).over(integer(1_073_741_824)), 2);
}

proof fn lemma_summary_plain(timing: TimingMetrics)
    ensures
        is_plain(probe_summary(timing)),
{
    broadcast use lemma_joined;

    assert(is_plain("Probe summary\n  Tokens generated      "@)) by {
        reveal(is_plain);
        reveal_strlit("Probe summary\n  Tokens generated      ");
    }
    assert(is_plain("\n  Time to first token   "@)) by {
        reveal(is_plain);
        reveal_strlit("\n  Time to first token   ");
    }
    assert(is_plain("(no tokens produced)"@)) by {
        reveal(is_plain);
        reveal_strlit("(no tokens produced)");
    }
    assert(is_plain("\n  Generation rate       "@)) by {
        reveal(is_plain);
        reveal_strlit("\n  Generation rate       ");
    }
    assert(is_plain(" tokens/s"@)) by {
        reveal(is_plain);
        reveal_strlit(" tokens/s");
    }
    assert(is_plain("(not enough tokens)"@)) by {
        reveal(is_plain);
        reveal_strlit("(not enough tokens)");
    }
    assert(is_plain("\n  Total latency         "@)) by {
        reveal(is_plain);
        reveal_strlit("\n  Total latency         ");
    }
    assert(is_plain("\n"@)) by {
        reveal(is_plain);
        reveal_strlit("\n");
    }
    lemma_digits_plain(timing.token_count as nat);
    if let Some(ns) = timing.ttft_ns {
        lemma_duration_plain(ns);
    }
    if let Some(rate) = timing.tokens_per_second {
        lemma_fixed_plain(rate, 1);
    }
    lemma_duration_plain(timing.total_latency_ns);
}

proof fn lemma_intervals_plain(dist: LatencyDistribution)
    ensures
        is_plain(inter_token_section(dist)),
{
    broadcast use lemma_joined;

    assert(is_plain("Inter-token latency (from "@)) by {
        reveal(is_plain);
        reveal_strlit("Inter-token latency (from ");
    }
    assert(is_plain(" intervals)\n  mean   "@)) by {
        reveal(is_plain);
        reveal_strlit(" intervals)\n  mean   ");
    }
    assert(is_plain("      max    "@)) by {
        reveal(is_plain);
        reveal_strlit("      max    ");
    }
    assert(is_plain("\n  p50    "@)) by {
        reveal(is_plain);
        reveal_strlit("\n  p50    ");
    }
    assert(is_plain("      p95    "@)) by {
        reveal(is_plain);
        reveal_strlit("      p95    ");
    }
    assert(is_plain("\n  p99    "@)) by {
        reveal(is_plain);
        reveal_strlit("\n  p99    ");
    }
    assert(is_plain("\n"@)) by {
        reveal(is_plain);
        reveal_strlit("\n");
    }
    lemma_digits_plain(dist.count as nat);
    lemma_duration_plain(dist.mean_ns);
    lemma_duration_plain(dist.max_ns);
    lemma_duration_plain(dist.p50_ns);
    lemma_duration_plain(dist.p95_ns);
    lemma_duration_plain(dist.p99_ns);
}

proof fn lemma_resource_plain(res: ResourceMetrics)
    ensures
        is_plain(resource_section(res)),
{
    broadcast use lemma_joined;

    assert(is_plain("Process resource usage ("@)) by {
        reveal(is_plain);
        reveal_strlit("Process resource usage (");
    }
    assert(is_plain(" samples)\n  RSS                peak "@)) by {
        reveal(is_plain);
        reveal_strlit(" samples)\n  RSS                peak ");
    }
    assert(is_plain("  mean "@)) by {
        reveal(is_plain);
        reveal_strlit("  mean ");
    }
    assert(is_plain("\n                     min  "@)) by {
        reveal(is_plain);
        reveal_strlit("\n                     min  ");
    }
    assert(is_plain("  final "@)) by {
        reveal(is_plain);
        reveal_strlit("  final ");
    }
    assert(is_plain("\n  CPU utilization    "@)) by {
        reveal(is_plain);
        reveal_strlit("\n  CPU utilization    ");
    }
    assert(is_plain("mean "@)) by {
        reveal(is_plain);
        reveal_strlit("mean ");
    }
    assert(is_plain("%"@)) by {
        reveal(is_plain);
        reveal_strlit("%");
    }
    assert(is_plain("(not enough samples)"@)) by {
        reveal(is_plain);
        reveal_strlit("(not enough samples)");
    }
    assert(is_plain("\n  Threads            "@)) by {
        reveal(is_plain);
        reveal_strlit("\n  Threads            ");
    }
    assert(is_plain(" throughout"@)) by {
        reveal(is_plain);
        reveal_strlit(" throughout");
    }
    assert(is_plain(" .. "@)) by {
        reveal(is_plain);
        reveal_strlit(" .. ");
    }
    assert(is_plain("\n"@)) by {
        reveal(is_plain);
        reveal_strlit("\n");
    }
    lemma_digits_plain(res.sample_count as nat);
    lemma_bytes_plain(res.rss_max_bytes);
    lemma_bytes_plain(res.rss_mean_bytes);
    lemma_bytes_plain(res.rss_min_bytes);
    lemma_bytes_plain(res.rss_final_bytes);
    if let Some(percent) = res.cpu_mean_percent {
        lemma_fixed_plain(percent, 0);
    }
    lemma_digits_plain(res.thread_min as nat);
    lemma_digits_plain(res.thread_max as nat);
}

proof fn lemma_gpu_plain(gpu: GpuMetrics)
    ensures
        is_plain(gpu_section(gpu)),
{
    broadcast use lemma_joined;

    assert(is_plain("GPU resource usage ("@)) by {
        reveal(is_plain);
        reveal_strlit("GPU resource usage (");
    }
    assert(is_plain(" samples"@)) by {
        reveal(is_plain);
        reveal_strlit(" samples");
    }
    assert(is_plain(""@)) by {
        reveal(is_plain);
        reveal_strlit("");
    }
    assert(is_plain(", "@)) by {
        reveal(is_plain);
        reveal_strlit(", ");
    }
    assert(is_plain(" devices"@)) by {
        reveal(is_plain);
        reveal_strlit(" devices");
    }
    assert(is_plain(")\n  VRAM               peak "@)) by {
        reveal(is_plain);
        reveal_strlit(")\n  VRAM               peak ");
    }
    assert(is_plain("  mean "@)) by {
        reveal(is_plain);
        reveal_strlit("  mean ");
    }
    assert(is_plain("\n                     min  "@)) by {
        reveal(is_plain);
        reveal_strlit("\n                     min  ");
    }
    assert(is_plain("  total "@)) by {
        reveal(is_plain);
        reveal_strlit("  total ");
    }
    assert(is_plain("\n  SM utilization     peak "@)) by {
        reveal(is_plain);
        reveal_strlit("\n  SM utilization     peak ");
    }
    assert(is_plain("%  mean "@)) by {
        reveal(is_plain);
        reveal_strlit("%  mean ");
    }
    assert(is_plain("%  min "@)) by {
        reveal(is_plain);
        reveal_strlit("%  min ");
    }
    assert(is_plain("%\n  Temperature        peak "@)) by {
        reveal(is_plain);
        reveal_strlit("%\n  Temperature        peak ");
    }
    assert(is_plain(" C\n  Power draw         peak "@)) by {
        reveal(is_plain);
        reveal_strlit(" C\n  Power draw         peak ");
    }
    assert(is_plain(" W  mean "@)) by {
        reveal(is_plain);
        reveal_strlit(" W  mean ");
    }
    assert(is_plain(" W\n"@)) by {
        reveal(is_plain);
        reveal_strlit(" W\n");
    }
    lemma_digits_plain(gpu.sample_count as nat);
    lemma_digits_plain(gpu.device_count as nat);
    lemma_bytes_plain(gpu.memory_used_max_bytes);
    lemma_bytes_plain(gpu.memory_used_mean_bytes);
    lemma_bytes_plain(gpu.memory_used_min_bytes);
    lemma_bytes_plain(gpu.memory_total_bytes);
    lemma_digits_plain(gpu.utilization_max_percent as nat);
    lemma_digits_plain(gpu.utilization_mean_percent as nat);
    lemma_digits_plain(gpu.utilization_min_percent as nat);
    lemma_digits_plain(gpu.temperature_max_celsius as nat);
    lemma_fixed_plain(integer(gpu.power_max_milliwatts as nat).over(integer(1000)), 1);
    lemma_fixed_plain(integer(gpu.power_mean_milliwatts as nat).over(integer(1000)), 1);
}

/// The text of a report is plain ASCII, so that it copies into any medium.
pub proof fn law_text_is_plain(report: Report)
    ensures
        is_plain(report_text(report)),
{
    broadcast use lemma_joined;

    assert(is_plain("\n"@)) by {
        reveal(is_plain);
        reveal_strlit("\n");
    }
    assert(is_plain(Seq::empty())) by {
        reveal(is_plain);
    }
    lemma_summary_plain(report.timing);
    if let Some(dist) = report.timing.inter_token_latency {
        lemma_intervals_plain(dist);
    }
    if let Some(res) = report.resource {
        lemma_resource_plain(res);
    }
    if let Some(gpu) = report.gpu {
        lemma_gpu_plain(gpu);
    }
}

/// A figure to so many places is the nearest there is: as a number without its
/// point it is the figure times that power of ten, to the nearest whole, and
/// the point stands before the last so many digits.
pub proof fn law_fixed_point_is_the_nearest(x: Binary64, places: nat)
    requires
        places > 0,
    ensures
        ({
            let text = fixed_point(x, places);
            let n = text.len() - places - 1;
            let (whole, fraction) = (text.take(n), text.skip(n + 1));
            let p = pow10(places);
            let q = number(whole) * p + number(fraction);
            &&& n > 0
            &&& text[n] == '.'
            &&& all_decimal(whole) && all_decimal(fraction)
            &&& 2 * (q * x.den()) <= 2 * (x.num() * p) + x.den()
            &&& 2 * (x.num() * p) <= 2 * (q * x.den()) + x.den()
        }),
{
    let p = pow10(places);
    let q = half_even(x.num() * p, x.den());
    let whole = digits(q / p);
    let fraction = padded_digits(q % p, places);
    let text = fixed_point(x, places);
    crate::decimal::lemma_pow10_positive(places);
    law_digits_read_back(q / p);
    law_padded_digits_read_back(q % p, places);
    lemma_fundamental_div_mod(q as int, p as int);
    assert((q / p) * p == p * (q / p)) by (nonlinear_arith);
    let n = text.len() - places - 1;
    assert(n == whole.len());
    assert(text.take(n) =~= whole);
    assert(text.skip(n + 1) =~= fraction);
    lemma_half_even_is_nearest(x.num() * p, x.den());
}

/// A figure to no places is the nearest whole number.
pub proof fn law_whole_figures_are_the_nearest(x: Binary64)
    ensures
        ({
            let q = number(fixed_point(x, 0));
            &&& all_decimal(fixed_point(x, 0))
            &&& 2 * (q * x.den()) <= 2 * x.num() + x.den()
            &&& 2 * x.num() <= 2 * (q * x.den()) + x.den()
        }),
{
    assert(pow10(0) == 1);
    assert(x.num() * pow10(0) == x.num()) by (nonlinear_arith)
        requires
            pow10(0) == 1,
    ;
    law_digits_read_back(half_even(x.num(), x.den()));
    lemma_half_even_is_nearest(x.num(), x.den());
}

proof fn lemma_half_even_is_nearest(n: nat, d: nat)
    requires
        d == scale(0),
    ensures
        2 * (half_even(n, d) * d) <= 2 * n + d,
        2 * n <= 2 * (half_even(n, d) * d) + d,
{
    crate::binary64::lemma_scale_adds(0, 0);
    lemma_fundamental_div_mod(n as int, d as int);
    let q = n / d;
    assert(d * q == q * d && (q + 1) * d == q * d + d) by (nonlinear_arith);
}

/// A duration is shown in the largest unit it reaches, microseconds at least:
/// cut to whole ones below a second, else in seconds to three places.
pub proof fn law_durations_are_cut_to_their_unit(ns: u64)
    ensures
        1_000 <= ns < 1_000_000 ==> exists|v: nat|
            v * 1_000 <= ns < (v + 1) * 1_000 && duration_text(ns) == #[trigger] digits(v) + " us"@,
        1_000_000 <= ns < 1_000_000_000 ==> exists|v: nat|
            v * 1_000_000 <= ns < (v + 1) * 1_000_000 && duration_text(ns) == #[trigger] digits(v)
                + " ms"@,
        1_000_000_000 <= ns ==> exists|x: Binary64|
            is_near(x, ns as nat, 1_000_000_000, 3) && duration_text(ns) == #[trigger] fixed_point(
                x,
                3,
            ) + " s"@,
{
    if ns < 1_000_000 {
        let v = (ns / 1_000) as nat;
        assert(duration_text(ns) == digits(v) + " us"@ || ns < 1_000);
    } else if ns < 1_000_000_000 {
        let v = (ns / 1_000_000) as nat;
        assert(duration_text(ns) == digits(v) + " ms"@);
    } else {
        lemma_ratio_near(ns as nat, 1_000_000_000);
        let x = integer(ns as nat).over(integer(1_000_000_000));
        assert(duration_text(ns) == fixed_point(x, 3) + " s"@);
    }
}

/// A number of bytes is shown in the largest unit it reaches: cut to whole ones
/// below a gibibyte, else in gibibytes to two places.
pub proof fn law_bytes_are_cut_to_their_unit(bytes: u64)
    ensures
        bytes < 1024 ==> bytes_text(bytes) == digits(bytes as nat) + " B"@,
        1024 <= bytes < 1_048_576 ==> exists|v: nat|
            v * 1024 <= bytes < (v + 1) * 1024 && bytes_text(bytes) == #[trigger] digits(v)
                + " KiB"@,
        1_048_576 <= bytes < 1_073_741_824 ==> exists|v: nat|
            v * 1_048_576 <= bytes < (v + 1) * 1_048_576 && bytes_text(bytes) == #[trigger] digits(v)
                + " MiB"@,
        1_073_741_824 <= bytes ==> exists|x: Binary64|
            is_near(x, bytes as nat, 1_073_741_824, 3) && bytes_text(bytes)
                == #[trigger] fixed_point(x, 2) + " GiB"@,
{
    if bytes < 1024 {
    } else if bytes < 1_048_576 {
        let v = (bytes / 1024) as nat;
        assert(bytes_text(bytes) == digits(v) + " KiB"@);
    } else if bytes < 1_073_741_824 {
        let v = (bytes / 1_048_576) as nat;
        assert(bytes_text(bytes) == digits(v) + " MiB"@);
    } else {
        lemma_ratio_near(bytes as nat, 1_073_741_824);
        let x = integer(bytes as nat).over(integer(1_073_741_824));
        assert(bytes_text(bytes) == fixed_point(x, 2) + " GiB"@);
    }
}

/// Power is shown in watts to one place.
pub proof fn law_power_is_shown_in_watts(milliwatts: u32)
    ensures
        exists|x: Binary64|
            is_near(x, milliwatts as nat, 1000, 3) && watts_text(milliwatts)
                == #[trigger] fixed_point(x, 1),
{
    lemma_ratio_near(milliwatts as nat, 1000);
    let x = integer(milliwatts as nat).over(integer(1000));
    assert(watts_text(milliwatts) == fixed_point(x, 1));
}

proof fn lemma_ratio_near(a: nat, b: nat)
    requires
        a <= u64::MAX,
        0 < b <= u64::MAX,
    ensures
        is_near(integer(a).over(integer(b)), a, b, 3),
{
    lemma_integer_near(a);
    lemma_integer_near(b);
    lemma_over_near(integer(a), 64, a, 1, 1, integer(b), 64, b, 1, 1);
    assert(a * 1 == a && 1 * b == b) by (nonlinear_arith);
}

/// Whether a text holds a part, from somewhere on.
#[verifier::opaque]
pub open spec fn shows(text: Seq<char>, part: Seq<char>) -> bool {
    exists|front: Seq<char>, back: Seq<char>| text == #[trigger] (front + part + back)
}

pub broadcast proof fn lemma_shows_last(front: Seq<char>, name: Seq<char>, figure: Seq<char>)
    ensures
        #[trigger] shows(front + name + figure, name + figure),
{
    reveal(shows);
    let part = name + figure;
    assert(front + name + figure =~= (front + part) + Seq::<char>::empty());
}

pub broadcast proof fn lemma_shows_first(name: Seq<char>, figure: Seq<char>)
    ensures
        #[trigger] shows(name + figure, name + figure),
{
    reveal(shows);
    let part = name + figure;
    assert(part =~= (Seq::<char>::empty() + part) + Seq::<char>::empty());
}

pub broadcast proof fn lemma_shows_more(text: Seq<char>, more: Seq<char>, part: Seq<char>)
    requires
        shows(text, part),
    ensures
        #[trigger] shows(text + more, part),
{
    reveal(shows);
    let (front, back) = choose|front: Seq<char>, back: Seq<char>|
        text == #[trigger] (front + part + back);
    assert(text + more =~= (front + part) + (back + more));
}

pub proof fn lemma_shows_itself(part: Seq<char>)
    ensures
        shows(part, part),
{
    reveal(shows);
    assert(part =~= Seq::<char>::empty() + part + Seq::<char>::empty());
}

pub proof fn lemma_shows_behind(before: Seq<char>, text: Seq<char>, part: Seq<char>)
    requires
        shows(text, part),
    ensures
        shows(before + text, part),
{
    reveal(shows);
    let (front, back) = choose|front: Seq<char>, back: Seq<char>|
        text == #[trigger] (front + part + back);
    assert(before + text =~= (before + front) + part + back);
}

/// Every figure of a request stands in its text behind its own name.
pub proof fn law_timing_is_shown_by_name(timing: TimingMetrics)
    ensures
        shows(
            probe_summary(timing),
            "Probe summary\n  Tokens generated      "@ + digits(timing.token_count as nat),
        ),
        timing.ttft_ns matches Some(ns) ==> shows(
            probe_summary(timing),
            "\n  Time to first token   "@ + duration_text(ns),
        ),
        timing.tokens_per_second matches Some(rate) ==> shows(
            probe_summary(timing),
            "\n  Generation rate       "@ + (fixed_point(rate, 1) + " tokens/s"@),
        ),
        shows(
            probe_summary(timing),
            "\n  Total latency         "@ + duration_text(timing.total_latency_ns),
        ),
{
    broadcast use {lemma_shows_last, lemma_shows_first, lemma_shows_more};

}

/// Every figure of the intervals stands in their text behind its own name.
pub proof fn law_intervals_are_shown_by_name(dist: LatencyDistribution)
    ensures
        shows(
            inter_token_section(dist),
            "Inter-token latency (from "@ + digits(dist.count as nat),
        ),
        shows(inter_token_section(dist), " intervals)\n  mean   "@ + duration_cell(dist.mean_ns)),
        shows(inter_token_section(dist), "      max    "@ + duration_cell(dist.max_ns)),
        shows(inter_token_section(dist), "\n  p50    "@ + duration_cell(dist.p50_ns)),
        shows(inter_token_section(dist), "      p95    "@ + duration_cell(dist.p95_ns)),
        shows(inter_token_section(dist), "\n  p99    "@ + duration_cell(dist.p99_ns)),
{
    broadcast use {lemma_shows_last, lemma_shows_first, lemma_shows_more};

}

/// Every figure of a process stands in its text behind its own name.
pub proof fn law_resources_are_shown_by_name(res: ResourceMetrics)
    ensures
        shows(
            resource_section(res),
            " samples)\n  RSS                peak "@ + bytes_text(res.rss_max_bytes),
        ),
        shows(resource_section(res), "  mean "@ + bytes_text(res.rss_mean_bytes)),
        shows(
            resource_section(res),
            "\n                     min  "@ + bytes_text(res.rss_min_bytes),
        ),
        shows(resource_section(res), "  final "@ + bytes_text(res.rss_final_bytes)),
        res.cpu_mean_percent matches Some(percent) ==> shows(
            resource_section(res),
            "\n  CPU utilization    "@ + ("mean "@ + fixed_point(percent, 0) + "%"@),
        ),
        shows(
            resource_section(res),
            "\n  Threads            "@ + (if res.thread_min == res.thread_max {
                digits(res.thread_max as nat) + " throughout"@
            } else {
                digits(res.thread_min as nat) + " .. "@ + digits(res.thread_max as nat)
            }),
        ),
{
    broadcast use {lemma_shows_last, lemma_shows_first, lemma_shows_more};

}

/// Every figure of the devices stands in their text behind its own name.
pub proof fn law_devices_are_shown_by_name(gpu: GpuMetrics)
    ensures
        shows(
            gpu_section(gpu),
            ")\n  VRAM               peak "@ + bytes_text(gpu.memory_used_max_bytes),
        ),
        shows(gpu_section(gpu), "  mean "@ + bytes_text(gpu.memory_used_mean_bytes)),
        shows(
            gpu_section(gpu),
            "\n                     min  "@ + bytes_text(gpu.memory_used_min_bytes),
        ),
        shows(gpu_section(gpu), "  total "@ + bytes_text(gpu.memory_total_bytes)),
        shows(
            gpu_section(gpu),
            "\n  SM utilization     peak "@ + digits(gpu.utilization_max_percent as nat),
        ),
        shows(gpu_section(gpu), "%  mean "@ + digits(gpu.utilization_mean_percent as nat)),
        shows(gpu_section(gpu), "%  min "@ + digits(gpu.utilization_min_percent as nat)),
        shows(
            gpu_section(gpu),
            "%\n  Temperature        peak "@ + digits(gpu.temperature_max_celsius as nat),
        ),
        shows(
            gpu_section(gpu),
            " C\n  Power draw         peak "@ + watts_text(gpu.power_max_milliwatts),
        ),
        shows(gpu_section(gpu), " W  mean "@ + watts_text(gpu.power_mean_milliwatts)),
{
    broadcast use {lemma_shows_last, lemma_shows_first, lemma_shows_more};

}

} // verus!
