//! A report as a trace: the attributes of its root span and the events on it.
//!
//! Sending belongs to the caller.
use vstd::prelude::*;
use vstd::string::*;

use crate::binary64::Binary64;
use crate::gpu::EnergySource;
use crate::metrics::{EfficiencyMetrics, GpuMetrics, Report, ResourceMetrics, TimingMetrics};
use crate::timing::TokenArrival;

verus! {

/// What can go wrong with an export.
#[derive(Debug, Clone, PartialEq, Eq)]
pub enum OtelExportError {
    /// The exporter could not be set up.
    SetupFailed(String),
    /// The span could not be delivered.
    ExportFailed {
        /// Where to.
        endpoint: String,
        /// What the exporter reported.
        message: String,
    },
}

impl OtelExportError {
    /// The error in words.
    pub open spec fn words(self) -> Seq<char> {
        match self {
            OtelExportError::SetupFailed(message) => "failed to initialise OTLP exporter: "@
                + message@,
            OtelExportError::ExportFailed { endpoint, message } => "failed to export span to "@
                + endpoint@ + ": "@ + message@,
        }
    }

    /// The error in words.
    pub fn message(&self) -> (text: String)
        ensures
            text@ == self.words(),
    {
        match self {
            OtelExportError::SetupFailed(message) => {
                let mut text: String = String::from_str("failed to initialise OTLP exporter: ");
                text.append(message.as_str());
                text
            },
            OtelExportError::ExportFailed { endpoint, message } => {
                let mut text: String = String::from_str("failed to export span to ");
                text.append(endpoint.as_str());
                text.append(": ");
                text.append(message.as_str());
                text
            },
        }
    }
}

/// The value of an attribute.
#[derive(Debug, Clone, Copy, PartialEq, Eq)]
pub enum AttributeValue<'a> {
    /// An integer.
    Int(i64),
    /// A double.
    Double(Binary64),
    /// A text.
    Text(&'a str),
}

/// One attribute of a span.
#[derive(Debug, Clone, Copy, PartialEq, Eq)]
pub struct Attribute<'a> {
    /// Its name.
    pub key: &'static str,
    /// Its value.
    pub value: AttributeValue<'a>,
}

/// An attribute that holds an integer: the low 64 bits, signed.
pub open spec fn integer<'a>(key: &'static str, n: u64) -> Attribute<'a> {
    Attribute { key, value: AttributeValue::Int(n as i64) }
}

/// An attribute that holds a double.
pub open spec fn double<'a>(key: &'static str, x: Binary64) -> Attribute<'a> {
    Attribute { key, value: AttributeValue::Double(x) }
}

/// The attribute of a value that may be missing.
pub open spec fn if_integer<'a>(key: &'static str, n: Option<u64>) -> Seq<Attribute<'a>> {
    match n {
        Some(n) => seq![integer(key, n)],
        None => Seq::empty(),
    }
}

/// The attribute of a value that may be missing.
pub open spec fn if_double<'a>(key: &'static str, x: Option<Binary64>) -> Seq<Attribute<'a>> {
    match x {
        Some(x) => seq![double(key, x)],
        None => Seq::empty(),
    }
}

/// The attributes of the timing.
pub open spec fn timing_attributes<'a>(timing: TimingMetrics) -> Seq<Attribute<'a>> {
    seq![
        integer("inferscope.timing.token_count", timing.token_count as u64),
        integer("inferscope.timing.total_latency_ns", timing.total_latency_ns),
    ] + if_integer("inferscope.timing.ttft_ns", timing.ttft_ns) + if_double(
        "inferscope.timing.tokens_per_second",
        timing.tokens_per_second,
    ) + match timing.inter_token_latency {
        Some(dist) => seq![
            integer("inferscope.timing.inter_token_p50_ns", dist.p50_ns),
            integer("inferscope.timing.inter_token_p99_ns", dist.p99_ns),
            integer("inferscope.timing.inter_token_max_ns", dist.max_ns),
        ],
        None => Seq::empty(),
    }
}

/// The attributes of the process.
pub open spec fn resource_attributes<'a>(resource: Option<ResourceMetrics>) -> Seq<Attribute<'a>> {
    match resource {
        Some(res) => seq![
            integer("inferscope.resource.rss_max_bytes", res.rss_max_bytes),
            integer("inferscope.resource.rss_mean_bytes", res.rss_mean_bytes),
            integer("inferscope.resource.thread_max", res.thread_max as u64),
        ] + if_double("inferscope.resource.cpu_mean_percent", res.cpu_mean_percent),
        None => Seq::empty(),
    }
}

/// The attributes of the devices.
pub open spec fn gpu_attributes<'a>(gpu: Option<GpuMetrics>) -> Seq<Attribute<'a>> {
    match gpu {
        Some(gpu) => seq![
            integer("inferscope.gpu.device_count", gpu.device_count as u64),
            integer("inferscope.gpu.memory_used_max_bytes", gpu.memory_used_max_bytes),
            integer("inferscope.gpu.utilization_mean_percent", gpu.utilization_mean_percent as u64),
            integer("inferscope.gpu.power_mean_milliwatts", gpu.power_mean_milliwatts as u64),
            integer("inferscope.gpu.temperature_max_celsius", gpu.temperature_max_celsius as u64),
        ],
        None => Seq::empty(),
    }
}

/// An energy source in words.
pub open spec fn source_text(source: EnergySource) -> &'static str {
    match source {
        EnergySource::Counter => "counter",
        EnergySource::IntegratedFallback => "integrated_fallback",
    }
}

/// The attributes of the energy efficiency. Tokens per watt are left out: they
/// are tokens per joule under another name.
pub open spec fn efficiency_attributes<'a>(efficiency: Option<EfficiencyMetrics>) -> Seq<
    Attribute<'a>,
> {
    match efficiency {
        Some(eff) => seq![
            double("inferscope.efficiency.energy_joules", eff.energy_joules),
            double("inferscope.efficiency.energy_per_token_mj", eff.energy_per_token_mj),
            double("inferscope.efficiency.tokens_per_joule", eff.tokens_per_joule),
            Attribute {
                key: "inferscope.efficiency.energy_source",
                value: AttributeValue::Text(source_text(eff.energy_source)),
            },
        ],
        None => Seq::empty(),
    }
}

fn push_integer<'a>(out: &mut Vec<Attribute<'a>>, key: &'static str, n: u64)
    ensures
        final(out)@ == old(out)@.push(integer(key, n)),
{
    #[verifier::truncate]
    let value: i64 = n as i64;
    out.push(Attribute { key, value: AttributeValue::Int(value) });
}

fn push_double<'a>(out: &mut Vec<Attribute<'a>>, key: &'static str, x: Binary64)
    ensures
        final(out)@ == old(out)@.push(double(key, x)),
{
    out.push(Attribute { key, value: AttributeValue::Double(x) });
}

fn push_timing<'a>(out: &mut Vec<Attribute<'a>>, timing: &TimingMetrics)
    ensures
        final(out)@ == old(out)@ + timing_attributes(*timing),
{
    push_integer(out, "inferscope.timing.token_count", timing.token_count as u64);
    push_integer(out, "inferscope.timing.total_latency_ns", timing.total_latency_ns);
    if let Some(ns) = timing.ttft_ns {
        push_integer(out, "inferscope.timing.ttft_ns", ns);
    }
    if let Some(rate) = timing.tokens_per_second {
        push_double(out, "inferscope.timing.tokens_per_second", rate);
    }
    if let Some(dist) = &timing.inter_token_latency {
        push_integer(out, "inferscope.timing.inter_token_p50_ns", dist.p50_ns);
        push_integer(out, "inferscope.timing.inter_token_p99_ns", dist.p99_ns);
        push_integer(out, "inferscope.timing.inter_token_max_ns", dist.max_ns);
    }
    assert(out@ =~= old(out)@ + timing_attributes(*timing));
}

fn push_resource<'a>(out: &mut Vec<Attribute<'a>>, resource: &Option<ResourceMetrics>)
    ensures
        final(out)@ == old(out)@ + resource_attributes(*resource),
{
    if let Some(res) = resource {
        push_integer(out, "inferscope.resource.rss_max_bytes", res.rss_max_bytes);
        push_integer(out, "inferscope.resource.rss_mean_bytes", res.rss_mean_bytes);
        push_integer(out, "inferscope.resource.thread_max", res.thread_max as u64);
        if let Some(cpu) = res.cpu_mean_percent {
            push_double(out, "inferscope.resource.cpu_mean_percent", cpu);
        }
    }
    assert(out@ =~= old(out)@ + resource_attributes(*resource));
}

fn push_gpu<'a>(out: &mut Vec<Attribute<'a>>, gpu: &Option<GpuMetrics>)
    ensures
        final(out)@ == old(out)@ + gpu_attributes(*gpu),
{
    if let Some(gpu) = gpu {
        push_integer(out, "inferscope.gpu.device_count", gpu.device_count as u64);
        push_integer(out, "inferscope.gpu.memory_used_max_bytes", gpu.memory_used_max_bytes);
        push_integer(
            out,
            "inferscope.gpu.utilization_mean_percent",
            gpu.utilization_mean_percent as u64,
        );
        push_integer(out, "inferscope.gpu.power_mean_milliwatts", gpu.power_mean_milliwatts as u64);
        push_integer(out, "inferscope.gpu.temperature_max_celsius", gpu.temperature_max_celsius as u64);
    }
    assert(out@ =~= old(out)@ + gpu_attributes(*gpu));
}

fn push_efficiency<'a>(out: &mut Vec<Attribute<'a>>, efficiency: &Option<EfficiencyMetrics>)
    ensures
        final(out)@ == old(out)@ + efficiency_attributes(*efficiency),
{
    if let Some(eff) = efficiency {
        push_double(out, "inferscope.efficiency.energy_joules", eff.energy_joules);
        push_double(out, "inferscope.efficiency.energy_per_token_mj", eff.energy_per_token_mj);
        push_double(out, "inferscope.efficiency.tokens_per_joule", eff.tokens_per_joule);
        let source: &'static str = match eff.energy_source {
            EnergySource::Counter => "counter",
            EnergySource::IntegratedFallback => "integrated_fallback",
        };
        out.push(
            Attribute {
                key: "inferscope.efficiency.energy_source",
                value: AttributeValue::Text(source),
            },
        );
    }
    assert(out@ =~= old(out)@ + efficiency_attributes(*efficiency));
}

/// The attributes of the root span: where it goes, then what was derived.
/// What a report does not hold has no attribute.
pub fn span_attributes<'a>(report: &Report, endpoint: &'a str) -> (out: Vec<Attribute<'a>>)
    ensures
        out@ == seq![
            (Attribute { key: "inferscope.endpoint", value: AttributeValue::Text(endpoint) }),
        ] + timing_attributes(report.timing) + resource_attributes(report.resource)
            + gpu_attributes(report.gpu) + efficiency_attributes(report.efficiency),
{
    let mut out: Vec<Attribute<'a>> = Vec::new();
    out.push(Attribute { key: "inferscope.endpoint", value: AttributeValue::Text(endpoint) });
    assert(out@ =~= seq![
        (Attribute { key: "inferscope.endpoint", value: AttributeValue::Text(endpoint) }),
    ]);
    push_timing(&mut out, &report.timing);
    push_resource(&mut out, &report.resource);
    push_gpu(&mut out, &report.gpu);
    push_efficiency(&mut out, &report.efficiency);
    out
}

/// Where the root span starts.
#[derive(Debug, Clone, Copy, PartialEq, Eq, Structural)]
pub enum SpanStart {
    /// At the wall-clock instant the run started, in Unix nanoseconds.
    Anchored {
        /// That instant.
        unix_ns: u64,
    },
    /// So that it ends now: the report says how long the run took, not when.
    EndingNow {
        /// How long the run took, in nanoseconds.
        duration_ns: u64,
    },
}

/// Where the root span of a report starts.
pub fn span_start(report: &Report) -> (start: SpanStart)
    ensures
        start == match report.reference_instant_unix_ns {
            Some(unix_ns) => SpanStart::Anchored { unix_ns },
            None => SpanStart::EndingNow { duration_ns: report.timing.total_latency_ns },
        },
{
    match report.reference_instant_unix_ns {
        Some(unix_ns) => SpanStart::Anchored { unix_ns },
        None => SpanStart::EndingNow { duration_ns: report.timing.total_latency_ns },
    }
}

/// The arrival of a token as an event: when it falls, and its two attributes.
#[derive(Debug, Clone, Copy, PartialEq, Eq, Structural)]
pub struct TokenEvent {
    /// Nanoseconds from the start of the run.
    pub offset_ns: u64,
    /// The attribute `token.index`.
    pub index: i64,
    /// The attribute `token.elapsed_ns`.
    pub elapsed_ns: i64,
}

/// The event of one arrival.
pub open spec fn event_of(token: TokenArrival) -> TokenEvent {
    TokenEvent {
        offset_ns: token.elapsed_ns,
        index: token.index as i64,
        elapsed_ns: token.elapsed_ns as i64,
    }
}

/// One event per token, in order of arrival.
pub fn token_events(report: &Report) -> (events: Vec<TokenEvent>)
    ensures
        events@ == report.request_timing.tokens@.map_values(|t: TokenArrival| event_of(t)),
{
    let ghost f = |t: TokenArrival| event_of(t);
    let mut events: Vec<TokenEvent> = Vec::new();
    let mut i: usize = 0;
    assert(events@ =~= report.request_timing.tokens@.take(0).map_values(f));
    while i < report.request_timing.tokens.len()
        invariant
            i <= report.request_timing.tokens@.len(),
            f == |t: TokenArrival| event_of(t),
            events@ == report.request_timing.tokens@.take(i as int).map_values(f),
        decreases report.request_timing.tokens@.len() - i,
    {
        let token: TokenArrival = report.request_timing.tokens[i];
        #[verifier::truncate]
        let elapsed_ns: i64 = token.elapsed_ns as i64;
        events.push(
            TokenEvent { offset_ns: token.elapsed_ns, index: token.index as i64, elapsed_ns },
        );
        i += 1;
        assert(events@ =~= report.request_timing.tokens@.take(i as int).map_values(f));
    }
    assert(report.request_timing.tokens@.take(i as int) =~= report.request_timing.tokens@);
    events
}

/// Whether some attribute in the list is the given one.
#[verifier::opaque]
pub open spec fn carries<'a>(list: Seq<Attribute<'a>>, a: Attribute<'a>) -> bool {
    exists|i: int| 0 <= i < list.len() && #[trigger] list[i] == a
}

proof fn lemma_carries<'a>(list: Seq<Attribute<'a>>, i: int)
    requires
        0 <= i < list.len(),
    ensures
        carries(list, list[i]),
{
    reveal(carries);
}

/// A span carries every figure of the timing under its own name, and a missing
/// one under none.
pub proof fn law_timing_is_carried_by_name<'a>(timing: TimingMetrics)
    ensures
        ({
            let list = timing_attributes::<'a>(timing);
            &&& carries(list, integer("inferscope.timing.token_count", timing.token_count as u64))
            &&& carries(
                list,
                integer("inferscope.timing.total_latency_ns", timing.total_latency_ns),
            )
            &&& timing.ttft_ns matches Some(ns) ==> carries(
                list,
                integer("inferscope.timing.ttft_ns", ns),
            )
            &&& timing.tokens_per_second matches Some(x) ==> carries(
                list,
                double("inferscope.timing.tokens_per_second", x),
            )
            &&& timing.inter_token_latency matches Some(d) ==> {
                &&& carries(list, integer("inferscope.timing.inter_token_p50_ns", d.p50_ns))
                &&& carries(list, integer("inferscope.timing.inter_token_p99_ns", d.p99_ns))
                &&& carries(list, integer("inferscope.timing.inter_token_max_ns", d.max_ns))
            }
            &&& list.len() == 2 + (if timing.ttft_ns is Some {
                1int
            } else {
                0
            }) + (if timing.tokens_per_second is Some {
                1int
            } else {
                0
            }) + (if timing.inter_token_latency is Some {
                3int
            } else {
                0
            })
        }),
{
    let list = timing_attributes::<'a>(timing);
    let first = if_integer::<'a>("inferscope.timing.ttft_ns", timing.ttft_ns).len() as int;
    let rate = if_double::<'a>(
        "inferscope.timing.tokens_per_second",
        timing.tokens_per_second,
    ).len() as int;
    lemma_carries(list, 0);
    lemma_carries(list, 1);
    if timing.ttft_ns is Some {
        lemma_carries(list, 2);
    }
    if timing.tokens_per_second is Some {
        lemma_carries(list, 2 + first);
    }
    if timing.inter_token_latency is Some {
        lemma_carries(list, 2 + first + rate);
        lemma_carries(list, 2 + first + rate + 1);
        lemma_carries(list, 2 + first + rate + 2);
    }
}

/// A span carries every figure of the process, the devices and the efficiency
/// that it shows under its own name.
pub proof fn law_figures_are_carried_by_name<'a>(
    res: ResourceMetrics,
    gpu: GpuMetrics,
    eff: EfficiencyMetrics,
)
    ensures
        ({
            let list = resource_attributes::<'a>(Some(res));
            &&& carries(list, integer("inferscope.resource.rss_max_bytes", res.rss_max_bytes))
            &&& carries(list, integer("inferscope.resource.rss_mean_bytes", res.rss_mean_bytes))
            &&& carries(list, integer("inferscope.resource.thread_max", res.thread_max as u64))
            &&& res.cpu_mean_percent matches Some(x) ==> carries(
                list,
                double("inferscope.resource.cpu_mean_percent", x),
            )
        }),
        ({
            let list = gpu_attributes::<'a>(Some(gpu));
            &&& carries(list, integer("inferscope.gpu.device_count", gpu.device_count as u64))
            &&& carries(
                list,
                integer("inferscope.gpu.memory_used_max_bytes", gpu.memory_used_max_bytes),
            )
            &&& carries(
                list,
                integer(
                    "inferscope.gpu.utilization_mean_percent",
                    gpu.utilization_mean_percent as u64,
                ),
            )
            &&& carries(
                list,
                integer("inferscope.gpu.power_mean_milliwatts", gpu.power_mean_milliwatts as u64),
            )
            &&& carries(
                list,
                integer(
                    "inferscope.gpu.temperature_max_celsius",
                    gpu.temperature_max_celsius as u64,
                ),
            )
        }),
        ({
            let list = efficiency_attributes::<'a>(Some(eff));
            &&& carries(list, double("inferscope.efficiency.energy_joules", eff.energy_joules))
            &&& carries(
                list,
                double("inferscope.efficiency.energy_per_token_mj", eff.energy_per_token_mj),
            )
            &&& carries(
                list,
                double("inferscope.efficiency.tokens_per_joule", eff.tokens_per_joule),
            )
            &&& carries(
                list,
                (Attribute {
                    key: "inferscope.efficiency.energy_source",
                    value: AttributeValue::Text(
                        if eff.energy_source is Counter {
                            "counter"
                        } else {
                            "integrated_fallback"
                        },
                    ),
                }),
            )
        }),
{
    let process = resource_attributes::<'a>(Some(res));
    lemma_carries(process, 0);
    lemma_carries(process, 1);
    lemma_carries(process, 2);
    if res.cpu_mean_percent is Some {
        lemma_carries(process, 3);
    }
    let devices = gpu_attributes::<'a>(Some(gpu));
    lemma_carries(devices, 0);
    lemma_carries(devices, 1);
    lemma_carries(devices, 2);
    lemma_carries(devices, 3);
    lemma_carries(devices, 4);
    let energy = efficiency_attributes::<'a>(Some(eff));
    lemma_carries(energy, 0);
    lemma_carries(energy, 1);
    lemma_carries(energy, 2);
    lemma_carries(energy, 3);
}

/// Every arrival is an event at its own time, with its own position.
pub proof fn law_events_are_the_arrivals(token: TokenArrival)
    ensures
        event_of(token).offset_ns == token.elapsed_ns,
        event_of(token).index == token.index,
        token.elapsed_ns <= i64::MAX ==> event_of(token).elapsed_ns == token.elapsed_ns,
{
}

} // verus!
