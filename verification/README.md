# inferscope

A profiler for LLM inference engines that speak the OpenAI API. It times the
tokens of a streamed completion, samples the engine process, its GPUs and its
`/metrics` endpoint on one clock, and derives a report: latency distribution,
resource usage, energy per token, prefix-cache hit rate, energy by phase,
attribution to the steps of a trajectory, and cost at a declared rate.

Everything that computes is a library verified with
[Verus](https://github.com/verus-lang/verus); what reads clocks, files, sockets
and NVML stands around it.

## Layout

- `src/` is the verified library.
  - Signals: `timing`, `resource`, `gpu`, `kvcache`, `phase`, `speculative`,
    `lora`.
  - Reading them: `wire`, `decoder` and `probe` for the streamed answer,
    `procfs` and `sampling` for the process and its GPUs, `schema`,
    `exposition` and `scrape` for the engine's metrics.
  - Deriving from them: `stats`, `energy`, `gpu_metrics`, `derive`, `steps`,
    `trajectory`, `cost`, with the results in `metrics`.
  - Putting it together: `session`, `command`.
  - Showing it: `render`, `pricing`, `otel`.
  - Ground: `text`, `decimal`, `numeral`, `rounding`, `shortest`, `binary64`,
    `period`, `error`.
- `app/` is the command-line program: argument parsing, the HTTP client, the
  sampling loops, NVML, the JSON documents and the OTLP exporter.
- `tests/` run the library from outside.

## What is proved

Every public function has a contract that says what it returns, and when it
fails, over mathematical models of its arguments. Proof functions whose names
begin with `law_` state what holds of the library as a whole, among them:

- however the bytes of a stream are cut, the same lines come out;
- the energy of the steps of a trajectory and the energy outside them add up
  to the energy of the run, to the millijoule, and so does the time;
- no stretch of time is attributed twice, and no step goes unaccounted;
- a counter that was not observed stays absent and never reads as zero;
- the split of energy between prefill and decode loses nothing;
- the order of the lines in a steps file does not matter;
- the figures of a device rest on its own samples and counter alone;
- an aggregate is never presented as better measured than its weakest part;
- a number shown in a complaint reads back as itself, and nothing shorter does.

Figures with a fraction are computed in integer arithmetic that rounds as IEEE
754 double precision does: see `binary64`. Its exponents are unbounded, so
nothing overflows to infinity. Numbers are read from text to the bit as double
precision holds them, subnormal values as well: see `rounding`.

What std functions do is taken from their documentation where Verus has no
specification of them: `String::push`, `String::from`, `From<T> for T`,
`Debug` of `str`, `core::str::from_utf8`, `Duration::as_nanos` and
`Duration::from_millis`.
