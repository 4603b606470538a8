# lss-collector

The collector watches one inference server: it polls the engine, the gateway in front of it, the GPUs and
the kernel journal, keeps what it saw, raises alerts, runs benchmarks and answers over HTTP.

- `src/` is the verified library: every decision the collector makes. When a benchmark may start and what
  stops it, which kernel lines are new reports, what an HTTP request is answered, which rows a chart reads,
  what the cost wizard asks next. Each function states what it returns or changes, and Verus proves it. The
  `law_*` proof functions state what holds across functions.
- `tests/` runs the library on concrete values.
- `app/` is the program around it: sockets, processes, SQLite, the NVML library, the terminal, and the
  floating-point figures of `lss_core`.

What is read or written is handed to the library as plain values; the library hands back what to do next.
JSON goes through `serde_json`, behind the wrappers of `src/json.rs`.
