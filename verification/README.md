# proc_siding_lib

A pressure monitor for safe-idle-worker governance: it samples external
pressure on a shared resource (a GPU), pauses a workload through configured
actions when the pressure is sustained, and resumes it when the pressure
clears.

The decisions are a Verus-verified library under `src/`:

- `monitor` — reading the detector command's `<value>\t<entity>` output, and
  the hysteresis state machine, with proofs that transitions fire exactly on
  sustained runs of samples (for runs shorter than `u32::MAX` samples, the
  width of the counters) and that they alternate.
- `action` — what each action asks for, URL reading (`http://` and `unix:`),
  the HTTP/1.0 request text, and how a reply is judged.
- `detector` — which processes count as contributors to GPU pressure, with a
  baseline that the first sample fixes for good.
- `discovery` — PID lists, and the depth-first walk over `children` files
  that collects a process tree, with a proof that a finished walk holds
  exactly the closure of its roots.
- `metrics_server` — routing of metrics requests and the replies.
- `config`, `logging` — configured actions, defaults and log settings.
- `text` — trimming, lines, tokens, unsigned parsing and decimal rendering,
  each stated against the corresponding `str` operation.

`app/` is the program around it: command line, configuration file, logging,
Prometheus metrics, processes, sockets and the floating-point measurements.
`app/logging.rs` installs a `tracing-subscriber` formatter at the configured
level, in text or JSON.
