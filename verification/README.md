# agentos_core

The core of an agent runtime, verified with Verus: what it decides, stated in
contracts and proved.

- `src/` is the library.
  - `identity`, `json`, `pretty`, `text`, `lists`, `ranking`: the plain values
    everything else is stated over.
  - `message`, `state`: messages, transcripts and runs.
  - `paths`: names that stay one path component, paths that stay beneath a
    root, and the steps of a durable write.
  - `prompt`: what a request contains, how large it is, and how it is kept
    within its window.
  - `memory`: scopes and who may use them, records, sessions, leases,
    reflection, retention, and bringing older databases up to date.
  - `orchestrator`: commands, routes, and what a model's answer comes to.
  - `retention`: sweeping files and rotating the log.
  - `runner`: starting, pausing, resuming and finishing a run.
- `app/` performs what the library decides: SQLite, files, providers, the
  clock, and floating point.
- `tests/` runs the library on concrete values.

What the library takes from other crates it takes through a few trusted items,
each with a comment that says what is claimed: strings as `serde_json` writes
them, dates as `chrono` reads them, and a handful of string operations of the
standard library.
