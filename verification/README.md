# argus

An observability toolkit — metrics, traces and logs in one embedded store,
with a PromQL-lite query front end — written in Verus. The library's
behaviour is stated in `requires` / `ensures` contracts and proved.

## Layout

- `src/` — the verified library.
  - Data model: `timestamp`, `labels` (sorted label sets and the FNV-1a
    series id), `attributes`, `resource`, `trace`, `log`, `metric`, `signal`,
    `batch`, `hex`.
  - Storage: `bitstream` and `gorilla` (the compressed sample codec, proved to
    decode exactly what was pushed), `series`, `index` (the label index, whose
    `select` is proved against set semantics), `metrics`, `traces`, `logs`,
    `engine`, `stats`.
  - Query front end: `token`, `lexer`, `ast`, `parser` (both proved against a
    grammar written as spec functions), `plan` (lowering and type checking,
    proved to yield only runnable plans) and `grouping`.
  - Ingest and analysis: `otlp` (format choice by content type and the
    OTLP-to-span mapping), `correlate` (explaining an anomaly window by its
    slowest spans and error logs), `rng`, `topology`, `color`, `text`.
- `tests/` — tests of the library on concrete values.
- `app/` — the demo program: terminal output, file reading, and the parts
  that are floating-point arithmetic (the synthetic workload, query
  evaluation, anomaly detectors).
