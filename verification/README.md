# logbench

A harness that benchmarks Rust logging crates (env_logger, fern, slog,
slog-async, tracing, tracing-appender, winston). Each logger is run on each
output target (a sink, stdout, a file) in a child process of its own, in a
freshly shuffled order each round; the child prints one `LOGMARK:` report line,
and the parent collects the reports and writes summary tables.

- `src/` is the library, verified with Verus: logger and target names
  (`logger.rs`, `target.rs`), the run schedule (`schedule.rs`), the report line
  and its reader (`report.rs`, on top of the text helpers in `text.rs`), the
  table of results with its name order and per-target grouping (`results.rs`),
  the measuring loop (`measure.rs`) and the command-line test (`invocation.rs`).
- `app/main.rs` is the program: it configures the logging crates, spawns the
  child processes, converts measurements to seconds and MiB, computes the
  floating-point statistics and writes the reports.
- `tests/` exercises the library on concrete values.
