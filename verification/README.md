# gugu_guard

A process guardian (咕咕鸽进程守护): it starts, stops, restarts and watches
configured processes, keeps their output, probes their health, and serves a
REST API, a live WebSocket view and Prometheus metrics.

## Layout

- `src/` — the verified library (Verus).
  - `config.rs` — configuration types, validation, path normalization.
  - `strmap.rs` — an insertion-ordered map keyed by strings.
  - `process.rs` — the state of one managed process, its in-memory logs,
    line handling and log rotation rules.
  - `manager.rs` — dependency ordering, the manager's state machine
    (start/stop/restart/update/remove/reload, crash restarts, health check
    scheduling).
  - `api.rs` — key checking, replies, statistics, groups, log downloads,
    the file browser's listing order, live-view subscriptions.
  - `metrics.rs` — what the exported gauges read, and the gauges.
  - `cli.rs` — the command-line client's URLs, tables and parsing, PID file
    and service registration texts.
  - `text.rs`, `error.rs` — string helpers and the error type.
- `app/` — the program around the library: command line, daemon, child
  processes, HTTP server, configuration files.
- `tests/` — tests of the library.
