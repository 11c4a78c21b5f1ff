# tm

A minimal time tracker for projects and tasks, written in Verus: the library
in `src/` is verified, the command line and the daemon in `app/` are ordinary
Rust around it.

## Layout

- `src/time.rs`: instants as seconds, half-hour rounding and its laws, the
  calls into chrono.
- `src/duration.rs`: `1h 2m 3s` durations.
- `src/sql.rs`: the SQLite connection; every call is kept in a ghost record,
  which the database's contracts speak of.
- `src/db.rs`: the database: projects, tasks, time entries, stopping with
  rounding, amending, squashing a day, the log.
- `src/squash.rs`: which fragments a squash merges, and its laws.
- `src/summary.rs`: the log grouped by task, with totals, and its laws.
- `src/report.rs`, `src/daily.rs`: how entries show in the log, and the log
  by day.
- `src/input.rs`: instants and days given on the command line.
- `src/commands.rs`: starting, continuing, amending, squashing and clearing,
  with their refusals.
- `src/state.rs`, `src/ipc.rs`: the daemon's tracking state and its messages.
- `app/`: the `tm` command line (clap, colored), the JSON messages on the
  daemon's socket (serde), and the daemon's loops (tokio).

Data is kept in `~/.config/tm/data.sqlite`.
