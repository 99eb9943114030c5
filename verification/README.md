# Kordrel

Kordrel is a local orchestrator of workflows written in YAML. It runs the tasks
that are ready as processes, keeps their states, attempts and logs in SQLite, and
shows them over a read-only HTTP interface.

The rules of the orchestrator form a library that is verified with Verus; the
program around it does the reading, the running and the storing.

## Layout

- `src/workflow.rs`, `src/graph.rs`: workflows, what makes one valid, and the
  search for cycles among dependencies.
- `src/simulation.rs`: the groups of tasks that would run one after the other.
- `src/records.rs`, `src/model.rs`, `src/db.rs`: the record of the runs, what each
  operation does to it, and what the queries read from it.
- `src/scheduler.rs`, `src/worker.rs`: which tasks to block and to launch, when a
  run is over, and when a task is tried again.
- `src/api.rs`, `src/cli.rs`: what the HTTP interface answers and what the command
  line decides and prints.
- `src/lifecycle.rs`, `src/laws.rs`, `src/progress.rs`, `src/recovery.rs`,
  `src/paths.rs`, `src/times.rs`, `src/order.rs`, `src/history.rs`: what holds of
  every run at all times, and what follows from it: dependencies come first,
  failures block what depends on them and nothing else, the limit on concurrency is
  kept, attempts stay within their budget, success is final, interrupted runs are
  carried on without repeating what succeeded, the recorded times tell the order in
  which tasks went, and every run comes to an end.
- `src/text.rs`, `src/json.rs`: texts, numbers and JSON objects.
- `app/`: the program: files, SQLite, processes, HTTP and the command line.
- `tests/`: the library at work on concrete values.
