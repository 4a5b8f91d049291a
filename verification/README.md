# Firq

A scheduler for many tenants in one process, written in Verus. Tenants take turns by
deficit round robin, limits bound what may be pending, tasks with a missed deadline are
dropped, and tasks can be cancelled while they wait.

## Layout

- `src/model.rs` says what every operation does, as functions from view to view.
- `src/engine.rs` holds the state and the operations on it, one at a time, with exact
  contracts over the model; `src/state.rs`, `src/ring.rs`, `src/books.rs` and
  `src/metrics.rs` are its parts.
- `src/invariants.rs`, `src/capacity.rs`, `src/delivery.rs`, `src/fairness.rs` and
  `src/accounts.rs` prove what the operations keep.
- `src/laws.rs` states what holds of the scheduler as a whole; `src/history.rs` says where
  tasks that are handed out come from, `src/patience.rs` how many attempts a waiting task
  needs, and `src/talkers.rs` how good the table of top talkers is.
- `src/scheduler.rs` is the scheduler that threads share: the engine behind a lock of
  `parking_lot`. `src/sync.rs` and `src/time.rs` hold all that is taken on trust: the
  lock, the condition variable, the comparison of shared handles and the monotonic clock.
- `src/handoff.rs`, `src/tower.rs` and `src/web.rs` are the decisions of asynchronous
  consumers, of the request layer and of HTTP front ends.
- `src/prometheus.rs` renders the metrics; `src/text.rs` reads and writes numbers.
- `src/bench.rs` and `src/pipeline.rs` are loads to try the scheduler with.
- `app/` is a program around the library: the Tokio adapter, the Tower layer, the
  benchmark and the examples.

## Time

Points in time are numbers of nanoseconds on the time line of a scheduler's clock.
`Scheduler::now` reads it; timestamps and deadlines of tasks are on the same line.
