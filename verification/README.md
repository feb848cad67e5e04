# movespan

A Block-STM contention profiler for Aptos Move, with its core verified in Verus.

Aptos executes a block optimistically in parallel and re-executes a
transaction whenever it read a location that an earlier transaction wrote.
Movespan records what every transaction of a workload read and wrote, rebuilds
the read-after-write dependency graph, estimates the parallel makespan with a
greedy list scheduler, ranks the locations that cost parallelism, and simulates
a fix for each by re-running the model with that location made
non-conflicting.

## Layout

- `src/` — the verified library.
  - `location.rs`, `access.rs`: interned storage locations, their classes and
    the captured access sets of transactions.
  - `model_spec.rs`: the mathematical model (dependency edges, critical path,
    greedy schedule); `model.rs`: `analyze`, proved equal to it;
    `model_laws.rs`: properties of the model (work/span/makespan bounds, a
    shared key serializes, independent transactions parallelize, ...).
  - `rules.rs`: counter detection, advice, simulated fixes and `suggest`.
  - `report.rs`, `fmt.rs`: the text and HTML reports and HTML escaping.
  - `footprint.rs`: the raw storage footprint report.
  - `state_key.rs`: classification of storage keys and id assignment.
  - `workload.rs`: the seeded workload planner.
  - `network.rs`: network names and paging through transaction history.
  - `text.rs`: string helpers and the calls into `str`/`String`.
- `app/` — the command-line program: the Aptos VM sandbox, state recording,
  network replay, TOML and JSON, and the floating-point ratios of a report.
- `tests/` — tests of the library.
