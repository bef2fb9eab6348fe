# rustflow

A task-graph runtime with parallel algorithms and a benchmark harness, whose
logic is verified with Verus.

## Layout

- `src/` — the verified library.
  - Task graphs: `graph` (the graph and its well-formedness), `dot`, `inspect`
    (summary and validation), `cycles` (tasks that can never become ready),
    `snapshot` (a graph frozen for a run), `compat`.
  - Running a graph: `run` (the inline run state machine), `repeat`
    (repeated runs: a number of times, or until a predicate holds), `inline` (an inline
    run of an acyclic graph is a topological order), `status` (run and async
    handles, join scopes, task groups, async dependencies, semaphores),
    `queue` (work-stealing order over `crossbeam-deque`), `parking` (the
    worker sleep/wake protocol), `backoff` (spin, then yield, then block),
    `trace`, `perf`, `error`.
  - Pipelines: `pipeline` (pipes, contexts, token batches, pipeline state).
  - Algorithms: `parallel_for`, `partitioner`, `buffers`, `algorithms`
    (reduce, transform, find), `scan`, `sort`, `heap`, `order`, `quicksort`.
  - Benchmarks: `bench` (datasets, checksums, scenario kernels, statistics),
    `options` (command-line lists), `report` (JSON and table output),
    `driver` (the report of the external benchmark driver),
    `suite` (which cases of the comparison suite against C++ Taskflow run,
    in what order, and which are skipped), `level_graph` (the layered graph
    of the graph-pipeline case and its checksum), `compare` and `kernels`
    (points, checksums and workloads of the suite).
- `app/` — threads, closures and I/O around the library: the executor,
  pipelines on threads, parallel algorithms on scoped threads, the
  benchmark harness, and `taskflow_compare` (compiling and running the
  Taskflow drivers, timing the Rust workloads, the Markdown report).
- `tests/` — tests of the library.
