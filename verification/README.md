# taskflowrs

A task-graph runtime whose logic is verified with Verus.

- `src/` is the library. Task graphs and their handles (`taskflow`,
  `task`, `subflow`, `condition`, `composition`), cycle detection and
  topological order (`cycle_detection`), the scheduling queues
  (`scheduler`, `dynamic_priority`), the executor's decisions
  (`executor`: which task a worker runs next, what a finished task makes
  ready), the data-parallel graph builders and their sequential kernels
  (`algorithms`), pipelines with back-pressure (`pipeline`), NUMA and
  cache topology and CPU affinity (`numa`, `hwloc_topology`, `parse`),
  stream pools (`gpu_backend`, `gpu_stream`), and the tooling: profiles,
  counters, logs, DOT graphs, flamegraph trees, the dashboard page,
  percentiles and baseline files (`profiler`, `monitoring`, `metrics`,
  `debug`, `visualization`, `flamegraph`, `dashboard`, `regression`,
  `baseline_json`). Verus proves every function there against its
  contract; the laws that relate several calls are public proof functions.
  Objects shared between threads through atomics or locks (the
  cancellation tokens, the shared scheduler and its escalation pass) state
  only what holds whatever other threads do, which for some of their
  calls is nothing.
- `app/` is the runtime around it: worker threads, the async executor,
  watchdog threads and signals, sysfs reading and thread binding, the HTTP
  dashboard, and everything computed in floating point (utilisation,
  timelines, SVG geometry, regression ratios).
- `tests/` runs the library on concrete values.
