# aion_processor

Scheduling of systems for the aion engine, verified with Verus.

Systems ask to run before or after other systems, with a priority for when such
requests form a cycle. The library turns those requests into a dependency graph
without cycles, runs the graph node by node (a node may run once every node it
depends on has completed) and records what each system came to.

Layout:

- `src/status.rs`, `src/execution_data.rs`: the stage of a node and the count of
  its outstanding dependencies.
- `src/node.rs`, `src/node_map.rs`: paths of nodes and the dependency map.
- `src/processor_ordering.rs`: what one system asks for.
- `src/execution_graph.rs`: building the graph and cutting its cycles;
  `src/execution_graph/active_execution_graph.rs`: a graph being run.
- `src/processor/`: the decisions of the processor: claiming a system, recording
  what its run came to, the state of running a whole graph (`graph_run.rs`),
  grouping graphs into chunks, keeping the systems that can run, queueing
  systems by blockers and invariants (`system_registry.rs`, `system_queue.rs`).
- `src/parameters/filter.rs`: cutting requests into batches for a filtered
  parameter; `src/parameters/primitives.rs`: parameters that take exactly one
  request and one result.
- `src/system/`: what a system hands back.
- `app/`: threads, polling of futures and panic reports around the library.
