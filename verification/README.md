# aperture

A small stateful graph engine, verified with Verus.

Nodes read a state and emit a delta; the run merges each delta into the state
and asks the node's edge where to go next, until an edge routes to the exit.
A graph is assembled with `Graph::builder()`, `add_node`, `add_edge` and
`add_conditional_edge`, and `build()` validates the wiring before the graph
may run.

Layout of `src/graph/`:

- `id.rs`: node ids, the entry and exit sentinels, and `Next` steps.
- `state.rs`, `node.rs`: the `State`, `StateDelta`, `Merge` and `Node` traits
  that users implement, each with a spec function for its behaviour.
- `route.rs`: the `Edge` trait, unconditional and conditional edges.
- `table.rs`: the id-keyed table that stores nodes and routers, each key once.
- `text.rs`: decimal text of counts, for a graph's text form.
- `wiring.rs`: reachability from the entry, the validity of a graph, and the
  breadth-first walk that checks it and picks which missing node to report.
- `definition.rs`: the builder, `build`, `Graph::run`, and the graph's text
  form (`debug_text`).
- `runtime.rs`: runnable nodes, the meaning of a run (`runs_to`, `run_outcome`), and a
  separate node registry (`Runtime`) that runs along a graph's wiring.
- `laws.rs`: what validation guarantees about runs, runs as recorded traces,
  and how registration errors are kept.

Nodes may have side effects (model calls, I/O): a node states which deltas
it may emit, and every contract about a run holds for each delta a node may
return.
