//! A small stateful graph engine: nodes read a state and emit deltas, edges
//! decide where execution continues, and a validated graph is run from its
//! entry until it routes to the exit.

pub mod graph;
