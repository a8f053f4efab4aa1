//! end to end run of a linear graph

use aperture::graph::node::{Node, NodeId};
use aperture::graph::state::{Merge, State, StateDelta};
use aperture::graph::Graph;

#[derive(Default, Clone, Debug, PartialEq, Eq)]
struct Counter {
    n: u64,
}

impl State for Counter {}
impl StateDelta for Counter {}

impl Merge for Counter {
    fn spec_merge(self, _delta: Self) -> Self {
        unreachable!()
    }

    fn merge(&mut self, delta: Self) {
        self.n += delta.n;
    }
}

struct Inc;

impl Node for Inc {
    type State = Counter;
    type Delta = Counter;

    fn spec_emits(&self, _state: Counter, _delta: Counter) -> bool {
        unreachable!()
    }

    fn run(&self, _state: &Self::State) -> Self::Delta {
        Counter { n: 1 }
    }
}

#[test]
fn linear_graph_runs_until_end() {
    let a = NodeId("a");
    let b = NodeId("b");

    let graph = Graph::builder()
        .add_node(a, Inc)
        .add_node(b, Inc)
        .add_edge(NodeId::start(), a)
        .add_edge(a, b)
        .add_edge(b, NodeId::end())
        .build()
        .unwrap();

    let out = graph.run(Counter::default()).unwrap();
    assert_eq!(out.n, 2);
}
