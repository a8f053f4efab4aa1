use aperture::graph::definition::BuildError;
use aperture::graph::node::{Next, Node, NodeId};
use aperture::graph::route::Edge;
use aperture::graph::state::{Merge, State, StateDelta};
use aperture::graph::Graph;
use vstd::seq::Seq;

#[derive(Default, Clone, Debug, PartialEq, Eq)]
struct Counter {
    n: i64,
}

impl Counter {
    pub fn new(n: i64) -> Self {
        Self { n }
    }
}

impl State for Counter {}
impl StateDelta for Counter {}

impl Merge for Counter {
    fn spec_merge(self, _delta: Self) -> Self {
        unreachable!()
    }

    fn merge(&mut self, delta: Self) {
        self.n += delta.n;
    }
}

struct Inc;

impl Node for Inc {
    type State = Counter;
    type Delta = Counter;

    fn spec_emits(&self, _state: Counter, _delta: Counter) -> bool {
        unreachable!()
    }

    fn run(&self, _state: &Self::State) -> Self::Delta {
        Counter { n: 1 }
    }
}

struct Dec;

impl Node for Dec {
    type State = Counter;
    type Delta = Counter;

    fn spec_emits(&self, _state: Counter, _delta: Counter) -> bool {
        unreachable!()
    }

    fn run(&self, _state: &Self::State) -> Self::Delta {
        Counter { n: -1 }
    }
}

struct EndIfZero;

impl Edge<Counter> for EndIfZero {
    fn spec_route(&self, _state: Counter) -> Option<Seq<char>> {
        unreachable!()
    }

    fn spec_possible_next(&self) -> Seq<Option<Seq<char>>> {
        unreachable!()
    }

    fn route(&self, state: &Counter) -> Next {
        if state.n == 0 {
            return Next::End;
        } else {
            return Next::from_node(NodeId("a"));
        }
    }

    fn possible_next(&self) -> Vec<Next> {
        vec![Next::from_node(NodeId("a")), Next::End]
    }
}

struct ToStart;

impl Edge<Counter> for ToStart {
    fn spec_route(&self, _state: Counter) -> Option<Seq<char>> {
        unreachable!()
    }

    fn spec_possible_next(&self) -> Seq<Option<Seq<char>>> {
        unreachable!()
    }

    fn route(&self, _state: &Counter) -> Next {
        Next::from_node(NodeId("__start__"))
    }

    fn possible_next(&self) -> Vec<Next> {
        vec![Next::from_node(NodeId("__start__"))]
    }
}

#[test]
fn missing_entry() {
    // START -X- a ──▶ b ──▶ END
    let a = NodeId("node a");
    let b = NodeId("node b");

    let graph = Graph::builder()
        .add_node(a, Inc)
        .add_node(b, Inc)
        .add_edge(a, b)
        .add_edge(b, NodeId::end())
        .build();

    assert_eq!(graph.err().unwrap(), BuildError::MissingEntry)
}

#[test]
fn entry_invalid_use() {
    // START -> a -> START
    let a = NodeId("node a");

    let graph = Graph::builder()
        .add_node(a, Inc)
        .add_edge(NodeId::start(), a)
        .add_edge(a, NodeId::start())
        .build();

    assert_eq!(graph.err().unwrap(), BuildError::InvalidEntry)
}

#[test]
fn end_invalid_use() {
    // START -> a -> END -> a
    let a = NodeId("node a");

    let graph = Graph::builder()
        .add_node(a, Inc)
        .add_edge(NodeId::start(), a)
        .add_edge(a, NodeId::end())
        .add_edge(NodeId::end(), a)
        .build();

    assert_eq!(graph.err().unwrap(), BuildError::InvalidExit)
}

#[test]
fn missing_end() {
    // START ──▶ a ──▶ b ──▶ a (never ends)
    let a = NodeId("a");
    let b = NodeId("b");

    let graph = Graph::builder()
        .add_node(a, Inc)
        .add_node(b, Inc)
        .add_edge(NodeId::start(), a)
        .add_edge(a, b)
        .add_edge(b, a)
        .build();

    assert_eq!(graph.err().unwrap(), BuildError::MissingExit);
}

#[test]
fn missing_edge() {
    // START ──▶ a ──▶ b ──▶ ???
    // c ──▶ d ──▶ END   (unreachable island)
    let a = NodeId("a");
    let b = NodeId("b");
    let c = NodeId("c");
    let d = NodeId("d");

    let graph = Graph::builder()
        .add_node(a, Inc)
        .add_node(b, Inc)
        .add_node(c, Inc)
        .add_node(d, Inc)
        .add_edge(NodeId::start(), a)
        .add_edge(a, b)
        .add_edge(c, d)
        .add_edge(d, NodeId::end())
        .build();

    assert_eq!(graph.err().unwrap(), BuildError::MissingRoute(b));
}

#[test]
fn empty_graph() {
    let graph = Graph::<Counter, Counter>::builder().build();

    assert_eq!(graph.err().unwrap(), BuildError::MissingEntry)
}

#[test]
fn duplicate_node() {
    // START ──▶ a ──▶ illegal (__end__) -> b -> END
    let a = NodeId("a");
    let illegal = NodeId("__end__");
    let b = NodeId("b");

    let graph = Graph::builder()
        .add_node(a, Inc)
        .add_node(illegal, Inc)
        .add_node(b, Inc)
        .add_edge(NodeId::start(), a)
        .add_edge(a, illegal)
        .add_edge(illegal, b)
        .add_edge(b, NodeId::end())
        .build();

    assert_eq!(graph.err().unwrap(), BuildError::InvalidExit);
}

#[test]
fn simple_increment() {
    // START ──▶ a ──▶ b ──▶ END
    let graph = Graph::builder()
        .add_node("a", Inc)
        .add_node("b", Inc)
        .add_edge(NodeId::start(), "a")
        .add_edge("a", "b")
        .add_edge("b", NodeId::end())
        .build()
        .unwrap();

    let out = graph.run(Counter::default());

    assert_eq!(out.unwrap().n, 2);
}

#[test]
fn basic_conditional() {
    // START ──▶ a ──▶ END, or START ──▶ END when n == 0
    let a = NodeId("a");

    let graph = Graph::builder()
        .add_node(a, Dec)
        .add_conditional_edge(NodeId::start(), EndIfZero)
        .add_edge(a, NodeId::end())
        .build()
        .unwrap();

    let out = graph.run(Counter::new(2));

    assert_eq!(out.unwrap().n, 1);
}

#[test]
fn looping_conditional() {
    // START ──▶ a, then a ──▶ a while n != 0, a ──▶ END when n == 0
    let a = NodeId("a");

    let graph = Graph::builder()
        .add_node(a, Dec)
        .add_edge(NodeId::start(), a)
        .add_conditional_edge("a", EndIfZero)
        .build()
        .unwrap();

    let out = graph.run(Counter::new(10));

    assert_eq!(out.unwrap().n, 0);
}

#[test]
fn invalid_conditional_exit() {
    // END ──────────────▶ ???
    let graph = Graph::<Counter, Counter>::builder()
        .add_conditional_edge(NodeId::end(), EndIfZero)
        .build()
        .err()
        .unwrap();

    assert_eq!(graph, BuildError::InvalidExit);
}

#[test]
fn invalid_conditional_entry() {
    // START ──────▶ a ──X──▶ START
    let graph = Graph::builder()
        .add_node("a", Inc)
        .add_edge(NodeId::start(), "a")
        .add_conditional_edge("a", ToStart)
        .build()
        .err()
        .unwrap();

    assert_eq!(graph, BuildError::InvalidEntry);
}

#[test]
fn graph_text_counts_nodes_and_routes() {
    let graph = Graph::builder()
        .add_node("a", Inc)
        .add_node("b", Inc)
        .add_edge(NodeId::start(), "a")
        .add_edge("a", "b")
        .add_edge("b", NodeId::end())
        .build()
        .unwrap();
    assert_eq!(graph.debug_text(), "Graph { nodes: 2, routes: 3 }");
}

#[test]
fn graph_text_writes_counts_in_decimal() {
    let names = ["n0", "n1", "n2", "n3", "n4", "n5", "n6", "n7", "n8", "n9", "n10", "n11"];
    let mut builder = Graph::builder().add_edge(NodeId::start(), names[0]);
    for i in 0..names.len() {
        builder = builder.add_node(names[i], Inc);
        if i + 1 < names.len() {
            builder = builder.add_edge(names[i], names[i + 1]);
        } else {
            builder = builder.add_edge(names[i], NodeId::end());
        }
    }
    let graph = builder.build().unwrap();
    assert_eq!(graph.debug_text(), "Graph { nodes: 12, routes: 13 }");
}
