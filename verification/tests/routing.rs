use aperture::graph::definition::BuildError;
use aperture::graph::id::IntoNodeId;
use aperture::graph::node::{Next, Node, NodeId};
use aperture::graph::route::{ConditionalEdge, Edge, RouteTargets, UnconditionalEdge};
use aperture::graph::runtime::{RunError, Runtime};
use aperture::graph::state::{Merge, State, StateDelta};
use aperture::graph::Graph;
use vstd::seq::Seq;

#[derive(Default, Clone, Debug, PartialEq, Eq)]
struct Tally {
    n: i64,
    steps: u32,
}

impl State for Tally {}
impl StateDelta for Tally {}

impl Merge for Tally {
    fn spec_merge(self, _delta: Self) -> Self {
        unreachable!()
    }

    fn merge(&mut self, delta: Self) {
        self.n += delta.n;
        self.steps += delta.steps;
    }
}

struct Add(i64);

impl Node for Add {
    type State = Tally;
    type Delta = Tally;

    fn spec_emits(&self, _state: Tally, _delta: Tally) -> bool {
        unreachable!()
    }

    fn run(&self, _state: &Self::State) -> Self::Delta {
        Tally { n: self.0, steps: 1 }
    }
}

struct Double;

impl Node for Double {
    type State = Tally;
    type Delta = Tally;

    fn spec_emits(&self, _state: Tally, _delta: Tally) -> bool {
        unreachable!()
    }

    fn run(&self, state: &Self::State) -> Self::Delta {
        Tally { n: state.n, steps: 1 }
    }
}

#[derive(Clone, Copy, Debug, PartialEq)]
enum Target {
    Again,
    Done,
}

impl RouteTargets for Target {
    fn spec_variants() -> Seq<Option<Seq<char>>> {
        unreachable!()
    }

    fn spec_next(self) -> Option<Seq<char>> {
        unreachable!()
    }

    fn variants() -> Vec<Next> {
        vec![Next::from_node(NodeId("loop")), Next::End]
    }

    fn to_next(self) -> Next {
        match self {
            Target::Again => Next::from_node(NodeId("loop")),
            Target::Done => Next::End,
        }
    }
}

/// declares `a` but routes somewhere else
struct Liar(&'static str);

impl Edge<Tally> for Liar {
    fn spec_route(&self, _state: Tally) -> Option<Seq<char>> {
        unreachable!()
    }

    fn spec_possible_next(&self) -> Seq<Option<Seq<char>>> {
        unreachable!()
    }

    fn route(&self, _state: &Tally) -> Next {
        Next::from_node(NodeId(self.0))
    }

    fn possible_next(&self) -> Vec<Next> {
        vec![Next::End]
    }
}

/// declares a target that was never registered
struct Ghostly;

impl Edge<Tally> for Ghostly {
    fn spec_route(&self, _state: Tally) -> Option<Seq<char>> {
        unreachable!()
    }

    fn spec_possible_next(&self) -> Seq<Option<Seq<char>>> {
        unreachable!()
    }

    fn route(&self, _state: &Tally) -> Next {
        Next::End
    }

    fn possible_next(&self) -> Vec<Next> {
        vec![Next::End, Next::from_node(NodeId("ghost"))]
    }
}

#[test]
fn from_node_normalizes_end() {
    assert_eq!(Next::from_node(NodeId("__end__")), Next::End);
    assert_eq!(Next::from_node(NodeId::end()), Next::End);
    assert_eq!(Next::from_node(NodeId("x")), Next::Node(NodeId("x")));
    assert_eq!(Next::from_node(NodeId::start()), Next::Node(NodeId("__start__")));
}

#[test]
fn node_ids_compare_by_name() {
    assert_eq!(NodeId("a"), NodeId("a"));
    assert_ne!(NodeId("a"), NodeId("b"));
    assert_ne!(NodeId("ab"), NodeId("a"));
    assert_eq!(NodeId::start(), NodeId("__start__"));
    assert_eq!(NodeId::end(), NodeId("__end__"));
    assert_ne!(NodeId::start(), NodeId::end());
    assert_eq!("a".into_node_id(), NodeId("a"));
    assert_eq!(NodeId("z").into_node_id(), NodeId("z"));
    assert_ne!(Next::End, Next::Node(NodeId("x")));
}

#[test]
fn unconditional_edge_ignores_state() {
    let e = UnconditionalEdge(NodeId("b"));
    assert_eq!(Edge::<Tally>::route(&e, &Tally::default()), Next::Node(NodeId("b")));
    assert_eq!(Edge::<Tally>::route(&e, &Tally { n: 9, steps: 3 }), Next::Node(NodeId("b")));
    assert_eq!(Edge::<Tally>::possible_next(&e), vec![Next::Node(NodeId("b"))]);
    let to_end = UnconditionalEdge(NodeId::end());
    assert_eq!(Edge::<Tally>::route(&to_end, &Tally::default()), Next::End);
    assert_eq!(Edge::<Tally>::possible_next(&to_end), vec![Next::End]);
}

#[test]
fn conditional_edge_follows_its_function() {
    let e = ConditionalEdge::new(|s: &Tally| if s.n < 8 { Target::Again } else { Target::Done });
    assert_eq!(e.route(&Tally { n: 1, steps: 0 }), Next::Node(NodeId("loop")));
    assert_eq!(e.route(&Tally { n: 8, steps: 0 }), Next::End);
    assert_eq!(e.possible_next(), vec![Next::Node(NodeId("loop")), Next::End]);
}

#[test]
fn conditional_loop_runs_until_done() {
    // START ──▶ loop ──▶ loop ... ──▶ END once n >= 8
    let graph = Graph::builder()
        .add_node("loop", Double)
        .add_edge(NodeId::start(), "loop")
        .add_conditional_edge(
            "loop",
            ConditionalEdge::new(|s: &Tally| if s.n < 8 { Target::Again } else { Target::Done }),
        )
        .build()
        .unwrap();
    let out = graph.run(Tally { n: 1, steps: 0 }).unwrap();
    assert_eq!(out, Tally { n: 8, steps: 3 });
}

#[test]
fn entry_straight_to_end_keeps_state() {
    let graph = Graph::builder()
        .add_node("a", Add(5))
        .add_edge(NodeId::start(), NodeId::end())
        .add_edge("a", NodeId::end())
        .build()
        .unwrap();
    assert_eq!(graph.run(Tally { n: 3, steps: 0 }).unwrap(), Tally { n: 3, steps: 0 });
}

#[test]
fn nodes_run_in_route_order() {
    // START ──▶ a (+2) ──▶ b (double) ──▶ END
    let graph = Graph::builder()
        .add_node("a", Add(2))
        .add_node("b", Double)
        .add_edge(NodeId::start(), "a")
        .add_edge("a", "b")
        .add_edge("b", NodeId::end())
        .build()
        .unwrap();
    assert_eq!(graph.run(Tally { n: 1, steps: 0 }).unwrap(), Tally { n: 6, steps: 2 });
}

#[test]
fn router_lookup() {
    let graph = Graph::builder()
        .add_node("a", Add(1))
        .add_edge(NodeId::start(), "a")
        .add_edge("a", NodeId::end())
        .build()
        .unwrap();
    let entry = graph.router(NodeId::start()).unwrap();
    assert_eq!(entry.0.route(&Tally::default()), Next::Node(NodeId("a")));
    assert_eq!(graph.router(NodeId("a")).unwrap().0.possible_next(), vec![Next::End]);
    assert!(graph.router(NodeId::end()).is_none());
    assert!(graph.router(NodeId("nope")).is_none());
}

#[test]
fn duplicate_registration_fails() {
    let graph = Graph::builder()
        .add_node("a", Add(1))
        .add_node("a", Add(2))
        .add_edge(NodeId::start(), "a")
        .add_edge("a", NodeId::end())
        .build();
    assert_eq!(graph.err().unwrap(), BuildError::DuplicateNode(NodeId("a")));
}

#[test]
fn first_registration_error_wins() {
    let graph = Graph::builder()
        .add_node("a", Add(1))
        .add_edge("a", NodeId::start())
        .add_edge(NodeId::end(), "a")
        .add_node("a", Add(1))
        .build();
    assert_eq!(graph.err().unwrap(), BuildError::InvalidEntry);
}

#[test]
fn registration_error_before_missing_entry() {
    let graph = Graph::<Tally, Tally>::builder().add_edge(NodeId::end(), "a").build();
    assert_eq!(graph.err().unwrap(), BuildError::InvalidExit);
}

#[test]
fn exit_route_before_unrouted_node() {
    let graph = Graph::builder()
        .add_node("a", Add(1))
        .add_edge(NodeId::start(), NodeId::end())
        .add_conditional_edge(NodeId::end(), Ghostly)
        .build();
    assert_eq!(graph.err().unwrap(), BuildError::InvalidExit);
}

#[test]
fn first_unrouted_node_is_reported() {
    let graph = Graph::builder()
        .add_node("a", Add(1))
        .add_node("b", Add(1))
        .add_node("c", Add(1))
        .add_edge(NodeId::start(), "a")
        .add_edge("a", NodeId::end())
        .build();
    assert_eq!(graph.err().unwrap(), BuildError::MissingRoute(NodeId("b")));
}

#[test]
fn undeclared_target_is_reported() {
    let graph = Graph::builder()
        .add_node("a", Add(1))
        .add_edge(NodeId::start(), "a")
        .add_conditional_edge("a", Ghostly)
        .build();
    assert_eq!(graph.err().unwrap(), BuildError::MissingRoute(NodeId("ghost")));
}

#[test]
fn unreachable_exit_is_reported() {
    let graph = Graph::builder()
        .add_node("a", Add(1))
        .add_node("b", Add(1))
        .add_edge(NodeId::start(), "a")
        .add_edge("a", "a")
        .add_edge("b", NodeId::end())
        .build();
    assert_eq!(graph.err().unwrap(), BuildError::MissingExit);
}

#[test]
fn lying_router_reaches_unknown_node() {
    let graph = Graph::builder()
        .add_node("a", Add(1))
        .add_edge(NodeId::start(), "a")
        .add_conditional_edge("a", Liar("zzz"))
        .build()
        .unwrap();
    assert_eq!(graph.run(Tally::default()), Err(RunError::UnknownNode(NodeId("zzz"))));
}

#[test]
fn runtime_runs_its_own_nodes() {
    let graph = Graph::builder()
        .add_node("a", Add(1))
        .add_node("b", Add(1))
        .add_edge(NodeId::start(), "a")
        .add_edge("a", "b")
        .add_edge("b", NodeId::end())
        .build()
        .unwrap();
    let mut runtime = Runtime::new();
    runtime.node(NodeId("a"), Add(10)).node(NodeId("b"), Double);
    assert_eq!(runtime.run(&graph, Tally::default()).unwrap(), Tally { n: 20, steps: 2 });
}

#[test]
fn runtime_reports_unregistered_node() {
    let graph = Graph::builder()
        .add_node("a", Add(1))
        .add_edge(NodeId::start(), "a")
        .add_edge("a", NodeId::end())
        .build()
        .unwrap();
    let runtime: Runtime<Tally, Tally> = Runtime::default();
    assert_eq!(runtime.run(&graph, Tally::default()), Err(RunError::UnknownNode(NodeId("a"))));
}

#[test]
fn runtime_reports_node_without_route() {
    let graph = Graph::builder()
        .add_node("a", Add(1))
        .add_edge(NodeId::start(), "a")
        .add_conditional_edge("a", Liar("x"))
        .build()
        .unwrap();
    let mut runtime = Runtime::new();
    runtime.node(NodeId("a"), Add(1)).node(NodeId("x"), Add(1));
    assert_eq!(runtime.run(&graph, Tally::default()), Err(RunError::MissingRoute(NodeId("x"))));
}

#[test]
fn node_named_after_entry_never_runs() {
    // a node registered under the entry's name is wired by the entry route but never runs
    let graph = Graph::builder()
        .add_node(NodeId::start(), Add(100))
        .add_node("a", Add(1))
        .add_edge(NodeId::start(), "a")
        .add_edge("a", NodeId::end())
        .build()
        .unwrap();
    assert_eq!(graph.run(Tally::default()).unwrap(), Tally { n: 1, steps: 1 });
}

/// declares two unregistered targets
struct TwoGhosts;

impl Edge<Tally> for TwoGhosts {
    fn spec_route(&self, _state: Tally) -> Option<Seq<char>> {
        unreachable!()
    }

    fn spec_possible_next(&self) -> Seq<Option<Seq<char>>> {
        unreachable!()
    }

    fn route(&self, _state: &Tally) -> Next {
        Next::End
    }

    fn possible_next(&self) -> Vec<Next> {
        vec![Next::End, Next::from_node(NodeId("first")), Next::from_node(NodeId("second"))]
    }
}

#[test]
fn first_undeclared_target_in_list_is_reported() {
    let graph = Graph::builder()
        .add_node("a", Add(1))
        .add_edge(NodeId::start(), "a")
        .add_conditional_edge("a", TwoGhosts)
        .build();
    assert_eq!(graph.err().unwrap(), BuildError::MissingRoute(NodeId("first")));
}

/// a node whose delta depends on something outside the state: each run
/// adds one more than the last
struct Outside(std::cell::Cell<i64>);

impl Node for Outside {
    type State = Tally;
    type Delta = Tally;

    fn spec_emits(&self, _state: Tally, _delta: Tally) -> bool {
        unreachable!()
    }

    fn run(&self, _state: &Self::State) -> Self::Delta {
        let n = self.0.get() + 1;
        self.0.set(n);
        Tally { n, steps: 1 }
    }
}

#[test]
fn run_merges_whatever_delta_comes_back() {
    let graph = Graph::builder()
        .add_node("a", Outside(std::cell::Cell::new(0)))
        .add_edge(NodeId::start(), "a")
        .add_edge("a", NodeId::end())
        .build()
        .unwrap();
    assert_eq!(graph.run(Tally::default()).unwrap(), Tally { n: 1, steps: 1 });
    assert_eq!(graph.run(Tally::default()).unwrap(), Tally { n: 2, steps: 1 });
}

#[test]
fn counts_nodes_and_routers_once_each() {
    let graph = Graph::builder()
        .add_node("a", Add(1))
        .add_node("b", Add(1))
        .add_edge(NodeId::start(), "a")
        .add_edge("a", "b")
        .add_edge("a", NodeId::end())
        .add_edge("b", NodeId::end())
        .build()
        .unwrap();
    assert_eq!(graph.counts(), (2, 3));
}

#[test]
fn empty_runtime_ends_when_entry_routes_to_exit() {
    let graph = Graph::builder()
        .add_node("a", Add(1))
        .add_edge(NodeId::start(), NodeId::end())
        .add_edge("a", NodeId::end())
        .build()
        .unwrap();
    let runtime: Runtime<Tally, Tally> = Runtime::new();
    assert_eq!(runtime.run(&graph, Tally { n: 4, steps: 0 }), Ok(Tally { n: 4, steps: 0 }));
}

/// declares the given nodes, in order, and always ends the run
struct Declares(Vec<&'static str>);

impl Edge<Tally> for Declares {
    fn spec_route(&self, _state: Tally) -> Option<Seq<char>> {
        unreachable!()
    }

    fn spec_possible_next(&self) -> Seq<Option<Seq<char>>> {
        unreachable!()
    }

    fn route(&self, _state: &Tally) -> Next {
        Next::End
    }

    fn possible_next(&self) -> Vec<Next> {
        let mut out = Vec::new();
        for name in &self.0 {
            out.push(Next::from_node(NodeId(name)));
        }
        out
    }
}

#[test]
fn missing_target_nearest_the_entry_is_reported() {
    // the router declaring `far` was added first, but `near` lies closer
    // to the entry
    let graph = Graph::builder()
        .add_node("a", Add(1))
        .add_node("b", Add(1))
        .add_node("c", Add(1))
        .add_conditional_edge(NodeId::start(), Declares(vec!["a", "b"]))
        .add_conditional_edge("a", Declares(vec!["c"]))
        .add_conditional_edge("c", Declares(vec!["far"]))
        .add_conditional_edge("b", Declares(vec!["near"]))
        .build();
    assert_eq!(graph.err().unwrap(), BuildError::MissingRoute(NodeId("near")));
}

#[test]
fn conditional_edge_takes_only_declared_steps() {
    let e = ConditionalEdge::new(|s: &Tally| if s.n < 8 { Target::Again } else { Target::Done });
    let declared = Edge::<Tally>::possible_next(&e);
    for n in [0, 7, 8, 100] {
        let step = e.route(&Tally { n, steps: 0 });
        assert!(declared.contains(&step));
    }
}

#[test]
fn same_state_gives_same_run() {
    let graph = Graph::builder()
        .add_node("a", Add(3))
        .add_node("b", Double)
        .add_edge(NodeId::start(), "a")
        .add_edge("a", "b")
        .add_edge("b", NodeId::end())
        .build()
        .unwrap();
    let first = graph.run(Tally { n: 1, steps: 0 });
    let second = graph.run(Tally { n: 1, steps: 0 });
    assert_eq!(first, second);
    assert_eq!(first, Ok(Tally { n: 8, steps: 2 }));
}
