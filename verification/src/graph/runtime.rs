//! synchronous runtime loop
//!
//! 1. ask the entry's router where to start
//! 2. run the node -> delta -> `Merge`
//! 3. ask that node's router for `Next`
//! 4. repeat until `Next::End`

use vstd::prelude::*;

use crate::graph::definition::Graph;
use crate::graph::id::{start_name, Next, NodeId};
use crate::graph::node::Node;
use crate::graph::route::BoxedEdge;
use crate::graph::state::{Merge, State, StateDelta};
use crate::graph::table::IdMap;

verus! {

/// type-erased node handle for a run. `S` is the graph-wide state every node
/// reads, `D` the delta type every node of the graph emits.
pub trait Runnable<S, D> {
    /// Whether running against `state` may produce `delta`.
    spec fn spec_outputs(&self, state: S, delta: D) -> bool;

    /// run against the current state
    fn run(&self, state: &S) -> (delta: D)
        ensures
            self.spec_outputs(*state, delta),
    ;
}

/// every node is runnable with its own state and delta types
impl<N> Runnable<N::State, N::Delta> for N where N: Node {
    open spec fn spec_outputs(&self, state: N::State, delta: N::Delta) -> bool {
        self.spec_emits(state, delta)
    }

    fn run(&self, state: &N::State) -> (delta: N::Delta) {
        Node::run(self, state)
    }
}

/// a node of any type, as a graph stores it
#[verifier::reject_recursive_types(S)]
#[verifier::reject_recursive_types(D)]
pub struct BoxedNode<S, D>(pub Box<dyn Runnable<S, D>>);

/// Boxes `node` as a runnable trait object: the box may emit exactly the
/// deltas `node` may emit.
pub(crate) fn box_node<S, D, N: Node<State = S, Delta = D> + 'static>(node: N) -> (b: BoxedNode<S, D>)
    ensures
        forall|s: S, d: D| #[trigger] b.0.spec_outputs(s, d) == node.spec_emits(s, d),
{
    BoxedNode(Box::new(node))
}

/// why did a run stop early?
#[derive(Clone, Copy, Debug, PartialEq, Eq)]
pub enum RunError {
    /// the run reached a node id with no registered node
    UnknownNode(NodeId),
    /// a node ran but has no outgoing route (false end)
    MissingRoute(NodeId),
    /// the graph has no route out of `NodeId::start()`
    MissingEntry,
    /// the run executed `u64::MAX` nodes without reaching the end
    StepLimit,
}

/// A run error with node ids taken by name.
pub enum RunErrorView {
    UnknownNode(Seq<char>),
    MissingRoute(Seq<char>),
    MissingEntry,
    StepLimit,
}

impl View for RunError {
    type V = RunErrorView;

    open spec fn view(&self) -> RunErrorView {
        match self {
            RunError::UnknownNode(id) => RunErrorView::UnknownNode(id@),
            RunError::MissingRoute(id) => RunErrorView::MissingRoute(id@),
            RunError::MissingEntry => RunErrorView::MissingEntry,
            RunError::StepLimit => RunErrorView::StepLimit,
        }
    }
}

/// A run's outcome with errors taken by their views.
pub open spec fn outcome_view<S>(r: Result<S, RunError>) -> Result<S, RunErrorView> {
    match r {
        Ok(s) => Ok(s),
        Err(e) => Err(e@),
    }
}

/// How many nodes a run executes at most.
pub open spec fn step_budget() -> nat {
    u64::MAX as nat
}

/// Whether a run continuing at node `current` with `state`, executing at
/// most `fuel` nodes, may end with `outcome`: the node runs and emits some
/// delta it may emit, the delta is merged, and the node's router picks where
/// to go on from the merged state.
pub open spec fn runs_to<S: Merge<D>, D>(
    nodes: Map<Seq<char>, BoxedNode<S, D>>,
    routes: Map<Seq<char>, BoxedEdge<S>>,
    current: Seq<char>,
    state: S,
    fuel: nat,
    outcome: Result<S, RunErrorView>,
) -> bool
    decreases fuel,
{
    if fuel == 0 {
        outcome == Err::<S, RunErrorView>(RunErrorView::StepLimit)
    } else if !nodes.contains_key(current) {
        outcome == Err::<S, RunErrorView>(RunErrorView::UnknownNode(current))
    } else {
        exists|delta: D|
            #[trigger] nodes[current].0.spec_outputs(state, delta) && {
                let merged = state.spec_merge(delta);
                if !routes.contains_key(current) {
                    outcome == Err::<S, RunErrorView>(RunErrorView::MissingRoute(current))
                } else {
                    match routes[current].0.spec_route(merged) {
                        Some(next) => runs_to(nodes, routes, next, merged, (fuel - 1) as nat, outcome),
                        None => outcome == Ok::<S, RunErrorView>(merged),
                    }
                }
            }
    }
}

/// Whether a whole run from `state` may end with `outcome`: the entry's
/// router picks the first node from the initial state, then the run goes on
/// from there.
pub open spec fn run_outcome<S: Merge<D>, D>(
    nodes: Map<Seq<char>, BoxedNode<S, D>>,
    routes: Map<Seq<char>, BoxedEdge<S>>,
    state: S,
    outcome: Result<S, RunErrorView>,
) -> bool {
    if !routes.contains_key(start_name()) {
        outcome == Err::<S, RunErrorView>(RunErrorView::MissingEntry)
    } else {
        match routes[start_name()].0.spec_route(state) {
            Some(first) => runs_to(nodes, routes, first, state, step_budget(), outcome),
            None => outcome == Ok::<S, RunErrorView>(state),
        }
    }
}

/// Once a run is past the entry it cannot fail for want of an entry.
pub proof fn lemma_runs_to_has_entry<S: Merge<D>, D>(
    nodes: Map<Seq<char>, BoxedNode<S, D>>,
    routes: Map<Seq<char>, BoxedEdge<S>>,
    current: Seq<char>,
    state: S,
    fuel: nat,
    outcome: Result<S, RunErrorView>,
)
    requires
        runs_to(nodes, routes, current, state, fuel, outcome),
    ensures
        outcome != Err::<S, RunErrorView>(RunErrorView::MissingEntry),
    decreases fuel,
{
    if fuel > 0 && nodes.contains_key(current) {
        let delta = choose|delta: D|
            #[trigger] nodes[current].0.spec_outputs(state, delta) && {
                let merged = state.spec_merge(delta);
                if !routes.contains_key(current) {
                    outcome == Err::<S, RunErrorView>(RunErrorView::MissingRoute(current))
                } else {
                    match routes[current].0.spec_route(merged) {
                        Some(next) => runs_to(nodes, routes, next, merged, (fuel - 1) as nat, outcome),
                        None => outcome == Ok::<S, RunErrorView>(merged),
                    }
                }
            };
        let merged = state.spec_merge(delta);
        if routes.contains_key(current) {
            if let Some(next) = routes[current].0.spec_route(merged) {
                lemma_runs_to_has_entry(nodes, routes, next, merged, (fuel - 1) as nat, outcome);
            }
        }
    }
}

/// node registry and executor: runs its own nodes along a graph's wiring
#[verifier::reject_recursive_types(S)]
#[verifier::reject_recursive_types(D)]
pub struct Runtime<S, D> {
    nodes: IdMap<BoxedNode<S, D>>,
}

impl<S, D> Runtime<S, D> {
    /// The registered nodes by name.
    pub closed spec fn node_map(self) -> Map<Seq<char>, BoxedNode<S, D>> {
        self.nodes.view()
    }

    /// an empty registry
    pub fn new() -> (r: Self)
        ensures
            r.node_map() == Map::<Seq<char>, BoxedNode<S, D>>::empty(),
    {
        Runtime { nodes: IdMap::new() }
    }

    /// register a runnable node at `id`, replacing any node registered there
    pub fn node<N>(&mut self, id: NodeId, node: N) -> (r: &mut Self) where
        N: Node<State = S, Delta = D> + 'static,
        ensures
            r.node_map() == old(self).node_map().insert(id@, r.node_map()[id@]),
            forall|s: S, d: D| #[trigger] r.node_map()[id@].0.spec_outputs(s, d) == node.spec_emits(s, d),
            *final(self) == *final(r),
    {
        self.nodes.insert(id, box_node(node));
        self
    }

    /// execute `graph` from `state` with the registered nodes until the run
    /// routes to the exit, or an error. the graph's entry router picks the
    /// first node; a graph always has an entry, so a run never fails with
    /// `RunError::MissingEntry`.
    pub fn run(&self, graph: &Graph<S, D>, state: S) -> (r: Result<S, RunError>) where
        S: State + Merge<D>,
        D: StateDelta,
        ensures
            run_outcome(self.node_map(), graph.route_map(), state, outcome_view(r)),
            !(r matches Err(RunError::MissingEntry)),
    {
        graph.run_with(&self.nodes, state)
    }
}

impl<S, D> Default for Runtime<S, D> {
    fn default() -> (r: Self)
        ensures
            r.node_map() == Map::<Seq<char>, BoxedNode<S, D>>::empty(),
    {
        Self::new()
    }
}

} // verus!
