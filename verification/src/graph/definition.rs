//! graph definition: nodes, edges, and entry point.
//!
//! start with [`Graph::builder`], register nodes and wiring, then
//! [`GraphBuilder::build`] validates the wiring and yields a [`Graph`] to
//! [`Graph::run`].

use vstd::prelude::*;

use crate::graph::id::{
    end_name, lemma_sentinels_differ, next_of, next_views, start_name, IntoNodeId, Next, NodeId,
};
use crate::graph::node::Node;
use crate::graph::route::{box_edge, BoxedEdge, Edge, UnconditionalEdge};
use crate::graph::runtime::{
    RunErrorView, lemma_runs_to_has_entry, outcome_view, run_outcome, runs_to, step_budget, box_node,
    BoxedNode, RunError,
};
use crate::graph::state::{Merge, State, StateDelta};
use crate::graph::table::IdMap;
use crate::graph::text::{decimal, push_decimal, push_text};
use crate::graph::wiring::{explore, walk_reports_first, graph_is_valid, missing_target, no_step_into_entry, reaches_exit, steps_to};

verus! {

/// errors for build operations
///
/// duplicate nodes are not allowed - they make routing ambiguous
#[derive(Clone, Copy, Debug, PartialEq)]
pub enum BuildError {
    DuplicateNode(NodeId),
    MissingRoute(NodeId),
    MissingExit,
    MissingEntry,
    InvalidEntry,
    InvalidExit,
}

/// A build error with node ids taken by name.
pub enum BuildErrorView {
    DuplicateNode(Seq<char>),
    MissingRoute(Seq<char>),
    MissingExit,
    MissingEntry,
    InvalidEntry,
    InvalidExit,
}

impl View for BuildError {
    type V = BuildErrorView;

    open spec fn view(&self) -> BuildErrorView {
        match self {
            BuildError::DuplicateNode(id) => BuildErrorView::DuplicateNode(id@),
            BuildError::MissingRoute(id) => BuildErrorView::MissingRoute(id@),
            BuildError::MissingExit => BuildErrorView::MissingExit,
            BuildError::MissingEntry => BuildErrorView::MissingEntry,
            BuildError::InvalidEntry => BuildErrorView::InvalidEntry,
            BuildError::InvalidExit => BuildErrorView::InvalidExit,
        }
    }
}

/// The error a builder holds after noticing `found` while holding `held`:
/// the first error noticed is kept.
pub open spec fn keep_first(held: Option<BuildErrorView>, found: BuildErrorView) -> Option<BuildErrorView> {
    if held is Some {
        held
    } else {
        Some(found)
    }
}

/// The text form of a graph with `nodes` nodes and `routes` routers.
pub open spec fn graph_text(nodes: nat, routes: nat) -> Seq<char> {
    "Graph { nodes: "@ + decimal(nodes) + ", routes: "@ + decimal(routes) + " }"@
}

/// Whether `name` is a node of `order` whose route is missing while every
/// node registered before it has one.
pub open spec fn first_unrouted<S>(
    order: Seq<Seq<char>>,
    routes: Map<Seq<char>, BoxedEdge<S>>,
    i: int,
) -> bool {
    &&& 0 <= i < order.len()
    &&& !routes.contains_key(order[i])
    &&& forall|j: int| 0 <= j < i ==> routes.contains_key(#[trigger] order[j])
}

/// core graph struct and executor: nodes plus wiring, validated by
/// [`GraphBuilder::build`].
#[verifier::reject_recursive_types(S)]
#[verifier::reject_recursive_types(D)]
pub struct Graph<S, D> {
    nodes: IdMap<BoxedNode<S, D>>,
    routes: IdMap<BoxedEdge<S>>,
}

/// graph builder: collects nodes and wiring and remembers the first wiring
/// error; [`GraphBuilder::build`] validates and constructs a runnable [`Graph`].
#[verifier::reject_recursive_types(S)]
#[verifier::reject_recursive_types(D)]
pub struct GraphBuilder<S, D> {
    nodes: IdMap<BoxedNode<S, D>>,
    routes: IdMap<BoxedEdge<S>>,
    error: Option<BuildError>,
}

impl<S, D> GraphBuilder<S, D> {
    /// A builder that holds no error has no router leading into the entry.
    #[verifier::type_invariant]
    spec fn entry_closed_unless_failed(self) -> bool {
        self.error is None ==> no_step_into_entry(self.routes.view())
    }

    /// Makes known to the caller that a builder holding no error has no
    /// router leading into the entry; does nothing at run time.
    pub fn entry_closed(&self)
        ensures
            self.pending_error() is None ==> no_step_into_entry(self.route_map()),
    {
        proof {
            use_type_invariant(self);
        }
    }

    /// The registered nodes by name.
    pub closed spec fn node_map(self) -> Map<Seq<char>, BoxedNode<S, D>> {
        self.nodes.view()
    }

    /// The node names in the order they were first registered.
    pub closed spec fn node_order(self) -> Seq<Seq<char>> {
        self.nodes.key_order()
    }

    /// The routers by the name of the node they route from.
    pub closed spec fn route_map(self) -> Map<Seq<char>, BoxedEdge<S>> {
        self.routes.view()
    }

    /// The first wiring error noticed so far.
    pub closed spec fn pending_error(self) -> Option<BuildErrorView> {
        match self.error {
            Some(e) => Some(e@),
            None => None,
        }
    }

    /// register a runnable node at `id`; registering an id twice replaces the
    /// node and makes the build fail.
    ///
    /// like every builder, the result has no router leading into the entry
    /// unless it holds an error.
    pub fn add_node<N, I>(self, id: I, node: N) -> (b: Self) where
        N: Node<State = S, Delta = D> + 'static,
        I: IntoNodeId,
        ensures
            b.pending_error() is None ==> no_step_into_entry(b.route_map()),
            b.node_map() == self.node_map().insert(id.spec_id(), b.node_map()[id.spec_id()]),
            forall|s: S, d: D| #[trigger] b.node_map()[id.spec_id()].0.spec_outputs(s, d) == node.spec_emits(s, d),
            b.node_order() == (if self.node_map().contains_key(id.spec_id()) {
                self.node_order()
            } else {
                self.node_order().push(id.spec_id())
            }),
            b.route_map() == self.route_map(),
            b.pending_error() == (if self.node_map().contains_key(id.spec_id()) {
                keep_first(self.pending_error(), BuildErrorView::DuplicateNode(id.spec_id()))
            } else {
                self.pending_error()
            }),
    {
        proof {
            use_type_invariant(&self);
        }
        let GraphBuilder { mut nodes, routes, mut error } = self;
        let id = id.into_node_id();
        if nodes.insert(id, box_node(node)) {
            if error.is_none() {
                error = Some(BuildError::DuplicateNode(id));
            }
        }
        let b = GraphBuilder { nodes, routes, error };
        proof {
            use_type_invariant(&b);
        }
        b
    }

    /// register an edge: `from` always continues to `to`.
    pub fn add_edge<F, T>(self, from: F, to: T) -> (b: Self) where
        F: IntoNodeId,
        T: IntoNodeId,
        ensures
            b.pending_error() is None ==> no_step_into_entry(b.route_map()),
            b.route_map() == self.route_map().insert(from.spec_id(), b.route_map()[from.spec_id()]),
            forall|s: S| #[trigger] b.route_map()[from.spec_id()].0.spec_route(s) == next_of(to.spec_id()),
            b.route_map()[from.spec_id()].0.spec_possible_next() == seq![next_of(to.spec_id())],
            b.node_map() == self.node_map(),
            b.node_order() == self.node_order(),
            b.pending_error() == edge_error(self.pending_error(), from.spec_id(), to.spec_id() == start_name()),
    {
        proof {
            use_type_invariant(&self);
            lemma_sentinels_differ();
        }
        let GraphBuilder { nodes, mut routes, mut error } = self;
        let f_id = from.into_node_id();
        let t_id = to.into_node_id();
        // the entry cannot be a target
        if t_id == NodeId::start() {
            if error.is_none() {
                error = Some(BuildError::InvalidEntry);
            }
        }
        // the exit cannot be a source
        if f_id == NodeId::end() {
            if error.is_none() {
                error = Some(BuildError::InvalidExit);
            }
        }
        let ghost before = routes.view();
        routes.insert(f_id, box_edge(UnconditionalEdge(t_id)));
        proof {
            if error is None {
                assert forall|name: Seq<char>| !#[trigger] steps_to(routes.view(), name, start_name()) by {
                    if name != f_id@ {
                        assert(!steps_to(before, name, start_name()));
                    } else {
                        assert(seq![next_of(t_id@)][0] == next_of(t_id@));
                    }
                }
            }
        }
        let b = GraphBuilder { nodes, routes, error };
        proof {
            use_type_invariant(&b);
        }
        b
    }

    /// register a conditional edge: `from` delegates to `router` after it runs.
    pub fn add_conditional_edge<F, E>(self, from: F, router: E) -> (b: Self) where
        F: IntoNodeId,
        E: Edge<S> + 'static,
        ensures
            b.pending_error() is None ==> no_step_into_entry(b.route_map()),
            b.route_map() == self.route_map().insert(from.spec_id(), b.route_map()[from.spec_id()]),
            forall|s: S| #[trigger] b.route_map()[from.spec_id()].0.spec_route(s) == router.spec_route(s),
            b.route_map()[from.spec_id()].0.spec_possible_next() == router.spec_possible_next(),
            b.node_map() == self.node_map(),
            b.node_order() == self.node_order(),
            b.pending_error() == edge_error(
                self.pending_error(),
                from.spec_id(),
                router.spec_possible_next().contains(Some(start_name())),
            ),
    {
        proof {
            use_type_invariant(&self);
        }
        let GraphBuilder { nodes, mut routes, mut error } = self;
        let f_id = from.into_node_id();
        let nexts = router.possible_next();
        let entry = Next::from_node(NodeId::start());
        proof {
            lemma_sentinels_differ();
        }
        let mut invalid_start = false;
        let mut i: usize = 0;
        while i < nexts.len()
            invariant
                i <= nexts@.len(),
                next_views(nexts@) == router.spec_possible_next(),
                entry@ == Some(start_name()),
                invalid_start == exists|j: int| 0 <= j < i && next_views(nexts@)[j] == Some(start_name()),
            decreases nexts@.len() - i,
        {
            assert(next_views(nexts@)[i as int] == nexts@[i as int]@);
            if nexts[i] == entry {
                invalid_start = true;
            }
            i = i + 1;
        }
        proof {
            let v = next_views(nexts@);
            if v.contains(Some(start_name())) {
                let j = choose|j: int| 0 <= j < v.len() && v[j] == Some(start_name());
                assert(0 <= j < i && v[j] == Some(start_name()));
            }
        }
        // the entry cannot be a target
        if invalid_start {
            if error.is_none() {
                error = Some(BuildError::InvalidEntry);
            }
        }
        // the exit cannot be a source
        if f_id == NodeId::end() {
            if error.is_none() {
                error = Some(BuildError::InvalidExit);
            }
        }
        let ghost before = routes.view();
        routes.insert(f_id, box_edge(router));
        proof {
            if error is None {
                assert forall|name: Seq<char>| !#[trigger] steps_to(routes.view(), name, start_name()) by {
                    if name != f_id@ {
                        assert(!steps_to(before, name, start_name()));
                    }
                }
            }
        }
        let b = GraphBuilder { nodes, routes, error };
        proof {
            use_type_invariant(&b);
        }
        b
    }

    /// validate the assembled wiring and construct the graph.
    ///
    /// the checks run in this order, and the first that fails decides the
    /// error: a wiring error noticed while registering; a missing route out
    /// of the entry; a route out of the exit; a registered node without a
    /// route (the first in registration order); a next node declared by a
    /// reachable router that is neither the exit nor registered; no reachable
    /// router that may end the run.
    pub fn build(self) -> (r: Result<Graph<S, D>, BuildError>)
        ensures
            self.pending_error() is None ==> no_step_into_entry(self.route_map()),
            self.pending_error() matches Some(e) ==> fails_with(r, e),
            self.pending_error() is None && !self.route_map().contains_key(start_name())
                ==> fails_with(r, BuildErrorView::MissingEntry),
            self.pending_error() is None && self.route_map().contains_key(start_name())
                && self.route_map().contains_key(end_name()) ==> fails_with(r, BuildErrorView::InvalidExit),
            forall|i: int|
                self.pending_error() is None && self.route_map().contains_key(start_name())
                    && !self.route_map().contains_key(end_name()) && #[trigger] first_unrouted(
                    self.node_order(),
                    self.route_map(),
                    i,
                ) ==> fails_with(r, BuildErrorView::MissingRoute(self.node_order()[i])),
            self.pending_error() is None && self.route_map().contains_key(start_name())
                && !self.route_map().contains_key(end_name()) && (forall|name: Seq<char>|
                #[trigger] self.node_map().contains_key(name) ==> self.route_map().contains_key(name))
                && (exists|t: Seq<char>| #[trigger] missing_target(self.node_map(), self.route_map(), t))
                ==> (r matches Err(BuildError::MissingRoute(id)) && missing_target(
                self.node_map(),
                self.route_map(),
                id@,
            ) && walk_reports_first(self.node_map(), self.route_map(), id@)),
            self.pending_error() is None && self.route_map().contains_key(start_name())
                && !self.route_map().contains_key(end_name()) && (forall|name: Seq<char>|
                #[trigger] self.node_map().contains_key(name) ==> self.route_map().contains_key(name))
                && (forall|t: Seq<char>| !#[trigger] missing_target(self.node_map(), self.route_map(), t))
                && !reaches_exit(self.route_map()) ==> fails_with(r, BuildErrorView::MissingExit),
            r is Ok <==> self.pending_error() is None && graph_is_valid(self.node_map(), self.route_map()),
            r is Ok <==> self.pending_error() is None && self.route_map().contains_key(start_name())
                && !self.route_map().contains_key(end_name()) && (forall|name: Seq<char>|
                #[trigger] self.node_map().contains_key(name) ==> self.route_map().contains_key(name))
                && (forall|t: Seq<char>| !#[trigger] missing_target(self.node_map(), self.route_map(), t))
                && reaches_exit(self.route_map()),
            r matches Ok(g) ==> g.node_map() == self.node_map() && g.route_map() == self.route_map(),
    {
        proof {
            use_type_invariant(&self);
        }
        // errors noticed while registering come first
        if let Some(err) = self.error {
            return Err(err);
        }
        // the entry must have a route (start -> a)
        if !self.routes.contains_key(&NodeId::start()) {
            return Err(BuildError::MissingEntry);
        }
        // the exit must not have a route (end -> a)
        if self.routes.contains_key(&NodeId::end()) {
            return Err(BuildError::InvalidExit);
        }
        // every registered node must have a route
        let n = self.nodes.len();
        let mut i: usize = 0;
        while i < n
            invariant
                n == self.node_order().len(),
                i <= n,
                self.pending_error() is None,
                no_step_into_entry(self.route_map()),
                self.route_map().contains_key(start_name()),
                !self.route_map().contains_key(end_name()),
                forall|j: int| 0 <= j < i ==> self.route_map().contains_key(#[trigger] self.node_order()[j]),
            decreases n - i,
        {
            let id = self.nodes.key_at(i);
            if !self.routes.contains_key(&id) {
                proof {
                    self.nodes.lemma_keys();
                    assert(self.node_order()[i as int] == id@);
                    assert(self.node_order().contains(id@));
                    assert(self.node_map().contains_key(id@));
                    assert forall|k: int| first_unrouted(self.node_order(), self.route_map(), k) implies k == i by {
                        if k < i {
                            assert(self.route_map().contains_key(self.node_order()[k]));
                        } else if k > i {
                            assert(self.route_map().contains_key(self.node_order()[i as int]));
                        }
                    }
                }
                return Err(BuildError::MissingRoute(id));
            }
            i = i + 1;
        }
        proof {
            self.nodes.lemma_keys();
            assert forall|name: Seq<char>| #[trigger] self.node_map().contains_key(name) implies self.route_map().contains_key(
                name,
            ) by {
                assert(self.node_order().contains(name));
                let j = choose|j: int| 0 <= j < self.node_order().len() && self.node_order()[j] == name;
                assert(self.route_map().contains_key(self.node_order()[j]));
            }
            assert forall|k: int| !first_unrouted(self.node_order(), self.route_map(), k) by {
                if 0 <= k < self.node_order().len() {
                    assert(self.route_map().contains_key(self.node_order()[k]));
                }
            }
        }
        // walk every router's declared next steps from the entry
        match explore(&self.nodes, &self.routes) {
            Err(target) => Err(BuildError::MissingRoute(target)),
            Ok(false) => Err(BuildError::MissingExit),
            Ok(true) => {
                assert(graph_is_valid(self.node_map(), self.route_map()));
                Ok(Graph { nodes: self.nodes, routes: self.routes })
            },
        }
    }
}

impl<S, D> Graph<S, D> {
    #[verifier::type_invariant]
    spec fn is_built(self) -> bool {
        graph_is_valid(self.nodes.view(), self.routes.view())
    }

    /// The nodes by name.
    pub closed spec fn node_map(self) -> Map<Seq<char>, BoxedNode<S, D>> {
        self.nodes.view()
    }

    /// The routers by the name of the node they route from.
    pub closed spec fn route_map(self) -> Map<Seq<char>, BoxedEdge<S>> {
        self.routes.view()
    }

    /// how many nodes and how many routers the graph holds
    pub fn counts(&self) -> (r: (usize, usize))
        ensures
            r.0 == self.node_map().len(),
            r.1 == self.route_map().len(),
    {
        (self.nodes.len(), self.routes.len())
    }

    /// the graph as text: `Graph { nodes: N, routes: M }`, with the number
    /// of nodes and the number of routers in decimal
    pub fn debug_text(&self) -> (t: String)
        ensures
            t@ == graph_text(self.node_map().len(), self.route_map().len()),
    {
        let (n, r) = self.counts();
        let mut t = String::new();
        push_text(&mut t, "Graph { nodes: ");
        push_decimal(&mut t, n);
        push_text(&mut t, ", routes: ");
        push_decimal(&mut t, r);
        push_text(&mut t, " }");
        assert(t@ =~= graph_text(n as nat, r as nat));
        t
    }

    /// create a builder for constructing a graph
    pub fn builder() -> (b: GraphBuilder<S, D>)
        ensures
            b.node_map() == Map::<Seq<char>, BoxedNode<S, D>>::empty(),
            b.node_order() == Seq::<Seq<char>>::empty(),
            b.route_map() == Map::<Seq<char>, BoxedEdge<S>>::empty(),
            b.pending_error() is None,
            no_step_into_entry(b.route_map()),
    {
        let b = GraphBuilder { nodes: IdMap::new(), routes: IdMap::new(), error: None };
        proof {
            use_type_invariant(&b);
        }
        b
    }

    /// look up the router of a node
    pub fn router(&self, from: NodeId) -> (r: Option<&BoxedEdge<S>>)
        ensures
            match r {
                Some(e) => self.route_map().contains_key(from@) && *e == self.route_map()[from@],
                None => !self.route_map().contains_key(from@),
            },
    {
        self.routes.get(&from)
    }

    /// execute from `state` until the run routes to the exit, or an error.
    /// the entry's router picks the first node from `state`; then each node
    /// runs, whatever delta it returns is merged, and its router picks the
    /// next node from the merged state. a graph always has an entry, so a run
    /// never fails with `RunError::MissingEntry`.
    pub fn run(&self, state: S) -> (r: Result<S, RunError>) where S: State + Merge<D>, D: StateDelta
        ensures
            graph_is_valid(self.node_map(), self.route_map()),
            run_outcome(self.node_map(), self.route_map(), state, outcome_view(r)),
            !(r matches Err(RunError::MissingEntry)),
    {
        proof {
            use_type_invariant(self);
        }
        self.run_with(&self.nodes, state)
    }

    /// execute `nodes` along this graph's wiring
    pub(crate) fn run_with(&self, nodes: &IdMap<BoxedNode<S, D>>, state: S) -> (r: Result<S, RunError>) where
        S: Merge<D>,
        ensures
            run_outcome(nodes.view(), self.route_map(), state, outcome_view(r)),
            !(r matches Err(RunError::MissingEntry)),
    {
        proof {
            use_type_invariant(self);
        }
        let r = self.drive(nodes, state);
        proof {
            let o = outcome_view(r);
            if let Some(first) = self.route_map()[start_name()].0.spec_route(state) {
                lemma_runs_to_has_entry(nodes.view(), self.route_map(), first, state, step_budget(), o);
            }
        }
        r
    }

    /// the run loop: step from node to node until the exit, an error, or the
    /// step budget is used up
    fn drive(&self, nodes: &IdMap<BoxedNode<S, D>>, state: S) -> (r: Result<S, RunError>) where
        S: Merge<D>,
        ensures
            run_outcome(nodes.view(), self.route_map(), state, outcome_view(r)),
    {
        proof {
            use_type_invariant(self);
        }
        let ghost nm = nodes.view();
        let ghost rm = self.route_map();
        let mut st = state;
        // resolve the first real node via the mandatory entry route
        let entry = match self.routes.get(&NodeId::start()) {
            Some(router) => router,
            None => return Err(RunError::MissingEntry),
        };
        let mut current = match entry.0.route(&st) {
            Next::Node(id) => id,
            Next::End => return Ok(st),
        };
        let mut fuel: u64 = u64::MAX;
        loop
            invariant
                nm == nodes.view(),
                rm == self.route_map(),
                rm.contains_key(start_name()),
                forall|o: Result<S, RunErrorView>|
                    #[trigger] runs_to(nm, rm, current@, st, fuel as nat, o) ==> run_outcome(nm, rm, state, o),
            decreases fuel,
        {
            if fuel == 0 {
                proof {
                    let o = Err::<S, RunErrorView>(RunErrorView::StepLimit);
                    assert(runs_to(nm, rm, current@, st, fuel as nat, o));
                }
                return Err(RunError::StepLimit);
            }
            let runnable = match nodes.get(&current) {
                Some(runnable) => runnable,
                None => {
                    proof {
                        let o = Err::<S, RunErrorView>(RunErrorView::UnknownNode(current@));
                        assert(runs_to(nm, rm, current@, st, fuel as nat, o));
                    }
                    return Err(RunError::UnknownNode(current));
                },
            };
            let ghost before = st;
            let delta = runnable.0.run(&st);
            st.merge(delta);
            proof {
                assert(nm[current@].0.spec_outputs(before, delta));
            }
            let router = match self.routes.get(&current) {
                Some(router) => router,
                None => {
                    proof {
                        let o = Err::<S, RunErrorView>(RunErrorView::MissingRoute(current@));
                        assert(runs_to(nm, rm, current@, before, fuel as nat, o));
                    }
                    return Err(RunError::MissingRoute(current));
                },
            };
            let ghost old_fuel = fuel;
            let ghost old_current = current;
            fuel = fuel - 1;
            match router.0.route(&st) {
                Next::Node(next) => {
                    current = next;
                    proof {
                        assert forall|o: Result<S, RunErrorView>|
                            #[trigger] runs_to(nm, rm, current@, st, fuel as nat, o) implies run_outcome(
                            nm,
                            rm,
                            state,
                            o,
                        ) by {
                            assert(runs_to(nm, rm, old_current@, before, old_fuel as nat, o));
                        }
                    }
                },
                Next::End => {
                    proof {
                        let o = Ok::<S, RunErrorView>(st);
                        assert(runs_to(nm, rm, current@, before, old_fuel as nat, o));
                    }
                    return Ok(st);
                },
            }
        }
    }

}

/// Whether `r` is the error `e`.
pub open spec fn fails_with<T>(r: Result<T, BuildError>, e: BuildErrorView) -> bool {
    r matches Err(x) && x@ == e
}

/// The error a builder holds after registering an edge out of `from` that
/// may lead to the entry when `to_entry` holds.
pub open spec fn edge_error(held: Option<BuildErrorView>, from: Seq<char>, to_entry: bool) -> Option<BuildErrorView> {
    let after_entry = if to_entry {
        keep_first(held, BuildErrorView::InvalidEntry)
    } else {
        held
    };
    if from == end_name() {
        keep_first(after_entry, BuildErrorView::InvalidExit)
    } else {
        after_entry
    }
}

} // verus!
