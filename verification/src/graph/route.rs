//! routing: where execution continues after a node ran
//!
//! after a node ran and its delta was merged, the run asks that node's
//! [`Edge`] for the [`Next`] step. unconditional edges ignore the state;
//! conditional edges read it to decide.

use vstd::prelude::*;

use crate::graph::id::{next_of, next_views, Next, NodeId};

verus! {

/// a path out of a node: picks the next step from the post-merge state and
/// declares every step it may pick, so that a graph can be validated before it
/// runs.
pub trait Edge<S> {
    /// Where this edge routes from `state`.
    spec fn spec_route(&self, state: S) -> Option<Seq<char>>;

    /// The steps this edge declares it may take, in order.
    spec fn spec_possible_next(&self) -> Seq<Option<Seq<char>>>;

    /// the next step from the post-merge state
    fn route(&self, state: &S) -> (next: Next)
        ensures
            next@ == self.spec_route(*state),
    ;

    /// every step this edge may take
    fn possible_next(&self) -> (nexts: Vec<Next>)
        ensures
            next_views(nexts@) == self.spec_possible_next(),
    ;
}

/// an edge of any type, as a graph stores it
#[verifier::reject_recursive_types(S)]
pub struct BoxedEdge<S>(pub Box<dyn Edge<S>>);

/// Boxes `edge` as a trait object with std's `Box::new`. Calls on the box
/// dispatch to `edge`'s own impl: the box routes and declares its next steps
/// exactly as `edge` does.
#[verifier::external_body]
pub(crate) fn box_edge<S, E: Edge<S> + 'static>(edge: E) -> (b: BoxedEdge<S>)
    ensures
        forall|s: S| #[trigger] b.0.spec_route(s) == edge.spec_route(s),
        b.0.spec_possible_next() == edge.spec_possible_next(),
{
    BoxedEdge(Box::new(edge))
}

/// the targets a conditional edge can route to: an enumeration whose values
/// each name a step.
pub trait RouteTargets: Copy {
    /// The steps of all values, in order.
    spec fn spec_variants() -> Seq<Option<Seq<char>>>;

    /// The step this value names.
    spec fn spec_next(self) -> Option<Seq<char>>;

    /// the steps of all values
    fn variants() -> (nexts: Vec<Next>)
        ensures
            next_views(nexts@) == Self::spec_variants(),
    ;

    /// the step this value names
    fn to_next(self) -> (next: Next)
        ensures
            next@ == self.spec_next(),
    ;
}

/// an unconditional edge always routes to the same target; `NodeId::end()` as
/// target makes the source a terminal node.
#[derive(Clone, Copy, Debug)]
pub struct UnconditionalEdge(pub NodeId);

impl<S> Edge<S> for UnconditionalEdge {
    open spec fn spec_route(&self, state: S) -> Option<Seq<char>> {
        next_of(self.0@)
    }

    open spec fn spec_possible_next(&self) -> Seq<Option<Seq<char>>> {
        seq![next_of(self.0@)]
    }

    fn route(&self, _state: &S) -> (next: Next) {
        Next::from_node(self.0)
    }

    fn possible_next(&self) -> (nexts: Vec<Next>) {
        let nexts = vec![Next::from_node(self.0)];
        assert(next_views(nexts@) =~= seq![next_of(self.0@)]);
        nexts
    }
}

/// The value a deterministic routing function `f` returns for `state`.
pub open spec fn decision<S, F: Fn(&S) -> R, R>(f: F, state: S) -> R {
    choose|r: R| call_ensures(f, (&state,), r)
}

/// Whether `f` can be called on every state and returns one value for each.
pub open spec fn is_routing_fn<S, F: Fn(&S) -> R, R>(f: F) -> bool {
    &&& forall|s: S| #[trigger] call_requires(f, (&s,))
    &&& forall|s: S, r1: R, r2: R|
        #[trigger] call_ensures(f, (&s,), r1) && #[trigger] call_ensures(f, (&s,), r2) ==> r1 == r2
}

/// conditional edge which selects the next step from a function of the state.
/// `F` is the function, `S` the state it observes, `R` the targets it picks
/// from.
#[verifier::reject_recursive_types(S)]
#[verifier::reject_recursive_types(R)]
pub struct ConditionalEdge<S, F, R> where F: Fn(&S) -> R, R: RouteTargets {
    f: F,
    _marker: core::marker::PhantomData<(S, R)>,
}

impl<S, F, R> ConditionalEdge<S, F, R> where F: Fn(&S) -> R, R: RouteTargets {
    #[verifier::type_invariant]
    spec fn routes_by_state(self) -> bool {
        is_routing_fn(self.f)
    }

    /// The routing function.
    pub closed spec fn chooser(self) -> F {
        self.f
    }

    /// wrap a routing function
    pub fn new(f: F) -> (edge: Self)
        requires
            is_routing_fn(f),
        ensures
            edge.chooser() == f,
    {
        ConditionalEdge { f, _marker: core::marker::PhantomData }
    }
}

impl<S, F, R> Edge<S> for ConditionalEdge<S, F, R> where F: Fn(&S) -> R, R: RouteTargets {
    open spec fn spec_route(&self, state: S) -> Option<Seq<char>> {
        decision(self.chooser(), state).spec_next()
    }

    open spec fn spec_possible_next(&self) -> Seq<Option<Seq<char>>> {
        R::spec_variants()
    }

    fn route(&self, state: &S) -> (next: Next) {
        proof {
            use_type_invariant(self);
        }
        let r = (self.f)(state);
        proof {
            let s = *state;
            assert(call_ensures(self.f, (&s,), r));
            let d = decision(self.f, s);
            assert(call_ensures(self.f, (&s,), d));
        }
        r.to_next()
    }

    fn possible_next(&self) -> (nexts: Vec<Next>) {
        R::variants()
    }
}

} // verus!
