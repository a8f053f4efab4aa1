//! properties of the library as a whole: what wiring validation guarantees
//! about runs, and how registration errors are kept.

use vstd::prelude::*;

use crate::graph::definition::{edge_error, keep_first, BuildErrorView};
use crate::graph::wiring::{
    graph_is_valid, lemma_reach_step, lemma_start_reachable, lemma_walk_reports_settles, missing_target,
    reachable, steps_to, walk_reports, walk_reports_first,
};
use crate::graph::id::{end_name, next_of, start_name};
use crate::graph::route::{decision, BoxedEdge, ConditionalEdge, Edge, RouteTargets, UnconditionalEdge};
use crate::graph::runtime::{run_outcome, runs_to, step_budget, BoxedNode, RunErrorView};
use crate::graph::state::Merge;

verus! {

/// Whether every router only takes steps it declares, and never names the
/// exit as a node to continue at.
pub open spec fn routes_honestly<S>(routes: Map<Seq<char>, BoxedEdge<S>>) -> bool {
    forall|name: Seq<char>, s: S|
        routes.contains_key(name) ==> {
            let step = #[trigger] routes[name].0.spec_route(s);
            &&& routes[name].0.spec_possible_next().contains(step)
            &&& step != Some(end_name())
        }
}

/// Whether a run that ended with `outcome` ended cleanly: by routing to the
/// exit, or by using up its step budget.
pub open spec fn ends_cleanly<S>(outcome: Result<S, RunErrorView>) -> bool {
    outcome is Ok || outcome == Err::<S, RunErrorView>(RunErrorView::StepLimit)
}

/// Whether a run continuing at `current` with `state` may execute the node
/// named `name` within `fuel` steps, for some deltas its nodes may emit.
pub open spec fn may_execute<S: Merge<D>, D>(
    nodes: Map<Seq<char>, BoxedNode<S, D>>,
    routes: Map<Seq<char>, BoxedEdge<S>>,
    current: Seq<char>,
    state: S,
    fuel: nat,
    name: Seq<char>,
) -> bool
    decreases fuel,
{
    if fuel == 0 || !nodes.contains_key(current) {
        false
    } else if current == name {
        true
    } else {
        routes.contains_key(current) && exists|delta: D|
            #[trigger] nodes[current].0.spec_outputs(state, delta) && match routes[current].0.spec_route(
                state.spec_merge(delta),
            ) {
                Some(next) => may_execute(nodes, routes, next, state.spec_merge(delta), (fuel - 1) as nat, name),
                None => false,
            }
    }
}

/// Whether a whole run from `state` may execute the node named `name`.
pub open spec fn run_may_execute<S: Merge<D>, D>(
    nodes: Map<Seq<char>, BoxedNode<S, D>>,
    routes: Map<Seq<char>, BoxedEdge<S>>,
    state: S,
    name: Seq<char>,
) -> bool {
    routes.contains_key(start_name()) && match routes[start_name()].0.spec_route(state) {
        Some(first) => may_execute(nodes, routes, first, state, step_budget(), name),
        None => false,
    }
}

/// Wiring validation pays off at run time: when every router takes only
/// steps it declares, every way a run of a validated graph may go, whatever
/// deltas its nodes emit, avoids an unknown node, a node without a route and
/// a missing entry: it ends at the exit or when its step budget is used up.
/// And it never executes the entry or the exit sentinel as a node.
pub proof fn law_valid_graph_runs_cleanly<S: Merge<D>, D>(
    nodes: Map<Seq<char>, BoxedNode<S, D>>,
    routes: Map<Seq<char>, BoxedEdge<S>>,
    state: S,
    outcome: Result<S, RunErrorView>,
)
    requires
        graph_is_valid(nodes, routes),
        routes_honestly(routes),
    ensures
        run_outcome(nodes, routes, state, outcome) ==> ends_cleanly(outcome),
        !run_may_execute(nodes, routes, state, start_name()),
        !run_may_execute(nodes, routes, state, end_name()),
{
    let first = routes[start_name()].0.spec_route(state);
    assert(routes[start_name()].0.spec_possible_next().contains(first));
    if let Some(name) = first {
        assert(steps_to(routes, start_name(), name));
        lemma_start_reachable(routes);
        lemma_entered_runs_cleanly(nodes, routes, start_name(), name, state, step_budget(), outcome);
    }
}

/// A run continuing at a node that a reachable router leads to ends cleanly.
proof fn lemma_entered_runs_cleanly<S: Merge<D>, D>(
    nodes: Map<Seq<char>, BoxedNode<S, D>>,
    routes: Map<Seq<char>, BoxedEdge<S>>,
    from: Seq<char>,
    current: Seq<char>,
    state: S,
    fuel: nat,
    outcome: Result<S, RunErrorView>,
)
    requires
        graph_is_valid(nodes, routes),
        routes_honestly(routes),
        reachable(routes, from),
        steps_to(routes, from, current),
        current != end_name(),
    ensures
        runs_to(nodes, routes, current, state, fuel, outcome) ==> ends_cleanly(outcome),
        !may_execute(nodes, routes, current, state, fuel, start_name()),
        !may_execute(nodes, routes, current, state, fuel, end_name()),
    decreases fuel,
{
    if fuel > 0 {
        assert(!steps_to(routes, from, start_name()));
        assert(!missing_target(nodes, routes, current));
        assert(nodes.contains_key(current));
        assert(routes.contains_key(current));
        lemma_reach_step(routes, from, current);
        assert forall|delta: D| #[trigger] nodes[current].0.spec_outputs(state, delta) implies {
            let merged = state.spec_merge(delta);
            &&& (match routes[current].0.spec_route(merged) {
                Some(next) => runs_to(nodes, routes, next, merged, (fuel - 1) as nat, outcome),
                None => outcome == Ok::<S, RunErrorView>(merged),
            }) ==> ends_cleanly(outcome)
            &&& !(match routes[current].0.spec_route(merged) {
                Some(next) => may_execute(nodes, routes, next, merged, (fuel - 1) as nat, start_name()),
                None => false,
            })
            &&& !(match routes[current].0.spec_route(merged) {
                Some(next) => may_execute(nodes, routes, next, merged, (fuel - 1) as nat, end_name()),
                None => false,
            })
        } by {
            let merged = state.spec_merge(delta);
            let step = routes[current].0.spec_route(merged);
            assert(routes[current].0.spec_possible_next().contains(step));
            if let Some(next) = step {
                assert(steps_to(routes, current, next));
                lemma_entered_runs_cleanly(nodes, routes, current, next, merged, (fuel - 1) as nat, outcome);
            }
        }
    }
}

/// Whether running node `id` against `state` may lead to `next_state`: `id`
/// is registered and has a router, and it may emit a delta whose merge into
/// `state` is `next_state`.
pub open spec fn step_ok<S: Merge<D>, D>(
    nodes: Map<Seq<char>, BoxedNode<S, D>>,
    routes: Map<Seq<char>, BoxedEdge<S>>,
    id: Seq<char>,
    state: S,
    next_state: S,
) -> bool {
    &&& nodes.contains_key(id)
    &&& routes.contains_key(id)
    &&& exists|delta: D| #[trigger] nodes[id].0.spec_outputs(state, delta) && next_state == state.spec_merge(delta)
}

/// Whether the `i`-th recorded node takes the `i`-th recorded state to the
/// next one.
pub open spec fn link_ok<S: Merge<D>, D>(
    nodes: Map<Seq<char>, BoxedNode<S, D>>,
    routes: Map<Seq<char>, BoxedEdge<S>>,
    ids: Seq<Seq<char>>,
    states: Seq<S>,
    i: int,
) -> bool {
    step_ok(nodes, routes, ids[i], states[i], states[i + 1])
}

/// Whether the router of the `i`-th recorded node picks the next recorded
/// node from the state that node left.
pub open spec fn pick_ok<S>(routes: Map<Seq<char>, BoxedEdge<S>>, ids: Seq<Seq<char>>, states: Seq<S>, i: int) -> bool {
    routes[ids[i]].0.spec_route(states[i + 1]) == Some(ids[i + 1])
}

/// Whether `ids` and `states` record consecutive steps of a run: node
/// `ids[i]` takes `states[i]` to `states[i + 1]`, and its router then picks
/// `ids[i + 1]`.
pub open spec fn is_path<S: Merge<D>, D>(
    nodes: Map<Seq<char>, BoxedNode<S, D>>,
    routes: Map<Seq<char>, BoxedEdge<S>>,
    ids: Seq<Seq<char>>,
    states: Seq<S>,
) -> bool {
    &&& ids.len() >= 1
    &&& states.len() == ids.len() + 1
    &&& forall|i: int| 0 <= i < ids.len() ==> #[trigger] link_ok(nodes, routes, ids, states, i)
    &&& forall|i: int| 0 <= i < ids.len() - 1 ==> #[trigger] pick_ok(routes, ids, states, i)
}

/// Whether a run stops with `outcome` right after the recorded steps: the
/// last router picks the exit and the outcome is the last state, or it picks
/// a node that is not registered and the outcome says so.
pub open spec fn ends_after<S: Merge<D>, D>(
    nodes: Map<Seq<char>, BoxedNode<S, D>>,
    routes: Map<Seq<char>, BoxedEdge<S>>,
    ids: Seq<Seq<char>>,
    states: Seq<S>,
    outcome: Result<S, RunErrorView>,
) -> bool {
    let pick = routes[ids.last()].0.spec_route(states.last());
    match outcome {
        Ok(s) => pick == None::<Seq<char>> && s == states.last(),
        Err(RunErrorView::UnknownNode(n)) => pick == Some(n) && !nodes.contains_key(n),
        _ => false,
    }
}

/// Whether `ids` and `states` record a whole run from `state` that ends with
/// `outcome` within the step budget: the entry's router picks `ids[0]` from
/// `state`, the nodes step as recorded, and the run stops right after.
pub open spec fn traced_run<S: Merge<D>, D>(
    nodes: Map<Seq<char>, BoxedNode<S, D>>,
    routes: Map<Seq<char>, BoxedEdge<S>>,
    state: S,
    ids: Seq<Seq<char>>,
    states: Seq<S>,
    outcome: Result<S, RunErrorView>,
) -> bool {
    &&& routes.contains_key(start_name())
    &&& is_path(nodes, routes, ids, states)
    &&& states[0] == state
    &&& routes[start_name()].0.spec_route(state) == Some(ids[0])
    &&& ends_after(nodes, routes, ids, states, outcome)
    &&& ids.len() <= step_budget()
    &&& outcome is Err ==> ids.len() < step_budget()
}

/// Whether a run from `state` stops with `outcome` before any node runs: the
/// entry's router picks the exit, or a node that is not registered.
pub open spec fn stops_at_entry<S: Merge<D>, D>(
    nodes: Map<Seq<char>, BoxedNode<S, D>>,
    routes: Map<Seq<char>, BoxedEdge<S>>,
    state: S,
    outcome: Result<S, RunErrorView>,
) -> bool {
    routes.contains_key(start_name()) && match outcome {
        Ok(s) => routes[start_name()].0.spec_route(state) == None::<Seq<char>> && s == state,
        Err(RunErrorView::UnknownNode(n)) => routes[start_name()].0.spec_route(state) == Some(n)
            && !nodes.contains_key(n),
        _ => false,
    }
}

/// A run ends at the exit with a state, or reports the first node it reaches
/// that is not registered, exactly when some recorded run shows it: the
/// entry's router picks the first node, each node may emit the delta that is
/// merged, each router picks the next node from the merged state, and the
/// last router picks the exit (or the unregistered node), all within the
/// step budget.
pub proof fn law_run_trace<S: Merge<D>, D>(
    nodes: Map<Seq<char>, BoxedNode<S, D>>,
    routes: Map<Seq<char>, BoxedEdge<S>>,
    state: S,
    outcome: Result<S, RunErrorView>,
)
    requires
        outcome is Ok || outcome matches Err(RunErrorView::UnknownNode(_)),
    ensures
        run_outcome(nodes, routes, state, outcome) <==> (stops_at_entry(nodes, routes, state, outcome)
            || exists|ids: Seq<Seq<char>>, states: Seq<S>|
            #[trigger] traced_run(nodes, routes, state, ids, states, outcome)),
{
    if run_outcome(nodes, routes, state, outcome) && routes.contains_key(start_name()) {
        if let Some(first) = routes[start_name()].0.spec_route(state) {
            lemma_path_forward(nodes, routes, first, state, step_budget(), outcome);
            if !(step_budget() > 0 && !nodes.contains_key(first) && outcome == Err::<
                S,
                RunErrorView,
            >(RunErrorView::UnknownNode(first))) {
                let (ids, states) = choose|ids: Seq<Seq<char>>, states: Seq<S>|
                    #[trigger] is_path(nodes, routes, ids, states) && ids[0] == first && states[0] == state
                        && ends_after(nodes, routes, ids, states, outcome) && ids.len() <= step_budget() && (
                    outcome is Err ==> ids.len() < step_budget());
                assert(traced_run(nodes, routes, state, ids, states, outcome));
            }
        }
    }
    if stops_at_entry(nodes, routes, state, outcome) {
        if let Some(first) = routes[start_name()].0.spec_route(state) {
            assert(runs_to(nodes, routes, first, state, step_budget(), outcome));
        }
    }
    if exists|ids: Seq<Seq<char>>, states: Seq<S>| #[trigger] traced_run(nodes, routes, state, ids, states, outcome) {
        let (ids, states) = choose|ids: Seq<Seq<char>>, states: Seq<S>|
            #[trigger] traced_run(nodes, routes, state, ids, states, outcome);
        lemma_path_back(nodes, routes, ids, states, step_budget(), outcome);
    }
}

/// A recorded run prefix that stops right after, within `fuel` steps, is an
/// outcome of continuing at its first node.
proof fn lemma_path_back<S: Merge<D>, D>(
    nodes: Map<Seq<char>, BoxedNode<S, D>>,
    routes: Map<Seq<char>, BoxedEdge<S>>,
    ids: Seq<Seq<char>>,
    states: Seq<S>,
    fuel: nat,
    outcome: Result<S, RunErrorView>,
)
    requires
        is_path(nodes, routes, ids, states),
        ends_after(nodes, routes, ids, states, outcome),
        ids.len() <= fuel,
        outcome is Err ==> ids.len() < fuel,
    ensures
        runs_to(nodes, routes, ids[0], states[0], fuel, outcome),
    decreases ids.len(),
{
    assert(link_ok(nodes, routes, ids, states, 0));
    let cur = ids[0];
    let delta = choose|delta: D|
        #[trigger] nodes[cur].0.spec_outputs(states[0], delta) && states[1] == states[0].spec_merge(delta);
    if ids.len() == 1 {
        if let Err(RunErrorView::UnknownNode(n)) = outcome {
            assert(runs_to(nodes, routes, n, states[1], (fuel - 1) as nat, outcome));
        }
        assert(nodes[cur].0.spec_outputs(states[0], delta));
    } else {
        let rest_ids = ids.drop_first();
        let rest_states = states.drop_first();
        assert forall|i: int| 0 <= i < rest_ids.len() implies #[trigger] link_ok(
            nodes,
            routes,
            rest_ids,
            rest_states,
            i,
        ) by {
            assert(link_ok(nodes, routes, ids, states, i + 1));
            assert(rest_ids[i] == ids[i + 1] && rest_states[i] == states[i + 1] && rest_states[i + 1]
                == states[i + 2]);
        }
        assert forall|i: int| 0 <= i < rest_ids.len() - 1 implies #[trigger] pick_ok(
            routes,
            rest_ids,
            rest_states,
            i,
        ) by {
            assert(pick_ok(routes, ids, states, i + 1));
            assert(rest_ids[i] == ids[i + 1] && rest_ids[i + 1] == ids[i + 2] && rest_states[i + 1]
                == states[i + 2]);
        }
        assert(rest_ids.last() == ids.last() && rest_states.last() == states.last());
        lemma_path_back(nodes, routes, rest_ids, rest_states, (fuel - 1) as nat, outcome);
        assert(pick_ok(routes, ids, states, 0));
        assert(nodes[cur].0.spec_outputs(states[0], delta));
    }
}

/// Every way a continuing run may end at the exit or at an unregistered node
/// is recorded by some run prefix, unless the node it continues at is itself
/// unregistered.
proof fn lemma_path_forward<S: Merge<D>, D>(
    nodes: Map<Seq<char>, BoxedNode<S, D>>,
    routes: Map<Seq<char>, BoxedEdge<S>>,
    current: Seq<char>,
    state: S,
    fuel: nat,
    outcome: Result<S, RunErrorView>,
)
    requires
        runs_to(nodes, routes, current, state, fuel, outcome),
        outcome is Ok || outcome matches Err(RunErrorView::UnknownNode(_)),
    ensures
        (fuel > 0 && !nodes.contains_key(current) && outcome == Err::<S, RunErrorView>(
            RunErrorView::UnknownNode(current),
        )) || exists|ids: Seq<Seq<char>>, states: Seq<S>|
            #[trigger] is_path(nodes, routes, ids, states) && ids[0] == current && states[0] == state
                && ends_after(nodes, routes, ids, states, outcome) && ids.len() <= fuel && (outcome is Err
                ==> ids.len() < fuel),
    decreases fuel,
{
    if fuel > 0 && nodes.contains_key(current) {
        let delta = choose|delta: D|
            #[trigger] nodes[current].0.spec_outputs(state, delta) && {
                let merged = state.spec_merge(delta);
                if !routes.contains_key(current) {
                    outcome == Err::<S, RunErrorView>(RunErrorView::MissingRoute(current))
                } else {
                    match routes[current].0.spec_route(merged) {
                        Some(next) => runs_to(nodes, routes, next, merged, (fuel - 1) as nat, outcome),
                        None => outcome == Ok::<S, RunErrorView>(merged),
                    }
                }
            };
        let merged = state.spec_merge(delta);
        let one_ids = seq![current];
        let one_states = seq![state, merged];
        assert(step_ok(nodes, routes, current, state, merged));
        assert(link_ok(nodes, routes, one_ids, one_states, 0));
        match routes[current].0.spec_route(merged) {
            None => {
                assert(is_path(nodes, routes, one_ids, one_states));
                assert(ends_after(nodes, routes, one_ids, one_states, outcome));
            },
            Some(next) => {
                lemma_path_forward(nodes, routes, next, merged, (fuel - 1) as nat, outcome);
                if (fuel - 1) as nat > 0 && !nodes.contains_key(next) && outcome == Err::<S, RunErrorView>(
                    RunErrorView::UnknownNode(next),
                ) {
                    assert(is_path(nodes, routes, one_ids, one_states));
                    assert(ends_after(nodes, routes, one_ids, one_states, outcome));
                } else {
                    let (ids, states) = choose|ids: Seq<Seq<char>>, states: Seq<S>|
                        #[trigger] is_path(nodes, routes, ids, states) && ids[0] == next && states[0] == merged
                            && ends_after(nodes, routes, ids, states, outcome) && ids.len() <= (fuel - 1) as nat
                            && (outcome is Err ==> ids.len() < (fuel - 1) as nat);
                    let all_ids = seq![current] + ids;
                    let all_states = seq![state] + states;
                    assert forall|i: int| 0 <= i < all_ids.len() implies #[trigger] link_ok(
                        nodes,
                        routes,
                        all_ids,
                        all_states,
                        i,
                    ) by {
                        if i > 0 {
                            assert(link_ok(nodes, routes, ids, states, i - 1));
                            assert(all_ids[i] == ids[i - 1] && all_states[i] == states[i - 1]
                                && all_states[i + 1] == states[i]);
                        } else {
                            assert(all_ids[0] == current && all_states[0] == state && all_states[1] == merged);
                        }
                    }
                    assert forall|i: int| 0 <= i < all_ids.len() - 1 implies #[trigger] pick_ok(
                        routes,
                        all_ids,
                        all_states,
                        i,
                    ) by {
                        if i > 0 {
                            assert(pick_ok(routes, ids, states, i - 1));
                            assert(all_ids[i] == ids[i - 1] && all_ids[i + 1] == ids[i] && all_states[i
                                + 1] == states[i]);
                        } else {
                            assert(all_ids[1] == next && all_states[1] == merged);
                        }
                    }
                    assert(all_ids.last() == ids.last() && all_states.last() == states.last());
                    assert(is_path(nodes, routes, all_ids, all_states));
                    assert(ends_after(nodes, routes, all_ids, all_states, outcome));
                }
            },
        }
    }
}

/// A run with no registered node stops at the first node the entry's router
/// picks and reports it unknown, or ends with the initial state when the
/// entry routes straight to the exit.
pub proof fn law_empty_registry_stops_at_first_node<S: Merge<D>, D>(
    routes: Map<Seq<char>, BoxedEdge<S>>,
    state: S,
    outcome: Result<S, RunErrorView>,
)
    requires
        routes.contains_key(start_name()),
    ensures
        run_outcome(Map::<Seq<char>, BoxedNode<S, D>>::empty(), routes, state, outcome) <==> outcome == (
        match routes[start_name()].0.spec_route(state) {
            Some(first) => Err::<S, RunErrorView>(RunErrorView::UnknownNode(first)),
            None => Ok::<S, RunErrorView>(state),
        }),
{
}

/// An unconditional edge takes the one step it declares, whatever the
/// state, and never names the exit as a node to continue at.
pub proof fn law_unconditional_edge_is_honest<S>(edge: UnconditionalEdge, s: S, t: S)
    ensures
        <UnconditionalEdge as Edge<S>>::spec_possible_next(&edge).contains(
            <UnconditionalEdge as Edge<S>>::spec_route(&edge, s),
        ),
        <UnconditionalEdge as Edge<S>>::spec_route(&edge, s) != Some(end_name()),
        <UnconditionalEdge as Edge<S>>::spec_route(&edge, s) == <UnconditionalEdge as Edge<
            S,
        >>::spec_route(&edge, t),
{
    assert(<UnconditionalEdge as Edge<S>>::spec_possible_next(&edge)[0] == next_of(edge.0@));
}

/// A builder keeps the first wiring error it notices: once it holds an
/// error, later registrations leave it unchanged; until then, noticing one
/// makes it hold that one.
pub proof fn law_first_error_kept(
    held: Option<BuildErrorView>,
    found: BuildErrorView,
    from: Seq<char>,
    to_entry: bool,
)
    ensures
        keep_first(held, found) is Some,
        held is Some ==> keep_first(held, found) == held,
        held is None ==> keep_first(held, found) == Some(found),
        held is Some ==> edge_error(held, from, to_entry) == held,
{
}

/// An edge into the entry, or out of the exit, always leaves the builder
/// holding an error, so the build fails.
pub proof fn law_edges_at_sentinels_rejected(held: Option<BuildErrorView>, from: Seq<char>)
    ensures
        edge_error(held, from, true) is Some,
        edge_error(held, end_name(), false) is Some,
{
}


/// The breadth-first walk that build reports a missing target from names at
/// most one target: two names it reports first are the same name.
pub proof fn law_walk_reports_one_target<S, D>(
    nodes: Map<Seq<char>, BoxedNode<S, D>>,
    routes: Map<Seq<char>, BoxedEdge<S>>,
    a: Seq<char>,
    b: Seq<char>,
)
    requires
        walk_reports_first(nodes, routes, a),
        walk_reports_first(nodes, routes, b),
    ensures
        a == b,
{
    let init = seq![start_name()];
    let fa = choose|f: nat| #[trigger] walk_reports(nodes, routes, init, 0, Set::empty(), f) == Some(a);
    let fb = choose|f: nat| #[trigger] walk_reports(nodes, routes, init, 0, Set::empty(), f) == Some(b);
    if fa <= fb {
        lemma_walk_reports_settles(nodes, routes, init, 0, Set::empty(), fa, fb);
    } else {
        lemma_walk_reports_settles(nodes, routes, init, 0, Set::empty(), fb, fa);
    }
}


/// Whether every registered node emits one delta for each state.
pub open spec fn emits_one_delta<S, D>(nodes: Map<Seq<char>, BoxedNode<S, D>>) -> bool {
    forall|name: Seq<char>, s: S, d1: D, d2: D|
        #![trigger nodes[name].0.spec_outputs(s, d1), nodes[name].0.spec_outputs(s, d2)]
        nodes.contains_key(name) && nodes[name].0.spec_outputs(s, d1) && nodes[name].0.spec_outputs(s, d2)
            ==> d1 == d2
}

/// Two outcomes of one run, continuing at one node, agree when every node
/// emits one delta for each state.
proof fn lemma_runs_to_one_outcome<S: Merge<D>, D>(
    nodes: Map<Seq<char>, BoxedNode<S, D>>,
    routes: Map<Seq<char>, BoxedEdge<S>>,
    current: Seq<char>,
    state: S,
    fuel: nat,
    first: Result<S, RunErrorView>,
    second: Result<S, RunErrorView>,
)
    requires
        emits_one_delta(nodes),
        runs_to(nodes, routes, current, state, fuel, first),
        runs_to(nodes, routes, current, state, fuel, second),
    ensures
        first == second,
    decreases fuel,
{
    if fuel > 0 && nodes.contains_key(current) {
        let d1 = choose|delta: D|
            #[trigger] nodes[current].0.spec_outputs(state, delta) && {
                let merged = state.spec_merge(delta);
                if !routes.contains_key(current) {
                    first == Err::<S, RunErrorView>(RunErrorView::MissingRoute(current))
                } else {
                    match routes[current].0.spec_route(merged) {
                        Some(next) => runs_to(nodes, routes, next, merged, (fuel - 1) as nat, first),
                        None => first == Ok::<S, RunErrorView>(merged),
                    }
                }
            };
        let d2 = choose|delta: D|
            #[trigger] nodes[current].0.spec_outputs(state, delta) && {
                let merged = state.spec_merge(delta);
                if !routes.contains_key(current) {
                    second == Err::<S, RunErrorView>(RunErrorView::MissingRoute(current))
                } else {
                    match routes[current].0.spec_route(merged) {
                        Some(next) => runs_to(nodes, routes, next, merged, (fuel - 1) as nat, second),
                        None => second == Ok::<S, RunErrorView>(merged),
                    }
                }
            };
        assert(d1 == d2);
        let merged = state.spec_merge(d1);
        if routes.contains_key(current) {
            if let Some(next) = routes[current].0.spec_route(merged) {
                lemma_runs_to_one_outcome(nodes, routes, next, merged, (fuel - 1) as nat, first, second);
            }
        }
    }
}

/// When every node emits one delta for each state, a run from a given state
/// has exactly one outcome: the one the run relation describes.
pub proof fn law_deterministic_run_has_one_outcome<S: Merge<D>, D>(
    nodes: Map<Seq<char>, BoxedNode<S, D>>,
    routes: Map<Seq<char>, BoxedEdge<S>>,
    state: S,
    first: Result<S, RunErrorView>,
    second: Result<S, RunErrorView>,
)
    requires
        emits_one_delta(nodes),
        run_outcome(nodes, routes, state, first),
        run_outcome(nodes, routes, state, second),
    ensures
        first == second,
{
    if routes.contains_key(start_name()) {
        if let Some(entry) = routes[start_name()].0.spec_route(state) {
            lemma_runs_to_one_outcome(nodes, routes, entry, state, step_budget(), first, second);
        }
    }
}

/// When the target type lists the step of each of its values, a conditional
/// edge only takes steps it declares, so the wiring check covers every step
/// a run can take from it.
pub proof fn law_conditional_edge_declares_its_steps<S, F: Fn(&S) -> R, R: RouteTargets>(
    edge: ConditionalEdge<S, F, R>,
    state: S,
)
    requires
        forall|r: R| R::spec_variants().contains(#[trigger] r.spec_next()),
    ensures
        edge.spec_possible_next().contains(edge.spec_route(state)),
{
    let r = decision(edge.chooser(), state);
    assert(R::spec_variants().contains(r.spec_next()));
}


/// A run is cut off only after 18446744073709551615 node executions, the
/// largest `u64`.
pub proof fn law_step_budget_is_u64_max()
    ensures
        step_budget() == 18446744073709551615nat,
{
}

/// A run whose recorded steps reach the exit after at most 18446744073709551615
/// node executions may end with the last recorded state; when every node
/// emits one delta for each state, that is the only way it ends.
pub proof fn law_traced_run_reaches_exit<S: Merge<D>, D>(
    nodes: Map<Seq<char>, BoxedNode<S, D>>,
    routes: Map<Seq<char>, BoxedEdge<S>>,
    state: S,
    ids: Seq<Seq<char>>,
    states: Seq<S>,
    outcome: Result<S, RunErrorView>,
)
    requires
        routes.contains_key(start_name()),
        routes[start_name()].0.spec_route(state) == Some(ids[0]),
        is_path(nodes, routes, ids, states),
        states[0] == state,
        routes[ids.last()].0.spec_route(states.last()) == None::<Seq<char>>,
        ids.len() <= 18446744073709551615nat,
    ensures
        run_outcome(nodes, routes, state, Ok(states.last())),
        emits_one_delta(nodes) && run_outcome(nodes, routes, state, outcome) ==> outcome == Ok::<
            S,
            RunErrorView,
        >(states.last()),
{
    let done = Ok::<S, RunErrorView>(states.last());
    assert(ends_after(nodes, routes, ids, states, done));
    assert(traced_run(nodes, routes, state, ids, states, done));
    law_run_trace(nodes, routes, state, done);
    if emits_one_delta(nodes) && run_outcome(nodes, routes, state, outcome) {
        law_deterministic_run_has_one_outcome(nodes, routes, state, outcome, done);
    }
}

/// Every name but the exit's is a step to that very node; the exit's name is
/// the step that ends the run.
pub proof fn law_next_of_keeps_nodes(name: Seq<char>)
    ensures
        name != end_name() ==> next_of(name) == Some(name),
        next_of(end_name()) == None::<Seq<char>>,
{
}

/// The sentinels are named `__start__` and `__end__`.
pub proof fn law_sentinel_names()
    ensures
        start_name() == seq!['_', '_', 's', 't', 'a', 'r', 't', '_', '_'],
        end_name() == seq!['_', '_', 'e', 'n', 'd', '_', '_'],
{
    reveal_strlit("__start__");
    reveal_strlit("__end__");
    assert(start_name() =~= seq!['_', '_', 's', 't', 'a', 'r', 't', '_', '_']);
    assert(end_name() =~= seq!['_', '_', 'e', 'n', 'd', '_', '_']);
}

/// Registering an edge out of a node other than the exit, with no target at
/// the entry, leaves the builder's error as it was. Otherwise a builder that
/// holds no error records `InvalidEntry` for a target at the entry, else
/// `InvalidExit` for an edge out of the exit; a held error is kept.
pub proof fn law_ordinary_edge_keeps_error(held: Option<BuildErrorView>, from: Seq<char>, to_entry: bool)
    ensures
        from != end_name() && !to_entry ==> edge_error(held, from, to_entry) == held,
        held is Some ==> edge_error(held, from, to_entry) == held,
        held is None && to_entry ==> edge_error(held, from, to_entry) == Some(BuildErrorView::InvalidEntry),
        held is None && !to_entry && from == end_name() ==> edge_error(held, from, to_entry) == Some(
            BuildErrorView::InvalidExit,
        ),
{
}

} // verus!
