//! wiring analysis: which nodes a graph's routers can lead to from the entry,
//! and the checks a graph passes before it may run.

use vstd::prelude::*;
use vstd::set_lib::lemma_len_subset;

use crate::graph::id::{end_name, next_views, start_name, Next, NodeId};
use crate::graph::route::BoxedEdge;
use crate::graph::runtime::BoxedNode;
use crate::graph::table::IdMap;

verus! {

/// Whether the router of `from` declares `to` as a possible next node.
pub open spec fn steps_to<S>(routes: Map<Seq<char>, BoxedEdge<S>>, from: Seq<char>, to: Seq<char>) -> bool {
    routes.contains_key(from) && routes[from].0.spec_possible_next().contains(Some(to))
}

/// Whether the `i`-th step of `walk` follows a declared edge.
pub open spec fn walk_link<S>(routes: Map<Seq<char>, BoxedEdge<S>>, walk: Seq<Seq<char>>, i: int) -> bool {
    steps_to(routes, walk[i], walk[i + 1])
}

/// A walk from the entry along declared edges.
pub open spec fn is_walk<S>(routes: Map<Seq<char>, BoxedEdge<S>>, walk: Seq<Seq<char>>) -> bool {
    &&& walk.len() > 0
    &&& walk[0] == start_name()
    &&& forall|i: int| 0 <= i < walk.len() - 1 ==> #[trigger] walk_link(routes, walk, i)
}

/// Whether some walk from the entry along declared edges ends at `name`.
pub open spec fn reachable<S>(routes: Map<Seq<char>, BoxedEdge<S>>, name: Seq<char>) -> bool {
    exists|walk: Seq<Seq<char>>| #[trigger] is_walk(routes, walk) && walk.last() == name
}

/// Whether a reachable router declares `name` as a next node although `name`
/// is neither the exit nor a registered node.
pub open spec fn missing_target<S, D>(
    nodes: Map<Seq<char>, BoxedNode<S, D>>,
    routes: Map<Seq<char>, BoxedEdge<S>>,
    name: Seq<char>,
) -> bool {
    &&& name != end_name()
    &&& !nodes.contains_key(name)
    &&& exists|from: Seq<char>| #[trigger] reachable(routes, from) && steps_to(routes, from, name)
}

/// Whether the `k`-th declared step continues at a node that is neither the
/// exit nor registered.
pub open spec fn unregistered_step<S, D>(
    nodes: Map<Seq<char>, BoxedNode<S, D>>,
    steps: Seq<Option<Seq<char>>>,
    k: int,
) -> bool {
    steps[k] matches Some(t) && t != end_name() && !nodes.contains_key(t)
}

/// The first declared step that continues at a node that is neither the exit
/// nor registered.
pub open spec fn first_unregistered<S, D>(
    nodes: Map<Seq<char>, BoxedNode<S, D>>,
    steps: Seq<Option<Seq<char>>>,
) -> Option<Seq<char>>
    decreases steps.len(),
{
    if steps.len() == 0 {
        None
    } else if unregistered_step(nodes, steps, 0) {
        steps[0]
    } else {
        first_unregistered(nodes, steps.drop_first())
    }
}

/// The nodes that a list of declared steps continues at, in order.
pub open spec fn step_targets(steps: Seq<Option<Seq<char>>>) -> Seq<Seq<char>>
    decreases steps.len(),
{
    if steps.len() == 0 {
        Seq::empty()
    } else {
        let before = step_targets(steps.drop_last());
        match steps.last() {
            Some(t) => before.push(t),
            None => before,
        }
    }
}

/// What a breadth-first walk of the wiring reports as the first declared
/// next node that is neither the exit nor registered, given the names
/// queued so far, the position of the next one to take, and the names
/// already seen; `fuel` bounds how many queued names are taken. The walk
/// takes queued names in order, skips those already seen, and for each new
/// name with a router either reports the first such step in its list or
/// queues every node its router declares.
pub open spec fn walk_reports<S, D>(
    nodes: Map<Seq<char>, BoxedNode<S, D>>,
    routes: Map<Seq<char>, BoxedEdge<S>>,
    queue: Seq<Seq<char>>,
    head: int,
    seen: Set<Seq<char>>,
    fuel: nat,
) -> Option<Seq<char>>
    decreases fuel,
{
    if fuel == 0 || head < 0 || head >= queue.len() {
        None
    } else {
        let current = queue[head];
        if seen.contains(current) {
            walk_reports(nodes, routes, queue, head + 1, seen, (fuel - 1) as nat)
        } else if !routes.contains_key(current) {
            walk_reports(nodes, routes, queue, head + 1, seen.insert(current), (fuel - 1) as nat)
        } else {
            let steps = routes[current].0.spec_possible_next();
            match first_unregistered(nodes, steps) {
                Some(t) => Some(t),
                None => walk_reports(
                    nodes,
                    routes,
                    queue + step_targets(steps),
                    head + 1,
                    seen.insert(current),
                    (fuel - 1) as nat,
                ),
            }
        }
    }
}

/// Whether the breadth-first walk from the entry reports `name` first.
pub open spec fn walk_reports_first<S, D>(
    nodes: Map<Seq<char>, BoxedNode<S, D>>,
    routes: Map<Seq<char>, BoxedEdge<S>>,
    name: Seq<char>,
) -> bool {
    exists|fuel: nat| #[trigger] walk_reports(nodes, routes, seq![start_name()], 0, Set::empty(), fuel) == Some(name)
}

/// Once the walk reports a name, more fuel reports the same name.
pub proof fn lemma_walk_reports_settles<S, D>(
    nodes: Map<Seq<char>, BoxedNode<S, D>>,
    routes: Map<Seq<char>, BoxedEdge<S>>,
    queue: Seq<Seq<char>>,
    head: int,
    seen: Set<Seq<char>>,
    fuel: nat,
    more: nat,
)
    requires
        fuel <= more,
        walk_reports(nodes, routes, queue, head, seen, fuel) is Some,
    ensures
        walk_reports(nodes, routes, queue, head, seen, more) == walk_reports(nodes, routes, queue, head, seen, fuel),
    decreases fuel,
{
    let current = queue[head];
    if seen.contains(current) {
        lemma_walk_reports_settles(nodes, routes, queue, head + 1, seen, (fuel - 1) as nat, (more - 1) as nat);
    } else if !routes.contains_key(current) {
        lemma_walk_reports_settles(
            nodes,
            routes,
            queue,
            head + 1,
            seen.insert(current),
            (fuel - 1) as nat,
            (more - 1) as nat,
        );
    } else {
        let steps = routes[current].0.spec_possible_next();
        if first_unregistered(nodes, steps) is None {
            lemma_walk_reports_settles(
                nodes,
                routes,
                queue + step_targets(steps),
                head + 1,
                seen.insert(current),
                (fuel - 1) as nat,
                (more - 1) as nat,
            );
        }
    }
}

/// The first unregistered step is the first index with one.
proof fn lemma_first_unregistered<S, D>(nodes: Map<Seq<char>, BoxedNode<S, D>>, steps: Seq<Option<Seq<char>>>, k: int)
    requires
        0 <= k <= steps.len(),
        forall|j: int| 0 <= j < k ==> !#[trigger] unregistered_step(nodes, steps, j),
    ensures
        k < steps.len() && unregistered_step(nodes, steps, k) ==> first_unregistered(nodes, steps) == steps[k],
        k == steps.len() ==> first_unregistered(nodes, steps) is None,
    decreases k,
{
    if k > 0 {
        assert(!unregistered_step(nodes, steps, 0));
        let rest = steps.drop_first();
        assert forall|j: int| 0 <= j < k - 1 implies !#[trigger] unregistered_step(nodes, rest, j) by {
            assert(!unregistered_step(nodes, steps, j + 1));
            assert(rest[j] == steps[j + 1]);
        }
        lemma_first_unregistered(nodes, rest, k - 1);
        if k < steps.len() {
            assert(rest[k - 1] == steps[k]);
        }
    }
}

/// Whether `name` has a router that declares the exit as a possible next step.
pub open spec fn exits_from<S>(routes: Map<Seq<char>, BoxedEdge<S>>, name: Seq<char>) -> bool {
    routes.contains_key(name) && routes[name].0.spec_possible_next().contains(None)
}

/// Whether some reachable router declares the exit as a possible next step.
pub open spec fn reaches_exit<S>(routes: Map<Seq<char>, BoxedEdge<S>>) -> bool {
    exists|name: Seq<char>| #[trigger] reachable(routes, name) && exits_from(routes, name)
}

/// The wiring checks that a graph passes before it may run: the entry has a
/// route, the exit has none, every node has one, every next node that a
/// reachable router declares is registered (or is the exit), some reachable
/// router can end the run, and no router leads back into the entry.
pub open spec fn graph_is_valid<S, D>(
    nodes: Map<Seq<char>, BoxedNode<S, D>>,
    routes: Map<Seq<char>, BoxedEdge<S>>,
) -> bool {
    &&& routes.contains_key(start_name())
    &&& !routes.contains_key(end_name())
    &&& forall|name: Seq<char>| #[trigger] nodes.contains_key(name) ==> routes.contains_key(name)
    &&& forall|name: Seq<char>| !#[trigger] missing_target(nodes, routes, name)
    &&& reaches_exit(routes)
    &&& no_step_into_entry(routes)
}

/// Whether no router declares the entry as a next node.
pub open spec fn no_step_into_entry<S>(routes: Map<Seq<char>, BoxedEdge<S>>) -> bool {
    forall|name: Seq<char>| !#[trigger] steps_to(routes, name, start_name())
}

/// The names of a list of node ids.
pub open spec fn names(ids: Seq<NodeId>) -> Seq<Seq<char>> {
    ids.map_values(|id: NodeId| id@)
}

/// Whether `name` is a sentinel or a registered node.
pub open spec fn in_scope<S, D>(nodes: Map<Seq<char>, BoxedNode<S, D>>, name: Seq<char>) -> bool {
    name == start_name() || name == end_name() || nodes.contains_key(name)
}

/// Every next node declared by the router of a name in `seen` is listed in
/// `queued`, and is the exit or a registered node.
pub open spec fn targets_listed<S, D>(
    nodes: Map<Seq<char>, BoxedNode<S, D>>,
    routes: Map<Seq<char>, BoxedEdge<S>>,
    seen: Seq<Seq<char>>,
    queued: Seq<Seq<char>>,
) -> bool {
    forall|v: Seq<char>, t: Seq<char>|
        #![trigger seen.contains(v), steps_to(routes, v, t)]
        seen.contains(v) && steps_to(routes, v, t) ==> queued.contains(t) && (t == end_name()
            || nodes.contains_key(t))
}

/// Whether some name in `seen` has a router that may end the run.
pub open spec fn exit_seen<S>(routes: Map<Seq<char>, BoxedEdge<S>>, seen: Seq<Seq<char>>) -> bool {
    exists|v: Seq<char>| #[trigger] seen.contains(v) && exits_from(routes, v)
}

/// The entry is reachable.
pub proof fn lemma_start_reachable<S>(routes: Map<Seq<char>, BoxedEdge<S>>)
    ensures
        reachable(routes, start_name()),
{
    let walk = seq![start_name()];
    assert(is_walk(routes, walk));
}

/// Following a declared edge from a reachable node reaches its target.
pub proof fn lemma_reach_step<S>(routes: Map<Seq<char>, BoxedEdge<S>>, from: Seq<char>, to: Seq<char>)
    requires
        reachable(routes, from),
        steps_to(routes, from, to),
    ensures
        reachable(routes, to),
{
    let walk = choose|walk: Seq<Seq<char>>| #[trigger] is_walk(routes, walk) && walk.last() == from;
    let longer = walk.push(to);
    assert forall|i: int| 0 <= i < longer.len() - 1 implies #[trigger] walk_link(routes, longer, i) by {
        if i < walk.len() - 1 {
            assert(walk_link(routes, walk, i));
        }
    }
    assert(is_walk(routes, longer));
    assert(longer.last() == to);
}

/// A set of names that holds the entry and the targets of all its routers
/// holds every reachable name.
proof fn lemma_closed_covers<S>(routes: Map<Seq<char>, BoxedEdge<S>>, seen: Seq<Seq<char>>, walk: Seq<Seq<char>>)
    requires
        is_walk(routes, walk),
        seen.contains(start_name()),
        forall|v: Seq<char>, t: Seq<char>|
            #![trigger seen.contains(v), steps_to(routes, v, t)]
            seen.contains(v) && steps_to(routes, v, t) ==> seen.contains(t),
    ensures
        seen.contains(walk.last()),
    decreases walk.len(),
{
    if walk.len() > 1 {
        let prefix = walk.drop_last();
        assert forall|i: int| 0 <= i < prefix.len() - 1 implies #[trigger] walk_link(routes, prefix, i) by {
            assert(walk_link(routes, walk, i));
        }
        lemma_closed_covers(routes, seen, prefix);
        assert(walk_link(routes, walk, walk.len() - 2));
        assert(seen.contains(walk[walk.len() - 2]));
    }
}

/// Distinct names that are sentinels or registered nodes are at most two
/// more than the registrations.
proof fn lemma_scope_bound(seen: Seq<Seq<char>>, order: Seq<Seq<char>>)
    requires
        seen.no_duplicates(),
        forall|i: int|
            0 <= i < seen.len() ==> #[trigger] seen[i] == start_name() || seen[i] == end_name()
                || order.contains(seen[i]),
    ensures
        seen.len() <= order.len() + 2,
{
    let scope = order.push(start_name()).push(end_name());
    assert forall|x: Seq<char>| seen.to_set().contains(x) implies scope.to_set().contains(x) by {
        let i = choose|i: int| 0 <= i < seen.len() && seen[i] == x;
        if x == start_name() {
            assert(scope[order.len() as int] == x);
        } else if x == end_name() {
            assert(scope[order.len() + 1int] == x);
        } else {
            let j = choose|j: int| 0 <= j < order.len() && order[j] == x;
            assert(scope[j] == x);
        }
    }
    seen.unique_seq_to_set();
    scope.lemma_cardinality_of_set();
    lemma_len_subset(seen.to_set(), scope.to_set());
}

/// whether `id` is listed in `ids`
fn listed(ids: &Vec<NodeId>, id: &NodeId) -> (b: bool)
    ensures
        b == names(ids@).contains(id@),
{
    let mut i: usize = 0;
    while i < ids.len()
        invariant
            i <= ids@.len(),
            forall|j: int| 0 <= j < i ==> names(ids@)[j] != id@,
        decreases ids@.len() - i,
    {
        if ids[i] == *id {
            assert(names(ids@)[i as int] == id@);
            return true;
        }
        i = i + 1;
    }
    false
}

/// Walks the wiring breadth first from the entry, following the next steps
/// every router declares. Fails with the first declared next node that is
/// neither the exit nor registered; otherwise says whether some reachable
/// router may end the run.
pub(crate) fn explore<S, D>(nodes: &IdMap<BoxedNode<S, D>>, routes: &IdMap<BoxedEdge<S>>) -> (r: Result<bool, NodeId>)
    ensures
        match r {
            Ok(exit) => (forall|t: Seq<char>| !#[trigger] missing_target(nodes.view(), routes.view(), t))
                && exit == reaches_exit(routes.view()),
            Err(t) => missing_target(nodes.view(), routes.view(), t@) && walk_reports_first(
                nodes.view(),
                routes.view(),
                t@,
            ),
        },
{
    let ghost nm = nodes.view();
    let ghost rm = routes.view();
    let ghost order = nodes.key_order();
    let mut visited: Vec<NodeId> = Vec::new();
    let mut queue: Vec<NodeId> = Vec::new();
    queue.push(NodeId::start());
    let mut head: usize = 0;
    let mut exit = false;
    let ghost mut taken: nat = 0;
    proof {
        lemma_start_reachable(rm);
        assert(names(queue@) =~= seq![start_name()]);
        assert(names(visited@).to_set() =~= Set::<Seq<char>>::empty());
        nodes.lemma_keys();
        assert(names(queue@)[0] == start_name());
        assert(names(visited@) =~= Seq::<Seq<char>>::empty());
    }
    while head < queue.len()
        invariant
            nm == nodes.view(),
            rm == routes.view(),
            order == nodes.key_order(),
            forall|k: Seq<char>| nm.contains_key(k) <==> #[trigger] order.contains(k),
            0 < queue@.len(),
            head <= queue@.len(),
            names(queue@)[0] == start_name(),
            forall|i: int|
                0 <= i < queue@.len() ==> in_scope(nm, #[trigger] names(queue@)[i]) && reachable(
                    rm,
                    names(queue@)[i],
                ),
            names(visited@).no_duplicates(),
            forall|i: int|
                0 <= i < visited@.len() ==> in_scope(nm, #[trigger] names(visited@)[i]) && reachable(
                    rm,
                    names(visited@)[i],
                ),
            visited@.len() <= order.len() + 2,
            forall|i: int| 0 <= i < head ==> names(visited@).contains(#[trigger] names(queue@)[i]),
            targets_listed(nm, rm, names(visited@), names(queue@)),
            exit == exit_seen(rm, names(visited@)),
            forall|f: nat|
                #[trigger] walk_reports(nm, rm, names(queue@), head as int, names(visited@).to_set(), f)
                    == walk_reports(nm, rm, seq![start_name()], 0, Set::empty(), f + taken),
        decreases order.len() + 2 - visited@.len(), queue@.len() - head,
    {
        let current = queue[head];
        assert(names(queue@)[head as int] == current@);
        let ghost h0 = head as int;
        let ghost q0 = names(queue@);
        let ghost seen0 = names(visited@).to_set();
        head = head + 1;
        if listed(&visited, &current) {
            proof {
                assert forall|f: nat|
                    #[trigger] walk_reports(nm, rm, names(queue@), head as int, names(visited@).to_set(), f)
                        == walk_reports(nm, rm, seq![start_name()], 0, Set::empty(), f + (taken + 1)) by {
                    assert(walk_reports(nm, rm, q0, h0, seen0, f + 1) == walk_reports(
                        nm,
                        rm,
                        seq![start_name()],
                        0,
                        Set::empty(),
                        (f + 1) + taken,
                    ));
                    assert(seen0.contains(current@));
                }
                taken = taken + 1;
            }
            continue;
        }
        proof {
            assert(!seen0.contains(current@));
        }
        let ghost visited_names = names(visited@);
        proof {
            assert(h0 < q0.len());
        }
        match routes.get(&current) {
            Some(router) => {
                let nexts = router.0.possible_next();
                let mut j: usize = 0;
                proof {
                    assert(next_views(nexts@).take(0) =~= Seq::<Option<Seq<char>>>::empty());
                    assert(step_targets(Seq::<Option<Seq<char>>>::empty()) =~= Seq::<Seq<char>>::empty());
                    assert(names(queue@) =~= q0 + step_targets(next_views(nexts@).take(0)));
                }
                while j < nexts.len()
                    invariant
                        nm == nodes.view(),
                        rm == routes.view(),
                        rm.contains_key(current@),
                        *router == rm[current@],
                        next_views(nexts@) == rm[current@].0.spec_possible_next(),
                        reachable(rm, current@),
                        j <= nexts@.len(),
                        visited_names == names(visited@),
                        0 < head <= queue@.len(),
                        names(queue@)[0] == start_name(),
                        names(queue@)[head - 1] == current@,
                        forall|i: int|
                            0 <= i < queue@.len() ==> in_scope(nm, #[trigger] names(queue@)[i])
                                && reachable(rm, names(queue@)[i]),
                        forall|i: int|
                            0 <= i < head - 1 ==> names(visited@).contains(#[trigger] names(queue@)[i]),
                        targets_listed(nm, rm, names(visited@), names(queue@)),
                        forall|k: int|
                            0 <= k < j && (#[trigger] next_views(nexts@)[k]) is Some ==> names(queue@).contains(
                                next_views(nexts@)[k]->0,
                            ) && (next_views(nexts@)[k]->0 == end_name() || nm.contains_key(
                                next_views(nexts@)[k]->0,
                            )),
                        exit == (exit_seen(rm, names(visited@)) || exists|k: int|
                            0 <= k < j && #[trigger] next_views(nexts@)[k] == None::<Seq<char>>),
                        h0 == head - 1,
                        h0 < q0.len(),
                        q0[h0] == current@,
                        !seen0.contains(current@),
                        seen0 == names(visited@).to_set(),
                        names(queue@) == q0 + step_targets(next_views(nexts@).take(j as int)),
                        forall|k: int| 0 <= k < j ==> !#[trigger] unregistered_step(nm, next_views(nexts@), k),
                        forall|f: nat|
                            #[trigger] walk_reports(nm, rm, q0, h0, seen0, f) == walk_reports(
                                nm,
                                rm,
                                seq![start_name()],
                                0,
                                Set::empty(),
                                f + taken,
                            ),
                    decreases nexts@.len() - j,
                {
                    assert(next_views(nexts@)[j as int] == nexts@[j as int]@);
                    match nexts[j] {
                        Next::Node(target) => {
                            proof {
                                assert(rm[current@].0.spec_possible_next()[j as int] == Some(target@));
                                assert(steps_to(rm, current@, target@));
                            }
                            if target != NodeId::end() && !nodes.contains_key(&target) {
                                proof {
                                    let steps = rm[current@].0.spec_possible_next();
                                    assert forall|i: int| 0 <= i < j implies match #[trigger] steps[i] {
                                        Some(t) => t == end_name() || nm.contains_key(t),
                                        None => true,
                                    } by {
                                        assert(next_views(nexts@)[i] == steps[i]);
                                    }
                                    assert(steps[j as int] == Some(target@));
                                    assert(unregistered_step(nm, steps, j as int));
                                    lemma_first_unregistered(nm, steps, j as int);
                                    assert(walk_reports(nm, rm, q0, h0, seen0, 1) == Some(target@));
                                    assert(walk_reports(nm, rm, seq![start_name()], 0, Set::empty(), 1 + taken)
                                        == Some(target@));
                                }
                                return Err(target);
                            }
                            let ghost before = names(queue@);
                            queue.push(target);
                            proof {
                                assert(names(queue@) =~= before.push(target@));
                                let steps = next_views(nexts@);
                                assert(steps.take(j + 1).drop_last() =~= steps.take(j as int));
                                assert(steps.take(j + 1).last() == Some(target@));
                                assert(step_targets(steps.take(j + 1)) == step_targets(steps.take(j as int)).push(
                                    target@,
                                ));
                                assert(names(queue@) =~= q0 + step_targets(steps.take(j + 1)));
                                assert(!unregistered_step(nm, steps, j as int));
                                lemma_reach_step(rm, current@, target@);
                                broadcast use vstd::seq_lib::lemma_seq_contains_after_push;
                                assert forall|i: int| 0 <= i < head - 1 implies names(visited@).contains(
                                    #[trigger] names(queue@)[i],
                                ) by {
                                    assert(names(queue@)[i] == before[i]);
                                }
                                assert(names(queue@)[0] == before[0]);
                                assert(names(queue@)[head - 1] == before[head - 1]);
                            }
                        },
                        Next::End => {
                            exit = true;
                            proof {
                                let steps = next_views(nexts@);
                                assert(steps.take(j + 1).drop_last() =~= steps.take(j as int));
                                assert(steps.take(j + 1).last() == None::<Seq<char>>);
                                assert(step_targets(steps.take(j + 1)) == step_targets(steps.take(j as int)));
                                assert(!unregistered_step(nm, steps, j as int));
                            }
                        },
                    }
                    j = j + 1;
                }
                proof {
                    assert forall|t: Seq<char>| steps_to(rm, current@, t) implies names(queue@).contains(t) && (t
                        == end_name() || nm.contains_key(t)) by {
                        let k = choose|k: int|
                            0 <= k < next_views(nexts@).len() && next_views(nexts@)[k] == Some(t);
                        assert(next_views(nexts@)[k] == Some(t));
                    }
                    if exits_from(rm, current@) {
                        let k = choose|k: int|
                            0 <= k < next_views(nexts@).len() && next_views(nexts@)[k] == None::<Seq<char>>;
                        assert(next_views(nexts@)[k] == None::<Seq<char>>);
                    }
                    let steps = next_views(nexts@);
                    assert(steps.take(steps.len() as int) =~= steps);
                    lemma_first_unregistered(nm, steps, steps.len() as int);
                    assert forall|f: nat|
                        #[trigger] walk_reports(nm, rm, names(queue@), head as int, seen0.insert(current@), f)
                            == walk_reports(nm, rm, q0, h0, seen0, f + 1) by {
                        assert(names(queue@) == q0 + step_targets(steps));
                    }
                }
            },
            None => {
                proof {
                    assert forall|f: nat|
                        #[trigger] walk_reports(nm, rm, names(queue@), head as int, seen0.insert(current@), f)
                            == walk_reports(nm, rm, q0, h0, seen0, f + 1) by {
                        assert(names(queue@) == q0);
                    }
                }
            },
        }
        let ghost before_visit = names(visited@);
        visited.push(current);
        proof {
            broadcast use vstd::seq_lib::lemma_seq_contains_after_push;
            assert(names(visited@) =~= before_visit.push(current@));
            assert(!before_visit.contains(current@));
            assert forall|i: int| 0 <= i < visited@.len() implies #[trigger] names(visited@)[i] == start_name()
                || names(visited@)[i] == end_name() || order.contains(names(visited@)[i]) by {
                if i < before_visit.len() {
                    assert(names(visited@)[i] == before_visit[i]);
                }
            }
            lemma_scope_bound(names(visited@), order);
            assert forall|i: int| 0 <= i < head implies names(visited@).contains(
                #[trigger] names(queue@)[i],
            ) by {
                if i < head - 1 {
                    assert(before_visit.contains(names(queue@)[i]));
                }
            }
            assert forall|v: Seq<char>, t: Seq<char>|
                names(visited@).contains(v) && steps_to(rm, v, t) implies names(queue@).contains(t) && (t
                == end_name() || nm.contains_key(t)) by {
                if v != current@ {
                    assert(before_visit.contains(v));
                }
            }
            if exit_seen(rm, names(visited@)) && !exits_from(rm, current@) {
                let v = choose|v: Seq<char>| #[trigger] names(visited@).contains(v) && exits_from(rm, v);
                assert(before_visit.contains(v));
            }
            if exit_seen(rm, before_visit) {
                let v = choose|v: Seq<char>| #[trigger] before_visit.contains(v) && exits_from(rm, v);
                assert(names(visited@).contains(v));
            }
            if exits_from(rm, current@) {
                assert(names(visited@).contains(current@));
            }
            assert(names(visited@).to_set() =~= seen0.insert(current@)) by {
                assert forall|x: Seq<char>| names(visited@).contains(x) <==> before_visit.contains(x) || x
                    == current@ by {
                    if names(visited@).contains(x) && x != current@ {
                        let i = choose|i: int| 0 <= i < names(visited@).len() && names(visited@)[i] == x;
                        assert(before_visit[i] == x);
                    }
                }
            }
            assert forall|f: nat|
                #[trigger] walk_reports(nm, rm, names(queue@), head as int, names(visited@).to_set(), f)
                    == walk_reports(nm, rm, seq![start_name()], 0, Set::empty(), f + (taken + 1)) by {
                assert(walk_reports(nm, rm, names(queue@), head as int, seen0.insert(current@), f)
                    == walk_reports(nm, rm, q0, h0, seen0, f + 1));
                assert(walk_reports(nm, rm, q0, h0, seen0, f + 1) == walk_reports(
                    nm,
                    rm,
                    seq![start_name()],
                    0,
                    Set::empty(),
                    (f + 1) + taken,
                ));
            }
            taken = taken + 1;
        }
    }
    proof {
        let seen = names(visited@);
        assert(seen.contains(start_name())) by {
            assert(names(queue@)[0] == start_name());
        }
        assert forall|v: Seq<char>, t: Seq<char>|
            #![trigger seen.contains(v), steps_to(rm, v, t)]
            seen.contains(v) && steps_to(rm, v, t) implies seen.contains(t) by {
            let i = choose|i: int| 0 <= i < names(queue@).len() && names(queue@)[i] == t;
            assert(names(visited@).contains(names(queue@)[i]));
        }
        assert forall|t: Seq<char>| !#[trigger] missing_target(nm, rm, t) by {
            if missing_target(nm, rm, t) {
                let from = choose|from: Seq<char>| #[trigger] reachable(rm, from) && steps_to(rm, from, t);
                let walk = choose|walk: Seq<Seq<char>>| #[trigger] is_walk(rm, walk) && walk.last() == from;
                lemma_closed_covers(rm, seen, walk);
            }
        }
        if reaches_exit(rm) {
            let name = choose|name: Seq<char>| #[trigger] reachable(rm, name) && exits_from(rm, name);
            let walk = choose|walk: Seq<Seq<char>>| #[trigger] is_walk(rm, walk) && walk.last() == name;
            lemma_closed_covers(rm, seen, walk);
        }
        if exit {
            let v = choose|v: Seq<char>| #[trigger] seen.contains(v) && exits_from(rm, v);
            let i = choose|i: int| 0 <= i < seen.len() && seen[i] == v;
            assert(reachable(rm, names(visited@)[i]));
        }
    }
    Ok(exit)
}

} // verus!
