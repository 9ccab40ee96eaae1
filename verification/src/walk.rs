//! Walks through a weighted graph: the vocabulary in which the searches state
//! what they find.
//!
//! A walk is given by its start node and the edges it takes, each a
//! `(weight, neighbour)` pair taken from the edges of the node before it.

use crate::graph::WeightedGraph;
use vstd::prelude::*;

verus! {

/// The node that step `i` of a walk leaves from.
pub open spec fn step_source<T>(start: T, steps: Seq<(usize, T)>, i: int) -> T {
    if i == 0 {
        start
    } else {
        steps[i - 1].1
    }
}

/// Step `i` of `steps` is an edge of the node it leaves from.
pub open spec fn takes_edge<T, G: WeightedGraph<T>>(
    graph: &G,
    start: T,
    steps: Seq<(usize, T)>,
    i: int,
) -> bool {
    graph.edges(step_source(start, steps, i)).contains(steps[i])
}

/// `steps` is a walk in `graph` that begins at `start`.
pub open spec fn is_walk<T, G: WeightedGraph<T>>(
    graph: &G,
    start: T,
    steps: Seq<(usize, T)>,
) -> bool {
    forall|i: int| 0 <= i < steps.len() ==> #[trigger] takes_edge(graph, start, steps, i)
}

/// The node a walk ends at: `start` itself for the empty walk.
pub open spec fn walk_end<T>(start: T, steps: Seq<(usize, T)>) -> T {
    if steps.len() == 0 {
        start
    } else {
        steps.last().1
    }
}

/// The sum of the weights of the edges of a walk.
pub open spec fn walk_cost<T>(steps: Seq<(usize, T)>) -> nat
    decreases steps.len(),
{
    if steps.len() == 0 {
        0
    } else {
        walk_cost(steps.drop_last()) + steps.last().0 as nat
    }
}

/// `steps` is a walk in `graph` from `from` to `to`.
pub open spec fn connects<T, G: WeightedGraph<T>>(
    graph: &G,
    from: T,
    to: T,
    steps: Seq<(usize, T)>,
) -> bool {
    is_walk(graph, from, steps) && walk_end(from, steps) == to
}

/// Some walk in `graph` leads from `from` to `to`.
pub open spec fn reachable<T, G: WeightedGraph<T>>(graph: &G, from: T, to: T) -> bool {
    exists|steps: Seq<(usize, T)>| connects(graph, from, to, steps)
}

/// Some walk from `from` to `to` costs no more than `limit`.
pub open spec fn reachable_within<T, G: WeightedGraph<T>>(
    graph: &G,
    from: T,
    to: T,
    limit: nat,
) -> bool {
    exists|steps: Seq<(usize, T)>| connects(graph, from, to, steps) && walk_cost(steps) <= limit
}

/// `cost` is the least cost of any walk from `from` to `to`, and some walk
/// attains it.
pub open spec fn is_distance<T, G: WeightedGraph<T>>(
    graph: &G,
    from: T,
    to: T,
    cost: nat,
) -> bool {
    &&& exists|steps: Seq<(usize, T)>| connects(graph, from, to, steps) && walk_cost(steps) == cost
    &&& forall|steps: Seq<(usize, T)>|
        connects(graph, from, to, steps) ==> cost <= #[trigger] walk_cost(steps)
}

/// Every edge that leaves a node of `inner` leads into `outer`.
pub open spec fn edges_lead_into<T, G: WeightedGraph<T>>(
    graph: &G,
    inner: Set<T>,
    outer: Set<T>,
) -> bool {
    forall|n: T, i: int|
        inner.contains(n) && 0 <= i < graph.edges(n).len() ==> outer.contains(
            (#[trigger] graph.edges(n)[i]).1,
        )
}

/// The empty walk leads from any node to itself at no cost.
pub proof fn lemma_empty_walk<T, G: WeightedGraph<T>>(graph: &G, node: T)
    ensures
        connects(graph, node, node, Seq::<(usize, T)>::empty()),
        walk_cost(Seq::<(usize, T)>::empty()) == 0,
        reachable(graph, node, node),
        reachable_within(graph, node, node, 0),
{
    assert(connects(graph, node, node, Seq::<(usize, T)>::empty()));
}

/// A walk grows by one edge that leaves its end.
pub proof fn lemma_walk_push<T, G: WeightedGraph<T>>(
    graph: &G,
    start: T,
    steps: Seq<(usize, T)>,
    edge: (usize, T),
)
    requires
        is_walk(graph, start, steps),
        graph.edges(walk_end(start, steps)).contains(edge),
    ensures
        connects(graph, start, edge.1, steps.push(edge)),
        walk_cost(steps.push(edge)) == walk_cost(steps) + edge.0,
{
    let longer = steps.push(edge);
    assert(longer.drop_last() =~= steps);
    assert forall|i: int| 0 <= i < longer.len() implies #[trigger] takes_edge(
        graph,
        start,
        longer,
        i,
    ) by {
        if i < steps.len() {
            assert(takes_edge(graph, start, steps, i));
            assert(longer[i] == steps[i]);
            assert(step_source(start, longer, i) == step_source(start, steps, i));
        } else {
            assert(step_source(start, longer, i) == walk_end(start, steps));
        }
    }
}

/// A walk without its last edge is a walk, and that edge leaves its end.
pub proof fn lemma_walk_pop<T, G: WeightedGraph<T>>(
    graph: &G,
    start: T,
    steps: Seq<(usize, T)>,
)
    requires
        is_walk(graph, start, steps),
        steps.len() > 0,
    ensures
        is_walk(graph, start, steps.drop_last()),
        graph.edges(walk_end(start, steps.drop_last())).contains(steps.last()),
        walk_cost(steps) == walk_cost(steps.drop_last()) + steps.last().0,
{
    let shorter = steps.drop_last();
    assert forall|i: int| 0 <= i < shorter.len() implies #[trigger] takes_edge(
        graph,
        start,
        shorter,
        i,
    ) by {
        assert(takes_edge(graph, start, steps, i));
        assert(shorter[i] == steps[i]);
        assert(step_source(start, shorter, i) == step_source(start, steps, i));
    }
    let last = steps.len() - 1;
    assert(takes_edge(graph, start, steps, last));
    assert(step_source(start, steps, last) == walk_end(start, shorter));
}

/// A set that holds the start of a walk and is closed under the graph's edges
/// holds the walk's end.
pub proof fn lemma_closed_set_holds_walk<T, G: WeightedGraph<T>>(
    graph: &G,
    start: T,
    steps: Seq<(usize, T)>,
    closed: Set<T>,
)
    requires
        is_walk(graph, start, steps),
        closed.contains(start),
        edges_lead_into(graph, closed, closed),
    ensures
        closed.contains(walk_end(start, steps)),
    decreases steps.len(),
{
    if steps.len() > 0 {
        lemma_walk_pop(graph, start, steps);
        lemma_closed_set_holds_walk(graph, start, steps.drop_last(), closed);
        let from = walk_end(start, steps.drop_last());
        let i = choose|i: int| 0 <= i < graph.edges(from).len() && graph.edges(from)[i] == steps.last();
        assert(closed.contains(graph.edges(from)[i].1));
    }
}

} // verus!
