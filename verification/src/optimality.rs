//! Why the uniform-cost search finds cheapest walks.
//!
//! [`paths_sound`] says what a finished search has found, in terms of walks
//! and their costs; [`lemma_shortest_paths_sound`] proves it of every search.
//! The proof carries [`probe_inv`] from round to round.

use crate::graph::WeightedGraph;
use crate::priority::{first_least, lemma_first_least, MinPriorityNode};
use crate::sequences::{lemma_push_contains, lemma_push_fresh, lemma_remove_shifts};
use crate::shortest_path::{
    explore, explore_ready, finish, improves, initial, is_stale, lemma_round, record, relax,
    shortest_paths, unvisited, visit, without, Probe, ShortestPathsView,
};
use crate::walk::{
    connects, is_distance, is_walk, lemma_empty_walk, lemma_walk_pop, lemma_walk_push, reachable,
    reachable_within, step_source, walk_cost, walk_end,
};
use vstd::prelude::*;

verus! {

/// Step `i` of `steps` arrives at a node other than `start` whose
/// predecessor is the node the step leaves from.
pub open spec fn links<T>(came_from: Map<T, T>, start: T, steps: Seq<(usize, T)>, i: int) -> bool {
    &&& steps[i].1 != start
    &&& came_from.contains_key(steps[i].1)
    &&& came_from[steps[i].1] == step_source(start, steps, i)
}

/// Every step of `steps` goes from a node's predecessor to the node.
pub open spec fn follows<T>(came_from: Map<T, T>, start: T, steps: Seq<(usize, T)>) -> bool {
    forall|i: int| 0 <= i < steps.len() ==> #[trigger] links(came_from, start, steps, i)
}

/// `steps` is a walk from `start` to `node` along predecessor links that
/// never comes back to `start`, and its cost is the one recorded for `node`.
/// Read backwards it is what following predecessors from `node` yields up to
/// the first arrival at `start`.
pub open spec fn traces<T, G: WeightedGraph<T>>(
    graph: &G,
    start: T,
    cost_so_far: Map<T, usize>,
    came_from: Map<T, T>,
    node: T,
    steps: Seq<(usize, T)>,
) -> bool {
    &&& connects(graph, start, node, steps)
    &&& follows(came_from, start, steps)
    &&& cost_so_far.contains_key(node)
    &&& walk_cost(steps) == cost_so_far[node]
}

/// Going back from `node` along predecessor links leads to `start`, over
/// edges whose weights add up to the cost recorded for `node`.
pub open spec fn traced<T, G: WeightedGraph<T>>(
    graph: &G,
    start: T,
    cost_so_far: Map<T, usize>,
    came_from: Map<T, T>,
    node: T,
) -> bool {
    exists|steps: Seq<(usize, T)>| traces(graph, start, cost_so_far, came_from, node, steps)
}

/// What a finished search from `start` for `goal` has found.
pub open spec fn paths_sound<T, G: WeightedGraph<T>>(
    graph: &G,
    start: T,
    goal: T,
    found: ShortestPathsView<T>,
) -> bool {
    &&& forall|n: T| found.cost_so_far.contains_key(n) <==> found.came_from.contains_key(n)
    &&& found.cost_so_far.contains_key(start)
    &&& found.cost_so_far[start] == 0
    &&& found.came_from[start] == start
    &&& found.visited.len() > 0
    &&& found.visited[0] == start
    &&& found.visited.no_duplicates()
    &&& forall|n: T|
        found.visited.contains(n) ==> found.cost_so_far.contains_key(n) && is_distance(
            graph,
            start,
            n,
            found.cost_so_far[n] as nat,
        )
    &&& forall|n: T|
        found.cost_so_far.contains_key(n) ==> traced(
            graph,
            start,
            found.cost_so_far,
            found.came_from,
            n,
        )
    &&& forall|i: int, j: int|
        0 <= i <= j < found.visited.len() ==> found.cost_so_far[found.visited[i]]
            <= found.cost_so_far[found.visited[j]]
    &&& found.goal_reached ==> found.visited.last() == goal
    &&& found.goal_reached <==> reachable_within(graph, start, goal, usize::MAX as nat)
    &&& !found.goal_reached ==> forall|n: T|
        (found.cost_so_far.contains_key(n) <==> found.visited.contains(n)) && (reachable_within(
            graph,
            start,
            n,
            usize::MAX as nat,
        ) ==> found.visited.contains(n))
}

/// All nodes of `steps` but the last have been visited.
pub open spec fn inner_visited<T>(visited: Seq<T>, steps: Seq<(usize, T)>) -> bool {
    forall|i: int| 0 <= i < steps.len() - 1 ==> visited.contains((#[trigger] steps[i]).1)
}

/// `steps` traces `node` back to `start` through visited nodes.
pub open spec fn route<T, G: WeightedGraph<T>>(
    graph: &G,
    start: T,
    state: Probe<T>,
    node: T,
    steps: Seq<(usize, T)>,
) -> bool {
    &&& traces(graph, start, state.cost_so_far, state.came_from, node, steps)
    &&& inner_visited(state.visited, steps)
}

/// Some walk traces `node` back to `start` through visited nodes.
pub open spec fn routed<T, G: WeightedGraph<T>>(
    graph: &G,
    start: T,
    state: Probe<T>,
    node: T,
) -> bool {
    exists|steps: Seq<(usize, T)>| route(graph, start, state, node, steps)
}

/// An entry for `node` at its recorded cost is pending.
pub open spec fn waiting<T>(state: Probe<T>, node: T) -> bool {
    exists|j: int|
        0 <= j < state.frontier.len() && #[trigger] state.frontier[j] == (MinPriorityNode {
            node,
            cost: state.cost_so_far[node],
        })
}

/// What holds of a search from `start` between two pops: every recorded node
/// is traced back to `start` at its recorded cost; a visited node's cost is
/// the least of any walk and no more than any pending cost; a recorded node
/// not yet visited has an entry pending at its recorded cost.
pub open spec fn probe_inv<T, G: WeightedGraph<T>>(graph: &G, start: T, state: Probe<T>) -> bool {
    &&& forall|n: T| state.cost_so_far.contains_key(n) <==> state.came_from.contains_key(n)
    &&& state.cost_so_far.contains_key(start)
    &&& state.cost_so_far[start] == 0
    &&& state.came_from[start] == start
    &&& forall|n: T| state.cost_so_far.contains_key(n) ==> routed(graph, start, state, n)
    &&& state.visited.no_duplicates()
    &&& forall|n: T| state.visited.contains(n) ==> state.cost_so_far.contains_key(n)
    &&& forall|n: T, steps: Seq<(usize, T)>|
        state.visited.contains(n) && #[trigger] connects(graph, start, n, steps)
            ==> state.cost_so_far[n] <= walk_cost(steps)
    &&& forall|n: T|
        state.cost_so_far.contains_key(n) && !state.visited.contains(n) ==> waiting(state, n)
    &&& forall|j: int|
        0 <= j < state.frontier.len() ==> state.cost_so_far.contains_key(
            (#[trigger] state.frontier[j]).node,
        ) && state.cost_so_far[state.frontier[j].node] <= state.frontier[j].cost
    &&& forall|n: T, j: int|
        #![trigger state.visited.contains(n), state.frontier[j]]
        state.visited.contains(n) && 0 <= j < state.frontier.len() ==> state.cost_so_far[n]
            <= state.frontier[j].cost
    &&& forall|i: int, j: int|
        0 <= i <= j < state.visited.len() ==> state.cost_so_far[state.visited[i]]
            <= state.cost_so_far[state.visited[j]]
    &&& if state.visited.len() == 0 {
        state == initial(start)
    } else {
        state.visited[0] == start
    }
}

/// The search has taken note of `edge`, which leaves a node visited at cost
/// `base`: unless the sum overflows, the edge's target is recorded at no
/// more than `base` plus the edge's weight.
pub open spec fn handled<T>(state: Probe<T>, base: usize, edge: (usize, T)) -> bool {
    base + edge.0 <= usize::MAX ==> state.cost_so_far.contains_key(edge.1)
        && state.cost_so_far[edge.1] <= base + edge.0
}

/// Every edge of every node of `done` has been taken note of.
pub open spec fn all_relaxed<T, G: WeightedGraph<T>>(
    graph: &G,
    state: Probe<T>,
    done: Set<T>,
) -> bool {
    forall|n: T, i: int|
        done.contains(n) && 0 <= i < graph.edges(n).len() ==> handled(
            state,
            state.cost_so_far[n],
            #[trigger] graph.edges(n)[i],
        )
}

/// Every cost recorded in `before` is recorded in `after`, no higher.
pub open spec fn cheaper<T>(before: Probe<T>, after: Probe<T>) -> bool {
    forall|n: T|
        before.cost_so_far.contains_key(n) ==> after.cost_so_far.contains_key(n)
            && after.cost_so_far[n] <= before.cost_so_far[n]
}

/// What holds while the edges of `current`, visited at cost `base`, are
/// relaxed.
pub open spec fn relax_inv<T, G: WeightedGraph<T>>(
    graph: &G,
    start: T,
    state: Probe<T>,
    current: T,
    base: usize,
) -> bool {
    &&& probe_inv(graph, start, state)
    &&& state.visited.contains(current)
    &&& state.cost_so_far[current] == base
    &&& forall|n: T| state.visited.contains(n) ==> state.cost_so_far[n] <= base
    &&& all_relaxed(graph, state, state.visited.to_set().remove(current))
}

/// Any walk from `start` that costs no more than `usize::MAX` is matched by a
/// recorded node of no higher cost: the walk's end if that is visited, else
/// some node not yet visited.
proof fn lemma_walk_bound<T, G: WeightedGraph<T>>(
    graph: &G,
    start: T,
    state: Probe<T>,
    steps: Seq<(usize, T)>,
) -> (witness: T)
    requires
        probe_inv(graph, start, state),
        all_relaxed(graph, state, state.visited.to_set()),
        is_walk(graph, start, steps),
        walk_cost(steps) <= usize::MAX,
    ensures
        state.cost_so_far.contains_key(witness),
        state.cost_so_far[witness] <= walk_cost(steps),
        state.visited.contains(witness) ==> witness == walk_end(start, steps),
    decreases steps.len(),
{
    if steps.len() == 0 {
        start
    } else {
        lemma_walk_pop(graph, start, steps);
        let shorter = steps.drop_last();
        let inner = lemma_walk_bound(graph, start, state, shorter);
        if !state.visited.contains(inner) {
            inner
        } else {
            let edge = steps.last();
            let i = choose|i: int| 0 <= i < graph.edges(inner).len() && graph.edges(inner)[i] == edge;
            assert(state.visited.to_set().contains(inner));
            assert(handled(state, state.cost_so_far[inner], graph.edges(inner)[i]));
            edge.1
        }
    }
}

/// Visiting the cheapest pending entry, when it is not stale, visits a node
/// at its least cost and leaves a state in which its edges can be relaxed.
proof fn lemma_settle<T, G: WeightedGraph<T>>(graph: &G, start: T, state: Probe<T>)
    requires
        probe_inv(graph, start, state),
        all_relaxed(graph, state, state.visited.to_set()),
        state.frontier.len() > 0,
        !is_stale(state, state.frontier[first_least(state.frontier)]),
    ensures
        ({
            let entry = state.frontier[first_least(state.frontier)];
            let opened = visit(without(state, first_least(state.frontier)), entry.node);
            relax_inv(graph, start, opened, entry.node, entry.cost)
        }),
{
    let at = first_least(state.frontier);
    let entry = state.frontier[at];
    let node = entry.node;
    let opened = visit(without(state, at), node);
    lemma_first_least(state.frontier);
    lemma_remove_shifts(state.frontier, at);
    lemma_push_fresh(state.visited, node);
    assert(state.cost_so_far.contains_key(node) && state.cost_so_far[node] == entry.cost);

    assert forall|n: T| opened.cost_so_far.contains_key(n) implies routed(
        graph,
        start,
        opened,
        n,
    ) by {
        assert(routed(graph, start, state, n));
        let steps = choose|steps: Seq<(usize, T)>| route(graph, start, state, n, steps);
        assert(route(graph, start, opened, n, steps));
    }
    assert forall|n: T, steps: Seq<(usize, T)>|
        opened.visited.contains(n) && #[trigger] connects(
            graph,
            start,
            n,
            steps,
        ) implies opened.cost_so_far[n] <= walk_cost(steps) by {
        if n == node && !state.visited.contains(n) {
            if walk_cost(steps) <= usize::MAX {
                let witness = lemma_walk_bound(graph, start, state, steps);
                assert(!state.visited.contains(witness));
                assert(waiting(state, witness));
                let j = choose|j: int|
                    0 <= j < state.frontier.len() && #[trigger] state.frontier[j]
                        == (MinPriorityNode { node: witness, cost: state.cost_so_far[witness] });
                assert(entry.cost <= state.frontier[j].cost);
            }
        }
    }
    assert forall|n: T|
        opened.cost_so_far.contains_key(n) && !opened.visited.contains(n) implies waiting(
        opened,
        n,
    ) by {
        assert(waiting(state, n));
        let j = choose|j: int|
            0 <= j < state.frontier.len() && #[trigger] state.frontier[j] == (MinPriorityNode {
                node: n,
                cost: state.cost_so_far[n],
            });
        assert(j != at);
        let k = if j < at {
            j
        } else {
            j - 1
        };
        assert(opened.frontier[k] == state.frontier[j]);
    }
    assert forall|j: int| 0 <= j < opened.frontier.len() implies opened.cost_so_far.contains_key(
        (#[trigger] opened.frontier[j]).node,
    ) && opened.cost_so_far[opened.frontier[j].node] <= opened.frontier[j].cost by {
        let k = if j < at {
            j
        } else {
            j + 1
        };
        assert(opened.frontier[j] == state.frontier[k]);
    }
    assert forall|n: T, j: int|
        #![trigger opened.visited.contains(n), opened.frontier[j]]
        opened.visited.contains(n) && 0 <= j < opened.frontier.len() implies opened.cost_so_far[n]
            <= opened.frontier[j].cost by {
        let k = if j < at {
            j
        } else {
            j + 1
        };
        assert(opened.frontier[j] == state.frontier[k]);
        if n == node {
            assert(entry.cost <= state.frontier[k].cost);
        } else {
            assert(state.visited.contains(n));
        }
    }
    assert forall|n: T| opened.visited.contains(n) implies opened.cost_so_far[n] <= entry.cost by {
        if n != node {
            assert(state.visited.contains(n));
            assert(state.cost_so_far[n] <= state.frontier[at].cost);
        }
    }
    assert forall|i: int, j: int| 0 <= i <= j < opened.visited.len() implies opened.cost_so_far[opened.visited[i]]
        <= opened.cost_so_far[opened.visited[j]] by {
        if j == state.visited.len() {
            assert(opened.visited.contains(opened.visited[i]));
        } else {
            assert(opened.visited[i] == state.visited[i]);
            assert(opened.visited[j] == state.visited[j]);
        }
    }
    if state.visited.len() == 0 {
        assert(state.frontier[0].node == start);
        assert(at == 0);
    } else {
        assert(opened.visited[0] == state.visited[0]);
    }
    assert(opened.visited.len() > 0);
    assert(opened.visited.contains(node));
    assert forall|n: T| opened.visited.contains(n) implies opened.cost_so_far.contains_key(n) by {
        if n != node {
            assert(state.visited.contains(n));
        }
    }
    assert(all_relaxed(graph, opened, opened.visited.to_set().remove(node))) by {
        assert forall|n: T, i: int|
            opened.visited.to_set().remove(node).contains(n) && 0 <= i < graph.edges(
                n,
            ).len() implies handled(
            opened,
            opened.cost_so_far[n],
            #[trigger] graph.edges(n)[i],
        ) by {
            assert(state.visited.to_set().contains(n));
            assert(handled(state, state.cost_so_far[n], graph.edges(n)[i]));
        }
    }
    assert(probe_inv(graph, start, opened));
}

/// Dropping the cheapest pending entry, when it is stale, keeps what holds
/// between two pops.
proof fn lemma_drop_stale<T, G: WeightedGraph<T>>(graph: &G, start: T, state: Probe<T>)
    requires
        probe_inv(graph, start, state),
        all_relaxed(graph, state, state.visited.to_set()),
        state.frontier.len() > 0,
        is_stale(state, state.frontier[first_least(state.frontier)]),
    ensures
        probe_inv(graph, start, without(state, first_least(state.frontier))),
        all_relaxed(
            graph,
            without(state, first_least(state.frontier)),
            state.visited.to_set(),
        ),
{
    let at = first_least(state.frontier);
    let entry = state.frontier[at];
    let dropped = without(state, at);
    lemma_first_least(state.frontier);
    lemma_remove_shifts(state.frontier, at);
    if state.visited.len() == 0 {
        assert(state.frontier[0].node == start);
        assert(at == 0);
        assert(false);
    }
    assert forall|n: T| dropped.cost_so_far.contains_key(n) implies routed(
        graph,
        start,
        dropped,
        n,
    ) by {
        assert(routed(graph, start, state, n));
        let steps = choose|steps: Seq<(usize, T)>| route(graph, start, state, n, steps);
        assert(route(graph, start, dropped, n, steps));
    }
    assert forall|n: T|
        dropped.cost_so_far.contains_key(n) && !dropped.visited.contains(n) implies waiting(
        dropped,
        n,
    ) by {
        assert(waiting(state, n));
        let j = choose|j: int|
            0 <= j < state.frontier.len() && #[trigger] state.frontier[j] == (MinPriorityNode {
                node: n,
                cost: state.cost_so_far[n],
            });
        assert(j != at);
        let k = if j < at {
            j
        } else {
            j - 1
        };
        assert(dropped.frontier[k] == state.frontier[j]);
    }
    assert forall|j: int| 0 <= j < dropped.frontier.len() implies dropped.cost_so_far.contains_key(
        (#[trigger] dropped.frontier[j]).node,
    ) && dropped.cost_so_far[dropped.frontier[j].node] <= dropped.frontier[j].cost by {
        let k = if j < at {
            j
        } else {
            j + 1
        };
        assert(dropped.frontier[j] == state.frontier[k]);
    }
    assert forall|n: T, j: int|
        #![trigger dropped.visited.contains(n), dropped.frontier[j]]
        dropped.visited.contains(n) && 0 <= j < dropped.frontier.len() implies dropped.cost_so_far[n]
            <= dropped.frontier[j].cost by {
        let k = if j < at {
            j
        } else {
            j + 1
        };
        assert(dropped.frontier[j] == state.frontier[k]);
    }
    assert(all_relaxed(graph, dropped, state.visited.to_set())) by {
        assert forall|n: T, i: int|
            state.visited.to_set().contains(n) && 0 <= i < graph.edges(n).len() implies handled(
            dropped,
            dropped.cost_so_far[n],
            #[trigger] graph.edges(n)[i],
        ) by {
            assert(handled(state, state.cost_so_far[n], graph.edges(n)[i]));
        }
    }
}

/// Recording a neighbour of the node being relaxed keeps what holds during
/// relaxation, lowers no cost, and takes note of the edge.
proof fn lemma_record<T, G: WeightedGraph<T>>(
    graph: &G,
    start: T,
    state: Probe<T>,
    current: T,
    base: usize,
    weight: usize,
    next: T,
)
    requires
        relax_inv(graph, start, state, current, base),
        graph.edges(current).contains((weight, next)),
        improves(state, base, weight, next),
    ensures
        relax_inv(
            graph,
            start,
            record(state, current, next, (base + weight) as usize),
            current,
            base,
        ),
        cheaper(state, record(state, current, next, (base + weight) as usize)),
        handled(record(state, current, next, (base + weight) as usize), base, (weight, next)),
{
    let cost = (base + weight) as usize;
    let after = record(state, current, next, cost);
    assert(state.visited.len() > 0);
    assert(state.visited.contains(start)) by {
        assert(state.visited[0] == start);
    }
    assert(next != start && next != current);

    assert forall|n: T| after.cost_so_far.contains_key(n) implies routed(graph, start, after, n) by {
        if n == next {
            assert(routed(graph, start, state, current));
            let steps = choose|steps: Seq<(usize, T)>| route(graph, start, state, current, steps);
            let longer = steps.push((weight, next));
            lemma_walk_push(graph, start, steps, (weight, next));
            assert forall|i: int| 0 <= i < steps.len() implies state.visited.contains(
                (#[trigger] steps[i]).1,
            ) by {
                if i == steps.len() - 1 {
                    assert(steps[i].1 == current);
                }
            }
            assert forall|i: int| 0 <= i < longer.len() implies #[trigger] links(
                after.came_from,
                start,
                longer,
                i,
            ) by {
                if i < steps.len() {
                    assert(links(state.came_from, start, steps, i));
                    assert(longer[i] == steps[i]);
                    assert(state.visited.contains(steps[i].1));
                    assert(step_source(start, longer, i) == step_source(start, steps, i));
                } else {
                    assert(step_source(start, longer, i) == walk_end(start, steps));
                }
            }
            assert forall|i: int| 0 <= i < longer.len() - 1 implies after.visited.contains(
                (#[trigger] longer[i]).1,
            ) by {
                assert(longer[i] == steps[i]);
            }
            assert(route(graph, start, after, n, longer));
        } else {
            assert(routed(graph, start, state, n));
            let steps = choose|steps: Seq<(usize, T)>| route(graph, start, state, n, steps);
            assert forall|i: int| 0 <= i < steps.len() implies #[trigger] links(
                after.came_from,
                start,
                steps,
                i,
            ) by {
                assert(links(state.came_from, start, steps, i));
                if i < steps.len() - 1 {
                    assert(state.visited.contains(steps[i].1));
                } else {
                    assert(steps[i].1 == n);
                }
            }
            assert(route(graph, start, after, n, steps));
        }
    }
    assert forall|n: T|
        after.cost_so_far.contains_key(n) && !after.visited.contains(n) implies waiting(
        after,
        n,
    ) by {
        if n == next {
            assert(after.frontier[state.frontier.len() as int] == (MinPriorityNode {
                node: n,
                cost: after.cost_so_far[n],
            }));
        } else {
            assert(waiting(state, n));
            let j = choose|j: int|
                0 <= j < state.frontier.len() && #[trigger] state.frontier[j] == (MinPriorityNode {
                    node: n,
                    cost: state.cost_so_far[n],
                });
            assert(after.frontier[j] == state.frontier[j]);
        }
    }
    assert forall|j: int| 0 <= j < after.frontier.len() implies after.cost_so_far.contains_key(
        (#[trigger] after.frontier[j]).node,
    ) && after.cost_so_far[after.frontier[j].node] <= after.frontier[j].cost by {
        if j < state.frontier.len() {
            assert(after.frontier[j] == state.frontier[j]);
        }
    }
    assert forall|n: T, j: int|
        #![trigger after.visited.contains(n), after.frontier[j]]
        after.visited.contains(n) && 0 <= j < after.frontier.len() implies after.cost_so_far[n]
            <= after.frontier[j].cost by {
        if j < state.frontier.len() {
            assert(after.frontier[j] == state.frontier[j]);
        }
    }
    assert forall|n: T, steps: Seq<(usize, T)>|
        after.visited.contains(n) && #[trigger] connects(
            graph,
            start,
            n,
            steps,
        ) implies after.cost_so_far[n] <= walk_cost(steps) by {
        assert(state.cost_so_far[n] <= walk_cost(steps));
    }
    assert forall|i: int, j: int| 0 <= i <= j < after.visited.len() implies after.cost_so_far[after.visited[i]]
        <= after.cost_so_far[after.visited[j]] by {
        assert(state.visited.contains(state.visited[i]));
        assert(state.visited.contains(state.visited[j]));
    }
    assert forall|n: T| after.visited.contains(n) implies after.cost_so_far.contains_key(n) by {}
    assert(probe_inv(graph, start, after));
    assert(all_relaxed(graph, after, after.visited.to_set().remove(current))) by {
        assert forall|n: T, i: int|
            after.visited.to_set().remove(current).contains(n) && 0 <= i < graph.edges(
                n,
            ).len() implies handled(after, after.cost_so_far[n], #[trigger] graph.edges(n)[i]) by {
            assert(state.visited.to_set().remove(current).contains(n));
            assert(handled(state, state.cost_so_far[n], graph.edges(n)[i]));
        }
    }
}

/// Relaxing edges of the node being relaxed keeps what holds during
/// relaxation, lowers no cost, and takes note of each of them.
proof fn lemma_relax<T, G: WeightedGraph<T>>(
    graph: &G,
    start: T,
    state: Probe<T>,
    current: T,
    base: usize,
    pending: Seq<(usize, T)>,
)
    requires
        relax_inv(graph, start, state, current, base),
        forall|i: int| 0 <= i < pending.len() ==> graph.edges(current).contains(
            #[trigger] pending[i],
        ),
    ensures
        relax_inv(graph, start, relax(state, current, base, pending), current, base),
        cheaper(state, relax(state, current, base, pending)),
        forall|i: int|
            0 <= i < pending.len() ==> handled(
                relax(state, current, base, pending),
                base,
                #[trigger] pending[i],
            ),
    decreases pending.len(),
{
    if pending.len() > 0 {
        let weight = pending.last().0;
        let next = pending.last().1;
        let rest = pending.drop_last();
        assert(pending[pending.len() - 1] == (weight, next));
        assert forall|i: int| 0 <= i < rest.len() implies graph.edges(current).contains(
            #[trigger] rest[i],
        ) by {
            assert(rest[i] == pending[i]);
        }
        let mid = if improves(state, base, weight, next) {
            record(state, current, next, (base + weight) as usize)
        } else {
            state
        };
        if improves(state, base, weight, next) {
            lemma_record(graph, start, state, current, base, weight, next);
        } else {
            assert(handled(state, base, (weight, next)));
        }
        lemma_relax(graph, start, mid, current, base, rest);
        let last = relax(state, current, base, pending);
        assert(last == relax(mid, current, base, rest));
        assert forall|i: int| 0 <= i < pending.len() implies handled(
            last,
            base,
            #[trigger] pending[i],
        ) by {
            if i < rest.len() {
                assert(rest[i] == pending[i]);
                assert(handled(last, base, rest[i]));
            } else {
                assert(handled(mid, base, (weight, next)));
            }
        }
    }
}

/// A search that has come to its end in a state in which [`probe_inv`] holds
/// has found what [`paths_sound`] says.
proof fn lemma_finished<T, G: WeightedGraph<T>>(
    graph: &G,
    start: T,
    goal: T,
    state: Probe<T>,
    reached: bool,
)
    requires
        probe_inv(graph, start, state),
        reached ==> state.visited.len() > 0 && state.visited.last() == goal,
        !reached ==> state.frontier.len() == 0 && !state.visited.contains(goal) && all_relaxed(
            graph,
            state,
            state.visited.to_set(),
        ),
    ensures
        paths_sound(graph, start, goal, finish(state, reached)),
{
    let found = finish(state, reached);
    assert forall|n: T| found.cost_so_far.contains_key(n) implies traced(
        graph,
        start,
        found.cost_so_far,
        found.came_from,
        n,
    ) by {
        assert(routed(graph, start, state, n));
        let steps = choose|steps: Seq<(usize, T)>| route(graph, start, state, n, steps);
        assert(traces(graph, start, found.cost_so_far, found.came_from, n, steps));
    }
    assert forall|n: T| found.visited.contains(n) implies found.cost_so_far.contains_key(n)
        && is_distance(graph, start, n, found.cost_so_far[n] as nat) by {
        assert(routed(graph, start, state, n));
        let steps = choose|steps: Seq<(usize, T)>| route(graph, start, state, n, steps);
        assert(connects(graph, start, n, steps) && walk_cost(steps) == found.cost_so_far[n]);
        assert forall|other: Seq<(usize, T)>|
            connects(graph, start, n, other) implies found.cost_so_far[n] as nat
            <= #[trigger] walk_cost(other) by {}
    }
    if reached {
        assert(state.visited.contains(goal)) by {
            assert(state.visited[state.visited.len() - 1] == goal);
        }
        assert(routed(graph, start, state, goal));
        let steps = choose|steps: Seq<(usize, T)>| route(graph, start, state, goal, steps);
        assert(connects(graph, start, goal, steps) && walk_cost(steps) <= usize::MAX);
    } else {
        assert forall|n: T| found.cost_so_far.contains_key(n) implies found.visited.contains(
            n,
        ) by {
            if !state.visited.contains(n) {
                assert(waiting(state, n));
            }
        }
        assert forall|n: T|
            reachable_within(graph, start, n, usize::MAX as nat) implies found.visited.contains(
            n,
        ) by {
            let steps = choose|steps: Seq<(usize, T)>|
                connects(graph, start, n, steps) && walk_cost(steps) <= usize::MAX as nat;
            let witness = lemma_walk_bound(graph, start, state, steps);
        }
        assert(state.visited.contains(start));
    }
}

/// A search that goes on from a state in which [`probe_inv`] holds, in which
/// all edges of visited nodes have been relaxed and the goal has not been
/// visited, ends with a sound report.
proof fn lemma_explore_sound<T, G: WeightedGraph<T>>(
    graph: &G,
    start: T,
    goal: T,
    state: Probe<T>,
)
    requires
        explore_ready(graph, start, state),
        probe_inv(graph, start, state),
        all_relaxed(graph, state, state.visited.to_set()),
        !state.visited.contains(goal),
    ensures
        paths_sound(graph, start, goal, explore(graph, start, goal, state)),
    decreases unvisited(graph, start, state).len(), state.frontier.len(),
{
    if state.frontier.len() == 0 {
        lemma_finished(graph, start, goal, state, false);
    } else {
        lemma_round(graph, start, state);
        let at = first_least(state.frontier);
        let entry = state.frontier[at];
        if is_stale(state, entry) {
            lemma_drop_stale(graph, start, state);
            lemma_explore_sound(graph, start, goal, without(state, at));
        } else {
            lemma_settle(graph, start, state);
            let opened = visit(without(state, at), entry.node);
            if entry.node == goal {
                assert(opened.visited.last() == goal);
                lemma_finished(graph, start, goal, opened, true);
            } else {
                let edges = graph.edges(entry.node);
                assert forall|i: int| 0 <= i < edges.len() implies graph.edges(
                    entry.node,
                ).contains(#[trigger] edges[i]) by {}
                lemma_relax(graph, start, opened, entry.node, entry.cost, edges);
                let relaxed = relax(opened, entry.node, entry.cost, edges);
                assert(all_relaxed(graph, relaxed, relaxed.visited.to_set())) by {
                    assert forall|n: T, i: int|
                        relaxed.visited.to_set().contains(n) && 0 <= i < graph.edges(
                            n,
                        ).len() implies handled(
                        relaxed,
                        relaxed.cost_so_far[n],
                        #[trigger] graph.edges(n)[i],
                    ) by {
                        if n == entry.node {
                            assert(handled(relaxed, entry.cost, edges[i]));
                        } else {
                            assert(relaxed.visited.to_set().remove(entry.node).contains(n));
                        }
                    }
                }
                lemma_push_contains(state.visited, entry.node);
                assert(!relaxed.visited.contains(goal));
                lemma_explore_sound(graph, start, goal, relaxed);
            }
        }
    }
}

/// Every search finds what [`paths_sound`] says: each recorded node is traced
/// back to `start` along predecessor links at its recorded cost; each visited
/// node's recorded cost is the least cost of any walk to it; nodes are
/// visited once each in order of cost; the goal is reached exactly when some
/// walk of representable cost leads to it, and is then the last visit; and a
/// search that does not reach the goal has visited every node such a walk
/// leads to.
pub proof fn lemma_shortest_paths_sound<T, G: WeightedGraph<T>>(graph: &G, start: T, goal: T)
    requires
        graph.well_formed(),
    ensures
        paths_sound(graph, start, goal, shortest_paths(graph, start, goal)),
{
    let state = initial(start);
    lemma_empty_walk(graph, start);
    let nothing = Seq::<(usize, T)>::empty();
    assert(route(graph, start, state, start, nothing));
    assert forall|n: T| state.cost_so_far.contains_key(n) implies routed(graph, start, state, n) by {
        assert(n == start);
    }
    assert(waiting(state, start)) by {
        assert(state.frontier[0] == (MinPriorityNode { node: start, cost: state.cost_so_far[start] }));
    }
    assert(probe_inv(graph, start, state));
    assert(state.visited.to_set() =~= Set::<T>::empty());
    lemma_explore_sound(graph, start, goal, state);
}

/// When some walk of representable cost leads from `start` to `goal`, the
/// search reaches `goal` and records for it the least cost of any walk.
pub proof fn lemma_goal_cost_is_least<T, G: WeightedGraph<T>>(graph: &G, start: T, goal: T)
    requires
        graph.well_formed(),
        reachable_within(graph, start, goal, usize::MAX as nat),
    ensures
        shortest_paths(graph, start, goal).goal_reached,
        shortest_paths(graph, start, goal).cost_so_far.contains_key(goal),
        is_distance(
            graph,
            start,
            goal,
            shortest_paths(graph, start, goal).cost_so_far[goal] as nat,
        ),
{
    lemma_shortest_paths_sound(graph, start, goal);
    let found = shortest_paths(graph, start, goal);
    assert(found.visited.contains(goal)) by {
        assert(found.visited[found.visited.len() - 1] == goal);
    }
}

/// Going back from any recorded node along the predecessor links leads to
/// `start`, over edges whose weights add up to the node's recorded cost.
pub proof fn lemma_came_from_adds_up<T, G: WeightedGraph<T>>(
    graph: &G,
    start: T,
    goal: T,
    node: T,
)
    requires
        graph.well_formed(),
        shortest_paths(graph, start, goal).cost_so_far.contains_key(node),
    ensures
        traced(
            graph,
            start,
            shortest_paths(graph, start, goal).cost_so_far,
            shortest_paths(graph, start, goal).came_from,
            node,
        ),
        reachable(graph, start, node),
{
    lemma_shortest_paths_sound(graph, start, goal);
    let found = shortest_paths(graph, start, goal);
    let steps = choose|steps: Seq<(usize, T)>|
        traces(graph, start, found.cost_so_far, found.came_from, node, steps);
    assert(connects(graph, start, node, steps));
}

/// A goal that no walk leads to is not reached, and nothing is recorded for
/// it.
pub proof fn lemma_unreachable_goal<T, G: WeightedGraph<T>>(graph: &G, start: T, goal: T)
    requires
        graph.well_formed(),
        !reachable(graph, start, goal),
    ensures
        !shortest_paths(graph, start, goal).goal_reached,
        !shortest_paths(graph, start, goal).cost_so_far.contains_key(goal),
        !shortest_paths(graph, start, goal).came_from.contains_key(goal),
{
    lemma_shortest_paths_sound(graph, start, goal);
    let found = shortest_paths(graph, start, goal);
    if found.cost_so_far.contains_key(goal) {
        lemma_came_from_adds_up(graph, start, goal, goal);
    }
    if found.goal_reached {
        let steps = choose|steps: Seq<(usize, T)>|
            connects(graph, start, goal, steps) && walk_cost(steps) <= usize::MAX as nat;
        assert(connects(graph, start, goal, steps));
    }
}

/// A search whose goal is its start visits the start and nothing else, and
/// records only the start, at cost 0 and as its own predecessor.
pub proof fn lemma_search_at_goal<T, G: WeightedGraph<T>>(graph: &G, start: T)
    requires
        graph.well_formed(),
    ensures
        shortest_paths(graph, start, start) == (ShortestPathsView {
            cost_so_far: map![start => 0usize],
            came_from: map![start => start],
            visited: seq![start],
            goal_reached: true,
        }),
{
    let state = initial(start);
    assert(explore_ready(graph, start, state));
    assert(state.frontier.len() == 1);
    assert(first_least(state.frontier) == 0);
    assert(!is_stale(state, state.frontier[0]));
    assert(Seq::<T>::empty().push(start) =~= seq![start]);
}

/// Two searches of one graph with the same start and goal report the same
/// costs, predecessors and visits.
pub proof fn lemma_shortest_paths_repeatable<T, G: WeightedGraph<T>>(
    graph: &G,
    start: T,
    goal: T,
    first: ShortestPathsView<T>,
    second: ShortestPathsView<T>,
)
    requires
        first == shortest_paths(graph, start, goal),
        second == shortest_paths(graph, start, goal),
    ensures
        first.cost_so_far == second.cost_so_far,
        first.came_from == second.came_from,
        first.visited == second.visited,
        first.goal_reached == second.goal_reached,
{
}

} // verus!
