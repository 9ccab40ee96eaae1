//! Uniform-cost search for cheapest walks.
//!
//! The frontier holds `(node, cost)` entries and always gives up the cheapest,
//! among equals the one pushed first. An entry is dropped unvisited when it is
//! stale: its node has been visited already, or a cheaper cost has been
//! recorded for it since it was pushed. Otherwise its node is visited, and
//! unless it is the goal, its edges are relaxed: a neighbour not yet visited
//! whose cost through this node is no worse than its recorded cost gets that
//! cost, this node as predecessor, and a new entry. So on a tie the later
//! predecessor wins, while a visited node keeps its cost and predecessor for
//! good: every node is visited at most once, the search ends on cycles of
//! weight zero too, and predecessors always lead back to the start.
//!
//! Weights are unsigned, so no edge can lower a cost. A cost that does not
//! fit in `usize` is never recorded: a node that only such walks lead to
//! counts as out of reach.

use crate::graph::WeightedGraph;
use crate::optimality::{lemma_shortest_paths_sound, paths_sound};
use crate::priority::{first_least, lemma_first_least, Frontier, MinPriorityNode};
use crate::sequences::lemma_push_contains;
use std::collections::HashMap;
use std::collections::HashSet;
use std::hash::Hash;
use vstd::laws_eq::obeys_concrete_eq;
use vstd::prelude::*;
use vstd::std_specs::hash::obeys_key_model;

verus! {

/// What a shortest-path search reports: the best cost found for each node it
/// recorded, each such node's predecessor on a walk of that cost, the nodes
/// in the order they were visited, and whether the goal was visited.
pub struct ShortestPaths<T> {
    pub cost_so_far: HashMap<T, usize>,
    pub came_from: HashMap<T, T>,
    pub visited: Vec<T>,
    pub goal_reached: bool,
}

/// The mathematical content of a [`ShortestPaths`].
#[verifier::reject_recursive_types(T)]
pub struct ShortestPathsView<T> {
    pub cost_so_far: Map<T, usize>,
    pub came_from: Map<T, T>,
    pub visited: Seq<T>,
    pub goal_reached: bool,
}

impl<T> View for ShortestPaths<T> {
    type V = ShortestPathsView<T>;

    open spec fn view(&self) -> ShortestPathsView<T> {
        ShortestPathsView {
            cost_so_far: self.cost_so_far@,
            came_from: self.came_from@,
            visited: self.visited@,
            goal_reached: self.goal_reached,
        }
    }
}

/// The state of a search between two pops of the frontier.
#[verifier::reject_recursive_types(T)]
pub struct Probe<T> {
    pub frontier: Seq<MinPriorityNode<T>>,
    pub cost_so_far: Map<T, usize>,
    pub came_from: Map<T, T>,
    pub visited: Seq<T>,
}

/// Whether reaching `next` at `base + weight` is recorded: `next` has not
/// been visited, the sum fits in `usize`, and no cheaper cost is on record.
pub open spec fn improves<T>(state: Probe<T>, base: usize, weight: usize, next: T) -> bool {
    &&& !state.visited.contains(next)
    &&& base + weight <= usize::MAX
    &&& state.cost_so_far.contains_key(next) ==> base + weight <= state.cost_so_far[next]
}

/// The state after recording `next` at `cost` with predecessor `current`.
pub open spec fn record<T>(state: Probe<T>, current: T, next: T, cost: usize) -> Probe<T> {
    Probe {
        frontier: state.frontier.push(MinPriorityNode { node: next, cost }),
        cost_so_far: state.cost_so_far.insert(next, cost),
        came_from: state.came_from.insert(next, current),
        visited: state.visited,
    }
}

/// Relaxes the edges `pending` of `current`, last edge first, where `base` is
/// the cost at which `current` was visited.
pub open spec fn relax<T>(
    state: Probe<T>,
    current: T,
    base: usize,
    pending: Seq<(usize, T)>,
) -> Probe<T>
    decreases pending.len(),
{
    if pending.len() == 0 {
        state
    } else {
        let weight = pending.last().0;
        let next = pending.last().1;
        if improves(state, base, weight, next) {
            relax(
                record(state, current, next, (base + weight) as usize),
                current,
                base,
                pending.drop_last(),
            )
        } else {
            relax(state, current, base, pending.drop_last())
        }
    }
}

/// Whether a popped entry is dropped without a visit.
pub open spec fn is_stale<T>(state: Probe<T>, entry: MinPriorityNode<T>) -> bool {
    ||| state.visited.contains(entry.node)
    ||| state.cost_so_far.contains_key(entry.node) && entry.cost > state.cost_so_far[entry.node]
}

/// The nodes a search from `start` can ever hold: `start` and every edge
/// target.
pub open spec fn search_space<T, G: WeightedGraph<T>>(graph: &G, start: T) -> Set<T> {
    graph.nodes().insert(start)
}

/// The nodes of the search space that have not been visited yet.
pub open spec fn unvisited<T, G: WeightedGraph<T>>(graph: &G, start: T, state: Probe<T>) -> Set<T> {
    search_space(graph, start).difference(state.visited.to_set())
}

/// A search can go on from `state`: the graph is well formed and every
/// pending node lies in the search space.
pub open spec fn explore_ready<T, G: WeightedGraph<T>>(
    graph: &G,
    start: T,
    state: Probe<T>,
) -> bool {
    &&& graph.well_formed()
    &&& forall|i: int|
        0 <= i < state.frontier.len() ==> search_space(graph, start).contains(
            (#[trigger] state.frontier[i]).node,
        )
}

/// The report of a search that ends in `state`.
pub open spec fn finish<T>(state: Probe<T>, goal_reached: bool) -> ShortestPathsView<T> {
    ShortestPathsView {
        cost_so_far: state.cost_so_far,
        came_from: state.came_from,
        visited: state.visited,
        goal_reached,
    }
}

/// The state after the entry at `at` has left the frontier.
pub open spec fn without<T>(state: Probe<T>, at: int) -> Probe<T> {
    Probe {
        frontier: state.frontier.remove(at),
        cost_so_far: state.cost_so_far,
        came_from: state.came_from,
        visited: state.visited,
    }
}

/// The state after `node` has been visited.
pub open spec fn visit<T>(state: Probe<T>, node: T) -> Probe<T> {
    Probe {
        frontier: state.frontier,
        cost_so_far: state.cost_so_far,
        came_from: state.came_from,
        visited: state.visited.push(node),
    }
}

/// Runs a search from `state` to its end: pop the cheapest entry, drop it if
/// stale, else visit its node, stop there if it is the goal, else relax its
/// edges and go on.
pub open spec fn explore<T, G: WeightedGraph<T>>(
    graph: &G,
    start: T,
    goal: T,
    state: Probe<T>,
) -> ShortestPathsView<T>
    decreases unvisited(graph, start, state).len(), state.frontier.len(),
    when explore_ready(graph, start, state)
    via explore_decreases::<T, G>
{
    if state.frontier.len() == 0 {
        finish(state, false)
    } else {
        let at = first_least(state.frontier);
        let entry = state.frontier[at];
        if is_stale(state, entry) {
            explore(graph, start, goal, without(state, at))
        } else if entry.node == goal {
            finish(visit(without(state, at), entry.node), true)
        } else {
            explore(
                graph,
                start,
                goal,
                relax(
                    visit(without(state, at), entry.node),
                    entry.node,
                    entry.cost,
                    graph.edges(entry.node),
                ),
            )
        }
    }
}

/// The state a search from `start` begins in.
pub open spec fn initial<T>(start: T) -> Probe<T> {
    Probe {
        frontier: seq![MinPriorityNode { node: start, cost: 0 }],
        cost_so_far: map![start => 0usize],
        came_from: map![start => start],
        visited: Seq::empty(),
    }
}

/// The search of `graph` from `start` for `goal`: the result of
/// [`dijkstra_search`].
pub open spec fn shortest_paths<T, G: WeightedGraph<T>>(
    graph: &G,
    start: T,
    goal: T,
) -> ShortestPathsView<T> {
    explore(graph, start, goal, initial(start))
}

/// Relaxing visits nothing, and keeps the frontier inside any set that holds
/// the targets of the relaxed edges.
pub proof fn lemma_relax_stays<T>(
    state: Probe<T>,
    current: T,
    base: usize,
    pending: Seq<(usize, T)>,
    space: Set<T>,
)
    requires
        forall|i: int| 0 <= i < state.frontier.len() ==> space.contains(
            (#[trigger] state.frontier[i]).node,
        ),
        forall|i: int| 0 <= i < pending.len() ==> space.contains((#[trigger] pending[i]).1),
    ensures
        relax(state, current, base, pending).visited == state.visited,
        forall|i: int|
            0 <= i < relax(state, current, base, pending).frontier.len() ==> space.contains(
                (#[trigger] relax(state, current, base, pending).frontier[i]).node,
            ),
    decreases pending.len(),
{
    if pending.len() > 0 {
        let weight = pending.last().0;
        let next = pending.last().1;
        let rest = pending.drop_last();
        assert forall|i: int| 0 <= i < rest.len() implies space.contains((#[trigger] rest[i]).1) by {
            assert(rest[i] == pending[i]);
        }
        if improves(state, base, weight, next) {
            let recorded = record(state, current, next, (base + weight) as usize);
            assert(space.contains(pending[pending.len() - 1].1));
            assert forall|i: int| 0 <= i < recorded.frontier.len() implies space.contains(
                (#[trigger] recorded.frontier[i]).node,
            ) by {
                if i < state.frontier.len() {
                    assert(recorded.frontier[i] == state.frontier[i]);
                }
            }
            lemma_relax_stays(recorded, current, base, rest, space);
        } else {
            lemma_relax_stays(state, current, base, rest, space);
        }
    }
}

/// One round of a search from a state with a pending entry: the state that
/// follows is ready again, and it is nearer to the end.
pub proof fn lemma_round<T, G: WeightedGraph<T>>(graph: &G, start: T, state: Probe<T>)
    requires
        explore_ready(graph, start, state),
        state.frontier.len() > 0,
    ensures
        ({
            let at = first_least(state.frontier);
            let entry = state.frontier[at];
            let dropped = without(state, at);
            let relaxed = relax(
                visit(dropped, entry.node),
                entry.node,
                entry.cost,
                graph.edges(entry.node),
            );
            &&& 0 <= at < state.frontier.len()
            &&& unvisited(graph, start, state).finite()
            &&& explore_ready(graph, start, dropped)
            &&& dropped.frontier.len() == state.frontier.len() - 1
            &&& unvisited(graph, start, dropped) == unvisited(graph, start, state)
            &&& explore_ready(graph, start, relaxed)
            &&& relaxed.visited == state.visited.push(entry.node)
            &&& !state.visited.contains(entry.node) ==> unvisited(graph, start, relaxed).len()
                < unvisited(graph, start, state).len()
        }),
{
    graph.lemma_nodes();
    lemma_first_least(state.frontier);
    let space = search_space(graph, start);
    let at = first_least(state.frontier);
    let entry = state.frontier[at];
    let dropped = without(state, at);
    state.frontier.remove_ensures(at);
    assert forall|i: int| 0 <= i < dropped.frontier.len() implies space.contains(
        (#[trigger] dropped.frontier[i]).node,
    ) by {
        if i < at {
            assert(dropped.frontier[i] == state.frontier[i]);
        } else {
            assert(dropped.frontier[i] == state.frontier[i + 1]);
        }
    }
    let visiting = visit(dropped, entry.node);
    let edges = graph.edges(entry.node);
    assert forall|i: int| 0 <= i < edges.len() implies space.contains((#[trigger] edges[i]).1) by {
        assert(graph.nodes().contains(graph.edges(entry.node)[i].1));
    }
    lemma_relax_stays(visiting, entry.node, entry.cost, edges, space);
    let relaxed = relax(visiting, entry.node, entry.cost, edges);
    if !state.visited.contains(entry.node) {
        assert(space.contains(state.frontier[at].node));
        lemma_push_contains(state.visited, entry.node);
        assert(unvisited(graph, start, relaxed) =~= unvisited(graph, start, state).remove(
            entry.node,
        ));
        assert(unvisited(graph, start, state).contains(entry.node));
    }
}

#[via_fn]
proof fn explore_decreases<T, G: WeightedGraph<T>>(
    graph: &G,
    start: T,
    goal: T,
    state: Probe<T>,
) {
    if state.frontier.len() != 0 {
        lemma_round(graph, start, state);
    }
}

/// Searches `graph` for cheapest walks from `start`, cheapest pending node
/// first, until `goal` is visited or nothing is pending.
///
/// The report is exactly [`shortest_paths`]; [`paths_sound`] says what that
/// means in terms of walks and their costs.
pub fn dijkstra_search<T: Copy + Eq + Hash, G: WeightedGraph<T>>(
    graph: &G,
    start: T,
    goal: T,
) -> (found: ShortestPaths<T>)
    requires
        graph.well_formed(),
        obeys_key_model::<T>(),
        obeys_concrete_eq::<T>(),
    ensures
        found@ == shortest_paths(graph, start, goal),
        paths_sound(graph, start, goal, found@),
{
    broadcast use vstd::std_specs::hash::group_hash_axioms;

    let mut frontier: Frontier<T> = Frontier::new();
    let mut came_from: HashMap<T, T> = HashMap::new();
    let mut cost_so_far: HashMap<T, usize> = HashMap::new();
    let mut settled: HashSet<T> = HashSet::new();
    let mut visited: Vec<T> = Vec::new();
    let mut goal_reached = false;

    frontier.push(MinPriorityNode { node: start, cost: 0 });
    came_from.insert(start, start);
    cost_so_far.insert(start, 0);
    proof {
        assert(frontier@ =~= initial(start).frontier);
        assert(cost_so_far@ =~= initial(start).cost_so_far);
        assert(came_from@ =~= initial(start).came_from);
        assert(settled@ =~= visited@.to_set());
        lemma_shortest_paths_sound(graph, start, goal);
    }

    while !goal_reached && !frontier.is_empty()
        invariant
            graph.well_formed(),
            obeys_key_model::<T>(),
            obeys_concrete_eq::<T>(),
            settled@ == visited@.to_set(),
            goal_reached ==> shortest_paths(graph, start, goal) == finish(
                Probe {
                    frontier: frontier@,
                    cost_so_far: cost_so_far@,
                    came_from: came_from@,
                    visited: visited@,
                },
                true,
            ),
            !goal_reached ==> explore_ready(
                graph,
                start,
                Probe {
                    frontier: frontier@,
                    cost_so_far: cost_so_far@,
                    came_from: came_from@,
                    visited: visited@,
                },
            ),
            !goal_reached ==> shortest_paths(graph, start, goal) == explore(
                graph,
                start,
                goal,
                Probe {
                    frontier: frontier@,
                    cost_so_far: cost_so_far@,
                    came_from: came_from@,
                    visited: visited@,
                },
            ),
        decreases
                if goal_reached {
                    0
                } else {
                    1 + unvisited(
                        graph,
                        start,
                        Probe {
                            frontier: frontier@,
                            cost_so_far: cost_so_far@,
                            came_from: came_from@,
                            visited: visited@,
                        },
                    ).len()
                },
                frontier@.len(),
    {
        let ghost before = Probe {
            frontier: frontier@,
            cost_so_far: cost_so_far@,
            came_from: came_from@,
            visited: visited@,
        };
        proof {
            lemma_round(graph, start, before);
        }
        let entry = frontier.pop().unwrap();
        let current = entry.node;
        let stale = settled.contains(&current) || match cost_so_far.get(&current) {
            Some(best) => entry.cost > *best,
            None => false,
        };
        assert(stale == is_stale(before, entry));
        if !stale {
            visited.push(current);
            settled.insert(current);
            assert(settled@ =~= visited@.to_set()) by {
                lemma_push_contains(before.visited, current);
            }
            let at_goal = current == goal;
            proof {
                reveal(obeys_concrete_eq);
            }
            if at_goal {
                goal_reached = true;
            } else {
                let mut pending = graph.neighbours(&current);
                let ghost opened = Probe {
                    frontier: frontier@,
                    cost_so_far: cost_so_far@,
                    came_from: came_from@,
                    visited: visited@,
                };
                let ghost edges = pending@;
                loop
                    invariant
                        obeys_key_model::<T>(),
                        settled@ == visited@.to_set(),
                        visited@ == opened.visited,
                        relax(
                            Probe {
                                frontier: frontier@,
                                cost_so_far: cost_so_far@,
                                came_from: came_from@,
                                visited: visited@,
                            },
                            current,
                            entry.cost,
                            pending@,
                        ) == relax(opened, current, entry.cost, edges),
                    ensures
                        settled@ == visited@.to_set(),
                        (Probe {
                            frontier: frontier@,
                            cost_so_far: cost_so_far@,
                            came_from: came_from@,
                            visited: visited@,
                        }) == relax(opened, current, entry.cost, edges),
                    decreases pending@.len(),
                {
                    let ghost now = Probe {
                        frontier: frontier@,
                        cost_so_far: cost_so_far@,
                        came_from: came_from@,
                        visited: visited@,
                    };
                    match pending.next() {
                        None => {
                            break ;
                        },
                        Some((weight, next)) => {
                            if !settled.contains(&next) {
                                match entry.cost.checked_add(weight) {
                                    Some(candidate) => {
                                        let better = match cost_so_far.get(&next) {
                                            Some(known) => candidate <= *known,
                                            None => true,
                                        };
                                        assert(better == improves(now, entry.cost, weight, next));
                                        if better {
                                            cost_so_far.insert(next, candidate);
                                            came_from.insert(next, current);
                                            frontier.push(
                                                MinPriorityNode { node: next, cost: candidate },
                                            );
                                        }
                                    },
                                    None => {
                                        assert(!improves(now, entry.cost, weight, next));
                                    },
                                }
                            } else {
                                assert(!improves(now, entry.cost, weight, next));
                            }
                        },
                    }
                }
            }
        }
    }
    ShortestPaths { cost_so_far, came_from, visited, goal_reached }
}

} // verus!
