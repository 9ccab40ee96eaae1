//! Exhaustive traversal with an optional goal.
//!
//! The frontier is a stack: the node marked most recently is expanded first.
//! Every node is marked at most once, so the traversal ends on any graph whose
//! edge targets form a finite set, cycles and self-loops included.

use crate::graph::WeightedGraph;
use crate::sequences::{lemma_pop_last, lemma_push_fresh};
use crate::walk::{
    connects, edges_lead_into, lemma_closed_set_holds_walk, lemma_empty_walk, lemma_walk_push,
    reachable,
};
use std::collections::HashSet;
use std::hash::Hash;
use vstd::laws_eq::obeys_concrete_eq;
use vstd::prelude::*;
use vstd::std_specs::hash::obeys_key_model;

verus! {

/// What a traversal reports: the nodes in the order they were visited, and
/// whether it stopped because it visited the goal.
pub struct Traversal<T> {
    pub visited: Vec<T>,
    pub goal_reached: bool,
}

/// The mathematical content of a [`Traversal`].
pub struct TraversalView<T> {
    pub visited: Seq<T>,
    pub goal_reached: bool,
}

impl<T> View for Traversal<T> {
    type V = TraversalView<T>;

    open spec fn view(&self) -> TraversalView<T> {
        TraversalView { visited: self.visited@, goal_reached: self.goal_reached }
    }
}

/// The state of a traversal between two visits: the stack of marked nodes
/// still to visit (top last), the set of marked nodes, and the visits so far.
#[verifier::reject_recursive_types(T)]
pub struct Sweep<T> {
    pub frontier: Seq<T>,
    pub seen: Set<T>,
    pub visited: Seq<T>,
}

/// Marks the targets of `pending`, last edge first: each target not yet seen
/// joins `seen` and is pushed on `frontier`.
pub open spec fn mark<T>(seen: Set<T>, frontier: Seq<T>, pending: Seq<(usize, T)>) -> (
    Set<T>,
    Seq<T>,
)
    decreases pending.len(),
{
    if pending.len() == 0 {
        (seen, frontier)
    } else {
        let next = pending.last().1;
        if seen.contains(next) {
            mark(seen, frontier, pending.drop_last())
        } else {
            mark(seen.insert(next), frontier.push(next), pending.drop_last())
        }
    }
}

/// How many more visits a traversal in this state can make at most.
pub open spec fn sweep_budget<T, G: WeightedGraph<T>>(graph: &G, state: Sweep<T>) -> nat {
    graph.nodes().difference(state.seen).len() + state.frontier.len()
}

/// Runs a traversal from `state` to its end: visit the top of the stack, stop
/// there if it is the goal, else mark its neighbours and go on.
pub open spec fn sweep<T, G: WeightedGraph<T>>(
    graph: &G,
    goal: Option<T>,
    state: Sweep<T>,
) -> TraversalView<T>
    decreases sweep_budget(graph, state),
    when graph.well_formed()
    via sweep_decreases::<T, G>
{
    if state.frontier.len() == 0 {
        TraversalView { visited: state.visited, goal_reached: false }
    } else {
        let current = state.frontier.last();
        let visited = state.visited.push(current);
        if goal == Some(current) {
            TraversalView { visited, goal_reached: true }
        } else {
            let marked = mark(state.seen, state.frontier.drop_last(), graph.edges(current));
            sweep(graph, goal, Sweep { frontier: marked.1, seen: marked.0, visited })
        }
    }
}

/// The traversal of `graph` from `start`: the result of
/// [`breadth_first_search`].
pub open spec fn traversal<T, G: WeightedGraph<T>>(
    graph: &G,
    start: T,
    goal: Option<T>,
) -> TraversalView<T> {
    sweep(
        graph,
        goal,
        Sweep { frontier: seq![start], seen: set![start], visited: Seq::empty() },
    )
}

/// Marking keeps the budget: each node that joins the stack leaves the
/// unseen part of the universe.
pub proof fn lemma_mark_budget<T>(
    universe: Set<T>,
    seen: Set<T>,
    frontier: Seq<T>,
    pending: Seq<(usize, T)>,
)
    requires
        universe.finite(),
        forall|i: int| 0 <= i < pending.len() ==> universe.contains((#[trigger] pending[i]).1),
    ensures
        universe.difference(mark(seen, frontier, pending).0).len() + mark(
            seen,
            frontier,
            pending,
        ).1.len() == universe.difference(seen).len() + frontier.len(),
    decreases pending.len(),
{
    if pending.len() > 0 {
        let next = pending.last().1;
        let rest = pending.drop_last();
        assert forall|i: int| 0 <= i < rest.len() implies universe.contains(
            (#[trigger] rest[i]).1,
        ) by {
            assert(rest[i] == pending[i]);
        }
        if seen.contains(next) {
            lemma_mark_budget(universe, seen, frontier, rest);
        } else {
            lemma_mark_budget(universe, seen.insert(next), frontier.push(next), rest);
            assert(universe.contains(pending[pending.len() - 1].1));
            assert(universe.difference(seen.insert(next)) =~= universe.difference(seen).remove(
                next,
            ));
            assert(universe.difference(seen).contains(next));
        }
    }
}

#[via_fn]
proof fn sweep_decreases<T, G: WeightedGraph<T>>(graph: &G, goal: Option<T>, state: Sweep<T>) {
    if state.frontier.len() != 0 && goal != Some(state.frontier.last()) {
        graph.lemma_nodes();
        lemma_mark_budget(
            graph.nodes(),
            state.seen,
            state.frontier.drop_last(),
            graph.edges(state.frontier.last()),
        );
    }
}

/// What holds of a traversal from `start` between two visits.
pub open spec fn sweep_inv<T, G: WeightedGraph<T>>(graph: &G, start: T, state: Sweep<T>) -> bool {
    &&& state.seen.contains(start)
    &&& state.visited.no_duplicates()
    &&& state.frontier.no_duplicates()
    &&& forall|n: T| !(state.visited.contains(n) && state.frontier.contains(n))
    &&& forall|n: T| state.seen.contains(n) <==> state.visited.contains(n) || state.frontier.contains(n)
    &&& forall|n: T| state.seen.contains(n) ==> reachable(graph, start, n)
    &&& edges_lead_into(graph, state.visited.to_set(), state.seen)
    &&& if state.visited.len() == 0 {
        state.frontier == seq![start]
    } else {
        state.visited[0] == start
    }
}

/// What a finished traversal from `start` has found.
pub open spec fn traversal_sound<T, G: WeightedGraph<T>>(
    graph: &G,
    start: T,
    goal: Option<T>,
    found: TraversalView<T>,
) -> bool {
    &&& found.visited.len() > 0
    &&& found.visited[0] == start
    &&& found.visited.no_duplicates()
    &&& forall|n: T| found.visited.contains(n) ==> reachable(graph, start, n)
    &&& found.goal_reached ==> goal == Some(found.visited.last())
    &&& !found.goal_reached ==> forall|n: T|
        reachable(graph, start, n) ==> found.visited.contains(n)
    &&& found.goal_reached <==> (goal matches Some(target) && reachable(graph, start, target))
}

/// Marking the neighbours of a reachable node keeps the seen set equal to the
/// nodes visited or stacked, each once and each reachable, and leaves every
/// target marked.
proof fn lemma_mark_inv<T, G: WeightedGraph<T>>(
    graph: &G,
    start: T,
    visited: Seq<T>,
    seen: Set<T>,
    frontier: Seq<T>,
    pending: Seq<(usize, T)>,
)
    requires
        frontier.no_duplicates(),
        forall|n: T| !(visited.contains(n) && frontier.contains(n)),
        forall|n: T| seen.contains(n) <==> visited.contains(n) || frontier.contains(n),
        forall|n: T| seen.contains(n) ==> reachable(graph, start, n),
        forall|i: int| 0 <= i < pending.len() ==> reachable(graph, start, (#[trigger] pending[i]).1),
    ensures
        ({
            let marked = mark(seen, frontier, pending);
            &&& marked.1.no_duplicates()
            &&& forall|n: T| !(visited.contains(n) && marked.1.contains(n))
            &&& forall|n: T| marked.0.contains(n) <==> visited.contains(n) || marked.1.contains(n)
            &&& forall|n: T| marked.0.contains(n) ==> reachable(graph, start, n)
            &&& forall|n: T| seen.contains(n) ==> marked.0.contains(n)
            &&& forall|i: int| 0 <= i < pending.len() ==> marked.0.contains((#[trigger] pending[i]).1)
        }),
    decreases pending.len(),
{
    if pending.len() > 0 {
        let next = pending.last().1;
        let rest = pending.drop_last();
        assert forall|i: int| 0 <= i < rest.len() implies reachable(
            graph,
            start,
            (#[trigger] rest[i]).1,
        ) by {
            assert(rest[i] == pending[i]);
        }
        assert(reachable(graph, start, pending[pending.len() - 1].1));
        let seen2 = if seen.contains(next) {
            seen
        } else {
            seen.insert(next)
        };
        let frontier2 = if seen.contains(next) {
            frontier
        } else {
            frontier.push(next)
        };
        if !seen.contains(next) {
            lemma_push_fresh(frontier, next);
        }
        lemma_mark_inv(graph, start, visited, seen2, frontier2, rest);
        let marked = mark(seen, frontier, pending);
        assert(marked == mark(seen2, frontier2, rest));
        assert(seen2.contains(next));
        assert forall|i: int| 0 <= i < pending.len() implies marked.0.contains(
            (#[trigger] pending[i]).1,
        ) by {
            if i < rest.len() {
                assert(rest[i] == pending[i]);
                assert(marked.0.contains(rest[i].1));
            } else {
                assert(pending[i].1 == next);
            }
        }
    }
}

/// A traversal that goes on from a state in which [`sweep_inv`] holds, and in
/// which the goal has not been visited, ends with a sound report.
proof fn lemma_sweep_sound<T, G: WeightedGraph<T>>(
    graph: &G,
    start: T,
    goal: Option<T>,
    state: Sweep<T>,
)
    requires
        graph.well_formed(),
        sweep_inv(graph, start, state),
        goal matches Some(target) ==> !state.visited.contains(target),
    ensures
        traversal_sound(graph, start, goal, sweep(graph, goal, state)),
    decreases sweep_budget(graph, state),
{
    if state.frontier.len() == 0 {
        assert(state.visited.contains(start));
        assert(state.seen =~= state.visited.to_set());
        assert forall|n: T| reachable(graph, start, n) implies state.visited.contains(n) by {
            let steps = choose|steps: Seq<(usize, T)>| connects(graph, start, n, steps);
            lemma_closed_set_holds_walk(graph, start, steps, state.seen);
        }
        if let Some(target) = goal {
            if reachable(graph, start, target) {
                assert(state.visited.contains(target));
            }
        }
    } else {
        let current = state.frontier.last();
        let visited = state.visited.push(current);
        let below = state.frontier.drop_last();
        lemma_pop_last(state.frontier);
        assert(state.frontier.contains(current)) by {
            assert(state.frontier[state.frontier.len() - 1] == current);
        }
        assert(state.seen.contains(current));
        assert(!state.visited.contains(current));
        lemma_push_fresh(state.visited, current);
        assert(visited[0] == start);
        assert(reachable(graph, start, current));
        assert forall|n: T| visited.contains(n) implies reachable(graph, start, n) by {
            assert(state.seen.contains(n));
        }
        if goal == Some(current) {
            assert(sweep(graph, goal, state) == (TraversalView { visited, goal_reached: true }));
            assert(visited.last() == current);
        } else {
            assert forall|n: T| !(visited.contains(n) && below.contains(n)) by {
                if visited.contains(n) && below.contains(n) {
                    assert(state.frontier.contains(n));
                    assert(n != current);
                    assert(state.visited.contains(n));
                }
            }
            assert forall|n: T| state.seen.contains(n) <==> visited.contains(n) || below.contains(
                n,
            ) by {
                if state.seen.contains(n) {
                    if state.frontier.contains(n) && n != current {
                        assert(below.contains(n));
                    }
                }
                if below.contains(n) {
                    assert(state.frontier.contains(n));
                }
            }
            graph.lemma_nodes();
            let pending = graph.edges(current);
            assert forall|i: int| 0 <= i < pending.len() implies reachable(
                graph,
                start,
                (#[trigger] pending[i]).1,
            ) by {
                let steps = choose|steps: Seq<(usize, T)>| connects(graph, start, current, steps);
                lemma_walk_push(graph, start, steps, pending[i]);
            }
            lemma_mark_inv(graph, start, visited, state.seen, below, pending);
            lemma_mark_budget(graph.nodes(), state.seen, below, pending);
            let marked = mark(state.seen, below, pending);
            let after = Sweep { frontier: marked.1, seen: marked.0, visited };
            assert(edges_lead_into(graph, visited.to_set(), marked.0)) by {
                assert forall|n: T, i: int|
                    visited.to_set().contains(n) && 0 <= i < graph.edges(
                        n,
                    ).len() implies marked.0.contains((#[trigger] graph.edges(n)[i]).1) by {
                    if n != current {
                        assert(state.visited.to_set().contains(n));
                        assert(state.seen.contains(graph.edges(n)[i].1));
                    }
                }
            }
            assert(marked.0.contains(start));
            if let Some(target) = goal {
                assert(!visited.contains(target));
            }
            assert(sweep_inv(graph, start, after));
            assert(sweep(graph, goal, state) == sweep(graph, goal, after));
            lemma_sweep_sound(graph, start, goal, after);
        }
    }
}

/// The traversal from `start` visits `start` first, visits no node twice and
/// only nodes that `start` reaches. It reports the goal reached exactly when
/// a goal is given and `start` reaches it, and then the goal is its last
/// visit; otherwise it has visited every node that `start` reaches.
pub proof fn lemma_traversal_sound<T, G: WeightedGraph<T>>(graph: &G, start: T, goal: Option<T>)
    requires
        graph.well_formed(),
    ensures
        traversal_sound(graph, start, goal, traversal(graph, start, goal)),
{
    let state = Sweep { frontier: seq![start], seen: set![start], visited: Seq::<T>::empty() };
    lemma_empty_walk(graph, start);
    assert(state.frontier[0] == start);
    assert forall|n: T| state.seen.contains(n) <==> state.frontier.contains(n) by {
        if state.frontier.contains(n) {
            let j = choose|j: int| 0 <= j < state.frontier.len() && state.frontier[j] == n;
        }
    }
    lemma_sweep_sound(graph, start, goal, state);
}

/// Without a goal the traversal visits exactly the nodes that `start`
/// reaches, each of them once.
pub proof fn lemma_traversal_exhaustive<T, G: WeightedGraph<T>>(graph: &G, start: T)
    requires
        graph.well_formed(),
    ensures
        !traversal(graph, start, None).goal_reached,
        traversal(graph, start, None).visited.no_duplicates(),
        forall|n: T|
            traversal(graph, start, None).visited.contains(n) <==> reachable(graph, start, n),
{
    lemma_traversal_sound(graph, start, None);
}

/// With a goal the traversal visits no node twice and none that `start` does
/// not reach, and it reaches the goal exactly when `start` reaches it.
pub proof fn lemma_traversal_goal<T, G: WeightedGraph<T>>(graph: &G, start: T, target: T)
    requires
        graph.well_formed(),
    ensures
        traversal(graph, start, Some(target)).goal_reached <==> reachable(graph, start, target),
        traversal(graph, start, Some(target)).visited.no_duplicates(),
        forall|n: T|
            traversal(graph, start, Some(target)).visited.contains(n) ==> reachable(
                graph,
                start,
                n,
            ),
        traversal(graph, start, Some(target)).goal_reached ==> traversal(
            graph,
            start,
            Some(target),
        ).visited.last() == target,
{
    lemma_traversal_sound(graph, start, Some(target));
}

/// A traversal whose goal is its start visits the start and nothing else.
pub proof fn lemma_traversal_at_goal<T, G: WeightedGraph<T>>(graph: &G, start: T)
    requires
        graph.well_formed(),
    ensures
        traversal(graph, start, Some(start)) == (TraversalView {
            visited: seq![start],
            goal_reached: true,
        }),
{
    assert(Seq::<T>::empty().push(start) =~= seq![start]);
}

/// Two traversals of one graph with the same start and goal report the same.
pub proof fn lemma_traversal_repeatable<T, G: WeightedGraph<T>>(
    graph: &G,
    start: T,
    goal: Option<T>,
    first: TraversalView<T>,
    second: TraversalView<T>,
)
    requires
        first == traversal(graph, start, goal),
        second == traversal(graph, start, goal),
    ensures
        first == second,
{
}

/// Searches `graph` exhaustively from `start` and stops early when it visits
/// `goal`.
///
/// Despite its name the search expands the most recently marked node first,
/// which is a depth-first order; callers rely on that order of visits.
///
/// The report is exactly [`traversal`]; [`traversal_sound`] says what that
/// means in terms of reachability.
pub fn breadth_first_search<T: Copy + Eq + Hash, G: WeightedGraph<T>>(
    graph: &G,
    start: T,
    goal: Option<T>,
) -> (report: Traversal<T>)
    requires
        graph.well_formed(),
        obeys_key_model::<T>(),
        obeys_concrete_eq::<T>(),
    ensures
        report@ == traversal(graph, start, goal),
        traversal_sound(graph, start, goal, report@),
{
    broadcast use vstd::std_specs::hash::group_hash_axioms;

    let mut frontier: Vec<T> = Vec::new();
    let mut seen: HashSet<T> = HashSet::new();
    let mut visited: Vec<T> = Vec::new();
    let mut goal_reached = false;

    frontier.push(start);
    seen.insert(start);
    proof {
        assert(frontier@ =~= seq![start]);
        assert(seen@ =~= set![start]);
        lemma_traversal_sound(graph, start, goal);
        graph.lemma_nodes();
    }

    while !goal_reached && frontier.len() > 0
        invariant
            graph.well_formed(),
            obeys_key_model::<T>(),
            obeys_concrete_eq::<T>(),
            graph.nodes().finite(),
            goal_reached ==> traversal(graph, start, goal) == (TraversalView {
                visited: visited@,
                goal_reached: true,
            }),
            !goal_reached ==> traversal(graph, start, goal) == sweep(
                graph,
                goal,
                Sweep { frontier: frontier@, seen: seen@, visited: visited@ },
            ),
        decreases
                if goal_reached {
                    0
                } else {
                    1 + sweep_budget(
                        graph,
                        Sweep { frontier: frontier@, seen: seen@, visited: visited@ },
                    )
                },
    {
        let ghost before = Sweep { frontier: frontier@, seen: seen@, visited: visited@ };
        let current = frontier.pop().unwrap();
        visited.push(current);
        let at_goal = match goal {
            Some(target) => target == current,
            None => false,
        };
        proof {
            reveal(obeys_concrete_eq);
            assert(at_goal == (goal == Some(current)));
        }
        if at_goal {
            goal_reached = true;
        } else {
            let mut pending = graph.neighbours(&current);
            let ghost below = frontier@;
            let ghost all = pending@;
            proof {
                graph.lemma_nodes();
                lemma_mark_budget(graph.nodes(), before.seen, below, all);
            }
            loop
                invariant
                    obeys_key_model::<T>(),
                    mark(seen@, frontier@, pending@) == mark(before.seen, below, all),
                ensures
                    (seen@, frontier@) == mark(before.seen, below, all),
                decreases pending@.len(),
            {
                match pending.next() {
                    None => {
                        break ;
                    },
                    Some((_, next)) => {
                        if !seen.contains(&next) {
                            seen.insert(next);
                            frontier.push(next);
                        }
                    },
                }
            }
        }
    }
    Traversal { visited, goal_reached }
}

} // verus!
