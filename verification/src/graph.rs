//! The weighted-graph capability and two graphs that have it: adjacency
//! lists in which every edge weighs 1, and lists of weighted edges.

use std::collections::HashMap;
use std::hash::Hash;
use vstd::prelude::*;
use vstd::std_specs::hash::obeys_key_model;

verus! {

/// The edges that leave one node, waiting to be handed out.
///
/// The view is the sequence of `(weight, neighbour)` pairs still pending.
/// `next` hands them out from the back, so a graph's edges are met last first.
pub struct Neighbours<T> {
    nodes: Vec<(usize, T)>,
}

impl<T> View for Neighbours<T> {
    type V = Seq<(usize, T)>;

    closed spec fn view(&self) -> Seq<(usize, T)> {
        self.nodes@
    }
}

impl<T> Neighbours<T> {
    /// Wraps a list of `(weight, neighbour)` pairs.
    pub fn new(nodes: Vec<(usize, T)>) -> (out: Self)
        ensures
            out@ == nodes@,
    {
        Neighbours { nodes }
    }

    /// Hands out the last pending pair, or `None` once all are gone.
    pub fn next(&mut self) -> (item: Option<(usize, T)>)
        ensures
            old(self)@.len() == 0 ==> item.is_none() && final(self)@ == old(self)@,
            old(self)@.len() > 0 ==> item == Some(old(self)@.last()) && final(self)@ == old(
                self,
            )@.drop_last(),
    {
        self.nodes.pop()
    }

    /// The exact number of pairs still pending, as lower and upper bound.
    pub fn size_hint(&self) -> (hint: (usize, Option<usize>))
        ensures
            hint.0 == self@.len(),
            hint.1 == Some(hint.0),
    {
        (self.nodes.len(), Some(self.nodes.len()))
    }
}

/// A graph that can list the weighted edges leaving any node.
///
/// `edges` is the mathematical adjacency function; `nodes` is a finite set
/// that holds every edge target, which bounds how far a search can spread.
pub trait WeightedGraph<T> {
    /// The `(weight, neighbour)` pairs leaving `node`, empty for a node the
    /// graph does not know.
    spec fn edges(&self, node: T) -> Seq<(usize, T)>;

    /// A finite set containing every node some edge leads to.
    spec fn nodes(&self) -> Set<T>;

    /// What must hold of the graph for `neighbours` to be callable.
    spec fn well_formed(&self) -> bool;

    /// `nodes` is finite and closed under `edges`.
    proof fn lemma_nodes(&self)
        requires
            self.well_formed(),
        ensures
            self.nodes().finite(),
            forall|n: T, i: int|
                0 <= i < self.edges(n).len() ==> self.nodes().contains(
                    (#[trigger] self.edges(n)[i]).1,
                ),
    ;

    /// Lists the edges leaving `node`: exactly `edges(node)`.
    fn neighbours(&self, node: &T) -> (out: Neighbours<T>)
        requires
            self.well_formed(),
        ensures
            out@ == self.edges(*node),
    ;
}

/// Every node that occurs in some adjacency list of `adj`.
pub open spec fn targets<T>(adj: Map<T, Seq<T>>) -> Set<T> {
    Set::new(
        |x: T|
            exists|k: T, i: int|
                adj.contains_key(k) && 0 <= i < adj[k].len() && #[trigger] adj[k][i] == x,
    )
}

/// The weighted edges of an adjacency list in which every edge weighs 1.
pub open spec fn unit_edges<T>(list: Seq<T>) -> Seq<(usize, T)> {
    Seq::new(list.len(), |i: int| (1usize, list[i]))
}

/// A finite adjacency map has finitely many targets.
pub proof fn lemma_targets_finite<T>(adj: Map<T, Seq<T>>)
    requires
        adj.dom().finite(),
    ensures
        targets(adj).finite(),
    decreases adj.dom().len(),
{
    if adj.dom().len() == 0 {
        assert(targets(adj) =~= Set::<T>::empty()) by {
            assert forall|x: T| !targets(adj).contains(x) by {
                if targets(adj).contains(x) {
                    let (k, i) = choose|k: T, i: int|
                        adj.contains_key(k) && 0 <= i < adj[k].len() && #[trigger] adj[k][i] == x;
                    assert(adj.dom().contains(k));
                }
            }
        }
    } else {
        let k = adj.dom().choose();
        let rest = adj.remove(k);
        lemma_targets_finite(rest);
        vstd::seq_lib::seq_to_set_is_finite(adj[k]);
        assert(targets(adj) =~= targets(rest).union(adj[k].to_set())) by {
            assert forall|x: T| targets(adj).contains(x) implies targets(rest).union(
                adj[k].to_set(),
            ).contains(x) by {
                let (k2, i) = choose|k2: T, i: int|
                    adj.contains_key(k2) && 0 <= i < adj[k2].len() && #[trigger] adj[k2][i] == x;
                if k2 == k {
                    assert(adj[k].contains(x));
                } else {
                    assert(rest.contains_key(k2) && rest[k2][i] == x);
                }
            }
            assert forall|x: T| targets(rest).union(adj[k].to_set()).contains(
                x,
            ) implies targets(adj).contains(x) by {
                if targets(rest).contains(x) {
                    let (k2, i) = choose|k2: T, i: int|
                        rest.contains_key(k2) && 0 <= i < rest[k2].len() && #[trigger] rest[k2][i]
                            == x;
                    assert(adj.contains_key(k2) && adj[k2][i] == x);
                } else {
                    let i = choose|i: int| 0 <= i < adj[k].len() && adj[k][i] == x;
                    assert(adj.contains_key(k) && adj[k][i] == x);
                }
            }
        }
    }
}

/// A graph held as a map from node to its list of neighbours, every edge of
/// weight 1.
pub struct SimpleGraph<T> {
    edges: HashMap<T, Vec<T>>,
}

impl<T> View for SimpleGraph<T> {
    type V = Map<T, Seq<T>>;

    closed spec fn view(&self) -> Map<T, Seq<T>> {
        self.edges@.map_values(|list: Vec<T>| list@)
    }
}

impl<T: Eq + Hash> SimpleGraph<T> {
    /// Builds the graph whose adjacency lists are those of `edges`.
    pub fn new(edges: HashMap<T, Vec<T>>) -> (graph: SimpleGraph<T>)
        ensures
            graph@ == edges@.map_values(|list: Vec<T>| list@),
    {
        SimpleGraph { edges }
    }
}

impl<T: Copy + Eq + Hash> WeightedGraph<T> for SimpleGraph<T> {
    open spec fn edges(&self, node: T) -> Seq<(usize, T)> {
        if self@.contains_key(node) {
            unit_edges(self@[node])
        } else {
            Seq::empty()
        }
    }

    open spec fn nodes(&self) -> Set<T> {
        targets(self@)
    }

    open spec fn well_formed(&self) -> bool {
        obeys_key_model::<T>()
    }

    proof fn lemma_nodes(&self) {
        broadcast use vstd::std_specs::hash::group_hash_axioms;

        assert(self@.dom() =~= self.edges@.dom());
        lemma_targets_finite(self@);
        assert forall|n: T, i: int| 0 <= i < self.edges(n).len() implies self.nodes().contains(
            (#[trigger] self.edges(n)[i]).1,
        ) by {
            assert(self@.contains_key(n) && self@[n][i] == self.edges(n)[i].1);
        }
    }

    fn neighbours(&self, node: &T) -> (out: Neighbours<T>) {
        broadcast use vstd::std_specs::hash::group_hash_axioms;

        let mut pairs: Vec<(usize, T)> = Vec::new();
        match self.edges.get(node) {
            Some(list) => {
                let mut i: usize = 0;
                while i < list.len()
                    invariant
                        i <= list.len(),
                        pairs@ == unit_edges(list@.take(i as int)),
                    decreases list.len() - i,
                {
                    pairs.push((1usize, list[i]));
                    i = i + 1;
                    assert(pairs@ =~= unit_edges(list@.take(i as int)));
                }
                assert(list@.take(i as int) =~= list@);
                assert(self@[*node] == list@);
            },
            None => {
                assert(pairs@ =~= Seq::<(usize, T)>::empty());
            },
        }
        Neighbours::new(pairs)
    }
}

/// A graph held as a map from node to its list of `(weight, neighbour)`
/// edges.
pub struct WeightedAdjacency<T> {
    edges: HashMap<T, Vec<(usize, T)>>,
}

impl<T> View for WeightedAdjacency<T> {
    type V = Map<T, Seq<(usize, T)>>;

    closed spec fn view(&self) -> Map<T, Seq<(usize, T)>> {
        self.edges@.map_values(|list: Vec<(usize, T)>| list@)
    }
}

impl<T: Eq + Hash> WeightedAdjacency<T> {
    /// Builds the graph whose edge lists are those of `edges`.
    pub fn new(edges: HashMap<T, Vec<(usize, T)>>) -> (graph: WeightedAdjacency<T>)
        ensures
            graph@ == edges@.map_values(|list: Vec<(usize, T)>| list@),
    {
        WeightedAdjacency { edges }
    }
}

/// The adjacency lists of an edge map: each edge list without its weights.
pub open spec fn neighbour_lists<T>(edges: Map<T, Seq<(usize, T)>>) -> Map<T, Seq<T>> {
    edges.map_values(|list: Seq<(usize, T)>| list.map_values(|edge: (usize, T)| edge.1))
}

impl<T: Copy + Eq + Hash> WeightedGraph<T> for WeightedAdjacency<T> {
    open spec fn edges(&self, node: T) -> Seq<(usize, T)> {
        if self@.contains_key(node) {
            self@[node]
        } else {
            Seq::empty()
        }
    }

    open spec fn nodes(&self) -> Set<T> {
        targets(neighbour_lists(self@))
    }

    open spec fn well_formed(&self) -> bool {
        obeys_key_model::<T>()
    }

    proof fn lemma_nodes(&self) {
        broadcast use vstd::std_specs::hash::group_hash_axioms;

        let lists = neighbour_lists(self@);
        assert(lists.dom() =~= self.edges@.dom());
        lemma_targets_finite(lists);
        assert forall|n: T, i: int| 0 <= i < self.edges(n).len() implies self.nodes().contains(
            (#[trigger] self.edges(n)[i]).1,
        ) by {
            assert(lists.contains_key(n) && lists[n][i] == self.edges(n)[i].1);
        }
    }

    fn neighbours(&self, node: &T) -> (out: Neighbours<T>) {
        broadcast use vstd::std_specs::hash::group_hash_axioms;

        let mut pairs: Vec<(usize, T)> = Vec::new();
        match self.edges.get(node) {
            Some(list) => {
                let mut i: usize = 0;
                while i < list.len()
                    invariant
                        i <= list.len(),
                        pairs@ == list@.take(i as int),
                    decreases list.len() - i,
                {
                    pairs.push(list[i]);
                    i = i + 1;
                    assert(pairs@ =~= list@.take(i as int));
                }
                assert(list@.take(i as int) =~= list@);
                assert(self@[*node] == list@);
            },
            None => {
                assert(pairs@ =~= Seq::<(usize, T)>::empty());
            },
        }
        Neighbours::new(pairs)
    }
}

} // verus!
