use pathfinding::graph::{Neighbours, SimpleGraph, WeightedGraph};
use std::collections::HashMap;

fn demo_graph() -> SimpleGraph<&'static str> {
    let mut map = HashMap::new();
    map.insert("A", vec!["B"]);
    map.insert("B", vec!["A", "C", "D"]);
    map.insert("C", vec!["A"]);
    map.insert("D", vec!["E", "A"]);
    map.insert("E", vec!["B"]);
    SimpleGraph::new(map)
}

#[test]
fn neighbours_hands_out_pairs_last_first() {
    let mut pending = Neighbours::new(vec![(1usize, "x"), (2usize, "y"), (5usize, "z")]);
    assert_eq!(pending.size_hint(), (3, Some(3)));
    assert_eq!(pending.next(), Some((5, "z")));
    assert_eq!(pending.size_hint(), (2, Some(2)));
    assert_eq!(pending.next(), Some((2, "y")));
    assert_eq!(pending.next(), Some((1, "x")));
    assert_eq!(pending.size_hint(), (0, Some(0)));
    assert_eq!(pending.next(), None);
    assert_eq!(pending.next(), None);
}

#[test]
fn simple_graph_gives_every_edge_weight_one() {
    let g = demo_graph();
    let mut pending = g.neighbours(&"B");
    assert_eq!(pending.size_hint(), (3, Some(3)));
    assert_eq!(pending.next(), Some((1, "D")));
    assert_eq!(pending.next(), Some((1, "C")));
    assert_eq!(pending.next(), Some((1, "A")));
    assert_eq!(pending.next(), None);
}

#[test]
fn simple_graph_keeps_repeated_neighbours() {
    let mut map = HashMap::new();
    map.insert(1u32, vec![2u32, 2, 1]);
    let g = SimpleGraph::new(map);
    let mut pending = g.neighbours(&1);
    assert_eq!(pending.next(), Some((1, 1)));
    assert_eq!(pending.next(), Some((1, 2)));
    assert_eq!(pending.next(), Some((1, 2)));
    assert_eq!(pending.next(), None);
}

#[test]
fn unknown_node_has_no_neighbours() {
    let g = demo_graph();
    let mut pending = g.neighbours(&"Q");
    assert_eq!(pending.size_hint(), (0, Some(0)));
    assert_eq!(pending.next(), None);
}

#[test]
fn node_with_empty_list_has_no_neighbours() {
    let mut map = HashMap::new();
    map.insert("Z", Vec::new());
    let g = SimpleGraph::new(map);
    let mut pending = g.neighbours(&"Z");
    assert_eq!(pending.size_hint(), (0, Some(0)));
    assert_eq!(pending.next(), None);
}
