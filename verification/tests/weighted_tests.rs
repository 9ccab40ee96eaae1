use pathfinding::graph::{WeightedAdjacency, WeightedGraph};
use pathfinding::{breadth_first_search, dijkstra_search};
use std::collections::HashMap;

fn detour_graph() -> WeightedAdjacency<&'static str> {
    let mut map = HashMap::new();
    map.insert("A", vec![(10, "B"), (1, "C")]);
    map.insert("C", vec![(2, "B")]);
    map.insert("B", vec![(1, "D")]);
    WeightedAdjacency::new(map)
}

fn mixed_edges() -> Vec<Vec<(usize, u32)>> {
    vec![
        vec![(4, 1), (1, 2), (9, 1)],
        vec![(0, 3), (7, 4)],
        vec![(2, 1), (8, 3), (0, 2)],
        vec![(0, 1), (3, 4)],
        vec![],
        vec![(1, 0)],
    ]
}

fn mixed_graph() -> WeightedAdjacency<u32> {
    let mut map = HashMap::new();
    for (node, list) in mixed_edges().into_iter().enumerate() {
        map.insert(node as u32, list);
    }
    WeightedAdjacency::new(map)
}

fn least_costs(lists: &Vec<Vec<(usize, u32)>>, from: u32) -> Vec<Option<usize>> {
    let mut best: Vec<Option<usize>> = vec![None; lists.len()];
    best[from as usize] = Some(0);
    for _ in 0..lists.len() {
        for node in 0..lists.len() {
            if let Some(cost) = best[node] {
                for (weight, next) in &lists[node] {
                    let through = cost + *weight;
                    if best[*next as usize].map_or(true, |k| through < k) {
                        best[*next as usize] = Some(through);
                    }
                }
            }
        }
    }
    best
}

#[test]
fn weighted_neighbours_keep_their_weights() {
    let g = detour_graph();
    let mut pending = g.neighbours(&"A");
    assert_eq!(pending.size_hint(), (2, Some(2)));
    assert_eq!(pending.next(), Some((1, "C")));
    assert_eq!(pending.next(), Some((10, "B")));
    assert_eq!(pending.next(), None);
    let mut pending = g.neighbours(&"D");
    assert_eq!(pending.next(), None);
}

#[test]
fn weighted_search_prefers_cheaper_detour() {
    let g = detour_graph();
    let found = dijkstra_search(&g, "A", "D");
    assert!(found.goal_reached);
    assert_eq!(found.visited, vec!["A", "C", "B", "D"]);
    assert_eq!(found.cost_so_far.get("A"), Some(&0));
    assert_eq!(found.cost_so_far.get("C"), Some(&1));
    assert_eq!(found.cost_so_far.get("B"), Some(&3));
    assert_eq!(found.cost_so_far.get("D"), Some(&4));
    assert_eq!(found.came_from.get("D"), Some(&"B"));
    assert_eq!(found.came_from.get("B"), Some(&"C"));
    assert_eq!(found.came_from.get("C"), Some(&"A"));
}

#[test]
fn weighted_search_drops_superseded_entry() {
    let g = detour_graph();
    let found = dijkstra_search(&g, "A", "nowhere");
    assert!(!found.goal_reached);
    assert_eq!(found.visited, vec!["A", "C", "B", "D"]);
    assert_eq!(found.cost_so_far.get("B"), Some(&3));
    assert_eq!(found.cost_so_far.len(), 4);
}

#[test]
fn weighted_search_never_records_cost_beyond_usize() {
    let mut map = HashMap::new();
    map.insert("A", vec![(usize::MAX, "B"), (5, "C")]);
    map.insert("B", vec![(1, "D")]);
    map.insert("C", vec![(usize::MAX, "D")]);
    let g = WeightedAdjacency::new(map);
    let found = dijkstra_search(&g, "A", "D");
    assert!(!found.goal_reached);
    assert_eq!(found.visited, vec!["A", "C", "B"]);
    assert_eq!(found.cost_so_far.get("B"), Some(&usize::MAX));
    assert_eq!(found.cost_so_far.get("C"), Some(&5));
    assert!(!found.cost_so_far.contains_key("D"));
    assert!(!found.came_from.contains_key("D"));
}

#[test]
fn weighted_search_records_cost_of_exactly_usize_max() {
    let mut map = HashMap::new();
    map.insert(1, vec![(usize::MAX - 1, 2)]);
    map.insert(2, vec![(1, 3), (2, 4)]);
    let g = WeightedAdjacency::new(map);
    let found = dijkstra_search(&g, 1, 3);
    assert!(found.goal_reached);
    assert_eq!(found.cost_so_far.get(&3), Some(&usize::MAX));
    assert!(!found.cost_so_far.contains_key(&4));
    assert_eq!(found.visited, vec![1, 2, 3]);
}

#[test]
fn weighted_search_ends_on_free_cycle() {
    let mut map = HashMap::new();
    map.insert("A", vec![(0, "B")]);
    map.insert("B", vec![(0, "A"), (0, "C")]);
    map.insert("C", vec![(0, "A")]);
    let g = WeightedAdjacency::new(map);
    let found = dijkstra_search(&g, "A", "nowhere");
    assert!(!found.goal_reached);
    assert_eq!(found.visited, vec!["A", "B", "C"]);
    assert_eq!(found.cost_so_far.get("A"), Some(&0));
    assert_eq!(found.cost_so_far.get("B"), Some(&0));
    assert_eq!(found.cost_so_far.get("C"), Some(&0));
    assert_eq!(found.came_from.get("A"), Some(&"A"));
    assert_eq!(found.came_from.get("B"), Some(&"A"));
    assert_eq!(found.came_from.get("C"), Some(&"B"));
}

#[test]
fn weighted_search_takes_cheapest_of_parallel_edges() {
    let mut map = HashMap::new();
    map.insert(1, vec![(5, 2), (3, 2), (4, 2)]);
    let g = WeightedAdjacency::new(map);
    let found = dijkstra_search(&g, 1, 2);
    assert!(found.goal_reached);
    assert_eq!(found.cost_so_far.get(&2), Some(&3));
    assert_eq!(found.visited, vec![1, 2]);
}

#[test]
fn weighted_search_cost_is_least_cost() {
    let g = mixed_graph();
    let lists = mixed_edges();
    for start in 0..lists.len() as u32 {
        let best = least_costs(&lists, start);
        for goal in 0..lists.len() as u32 {
            let found = dijkstra_search(&g, start, goal);
            match best[goal as usize] {
                Some(cost) => {
                    assert!(found.goal_reached);
                    assert_eq!(found.cost_so_far.get(&goal), Some(&cost));
                    assert_eq!(found.visited.last(), Some(&goal));
                },
                None => {
                    assert!(!found.goal_reached);
                    assert!(!found.cost_so_far.contains_key(&goal));
                },
            }
            for node in &found.visited {
                assert_eq!(found.cost_so_far.get(node).copied(), best[*node as usize]);
            }
        }
    }
}

#[test]
fn weighted_predecessors_add_up_to_cost() {
    let g = mixed_graph();
    let lists = mixed_edges();
    for start in 0..lists.len() as u32 {
        let found = dijkstra_search(&g, start, 100);
        assert!(!found.goal_reached);
        for (node, cost) in found.cost_so_far.iter() {
            let mut at = *node;
            let mut left = *cost;
            let mut steps = 0;
            while at != start {
                let before = found.came_from[&at];
                let step = found.cost_so_far[&at] - found.cost_so_far[&before];
                assert!(lists[before as usize].contains(&(step, at)));
                assert!(left >= step);
                left -= step;
                at = before;
                steps += 1;
                assert!(steps <= lists.len());
            }
            assert_eq!(left, 0);
        }
        assert_eq!(found.came_from.get(&start), Some(&start));
    }
}

#[test]
fn weighted_traversal_ignores_weights() {
    let g = detour_graph();
    let report = breadth_first_search(&g, "A", None);
    assert_eq!(report.visited, vec!["A", "B", "D", "C"]);
    assert!(!report.goal_reached);
    let report = breadth_first_search(&g, "A", Some("B"));
    assert_eq!(report.visited, vec!["A", "B"]);
    assert!(report.goal_reached);
}
