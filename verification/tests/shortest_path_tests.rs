use pathfinding::dijkstra_search;
use pathfinding::graph::SimpleGraph;
use std::collections::HashMap;

fn demo_graph() -> SimpleGraph<&'static str> {
    let mut map = HashMap::new();
    map.insert("A", vec!["B"]);
    map.insert("B", vec!["A", "C", "D"]);
    map.insert("C", vec!["A"]);
    map.insert("D", vec!["E", "A"]);
    map.insert("E", vec!["B"]);
    SimpleGraph::new(map)
}

fn undirected_graph() -> SimpleGraph<&'static str> {
    let mut map = HashMap::new();
    map.insert("A", vec!["B", "D"]);
    map.insert("B", vec!["A", "C", "D"]);
    map.insert("C", vec!["B"]);
    map.insert("D", vec!["B", "E", "A"]);
    map.insert("E", vec!["D"]);
    SimpleGraph::new(map)
}

fn numbered_graph() -> (SimpleGraph<u32>, Vec<Vec<u32>>) {
    let lists: Vec<Vec<u32>> = vec![
        vec![1, 2],
        vec![3],
        vec![3, 0],
        vec![4, 4, 3],
        vec![],
        vec![0, 6],
        vec![5],
    ];
    let mut map = HashMap::new();
    for (node, list) in lists.iter().enumerate() {
        map.insert(node as u32, list.clone());
    }
    (SimpleGraph::new(map), lists)
}

fn hops(lists: &Vec<Vec<u32>>, from: u32) -> Vec<Option<usize>> {
    let mut best: Vec<Option<usize>> = vec![None; lists.len()];
    best[from as usize] = Some(0);
    for _ in 0..lists.len() {
        for node in 0..lists.len() {
            if let Some(cost) = best[node] {
                for next in &lists[node] {
                    let through = cost + 1;
                    let known = best[*next as usize];
                    if known.map_or(true, |k| through < k) {
                        best[*next as usize] = Some(through);
                    }
                }
            }
        }
    }
    best
}

#[test]
fn search_of_undirected_graph_takes_direct_edge() {
    let g = undirected_graph();
    let found = dijkstra_search(&g, "A", "D");
    assert!(found.goal_reached);
    assert_eq!(found.cost_so_far.get("D"), Some(&1));
    assert_eq!(found.came_from.get("D"), Some(&"A"));
    assert_eq!(found.visited, vec!["A", "D"]);
    assert_eq!(found.cost_so_far.get("A"), Some(&0));
    assert_eq!(found.cost_so_far.get("B"), Some(&1));
    assert_eq!(found.cost_so_far.len(), 3);
}

#[test]
fn search_of_demo_graph_records_costs_and_predecessors() {
    let g = demo_graph();
    let found = dijkstra_search(&g, "A", "D");
    assert!(found.goal_reached);
    assert_eq!(found.visited, vec!["A", "B", "D"]);
    let mut costs: Vec<(&str, usize)> = found.cost_so_far.iter().map(|(n, c)| (*n, *c)).collect();
    costs.sort();
    assert_eq!(costs, vec![("A", 0), ("B", 1), ("C", 2), ("D", 2)]);
    let mut links: Vec<(&str, &str)> = found.came_from.iter().map(|(n, p)| (*n, *p)).collect();
    links.sort();
    assert_eq!(links, vec![("A", "A"), ("B", "A"), ("C", "B"), ("D", "B")]);
}

#[test]
fn search_with_start_as_goal_visits_only_start() {
    let g = undirected_graph();
    let found = dijkstra_search(&g, "A", "A");
    assert!(found.goal_reached);
    assert_eq!(found.visited, vec!["A"]);
    assert_eq!(found.cost_so_far.get("A"), Some(&0));
    assert_eq!(found.came_from.get("A"), Some(&"A"));
    assert_eq!(found.cost_so_far.len(), 1);
    assert_eq!(found.came_from.len(), 1);
}

#[test]
fn search_for_isolated_goal_exhausts_frontier() {
    let mut map = HashMap::new();
    map.insert("A", vec!["B"]);
    map.insert("B", vec!["A"]);
    map.insert("Z", vec![]);
    let g = SimpleGraph::new(map);
    let found = dijkstra_search(&g, "A", "Z");
    assert!(!found.goal_reached);
    assert_eq!(found.visited, vec!["A", "B"]);
    assert!(!found.cost_so_far.contains_key("Z"));
    assert!(!found.came_from.contains_key("Z"));
    assert_eq!(found.cost_so_far.get("B"), Some(&1));
}

#[test]
fn search_of_empty_graph_visits_start() {
    let g: SimpleGraph<u8> = SimpleGraph::new(HashMap::new());
    let found = dijkstra_search(&g, 4, 5);
    assert!(!found.goal_reached);
    assert_eq!(found.visited, vec![4]);
    assert_eq!(found.cost_so_far.get(&4), Some(&0));
    assert_eq!(found.cost_so_far.len(), 1);
}

#[test]
fn search_adds_one_per_edge_along_a_line() {
    let mut map = HashMap::new();
    map.insert(1, vec![2]);
    map.insert(2, vec![3]);
    map.insert(3, vec![4]);
    let g = SimpleGraph::new(map);
    let found = dijkstra_search(&g, 1, 4);
    assert!(found.goal_reached);
    assert_eq!(found.visited, vec![1, 2, 3, 4]);
    assert_eq!(found.cost_so_far.get(&1), Some(&0));
    assert_eq!(found.cost_so_far.get(&2), Some(&1));
    assert_eq!(found.cost_so_far.get(&3), Some(&2));
    assert_eq!(found.cost_so_far.get(&4), Some(&3));
    assert_eq!(found.came_from.get(&4), Some(&3));
    assert_eq!(found.came_from.get(&3), Some(&2));
    assert_eq!(found.came_from.get(&2), Some(&1));
    assert_eq!(found.came_from.get(&1), Some(&1));
}

#[test]
fn search_takes_latest_predecessor_on_a_tie_and_drops_stale_entry() {
    let mut map = HashMap::new();
    map.insert("S", vec!["A", "B"]);
    map.insert("A", vec!["T"]);
    map.insert("B", vec!["T"]);
    let g = SimpleGraph::new(map);
    let found = dijkstra_search(&g, "S", "nowhere");
    assert!(!found.goal_reached);
    assert_eq!(found.visited, vec!["S", "B", "A", "T"]);
    assert_eq!(found.cost_so_far.get("T"), Some(&2));
    assert_eq!(found.came_from.get("T"), Some(&"A"));
    assert_eq!(found.came_from.get("A"), Some(&"S"));
    assert_eq!(found.came_from.get("B"), Some(&"S"));
}

#[test]
fn search_keeps_predecessor_of_visited_node() {
    let mut map = HashMap::new();
    map.insert(1, vec![1, 2]);
    map.insert(2, vec![1, 2]);
    let g = SimpleGraph::new(map);
    let found = dijkstra_search(&g, 1, 9);
    assert_eq!(found.visited, vec![1, 2]);
    assert_eq!(found.came_from.get(&1), Some(&1));
    assert_eq!(found.came_from.get(&2), Some(&1));
    assert_eq!(found.cost_so_far.get(&1), Some(&0));
    assert_eq!(found.cost_so_far.get(&2), Some(&1));
}

#[test]
fn search_cost_is_least_number_of_edges() {
    let (g, lists) = numbered_graph();
    for start in 0..lists.len() as u32 {
        let best = hops(&lists, start);
        for goal in 0..lists.len() as u32 {
            let found = dijkstra_search(&g, start, goal);
            match best[goal as usize] {
                Some(cost) => {
                    assert!(found.goal_reached);
                    assert_eq!(found.cost_so_far.get(&goal), Some(&cost));
                    assert_eq!(found.visited.last(), Some(&goal));
                },
                None => {
                    assert!(!found.goal_reached);
                    assert!(!found.cost_so_far.contains_key(&goal));
                },
            }
            for node in &found.visited {
                assert_eq!(found.cost_so_far.get(node).copied(), best[*node as usize]);
            }
        }
    }
}

#[test]
fn search_predecessors_lead_back_to_start() {
    let (g, lists) = numbered_graph();
    for start in 0..lists.len() as u32 {
        for goal in 0..lists.len() as u32 {
            let found = dijkstra_search(&g, start, goal);
            assert_eq!(found.cost_so_far.len(), found.came_from.len());
            for (node, cost) in found.cost_so_far.iter() {
                let mut at = *node;
                let mut sum = 0usize;
                while at != start {
                    let before = found.came_from[&at];
                    assert!(lists[before as usize].contains(&at));
                    sum += 1;
                    assert!(sum <= lists.len());
                    at = before;
                }
                assert_eq!(sum, *cost);
            }
        }
    }
}

#[test]
fn search_visits_in_order_of_cost_and_never_twice() {
    let (g, lists) = numbered_graph();
    for start in 0..lists.len() as u32 {
        let found = dijkstra_search(&g, start, 100);
        assert!(!found.goal_reached);
        let costs: Vec<usize> = found.visited.iter().map(|n| found.cost_so_far[n]).collect();
        for pair in costs.windows(2) {
            assert!(pair[0] <= pair[1]);
        }
        let mut seen = found.visited.clone();
        seen.sort();
        seen.dedup();
        assert_eq!(seen.len(), found.visited.len());
        assert_eq!(found.visited.len(), found.cost_so_far.len());
    }
}

#[test]
fn search_is_repeatable() {
    let g = demo_graph();
    let first = dijkstra_search(&g, "C", "E");
    let second = dijkstra_search(&g, "C", "E");
    assert_eq!(first.cost_so_far, second.cost_so_far);
    assert_eq!(first.came_from, second.came_from);
    assert_eq!(first.visited, second.visited);
    assert_eq!(first.goal_reached, second.goal_reached);
    assert!(first.goal_reached);
    assert_eq!(first.cost_so_far.get("E"), Some(&4));
}
