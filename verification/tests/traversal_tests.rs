use pathfinding::breadth_first_search;
use pathfinding::graph::SimpleGraph;
use std::collections::HashMap;

fn demo_graph() -> SimpleGraph<&'static str> {
    let mut map = HashMap::new();
    map.insert("A", vec!["B"]);
    map.insert("B", vec!["A", "C", "D"]);
    map.insert("C", vec!["A"]);
    map.insert("D", vec!["E", "A"]);
    map.insert("E", vec!["B"]);
    SimpleGraph::new(map)
}

fn undirected_graph() -> SimpleGraph<&'static str> {
    let mut map = HashMap::new();
    map.insert("A", vec!["B", "D"]);
    map.insert("B", vec!["A", "C", "D"]);
    map.insert("C", vec!["B"]);
    map.insert("D", vec!["B", "E", "A"]);
    map.insert("E", vec!["D"]);
    SimpleGraph::new(map)
}

fn numbered_graph() -> (SimpleGraph<u32>, Vec<Vec<u32>>) {
    let lists: Vec<Vec<u32>> = vec![
        vec![1, 2],
        vec![3],
        vec![3, 0],
        vec![4, 4, 3],
        vec![],
        vec![0, 6],
        vec![5],
    ];
    let mut map = HashMap::new();
    for (node, list) in lists.iter().enumerate() {
        map.insert(node as u32, list.clone());
    }
    (SimpleGraph::new(map), lists)
}

fn reaches(lists: &Vec<Vec<u32>>, from: u32) -> Vec<bool> {
    let mut reached = vec![false; lists.len()];
    reached[from as usize] = true;
    let mut changed = true;
    while changed {
        changed = false;
        for node in 0..lists.len() {
            if reached[node] {
                for next in &lists[node] {
                    if !reached[*next as usize] {
                        reached[*next as usize] = true;
                        changed = true;
                    }
                }
            }
        }
    }
    reached
}

#[test]
fn traversal_of_demo_graph_visits_in_stack_order() {
    let g = demo_graph();
    let report = breadth_first_search(&g, "A", None);
    assert_eq!(report.visited, vec!["A", "B", "C", "D", "E"]);
    assert!(!report.goal_reached);
}

#[test]
fn traversal_stops_at_goal() {
    let g = demo_graph();
    let report = breadth_first_search(&g, "A", Some("D"));
    assert_eq!(report.visited, vec!["A", "B", "C", "D"]);
    assert!(report.goal_reached);
}

#[test]
fn traversal_expands_most_recently_marked_first() {
    let mut map = HashMap::new();
    map.insert(1, vec![2, 3]);
    map.insert(2, vec![4]);
    map.insert(3, vec![5]);
    let g = SimpleGraph::new(map);
    let report = breadth_first_search(&g, 1, None);
    assert_eq!(report.visited, vec![1, 2, 4, 3, 5]);
}

#[test]
fn traversal_of_undirected_graph_visits_all_five() {
    let g = undirected_graph();
    let report = breadth_first_search(&g, "A", None);
    assert_eq!(report.visited, vec!["A", "B", "C", "D", "E"]);
    let mut sorted = report.visited.clone();
    sorted.sort();
    sorted.dedup();
    assert_eq!(sorted, vec!["A", "B", "C", "D", "E"]);
    assert!(!report.goal_reached);
}

#[test]
fn traversal_with_start_as_goal_visits_only_start() {
    let g = undirected_graph();
    let report = breadth_first_search(&g, "A", Some("A"));
    assert_eq!(report.visited, vec!["A"]);
    assert!(report.goal_reached);
}

#[test]
fn traversal_with_unreachable_goal_is_exhaustive() {
    let mut map = HashMap::new();
    map.insert("A", vec!["B"]);
    map.insert("B", vec!["A"]);
    map.insert("Z", vec![]);
    let g = SimpleGraph::new(map);
    let report = breadth_first_search(&g, "A", Some("Z"));
    assert_eq!(report.visited, vec!["A", "B"]);
    assert!(!report.goal_reached);
}

#[test]
fn traversal_of_empty_graph_visits_start() {
    let g: SimpleGraph<u8> = SimpleGraph::new(HashMap::new());
    let report = breadth_first_search(&g, 9, None);
    assert_eq!(report.visited, vec![9]);
    assert!(!report.goal_reached);
    let report = breadth_first_search(&g, 9, Some(3));
    assert_eq!(report.visited, vec![9]);
    assert!(!report.goal_reached);
}

#[test]
fn traversal_survives_self_loops_and_cycles() {
    let mut map = HashMap::new();
    map.insert(1, vec![1, 2]);
    map.insert(2, vec![2, 1, 2]);
    let g = SimpleGraph::new(map);
    let report = breadth_first_search(&g, 1, None);
    assert_eq!(report.visited, vec![1, 2]);
    assert!(!report.goal_reached);
}

#[test]
fn traversal_without_goal_visits_each_reachable_node_once() {
    let (g, lists) = numbered_graph();
    for start in 0..lists.len() as u32 {
        let report = breadth_first_search(&g, start, None);
        assert!(!report.goal_reached);
        assert_eq!(report.visited[0], start);
        let reached = reaches(&lists, start);
        let mut count = vec![0usize; lists.len()];
        for node in &report.visited {
            count[*node as usize] += 1;
        }
        for node in 0..lists.len() {
            assert_eq!(count[node], if reached[node] { 1 } else { 0 });
        }
    }
}

#[test]
fn traversal_reaches_goal_exactly_when_reachable() {
    let (g, lists) = numbered_graph();
    for start in 0..lists.len() as u32 {
        let reached = reaches(&lists, start);
        let all = reached.iter().filter(|r| **r).count();
        for goal in 0..lists.len() as u32 {
            let report = breadth_first_search(&g, start, Some(goal));
            assert_eq!(report.goal_reached, reached[goal as usize]);
            assert!(report.visited.len() <= all);
            for node in &report.visited {
                assert!(reached[*node as usize]);
            }
            if report.goal_reached {
                assert_eq!(report.visited.last(), Some(&goal));
                assert_eq!(report.visited.iter().filter(|n| **n == goal).count(), 1);
            } else {
                assert_eq!(report.visited.len(), all);
            }
        }
    }
}

#[test]
fn traversal_is_repeatable() {
    let g = demo_graph();
    let first = breadth_first_search(&g, "B", Some("E"));
    let second = breadth_first_search(&g, "B", Some("E"));
    assert_eq!(first.visited, second.visited);
    assert_eq!(first.goal_reached, second.goal_reached);
    assert_eq!(first.visited, vec!["B", "A", "C", "D", "E"]);
}
