//! Graph search over an abstract weighted graph: an exhaustive stack-driven
//! traversal and a uniform-cost shortest-path search, both proved against a
//! mathematical model of walks, reachability and distance.

pub mod graph;
pub mod optimality;
pub mod priority;
pub mod sequences;
pub mod shortest_path;
pub mod traversal;
pub mod walk;

pub use shortest_path::dijkstra_search;
pub use traversal::breadth_first_search;
