//! Shortest paths over a weighted directed graph whose nodes are named by
//! strings.
//!
//! A [`Graph`] is grown edge by edge with [`Graph::add`]. A query,
//! [`Graph::shortest_path`], returns a [`ShortestPath`]: the cheapest way from
//! one node to another as alternating node visits and edge traversals,
//! together with its total cost.

pub mod graph;
pub mod laws;
pub mod model;
pub mod route;
pub mod search;
pub mod text;

pub use graph::{new_graph, Edge, Graph, GraphIndex, Node};
pub use model::{EdgeView, NodeView};
pub use route::{RouteView, ShortestPath, WayKind, WayView};
