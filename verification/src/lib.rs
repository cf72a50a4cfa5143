//! Turns a binary maze raster into a weighted graph of traversable cells
//! and finds a path between two boundary cells with interchangeable search
//! strategies, reporting the path's cost.

pub mod coord;
pub mod graph;
pub mod lookup;
pub mod pathfinding;

pub use coord::Adjacent;
pub use coord::Coord;
pub use graph::Graph;
pub use graph::Vertex;
pub use pathfinding::calculate_cost;
pub use pathfinding::solve_graph;
pub use pathfinding::PathfindingAlgorithm;
