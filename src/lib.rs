//! Grid topology and connectivity maintenance for a hexagonal tower-defense
//! map: hex coordinates, the grid store, the distance field from the goal,
//! the constructibility analyzer that keeps the goal reachable, the mutation
//! protocol that ties them together, and enemy pathing over the result.

pub mod hex;
pub mod model;
pub mod grid;
pub mod distance;
pub mod constructibility;
pub mod separation;
pub mod search;
pub mod laws;
pub mod pathing;
pub mod window;
