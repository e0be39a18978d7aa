//! Min-max vehicle routing by simulated annealing.
//!
//! Routes are sequences of points that start and end at the depot; a solution
//! holds one route per vehicle. The search minimises the cost of the longest
//! route. Distances are non-negative integers in a unit chosen by the caller.
pub mod point;
pub mod solution;
pub mod cost;
pub mod random;
pub mod builder;
pub mod operators;
pub mod annealing;
