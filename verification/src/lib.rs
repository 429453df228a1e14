//! A solver library for the capacitated vehicle routing problem.
//!
//! Given a depot, a set of customers with demands, and a fleet of
//! identical-capacity vehicles, the library constructs an initial tour with a
//! Christofides-style heuristic (minimum spanning tree, minimum-weight
//! matching on odd-degree vertices, Eulerian shortcut), partitions the tour
//! into capacity-feasible routes, and improves the plan with an iterated
//! local search under a wall-clock budget.
//!
//! Geometry is modelled with fixed-point integer coordinates (hundredths of a
//! unit); every distance is the Euclidean distance in that unit, rounded up
//! by a verified integer square root, so the triangle inequality survives
//! the rounding.

pub mod client;
pub mod unordered_pair;
pub mod geometry;
pub mod graph;
pub mod edge_queue;
pub mod christofides;
pub mod errors;
pub mod problem;
pub mod rng;
pub mod clock;
pub mod solution;
pub mod ails;
pub mod routing_plan;
pub mod matching;
