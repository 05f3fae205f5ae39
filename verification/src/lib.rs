//! Exact shortest routes by exhaustive search.
//!
//! A route leaves a fixed start, visits every waypoint once and arrives at a
//! fixed end. The search scores every order of the waypoints with a distance
//! function supplied by the caller and keeps the shortest. It is meant for a
//! handful of waypoints: the number of orders grows factorially.
//!
//! The crate also offers a memoising evaluator that remembers the results of
//! a function, so that a costly distance is computed once per pair.

pub mod arrangement;
pub mod memo;
pub mod numbers;
pub mod order;
pub mod route;
pub mod search;

pub use memo::{cached_fn, CachedFn};
pub use route::{pairwise, total_distance_of_route};
pub use numbers::hand_rolled_traveling_salesman;
pub use search::traveling_salesman;
