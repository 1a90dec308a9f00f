//! Entry-time scheduling for two traffic lanes that merge one at a time
//! past a single conflict point.  Vehicles carry earliest-arrival times;
//! consecutive merges must be separated by a same-lane or cross-lane
//! headway.  Three schedulers produce feasible entry times: a greedy
//! first-come-first-served baseline, an exact dynamic program that
//! minimizes the completion time, and a simulated-annealing refiner of
//! the exact solution under a weighted delay/makespan objective.

use vstd::prelude::*;

pub mod dp;
pub mod fcfs;
pub mod laws;
pub mod order;
pub mod rng;
pub mod sa;
pub mod scheduler;
pub mod traffic_gen;

verus! {

/// Largest of two integers; the basic combinator of every headway chain.
pub open spec fn max_i(x: int, y: int) -> int {
    if x >= y { x } else { y }
}

/// Executable maximum on time values.
pub fn time_max(x: u64, y: u64) -> (r: u64)
    ensures
        r == max_i(x as int, y as int),
{
    if x >= y { x } else { y }
}

} // verus!
