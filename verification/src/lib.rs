//! Move decisions for a snake on a square board: a greedy chooser, a
//! shortest-path planner that respects barriers, and a scoring evaluator
//! for boards shared with other snakes.

pub mod evaluator;
pub mod greedy;
pub mod grid;
pub mod pathfinder;
pub mod planner;
pub mod selector;

use vstd::prelude::*;

verus! {

/// Answers 10 to every call, whatever it is handed: a host calls it to see
/// that the library is loaded.
#[allow(unused_variables)]
pub fn func(flag: i32, seq: &[i32], size: i32) -> (r: i32)
    ensures
        r == 10,
{
    10
}

} // verus!
