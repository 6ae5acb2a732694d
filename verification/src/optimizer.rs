//! Deciding how and how long to optimize.

use crate::binary32::Binary32;
use vstd::prelude::*;

verus! {

/// What decides how and how long modularity is optimized.
pub trait ModularityOptimizer {
    /// Whether to stop, given the modularity before and after a round of moves.
    fn is_converged(&mut self, previous: Binary32, current: Binary32) -> bool;

    /// The node count up to which moves are made one by one.
    fn get_parallel_threshold(&self) -> usize;
}

/// An optimizer with a fixed scale and a fixed tolerance.
#[derive(Clone, Copy, Debug)]
pub struct TrivialModularityOptimizer {
    /// If the node count exceeds this value, moves are looked for in parallel.
    pub parallel_scale: usize,
    /// If the modularity changes by less than this value, the optimization has
    /// converged.
    pub tol: Binary32,
}

impl ModularityOptimizer for TrivialModularityOptimizer {
    fn is_converged(&mut self, previous: Binary32, current: Binary32) -> (converged: bool)
        ensures
            *final(self) == *old(self),
            converged == current.subtracted(previous).below(old(self).tol),
    {
        current.minus(previous).less_than(self.tol)
    }

    fn get_parallel_threshold(&self) -> (threshold: usize)
        ensures
            threshold == self.parallel_scale,
    {
        self.parallel_scale
    }
}

} // verus!
