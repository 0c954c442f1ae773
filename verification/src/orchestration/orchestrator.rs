//! The loop driver's settings.

use vstd::prelude::*;

verus! {

/// How long the loop may run, and how many unchanged rounds end it.
pub struct Orchestrator {
    pub max_iterations: usize,
    pub convergence_k: usize,
}

impl Orchestrator {
    /// At most 50 rounds; three rounds without change count as converged.
    pub fn new() -> (o: Orchestrator)
        ensures
            o.max_iterations == 50,
            o.convergence_k == 3,
    {
        Orchestrator { max_iterations: 50, convergence_k: 3 }
    }

    /// Runs the loop. No round is driven yet, so it succeeds at once.
    pub fn run(&self) -> (r: Result<(), String>)
        ensures
            r is Ok,
    {
        Ok(())
    }
}

} // verus!
