//! Runners: what one invocation of a language's test runner produced.

pub mod node;

use crate::witness::WitnessResult;
use vstd::prelude::*;

verus! {

/// The captured outcome of invoking a test runner.
#[derive(Debug)]
pub struct RunOutput {
    pub exit_code: i32,
    pub stdout: String,
    pub stderr: String,
    pub duration_ms: u64,
    pub per_witness: Vec<WitnessResult>,
}

} // verus!
