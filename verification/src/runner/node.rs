//! The Node.js runner, which has no implementation yet.

use crate::bundle::Bundle;
use crate::runner::RunOutput;
use crate::spec::Spec;
use crate::witness::{Witness, WitnessResult};
use vstd::prelude::*;

verus! {

/// Why a runner could not do its part.
#[derive(Clone, Debug, PartialEq, Eq)]
pub enum RunnerError {
    /// The runner named here has no implementation.
    NotImplemented(String),
}

/// The runner for JavaScript targets run by Node.js.
pub struct NodeRunner;

impl NodeRunner {
    /// The name that selects this runner in a spec.
    pub fn name(&self) -> (r: &'static str)
        ensures
            r@ == "node"@,
    {
        "node"
    }

    /// Would extract the targets and inject the witnesses under the directory
    /// `dir`; not implemented, so it always fails.
    pub fn prepare(&self, dir: &str, spec: &Spec, bundle: &Bundle, witnesses: &[Witness]) -> (r: Result<(), RunnerError>)
        ensures
            r matches Err(RunnerError::NotImplemented(n)) && n@ == "node"@,
    {
        Err(RunnerError::NotImplemented(String::from_str("node")))
    }

    /// Would run the tests under `dir`; not implemented, so it always fails.
    pub fn invoke(&self, dir: &str, args: &[String]) -> (r: Result<RunOutput, RunnerError>)
        ensures
            r matches Err(RunnerError::NotImplemented(n)) && n@ == "node"@,
    {
        Err(RunnerError::NotImplemented(String::from_str("node")))
    }

    /// Would read the per-witness results out of the output; reads none.
    pub fn parse(&self, output: &RunOutput, witnesses: &[Witness]) -> (r: Vec<WitnessResult>)
        ensures
            r@.len() == 0,
    {
        Vec::new()
    }
}

} // verus!
