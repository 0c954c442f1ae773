//! The outcome of running one witness.

use vstd::prelude::*;

verus! {

/// What a runner reports for one witness.
#[derive(Clone, Copy, Debug, PartialEq, Eq, Structural)]
pub enum Status {
    Pass,
    Fail,
    Skip,
    Error,
}

/// One witness's result as a runner reports it.
#[derive(Clone, Debug)]
pub struct WitnessResult {
    pub name: String,
    pub status: Status,
    /// Stack trace, assertion message or similar.
    pub detail: Option<String>,
    pub duration_ms: Option<u64>,
}

} // verus!
