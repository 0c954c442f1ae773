//! A directive: one intent for one change, and what it should achieve.

use crate::decimal::Decimal;
use vstd::prelude::*;

verus! {

/// What the oracle tells the implementer to do next.
#[derive(Clone, Debug)]
pub struct Directive {
    pub id: String,
    pub target: Vec<String>,
    pub intent: String,
    pub constraints: Vec<String>,
    pub rationale: String,
    pub priority: String,
    pub expected_outcome: ExpectedOutcome,
}

/// The witnesses a directive should flip, and the objective it aims for.
#[derive(Clone, Debug)]
pub struct ExpectedOutcome {
    pub witnesses_that_should_flip: Vec<String>,
    /// The objective score aimed for, to six decimal places.
    pub objective_target: Decimal,
}

} // verus!
