//! Witnesses: named claims that a spec makes about the code.

pub mod result;

pub use result::{Status, WitnessResult};

use crate::decimal::Decimal;
use vstd::prelude::*;

verus! {

/// Whether a witness gates satisfaction or only scores the objective.
#[derive(Clone, Copy, Debug, PartialEq, Eq, Structural)]
pub enum Kind {
    /// Must pass for the spec to be satisfied.
    Hard,
    /// Contributes its weight to the objective.
    Soft(Decimal),
}

/// A witness: a name, a kind and a body of code in the spec's language.
#[derive(Clone, Debug)]
pub struct Witness {
    pub name: String,
    pub kind: Kind,
    pub body: String,
}

/// A witness with its text as character sequences.
pub struct WitnessView {
    pub name: Seq<char>,
    pub kind: Kind,
    pub body: Seq<char>,
}

impl View for Witness {
    type V = WitnessView;

    open spec fn view(&self) -> WitnessView {
        WitnessView { name: self.name@, kind: self.kind, body: self.body@ }
    }
}

} // verus!
