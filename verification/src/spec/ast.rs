//! The parsed form of a spec.

use crate::decimal::Decimal;
use crate::witness::{Witness, WitnessView};
use vstd::prelude::*;

verus! {

/// A parsed spec.
#[derive(Clone, Debug)]
pub struct Spec {
    pub name: String,
    pub targets: Vec<String>,
    pub runner: String,
    pub runner_args: Vec<String>,
    pub lang: String,
    pub fixtures: Vec<Fixture>,
    pub witnesses: Vec<Witness>,
    pub objectives: Vec<Objective>,
}

/// A named block of code shared by the witnesses.
#[derive(Clone, Debug)]
pub struct Fixture {
    pub name: String,
    pub body: String,
}

/// A measured goal: a value to minimise or maximise, with an optional target.
#[derive(Clone, Debug)]
pub struct Objective {
    pub kind: ObjectiveKind,
    pub name: String,
    pub target: Option<Decimal>,
}

/// The direction of an objective.
#[derive(Clone, Copy, Debug, PartialEq, Eq, Structural)]
pub enum ObjectiveKind {
    Minimise,
    Maximise,
}

pub struct FixtureView {
    pub name: Seq<char>,
    pub body: Seq<char>,
}

pub struct ObjectiveView {
    pub kind: ObjectiveKind,
    pub name: Seq<char>,
    pub target: Option<Decimal>,
}

/// A spec with its text as character sequences.
pub struct SpecView {
    pub name: Seq<char>,
    pub targets: Seq<Seq<char>>,
    pub runner: Seq<char>,
    pub runner_args: Seq<Seq<char>>,
    pub lang: Seq<char>,
    pub fixtures: Seq<FixtureView>,
    pub witnesses: Seq<WitnessView>,
    pub objectives: Seq<ObjectiveView>,
}

impl View for Fixture {
    type V = FixtureView;

    open spec fn view(&self) -> FixtureView {
        FixtureView { name: self.name@, body: self.body@ }
    }
}

impl View for Objective {
    type V = ObjectiveView;

    open spec fn view(&self) -> ObjectiveView {
        ObjectiveView { kind: self.kind, name: self.name@, target: self.target }
    }
}

/// The views of a vector of strings.
pub open spec fn strings_view(v: Seq<String>) -> Seq<Seq<char>> {
    Seq::new(v.len(), |i: int| v[i]@)
}

impl View for Spec {
    type V = SpecView;

    open spec fn view(&self) -> SpecView {
        SpecView {
            name: self.name@,
            targets: strings_view(self.targets@),
            runner: self.runner@,
            runner_args: strings_view(self.runner_args@),
            lang: self.lang@,
            fixtures: Seq::new(self.fixtures@.len(), |i: int| self.fixtures@[i]@),
            witnesses: Seq::new(self.witnesses@.len(), |i: int| self.witnesses@[i]@),
            objectives: Seq::new(self.objectives@.len(), |i: int| self.objectives@[i]@),
        }
    }
}

} // verus!
