//! Specs: the text files that name a target, a runner and the witnesses
//! the code must satisfy.

pub mod ast;
pub mod parser;
pub mod canonical;

pub use ast::{Fixture, FixtureView, Objective, ObjectiveKind, ObjectiveView, Spec, SpecView};
