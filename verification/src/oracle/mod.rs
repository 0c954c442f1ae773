//! The oracle's output: a directive for the implementer.

pub mod directive;
