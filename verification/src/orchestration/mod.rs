//! The loop that alternates verification, oracle and implementer.

pub mod orchestrator;
