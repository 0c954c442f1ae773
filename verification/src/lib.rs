//! Assay: parse a spec and a Repomix bundle, summarise witness results, and
//! emit a deterministic, fingerprinted report.

pub mod text;
pub mod text_map;
pub mod digest;
pub mod bundle;
pub mod decimal;
pub mod json;
pub mod witness;
pub mod spec;
pub mod report;
pub mod runner;
pub mod verify;
pub mod oracle;
pub mod orchestration;
