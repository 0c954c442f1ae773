//! The decisions of `verify` that come before any file is written: reading
//! the spec and the bundle, and choosing the runner the spec names.

use crate::bundle::repomix::{file_entries, raw_key, summary_text, BundleError, BundleErrorView};
use crate::bundle::{files_fingerprint, Bundle};
use crate::text_map::{keys_sorted, lookup};
use crate::spec::parser::{spec_of_text, SpecError, SpecErrorView};
use crate::spec::{Spec, SpecView};
use crate::text::{chars_of, compare, Order};
use vstd::prelude::*;

verus! {

/// The test runners a spec can name.
#[derive(Clone, Copy, Debug, PartialEq, Eq, Structural)]
pub enum RunnerKind {
    Rust,
    Python,
    Node,
    Shell,
}

/// Why a verification could not start.
#[derive(Debug)]
pub enum VerifyError {
    /// The spec did not parse.
    Spec(SpecError),
    /// The bundle did not parse.
    Bundle(BundleError),
    /// The spec names a runner other than rust, python, node or shell.
    UnknownRunner(String),
}

/// The runner that `name` selects, if any.
pub open spec fn runner_kind(name: Seq<char>) -> Option<RunnerKind> {
    if name == "rust"@ {
        Some(RunnerKind::Rust)
    } else if name == "python"@ {
        Some(RunnerKind::Python)
    } else if name == "node"@ {
        Some(RunnerKind::Node)
    } else if name == "shell"@ {
        Some(RunnerKind::Shell)
    } else {
        None
    }
}

fn is_word(name: &Vec<char>, word: &str) -> (r: bool)
    ensures
        r == (name@ == word@),
{
    let w = chars_of(word);
    match compare(name, &w) {
        Order::Equal => true,
        _ => false,
    }
}

/// The runner that the name selects; any other name is an error that
/// carries it.
pub fn select_runner(name: &str) -> (r: Result<RunnerKind, VerifyError>)
    ensures
        match runner_kind(name@) {
            Some(k) => r == Ok::<RunnerKind, VerifyError>(k),
            None => r matches Err(VerifyError::UnknownRunner(n)) && n@ == name@,
        },
{
    let c = chars_of(name);
    if is_word(&c, "rust") {
        Ok(RunnerKind::Rust)
    } else if is_word(&c, "python") {
        Ok(RunnerKind::Python)
    } else if is_word(&c, "node") {
        Ok(RunnerKind::Node)
    } else if is_word(&c, "shell") {
        Ok(RunnerKind::Shell)
    } else {
        Err(VerifyError::UnknownRunner(String::from_str(name)))
    }
}

/// A spec and a bundle that both parsed, and the runner the spec names.
#[derive(Debug)]
pub struct Plan {
    pub spec: Spec,
    pub bundle: Bundle,
    pub runner: RunnerKind,
}

/// Parses the spec text, then the bundle text, then selects the runner,
/// stopping at the first failure.
pub fn plan(spec_content: &str, bundle_content: &str) -> (r: Result<Plan, VerifyError>)
    ensures
        match spec_of_text(spec_content@) {
            Err(e) => r matches Err(VerifyError::Spec(e2)) && e2@ == e,
            Ok(sv) => match file_entries(bundle_content@) {
                Err(e) => r matches Err(VerifyError::Bundle(e2)) && e2@ == e,
                Ok(es) => match runner_kind(sv.runner) {
                    None => r matches Err(VerifyError::UnknownRunner(n)) && n@ == sv.runner,
                    Some(k) => r matches Ok(p) && {
                        &&& p.spec@ == sv
                        &&& p.runner == k
                        &&& forall|key: Seq<char>| #[trigger]
                            lookup(p.bundle.files@, key) == lookup(es, key)
                        &&& keys_sorted(p.bundle.files@)
                        &&& forall|key: Seq<char>| #[trigger]
                            lookup(p.bundle.metadata@, key) == if key == raw_key() {
                                summary_text(bundle_content@)
                            } else {
                                None
                            }
                        &&& p.bundle.fingerprint@ == files_fingerprint(p.bundle.files@)
                    },
                },
            },
        },
{
    let spec = match crate::spec::parser::parse(spec_content) {
        Ok(s) => s,
        Err(e) => {
            return Err(VerifyError::Spec(e));
        },
    };
    let bundle = match crate::bundle::repomix::parse(bundle_content) {
        Ok(b) => b,
        Err(e) => {
            return Err(VerifyError::Bundle(e));
        },
    };
    let runner = select_runner(spec.runner.as_str())?;
    Ok(Plan { spec, bundle, runner })
}

} // verus!
