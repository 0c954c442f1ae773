//! The report fingerprint.

use crate::digest::fingerprint;
use crate::report::{report_fingerprint_of, Report};
use vstd::prelude::*;

verus! {

/// The SHA-256 fingerprint of a report's canonical body (which leaves out
/// `report_fingerprint`), as `"sha256:"` and 64 lowercase hex digits.
pub fn compute(report: &Report) -> (r: String)
    ensures
        r@ == report_fingerprint_of(*report),
        r@.len() == 71,
{
    let body = report.canonical_json();
    fingerprint(body.as_str().as_bytes())
}

} // verus!
