//! Reports: the deterministic record of one verification run, its canonical
//! JSON text and its fingerprint.

pub mod builder;
pub mod fingerprint;

use crate::decimal::Decimal;
use crate::digest::{fingerprint_of, utf8};
use crate::json::{
    decimal_digits, json_array, json_bool, json_decimal, json_int, json_list, json_null,
    json_object, json_plain_char, json_str, json_str_array, keys_ascending, lemma_json_escape_plain, keys_of, lemma_keys_ascending, lemma_json_list_push, lemma_object_step, member,
    push_bool, push_decimal, push_int, push_json_str, push_member, push_opt_str, push_opt_uint,
    push_str_array, push_uint,
};
use crate::witness::{Status, WitnessResult};
use crate::text::{lex_lt, push_char};
use vstd::prelude::*;

verus! {

/// The report's record of the spec.
#[derive(Debug)]
pub struct SpecInfo {
    pub name: String,
    pub path: String,
    pub fingerprint: String,
    pub targets: Vec<String>,
    pub runner: String,
    pub lang: String,
}

/// The report's record of the bundle.
#[derive(Debug)]
pub struct BundleInfo {
    pub fingerprint: String,
    pub file_count: usize,
    pub byte_count: usize,
}

/// The report's record of the runner invocation.
#[derive(Debug)]
pub struct RunInfo {
    pub timestamp_ms: u64,
    pub duration_ms: u64,
    pub exit_code: i32,
    pub cached: bool,
}

/// Counts over the witness results, and the soft objective.
#[derive(Debug)]
pub struct Summary {
    pub total: usize,
    pub passed: usize,
    pub failed: usize,
    pub errored: usize,
    pub skipped: usize,
    pub hard_total: usize,
    pub hard_passed: usize,
    pub soft_total: usize,
    pub soft_passed: usize,
    /// Every hard witness passed and none errored.
    pub satisfied: bool,
    /// The passed share of the soft weight, in `[0, 1]`, to six places.
    pub objective: Decimal,
}

/// One verification run.
#[derive(Debug)]
pub struct Report {
    pub assay_version: String,
    pub spec: SpecInfo,
    pub bundle: BundleInfo,
    pub run: RunInfo,
    pub witnesses: Vec<WitnessResult>,
    pub summary: Summary,
    pub report_fingerprint: String,
}

/// The JSON name of a status.
pub open spec fn status_text(s: Status) -> Seq<char> {
    match s {
        Status::Pass => "pass"@,
        Status::Fail => "fail"@,
        Status::Skip => "skip"@,
        Status::Error => "error"@,
    }
}

/// Each status is written under its own lowercase name (`pass`, `fail`,
/// `skip`, `error`), no two statuses share a name, and the name stands in
/// the JSON as itself between quotes.
pub proof fn law_status_names(a: Status, b: Status)
    ensures
        status_text(Status::Pass) == seq!['p', 'a', 's', 's'],
        status_text(Status::Fail) == seq!['f', 'a', 'i', 'l'],
        status_text(Status::Skip) == seq!['s', 'k', 'i', 'p'],
        status_text(Status::Error) == seq!['e', 'r', 'r', 'o', 'r'],
        status_text(a) == status_text(b) ==> a == b,
        json_str(status_text(a)) == seq!['"'] + status_text(a) + seq!['"'],
{
    reveal_strlit("pass");
    reveal_strlit("fail");
    reveal_strlit("skip");
    reveal_strlit("error");
    assert(status_text(Status::Pass) =~= seq!['p', 'a', 's', 's']);
    assert(status_text(Status::Fail) =~= seq!['f', 'a', 'i', 'l']);
    assert(status_text(Status::Skip) =~= seq!['s', 'k', 'i', 'p']);
    assert(status_text(Status::Error) =~= seq!['e', 'r', 'r', 'o', 'r']);
    if status_text(a) == status_text(b) && a != b {
        assert(status_text(a)[0] != status_text(b)[0] || status_text(a).len() != status_text(
            b,
        ).len() || status_text(a)[1] != status_text(b)[1]);
    }
    let t = status_text(a);
    assert forall|i: int| 0 <= i < t.len() implies json_plain_char(#[trigger] t[i]) by {}
    lemma_json_escape_plain(t);
}

/// In the JSON of a witness result the status member holds the status's own
/// name in quotes, so results that differ in status are written differently.
pub proof fn law_witness_status_written(r: WitnessResult, q: WitnessResult)
    ensures
        witness_result_members(r)[3] == ("status"@, seq!['"'] + status_text(r.status) + seq!['"']),
        r.status != q.status ==> witness_result_members(r) != witness_result_members(q),
{
    law_status_names(r.status, q.status);
    law_status_names(q.status, r.status);
    if r.status != q.status && witness_result_members(r) == witness_result_members(q) {
        assert(witness_result_members(r)[3] == witness_result_members(q)[3]);
        assert((seq!['"'] + status_text(r.status) + seq!['"']).subrange(
            1,
            status_text(r.status).len() + 1int,
        ) =~= status_text(r.status));
        assert((seq!['"'] + status_text(q.status) + seq!['"']).subrange(
            1,
            status_text(q.status).len() + 1int,
        ) =~= status_text(q.status));
    }
}

/// An optional string as JSON: the string, or `null`.
pub open spec fn opt_str_json(o: Option<String>) -> Seq<char> {
    match o {
        Some(d) => json_str(d@),
        None => json_null(),
    }
}

/// An optional count as JSON: the number, or `null`.
pub open spec fn opt_uint_json(o: Option<u64>) -> Seq<char> {
    match o {
        Some(n) => decimal_digits(n as nat),
        None => json_null(),
    }
}

/// The members of the spec record, in key order.
pub open spec fn spec_info_members(s: SpecInfo) -> Seq<(Seq<char>, Seq<char>)> {
    seq![
        ("fingerprint"@, json_str(s.fingerprint@)),
        ("lang"@, json_str(s.lang@)),
        ("name"@, json_str(s.name@)),
        ("path"@, json_str(s.path@)),
        ("runner"@, json_str(s.runner@)),
        ("targets"@, json_str_array(Seq::new(s.targets@.len(), |i: int| s.targets@[i]@))),
    ]
}

/// The members of the bundle record, in key order.
pub open spec fn bundle_info_members(b: BundleInfo) -> Seq<(Seq<char>, Seq<char>)> {
    seq![
        ("byte_count"@, decimal_digits(b.byte_count as nat)),
        ("file_count"@, decimal_digits(b.file_count as nat)),
        ("fingerprint"@, json_str(b.fingerprint@)),
    ]
}

/// The members of the run record, in key order.
pub open spec fn run_info_members(r: RunInfo) -> Seq<(Seq<char>, Seq<char>)> {
    seq![
        ("cached"@, json_bool(r.cached)),
        ("duration_ms"@, decimal_digits(r.duration_ms as nat)),
        ("exit_code"@, json_int(r.exit_code as int)),
        ("timestamp_ms"@, decimal_digits(r.timestamp_ms as nat)),
    ]
}

/// The members of the summary, in key order.
pub open spec fn summary_members(s: Summary) -> Seq<(Seq<char>, Seq<char>)> {
    seq![
        ("errored"@, decimal_digits(s.errored as nat)),
        ("failed"@, decimal_digits(s.failed as nat)),
        ("hard_passed"@, decimal_digits(s.hard_passed as nat)),
        ("hard_total"@, decimal_digits(s.hard_total as nat)),
        ("objective"@, json_decimal(s.objective)),
        ("passed"@, decimal_digits(s.passed as nat)),
        ("satisfied"@, json_bool(s.satisfied)),
        ("skipped"@, decimal_digits(s.skipped as nat)),
        ("soft_passed"@, decimal_digits(s.soft_passed as nat)),
        ("soft_total"@, decimal_digits(s.soft_total as nat)),
        ("total"@, decimal_digits(s.total as nat)),
    ]
}

/// The members of one witness result, in key order.
pub open spec fn witness_result_members(r: WitnessResult) -> Seq<(Seq<char>, Seq<char>)> {
    seq![
        ("detail"@, opt_str_json(r.detail)),
        ("duration_ms"@, opt_uint_json(r.duration_ms)),
        ("name"@, json_str(r.name@)),
        ("status"@, json_str(status_text(r.status))),
    ]
}

pub open spec fn spec_info_json(s: SpecInfo) -> Seq<char> {
    json_object(spec_info_members(s))
}

pub open spec fn bundle_info_json(b: BundleInfo) -> Seq<char> {
    json_object(bundle_info_members(b))
}

pub open spec fn run_info_json(r: RunInfo) -> Seq<char> {
    json_object(run_info_members(r))
}

pub open spec fn summary_json(s: Summary) -> Seq<char> {
    json_object(summary_members(s))
}

pub open spec fn witness_result_json(r: WitnessResult) -> Seq<char> {
    json_object(witness_result_members(r))
}

pub open spec fn witnesses_json(v: Seq<WitnessResult>) -> Seq<char> {
    json_array(Seq::new(v.len(), |i: int| witness_result_json(v[i])))
}

/// The members of a report, in key order, `report_fingerprint` left out.
pub open spec fn report_members(r: Report) -> Seq<(Seq<char>, Seq<char>)> {
    seq![
        ("assay_version"@, json_str(r.assay_version@)),
        ("bundle"@, bundle_info_json(r.bundle)),
        ("run"@, run_info_json(r.run)),
        ("spec"@, spec_info_json(r.spec)),
        ("summary"@, summary_json(r.summary)),
        ("witnesses"@, witnesses_json(r.witnesses@)),
    ]
}

/// The members of a report, in key order, `report_fingerprint` included.
pub open spec fn full_members(r: Report) -> Seq<(Seq<char>, Seq<char>)> {
    seq![
        ("assay_version"@, json_str(r.assay_version@)),
        ("bundle"@, bundle_info_json(r.bundle)),
        ("report_fingerprint"@, json_str(r.report_fingerprint@)),
        ("run"@, run_info_json(r.run)),
        ("spec"@, spec_info_json(r.spec)),
        ("summary"@, summary_json(r.summary)),
        ("witnesses"@, witnesses_json(r.witnesses@)),
    ]
}

/// The canonical JSON body of a report: every field but
/// `report_fingerprint`, keys in ascending order at every level, no
/// whitespace.
pub open spec fn canonical_body(r: Report) -> Seq<char> {
    json_object(report_members(r))
}

/// The canonical JSON of the whole report, `report_fingerprint` in its
/// sorted place.
pub open spec fn canonical_full(r: Report) -> Seq<char> {
    json_object(full_members(r))
}

/// The fingerprint of a report: over the UTF-8 bytes of its canonical body.
pub open spec fn report_fingerprint_of(r: Report) -> Seq<char> {
    fingerprint_of(utf8(canonical_body(r)))
}

fn write_spec_info(out: &mut String, s: &SpecInfo)
    ensures
        final(out)@ == old(out)@ + json_object(spec_info_members(*s)),
{
    let ghost mut items: Seq<Seq<char>> = Seq::empty();
    push_char(out, '{');
    let ghost s0 = out@;
    assert(s0 + json_list(items) =~= s0);
    let ghost before = out@;
    push_member(out, true, "fingerprint");
    push_json_str(out, s.fingerprint.as_str());
    proof {
        lemma_object_step(s0, items, before, out@, true, "fingerprint"@, json_str(s.fingerprint@));
        items = items.push(member("fingerprint"@, json_str(s.fingerprint@)));
    }
    let ghost before = out@;
    push_member(out, false, "lang");
    push_json_str(out, s.lang.as_str());
    proof {
        lemma_object_step(s0, items, before, out@, false, "lang"@, json_str(s.lang@));
        items = items.push(member("lang"@, json_str(s.lang@)));
    }
    let ghost before = out@;
    push_member(out, false, "name");
    push_json_str(out, s.name.as_str());
    proof {
        lemma_object_step(s0, items, before, out@, false, "name"@, json_str(s.name@));
        items = items.push(member("name"@, json_str(s.name@)));
    }
    let ghost before = out@;
    push_member(out, false, "path");
    push_json_str(out, s.path.as_str());
    proof {
        lemma_object_step(s0, items, before, out@, false, "path"@, json_str(s.path@));
        items = items.push(member("path"@, json_str(s.path@)));
    }
    let ghost before = out@;
    push_member(out, false, "runner");
    push_json_str(out, s.runner.as_str());
    proof {
        lemma_object_step(s0, items, before, out@, false, "runner"@, json_str(s.runner@));
        items = items.push(member("runner"@, json_str(s.runner@)));
    }
    let ghost before = out@;
    push_member(out, false, "targets");
    push_str_array(out, &s.targets);
    proof {
        lemma_object_step(s0, items, before, out@, false, "targets"@, json_str_array(Seq::new(s.targets@.len(), |i: int| s.targets@[i]@)));
        items = items.push(member("targets"@, json_str_array(Seq::new(s.targets@.len(), |i: int| s.targets@[i]@))));
    }
    push_char(out, '}');
    let ghost ms = spec_info_members(*s);
    assert(items =~= Seq::new(ms.len(), |i: int| member(ms[i].0, ms[i].1)));
    assert(final(out)@ =~= old(out)@ + json_object(ms));
}

fn write_bundle_info(out: &mut String, b: &BundleInfo)
    ensures
        final(out)@ == old(out)@ + json_object(bundle_info_members(*b)),
{
    let ghost mut items: Seq<Seq<char>> = Seq::empty();
    push_char(out, '{');
    let ghost s0 = out@;
    assert(s0 + json_list(items) =~= s0);
    let ghost before = out@;
    push_member(out, true, "byte_count");
    push_uint(out, b.byte_count as u64);
    proof {
        lemma_object_step(s0, items, before, out@, true, "byte_count"@, decimal_digits(b.byte_count as nat));
        items = items.push(member("byte_count"@, decimal_digits(b.byte_count as nat)));
    }
    let ghost before = out@;
    push_member(out, false, "file_count");
    push_uint(out, b.file_count as u64);
    proof {
        lemma_object_step(s0, items, before, out@, false, "file_count"@, decimal_digits(b.file_count as nat));
        items = items.push(member("file_count"@, decimal_digits(b.file_count as nat)));
    }
    let ghost before = out@;
    push_member(out, false, "fingerprint");
    push_json_str(out, b.fingerprint.as_str());
    proof {
        lemma_object_step(s0, items, before, out@, false, "fingerprint"@, json_str(b.fingerprint@));
        items = items.push(member("fingerprint"@, json_str(b.fingerprint@)));
    }
    push_char(out, '}');
    let ghost ms = bundle_info_members(*b);
    assert(items =~= Seq::new(ms.len(), |i: int| member(ms[i].0, ms[i].1)));
    assert(final(out)@ =~= old(out)@ + json_object(ms));
}

fn write_run_info(out: &mut String, r: &RunInfo)
    ensures
        final(out)@ == old(out)@ + json_object(run_info_members(*r)),
{
    let ghost mut items: Seq<Seq<char>> = Seq::empty();
    push_char(out, '{');
    let ghost s0 = out@;
    assert(s0 + json_list(items) =~= s0);
    let ghost before = out@;
    push_member(out, true, "cached");
    push_bool(out, r.cached);
    proof {
        lemma_object_step(s0, items, before, out@, true, "cached"@, json_bool(r.cached));
        items = items.push(member("cached"@, json_bool(r.cached)));
    }
    let ghost before = out@;
    push_member(out, false, "duration_ms");
    push_uint(out, r.duration_ms);
    proof {
        lemma_object_step(s0, items, before, out@, false, "duration_ms"@, decimal_digits(r.duration_ms as nat));
        items = items.push(member("duration_ms"@, decimal_digits(r.duration_ms as nat)));
    }
    let ghost before = out@;
    push_member(out, false, "exit_code");
    push_int(out, r.exit_code);
    proof {
        lemma_object_step(s0, items, before, out@, false, "exit_code"@, json_int(r.exit_code as int));
        items = items.push(member("exit_code"@, json_int(r.exit_code as int)));
    }
    let ghost before = out@;
    push_member(out, false, "timestamp_ms");
    push_uint(out, r.timestamp_ms);
    proof {
        lemma_object_step(s0, items, before, out@, false, "timestamp_ms"@, decimal_digits(r.timestamp_ms as nat));
        items = items.push(member("timestamp_ms"@, decimal_digits(r.timestamp_ms as nat)));
    }
    push_char(out, '}');
    let ghost ms = run_info_members(*r);
    assert(items =~= Seq::new(ms.len(), |i: int| member(ms[i].0, ms[i].1)));
    assert(final(out)@ =~= old(out)@ + json_object(ms));
}

#[verifier::rlimit(50)]
fn write_summary(out: &mut String, s: &Summary)
    ensures
        final(out)@ == old(out)@ + json_object(summary_members(*s)),
{
    let ghost mut items: Seq<Seq<char>> = Seq::empty();
    push_char(out, '{');
    let ghost s0 = out@;
    assert(s0 + json_list(items) =~= s0);
    let ghost before = out@;
    push_member(out, true, "errored");
    push_uint(out, s.errored as u64);
    proof {
        lemma_object_step(s0, items, before, out@, true, "errored"@, decimal_digits(s.errored as nat));
        items = items.push(member("errored"@, decimal_digits(s.errored as nat)));
    }
    let ghost before = out@;
    push_member(out, false, "failed");
    push_uint(out, s.failed as u64);
    proof {
        lemma_object_step(s0, items, before, out@, false, "failed"@, decimal_digits(s.failed as nat));
        items = items.push(member("failed"@, decimal_digits(s.failed as nat)));
    }
    let ghost before = out@;
    push_member(out, false, "hard_passed");
    push_uint(out, s.hard_passed as u64);
    proof {
        lemma_object_step(s0, items, before, out@, false, "hard_passed"@, decimal_digits(s.hard_passed as nat));
        items = items.push(member("hard_passed"@, decimal_digits(s.hard_passed as nat)));
    }
    let ghost before = out@;
    push_member(out, false, "hard_total");
    push_uint(out, s.hard_total as u64);
    proof {
        lemma_object_step(s0, items, before, out@, false, "hard_total"@, decimal_digits(s.hard_total as nat));
        items = items.push(member("hard_total"@, decimal_digits(s.hard_total as nat)));
    }
    let ghost before = out@;
    push_member(out, false, "objective");
    push_decimal(out, s.objective);
    proof {
        lemma_object_step(s0, items, before, out@, false, "objective"@, json_decimal(s.objective));
        items = items.push(member("objective"@, json_decimal(s.objective)));
    }
    let ghost before = out@;
    push_member(out, false, "passed");
    push_uint(out, s.passed as u64);
    proof {
        lemma_object_step(s0, items, before, out@, false, "passed"@, decimal_digits(s.passed as nat));
        items = items.push(member("passed"@, decimal_digits(s.passed as nat)));
    }
    let ghost before = out@;
    push_member(out, false, "satisfied");
    push_bool(out, s.satisfied);
    proof {
        lemma_object_step(s0, items, before, out@, false, "satisfied"@, json_bool(s.satisfied));
        items = items.push(member("satisfied"@, json_bool(s.satisfied)));
    }
    let ghost before = out@;
    push_member(out, false, "skipped");
    push_uint(out, s.skipped as u64);
    proof {
        lemma_object_step(s0, items, before, out@, false, "skipped"@, decimal_digits(s.skipped as nat));
        items = items.push(member("skipped"@, decimal_digits(s.skipped as nat)));
    }
    let ghost before = out@;
    push_member(out, false, "soft_passed");
    push_uint(out, s.soft_passed as u64);
    proof {
        lemma_object_step(s0, items, before, out@, false, "soft_passed"@, decimal_digits(s.soft_passed as nat));
        items = items.push(member("soft_passed"@, decimal_digits(s.soft_passed as nat)));
    }
    let ghost before = out@;
    push_member(out, false, "soft_total");
    push_uint(out, s.soft_total as u64);
    proof {
        lemma_object_step(s0, items, before, out@, false, "soft_total"@, decimal_digits(s.soft_total as nat));
        items = items.push(member("soft_total"@, decimal_digits(s.soft_total as nat)));
    }
    let ghost before = out@;
    push_member(out, false, "total");
    push_uint(out, s.total as u64);
    proof {
        lemma_object_step(s0, items, before, out@, false, "total"@, decimal_digits(s.total as nat));
        items = items.push(member("total"@, decimal_digits(s.total as nat)));
    }
    push_char(out, '}');
    let ghost ms = summary_members(*s);
    assert(items =~= Seq::new(ms.len(), |i: int| member(ms[i].0, ms[i].1)));
    assert(final(out)@ =~= old(out)@ + json_object(ms));
}

fn write_status(out: &mut String, s: Status)
    ensures
        final(out)@ == old(out)@ + json_str(status_text(s)),
{
    match s {
        Status::Pass => push_json_str(out, "pass"),
        Status::Fail => push_json_str(out, "fail"),
        Status::Skip => push_json_str(out, "skip"),
        Status::Error => push_json_str(out, "error"),
    }
}

fn write_witness_result(out: &mut String, r: &WitnessResult)
    ensures
        final(out)@ == old(out)@ + json_object(witness_result_members(*r)),
{
    let ghost mut items: Seq<Seq<char>> = Seq::empty();
    push_char(out, '{');
    let ghost s0 = out@;
    assert(s0 + json_list(items) =~= s0);
    let ghost before = out@;
    push_member(out, true, "detail");
    push_opt_str(out, &r.detail);
    proof {
        lemma_object_step(s0, items, before, out@, true, "detail"@, opt_str_json(r.detail));
        items = items.push(member("detail"@, opt_str_json(r.detail)));
    }
    let ghost before = out@;
    push_member(out, false, "duration_ms");
    push_opt_uint(out, r.duration_ms);
    proof {
        lemma_object_step(s0, items, before, out@, false, "duration_ms"@, opt_uint_json(r.duration_ms));
        items = items.push(member("duration_ms"@, opt_uint_json(r.duration_ms)));
    }
    let ghost before = out@;
    push_member(out, false, "name");
    push_json_str(out, r.name.as_str());
    proof {
        lemma_object_step(s0, items, before, out@, false, "name"@, json_str(r.name@));
        items = items.push(member("name"@, json_str(r.name@)));
    }
    let ghost before = out@;
    push_member(out, false, "status");
    write_status(out, r.status);
    proof {
        lemma_object_step(s0, items, before, out@, false, "status"@, json_str(status_text(r.status)));
        items = items.push(member("status"@, json_str(status_text(r.status))));
    }
    push_char(out, '}');
    let ghost ms = witness_result_members(*r);
    assert(items =~= Seq::new(ms.len(), |i: int| member(ms[i].0, ms[i].1)));
    assert(final(out)@ =~= old(out)@ + json_object(ms));
}

fn write_witnesses(out: &mut String, v: &Vec<WitnessResult>)
    ensures
        final(out)@ == old(out)@ + witnesses_json(v@),
{
    let ghost items = Seq::new(v@.len(), |i: int| witness_result_json(v@[i]));
    push_char(out, '[');
    let ghost start = out@;
    let n = v.len();
    let mut i: usize = 0;
    assert(items.take(0) =~= Seq::<Seq<char>>::empty());
    while i < n
        invariant
            n == v@.len(),
            i <= n,
            items == Seq::new(v@.len(), |i: int| witness_result_json(v@[i])),
            out@ == start + json_list(items.take(i as int)),
        decreases n - i,
    {
        if i > 0 {
            push_char(out, ',');
        }
        write_witness_result(out, &v[i]);
        proof {
            lemma_json_list_push(items.take(i as int), items[i as int]);
            assert(items.take(i as int).push(items[i as int]) =~= items.take(i + 1));
            assert(out@ =~= start + json_list(items.take(i + 1)));
        }
        i = i + 1;
    }
    assert(items.take(n as int) =~= items);
    push_char(out, ']');
    assert(final(out)@ =~= old(out)@ + witnesses_json(v@));
}

impl Report {
    /// Writes the members of `report_members` as a JSON object.
    fn write_body(&self, out: &mut String)
        ensures
            final(out)@ == old(out)@ + json_object(report_members(*self)),
    {
        let ghost mut items: Seq<Seq<char>> = Seq::empty();
        push_char(out, '{');
        let ghost s0 = out@;
        assert(s0 + json_list(items) =~= s0);
        let ghost before = out@;
        push_member(out, true, "assay_version");
        push_json_str(out, self.assay_version.as_str());
        proof {
            lemma_object_step(s0, items, before, out@, true, "assay_version"@, json_str(self.assay_version@));
            items = items.push(member("assay_version"@, json_str(self.assay_version@)));
        }
        let ghost before = out@;
        push_member(out, false, "bundle");
        write_bundle_info(out, &self.bundle);
        proof {
            lemma_object_step(s0, items, before, out@, false, "bundle"@, bundle_info_json(self.bundle));
            items = items.push(member("bundle"@, bundle_info_json(self.bundle)));
        }
        let ghost before = out@;
        push_member(out, false, "run");
        write_run_info(out, &self.run);
        proof {
            lemma_object_step(s0, items, before, out@, false, "run"@, run_info_json(self.run));
            items = items.push(member("run"@, run_info_json(self.run)));
        }
        let ghost before = out@;
        push_member(out, false, "spec");
        write_spec_info(out, &self.spec);
        proof {
            lemma_object_step(s0, items, before, out@, false, "spec"@, spec_info_json(self.spec));
            items = items.push(member("spec"@, spec_info_json(self.spec)));
        }
        let ghost before = out@;
        push_member(out, false, "summary");
        write_summary(out, &self.summary);
        proof {
            lemma_object_step(s0, items, before, out@, false, "summary"@, summary_json(self.summary));
            items = items.push(member("summary"@, summary_json(self.summary)));
        }
        let ghost before = out@;
        push_member(out, false, "witnesses");
        write_witnesses(out, &self.witnesses);
        proof {
            lemma_object_step(s0, items, before, out@, false, "witnesses"@, witnesses_json(self.witnesses@));
            items = items.push(member("witnesses"@, witnesses_json(self.witnesses@)));
        }
        push_char(out, '}');
        let ghost ms = report_members(*self);
        assert(items =~= Seq::new(ms.len(), |i: int| member(ms[i].0, ms[i].1)));
        assert(final(out)@ =~= old(out)@ + json_object(ms));
    }

    /// Writes the members of `full_members` as a JSON object.
    fn write_full(&self, out: &mut String)
        ensures
            final(out)@ == old(out)@ + json_object(full_members(*self)),
    {
        let ghost mut items: Seq<Seq<char>> = Seq::empty();
        push_char(out, '{');
        let ghost s0 = out@;
        assert(s0 + json_list(items) =~= s0);
        let ghost before = out@;
        push_member(out, true, "assay_version");
        push_json_str(out, self.assay_version.as_str());
        proof {
            lemma_object_step(s0, items, before, out@, true, "assay_version"@, json_str(self.assay_version@));
            items = items.push(member("assay_version"@, json_str(self.assay_version@)));
        }
        let ghost before = out@;
        push_member(out, false, "bundle");
        write_bundle_info(out, &self.bundle);
        proof {
            lemma_object_step(s0, items, before, out@, false, "bundle"@, bundle_info_json(self.bundle));
            items = items.push(member("bundle"@, bundle_info_json(self.bundle)));
        }
        let ghost before = out@;
        push_member(out, false, "report_fingerprint");
        push_json_str(out, self.report_fingerprint.as_str());
        proof {
            lemma_object_step(s0, items, before, out@, false, "report_fingerprint"@, json_str(self.report_fingerprint@));
            items = items.push(member("report_fingerprint"@, json_str(self.report_fingerprint@)));
        }
        let ghost before = out@;
        push_member(out, false, "run");
        write_run_info(out, &self.run);
        proof {
            lemma_object_step(s0, items, before, out@, false, "run"@, run_info_json(self.run));
            items = items.push(member("run"@, run_info_json(self.run)));
        }
        let ghost before = out@;
        push_member(out, false, "spec");
        write_spec_info(out, &self.spec);
        proof {
            lemma_object_step(s0, items, before, out@, false, "spec"@, spec_info_json(self.spec));
            items = items.push(member("spec"@, spec_info_json(self.spec)));
        }
        let ghost before = out@;
        push_member(out, false, "summary");
        write_summary(out, &self.summary);
        proof {
            lemma_object_step(s0, items, before, out@, false, "summary"@, summary_json(self.summary));
            items = items.push(member("summary"@, summary_json(self.summary)));
        }
        let ghost before = out@;
        push_member(out, false, "witnesses");
        write_witnesses(out, &self.witnesses);
        proof {
            lemma_object_step(s0, items, before, out@, false, "witnesses"@, witnesses_json(self.witnesses@));
            items = items.push(member("witnesses"@, witnesses_json(self.witnesses@)));
        }
        push_char(out, '}');
        let ghost ms = full_members(*self);
        assert(items =~= Seq::new(ms.len(), |i: int| member(ms[i].0, ms[i].1)));
        assert(final(out)@ =~= old(out)@ + json_object(ms));
    }

    /// The canonical JSON of this report without `report_fingerprint`: keys
    /// sorted, no insignificant whitespace, decimals to six places. This is
    /// the text that the report fingerprint hashes.
    pub fn canonical_json(&self) -> (r: String)
        ensures
            r@ == canonical_body(*self),
    {
        let mut out = String::new();
        self.write_body(&mut out);
        assert(out@ =~= canonical_body(*self));
        out
    }

    /// The canonical JSON of the whole report, `report_fingerprint` included.
    pub fn canonical_json_with_fingerprint(&self) -> (r: String)
        ensures
            r@ == canonical_full(*self),
    {
        let mut out = String::new();
        self.write_full(&mut out);
        assert(out@ =~= canonical_full(*self));
        out
    }

    /// The fingerprint of this report's canonical body. The report is not
    /// changed; the caller stores the result in `report_fingerprint`.
    pub fn compute_fingerprint(&self) -> (r: String)
        ensures
            r@ == report_fingerprint_of(*self),
            r@.len() == 71,
    {
        fingerprint::compute(self)
    }

    /// A report with placeholder fields but for the two fingerprints.
    pub fn empty_for_test(spec_fp: &str, bundle_fp: &str) -> (r: Report)
        ensures
            r.assay_version@ == "2.0.0"@,
            r.spec.name@ == "test"@,
            r.spec.path@ == "test.assay"@,
            r.spec.fingerprint@ == spec_fp@,
            r.spec.targets@.len() == 0,
            r.spec.runner@ == "rust"@,
            r.spec.lang@ == "rust"@,
            r.bundle.fingerprint@ == bundle_fp@,
            r.bundle.file_count == 0,
            r.bundle.byte_count == 0,
            r.run == (RunInfo { timestamp_ms: 0, duration_ms: 0, exit_code: 0, cached: false }),
            r.witnesses@.len() == 0,
            r.summary == (Summary {
                total: 0,
                passed: 0,
                failed: 0,
                errored: 0,
                skipped: 0,
                hard_total: 0,
                hard_passed: 0,
                soft_total: 0,
                soft_passed: 0,
                satisfied: false,
                objective: Decimal { micros: 0 },
            }),
            r.report_fingerprint@.len() == 0,
    {
        Report {
            assay_version: String::from_str("2.0.0"),
            spec: SpecInfo {
                name: String::from_str("test"),
                path: String::from_str("test.assay"),
                fingerprint: String::from_str(spec_fp),
                targets: Vec::new(),
                runner: String::from_str("rust"),
                lang: String::from_str("rust"),
            },
            bundle: BundleInfo {
                fingerprint: String::from_str(bundle_fp),
                file_count: 0,
                byte_count: 0,
            },
            run: RunInfo { timestamp_ms: 0, duration_ms: 0, exit_code: 0, cached: false },
            witnesses: Vec::new(),
            summary: Summary {
                total: 0,
                passed: 0,
                failed: 0,
                errored: 0,
                skipped: 0,
                hard_total: 0,
                hard_passed: 0,
                soft_total: 0,
                soft_passed: 0,
                satisfied: false,
                objective: Decimal { micros: 0 },
            },
            report_fingerprint: String::new(),
        }
    }
}

proof fn lemma_spec_info_keys(s: SpecInfo)
    ensures
        keys_ascending(spec_info_members(s)),
{
    reveal_strlit("fingerprint");
    reveal_strlit("lang");
    reveal_strlit("name");
    reveal_strlit("path");
    reveal_strlit("runner");
    reveal_strlit("targets");
    let ms = spec_info_members(s);
    assert forall|i: int| 0 <= i < ms.len() - 1 implies lex_lt(#[trigger] ms[i].0, ms[i + 1].0) by {
        reveal_with_fuel(lex_lt, 7);
        if i == 0 {
            assert(lex_lt("fingerprint"@, "lang"@));
        } else if i == 1 {
            assert(lex_lt("lang"@, "name"@));
        } else if i == 2 {
            assert(lex_lt("name"@, "path"@));
        } else if i == 3 {
            assert(lex_lt("path"@, "runner"@));
        } else if i == 4 {
            assert(lex_lt("runner"@, "targets"@));
        }
    }
    lemma_keys_ascending(ms);
}

proof fn lemma_bundle_info_keys(b: BundleInfo)
    ensures
        keys_ascending(bundle_info_members(b)),
{
    reveal_strlit("byte_count");
    reveal_strlit("file_count");
    reveal_strlit("fingerprint");
    let ms = bundle_info_members(b);
    assert forall|i: int| 0 <= i < ms.len() - 1 implies lex_lt(#[trigger] ms[i].0, ms[i + 1].0) by {
        reveal_with_fuel(lex_lt, 7);
        if i == 0 {
            assert(lex_lt("byte_count"@, "file_count"@));
        } else if i == 1 {
            assert(lex_lt("file_count"@, "fingerprint"@));
        }
    }
    lemma_keys_ascending(ms);
}

proof fn lemma_run_info_keys(r: RunInfo)
    ensures
        keys_ascending(run_info_members(r)),
{
    reveal_strlit("cached");
    reveal_strlit("duration_ms");
    reveal_strlit("exit_code");
    reveal_strlit("timestamp_ms");
    let ms = run_info_members(r);
    assert forall|i: int| 0 <= i < ms.len() - 1 implies lex_lt(#[trigger] ms[i].0, ms[i + 1].0) by {
        reveal_with_fuel(lex_lt, 7);
        if i == 0 {
            assert(lex_lt("cached"@, "duration_ms"@));
        } else if i == 1 {
            assert(lex_lt("duration_ms"@, "exit_code"@));
        } else if i == 2 {
            assert(lex_lt("exit_code"@, "timestamp_ms"@));
        }
    }
    lemma_keys_ascending(ms);
}

proof fn lemma_summary_keys(s: Summary)
    ensures
        keys_ascending(summary_members(s)),
{
    reveal_strlit("errored");
    reveal_strlit("failed");
    reveal_strlit("hard_passed");
    reveal_strlit("hard_total");
    reveal_strlit("objective");
    reveal_strlit("passed");
    reveal_strlit("satisfied");
    reveal_strlit("skipped");
    reveal_strlit("soft_passed");
    reveal_strlit("soft_total");
    reveal_strlit("total");
    let ms = summary_members(s);
    assert forall|i: int| 0 <= i < ms.len() - 1 implies lex_lt(#[trigger] ms[i].0, ms[i + 1].0) by {
        reveal_with_fuel(lex_lt, 7);
        if i == 0 {
            assert(lex_lt("errored"@, "failed"@));
        } else if i == 1 {
            assert(lex_lt("failed"@, "hard_passed"@));
        } else if i == 2 {
            assert(lex_lt("hard_passed"@, "hard_total"@));
        } else if i == 3 {
            assert(lex_lt("hard_total"@, "objective"@));
        } else if i == 4 {
            assert(lex_lt("objective"@, "passed"@));
        } else if i == 5 {
            assert(lex_lt("passed"@, "satisfied"@));
        } else if i == 6 {
            assert(lex_lt("satisfied"@, "skipped"@));
        } else if i == 7 {
            assert(lex_lt("skipped"@, "soft_passed"@));
        } else if i == 8 {
            assert(lex_lt("soft_passed"@, "soft_total"@));
        } else if i == 9 {
            assert(lex_lt("soft_total"@, "total"@));
        }
    }
    lemma_keys_ascending(ms);
}

proof fn lemma_witness_result_keys(r: WitnessResult)
    ensures
        keys_ascending(witness_result_members(r)),
{
    reveal_strlit("detail");
    reveal_strlit("duration_ms");
    reveal_strlit("name");
    reveal_strlit("status");
    let ms = witness_result_members(r);
    assert forall|i: int| 0 <= i < ms.len() - 1 implies lex_lt(#[trigger] ms[i].0, ms[i + 1].0) by {
        reveal_with_fuel(lex_lt, 7);
        if i == 0 {
            assert(lex_lt("detail"@, "duration_ms"@));
        } else if i == 1 {
            assert(lex_lt("duration_ms"@, "name"@));
        } else if i == 2 {
            assert(lex_lt("name"@, "status"@));
        }
    }
    lemma_keys_ascending(ms);
}

proof fn lemma_report_keys(r: Report)
    ensures
        keys_ascending(report_members(r)),
{
    reveal_strlit("assay_version");
    reveal_strlit("bundle");
    reveal_strlit("run");
    reveal_strlit("spec");
    reveal_strlit("summary");
    reveal_strlit("witnesses");
    let ms = report_members(r);
    assert forall|i: int| 0 <= i < ms.len() - 1 implies lex_lt(#[trigger] ms[i].0, ms[i + 1].0) by {
        reveal_with_fuel(lex_lt, 7);
        if i == 0 {
            assert(lex_lt("assay_version"@, "bundle"@));
        } else if i == 1 {
            assert(lex_lt("bundle"@, "run"@));
        } else if i == 2 {
            assert(lex_lt("run"@, "spec"@));
        } else if i == 3 {
            assert(lex_lt("spec"@, "summary"@));
        } else if i == 4 {
            assert(lex_lt("summary"@, "witnesses"@));
        }
    }
    lemma_keys_ascending(ms);
}

proof fn lemma_full_keys(r: Report)
    ensures
        keys_ascending(full_members(r)),
{
    reveal_strlit("assay_version");
    reveal_strlit("bundle");
    reveal_strlit("report_fingerprint");
    reveal_strlit("run");
    reveal_strlit("spec");
    reveal_strlit("summary");
    reveal_strlit("witnesses");
    let ms = full_members(r);
    assert forall|i: int| 0 <= i < ms.len() - 1 implies lex_lt(#[trigger] ms[i].0, ms[i + 1].0) by {
        reveal_with_fuel(lex_lt, 7);
        if i == 0 {
            assert(lex_lt("assay_version"@, "bundle"@));
        } else if i == 1 {
            assert(lex_lt("bundle"@, "report_fingerprint"@));
        } else if i == 2 {
            assert(lex_lt("report_fingerprint"@, "run"@));
        } else if i == 3 {
            assert(lex_lt("run"@, "spec"@));
        } else if i == 4 {
            assert(lex_lt("spec"@, "summary"@));
        } else if i == 5 {
            assert(lex_lt("summary"@, "witnesses"@));
        }
    }
    lemma_keys_ascending(ms);
}

/// The canonical JSON of a report is a JSON object with exactly the keys
/// `assay_version`, `bundle`, `run`, `spec`, `summary` and `witnesses`, in
/// that order; its member values are the spec, bundle and run records and
/// the summary as objects, and the witness results as an array of objects.
/// Every object's keys ascend strictly, at every level, and the text holds
/// no whitespace of its own: objects, arrays, strings and numbers are
/// written by `json_object`, `json_array`, `json_str`, `decimal_digits`,
/// `json_int`, `json_bool`, `json_decimal` and `json_null`, none of which
/// adds any. With `report_fingerprint` the same holds, that key in its
/// sorted place.
pub proof fn law_canonical_json_shape(r: Report)
    ensures
        canonical_body(r) == json_object(report_members(r)),
        keys_of(report_members(r)) == seq![
            "assay_version"@,
            "bundle"@,
            "run"@,
            "spec"@,
            "summary"@,
            "witnesses"@,
        ],
        keys_ascending(report_members(r)),
        canonical_full(r) == json_object(full_members(r)),
        keys_ascending(full_members(r)),
        report_members(r)[1].1 == json_object(bundle_info_members(r.bundle)),
        keys_ascending(bundle_info_members(r.bundle)),
        report_members(r)[2].1 == json_object(run_info_members(r.run)),
        keys_ascending(run_info_members(r.run)),
        report_members(r)[3].1 == json_object(spec_info_members(r.spec)),
        keys_ascending(spec_info_members(r.spec)),
        report_members(r)[4].1 == json_object(summary_members(r.summary)),
        keys_ascending(summary_members(r.summary)),
        report_members(r)[5].1 == json_array(
            Seq::new(r.witnesses@.len(), |i: int| json_object(witness_result_members(r.witnesses@[i]))),
        ),
        forall|i: int| 0 <= i < r.witnesses@.len() ==> keys_ascending(
            #[trigger] witness_result_members(r.witnesses@[i]),
        ),
{
    lemma_report_keys(r);
    lemma_full_keys(r);
    lemma_bundle_info_keys(r.bundle);
    lemma_run_info_keys(r.run);
    lemma_spec_info_keys(r.spec);
    lemma_summary_keys(r.summary);
    assert forall|i: int| 0 <= i < r.witnesses@.len() implies keys_ascending(
        #[trigger] witness_result_members(r.witnesses@[i]),
    ) by {
        lemma_witness_result_keys(r.witnesses@[i]);
    }
    assert(keys_of(report_members(r)) =~= seq![
        "assay_version"@,
        "bundle"@,
        "run"@,
        "spec"@,
        "summary"@,
        "witnesses"@,
    ]);
    assert(Seq::new(r.witnesses@.len(), |i: int| json_object(witness_result_members(r.witnesses@[i])))
        =~= Seq::new(r.witnesses@.len(), |i: int| witness_result_json(r.witnesses@[i])));
}

/// The canonical body leaves `report_fingerprint` out: two reports that
/// differ only there have the same canonical JSON and the same fingerprint,
/// so storing the fingerprint in the report does not change it.
pub proof fn law_fingerprint_field_excluded(a: Report, b: Report)
    requires
        a.assay_version == b.assay_version,
        a.spec == b.spec,
        a.bundle == b.bundle,
        a.run == b.run,
        a.witnesses == b.witnesses,
        a.summary == b.summary,
    ensures
        canonical_body(a) == canonical_body(b),
        report_fingerprint_of(a) == report_fingerprint_of(b),
{
}

} // verus!
