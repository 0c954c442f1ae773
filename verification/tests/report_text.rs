use assay::decimal::Decimal;
use assay::digest::fingerprint;
use assay::report::builder::{build_at, ratio_micros, summarize};
use assay::report::Report;
use assay::bundle::Bundle;
use assay::runner::RunOutput;
use assay::spec::Spec;
use assay::text_map::TextMap;
use assay::witness::{Kind, Status, Witness, WitnessResult};
use sha2::{Digest, Sha256};

fn sha256_hex(data: &[u8]) -> String {
    Sha256::digest(data).iter().map(|b| format!("{:02x}", b)).collect()
}

fn micros(x: u64) -> Decimal {
    Decimal { micros: x }
}

fn witness(name: &str, kind: Kind) -> Witness {
    Witness { name: name.to_string(), kind, body: "true".to_string() }
}

fn result(name: &str, status: Status) -> WitnessResult {
    WitnessResult { name: name.to_string(), status, detail: None, duration_ms: None }
}

fn spec_with(witnesses: Vec<Witness>) -> Spec {
    Spec {
        name: "t".to_string(),
        targets: vec!["src/lib.rs".to_string()],
        runner: "rust".to_string(),
        runner_args: Vec::new(),
        lang: "rust".to_string(),
        fixtures: Vec::new(),
        witnesses,
        objectives: Vec::new(),
    }
}

#[test]
fn canonical_json_of_placeholder_report_is_exact() {
    let r = Report::empty_for_test("s", "b");
    assert_eq!(
        r.canonical_json(),
        [
            r#"{"assay_version":"2.0.0","#,
            r#""bundle":{"byte_count":0,"file_count":0,"fingerprint":"b"},"#,
            r#""run":{"cached":false,"duration_ms":0,"exit_code":0,"timestamp_ms":0},"#,
            r#""spec":{"fingerprint":"s","lang":"rust","name":"test","path":"test.assay","runner":"rust","targets":[]},"#,
            r#""summary":{"errored":0,"failed":0,"hard_passed":0,"hard_total":0,"objective":0.000000,"passed":0,"satisfied":false,"skipped":0,"soft_passed":0,"soft_total":0,"total":0},"#,
            r#""witnesses":[]}"#
        ].concat()
    );
}

#[test]
fn canonical_json_with_fingerprint_places_it_in_key_order() {
    let mut r = Report::empty_for_test("s", "b");
    r.report_fingerprint = "sha256:00".to_string();
    let full = r.canonical_json_with_fingerprint();
    let body = r.canonical_json();
    let head_end = body.find(",\"run\":").unwrap();
    assert_eq!(
        full,
        format!("{},\"report_fingerprint\":\"sha256:00\"{}", &body[..head_end], &body[head_end..])
    );
}

#[test]
fn json_strings_are_escaped() {
    let r = Report::empty_for_test("q\"b\\s\n\t\r\u{8}\u{c}\u{1}\u{1f} é", "b");
    let j = r.canonical_json();
    assert!(j.contains(r#""fingerprint":"q\"b\\s\n\t\r\b\f\u0001\u001f é""#), "{}", j);
}

#[test]
fn negative_exit_code_and_optional_fields_render() {
    let mut r = Report::empty_for_test("s", "b");
    r.run.exit_code = -2;
    r.run.timestamp_ms = 1715000000000;
    r.witnesses.push(WitnessResult {
        name: "w".to_string(),
        status: Status::Error,
        detail: Some("boom".to_string()),
        duration_ms: Some(7),
    });
    r.witnesses.push(result("v", Status::Skip));
    let j = r.canonical_json();
    assert!(j.contains(r#""exit_code":-2,"timestamp_ms":1715000000000"#), "{}", j);
    assert!(j.ends_with(
        r#""witnesses":[{"detail":"boom","duration_ms":7,"name":"w","status":"error"},{"detail":null,"duration_ms":null,"name":"v","status":"skip"}]}"#
    ), "{}", j);
}

#[test]
fn report_fingerprint_is_sha256_of_canonical_body() {
    let r = Report::empty_for_test("s", "b");
    let expected = format!("sha256:{}", sha256_hex(r.canonical_json().as_bytes()));
    assert_eq!(r.compute_fingerprint(), expected);
}

#[test]
fn report_fingerprint_field_does_not_change_fingerprint() {
    let mut r = Report::empty_for_test("s", "b");
    let before_json = r.canonical_json();
    let before = r.compute_fingerprint();
    r.report_fingerprint = before.clone();
    assert_eq!(r.canonical_json(), before_json);
    assert_eq!(r.compute_fingerprint(), before);
}

#[test]
fn fingerprint_wraps_sha256() {
    assert_eq!(
        fingerprint(b"abc"),
        "sha256:ba7816bf8f01cfea414140de5dae2223b00361a396177a9cb410ff61f20015ad"
    );
    assert_eq!(
        fingerprint(b""),
        "sha256:e3b0c44298fc1c149afbf4c8996fb92427ae41e4649b934ca495991b7852b855"
    );
}

#[test]
fn hex_encode_is_lowercase_two_digits_per_byte() {
    assert_eq!(assay::digest::hex_encode(&[0x00, 0x0f, 0xa0, 0xff]), "000fa0ff");
    assert_eq!(assay::digest::hex_encode(&[]), "");
}

#[test]
fn ratio_rounds_half_up_to_millionths() {
    assert_eq!(ratio_micros(1, 3), 333333);
    assert_eq!(ratio_micros(2, 3), 666667);
    assert_eq!(ratio_micros(1, 2), 500000);
    assert_eq!(ratio_micros(1, 2_000_000), 1);
    assert_eq!(ratio_micros(1, 3_000_000), 0);
    assert_eq!(ratio_micros(0, 5), 0);
    assert_eq!(ratio_micros(7, 7), 1_000_000);
    assert_eq!(ratio_micros(u128::MAX - 1, u128::MAX), 1_000_000);
    assert_eq!(ratio_micros(u128::MAX / 3, u128::MAX), 333333);
}

#[test]
fn objective_is_passed_share_of_soft_weight() {
    let spec = spec_with(vec![
        witness("a", Kind::Soft(micros(1_000_000))),
        witness("b", Kind::Soft(micros(2_000_000))),
        witness("h", Kind::Hard),
    ]);
    let s = summarize(&spec, &[result("a", Status::Pass), result("b", Status::Fail), result("h", Status::Pass)]);
    assert_eq!(s.objective, micros(333333));
    assert_eq!(s.soft_total, 2);
    assert_eq!(s.soft_passed, 1);
    assert!(s.satisfied);
    let s = summarize(&spec, &[result("a", Status::Fail), result("b", Status::Pass), result("h", Status::Pass)]);
    assert_eq!(s.objective, micros(666667));
}

#[test]
fn objective_is_one_without_soft_weight() {
    let spec = spec_with(vec![witness("h", Kind::Hard), witness("z", Kind::Soft(micros(0)))]);
    let s = summarize(&spec, &[result("h", Status::Fail), result("z", Status::Fail)]);
    assert_eq!(s.objective, micros(1_000_000));
    assert!(!s.satisfied);
}

#[test]
fn errored_result_blocks_satisfaction() {
    let spec = spec_with(vec![witness("h", Kind::Hard), witness("s", Kind::Soft(micros(1)))]);
    let s = summarize(&spec, &[result("h", Status::Pass), result("s", Status::Error)]);
    assert_eq!(s.errored, 1);
    assert_eq!(s.hard_passed, s.hard_total);
    assert!(!s.satisfied);
}

#[test]
fn counts_partition_results_and_judge_by_position() {
    let spec = spec_with(vec![witness("h1", Kind::Hard), witness("h2", Kind::Hard), witness("h3", Kind::Hard)]);
    let rs = [
        result("h1", Status::Pass),
        result("h2", Status::Skip),
    ];
    let s = summarize(&spec, &rs);
    assert_eq!(s.total, 2);
    assert_eq!(s.passed + s.failed + s.errored + s.skipped, s.total);
    assert_eq!(s.skipped, 1);
    assert_eq!(s.hard_total, 3);
    assert_eq!(s.hard_passed, 1);
    assert!(!s.satisfied);
    let more = [
        result("h1", Status::Pass),
        result("h2", Status::Pass),
        result("h3", Status::Pass),
        result("extra", Status::Fail),
    ];
    let s = summarize(&spec, &more);
    assert_eq!(s.total, 4);
    assert_eq!(s.failed, 1);
    assert_eq!(s.hard_total, 3);
    assert!(s.satisfied);
}

fn bundle() -> Bundle {
    let mut files = TextMap::new();
    files.insert("b.rs".to_string(), "é\n".to_string());
    files.insert("a.rs".to_string(), "xyz".to_string());
    let fingerprint = assay::bundle::compute_fingerprint(&files);
    Bundle { files, metadata: TextMap::new(), fingerprint }
}

fn run() -> RunOutput {
    RunOutput { exit_code: 0, stdout: String::new(), stderr: String::new(), duration_ms: 5, per_witness: Vec::new() }
}

#[test]
fn build_is_deterministic_but_for_the_timestamp() {
    let spec = spec_with(vec![witness("h", Kind::Hard)]);
    let b = bundle();
    let r1 = build_at("x.assay", &spec, &b, &run(), vec![result("h", Status::Pass)], 10);
    let r2 = build_at("x.assay", &spec, &b, &run(), vec![result("h", Status::Pass)], 10);
    let r3 = build_at("x.assay", &spec, &b, &run(), vec![result("h", Status::Pass)], 11);
    assert_eq!(r1.canonical_json_with_fingerprint(), r2.canonical_json_with_fingerprint());
    assert_ne!(r1.report_fingerprint, r3.report_fingerprint);
    assert_eq!(
        r1.canonical_json().replace("\"timestamp_ms\":10", "\"timestamp_ms\":11"),
        r3.canonical_json()
    );
}

#[test]
fn built_report_records_its_inputs() {
    let spec = spec_with(vec![witness("h", Kind::Hard)]);
    let b = bundle();
    let r = build_at("x.assay", &spec, &b, &run(), vec![result("h", Status::Pass)], 99);
    assert_eq!(r.assay_version, "2.0.0");
    assert_eq!(r.spec.path, "x.assay");
    assert_eq!(r.spec.fingerprint, spec.fingerprint());
    assert_eq!(r.spec.targets, vec!["src/lib.rs".to_string()]);
    assert_eq!(r.bundle.file_count, 2);
    assert_eq!(r.bundle.byte_count, 3 + 3);
    assert_eq!(r.bundle.fingerprint, b.fingerprint);
    assert_eq!(r.run.timestamp_ms, 99);
    assert_eq!(r.run.duration_ms, 5);
    assert!(!r.run.cached);
    assert_eq!(r.report_fingerprint, r.compute_fingerprint());
    assert!(r.summary.satisfied);
}

#[test]
fn spec_canonical_json_is_exact() {
    let mut spec = spec_with(vec![
        witness("h", Kind::Hard),
        witness("s", Kind::Soft(micros(1_500_000))),
    ]);
    spec.runner_args = vec!["--quiet".to_string()];
    spec.fixtures = vec![assay::spec::Fixture { name: "F".to_string(), body: "x".to_string() }];
    spec.objectives = vec![assay::spec::Objective {
        kind: assay::spec::ObjectiveKind::Minimise,
        name: "loc".to_string(),
        target: Some(micros(200_000_000)),
    }];
    assert_eq!(
        spec.canonical_json(),
        [
            r#"{"fixtures":[{"body":"x","name":"F"}],"lang":"rust","name":"t","#,
            r#""objectives":[{"kind":"minimise","name":"loc","target":200.000000}],"#,
            r#""runner":"rust","runner_args":["--quiet"],"targets":["src/lib.rs"],"#,
            r#""witnesses":[{"body":"true","kind":"hard","name":"h","weight":null},"#,
            r#"{"body":"true","kind":"soft","name":"s","weight":1.500000}]}"#
        ].concat()
    );
    assert_eq!(
        spec.fingerprint(),
        format!("sha256:{}", sha256_hex(spec.canonical_json().as_bytes()))
    );
}

#[test]
fn spec_fingerprint_tells_specs_apart() {
    let a = spec_with(vec![witness("h", Kind::Hard)]);
    let b = spec_with(vec![witness("h", Kind::Soft(micros(1)))]);
    assert_ne!(a.fingerprint(), b.fingerprint());
}

#[test]
fn hard_witness_without_result_is_a_failure() {
    let spec = spec_with(vec![witness("h", Kind::Hard)]);
    let s = summarize(&spec, &[]);
    assert_eq!(s.total, 0);
    assert_eq!(s.hard_total, 1);
    assert_eq!(s.hard_passed, 0);
    assert!(!s.satisfied);
    let spec = spec_with(vec![
        witness("s1", Kind::Soft(micros(1_000_000))),
        witness("s2", Kind::Soft(micros(3_000_000))),
    ]);
    let s = summarize(&spec, &[result("s1", Status::Pass)]);
    assert_eq!(s.soft_total, 2);
    assert_eq!(s.soft_passed, 1);
    assert_eq!(s.objective, micros(250_000));
    assert!(s.satisfied);
}

#[test]
fn turning_a_result_into_a_pass_never_hurts() {
    let spec = spec_with(vec![
        witness("h", Kind::Hard),
        witness("s", Kind::Soft(micros(2_000_000))),
        witness("t", Kind::Soft(micros(1_000_000))),
    ]);
    let before = [result("h", Status::Pass), result("s", Status::Error), result("t", Status::Pass)];
    let after = [result("h", Status::Pass), result("s", Status::Pass), result("t", Status::Pass)];
    let s1 = summarize(&spec, &before);
    let s2 = summarize(&spec, &after);
    assert_eq!(s2.passed, s1.passed + 1);
    assert!(s2.soft_passed >= s1.soft_passed);
    assert!(s2.hard_passed >= s1.hard_passed);
    assert!(!s1.satisfied);
    assert!(s2.satisfied);
    assert_eq!(s1.objective, micros(333333));
    assert_eq!(s2.objective, micros(1_000_000));
}
