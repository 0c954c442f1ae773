use assay::bundle::repomix::{parse as parse_bundle, BundleError};
use assay::bundle::Bundle;
use assay::spec::parser::{parse as parse_spec, SpecError};
use assay::decimal::Decimal;
use assay::witness::Kind;

const HEAD: &str = "spec \"s\"\ntarget \"src/lib.rs\"\nrunner rust\nlang rust\n";

fn spec_err(text: &str) -> SpecError {
    parse_spec(text).unwrap_err()
}

#[test]
fn spec_reads_fixtures_args_and_several_targets() {
    let text = "spec \"full\"\ntarget \"a.rs\"\ntarget \"b.rs\"\nrunner   rust  \nrunner_args [\"--quiet\", \"-j, 2\"]\nlang rust\nfixture VALID {\n    const X: u8 = 1;\n\n      const Y: u8 = 2;\n}\nwitness \"w\" soft weight 2.25 {\n  true\n}\n";
    let s = parse_spec(text).unwrap();
    assert_eq!(s.name, "full");
    assert_eq!(s.targets, vec!["a.rs", "b.rs"]);
    assert_eq!(s.runner, "rust");
    assert_eq!(s.runner_args, vec!["--quiet", "-j, 2"]);
    assert_eq!(s.fixtures.len(), 1);
    assert_eq!(s.fixtures[0].name, "VALID");
    assert_eq!(s.fixtures[0].body, "const X: u8 = 1;\n\n  const Y: u8 = 2;");
    assert_eq!(s.witnesses[0].kind, Kind::Soft(Decimal { micros: 2_250_000 }));
}

#[test]
fn spec_accepts_crlf_lines_and_empty_args() {
    let text = "spec \"c\"\r\ntarget \"a.rs\"\r\nrunner rust\r\nrunner_args []\r\nlang rust\r\nwitness \"w\" hard {\r\n    ok\r\n}\r\n";
    let s = parse_spec(text).unwrap();
    assert_eq!(s.name, "c");
    assert!(s.runner_args.is_empty());
    assert_eq!(s.witnesses[0].body, "ok");
}

#[test]
fn spec_error_expected_quoted() {
    assert_eq!(spec_err("spec min\n"), SpecError::ExpectedQuoted);
}

#[test]
fn spec_error_unterminated_quoted() {
    assert_eq!(spec_err("spec \"min\n"), SpecError::UnterminatedQuoted);
}

#[test]
fn spec_error_trailing_content() {
    assert_eq!(spec_err("spec \"a\" b\n"), SpecError::TrailingContent(" b".to_string()));
}

#[test]
fn spec_error_expected_array() {
    assert_eq!(spec_err("runner_args --quiet\n"), SpecError::ExpectedArray);
}

#[test]
fn spec_error_duplicate_spec() {
    assert_eq!(spec_err("spec \"a\"\n\nspec \"b\"\n"), SpecError::DuplicateSpec(3));
}

#[test]
fn spec_error_duplicate_runner() {
    assert_eq!(spec_err("runner rust\nrunner python\n"), SpecError::DuplicateRunner(2));
}

#[test]
fn spec_error_fixture_brace() {
    assert_eq!(spec_err(&format!("{}fixture F\n", HEAD)), SpecError::FixtureBrace(5));
}

#[test]
fn spec_error_witness_brace() {
    assert_eq!(spec_err(&format!("{}witness \"w\" hard\n", HEAD)), SpecError::WitnessBrace(5));
}

#[test]
fn spec_error_objective_brace() {
    assert_eq!(spec_err(&format!("{}objective x {{\n}}\n", HEAD)), SpecError::ObjectiveBrace(5));
}

#[test]
fn spec_error_unterminated_block() {
    assert_eq!(
        spec_err(&format!("{}witness \"w\" hard {{\n  true\n", HEAD)),
        SpecError::UnterminatedBlock(5)
    );
}

#[test]
fn spec_error_bad_weight() {
    assert_eq!(
        spec_err(&format!("{}witness \"w\" soft weight much {{\n}}\n", HEAD)),
        SpecError::BadWeight(5)
    );
}

#[test]
fn spec_error_unknown_mode() {
    assert_eq!(
        spec_err(&format!("{}witness \"w\" medium {{\n}}\n", HEAD)),
        SpecError::UnknownMode("medium".to_string(), 5)
    );
}

#[test]
fn spec_error_unknown_objective() {
    assert_eq!(
        spec_err(&format!("{}objective {{\n  optimises \"x\"\n}}\n", HEAD)),
        SpecError::UnknownObjective(6, "optimises".to_string())
    );
}

#[test]
fn spec_error_bad_objective_target() {
    assert_eq!(
        spec_err(&format!("{}objective {{\n  minimises \"x\" goal 3\n}}\n", HEAD)),
        SpecError::BadObjectiveTarget(6)
    );
}

#[test]
fn spec_error_unknown_keyword() {
    assert_eq!(spec_err("spec \"a\"\nversion 2\n"), SpecError::UnknownKeyword(2, "version".to_string()));
}

#[test]
fn spec_error_missing_directives() {
    assert_eq!(spec_err("target \"a\"\nrunner r\nlang l\n"), SpecError::MissingSpec);
    assert_eq!(spec_err("spec \"a\"\nrunner r\nlang l\n"), SpecError::MissingTarget);
    assert_eq!(spec_err("spec \"a\"\ntarget \"a\"\nlang l\n"), SpecError::MissingRunner);
    assert_eq!(spec_err("spec \"a\"\ntarget \"a\"\nrunner r\n"), SpecError::MissingLang);
}

fn files_doc(inner: &str) -> String {
    format!("<file_summary>\n  about  \n</file_summary>\n<files>\n{}\n</files>", inner)
}

fn bundle(inner: &str) -> Bundle {
    parse_bundle(&files_doc(inner)).unwrap()
}

fn bundle_err(doc: &str) -> BundleError {
    parse_bundle(doc).unwrap_err()
}

#[test]
fn bundle_records_summary_as_raw_metadata() {
    let b = bundle("");
    assert_eq!(b.metadata.get("raw").unwrap(), "about");
    assert_eq!(b.metadata.len(), 1);
    assert_eq!(b.files.len(), 0);
}

#[test]
fn bundle_stitches_cdata_and_strips_one_newline() {
    let b = bundle("<file path=\"x\"><![CDATA[\r\na]]]]><![CDATA[>b\n\n]]></file>");
    assert_eq!(b.files.get("x").unwrap(), "a]]>b\n");
}

#[test]
fn bundle_without_cdata_trims_body() {
    let b = bundle("<file path=\"x\">\n   plain text  \n</file>");
    assert_eq!(b.files.get("x").unwrap(), "plain text");
}

#[test]
fn bundle_normalises_backslashes_and_later_path_wins() {
    let b = bundle("<file path=\"src\\a.rs\">one</file><file  path = \"src/a.rs\" >two</file>");
    assert_eq!(b.files.len(), 1);
    assert_eq!(b.files.get("src/a.rs").unwrap(), "two");
}

#[test]
fn bundle_fingerprint_covers_paths_and_contents() {
    let a = bundle("<file path=\"a\">x</file>");
    let b = bundle("<file path=\"a\">y</file>");
    let c = bundle("<file path=\"b\">x</file>");
    assert_ne!(a.fingerprint, b.fingerprint);
    assert_ne!(a.fingerprint, c.fingerprint);
    assert_eq!(a.fingerprint, assay::bundle::compute_fingerprint(&a.files));
}

#[test]
fn bundle_fingerprint_ignores_metadata() {
    let a = parse_bundle("<file_summary>one</file_summary><files><file path=\"a\">x</file></files>").unwrap();
    let b = parse_bundle("<file_summary>two</file_summary><files><file path=\"a\">x</file></files>").unwrap();
    assert_eq!(a.fingerprint, b.fingerprint);
}

#[test]
fn bundle_error_missing_files() {
    assert_eq!(bundle_err("<file_summary/>"), BundleError::MissingFiles);
}

#[test]
fn bundle_error_missing_files_end() {
    assert_eq!(bundle_err("<files><file path=\"a\">x</file>"), BundleError::MissingFilesEnd);
}

#[test]
fn bundle_error_unterminated_file_tag() {
    assert_eq!(bundle_err("<files><file path=\"a\"</files>"), BundleError::UnterminatedFileTag);
}

#[test]
fn bundle_error_malformed_attribute() {
    assert_eq!(
        bundle_err("<files><file  path \"a\" >x</file></files>"),
        BundleError::MalformedAttribute("path \"a\"".to_string())
    );
}

#[test]
fn bundle_error_unquoted_path() {
    assert_eq!(
        bundle_err("<files><file path=a>x</file></files>"),
        BundleError::UnquotedPath("path=a".to_string())
    );
}

#[test]
fn bundle_error_unsafe_path() {
    assert_eq!(
        bundle_err("<files><file path=\"..\\etc/passwd\">x</file></files>"),
        BundleError::UnsafePath("../etc/passwd".to_string())
    );
    assert_eq!(
        bundle_err("<files><file path=\"src/../x\">x</file></files>"),
        BundleError::UnsafePath("src/../x".to_string())
    );
}

#[test]
fn bundle_error_unterminated_cdata() {
    assert_eq!(
        bundle_err("<files><file path=\"a\"><![CDATA[x</file></files>"),
        BundleError::UnterminatedCdata("a".to_string())
    );
}

#[test]
fn bundle_error_missing_file_end() {
    assert_eq!(
        bundle_err("<files><file path=\"a\">x</files>"),
        BundleError::MissingFileEnd("a".to_string())
    );
}

#[test]
fn empty_bundle_has_nothing() {
    let b = Bundle::empty();
    assert_eq!(b.files.len(), 0);
    assert_eq!(b.metadata.len(), 0);
    assert_eq!(b.fingerprint, "");
}

fn weight_of(w: &str) -> Result<Kind, SpecError> {
    let text = format!("{}witness \"w\" soft weight {} {{\n  true\n}}\n", HEAD, w);
    parse_spec(&text).map(|s| s.witnesses[0].kind)
}

#[test]
fn weights_round_half_up_to_six_places() {
    assert_eq!(weight_of("0.0000004").unwrap(), Kind::Soft(Decimal { micros: 0 }));
    assert_eq!(weight_of("0.0000005").unwrap(), Kind::Soft(Decimal { micros: 1 }));
    assert_eq!(weight_of("0.1234565").unwrap(), Kind::Soft(Decimal { micros: 123457 }));
    assert_eq!(weight_of("1.9999999").unwrap(), Kind::Soft(Decimal { micros: 2_000_000 }));
    assert_eq!(weight_of("3").unwrap(), Kind::Soft(Decimal { micros: 3_000_000 }));
    assert_eq!(weight_of("-1").unwrap_err(), SpecError::BadWeight(5));
    assert_eq!(weight_of("1.").unwrap_err(), SpecError::BadWeight(5));
}

fn written_bundle(sep: &str, around: &str, last: &str, files: &[(&str, &str)]) -> String {
    let mut out = String::from("<file_summary>\n<purpose>test</purpose>\n</file_summary>\n<files>");
    for (p, c) in files {
        out.push_str(&format!(
            "{}<file path=\"{}\">{}<![CDATA[\n{}\n]]>{}</file>",
            sep, p, around, c, around
        ));
    }
    out.push_str(last);
    out.push_str("</files>\n");
    out
}

#[test]
fn bundle_reads_back_what_was_written() {
    let files = [("src/lib.rs", "  fn f() { \"</file>\" }\n\n"), ("a b=c.rs", "x, [y]")];
    let b = parse_bundle(&written_bundle("\n", "\n", "\n", &files)).unwrap();
    assert_eq!(b.files.len(), 2);
    assert_eq!(b.files.get("src/lib.rs").unwrap(), files[0].1);
    assert_eq!(b.files.get("a b=c.rs").unwrap(), files[1].1);
}

#[test]
fn bundle_ignores_whitespace_around_elements_and_cdata() {
    let files = [("a.rs", "one"), ("b.rs", " two ")];
    let plain = parse_bundle(&written_bundle("\n", "\n", "\n", &files)).unwrap();
    let spaced = parse_bundle(&written_bundle(" \t\n  ", "\r\n  ", "", &files)).unwrap();
    assert_eq!(plain.fingerprint, spaced.fingerprint);
    assert_eq!(spaced.files.get("b.rs").unwrap(), " two ");
}

#[test]
fn spec_arrays_and_quotes_read_back() {
    let text = "spec    \"n, [x]\"\ntarget \"a.rs\"\nrunner r\nrunner_args [\"a, b\", \"[x]\", \"\"]\nlang l\n";
    let s = parse_spec(text).unwrap();
    assert_eq!(s.name, "n, [x]");
    assert_eq!(s.runner_args, vec!["a, b", "[x]", ""]);
}

#[test]
fn bundle_reads_the_same_under_other_spacing_and_prefix() {
    let a = "<files>\n<file  path = \"x.rs\" ><![CDATA[raw]]></file>\n<file path=\"y\">\n<![CDATA[\nline\n]]>\n</file>\n</files>\n";
    let b = "intro <file_summary>s</file_summary>\n<files>\t<file  path = \"x.rs\" >  <![CDATA[raw]]>\t</file><file path=\"y\"><![CDATA[\nline\n]]></file>  \n </files>\n";
    let ba = parse_bundle(a).unwrap();
    let bb = parse_bundle(b).unwrap();
    assert_eq!(ba.fingerprint, bb.fingerprint);
    assert_eq!(bb.files.get("x.rs").unwrap(), "raw");
    assert_eq!(bb.files.get("y").unwrap(), "line");
    assert_ne!(ba.metadata.get("raw"), bb.metadata.get("raw"));
}

#[test]
fn split_cdata_reads_the_same_under_other_spacing() {
    let a = "<files><file path=\"x\"><![CDATA[\na]]]]><![CDATA[>b\n]]></file></files>\n";
    let b = "<files>\n  <file path=\"x\">\n\t<![CDATA[\na]]]]><![CDATA[>b\n]]>  \n</file>\n</files>\n";
    let ba = parse_bundle(a).unwrap();
    let bb = parse_bundle(b).unwrap();
    assert_eq!(ba.files.get("x").unwrap(), "a]]>b");
    assert_eq!(ba.fingerprint, bb.fingerprint);
    assert_eq!(bb.files.get("x").unwrap(), "a]]>b");
}
