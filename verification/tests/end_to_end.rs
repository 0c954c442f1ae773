use assay::verify::{plan, VerifyError};

/// Construct a bundle XML from a set of (path, content) pairs.
/// This is the minimal Repomix shape our parser accepts.
fn make_bundle_xml(files: &[(&str, &str)]) -> String {
    let mut out = String::new();
    out.push_str("<file_summary>\n<purpose>test</purpose>\n</file_summary>\n\n");
    out.push_str("<directory_structure>\n");
    for (p, _) in files {
        out.push_str(p);
        out.push('\n');
    }
    out.push_str("</directory_structure>\n\n<files>\n");
    for (p, c) in files {
        out.push_str(&format!(
            "<file path=\"{}\">\n<![CDATA[\n{}\n]]>\n</file>\n",
            p, c
        ));
    }
    out.push_str("</files>\n");
    out
}

#[test]
fn test_end_to_end_unknown_runner() {
    let spec_content = r#"
spec "e2e"
target "src/lib.rs"
runner cobol
lang rust

witness "x" hard {
    true
}
"#;

    let result = plan(spec_content, &make_bundle_xml(&[("src/lib.rs", "")]));

    assert!(result.is_err(), "unknown runner should error");
    assert!(matches!(result, Err(VerifyError::UnknownRunner(ref n)) if n == "cobol"));
}
