use assay::bundle::repomix::parse;

const MINIMAL: &str = r#"<file_summary>
<purpose>test</purpose>
</file_summary>

<directory_structure>
src/lib.rs
</directory_structure>

<files>
<file path="src/lib.rs">
<![CDATA[
pub fn f() -> i32 { 1 }
]]>
</file>
</files>"#;

#[test]
fn test_w8_bundle_parser_repomix() {
    let bundle = parse(MINIMAL).unwrap();
    assert!(bundle.files.contains_key("src/lib.rs"));
    assert_eq!(bundle.files.get("src/lib.rs").unwrap(), "pub fn f() -> i32 { 1 }");
}

#[test]
fn test_w9_bundle_fingerprint_deterministic() {
    let b1 = parse(MINIMAL).unwrap();
    let b2 = parse(MINIMAL).unwrap();
    assert_eq!(b1.fingerprint, b2.fingerprint);
    assert!(b1.fingerprint.starts_with("sha256:"));
}

#[test]
fn test_w10_bundle_fingerprint_order_independent() {
    let a = r#"<file_summary/>
<directory_structure>x</directory_structure>
<files>
<file path="a.rs"><![CDATA[aa]]></file>
<file path="b.rs"><![CDATA[bb]]></file>
</files>"#;

    let b = r#"<file_summary/>
<directory_structure>x</directory_structure>
<files>
<file path="b.rs"><![CDATA[bb]]></file>
<file path="a.rs"><![CDATA[aa]]></file>
</files>"#;

    let ba = parse(a).unwrap();
    let bb = parse(b).unwrap();
    assert_eq!(ba.fingerprint, bb.fingerprint);
}

#[test]
fn test_w13_bundle_parser_handles_terminator_inside_cdata() {
    // One file's content contains the literal "</file>".
    // The parser must not truncate the block there.
    let xml = r#"<file_summary/>
<directory_structure>x</directory_structure>
<files>
<file path="a.rs"><![CDATA[fn f() { let s = "</file>"; }]]></file>
<file path="b.rs"><![CDATA[hello]]></file>
</files>"#;
    let bundle = parse(xml).unwrap();
    assert_eq!(bundle.files.len(), 2);
    assert!(bundle.files.get("a.rs").unwrap().contains("</file>"),
        "file a must retain the literal terminator string");
    assert_eq!(bundle.files.get("b.rs").unwrap(), "hello");
}
