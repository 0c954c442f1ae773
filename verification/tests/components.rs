use assay::orchestration::orchestrator::Orchestrator;
use assay::runner::node::{NodeRunner, RunnerError};
use assay::runner::RunOutput;
use assay::text_map::TextMap;
use assay::verify::{plan, select_runner, RunnerKind, VerifyError};

#[test]
fn text_map_reads_back_what_was_written() {
    let mut m = TextMap::new();
    assert_eq!(m.len(), 0);
    m.insert("b".to_string(), "1".to_string());
    m.insert("a".to_string(), "2".to_string());
    m.insert("b".to_string(), "3".to_string());
    assert_eq!(m.len(), 2);
    assert_eq!(m.get("a").unwrap(), "2");
    assert_eq!(m.get("b").unwrap(), "3");
    assert!(m.get("c").is_none());
    assert!(m.contains_key("a"));
    assert!(!m.contains_key("c"));
    let (k0, v0) = m.entry(0);
    let (k1, _) = m.entry(1);
    assert_eq!((k0.as_str(), v0.as_str()), ("a", "2"));
    assert_eq!(k1, "b");
}

#[test]
fn select_runner_knows_four_runners() {
    assert_eq!(select_runner("rust").unwrap(), RunnerKind::Rust);
    assert_eq!(select_runner("python").unwrap(), RunnerKind::Python);
    assert_eq!(select_runner("node").unwrap(), RunnerKind::Node);
    assert_eq!(select_runner("shell").unwrap(), RunnerKind::Shell);
    assert!(matches!(select_runner("Rust"), Err(VerifyError::UnknownRunner(ref n)) if n == "Rust"));
    assert!(matches!(select_runner(""), Err(VerifyError::UnknownRunner(ref n)) if n.is_empty()));
}

const SPEC: &str = "spec \"p\"\ntarget \"src/lib.rs\"\nrunner node\nlang js\n";
const BUNDLE: &str = "<files><file path=\"src/lib.rs\">x</file></files>";

#[test]
fn plan_parses_both_and_selects_runner() {
    let p = plan(SPEC, BUNDLE).unwrap();
    assert_eq!(p.runner, RunnerKind::Node);
    assert_eq!(p.spec.name, "p");
    assert_eq!(p.bundle.files.get("src/lib.rs").unwrap(), "x");
}

#[test]
fn plan_reports_spec_then_bundle_errors() {
    assert!(matches!(plan("spec \"p\"\n", "nothing"), Err(VerifyError::Spec(assay::spec::parser::SpecError::MissingTarget))));
    assert!(matches!(plan(SPEC, "nothing"), Err(VerifyError::Bundle(assay::bundle::repomix::BundleError::MissingFiles))));
}

#[test]
fn node_runner_is_not_implemented() {
    let r = NodeRunner;
    assert_eq!(r.name(), "node");
    let spec = plan(SPEC, BUNDLE).unwrap();
    assert_eq!(
        r.prepare("/tmp", &spec.spec, &spec.bundle, &spec.spec.witnesses),
        Err(RunnerError::NotImplemented("node".to_string()))
    );
    assert!(matches!(r.invoke("/tmp", &[]), Err(RunnerError::NotImplemented(ref n)) if n == "node"));
    let out = RunOutput { exit_code: 0, stdout: String::new(), stderr: String::new(), duration_ms: 0, per_witness: Vec::new() };
    assert!(r.parse(&out, &spec.spec.witnesses).is_empty());
}

#[test]
fn orchestrator_defaults() {
    let o = Orchestrator::new();
    assert_eq!(o.max_iterations, 50);
    assert_eq!(o.convergence_k, 3);
    assert!(o.run().is_ok());
}
