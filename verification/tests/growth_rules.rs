use slop_gate::analysis::{lint_suppressions, unsafe_surface};
use slop_gate::config::{GateConfig, RuleSeverity, Suppression};
use slop_gate::diff::ChangedLineSet;
use slop_gate::facts::DependencyEdge;
use slop_gate::report::{CheckReport, Severity};
use slop_gate::rules::{
    dependency_surface_findings, lint_suppression_findings, unsafe_surface_findings,
};

fn property<'a>(props: &'a [(String, String)], key: &str) -> Option<&'a str> {
    props.iter().find(|(k, _)| k == key).map(|(_, v)| v.as_str())
}

fn lint_report(base: &str, head: &str, added: &[usize], config: &GateConfig) -> CheckReport {
    let base_facts = lint_suppressions("src/lib.rs", base).unwrap();
    let head_facts = lint_suppressions("src/lib.rs", head).unwrap();
    let mut report = CheckReport::new();
    lint_suppression_findings(
        &mut report,
        "src/lib.rs",
        &ChangedLineSet::from_lines(added),
        &head_facts,
        &base_facts,
        config,
    );
    report
}

#[test]
fn added_lint_suppression_is_a_warning() {
    let report = lint_report(
        "fn existing() {}\n",
        "#[allow(clippy::unwrap_used)]\nfn existing() {}\n",
        &[1],
        &GateConfig::defaults(),
    );
    assert_eq!(report.findings.len(), 1);
    let f = &report.findings[0];
    assert_eq!(f.rule_id, "lint-suppression-growth");
    assert_eq!(f.location.line, 1);
    assert_eq!(f.message, "new lint suppression introduced");
    assert_eq!(property(&f.properties, "pattern_id"), Some("allow"));
    assert_eq!(property(&f.properties, "lint_paths"), Some("clippy::unwrap_used"));
    assert!(!report.has_errors());
}

#[test]
fn broadened_suppression_is_reported_but_reformatting_is_not() {
    let broadened = lint_report(
        "#[allow(clippy::panic)]\nfn existing() {}\n",
        "#[allow( clippy::panic, clippy::unwrap_used )]\nfn existing() {}\n",
        &[1],
        &GateConfig::defaults(),
    );
    assert_eq!(broadened.findings.len(), 1);
    assert_eq!(broadened.findings[0].message, "lint suppression broadened");
    let reformatted = lint_report(
        "#[allow(dead_code)]\nfn existing() {}\n",
        "#[allow( dead_code )]\nfn existing() {}\n",
        &[1],
        &GateConfig::defaults(),
    );
    assert!(reformatted.findings.is_empty());
}

#[test]
fn lint_rule_honors_error_severity_and_configured_exceptions() {
    let mut errors = GateConfig::defaults();
    errors.rules.lint_suppression.severity = RuleSeverity::Error;
    let head = "#[allow(clippy::unwrap_used)]\nfn existing() {}\n";
    let report = lint_report("fn existing() {}\n", head, &[1], &errors);
    assert!(report.has_errors());
    let mut excepted = GateConfig::defaults();
    excepted.suppressions.push(Suppression {
        rule: "lint-suppression-growth".to_string(),
        path: "src/lib.rs".to_string(),
        line: Some(1),
        reason: "intentional".to_string(),
    });
    let report = lint_report("fn existing() {}\n", head, &[1], &excepted);
    assert!(report.findings.is_empty());
}

#[test]
fn suppressions_on_lines_not_added_are_ignored() {
    let report = lint_report(
        "fn existing() {}\n",
        "#[allow(clippy::unwrap_used)]\nfn existing() {}\n",
        &[2],
        &GateConfig::defaults(),
    );
    assert!(report.findings.is_empty());
}

#[test]
fn added_unsafe_block_is_reported_but_edited_existing_block_is_not() {
    let base = "fn existing() {\n    unsafe { let value = 1; let _ = value; }\n}\n";
    let head = "fn existing() {\n    unsafe { let _value = 3; }\n    unsafe { let value = 2; let _ = value; }\n}\n";
    let base_facts = unsafe_surface("src/lib.rs", base).unwrap();
    let head_facts = unsafe_surface("src/lib.rs", head).unwrap();
    let mut report = CheckReport::new();
    unsafe_surface_findings(
        &mut report,
        "src/lib.rs",
        &ChangedLineSet::from_lines(&[2, 3]),
        &head_facts,
        &base_facts,
        &GateConfig::defaults(),
    );
    assert_eq!(report.findings.len(), 1);
    assert_eq!(report.findings[0].rule_id, "unsafe-surface-growth");
    assert_eq!(report.findings[0].location.line, 2);
    assert_eq!(report.findings[0].message, "new unsafe-block introduced");
    assert_eq!(property(&report.findings[0].properties, "pattern_id"), Some("unsafe-block"));
    assert_eq!(report.findings[0].severity, Severity::Warning);
}

#[test]
fn unsafe_on_untouched_lines_is_never_reported() {
    let source = "unsafe fn f() {}\n";
    let facts = unsafe_surface("src/lib.rs", source).unwrap();
    let mut report = CheckReport::new();
    unsafe_surface_findings(
        &mut report,
        "src/lib.rs",
        &ChangedLineSet::from_lines(&[]),
        &facts,
        &Vec::new(),
        &GateConfig::defaults(),
    );
    assert!(report.findings.is_empty());
}

fn edge(key: &str, version: &str, default_features: bool, features: &[&str], line: usize) -> DependencyEdge {
    DependencyEdge {
        table_path: "dependencies".to_string(),
        dependency_key: key.to_string(),
        package: None,
        source_kind: "registry".to_string(),
        source: None,
        default_features,
        features: features.iter().map(|f| f.to_string()).collect(),
        version: Some(version.to_string()),
        line,
    }
}

#[test]
fn new_and_expanded_dependencies_are_reported_but_version_changes_are_not() {
    let base = vec![edge("foo", "1", false, &[], 3), edge("serde", "1", true, &[], 2)];
    let head = vec![
        edge("bar", "1", true, &[], 4),
        edge("foo", "1", true, &["derive"], 3),
        edge("serde", "2", true, &[], 2),
    ];
    let mut report = CheckReport::new();
    dependency_surface_findings(&mut report, "Cargo.toml", &head, &base, &GateConfig::defaults());
    assert_eq!(report.findings.len(), 2);
    let keyed: Vec<(Option<&str>, Option<&str>)> = report
        .findings
        .iter()
        .map(|f| (property(&f.properties, "dependency_key"), property(&f.properties, "pattern_id")))
        .collect();
    assert!(keyed.contains(&(Some("bar"), Some("new-dependency"))));
    assert!(keyed.contains(&(Some("foo"), Some("expanded-dependency-surface"))));
    assert_eq!(report.findings[0].message, "new-dependency: bar");
    assert_eq!(report.findings[0].location.line, 4);
}

#[test]
fn unchanged_dependency_edges_report_nothing() {
    let edges = vec![edge("serde", "1", true, &["derive"], 2)];
    let mut report = CheckReport::new();
    dependency_surface_findings(&mut report, "nested/Cargo.toml", &edges, &edges, &GateConfig::defaults());
    assert!(report.findings.is_empty());
}

#[test]
fn dependency_rule_honors_error_severity_and_exceptions() {
    let head = vec![edge("bar", "1", true, &[], 4)];
    let mut errors = GateConfig::defaults();
    errors.rules.dependency_surface.severity = RuleSeverity::Error;
    let mut report = CheckReport::new();
    dependency_surface_findings(&mut report, "Cargo.toml", &head, &Vec::new(), &errors);
    assert!(report.has_errors());
    let mut excepted = GateConfig::defaults();
    excepted.suppressions.push(Suppression {
        rule: "dependency-surface-growth".to_string(),
        path: "Cargo.toml".to_string(),
        line: Some(4),
        reason: "reviewed".to_string(),
    });
    let mut report = CheckReport::new();
    dependency_surface_findings(&mut report, "Cargo.toml", &head, &Vec::new(), &excepted);
    assert!(report.findings.is_empty());
}
