use slop_gate::config::{GateConfig, RuleSeverity, Suppression};
use slop_gate::report::{
    push_if_enabled, render_human, rule_ids, sarif_level, severity_name, sort_findings, CheckReport, Finding,
    Location, Severity,
};
use slop_gate::AppError;

fn finding(rule: &str, path: &str, line: usize) -> Finding {
    Finding {
        rule_id: rule.to_string(),
        severity: Severity::Warning,
        message: format!("{rule} at {line}"),
        location: Location { path: path.to_string(), line },
        base_location: None,
        base_mass: None,
        head_mass: None,
        delta: None,
        threshold: None,
        similarity: None,
        properties: Vec::new(),
    }
}

#[test]
fn defaults_are_warning_only() {
    let config = GateConfig::defaults();
    assert_eq!(config.rules.function_mass.severity, RuleSeverity::Warn);
    assert_eq!(config.rules.near_clone.severity, RuleSeverity::Warn);
    assert_eq!(config.rules.lint_suppression.severity, RuleSeverity::Warn);
}

#[test]
fn default_policy_validates_and_is_recognized() {
    let config = GateConfig::defaults();
    assert!(config.validate(true, true).is_ok());
    assert!(config.is_default());
    let mut changed = GateConfig::defaults();
    changed.rules.near_clone.max_candidates = 8;
    assert!(!changed.is_default());
}

#[test]
fn invalid_policies_name_their_fault() {
    let mut config = GateConfig::defaults();
    config.version = 7;
    match config.validate(true, true) {
        Err(AppError::Invalid { subject, detail }) => {
            assert_eq!(subject, "configuration version");
            assert_eq!(detail, "7; expected 1");
        }
        other => panic!("unexpected result {other:?}"),
    }
    let config = GateConfig::defaults();
    assert!(config.validate(false, true).is_err());
    assert!(config.validate(true, false).is_err());
    let mut zero = GateConfig::defaults();
    zero.rules.near_clone.minimum_tokens = 0;
    assert!(zero.validate(true, true).is_err());
}

#[test]
fn suppressions_must_name_a_known_rule_and_a_reason() {
    let mut config = GateConfig::defaults();
    config.suppressions.push(Suppression {
        rule: "near-clone".to_string(),
        path: "src/lib.rs".to_string(),
        line: Some(3),
        reason: "generated".to_string(),
    });
    assert!(config.validate(true, true).is_ok());
    assert!(config.is_suppressed("near-clone", "src/lib.rs", 3));
    assert!(!config.is_suppressed("near-clone", "src/lib.rs", 4));
    assert!(!config.is_suppressed("function-mass", "src/lib.rs", 3));
    config.suppressions[0].reason = "   ".to_string();
    assert!(config.validate(true, true).is_err());
    config.suppressions[0].reason = "ok".to_string();
    config.suppressions[0].rule = "no-such-rule".to_string();
    assert!(config.validate(true, true).is_err());
}

#[test]
fn a_rule_switched_off_reports_nothing() {
    let mut config = GateConfig::defaults();
    config.rules.near_clone.severity = RuleSeverity::Off;
    let mut report = CheckReport::new();
    push_if_enabled(&mut report, finding("near-clone", "src/a.rs", 1), &config);
    assert!(report.findings.is_empty());
}

#[test]
fn governed_findings_take_the_configured_severity() {
    let mut config = GateConfig::defaults();
    config.rules.function_mass.severity = RuleSeverity::Error;
    let mut report = CheckReport::new();
    push_if_enabled(&mut report, finding("function-mass", "src/a.rs", 1), &config);
    push_if_enabled(&mut report, finding("near-clone", "src/a.rs", 2), &config);
    assert_eq!(report.findings[0].severity, Severity::Error);
    assert_eq!(report.findings[1].severity, Severity::Warning);
    assert!(report.has_errors());
}

#[test]
fn suppressed_findings_are_dropped_and_ungoverned_ones_kept() {
    let mut config = GateConfig::defaults();
    config.suppressions.push(Suppression {
        rule: "near-clone".to_string(),
        path: "src/a.rs".to_string(),
        line: None,
        reason: "reviewed".to_string(),
    });
    let mut report = CheckReport::new();
    push_if_enabled(&mut report, finding("near-clone", "src/a.rs", 9), &config);
    push_if_enabled(&mut report, finding("analysis-error", "src/a.rs", 1), &config);
    assert_eq!(report.findings.len(), 1);
    assert_eq!(report.findings[0].rule_id, "analysis-error");
    assert!(!report.has_errors());
}

#[test]
fn findings_sort_by_path_line_rule_and_related_path() {
    let mut report = CheckReport::new();
    report.findings.push(finding("near-clone", "src/b.rs", 1));
    report.findings.push(finding("near-clone", "src/a.rs", 10));
    report.findings.push(finding("function-mass", "src/a.rs", 10));
    report.findings.push(finding("near-clone", "src/a.rs", 2));
    let mut related = finding("near-clone", "src/a.rs", 2);
    related.base_location = Some(Location { path: "src/z.rs".to_string(), line: 1 });
    report.findings.push(related);
    sort_findings(&mut report);
    let keys: Vec<(String, usize, String, bool)> = report
        .findings
        .iter()
        .map(|f| {
            (
                f.location.path.clone(),
                f.location.line,
                f.rule_id.clone(),
                f.base_location.is_some(),
            )
        })
        .collect();
    assert_eq!(
        keys,
        [
            ("src/a.rs".to_string(), 2, "near-clone".to_string(), false),
            ("src/a.rs".to_string(), 2, "near-clone".to_string(), true),
            ("src/a.rs".to_string(), 10, "function-mass".to_string(), false),
            ("src/a.rs".to_string(), 10, "near-clone".to_string(), false),
            ("src/b.rs".to_string(), 1, "near-clone".to_string(), false),
        ]
    );
}

#[test]
fn human_rendering_lists_each_finding() {
    let empty = CheckReport::new();
    assert_eq!(render_human(&empty), "slop-gate: no findings\n");
    let mut report = CheckReport::new();
    let mut f = finding("near-clone", "src/a.rs", 12);
    f.severity = Severity::Error;
    f.message = "too similar".to_string();
    report.findings.push(f);
    assert_eq!(render_human(&report), "src/a.rs:12: error[near-clone]: too similar\n");
}

#[test]
fn severity_names() {
    assert_eq!(severity_name(Severity::Warning), "warning");
    assert_eq!(severity_name(Severity::Error), "error");
    assert_eq!(sarif_level(Severity::Warning), "warning");
    assert_eq!(sarif_level(Severity::Error), "error");
}

#[test]
fn sarif_rules_are_the_distinct_rule_ids_in_order() {
    let mut report = CheckReport::new();
    assert!(rule_ids(&report).is_empty());
    for rule in ["near-clone", "function-mass", "near-clone", "analysis-error", "function-mass"] {
        report.findings.push(finding(rule, "src/a.rs", 1));
    }
    assert_eq!(rule_ids(&report), vec!["analysis-error", "function-mass", "near-clone"]);
}
