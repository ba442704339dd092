use slop_gate::analysis::analyze_rust_file;
use slop_gate::artifact::{analyzer_fingerprint, analyzer_fingerprint_with_policy, IndexArtifact};
use slop_gate::config::GateConfig;
use slop_gate::gate::{
    analysis_error_finding, base_function, check_baseline, check_history_count,
    complexity_profile, expected_fingerprint, mass_plan, materially_changed, renamed_identity,
};
use slop_gate::measure::{value_eq, value_lt};
use slop_gate::report::Severity;
use slop_gate::AppError;

fn artifact() -> IndexArtifact {
    let file = analyze_rust_file("src/lib.rs", "fn existing() {}\nfn other() { if true {} }\n").unwrap();
    IndexArtifact::new("b".repeat(40), vec![file]).unwrap()
}

#[test]
fn a_baseline_for_another_commit_is_refused() {
    let artifact = artifact();
    match check_baseline(&artifact, &"c".repeat(40), &analyzer_fingerprint()) {
        Err(AppError::Invalid { subject, detail }) => {
            assert_eq!(subject, "baseline artifact");
            assert_eq!(
                detail,
                format!("was built for {}, but --base resolves to {}", "b".repeat(40), "c".repeat(40))
            );
        }
        other => panic!("unexpected result {other:?}"),
    }
    assert!(check_baseline(&artifact, &"b".repeat(40), &analyzer_fingerprint()).is_ok());
}

#[test]
fn the_default_policy_keeps_the_plain_fingerprint() {
    let artifact = artifact();
    let defaults = GateConfig::defaults();
    assert_eq!(expected_fingerprint(&artifact, &defaults, "{}"), analyzer_fingerprint());
    let mut strict = GateConfig::defaults();
    strict.rules.near_clone.minimum_sloc = 3;
    assert_eq!(
        expected_fingerprint(&artifact, &strict, "{\"policy\":1}"),
        analyzer_fingerprint_with_policy("{\"policy\":1}")
    );
}

#[test]
fn base_functions_are_found_under_renamed_paths() {
    let artifact = artifact();
    let head = analyze_rust_file("src/moved.rs", "fn existing() {}\n").unwrap();
    let function = &head.functions[0];
    assert!(base_function(&artifact, &function.identity).is_none());
    let previous = "src/lib.rs".to_string();
    let identity = renamed_identity(&function.identity, Some(&previous));
    assert_eq!(identity.path, "src/lib.rs");
    assert_eq!(identity.qualified_name, "existing");
    let base = base_function(&artifact, &identity).unwrap();
    assert_eq!(base.name, "existing");
    assert!(!materially_changed(function, Some(base)));
    assert!(materially_changed(function, None));
    let other = base_function(&artifact, &renamed_identity(&analyze_rust_file("src/x.rs", "fn other() {}\n").unwrap().functions[0].identity, Some(&previous))).unwrap();
    assert!(materially_changed(function, Some(other)));
}

#[test]
fn unanalyzable_files_become_warnings() {
    let f = analysis_error_finding("src/broken.rs", "Rust source contains syntax errors");
    assert_eq!(f.rule_id, "analysis-error");
    assert_eq!(f.severity, Severity::Warning);
    assert_eq!(f.location.path, "src/broken.rs");
    assert_eq!(f.location.line, 1);
    assert_eq!(f.message, "skipped src/broken.rs: Rust source contains syntax errors");
}

#[test]
fn measured_values_compare_as_doubles() {
    assert!(value_lt(0.5f64.to_bits(), 0.85f64.to_bits()));
    assert!(!value_lt(0.85f64.to_bits(), 0.85f64.to_bits()));
    assert!(value_lt((-3.0f64).to_bits(), 2.0f64.to_bits()));
    assert!(value_lt((-3.0f64).to_bits(), (-1.0f64).to_bits()));
    assert!(value_eq((-0.0f64).to_bits(), 0.0f64.to_bits()));
    assert!(value_lt(20.0f64.to_bits(), f64::INFINITY.to_bits()));
}

#[test]
fn complexity_profile_counts_functions_above_the_cutoff() {
    let simple = analyze_rust_file("src/a.rs", "fn a() {}\nfn b(x: bool) { if x {} }\n").unwrap();
    let branchy = analyze_rust_file(
        "src/b.rs",
        "fn c(x: u8) { if x == 1 {} if x == 2 {} if x == 3 {} }\n",
    )
    .unwrap();
    let files = vec![simple, branchy];
    let profile = complexity_profile(&files, 1);
    assert_eq!(profile.high_complexity_function_count, 2);
    assert_eq!(profile.maximum_function_cc, 4);
    let profile = complexity_profile(&files, 3);
    assert_eq!(profile.high_complexity_function_count, 1);
    let empty = complexity_profile(&Vec::new(), 10);
    assert_eq!(empty.high_complexity_function_count, 0);
    assert_eq!(empty.maximum_function_cc, 0);
}

#[test]
fn history_lengths_outside_one_to_one_hundred_are_refused() {
    assert!(check_history_count(1).is_ok());
    assert!(check_history_count(100).is_ok());
    for count in [0, 101] {
        match check_history_count(count) {
            Err(AppError::Invalid { subject, detail }) => {
                assert_eq!(subject, "history count");
                assert_eq!(detail, "must be within 1..=100");
            }
            other => panic!("unexpected result {other:?}"),
        }
    }
}

#[test]
fn the_mass_plan_follows_the_base_function() {
    let artifact = artifact();
    let same = analyze_rust_file("src/lib.rs", "fn existing() {}\n").unwrap();
    let function = &same.functions[0];
    let base = base_function(&artifact, &function.identity);
    let plan = mass_plan(function, base, true, true);
    assert!(!plan.report_growth && !plan.report_new && !plan.find_clone);
    let grown = analyze_rust_file("src/lib.rs", "fn existing() { if true {} }\n").unwrap();
    let function = &grown.functions[0];
    let plan = mass_plan(function, base_function(&artifact, &function.identity), true, true);
    assert!(plan.report_growth && !plan.report_new && plan.find_clone);
    let plan = mass_plan(function, base_function(&artifact, &function.identity), false, true);
    assert!(!plan.report_growth && plan.find_clone);
    let fresh = analyze_rust_file("src/lib.rs", "fn fresh() {}\n").unwrap();
    let function = &fresh.functions[0];
    let plan = mass_plan(function, base_function(&artifact, &function.identity), true, true);
    assert!(!plan.report_growth && plan.report_new && plan.find_clone);
    let plan = mass_plan(function, None, true, false);
    assert!(!plan.report_new && plan.find_clone);
}
