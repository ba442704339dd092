use slop_gate::analysis::analyze_rust_file;
use slop_gate::artifact::{
    analyzer_fingerprint, analyzer_fingerprint_with_policy, is_git_object_id, IndexArtifact,
    ARTIFACT_VERSION, TOOL_VERSION,
};
use slop_gate::AppError;

fn commit() -> String {
    "a".repeat(40)
}

#[test]
fn artifact_rejects_parent_path() {
    let mut file = analyze_rust_file("src/lib.rs", "fn answer() {}\n").unwrap();
    file.path = "../lib.rs".to_string();
    assert!(IndexArtifact::new(commit(), vec![file]).is_err());
}

#[test]
fn artifact_rejects_the_previous_schema_version() {
    let file = analyze_rust_file("src/lib.rs", "fn answer() {}\n").unwrap();
    let mut artifact = IndexArtifact::new(commit(), vec![file]).unwrap();
    artifact.artifact_version = 1;
    assert!(artifact.validate().is_err());
}

#[test]
fn constructed_artifacts_validate_and_sort_files() {
    let b = analyze_rust_file("src/b.rs", "fn b() {}\n").unwrap();
    let a = analyze_rust_file("src/a.rs", "fn a() {}\n").unwrap();
    let artifact = IndexArtifact::new(commit(), vec![b, a]).unwrap();
    assert_eq!(artifact.artifact_version, ARTIFACT_VERSION);
    assert_eq!(artifact.tool_version, TOOL_VERSION);
    assert_eq!(artifact.analyzer_fingerprint, analyzer_fingerprint());
    let paths: Vec<&str> = artifact.files.iter().map(|f| f.path.as_str()).collect();
    assert_eq!(paths, ["src/a.rs", "src/b.rs"]);
    assert!(artifact.validate().is_ok());
}

#[test]
fn version_error_names_both_versions() {
    let mut artifact = IndexArtifact::new(commit(), Vec::new()).unwrap();
    artifact.artifact_version = 1;
    match artifact.validate() {
        Err(AppError::Invalid { subject, detail }) => {
            assert_eq!(subject, "artifact version");
            assert_eq!(detail, "1; expected 2");
        }
        other => panic!("unexpected result {other:?}"),
    }
}

#[test]
fn short_commits_are_refused() {
    match IndexArtifact::new("abc".to_string(), Vec::new()) {
        Err(AppError::Invalid { subject, .. }) => {
            assert_eq!(subject, "artifact repository_commit")
        }
        other => panic!("unexpected result {other:?}"),
    }
}

#[test]
fn duplicate_paths_are_refused() {
    let a = analyze_rust_file("src/a.rs", "fn a() {}\n").unwrap();
    let again = analyze_rust_file("src/a.rs", "fn b() {}\n").unwrap();
    match IndexArtifact::new(commit(), vec![a, again]) {
        Err(AppError::Invalid { subject, detail }) => {
            assert_eq!(subject, "artifact files");
            assert_eq!(detail, "must be strictly sorted by path");
        }
        other => panic!("unexpected result {other:?}"),
    }
}

#[test]
fn fingerprint_mismatch_is_refused() {
    let artifact = IndexArtifact::new(commit(), Vec::new()).unwrap();
    let policy = analyzer_fingerprint_with_policy("{}");
    assert_ne!(policy, analyzer_fingerprint());
    match artifact.validate_with_fingerprint(&policy) {
        Err(AppError::Invalid { subject, .. }) => {
            assert_eq!(subject, "artifact analyzer fingerprint")
        }
        other => panic!("unexpected result {other:?}"),
    }
}

#[test]
fn git_object_ids_are_forty_or_sixty_four_hex_digits() {
    assert!(is_git_object_id(&"0123456789abcdef".repeat(4)[..40]));
    assert!(is_git_object_id(&"ABCDEF0123456789".repeat(4)));
    assert!(!is_git_object_id(&"g".repeat(40)));
    assert!(!is_git_object_id(&"a".repeat(41)));
    assert!(!is_git_object_id(""));
}

#[test]
fn analyzer_fingerprint_is_a_blake3_hex_digest() {
    let fingerprint = analyzer_fingerprint();
    assert_eq!(fingerprint.len(), 64);
    assert!(fingerprint.chars().all(|c| c.is_ascii_hexdigit() && !c.is_ascii_uppercase()));
    assert_eq!(fingerprint, analyzer_fingerprint());
}
