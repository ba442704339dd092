use slop_gate::manifest::{canonical_header, dependency_edges, dependency_line, normalize_locator};
use slop_gate::AppError;

#[test]
fn extracts_normalized_direct_dependency_edges() {
    let source = r#"[dependencies]
serde = "1"
serde_json = { package = "serde_json", version = "1", features = ["std", "derive"], default-features = false }
workspace_dep = { workspace = true }

[dev-dependencies]
ignored = "1"

[target.'cfg(unix)'.build-dependencies]
cc = { git = "https://example.invalid/cc" }
"#;
    let edges = dependency_edges(source).unwrap();
    assert_eq!(edges.len(), 4);
    let serde_json = edges
        .iter()
        .find(|edge| edge.dependency_key == "serde_json")
        .unwrap();
    assert_eq!(serde_json.features, ["derive", "std"]);
    assert!(!serde_json.default_features);
    let cc = edges
        .iter()
        .find(|edge| edge.dependency_key == "cc")
        .unwrap();
    assert_eq!(cc.source_kind, "git");
    assert_eq!(cc.table_path, "target.cfg(unix).build-dependencies");
    assert_eq!(cc.line, 10);
    let workspace = edges
        .iter()
        .find(|edge| edge.dependency_key == "workspace_dep")
        .unwrap();
    assert_eq!(workspace.source_kind, "unspecified");
}

#[test]
fn rejects_malformed_cargo_manifest() {
    assert!(dependency_edges("[dependencies\nserde = \"1\"\n").is_err());
    match dependency_edges("[dependencies\nserde = \"1\"\n") {
        Err(AppError::Invalid { subject, .. }) => assert_eq!(subject, "Cargo manifest"),
        other => panic!("unexpected result {other:?}"),
    }
}

#[test]
fn rejects_structurally_invalid_dependency_tables() {
    assert!(dependency_edges("[dependencies]\nserde = true\n").is_err());
    assert!(dependency_edges("dependencies = \"invalid\"\n").is_err());
    assert!(dependency_edges("target = \"invalid\"\n").is_err());
    assert!(dependency_edges("[target]\nwasm = \"invalid\"\n").is_err());
}

#[test]
fn finds_dependency_lines_with_optional_toml_whitespace() {
    let source = "[dependencies]\nserde=\"1\"\n\"serde_json\" = { version = \"1\" }\n";
    let edges = dependency_edges(source).unwrap();
    assert_eq!(
        edges
            .iter()
            .map(|edge| (edge.dependency_key.as_str(), edge.line))
            .collect::<Vec<_>>(),
        [("serde", 2), ("serde_json", 3)]
    );
}

#[test]
fn invalid_dependency_errors_name_the_entry() {
    match dependency_edges("[dependencies]\nserde = true\n") {
        Err(AppError::Invalid { subject, detail }) => {
            assert_eq!(subject, "Cargo dependency");
            assert_eq!(detail, "dependencies.serde must be a string or table");
        }
        other => panic!("unexpected result {other:?}"),
    }
    match dependency_edges("[target]\nwasm = \"invalid\"\n") {
        Err(AppError::Invalid { subject, detail }) => {
            assert_eq!(subject, "Cargo manifest");
            assert_eq!(detail, "target.wasm must be a table");
        }
        other => panic!("unexpected result {other:?}"),
    }
}

#[test]
fn edges_are_sorted_by_table_then_key() {
    let source = "[build-dependencies]\nzeta = \"1\"\n[dependencies]\nbeta = { path = \"../beta/\" }\nalpha = \"1\"\n";
    let edges = dependency_edges(source).unwrap();
    let keys: Vec<(&str, &str)> = edges
        .iter()
        .map(|e| (e.table_path.as_str(), e.dependency_key.as_str()))
        .collect();
    assert_eq!(
        keys,
        [("build-dependencies", "zeta"), ("dependencies", "alpha"), ("dependencies", "beta")]
    );
    let beta = &edges[2];
    assert_eq!(beta.source_kind, "path");
    assert_eq!(beta.source.as_deref(), Some("../beta"));
}

#[test]
fn headers_and_locators_are_normalized() {
    let header: Vec<char> = "[target.'cfg(unix)'.\"dependencies\"]".chars().collect();
    let canonical: String = canonical_header(&header).into_iter().collect();
    assert_eq!(canonical, "[target.cfg(unix).dependencies]");
    assert_eq!(normalize_locator("  ../x//  "), "../x");
    assert_eq!(normalize_locator(" . "), ".");
    assert_eq!(dependency_line("[dependencies]\nserde = \"1\"\n", "dependencies", "missing"), 1);
}
