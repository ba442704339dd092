use slop_gate::diff::parse_name_status;
use slop_gate::repo::{
    check_git_path, command_output, command_text, optional_blob, resolved_revision, rust_paths,
    working_tree_paths,
};
use slop_gate::AppError;

#[test]
fn failed_commands_report_their_trimmed_diagnostic() {
    assert_eq!(command_output(true, b"out".to_vec(), b"").unwrap(), b"out".to_vec());
    match command_output(false, Vec::new(), b"  fatal: bad revision\n") {
        Err(AppError::Git { operation, detail }) => {
            assert_eq!(operation, "command");
            assert_eq!(detail, "fatal: bad revision");
        }
        other => panic!("unexpected result {other:?}"),
    }
    assert!(matches!(command_text(&[0xff]), Err(AppError::Utf8 { subject: "Git output", .. })));
    assert_eq!(resolved_revision(" abc\n"), "abc");
}

#[test]
fn optional_blobs_distinguish_missing_paths_from_other_failures() {
    assert_eq!(optional_blob(true, b"fn a() {}\n", b"").unwrap(), Some("fn a() {}\n".to_string()));
    assert_eq!(
        optional_blob(false, b"", b"fatal: path 'src/missing.rs' does not exist in 'HEAD'\n").unwrap(),
        None
    );
    match optional_blob(false, b"", b"fatal: invalid object name 'not-a-revision'.\n") {
        Err(AppError::Git { operation, detail }) => {
            assert_eq!(operation, "read optional blob");
            assert_eq!(detail, "fatal: invalid object name 'not-a-revision'.");
        }
        other => panic!("unexpected result {other:?}"),
    }
    assert!(check_git_path("src/lib.rs").is_ok());
    assert!(check_git_path("../lib.rs").is_err());
}

#[test]
fn listings_keep_relative_rust_sources() {
    let listing = "src/lib.rs\nREADME.md\n/abs.rs\nsrc/main.rs\n";
    assert_eq!(rust_paths(listing), ["src/lib.rs", "src/main.rs"]);
    let visible = "src/untracked.rs\nsrc/tracked.rs\n";
    assert_eq!(working_tree_paths(visible, None), ["src/tracked.rs", "src/untracked.rs"]);
    assert_eq!(
        working_tree_paths(visible, Some("ignored.rs\nsrc/tracked.rs\n")),
        ["ignored.rs", "src/tracked.rs", "src/untracked.rs"]
    );
}

#[test]
fn name_status_follows_renames_and_manifests() {
    let output = b"M\0src/lib.rs\0R100\0src/old.rs\0src/new.rs\0A\0Cargo.toml\0D\0README.md\0A\0docs/x.md\0";
    let changed = parse_name_status(output).unwrap();
    assert_eq!(changed.paths, ["src/lib.rs", "src/new.rs"]);
    assert_eq!(changed.cargo_paths, ["Cargo.toml"]);
    assert_eq!(
        changed.renamed_from,
        [("src/new.rs".to_string(), "src/old.rs".to_string())]
    );
    assert!(parse_name_status(b"R100\0src/old.rs").is_err());
    assert!(parse_name_status(b"R100\0src/old.rs\0").unwrap().paths.is_empty());
}
