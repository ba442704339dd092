use slop_gate::analysis::{analyze_rust_file, lint_suppressions, unsafe_surface};
use slop_gate::AppError;

const FIXTURE: &str = "mod utility {
    impl Parser {
        fn parse_tokens(input: &str) -> usize {
            if input.is_empty() {
                return 0;
            }

            input
                .split_whitespace()
                .filter(|token| !token.is_empty())
                .count()
        }
    }
}
";

#[test]
fn extracts_scoped_function_and_metrics() {
    let source = r#"
mod parser {
    // This comment does not count as SLOC.
    fn decide(value: Option<bool>) -> bool {
        if let Some(true) = value && value.is_some() {
            true
        } else {
            match value {
                Some(false) => false,
                _ => true,
            }
        }
    }
}
"#;
    let file = analyze_rust_file("src/parser.rs", source).unwrap();
    assert_eq!(file.functions.len(), 1);
    let function = &file.functions[0];
    assert_eq!(function.identity.qualified_name, "parser::decide");
    assert_eq!(function.sloc, 10);
    assert_eq!(function.cc, 4);
    let mass = f64::from(function.cc) * (function.sloc as f64).sqrt();
    assert!(mass > 12.0);
    assert!(!function.shingle_hashes.is_empty());
}

#[test]
fn ignores_comments_and_identifier_renames_in_fingerprint() {
    let first = analyze_rust_file("src/a.rs", "fn add(left: i32) -> i32 { left + 1 }\n").unwrap();
    let second = analyze_rust_file(
        "src/a.rs",
        "// cosmetic\nfn add(right: i32) -> i32 { right + 999 }\n",
    )
    .unwrap();
    assert_eq!(
        first.functions[0].normalized_hash,
        second.functions[0].normalized_hash
    );
}

#[test]
fn rejects_invalid_rust() {
    assert!(analyze_rust_file("src/broken.rs", "fn broken( {").is_err());
}

#[test]
fn analyzes_checked_in_fixture() {
    let file = analyze_rust_file("tests/fixtures/rust_analysis.rs", FIXTURE).unwrap();
    assert_eq!(file.functions.len(), 1);
    assert_eq!(
        file.functions[0].identity.qualified_name,
        "utility::Parser::parse_tokens"
    );
}

#[test]
fn extracts_outer_inner_and_conditional_suppressions() {
    let source = r#"#![allow(dead_code)]
#[allow(clippy::panic, clippy::unwrap_used)]
fn example() {}
#[cfg_attr(test, allow(unused_variables))]
fn conditional(value: bool) { let _ = value; }
"#;
    let facts = lint_suppressions("src/lib.rs", source).unwrap();
    assert_eq!(facts.len(), 3);
    assert_eq!(facts[0].kind, "allow");
    assert_eq!(
        facts[1].lint_paths,
        ["clippy::panic", "clippy::unwrap_used"]
    );
    assert_eq!(facts[2].kind, "cfg-allow");
    assert_eq!(facts[2].lint_paths, ["unused_variables"]);
}

#[test]
fn extracts_all_unsafe_surface_forms() {
    let source = r#"unsafe fn function() {}
unsafe trait Trait {}
struct Type;
unsafe impl Trait for Type {}
unsafe extern "C" { fn external(); }
fn block() { unsafe { let _value = 1; } }
"#;
    let facts = unsafe_surface("src/lib.rs", source).unwrap();
    assert_eq!(
        facts
            .iter()
            .map(|fact| fact.pattern_id.as_str())
            .collect::<Vec<_>>(),
        [
            "unsafe-function",
            "unsafe-trait",
            "unsafe-impl",
            "unsafe-extern-block",
            "unsafe-block"
        ]
    );
}

#[test]
fn records_identity_lines_and_language() {
    let file = analyze_rust_file("src/lib.rs", "\n\nfn answer() -> u8 {\n    42\n}\n").unwrap();
    assert_eq!(file.path, "src/lib.rs");
    assert_eq!(file.language, "rust");
    assert_eq!(file.content_hash.len(), 64);
    let f = &file.functions[0];
    assert_eq!(f.name, "answer");
    assert_eq!(f.identity.qualified_name, "answer");
    assert_eq!(f.identity.path, "src/lib.rs");
    assert_eq!(f.identity.language, "rust");
    assert_eq!(f.start_line, 3);
    assert_eq!(f.end_line, 5);
    assert_eq!(f.sloc, 3);
    assert_eq!(f.cc, 1);
    assert!(f.ast_node_count > 0);
}

#[test]
fn path_outside_the_repository_is_refused() {
    match analyze_rust_file("../outside.rs", "fn a() {}\n") {
        Err(AppError::Invalid { subject, detail }) => {
            assert_eq!(subject, "repository-relative path");
            assert_eq!(detail, "\"../outside.rs\"");
        }
        other => panic!("unexpected result {other:?}"),
    }
}

#[test]
fn syntax_errors_are_reported_as_such() {
    match analyze_rust_file("src/broken.rs", "fn broken( {") {
        Err(AppError::Invalid { subject, detail }) => {
            assert_eq!(subject, "Rust source");
            assert_eq!(detail, "contains syntax errors");
        }
        other => panic!("unexpected result {other:?}"),
    }
}

#[test]
fn nested_functions_are_separate_records() {
    let source = "fn outer() { fn inner() { if true {} } if false {} }\n";
    let file = analyze_rust_file("src/lib.rs", source).unwrap();
    let names: Vec<&str> = file.functions.iter().map(|f| f.name.as_str()).collect();
    assert_eq!(names, ["outer"]);
    assert_eq!(file.functions[0].cc, 2);
}

#[test]
fn shingle_hashes_are_sorted_and_unique() {
    let source = "fn f(a: u8) -> u8 { let b = a + 1; let c = b + 1; let d = c + 1; d }\n";
    let file = analyze_rust_file("src/lib.rs", source).unwrap();
    let f = &file.functions[0];
    assert!(f.token_count >= 5);
    assert!(!f.shingle_hashes.is_empty());
    assert!(f.shingle_hashes.windows(2).all(|w| w[0] < w[1]));
    assert!(f.ast_shingle_hashes.windows(2).all(|w| w[0] < w[1]));
}

#[test]
fn each_window_of_five_tokens_is_one_shingle() {
    let file = analyze_rust_file("src/lib.rs", "fn f() {}\n").unwrap();
    assert_eq!(file.functions[0].token_count, 6);
    assert_eq!(file.functions[0].shingle_hashes.len(), 2);
}

#[test]
fn literal_changes_keep_the_ast_hash() {
    let first = analyze_rust_file("src/a.rs", "fn f() -> u32 { 1 + 2 }\n").unwrap();
    let second = analyze_rust_file("src/a.rs", "fn g() -> u32 { 7 + 9 }\n").unwrap();
    assert_eq!(first.functions[0].ast_hash, second.functions[0].ast_hash);
    let third = analyze_rust_file("src/a.rs", "fn h() -> u32 { 7 * 9 }\n").unwrap();
    assert_ne!(first.functions[0].ast_hash, third.functions[0].ast_hash);
}

#[test]
fn wildcard_match_arms_are_not_decisions() {
    let source = "fn f(x: u8) -> u8 { match x { 0 => 1, 1 => 2, _ => 3 } }\n";
    let file = analyze_rust_file("src/lib.rs", source).unwrap();
    assert_eq!(file.functions[0].cc, 3);
}

#[test]
fn unsafe_facts_record_the_line_of_the_unsafe_word() {
    let source = "fn f() {\n    let x = 1;\n    unsafe {\n        let _y = x;\n    }\n}\n";
    let facts = unsafe_surface("src/lib.rs", source).unwrap();
    assert_eq!(facts.len(), 1);
    assert_eq!(facts[0].pattern_id, "unsafe-block");
    assert_eq!(facts[0].line, 3);
    assert_eq!(facts[0].fingerprint.len(), 64);
}

#[test]
fn safe_declarations_are_not_unsafe_surface() {
    let source = "fn unsafe_name() {}\ntrait T {}\n";
    let facts = unsafe_surface("src/lib.rs", source).unwrap();
    assert!(facts.is_empty());
}

#[test]
fn suppressions_fingerprint_their_target() {
    let first = lint_suppressions("src/lib.rs", "#[allow(dead_code)]\nfn a() {}\n").unwrap();
    let renamed = lint_suppressions("src/lib.rs", "#[allow(dead_code)]\nfn b() {}\n").unwrap();
    let changed = lint_suppressions("src/lib.rs", "#[allow(dead_code)]\nfn a() { loop {} }\n").unwrap();
    assert_eq!(first[0].target_kind, "function_item");
    assert_eq!(first[0].target_fingerprint, renamed[0].target_fingerprint);
    assert_ne!(first[0].target_fingerprint, changed[0].target_fingerprint);
    let inner = lint_suppressions("src/lib.rs", "#![allow(dead_code)]\n").unwrap();
    assert_eq!(inner[0].target_fingerprint, "file");
    assert_eq!(inner[0].target_kind, "file");
    assert_eq!(inner[0].line, 1);
}

const MACRO_MATCHER: &str =
    "macro_rules! parser {\n    (0 (~$($fuel:tt)*) $rest:tt) => { $rest };\n}\n\nfn stable() {}\n";

#[test]
fn parser_errors_inside_macros_are_tolerated() {
    let file = analyze_rust_file("src/lib.rs", MACRO_MATCHER).unwrap();
    assert!(file.functions.iter().any(|g| g.name == "stable"));
    assert!(lint_suppressions("src/lib.rs", MACRO_MATCHER).is_ok());
    assert!(unsafe_surface("src/lib.rs", MACRO_MATCHER).unwrap().is_empty());
}

#[test]
fn parser_errors_outside_macros_refuse_the_source() {
    for source in ["fn broken( {\n}\nfn ok() {}\n", "fn f() { let x = ; }\n"] {
        match analyze_rust_file("src/lib.rs", source) {
            Err(AppError::Invalid { subject, detail }) => {
                assert_eq!(subject, "Rust source");
                assert_eq!(detail, "contains syntax errors");
            }
            other => panic!("unexpected result {other:?}"),
        }
        assert!(lint_suppressions("src/lib.rs", source).is_err());
        assert!(unsafe_surface("src/lib.rs", source).is_err());
    }
}

#[test]
fn function_records_come_in_source_order() {
    let source = "fn a() {}\nmod m {\n    fn b() {\n    }\n}\nimpl S { fn c() {} fn d() {} }\n";
    let file = analyze_rust_file("src/lib.rs", source).unwrap();
    let lines: Vec<(usize, usize)> = file.functions.iter().map(|f| (f.start_line, f.end_line)).collect();
    assert_eq!(lines, vec![(1, 1), (3, 4), (6, 6), (6, 6)]);
    for pair in file.functions.windows(2) {
        assert!(pair[0].end_line <= pair[1].start_line);
    }
}
