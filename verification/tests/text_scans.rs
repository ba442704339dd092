use slop_gate::path::is_relative_path;
use slop_gate::scan::{find_word, parse_suppression};

fn chars(s: &str) -> Vec<char> {
    s.chars().collect()
}

#[test]
fn relative_paths_exclude_roots_parents_and_backslashes() {
    assert!(is_relative_path("src/lib.rs"));
    assert!(is_relative_path("a"));
    assert!(!is_relative_path(""));
    assert!(!is_relative_path("/abs.rs"));
    assert!(!is_relative_path("src/../lib.rs"));
    assert!(!is_relative_path("./lib.rs"));
    assert!(!is_relative_path("src//lib.rs"));
    assert!(!is_relative_path("src\\lib.rs"));
    assert!(!is_relative_path("src/"));
}

#[test]
fn whole_words_are_found_but_not_inside_names() {
    assert_eq!(find_word(&chars("pub unsafe fn f()"), &chars("unsafe")), Some(4));
    assert_eq!(find_word(&chars("unsafe_name unsafe"), &chars("unsafe")), Some(12));
    assert_eq!(find_word(&chars("fnord"), &chars("fn")), None);
    assert_eq!(find_word(&chars("x.fn()"), &chars("fn")), Some(2));
}

#[test]
fn suppression_attributes_are_normalized() {
    let (kind, paths) = parse_suppression("#[allow( b, a ,b )]").unwrap();
    assert_eq!(kind, "allow");
    assert_eq!(paths, ["a", "b"]);
    let (kind, paths) = parse_suppression("#![expect(dead_code)]").unwrap();
    assert_eq!(kind, "expect");
    assert_eq!(paths, ["dead_code"]);
    let (kind, paths) = parse_suppression("#[cfg_attr(test, allow(x))]").unwrap();
    assert_eq!(kind, "cfg-allow");
    assert_eq!(paths, ["x"]);
    assert!(parse_suppression("#[allow()]").is_none());
    assert!(parse_suppression("#[derive(Debug)]").is_none());
    assert!(parse_suppression("#[cfg_attr(test, derive(Debug))]").is_none());
}

#[test]
fn word_search_skips_past_occurrences_that_are_not_whole_words() {
    assert_eq!(find_word(&chars("a---"), &chars("--")), None);
    assert_eq!(find_word(&chars("-- a"), &chars("--")), Some(0));
    assert_eq!(find_word(&chars("unsafe_fn unsafe fn"), &chars("unsafe")), Some(10));
}
