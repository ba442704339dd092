use slop_gate::analysis::analyze_rust_file;
use slop_gate::artifact::FunctionRecord;
use slop_gate::clones::{jaccard_counts, CloneIndex, Overlap, Scored};
use slop_gate::config::{GateConfig, NearCloneRule};

fn clone_function(name: &str, parameter: &str) -> String {
    format!(
        "fn {name}({parameter}: usize) -> usize {{\n    let mut total = 0;\n    if {parameter} > 0 {{ total += {parameter}; }}\n    if {parameter} > 1 {{ total += 1; }}\n    if {parameter} > 2 {{ total += 2; }}\n    if {parameter} > 3 {{ total += 3; }}\n    if {parameter} > 4 {{ total += 4; }}\n    total\n}}\n"
    )
}

fn different_function(name: &str, parameter: &str) -> String {
    format!(
        "fn {name}({parameter}: usize) -> usize {{\n    let mut total = 0;\n    let mut cursor = {parameter};\n    while cursor > 0 {{\n        total += cursor;\n        cursor -= 1;\n    }}\n    match total {{\n        0 => 7,\n        _ => total / 2,\n    }}\n}}\n"
    )
}

fn first_function(path: &str, source: &str) -> FunctionRecord {
    analyze_rust_file(path, source).unwrap().functions.into_iter().next().unwrap()
}

fn similarity(overlap: &Overlap) -> f64 {
    match overlap {
        Overlap::Identical => 1.0,
        Overlap::Counted { shared, union } => {
            if *union == 0 {
                0.0
            } else {
                *shared as f64 / *union as f64
            }
        }
    }
}

fn best_match(index: &CloneIndex, function: &FunctionRecord, policy: &NearCloneRule) -> Option<Scored> {
    let scored: Vec<Scored> = index
        .shortlist(function, policy)
        .iter()
        .map(|c| Scored {
            id: c.id,
            token: similarity(&c.token).to_bits(),
            ast: similarity(&c.ast).to_bits(),
        })
        .collect();
    index.select_best(&scored, policy.similarity_threshold_bits)
}

#[test]
fn clone_matching_requires_both_token_and_ast_signals() {
    let candidate = first_function("src/first.rs", &clone_function("first", "input"));
    let mut subject = first_function("src/second.rs", &clone_function("second", "value"));
    subject.ast_shingle_hashes.clear();
    subject.ast_hash = "different".to_string();

    let index = CloneIndex::from_functions(vec![candidate]);
    let config = GateConfig::defaults();
    assert!(best_match(&index, &subject, &config.rules.near_clone).is_none());
}

#[test]
fn calibrates_thirty_structural_clone_pairs_and_thirty_negatives() {
    let config = GateConfig::defaults();
    let mut positive_matches = 0;
    let mut negative_matches = 0;
    for index in 0..30 {
        let candidate = first_function(
            &format!("src/candidate_{index}.rs"),
            &clone_function("candidate", "input"),
        );
        let subject = first_function(
            &format!("src/subject_{index}.rs"),
            &clone_function("subject", "value"),
        );
        let index_for_pair = CloneIndex::from_functions(vec![candidate]);
        if best_match(&index_for_pair, &subject, &config.rules.near_clone).is_some() {
            positive_matches += 1;
        }
        let negative = first_function(
            &format!("src/negative_{index}.rs"),
            &different_function("negative", "value"),
        );
        if best_match(&index_for_pair, &negative, &config.rules.near_clone).is_some() {
            negative_matches += 1;
        }
    }
    assert_eq!(positive_matches, 30);
    assert_eq!(negative_matches, 0);
}

#[test]
fn renamed_clones_are_identical_in_both_signals() {
    let candidate = first_function("src/a.rs", &clone_function("original", "input"));
    let subject = first_function("src/b.rs", &clone_function("duplicate", "value"));
    let index = CloneIndex::from_functions(vec![candidate]);
    let policy = GateConfig::defaults().rules.near_clone;
    let shortlist = index.shortlist(&subject, &policy);
    assert_eq!(shortlist.len(), 1);
    assert_eq!(shortlist[0].token, Overlap::Identical);
    assert_eq!(shortlist[0].ast, Overlap::Identical);
    let best = best_match(&index, &subject, &policy).unwrap();
    assert_eq!(f64::from_bits(best.token), 1.0);
    assert_eq!(index.candidate(best.id).identity.qualified_name, "original");
}

#[test]
fn a_function_is_never_its_own_clone() {
    let function = first_function("src/a.rs", &clone_function("only", "input"));
    let index = CloneIndex::from_functions(vec![function.clone()]);
    let policy = GateConfig::defaults().rules.near_clone;
    assert!(index.shortlist(&function, &policy).is_empty());
}

#[test]
fn size_floors_and_candidate_limit_are_applied() {
    let subject = first_function("src/b.rs", &clone_function("subject", "value"));
    let mut index = CloneIndex::new();
    for k in 0..5 {
        index.insert(first_function(&format!("src/c{k}.rs"), &clone_function("c", "input")));
    }
    assert_eq!(index.len(), 5);
    let mut policy = GateConfig::defaults().rules.near_clone;
    assert_eq!(index.shortlist(&subject, &policy).len(), 5);
    policy.max_candidates = 2;
    let shortlist = index.shortlist(&subject, &policy);
    assert_eq!(shortlist.len(), 2);
    assert_eq!(shortlist[0].id, 0);
    assert_eq!(shortlist[1].id, 1);
    policy.minimum_tokens = 10000;
    assert!(index.shortlist(&subject, &policy).is_empty());
}

#[test]
fn ties_go_to_the_least_candidate_key() {
    let subject = first_function("src/z.rs", &clone_function("subject", "value"));
    let later = first_function("src/b.rs", &clone_function("b", "input"));
    let earlier = first_function("src/a.rs", &clone_function("a", "input"));
    let index = CloneIndex::from_functions(vec![later, earlier]);
    let policy = GateConfig::defaults().rules.near_clone;
    let best = best_match(&index, &subject, &policy).unwrap();
    assert_eq!(index.candidate(best.id).identity.path, "src/a.rs");
}

#[test]
fn selection_prefers_the_higher_lesser_similarity() {
    let a = first_function("src/a.rs", &clone_function("a", "input"));
    let b = first_function("src/b.rs", &clone_function("b", "input"));
    let index = CloneIndex::from_functions(vec![a, b]);
    let scored = vec![
        Scored { id: 0, token: 0.9f64.to_bits(), ast: 0.95f64.to_bits() },
        Scored { id: 1, token: 0.97f64.to_bits(), ast: 0.92f64.to_bits() },
        Scored { id: 0, token: 0.99f64.to_bits(), ast: 0.5f64.to_bits() },
    ];
    let best = index.select_best(&scored, 0.85f64.to_bits()).unwrap();
    assert_eq!(best.id, 1);
    assert!(index.select_best(&scored, 0.98f64.to_bits()).is_none());
}

#[test]
fn jaccard_counts_share_and_union() {
    assert_eq!(jaccard_counts(&[1, 3, 5, 7], &[3, 4, 5]), (2, 5));
    assert_eq!(jaccard_counts(&[], &[1]), (0, 1));
    assert_eq!(jaccard_counts(&[], &[]), (0, 0));
    assert_eq!(jaccard_counts(&[2, 2], &[2]), (1, 2));
}
