//! Properties that hold across several functions: how reports are ordered, what the policy
//! does with findings, and what each growth rule leaves out.
use vstd::prelude::*;
use crate::config::{config_fault, spec_default_config, GateConfig, RuleSeverity};
use crate::facts::{DependencyEdgeView, LintSuppression, UnsafeSurfaceView};
use crate::order::{lemma_lt_asymmetric, lemma_lt_irreflexive, lemma_lt_transitive};
use crate::report::{
    finding_lt, finding_order, offer, offer_all, rule_policy, suppressed, with_severity, Finding,
    FindingView, Severity,
};
use crate::rules::{
    dependency_candidates, dependency_finding, first_same_edge, edge_expanded, introduced_unsafe,
    lint_broadened, lint_candidates, lint_exact, lint_finding, on_added_lines, pair_off, same_edge,
};
use crate::sort::{
    in_order, irreflexive, lemma_sort_in_order, lemma_sort_permutes, stable_sort, transitive,
};
use crate::text::seq_lt;

verus! {

proof fn lemma_finding_lt_irreflexive(a: FindingView)
    ensures
        !finding_lt(a, a),
{
    match a.base_location {
        Some(x) => lemma_lt_irreflexive(x.path),
        None => {},
    }
}

proof fn lemma_finding_lt_transitive(a: FindingView, b: FindingView, c: FindingView)
    requires
        finding_lt(a, b),
        finding_lt(b, c),
    ensures
        finding_lt(a, c),
{
    if a.location.path != b.location.path && b.location.path != c.location.path {
        lemma_lt_transitive(a.location.path, b.location.path, c.location.path);
        if a.location.path == c.location.path {
            lemma_lt_asymmetric(a.location.path, b.location.path);
        }
    } else if a.location.path == b.location.path && b.location.path == c.location.path {
        if a.location.line == b.location.line && b.location.line == c.location.line {
            if a.rule_id != b.rule_id && b.rule_id != c.rule_id {
                lemma_lt_transitive(a.rule_id, b.rule_id, c.rule_id);
                if a.rule_id == c.rule_id {
                    lemma_lt_asymmetric(a.rule_id, b.rule_id);
                }
            } else if a.rule_id == b.rule_id && b.rule_id == c.rule_id {
                match (a.base_location, b.base_location, c.base_location) {
                    (Some(x), Some(y), Some(z)) => lemma_lt_transitive(x.path, y.path, z.path),
                    _ => {},
                }
            }
        }
    }
}

/// Reports list their findings by path, line, rule and related path: after sorting, no finding
/// comes after one that it precedes in that order.
pub proof fn law_sorted_findings_in_order(findings: Seq<Finding>)
    ensures
        in_order(stable_sort(findings, finding_order()), finding_order()),
{
    assert(transitive(finding_order())) by {
        assert forall|a: Finding, b: Finding, c: Finding|
            #[trigger] finding_order()(a, b) && #[trigger] finding_order()(b, c) implies finding_order()(
            a,
            c,
        ) by {
            lemma_finding_lt_transitive(a@, b@, c@);
        }
    }
    assert(irreflexive(finding_order())) by {
        assert forall|a: Finding| !#[trigger] finding_order()(a, a) by {
            lemma_finding_lt_irreflexive(a@);
        }
    }
    lemma_sort_in_order(findings, finding_order());
}

/// Sorting a report keeps each of its findings, as often as it occurs.
pub proof fn law_sorting_keeps_findings(findings: Seq<Finding>)
    ensures
        stable_sort(findings, finding_order()).to_multiset() == findings.to_multiset(),
{
    lemma_sort_permutes(findings, finding_order());
}

/// A finding of a rule that the policy switches off is never reported.
pub proof fn law_rule_off_reports_nothing(findings: Seq<FindingView>, f: FindingView, c: GateConfig)
    requires
        rule_policy(c, f.rule_id) == Some(RuleSeverity::Off),
    ensures
        offer(findings, f, c) == findings,
{
}

/// A finding of a governed rule at a suppressed location is never reported.
pub proof fn law_suppressed_finding_not_reported(
    findings: Seq<FindingView>,
    f: FindingView,
    c: GateConfig,
)
    requires
        rule_policy(c, f.rule_id) is Some,
        suppressed(c, f.rule_id, f.location.path, f.location.line),
    ensures
        offer(findings, f, c) == findings,
{
}

/// A finding of a governed rule that is on and not suppressed is reported once, unchanged but
/// for the severity that the policy gives the rule.
pub proof fn law_reported_with_configured_severity(
    findings: Seq<FindingView>,
    f: FindingView,
    c: GateConfig,
)
    requires
        rule_policy(c, f.rule_id) matches Some(p) && p != RuleSeverity::Off,
        !suppressed(c, f.rule_id, f.location.path, f.location.line),
    ensures
        offer(findings, f, c) == findings.push(
            with_severity(
                f,
                if rule_policy(c, f.rule_id) == Some(RuleSeverity::Error) {
                    Severity::Error
                } else {
                    Severity::Warning
                },
            ),
        ),
{
}

/// A finding of a rule that the policy does not govern is reported as it is.
pub proof fn law_ungoverned_finding_reported(findings: Seq<FindingView>, f: FindingView, c: GateConfig)
    requires
        rule_policy(c, f.rule_id) is None,
    ensures
        offer(findings, f, c) == findings.push(f),
{
}

/// The warning-only default policy is valid wherever its real-valued limits are.
pub proof fn law_default_config_valid(c: GateConfig)
    requires
        spec_default_config(c),
    ensures
        config_fault(c, true, true) is None,
{
}

/// Dependency keys are unique per table.
pub open spec fn keys_unique(edges: Seq<DependencyEdgeView>) -> bool {
    forall|i: int, j: int| 0 <= i < j < edges.len() ==> !same_edge(#[trigger] edges[i], #[trigger] edges[j])
}

/// `e` declares the same dependency as `b`, with at most its version requirement and line
/// changed.
pub open spec fn only_version_changed(b: DependencyEdgeView, e: DependencyEdgeView) -> bool {
    &&& e.table_path == b.table_path
    &&& e.dependency_key == b.dependency_key
    &&& e.package == b.package
    &&& e.source_kind == b.source_kind
    &&& e.source == b.source
    &&& e.default_features == b.default_features
    &&& e.features == b.features
}

/// The base revision declares `e` with at most its version requirement or line changed.
pub open spec fn declared_in_base(base: Seq<DependencyEdgeView>, e: DependencyEdgeView) -> bool {
    exists|m: int| 0 <= m < base.len() && only_version_changed(#[trigger] base[m], e)
}

proof fn lemma_first_same_edge_is(base: Seq<DependencyEdgeView>, e: DependencyEdgeView, k: int)
    requires
        keys_unique(base),
        0 <= k < base.len(),
        same_edge(base[k], e),
    ensures
        first_same_edge(base, e) == Some(k),
    decreases k,
{
    if k > 0 {
        assert(!same_edge(base[0], e)) by {
            assert(!same_edge(base[0], base[k]));
        }
        let d = base.drop_first();
        assert forall|i: int, j: int| 0 <= i < j < d.len() implies !same_edge(#[trigger] d[i], #[trigger] d[j]) by {
            assert(d[i] == base[i + 1] && d[j] == base[j + 1]);
        }
        assert(d[k - 1] == base[k]);
        lemma_first_same_edge_is(d, e, k - 1);
    }
}

/// A manifest change that only moves or re-versions existing dependencies is not reported:
/// every head edge declares a base dependency with the same package, source, default features
/// and features.
pub proof fn law_version_only_changes_not_reported(
    path: Seq<char>,
    base: Seq<DependencyEdgeView>,
    head: Seq<DependencyEdgeView>,
)
    requires
        keys_unique(base),
        forall|k: int| 0 <= k < head.len() ==> declared_in_base(base, #[trigger] head[k]),
    ensures
        dependency_candidates(path, base, head) == Seq::<FindingView>::empty(),
    decreases head.len(),
{
    if head.len() > 0 {
        let d = head.drop_last();
        assert forall|k: int| 0 <= k < d.len() implies declared_in_base(base, #[trigger] d[k]) by {
            assert(d[k] == head[k]);
        }
        law_version_only_changes_not_reported(path, base, d);
        let e = head.last();
        assert(declared_in_base(base, head[head.len() - 1]));
        let m = choose|m: int| 0 <= m < base.len() && only_version_changed(#[trigger] base[m], e);
        lemma_first_same_edge_is(base, e, m);
        assert(!edge_expanded(base[m], e)) by {
            assert forall|j: int| 0 <= j < e.features.len() implies base[m].features.contains(#[trigger] e.features[j]) by {
                assert(base[m].features[j] == e.features[j]);
            }
        }
    }
}

proof fn lemma_pair_off_subset(base: Seq<UnsafeSurfaceView>, facts: Seq<UnsafeSurfaceView>, by_place: bool)
    ensures
        forall|i: int| 0 <= i < pair_off(base, facts, by_place).1.len() ==> facts.contains(
            #[trigger] pair_off(base, facts, by_place).1[i],
        ),
    decreases facts.len(),
{
    if facts.len() > 0 {
        let d = facts.drop_last();
        lemma_pair_off_subset(base, d, by_place);
        let u = pair_off(base, facts, by_place).1;
        let prev = pair_off(base, d, by_place).1;
        assert forall|i: int| 0 <= i < u.len() implies facts.contains(#[trigger] u[i]) by {
            if i < prev.len() {
                assert(u[i] == prev[i]);
                let k = choose|k: int| 0 <= k < d.len() && d[k] == prev[i];
                assert(facts[k] == d[k]);
            } else {
                assert(u[i] == facts.last());
                assert(facts[facts.len() - 1] == facts.last());
            }
        }
    }
}

/// An unsafe construct is reported only when it is in the head revision and its primary line
/// was added.
pub proof fn law_unsafe_reported_only_on_added_lines(
    added: Set<usize>,
    base: Seq<UnsafeSurfaceView>,
    head: Seq<UnsafeSurfaceView>,
)
    ensures
        forall|k: int| 0 <= k < introduced_unsafe(added, base, head).len() ==> {
            let f = #[trigger] introduced_unsafe(added, base, head)[k];
            added.contains(f.line) && head.contains(f)
        },
{
    let on = on_added_lines(added, head);
    let (left, unmatched) = pair_off(base, on, false);
    lemma_pair_off_subset(base, on, false);
    lemma_pair_off_subset(left, unmatched, true);
    let r = introduced_unsafe(added, base, head);
    assert forall|k: int| 0 <= k < r.len() implies added.contains((#[trigger] r[k]).line) && head.contains(r[k]) by {
        assert(unmatched.contains(r[k]));
        let a = choose|a: int| 0 <= a < unmatched.len() && unmatched[a] == r[k];
        assert(on.contains(unmatched[a]));
        let b = choose|b: int| 0 <= b < on.len() && on[b] == unmatched[a];
        head.filter_lemma(|f: UnsafeSurfaceView| added.contains(f.line));
        assert(on[b] == r[k]);
        assert(on.contains(r[k]));
        head.lemma_filter_contains_rev(|f: UnsafeSurfaceView| added.contains(f.line), r[k]);
    }
}

/// Unsafe constructs whose lines were all left alone are never reported.
pub proof fn law_unsafe_untouched_lines_not_reported(
    added: Set<usize>,
    base: Seq<UnsafeSurfaceView>,
    head: Seq<UnsafeSurfaceView>,
)
    requires
        forall|k: int| 0 <= k < head.len() ==> !added.contains(#[trigger] head[k].line),
    ensures
        introduced_unsafe(added, base, head).len() == 0,
{
    law_unsafe_reported_only_on_added_lines(added, base, head);
    let r = introduced_unsafe(added, base, head);
    if r.len() > 0 {
        assert(head.contains(r[0]));
        let k = choose|k: int| 0 <= k < head.len() && head[k] == r[0];
        assert(!added.contains(head[k].line));
    }
}

/// A suppression that the base revision already has, with the same lints on the same target,
/// is never reported, and a suppression is reported only on an added line.
pub proof fn law_lint_reported_only_when_new_on_added_lines(
    path: Seq<char>,
    added: Set<usize>,
    base: Seq<LintSuppression>,
    head: Seq<LintSuppression>,
)
    ensures
        forall|k: int| 0 <= k < lint_candidates(path, added, base, head).len() ==> {
            let f = #[trigger] lint_candidates(path, added, base, head)[k];
            added.contains(f.location.line) && exists|j: int|
                0 <= j < head.len() && f.location.line == head[j]@.line && !lint_exact(base, head[j]@)
        },
    decreases head.len(),
{
    if head.len() > 0 {
        let d = head.drop_last();
        law_lint_reported_only_when_new_on_added_lines(path, added, base, d);
        let prev = lint_candidates(path, added, base, d);
        let all = lint_candidates(path, added, base, head);
        assert forall|k: int| 0 <= k < all.len() implies {
            let f = #[trigger] all[k];
            added.contains(f.location.line) && exists|j: int|
                0 <= j < head.len() && f.location.line == head[j]@.line && !lint_exact(base, head[j]@)
        } by {
            if k < prev.len() {
                assert(all[k] == prev[k]);
                let j = choose|j: int|
                    0 <= j < d.len() && prev[k].location.line == d[j]@.line && !lint_exact(base, d[j]@);
                assert(head[j] == d[j]);
            } else {
                assert(head[head.len() - 1] == head.last());
            }
        }
    }
}

/// The severity that the policy gives a finding of a rule that is on.
pub open spec fn configured_severity(c: GateConfig, f: FindingView) -> Severity {
    if rule_policy(c, f.rule_id) == Some(RuleSeverity::Error) {
        Severity::Error
    } else {
        Severity::Warning
    }
}

/// Offering findings to the policy keeps what was reported before and adds, for each offered
/// finding of a rule that is on and not suppressed where it stands, that finding with the
/// configured severity.
proof fn lemma_offer_all_reports(findings: Seq<FindingView>, fs: Seq<FindingView>, c: GateConfig, k: int)
    requires
        0 <= k < fs.len(),
        rule_policy(c, fs[k].rule_id) matches Some(p) && p != RuleSeverity::Off,
        !suppressed(c, fs[k].rule_id, fs[k].location.path, fs[k].location.line),
    ensures
        offer_all(findings, fs, c).contains(with_severity(fs[k], configured_severity(c, fs[k]))),
    decreases fs.len(),
{
    let prev = offer_all(findings, fs.drop_last(), c);
    if k == fs.len() - 1 {
        let g = with_severity(fs[k], configured_severity(c, fs[k]));
        assert(offer_all(findings, fs, c) == prev.push(g));
        assert(prev.push(g)[prev.len() as int] == g);
    } else {
        assert(fs.drop_last()[k] == fs[k]);
        lemma_offer_all_reports(findings, fs.drop_last(), c, k);
        let g = with_severity(fs[k], configured_severity(c, fs[k]));
        let i = choose|i: int| 0 <= i < prev.len() && prev[i] == g;
        let last = fs.last();
        match rule_policy(c, last.rule_id) {
            None => assert(offer_all(findings, fs, c)[i] == g),
            Some(RuleSeverity::Off) => {},
            Some(_) => if !suppressed(c, last.rule_id, last.location.path, last.location.line) {
                assert(offer_all(findings, fs, c)[i] == g);
            },
        }
    }
}

/// A configured exception silences a finding only in the file it names: where no exception
/// names the finding's path, nothing is suppressed, whatever the rule and line.
pub proof fn law_exception_only_for_its_path(c: GateConfig, rule: Seq<char>, path: Seq<char>, line: usize)
    requires
        forall|k: int| 0 <= k < c.suppressions@.len() ==> (#[trigger] c.suppressions@[k]).path@ != path,
    ensures
        !suppressed(c, rule, path, line),
{
}

/// A configured exception silences a finding only for the rule it names, and, where it names
/// a line, only on that line; one that names the rule and path without a line silences every
/// line of that file.
pub proof fn law_exception_for_its_rule_and_line(c: GateConfig, rule: Seq<char>, path: Seq<char>, line: usize)
    ensures
        (forall|k: int| 0 <= k < c.suppressions@.len() ==> (#[trigger] c.suppressions@[k]).rule@ != rule)
            ==> !suppressed(c, rule, path, line),
        (forall|k: int| 0 <= k < c.suppressions@.len() ==> ((#[trigger] c.suppressions@[k]).line
            matches Some(l) && l != line)) ==> !suppressed(c, rule, path, line),
        (exists|k: int| 0 <= k < c.suppressions@.len() && (#[trigger] c.suppressions@[k]).rule@ == rule
            && c.suppressions@[k].path@ == path && c.suppressions@[k].line is None) ==> suppressed(
            c,
            rule,
            path,
            line,
        ),
{
    if exists|k: int| 0 <= k < c.suppressions@.len() && (#[trigger] c.suppressions@[k]).rule@ == rule
        && c.suppressions@[k].path@ == path && c.suppressions@[k].line is None {
        let k = choose|k: int| 0 <= k < c.suppressions@.len() && (#[trigger] c.suppressions@[k]).rule@ == rule
            && c.suppressions@[k].path@ == path && c.suppressions@[k].line is None;
        assert(crate::config::suppresses(c.suppressions@[k], rule, path, line));
    }
}

/// A head dependency that the base declares in the same table under the same key, but
/// without one of the head's features, is a candidate for an expanded dependency surface.
pub proof fn law_new_feature_is_expansion(
    path: Seq<char>,
    base: Seq<DependencyEdgeView>,
    head: Seq<DependencyEdgeView>,
    k: int,
    m: int,
    feature: Seq<char>,
)
    requires
        keys_unique(base),
        0 <= k < head.len(),
        0 <= m < base.len(),
        base[m].table_path == head[k].table_path,
        base[m].dependency_key == head[k].dependency_key,
        head[k].features.contains(feature),
        !base[m].features.contains(feature),
    ensures
        dependency_candidates(path, base, head).contains(
            dependency_finding(path, head[k], "expanded-dependency-surface"@),
        ),
    decreases head.len(),
{
    let prev = dependency_candidates(path, base, head.drop_last());
    let g = dependency_finding(path, head[k], "expanded-dependency-surface"@);
    if k == head.len() - 1 {
        lemma_first_same_edge_is(base, head[k], m);
        let j = choose|j: int| 0 <= j < head[k].features.len() && head[k].features[j] == feature;
        assert(edge_expanded(base[m], head[k]));
        assert(dependency_candidates(path, base, head) == prev.push(g));
        assert(prev.push(g)[prev.len() as int] == g);
    } else {
        assert(head.drop_last()[k] == head[k]);
        law_new_feature_is_expansion(path, base, head.drop_last(), k, m, feature);
        let i = choose|i: int| 0 <= i < prev.len() && prev[i] == g;
        assert(dependency_candidates(path, base, head)[i] == g);
    }
}

/// Where the dependency rule is on and the head dependency's line is not excepted, a new
/// feature on a dependency that the base declares is reported as an expanded dependency
/// surface, with the configured severity.
pub proof fn law_new_feature_reported(
    findings: Seq<FindingView>,
    path: Seq<char>,
    base: Seq<DependencyEdgeView>,
    head: Seq<DependencyEdgeView>,
    c: GateConfig,
    k: int,
    m: int,
    feature: Seq<char>,
)
    requires
        keys_unique(base),
        0 <= k < head.len(),
        0 <= m < base.len(),
        base[m].table_path == head[k].table_path,
        base[m].dependency_key == head[k].dependency_key,
        head[k].features.contains(feature),
        !base[m].features.contains(feature),
        rule_policy(c, "dependency-surface-growth"@) matches Some(p) && p != RuleSeverity::Off,
        !suppressed(c, "dependency-surface-growth"@, path, head[k].line),
    ensures
        offer_all(findings, dependency_candidates(path, base, head), c).contains(
            with_severity(
                dependency_finding(path, head[k], "expanded-dependency-surface"@),
                configured_severity(c, dependency_finding(path, head[k], "expanded-dependency-surface"@)),
            ),
        ),
{
    law_new_feature_is_expansion(path, base, head, k, m, feature);
    let fs = dependency_candidates(path, base, head);
    let g = dependency_finding(path, head[k], "expanded-dependency-surface"@);
    let i = choose|i: int| 0 <= i < fs.len() && fs[i] == g;
    lemma_offer_all_reports(findings, fs, c, i);
}

/// A head suppression on an added line is a candidate, as a new suppression, when no base
/// suppression has both its kind and its target fingerprint.
pub proof fn law_suppression_of_new_target_is_candidate(
    path: Seq<char>,
    added: Set<usize>,
    base: Seq<LintSuppression>,
    head: Seq<LintSuppression>,
    k: int,
)
    requires
        0 <= k < head.len(),
        added.contains(head[k]@.line),
        forall|j: int| 0 <= j < base.len() ==> !((#[trigger] base[j])@.kind == head[k]@.kind
            && base[j]@.target_fingerprint == head[k]@.target_fingerprint),
    ensures
        lint_candidates(path, added, base, head).contains(lint_finding(path, head[k]@, false)),
    decreases head.len(),
{
    let prev = lint_candidates(path, added, base, head.drop_last());
    let g = lint_finding(path, head[k]@, false);
    if k == head.len() - 1 {
        assert(!lint_exact(base, head[k]@));
        assert(!lint_broadened(base, head[k]@));
        assert(lint_candidates(path, added, base, head) == prev.push(g));
        assert(prev.push(g)[prev.len() as int] == g);
    } else {
        assert(head.drop_last()[k] == head[k]);
        law_suppression_of_new_target_is_candidate(path, added, base, head.drop_last(), k);
        let i = choose|i: int| 0 <= i < prev.len() && prev[i] == g;
        assert(lint_candidates(path, added, base, head)[i] == g);
    }
}

/// Where the lint-suppression rule is on and the line is not excepted, a head suppression on
/// an added line whose kind and target no base suppression shares is reported as a new
/// suppression, with the configured severity.
pub proof fn law_suppression_of_new_target_reported(
    findings: Seq<FindingView>,
    path: Seq<char>,
    added: Set<usize>,
    base: Seq<LintSuppression>,
    head: Seq<LintSuppression>,
    c: GateConfig,
    k: int,
)
    requires
        0 <= k < head.len(),
        added.contains(head[k]@.line),
        forall|j: int| 0 <= j < base.len() ==> !((#[trigger] base[j])@.kind == head[k]@.kind
            && base[j]@.target_fingerprint == head[k]@.target_fingerprint),
        rule_policy(c, "lint-suppression-growth"@) matches Some(p) && p != RuleSeverity::Off,
        !suppressed(c, "lint-suppression-growth"@, path, head[k]@.line),
    ensures
        offer_all(findings, lint_candidates(path, added, base, head), c).contains(
            with_severity(
                lint_finding(path, head[k]@, false),
                configured_severity(c, lint_finding(path, head[k]@, false)),
            ),
        ),
{
    law_suppression_of_new_target_is_candidate(path, added, base, head, k);
    let fs = lint_candidates(path, added, base, head);
    let g = lint_finding(path, head[k]@, false);
    let i = choose|i: int| 0 <= i < fs.len() && fs[i] == g;
    lemma_offer_all_reports(findings, fs, c, i);
}

} // verus!
