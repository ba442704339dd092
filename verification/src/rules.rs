//! The growth rules: lint suppressions, unsafe surface, and dependency surface, each
//! comparing facts of a changed file in the head revision with those of its base revision.
use vstd::prelude::*;
use crate::config::GateConfig;
use crate::diff::ChangedLineSet;
use crate::facts::{
    DependencyEdge, DependencyEdgeView, LintSuppression, LintSuppressionView, UnsafeSurface,
    UnsafeSurfaceView, opt_view,
};
use crate::order::string_views;
use crate::report::{
    offer, offer_all, property_views, push_if_enabled, CheckReport, Finding, FindingView,
    Location, LocationView, Severity,
};
use crate::text::{
    join_seq, join_strings, opt_str_eq, str_eq, string_lists_eq, strings_contain,
};
use vstd::string::StringExecFns;

verus! {

/// Appends one named value to a property list.
pub fn push_property(props: &mut Vec<(String, String)>, key: &str, value: String)
    ensures
        property_views(final(props)@) == property_views(old(props)@).push((key@, value@)),
{
    props.push((key.to_owned(), value));
    assert(property_views(props@) =~= property_views(old(props)@).push((key@, value@)));
}

proof fn lemma_offer_all_push(findings: Seq<FindingView>, fs: Seq<FindingView>, f: FindingView, c: GateConfig)
    ensures
        offer_all(findings, fs.push(f), c) == offer(offer_all(findings, fs, c), f, c),
{
    assert(fs.push(f).drop_last() =~= fs);
}

// ---------------------------------------------------------------- lint suppressions

/// Same suppression syntax on the same target.
pub open spec fn same_lint_target(b: LintSuppressionView, f: LintSuppressionView) -> bool {
    b.kind == f.kind && b.target_fingerprint == f.target_fingerprint
}

/// The base revision already has this exact suppression on the same target.
pub open spec fn lint_exact(base: Seq<LintSuppression>, f: LintSuppressionView) -> bool {
    exists|k: int|
        0 <= k < base.len() && same_lint_target(#[trigger] base[k]@, f) && base[k]@.lint_paths
            == f.lint_paths
}

/// Every lint of `b` is among the lints of `f`, and `f` names more of them.
pub open spec fn lints_widen(b: LintSuppressionView, f: LintSuppressionView) -> bool {
    &&& forall|j: int| 0 <= j < b.lint_paths.len() ==> f.lint_paths.contains(#[trigger] b.lint_paths[j])
    &&& b.lint_paths.len() < f.lint_paths.len()
}

/// The base revision suppresses fewer lints on the same target.
pub open spec fn lint_broadened(base: Seq<LintSuppression>, f: LintSuppressionView) -> bool {
    exists|k: int| 0 <= k < base.len() && same_lint_target(#[trigger] base[k]@, f) && lints_widen(base[k]@, f)
}

pub open spec fn lint_finding(path: Seq<char>, f: LintSuppressionView, broadened: bool) -> FindingView {
    FindingView {
        rule_id: "lint-suppression-growth"@,
        severity: Severity::Warning,
        message: if broadened {
            "lint suppression broadened"@
        } else {
            "new lint suppression introduced"@
        },
        location: LocationView { path, line: f.line },
        base_location: None,
        base_mass: None,
        head_mass: None,
        delta: None,
        threshold: None,
        similarity: None,
        properties: seq![
            ("pattern_id"@, f.kind),
            ("lint_paths"@, join_seq(f.lint_paths, ","@)),
            ("target_kind"@, f.target_kind),
        ],
    }
}

/// One finding for each head suppression on an added line that the base does not already
/// have exactly.
pub open spec fn lint_candidates(
    path: Seq<char>,
    added: Set<usize>,
    base: Seq<LintSuppression>,
    head: Seq<LintSuppression>,
) -> Seq<FindingView>
    decreases head.len(),
{
    if head.len() == 0 {
        Seq::empty()
    } else {
        let prev = lint_candidates(path, added, base, head.drop_last());
        let f = head.last()@;
        if added.contains(f.line) && !lint_exact(base, f) {
            prev.push(lint_finding(path, f, lint_broadened(base, f)))
        } else {
            prev
        }
    }
}

fn lint_match(base: &Vec<LintSuppression>, fact: &LintSuppression) -> (r: (bool, bool))
    ensures
        r.0 == lint_exact(base@, fact@),
        r.1 == lint_broadened(base@, fact@),
{
    let mut exact = false;
    let mut broadened = false;
    let mut k: usize = 0;
    while k < base.len()
        invariant
            k <= base@.len(),
            exact == exists|j: int|
                0 <= j < k && same_lint_target(#[trigger] base@[j]@, fact@) && base@[j]@.lint_paths
                    == fact@.lint_paths,
            broadened == exists|j: int|
                0 <= j < k && same_lint_target(#[trigger] base@[j]@, fact@) && lints_widen(base@[j]@, fact@),
        decreases base@.len() - k,
    {
        let b = &base[k];
        let ghost old_exact = exact;
        let ghost old_broadened = broadened;
        let same = str_eq(b.kind.as_str(), fact.kind.as_str()) && str_eq(
            b.target_fingerprint.as_str(),
            fact.target_fingerprint.as_str(),
        );
        assert(b@ == base@[k as int]@);
        let equal = same && string_lists_eq(&b.lint_paths, &fact.lint_paths);
        if equal {
            exact = true;
        }
        let mut widen = false;
        if same {
            let mut all = true;
            let mut j: usize = 0;
            while j < b.lint_paths.len()
                invariant
                    j <= b.lint_paths@.len(),
                    all == forall|i: int| 0 <= i < j ==> fact@.lint_paths.contains(#[trigger] b@.lint_paths[i]),
                decreases b.lint_paths@.len() - j,
            {
                let found = strings_contain(&fact.lint_paths, b.lint_paths[j].as_str());
                proof {
                    assert(b@.lint_paths[j as int] == b.lint_paths@[j as int]@);
                }
                all = all && found;
                j = j + 1;
            }
            widen = all && b.lint_paths.len() < fact.lint_paths.len();
            if widen {
                broadened = true;
            }
        }
        proof {
            assert(equal == (same_lint_target(base@[k as int]@, fact@) && base@[k as int]@.lint_paths == fact@.lint_paths));
            assert(widen == (same_lint_target(base@[k as int]@, fact@) && lints_widen(base@[k as int]@, fact@)));
            if exact && !old_exact {
                assert(same_lint_target(base@[k as int]@, fact@) && base@[k as int]@.lint_paths == fact@.lint_paths);
            }
            if !exact {
                assert forall|j: int| 0 <= j < k + 1 implies !(same_lint_target(#[trigger] base@[j]@, fact@) && base@[j]@.lint_paths == fact@.lint_paths) by {
                    if j < k {
                    }
                }
            }
            if broadened && !old_broadened {
                assert(same_lint_target(base@[k as int]@, fact@) && lints_widen(base@[k as int]@, fact@));
            }
            if !broadened {
                assert forall|j: int| 0 <= j < k + 1 implies !(same_lint_target(#[trigger] base@[j]@, fact@) && lints_widen(base@[j]@, fact@)) by {
                    if j < k {
                    }
                }
            }
        }
        k = k + 1;
    }
    (exact, broadened)
}

/// Reports head suppressions on added lines that are new or broaden a base suppression of
/// the same target; an exact base counterpart silences one.
pub fn lint_suppression_findings(
    report: &mut CheckReport,
    path: &str,
    added_lines: &ChangedLineSet,
    head_facts: &Vec<LintSuppression>,
    base_facts: &Vec<LintSuppression>,
    config: &GateConfig,
)
    ensures
        final(report)@ == offer_all(
            old(report)@,
            lint_candidates(path@, added_lines@, base_facts@, head_facts@),
            *config,
        ),
{
    let mut k: usize = 0;
    assert(head_facts@.take(0) =~= Seq::<LintSuppression>::empty());
    while k < head_facts.len()
        invariant
            k <= head_facts@.len(),
            report@ == offer_all(
                old(report)@,
                lint_candidates(path@, added_lines@, base_facts@, head_facts@.take(k as int)),
                *config,
            ),
        decreases head_facts@.len() - k,
    {
        let fact = &head_facts[k];
        proof {
            assert(head_facts@.take(k + 1).drop_last() =~= head_facts@.take(k as int));
            assert(head_facts@.take(k + 1).last() == *fact);
        }
        if added_lines.contains(fact.line) {
            let (exact, broadened) = lint_match(base_facts, fact);
            if !exact {
                let mut properties: Vec<(String, String)> = Vec::new();
                push_property(&mut properties, "pattern_id", fact.kind.clone());
                push_property(&mut properties, "lint_paths", join_strings(&fact.lint_paths, ","));
                push_property(&mut properties, "target_kind", fact.target_kind.clone());
                let message = if broadened {
                    "lint suppression broadened".to_owned()
                } else {
                    "new lint suppression introduced".to_owned()
                };
                let finding = Finding {
                    rule_id: "lint-suppression-growth".to_owned(),
                    severity: Severity::Warning,
                    message,
                    location: Location { path: path.to_owned(), line: fact.line },
                    base_location: None,
                    base_mass: None,
                    head_mass: None,
                    delta: None,
                    threshold: None,
                    similarity: None,
                    properties,
                };
                proof {
                    assert(property_views(finding.properties@) =~= lint_finding(path@, fact@, broadened).properties);
                    assert(finding@ == lint_finding(path@, fact@, broadened));
                    lemma_offer_all_push(
                        old(report)@,
                        lint_candidates(path@, added_lines@, base_facts@, head_facts@.take(k as int)),
                        finding@,
                        *config,
                    );
                }
                push_if_enabled(report, finding, config);
            }
        }
        k = k + 1;
    }
    assert(head_facts@.take(head_facts@.len() as int) =~= head_facts@);
}

// ---------------------------------------------------------------- unsafe surface

pub open spec fn unsafe_views(s: Seq<UnsafeSurface>) -> Seq<UnsafeSurfaceView> {
    s.map_values(|f: UnsafeSurface| f@)
}

/// Same construct kind and same normalized tokens.
pub open spec fn same_construct(b: UnsafeSurfaceView, f: UnsafeSurfaceView) -> bool {
    b.pattern_id == f.pattern_id && b.fingerprint == f.fingerprint
}

/// Same construct kind on the same line.
pub open spec fn same_place(b: UnsafeSurfaceView, f: UnsafeSurfaceView) -> bool {
    b.pattern_id == f.pattern_id && b.line == f.line
}

/// The first base fact that `matches` pairs with `f`.
pub open spec fn first_match(
    base: Seq<UnsafeSurfaceView>,
    f: UnsafeSurfaceView,
    by_place: bool,
) -> Option<int>
    decreases base.len(),
{
    if base.len() == 0 {
        None
    } else if (if by_place {
        same_place(base[0], f)
    } else {
        same_construct(base[0], f)
    }) {
        Some(0)
    } else {
        match first_match(base.drop_first(), f, by_place) {
            Some(i) => Some(i + 1),
            None => None,
        }
    }
}

/// Pairs each fact in turn with the first unpaired base fact that matches it; returns the
/// base facts left unpaired and the facts that found no partner.
pub open spec fn pair_off(
    base: Seq<UnsafeSurfaceView>,
    facts: Seq<UnsafeSurfaceView>,
    by_place: bool,
) -> (Seq<UnsafeSurfaceView>, Seq<UnsafeSurfaceView>)
    decreases facts.len(),
{
    if facts.len() == 0 {
        (base, Seq::empty())
    } else {
        let (left, unpaired) = pair_off(base, facts.drop_last(), by_place);
        match first_match(left, facts.last(), by_place) {
            Some(i) => (left.remove(i), unpaired),
            None => (left, unpaired.push(facts.last())),
        }
    }
}

/// Head facts on added lines.
pub open spec fn on_added_lines(added: Set<usize>, head: Seq<UnsafeSurfaceView>) -> Seq<UnsafeSurfaceView> {
    head.filter(|f: UnsafeSurfaceView| added.contains(f.line))
}

/// Head facts on added lines that match no base construct, first by tokens and then, for
/// the rest, by line.
pub open spec fn introduced_unsafe(
    added: Set<usize>,
    base: Seq<UnsafeSurfaceView>,
    head: Seq<UnsafeSurfaceView>,
) -> Seq<UnsafeSurfaceView> {
    let (left, unmatched) = pair_off(base, on_added_lines(added, head), false);
    pair_off(left, unmatched, true).1
}

pub open spec fn unsafe_finding(path: Seq<char>, f: UnsafeSurfaceView) -> FindingView {
    FindingView {
        rule_id: "unsafe-surface-growth"@,
        severity: Severity::Warning,
        message: "new "@ + f.pattern_id + " introduced"@,
        location: LocationView { path, line: f.line },
        base_location: None,
        base_mass: None,
        head_mass: None,
        delta: None,
        threshold: None,
        similarity: None,
        properties: seq![("pattern_id"@, f.pattern_id)],
    }
}

pub open spec fn unsafe_findings_of(path: Seq<char>, fs: Seq<UnsafeSurfaceView>) -> Seq<FindingView> {
    fs.map_values(|f: UnsafeSurfaceView| unsafe_finding(path, f))
}

fn first_match_index(base: &Vec<UnsafeSurface>, f: &UnsafeSurface, by_place: bool) -> (r: Option<usize>)
    ensures
        match r {
            Some(i) => first_match(unsafe_views(base@), f@, by_place) == Some(i as int),
            None => first_match(unsafe_views(base@), f@, by_place) is None,
        },
{
    let ghost v = unsafe_views(base@);
    let mut k: usize = 0;
    assert(v.skip(0) =~= v);
    while k < base.len()
        invariant
            v == unsafe_views(base@),
            k <= base@.len(),
            first_match(v, f@, by_place) == match first_match(v.skip(k as int), f@, by_place) {
                Some(i) => Some(i + k),
                None => None,
            },
        decreases base@.len() - k,
    {
        let b = &base[k];
        let hit = if by_place {
            str_eq(b.pattern_id.as_str(), f.pattern_id.as_str()) && b.line == f.line
        } else {
            str_eq(b.pattern_id.as_str(), f.pattern_id.as_str()) && str_eq(
                b.fingerprint.as_str(),
                f.fingerprint.as_str(),
            )
        };
        assert(v.skip(k as int)[0] == b@);
        assert(v.skip(k as int).drop_first() =~= v.skip(k + 1));
        if hit {
            return Some(k);
        }
        k = k + 1;
    }
    None
}

/// Pairs facts off against `base`, removing each partner; returns the unpaired facts.
fn pair_off_exec(base: &mut Vec<UnsafeSurface>, facts: Vec<UnsafeSurface>, by_place: bool) -> (unpaired: Vec<UnsafeSurface>)
    ensures
        unsafe_views(final(base)@) == pair_off(unsafe_views(old(base)@), unsafe_views(facts@), by_place).0,
        unsafe_views(unpaired@) == pair_off(unsafe_views(old(base)@), unsafe_views(facts@), by_place).1,
{
    let ghost b0 = unsafe_views(base@);
    let ghost fv = unsafe_views(facts@);
    let mut unpaired: Vec<UnsafeSurface> = Vec::new();
    let mut k: usize = 0;
    assert(fv.take(0) =~= Seq::<UnsafeSurfaceView>::empty());
    assert(unsafe_views(unpaired@) =~= Seq::<UnsafeSurfaceView>::empty());
    while k < facts.len()
        invariant
            fv == unsafe_views(facts@),
            k <= facts@.len(),
            unsafe_views(base@) == pair_off(b0, fv.take(k as int), by_place).0,
            unsafe_views(unpaired@) == pair_off(b0, fv.take(k as int), by_place).1,
        decreases facts@.len() - k,
    {
        let fact = &facts[k];
        proof {
            assert(fv.take(k + 1).drop_last() =~= fv.take(k as int));
            assert(fv.take(k + 1).last() == fact@);
        }
        match first_match_index(base, fact, by_place) {
            Some(i) => {
                proof {
                    lemma_first_match_bound(unsafe_views(base@), fact@, by_place);
                }
                let ghost before = base@;
                base.remove(i);
                assert(unsafe_views(base@) =~= unsafe_views(before).remove(i as int));
            },
            None => {
                let ghost before = unpaired@;
                unpaired.push(fact.clone_fact());
                assert(unsafe_views(unpaired@) =~= unsafe_views(before).push(fact@));
            },
        }
        k = k + 1;
    }
    assert(fv.take(facts@.len() as int) =~= fv);
    unpaired
}

proof fn lemma_first_match_bound(base: Seq<UnsafeSurfaceView>, f: UnsafeSurfaceView, by_place: bool)
    ensures
        first_match(base, f, by_place) matches Some(i) ==> 0 <= i < base.len(),
    decreases base.len(),
{
    if base.len() > 0 {
        lemma_first_match_bound(base.drop_first(), f, by_place);
    }
}

impl UnsafeSurface {
    /// A copy with the same text.
    pub fn clone_fact(&self) -> (r: Self)
        ensures
            r@ == self@,
    {
        UnsafeSurface {
            pattern_id: self.pattern_id.clone(),
            fingerprint: self.fingerprint.clone(),
            line: self.line,
        }
    }
}

/// Reports unsafe constructs on added head lines that have no base counterpart: a base
/// construct with the same tokens, or else one of the same kind on the same line, absorbs
/// each head construct at most once.
pub fn unsafe_surface_findings(
    report: &mut CheckReport,
    path: &str,
    added_lines: &ChangedLineSet,
    head_facts: &Vec<UnsafeSurface>,
    base_facts: &Vec<UnsafeSurface>,
    config: &GateConfig,
)
    ensures
        final(report)@ == offer_all(
            old(report)@,
            unsafe_findings_of(
                path@,
                introduced_unsafe(added_lines@, unsafe_views(base_facts@), unsafe_views(head_facts@)),
            ),
            *config,
        ),
{
    let mut base: Vec<UnsafeSurface> = Vec::new();
    let mut pending: Vec<UnsafeSurface> = Vec::new();
    let mut k: usize = 0;
    let ghost hv = unsafe_views(head_facts@);
    assert(hv.take(0) =~= Seq::<UnsafeSurfaceView>::empty());
    assert(unsafe_views(pending@) =~= on_added_lines(added_lines@, hv.take(0)));
    while k < head_facts.len()
        invariant
            hv == unsafe_views(head_facts@),
            k <= head_facts@.len(),
            unsafe_views(pending@) == on_added_lines(added_lines@, hv.take(k as int)),
        decreases head_facts@.len() - k,
    {
        let fact = &head_facts[k];
        proof {
            assert(hv.take(k + 1).drop_last() =~= hv.take(k as int));
            assert(hv.take(k + 1).last() == fact@);
            reveal_with_fuel(Seq::filter, 1);
        }
        if added_lines.contains(fact.line) {
            let ghost before = pending@;
            pending.push(fact.clone_fact());
            assert(unsafe_views(pending@) =~= unsafe_views(before).push(fact@));
        }
        k = k + 1;
    }
    assert(hv.take(head_facts@.len() as int) =~= hv);
    let mut j: usize = 0;
    while j < base_facts.len()
        invariant
            j <= base_facts@.len(),
            unsafe_views(base@) == unsafe_views(base_facts@).take(j as int),
        decreases base_facts@.len() - j,
    {
        let ghost before = base@;
        let copy = base_facts[j].clone_fact();
        assert(copy@ == unsafe_views(base_facts@)[j as int]);
        base.push(copy);
        assert(unsafe_views(base@) =~= unsafe_views(before).push(copy@));
        j = j + 1;
        assert(unsafe_views(base@) =~= unsafe_views(base_facts@).take(j as int));
    }
    assert(unsafe_views(base_facts@).take(base_facts@.len() as int) =~= unsafe_views(base_facts@));
    let unmatched = pair_off_exec(&mut base, pending, false);
    let introduced = pair_off_exec(&mut base, unmatched, true);
    let ghost iv = unsafe_views(introduced@);
    let ghost cands = unsafe_findings_of(path@, iv);
    let mut m: usize = 0;
    assert(cands.take(0) =~= Seq::<FindingView>::empty());
    while m < introduced.len()
        invariant
            iv == unsafe_views(introduced@),
            cands == unsafe_findings_of(path@, iv),
            m <= introduced@.len(),
            report@ == offer_all(old(report)@, cands.take(m as int), *config),
        decreases introduced@.len() - m,
    {
        let fact = &introduced[m];
        let mut properties: Vec<(String, String)> = Vec::new();
        push_property(&mut properties, "pattern_id", fact.pattern_id.clone());
        let message = String::from_str("new ").concat(fact.pattern_id.as_str()).concat(" introduced");
        let finding = Finding {
            rule_id: "unsafe-surface-growth".to_owned(),
            severity: Severity::Warning,
            message,
            location: Location { path: path.to_owned(), line: fact.line },
            base_location: None,
            base_mass: None,
            head_mass: None,
            delta: None,
            threshold: None,
            similarity: None,
            properties,
        };
        proof {
            assert(property_views(finding.properties@) =~= unsafe_finding(path@, fact@).properties);
            assert(finding@ == unsafe_finding(path@, fact@));
            assert(cands.take(m + 1) =~= cands.take(m as int).push(finding@));
            lemma_offer_all_push(old(report)@, cands.take(m as int), finding@, *config);
        }
        push_if_enabled(report, finding, config);
        m = m + 1;
    }
    assert(cands.take(introduced@.len() as int) =~= cands);
}

// ---------------------------------------------------------------- dependency surface

pub open spec fn edge_views(s: Seq<DependencyEdge>) -> Seq<DependencyEdgeView> {
    s.map_values(|e: DependencyEdge| e@)
}

/// The same dependency key in the same table.
pub open spec fn same_edge(b: DependencyEdgeView, e: DependencyEdgeView) -> bool {
    b.table_path == e.table_path && b.dependency_key == e.dependency_key
}

/// The first base declaration of the same dependency.
pub open spec fn first_same_edge(base: Seq<DependencyEdgeView>, e: DependencyEdgeView) -> Option<int>
    decreases base.len(),
{
    if base.len() == 0 {
        None
    } else if same_edge(base[0], e) {
        Some(0)
    } else {
        match first_same_edge(base.drop_first(), e) {
            Some(i) => Some(i + 1),
            None => None,
        }
    }
}

/// The head declaration grants more than the base one: a new feature, default features
/// turned on, or another package, source kind, or source. A version change alone is not
/// an expansion.
pub open spec fn edge_expanded(b: DependencyEdgeView, e: DependencyEdgeView) -> bool {
    ||| exists|j: int| 0 <= j < e.features.len() && !b.features.contains(#[trigger] e.features[j])
    ||| (!b.default_features && e.default_features)
    ||| b.package != e.package
    ||| b.source_kind != e.source_kind
    ||| b.source != e.source
}

pub open spec fn bool_text(b: bool) -> Seq<char> {
    if b {
        "true"@
    } else {
        "false"@
    }
}

pub open spec fn optional_property(key: Seq<char>, v: Option<Seq<char>>) -> Seq<(Seq<char>, Seq<char>)> {
    match v {
        Some(v) => seq![(key, v)],
        None => Seq::empty(),
    }
}

pub open spec fn dependency_finding(path: Seq<char>, e: DependencyEdgeView, pattern_id: Seq<char>) -> FindingView {
    FindingView {
        rule_id: "dependency-surface-growth"@,
        severity: Severity::Warning,
        message: pattern_id + ": "@ + e.dependency_key,
        location: LocationView { path, line: e.line },
        base_location: None,
        base_mass: None,
        head_mass: None,
        delta: None,
        threshold: None,
        similarity: None,
        properties: seq![
            ("pattern_id"@, pattern_id),
            ("dependency_key"@, e.dependency_key),
            ("table_path"@, e.table_path),
            ("source_kind"@, e.source_kind),
            ("default_features"@, bool_text(e.default_features)),
            ("features"@, join_seq(e.features, ","@)),
        ] + optional_property("package"@, e.package) + optional_property("source"@, e.source)
            + optional_property("version"@, e.version),
    }
}

/// A finding for each head dependency that the base lacks or declares more narrowly.
pub open spec fn dependency_candidates(
    path: Seq<char>,
    base: Seq<DependencyEdgeView>,
    head: Seq<DependencyEdgeView>,
) -> Seq<FindingView>
    decreases head.len(),
{
    if head.len() == 0 {
        Seq::empty()
    } else {
        let prev = dependency_candidates(path, base, head.drop_last());
        let e = head.last();
        match first_same_edge(base, e) {
            None => prev.push(dependency_finding(path, e, "new-dependency"@)),
            Some(i) => if edge_expanded(base[i], e) {
                prev.push(dependency_finding(path, e, "expanded-dependency-surface"@))
            } else {
                prev
            },
        }
    }
}

fn first_same_edge_index(base: &Vec<DependencyEdge>, e: &DependencyEdge) -> (r: Option<usize>)
    ensures
        match r {
            Some(i) => first_same_edge(edge_views(base@), e@) == Some(i as int) && i < base@.len(),
            None => first_same_edge(edge_views(base@), e@) is None,
        },
{
    let ghost v = edge_views(base@);
    let mut k: usize = 0;
    assert(v.skip(0) =~= v);
    while k < base.len()
        invariant
            v == edge_views(base@),
            k <= base@.len(),
            first_same_edge(v, e@) == match first_same_edge(v.skip(k as int), e@) {
                Some(i) => Some(i + k),
                None => None,
            },
        decreases base@.len() - k,
    {
        let b = &base[k];
        assert(v.skip(k as int)[0] == b@);
        assert(v.skip(k as int).drop_first() =~= v.skip(k + 1));
        if str_eq(b.table_path.as_str(), e.table_path.as_str()) && str_eq(
            b.dependency_key.as_str(),
            e.dependency_key.as_str(),
        ) {
            return Some(k);
        }
        k = k + 1;
    }
    None
}

fn is_expanded(b: &DependencyEdge, e: &DependencyEdge) -> (r: bool)
    ensures
        r == edge_expanded(b@, e@),
{
    let mut new_feature = false;
    let mut j: usize = 0;
    while j < e.features.len()
        invariant
            j <= e.features@.len(),
            new_feature == exists|i: int| 0 <= i < j && !b@.features.contains(#[trigger] e@.features[i]),
        decreases e.features@.len() - j,
    {
        let present = strings_contain(&b.features, e.features[j].as_str());
        assert(e@.features[j as int] == e.features@[j as int]@);
        if !present {
            new_feature = true;
        }
        j = j + 1;
    }
    new_feature || (!b.default_features && e.default_features) || !opt_str_eq(&b.package, &e.package)
        || !str_eq(b.source_kind.as_str(), e.source_kind.as_str()) || !opt_str_eq(
        &b.source,
        &e.source,
    )
}

fn push_optional(props: &mut Vec<(String, String)>, key: &str, v: &Option<String>)
    ensures
        property_views(final(props)@) == property_views(old(props)@) + optional_property(key@, opt_view(*v)),
{
    match v {
        Some(value) => {
            push_property(props, key, value.clone());
            assert(property_views(props@) =~= property_views(old(props)@) + optional_property(key@, opt_view(*v)));
        },
        None => {
            assert(property_views(props@) =~= property_views(old(props)@) + optional_property(key@, opt_view(*v)));
        },
    }
}

fn make_dependency_finding(path: &str, e: &DependencyEdge, pattern_id: &str) -> (f: Finding)
    ensures
        f@ == dependency_finding(path@, e@, pattern_id@),
{
    let mut properties: Vec<(String, String)> = Vec::new();
    push_property(&mut properties, "pattern_id", pattern_id.to_owned());
    push_property(&mut properties, "dependency_key", e.dependency_key.clone());
    push_property(&mut properties, "table_path", e.table_path.clone());
    push_property(&mut properties, "source_kind", e.source_kind.clone());
    let flag = if e.default_features {
        "true".to_owned()
    } else {
        "false".to_owned()
    };
    push_property(&mut properties, "default_features", flag);
    push_property(&mut properties, "features", join_strings(&e.features, ","));
    let ghost fixed = property_views(properties@);
    push_optional(&mut properties, "package", &e.package);
    push_optional(&mut properties, "source", &e.source);
    push_optional(&mut properties, "version", &e.version);
    let message = String::from_str(pattern_id).concat(": ").concat(e.dependency_key.as_str());
    let f = Finding {
        rule_id: "dependency-surface-growth".to_owned(),
        severity: Severity::Warning,
        message,
        location: Location { path: path.to_owned(), line: e.line },
        base_location: None,
        base_mass: None,
        head_mass: None,
        delta: None,
        threshold: None,
        similarity: None,
        properties,
    };
    proof {
        let d = dependency_finding(path@, e@, pattern_id@);
        assert(fixed =~= seq![
            ("pattern_id"@, pattern_id@),
            ("dependency_key"@, e@.dependency_key),
            ("table_path"@, e@.table_path),
            ("source_kind"@, e@.source_kind),
            ("default_features"@, bool_text(e@.default_features)),
            ("features"@, join_seq(e@.features, ","@)),
        ]);
        assert(property_views(f.properties@) =~= d.properties);
    }
    f
}

/// Reports head dependencies that are new, or whose declaration grants more than the base
/// declaration of the same table and key.
pub fn dependency_surface_findings(
    report: &mut CheckReport,
    path: &str,
    head_edges: &Vec<DependencyEdge>,
    base_edges: &Vec<DependencyEdge>,
    config: &GateConfig,
)
    ensures
        final(report)@ == offer_all(
            old(report)@,
            dependency_candidates(path@, edge_views(base_edges@), edge_views(head_edges@)),
            *config,
        ),
{
    let ghost hv = edge_views(head_edges@);
    let ghost bv = edge_views(base_edges@);
    let mut k: usize = 0;
    assert(hv.take(0) =~= Seq::<DependencyEdgeView>::empty());
    while k < head_edges.len()
        invariant
            hv == edge_views(head_edges@),
            bv == edge_views(base_edges@),
            k <= head_edges@.len(),
            report@ == offer_all(old(report)@, dependency_candidates(path@, bv, hv.take(k as int)), *config),
        decreases head_edges@.len() - k,
    {
        let edge = &head_edges[k];
        proof {
            assert(hv.take(k + 1).drop_last() =~= hv.take(k as int));
            assert(hv.take(k + 1).last() == edge@);
        }
        let ghost prev = dependency_candidates(path@, bv, hv.take(k as int));
        match first_same_edge_index(base_edges, edge) {
            None => {
                let f = make_dependency_finding(path, edge, "new-dependency");
                proof {
                    lemma_offer_all_push(old(report)@, prev, f@, *config);
                }
                push_if_enabled(report, f, config);
            },
            Some(i) => {
                assert(bv[i as int] == base_edges@[i as int]@);
                if is_expanded(&base_edges[i], edge) {
                    let f = make_dependency_finding(path, edge, "expanded-dependency-surface");
                    proof {
                        lemma_offer_all_push(old(report)@, prev, f@, *config);
                    }
                    push_if_enabled(report, f, config);
                }
            },
        }
        k = k + 1;
    }
    assert(hv.take(head_edges@.len() as int) =~= hv);
}

} // verus!
