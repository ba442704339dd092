//! Gate findings, their policy filtering, order, and human-readable rendering.
use vstd::prelude::*;
use crate::config::{suppresses, GateConfig, RuleSeverity};
use crate::error::{is_invalid, AppError, AppResult};
use crate::order::{sort_unique, strictly_sorted, string_views};
use crate::sort::{insertion_sort, stable_sort};
use crate::text::{decimal, decimal_seq, seq_lt, str_eq, str_lt, string_of};
use vstd::string::StringExecFns;

verus! {

/// Finding severity used for exit status and renderers.
#[derive(Debug, Clone, Copy, PartialEq, Eq, Structural)]
pub enum Severity {
    Warning,
    Error,
}

/// A location in repository-relative source coordinates.
#[derive(Debug, Clone, PartialEq, Eq)]
pub struct Location {
    pub path: String,
    pub line: usize,
}

/// One error or warning produced by a gate evaluation. Measured real values are carried as
/// the bit patterns of their `f64` values.
#[derive(Debug, Clone, PartialEq)]
pub struct Finding {
    pub rule_id: String,
    pub severity: Severity,
    pub message: String,
    pub location: Location,
    pub base_location: Option<Location>,
    pub base_mass: Option<u64>,
    pub head_mass: Option<u64>,
    pub delta: Option<u64>,
    pub threshold: Option<u64>,
    pub similarity: Option<u64>,
    /// Named measured values, each key at most once.
    pub properties: Vec<(String, String)>,
}

/// Deterministically ordered result of a gate evaluation.
#[derive(Debug, Clone, PartialEq)]
pub struct CheckReport {
    pub findings: Vec<Finding>,
}

pub struct LocationView {
    pub path: Seq<char>,
    pub line: usize,
}

impl View for Location {
    type V = LocationView;

    open spec fn view(&self) -> LocationView {
        LocationView { path: self.path@, line: self.line }
    }
}

pub open spec fn location_opt_view(l: Option<Location>) -> Option<LocationView> {
    match l {
        Some(l) => Some(l@),
        None => None,
    }
}

pub open spec fn property_views(p: Seq<(String, String)>) -> Seq<(Seq<char>, Seq<char>)> {
    p.map_values(|kv: (String, String)| (kv.0@, kv.1@))
}

pub struct FindingView {
    pub rule_id: Seq<char>,
    pub severity: Severity,
    pub message: Seq<char>,
    pub location: LocationView,
    pub base_location: Option<LocationView>,
    pub base_mass: Option<u64>,
    pub head_mass: Option<u64>,
    pub delta: Option<u64>,
    pub threshold: Option<u64>,
    pub similarity: Option<u64>,
    pub properties: Seq<(Seq<char>, Seq<char>)>,
}

impl View for Finding {
    type V = FindingView;

    open spec fn view(&self) -> FindingView {
        FindingView {
            rule_id: self.rule_id@,
            severity: self.severity,
            message: self.message@,
            location: self.location@,
            base_location: location_opt_view(self.base_location),
            base_mass: self.base_mass,
            head_mass: self.head_mass,
            delta: self.delta,
            threshold: self.threshold,
            similarity: self.similarity,
            properties: property_views(self.properties@),
        }
    }
}

pub open spec fn finding_views(s: Seq<Finding>) -> Seq<FindingView> {
    s.map_values(|f: Finding| f@)
}

impl View for CheckReport {
    type V = Seq<FindingView>;

    open spec fn view(&self) -> Seq<FindingView> {
        finding_views(self.findings@)
    }
}

impl CheckReport {
    /// A report without findings.
    pub fn new() -> (r: Self)
        ensures
            r@ == Seq::<FindingView>::empty(),
    {
        let r = CheckReport { findings: Vec::new() };
        assert(r@ =~= Seq::<FindingView>::empty());
        r
    }

    /// Returns whether any finding must fail a CI job.
    pub fn has_errors(&self) -> (b: bool)
        ensures
            b == exists|k: int| 0 <= k < self@.len() && #[trigger] self@[k].severity == Severity::Error,
    {
        let mut k: usize = 0;
        while k < self.findings.len()
            invariant
                k <= self.findings@.len(),
                forall|j: int| 0 <= j < k ==> #[trigger] self@[j].severity != Severity::Error,
            decreases self.findings@.len() - k,
        {
            if self.findings[k].severity == Severity::Error {
                assert(self@[k as int].severity == Severity::Error);
                return true;
            }
            k = k + 1;
        }
        false
    }
}

/// The configured severity of a rule that the policy governs.
pub open spec fn rule_policy(c: GateConfig, rule: Seq<char>) -> Option<RuleSeverity> {
    if rule == "function-mass"@ {
        Some(c.rules.function_mass.severity)
    } else if rule == "near-clone"@ {
        Some(c.rules.near_clone.severity)
    } else if rule == "lint-suppression-growth"@ {
        Some(c.rules.lint_suppression.severity)
    } else if rule == "unsafe-surface-growth"@ {
        Some(c.rules.unsafe_surface.severity)
    } else if rule == "dependency-surface-growth"@ {
        Some(c.rules.dependency_surface.severity)
    } else {
        None
    }
}

/// A finding at `rule`, `path:line` matches a configured exception.
pub open spec fn suppressed(c: GateConfig, rule: Seq<char>, path: Seq<char>, line: usize) -> bool {
    exists|k: int| 0 <= k < c.suppressions@.len() && #[trigger] suppresses(c.suppressions@[k], rule, path, line)
}

pub open spec fn with_severity(f: FindingView, s: Severity) -> FindingView {
    FindingView {
        rule_id: f.rule_id,
        severity: s,
        message: f.message,
        location: f.location,
        base_location: f.base_location,
        base_mass: f.base_mass,
        head_mass: f.head_mass,
        delta: f.delta,
        threshold: f.threshold,
        similarity: f.similarity,
        properties: f.properties,
    }
}

/// The findings after offering `f` to the policy: a rule the policy does not govern is
/// reported as is; a governed rule is dropped when off or suppressed at its location, and
/// otherwise reported with the configured severity.
pub open spec fn offer(findings: Seq<FindingView>, f: FindingView, c: GateConfig) -> Seq<FindingView> {
    match rule_policy(c, f.rule_id) {
        None => findings.push(f),
        Some(RuleSeverity::Off) => findings,
        Some(p) => if suppressed(c, f.rule_id, f.location.path, f.location.line) {
            findings
        } else {
            findings.push(
                with_severity(
                    f,
                    if p == RuleSeverity::Error {
                        Severity::Error
                    } else {
                        Severity::Warning
                    },
                ),
            )
        },
    }
}

/// Each finding of `fs` offered to the policy in turn.
pub open spec fn offer_all(findings: Seq<FindingView>, fs: Seq<FindingView>, c: GateConfig) -> Seq<FindingView>
    decreases fs.len(),
{
    if fs.len() == 0 {
        findings
    } else {
        offer(offer_all(findings, fs.drop_last(), c), fs.last(), c)
    }
}

fn rule_severity(config: &GateConfig, rule: &str) -> (r: Option<RuleSeverity>)
    ensures
        r == rule_policy(*config, rule@),
{
    if str_eq(rule, "function-mass") {
        Some(config.rules.function_mass.severity)
    } else if str_eq(rule, "near-clone") {
        Some(config.rules.near_clone.severity)
    } else if str_eq(rule, "lint-suppression-growth") {
        Some(config.rules.lint_suppression.severity)
    } else if str_eq(rule, "unsafe-surface-growth") {
        Some(config.rules.unsafe_surface.severity)
    } else if str_eq(rule, "dependency-surface-growth") {
        Some(config.rules.dependency_surface.severity)
    } else {
        None
    }
}

/// Adds a finding unless its rule is off or it is suppressed, with the configured severity.
pub fn push_if_enabled(report: &mut CheckReport, finding: Finding, config: &GateConfig)
    ensures
        final(report)@ == offer(old(report)@, finding@, *config),
{
    let mut finding = finding;
    let ghost original = finding@;
    let policy = match rule_severity(config, finding.rule_id.as_str()) {
        Some(p) => p,
        None => {
            report.findings.push(finding);
            assert(report@ =~= old(report)@.push(original));
            return;
        },
    };
    finding.severity = match policy {
        RuleSeverity::Off => {
            return;
        },
        RuleSeverity::Warn => Severity::Warning,
        RuleSeverity::Error => Severity::Error,
    };
    if !config.is_suppressed(
        finding.rule_id.as_str(),
        finding.location.path.as_str(),
        finding.location.line,
    ) {
        let ghost adjusted = finding@;
        report.findings.push(finding);
        assert(adjusted == with_severity(original, adjusted.severity));
        assert(report@ =~= old(report)@.push(adjusted));
    }
}

/// The order in which reports list findings: by path, line, rule, then related path, with
/// findings that have no related location first.
pub open spec fn finding_lt(a: FindingView, b: FindingView) -> bool {
    if a.location.path != b.location.path {
        seq_lt(a.location.path, b.location.path)
    } else if a.location.line != b.location.line {
        a.location.line < b.location.line
    } else if a.rule_id != b.rule_id {
        seq_lt(a.rule_id, b.rule_id)
    } else {
        match (a.base_location, b.base_location) {
            (None, Some(_)) => true,
            (Some(x), Some(y)) => seq_lt(x.path, y.path),
            _ => false,
        }
    }
}

pub open spec fn finding_order() -> spec_fn(Finding, Finding) -> bool {
    |a: Finding, b: Finding| finding_lt(a@, b@)
}

fn finding_less(a: &Finding, b: &Finding) -> (lt: bool)
    ensures
        lt == finding_lt(a@, b@),
{
    if !str_eq(a.location.path.as_str(), b.location.path.as_str()) {
        return str_lt(a.location.path.as_str(), b.location.path.as_str());
    }
    if a.location.line != b.location.line {
        return a.location.line < b.location.line;
    }
    if !str_eq(a.rule_id.as_str(), b.rule_id.as_str()) {
        return str_lt(a.rule_id.as_str(), b.rule_id.as_str());
    }
    match (&a.base_location, &b.base_location) {
        (None, Some(_)) => true,
        (Some(x), Some(y)) => str_lt(x.path.as_str(), y.path.as_str()),
        _ => false,
    }
}

/// Puts the findings in report order; findings that compare equal keep their order.
pub fn sort_findings(report: &mut CheckReport)
    ensures
        final(report).findings@ == stable_sort(old(report).findings@, finding_order()),
{
    let mut findings: Vec<Finding> = Vec::new();
    std::mem::swap(&mut findings, &mut report.findings);
    report.findings = insertion_sort(findings, finding_less, Ghost(finding_order()));
}

/// The lowercase name of a severity.
pub open spec fn severity_text(s: Severity) -> Seq<char> {
    match s {
        Severity::Warning => "warning"@,
        Severity::Error => "error"@,
    }
}

pub fn severity_name(severity: Severity) -> (s: &'static str)
    ensures
        s@ == severity_text(severity),
{
    match severity {
        Severity::Warning => "warning",
        Severity::Error => "error",
    }
}

/// The SARIF result level of a severity.
pub fn sarif_level(severity: Severity) -> (s: &'static str)
    ensures
        s@ == severity_text(severity),
{
    match severity {
        Severity::Warning => "warning",
        Severity::Error => "error",
    }
}

/// The rule ids of findings, in order.
pub open spec fn rule_id_views(fs: Seq<FindingView>) -> Seq<Seq<char>> {
    fs.map_values(|f: FindingView| f.rule_id)
}

/// The distinct rule ids of a report's findings in ascending order: the rules that a SARIF
/// run lists.
pub fn rule_ids(report: &CheckReport) -> (r: Vec<String>)
    ensures
        strictly_sorted(string_views(r@)),
        string_views(r@).to_set() == rule_id_views(report@).to_set(),
{
    let mut ids: Vec<String> = Vec::new();
    let mut i: usize = 0;
    while i < report.findings.len()
        invariant
            i <= report.findings@.len(),
            string_views(ids@) =~= rule_id_views(report@).take(i as int),
        decreases report.findings@.len() - i,
    {
        let id = report.findings[i].rule_id.clone();
        assert(rule_id_views(report@)[i as int] == id@);
        let ghost before = ids@;
        ids.push(id);
        assert(string_views(ids@) =~= string_views(before).push(id@));
        assert(rule_id_views(report@).take(i + 1) =~= rule_id_views(report@).take(i as int).push(
            id@,
        ));
        i = i + 1;
    }
    assert(rule_id_views(report@).take(report.findings@.len() as int) =~= rule_id_views(report@));
    sort_unique(ids)
}

/// One human-readable diagnostic line: `path:line: severity[rule]: message`.
pub open spec fn human_line(f: FindingView) -> Seq<char> {
    f.location.path + ":"@ + decimal_seq(f.location.line as nat) + ": "@ + severity_text(f.severity)
        + "["@ + f.rule_id + "]: "@ + f.message + "\n"@
}

pub open spec fn human_lines(fs: Seq<FindingView>) -> Seq<char>
    decreases fs.len(),
{
    if fs.len() == 0 {
        Seq::empty()
    } else {
        human_lines(fs.drop_last()) + human_line(fs.last())
    }
}

/// The human rendering of a report.
pub open spec fn human_report(fs: Seq<FindingView>) -> Seq<char> {
    if fs.len() == 0 {
        "slop-gate: no findings\n"@
    } else {
        human_lines(fs)
    }
}

fn append_human_line(out: &mut String, f: &Finding)
    ensures
        final(out)@ == old(out)@ + human_line(f@),
{
    out.append(f.location.path.as_str());
    out.append(":");
    out.append(decimal(f.location.line as u64).as_str());
    out.append(": ");
    out.append(severity_name(f.severity));
    out.append("[");
    out.append(f.rule_id.as_str());
    out.append("]: ");
    out.append(f.message.as_str());
    out.append("\n");
    assert(out@ =~= old(out)@ + human_line(f@));
}

/// Renders a report as stable human-readable text.
pub fn render_human(report: &CheckReport) -> (s: String)
    ensures
        s@ == human_report(report@),
{
    if report.findings.len() == 0 {
        return "slop-gate: no findings\n".to_owned();
    }
    let mut out = String::new();
    let mut k: usize = 0;
    assert(report@.take(0) =~= Seq::<FindingView>::empty());
    while k < report.findings.len()
        invariant
            k <= report.findings@.len(),
            out@ == human_lines(report@.take(k as int)),
        decreases report.findings@.len() - k,
    {
        append_human_line(&mut out, &report.findings[k]);
        proof {
            assert(report@.take(k + 1).drop_last() =~= report@.take(k as int));
            assert(report@.take(k + 1).last() == report.findings@[k as int]@);
        }
        k = k + 1;
    }
    assert(report@.take(report@.len() as int) =~= report@);
    out
}

/// Keeps only the first `top` findings of a report; a limit of zero is refused.
pub fn limit_findings(report: &mut CheckReport, top: usize) -> (r: AppResult<()>)
    ensures
        top == 0 ==> (r matches Err(e) && is_invalid(e, "scan top"@, "must be positive"@)
            && final(report)@ == old(report)@),
        top > 0 ==> r is Ok && final(report).findings@ == old(report).findings@.take(
            if top < old(report).findings@.len() {
                top as int
            } else {
                old(report).findings@.len() as int
            },
        ),
{
    if top == 0 {
        return Err(AppError::invalid("scan top", "must be positive".to_owned()));
    }
    if top < report.findings.len() {
        report.findings.truncate(top);
    } else {
        assert(report.findings@.take(report.findings@.len() as int) =~= report.findings@);
    }
    Ok(())
}

} // verus!
