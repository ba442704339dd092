//! The mass gate's decisions: which baseline a check accepts, which base function a changed
//! function is compared with, and whether it changed.
use vstd::prelude::*;
use crate::artifact::{
    analyzer_fingerprint, analyzer_fingerprint_with_policy, artifact_error, artifact_fault,
    spec_analyzer_fingerprint, spec_policy_fingerprint, AnalyzedFile, FunctionIdentity,
    FunctionRecord, IdentityView, IndexArtifact,
};
use crate::config::{spec_default_config, GateConfig};
use crate::error::{is_invalid, AppError, AppResult};
use crate::report::{Finding, Location, Severity};
use crate::text::str_eq;
use vstd::string::StringExecFns;

verus! {

/// An identity as the base revision names it: under the previous path of a renamed file.
pub open spec fn base_identity(identity: IdentityView, previous: Option<Seq<char>>) -> IdentityView {
    match previous {
        Some(p) => IdentityView {
            language: identity.language,
            path: p,
            qualified_name: identity.qualified_name,
            kind: identity.kind,
        },
        None => identity,
    }
}

pub open spec fn ref_view(p: Option<&String>) -> Option<Seq<char>> {
    match p {
        Some(s) => Some(s@),
        None => None,
    }
}

/// The identity under which a changed function is looked up in the base revision.
pub fn renamed_identity(identity: &FunctionIdentity, previous_path: Option<&String>) -> (r:
    FunctionIdentity)
    ensures
        r@ == base_identity(identity@, ref_view(previous_path)),
{
    let mut r = identity.duplicate();
    if let Some(path) = previous_path {
        r.path = path.clone();
    }
    r
}

/// All functions of the files, file by file, each in source order.
pub open spec fn all_functions(files: Seq<AnalyzedFile>) -> Seq<FunctionRecord>
    decreases files.len(),
{
    if files.len() == 0 {
        Seq::empty()
    } else {
        all_functions(files.drop_last()) + files.last().functions@
    }
}

/// The last function with this identity: a later declaration of the same identity takes the
/// place of an earlier one.
pub open spec fn last_with_identity(fs: Seq<FunctionRecord>, id: IdentityView) -> Option<
    FunctionRecord,
>
    decreases fs.len(),
{
    if fs.len() == 0 {
        None
    } else if fs.last().identity@ == id {
        Some(fs.last())
    } else {
        last_with_identity(fs.drop_last(), id)
    }
}

/// The base function with `identity`, if the artifact has one.
pub fn base_function<'a>(artifact: &'a IndexArtifact, identity: &FunctionIdentity) -> (r: Option<
    &'a FunctionRecord,
>)
    ensures
        ref_record(r) == last_with_identity(all_functions(artifact.files@), identity@),
{
    let ghost files = artifact.files@;
    let mut found: Option<&FunctionRecord> = None;
    let mut i: usize = 0;
    assert(files.take(0) =~= Seq::<AnalyzedFile>::empty());
    while i < artifact.files.len()
        invariant
            files == artifact.files@,
            i <= files.len(),
            ref_record(found) == last_with_identity(all_functions(files.take(i as int)), identity@),
        decreases files.len() - i,
    {
        let functions = &artifact.files[i].functions;
        let ghost before = all_functions(files.take(i as int));
        let mut j: usize = 0;
        assert(before + functions@.take(0) =~= before);
        while j < functions.len()
            invariant
                i < files.len(),
                functions@ == files[i as int].functions@,
                j <= functions@.len(),
                ref_record(found) == last_with_identity(before + functions@.take(j as int), identity@),
            decreases functions@.len() - j,
        {
            let f = &functions[j];
            proof {
                assert((before + functions@.take(j + 1)).drop_last() =~= before + functions@.take(
                    j as int,
                ));
                assert((before + functions@.take(j + 1)).last() == *f);
            }
            if f.identity.same_as(identity) {
                found = Some(f);
            }
            j = j + 1;
        }
        proof {
            assert(functions@.take(functions@.len() as int) =~= functions@);
            assert(files.take(i + 1).drop_last() =~= files.take(i as int));
            assert(files.take(i + 1).last() == files[i as int]);
        }
        i = i + 1;
    }
    assert(files.take(files.len() as int) =~= files);
    found
}

/// A function changed materially unless its base function has the same normalized tokens.
pub open spec fn changed_materially(f: FunctionRecord, base: Option<FunctionRecord>) -> bool {
    match base {
        None => true,
        Some(b) => f.normalized_hash@ != b.normalized_hash@,
    }
}

pub open spec fn ref_record(base: Option<&FunctionRecord>) -> Option<FunctionRecord> {
    match base {
        Some(b) => Some(*b),
        None => None,
    }
}

/// Whether `function` changed materially against its base function.
pub fn materially_changed(function: &FunctionRecord, base: Option<&FunctionRecord>) -> (b: bool)
    ensures
        b == changed_materially(*function, ref_record(base)),
{
    match base {
        None => true,
        Some(base) => !str_eq(function.normalized_hash.as_str(), base.normalized_hash.as_str()),
    }
}

/// What the mass check does with one function of a changed file.
pub struct MassPlan {
    /// Report that the function's mass grew past the delta limit.
    pub report_growth: bool,
    /// Report that a new function's mass is over the limit for new functions.
    pub report_new: bool,
    /// Look for a near-clone of the function among the indexed ones.
    pub find_clone: bool,
}

/// The mass check's step for `function`, whose base function is `base`: a function that did
/// not change materially is only indexed; a changed one is reported when its mass grew past
/// the delta limit (`grew_past_limit`), a new one when its mass is over the limit for new
/// functions (`over_new_limit`), and either is then compared with the indexed functions. The
/// two comparisons are of real-valued masses and are made by the caller.
pub fn mass_plan(
    function: &FunctionRecord,
    base: Option<&FunctionRecord>,
    grew_past_limit: bool,
    over_new_limit: bool,
) -> (p: MassPlan)
    ensures
        p.find_clone == changed_materially(*function, ref_record(base)),
        p.report_growth == (base is Some && changed_materially(*function, ref_record(base))
            && grew_past_limit),
        p.report_new == (base is None && over_new_limit),
{
    let changed = materially_changed(function, base);
    match base {
        Some(_) => MassPlan { report_growth: changed && grew_past_limit, report_new: false, find_clone: changed },
        None => MassPlan { report_growth: false, report_new: over_new_limit, find_clone: changed },
    }
}

/// The fingerprint a baseline must carry: that of the analyzer alone when the baseline has
/// it and the policy is the default one, else that of the analyzer with the policy.
pub open spec fn expected_fingerprint_spec(
    artifact: IndexArtifact,
    config: GateConfig,
    policy: Seq<char>,
) -> Seq<char> {
    if artifact.analyzer_fingerprint@ == spec_analyzer_fingerprint() && spec_default_config(config) {
        spec_analyzer_fingerprint()
    } else {
        spec_policy_fingerprint(policy)
    }
}

/// The fingerprint that `artifact` is validated against under `config`, whose own
/// fingerprint is `policy`.
pub fn expected_fingerprint(artifact: &IndexArtifact, config: &GateConfig, policy: &str) -> (s:
    String)
    ensures
        s@ == expected_fingerprint_spec(*artifact, *config, policy@),
{
    let plain = analyzer_fingerprint();
    if str_eq(artifact.analyzer_fingerprint.as_str(), plain.as_str()) && config.is_default() {
        plain
    } else {
        analyzer_fingerprint_with_policy(policy)
    }
}

/// Accepts a baseline for a check only when it was built for the base commit and is valid
/// under the expected fingerprint.
pub fn check_baseline(artifact: &IndexArtifact, base_commit: &str, expected_fingerprint: &str) -> (r:
    AppResult<()>)
    ensures
        artifact.repository_commit@ != base_commit@ ==> (r matches Err(e) && is_invalid(
            e,
            "baseline artifact"@,
            "was built for "@ + artifact.repository_commit@ + ", but --base resolves to "@
                + base_commit@,
        )),
        artifact.repository_commit@ == base_commit@ ==> match r {
            Ok(()) => artifact_fault(*artifact, expected_fingerprint@) is None,
            Err(e) => artifact_fault(*artifact, expected_fingerprint@) matches Some(f)
                && artifact_error(e, f),
        },
{
    if !str_eq(artifact.repository_commit.as_str(), base_commit) {
        let detail = String::from_str("was built for ").concat(artifact.repository_commit.as_str())
            .concat(", but --base resolves to ").concat(base_commit);
        return Err(AppError::invalid("baseline artifact", detail));
    }
    artifact.validate_with_fingerprint(expected_fingerprint)
}

/// The warning for a changed file that could not be analyzed, reported as it is.
pub fn analysis_error_finding(path: &str, error: &str) -> (f: Finding)
    ensures
        f@.rule_id == "analysis-error"@,
        f@.severity == Severity::Warning,
        f@.message == "skipped "@ + path@ + ": "@ + error@,
        f@.location.path == path@,
        f@.location.line == 1,
        f@.base_location is None,
        f@.base_mass is None,
        f@.head_mass is None,
        f@.delta is None,
        f@.threshold is None,
        f@.similarity is None,
        f@.properties.len() == 0,
{
    Finding {
        rule_id: "analysis-error".to_owned(),
        severity: Severity::Warning,
        message: String::from_str("skipped ").concat(path).concat(": ").concat(error),
        location: Location { path: path.to_owned(), line: 1 },
        base_location: None,
        base_mass: None,
        head_mass: None,
        delta: None,
        threshold: None,
        similarity: None,
        properties: Vec::new(),
    }
}

/// How many of `fs` have a cyclomatic complexity above `cutoff`.
pub open spec fn count_above(fs: Seq<FunctionRecord>, cutoff: u32) -> nat
    decreases fs.len(),
{
    if fs.len() == 0 {
        0
    } else {
        count_above(fs.drop_last(), cutoff) + if fs.last().cc > cutoff {
            1nat
        } else {
            0nat
        }
    }
}

/// The largest cyclomatic complexity among `fs`, zero when there is none.
pub open spec fn max_cc(fs: Seq<FunctionRecord>) -> u32
    decreases fs.len(),
{
    if fs.len() == 0 {
        0
    } else {
        let m = max_cc(fs.drop_last());
        if fs.last().cc > m {
            fs.last().cc
        } else {
            m
        }
    }
}

/// The whole-number facts of a complexity summary.
pub struct ComplexityProfile {
    /// Functions whose cyclomatic complexity is above the cutoff.
    pub high_complexity_function_count: usize,
    /// The largest cyclomatic complexity of any function.
    pub maximum_function_cc: u32,
}

/// Counts the functions of `files` above `complexity_cutoff` and finds the largest cyclomatic
/// complexity; the count stops at `usize::MAX`.
pub fn complexity_profile(files: &Vec<AnalyzedFile>, complexity_cutoff: u32) -> (p:
    ComplexityProfile)
    ensures
        p.high_complexity_function_count == (if count_above(all_functions(files@), complexity_cutoff)
            <= usize::MAX {
            count_above(all_functions(files@), complexity_cutoff)
        } else {
            usize::MAX as nat
        }),
        p.maximum_function_cc == max_cc(all_functions(files@)),
{
    let ghost all = files@;
    let mut count: usize = 0;
    let mut maximum: u32 = 0;
    let mut i: usize = 0;
    assert(all.take(0) =~= Seq::<AnalyzedFile>::empty());
    while i < files.len()
        invariant
            all == files@,
            i <= all.len(),
            count == (if count_above(all_functions(all.take(i as int)), complexity_cutoff)
                <= usize::MAX {
                count_above(all_functions(all.take(i as int)), complexity_cutoff)
            } else {
                usize::MAX as nat
            }),
            maximum == max_cc(all_functions(all.take(i as int))),
        decreases all.len() - i,
    {
        let functions = &files[i].functions;
        let ghost before = all_functions(all.take(i as int));
        let mut j: usize = 0;
        assert(before + functions@.take(0) =~= before);
        while j < functions.len()
            invariant
                i < all.len(),
                functions@ == all[i as int].functions@,
                j <= functions@.len(),
                count == (if count_above(before + functions@.take(j as int), complexity_cutoff)
                    <= usize::MAX {
                    count_above(before + functions@.take(j as int), complexity_cutoff)
                } else {
                    usize::MAX as nat
                }),
                maximum == max_cc(before + functions@.take(j as int)),
            decreases functions@.len() - j,
        {
            let f = &functions[j];
            proof {
                assert((before + functions@.take(j + 1)).drop_last() =~= before + functions@.take(
                    j as int,
                ));
                assert((before + functions@.take(j + 1)).last() == *f);
            }
            if f.cc > complexity_cutoff {
                count = count.saturating_add(1);
            }
            if f.cc > maximum {
                maximum = f.cc;
            }
            j = j + 1;
        }
        proof {
            assert(functions@.take(functions@.len() as int) =~= functions@);
            assert(all.take(i + 1).drop_last() =~= all.take(i as int));
            assert(all.take(i + 1).last() == all[i as int]);
        }
        i = i + 1;
    }
    assert(all.take(all.len() as int) =~= all);
    ComplexityProfile { high_complexity_function_count: count, maximum_function_cc: maximum }
}

/// Accepts a history length from one to one hundred commits.
pub fn check_history_count(count: usize) -> (r: AppResult<()>)
    ensures
        (1 <= count <= 100) <==> r is Ok,
        r matches Err(e) ==> is_invalid(e, "history count"@, "must be within 1..=100"@),
{
    if 1 <= count && count <= 100 {
        Ok(())
    } else {
        Err(AppError::invalid("history count", "must be within 1..=100".to_owned()))
    }
}

} // verus!
