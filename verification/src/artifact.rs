//! Function facts and the versioned baseline artifact that carries them.
use vstd::prelude::*;
use crate::digest::{blake3_hex, digest_hex};
use crate::error::{is_invalid, AppError, AppResult};
use crate::path::{is_relative_path, relative_path};
use crate::sort::{insertion_sort, stable_sort};
use crate::text::{debug_quoted, debug_str, decimal, decimal_seq, seq_lt, str_eq, str_lt};
use vstd::string::StringExecFns;
use vstd::utf8::encode_utf8;

verus! {

/// Current on-disk schema version for [`IndexArtifact`].
pub const ARTIFACT_VERSION: u32 = 2;

/// The analyzer rules whose changes invalidate artifacts.
pub const ANALYZER_RULESET: &'static str = "slop-gate-analysis-v2|rust-function-item|rust-cc-v1|normalized-token-v1|shingle-v1|normalized-ast-v1|ast-shingle-v1";

/// The crate version recorded in artifacts.
pub const TOOL_VERSION: &'static str = "0.3.1";

/// The category of a function declaration.
#[derive(Debug, Clone, Copy, PartialEq, Eq, Hash, Structural)]
pub enum FunctionKind {
    /// A free, associated, or trait function declaration.
    Function,
}

/// A stable matching hint for one declaration across two revisions.
#[derive(Debug, Clone, PartialEq, Eq, Hash)]
pub struct FunctionIdentity {
    /// Analyzer language identifier.
    pub language: String,
    /// Repository-relative declaration path.
    pub path: String,
    /// Lexical module, trait, and implementation scopes followed by the name.
    pub qualified_name: String,
    /// The declaration category.
    pub kind: FunctionKind,
}

/// The text of an identity.
pub struct IdentityView {
    pub language: Seq<char>,
    pub path: Seq<char>,
    pub qualified_name: Seq<char>,
    pub kind: FunctionKind,
}

impl View for FunctionIdentity {
    type V = IdentityView;

    open spec fn view(&self) -> IdentityView {
        IdentityView {
            language: self.language@,
            path: self.path@,
            qualified_name: self.qualified_name@,
            kind: self.kind,
        }
    }
}

impl FunctionIdentity {
    /// A copy with the same text.
    pub fn duplicate(&self) -> (r: Self)
        ensures
            r@ == self@,
    {
        FunctionIdentity {
            language: self.language.clone(),
            path: self.path.clone(),
            qualified_name: self.qualified_name.clone(),
            kind: self.kind,
        }
    }

    /// Whether two identities name the same declaration.
    pub fn same_as(&self, other: &Self) -> (b: bool)
        ensures
            b == (self@ == other@),
    {
        str_eq(self.language.as_str(), other.language.as_str()) && str_eq(
            self.path.as_str(),
            other.path.as_str(),
        ) && str_eq(self.qualified_name.as_str(), other.qualified_name.as_str())
    }
}

/// Deterministic structural facts about one named function; its mass, `cc * sqrt(sloc)`, is
/// a real number that the caller derives where it needs it.
#[derive(Debug, Clone, PartialEq)]
pub struct FunctionRecord {
    /// Matching identity for this function.
    pub identity: FunctionIdentity,
    /// Unqualified declared name as written in source.
    pub name: String,
    /// First declaration line, one-based.
    pub start_line: usize,
    /// Last declaration line, one-based.
    pub end_line: usize,
    /// BLAKE3 hash of the normalized token stream.
    pub normalized_hash: String,
    /// BLAKE3 hash of the normalized AST-shape stream.
    pub ast_hash: String,
    /// Number of nodes in the normalized AST-shape stream.
    pub ast_node_count: usize,
    /// Number of normalized tokens.
    pub token_count: usize,
    /// Non-blank, non-comment-only physical lines of source.
    pub sloc: usize,
    /// Cyclomatic complexity using the versioned Rust decision-node map.
    pub cc: u32,
    /// Sorted unique BLAKE3-truncated hashes of five-token shingles.
    pub shingle_hashes: Vec<u64>,
    /// Sorted unique BLAKE3-truncated hashes of five-node AST shingles.
    pub ast_shingle_hashes: Vec<u64>,
}

/// The facts of a function record, as values.
pub struct RecordView {
    pub identity: IdentityView,
    pub name: Seq<char>,
    pub start_line: usize,
    pub end_line: usize,
    pub normalized_hash: Seq<char>,
    pub ast_hash: Seq<char>,
    pub ast_node_count: usize,
    pub token_count: usize,
    pub sloc: usize,
    pub cc: u32,
    pub shingle_hashes: Seq<u64>,
    pub ast_shingle_hashes: Seq<u64>,
}

impl View for FunctionRecord {
    type V = RecordView;

    open spec fn view(&self) -> RecordView {
        RecordView {
            identity: self.identity@,
            name: self.name@,
            start_line: self.start_line,
            end_line: self.end_line,
            normalized_hash: self.normalized_hash@,
            ast_hash: self.ast_hash@,
            ast_node_count: self.ast_node_count,
            token_count: self.token_count,
            sloc: self.sloc,
            cc: self.cc,
            shingle_hashes: self.shingle_hashes@,
            ast_shingle_hashes: self.ast_shingle_hashes@,
        }
    }
}

/// The facts of a list of function records.
pub open spec fn record_views(s: Seq<FunctionRecord>) -> Seq<RecordView> {
    s.map_values(|f: FunctionRecord| f@)
}

/// A source file analyzed into gate-relevant function facts.
#[derive(Debug, Clone, PartialEq)]
pub struct AnalyzedFile {
    /// Repository-relative path using `/` separators.
    pub path: String,
    /// Analyzer language identifier.
    pub language: String,
    /// BLAKE3 hash of the complete source file.
    pub content_hash: String,
    /// Functions extracted from the file in source order.
    pub functions: Vec<FunctionRecord>,
}

/// A portable baseline index for one exact Git revision.
#[derive(Debug, Clone, PartialEq)]
pub struct IndexArtifact {
    /// Artifact schema version.
    pub artifact_version: u32,
    /// Crate version that created this artifact.
    pub tool_version: String,
    /// BLAKE3 fingerprint of analyzer rules whose changes invalidate artifacts.
    pub analyzer_fingerprint: String,
    /// Forty- or sixty-four-character hexadecimal Git object ID.
    pub repository_commit: String,
    /// Per-file analysis facts, sorted by repository-relative path.
    pub files: Vec<AnalyzedFile>,
}

/// An ASCII hexadecimal digit byte.
pub open spec fn is_hex_byte(b: u8) -> bool {
    (48 <= b <= 57) || (65 <= b <= 70) || (97 <= b <= 102)
}

/// A complete hexadecimal Git object ID (SHA-1 or SHA-256), by its UTF-8 bytes.
pub open spec fn git_object_id(bytes: Seq<u8>) -> bool {
    (bytes.len() == 40 || bytes.len() == 64) && forall|k: int|
        0 <= k < bytes.len() ==> is_hex_byte(#[trigger] bytes[k])
}

/// Whether `value` is a 40- or 64-character hexadecimal Git object ID.
pub fn is_git_object_id(value: &str) -> (b: bool)
    ensures
        b == git_object_id(encode_utf8(value@)),
{
    let bytes = value.as_bytes();
    let n = bytes.len();
    if n != 40 && n != 64 {
        return false;
    }
    let mut k: usize = 0;
    while k < n
        invariant
            n == bytes@.len(),
            bytes@ == encode_utf8(value@),
            k <= n,
            forall|j: int| 0 <= j < k ==> is_hex_byte(#[trigger] bytes@[j]),
        decreases n - k,
    {
        let b = bytes[k];
        if !((48 <= b && b <= 57) || (65 <= b && b <= 70) || (97 <= b && b <= 102)) {
            assert(!is_hex_byte(bytes@[k as int]));
            return false;
        }
        k = k + 1;
    }
    true
}

/// The first constraint that an artifact violates.
pub enum ArtifactFault {
    /// Unsupported schema version.
    Version(u32),
    /// The analyzer fingerprint differs from the expected one.
    Fingerprint,
    /// The commit is not a complete Git object ID.
    Commit,
    /// File paths are not strictly increasing.
    Order,
    /// A file path is not a normalized relative path.
    Path(Seq<char>),
    /// A file's language is not `rust`.
    Language(Seq<char>),
}

/// File paths are strictly increasing.
pub open spec fn paths_strictly_sorted(files: Seq<AnalyzedFile>) -> bool {
    forall|i: int| 0 <= i < files.len() - 1 ==> seq_lt(#[trigger] files[i].path@, files[i + 1].path@)
}

/// The first file, from index `i` on, whose path or language is unsupported.
pub open spec fn file_fault_from(files: Seq<AnalyzedFile>, i: int) -> Option<ArtifactFault>
    decreases files.len() - i,
{
    if i < 0 || i >= files.len() {
        None
    } else if !relative_path(files[i].path@) {
        Some(ArtifactFault::Path(files[i].path@))
    } else if files[i].language@ != "rust"@ {
        Some(ArtifactFault::Language(files[i].language@))
    } else {
        file_fault_from(files, i + 1)
    }
}

/// The first violated constraint of an artifact, checked in the order: schema version,
/// analyzer fingerprint, commit, file order, then each file's path and language.
pub open spec fn artifact_fault(a: IndexArtifact, expected: Seq<char>) -> Option<ArtifactFault> {
    if a.artifact_version != ARTIFACT_VERSION {
        Some(ArtifactFault::Version(a.artifact_version))
    } else if a.analyzer_fingerprint@ != expected {
        Some(ArtifactFault::Fingerprint)
    } else if !git_object_id(encode_utf8(a.repository_commit@)) {
        Some(ArtifactFault::Commit)
    } else if !paths_strictly_sorted(a.files@) {
        Some(ArtifactFault::Order)
    } else {
        file_fault_from(a.files@, 0)
    }
}

/// The error with which an artifact fault is reported.
pub open spec fn artifact_error(e: AppError, fault: ArtifactFault) -> bool {
    match fault {
        ArtifactFault::Version(v) => is_invalid(
            e,
            "artifact version"@,
            decimal_seq(v as nat) + "; expected "@ + decimal_seq(ARTIFACT_VERSION as nat),
        ),
        ArtifactFault::Fingerprint => is_invalid(
            e,
            "artifact analyzer fingerprint"@,
            "does not match this binary"@,
        ),
        ArtifactFault::Commit => is_invalid(
            e,
            "artifact repository_commit"@,
            "must be a 40- or 64-character hexadecimal Git object ID"@,
        ),
        ArtifactFault::Order => is_invalid(e, "artifact files"@, "must be strictly sorted by path"@),
        ArtifactFault::Path(p) => is_invalid(e, "artifact file path"@, debug_str(p)),
        ArtifactFault::Language(l) => is_invalid(
            e,
            "artifact language"@,
            "unsupported "@ + debug_str(l),
        ),
    }
}

/// The compatibility fingerprint of the compiled analyzer rules.
pub open spec fn spec_analyzer_fingerprint() -> Seq<char> {
    blake3_hex(encode_utf8(ANALYZER_RULESET@))
}

/// The compatibility fingerprint of the analyzer rules combined with a repository policy.
pub open spec fn spec_policy_fingerprint(policy: Seq<char>) -> Seq<char> {
    blake3_hex(encode_utf8(ANALYZER_RULESET@ + "|"@ + policy))
}

/// Returns the compatibility fingerprint for the compiled analyzer rules.
pub fn analyzer_fingerprint() -> (s: String)
    ensures
        s@ == spec_analyzer_fingerprint(),
{
    digest_hex(ANALYZER_RULESET.as_bytes())
}

/// Combines compiled analyzer rules with a repository policy fingerprint.
pub fn analyzer_fingerprint_with_policy(policy: &str) -> (s: String)
    ensures
        s@ == spec_policy_fingerprint(policy@),
{
    let combined = String::from_str(ANALYZER_RULESET).concat("|").concat(policy);
    digest_hex(combined.as_str().as_bytes())
}

/// The order in which artifacts keep their files.
pub open spec fn file_path_lt() -> spec_fn(AnalyzedFile, AnalyzedFile) -> bool {
    |a: AnalyzedFile, b: AnalyzedFile| seq_lt(a.path@, b.path@)
}

fn file_path_less(a: &AnalyzedFile, b: &AnalyzedFile) -> (lt: bool)
    ensures
        lt == seq_lt(a.path@, b.path@),
{
    str_lt(a.path.as_str(), b.path.as_str())
}

impl IndexArtifact {
    /// Validates compatibility against a caller-supplied analyzer-policy fingerprint.
    #[verifier::loop_isolation(false)]
    pub fn validate_with_fingerprint(&self, expected_fingerprint: &str) -> (r: AppResult<()>)
        ensures
            match r {
                Ok(()) => artifact_fault(*self, expected_fingerprint@) is None,
                Err(e) => artifact_fault(*self, expected_fingerprint@) matches Some(f)
                    && artifact_error(e, f),
            },
    {
        if self.artifact_version != ARTIFACT_VERSION {
            let detail = decimal(self.artifact_version as u64).concat("; expected ").concat(
                decimal(ARTIFACT_VERSION as u64).as_str(),
            );
            return Err(AppError::invalid("artifact version", detail));
        }
        if !str_eq(self.analyzer_fingerprint.as_str(), expected_fingerprint) {
            return Err(
                AppError::invalid(
                    "artifact analyzer fingerprint",
                    "does not match this binary".to_owned(),
                ),
            );
        }
        if !is_git_object_id(self.repository_commit.as_str()) {
            return Err(
                AppError::invalid(
                    "artifact repository_commit",
                    "must be a 40- or 64-character hexadecimal Git object ID".to_owned(),
                ),
            );
        }
        let n = self.files.len();
        let mut i: usize = 1;
        while i < n
            invariant
                n == self.files@.len(),
                1 <= i,
                forall|j: int| 0 <= j < i - 1 && j < n - 1 ==> seq_lt(
                    #[trigger] self.files@[j].path@,
                    self.files@[j + 1].path@,
                ),
            decreases n - i,
        {
            if !str_lt(self.files[i - 1].path.as_str(), self.files[i].path.as_str()) {
                return Err(
                    AppError::invalid("artifact files", "must be strictly sorted by path".to_owned()),
                );
            }
            i = i + 1;
        }
        let mut k: usize = 0;
        while k < n
            invariant
                n == self.files@.len(),
                k <= n,
                file_fault_from(self.files@, 0) == file_fault_from(self.files@, k as int),
            decreases n - k,
        {
            let file = &self.files[k];
            if !is_relative_path(file.path.as_str()) {
                return Err(AppError::invalid("artifact file path", debug_quoted(file.path.as_str())));
            }
            if !str_eq(file.language.as_str(), "rust") {
                let detail = String::from_str("unsupported ").concat(
                    debug_quoted(file.language.as_str()).as_str(),
                );
                return Err(AppError::invalid("artifact language", detail));
            }
            k = k + 1;
        }
        Ok(())
    }

    /// Validates compatibility with the compiled analyzer rules.
    pub fn validate(&self) -> (r: AppResult<()>)
        ensures
            match r {
                Ok(()) => artifact_fault(*self, spec_analyzer_fingerprint()) is None,
                Err(e) => artifact_fault(*self, spec_analyzer_fingerprint()) matches Some(f)
                    && artifact_error(e, f),
            },
    {
        let expected = analyzer_fingerprint();
        self.validate_with_fingerprint(expected.as_str())
    }

    /// Constructs an artifact with a caller-supplied analyzer-policy fingerprint: files are
    /// put in path order (stably), and the result is validated against that fingerprint.
    pub fn new_with_fingerprint(
        repository_commit: String,
        files: Vec<AnalyzedFile>,
        expected_fingerprint: String,
    ) -> (r: AppResult<Self>)
        ensures
            match r {
                Ok(a) => {
                    &&& a.artifact_version == ARTIFACT_VERSION
                    &&& a.tool_version@ == TOOL_VERSION@
                    &&& a.analyzer_fingerprint@ == expected_fingerprint@
                    &&& a.repository_commit == repository_commit
                    &&& a.files@ == stable_sort(files@, file_path_lt())
                    &&& artifact_fault(a, expected_fingerprint@) is None
                },
                Err(e) => exists|a: IndexArtifact|
                    {
                        &&& a.artifact_version == ARTIFACT_VERSION
                        &&& a.analyzer_fingerprint@ == expected_fingerprint@
                        &&& a.repository_commit == repository_commit
                        &&& a.files@ == stable_sort(files@, file_path_lt())
                        &&& #[trigger] artifact_fault(a, expected_fingerprint@) matches Some(f)
                        &&& artifact_error(e, f)
                    },
            },
    {
        let sorted = insertion_sort(files, file_path_less, Ghost(file_path_lt()));
        let artifact = IndexArtifact {
            artifact_version: ARTIFACT_VERSION,
            tool_version: TOOL_VERSION.to_owned(),
            analyzer_fingerprint: expected_fingerprint.clone(),
            repository_commit,
            files: sorted,
        };
        match artifact.validate_with_fingerprint(expected_fingerprint.as_str()) {
            Ok(()) => Ok(artifact),
            Err(e) => Err(e),
        }
    }

    /// Constructs and validates an artifact for the compiled analyzer rules.
    pub fn new(repository_commit: String, files: Vec<AnalyzedFile>) -> (r: AppResult<Self>)
        ensures
            match r {
                Ok(a) => {
                    &&& a.artifact_version == ARTIFACT_VERSION
                    &&& a.tool_version@ == TOOL_VERSION@
                    &&& a.analyzer_fingerprint@ == spec_analyzer_fingerprint()
                    &&& a.repository_commit == repository_commit
                    &&& a.files@ == stable_sort(files@, file_path_lt())
                    &&& artifact_fault(a, spec_analyzer_fingerprint()) is None
                },
                Err(e) => exists|a: IndexArtifact|
                    {
                        &&& a.artifact_version == ARTIFACT_VERSION
                        &&& a.analyzer_fingerprint@ == spec_analyzer_fingerprint()
                        &&& a.repository_commit == repository_commit
                        &&& a.files@ == stable_sort(files@, file_path_lt())
                        &&& #[trigger] artifact_fault(a, spec_analyzer_fingerprint()) matches Some(f)
                        &&& artifact_error(e, f)
                    },
            },
    {
        Self::new_with_fingerprint(repository_commit, files, analyzer_fingerprint())
    }
}

/// `path` is `filter` or lies in the directory `filter`.
pub open spec fn under(path: Seq<char>, filter: Seq<char>) -> bool {
    path == filter || (filter.len() < path.len() && path.take(filter.len() as int) == filter
        && path[filter.len() as int] == '/')
}

/// The files that a list of path filters selects: all of them when there is no filter or
/// one filter is the repository root (empty); else those under some filter, in order.
pub open spec fn selected_files(files: Seq<AnalyzedFile>, filters: Seq<Seq<char>>) -> Seq<AnalyzedFile> {
    if filters.len() == 0 || filters.contains(Seq::empty()) {
        files
    } else {
        files.filter(
            |f: AnalyzedFile| exists|k: int| 0 <= k < filters.len() && #[trigger] under(f.path@, filters[k]),
        )
    }
}

fn is_under(path: &str, filter: &str) -> (b: bool)
    ensures
        b == under(path@, filter@),
{
    let p = crate::text::chars_of(path);
    let f = crate::text::chars_of(filter);
    if crate::text::str_eq(path, filter) {
        return true;
    }
    if f.len() < p.len() && crate::text::starts_with(p.as_slice(), f.as_slice()) {
        return p[f.len()] == '/';
    }
    false
}

/// Restricts an artifact's files to those under the given repository-relative paths.
pub fn keep_paths(files: Vec<AnalyzedFile>, filters: &Vec<String>) -> (r: Vec<AnalyzedFile>)
    ensures
        r@ == selected_files(files@, crate::order::string_views(filters@)),
{
    let ghost views = crate::order::string_views(filters@);
    let mut any_root = false;
    let mut k: usize = 0;
    while k < filters.len()
        invariant
            views == crate::order::string_views(filters@),
            k <= filters@.len(),
            any_root == exists|j: int| 0 <= j < k && views[j] == Seq::<char>::empty(),
        decreases filters@.len() - k,
    {
        proof {
            reveal_strlit("");
            assert(""@ =~= Seq::<char>::empty());
        }
        assert(views[k as int] == filters@[k as int]@);
        if str_eq(filters[k].as_str(), "") {
            any_root = true;
        }
        k = k + 1;
    }
    if filters.len() == 0 || any_root {
        proof {
            if any_root {
                let j = choose|j: int| 0 <= j < filters@.len() && views[j] == Seq::<char>::empty();
                assert(views.contains(Seq::<char>::empty()));
            }
        }
        return files;
    }
    assert(!views.contains(Seq::<char>::empty()));
    let ghost keep = |f: AnalyzedFile| exists|k: int| 0 <= k < views.len() && #[trigger] under(f.path@, views[k]);
    let mut out: Vec<AnalyzedFile> = Vec::new();
    let total = files.len();
    let mut rest = files;
    let ghost all = rest@;
    let mut i: usize = 0;
    assert(all.take(0).filter(keep) =~= Seq::<AnalyzedFile>::empty());
    assert(all.skip(0) =~= all);
    while rest.len() > 0
        invariant
            views == crate::order::string_views(filters@),
            total == all.len(),
            i <= all.len(),
            rest@ == all.skip(i as int),
            out@ == all.take(i as int).filter(keep),
            keep == (|f: AnalyzedFile| exists|k: int| 0 <= k < views.len() && #[trigger] under(f.path@, views[k])),
        decreases rest@.len(),
    {
        let f = rest.remove(0);
        let mut hit = false;
        let mut k: usize = 0;
        while k < filters.len()
            invariant
                views == crate::order::string_views(filters@),
                k <= filters@.len(),
                hit == exists|j: int| 0 <= j < k && under(f.path@, views[j]),
            decreases filters@.len() - k,
        {
            assert(views[k as int] == filters@[k as int]@);
            if is_under(f.path.as_str(), filters[k].as_str()) {
                hit = true;
            }
            k = k + 1;
        }
        proof {
            assert(all[i as int] == f);
            assert(all.take(i + 1).drop_last() =~= all.take(i as int));
            all.take(i as int).lemma_filter_push(f, keep);
            assert(all.take(i as int).push(f) =~= all.take(i + 1));
            assert(rest@ =~= all.skip(i + 1));
            assert(keep(f) == hit);
        }
        if hit {
            out.push(f);
        }
        i = i + 1;
    }
    assert(all.take(all.len() as int) =~= all);
    out
}

} // verus!
