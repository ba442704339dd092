//! Normalized observations that the growth rules compare between two revisions.
use vstd::prelude::*;
use crate::order::string_views;

verus! {

/// A normalized Rust lint-suppression observation.
#[derive(Debug, Clone, PartialEq, Eq)]
pub struct LintSuppression {
    /// Suppression syntax category: `allow`, `expect`, or `cfg-allow`.
    pub kind: String,
    /// Sorted lint paths named by the attribute.
    pub lint_paths: Vec<String>,
    /// Stable fingerprint of the suppressed target.
    pub target_fingerprint: String,
    /// Target syntax kind used for reporting.
    pub target_kind: String,
    /// One-based attribute line.
    pub line: usize,
}

pub struct LintSuppressionView {
    pub kind: Seq<char>,
    pub lint_paths: Seq<Seq<char>>,
    pub target_fingerprint: Seq<char>,
    pub target_kind: Seq<char>,
    pub line: usize,
}

impl View for LintSuppression {
    type V = LintSuppressionView;

    open spec fn view(&self) -> LintSuppressionView {
        LintSuppressionView {
            kind: self.kind@,
            lint_paths: string_views(self.lint_paths@),
            target_fingerprint: self.target_fingerprint@,
            target_kind: self.target_kind@,
            line: self.line,
        }
    }
}

/// A Rust unsafe-surface construct and its primary token location.
#[derive(Debug, Clone, PartialEq, Eq)]
pub struct UnsafeSurface {
    /// Versioned syntax pattern identifier.
    pub pattern_id: String,
    /// Normalized construct fingerprint used for base/head matching.
    pub fingerprint: String,
    /// One-based line containing the primary `unsafe` token.
    pub line: usize,
}

pub struct UnsafeSurfaceView {
    pub pattern_id: Seq<char>,
    pub fingerprint: Seq<char>,
    pub line: usize,
}

impl View for UnsafeSurface {
    type V = UnsafeSurfaceView;

    open spec fn view(&self) -> UnsafeSurfaceView {
        UnsafeSurfaceView {
            pattern_id: self.pattern_id@,
            fingerprint: self.fingerprint@,
            line: self.line,
        }
    }
}

/// A normalized direct Cargo dependency declaration.
#[derive(Debug, Clone, PartialEq, Eq)]
pub struct DependencyEdge {
    /// Manifest-relative table path containing the declaration.
    pub table_path: String,
    /// Dependency key used by Cargo.
    pub dependency_key: String,
    /// Optional renamed package name.
    pub package: Option<String>,
    /// Source kind: registry, git, path, or unspecified.
    pub source_kind: String,
    /// Normalized source locator, when present.
    pub source: Option<String>,
    /// Whether Cargo default features are enabled.
    pub default_features: bool,
    /// Sorted explicitly enabled feature names.
    pub features: Vec<String>,
    /// Normalized version requirement, when present.
    pub version: Option<String>,
    /// One-based declaration line in the source manifest.
    pub line: usize,
}

pub open spec fn opt_view(o: Option<String>) -> Option<Seq<char>> {
    match o {
        Some(s) => Some(s@),
        None => None,
    }
}

pub struct DependencyEdgeView {
    pub table_path: Seq<char>,
    pub dependency_key: Seq<char>,
    pub package: Option<Seq<char>>,
    pub source_kind: Seq<char>,
    pub source: Option<Seq<char>>,
    pub default_features: bool,
    pub features: Seq<Seq<char>>,
    pub version: Option<Seq<char>>,
    pub line: usize,
}

impl View for DependencyEdge {
    type V = DependencyEdgeView;

    open spec fn view(&self) -> DependencyEdgeView {
        DependencyEdgeView {
            table_path: self.table_path@,
            dependency_key: self.dependency_key@,
            package: opt_view(self.package),
            source_kind: self.source_kind@,
            source: opt_view(self.source),
            default_features: self.default_features,
            features: string_views(self.features@),
            version: opt_view(self.version),
            line: self.line,
        }
    }
}

} // verus!
