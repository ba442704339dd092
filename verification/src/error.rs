//! Typed recoverable errors.
use std::path::PathBuf;
use vstd::prelude::*;

verus! {

#[verifier::external_type_specification]
#[verifier::external_body]
pub struct ExPathBuf(PathBuf);

#[verifier::external_type_specification]
#[verifier::external_body]
pub struct ExIoError(std::io::Error);

/// Recoverable errors that prevent trustworthy analysis.
#[derive(Debug)]
pub enum AppError {
    /// A filesystem operation failed.
    Io {
        /// The attempted operation.
        operation: &'static str,
        /// The affected filesystem path.
        path: PathBuf,
        /// The underlying operating-system failure.
        source: std::io::Error,
    },
    /// A source, artifact, configuration, or Git value violates a documented invariant.
    Invalid {
        /// The invalid value category.
        subject: &'static str,
        /// A concrete explanation suitable for a CLI diagnostic.
        detail: String,
    },
    /// A parser, serializer, or external command produced invalid UTF-8 text.
    Utf8 {
        /// The output field that failed decoding.
        subject: &'static str,
        /// The conversion failure description.
        detail: String,
    },
    /// A Git command could not start or exited unsuccessfully.
    Git {
        /// The attempted Git operation.
        operation: &'static str,
        /// The command or process diagnostic.
        detail: String,
    },
}

/// Result type returned by the fallible functions of this crate.
pub type AppResult<T> = Result<T, AppError>;

/// `e` is an invariant error with this subject and detail text.
pub open spec fn is_invalid(e: AppError, subject: Seq<char>, detail: Seq<char>) -> bool {
    e matches AppError::Invalid { subject: s, detail: d } && s@ == subject && d@ == detail
}

impl AppError {
    /// Constructs an invariant error with a stable subject label.
    pub fn invalid(subject: &'static str, detail: String) -> (e: Self)
        ensures
            is_invalid(e, subject@, detail@),
    {
        AppError::Invalid { subject, detail }
    }
}

} // verus!
