//! Deterministic repository-aware code quality gates: the verified core.
use vstd::prelude::*;

pub mod analysis;
pub mod artifact;
pub mod clones;
pub mod config;
pub mod diff;
pub mod digest;
pub mod encoding;
pub mod facts;
pub mod gate;
pub mod laws;
pub mod error;
pub mod manifest;
pub mod measure;
pub mod order;
pub mod path;
pub mod report;
pub mod repo;
pub mod rules;
pub mod scan;
pub mod sort;
pub mod syntax;
pub mod text;

pub use error::{AppError, AppResult};

verus! {
}
