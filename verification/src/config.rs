//! Repository-owned gate policy and suppression configuration.
//!
//! Real-valued thresholds are carried as the bit patterns of their `f64` values; they are
//! read and checked by the caller that works with floating point.
use vstd::prelude::*;
use crate::error::{is_invalid, AppError, AppResult};
use crate::path::{is_relative_path, relative_path};
use crate::text::{chars_of, decimal, decimal_seq, str_eq, trim_chars, trim_seq};
use vstd::string::StringExecFns;

verus! {

/// The only supported configuration schema version.
pub const CONFIG_VERSION: u32 = 1;

/// Whether a rule is disabled, advisory, or merge-blocking.
#[derive(Debug, Clone, Copy, PartialEq, Eq, Structural)]
pub enum RuleSeverity {
    /// The rule reports nothing.
    Off,
    /// Findings are warnings.
    Warn,
    /// Findings are errors.
    Error,
}

/// Function-mass rule policy.
#[derive(Debug, Clone, PartialEq)]
pub struct FunctionMassRule {
    pub severity: RuleSeverity,
    /// Bit pattern of the `f64` mass limit for new functions.
    pub new_function_limit_bits: u64,
    /// Bit pattern of the `f64` limit on a function's mass increase.
    pub delta_limit_bits: u64,
}

/// Near-clone rule policy.
#[derive(Debug, Clone, PartialEq)]
pub struct NearCloneRule {
    pub severity: RuleSeverity,
    pub minimum_sloc: usize,
    pub minimum_tokens: usize,
    /// Bit pattern of the `f64` similarity threshold.
    pub similarity_threshold_bits: u64,
    pub max_candidates: usize,
}

/// Lint-suppression growth policy.
#[derive(Debug, Clone, PartialEq)]
pub struct LintSuppressionRule {
    /// Severity assigned to newly introduced or broadened suppressions.
    pub severity: RuleSeverity,
}

/// Unsafe-surface growth policy.
#[derive(Debug, Clone, PartialEq)]
pub struct UnsafeSurfaceRule {
    /// Severity assigned to newly introduced unsafe constructs.
    pub severity: RuleSeverity,
}

/// Dependency-surface growth policy.
#[derive(Debug, Clone, PartialEq)]
pub struct DependencySurfaceRule {
    /// Severity assigned to new or expanded dependency edges.
    pub severity: RuleSeverity,
}

/// Structural-erosion history policy.
#[derive(Debug, Clone, PartialEq)]
pub struct StructuralErosionRule {
    pub severity: RuleSeverity,
    /// Bit pattern of the `f64` erosion-ratio limit.
    pub erosion_limit_bits: u64,
    /// Bit pattern of the `f64` limit on an erosion-ratio increase.
    pub delta_limit_bits: u64,
    /// Functions above this cyclomatic complexity count as high-complexity.
    pub complexity_cutoff: u32,
    /// Number of contributing functions to report.
    pub top_contributors: usize,
}

/// Per-rule thresholds and severities.
#[derive(Debug, Clone, PartialEq)]
pub struct Rules {
    pub function_mass: FunctionMassRule,
    pub near_clone: NearCloneRule,
    pub lint_suppression: LintSuppressionRule,
    pub unsafe_surface: UnsafeSurfaceRule,
    pub dependency_surface: DependencySurfaceRule,
    pub structural_erosion: StructuralErosionRule,
}

/// A justified exact-location exception to a rule.
#[derive(Debug, Clone, PartialEq, Eq)]
pub struct Suppression {
    pub rule: String,
    pub path: String,
    pub line: Option<usize>,
    pub reason: String,
}

/// Validated repository policy for gate rules.
#[derive(Debug, Clone, PartialEq)]
pub struct GateConfig {
    pub version: u32,
    pub rules: Rules,
    pub suppressions: Vec<Suppression>,
}

/// Bit pattern of `80.0_f64`, the default new-function mass limit.
pub const DEFAULT_NEW_MASS_LIMIT_BITS: u64 = 0x4054_0000_0000_0000;

/// Bit pattern of `20.0_f64`, the default mass-increase limit.
pub const DEFAULT_DELTA_LIMIT_BITS: u64 = 0x4034_0000_0000_0000;

/// Bit pattern of `0.85_f64`, the default similarity threshold.
pub const DEFAULT_SIMILARITY_THRESHOLD_BITS: u64 = 0x3feb_3333_3333_3333;

/// Bit pattern of `0.5_f64`, the default erosion-ratio limit.
pub const DEFAULT_EROSION_LIMIT_BITS: u64 = 0x3fe0_0000_0000_0000;

/// Bit pattern of `0.08_f64`, the default erosion-ratio increase limit.
pub const DEFAULT_EROSION_DELTA_BITS: u64 = 0x3fb4_7ae1_47ae_147b;

/// The configuration version assumed when a file names none.
pub fn default_version() -> (v: u32)
    ensures
        v == CONFIG_VERSION,
{
    CONFIG_VERSION
}

/// The default smallest function, in lines of code, that clone matching considers.
pub fn default_minimum_sloc() -> (n: usize)
    ensures
        n == 8,
{
    8
}

/// The default smallest function, in normalized tokens, that clone matching considers.
pub fn default_minimum_tokens() -> (n: usize)
    ensures
        n == 40,
{
    40
}

/// The default number of ranked candidates that clone matching compares.
pub fn default_max_candidates() -> (n: usize)
    ensures
        n == 64,
{
    64
}

/// The warning-only defaults that apply when no configuration file exists.
pub open spec fn spec_default_config(c: GateConfig) -> bool {
    &&& c.version == CONFIG_VERSION
    &&& c.rules.function_mass.severity == RuleSeverity::Warn
    &&& c.rules.function_mass.new_function_limit_bits == DEFAULT_NEW_MASS_LIMIT_BITS
    &&& c.rules.function_mass.delta_limit_bits == DEFAULT_DELTA_LIMIT_BITS
    &&& c.rules.near_clone.severity == RuleSeverity::Warn
    &&& c.rules.near_clone.minimum_sloc == 8
    &&& c.rules.near_clone.minimum_tokens == 40
    &&& c.rules.near_clone.similarity_threshold_bits == DEFAULT_SIMILARITY_THRESHOLD_BITS
    &&& c.rules.near_clone.max_candidates == 64
    &&& c.rules.lint_suppression.severity == RuleSeverity::Warn
    &&& c.rules.unsafe_surface.severity == RuleSeverity::Warn
    &&& c.rules.dependency_surface.severity == RuleSeverity::Warn
    &&& c.rules.structural_erosion.severity == RuleSeverity::Warn
    &&& c.rules.structural_erosion.erosion_limit_bits == DEFAULT_EROSION_LIMIT_BITS
    &&& c.rules.structural_erosion.delta_limit_bits == DEFAULT_EROSION_DELTA_BITS
    &&& c.rules.structural_erosion.complexity_cutoff == 10
    &&& c.rules.structural_erosion.top_contributors == 3
    &&& c.suppressions@.len() == 0
}

impl GateConfig {
    /// Whether this is the warning-only default policy. The defaults hold no zero and no NaN,
    /// so comparing bit patterns is comparing values.
    pub fn is_default(&self) -> (b: bool)
        ensures
            b == spec_default_config(*self),
    {
        let m = &self.rules;
        self.version == CONFIG_VERSION && m.function_mass.severity == RuleSeverity::Warn
            && m.function_mass.new_function_limit_bits == DEFAULT_NEW_MASS_LIMIT_BITS
            && m.function_mass.delta_limit_bits == DEFAULT_DELTA_LIMIT_BITS
            && m.near_clone.severity == RuleSeverity::Warn && m.near_clone.minimum_sloc == 8
            && m.near_clone.minimum_tokens == 40
            && m.near_clone.similarity_threshold_bits == DEFAULT_SIMILARITY_THRESHOLD_BITS
            && m.near_clone.max_candidates == 64 && m.lint_suppression.severity == RuleSeverity::Warn
            && m.unsafe_surface.severity == RuleSeverity::Warn
            && m.dependency_surface.severity == RuleSeverity::Warn
            && m.structural_erosion.severity == RuleSeverity::Warn
            && m.structural_erosion.erosion_limit_bits == DEFAULT_EROSION_LIMIT_BITS
            && m.structural_erosion.delta_limit_bits == DEFAULT_EROSION_DELTA_BITS
            && m.structural_erosion.complexity_cutoff == 10
            && m.structural_erosion.top_contributors == 3 && self.suppressions.len() == 0
    }

    /// The warning-only policy used when a repository has no configuration file.
    pub fn defaults() -> (c: Self)
        ensures
            spec_default_config(c),
    {
        GateConfig {
            version: CONFIG_VERSION,
            rules: Rules {
                function_mass: FunctionMassRule {
                    severity: RuleSeverity::Warn,
                    new_function_limit_bits: DEFAULT_NEW_MASS_LIMIT_BITS,
                    delta_limit_bits: DEFAULT_DELTA_LIMIT_BITS,
                },
                near_clone: NearCloneRule {
                    severity: RuleSeverity::Warn,
                    minimum_sloc: 8,
                    minimum_tokens: 40,
                    similarity_threshold_bits: DEFAULT_SIMILARITY_THRESHOLD_BITS,
                    max_candidates: 64,
                },
                lint_suppression: LintSuppressionRule { severity: RuleSeverity::Warn },
                unsafe_surface: UnsafeSurfaceRule { severity: RuleSeverity::Warn },
                dependency_surface: DependencySurfaceRule { severity: RuleSeverity::Warn },
                structural_erosion: StructuralErosionRule {
                    severity: RuleSeverity::Warn,
                    erosion_limit_bits: DEFAULT_EROSION_LIMIT_BITS,
                    delta_limit_bits: DEFAULT_EROSION_DELTA_BITS,
                    complexity_cutoff: 10,
                    top_contributors: 3,
                },
            },
            suppressions: Vec::new(),
        }
    }
}

/// The rules that a suppression may name.
pub open spec fn known_rule(rule: Seq<char>) -> bool {
    ||| rule == "function-mass"@
    ||| rule == "near-clone"@
    ||| rule == "lint-suppression-growth"@
    ||| rule == "unsafe-surface-growth"@
    ||| rule == "dependency-surface-growth"@
}

pub fn is_known_rule(rule: &str) -> (b: bool)
    ensures
        b == known_rule(rule@),
{
    str_eq(rule, "function-mass") || str_eq(rule, "near-clone") || str_eq(
        rule,
        "lint-suppression-growth",
    ) || str_eq(rule, "unsafe-surface-growth") || str_eq(rule, "dependency-surface-growth")
}

/// A suppression names a supported rule, a relative path, a positive line if any, and a reason.
pub open spec fn valid_suppression(s: Suppression) -> bool {
    &&& known_rule(s.rule@)
    &&& relative_path(s.path@)
    &&& trim_seq(s.reason@).len() > 0
    &&& s.line != Some(0usize)
}

/// The first violated configuration constraint.
pub enum ConfigFault {
    Version(u32),
    MassLimits,
    CloneThresholds,
    Suppression,
}

/// Checks in order: schema version, mass limits, near-clone thresholds, then suppressions.
/// The two real-valued checks are given as their outcomes.
pub open spec fn config_fault(
    c: GateConfig,
    mass_limits_ok: bool,
    similarity_ok: bool,
) -> Option<ConfigFault> {
    if c.version != CONFIG_VERSION {
        Some(ConfigFault::Version(c.version))
    } else if !mass_limits_ok {
        Some(ConfigFault::MassLimits)
    } else if !similarity_ok || c.rules.near_clone.minimum_sloc == 0
        || c.rules.near_clone.minimum_tokens == 0 || c.rules.near_clone.max_candidates == 0 {
        Some(ConfigFault::CloneThresholds)
    } else if exists|k: int|
        0 <= k < c.suppressions@.len() && !valid_suppression(#[trigger] c.suppressions@[k]) {
        Some(ConfigFault::Suppression)
    } else {
        None
    }
}

pub open spec fn config_error(e: AppError, f: ConfigFault) -> bool {
    match f {
        ConfigFault::Version(v) => is_invalid(
            e,
            "configuration version"@,
            decimal_seq(v as nat) + "; expected "@ + decimal_seq(CONFIG_VERSION as nat),
        ),
        ConfigFault::MassLimits => is_invalid(
            e,
            "function-mass limits"@,
            "must be finite non-negative numbers"@,
        ),
        ConfigFault::CloneThresholds => is_invalid(
            e,
            "near-clone thresholds"@,
            "must be positive and similarity must be within 0.0..=1.0"@,
        ),
        ConfigFault::Suppression => is_invalid(
            e,
            "suppression"@,
            "requires a supported rule, relative path, positive optional line, and reason"@,
        ),
    }
}

impl GateConfig {
    /// Validates the policy. `mass_limits_ok` says whether both function-mass limits are
    /// finite and non-negative; `similarity_ok` whether the similarity threshold lies in
    /// `0.0..=1.0`.
    #[verifier::loop_isolation(false)]
    pub fn validate(&self, mass_limits_ok: bool, similarity_ok: bool) -> (r: AppResult<()>)
        ensures
            match r {
                Ok(()) => config_fault(*self, mass_limits_ok, similarity_ok) is None,
                Err(e) => config_fault(*self, mass_limits_ok, similarity_ok) matches Some(f)
                    && config_error(e, f),
            },
    {
        if self.version != CONFIG_VERSION {
            let detail = decimal(self.version as u64).concat("; expected ").concat(
                decimal(CONFIG_VERSION as u64).as_str(),
            );
            return Err(AppError::invalid("configuration version", detail));
        }
        if !mass_limits_ok {
            return Err(
                AppError::invalid(
                    "function-mass limits",
                    "must be finite non-negative numbers".to_owned(),
                ),
            );
        }
        let clone = &self.rules.near_clone;
        if !similarity_ok || clone.minimum_sloc == 0 || clone.minimum_tokens == 0
            || clone.max_candidates == 0 {
            return Err(
                AppError::invalid(
                    "near-clone thresholds",
                    "must be positive and similarity must be within 0.0..=1.0".to_owned(),
                ),
            );
        }
        let mut k: usize = 0;
        while k < self.suppressions.len()
            invariant
                k <= self.suppressions@.len(),
                forall|j: int| 0 <= j < k ==> valid_suppression(#[trigger] self.suppressions@[j]),
            decreases self.suppressions@.len() - k,
        {
            let s = &self.suppressions[k];
            let reason = chars_of(s.reason.as_str());
            let trimmed = trim_chars(reason.as_slice());
            let line_ok = match s.line {
                Some(0) => false,
                _ => true,
            };
            if !is_known_rule(s.rule.as_str()) || !is_relative_path(s.path.as_str())
                || trimmed.len() == 0 || !line_ok {
                assert(!valid_suppression(self.suppressions@[k as int]));
                return Err(
                    AppError::invalid(
                        "suppression",
                        "requires a supported rule, relative path, positive optional line, and reason".to_owned(),
                    ),
                );
            }
            k = k + 1;
        }
        Ok(())
    }

    /// Whether a finding of `rule` at `path:line` is suppressed by an exact configured exception.
    pub fn is_suppressed(&self, rule: &str, path: &str, line: usize) -> (b: bool)
        ensures
            b == exists|k: int|
                0 <= k < self.suppressions@.len() && #[trigger] suppresses(
                    self.suppressions@[k],
                    rule@,
                    path@,
                    line,
                ),
    {
        let mut k: usize = 0;
        while k < self.suppressions.len()
            invariant
                k <= self.suppressions@.len(),
                forall|j: int| 0 <= j < k ==> !#[trigger] suppresses(self.suppressions@[j], rule@, path@, line),
            decreases self.suppressions@.len() - k,
        {
            let s = &self.suppressions[k];
            let line_matches = match s.line {
                None => true,
                Some(value) => value == line,
            };
            if str_eq(s.rule.as_str(), rule) && str_eq(s.path.as_str(), path) && line_matches {
                assert(suppresses(self.suppressions@[k as int], rule@, path@, line));
                return true;
            }
            k = k + 1;
        }
        false
    }
}

/// An exception for `rule` at `path`, on every line or on `line`.
pub open spec fn suppresses(s: Suppression, rule: Seq<char>, path: Seq<char>, line: usize) -> bool {
    &&& s.rule@ == rule
    &&& s.path@ == path
    &&& (s.line is None || s.line == Some(line))
}

} // verus!
