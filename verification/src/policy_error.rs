//! Errors returned by policy loading, evaluation, and synchronization.

use vstd::prelude::*;

verus! {

/// The I/O error carried by a configuration read failure.
#[verifier::external_type_specification]
#[verifier::external_body]
pub struct ExIoError(std::io::Error);

/// The TOML error carried by a configuration parse failure.
#[verifier::external_type_specification]
#[verifier::external_body]
pub struct ExTomlDeError(toml::de::Error);

/// Errors returned while loading, validating, evaluating, or applying policy.
#[derive(Debug)]
pub enum PolicyError {
    /// The project configuration file could not be read.
    ReadConfig {
        /// The path that could not be read.
        path: String,
        /// The underlying I/O error.
        source: std::io::Error,
    },
    /// The project configuration TOML is invalid.
    ParseConfig {
        /// The path containing invalid TOML.
        path: String,
        /// The underlying TOML error.
        source: toml::de::Error,
    },
    /// A policy configuration value violates the configuration contract.
    InvalidConfig {
        /// Stable machine-readable diagnostic code.
        code: &'static str,
        /// Human-readable diagnostic detail.
        message: String,
    },
    /// The selected policy source cannot be loaded or verified.
    Source {
        /// Human-readable source failure detail.
        message: String,
    },
    /// The selected baseline release cannot be loaded.
    Baseline {
        /// Human-readable baseline failure detail.
        message: String,
    },
    /// The baseline contents violate the baseline schema.
    InvalidBaseline {
        /// Human-readable schema failure detail.
        message: String,
    },
    /// Cargo metadata or lockfile evaluation failed.
    Cargo {
        /// Stable diagnostic code.
        code: &'static str,
        /// Human-readable Cargo failure detail.
        message: String,
    },
    /// Report serialization failed.
    Report {
        /// Human-readable serialization failure detail.
        message: String,
    },
    /// The project contains policy violations.
    PolicyViolation {
        /// Number of violations.
        count: usize,
    },
    /// A command is not yet available.
    Unsupported {
        /// Human-readable unsupported-command detail.
        message: String,
    },
    /// Manifest synchronization failed.
    Sync {
        /// Human-readable synchronization failure detail.
        message: String,
    },
}

/// The stable diagnostic code of an error.
pub open spec fn error_code(error: PolicyError) -> Seq<char> {
    match error {
        PolicyError::ReadConfig { .. } => "DP001"@,
        PolicyError::ParseConfig { .. } => "DP001"@,
        PolicyError::InvalidConfig { code, .. } => code@,
        PolicyError::Source { .. } => "DP101"@,
        PolicyError::Baseline { .. } => "DP102"@,
        PolicyError::InvalidBaseline { .. } => "DP103"@,
        PolicyError::Cargo { code, .. } => code@,
        PolicyError::Report { .. } => "DP104"@,
        PolicyError::PolicyViolation { .. } => "DP200"@,
        PolicyError::Unsupported { .. } => "DP105"@,
        PolicyError::Sync { .. } => "DP301"@,
    }
}

impl PolicyError {
    /// Returns the stable diagnostic code for this error.
    ///
    /// The code is suitable for machine-readable CI handling and remains
    /// independent of the human-readable error message.
    pub fn code(&self) -> (r: &'static str)
        ensures
            r@ == error_code(*self),
    {
        match self {
            PolicyError::ReadConfig { .. } | PolicyError::ParseConfig { .. } => "DP001",
            PolicyError::InvalidConfig { code, .. } => code,
            PolicyError::Source { .. } => "DP101",
            PolicyError::Baseline { .. } => "DP102",
            PolicyError::InvalidBaseline { .. } => "DP103",
            PolicyError::Cargo { code, .. } => code,
            PolicyError::Report { .. } => "DP104",
            PolicyError::PolicyViolation { .. } => "DP200",
            PolicyError::Unsupported { .. } => "DP105",
            PolicyError::Sync { .. } => "DP301",
        }
    }
}

} // verus!
