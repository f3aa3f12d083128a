//! Project policy pointer validation.

use vstd::prelude::*;
use vstd::string::StringExecFns;

use crate::cargo::DeclaredDependency;
use crate::policy_error::PolicyError;
use crate::text::{chars_of, decimal, has_prefix, push_decimal, str_starts_with};

verus! {

/// Project configuration loaded from `.infra/dep/policy.toml`.
#[derive(Debug, Clone)]
pub struct ProjectConfig {
    /// Configuration schema version; currently this must be `2`.
    pub format: u32,
    /// Git or local URL of the policy repository containing the baseline.
    pub source: String,
    /// Full Git commit SHA selecting immutable policy contents.
    pub revision: String,
    /// Name of the selected baseline file without its `.txt` suffix.
    pub baseline: String,
    /// Organization-defined prefixes identifying first-party published crates.
    pub internal_prefixes: Vec<String>,
}

/// An ASCII hexadecimal digit.
pub open spec fn is_hex_digit(c: char) -> bool {
    ('0' <= c && c <= '9') || ('a' <= c && c <= 'f') || ('A' <= c && c <= 'F')
}

/// A release name with no path separator in it.
pub open spec fn simple_release_name(name: Seq<char>) -> bool {
    name.len() > 0 && !name.contains('/') && !name.contains('\\')
}

/// A full Git commit SHA: forty hexadecimal digits.
pub open spec fn full_commit_sha(revision: Seq<char>) -> bool {
    revision.len() == 40 && forall|i: int| 0 <= i < revision.len() ==> is_hex_digit(#[trigger] revision[i])
}

/// Why a configuration is rejected, if it is.
pub open spec fn config_error(config: ProjectConfig) -> Option<Seq<char>> {
    if config.format != 2 {
        Some("unsupported configuration format "@ + decimal(config.format as nat))
    } else if !simple_release_name(config.baseline@) {
        Some("baseline must be a simple release name"@)
    } else if !full_commit_sha(config.revision@) {
        Some("revision must be a 40-digit hexadecimal commit SHA"@)
    } else {
        None
    }
}

/// Whether a dependency is first-party for a configuration: declared by
/// path, reported without a source (a workspace member), or named with one
/// of the internal prefixes.
pub open spec fn internal_dependency(config: ProjectConfig, dependency: DeclaredDependency) -> bool {
    ||| dependency.has_path
    ||| dependency.source is None
    ||| exists|i: int|
        0 <= i < config.internal_prefixes@.len() && has_prefix(
            dependency.name@,
            (#[trigger] config.internal_prefixes@[i])@,
        )
}

/// Whether `c` occurs in the character sequence.
fn chars_contain(s: &Vec<char>, c: char) -> (r: bool)
    ensures
        r == s@.contains(c),
{
    let mut i: usize = 0;
    while i < s.len()
        invariant
            i <= s.len(),
            forall|k: int| 0 <= k < i ==> s@[k] != c,
        decreases s.len() - i,
    {
        if s[i] == c {
            assert(s@[i as int] == c);
            return true;
        }
        i = i + 1;
    }
    false
}

impl ProjectConfig {
    /// Returns whether a declared dependency is first-party.
    pub fn is_internal_dependency(&self, dependency: &DeclaredDependency) -> (r: bool)
        ensures
            r == internal_dependency(*self, *dependency),
    {
        if dependency.has_path || dependency.source.is_none() {
            return true;
        }
        let mut i: usize = 0;
        while i < self.internal_prefixes.len()
            invariant
                i <= self.internal_prefixes@.len(),
                forall|k: int| 0 <= k < i ==> !has_prefix(dependency.name@, (#[trigger] self.internal_prefixes@[k])@),
            decreases self.internal_prefixes.len() - i,
        {
            if str_starts_with(dependency.name.as_str(), self.internal_prefixes[i].as_str()) {
                return true;
            }
            i = i + 1;
        }
        false
    }

    /// Validates the schema version, release name, and immutable revision.
    ///
    /// Returns the configuration unchanged when it is valid, otherwise
    /// [`PolicyError::InvalidConfig`] with code `DP001` and the reason.
    pub fn validate(self) -> (r: Result<ProjectConfig, PolicyError>)
        ensures
            r is Ok <==> config_error(self) is None,
            r matches Ok(config) ==> config == self,
            r matches Err(e) ==> e matches PolicyError::InvalidConfig { code, message } && code@ == "DP001"@
                && message@ == config_error(self)->Some_0,
    {
        if self.format != 2 {
            let mut message = String::new();
            message.append("unsupported configuration format ");
            push_decimal(&mut message, self.format as u128);
            return Err(PolicyError::InvalidConfig { code: "DP001", message });
        }
        let baseline = chars_of(self.baseline.as_str());
        if baseline.len() == 0 || chars_contain(&baseline, '/') || chars_contain(&baseline, '\\') {
            return Err(
                PolicyError::InvalidConfig {
                    code: "DP001",
                    message: "baseline must be a simple release name".to_owned(),
                },
            );
        }
        let revision = chars_of(self.revision.as_str());
        let mut hex = revision.len() == 40;
        let mut i: usize = 0;
        while hex && i < revision.len()
            invariant
                i <= revision.len(),
                hex ==> revision@.len() == 40,
                hex ==> forall|k: int| 0 <= k < i ==> is_hex_digit(#[trigger] revision@[k]),
                !hex ==> !full_commit_sha(revision@),
            decreases revision.len() - i,
        {
            let c = revision[i];
            if !(('0' <= c && c <= '9') || ('a' <= c && c <= 'f') || ('A' <= c && c <= 'F')) {
                hex = false;
            }
            i = i + 1;
        }
        if !hex {
            return Err(
                PolicyError::InvalidConfig {
                    code: "DP001",
                    message: "revision must be a 40-digit hexadecimal commit SHA".to_owned(),
                },
            );
        }
        Ok(self)
    }
}

} // verus!
