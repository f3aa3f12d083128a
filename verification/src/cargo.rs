//! Plain records of what Cargo reports about a project: the resolved packages
//! of its dependency graph and the dependencies its manifests declare.

use vstd::prelude::*;

verus! {

/// A resolved package represented in a policy report.
#[derive(Debug, Clone, PartialEq, Eq)]
pub struct ResolvedPackage {
    /// Cargo package name used in reports and diagnostics.
    pub name: String,
    /// Version selected by Cargo for this package, as `semver` displays it.
    pub version: String,
    /// Registry, Git, or path source identifier, when Cargo reports one.
    pub source: Option<String>,
}

/// The kind of a declared dependency.
#[derive(Debug, Clone, Copy, PartialEq, Eq, Structural)]
pub enum DeclarationKind {
    /// A `[dependencies]` entry.
    Normal,
    /// A `[build-dependencies]` entry.
    Build,
    /// A `[dev-dependencies]` entry.
    Development,
    /// Any other kind Cargo reports.
    Other,
}

/// A dependency declared by a package manifest, as Cargo metadata reports it.
#[derive(Debug, Clone)]
pub struct DeclaredDependency {
    /// Dependency name as it appears in Cargo.toml.
    pub name: String,
    /// Declared Cargo version requirement, as `semver` displays it.
    pub requirement: String,
    /// Dependency kind.
    pub kind: DeclarationKind,
    /// Whether the dependency is optional.
    pub optional: bool,
    /// The source Cargo reports for it (`registry+…`, `sparse+…` or
    /// `git+…`), when it reports one.
    pub source: Option<String>,
    /// Whether it is declared with a local path.
    pub has_path: bool,
}

} // verus!
