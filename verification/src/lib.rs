//! Checking and synchronizing the direct Rust dependencies of a project
//! against an organization-wide baseline.

pub mod baseline;
pub mod cargo;
pub mod cli;
pub mod command_output;
pub mod dependency_requirement;
pub mod diagnostic;
pub mod inventory;
pub mod policy_error;
pub mod project_config;
pub mod report;
pub mod rules;
pub mod source;
pub mod sync;
pub mod text;

pub use baseline::Baseline;
pub use cargo::ResolvedPackage;
pub use dependency_requirement::DependencyRequirement;
pub use diagnostic::Violation;
pub use inventory::render_inventory_markdown;
pub use inventory::Inventory;
pub use inventory::InventoryDependency;
pub use inventory::InventoryProject;
pub use policy_error::PolicyError;
pub use project_config::ProjectConfig;
pub use report::render_markdown;
pub use report::BaselineIdentity;
pub use report::Report;
pub use rules::Evaluation;
pub use source::LoadedBaseline;
pub use source::PolicySource;
pub use sync::FileEdit;
pub use sync::LockUpdate;
pub use sync::SyncPlan;
