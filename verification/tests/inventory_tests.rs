use qubit_infra_dependency::cargo::{DeclarationKind, DeclaredDependency};
use qubit_infra_dependency::inventory::{inventory_dependency, inventory_project, summarize_inventory};
use qubit_infra_dependency::render_inventory_markdown;
use qubit_infra_dependency::ResolvedPackage;

fn declared(name: &str, requirement: &str, has_source: bool, has_path: bool) -> DeclaredDependency {
    DeclaredDependency {
        name: name.into(),
        requirement: requirement.into(),
        kind: DeclarationKind::Normal,
        optional: false,
        source: if has_source { Some("registry+https://github.com/rust-lang/crates.io-index".into()) } else { None },
        has_path,
    }
}

fn project(root: &str, member: &str, dependencies: Vec<DeclaredDependency>) -> qubit_infra_dependency::InventoryProject {
    let resolved = vec![ResolvedPackage {
        name: "num-bigint".into(),
        version: "0.4.6".into(),
        source: Some("registry+https://github.com/rust-lang/crates.io-index".into()),
    }];
    inventory_project(root.into(), vec![(member.into(), dependencies)], resolved)
}

#[test]
fn labels_the_origin_and_kind_of_a_declaration() {
    let registry = inventory_dependency("app", &declared("serde", "^1.0", true, false));
    assert_eq!(registry.package, "app");
    assert_eq!(registry.name, "serde");
    assert_eq!(registry.requirement.as_deref(), Some("^1.0"));
    assert_eq!(registry.source, "registry");
    assert_eq!(registry.kind, "normal");
    let path = inventory_dependency("app", &declared("core", "*", false, true));
    assert_eq!(path.source, "path");
    assert_eq!(path.requirement, None);
    let mut git = declared("fork", "*", true, false);
    git.source = Some("git+https://example.com/fork.git#0123abcd".into());
    let git = inventory_dependency("app", &git);
    assert_eq!(git.source, "git");
    assert_eq!(git.requirement, None);
    let mut dev = declared("tempfile", "^3", false, false);
    dev.kind = DeclarationKind::Development;
    let workspace = inventory_dependency("app", &dev);
    assert_eq!(workspace.source, "workspace");
    assert_eq!(workspace.requirement, None);
    assert_eq!(workspace.kind, "dev");
}

#[test]
fn records_the_members_and_graph_of_a_project() {
    let scanned = project("repo-a", "app", vec![declared("num-bigint", "^0.4", true, false)]);
    assert_eq!(scanned.project, "repo-a");
    assert_eq!(scanned.packages, vec!["app".to_string()]);
    assert_eq!(scanned.dependencies.len(), 1);
    assert!(scanned.resolved.iter().any(|p| p.name == "num-bigint"));
}

#[test]
fn reports_requirement_conflicts_across_scanned_projects() {
    let inventory = summarize_inventory(vec![
        project("repo-a", "a", vec![declared("num-bigint", "^0.5", true, false), declared("serde", "^1.0", true, false)]),
        project("repo-b", "b", vec![declared("num-bigint", "^0.4", true, false), declared("serde", "^1.0", true, false)]),
    ]);
    assert_eq!(inventory.schema_version, 1);
    assert_eq!(inventory.projects.len(), 2);
    assert_eq!(
        inventory.direct_requirements,
        vec![
            ("num-bigint".to_string(), vec!["^0.5".to_string(), "^0.4".to_string()]),
            ("serde".to_string(), vec!["^1.0".to_string()]),
        ]
    );
    assert_eq!(
        inventory.conflicts,
        vec![("num-bigint".to_string(), vec!["^0.5".to_string(), "^0.4".to_string()])]
    );
}

#[test]
fn leaves_path_and_workspace_declarations_out_of_the_summary() {
    let inventory = summarize_inventory(vec![project(
        "repo-a",
        "a",
        vec![declared("core", "*", false, true), declared("shared", "^1", false, false)],
    )]);
    assert!(inventory.direct_requirements.is_empty());
    assert!(inventory.conflicts.is_empty());
}

#[test]
fn renders_an_inventory_as_markdown() {
    let inventory = summarize_inventory(vec![
        project("repo-a", "a", vec![declared("num-bigint", "^0.5", true, false)]),
        project("repo-b", "b", vec![declared("num-bigint", "^0.4", true, false)]),
    ]);
    assert_eq!(
        render_inventory_markdown(&inventory),
        "# Dependency Inventory\n\nProjects scanned: 2\n\n\
         | Dependency | Declared requirements |\n|---|---|\n\
         | `num-bigint` | `^0.5`, `^0.4` |\n\
         \n## Conflicts requiring baseline decisions\n\n\
         - `num-bigint`: ^0.5, ^0.4\n"
    );
    let quiet = summarize_inventory(Vec::new());
    assert_eq!(
        render_inventory_markdown(&quiet),
        "# Dependency Inventory\n\nProjects scanned: 0\n\n| Dependency | Declared requirements |\n|---|---|\n"
    );
}
