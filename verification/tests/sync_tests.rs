use qubit_infra_dependency::sync::{
    apply_edit, apply_plan, check_plan_unblocked, manifest_paths, plan_for_manifest, plan_manifest_sync,
};
use qubit_infra_dependency::Baseline;
use qubit_infra_dependency::FileEdit;

fn baseline() -> Baseline {
    Baseline::parse("num-bigint 0.4\n").expect("valid text baseline")
}

const VERSION_ONLY: &str = "[package]\nname = \"demo\"\nversion = \"0.1.0\"\n\n[dependencies]\nnum-bigint = \"0.5\"\n";

#[test]
fn plans_a_version_replacement_without_writing() {
    let plan = plan_manifest_sync("Cargo.toml", VERSION_ONLY, &baseline()).expect("sync plan");
    assert_eq!(plan.manifest_edits.len(), 1);
    assert_eq!(plan.manifest_edits[0].path, "Cargo.toml");
    assert_eq!(plan.manifest_edits[0].dependency, "num-bigint");
    assert_eq!(plan.manifest_edits[0].old, "0.5");
    assert_eq!(plan.manifest_edits[0].new, "0.4");
    assert_eq!(plan.lock_updates.len(), 1);
    assert_eq!(plan.lock_updates[0].package, "num-bigint");
    assert_eq!(plan.lock_updates[0].version, "0.4");
    assert!(plan.blocked.is_empty());
}

#[test]
fn plans_inline_table_versions_and_keeps_features() {
    let manifest = "[package]\nname = \"demo\"\nversion = \"0.1.0\"\n\n[dev-dependencies]\nnum-bigint = { version = \"0.5\", features = [\"serde\"] }\n";
    let plan = plan_manifest_sync("Cargo.toml", manifest, &baseline()).expect("sync plan");
    assert_eq!(plan.manifest_edits.len(), 1);
    assert_eq!(plan.manifest_edits[0].new, "0.4");
    let text = apply_edit(&plan.manifest_edits[0], manifest).expect("edit");
    assert!(text.contains("num-bigint = { version = \"0.4\", features = [\"serde\"] }"), "{text}");
}

#[test]
fn leaves_path_and_matching_dependencies_alone() {
    let manifest = "[dependencies]\nnum-bigint = { path = \"../num-bigint\", version = \"0.5\" }\n\n[build-dependencies]\nnum-bigint = \"0.4\"\nserde = \"1\"\n";
    let plan = plan_manifest_sync("Cargo.toml", manifest, &baseline()).expect("sync plan");
    assert!(plan.manifest_edits.is_empty());
    assert!(plan.blocked.is_empty());
}

#[test]
fn blocks_an_inline_table_without_a_version() {
    let manifest = "[dependencies]\nnum-bigint = { git = \"https://example.invalid/num-bigint\" }\n";
    let plan = plan_manifest_sync("Cargo.toml", manifest, &baseline()).expect("sync plan");
    assert_eq!(plan.blocked.len(), 1);
    assert_eq!(plan.blocked[0].code, "DP301");
    assert_eq!(plan.blocked[0].message, "external dependency has no version field");
    let error = check_plan_unblocked(&plan).expect_err("blocked plan");
    assert_eq!(error.code(), "DP301");
}

#[test]
fn refuses_a_manifest_that_does_not_parse() {
    let error = plan_manifest_sync("Cargo.toml", "[dependencies\n", &baseline()).expect_err("invalid TOML");
    assert_eq!(error.code(), "DP301");
    match error {
        qubit_infra_dependency::PolicyError::Sync { message } => assert!(message.starts_with("failed to parse Cargo.toml: ")),
        other => panic!("unexpected error {other:?}"),
    }
}

#[test]
fn applies_an_edit_to_a_string_requirement() {
    let plan = plan_manifest_sync("Cargo.toml", VERSION_ONLY, &baseline()).expect("sync plan");
    check_plan_unblocked(&plan).expect("nothing blocked");
    let text = apply_edit(&plan.manifest_edits[0], VERSION_ONLY).expect("edit");
    assert!(text.contains("num-bigint = \"0.4\""), "{text}");
    let again = plan_manifest_sync("Cargo.toml", &text, &baseline()).expect("sync plan");
    assert!(again.manifest_edits.is_empty());
}

#[test]
fn reports_a_dependency_that_disappeared() {
    let edit = FileEdit { path: "Cargo.toml".into(), dependency: "num-bigint".into(), old: "0.5".into(), new: "0.4".into() };
    let error = apply_edit(&edit, "[dependencies]\nserde = \"1\"\n").expect_err("gone");
    match error {
        qubit_infra_dependency::PolicyError::Sync { message } => assert_eq!(message, "dependency num-bigint disappeared"),
        other => panic!("unexpected error {other:?}"),
    }
}

#[test]
fn plans_and_applies_a_dependency_sub_table() {
    let manifest = "[package]\nname = \"demo\"\nversion = \"0.1.0\"\n\n[dependencies.num-bigint]\nversion = \"0.3\"\nfeatures = [\"serde\"]\n";
    let plan = plan_manifest_sync("Cargo.toml", manifest, &baseline()).expect("sync plan");
    assert_eq!(plan.manifest_edits.len(), 1);
    assert_eq!(plan.manifest_edits[0].dependency, "num-bigint");
    assert_eq!(plan.manifest_edits[0].old, "0.3");
    assert_eq!(plan.manifest_edits[0].new, "0.4");
    let text = apply_edit(&plan.manifest_edits[0], manifest).expect("edit");
    assert!(text.contains("version = \"0.4\""), "{text}");
    assert!(text.contains("features = [\"serde\"]"), "{text}");
    let again = plan_manifest_sync("Cargo.toml", &text, &baseline()).expect("sync plan");
    assert!(again.manifest_edits.is_empty());
}

#[test]
fn blocks_a_sub_table_without_a_version() {
    let manifest = "[dependencies.num-bigint]\ngit = \"https://example.invalid/num-bigint\"\n";
    let plan = plan_manifest_sync("Cargo.toml", manifest, &baseline()).expect("sync plan");
    assert!(plan.manifest_edits.is_empty());
    assert_eq!(plan.blocked.len(), 1);
    assert_eq!(plan.blocked[0].crate_name, "num-bigint");
}

#[test]
fn brings_every_synchronized_table_to_the_baseline() {
    let manifest = "[dependencies]\nnum-bigint = \"0.5\"\n\n[dev-dependencies]\nnum-bigint = { version = \"0.3\", features = [\"rand\"] }\n";
    let plan = plan_manifest_sync("Cargo.toml", manifest, &baseline()).expect("sync plan");
    assert_eq!(plan.manifest_edits.len(), 2);
    let mut text = manifest.to_string();
    for edit in &plan.manifest_edits {
        text = apply_edit(edit, &text).expect("edit");
    }
    assert!(text.contains("num-bigint = \"0.4\""), "{text}");
    assert!(text.contains("num-bigint = { version = \"0.4\", features = [\"rand\"] }"), "{text}");
    let again = plan_manifest_sync("Cargo.toml", &text, &baseline()).expect("sync plan");
    assert!(again.manifest_edits.is_empty());
    assert!(again.blocked.is_empty());
}

#[test]
fn leaves_path_declarations_alone_when_applying() {
    let manifest = "[dependencies]\nnum-bigint = \"0.5\"\n\n[dev-dependencies]\nnum-bigint = { path = \"../num-bigint\", version = \"0.5\" }\n";
    let plan = plan_manifest_sync("Cargo.toml", manifest, &baseline()).expect("sync plan");
    assert_eq!(plan.manifest_edits.len(), 1);
    let text = apply_edit(&plan.manifest_edits[0], manifest).expect("edit");
    assert!(text.contains("num-bigint = { path = \"../num-bigint\", version = \"0.5\" }"), "{text}");
}

#[test]
fn applies_a_whole_plan_to_a_fixed_point() {
    let manifest = "[dependencies]\nnum-bigint = \"0.5\"\n\n[dev-dependencies.num-bigint]\nversion = \"0.3\"\n\n[build-dependencies]\nnum-bigint = { version = \"0.4\" }\n";
    let plan = plan_manifest_sync("Cargo.toml", manifest, &baseline()).expect("sync plan");
    assert_eq!(plan.manifest_edits.len(), 2);
    let text = apply_plan(&plan, manifest).expect("applied plan");
    let again = plan_manifest_sync("Cargo.toml", &text, &baseline()).expect("sync plan");
    assert!(again.manifest_edits.is_empty());
    assert!(again.blocked.is_empty());
}

#[test]
fn refuses_to_apply_a_blocked_plan() {
    let manifest = "[dependencies]\nnum-bigint = { git = \"https://example.invalid/num-bigint\" }\n";
    let plan = plan_manifest_sync("Cargo.toml", manifest, &baseline()).expect("sync plan");
    let error = apply_plan(&plan, manifest).expect_err("blocked");
    match error {
        qubit_infra_dependency::PolicyError::Sync { message } => assert_eq!(message, "sync plan contains blocked edits"),
        other => panic!("unexpected error {other:?}"),
    }
}

#[test]
fn inserts_a_version_into_an_inline_table_without_one() {
    let manifest = "[dependencies]\nnum-bigint = { git = \"https://example.invalid/num-bigint\" }\n";
    let edit = FileEdit { path: "Cargo.toml".into(), dependency: "num-bigint".into(), old: "".into(), new: "0.4".into() };
    let text = apply_edit(&edit, manifest).expect("version inserted");
    assert!(text.contains("git = \"https://example.invalid/num-bigint\""), "{text}");
    assert!(text.contains("version = \"0.4\""), "{text}");
    let again = plan_manifest_sync("Cargo.toml", &text, &baseline()).expect("sync plan");
    assert!(again.manifest_edits.is_empty());
    assert!(again.blocked.is_empty());
}

#[test]
fn skips_a_value_that_is_neither_a_string_nor_a_table() {
    let manifest = "[dependencies]\nnum-bigint = 4\n";
    let plan = plan_manifest_sync("Cargo.toml", manifest, &baseline()).expect("sync plan");
    assert!(plan.manifest_edits.is_empty());
    assert!(plan.blocked.is_empty());
}

#[test]
fn splits_a_plan_by_manifest() {
    let edit = |path: &str, dependency: &str| FileEdit {
        path: path.into(),
        dependency: dependency.into(),
        old: "0.5".into(),
        new: "0.4".into(),
    };
    let plan = qubit_infra_dependency::SyncPlan {
        manifest_edits: vec![edit("a/Cargo.toml", "x"), edit("b/Cargo.toml", "y"), edit("a/Cargo.toml", "z")],
        lock_updates: Vec::new(),
        blocked: Vec::new(),
    };
    assert_eq!(manifest_paths(&plan), vec!["a/Cargo.toml".to_string(), "b/Cargo.toml".to_string()]);
    let part = plan_for_manifest(plan.clone(), "a/Cargo.toml");
    let names: Vec<&str> = part.manifest_edits.iter().map(|e| e.dependency.as_str()).collect();
    assert_eq!(names, vec!["x", "z"]);
}
