use qubit_infra_dependency::cargo::{DeclarationKind, DeclaredDependency};
use qubit_infra_dependency::rules::{check_direct_dependencies, check_resolved_dependencies, evaluate_metadata};
use qubit_infra_dependency::Baseline;
use qubit_infra_dependency::LoadedBaseline;
use qubit_infra_dependency::ProjectConfig;
use qubit_infra_dependency::ResolvedPackage;

fn config() -> ProjectConfig {
    ProjectConfig {
        format: 2,
        source: "file:///tmp/policy".into(),
        revision: "0123456789abcdef0123456789abcdef01234567".into(),
        baseline: "v2026.09.0".into(),
        internal_prefixes: vec!["acme-".into()],
    }
}

fn registry(name: &str, requirement: &str) -> DeclaredDependency {
    DeclaredDependency {
        name: name.into(),
        requirement: requirement.into(),
        kind: DeclarationKind::Normal,
        optional: false,
        source: Some("registry+https://github.com/rust-lang/crates.io-index".into()),
        has_path: false,
    }
}

fn package(name: &str, version: &str, source: Option<&str>) -> ResolvedPackage {
    ResolvedPackage { name: name.into(), version: version.into(), source: source.map(str::to_owned) }
}

fn pairs(items: &[(&str, &str)]) -> Vec<(String, String)> {
    items.iter().map(|(name, text)| (name.to_string(), text.to_string())).collect()
}

#[test]
fn reports_a_direct_version_drift() {
    let baseline = Baseline::parse("num-bigint 0.4\n").expect("baseline");
    let mut violations = Vec::new();
    check_direct_dependencies(&vec![registry("num-bigint", "^0.5")], &config(), &baseline, &mut violations);
    assert_eq!(violations.len(), 1);
    assert_eq!(violations[0].code, "DP202");
    assert_eq!(violations[0].crate_name, "num-bigint");
    assert_eq!(violations[0].message, "declared requirement ^0.5 differs from baseline 0.4");
}

#[test]
fn accepts_the_same_requirement_written_differently() {
    let baseline = Baseline::parse("num-bigint 0.4\n").expect("baseline");
    let mut violations = Vec::new();
    check_direct_dependencies(&vec![registry("num-bigint", "^0.4")], &config(), &baseline, &mut violations);
    assert!(violations.is_empty());
}

#[test]
fn reports_an_external_direct_dependency_absent_from_the_baseline() {
    let baseline = Baseline::parse("num-bigint 0.4\n").expect("baseline");
    let mut violations = Vec::new();
    check_direct_dependencies(&vec![registry("serde", "^1.0")], &config(), &baseline, &mut violations);
    assert_eq!(violations.len(), 1);
    assert_eq!(violations[0].code, "DP203");
    assert_eq!(violations[0].message, "external direct dependency is absent from the baseline");
}

#[test]
fn exempts_first_party_dependencies() {
    let baseline = Baseline::parse("num-bigint 0.4\n").expect("baseline");
    let mut member = registry("workspace-member", "^0.1");
    member.source = None;
    let mut local = registry("local", "*");
    local.has_path = true;
    let mut violations = Vec::new();
    check_direct_dependencies(
        &vec![registry("acme-core", "^9"), member, local],
        &config(),
        &baseline,
        &mut violations,
    );
    assert!(violations.is_empty());
}

#[test]
fn reports_a_resolved_version_below_the_minimum() {
    let baseline = Baseline::from_toml_document(3, Vec::new(), pairs(&[("rustls", ">=0.23.45")])).expect("baseline");
    let mut violations = Vec::new();
    check_resolved_dependencies(
        &vec![
            package("rustls", "0.23.44", Some("registry+https://github.com/rust-lang/crates.io-index")),
            package("rustls", "0.23.45", None),
            package("serde", "0.1.0", None),
            package("rustls", "0.22.0", None),
        ],
        &baseline,
        &mut violations,
    );
    assert_eq!(violations.len(), 2);
    assert_eq!(violations[0].code, "DP401");
    assert_eq!(
        violations[0].message,
        "resolved version 0.23.44 from registry+https://github.com/rust-lang/crates.io-index is below minimum >=0.23.45"
    );
    assert_eq!(violations[1].message, "resolved version 0.22.0 from path is below minimum >=0.23.45");
}

#[test]
fn evaluates_direct_then_resolved_rules() {
    let loaded = LoadedBaseline {
        commit: "0123456789abcdef0123456789abcdef01234567".into(),
        release: "v2026.09.0".into(),
        baseline: Baseline::from_toml_document(3, pairs(&[("serde", "1.0")]), pairs(&[("rustls", ">=0.23.45")]))
            .expect("baseline"),
    };
    let dependencies = vec![registry("serde", "^1.1"), registry("tokio", "^1")];
    let packages = vec![package("rustls", "0.23.0", None)];
    let evaluation = evaluate_metadata(Some(&dependencies), packages, &config(), &loaded);
    let codes: Vec<&str> = evaluation.violations.iter().map(|v| v.code).collect();
    assert_eq!(codes, vec!["DP202", "DP203", "DP401"]);
    assert_eq!(evaluation.packages.len(), 1);
}

#[test]
fn skips_resolved_checks_without_resolved_rules() {
    let loaded = LoadedBaseline {
        commit: "0123456789abcdef0123456789abcdef01234567".into(),
        release: "v2026.09.0".into(),
        baseline: Baseline::parse("serde 1.0\n").expect("baseline"),
    };
    let evaluation = evaluate_metadata(None, vec![package("rustls", "0.1.0", None)], &config(), &loaded);
    assert!(evaluation.violations.is_empty());
    assert_eq!(evaluation.packages[0].name, "rustls");
}
