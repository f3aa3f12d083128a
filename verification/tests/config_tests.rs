use qubit_infra_dependency::cargo::{DeclarationKind, DeclaredDependency};
use qubit_infra_dependency::PolicyError;
use qubit_infra_dependency::ProjectConfig;

fn config(revision: &str, baseline: &str, format: u32) -> ProjectConfig {
    ProjectConfig {
        format,
        source: "file:///tmp/policy".into(),
        revision: revision.into(),
        baseline: baseline.into(),
        internal_prefixes: vec!["acme-".into(), "acme_".into()],
    }
}

fn message_of(error: PolicyError) -> String {
    match error {
        PolicyError::InvalidConfig { code, message } => {
            assert_eq!(code, "DP001");
            message
        },
        other => panic!("unexpected error {other:?}"),
    }
}

#[test]
fn accepts_a_valid_configuration_unchanged() {
    let valid = config("0123456789abcdef0123456789ABCDEF01234567", "v2026.09.0", 2);
    let checked = valid.validate().expect("valid configuration");
    assert_eq!(checked.format, 2);
    assert_eq!(checked.baseline, "v2026.09.0");
    assert_eq!(checked.internal_prefixes.len(), 2);
}

#[test]
fn rejects_a_revision_that_is_not_40_hex_digits() {
    let short = config("0123456789abcdef", "v2026.09.0", 2).validate().expect_err("short revision");
    assert_eq!(short.code(), "DP001");
    assert_eq!(message_of(short), "revision must be a 40-digit hexadecimal commit SHA");
    let not_hex = config("0123456789abcdef0123456789abcdef0123456g", "v2026.09.0", 2)
        .validate()
        .expect_err("not hexadecimal");
    assert_eq!(message_of(not_hex), "revision must be a 40-digit hexadecimal commit SHA");
}

#[test]
fn rejects_a_release_name_with_a_path_separator() {
    for baseline in ["", "a/b", "a\\b"] {
        let error = config("0123456789abcdef0123456789abcdef01234567", baseline, 2)
            .validate()
            .expect_err("not a simple name");
        assert_eq!(message_of(error), "baseline must be a simple release name");
    }
}

#[test]
fn rejects_an_unsupported_configuration_format() {
    let error = config("0123456789abcdef0123456789abcdef01234567", "v1", 3).validate().expect_err("format 3");
    assert_eq!(message_of(error), "unsupported configuration format 3");
}

fn dependency(name: &str, has_source: bool, has_path: bool) -> DeclaredDependency {
    DeclaredDependency {
        name: name.into(),
        requirement: "^1.0".into(),
        kind: DeclarationKind::Normal,
        optional: false,
        source: if has_source { Some("registry+https://github.com/rust-lang/crates.io-index".into()) } else { None },
        has_path,
    }
}

#[test]
fn classifies_first_party_dependencies() {
    let config = config("0123456789abcdef0123456789abcdef01234567", "v1", 2);
    assert!(!config.is_internal_dependency(&dependency("serde", true, false)));
    assert!(config.is_internal_dependency(&dependency("acme-core", true, false)));
    assert!(config.is_internal_dependency(&dependency("acme_util", true, false)));
    assert!(config.is_internal_dependency(&dependency("local", true, true)));
    assert!(config.is_internal_dependency(&dependency("member", false, false)));
}
