use qubit_infra_dependency::source::{
    baseline_file_name, check_checkout, git_cache_name, loaded_baseline, loaded_toml_baseline, select_source,
};
use qubit_infra_dependency::PolicyError;
use qubit_infra_dependency::PolicySource;
use qubit_infra_dependency::ProjectConfig;

fn config(source: &str) -> ProjectConfig {
    ProjectConfig {
        format: 2,
        source: source.into(),
        revision: "0123456789abcdef0123456789abcdef01234567".into(),
        baseline: "v2026.09.0".into(),
        internal_prefixes: Vec::new(),
    }
}

fn source_message(error: PolicyError) -> String {
    match error {
        PolicyError::Source { message } => message,
        other => panic!("expected a source error, got {other:?}"),
    }
}

#[test]
fn reads_file_sources_from_a_local_directory() {
    let source = select_source(&config("file:///srv/policy-repo")).expect("file source");
    assert_eq!(source, PolicySource::Local { root: "/srv/policy-repo".into() });
}

#[test]
fn clones_git_sources_without_the_git_plus_prefix() {
    let source = select_source(&config("git+file:///srv/policy.git")).expect("git+file source");
    assert_eq!(source, PolicySource::Git { url: "file:///srv/policy.git".into() });
    let source = select_source(&config("https://example.com/rust-infra.git")).expect("https source");
    assert_eq!(source, PolicySource::Git { url: "https://example.com/rust-infra.git".into() });
    let source = select_source(&config("git+ssh://git@example.com/infra.git")).expect("git+ssh source");
    assert_eq!(source, PolicySource::Git { url: "ssh://git@example.com/infra.git".into() });
}

#[test]
fn refuses_an_unsupported_scheme() {
    let error = select_source(&config("ftp://example.com/policy")).expect_err("ftp is unsupported");
    assert_eq!(error.code(), "DP101");
    assert_eq!(source_message(error), "unsupported source scheme ftp");
}

#[test]
fn refuses_a_source_that_is_not_a_url() {
    let error = select_source(&config("not a url")).expect_err("not a URL");
    assert!(source_message(error).starts_with("invalid policy source URL: "));
}

#[test]
fn names_git_caches_by_a_stable_hash() {
    let name = git_cache_name("file:///srv/policy.git");
    assert!(name.starts_with("git-"));
    assert_eq!(name.len(), 20);
    assert!(name[4..].chars().all(|c| c.is_ascii_digit() || ('a'..='f').contains(&c)));
    assert_eq!(name, git_cache_name("file:///srv/policy.git"));
    assert_ne!(name, git_cache_name("file:///srv/other.git"));
}

#[test]
fn accepts_a_checkout_at_the_revision_in_any_case() {
    assert!(check_checkout("ABCDEF0123", "abcdef0123").is_ok());
    let error = check_checkout("abcdef0124", "abcdef0123").expect_err("different revision");
    assert_eq!(
        source_message(error),
        "Git source HEAD abcdef0124 does not match requested revision abcdef0123"
    );
    assert!(check_checkout("abc", "abcd").is_err());
}

#[test]
fn names_the_baseline_file_after_the_release() {
    assert_eq!(baseline_file_name(&config("file:///srv/policy"), false), "v2026.09.0.txt");
    assert_eq!(baseline_file_name(&config("file:///srv/policy"), true), "v2026.09.0.toml");
}

#[test]
fn records_the_revision_and_release_of_a_loaded_baseline() {
    let reference = config("file:///srv/policy");
    let loaded = loaded_baseline(&reference, "num-bigint ^0.4\n").expect("valid baseline");
    assert_eq!(loaded.commit, reference.revision);
    assert_eq!(loaded.release, "v2026.09.0");
    assert_eq!(loaded.baseline.requirement("num-bigint").expect("num-bigint rule").text(), "^0.4");
    let error = loaded_baseline(&reference, "num-bigint\n").expect_err("malformed baseline");
    assert_eq!(error.code(), "DP103");
}

#[test]
fn loads_a_toml_baseline_with_resolved_rules() {
    let reference = config("file:///srv/policy");
    let loaded = loaded_toml_baseline(
        &reference,
        3,
        vec![("serde".into(), "^1.0".into())],
        vec![("rustls".into(), ">=0.23.45".into())],
    )
    .expect("TOML baseline");
    assert_eq!(loaded.commit, reference.revision);
    assert_eq!(loaded.release, "v2026.09.0");
    assert!(loaded.baseline.has_resolved_rules());
    assert_eq!(loaded.baseline.requirement("serde").expect("direct rule").text(), "^1.0");
    assert_eq!(loaded.baseline.resolved_requirement("rustls").expect("resolved rule").text(), ">=0.23.45");
    let error = loaded_toml_baseline(&reference, 3, Vec::new(), vec![("rustls".into(), "^0.23".into())])
        .expect_err("caret resolved rule");
    assert_eq!(error.code(), "DP103");
}
