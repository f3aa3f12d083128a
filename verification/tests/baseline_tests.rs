use qubit_infra_dependency::baseline::is_package_name;
use qubit_infra_dependency::Baseline;

fn pairs(items: &[(&str, &str)]) -> Vec<(String, String)> {
    items.iter().map(|(name, text)| (name.to_string(), text.to_string())).collect()
}

#[test]
fn rejects_duplicate_or_malformed_text_rules() {
    let duplicate = Baseline::parse("serde 1.0\nserde 1.0\n").expect_err("duplicate package must be rejected");
    assert_eq!(duplicate.code(), "DP103");

    let malformed = Baseline::parse("serde\n").expect_err("line without a requirement must be rejected");
    assert_eq!(malformed.code(), "DP103");
}

#[test]
fn parses_a_text_baseline_and_reads_requirements_back() {
    let baseline = Baseline::parse("serde 1.0\n").expect("valid baseline");
    assert_eq!(baseline.requirement("serde").expect("serde rule").text(), "1.0");
    assert!(baseline.requirement("tokio").is_none());
    assert!(!baseline.has_resolved_rules());
}

#[test]
fn ignores_blank_and_comment_lines() {
    let baseline =
        Baseline::parse("# package requirement\n\n   \nlibc 0.2\n  # indented comment\nnum-bigint 0.4\r\n\tserde\t 1.0  \n")
            .expect("valid baseline");
    assert_eq!(baseline.requirement("libc").expect("libc").text(), "0.2");
    assert_eq!(baseline.requirement("num-bigint").expect("num-bigint").text(), "0.4");
    assert_eq!(baseline.requirement("serde").expect("serde").text(), "1.0");
    assert_eq!(baseline.iter().len(), 3);
}

#[test]
fn iterates_rules_in_lexicographic_order() {
    let baseline = Baseline::parse("serde 1.0\nlibc 0.2\nnum-bigint 0.4\nanyhow 1\n").expect("valid baseline");
    let names: Vec<&str> = baseline.iter().into_iter().map(|(name, _)| name).collect();
    assert_eq!(names, vec!["anyhow", "libc", "num-bigint", "serde"]);
    let texts: Vec<&str> = baseline.iter().into_iter().map(|(_, requirement)| requirement.text()).collect();
    assert_eq!(texts, vec!["1", "0.2", "0.4", "1.0"]);
}

#[test]
fn empty_text_gives_an_empty_baseline() {
    let baseline = Baseline::parse("").expect("empty baseline");
    assert!(baseline.iter().is_empty());
}

#[test]
fn reports_the_line_of_a_malformed_rule() {
    let error = Baseline::parse("# header\nserde 1.0 extra\n").expect_err("three fields");
    assert_eq!(error.code(), "DP103");
    match error {
        qubit_infra_dependency::PolicyError::InvalidBaseline { message } => {
            assert_eq!(message, "line 2: expected `<package> <requirement>`, found \"serde 1.0 extra\"");
        },
        other => panic!("unexpected error {other:?}"),
    }
}

#[test]
fn rejects_an_invalid_package_name() {
    let error = Baseline::parse("ser.de 1.0\n").expect_err("dot is not allowed");
    match error {
        qubit_infra_dependency::PolicyError::InvalidBaseline { message } => {
            assert_eq!(message, "line 1: expected `<package> <requirement>`, found \"ser.de 1.0\"");
        },
        other => panic!("unexpected error {other:?}"),
    }
}

#[test]
fn rejects_an_invalid_requirement_with_the_semver_message() {
    let error = Baseline::parse("serde not-a-version\n").expect_err("invalid requirement");
    match error {
        qubit_infra_dependency::PolicyError::InvalidBaseline { message } => {
            let expected_error = semver::VersionReq::parse("not-a-version").unwrap_err().to_string();
            assert_eq!(
                message,
                format!("line 1: invalid Cargo requirement \"not-a-version\": {expected_error}")
            );
        },
        other => panic!("unexpected error {other:?}"),
    }
}

#[test]
fn names_the_duplicate_package_and_its_line() {
    let error = Baseline::parse("serde 1.0\nlibc 0.2\n\nserde 1.0\n").expect_err("duplicate");
    match error {
        qubit_infra_dependency::PolicyError::InvalidBaseline { message } => {
            assert_eq!(message, "line 4: duplicate package \"serde\"");
        },
        other => panic!("unexpected error {other:?}"),
    }
}

#[test]
fn checks_the_package_name_grammar() {
    assert!(is_package_name("num-bigint"));
    assert!(is_package_name("serde_json2"));
    assert!(!is_package_name(""));
    assert!(!is_package_name("a b"));
    assert!(!is_package_name("caf\u{e9}"));
}

#[test]
fn builds_direct_and_resolved_rules_from_a_toml_document() {
    let baseline = Baseline::from_toml_document(3, pairs(&[("serde", "^1.0")]), pairs(&[("rustls", ">=0.23.45")]))
        .expect("TOML baseline");
    assert_eq!(baseline.requirement("serde").expect("direct rule").text(), "^1.0");
    assert_eq!(
        baseline
            .resolved_iter()
            .into_iter()
            .find(|(name, _)| *name == "rustls")
            .expect("resolved rule")
            .1
            .text(),
        ">=0.23.45"
    );
    assert!(baseline.has_resolved_rules());
    assert_eq!(baseline.resolved_requirement("rustls").expect("rustls").text(), ">=0.23.45");
}

#[test]
fn refuses_a_caret_resolved_rule() {
    let error = Baseline::from_toml_document(3, Vec::new(), pairs(&[("rustls", "^0.23")]))
        .expect_err("caret is not a resolved minimum rule");
    assert_eq!(error.code(), "DP103");
    match error {
        qubit_infra_dependency::PolicyError::InvalidBaseline { message } => {
            assert_eq!(message, "resolved rule for \"rustls\" must use >=MAJOR.MINOR.PATCH");
        },
        other => panic!("unexpected error {other:?}"),
    }
}

#[test]
fn refuses_incomplete_or_unnormalized_resolved_rules() {
    let partial = Baseline::from_toml_document(3, Vec::new(), pairs(&[("rustls", ">=0.23")]))
        .expect_err("partial version");
    match partial {
        qubit_infra_dependency::PolicyError::InvalidBaseline { message } => {
            assert!(message.starts_with("resolved rule for \"rustls\" must use a complete version: "), "{message}");
        },
        other => panic!("unexpected error {other:?}"),
    }
    let spaced = Baseline::from_toml_document(3, Vec::new(), pairs(&[("rustls", ">= 0.23.45")]))
        .expect_err("space after the operator");
    match spaced {
        qubit_infra_dependency::PolicyError::InvalidBaseline { message } => {
            assert_eq!(message, "resolved rule for \"rustls\" must use >=MAJOR.MINOR.PATCH");
        },
        other => panic!("unexpected error {other:?}"),
    }
    let pre = Baseline::from_toml_document(3, Vec::new(), pairs(&[("rustls", ">=0.23.45-rc.1")]))
        .expect_err("pre-release");
    assert_eq!(pre.code(), "DP103");
}

#[test]
fn refuses_an_unsupported_toml_format() {
    let error = Baseline::from_toml_document(2, Vec::new(), Vec::new()).expect_err("format 2");
    match error {
        qubit_infra_dependency::PolicyError::InvalidBaseline { message } => {
            assert_eq!(message, "unsupported TOML baseline format 2");
        },
        other => panic!("unexpected error {other:?}"),
    }
}

#[test]
fn refuses_invalid_toml_rule_names_and_requirements() {
    let name = Baseline::from_toml_document(3, pairs(&[("bad name", "1")]), Vec::new()).expect_err("name");
    match name {
        qubit_infra_dependency::PolicyError::InvalidBaseline { message } => {
            assert_eq!(message, "invalid package name \"bad name\"");
        },
        other => panic!("unexpected error {other:?}"),
    }
    let requirement = Baseline::from_toml_document(3, pairs(&[("serde", "one")]), Vec::new()).expect_err("req");
    match requirement {
        qubit_infra_dependency::PolicyError::InvalidBaseline { message } => {
            let expected_error = semver::VersionReq::parse("one").unwrap_err().to_string();
            assert_eq!(message, format!("invalid requirement \"one\" for \"serde\": {expected_error}"));
        },
        other => panic!("unexpected error {other:?}"),
    }
}

#[test]
fn sorts_toml_rules_given_in_any_order() {
    let baseline = Baseline::from_toml_document(
        3,
        pairs(&[("serde", "^1.0"), ("libc", "0.2"), ("serde", "^1.1")]),
        Vec::new(),
    )
    .expect("TOML baseline");
    let names: Vec<&str> = baseline.iter().iter().map(|(name, _)| *name).collect();
    assert_eq!(names, vec!["libc", "serde"]);
    assert_eq!(baseline.requirement("serde").expect("serde rule").text(), "^1.1");
    let error = Baseline::from_toml_document(3, pairs(&[("zeta", "one"), ("alpha", "two")]), Vec::new())
        .expect_err("invalid requirements");
    match error {
        qubit_infra_dependency::PolicyError::InvalidBaseline { message } => {
            assert!(message.starts_with("invalid requirement \"two\" for \"alpha\""), "{message}")
        }
        other => panic!("unexpected error {other:?}"),
    }
}
