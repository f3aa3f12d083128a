use qubit_infra_dependency::cli::{check_outcome, command_name, describe_edit, exit_status, needs_lockfile, CommandKind};
use qubit_infra_dependency::Evaluation;
use qubit_infra_dependency::FileEdit;
use qubit_infra_dependency::PolicyError;
use qubit_infra_dependency::Violation;

#[test]
fn names_each_command() {
    assert_eq!(command_name(CommandKind::Inventory), "inventory");
    assert_eq!(command_name(CommandKind::Check), "check");
    assert_eq!(command_name(CommandKind::Report), "report");
    assert_eq!(command_name(CommandKind::Sync), "sync");
}

#[test]
fn needs_a_lock_file_only_to_check_or_report_resolved_rules() {
    assert!(needs_lockfile(true, CommandKind::Check));
    assert!(needs_lockfile(true, CommandKind::Report));
    assert!(!needs_lockfile(true, CommandKind::Sync));
    assert!(!needs_lockfile(true, CommandKind::Inventory));
    assert!(!needs_lockfile(false, CommandKind::Check));
}

#[test]
fn fails_a_check_with_the_number_of_violations() {
    let clean = Evaluation { violations: Vec::new(), packages: Vec::new() };
    assert!(check_outcome(&clean).is_ok());
    let violation = Violation {
        code: "DP202",
        crate_name: "serde".into(),
        message: "declares ^0.9".into(),
        exception_id: None,
    };
    let failing = Evaluation { violations: vec![violation.clone(), violation], packages: Vec::new() };
    match check_outcome(&failing) {
        Err(PolicyError::PolicyViolation { count }) => assert_eq!(count, 2),
        other => panic!("expected a policy violation, got {other:?}"),
    }
}

#[test]
fn exits_with_one_for_violations_configuration_and_source_errors() {
    assert_eq!(exit_status(&PolicyError::PolicyViolation { count: 1 }), 1);
    assert_eq!(exit_status(&PolicyError::Source { message: "x".into() }), 1);
    assert_eq!(exit_status(&PolicyError::InvalidConfig { code: "DP001", message: "x".into() }), 1);
    assert_eq!(exit_status(&PolicyError::InvalidBaseline { message: "x".into() }), 2);
    assert_eq!(exit_status(&PolicyError::Cargo { code: "DP402", message: "x".into() }), 2);
    assert_eq!(exit_status(&PolicyError::Sync { message: "x".into() }), 2);
}

#[test]
fn describes_a_planned_edit() {
    let edit = FileEdit {
        path: "Cargo.toml".into(),
        dependency: "num-bigint".into(),
        old: "0.5".into(),
        new: "0.4".into(),
    };
    assert_eq!(describe_edit(&edit), "num-bigint: 0.5 -> 0.4");
}

#[test]
fn gives_each_error_its_stable_code() {
    assert_eq!(PolicyError::InvalidConfig { code: "DP001", message: String::new() }.code(), "DP001");
    assert_eq!(PolicyError::Source { message: String::new() }.code(), "DP101");
    assert_eq!(PolicyError::Baseline { message: String::new() }.code(), "DP102");
    assert_eq!(PolicyError::InvalidBaseline { message: String::new() }.code(), "DP103");
    assert_eq!(PolicyError::Report { message: String::new() }.code(), "DP104");
    assert_eq!(PolicyError::Unsupported { message: String::new() }.code(), "DP105");
    assert_eq!(PolicyError::PolicyViolation { count: 3 }.code(), "DP200");
    assert_eq!(PolicyError::Cargo { code: "DP405", message: String::new() }.code(), "DP405");
    assert_eq!(PolicyError::Sync { message: String::new() }.code(), "DP301");
}
