use qubit_infra_dependency::command_output::{
    git_output, lockfile_generated, temporary_lockfile_needed, workspace_root_from_output,
};
use qubit_infra_dependency::PolicyError;

fn arguments(items: &[&str]) -> Vec<String> {
    items.iter().map(|item| item.to_string()).collect()
}

#[test]
fn returns_the_trimmed_output_of_a_successful_git_run() {
    let head = git_output(&arguments(&["rev-parse", "HEAD"]), true, b"  abc123\n".to_vec(), b"")
        .expect("successful run");
    assert_eq!(head, "abc123");
}

#[test]
fn reports_a_failed_git_run_with_its_standard_error() {
    let error = git_output(&arguments(&["fetch", "origin"]), false, Vec::new(), b"fatal: no remote\n")
        .expect_err("failed run");
    match error {
        PolicyError::Source { message } => assert_eq!(message, "git fetch origin failed: fatal: no remote"),
        other => panic!("expected a source error, got {other:?}"),
    }
}

#[test]
fn refuses_git_output_that_is_not_utf8() {
    let error = git_output(&arguments(&["rev-parse", "HEAD"]), true, vec![0xff, 0xfe], b"")
        .expect_err("invalid UTF-8");
    match error {
        PolicyError::Source { message } => {
            assert!(message.starts_with("git rev-parse HEAD returned non-UTF-8 output: "))
        }
        other => panic!("expected a source error, got {other:?}"),
    }
}

#[test]
fn finds_the_workspace_root_from_the_manifest_path() {
    let root = workspace_root_from_output(true, b"/work/app/Cargo.toml\n".to_vec(), b"").expect("root");
    assert_eq!(root, "/work/app");
    let error = workspace_root_from_output(false, Vec::new(), b" could not find Cargo.toml \n").expect_err("failure");
    match error {
        PolicyError::Cargo { code, message } => {
            assert_eq!(code, "DP201");
            assert_eq!(message, "could not find Cargo.toml");
        }
        other => panic!("expected a Cargo error, got {other:?}"),
    }
    let error = workspace_root_from_output(true, b"\n".to_vec(), b"").expect_err("empty path has no parent");
    assert_eq!(error.code(), "DP201");
}

#[test]
fn decides_whether_to_generate_a_lock_file() {
    assert!(!temporary_lockfile_needed(true, false, "/work/app/Cargo.lock").expect("lock present"));
    assert!(temporary_lockfile_needed(false, true, "/work/app/Cargo.lock").expect("requested"));
    let error = temporary_lockfile_needed(false, false, "/work/app/Cargo.lock").expect_err("not requested");
    match error {
        PolicyError::Cargo { code, message } => {
            assert_eq!(code, "DP402");
            assert_eq!(
                message,
                "resolved dependency rules require /work/app/Cargo.lock; pass --temporary-lockfile in CI"
            );
        }
        other => panic!("expected a Cargo error, got {other:?}"),
    }
}

#[test]
fn confirms_a_generated_lock_file() {
    assert!(lockfile_generated(true, true, b"").is_ok());
    let error = lockfile_generated(true, false, b"  offline \n").expect_err("no lock file");
    match error {
        PolicyError::Cargo { code, message } => {
            assert_eq!(code, "DP405");
            assert_eq!(message, "temporary Cargo.lock generation failed: offline");
        }
        other => panic!("expected a Cargo error, got {other:?}"),
    }
    assert!(lockfile_generated(false, true, b"").is_err());
}
