use qubit_infra_dependency::report::render_markdown;
use qubit_infra_dependency::rules::Evaluation;
use qubit_infra_dependency::BaselineIdentity;
use qubit_infra_dependency::LoadedBaseline;
use qubit_infra_dependency::Report;
use qubit_infra_dependency::Violation;
use qubit_infra_dependency::Baseline;

fn identity() -> BaselineIdentity {
    BaselineIdentity {
        release: "v2026.09.0".into(),
        revision: "0123456789abcdef0123456789abcdef01234567".into(),
        name: "test".into(),
    }
}

#[test]
fn renders_violation_code_in_markdown() {
    let report = Report {
        schema_version: 1,
        baseline: BaselineIdentity {
            release: "v2026.09.0".into(),
            revision: "0123456789abcdef0123456789abcdef01234567".into(),
            name: "test".into(),
        },
        violations: vec![Violation {
            code: "DP204",
            crate_name: "num-bigint".into(),
            message: "forbidden".into(),
            exception_id: None,
        }],
        packages: Vec::new(),
    };
    assert!(render_markdown(&report).contains("DP204"));
}

#[test]
fn renders_an_empty_markdown_report() {
    let report = Report { schema_version: 1, baseline: identity(), violations: Vec::new(), packages: Vec::new() };
    assert_eq!(
        render_markdown(&report),
        "# Dependency Policy Report\n\n- Baseline: ~test~\n- Revision: ~0123456789abcdef0123456789abcdef01234567~\n\nNo violations found.\n"
    );
}

#[test]
fn renders_each_violation_as_a_list_item() {
    let report = Report {
        schema_version: 1,
        baseline: identity(),
        violations: vec![
            Violation { code: "DP203", crate_name: "serde".into(), message: "absent".into(), exception_id: None },
            Violation { code: "DP202", crate_name: "libc".into(), message: "differs".into(), exception_id: None },
        ],
        packages: Vec::new(),
    };
    assert_eq!(
        render_markdown(&report),
        "# Dependency Policy Report\n\n- Baseline: ~test~\n- Revision: ~0123456789abcdef0123456789abcdef01234567~\n\n## Violations\n\n- DP203 serde: absent\n- DP202 libc: differs\n"
    );
}

#[test]
fn builds_a_report_from_an_evaluation() {
    let loaded = LoadedBaseline {
        commit: "0123456789abcdef0123456789abcdef01234567".into(),
        release: "v2026.09.0".into(),
        baseline: Baseline::parse("serde 1.0\n").expect("valid baseline"),
    };
    let evaluation = Evaluation {
        violations: vec![Violation { code: "DP203", crate_name: "a".into(), message: "m".into(), exception_id: None }],
        packages: Vec::new(),
    };
    let report = Report::from_evaluation(evaluation, &loaded);
    assert_eq!(report.schema_version, 1);
    assert_eq!(report.baseline.release, "v2026.09.0");
    assert_eq!(report.baseline.name, "v2026.09.0");
    assert_eq!(report.baseline.revision, "0123456789abcdef0123456789abcdef01234567");
    assert_eq!(report.violations.len(), 1);
}
