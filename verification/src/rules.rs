//! Direct and resolved third-party dependency baseline evaluation.

use vstd::prelude::*;
use vstd::string::StringExecFns;

use crate::baseline::{has_rule_name, lemma_rule_for, lemma_sorted_unique, rule_for, Baseline, Rules};
use crate::cargo::{DeclaredDependency, ResolvedPackage};
use crate::dependency_requirement::{
    is_version_req, parse_version, requirement_matches, requirements_equal, semver_req_equal,
    semver_req_matches, semver_version_parse, DependencyRequirement,
};
use crate::diagnostic::{plain_violation, violation_views, Violation, ViolationView};
use crate::project_config::{internal_dependency, ProjectConfig};
use crate::source::LoadedBaseline;

verus! {

/// Results of evaluating one project.
#[derive(Debug, Clone)]
pub struct Evaluation {
    /// Violations found by the evaluator, in dependency traversal order.
    pub violations: Vec<Violation>,
    /// Packages in the resolved dependency graph, included for reports only.
    pub packages: Vec<ResolvedPackage>,
}

/// Whether a declared requirement text is the baseline's requirement: it
/// parses, and `semver` finds the two parsed requirements equal.
pub open spec fn same_requirement(declared: Seq<char>, baseline: Seq<char>) -> bool {
    is_version_req(declared) && semver_req_equal(declared, baseline)
}

/// Whether a resolved version text satisfies a minimum-version requirement:
/// it parses as a version that the requirement matches.
pub open spec fn version_satisfies(requirement: Seq<char>, version: Seq<char>) -> bool {
    match semver_version_parse(version) {
        Ok(v) => semver_req_matches(requirement, v),
        Err(_) => false,
    }
}

/// The violation, if any, of one dependency declared by the root package:
/// first-party dependencies are exempt; an external dependency the baseline
/// does not name is `DP203`; one whose requirement differs from the
/// baseline's is `DP202`.
pub open spec fn direct_violation(
    config: ProjectConfig,
    rules: Rules,
    dependency: DeclaredDependency,
) -> Option<ViolationView> {
    let name = dependency.name@;
    if internal_dependency(config, dependency) {
        None
    } else if !has_rule_name(rules, name) {
        Some(
            plain_violation(
                "DP203"@,
                name,
                "external direct dependency is absent from the baseline"@,
            ),
        )
    } else if same_requirement(dependency.requirement@, rule_for(rules, name)) {
        None
    } else {
        Some(
            plain_violation(
                "DP202"@,
                name,
                "declared requirement "@ + dependency.requirement@ + " differs from baseline "@
                    + rule_for(rules, name),
            ),
        )
    }
}

/// The violations of declared dependencies, in declaration order.
pub open spec fn direct_violations(
    config: ProjectConfig,
    rules: Rules,
    dependencies: Seq<DeclaredDependency>,
) -> Seq<ViolationView>
    decreases dependencies.len(),
{
    if dependencies.len() == 0 {
        Seq::empty()
    } else {
        let earlier = direct_violations(config, rules, dependencies.drop_last());
        match direct_violation(config, rules, dependencies.last()) {
            Some(v) => earlier.push(v),
            None => earlier,
        }
    }
}

/// The source a resolved package is reported from: Cargo's source, or
/// `path` when Cargo reports none.
pub open spec fn package_source(package: ResolvedPackage) -> Seq<char> {
    match package.source {
        Some(source) => source@,
        None => "path"@,
    }
}

/// The violation, if any, of one resolved package: a package with a
/// minimum-version rule whose version the rule does not match is `DP401`.
pub open spec fn resolved_violation(rules: Rules, package: ResolvedPackage) -> Option<ViolationView> {
    let name = package.name@;
    if !has_rule_name(rules, name) {
        None
    } else if version_satisfies(rule_for(rules, name), package.version@) {
        None
    } else {
        Some(
            plain_violation(
                "DP401"@,
                name,
                "resolved version "@ + package.version@ + " from "@ + package_source(package)
                    + " is below minimum "@ + rule_for(rules, name),
            ),
        )
    }
}

/// The violations of resolved packages, in graph order.
pub open spec fn resolved_violations(rules: Rules, packages: Seq<ResolvedPackage>) -> Seq<ViolationView>
    decreases packages.len(),
{
    if packages.len() == 0 {
        Seq::empty()
    } else {
        let earlier = resolved_violations(rules, packages.drop_last());
        match resolved_violation(rules, packages.last()) {
            Some(v) => earlier.push(v),
            None => earlier,
        }
    }
}

/// Checks the dependencies declared by the root package against the
/// baseline's direct rules, appending violations in declaration order.
pub fn check_direct_dependencies(
    dependencies: &Vec<DeclaredDependency>,
    config: &ProjectConfig,
    baseline: &Baseline,
    violations: &mut Vec<Violation>,
)
    requires
        baseline.wf(),
    ensures
        violation_views(final(violations)@) == violation_views(old(violations)@) + direct_violations(
            *config,
            baseline.direct(),
            dependencies@,
        ),
{
    let ghost start = violation_views(violations@);
    let ghost rules = baseline.direct();
    proof {
        lemma_sorted_unique(crate::baseline::entry_names(rules));
    }
    let mut i: usize = 0;
    while i < dependencies.len()
        invariant
            i <= dependencies.len(),
            rules == baseline.direct(),
            crate::baseline::names_unique(crate::baseline::entry_names(rules)),
            violation_views(violations@) == start + direct_violations(*config, rules, dependencies@.take(i as int)),
        decreases dependencies.len() - i,
    {
        let dependency = &dependencies[i];
        let ghost before = violations@;
        let ghost expected_violation = direct_violation(*config, rules, dependencies@[i as int]);
        assert(dependencies@.take(i + 1).drop_last() =~= dependencies@.take(i as int));
        assert(dependencies@.take(i + 1).last() == dependencies@[i as int]);
        if !config.is_internal_dependency(dependency) {
            match baseline.requirement(dependency.name.as_str()) {
                None => {
                    violations.push(
                        Violation {
                            code: "DP203",
                            crate_name: dependency.name.clone(),
                            message: "external direct dependency is absent from the baseline".to_owned(),
                            exception_id: None,
                        },
                    );
                },
                Some(expected) => {
                    proof {
                        lemma_rule_for(rules, dependency.name@, expected@);
                    }
                    let same = match DependencyRequirement::parse(dependency.requirement.as_str()) {
                        Ok(declared) => requirements_equal(&declared, expected),
                        Err(_) => false,
                    };
                    if !same {
                        let mut message = String::new();
                        message.append("declared requirement ");
                        message.append(dependency.requirement.as_str());
                        message.append(" differs from baseline ");
                        message.append(expected.text());
                        violations.push(
                            Violation {
                                code: "DP202",
                                crate_name: dependency.name.clone(),
                                message,
                                exception_id: None,
                            },
                        );
                    }
                },
            }
        }
        proof {
            match expected_violation {
                Some(v) => {
                    assert(violations@ =~= before.push(violations@.last()));
                    assert(violations@.last()@ == v);
                    assert(violation_views(violations@) =~= violation_views(before).push(v));
                },
                None => {
                    assert(violations@ == before);
                },
            }
        }
        assert(violation_views(violations@) =~= start + direct_violations(
            *config,
            rules,
            dependencies@.take(i + 1),
        ));
        i = i + 1;
    }
    assert(dependencies@.take(dependencies.len() as int) =~= dependencies@);
}

/// Checks resolved packages against the baseline's minimum-version rules,
/// appending violations in graph order.
pub fn check_resolved_dependencies(
    packages: &Vec<ResolvedPackage>,
    baseline: &Baseline,
    violations: &mut Vec<Violation>,
)
    requires
        baseline.wf(),
    ensures
        violation_views(final(violations)@) == violation_views(old(violations)@) + resolved_violations(
            baseline.resolved(),
            packages@,
        ),
{
    let ghost start = violation_views(violations@);
    let ghost rules = baseline.resolved();
    proof {
        lemma_sorted_unique(crate::baseline::entry_names(rules));
    }
    let mut i: usize = 0;
    while i < packages.len()
        invariant
            i <= packages.len(),
            rules == baseline.resolved(),
            crate::baseline::names_unique(crate::baseline::entry_names(rules)),
            violation_views(violations@) == start + resolved_violations(rules, packages@.take(i as int)),
        decreases packages.len() - i,
    {
        let package = &packages[i];
        let ghost before = violations@;
        let ghost expected_violation = resolved_violation(rules, packages@[i as int]);
        assert(packages@.take(i + 1).drop_last() =~= packages@.take(i as int));
        assert(packages@.take(i + 1).last() == packages@[i as int]);
        if let Some(expected) = baseline.resolved_requirement(package.name.as_str()) {
            proof {
                lemma_rule_for(rules, package.name@, expected@);
            }
            let satisfied = match parse_version(package.version.as_str()) {
                Ok(version) => requirement_matches(expected, &version),
                Err(_) => false,
            };
            if !satisfied {
                let mut message = String::new();
                message.append("resolved version ");
                message.append(package.version.as_str());
                message.append(" from ");
                match &package.source {
                    Some(source) => message.append(source.as_str()),
                    None => message.append("path"),
                }
                message.append(" is below minimum ");
                message.append(expected.text());
                violations.push(
                    Violation {
                        code: "DP401",
                        crate_name: package.name.clone(),
                        message,
                        exception_id: None,
                    },
                );
            }
        }
        proof {
            match expected_violation {
                Some(v) => {
                    assert(violations@ =~= before.push(violations@.last()));
                    assert(violations@.last()@ == v);
                    assert(violation_views(violations@) =~= violation_views(before).push(v));
                },
                None => {
                    assert(violations@ == before);
                },
            }
        }
        assert(violation_views(violations@) =~= start + resolved_violations(
            rules,
            packages@.take(i + 1),
        ));
        i = i + 1;
    }
    assert(packages@.take(packages.len() as int) =~= packages@);
}

/// The violations an evaluation reports: those of the root package's
/// declared dependencies, when there is a root package, then, when the
/// baseline has resolved rules, those of the resolved packages.
pub open spec fn evaluation_violations(
    root_dependencies: Option<Seq<DeclaredDependency>>,
    packages: Seq<ResolvedPackage>,
    config: ProjectConfig,
    baseline: Baseline,
) -> Seq<ViolationView> {
    (match root_dependencies {
        Some(dependencies) => direct_violations(config, baseline.direct(), dependencies),
        None => Seq::empty(),
    }) + (if baseline.resolved().len() > 0 {
        resolved_violations(baseline.resolved(), packages)
    } else {
        Seq::empty()
    })
}

/// Evaluates a project from what Cargo reports of it: the dependencies its
/// root package declares (none when the manifest has no root package) and
/// the packages of its resolved graph.
///
/// Internal, path, and workspace dependencies are excluded according to
/// `config`. The returned package list is kept for reports, while violations
/// describe direct external declarations and, under resolved rules, the
/// resolved graph.
pub fn evaluate_metadata(
    root_dependencies: Option<&Vec<DeclaredDependency>>,
    packages: Vec<ResolvedPackage>,
    config: &ProjectConfig,
    baseline: &LoadedBaseline,
) -> (r: Evaluation)
    requires
        baseline.baseline.wf(),
    ensures
        violation_views(r.violations@) == evaluation_violations(
            match root_dependencies {
                Some(d) => Some(d@),
                None => None,
            },
            packages@,
            *config,
            baseline.baseline,
        ),
        r.packages@ == packages@,
{
    let mut violations: Vec<Violation> = Vec::new();
    if let Some(dependencies) = root_dependencies {
        check_direct_dependencies(dependencies, config, &baseline.baseline, &mut violations);
    }
    if baseline.baseline.has_resolved_rules() {
        check_resolved_dependencies(&packages, &baseline.baseline, &mut violations);
    }
    proof {
        let e: Seq<ViolationView> = Seq::empty();
        assert(violation_views(Seq::<Violation>::empty()) =~= e);
        assert(violation_views(violations@) =~= evaluation_violations(
            match root_dependencies {
                Some(d) => Some(d@),
                None => None,
            },
            packages@,
            *config,
            baseline.baseline,
        ));
    }
    Evaluation { violations, packages }
}

/// Whether a declared dependency satisfies the baseline: it is first-party,
/// or the baseline names it with an equal requirement.
pub open spec fn dependency_conforms(config: ProjectConfig, rules: Rules, dependency: DeclaredDependency) -> bool {
    internal_dependency(config, dependency) || (has_rule_name(rules, dependency.name@) && same_requirement(
        dependency.requirement@,
        rule_for(rules, dependency.name@),
    ))
}

/// A project's direct dependencies raise no violation exactly when each of
/// them is first-party or declared with the baseline's requirement.
pub proof fn lemma_clean_direct_dependencies(
    config: ProjectConfig,
    rules: Rules,
    dependencies: Seq<DeclaredDependency>,
)
    ensures
        direct_violations(config, rules, dependencies).len() == 0 <==> forall|j: int|
            0 <= j < dependencies.len() ==> dependency_conforms(config, rules, #[trigger] dependencies[j]),
    decreases dependencies.len(),
{
    if dependencies.len() > 0 {
        let earlier = dependencies.drop_last();
        lemma_clean_direct_dependencies(config, rules, earlier);
        assert(dependencies.last() == dependencies[dependencies.len() - 1]);
        if forall|j: int| 0 <= j < dependencies.len() ==> dependency_conforms(config, rules, #[trigger] dependencies[j]) {
            assert forall|j: int| 0 <= j < earlier.len() implies dependency_conforms(config, rules, #[trigger] earlier[j]) by {
                assert(earlier[j] == dependencies[j]);
            }
        }
        if direct_violations(config, rules, dependencies).len() == 0 {
            assert forall|j: int| 0 <= j < dependencies.len() implies dependency_conforms(
                config,
                rules,
                #[trigger] dependencies[j],
            ) by {
                if j < earlier.len() {
                    assert(earlier[j] == dependencies[j]);
                }
            }
        }
    }
}

/// Every violation of declared dependencies is a `DP203` or `DP202` about an
/// external dependency of the project.
pub proof fn lemma_direct_violation_subjects(
    config: ProjectConfig,
    rules: Rules,
    dependencies: Seq<DeclaredDependency>,
    i: int,
)
    requires
        0 <= i < direct_violations(config, rules, dependencies).len(),
    ensures
        exists|j: int|
            0 <= j < dependencies.len() && (#[trigger] dependencies[j]).name@ == direct_violations(
                config,
                rules,
                dependencies,
            )[i].1 && !internal_dependency(config, dependencies[j]),
        direct_violations(config, rules, dependencies)[i].0 == "DP203"@ || direct_violations(
            config,
            rules,
            dependencies,
        )[i].0 == "DP202"@,
    decreases dependencies.len(),
{
    let earlier = dependencies.drop_last();
    let before = direct_violations(config, rules, earlier);
    if i < before.len() {
        lemma_direct_violation_subjects(config, rules, earlier, i);
        let j = choose|j: int|
            0 <= j < earlier.len() && (#[trigger] earlier[j]).name@ == before[i].1 && !internal_dependency(
                config,
                earlier[j],
            );
        assert(dependencies[j] == earlier[j]);
    } else {
        let k = dependencies.len() - 1;
        assert(dependencies[k] == dependencies.last());
    }
}

/// Whether a declared dependency breaks the baseline.
pub open spec fn breaks_baseline(config: ProjectConfig, rules: Rules) -> spec_fn(DeclaredDependency) -> bool {
    |d: DeclaredDependency| !dependency_conforms(config, rules, d)
}

/// The check reports each dependency that breaks the baseline exactly once,
/// in declaration order and nothing else: the `k`-th violation names the
/// `k`-th such dependency, as `DP203` when the baseline does not name it and
/// as `DP202`, with both requirements in its message, when it names it with
/// a different requirement.
pub proof fn lemma_direct_violations_one_per_breach(
    config: ProjectConfig,
    rules: Rules,
    dependencies: Seq<DeclaredDependency>,
)
    ensures
        ({
            let breaches = dependencies.filter(breaks_baseline(config, rules));
            let found = direct_violations(config, rules, dependencies);
            &&& found.len() == breaches.len()
            &&& forall|k: int|
                0 <= k < breaches.len() ==> {
                    let d = #[trigger] breaches[k];
                    &&& found[k].1 == d.name@
                    &&& found[k].3 is None
                    &&& !has_rule_name(rules, d.name@) ==> found[k].0 == "DP203"@
                    &&& has_rule_name(rules, d.name@) ==> found[k].0 == "DP202"@ && found[k].2
                        == "declared requirement "@ + d.requirement@ + " differs from baseline "@ + rule_for(
                        rules,
                        d.name@,
                    )
                }
        }),
    decreases dependencies.len(),
{
    let pred = breaks_baseline(config, rules);
    if dependencies.len() > 0 {
        let earlier = dependencies.drop_last();
        let last = dependencies.last();
        lemma_direct_violations_one_per_breach(config, rules, earlier);
        assert(dependencies =~= earlier.push(last));
        earlier.lemma_filter_push(last, pred);
    } else {
        assert(dependencies.filter(pred) =~= Seq::<DeclaredDependency>::empty());
    }
}

/// Resolved-package rules are checked whether or not the project has a root
/// package: with resolved rules, the violations end with those of the
/// resolved graph after those of the root package's declarations, and a
/// project without a root package has exactly the resolved-graph violations.
pub proof fn lemma_resolved_rules_always_checked(
    root_dependencies: Option<Seq<DeclaredDependency>>,
    packages: Seq<ResolvedPackage>,
    config: ProjectConfig,
    baseline: Baseline,
)
    requires
        baseline.resolved().len() > 0,
    ensures
        ({
            let found = evaluation_violations(root_dependencies, packages, config, baseline);
            let graph = resolved_violations(baseline.resolved(), packages);
            &&& found.len() >= graph.len()
            &&& found.subrange(found.len() - graph.len(), found.len() as int) == graph
            &&& root_dependencies is None ==> found == graph
        }),
{
    let found = evaluation_violations(root_dependencies, packages, config, baseline);
    let graph = resolved_violations(baseline.resolved(), packages);
    let head = match root_dependencies {
        Some(dependencies) => direct_violations(config, baseline.direct(), dependencies),
        None => Seq::empty(),
    };
    assert(found == head + graph);
    assert(found.subrange(head.len() as int, found.len() as int) =~= graph);
    if root_dependencies is None {
        assert(head + graph =~= graph);
    }
}

/// Whether a resolved package breaks its minimum-version rule.
pub open spec fn below_minimum(rules: Rules) -> spec_fn(ResolvedPackage) -> bool {
    |p: ResolvedPackage| has_rule_name(rules, p.name@) && !version_satisfies(rule_for(rules, p.name@), p.version@)
}

/// The resolved-graph check reports each package below its minimum exactly
/// once, in graph order and nothing else, as `DP401` naming the package,
/// its version, its source (`path` when Cargo reports none) and the rule.
pub proof fn lemma_resolved_violations_one_per_breach(rules: Rules, packages: Seq<ResolvedPackage>)
    ensures
        ({
            let breaches = packages.filter(below_minimum(rules));
            let found = resolved_violations(rules, packages);
            &&& found.len() == breaches.len()
            &&& forall|k: int|
                0 <= k < breaches.len() ==> {
                    let p = #[trigger] breaches[k];
                    &&& found[k].0 == "DP401"@
                    &&& found[k].1 == p.name@
                    &&& found[k].2 == "resolved version "@ + p.version@ + " from "@ + (match p.source {
                        Some(source) => source@,
                        None => "path"@,
                    }) + " is below minimum "@ + rule_for(rules, p.name@)
                }
        }),
    decreases packages.len(),
{
    let pred = below_minimum(rules);
    if packages.len() > 0 {
        let earlier = packages.drop_last();
        let last = packages.last();
        lemma_resolved_violations_one_per_breach(rules, earlier);
        assert(packages =~= earlier.push(last));
        earlier.lemma_filter_push(last, pred);
    } else {
        assert(packages.filter(pred) =~= Seq::<ResolvedPackage>::empty());
    }
}

} // verus!
