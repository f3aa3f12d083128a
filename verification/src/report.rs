//! Policy report data models and the Markdown renderer.

use vstd::prelude::*;
use vstd::string::StringExecFns;

use crate::cargo::ResolvedPackage;
use crate::diagnostic::{violation_views, Violation, ViolationView};
use crate::rules::Evaluation;
use crate::source::LoadedBaseline;

verus! {

/// Stable identity of the baseline used for a report.
#[derive(Debug, Clone)]
pub struct BaselineIdentity {
    /// Baseline release name.
    pub release: String,
    /// Commit SHA selected by the project.
    pub revision: String,
    /// Human-readable baseline name.
    pub name: String,
}

/// Machine-readable and human-readable policy report data.
#[derive(Debug, Clone)]
pub struct Report {
    /// Report schema version.
    pub schema_version: u32,
    /// Baseline identity.
    pub baseline: BaselineIdentity,
    /// Found policy violations.
    pub violations: Vec<Violation>,
    /// Resolved package graph.
    pub packages: Vec<ResolvedPackage>,
}

impl Report {
    /// Builds a report from an evaluation and its baseline: schema version
    /// `1`, the baseline's release as both release and name, its commit as
    /// the revision, and the evaluation's violations and packages.
    pub fn from_evaluation(evaluation: Evaluation, baseline: &LoadedBaseline) -> (r: Report)
        ensures
            r.schema_version == 1,
            r.baseline.release@ == baseline.release@,
            r.baseline.name@ == baseline.release@,
            r.baseline.revision@ == baseline.commit@,
            r.violations@ == evaluation.violations@,
            r.packages@ == evaluation.packages@,
    {
        Report {
            schema_version: 1,
            baseline: BaselineIdentity {
                release: baseline.release.clone(),
                revision: baseline.commit.clone(),
                name: baseline.release.clone(),
            },
            violations: evaluation.violations,
            packages: evaluation.packages,
        }
    }
}

/// The Markdown list item of one violation: code, package and message.
pub open spec fn violation_item(v: ViolationView) -> Seq<char> {
    "- "@ + v.0 + " "@ + v.1 + ": "@ + v.2 + "\n"@
}

/// The list items of violations, in order.
pub open spec fn violation_items(violations: Seq<ViolationView>) -> Seq<char>
    decreases violations.len(),
{
    if violations.len() == 0 {
        Seq::empty()
    } else {
        violation_items(violations.drop_last()) + violation_item(violations.last())
    }
}

/// The Markdown report for a baseline name, revision and violations.
pub open spec fn markdown_report(name: Seq<char>, revision: Seq<char>, violations: Seq<ViolationView>) -> Seq<
    char,
> {
    "# Dependency Policy Report\n\n- Baseline: ~"@ + name + "~\n- Revision: ~"@ + revision + "~\n\n"@ + (
    if violations.len() == 0 {
        "No violations found.\n"@
    } else {
        "## Violations\n\n"@ + violation_items(violations)
    })
}

/// Serializes a report as concise Markdown.
pub fn render_markdown(report: &Report) -> (r: String)
    ensures
        r@ == markdown_report(
            report.baseline.name@,
            report.baseline.revision@,
            violation_views(report.violations@),
        ),
{
    let mut output = String::new();
    output.append("# Dependency Policy Report\n\n- Baseline: ~");
    output.append(report.baseline.name.as_str());
    output.append("~\n- Revision: ~");
    output.append(report.baseline.revision.as_str());
    output.append("~\n\n");
    let ghost views = violation_views(report.violations@);
    if report.violations.len() == 0 {
        output.append("No violations found.\n");
    } else {
        output.append("## Violations\n\n");
        let ghost heading = output@;
        let mut i: usize = 0;
        while i < report.violations.len()
            invariant
                i <= report.violations@.len(),
                views == violation_views(report.violations@),
                output@ == heading + violation_items(views.take(i as int)),
            decreases report.violations.len() - i,
        {
            let violation = &report.violations[i];
            assert(views.take(i + 1).drop_last() =~= views.take(i as int));
            assert(views.take(i + 1).last() == violation@);
            output.append("- ");
            output.append(violation.code);
            output.append(" ");
            output.append(violation.crate_name.as_str());
            output.append(": ");
            output.append(violation.message.as_str());
            output.append("\n");
            i = i + 1;
            assert(output@ =~= heading + violation_items(views.take(i as int)));
        }
        assert(views.take(report.violations.len() as int) =~= views);
    }
    output
}

/// Whether `part` occurs in `whole` at some position.
pub open spec fn occurs_in(part: Seq<char>, whole: Seq<char>) -> bool {
    exists|k: int| 0 <= k && k + part.len() <= whole.len() && #[trigger] whole.subrange(k, k + part.len()) == part
}

/// A part of a prefix also occurs in the whole text.
proof fn lemma_occurs_in_extended(part: Seq<char>, whole: Seq<char>, more: Seq<char>)
    requires
        occurs_in(part, whole),
    ensures
        occurs_in(part, whole + more),
        occurs_in(part, more + whole),
{
    let k = choose|k: int| 0 <= k && k + part.len() <= whole.len() && #[trigger] whole.subrange(k, k + part.len()) == part;
    assert((whole + more).subrange(k, k + part.len()) =~= part);
    assert((more + whole).subrange(more.len() + k, more.len() + k + part.len()) =~= part);
}

/// The list items hold the item of each violation.
proof fn lemma_items_list_violation(violations: Seq<ViolationView>, i: int)
    requires
        0 <= i < violations.len(),
    ensures
        occurs_in(violation_item(violations[i]), violation_items(violations)),
    decreases violations.len(),
{
    let item = violation_item(violations[i]);
    let earlier = violation_items(violations.drop_last());
    if i < violations.len() - 1 {
        lemma_items_list_violation(violations.drop_last(), i);
        assert(violations.drop_last()[i] == violations[i]);
        lemma_occurs_in_extended(item, earlier, violation_item(violations.last()));
    } else {
        assert((earlier + item).subrange(earlier.len() as int, (earlier.len() + item.len()) as int) =~= item);
    }
}

/// The Markdown report lists every violation with its code, package and
/// message, and says "No violations found." when there is none.
pub proof fn lemma_markdown_lists_violations(name: Seq<char>, revision: Seq<char>, violations: Seq<ViolationView>)
    ensures
        forall|i: int| 0 <= i < violations.len() ==> occurs_in(
            violation_item(#[trigger] violations[i]),
            markdown_report(name, revision, violations),
        ),
        violations.len() == 0 ==> occurs_in("No violations found.\n"@, markdown_report(name, revision, violations)),
{
    let head = "# Dependency Policy Report\n\n- Baseline: ~"@ + name + "~\n- Revision: ~"@ + revision + "~\n\n"@;
    assert forall|i: int| 0 <= i < violations.len() implies occurs_in(
        violation_item(#[trigger] violations[i]),
        markdown_report(name, revision, violations),
    ) by {
        lemma_items_list_violation(violations, i);
        lemma_occurs_in_extended(violation_item(violations[i]), violation_items(violations), "## Violations\n\n"@);
        lemma_occurs_in_extended(
            violation_item(violations[i]),
            "## Violations\n\n"@ + violation_items(violations),
            head,
        );
        assert(markdown_report(name, revision, violations) == head + ("## Violations\n\n"@ + violation_items(violations)));
    }
    if violations.len() == 0 {
        let text = "No violations found.\n"@;
        assert(occurs_in(text, text)) by {
            let k: int = 0;
            assert(text.subrange(k, k + text.len()) =~= text);
        }
        lemma_occurs_in_extended(text, text, head);
        assert(markdown_report(name, revision, violations) == head + text);
    }
}

} // verus!
