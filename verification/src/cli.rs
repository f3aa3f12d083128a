//! The decisions of the command-line interface: command names, which
//! commands need a lock file, how a check ends, what `sync` prints and the
//! exit status of a failure.

use vstd::prelude::*;
use vstd::string::StringExecFns;

use crate::policy_error::{error_code, PolicyError};
use crate::rules::Evaluation;
use crate::sync::{EditView, FileEdit};
use crate::text::str_equal;

verus! {

/// Output formats supported by report.
#[derive(Debug, Clone, Copy, PartialEq, Eq, Structural)]
pub enum ReportFormat {
    /// Human-readable Markdown.
    Markdown,
    /// Machine-readable JSON.
    Json,
}

/// The policy operation a command line selects.
#[derive(Debug, Clone, Copy, PartialEq, Eq, Structural)]
pub enum CommandKind {
    /// Inventory direct declarations and resolved graphs across project roots.
    Inventory,
    /// Check a project against its selected baseline.
    Check,
    /// Render the policy report.
    Report,
    /// Plan or apply safe dependency-version edits.
    Sync,
}

/// The stable name of a command, used in completion diagnostics.
pub open spec fn command_label(kind: CommandKind) -> Seq<char> {
    match kind {
        CommandKind::Inventory => "inventory"@,
        CommandKind::Check => "check"@,
        CommandKind::Report => "report"@,
        CommandKind::Sync => "sync"@,
    }
}

/// Returns the stable command name used in completion diagnostics.
pub fn command_name(kind: CommandKind) -> (r: &'static str)
    ensures
        r@ == command_label(kind),
{
    match kind {
        CommandKind::Inventory => "inventory",
        CommandKind::Check => "check",
        CommandKind::Report => "report",
        CommandKind::Sync => "sync",
    }
}

/// Whether a command needs a lock file: `check` and `report` do when the
/// baseline has resolved-package rules.
pub fn needs_lockfile(has_resolved_rules: bool, kind: CommandKind) -> (r: bool)
    ensures
        r == (has_resolved_rules && (kind == CommandKind::Check || kind == CommandKind::Report)),
{
    has_resolved_rules && match kind {
        CommandKind::Check | CommandKind::Report => true,
        _ => false,
    }
}

/// How a check ends: it passes when the evaluation found no violation, and
/// otherwise fails with [`PolicyError::PolicyViolation`] and their number.
pub fn check_outcome(evaluation: &Evaluation) -> (r: Result<(), PolicyError>)
    ensures
        r is Ok <==> evaluation.violations@.len() == 0,
        r matches Err(e) ==> e matches PolicyError::PolicyViolation { count } && count
            == evaluation.violations@.len(),
{
    if evaluation.violations.len() == 0 {
        Ok(())
    } else {
        Err(PolicyError::PolicyViolation { count: evaluation.violations.len() })
    }
}

/// The exit status of a failed command: `1` for policy violations (`DP200`)
/// and for the errors of the selected configuration and source (`DP001`,
/// `DP101`), `2` for every other failure.
pub open spec fn failure_status(code: Seq<char>) -> i32 {
    if code == "DP200"@ || code == "DP001"@ || code == "DP101"@ {
        1
    } else {
        2
    }
}

/// Returns the process exit status for a failed command.
pub fn exit_status(error: &PolicyError) -> (r: i32)
    ensures
        r == failure_status(error_code(*error)),
{
    let code = error.code();
    if str_equal(code, "DP200") || str_equal(code, "DP001") || str_equal(code, "DP101") {
        1
    } else {
        2
    }
}

/// The line `sync` prints for a planned edit.
pub open spec fn edit_line(edit: EditView) -> Seq<char> {
    edit.1 + ": "@ + edit.2 + " -> "@ + edit.3
}

/// Returns the line `sync` prints for a planned edit:
/// `<dependency>: <old> -> <new>`.
pub fn describe_edit(edit: &FileEdit) -> (r: String)
    ensures
        r@ == edit_line(edit@),
{
    let mut line = edit.dependency.clone();
    line.append(": ");
    line.append(edit.old.as_str());
    line.append(" -> ");
    line.append(edit.new.as_str());
    line
}

} // verus!
