//! Direct dependency-version synchronization planning, and the manifest
//! rewrites that apply a plan.

use vstd::prelude::*;
use vstd::string::StringExecFns;

use crate::baseline::{has_rule_name, lemma_rule_for, lemma_sorted_unique, names_unique, rule_for, Baseline, Rules};
use crate::diagnostic::{plain_violation, violation_views, Violation, ViolationView};
use crate::policy_error::PolicyError;
use crate::text::str_equal;
use toml_edit::{DocumentMut, Item};

verus! {

/// A planned replacement in a manifest.
#[derive(Debug, Clone, PartialEq, Eq)]
pub struct FileEdit {
    /// Manifest path containing the dependency declaration.
    pub path: String,
    /// Dependency name whose requirement will be replaced.
    pub dependency: String,
    /// Existing Cargo version requirement.
    pub old: String,
    /// Baseline Cargo version requirement to write.
    pub new: String,
}

/// An edit as plain values: path, dependency, old and new requirement.
pub type EditView = (Seq<char>, Seq<char>, Seq<char>, Seq<char>);

impl View for FileEdit {
    type V = EditView;

    open spec fn view(&self) -> EditView {
        (self.path@, self.dependency@, self.old@, self.new@)
    }
}

/// A lockfile update requested after manifest synchronization.
#[derive(Debug, Clone, PartialEq, Eq)]
pub struct LockUpdate {
    /// Package name whose resolved requirement may need updating.
    pub package: String,
    /// Requested Cargo version requirement.
    pub version: String,
}

/// A lock update as plain values: package and requirement.
pub type LockView = (Seq<char>, Seq<char>);

impl View for LockUpdate {
    type V = LockView;

    open spec fn view(&self) -> LockView {
        (self.package@, self.version@)
    }
}

/// Safe edits and changes blocked for manual review.
#[derive(Debug, Clone, PartialEq, Eq)]
pub struct SyncPlan {
    /// Mechanical manifest edits that can be applied safely.
    pub manifest_edits: Vec<FileEdit>,
    /// Requested lock updates retained for callers that display them.
    pub lock_updates: Vec<LockUpdate>,
    /// Changes that must not be automated.
    pub blocked: Vec<Violation>,
}

/// A plan as plain values: edits, lock updates and blocked changes.
pub type PlanView = (Seq<EditView>, Seq<LockView>, Seq<ViolationView>);

impl View for SyncPlan {
    type V = PlanView;

    open spec fn view(&self) -> PlanView {
        (
            self.manifest_edits@.map_values(|e: FileEdit| e@),
            self.lock_updates@.map_values(|u: LockUpdate| u@),
            violation_views(self.blocked@),
        )
    }
}

/// A table-like dependency declaration (an inline table or a
/// `[dependencies.<name>]` sub-table), as plain values.
#[derive(Debug, Clone)]
pub struct TableDeclaration {
    /// Every key of the table, in order, with the `Display` text of its
    /// item and the item's string value when it is a string.
    pub items: Vec<(String, String, Option<String>)>,
}

/// One entry of a manifest dependency table, as plain values.
#[derive(Debug, Clone)]
pub struct ManifestDeclaration {
    /// The dependency name (the entry's key).
    pub name: String,
    /// The requirement, when the entry is a plain string.
    pub requirement: Option<String>,
    /// The table, when the entry is an inline table or a sub-table.
    pub table: Option<TableDeclaration>,
}

/// One key of a table as plain values: the key, the text of its item, and
/// its string value.
pub type ItemView = (Seq<char>, Seq<char>, Option<Seq<char>>);

/// A table-like declaration as plain values: its keys in order.
pub type TableView = Seq<ItemView>;

/// A table entry as plain values: name, string requirement, table.
pub type DeclarationView = (Seq<char>, Option<Seq<char>>, Option<TableView>);

/// The view of an optional string.
pub open spec fn opt_view(s: Option<String>) -> Option<Seq<char>> {
    match s {
        Some(s) => Some(s@),
        None => None,
    }
}

/// The view of a table's keys.
pub open spec fn item_views(items: Seq<(String, String, Option<String>)>) -> TableView {
    items.map_values(|e: (String, String, Option<String>)| (e.0@, e.1@, opt_view(e.2)))
}

/// Whether a table has the key.
pub open spec fn has_key(table: TableView, key: Seq<char>) -> bool {
    exists|i: int| 0 <= i < table.len() && (#[trigger] table[i]).0 == key
}

/// The first item of a table with the key, if any.
pub open spec fn item_named(table: TableView, key: Seq<char>) -> Option<ItemView>
    decreases table.len(),
{
    if table.len() == 0 {
        None
    } else if table[0].0 == key {
        Some(table[0])
    } else {
        item_named(table.skip(1), key)
    }
}

/// The string value of a table's key, when it has one.
pub open spec fn string_value(table: TableView, key: Seq<char>) -> Option<Seq<char>> {
    match item_named(table, key) {
        Some(item) => item.2,
        None => None,
    }
}

/// The key that points a dependency at a local path.
pub open spec fn path_key() -> Seq<char> {
    seq!['p', 'a', 't', 'h']
}

/// The key that inherits a dependency from the workspace.
pub open spec fn workspace_key() -> Seq<char> {
    seq!['w', 'o', 'r', 'k', 's', 'p', 'a', 'c', 'e']
}

/// The key of a dependency's version requirement.
pub open spec fn version_key() -> Seq<char> {
    seq!['v', 'e', 'r', 's', 'i', 'o', 'n']
}

impl View for ManifestDeclaration {
    type V = DeclarationView;

    open spec fn view(&self) -> DeclarationView {
        (
            self.name@,
            opt_view(self.requirement),
            match self.table {
                Some(t) => Some(item_views(t.items@)),
                None => None,
            },
        )
    }
}

/// The first entry named `name`, if any.
pub open spec fn entry_named(entries: Seq<DeclarationView>, name: Seq<char>) -> Option<DeclarationView>
    decreases entries.len(),
{
    if entries.len() == 0 {
        None
    } else if entries[0].0 == name {
        Some(entries[0])
    } else {
        entry_named(entries.skip(1), name)
    }
}

/// The names of table entries, in order.
pub open spec fn entry_names_of(entries: Seq<DeclarationView>) -> Seq<Seq<char>> {
    entries.map_values(|e: DeclarationView| e.0)
}

/// What `toml_edit` reads from a manifest's dependency table: for a source
/// that parses as a `toml_edit::DocumentMut`, the entries of the named
/// top-level table in document order (none when there is no such table or it
/// is not table-like); otherwise the parse error's message.
pub uninterp spec fn manifest_dependency_table(source: Seq<char>, table: Seq<char>) -> Result<
    Seq<DeclarationView>,
    Seq<char>,
>;

/// Reads one dependency table of a manifest with `toml_edit`.
///
/// Parses the source as a `toml_edit::DocumentMut`, looks the table up with
/// `Table::get` and `Item::as_table_like`, and turns each entry into plain
/// values: its key, `Item::as_str`, and for `Item::as_table_like` each key
/// with the `Display` text of its item and `Item::as_str`. The contract names the outcome
/// [`manifest_dependency_table`] of the source and table; a table's keys are
/// distinct, as the `IndexMap` keyed by them holds each once.
#[verifier::external_body]
fn read_dependency_table(source: &str, table: &str) -> (r: Result<Vec<ManifestDeclaration>, String>)
    ensures
        r is Ok <==> manifest_dependency_table(source@, table@) is Ok,
        r matches Ok(entries) ==> entries@.map_values(|e: ManifestDeclaration| e@)
            == manifest_dependency_table(source@, table@)->Ok_0,
        r matches Ok(entries) ==> names_unique(entries@.map_values(|e: ManifestDeclaration| e@.0)),
        r matches Err(m) ==> m@ == manifest_dependency_table(source@, table@)->Err_0,
{
    let document = source.parse::<DocumentMut>().map_err(|error| error.to_string())?;
    let found = document.get(table).and_then(Item::as_table_like);
    Ok(found.map_or(Vec::new(), |entries| entries.iter().map(|(name, item)| ManifestDeclaration {
        name: name.to_owned(),
        requirement: item.as_str().map(str::to_owned),
        table: item.as_table_like().map(|t| TableDeclaration {
            items: t.iter().map(|(k, v)| (k.to_owned(), v.to_string(), v.as_str().map(str::to_owned))).collect(),
        }),
    }).collect()))
}

/// What `toml_edit` renders for a manifest after the entry `dependency` of
/// the named table is replaced by the string `requirement`: the parse
/// error's message; `None` when the table has no such entry; otherwise the
/// rendered document.
pub uninterp spec fn manifest_with_string(
    source: Seq<char>,
    table: Seq<char>,
    dependency: Seq<char>,
    requirement: Seq<char>,
) -> Result<Option<Seq<char>>, Seq<char>>;

/// Whether the manifest parses and the named table holds `dependency` as a
/// string entry.
pub open spec fn declared_as_string(source: Seq<char>, table: Seq<char>, dependency: Seq<char>) -> bool {
    manifest_dependency_table(source, table) matches Ok(entries) && entry_named(entries, dependency) matches Some(
        entry,
    ) && entry.1 is Some
}

/// Whether the manifest parses and the named table holds `dependency` as an
/// inline table or a sub-table.
pub open spec fn declared_as_table(source: Seq<char>, table: Seq<char>, dependency: Seq<char>) -> bool {
    manifest_dependency_table(source, table) matches Ok(entries) && entry_named(entries, dependency) matches Some(
        entry,
    ) && entry.2 is Some
}

/// A rewrite that gave a text reading back as [`string_written`] says.
pub open spec fn string_rewritten(
    r: Result<Option<String>, String>,
    source: Seq<char>,
    table: Seq<char>,
    dependency: Seq<char>,
    requirement: Seq<char>,
) -> bool {
    r matches Ok(Some(text)) && string_written(source, text@, table, dependency, requirement)
}

/// A rewrite that gave a text reading back as [`key_written`] says.
pub open spec fn key_rewritten(
    r: Result<Option<String>, String>,
    source: Seq<char>,
    table: Seq<char>,
    dependency: Seq<char>,
    key: Seq<char>,
    value: Seq<char>,
) -> bool {
    r matches Ok(Some(text)) && key_written(source, text@, table, dependency, key, value)
}

/// Replaces a string dependency entry with `toml_edit`.
///
/// Parses the source as a `toml_edit::DocumentMut`, finds the entry with
/// `Table::get_mut`, `Item::as_table_like_mut` and `TableLike::get_mut`
/// (none of which adds a key), sets it to `toml_edit::value(requirement)`
/// and renders the document. The contract names the outcome [`manifest_with_string`]. It
/// also states what `toml_edit`'s format-preserving parse and render show:
/// when the entry was a string entry, reading the table back gives that
/// entry as the new string and every other entry as it was, its keys still
/// distinct, and every other top-level table reads back as it was.
#[verifier::external_body]
fn set_string_requirement(source: &str, table: &str, dependency: &str, requirement: &str) -> (r: Result<
    Option<String>,
    String,
>)
    ensures
        r is Ok <==> manifest_with_string(source@, table@, dependency@, requirement@) is Ok,
        r matches Ok(text) ==> opt_view(text) == manifest_with_string(source@, table@, dependency@, requirement@)->Ok_0,
        r matches Err(m) ==> m@ == manifest_with_string(source@, table@, dependency@, requirement@)->Err_0,
        declared_as_string(source@, table@, dependency@) ==> string_rewritten(r, source@, table@, dependency@, requirement@),
{
    let mut document = source.parse::<DocumentMut>().map_err(|error| error.to_string())?;
    let entries = document.get_mut(table).and_then(Item::as_table_like_mut);
    match entries.and_then(|entries| entries.get_mut(dependency)) {
        Some(item) => *item = toml_edit::value(requirement),
        None => return Ok(None),
    }
    Ok(Some(document.to_string()))
}

/// Reading `text` back after a string entry was written: the entry
/// `dependency` of `table` is the string `requirement`, every other entry of
/// it is as in `source`, and every other top-level table is as in `source`.
pub open spec fn string_written(
    source: Seq<char>,
    text: Seq<char>,
    table: Seq<char>,
    dependency: Seq<char>,
    requirement: Seq<char>,
) -> bool {
    &&& manifest_dependency_table(text, table) is Ok
    &&& names_unique(entry_names_of(manifest_dependency_table(text, table)->Ok_0))
    &&& entry_named(manifest_dependency_table(text, table)->Ok_0, dependency) == Some(
        (dependency, Some(requirement), None::<TableView>),
    )
    &&& forall|name: Seq<char>|
        name != dependency ==> #[trigger] entry_named(manifest_dependency_table(text, table)->Ok_0, name)
            == entry_named(manifest_dependency_table(source, table)->Ok_0, name)
    &&& forall|other: Seq<char>|
        other != table ==> #[trigger] manifest_dependency_table(text, other) == manifest_dependency_table(
            source,
            other,
        )
}

/// What `toml_edit` renders for a manifest after `key` is set to the
/// string `value` in the table-like entry `dependency` of the named table:
/// the parse error's message; `None` when the table has no such table-like
/// entry; otherwise the rendered document.
pub uninterp spec fn manifest_with_key(
    source: Seq<char>,
    table: Seq<char>,
    dependency: Seq<char>,
    key: Seq<char>,
    value: Seq<char>,
) -> Result<Option<Seq<char>>, Seq<char>>;

/// Sets one key of an inline-table or sub-table dependency entry to a
/// string with `toml_edit`.
///
/// Parses the source as a `toml_edit::DocumentMut`, finds the entry with
/// `Table::get_mut`, `Item::as_table_like_mut` and `TableLike::get_mut`
/// (none of which adds a key), inserts `toml_edit::value(value)` under `key`
/// with `TableLike::insert` and renders the document. The contract names the
/// outcome [`manifest_with_key`]. It also states what the source shows of
/// `insert`, which replaces or adds the one key of an `IndexMap`, and of the
/// format-preserving render: when the entry was table-like, reading the
/// table back gives that entry with `key` holding the string `value` and
/// every other key with the same item; every other entry and every other
/// top-level table reads back as it was.
#[verifier::external_body]
fn set_table_key(source: &str, table: &str, dependency: &str, key: &str, value: &str) -> (r: Result<
    Option<String>,
    String,
>)
    ensures
        r is Ok <==> manifest_with_key(source@, table@, dependency@, key@, value@) is Ok,
        r matches Ok(text) ==> opt_view(text) == manifest_with_key(source@, table@, dependency@, key@, value@)->Ok_0,
        r matches Err(m) ==> m@ == manifest_with_key(source@, table@, dependency@, key@, value@)->Err_0,
        declared_as_table(source@, table@, dependency@) ==> key_rewritten(r, source@, table@, dependency@, key@, value@),
{
    let mut document = source.parse::<DocumentMut>().map_err(|error| error.to_string())?;
    let entries = document.get_mut(table).and_then(Item::as_table_like_mut);
    let entry = entries.and_then(|entries| entries.get_mut(dependency)).and_then(Item::as_table_like_mut);
    match entry {
        Some(entry) => entry.insert(key, toml_edit::value(value)),
        None => return Ok(None),
    };
    Ok(Some(document.to_string()))
}

/// Whether a table reads back as `before` with `key` set to the string
/// `value`: `key` holds `value`, and every other key keeps its item.
pub open spec fn key_set(before: TableView, after: TableView, key: Seq<char>, value: Seq<char>) -> bool {
    &&& string_value(after, key) == Some(value)
    &&& forall|item: ItemView| item.0 != key ==> (#[trigger] after.contains(item) <==> before.contains(item))
}

/// Reading `text` back after `key` was set: the entry `dependency` of
/// `table` has `key` set and keeps its other keys, every other entry of it
/// is as in `source`, and every other top-level table is as in `source`.
pub open spec fn key_written(
    source: Seq<char>,
    text: Seq<char>,
    table: Seq<char>,
    dependency: Seq<char>,
    key: Seq<char>,
    value: Seq<char>,
) -> bool {
    let before = entry_named(manifest_dependency_table(source, table)->Ok_0, dependency)->Some_0;
    &&& manifest_dependency_table(text, table) is Ok
    &&& names_unique(entry_names_of(manifest_dependency_table(text, table)->Ok_0))
    &&& entry_named(manifest_dependency_table(text, table)->Ok_0, dependency) matches Some(entry) && (entry.0
        == dependency && entry.1 == before.1 && entry.2 is Some && key_set(
        before.2->Some_0,
        entry.2->Some_0,
        key,
        value,
    ))
    &&& forall|name: Seq<char>|
        name != dependency ==> #[trigger] entry_named(manifest_dependency_table(text, table)->Ok_0, name)
            == entry_named(manifest_dependency_table(source, table)->Ok_0, name)
    &&& forall|other: Seq<char>|
        other != table ==> #[trigger] manifest_dependency_table(text, other) == manifest_dependency_table(
            source,
            other,
        )
}

/// The dependency tables that synchronization edits, in order.
pub open spec fn sync_tables() -> Seq<Seq<char>> {
    seq!["dependencies"@, "dev-dependencies"@, "build-dependencies"@]
}

/// The empty plan.
pub open spec fn empty_plan() -> PlanView {
    (Seq::empty(), Seq::empty(), Seq::empty())
}

/// The requirement an entry declares in a form that synchronization edits:
/// a string entry's requirement, or the string `version` of a table-like
/// entry without `path` or `workspace`.
pub open spec fn editable_requirement(entry: DeclarationView) -> Option<Seq<char>> {
    if entry.1 is Some {
        entry.1
    } else if entry.2 is Some && !locally_sourced(entry) {
        string_value(entry.2->Some_0, version_key())
    } else {
        None
    }
}

/// Whether an entry is left to its own source: a table-like entry with
/// `path` or `workspace`.
pub open spec fn locally_sourced(entry: DeclarationView) -> bool {
    entry.1 is None && entry.2 is Some && (has_key(entry.2->Some_0, path_key()) || has_key(
        entry.2->Some_0,
        workspace_key(),
    ))
}

/// Whether an entry is a value that is neither a string nor a table.
pub open spec fn other_value(entry: DeclarationView) -> bool {
    entry.1 is None && entry.2 is None
}

/// Whether applying an edit writes into an entry: a string entry, or a
/// table-like entry without `path` or `workspace`.
pub open spec fn writable(entry: DeclarationView) -> bool {
    entry.1 is Some || (entry.2 is Some && !locally_sourced(entry))
}

/// What one table entry adds to a plan. An entry the baseline does not name
/// adds nothing, nor does a table-like entry with `path` or `workspace`, nor
/// a value that is neither a string nor a table. An entry whose string
/// requirement, or whose table's string `version`, differs from the
/// baseline's gets an edit to the baseline requirement and a matching lock
/// update; one that equals it adds nothing. A table of a baseline package
/// without a string `version` is blocked as `DP301`.
pub open spec fn plan_entry(path: Seq<char>, rules: Rules, plan: PlanView, entry: DeclarationView) -> PlanView {
    let name = entry.0;
    let expected = rule_for(rules, name);
    if !has_rule_name(rules, name) || locally_sourced(entry) || other_value(entry) {
        plan
    } else {
        match editable_requirement(entry) {
            Some(current) => if current != expected {
                (plan.0.push((path, name, current, expected)), plan.1.push((name, expected)), plan.2)
            } else {
                plan
            },
            None => (
                plan.0,
                plan.1,
                plan.2.push(plain_violation("DP301"@, name, "external dependency has no version field"@)),
            ),
        }
    }
}

/// The plan for the entries of one table, added to `plan` in order.
pub open spec fn plan_entries(path: Seq<char>, rules: Rules, plan: PlanView, entries: Seq<DeclarationView>) -> PlanView
    decreases entries.len(),
{
    if entries.len() == 0 {
        plan
    } else {
        plan_entry(path, rules, plan_entries(path, rules, plan, entries.drop_last()), entries.last())
    }
}

/// The message for a manifest that does not parse.
pub open spec fn parse_failure(path: Seq<char>, error: Seq<char>) -> Seq<char> {
    "failed to parse "@ + path + ": "@ + error
}

/// The plan for the first `n` synchronized tables of a manifest, or the
/// message of the first table that cannot be read.
pub open spec fn manifest_plan_upto(path: Seq<char>, source: Seq<char>, rules: Rules, n: nat) -> Result<
    PlanView,
    Seq<char>,
>
    decreases n,
{
    if n == 0 {
        Ok(empty_plan())
    } else {
        match manifest_plan_upto(path, source, rules, (n - 1) as nat) {
            Err(message) => Err(message),
            Ok(plan) => match manifest_dependency_table(source, sync_tables()[n - 1]) {
                Err(error) => Err(parse_failure(path, error)),
                Ok(entries) => Ok(plan_entries(path, rules, plan, entries)),
            },
        }
    }
}

/// The plan for a manifest: its `[dependencies]`, `[dev-dependencies]` and
/// `[build-dependencies]` tables in that order.
pub open spec fn manifest_plan(path: Seq<char>, source: Seq<char>, rules: Rules) -> Result<PlanView, Seq<char>> {
    manifest_plan_upto(path, source, rules, 3)
}

/// The position of the first key of a table that is `key`, if any.
fn find_item(items: &Vec<(String, String, Option<String>)>, key: &str) -> (r: Option<usize>)
    ensures
        match r {
            Some(k) => k < items@.len() && item_named(item_views(items@), key@) == Some(item_views(items@)[k as int])
                && has_key(item_views(items@), key@),
            None => item_named(item_views(items@), key@) is None && !has_key(item_views(items@), key@),
        },
{
    let ghost views = item_views(items@);
    let mut i: usize = 0;
    assert(views.skip(0) =~= views);
    while i < items.len()
        invariant
            i <= items@.len(),
            views == item_views(items@),
            item_named(views, key@) == item_named(views.skip(i as int), key@),
            forall|j: int| 0 <= j < i ==> (#[trigger] views[j]).0 != key@,
        decreases items.len() - i,
    {
        let ghost rest = views.skip(i as int);
        assert(rest[0] == views[i as int]);
        if str_equal(items[i].0.as_str(), key) {
            assert(views[i as int].0 == key@);
            return Some(i);
        }
        assert(rest.skip(1) =~= views.skip(i + 1));
        i = i + 1;
    }
    assert(views.skip(i as int).len() == 0);
    None
}

/// Whether a table has `path` or `workspace`, and its string `version`.
fn table_shape(table: &TableDeclaration) -> (r: (bool, Option<&str>))
    ensures
        r.0 == (has_key(item_views(table.items@), path_key()) || has_key(item_views(table.items@), workspace_key())),
        match r.1 {
            Some(v) => string_value(item_views(table.items@), version_key()) == Some(v@),
            None => string_value(item_views(table.items@), version_key()) is None,
        },
{
    let path = "path";
    let workspace = "workspace";
    let version = "version";
    proof {
        reveal_strlit("path");
        reveal_strlit("workspace");
        reveal_strlit("version");
        assert(path@ =~= path_key());
        assert(workspace@ =~= workspace_key());
        assert(version@ =~= version_key());
    }
    let local = find_item(&table.items, path).is_some() || find_item(&table.items, workspace).is_some();
    let value = match find_item(&table.items, version) {
        Some(k) => match &table.items[k].2 {
            Some(v) => Some(v.as_str()),
            None => None,
        },
        None => None,
    };
    (local, value)
}

/// Whether an entry is left to its own source, whether it is neither a
/// string nor a table, and its editable requirement.
fn entry_shape(entry: &ManifestDeclaration) -> (r: (bool, bool, Option<&str>))
    ensures
        r.0 == locally_sourced(entry@),
        r.1 == other_value(entry@),
        match r.2 {
            Some(c) => editable_requirement(entry@) == Some(c@),
            None => editable_requirement(entry@) is None,
        },
{
    match &entry.requirement {
        Some(old) => (false, false, Some(old.as_str())),
        None => match &entry.table {
            Some(t) => {
                let (local, version) = table_shape(t);
                if local {
                    (true, false, None)
                } else {
                    (false, false, version)
                }
            },
            None => (false, true, None),
        },
    }
}

/// Adds the entries of one table to a plan.
fn plan_table(
    manifest_path: &str,
    entries: &Vec<ManifestDeclaration>,
    baseline: &Baseline,
    plan: &mut SyncPlan,
)
    requires
        baseline.wf(),
    ensures
        final(plan)@ == plan_entries(
            manifest_path@,
            baseline.direct(),
            old(plan)@,
            entries@.map_values(|e: ManifestDeclaration| e@),
        ),
{
    let ghost rules = baseline.direct();
    let ghost views = entries@.map_values(|e: ManifestDeclaration| e@);
    let ghost start = plan@;
    proof {
        lemma_sorted_unique(crate::baseline::entry_names(rules));
    }
    let mut i: usize = 0;
    while i < entries.len()
        invariant
            i <= entries.len(),
            rules == baseline.direct(),
            views == entries@.map_values(|e: ManifestDeclaration| e@),
            crate::baseline::names_unique(crate::baseline::entry_names(rules)),
            plan@ == plan_entries(manifest_path@, rules, start, views.take(i as int)),
        decreases entries.len() - i,
    {
        let entry = &entries[i];
        assert(views.take(i + 1).drop_last() =~= views.take(i as int));
        assert(views.take(i + 1).last() == entry@);
        if let Some(expected) = baseline.requirement(entry.name.as_str()) {
            proof {
                lemma_rule_for(rules, entry.name@, expected@);
            }
            let (local, other, current) = entry_shape(entry);
            if !local && !other {
                match current {
                    Some(old) => {
                        if !str_equal(old, expected.text()) {
                            add_edit(plan, manifest_path, entry.name.as_str(), old, expected.text());
                        }
                    },
                    None => {
                        let ghost blocked = plan.blocked@;
                        plan.blocked.push(
                            Violation {
                                code: "DP301",
                                crate_name: entry.name.clone(),
                                message: "external dependency has no version field".to_owned(),
                                exception_id: None,
                            },
                        );
                        assert(violation_views(plan.blocked@) =~= violation_views(blocked).push(
                            plan.blocked@.last()@,
                        ));
                    },
                }
            }
        }
        i = i + 1;
        assert(plan@ =~= plan_entries(manifest_path@, rules, start, views.take(i as int)));
    }
    assert(views.take(entries.len() as int) =~= views);
}

/// Adds one manifest replacement and its corresponding lock update.
fn add_edit(plan: &mut SyncPlan, path: &str, name: &str, current: &str, new: &str)
    ensures
        final(plan)@ == (
            old(plan)@.0.push((path@, name@, current@, new@)),
            old(plan)@.1.push((name@, new@)),
            old(plan)@.2,
        ),
{
    let ghost edits = plan.manifest_edits@;
    let ghost locks = plan.lock_updates@;
    plan.manifest_edits.push(
        FileEdit {
            path: path.to_owned(),
            dependency: name.to_owned(),
            old: current.to_owned(),
            new: new.to_owned(),
        },
    );
    plan.lock_updates.push(LockUpdate { package: name.to_owned(), version: new.to_owned() });
    assert(plan.manifest_edits@.map_values(|e: FileEdit| e@) =~= edits.map_values(|e: FileEdit| e@).push(
        (path@, name@, current@, new@),
    ));
    assert(plan.lock_updates@.map_values(|u: LockUpdate| u@) =~= locks.map_values(|u: LockUpdate| u@).push(
        (name@, new@),
    ));
}

/// The synchronized table at a position of [`sync_tables`].
fn sync_table(index: usize) -> (r: &'static str)
    requires
        index < 3,
    ensures
        r@ == sync_tables()[index as int],
{
    if index == 0 {
        "dependencies"
    } else if index == 1 {
        "dev-dependencies"
    } else {
        "build-dependencies"
    }
}

/// Plans safe direct-dependency version replacements in the standard
/// dependency tables of a manifest, given its path and text.
///
/// Entries named by the baseline get an edit to the baseline's requirement
/// when their string requirement, or the `version` of their inline table or
/// `[dependencies.<name>]` sub-table, differs from it; tables with `path` or
/// `workspace` are left alone, and any other entry of a baseline package
/// (a table without a `version`, or another kind of value) is blocked.
/// Fails with [`PolicyError::Sync`] when the manifest does not parse.
pub fn plan_manifest_sync(manifest_path: &str, source: &str, baseline: &Baseline) -> (r: Result<
    SyncPlan,
    PolicyError,
>)
    requires
        baseline.wf(),
    ensures
        r is Ok <==> manifest_plan(manifest_path@, source@, baseline.direct()) is Ok,
        r matches Ok(plan) ==> plan@ == manifest_plan(manifest_path@, source@, baseline.direct())->Ok_0,
        r matches Err(e) ==> e matches PolicyError::Sync { message } && message@ == manifest_plan(
            manifest_path@,
            source@,
            baseline.direct(),
        )->Err_0,
{
    let mut plan = SyncPlan { manifest_edits: Vec::new(), lock_updates: Vec::new(), blocked: Vec::new() };
    let ghost rules = baseline.direct();
    assert(plan@ =~= empty_plan());
    let mut t: usize = 0;
    while t < 3
        invariant
            t <= 3,
            rules == baseline.direct(),
            baseline.wf(),
            manifest_plan_upto(manifest_path@, source@, rules, t as nat) == Ok::<PlanView, Seq<char>>(plan@),
        decreases 3 - t,
    {
        let table = sync_table(t);
        match read_dependency_table(source, table) {
            Err(error) => {
                let mut message = String::new();
                message.append("failed to parse ");
                message.append(manifest_path);
                message.append(": ");
                message.append(error.as_str());
                proof {
                    lemma_plan_error_stays(manifest_path@, source@, rules, (t + 1) as nat);
                }
                return Err(PolicyError::Sync { message });
            },
            Ok(entries) => {
                plan_table(manifest_path, &entries, baseline, &mut plan);
            },
        }
        t = t + 1;
    }
    Ok(plan)
}

/// A table that cannot be read decides the error of the whole plan.
proof fn lemma_plan_error_stays(path: Seq<char>, source: Seq<char>, rules: Rules, n: nat)
    requires
        n <= 3,
        manifest_plan_upto(path, source, rules, n) is Err,
    ensures
        manifest_plan(path, source, rules) == manifest_plan_upto(path, source, rules, n),
    decreases 3 - n,
{
    if n < 3 {
        lemma_plan_error_stays(path, source, rules, n + 1);
    }
}

/// Refuses a plan that holds blocked changes.
pub fn check_plan_unblocked(plan: &SyncPlan) -> (r: Result<(), PolicyError>)
    ensures
        r is Ok <==> plan.blocked@.len() == 0,
        r matches Err(e) ==> e matches PolicyError::Sync { message } && message@
            == "sync plan contains blocked edits"@,
{
    if plan.blocked.len() > 0 {
        return Err(PolicyError::Sync { message: "sync plan contains blocked edits".to_owned() });
    }
    Ok(())
}

/// Setting one key of a table keeps whether it has any other key.
proof fn lemma_key_set_keeps(before: TableView, after: TableView, key: Seq<char>, value: Seq<char>, other: Seq<char>)
    requires
        key_set(before, after, key, value),
        other != key,
    ensures
        has_key(after, other) <==> has_key(before, other),
{
    if has_key(after, other) {
        let i = choose|i: int| 0 <= i < after.len() && (#[trigger] after[i]).0 == other;
        assert(after.contains(after[i]));
        assert(after.contains(after[i]) <==> before.contains(after[i]));
        let j = choose|j: int| 0 <= j < before.len() && before[j] == after[i];
        assert(before[j].0 == other);
    }
    if has_key(before, other) {
        let i = choose|i: int| 0 <= i < before.len() && (#[trigger] before[i]).0 == other;
        assert(before.contains(before[i]));
        assert(after.contains(before[i]) <==> before.contains(before[i]));
        let j = choose|j: int| 0 <= j < after.len() && after[j] == before[i];
        assert(after[j].0 == other);
    }
}

/// One synchronized table's step of applying an edit to a manifest's text:
/// the text after the step and whether the table declares the dependency in
/// a writable form; or the parse failure. A string entry that differs from
/// the edit's requirement is rewritten to it; a table without `path` or
/// `workspace` whose `version` is not the edit's requirement gets `version`
/// set to it (inserted when it has none). An entry that already declares the
/// requirement, and any other entry, leaves the text as it is.
pub open spec fn apply_step(edit: EditView, text: Seq<char>, table: Seq<char>) -> Result<(Seq<char>, bool), Seq<char>> {
    match manifest_dependency_table(text, table) {
        Err(error) => Err(parse_failure(edit.0, error)),
        Ok(entries) => match entry_named(entries, edit.1) {
            Some(entry) => if !writable(entry) {
                Ok((text, false))
            } else if editable_requirement(entry) == Some(edit.3) {
                Ok((text, true))
            } else if entry.1 is Some {
                Ok((manifest_with_string(text, table, edit.1, edit.3)->Ok_0->Some_0, true))
            } else {
                Ok((manifest_with_key(text, table, edit.1, version_key(), edit.3)->Ok_0->Some_0, true))
            },
            None => Ok((text, false)),
        },
    }
}

/// Applying an edit to the first `n` synchronized tables in order: the text
/// and whether some table declared the dependency writably, or the first
/// parse failure.
pub open spec fn edit_outcome_upto(edit: EditView, source: Seq<char>, n: nat) -> Result<(Seq<char>, bool), Seq<char>>
    decreases n,
{
    if n == 0 {
        Ok((source, false))
    } else {
        match edit_outcome_upto(edit, source, (n - 1) as nat) {
            Err(message) => Err(message),
            Ok((text, found)) => match apply_step(edit, text, sync_tables()[n - 1]) {
                Err(message) => Err(message),
                Ok((next, here)) => Ok((next, found || here)),
            },
        }
    }
}

/// What applying an edit to a manifest's text gives: the text with the
/// dependency's requirement written in every synchronized table that
/// declares it writably, or the message of the failure, when the manifest
/// does not parse or no table declares the dependency writably any more.
pub open spec fn edit_outcome(edit: EditView, source: Seq<char>) -> Result<Seq<char>, Seq<char>> {
    match edit_outcome_upto(edit, source, 3) {
        Err(message) => Err(message),
        Ok((text, found)) => if found {
            Ok(text)
        } else {
            Err("dependency "@ + edit.1 + " disappeared"@)
        },
    }
}

/// The position of the first entry named `name`, if any.
fn find_entry(entries: &Vec<ManifestDeclaration>, name: &str) -> (r: Option<usize>)
    ensures
        match r {
            Some(k) => k < entries@.len() && entry_named(entries@.map_values(|e: ManifestDeclaration| e@), name@)
                == Some(entries@[k as int]@),
            None => entry_named(entries@.map_values(|e: ManifestDeclaration| e@), name@) is None,
        },
{
    let ghost views = entries@.map_values(|e: ManifestDeclaration| e@);
    let mut i: usize = 0;
    assert(views.skip(0) =~= views);
    while i < entries.len()
        invariant
            i <= entries@.len(),
            views == entries@.map_values(|e: ManifestDeclaration| e@),
            entry_named(views, name@) == entry_named(views.skip(i as int), name@),
        decreases entries.len() - i,
    {
        let ghost rest = views.skip(i as int);
        assert(rest[0] == entries@[i as int]@);
        if str_equal(entries[i].name.as_str(), name) {
            return Some(i);
        }
        assert(rest.skip(1) =~= views.skip(i + 1));
        i = i + 1;
    }
    assert(views.skip(i as int).len() == 0);
    None
}

/// Whether a table of a manifest text parses and holds `dependency`, where it
/// declares it in an editable form, with `requirement`.
pub open spec fn edit_settled(text: Seq<char>, table: Seq<char>, dependency: Seq<char>, requirement: Seq<char>) -> bool {
    &&& manifest_dependency_table(text, table) is Ok
    &&& (entry_named(manifest_dependency_table(text, table)->Ok_0, dependency) matches Some(entry)
        ==> editable_requirement(entry) is None || editable_requirement(entry) == Some(requirement))
}

/// Whether every entry but `dependency` of a table reads the same in two
/// texts.
pub open spec fn others_kept(before: Seq<char>, after: Seq<char>, table: Seq<char>, dependency: Seq<char>) -> bool {
    forall|name: Seq<char>|
        name != dependency ==> #[trigger] entry_named(manifest_dependency_table(after, table)->Ok_0, name)
            == entry_named(manifest_dependency_table(before, table)->Ok_0, name)
}

/// How one table's entry for `dependency` changes when an edit to
/// `requirement` is applied: a [`writable`] entry now declares
/// `requirement` and is still writable; any other entry, or its absence,
/// stays as it was.
pub open spec fn entry_step(
    before: Seq<DeclarationView>,
    after: Seq<DeclarationView>,
    dependency: Seq<char>,
    requirement: Seq<char>,
) -> bool {
    if entry_named(before, dependency) matches Some(x) && writable(x) {
        entry_named(after, dependency) matches Some(y) && (y.0 == dependency && editable_requirement(y) == Some(
            requirement,
        ) && !locally_sourced(y))
    } else {
        entry_named(after, dependency) == entry_named(before, dependency)
    }
}

/// Applies one table's step of an edit: the executable form of
/// [`apply_step`].
fn apply_table(edit: &FileEdit, text: String, table: &str) -> (r: Result<(String, bool), PolicyError>)
    ensures
        match apply_step(edit@, text@, table@) {
            Ok((next, found)) => r matches Ok((t, f)) && t@ == next && f == found,
            Err(message) => r matches Err(e) && e matches PolicyError::Sync { message: m } && m@ == message,
        },
        r matches Ok((t, f)) ==> edit_settled(t@, table@, edit.dependency@, edit.new@) && others_kept(
            text@,
            t@,
            table@,
            edit.dependency@,
        ) && manifest_dependency_table(text@, table@) is Ok && names_unique(
            entry_names_of(manifest_dependency_table(t@, table@)->Ok_0),
        ) && entry_step(
            manifest_dependency_table(text@, table@)->Ok_0,
            manifest_dependency_table(t@, table@)->Ok_0,
            edit.dependency@,
            edit.new@,
        ) && forall|other: Seq<char>|
            other != table@ ==> #[trigger] manifest_dependency_table(t@, other) == manifest_dependency_table(
                text@,
                other,
            ),
{
    let entries = match read_dependency_table(text.as_str(), table) {
        Ok(entries) => entries,
        Err(error) => {
            let mut message = String::new();
            message.append("failed to parse ");
            message.append(edit.path.as_str());
            message.append(": ");
            message.append(error.as_str());
            return Err(PolicyError::Sync { message });
        },
    };
    let ghost views = entries@.map_values(|e: ManifestDeclaration| e@);
    assert(entry_names_of(views) =~= entries@.map_values(|e: ManifestDeclaration| e@.0));
    let k = match find_entry(&entries, edit.dependency.as_str()) {
        Some(k) => k,
        None => {
            return Ok((text, false));
        },
    };
    let entry = &entries[k];
    assert(views[k as int] == entry@);
    proof {
        lemma_entry_named_name(views, edit.dependency@);
    }
    let new = edit.new.as_str();
    match &entry.requirement {
        Some(current) => {
            if str_equal(current.as_str(), new) {
                return Ok((text, true));
            }
            match set_string_requirement(text.as_str(), table, edit.dependency.as_str(), new) {
                Ok(Some(next)) => Ok((next, true)),
                _ => {
                    assert(false);
                    Ok((text, true))
                },
            }
        },
        None => match &entry.table {
            Some(t) => {
                let (local, current) = table_shape(t);
                if local {
                    return Ok((text, false));
                }
                if let Some(current) = current {
                    if str_equal(current, new) {
                        return Ok((text, true));
                    }
                }
                let version = "version";
                proof {
                    reveal_strlit("version");
                    assert(version@ =~= version_key());
                }
                match set_table_key(text.as_str(), table, edit.dependency.as_str(), version, new) {
                    Ok(Some(next)) => {
                        proof {
                            let before = entry_named(views, edit.dependency@)->Some_0.2->Some_0;
                            let after_entry = entry_named(
                                manifest_dependency_table(next@, table@)->Ok_0,
                                edit.dependency@,
                            )->Some_0;
                            let after = after_entry.2->Some_0;
                            lemma_key_set_keeps(before, after, version_key(), new@, path_key());
                            lemma_key_set_keeps(before, after, version_key(), new@, workspace_key());
                        }
                        Ok((next, true))
                    },
                    _ => {
                        assert(false);
                        Ok((text, true))
                    },
                }
            },
            None => Ok((text, false)),
        },
    }
}

/// What applying an edit did to one table of a manifest: the table parsed
/// before and parses after, its keys distinct, and its entry for the
/// dependency changed as [`entry_step`] says.
pub open spec fn edit_applied(
    source: Seq<char>,
    text: Seq<char>,
    table: Seq<char>,
    dependency: Seq<char>,
    requirement: Seq<char>,
) -> bool {
    &&& manifest_dependency_table(source, table) is Ok
    &&& manifest_dependency_table(text, table) is Ok
    &&& names_unique(entry_names_of(manifest_dependency_table(text, table)->Ok_0))
    &&& entry_step(
        manifest_dependency_table(source, table)->Ok_0,
        manifest_dependency_table(text, table)->Ok_0,
        dependency,
        requirement,
    )
}

/// Applies one planned edit to the text of its manifest, writing the new
/// requirement into every synchronized table that declares the dependency
/// as a string, or as a table without `path` or `workspace`, whose `version`
/// is set (inserted when it has none).
///
/// Fails with [`PolicyError::Sync`] when the manifest does not parse or no
/// such declaration of the dependency is left.
pub fn apply_edit(edit: &FileEdit, source: &str) -> (r: Result<String, PolicyError>)
    ensures
        r is Ok <==> edit_outcome(edit@, source@) is Ok,
        r matches Ok(text) ==> text@ == edit_outcome(edit@, source@)->Ok_0,
        r matches Err(e) ==> e matches PolicyError::Sync { message } && message@ == edit_outcome(
            edit@,
            source@,
        )->Err_0,
        r matches Ok(text) ==> forall|j: int|
            0 <= j < 3 ==> edit_settled(text@, #[trigger] sync_tables()[j], edit.dependency@, edit.new@)
                && others_kept(source@, text@, sync_tables()[j], edit.dependency@) && edit_applied(
                source@,
                text@,
                sync_tables()[j],
                edit.dependency@,
                edit.new@,
            ),
{
    let mut text = source.to_owned();
    let mut found = false;
    let mut t: usize = 0;
    proof {
        lemma_sync_tables_distinct();
    }
    while t < 3
        invariant
            t <= 3,
            edit_outcome_upto(edit@, source@, t as nat) == Ok::<(Seq<char>, bool), Seq<char>>((text@, found)),
            forall|i: int, j: int| 0 <= i < j < 3 ==> sync_tables()[i] != sync_tables()[j],
            forall|j: int|
                0 <= j < t ==> edit_settled(text@, #[trigger] sync_tables()[j], edit.dependency@, edit.new@)
                    && others_kept(source@, text@, sync_tables()[j], edit.dependency@) && edit_applied(
                    source@,
                    text@,
                    sync_tables()[j],
                    edit.dependency@,
                    edit.new@,
                ),
            forall|j: int|
                t <= j < 3 ==> manifest_dependency_table(text@, #[trigger] sync_tables()[j])
                    == manifest_dependency_table(source@, sync_tables()[j]),
        decreases 3 - t,
    {
        let table = sync_table(t);
        let ghost before = text@;
        match apply_table(edit, text, table) {
            Ok((next, here)) => {
                proof {
                    assert forall|j: int| 0 <= j < t + 1 implies edit_settled(
                        next@,
                        #[trigger] sync_tables()[j],
                        edit.dependency@,
                        edit.new@,
                    ) && others_kept(source@, next@, sync_tables()[j], edit.dependency@) && edit_applied(
                        source@,
                        next@,
                        sync_tables()[j],
                        edit.dependency@,
                        edit.new@,
                    ) by {
                        if j < t {
                            assert(sync_tables()[j] != table@);
                            assert(manifest_dependency_table(next@, sync_tables()[j]) == manifest_dependency_table(
                                before,
                                sync_tables()[j],
                            ));
                        } else {
                            assert(manifest_dependency_table(before, table@) == manifest_dependency_table(
                                source@,
                                table@,
                            ));
                        }
                    }
                    assert forall|j: int| t + 1 <= j < 3 implies manifest_dependency_table(
                        next@,
                        #[trigger] sync_tables()[j],
                    ) == manifest_dependency_table(source@, sync_tables()[j]) by {
                        assert(sync_tables()[j] != table@);
                        assert(manifest_dependency_table(next@, sync_tables()[j]) == manifest_dependency_table(
                            before,
                            sync_tables()[j],
                        ));
                    }
                }
                text = next;
                found = found || here;
            },
            Err(error) => {
                proof {
                    lemma_edit_outcome_stays(edit@, source@, (t + 1) as nat);
                }
                return Err(error);
            },
        }
        t = t + 1;
    }
    if found {
        Ok(text)
    } else {
        let mut message = String::new();
        message.append("dependency ");
        message.append(edit.dependency.as_str());
        message.append(" disappeared");
        Err(PolicyError::Sync { message })
    }
}

/// The synchronized tables are three different tables.
proof fn lemma_sync_tables_distinct()
    ensures
        forall|i: int, j: int| 0 <= i < j < 3 ==> sync_tables()[i] != sync_tables()[j],
{
    reveal_strlit("dependencies");
    reveal_strlit("dev-dependencies");
    reveal_strlit("build-dependencies");
    assert("dependencies"@.len() != "dev-dependencies"@.len());
    assert("dependencies"@.len() != "build-dependencies"@.len());
    assert("dev-dependencies"@.len() != "build-dependencies"@.len());
}

/// Once an edit fails at some table, later tables leave the failure.
proof fn lemma_edit_outcome_stays(edit: EditView, source: Seq<char>, n: nat)
    requires
        n <= 3,
        edit_outcome_upto(edit, source, n) is Err,
    ensures
        edit_outcome_upto(edit, source, 3) == edit_outcome_upto(edit, source, n),
    decreases 3 - n,
{
    if n < 3 {
        lemma_edit_outcome_stays(edit, source, n + 1);
    }
}

// ---------------------------------------------------------------------------
// Laws
// ---------------------------------------------------------------------------

/// A plan that only moves declarations to the baseline: every edit is in the
/// manifest at `path`, for a package the baseline names, replacing a
/// different requirement by the baseline's, with a lock update for the same
/// package and requirement at the same position; and every blocked change is
/// a `DP301` for a package the baseline names.
pub open spec fn plan_follows_baseline(path: Seq<char>, rules: Rules, plan: PlanView) -> bool {
    &&& plan.1.len() == plan.0.len()
    &&& forall|i: int|
        0 <= i < plan.0.len() ==> {
            let edit = #[trigger] plan.0[i];
            &&& plan.1[i] == (edit.1, edit.3)
            &&& edit.0 == path
            &&& has_rule_name(rules, edit.1)
            &&& edit.3 == rule_for(rules, edit.1)
            &&& edit.2 != edit.3
        }
    &&& forall|i: int|
        0 <= i < plan.2.len() ==> (#[trigger] plan.2[i]).0 == "DP301"@ && has_rule_name(rules, plan.2[i].1)
}

/// Planning table entries keeps a plan following the baseline.
proof fn lemma_plan_entries_follow(path: Seq<char>, rules: Rules, plan: PlanView, entries: Seq<DeclarationView>)
    requires
        plan_follows_baseline(path, rules, plan),
    ensures
        plan_follows_baseline(path, rules, plan_entries(path, rules, plan, entries)),
    decreases entries.len(),
{
    if entries.len() > 0 {
        lemma_plan_entries_follow(path, rules, plan, entries.drop_last());
        let p = plan_entries(path, rules, plan, entries.drop_last());
        let q = plan_entries(path, rules, plan, entries);
        assert(q == plan_entry(path, rules, p, entries.last()));
        assert forall|i: int| 0 <= i < q.0.len() implies {
            let edit = #[trigger] q.0[i];
            &&& q.1[i] == (edit.1, edit.3)
            &&& edit.0 == path
            &&& has_rule_name(rules, edit.1)
            &&& edit.3 == rule_for(rules, edit.1)
            &&& edit.2 != edit.3
        } by {
            if i < p.0.len() {
                assert(q.0[i] == p.0[i]);
                assert(q.1[i] == p.1[i]);
            }
        }
        assert forall|i: int| 0 <= i < q.2.len() implies (#[trigger] q.2[i]).0 == "DP301"@ && has_rule_name(
            rules,
            q.2[i].1,
        ) by {
            if i < p.2.len() {
                assert(q.2[i] == p.2[i]);
            }
        }
    }
}

/// Every plan for a manifest follows the baseline.
pub proof fn lemma_manifest_plan_follows_baseline(path: Seq<char>, source: Seq<char>, rules: Rules)
    ensures
        manifest_plan(path, source, rules) matches Ok(plan) ==> plan_follows_baseline(path, rules, plan),
{
    lemma_plan_upto_follows(path, source, rules, 3);
}

proof fn lemma_plan_upto_follows(path: Seq<char>, source: Seq<char>, rules: Rules, n: nat)
    ensures
        manifest_plan_upto(path, source, rules, n) matches Ok(plan) ==> plan_follows_baseline(path, rules, plan),
    decreases n,
{
    if n > 0 {
        lemma_plan_upto_follows(path, source, rules, (n - 1) as nat);
        if let Ok(plan) = manifest_plan_upto(path, source, rules, (n - 1) as nat) {
            if let Ok(entries) = manifest_dependency_table(source, sync_tables()[n - 1]) {
                lemma_plan_entries_follow(path, rules, plan, entries);
            }
        }
    } else {
        assert(plan_follows_baseline(path, rules, empty_plan()));
    }
}

/// An entry the baseline does not name, one declared by path or workspace,
/// a value that is neither a string nor a table, and one that already
/// declares the baseline's requirement add nothing to a plan.
pub proof fn lemma_settled_entry_unplanned(path: Seq<char>, rules: Rules, plan: PlanView, entry: DeclarationView)
    requires
        quiet_entry(rules, entry),
    ensures
        plan_entry(path, rules, plan, entry) == plan,
{
}

/// No other entry of a baseline package is skipped: it gets an edit to the
/// baseline's requirement, with its lock update, or a `DP301` blocked
/// change.
pub proof fn lemma_unsettled_entry_planned(path: Seq<char>, rules: Rules, plan: PlanView, entry: DeclarationView)
    requires
        !quiet_entry(rules, entry),
    ensures
        ({
            let next = plan_entry(path, rules, plan, entry);
            ||| editable_requirement(entry) matches Some(current) && next == (
                plan.0.push((path, entry.0, current, rule_for(rules, entry.0))),
                plan.1.push((entry.0, rule_for(rules, entry.0))),
                plan.2,
            )
            ||| editable_requirement(entry) is None && next == (
                plan.0,
                plan.1,
                plan.2.push(plain_violation("DP301"@, entry.0, "external dependency has no version field"@)),
            )
        }),
{
}

/// Once an edit has been applied, planning again edits its dependency in no
/// synchronized table: under a baseline whose rule for the dependency is the
/// edit's requirement, the entry that [`apply_edit`] leaves in each table
/// adds no edit to a plan.
pub proof fn lemma_applied_edit_plans_no_edit(
    path: Seq<char>,
    rules: Rules,
    plan: PlanView,
    text: Seq<char>,
    table: Seq<char>,
    edit: EditView,
)
    requires
        edit_settled(text, table, edit.1, edit.3),
        has_rule_name(rules, edit.1),
        rule_for(rules, edit.1) == edit.3,
    ensures
        entry_named(manifest_dependency_table(text, table)->Ok_0, edit.1) matches Some(entry) ==> plan_entry(
            path,
            rules,
            plan,
            entry,
        ).0 == plan.0,
{
    if entry_named(manifest_dependency_table(text, table)->Ok_0, edit.1) is Some {
        lemma_entry_named_name(manifest_dependency_table(text, table)->Ok_0, edit.1);
    }
}

/// The entry found for a name carries that name.
proof fn lemma_entry_named_name(entries: Seq<DeclarationView>, name: Seq<char>)
    ensures
        entry_named(entries, name) matches Some(entry) ==> entry.0 == name,
    decreases entries.len(),
{
    if entries.len() > 0 && entries[0].0 != name {
        lemma_entry_named_name(entries.skip(1), name);
    }
}

// ---------------------------------------------------------------------------
// Applying a whole plan
// ---------------------------------------------------------------------------

/// The text after applying edits in order, or the first failure.
pub open spec fn edits_outcome(edits: Seq<EditView>, source: Seq<char>) -> Result<Seq<char>, Seq<char>>
    decreases edits.len(),
{
    if edits.len() == 0 {
        Ok(source)
    } else {
        match edits_outcome(edits.drop_last(), source) {
            Err(message) => Err(message),
            Ok(text) => edit_outcome(edits.last(), text),
        }
    }
}

/// What applying a plan to a manifest's text gives: a plan with blocked
/// changes is refused; otherwise its edits are applied in order.
pub open spec fn plan_outcome(plan: PlanView, source: Seq<char>) -> Result<Seq<char>, Seq<char>> {
    if plan.2.len() > 0 {
        Err("sync plan contains blocked edits"@)
    } else {
        edits_outcome(plan.0, source)
    }
}

/// A plan result with nothing left to do: no edit and no blocked change.
pub open spec fn nothing_to_sync(result: Result<PlanView, Seq<char>>) -> bool {
    result matches Ok(plan) && (plan.0.len() == 0 && plan.2.len() == 0)
}

/// The requirement of the last of the edits for `name`, if any.
pub open spec fn latest_requirement(edits: Seq<EditView>, name: Seq<char>) -> Option<Seq<char>>
    decreases edits.len(),
{
    if edits.len() == 0 {
        None
    } else if edits.last().1 == name {
        Some(edits.last().3)
    } else {
        latest_requirement(edits.drop_last(), name)
    }
}

/// How a table's entry for `name` stands after some edits were applied: an
/// entry that was [`writable`] and that an edit named now declares the last
/// such edit's requirement and is still writable; any other entry is as it
/// was.
pub open spec fn entry_kept_up(before: Seq<DeclarationView>, after: Seq<DeclarationView>, name: Seq<char>, edits: Seq<EditView>) -> bool {
    if latest_requirement(edits, name) is Some && (entry_named(before, name) matches Some(x) && writable(x)) {
        entry_named(after, name) matches Some(y) && (y.0 == name && editable_requirement(y)
            == latest_requirement(edits, name) && !locally_sourced(y))
    } else {
        entry_named(after, name) == entry_named(before, name)
    }
}

/// Whether every entry of a table of `text` stands against `source` as
/// [`entry_kept_up`] says after `edits`.
pub open spec fn table_kept_up(source: Seq<char>, text: Seq<char>, table: Seq<char>, edits: Seq<EditView>) -> bool {
    forall|name: Seq<char>|
        #[trigger] entry_kept_up(
            manifest_dependency_table(source, table)->Ok_0,
            manifest_dependency_table(text, table)->Ok_0,
            name,
            edits,
        )
}

/// One more applied edit keeps every entry kept up.
proof fn lemma_kept_up_step(
    before: Seq<DeclarationView>,
    current: Seq<DeclarationView>,
    next: Seq<DeclarationView>,
    name: Seq<char>,
    edits: Seq<EditView>,
    edit: EditView,
)
    requires
        entry_kept_up(before, current, name, edits),
        entry_step(current, next, edit.1, edit.3),
        name != edit.1 ==> entry_named(next, name) == entry_named(current, name),
    ensures
        entry_kept_up(before, next, name, edits.push(edit)),
{
    assert(edits.push(edit).drop_last() =~= edits);
    assert(edits.push(edit).last() == edit);
    if name == edit.1 {
        lemma_entry_named_name(current, name);
        lemma_entry_named_name(before, name);
    }
}

/// Once edits fail, more edits leave the failure.
proof fn lemma_edits_error_stays(edits: Seq<EditView>, source: Seq<char>, n: int)
    requires
        0 <= n <= edits.len(),
        edits_outcome(edits.take(n), source) is Err,
    ensures
        edits_outcome(edits, source) == edits_outcome(edits.take(n), source),
    decreases edits.len() - n,
{
    if n < edits.len() {
        assert(edits.take(n + 1).drop_last() =~= edits.take(n));
        lemma_edits_error_stays(edits, source, n + 1);
    } else {
        assert(edits.take(n) =~= edits);
    }
}

/// The entry found for the name of an entry of a table with distinct names
/// is that entry.
proof fn lemma_entry_named_unique(entries: Seq<DeclarationView>, i: int)
    requires
        names_unique(entry_names_of(entries)),
        0 <= i < entries.len(),
    ensures
        entry_named(entries, entries[i].0) == Some(entries[i]),
    decreases entries.len(),
{
    if i > 0 {
        let rest = entries.skip(1);
        assert(entry_names_of(entries)[0] == entries[0].0);
        assert(entry_names_of(entries)[i] == entries[i].0);
        assert forall|a: int, b: int| 0 <= a < b < rest.len() implies entry_names_of(rest)[a]
            != entry_names_of(rest)[b] by {
            assert(entry_names_of(rest)[a] == entry_names_of(entries)[a + 1]);
            assert(entry_names_of(rest)[b] == entry_names_of(entries)[b + 1]);
        }
        assert(rest[i - 1] == entries[i]);
        lemma_entry_named_unique(rest, i - 1);
    }
}

/// The entry found for a name is one of the entries.
proof fn lemma_entry_named_in(entries: Seq<DeclarationView>, name: Seq<char>)
    ensures
        entry_named(entries, name) matches Some(x) ==> exists|k: int| 0 <= k < entries.len() && entries[k] == x,
    decreases entries.len(),
{
    if entries.len() > 0 && entries[0].0 != name {
        lemma_entry_named_in(entries.skip(1), name);
        if let Some(x) = entry_named(entries, name) {
            let k = choose|k: int| 0 <= k < entries.skip(1).len() && entries.skip(1)[k] == x;
            assert(entries[k + 1] == x);
        }
    } else if entries.len() > 0 {
        assert(entries[0] == entries[0]);
    }
}

/// Whether some edit is for `name`.
pub open spec fn edits_name(edits: Seq<EditView>, name: Seq<char>) -> bool {
    exists|i: int| 0 <= i < edits.len() && (#[trigger] edits[i]).1 == name
}

/// An edit for a name gives it a latest requirement, which some edit for it
/// carries.
proof fn lemma_latest_requirement(edits: Seq<EditView>, name: Seq<char>)
    ensures
        edits_name(edits, name) ==> latest_requirement(edits, name) is Some,
        latest_requirement(edits, name) matches Some(req) ==> exists|i: int|
            0 <= i < edits.len() && (#[trigger] edits[i]).1 == name && edits[i].3 == req,
    decreases edits.len(),
{
    if edits.len() > 0 {
        let rest = edits.drop_last();
        lemma_latest_requirement(rest, name);
        if edits.last().1 != name {
            if edits_name(edits, name) {
                let i = choose|i: int| 0 <= i < edits.len() && (#[trigger] edits[i]).1 == name;
                assert(i < rest.len());
                assert(rest[i] == edits[i]);
            }
            if let Some(req) = latest_requirement(edits, name) {
                let i = choose|i: int| 0 <= i < rest.len() && (#[trigger] rest[i]).1 == name && rest[i].3 == req;
                assert(edits[i] == rest[i]);
            }
        } else {
            assert(edits[edits.len() - 1] == edits.last());
        }
    }
}

/// Whether an entry adds nothing to a plan.
pub open spec fn quiet_entry(rules: Rules, entry: DeclarationView) -> bool {
    !has_rule_name(rules, entry.0) || locally_sourced(entry) || other_value(entry) || editable_requirement(entry)
        == Some(rule_for(rules, entry.0))
}

/// A plan only grows as entries are planned: its edits keep the edits for
/// every name, and its blocked changes do not shrink.
proof fn lemma_plan_entries_grow(path: Seq<char>, rules: Rules, plan: PlanView, entries: Seq<DeclarationView>, name: Seq<char>)
    ensures
        edits_name(plan.0, name) ==> edits_name(plan_entries(path, rules, plan, entries).0, name),
        plan_entries(path, rules, plan, entries).2.len() >= plan.2.len(),
    decreases entries.len(),
{
    if entries.len() > 0 {
        lemma_plan_entries_grow(path, rules, plan, entries.drop_last(), name);
        let q = plan_entries(path, rules, plan, entries.drop_last());
        let next = plan_entries(path, rules, plan, entries);
        if edits_name(q.0, name) {
            let i = choose|i: int| 0 <= i < q.0.len() && (#[trigger] q.0[i]).1 == name;
            assert(next.0[i] == q.0[i]);
        }
    }
}

/// An entry that is not quiet leaves its mark on the plan of its table: an
/// edit for its name, or a blocked change.
proof fn lemma_plan_entries_record(path: Seq<char>, rules: Rules, plan: PlanView, entries: Seq<DeclarationView>, k: int)
    requires
        0 <= k < entries.len(),
        !quiet_entry(rules, entries[k]),
    ensures
        editable_requirement(entries[k]) is Some ==> edits_name(
            plan_entries(path, rules, plan, entries).0,
            entries[k].0,
        ),
        editable_requirement(entries[k]) is None ==> plan_entries(path, rules, plan, entries).2.len() > 0,
    decreases entries.len(),
{
    let q = plan_entries(path, rules, plan, entries.drop_last());
    let next = plan_entries(path, rules, plan, entries);
    if k == entries.len() - 1 {
        assert(entries.last() == entries[k]);
        if editable_requirement(entries[k]) is Some {
            assert(next.0[q.0.len() as int].1 == entries[k].0);
        }
    } else {
        assert(entries.drop_last()[k] == entries[k]);
        lemma_plan_entries_record(path, rules, plan, entries.drop_last(), k);
        if edits_name(q.0, entries[k].0) {
            let i = choose|i: int| 0 <= i < q.0.len() && (#[trigger] q.0[i]).1 == entries[k].0;
            assert(next.0[i] == q.0[i]);
        }
    }
}

/// The plans of later tables keep what the plans of earlier tables hold.
proof fn lemma_plan_upto_grow(path: Seq<char>, source: Seq<char>, rules: Rules, j: nat, n: nat, name: Seq<char>)
    requires
        j <= n <= 3,
        manifest_plan_upto(path, source, rules, n) is Ok,
    ensures
        manifest_plan_upto(path, source, rules, j) is Ok,
        edits_name(manifest_plan_upto(path, source, rules, j)->Ok_0.0, name) ==> edits_name(
            manifest_plan_upto(path, source, rules, n)->Ok_0.0,
            name,
        ),
        manifest_plan_upto(path, source, rules, n)->Ok_0.2.len() >= manifest_plan_upto(
            path,
            source,
            rules,
            j,
        )->Ok_0.2.len(),
    decreases n - j,
{
    if j < n {
        lemma_plan_upto_grow(path, source, rules, j, (n - 1) as nat, name);
        let p = manifest_plan_upto(path, source, rules, (n - 1) as nat)->Ok_0;
        let entries = manifest_dependency_table(source, sync_tables()[n - 1])->Ok_0;
        lemma_plan_entries_grow(path, rules, p, entries, name);
    }
}

/// Every entry of every synchronized table of a planned manifest that is
/// not quiet leaves its mark on the manifest's plan.
proof fn lemma_manifest_plan_records(path: Seq<char>, source: Seq<char>, rules: Rules, j: int, k: int)
    requires
        manifest_plan(path, source, rules) is Ok,
        0 <= j < 3,
        manifest_dependency_table(source, sync_tables()[j]) is Ok,
        0 <= k < manifest_dependency_table(source, sync_tables()[j])->Ok_0.len(),
        !quiet_entry(rules, manifest_dependency_table(source, sync_tables()[j])->Ok_0[k]),
    ensures
        ({
            let entry = manifest_dependency_table(source, sync_tables()[j])->Ok_0[k];
            let plan = manifest_plan(path, source, rules)->Ok_0;
            &&& editable_requirement(entry) is Some ==> edits_name(plan.0, entry.0)
            &&& editable_requirement(entry) is None ==> plan.2.len() > 0
        }),
{
    let entries = manifest_dependency_table(source, sync_tables()[j])->Ok_0;
    let entry = entries[k];
    lemma_plan_upto_grow(path, source, rules, (j + 1) as nat, 3, entry.0);
    lemma_plan_upto_grow(path, source, rules, j as nat, 3, entry.0);
    let p = manifest_plan_upto(path, source, rules, j as nat)->Ok_0;
    assert(manifest_plan_upto(path, source, rules, (j + 1) as nat) == Ok::<PlanView, Seq<char>>(
        plan_entries(path, rules, p, entries),
    ));
    lemma_plan_entries_record(path, rules, p, entries, k);
}

/// Quiet entries leave a plan as it is.
proof fn lemma_quiet_entries(path: Seq<char>, rules: Rules, plan: PlanView, entries: Seq<DeclarationView>)
    requires
        forall|k: int| 0 <= k < entries.len() ==> quiet_entry(rules, #[trigger] entries[k]),
    ensures
        plan_entries(path, rules, plan, entries) == plan,
    decreases entries.len(),
{
    if entries.len() > 0 {
        assert forall|k: int| 0 <= k < entries.drop_last().len() implies quiet_entry(
            rules,
            #[trigger] entries.drop_last()[k],
        ) by {
            assert(entries.drop_last()[k] == entries[k]);
        }
        lemma_quiet_entries(path, rules, plan, entries.drop_last());
        assert(entries.last() == entries[entries.len() - 1]);
        lemma_settled_entry_unplanned(path, rules, plan, entries.last());
    }
}

/// A manifest whose synchronized tables parse and hold only quiet entries
/// plans nothing.
proof fn lemma_quiet_manifest(path: Seq<char>, text: Seq<char>, rules: Rules, n: nat)
    requires
        n <= 3,
        forall|j: int|
            0 <= j < 3 ==> manifest_dependency_table(text, #[trigger] sync_tables()[j]) is Ok && forall|k: int|
                0 <= k < manifest_dependency_table(text, sync_tables()[j])->Ok_0.len() ==> quiet_entry(
                    rules,
                    #[trigger] manifest_dependency_table(text, sync_tables()[j])->Ok_0[k],
                ),
    ensures
        manifest_plan_upto(path, text, rules, n) == Ok::<PlanView, Seq<char>>(empty_plan()),
    decreases n,
{
    if n > 0 {
        lemma_quiet_manifest(path, text, rules, (n - 1) as nat);
        let j = n - 1;
        assert(manifest_dependency_table(text, sync_tables()[j]) is Ok);
        lemma_quiet_entries(path, rules, empty_plan(), manifest_dependency_table(text, sync_tables()[j])->Ok_0);
    }
}

/// After every edit of an unblocked plan has been applied, planning the
/// manifest again under the same baseline finds nothing to do.
proof fn lemma_replan_quiet(path: Seq<char>, source: Seq<char>, text: Seq<char>, rules: Rules, plan: PlanView)
    requires
        manifest_plan(path, source, rules) == Ok::<PlanView, Seq<char>>(plan),
        plan.2.len() == 0,
        forall|j: int|
            0 <= j < 3 ==> manifest_dependency_table(text, #[trigger] sync_tables()[j]) is Ok && names_unique(
                entry_names_of(manifest_dependency_table(text, sync_tables()[j])->Ok_0),
            ) && table_kept_up(source, text, sync_tables()[j], plan.0),
    ensures
        nothing_to_sync(manifest_plan(path, text, rules)),
{
    lemma_manifest_plan_follows_baseline(path, source, rules);
    assert forall|j: int|
        0 <= j < 3 implies manifest_dependency_table(text, #[trigger] sync_tables()[j]) is Ok && forall|k: int|
            0 <= k < manifest_dependency_table(text, sync_tables()[j])->Ok_0.len() ==> quiet_entry(
                rules,
                #[trigger] manifest_dependency_table(text, sync_tables()[j])->Ok_0[k],
            ) by {
        let table = sync_tables()[j];
        let after = manifest_dependency_table(text, table)->Ok_0;
        let before = manifest_dependency_table(source, table)->Ok_0;
        assert forall|k: int| 0 <= k < after.len() implies quiet_entry(rules, #[trigger] after[k]) by {
            let x = after[k];
            let name = x.0;
            lemma_entry_named_unique(after, k);
            assert(entry_kept_up(before, after, name, plan.0));
            if latest_requirement(plan.0, name) is Some && (entry_named(before, name) matches Some(b)
                && writable(b)) {
                lemma_latest_requirement(plan.0, name);
                let req = latest_requirement(plan.0, name)->Some_0;
                let i = choose|i: int| 0 <= i < plan.0.len() && (#[trigger] plan.0[i]).1 == name && plan.0[i].3 == req;
                assert(has_rule_name(rules, plan.0[i].1));
            } else {
                if !quiet_entry(rules, x) {
                    assert(entry_named(before, name) == Some(x));
                    lemma_entry_named_in(before, name);
                    lemma_plan_upto_grow(path, source, rules, (j + 1) as nat, 3, name);
                    assert(manifest_dependency_table(source, table) is Ok);
                    let kb = choose|kb: int| 0 <= kb < before.len() && before[kb] == x;
                    lemma_manifest_plan_records(path, source, rules, j, kb);
                    lemma_latest_requirement(plan.0, name);
                }
            }
        }
    }
    lemma_quiet_manifest(path, text, rules, 3);
}

/// Applies every edit of a sync plan to the text of its manifest, in order,
/// giving the text to write back.
///
/// A plan with blocked changes is refused with [`PolicyError::Sync`], as is
/// an edit that [`apply_edit`] refuses. After every edit of a plan that
/// [`plan_manifest_sync`] made for this text has been applied, planning the
/// result again under the same baseline finds no edit and no blocked change.
pub fn apply_plan(plan: &SyncPlan, source: &str) -> (r: Result<String, PolicyError>)
    ensures
        r is Ok <==> plan_outcome(plan@, source@) is Ok,
        r matches Ok(text) ==> text@ == plan_outcome(plan@, source@)->Ok_0,
        r matches Err(e) ==> e matches PolicyError::Sync { message } && message@ == plan_outcome(
            plan@,
            source@,
        )->Err_0,
        r matches Ok(text) ==> forall|path: Seq<char>, rules: Rules|
            #![trigger manifest_plan(path, text@, rules)]
            manifest_plan(path, source@, rules) == Ok::<PlanView, Seq<char>>(plan@) ==> nothing_to_sync(
                manifest_plan(path, text@, rules),
            ),
{
    check_plan_unblocked(plan)?;
    let ghost edits = plan@.0;
    let mut text = source.to_owned();
    let mut k: usize = 0;
    proof {
        lemma_sync_tables_distinct();
        assert(edits.take(0) =~= Seq::<EditView>::empty());
    }
    while k < plan.manifest_edits.len()
        invariant
            edits == plan@.0,
            plan@.2.len() == 0,
            k <= edits.len(),
            edits.len() == plan.manifest_edits@.len(),
            edits_outcome(edits.take(k as int), source@) == Ok::<Seq<char>, Seq<char>>(text@),
            k == 0 ==> text@ == source@,
            k > 0 ==> forall|j: int|
                0 <= j < 3 ==> manifest_dependency_table(text@, #[trigger] sync_tables()[j]) is Ok
                    && names_unique(entry_names_of(manifest_dependency_table(text@, sync_tables()[j])->Ok_0)),
            forall|j: int| 0 <= j < 3 ==> table_kept_up(source@, text@, #[trigger] sync_tables()[j], edits.take(k as int)),
        decreases plan.manifest_edits.len() - k,
    {
        let edit = &plan.manifest_edits[k];
        assert(edits[k as int] == edit@);
        assert(edits.take(k + 1).drop_last() =~= edits.take(k as int));
        assert(edits.take(k + 1).last() == edit@);
        let next = match apply_edit(edit, text.as_str()) {
            Ok(next) => next,
            Err(error) => {
                proof {
                    lemma_edits_error_stays(edits, source@, k + 1);
                }
                return Err(error);
            },
        };
        proof {
            assert forall|j: int| 0 <= j < 3 implies table_kept_up(
                source@,
                next@,
                #[trigger] sync_tables()[j],
                edits.take(k + 1),
            ) by {
                let table = sync_tables()[j];
                let b = manifest_dependency_table(source@, table)->Ok_0;
                let c = manifest_dependency_table(text@, table)->Ok_0;
                let n = manifest_dependency_table(next@, table)->Ok_0;
                assert forall|name: Seq<char>| #[trigger] entry_kept_up(b, n, name, edits.take(k + 1)) by {
                    assert(entry_kept_up(b, c, name, edits.take(k as int)));
                    assert(edit_applied(text@, next@, table, edit.dependency@, edit.new@));
                    assert(others_kept(text@, next@, table, edit.dependency@));
                    lemma_kept_up_step(b, c, n, name, edits.take(k as int), edit@);
                    assert(edits.take(k as int).push(edit@) =~= edits.take(k + 1));
                }
            }
            assert forall|j: int| 0 <= j < 3 implies manifest_dependency_table(next@, #[trigger] sync_tables()[j]) is Ok
                && names_unique(entry_names_of(manifest_dependency_table(next@, sync_tables()[j])->Ok_0)) by {
                assert(edit_applied(text@, next@, sync_tables()[j], edit.dependency@, edit.new@));
            }
        }
        text = next;
        k = k + 1;
    }
    proof {
        assert(edits.take(edits.len() as int) =~= edits);
        assert forall|path: Seq<char>, rules: Rules|
            #![trigger manifest_plan(path, text@, rules)]
            manifest_plan(path, source@, rules) == Ok::<PlanView, Seq<char>>(plan@) implies nothing_to_sync(
            manifest_plan(path, text@, rules),
        ) by {
            if k == 0 {
                assert(text@ == source@);
            } else {
                lemma_replan_quiet(path, source@, text@, rules, plan@);
            }
        }
    }
    Ok(text)
}

/// Whether an edit is for the manifest at `path`.
pub open spec fn edits_manifest(path: Seq<char>) -> spec_fn(EditView) -> bool {
    |e: EditView| e.0 == path
}

/// A copy of an edit.
fn copy_edit(edit: &FileEdit) -> (r: FileEdit)
    ensures
        r@ == edit@,
{
    FileEdit {
        path: edit.path.clone(),
        dependency: edit.dependency.clone(),
        old: edit.old.clone(),
        new: edit.new.clone(),
    }
}

/// The part of a plan for the manifest at `path`: its edits for that
/// manifest, in order, with the plan's lock updates and blocked changes.
pub fn plan_for_manifest(plan: SyncPlan, path: &str) -> (r: SyncPlan)
    ensures
        r@.0 == plan@.0.filter(edits_manifest(path@)),
        r@.1 == plan@.1,
        r@.2 == plan@.2,
{
    let ghost views = plan@.0;
    let mut edits: Vec<FileEdit> = Vec::new();
    let mut i: usize = 0;
    assert(views.take(0) =~= Seq::<EditView>::empty());
    while i < plan.manifest_edits.len()
        invariant
            i <= plan.manifest_edits@.len(),
            views == plan@.0,
            views.len() == plan.manifest_edits@.len(),
            edits@.map_values(|e: FileEdit| e@) == views.take(i as int).filter(edits_manifest(path@)),
        decreases plan.manifest_edits.len() - i,
    {
        let edit = &plan.manifest_edits[i];
        assert(views[i as int] == edit@);
        assert(views.take(i + 1) =~= views.take(i as int).push(edit@));
        proof {
            views.take(i as int).lemma_filter_push(edit@, edits_manifest(path@));
        }
        let ghost before = edits@;
        if str_equal(edit.path.as_str(), path) {
            edits.push(copy_edit(edit));
            assert(edits@.map_values(|e: FileEdit| e@) =~= before.map_values(|e: FileEdit| e@).push(edit@));
        }
        i = i + 1;
    }
    assert(views.take(views.len() as int) =~= views);
    SyncPlan { manifest_edits: edits, lock_updates: plan.lock_updates, blocked: plan.blocked }
}

/// Whether a path is among the paths.
pub open spec fn path_listed(paths: Seq<String>, path: Seq<char>) -> bool {
    exists|j: int| 0 <= j < paths.len() && (#[trigger] paths[j])@ == path
}

/// Whether some edit is for the manifest at `path`.
pub open spec fn path_edited(edits: Seq<EditView>, path: Seq<char>) -> bool {
    exists|i: int| 0 <= i < edits.len() && (#[trigger] edits[i]).0 == path
}

/// Every edit's manifest is among the paths, and every path is some edit's
/// manifest.
pub open spec fn paths_of_edits(paths: Seq<String>, edits: Seq<EditView>) -> bool {
    &&& forall|i: int| 0 <= i < edits.len() ==> path_listed(paths, (#[trigger] edits[i]).0)
    &&& forall|j: int| 0 <= j < paths.len() ==> path_edited(edits, (#[trigger] paths[j])@)
}

/// Whether no path occurs twice.
pub open spec fn paths_distinct(paths: Seq<String>) -> bool {
    forall|a: int, b: int| 0 <= a < b < paths.len() ==> (#[trigger] paths[a])@ != (#[trigger] paths[b])@
}

/// The manifests a plan edits, each once, in the order of their first
/// edit.
pub fn manifest_paths(plan: &SyncPlan) -> (r: Vec<String>)
    ensures
        paths_distinct(r@),
        paths_of_edits(r@, plan@.0),
{
    let ghost views = plan@.0;
    let mut paths: Vec<String> = Vec::new();
    let mut i: usize = 0;
    assert(views.take(0) =~= Seq::<EditView>::empty());
    while i < plan.manifest_edits.len()
        invariant
            i <= plan.manifest_edits@.len(),
            views == plan@.0,
            views.len() == plan.manifest_edits@.len(),
            paths_distinct(paths@),
            paths_of_edits(paths@, views.take(i as int)),
        decreases plan.manifest_edits.len() - i,
    {
        let edit = &plan.manifest_edits[i];
        assert(views[i as int] == edit@);
        let ghost prefix = views.take(i as int);
        let ghost longer = views.take(i + 1);
        assert(longer =~= prefix.push(edit@));
        let mut seen = false;
        let mut j: usize = 0;
        while j < paths.len()
            invariant
                j <= paths@.len(),
                seen ==> path_listed(paths@, edit.path@),
                !seen ==> forall|m: int| 0 <= m < j ==> (#[trigger] paths@[m])@ != edit.path@,
            decreases paths.len() - j,
        {
            if str_equal(paths[j].as_str(), edit.path.as_str()) {
                seen = true;
                assert(paths@[j as int]@ == edit.path@);
            }
            j = j + 1;
        }
        let ghost before = paths@;
        if !seen {
            paths.push(edit.path.clone());
            proof {
                assert(paths@[before.len() as int]@ == edit.path@);
                assert forall|a: int, b: int| 0 <= a < b < paths@.len() implies (#[trigger] paths@[a])@
                    != (#[trigger] paths@[b])@ by {
                    if b == before.len() {
                        assert(paths@[a] == before[a]);
                    } else {
                        assert(paths@[a] == before[a] && paths@[b] == before[b]);
                    }
                }
            }
        }
        proof {
            assert forall|k: int| 0 <= k < longer.len() implies path_listed(paths@, (#[trigger] longer[k]).0) by {
                if k < prefix.len() {
                    assert(longer[k] == prefix[k]);
                    assert(path_listed(before, prefix[k].0));
                    let m = choose|m: int| 0 <= m < before.len() && (#[trigger] before[m])@ == prefix[k].0;
                    assert(paths@[m] == before[m]);
                } else if seen {
                    assert(longer[k].0 == edit.path@);
                } else {
                    assert(paths@[before.len() as int]@ == longer[k].0);
                }
            }
            assert forall|m: int| 0 <= m < paths@.len() implies path_edited(longer, (#[trigger] paths@[m])@) by {
                if m < before.len() {
                    assert(paths@[m] == before[m]);
                    assert(path_edited(prefix, before[m]@));
                    let k = choose|k: int| 0 <= k < prefix.len() && (#[trigger] prefix[k]).0 == before[m]@;
                    assert(longer[k] == prefix[k]);
                } else {
                    assert(longer[i as int].0 == paths@[m]@);
                }
            }
        }
        i = i + 1;
    }
    assert(views.take(views.len() as int) =~= views);
    paths
}

/// An inline table or sub-table is left to its own source exactly when it
/// has a `path` or a `workspace` key.
pub proof fn lemma_locally_sourced_keys(entry: DeclarationView)
    requires
        entry.1 is None,
        entry.2 is Some,
    ensures
        locally_sourced(entry) <==> (has_key(entry.2->Some_0, "path"@) || has_key(entry.2->Some_0, "workspace"@)),
{
    reveal_strlit("path");
    reveal_strlit("workspace");
    assert("path"@ =~= path_key());
    assert("workspace"@ =~= workspace_key());
}

/// Synchronization leaves an inline table or sub-table with a `path` or a
/// `workspace` key alone: planning adds no edit, no lock update and no
/// blocked change for it, and applying an edit does not touch it.
pub proof fn lemma_path_and_workspace_untouched(
    path: Seq<char>,
    rules: Rules,
    plan: PlanView,
    entry: DeclarationView,
    edit: EditView,
    text: Seq<char>,
    table: Seq<char>,
)
    requires
        entry.1 is None,
        entry.2 is Some,
        has_key(entry.2->Some_0, "path"@) || has_key(entry.2->Some_0, "workspace"@),
    ensures
        plan_entry(path, rules, plan, entry) == plan,
        manifest_dependency_table(text, table) matches Ok(entries) && entry_named(entries, edit.1) == Some(entry)
            ==> apply_step(edit, text, table) == Ok::<(Seq<char>, bool), Seq<char>>((text, false)),
{
    lemma_locally_sourced_keys(entry);
}

} // verus!
