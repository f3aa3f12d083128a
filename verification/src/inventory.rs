//! Dependency inventory summaries across project roots, and their Markdown
//! rendering.

use vstd::prelude::*;
use vstd::string::StringExecFns;

use crate::baseline::{insert_position, names_sorted, stored_names};
use crate::cargo::{DeclarationKind, DeclaredDependency, ResolvedPackage};
use crate::text::{decimal, has_prefix, join, join_strings, lex_lt, push_decimal, str_equal, str_starts_with};

verus! {

/// A dependency declared by a package in an inventory scan.
#[derive(Debug, Clone, PartialEq, Eq)]
pub struct InventoryDependency {
    /// Package declaring the dependency.
    pub package: String,
    /// Dependency name as it appears in Cargo.toml.
    pub name: String,
    /// Declared Cargo version requirement, if this is a registry dependency.
    pub requirement: Option<String>,
    /// Dependency origin (`registry`, `git`, `path`, or `workspace`).
    pub source: String,
    /// Dependency kind (`normal`, `build`, `dev`, or `other`).
    pub kind: String,
    /// Whether the dependency is optional.
    pub optional: bool,
}

/// The packages scanned in one project root.
#[derive(Debug, Clone, PartialEq, Eq)]
pub struct InventoryProject {
    /// Project root.
    pub project: String,
    /// Packages belonging to this project/workspace.
    pub packages: Vec<String>,
    /// Direct dependency declarations found in the workspace.
    pub dependencies: Vec<InventoryDependency>,
    /// Resolved packages in Cargo's dependency graph.
    pub resolved: Vec<ResolvedPackage>,
}

/// Complete result of a multi-project inventory scan.
#[derive(Debug, Clone, PartialEq, Eq)]
pub struct Inventory {
    /// Inventory schema version.
    pub schema_version: u32,
    /// Scanned projects.
    pub projects: Vec<InventoryProject>,
    /// Requirements observed for each direct dependency, sorted by name.
    pub direct_requirements: Vec<(String, Vec<String>)>,
    /// Names whose declarations disagree and therefore need a policy
    /// decision, sorted by name.
    pub conflicts: Vec<(String, Vec<String>)>,
}

/// The `git+` that opens the source of a Git dependency.
pub open spec fn git_source_prefix() -> Seq<char> {
    seq!['g', 'i', 't', '+']
}

/// The origin label of a declared dependency: `path` for a path
/// dependency, `git` for a source that Cargo reports as `git+…`, `registry`
/// for any other reported source, `workspace` when Cargo reports none.
pub open spec fn origin_label(dependency: DeclaredDependency) -> Seq<char> {
    if dependency.has_path {
        "path"@
    } else if dependency.source is Some {
        if has_prefix(dependency.source->Some_0@, git_source_prefix()) {
            "git"@
        } else {
            "registry"@
        }
    } else {
        "workspace"@
    }
}

/// The requirement an inventory records for a declaration: its declared
/// requirement for a registry dependency, none otherwise.
pub open spec fn recorded_requirement(dependency: DeclaredDependency) -> Option<Seq<char>> {
    if origin_label(dependency) == "registry"@ {
        Some(dependency.requirement@)
    } else {
        None
    }
}

/// The view of an optional string.
pub open spec fn optional_text(s: Option<String>) -> Option<Seq<char>> {
    match s {
        Some(s) => Some(s@),
        None => None,
    }
}

/// The label of a dependency kind.
pub open spec fn kind_label(kind: DeclarationKind) -> Seq<char> {
    match kind {
        DeclarationKind::Normal => "normal"@,
        DeclarationKind::Build => "build"@,
        DeclarationKind::Development => "dev"@,
        DeclarationKind::Other => "other"@,
    }
}

/// The inventory record of a dependency declared by `package`.
pub fn inventory_dependency(package: &str, dependency: &DeclaredDependency) -> (r: InventoryDependency)
    ensures
        r.package@ == package@,
        r.name@ == dependency.name@,
        optional_text(r.requirement) == recorded_requirement(*dependency),
        r.source@ == origin_label(*dependency),
        r.kind@ == kind_label(dependency.kind),
        r.optional == dependency.optional,
{
    let prefix = "git+";
    proof {
        reveal_strlit("git+");
        assert(prefix@ =~= git_source_prefix());
    }
    let (source, registry) = if dependency.has_path {
        ("path", false)
    } else {
        match &dependency.source {
            Some(reported) => if str_starts_with(reported.as_str(), prefix) {
                ("git", false)
            } else {
                ("registry", true)
            },
            None => ("workspace", false),
        }
    };
    proof {
        reveal_strlit("registry");
        reveal_strlit("git");
        reveal_strlit("path");
        reveal_strlit("workspace");
        assert("git"@.len() != "registry"@.len());
        assert("path"@.len() != "registry"@.len());
        assert("workspace"@.len() != "registry"@.len());
    }
    let kind = match dependency.kind {
        DeclarationKind::Normal => "normal",
        DeclarationKind::Build => "build",
        DeclarationKind::Development => "dev",
        DeclarationKind::Other => "other",
    };
    InventoryDependency {
        package: package.to_owned(),
        name: dependency.name.clone(),
        requirement: if registry {
            Some(dependency.requirement.clone())
        } else {
            None
        },
        source: source.to_owned(),
        kind: kind.to_owned(),
        optional: dependency.optional,
    }
}

/// The inventory records of the dependencies declared by workspace members,
/// member by member, each in declaration order.
pub open spec fn member_dependencies(members: Seq<(String, Vec<DeclaredDependency>)>) -> Seq<
    (Seq<char>, DeclaredDependency),
>
    decreases members.len(),
{
    if members.len() == 0 {
        Seq::empty()
    } else {
        member_dependencies(members.drop_last()) + members.last().1@.map_values(
            |d: DeclaredDependency| (members.last().0@, d),
        )
    }
}

/// Builds the inventory record of one project root from its workspace
/// members (name and declared dependencies) and its resolved graph.
pub fn inventory_project(
    project: String,
    members: Vec<(String, Vec<DeclaredDependency>)>,
    resolved: Vec<ResolvedPackage>,
) -> (r: InventoryProject)
    ensures
        r.project == project,
        r.packages@.len() == members@.len(),
        forall|i: int| 0 <= i < members@.len() ==> (#[trigger] r.packages@[i])@ == members@[i].0@,
        r.dependencies@.len() == member_dependencies(members@).len(),
        forall|i: int|
            0 <= i < r.dependencies@.len() ==> {
                let d = #[trigger] r.dependencies@[i];
                let (package, declared) = member_dependencies(members@)[i];
                &&& d.package@ == package
                &&& d.name@ == declared.name@
                &&& optional_text(d.requirement) == recorded_requirement(declared)
                &&& d.source@ == origin_label(declared)
                &&& d.kind@ == kind_label(declared.kind)
                &&& d.optional == declared.optional
            },
        r.resolved@ == resolved@,
{
    let mut packages: Vec<String> = Vec::new();
    let mut dependencies: Vec<InventoryDependency> = Vec::new();
    let mut m: usize = 0;
    while m < members.len()
        invariant
            m <= members@.len(),
            packages@.len() == m,
            forall|i: int| 0 <= i < m ==> (#[trigger] packages@[i])@ == members@[i].0@,
            dependencies@.len() == member_dependencies(members@.take(m as int)).len(),
            forall|i: int|
                0 <= i < dependencies@.len() ==> {
                    let d = #[trigger] dependencies@[i];
                    let (package, declared) = member_dependencies(members@.take(m as int))[i];
                    &&& d.package@ == package
                    &&& d.name@ == declared.name@
                    &&& optional_text(d.requirement) == recorded_requirement(declared)
                    &&& d.source@ == origin_label(declared)
                    &&& d.kind@ == kind_label(declared.kind)
                    &&& d.optional == declared.optional
                },
        decreases members.len() - m,
    {
        let member = &members[m];
        let ghost done = member_dependencies(members@.take(m as int));
        let ghost added = member.1@.map_values(|d: DeclaredDependency| (member.0@, d));
        assert(members@.take(m + 1).drop_last() =~= members@.take(m as int));
        assert(member_dependencies(members@.take(m + 1)) == done + added);
        packages.push(member.0.clone());
        let mut k: usize = 0;
        while k < member.1.len()
            invariant
                k <= member.1@.len(),
                dependencies@.len() == done.len() + k,
                added == member.1@.map_values(|d: DeclaredDependency| (member.0@, d)),
                forall|i: int|
                    0 <= i < dependencies@.len() ==> {
                        let d = #[trigger] dependencies@[i];
                        let (package, declared) = (done + added)[i];
                        &&& d.package@ == package
                        &&& d.name@ == declared.name@
                        &&& optional_text(d.requirement) == recorded_requirement(declared)
                        &&& d.source@ == origin_label(declared)
                        &&& d.kind@ == kind_label(declared.kind)
                        &&& d.optional == declared.optional
                    },
            decreases member.1.len() - k,
        {
            let record = inventory_dependency(member.0.as_str(), &member.1[k]);
            dependencies.push(record);
            k = k + 1;
        }
        m = m + 1;
    }
    assert(members@.take(members@.len() as int) =~= members@);
    InventoryProject { project, packages, dependencies, resolved }
}

/// The dependency records of the projects, project by project.
pub open spec fn all_dependencies(projects: Seq<InventoryProject>) -> Seq<InventoryDependency>
    decreases projects.len(),
{
    if projects.len() == 0 {
        Seq::empty()
    } else {
        all_dependencies(projects.drop_last()) + projects.last().dependencies@
    }
}

/// Whether a dependency record counts toward observed requirements: it is
/// neither a workspace nor a path dependency, and it has a requirement.
pub open spec fn is_observed(d: InventoryDependency) -> bool {
    d.source@ != "workspace"@ && d.source@ != "path"@ && d.requirement is Some
}

/// The requirement text of a dependency record.
pub open spec fn requirement_text(d: InventoryDependency) -> Seq<char> {
    d.requirement->Some_0@
}

/// The distinct requirements observed for `name`, in the order first seen.
pub open spec fn observed_requirements(deps: Seq<InventoryDependency>, name: Seq<char>) -> Seq<Seq<char>>
    decreases deps.len(),
{
    if deps.len() == 0 {
        Seq::empty()
    } else {
        let earlier = observed_requirements(deps.drop_last(), name);
        let d = deps.last();
        if is_observed(d) && d.name@ == name && !earlier.contains(requirement_text(d)) {
            earlier.push(requirement_text(d))
        } else {
            earlier
        }
    }
}

/// Whether some counted record names `name`.
pub open spec fn is_observed_name(deps: Seq<InventoryDependency>, name: Seq<char>) -> bool {
    exists|i: int| 0 <= i < deps.len() && is_observed(#[trigger] deps[i]) && deps[i].name@ == name
}

/// The views of a list of strings.
pub open spec fn string_views(v: Seq<String>) -> Seq<Seq<char>> {
    v.map_values(|s: String| s@)
}

/// Requirement lists keyed by name: sorted by name, and each entry the
/// distinct requirements observed for its name, which some record names,
/// with every observed name present.
pub open spec fn observed_table(table: Seq<(String, Vec<String>)>, deps: Seq<InventoryDependency>) -> bool {
    &&& names_sorted(stored_names(table))
    &&& forall|k: int|
        0 <= k < table.len() ==> string_views((#[trigger] table[k]).1@) == observed_requirements(
            deps,
            table[k].0@,
        ) && is_observed_name(deps, table[k].0@)
    &&& forall|name: Seq<char>|
        is_observed_name(deps, name) ==> exists|k: int| 0 <= k < table.len() && (#[trigger] table[k]).0@ == name
}

/// A requirement table as plain values.
pub open spec fn table_views(table: Seq<(String, Vec<String>)>) -> Seq<(Seq<char>, Seq<Seq<char>>)> {
    table.map_values(|e: (String, Vec<String>)| (e.0@, string_views(e.1@)))
}

/// The entries of a requirement table with more than one requirement.
pub open spec fn conflict_entries(table: Seq<(Seq<char>, Seq<Seq<char>>)>) -> Seq<(Seq<char>, Seq<Seq<char>>)> {
    table.filter(is_conflict())
}

/// An entry with more than one requirement.
pub open spec fn is_conflict() -> spec_fn((Seq<char>, Seq<Seq<char>>)) -> bool {
    |e: (Seq<char>, Seq<Seq<char>>)| e.1.len() > 1
}

/// A copy of a list of strings.
fn clone_strings(values: &Vec<String>) -> (r: Vec<String>)
    ensures
        string_views(r@) == string_views(values@),
{
    let mut out: Vec<String> = Vec::new();
    let mut i: usize = 0;
    while i < values.len()
        invariant
            i <= values.len(),
            string_views(out@) == string_views(values@.take(i as int)),
        decreases values.len() - i,
    {
        let copy = values[i].clone();
        assert(copy@ == values@[i as int]@);
        let ghost before = out@;
        out.push(copy);
        assert(values@.take(i + 1) =~= values@.take(i as int).push(values@[i as int]));
        assert(string_views(out@) =~= string_views(before).push(copy@));
        i = i + 1;
        assert(string_views(out@) =~= string_views(values@.take(i as int)));
    }
    assert(values@.take(values@.len() as int) =~= values@);
    out
}

/// With no counted record for a name, nothing is observed for it.
proof fn lemma_unobserved_empty(deps: Seq<InventoryDependency>, name: Seq<char>)
    requires
        !is_observed_name(deps, name),
    ensures
        observed_requirements(deps, name) == Seq::<Seq<char>>::empty(),
    decreases deps.len(),
{
    if deps.len() > 0 {
        assert(!is_observed_name(deps.drop_last(), name)) by {
            if is_observed_name(deps.drop_last(), name) {
                let i = choose|i: int|
                    0 <= i < deps.drop_last().len() && is_observed(#[trigger] deps.drop_last()[i])
                        && deps.drop_last()[i].name@ == name;
                assert(deps[i] == deps.drop_last()[i]);
            }
        }
        lemma_unobserved_empty(deps.drop_last(), name);
        if is_observed(deps.last()) && deps.last().name@ == name {
            assert(deps[deps.len() - 1] == deps.last());
        }
    }
}

/// Whether `value` is among the strings.
fn strings_contain(values: &Vec<String>, value: &str) -> (r: bool)
    ensures
        r == string_views(values@).contains(value@),
{
    let ghost views = string_views(values@);
    let mut i: usize = 0;
    while i < values.len()
        invariant
            i <= values.len(),
            views == string_views(values@),
            forall|k: int| 0 <= k < i ==> views[k] != value@,
        decreases values.len() - i,
    {
        if str_equal(values[i].as_str(), value) {
            assert(views[i as int] == value@);
            return true;
        }
        i = i + 1;
    }
    false
}

/// Records one dependency in the requirement table.
fn observe(table: &mut Vec<(String, Vec<String>)>, d: &InventoryDependency, Ghost(seen): Ghost<Seq<InventoryDependency>>)
    requires
        observed_table(old(table)@, seen),
    ensures
        observed_table(final(table)@, seen.push(*d)),
{
    let ghost deps = seen.push(*d);
    assert(deps.drop_last() =~= seen);
    assert(deps.last() == *d);
    let ghost old_table = table@;
    proof {
        assert forall|name: Seq<char>| name != d.name@ || !is_observed(*d) implies observed_requirements(
            deps,
            name,
        ) == observed_requirements(seen, name) && (is_observed_name(deps, name) <==> is_observed_name(
            seen,
            name,
        )) by {
            if is_observed_name(deps, name) {
                let i = choose|i: int| 0 <= i < deps.len() && is_observed(#[trigger] deps[i]) && deps[i].name@ == name;
                if i < seen.len() {
                    assert(seen[i] == deps[i]);
                }
            }
            if is_observed_name(seen, name) {
                let i = choose|i: int| 0 <= i < seen.len() && is_observed(#[trigger] seen[i]) && seen[i].name@ == name;
                assert(deps[i] == seen[i]);
            }
        }
    }
    let workspace = str_equal(d.source.as_str(), "workspace");
    let path = str_equal(d.source.as_str(), "path");
    if workspace || path {
        return;
    }
    let requirement = match &d.requirement {
        Some(requirement) => requirement,
        None => {
            return;
        },
    };
    assert(is_observed(*d));
    assert(is_observed_name(deps, d.name@)) by {
        assert(deps[seen.len() as int] == *d);
    }
    let (pos, found) = insert_position(table, d.name.as_str());
    if found {
        let present = strings_contain(&table[pos].1, requirement.as_str());
        proof {
            assert(string_views(table@[pos as int].1@) == observed_requirements(seen, d.name@));
        }
        if !present {
            let mut entry = table.remove(pos);
            let ghost before = entry.1@;
            entry.1.push(requirement.clone());
            assert(string_views(entry.1@) =~= string_views(before).push(requirement@));
            table.insert(pos, entry);
        }
        proof {
            assert forall|k: int| 0 <= k < table@.len() implies string_views((#[trigger] table@[k]).1@)
                == observed_requirements(deps, table@[k].0@) && is_observed_name(deps, table@[k].0@) by {
                if k != pos {
                    assert(table@[k] == old_table[k]);
                    assert(stored_names(old_table)[k] == old_table[k].0@);
                    assert(stored_names(old_table)[pos as int] == old_table[pos as int].0@);
                    if old_table[k].0@ == d.name@ {
                        crate::baseline::lemma_sorted_unique(stored_names(old_table));
                    }
                }
            }
            assert(stored_names(table@) =~= stored_names(old_table));
            assert forall|name: Seq<char>| is_observed_name(deps, name) implies exists|k: int|
                0 <= k < table@.len() && (#[trigger] table@[k]).0@ == name by {
                if name == d.name@ {
                    assert(table@[pos as int].0@ == name);
                } else {
                    let k = choose|k: int| 0 <= k < old_table.len() && (#[trigger] old_table[k]).0@ == name;
                    assert(table@[k] == old_table[k]);
                }
            }
        }
    } else {
        proof {
            assert(!is_observed_name(seen, d.name@)) by {
                if is_observed_name(seen, d.name@) {
                    let k = choose|k: int| 0 <= k < old_table.len() && (#[trigger] old_table[k]).0@ == d.name@;
                    if k < pos {
                        assert(lex_lt(old_table[k].0@, d.name@));
                    } else {
                        assert(lex_lt(d.name@, old_table[k].0@));
                    }
                    crate::text::lemma_lex_lt_irreflexive(d.name@);
                }
            }
            lemma_unobserved_empty(seen, d.name@);
        }
        let mut requirements: Vec<String> = Vec::new();
        requirements.push(requirement.clone());
        table.insert(pos, (d.name.clone(), requirements));
        proof {
            let names = stored_names(table@);
            let old_names = stored_names(old_table);
            assert forall|a: int, b: int| 0 <= a < b < names.len() implies lex_lt(
                #[trigger] names[a],
                #[trigger] names[b],
            ) by {
                if b < pos {
                    assert(names[a] == old_names[a] && names[b] == old_names[b]);
                } else if b == pos {
                    assert(names[a] == old_table[a].0@);
                } else if a == pos {
                    assert(names[b] == old_table[b - 1].0@);
                } else if a < pos {
                    assert(names[a] == old_names[a] && names[b] == old_names[b - 1]);
                } else {
                    assert(names[a] == old_names[a - 1] && names[b] == old_names[b - 1]);
                }
            }
            assert(string_views(table@[pos as int].1@) =~= seq![requirement@]);
            assert(observed_requirements(deps, d.name@) =~= seq![requirement@]);
            assert forall|k: int| 0 <= k < table@.len() implies string_views((#[trigger] table@[k]).1@)
                == observed_requirements(deps, table@[k].0@) && is_observed_name(deps, table@[k].0@) by {
                if k < pos {
                    assert(table@[k] == old_table[k]);
                    assert(lex_lt(old_table[k].0@, d.name@));
                    if old_table[k].0@ == d.name@ {
                        crate::text::lemma_lex_lt_irreflexive(d.name@);
                    }
                } else if k > pos {
                    assert(table@[k] == old_table[k - 1]);
                    assert(lex_lt(d.name@, old_table[k - 1].0@));
                    if old_table[k - 1].0@ == d.name@ {
                        crate::text::lemma_lex_lt_irreflexive(d.name@);
                    }
                }
            }
            assert forall|name: Seq<char>| is_observed_name(deps, name) implies exists|k: int|
                0 <= k < table@.len() && (#[trigger] table@[k]).0@ == name by {
                if name == d.name@ {
                    assert(table@[pos as int].0@ == name);
                } else {
                    let k = choose|k: int| 0 <= k < old_table.len() && (#[trigger] old_table[k]).0@ == name;
                    if k < pos {
                        assert(table@[k] == old_table[k]);
                    } else {
                        assert(table@[k + 1] == old_table[k]);
                    }
                }
            }
        }
    }
}

/// Summarizes scanned projects: the distinct requirements declared for each
/// registry or Git dependency across all of them, in the order first seen
/// and sorted by name, and the names declared with more than one
/// requirement, which need a baseline decision.
pub fn summarize_inventory(projects: Vec<InventoryProject>) -> (r: Inventory)
    ensures
        r.schema_version == 1,
        r.projects@ == projects@,
        observed_table(r.direct_requirements@, all_dependencies(projects@)),
        table_views(r.conflicts@) == conflict_entries(table_views(r.direct_requirements@)),
{
    let mut table: Vec<(String, Vec<String>)> = Vec::new();
    let mut p: usize = 0;
    while p < projects.len()
        invariant
            p <= projects@.len(),
            observed_table(table@, all_dependencies(projects@.take(p as int))),
        decreases projects.len() - p,
    {
        let project = &projects[p];
        let ghost done = all_dependencies(projects@.take(p as int));
        assert(projects@.take(p + 1).drop_last() =~= projects@.take(p as int));
        let mut k: usize = 0;
        while k < project.dependencies.len()
            invariant
                k <= project.dependencies@.len(),
                observed_table(table@, done + project.dependencies@.take(k as int)),
            decreases project.dependencies.len() - k,
        {
            let ghost seen = done + project.dependencies@.take(k as int);
            observe(&mut table, &project.dependencies[k], Ghost(seen));
            assert(seen.push(project.dependencies@[k as int]) =~= done + project.dependencies@.take(k + 1));
            k = k + 1;
        }
        assert(project.dependencies@.take(project.dependencies@.len() as int) =~= project.dependencies@);
        p = p + 1;
    }
    assert(projects@.take(projects@.len() as int) =~= projects@);
    let mut conflicts: Vec<(String, Vec<String>)> = Vec::new();
    let mut i: usize = 0;
    while i < table.len()
        invariant
            i <= table@.len(),
            table_views(conflicts@) == conflict_entries(table_views(table@).take(i as int)),
        decreases table.len() - i,
    {
        let ghost views = table_views(table@);
        assert(views.take(i + 1).drop_last() =~= views.take(i as int));
        assert(views.take(i + 1).last() == views[i as int]);
        let ghost before = conflicts@;
        assert(views[i as int].1.len() == table@[i as int].1@.len());
        assert(views.take(i + 1) == views.take(i as int).push(views[i as int]));
        proof {
            views.take(i as int).lemma_filter_push(views[i as int], is_conflict());
        }
        assert(conflict_entries(views.take(i + 1)) == if views[i as int].1.len() > 1 {
            conflict_entries(views.take(i as int)).push(views[i as int])
        } else {
            conflict_entries(views.take(i as int))
        });
        if table[i].1.len() > 1 {
            let entry = (table[i].0.clone(), clone_strings(&table[i].1));
            conflicts.push(entry);
            assert(table_views(conflicts@) =~= table_views(before).push(views[i as int]));
        }
        i = i + 1;
    }
    assert(table_views(table@).take(table@.len() as int) =~= table_views(table@));
    Inventory { schema_version: 1, projects, direct_requirements: table, conflicts }
}

/// The Markdown table row of one dependency's requirements.
pub open spec fn requirement_row(name: Seq<char>, requirements: Seq<Seq<char>>) -> Seq<char> {
    "| `"@ + name + "` | `"@ + join(requirements, "`, `"@) + "` |\n"@
}

/// The Markdown list item of one conflict.
pub open spec fn conflict_item(name: Seq<char>, requirements: Seq<Seq<char>>) -> Seq<char> {
    "- `"@ + name + "`: "@ + join(requirements, ", "@) + "\n"@
}

/// The rows of a requirement table, in order.
pub open spec fn requirement_rows(table: Seq<(String, Vec<String>)>) -> Seq<char>
    decreases table.len(),
{
    if table.len() == 0 {
        Seq::empty()
    } else {
        requirement_rows(table.drop_last()) + requirement_row(table.last().0@, string_views(table.last().1@))
    }
}

/// The conflict items, in order.
pub open spec fn conflict_items(table: Seq<(String, Vec<String>)>) -> Seq<char>
    decreases table.len(),
{
    if table.len() == 0 {
        Seq::empty()
    } else {
        conflict_items(table.drop_last()) + conflict_item(table.last().0@, string_views(table.last().1@))
    }
}

/// The Markdown rendering of an inventory.
pub open spec fn inventory_markdown(inventory: Inventory) -> Seq<char> {
    "# Dependency Inventory\n\nProjects scanned: "@ + decimal(inventory.projects@.len()) + "\n\n"@
        + "| Dependency | Declared requirements |\n|---|---|\n"@ + requirement_rows(
        inventory.direct_requirements@,
    ) + (if inventory.conflicts@.len() == 0 {
        Seq::empty()
    } else {
        "\n## Conflicts requiring baseline decisions\n\n"@ + conflict_items(inventory.conflicts@)
    })
}

/// Render an inventory as a concise Markdown review artifact.
pub fn render_inventory_markdown(inventory: &Inventory) -> (r: String)
    ensures
        r@ == inventory_markdown(*inventory),
{
    let mut output = String::new();
    output.append("# Dependency Inventory\n\nProjects scanned: ");
    push_decimal(&mut output, inventory.projects.len() as u128);
    output.append("\n\n");
    output.append("| Dependency | Declared requirements |\n|---|---|\n");
    let ghost head = output@;
    let mut i: usize = 0;
    while i < inventory.direct_requirements.len()
        invariant
            i <= inventory.direct_requirements@.len(),
            output@ == head + requirement_rows(inventory.direct_requirements@.take(i as int)),
        decreases inventory.direct_requirements.len() - i,
    {
        let entry = &inventory.direct_requirements[i];
        assert(inventory.direct_requirements@.take(i + 1).drop_last() =~= inventory.direct_requirements@.take(
            i as int,
        ));
        output.append("| `");
        output.append(entry.0.as_str());
        output.append("` | `");
        let joined = join_strings(&entry.1, "`, `");
        output.append(joined.as_str());
        output.append("` |\n");
        i = i + 1;
        assert(output@ =~= head + requirement_rows(inventory.direct_requirements@.take(i as int)));
    }
    assert(inventory.direct_requirements@.take(inventory.direct_requirements@.len() as int)
        =~= inventory.direct_requirements@);
    let ghost body = output@;
    if inventory.conflicts.len() > 0 {
        output.append("\n## Conflicts requiring baseline decisions\n\n");
        let ghost heading = output@;
        let mut k: usize = 0;
        while k < inventory.conflicts.len()
            invariant
                k <= inventory.conflicts@.len(),
                output@ == heading + conflict_items(inventory.conflicts@.take(k as int)),
            decreases inventory.conflicts.len() - k,
        {
            let entry = &inventory.conflicts[k];
            assert(inventory.conflicts@.take(k + 1).drop_last() =~= inventory.conflicts@.take(k as int));
            output.append("- `");
            output.append(entry.0.as_str());
            output.append("`: ");
            let joined = join_strings(&entry.1, ", ");
            output.append(joined.as_str());
            output.append("\n");
            k = k + 1;
            assert(output@ =~= heading + conflict_items(inventory.conflicts@.take(k as int)));
        }
        assert(inventory.conflicts@.take(inventory.conflicts@.len() as int) =~= inventory.conflicts@);
    } else {
        assert(body + Seq::<char>::empty() =~= body);
    }
    output
}

/// The requirements observed for a name never repeat.
pub proof fn lemma_observed_requirements_distinct(deps: Seq<InventoryDependency>, name: Seq<char>)
    ensures
        forall|i: int, j: int|
            0 <= i < j < observed_requirements(deps, name).len() ==> observed_requirements(deps, name)[i]
                != observed_requirements(deps, name)[j],
    decreases deps.len(),
{
    if deps.len() > 0 {
        lemma_observed_requirements_distinct(deps.drop_last(), name);
        let earlier = observed_requirements(deps.drop_last(), name);
        let now = observed_requirements(deps, name);
        assert forall|i: int, j: int| 0 <= i < j < now.len() implies now[i] != now[j] by {
            if j == earlier.len() {
                assert(now[i] == earlier[i]);
                if now[i] == now[j] {
                    assert(earlier.contains(now[j]));
                }
            } else {
                assert(now[i] == earlier[i] && now[j] == earlier[j]);
            }
        }
    }
}

/// A name is a conflict exactly when more than one distinct requirement was
/// observed for it: the conflicts of a summary are those of its table with
/// more than one requirement, in table order.
pub proof fn lemma_conflicts_are_disagreements(table: Seq<(Seq<char>, Seq<Seq<char>>)>, entry: (
    Seq<char>,
    Seq<Seq<char>>,
))
    ensures
        conflict_entries(table).contains(entry) <==> table.contains(entry) && entry.1.len() > 1,
{
    if conflict_entries(table).contains(entry) {
        table.lemma_filter_contains_rev(is_conflict(), entry);
    }
    if table.contains(entry) && entry.1.len() > 1 {
        let i = choose|i: int| 0 <= i < table.len() && table[i] == entry;
        table.lemma_filter_contains(is_conflict(), i);
    }
}

/// Every registry or Git dependency record with a requirement counts for
/// its name, whatever its kind (normal, build or dev): once such a record is
/// seen, its requirement is among the requirements observed for its name.
pub proof fn lemma_every_kind_observed(deps: Seq<InventoryDependency>, d: InventoryDependency)
    requires
        d.source@ != "workspace"@,
        d.source@ != "path"@,
        d.requirement is Some,
    ensures
        observed_requirements(deps.push(d), d.name@).contains(d.requirement->Some_0@),
{
    let all = deps.push(d);
    assert(all.drop_last() =~= deps);
    assert(all.last() == d);
    let earlier = observed_requirements(deps, d.name@);
    if !earlier.contains(requirement_text(d)) {
        assert(earlier.push(requirement_text(d))[earlier.len() as int] == requirement_text(d));
    }
}

/// The kind of a record does not change what is observed: two record lists
/// that differ only in kinds observe the same requirements for every name.
pub proof fn lemma_observed_ignores_kind(a: Seq<InventoryDependency>, b: Seq<InventoryDependency>, name: Seq<char>)
    requires
        a.len() == b.len(),
        forall|i: int|
            0 <= i < a.len() ==> (#[trigger] a[i]).package == b[i].package && a[i].name == b[i].name
                && a[i].requirement == b[i].requirement && a[i].source == b[i].source && a[i].optional
                == b[i].optional,
    ensures
        observed_requirements(a, name) == observed_requirements(b, name),
    decreases a.len(),
{
    if a.len() > 0 {
        assert forall|i: int| 0 <= i < a.drop_last().len() implies (#[trigger] a.drop_last()[i]).package
            == b.drop_last()[i].package && a.drop_last()[i].name == b.drop_last()[i].name
            && a.drop_last()[i].requirement == b.drop_last()[i].requirement && a.drop_last()[i].source
            == b.drop_last()[i].source && a.drop_last()[i].optional == b.drop_last()[i].optional by {
            assert(a.drop_last()[i] == a[i] && b.drop_last()[i] == b[i]);
        }
        lemma_observed_ignores_kind(a.drop_last(), b.drop_last(), name);
        assert(a.last() == a[a.len() - 1] && b.last() == b[b.len() - 1]);
    }
}

} // verus!
