//! Direct and resolved third-party dependency baseline parsing.
//!
//! A text baseline holds one `<package> <requirement>` pair per non-comment
//! line. A baseline keeps its rules sorted by package name, each package at
//! most once.

use vstd::prelude::*;
use vstd::string::StringExecFns;

use crate::dependency_requirement::{
    is_version_req, parse_version, semver_req_parse, semver_version_parse, DependencyRequirement,
    ParsedVersionView,
};
use crate::policy_error::PolicyError;
use crate::text::{
    char_is_space, chars_of, has_prefix, starts_with, compare_str, debug_string, debug_text, decimal, is_space, lex_lt,
    lemma_lex_lt_irreflexive, lemma_lex_lt_transitive, push_decimal, str_equal, string_from_chars,
    sub_chars,
};

verus! {

// ---------------------------------------------------------------------------
// Rule sequences
// ---------------------------------------------------------------------------

/// Rules as plain values: package name and requirement text, in order.
pub type Rules = Seq<(Seq<char>, Seq<char>)>;

/// The plain view of stored rules.
pub open spec fn rule_views(v: Seq<(String, DependencyRequirement)>) -> Rules {
    v.map_values(|e: (String, DependencyRequirement)| (e.0@, e.1@))
}

/// The names of named entries, in order.
pub open spec fn entry_names<V>(s: Seq<(Seq<char>, V)>) -> Seq<Seq<char>> {
    s.map_values(|e: (Seq<char>, V)| e.0)
}

/// Names strictly increase along the sequence, so each name occurs once.
pub open spec fn names_sorted(names: Seq<Seq<char>>) -> bool {
    forall|i: int, j: int| 0 <= i < j < names.len() ==> lex_lt(#[trigger] names[i], #[trigger] names[j])
}

/// No name occurs twice.
pub open spec fn names_unique(names: Seq<Seq<char>>) -> bool {
    forall|i: int, j: int| 0 <= i < j < names.len() ==> names[i] != names[j]
}

/// Whether some rule is for `name`.
pub open spec fn has_rule_name(rules: Rules, name: Seq<char>) -> bool {
    exists|i: int| 0 <= i < rules.len() && (#[trigger] rules[i]).0 == name
}

/// Two rule sequences hold the same rules, whatever their order.
pub open spec fn same_rules(a: Rules, b: Rules) -> bool {
    forall|e: (Seq<char>, Seq<char>)| a.contains(e) <==> b.contains(e)
}

/// The view of the names of stored entries.
pub open spec fn stored_names<T>(v: Seq<(String, T)>) -> Seq<Seq<char>> {
    v.map_values(|e: (String, T)| e.0@)
}

/// A sorted sequence does not repeat names.
pub proof fn lemma_sorted_unique(names: Seq<Seq<char>>)
    requires
        names_sorted(names),
    ensures
        names_unique(names),
{
    assert forall|i: int, j: int| 0 <= i < j < names.len() implies names[i] != names[j] by {
        assert(lex_lt(names[i], names[j]));
        if names[i] == names[j] {
            lemma_lex_lt_irreflexive(names[i]);
        }
    }
}

/// Finds where `name` belongs in entries sorted by name: the first position
/// whose name does not precede `name`, and whether the name found there is
/// `name` itself.
pub fn insert_position<T>(entries: &Vec<(String, T)>, name: &str) -> (r: (usize, bool))
    requires
        names_sorted(stored_names(entries@)),
    ensures
        r.0 <= entries@.len(),
        r.1 ==> r.0 < entries@.len() && entries@[r.0 as int].0@ == name@,
        forall|i: int| 0 <= i < r.0 ==> lex_lt(#[trigger] entries@[i].0@, name@),
        !r.1 ==> forall|i: int| r.0 <= i < entries@.len() ==> lex_lt(name@, #[trigger] entries@[i].0@),
{
    let ghost names = stored_names(entries@);
    let mut i: usize = 0;
    while i < entries.len()
        invariant
            i <= entries@.len(),
            names == stored_names(entries@),
            names_sorted(names),
            forall|k: int| 0 <= k < i ==> lex_lt(#[trigger] entries@[k].0@, name@),
        decreases entries.len() - i,
    {
        let c = compare_str(entries[i].0.as_str(), name);
        if c == 0 {
            return (i, true);
        }
        if c == 1 {
            assert forall|k: int| i <= k < entries@.len() implies lex_lt(
                name@,
                #[trigger] entries@[k].0@,
            ) by {
                if k > i {
                    assert(names[i as int] == entries@[i as int].0@);
                    assert(names[k] == entries@[k].0@);
                    assert(lex_lt(names[i as int], names[k]));
                    lemma_lex_lt_transitive(name@, entries@[i as int].0@, entries@[k].0@);
                }
            }
            return (i, false);
        }
        i = i + 1;
    }
    (i, false)
}

/// Inserting into a sequence adds exactly the inserted element.
pub proof fn lemma_insert_contains<A>(s: Seq<A>, pos: int, x: A)
    requires
        0 <= pos <= s.len(),
    ensures
        forall|e: A| s.insert(pos, x).contains(e) <==> (s.contains(e) || e == x),
{
    let t = s.insert(pos, x);
    assert forall|e: A| t.contains(e) <==> (s.contains(e) || e == x) by {
        if t.contains(e) {
            let k = choose|k: int| 0 <= k < t.len() && t[k] == e;
            if k < pos {
                assert(s[k] == e);
            } else if k > pos {
                assert(s[k - 1] == e);
            }
        }
        if s.contains(e) {
            let k = choose|k: int| 0 <= k < s.len() && s[k] == e;
            if k < pos {
                assert(t[k] == e);
            } else {
                assert(t[k + 1] == e);
            }
        }
        if e == x {
            assert(t[pos] == e);
        }
    }
}

/// Pushing onto a sequence adds exactly the pushed element.
pub proof fn lemma_push_contains<A>(s: Seq<A>, x: A)
    ensures
        forall|e: A| s.push(x).contains(e) <==> (s.contains(e) || e == x),
{
    assert(s.push(x) =~= s.insert(s.len() as int, x));
    lemma_insert_contains(s, s.len() as int, x);
}

/// The requirement text a rule sequence gives for `name`.
pub open spec fn rule_for(rules: Rules, name: Seq<char>) -> Seq<char> {
    rules[rule_index(rules, name)].1
}

/// A position of a rule for `name`.
pub open spec fn rule_index(rules: Rules, name: Seq<char>) -> int {
    choose|i: int| 0 <= i < rules.len() && (#[trigger] rules[i]).0 == name
}

/// With each name at most once, the rule held for a name is the rule found
/// for it.
pub proof fn lemma_rule_for(rules: Rules, name: Seq<char>, text: Seq<char>)
    requires
        names_unique(entry_names(rules)),
        rules.contains((name, text)),
    ensures
        rule_for(rules, name) == text,
        has_rule_name(rules, name),
{
    let k = choose|k: int| 0 <= k < rules.len() && rules[k] == (name, text);
    assert(rules[k].0 == name);
    assert(exists|i: int| 0 <= i < rules.len() && (#[trigger] rules[i]).0 == name);
    let i = rule_index(rules, name);
    assert(entry_names(rules)[i] == rules[i].0);
    assert(entry_names(rules)[k] == rules[k].0);
    if i != k {
        if i < k {
            assert(entry_names(rules)[i] == entry_names(rules)[k]);
        } else {
            assert(entry_names(rules)[k] == entry_names(rules)[i]);
        }
    }
}

/// Rules holding the same pairs name the same packages.
pub proof fn lemma_same_rules_names(a: Rules, b: Rules, name: Seq<char>)
    requires
        same_rules(a, b),
    ensures
        has_rule_name(a, name) <==> has_rule_name(b, name),
{
    if has_rule_name(a, name) {
        let i = choose|i: int| 0 <= i < a.len() && (#[trigger] a[i]).0 == name;
        assert(a.contains(a[i]));
        let j = choose|j: int| 0 <= j < b.len() && b[j] == a[i];
        assert(b[j].0 == name);
    }
    if has_rule_name(b, name) {
        let i = choose|i: int| 0 <= i < b.len() && (#[trigger] b[i]).0 == name;
        assert(b.contains(b[i]));
        let j = choose|j: int| 0 <= j < a.len() && a[j] == b[i];
        assert(a[j].0 == name);
    }
}

// ---------------------------------------------------------------------------
// The text baseline grammar
// ---------------------------------------------------------------------------

/// The text split at every line feed. A text that ends in a line feed gives
/// a last, empty line; blank lines are ignored, so this agrees with
/// `str::lines` on every line that matters, and numbers lines the same way.
pub open spec fn split_lines(s: Seq<char>) -> Seq<Seq<char>>
    decreases s.len(),
{
    if s.len() == 0 {
        seq![Seq::empty()]
    } else {
        let p = split_lines(s.drop_last());
        if s.last() == '\n' {
            p.push(Seq::empty())
        } else {
            p.update(p.len() - 1, p.last().push(s.last()))
        }
    }
}

/// The split of a text has at least one line.
pub proof fn lemma_split_lines_nonempty(s: Seq<char>)
    ensures
        split_lines(s).len() >= 1,
    decreases s.len(),
{
    if s.len() > 0 {
        lemma_split_lines_nonempty(s.drop_last());
    }
}

/// The first position at or after `i` whose character is whitespace (when
/// `space` holds) or not whitespace (otherwise); `s.len()` when none is.
pub open spec fn scan(s: Seq<char>, i: int, space: bool) -> int
    decreases s.len() - i,
{
    if i < 0 || i >= s.len() {
        s.len() as int
    } else if is_space(s[i]) == space {
        i
    } else {
        scan(s, i + 1, space)
    }
}

/// The end of `s[..j]` once trailing whitespace is removed.
pub open spec fn rscan(s: Seq<char>, j: int) -> int
    decreases j,
{
    if j <= 0 || j > s.len() {
        0
    } else if !is_space(s[j - 1]) {
        j
    } else {
        rscan(s, j - 1)
    }
}

/// `s` without leading and trailing whitespace, as `str::trim` gives it.
pub open spec fn trim(s: Seq<char>) -> Seq<char> {
    let lo = scan(s, 0, false);
    let hi = rscan(s, s.len() as int);
    if lo < hi {
        s.subrange(lo, hi)
    } else {
        Seq::empty()
    }
}

/// The end of the first whitespace-separated field of a trimmed line.
pub open spec fn name_end(line: Seq<char>) -> int {
    scan(line, 0, true)
}

/// The start of the second whitespace-separated field of a trimmed line.
pub open spec fn requirement_start(line: Seq<char>) -> int {
    scan(line, name_end(line), false)
}

/// A trimmed line splits at whitespace into exactly two fields.
pub open spec fn has_two_fields(line: Seq<char>) -> bool {
    &&& name_end(line) < line.len()
    &&& requirement_start(line) < line.len()
    &&& scan(line, requirement_start(line), true) == line.len()
}

/// The first field of a trimmed line.
pub open spec fn field_name(line: Seq<char>) -> Seq<char> {
    line.take(name_end(line))
}

/// The second field of a trimmed line.
pub open spec fn field_requirement(line: Seq<char>) -> Seq<char> {
    line.skip(requirement_start(line))
}

/// A character allowed in a package name.
pub open spec fn is_name_char(c: char) -> bool {
    ||| ('a' <= c && c <= 'z')
    ||| ('A' <= c && c <= 'Z')
    ||| ('0' <= c && c <= '9')
    ||| c == '-'
    ||| c == '_'
}

/// The restricted package-name grammar accepted by baselines: a non-empty
/// run of ASCII letters, digits, `-` and `_`.
pub open spec fn package_name_ok(name: Seq<char>) -> bool {
    name.len() > 0 && forall|i: int| 0 <= i < name.len() ==> is_name_char(#[trigger] name[i])
}

/// A line that is blank or a comment once trimmed.
pub open spec fn is_ignored_line(line: Seq<char>) -> bool {
    line.len() == 0 || line[0] == '#'
}

/// The message for a line that is not `<package> <requirement>`.
pub open spec fn malformed_line_message(number: nat, line: Seq<char>) -> Seq<char> {
    "line "@ + decimal(number) + ": expected `<package> <requirement>`, found "@ + debug_text(line)
}

/// The message for a line whose requirement `semver` rejects.
pub open spec fn bad_requirement_message(number: nat, requirement: Seq<char>, error: Seq<char>) -> Seq<char> {
    "line "@ + decimal(number) + ": invalid Cargo requirement "@ + debug_text(requirement) + ": "@
        + error
}

/// The message for a line naming a package already named.
pub open spec fn duplicate_message(number: nat, name: Seq<char>) -> Seq<char> {
    "line "@ + decimal(number) + ": duplicate package "@ + debug_text(name)
}

/// Reads line `number` (counted from one) after the rules read so far.
pub open spec fn read_line(rules: Rules, number: nat, raw: Seq<char>) -> Result<Rules, Seq<char>> {
    let line = trim(raw);
    let name = field_name(line);
    let requirement = field_requirement(line);
    if is_ignored_line(line) {
        Ok(rules)
    } else if !has_two_fields(line) || !package_name_ok(name) {
        Err(malformed_line_message(number, line))
    } else if semver_req_parse(requirement) is Err {
        Err(bad_requirement_message(number, requirement, semver_req_parse(requirement)->Err_0))
    } else if has_rule_name(rules, name) {
        Err(duplicate_message(number, name))
    } else {
        Ok(rules.push((name, requirement)))
    }
}

/// Reads lines in order; the first bad line decides the error.
pub open spec fn read_lines(lines: Seq<Seq<char>>) -> Result<Rules, Seq<char>>
    decreases lines.len(),
{
    if lines.len() == 0 {
        Ok(Seq::empty())
    } else {
        match read_lines(lines.drop_last()) {
            Ok(rules) => read_line(rules, lines.len(), lines.last()),
            Err(message) => Err(message),
        }
    }
}

/// The rules of a text baseline in line order, or the message of its first
/// bad line.
pub open spec fn text_rules(text: Seq<char>) -> Result<Rules, Seq<char>> {
    read_lines(split_lines(text))
}

/// The rules that [`read_lines`] accepts name each package once and carry
/// requirements that `semver` parses.
pub proof fn lemma_read_lines_valid(lines: Seq<Seq<char>>)
    ensures
        read_lines(lines) matches Ok(rules) ==> names_unique(entry_names(rules)) && forall|i: int|
            0 <= i < rules.len() ==> is_version_req(#[trigger] rules[i].1),
    decreases lines.len(),
{
    if lines.len() > 0 {
        lemma_read_lines_valid(lines.drop_last());
        if let Ok(rules) = read_lines(lines.drop_last()) {
            let line = trim(lines.last());
            let name = field_name(line);
            if let Ok(next) = read_line(rules, lines.len(), lines.last()) {
                if next != rules {
                    assert(next == rules.push((name, field_requirement(line))));
                    assert forall|i: int, j: int| 0 <= i < j < next.len() implies entry_names(next)[i]
                        != entry_names(next)[j] by {
                        if j == rules.len() {
                            if entry_names(next)[i] == entry_names(next)[j] {
                                assert(rules[i].0 == name);
                            }
                        } else {
                            assert(entry_names(rules)[i] == entry_names(next)[i]);
                            assert(entry_names(rules)[j] == entry_names(next)[j]);
                        }
                    }
                }
            }
        }
    }
}

// ---------------------------------------------------------------------------
// Executable scanning
// ---------------------------------------------------------------------------

/// Executable form of [`scan`].
fn scan_chars(s: &Vec<char>, start: usize, space: bool) -> (r: usize)
    requires
        start <= s.len(),
    ensures
        r as int == scan(s@, start as int, space),
        start <= r <= s.len(),
{
    let mut i = start;
    loop
        invariant
            start <= i <= s.len(),
            scan(s@, i as int, space) == scan(s@, start as int, space),
        decreases s.len() - i,
    {
        if i >= s.len() {
            return i;
        }
        if char_is_space(s[i]) == space {
            return i;
        }
        i = i + 1;
    }
}

/// Executable form of [`rscan`].
fn rscan_chars(s: &Vec<char>, end: usize) -> (r: usize)
    requires
        end <= s.len(),
    ensures
        r as int == rscan(s@, end as int),
        r <= end,
{
    let mut j = end;
    loop
        invariant
            j <= end <= s.len(),
            rscan(s@, j as int) == rscan(s@, end as int),
        decreases j,
    {
        if j == 0 {
            return 0;
        }
        if !char_is_space(s[j - 1]) {
            return j;
        }
        j = j - 1;
    }
}

/// Executable form of [`trim`].
pub fn trim_chars(s: &Vec<char>) -> (r: Vec<char>)
    ensures
        r@ == trim(s@),
{
    let lo = scan_chars(s, 0, false);
    let hi = rscan_chars(s, s.len());
    if lo < hi {
        sub_chars(s, lo, hi)
    } else {
        Vec::new()
    }
}

/// Checks the restricted package-name grammar accepted by baseline files.
pub fn is_package_name(name: &str) -> (r: bool)
    ensures
        r == package_name_ok(name@),
{
    let chars = chars_of(name);
    if chars.len() == 0 {
        return false;
    }
    let mut i: usize = 0;
    while i < chars.len()
        invariant
            i <= chars.len(),
            chars@ == name@,
            forall|k: int| 0 <= k < i ==> is_name_char(#[trigger] chars@[k]),
        decreases chars.len() - i,
    {
        let c = chars[i];
        if !(('a' <= c && c <= 'z') || ('A' <= c && c <= 'Z') || ('0' <= c && c <= '9') || c == '-'
            || c == '_') {
            return false;
        }
        i = i + 1;
    }
    true
}

/// Appends `"line <number>"` to a message.
fn line_prefix(number: u128) -> (r: String)
    ensures
        r@ == "line "@ + decimal(number as nat),
{
    let mut out = String::new();
    out.append("line ");
    push_decimal(&mut out, number);
    out
}

// ---------------------------------------------------------------------------
// The baseline
// ---------------------------------------------------------------------------

/// A complete, organization-wide map of external direct dependencies.
#[derive(Debug, Clone)]
pub struct Baseline {
    /// Requirements of direct dependencies, sorted by package name.
    requirements: Vec<(String, DependencyRequirement)>,
    /// Minimum versions for packages in the resolved dependency graph,
    /// sorted by package name.
    resolved_requirements: Vec<(String, DependencyRequirement)>,
}

/// Whether stored rules are sorted by name and carry requirements that
/// `semver` parses.
pub open spec fn stored_rules_ok(v: Seq<(String, DependencyRequirement)>) -> bool {
    &&& names_sorted(stored_names(v))
    &&& forall|i: int| 0 <= i < v.len() ==> is_version_req((#[trigger] v[i]).1@)
}

impl Baseline {
    /// The direct-dependency rules, sorted by package name.
    pub closed spec fn direct(&self) -> Rules {
        rule_views(self.requirements@)
    }

    /// The resolved-package rules, sorted by package name.
    pub closed spec fn resolved(&self) -> Rules {
        rule_views(self.resolved_requirements@)
    }

    /// A baseline keeps each rule list sorted by name, so a package has at
    /// most one rule in each, and every requirement text parses.
    pub open spec fn wf(&self) -> bool {
        &&& names_sorted(entry_names(self.direct()))
        &&& names_sorted(entry_names(self.resolved()))
        &&& forall|i: int| 0 <= i < self.direct().len() ==> is_version_req(#[trigger] self.direct()[i].1)
        &&& forall|i: int| 0 <= i < self.resolved().len() ==> is_version_req(
            #[trigger] self.resolved()[i].1,
        )
    }

    proof fn lemma_views(&self)
        ensures
            entry_names(self.direct()) == stored_names(self.requirements@),
            entry_names(self.resolved()) == stored_names(self.resolved_requirements@),
            self.direct().len() == self.requirements@.len(),
            self.resolved().len() == self.resolved_requirements@.len(),
    {
        assert(entry_names(self.direct()) =~= stored_names(self.requirements@));
        assert(entry_names(self.resolved()) =~= stored_names(self.resolved_requirements@));
    }

    /// Parses a baseline whose non-comment lines are `<package> <requirement>`.
    ///
    /// Blank lines and lines beginning with `#` are ignored. Every other line
    /// must contain exactly one Cargo package name and one valid requirement.
    /// Fails with [`PolicyError::InvalidBaseline`] at the first line that is
    /// malformed, names an invalid package, holds a requirement `semver`
    /// rejects, or repeats a package.
    pub fn parse(text: &str) -> (r: Result<Baseline, PolicyError>)
        ensures
            r is Ok <==> text_rules(text@) is Ok,
            r matches Ok(b) ==> b.wf() && same_rules(b.direct(), text_rules(text@)->Ok_0)
                && b.resolved().len() == 0,
            r matches Err(e) ==> e matches PolicyError::InvalidBaseline { message } && message@
                == text_rules(text@)->Err_0,
    {
        let chars = chars_of(text);
        let mut rules: Vec<(String, DependencyRequirement)> = Vec::new();
        let ghost mut lines: Seq<Seq<char>> = Seq::empty();
        let ghost mut read: Rules = Seq::empty();
        let mut completed: usize = 0;
        let mut line_start: usize = 0;
        let mut i: usize = 0;
        assert(chars@.take(0) =~= Seq::<char>::empty());
        assert(chars@.subrange(0, 0) =~= Seq::<char>::empty());
        assert(split_lines(Seq::<char>::empty()) == seq![Seq::<char>::empty()]);
        assert(lines.push(Seq::<char>::empty()) =~= seq![Seq::<char>::empty()]);
        while i < chars.len()
            invariant
                chars@ == text@,
                line_start <= i <= chars.len(),
                completed == lines.len(),
                completed <= line_start,
                split_lines(chars@.take(i as int)) == lines.push(chars@.subrange(line_start as int, i as int)),
                read_lines(lines) == Ok::<Rules, Seq<char>>(read),
                stored_rules_ok(rules@),
                same_rules(rule_views(rules@), read),
            decreases chars.len() - i,
        {
            let ghost before = chars@.take(i as int);
            assert(chars@.take(i + 1).drop_last() =~= before);
            if chars[i] == '\n' {
                let line = sub_chars(&chars, line_start, i);
                let number: u128 = completed as u128 + 1;
                match read_line_into(&line, number, &mut rules, Ghost(read)) {
                    Err(message) => {
                        proof {
                            assert(read_lines(lines.push(line@)) == read_line(read, lines.len() + 1, line@)) by {
                                assert(lines.push(line@).drop_last() =~= lines);
                            }
                            assert(text_rules(text@) == read_lines(split_lines(text@)));
                            lemma_read_lines_prefix_error(chars@, i as int + 1, lines.push(line@));
                        }
                        return Err(PolicyError::InvalidBaseline { message });
                    },
                    Ok(()) => {},
                }
                proof {
                    assert(lines.push(line@).drop_last() =~= lines);
                    read = read_line(read, lines.len() + 1, line@)->Ok_0;
                    lines = lines.push(line@);
                    assert(chars@.subrange(i + 1, i + 1) =~= Seq::<char>::empty());
                }
                completed = completed + 1;
                line_start = i + 1;
            } else {
                proof {
                    let p = split_lines(before);
                    lemma_split_lines_nonempty(before);
                    assert(chars@.subrange(line_start as int, i + 1) =~= chars@.subrange(
                        line_start as int,
                        i as int,
                    ).push(chars@[i as int]));
                    assert(lines.push(chars@.subrange(line_start as int, i as int)).update(
                        lines.len() as int,
                        chars@.subrange(line_start as int, i + 1),
                    ) =~= lines.push(chars@.subrange(line_start as int, i + 1)));
                }
            }
            i = i + 1;
        }
        let line = sub_chars(&chars, line_start, chars.len());
        let number: u128 = completed as u128 + 1;
        proof {
            assert(chars@.take(chars.len() as int) =~= chars@);
            assert(lines.push(line@).drop_last() =~= lines);
            assert(text_rules(text@) == read_line(read, lines.len() + 1, line@));
        }
        match read_line_into(&line, number, &mut rules, Ghost(read)) {
            Err(message) => Err(PolicyError::InvalidBaseline { message }),
            Ok(()) => {
                let b = Baseline { requirements: rules, resolved_requirements: Vec::new() };
                proof {
                    b.lemma_views();
                }
                Ok(b)
            },
        }
    }

    /// Returns the policy requirement for one package, if the baseline names
    /// it.
    pub fn requirement(&self, package: &str) -> (r: Option<&DependencyRequirement>)
        ensures
            r matches Some(req) ==> self.direct().contains((package@, req@)),
            r is None <==> !has_rule_name(self.direct(), package@),
    {
        find_rule(&self.requirements, package)
    }

    /// The package names and requirements of the direct rules, in
    /// lexicographic order, each package at most once.
    pub fn iter(&self) -> (r: Vec<(&str, &DependencyRequirement)>)
        ensures
            r@.len() == self.direct().len(),
            forall|i: int| 0 <= i < r@.len() ==> (#[trigger] r@[i]).0@ == self.direct()[i].0 && r@[i].1@
                == self.direct()[i].1,
            self.wf() ==> forall|i: int, j: int|
                0 <= i < j < r@.len() ==> lex_lt(#[trigger] r@[i].0@, #[trigger] r@[j].0@),
    {
        let r = rule_refs(&self.requirements);
        proof {
            if self.wf() {
                assert forall|i: int, j: int| 0 <= i < j < r@.len() implies lex_lt(
                    #[trigger] r@[i].0@,
                    #[trigger] r@[j].0@,
                ) by {
                    assert(entry_names(self.direct())[i] == self.direct()[i].0);
                    assert(entry_names(self.direct())[j] == self.direct()[j].0);
                }
            }
        }
        r
    }

    /// The package names and minimum-version requirements of the resolved
    /// rules, in lexicographic order, each package at most once.
    pub fn resolved_iter(&self) -> (r: Vec<(&str, &DependencyRequirement)>)
        ensures
            r@.len() == self.resolved().len(),
            forall|i: int| 0 <= i < r@.len() ==> (#[trigger] r@[i]).0@ == self.resolved()[i].0 && r@[i].1@
                == self.resolved()[i].1,
            self.wf() ==> forall|i: int, j: int|
                0 <= i < j < r@.len() ==> lex_lt(#[trigger] r@[i].0@, #[trigger] r@[j].0@),
    {
        let r = rule_refs(&self.resolved_requirements);
        proof {
            if self.wf() {
                assert forall|i: int, j: int| 0 <= i < j < r@.len() implies lex_lt(
                    #[trigger] r@[i].0@,
                    #[trigger] r@[j].0@,
                ) by {
                    assert(entry_names(self.resolved())[i] == self.resolved()[i].0);
                    assert(entry_names(self.resolved())[j] == self.resolved()[j].0);
                }
            }
        }
        r
    }

    /// Returns whether this baseline contains resolved-package rules.
    pub fn has_resolved_rules(&self) -> (r: bool)
        ensures
            r == (self.resolved().len() > 0),
    {
        self.resolved_requirements.len() > 0
    }

    /// The resolved-package rule for one package, if any.
    pub fn resolved_requirement(&self, package: &str) -> (r: Option<&DependencyRequirement>)
        ensures
            r matches Some(req) ==> self.resolved().contains((package@, req@)),
            r is None <==> !has_rule_name(self.resolved(), package@),
    {
        find_rule(&self.resolved_requirements, package)
    }
}

/// The first rule for `package`.
fn find_rule<'a>(rules: &'a Vec<(String, DependencyRequirement)>, package: &str) -> (r: Option<
    &'a DependencyRequirement,
>)
    ensures
        r matches Some(req) ==> rule_views(rules@).contains((package@, req@)),
        r is None <==> !has_rule_name(rule_views(rules@), package@),
{
    let ghost views = rule_views(rules@);
    let mut i: usize = 0;
    while i < rules.len()
        invariant
            i <= rules.len(),
            views == rule_views(rules@),
            forall|k: int| 0 <= k < i ==> (#[trigger] views[k]).0 != package@,
        decreases rules.len() - i,
    {
        if str_equal(rules[i].0.as_str(), package) {
            assert(views[i as int] == (package@, rules@[i as int].1@));
            return Some(&rules[i].1);
        }
        assert(views[i as int].0 == rules@[i as int].0@);
        i = i + 1;
    }
    None
}

/// References to the names and requirements of stored rules, in order.
fn rule_refs<'a>(rules: &'a Vec<(String, DependencyRequirement)>) -> (r: Vec<(&'a str, &'a DependencyRequirement)>)
    ensures
        r@.len() == rules@.len(),
        forall|i: int| 0 <= i < r@.len() ==> (#[trigger] r@[i]).0@ == rule_views(rules@)[i].0 && r@[i].1@
            == rule_views(rules@)[i].1,
{
    let mut out: Vec<(&'a str, &'a DependencyRequirement)> = Vec::new();
    let mut i: usize = 0;
    while i < rules.len()
        invariant
            i <= rules.len(),
            out@.len() == i,
            forall|k: int| 0 <= k < i ==> (#[trigger] out@[k]).0@ == rule_views(rules@)[k].0 && out@[k].1@
                == rule_views(rules@)[k].1,
        decreases rules.len() - i,
    {
        out.push((rules[i].0.as_str(), &rules[i].1));
        i = i + 1;
    }
    out
}

/// An error at a line of a prefix of the text is the error of the whole text.
proof fn lemma_read_lines_prefix_error(chars: Seq<char>, n: int, lines: Seq<Seq<char>>)
    requires
        0 <= n <= chars.len(),
        n > 0 && chars[n - 1] == '\n',
        split_lines(chars.take(n)) == lines.push(Seq::<char>::empty()),
        read_lines(lines) is Err,
    ensures
        read_lines(split_lines(chars)) == read_lines(lines),
    decreases chars.len() - n,
{
    lemma_split_lines_extends(chars, n);
    let full = split_lines(chars);
    lemma_read_lines_error_extends(lines, full);
}

/// The lines of a text extend the complete lines of any of its prefixes that
/// ends in a line feed.
proof fn lemma_split_lines_extends(chars: Seq<char>, n: int)
    requires
        0 < n <= chars.len(),
        chars[n - 1] == '\n',
    ensures
        split_lines(chars).len() >= split_lines(chars.take(n)).len(),
        forall|k: int|
            0 <= k < split_lines(chars.take(n)).len() - 1 ==> #[trigger] split_lines(chars)[k]
                == split_lines(chars.take(n))[k],
    decreases chars.len() - n,
{
    if n < chars.len() {
        lemma_split_lines_extends(chars.drop_last(), n);
        assert(chars.drop_last().take(n) =~= chars.take(n));
        lemma_split_lines_nonempty(chars.drop_last());
        assert(chars.drop_last() =~= chars.take(chars.len() - 1));
    } else {
        assert(chars.take(n) =~= chars);
    }
}

/// An error on a prefix of the lines is the error of all of them.
proof fn lemma_read_lines_error_extends(prefix: Seq<Seq<char>>, all: Seq<Seq<char>>)
    requires
        prefix.len() <= all.len(),
        forall|k: int| 0 <= k < prefix.len() ==> #[trigger] all[k] == prefix[k],
        read_lines(prefix) is Err,
    ensures
        read_lines(all) == read_lines(prefix),
    decreases all.len(),
{
    if all.len() > prefix.len() {
        lemma_read_lines_error_extends(prefix, all.drop_last());
    } else {
        assert(all =~= prefix);
    }
}

/// Reads one raw line into sorted rules: the executable form of
/// [`read_line`].
fn read_line_into(
    raw: &Vec<char>,
    number: u128,
    rules: &mut Vec<(String, DependencyRequirement)>,
    Ghost(read): Ghost<Rules>,
) -> (r: Result<(), String>)
    requires
        stored_rules_ok(old(rules)@),
        same_rules(rule_views(old(rules)@), read),
    ensures
        r is Ok <==> read_line(read, number as nat, raw@) is Ok,
        r matches Err(message) ==> message@ == read_line(read, number as nat, raw@)->Err_0,
        r is Ok ==> stored_rules_ok(final(rules)@) && same_rules(
            rule_views(final(rules)@),
            read_line(read, number as nat, raw@)->Ok_0,
        ),
        r is Err ==> final(rules)@ == old(rules)@,
{
    let line = trim_chars(raw);
    if line.len() == 0 || line[0] == '#' {
        return Ok(());
    }
    let name_end = scan_chars(&line, 0, true);
    let malformed = if name_end < line.len() {
        let requirement_start = scan_chars(&line, name_end, false);
        requirement_start >= line.len() || scan_chars(&line, requirement_start, true) != line.len()
    } else {
        true
    };
    let name_chars = sub_chars(&line, 0, name_end);
    let name = string_from_chars(name_chars.as_slice());
    assert(name@ == field_name(line@)) by {
        assert(name_chars@ =~= line@.take(name_end as int));
    }
    if malformed || !is_package_name(name.as_str()) {
        let mut message = line_prefix(number);
        message.append(": expected `<package> <requirement>`, found ");
        let shown = debug_string(string_from_chars(line.as_slice()).as_str());
        message.append(shown.as_str());
        return Err(message);
    }
    let requirement_start = scan_chars(&line, name_end, false);
    let requirement_chars = sub_chars(&line, requirement_start, line.len());
    let requirement_text = string_from_chars(requirement_chars.as_slice());
    assert(requirement_text@ == field_requirement(line@)) by {
        assert(requirement_chars@ =~= line@.skip(requirement_start as int));
    }
    let requirement = match DependencyRequirement::parse(requirement_text.as_str()) {
        Ok(requirement) => requirement,
        Err(error) => {
            let mut message = line_prefix(number);
            message.append(": invalid Cargo requirement ");
            let shown = debug_string(requirement_text.as_str());
            message.append(shown.as_str());
            message.append(": ");
            message.append(error.as_str());
            return Err(message);
        },
    };
    let (pos, found) = insert_position(rules, name.as_str());
    proof {
        lemma_same_rules_names(rule_views(rules@), read, name@);
    }
    if found {
        proof {
            let v = rule_views(rules@);
            assert(v[pos as int].0 == name@);
        }
        let mut message = line_prefix(number);
        message.append(": duplicate package ");
        let shown = debug_string(name.as_str());
        message.append(shown.as_str());
        return Err(message);
    }
    proof {
        let v = rule_views(rules@);
        if has_rule_name(v, name@) {
            let k = choose|k: int| 0 <= k < v.len() && (#[trigger] v[k]).0 == name@;
            assert(v[k].0 == rules@[k].0@);
            if k < pos {
                assert(lex_lt(rules@[k].0@, name@));
            } else {
                assert(lex_lt(name@, rules@[k].0@));
            }
            lemma_lex_lt_irreflexive(name@);
        }
    }
    let ghost old_rules = rules@;
    let ghost entry = (name@, requirement@);
    rules.insert(pos, (name, requirement));
    proof {
        let v0 = rule_views(old_rules);
        let v1 = rule_views(rules@);
        assert(v1 =~= v0.insert(pos as int, entry));
        lemma_insert_contains(v0, pos as int, entry);
        lemma_push_contains(read, entry);
        assert(!has_rule_name(read, name@));
        assert(read_line(read, number as nat, raw@) == Ok::<Rules, Seq<char>>(read.push(entry)));
        assert forall|e: (Seq<char>, Seq<char>)| v1.contains(e) <==> read.push(entry).contains(e) by {
            assert(v0.contains(e) <==> read.contains(e));
        }
        let names = stored_names(rules@);
        assert forall|a: int, b: int| 0 <= a < b < names.len() implies lex_lt(
            #[trigger] names[a],
            #[trigger] names[b],
        ) by {
            let old_names = stored_names(old_rules);
            if b < pos {
                assert(names[a] == old_names[a] && names[b] == old_names[b]);
            } else if b == pos {
                assert(names[a] == old_rules[a].0@);
            } else if a == pos {
                assert(names[b] == old_rules[b - 1].0@);
            } else if a < pos {
                assert(names[a] == old_names[a] && names[b] == old_names[b - 1]);
            } else {
                assert(names[a] == old_names[a - 1] && names[b] == old_names[b - 1]);
            }
        }
        assert forall|k: int| 0 <= k < rules@.len() implies is_version_req(
            (#[trigger] rules@[k]).1@,
        ) by {
            if k < pos {
                assert(rules@[k] == old_rules[k]);
            } else if k > pos {
                assert(rules@[k] == old_rules[k - 1]);
            }
        }
    }
    Ok(())
}

// ---------------------------------------------------------------------------
// TOML baselines
// ---------------------------------------------------------------------------

/// The `>=` that opens a minimum-version rule.
pub open spec fn at_least() -> Seq<char> {
    seq!['>', '=']
}

/// `s` with every leading `>=` removed, as `str::trim_start_matches(">=")`
/// gives it.
pub open spec fn strip_at_least(s: Seq<char>) -> Seq<char>
    decreases s.len(),
{
    if has_prefix(s, at_least()) {
        strip_at_least(s.skip(2))
    } else {
        s
    }
}

/// How a parsed `semver::Version` displays: `MAJOR.MINOR.PATCH`, then
/// `-PRE` and `+BUILD` when those are present.
pub open spec fn version_display(v: ParsedVersionView) -> Seq<char> {
    decimal(v.0 as nat) + "."@ + decimal(v.1 as nat) + "."@ + decimal(v.2 as nat) + (if v.3.len() > 0 {
        "-"@ + v.3
    } else {
        Seq::empty()
    }) + (if v.4.len() > 0 {
        "+"@ + v.4
    } else {
        Seq::empty()
    })
}

/// The message for a resolved rule that is not `>=MAJOR.MINOR.PATCH`.
pub open spec fn minimum_form_message(name: Seq<char>) -> Seq<char> {
    "resolved rule for "@ + debug_text(name) + " must use >=MAJOR.MINOR.PATCH"@
}

/// Why a resolved rule's version part is not a complete stable version in
/// normal form, if it is not.
pub open spec fn minimum_version_error(name: Seq<char>, text: Seq<char>) -> Option<Seq<char>> {
    match semver_version_parse(trim(strip_at_least(text))) {
        Err(error) => Some(
            "resolved rule for "@ + debug_text(name) + " must use a complete version: "@ + error,
        ),
        Ok(v) => if v.3.len() == 0 && v.4.len() == 0 && trim(text) == at_least() + version_display(v) {
            None
        } else {
            Some(minimum_form_message(name))
        },
    }
}

/// Why a TOML rule is rejected, if it is: the package name must be valid; a
/// resolved rule must start with `>=`; the requirement must parse; and a
/// resolved rule must be exactly `>=MAJOR.MINOR.PATCH` of a stable version.
pub open spec fn rule_error(name: Seq<char>, text: Seq<char>, resolved: bool) -> Option<Seq<char>> {
    if !package_name_ok(name) {
        Some("invalid package name "@ + debug_text(name))
    } else if resolved && !has_prefix(text, at_least()) {
        Some(minimum_form_message(name))
    } else if semver_req_parse(text) is Err {
        Some(
            "invalid requirement "@ + debug_text(text) + " for "@ + debug_text(name) + ": "@
                + semver_req_parse(text)->Err_0,
        )
    } else if resolved {
        minimum_version_error(name, text)
    } else {
        None
    }
}

/// The error of the first rejected rule, in order.
pub open spec fn first_rule_error(rules: Rules, resolved: bool) -> Option<Seq<char>>
    decreases rules.len(),
{
    if rules.len() == 0 {
        None
    } else {
        match first_rule_error(rules.drop_last(), resolved) {
            Some(error) => Some(error),
            None => rule_error(rules.last().0, rules.last().1, resolved),
        }
    }
}

/// The view of string pairs.
pub open spec fn pair_views(v: Seq<(String, String)>) -> Rules {
    v.map_values(|e: (String, String)| (e.0@, e.1@))
}

/// The message for an unsupported TOML baseline format.
pub open spec fn format_message(format: u32) -> Seq<char> {
    "unsupported TOML baseline format "@ + decimal(format as nat)
}

/// What a TOML baseline document gives: the error message, or nothing wrong.
pub open spec fn toml_document_error(format: u32, direct: Rules, resolved: Rules) -> Option<Seq<char>> {
    if format != 3 {
        Some(format_message(format))
    } else if first_rule_error(direct, false) is Some {
        first_rule_error(direct, false)
    } else {
        first_rule_error(resolved, true)
    }
}

/// Appends `"resolved rule for <name:?>"` to a new message.
fn resolved_rule_prefix(name: &str) -> (r: String)
    ensures
        r@ == "resolved rule for "@ + debug_text(name@),
{
    let mut out = String::new();
    out.append("resolved rule for ");
    let shown = debug_string(name);
    out.append(shown.as_str());
    out
}

/// Executable form of [`version_display`].
fn display_version(major: u64, minor: u64, patch: u64, pre: &str, build: &str) -> (r: String)
    ensures
        r@ == version_display((major, minor, patch, pre@, build@)),
{
    let mut out = String::new();
    push_decimal(&mut out, major as u128);
    out.append(".");
    push_decimal(&mut out, minor as u128);
    out.append(".");
    push_decimal(&mut out, patch as u128);
    let ghost base = out@;
    let pre_chars = chars_of(pre);
    if pre_chars.len() > 0 {
        out.append("-");
        out.append(pre);
    }
    let ghost with_pre = out@;
    let build_chars = chars_of(build);
    if build_chars.len() > 0 {
        out.append("+");
        out.append(build);
    }
    proof {
        let v = (major, minor, patch, pre@, build@);
        let e: Seq<char> = Seq::empty();
        assert(base + e =~= base);
        assert(with_pre + e =~= with_pre);
        assert(out@ =~= version_display(v));
    }
    out
}

/// Executable form of [`minimum_version_error`].
fn minimum_version_check(name: &str, text: &str) -> (r: Option<String>)
    ensures
        match minimum_version_error(name@, text@) {
            Some(m) => r matches Some(message) && message@ == m,
            None => r is None,
        },
{
    let prefix = chars_of(">=");
    proof {
        reveal_strlit(">=");
        assert(prefix@ =~= at_least());
    }
    let mut rest = chars_of(text);
    while starts_with(&rest, &prefix)
        invariant
            prefix@ == at_least(),
            strip_at_least(rest@) == strip_at_least(text@),
        decreases rest@.len(),
    {
        rest = sub_chars(&rest, 2, rest.len());
    }
    let version_chars = trim_chars(&rest);
    let version_text = string_from_chars(version_chars.as_slice());
    match parse_version(version_text.as_str()) {
        Err(error) => {
            let mut message = resolved_rule_prefix(name);
            message.append(" must use a complete version: ");
            message.append(error.as_str());
            Some(message)
        },
        Ok(v) => {
            let trimmed = trim_chars(&chars_of(text));
            let trimmed_text = string_from_chars(trimmed.as_slice());
            let mut expected = String::new();
            expected.append(">=");
            let shown = display_version(v.major(), v.minor(), v.patch(), v.pre(), v.build());
            expected.append(shown.as_str());
            let pre_chars = chars_of(v.pre());
            let build_chars = chars_of(v.build());
            if pre_chars.len() == 0 && build_chars.len() == 0 && str_equal(
                trimmed_text.as_str(),
                expected.as_str(),
            ) {
                None
            } else {
                let mut message = resolved_rule_prefix(name);
                message.append(" must use >=MAJOR.MINOR.PATCH");
                Some(message)
            }
        },
    }
}

/// Executable form of [`rule_error`].
fn check_rule(name: &str, text: &str, resolved: bool) -> (r: Option<String>)
    ensures
        match rule_error(name@, text@, resolved) {
            Some(m) => r matches Some(message) && message@ == m,
            None => r is None,
        },
{
    if !is_package_name(name) {
        let mut message = String::new();
        message.append("invalid package name ");
        let shown = debug_string(name);
        message.append(shown.as_str());
        return Some(message);
    }
    if resolved {
        let prefix = str_starts_with_at_least(text);
        if !prefix {
            let mut message = resolved_rule_prefix(name);
            message.append(" must use >=MAJOR.MINOR.PATCH");
            return Some(message);
        }
    }
    match DependencyRequirement::parse(text) {
        Err(error) => {
            let mut message = String::new();
            message.append("invalid requirement ");
            let shown = debug_string(text);
            message.append(shown.as_str());
            message.append(" for ");
            let shown_name = debug_string(name);
            message.append(shown_name.as_str());
            message.append(": ");
            message.append(error.as_str());
            Some(message)
        },
        Ok(_) => {
            if resolved {
                minimum_version_check(name, text)
            } else {
                None
            }
        },
    }
}

/// Whether the text starts with `>=`.
fn str_starts_with_at_least(text: &str) -> (r: bool)
    ensures
        r == has_prefix(text@, at_least()),
{
    let chars = chars_of(text);
    let prefix = chars_of(">=");
    proof {
        reveal_strlit(">=");
        assert(prefix@ =~= at_least());
    }
    starts_with(&chars, &prefix)
}

/// Validates TOML rules in order, keeping them as requirements.
///
/// The rules arrive sorted by package name. The first rejected rule decides
/// the error.
fn parse_rules(rules: Vec<(String, String)>, resolved: bool) -> (r: Result<
    Vec<(String, DependencyRequirement)>,
    PolicyError,
>)
    requires
        names_sorted(entry_names(pair_views(rules@))),
    ensures
        r is Ok <==> first_rule_error(pair_views(rules@), resolved) is None,
        r matches Ok(parsed) ==> rule_views(parsed@) == pair_views(rules@) && stored_rules_ok(parsed@),
        r matches Err(e) ==> e matches PolicyError::InvalidBaseline { message } && message@
            == first_rule_error(pair_views(rules@), resolved)->Some_0,
{
    let ghost input = pair_views(rules@);
    let mut parsed: Vec<(String, DependencyRequirement)> = Vec::new();
    let mut i: usize = 0;
    while i < rules.len()
        invariant
            i <= rules.len(),
            input == pair_views(rules@),
            names_sorted(entry_names(input)),
            first_rule_error(input.take(i as int), resolved) is None,
            rule_views(parsed@) == input.take(i as int),
            forall|k: int| 0 <= k < parsed@.len() ==> is_version_req((#[trigger] parsed@[k]).1@),
        decreases rules.len() - i,
    {
        assert(input.take(i + 1).drop_last() =~= input.take(i as int));
        assert(input.take(i + 1).last() == input[i as int]);
        let name = rules[i].0.as_str();
        let text = rules[i].1.as_str();
        if let Some(message) = check_rule(name, text, resolved) {
            proof {
                lemma_first_rule_error_extends(input, i as int + 1, resolved);
            }
            return Err(PolicyError::InvalidBaseline { message });
        }
        let requirement = match DependencyRequirement::parse(text) {
            Ok(requirement) => requirement,
            Err(message) => {
                assert(false);
                return Err(PolicyError::InvalidBaseline { message });
            },
        };
        parsed.push((rules[i].0.clone(), requirement));
        i = i + 1;
        assert(rule_views(parsed@) =~= input.take(i as int));
    }
    assert(input.take(rules.len() as int) =~= input);
    proof {
        assert forall|a: int, b: int| 0 <= a < b < parsed@.len() implies lex_lt(
            #[trigger] stored_names(parsed@)[a],
            #[trigger] stored_names(parsed@)[b],
        ) by {
            assert(stored_names(parsed@)[a] == rule_views(parsed@)[a].0);
            assert(stored_names(parsed@)[b] == rule_views(parsed@)[b].0);
            assert(entry_names(input)[a] == input[a].0);
            assert(entry_names(input)[b] == input[b].0);
        }
    }
    Ok(parsed)
}

/// An error in a prefix of the rules is the error of all of them.
proof fn lemma_first_rule_error_extends(rules: Rules, n: int, resolved: bool)
    requires
        0 <= n <= rules.len(),
        first_rule_error(rules.take(n), resolved) is Some,
    ensures
        first_rule_error(rules, resolved) == first_rule_error(rules.take(n), resolved),
    decreases rules.len() - n,
{
    if n < rules.len() {
        assert(rules.take(n + 1).drop_last() =~= rules.take(n));
        lemma_first_rule_error_extends(rules, n + 1, resolved);
    } else {
        assert(rules.take(n) =~= rules);
    }
}

/// A rule table with `rule` recorded: the rule of the same name replaced, or
/// the rule inserted before the first name that follows it.
pub open spec fn insert_rule(table: Rules, rule: (Seq<char>, Seq<char>)) -> Rules
    decreases table.len(),
{
    if table.len() == 0 {
        seq![rule]
    } else if table[0].0 == rule.0 {
        seq![rule] + table.skip(1)
    } else if lex_lt(table[0].0, rule.0) {
        seq![table[0]] + insert_rule(table.skip(1), rule)
    } else {
        seq![rule] + table
    }
}

/// The table that TOML rules given in any order make: sorted by name, a
/// later rule for a name replacing an earlier one.
pub open spec fn toml_table(rules: Rules) -> Rules
    decreases rules.len(),
{
    if rules.len() == 0 {
        Seq::empty()
    } else {
        insert_rule(toml_table(rules.drop_last()), rules.last())
    }
}

/// Recording a rule at the place that [`insert_position`] finds is
/// [`insert_rule`].
proof fn lemma_insert_rule(table: Rules, rule: (Seq<char>, Seq<char>), pos: int, found: bool)
    requires
        names_sorted(entry_names(table)),
        0 <= pos <= table.len(),
        forall|i: int| 0 <= i < pos ==> lex_lt(#[trigger] table[i].0, rule.0),
        found ==> pos < table.len() && table[pos].0 == rule.0,
        !found ==> forall|i: int| pos <= i < table.len() ==> lex_lt(rule.0, #[trigger] table[i].0),
    ensures
        insert_rule(table, rule) == (if found {
            table.update(pos, rule)
        } else {
            table.insert(pos, rule)
        }),
    decreases table.len(),
{
    if table.len() == 0 {
        assert(seq![rule] =~= table.insert(pos, rule));
    } else if pos == 0 {
        if found {
            assert(seq![rule] + table.skip(1) =~= table.update(0, rule));
        } else {
            assert(lex_lt(rule.0, table[0].0));
            crate::text::lemma_lex_lt_asymmetric(rule.0, table[0].0);
            if table[0].0 == rule.0 {
                lemma_lex_lt_irreflexive(rule.0);
            }
            assert(seq![rule] + table =~= table.insert(0, rule));
        }
    } else {
        assert(lex_lt(table[0].0, rule.0));
        if table[0].0 == rule.0 {
            lemma_lex_lt_irreflexive(rule.0);
        }
        let rest = table.skip(1);
        assert forall|a: int, b: int| 0 <= a < b < rest.len() implies lex_lt(
            #[trigger] entry_names(rest)[a],
            #[trigger] entry_names(rest)[b],
        ) by {
            assert(entry_names(rest)[a] == entry_names(table)[a + 1]);
            assert(entry_names(rest)[b] == entry_names(table)[b + 1]);
        }
        assert forall|i: int| 0 <= i < pos - 1 implies lex_lt(#[trigger] rest[i].0, rule.0) by {
            assert(rest[i] == table[i + 1]);
        }
        if !found {
            assert forall|i: int| pos - 1 <= i < rest.len() implies lex_lt(rule.0, #[trigger] rest[i].0) by {
                assert(rest[i] == table[i + 1]);
            }
        } else {
            assert(rest[pos - 1] == table[pos]);
        }
        lemma_insert_rule(rest, rule, pos - 1, found);
        if found {
            assert(seq![table[0]] + rest.update(pos - 1, rule) =~= table.update(pos, rule));
        } else {
            assert(seq![table[0]] + rest.insert(pos - 1, rule) =~= table.insert(pos, rule));
        }
    }
}

/// Sorts TOML rules given in any order by name, a later rule for a name
/// replacing an earlier one, as a TOML table keyed by name holds them.
fn sorted_table(rules: &Vec<(String, String)>) -> (r: Vec<(String, String)>)
    ensures
        pair_views(r@) == toml_table(pair_views(rules@)),
        names_sorted(entry_names(pair_views(r@))),
{
    let ghost input = pair_views(rules@);
    let mut out: Vec<(String, String)> = Vec::new();
    let mut i: usize = 0;
    assert(pair_views(out@) =~= toml_table(input.take(0)));
    while i < rules.len()
        invariant
            i <= rules.len(),
            input == pair_views(rules@),
            pair_views(out@) == toml_table(input.take(i as int)),
            names_sorted(entry_names(pair_views(out@))),
        decreases rules.len() - i,
    {
        let ghost before = pair_views(out@);
        assert(stored_names(out@) =~= entry_names(before));
        let (pos, found) = insert_position(&out, rules[i].0.as_str());
        let entry = (rules[i].0.clone(), rules[i].1.clone());
        let ghost rule = input[i as int];
        assert(entry.0@ == rule.0 && entry.1@ == rule.1);
        proof {
            assert forall|k: int| 0 <= k < pos implies lex_lt(#[trigger] before[k].0, rule.0) by {
                assert(before[k].0 == out@[k].0@);
            }
            if found {
                assert(before[pos as int].0 == out@[pos as int].0@);
            } else {
                assert forall|k: int| pos <= k < before.len() implies lex_lt(rule.0, #[trigger] before[k].0) by {
                    assert(before[k].0 == out@[k].0@);
                }
            }
            lemma_insert_rule(before, rule, pos as int, found);
            assert(input.take(i + 1).drop_last() =~= input.take(i as int));
            assert(input.take(i + 1).last() == rule);
        }
        if found {
            out.set(pos, entry);
            assert(pair_views(out@) =~= before.update(pos as int, rule));
        } else {
            out.insert(pos, entry);
            assert(pair_views(out@) =~= before.insert(pos as int, rule));
        }
        proof {
            let names = entry_names(pair_views(out@));
            let old_names = entry_names(before);
            assert forall|a: int, b: int| 0 <= a < b < names.len() implies lex_lt(
                #[trigger] names[a],
                #[trigger] names[b],
            ) by {
                if found {
                    assert(names[a] == if a == pos { rule.0 } else { old_names[a] });
                    assert(names[b] == if b == pos { rule.0 } else { old_names[b] });
                    assert(old_names[pos as int] == rule.0);
                } else if b < pos {
                    assert(names[a] == old_names[a] && names[b] == old_names[b]);
                } else if b == pos {
                    assert(names[a] == before[a].0);
                } else if a == pos {
                    assert(names[b] == before[b - 1].0);
                } else if a < pos {
                    assert(names[a] == old_names[a] && names[b] == old_names[b - 1]);
                } else {
                    assert(names[a] == old_names[a - 1] && names[b] == old_names[b - 1]);
                }
            }
        }
        i = i + 1;
    }
    assert(input.take(rules.len() as int) =~= input);
    out
}

impl Baseline {
    /// Builds a baseline from a TOML baseline document: its `format`, and the
    /// `direct` and `resolved` tables as name and requirement pairs in any
    /// order. Each table is taken as [`toml_table`] keys it: sorted by name, a
    /// later pair for a name replacing an earlier one.
    ///
    /// The format must be `3`. Direct rules need a valid package name and a
    /// requirement `semver` parses; resolved rules must moreover be exactly
    /// `>=MAJOR.MINOR.PATCH` for a stable version. The first failure gives
    /// [`PolicyError::InvalidBaseline`].
    pub fn from_toml_document(
        format: u32,
        direct: Vec<(String, String)>,
        resolved: Vec<(String, String)>,
    ) -> (r: Result<Baseline, PolicyError>)
        ensures
            r is Ok <==> toml_document_error(
                format,
                toml_table(pair_views(direct@)),
                toml_table(pair_views(resolved@)),
            ) is None,
            r matches Ok(b) ==> b.wf() && b.direct() == toml_table(pair_views(direct@)) && b.resolved()
                == toml_table(pair_views(resolved@)),
            r matches Err(e) ==> e matches PolicyError::InvalidBaseline { message } && message@
                == toml_document_error(
                format,
                toml_table(pair_views(direct@)),
                toml_table(pair_views(resolved@)),
            )->Some_0,
    {
        if format != 3 {
            let mut message = String::new();
            message.append("unsupported TOML baseline format ");
            push_decimal(&mut message, format as u128);
            return Err(PolicyError::InvalidBaseline { message });
        }
        let requirements = parse_rules(sorted_table(&direct), false)?;
        let resolved_requirements = parse_rules(sorted_table(&resolved), true)?;
        let b = Baseline { requirements, resolved_requirements };
        proof {
            b.lemma_views();
        }
        Ok(b)
    }
}

// ---------------------------------------------------------------------------
// Laws
// ---------------------------------------------------------------------------

/// Reading back a parsed text baseline: a package has a rule exactly when a
/// line declares it, and the rule's requirement is the one that line
/// declares, the only one the baseline holds for it.
pub proof fn lemma_declared_requirement(b: Baseline, text: Seq<char>, name: Seq<char>, requirement: Seq<char>)
    requires
        b.wf(),
        text_rules(text) is Ok,
        same_rules(b.direct(), text_rules(text)->Ok_0),
        text_rules(text)->Ok_0.contains((name, requirement)),
    ensures
        has_rule_name(b.direct(), name),
        rule_for(b.direct(), name) == requirement,
        forall|other: Seq<char>| b.direct().contains((name, other)) ==> other == requirement,
{
    lemma_sorted_unique(entry_names(b.direct()));
    lemma_rule_for(b.direct(), name, requirement);
    assert forall|other: Seq<char>| b.direct().contains((name, other)) implies other == requirement by {
        lemma_rule_for(b.direct(), name, other);
    }
}

/// A package that no line of a parsed text baseline declares has no rule.
pub proof fn lemma_undeclared_package(b: Baseline, text: Seq<char>, name: Seq<char>)
    requires
        text_rules(text) is Ok,
        same_rules(b.direct(), text_rules(text)->Ok_0),
        !has_rule_name(text_rules(text)->Ok_0, name),
    ensures
        !has_rule_name(b.direct(), name),
{
    lemma_same_rules_names(b.direct(), text_rules(text)->Ok_0, name);
}

/// Blank lines and comment lines change nothing in what a baseline reads.
pub proof fn lemma_ignored_line(lines: Seq<Seq<char>>, line: Seq<char>)
    requires
        is_ignored_line(trim(line)),
    ensures
        read_lines(lines.push(line)) == read_lines(lines),
{
    assert(lines.push(line).drop_last() =~= lines);
}

/// A well-formed line for a package that an earlier line already declares is
/// refused as a duplicate.
pub proof fn lemma_duplicate_refused(lines: Seq<Seq<char>>, line: Seq<char>)
    requires
        read_lines(lines) is Ok,
        has_two_fields(trim(line)),
        package_name_ok(field_name(trim(line))),
        is_version_req(field_requirement(trim(line))),
        has_rule_name(read_lines(lines)->Ok_0, field_name(trim(line))),
        !is_ignored_line(trim(line)),
    ensures
        read_lines(lines.push(line)) is Err,
        read_lines(lines.push(line))->Err_0 == duplicate_message(
            lines.len() + 1,
            field_name(trim(line)),
        ),
{
    assert(lines.push(line).drop_last() =~= lines);
}

/// A line a baseline accepts on its own: blank, a comment, or a
/// `<package> <requirement>` pair with a valid package name and a
/// requirement `semver` parses.
pub open spec fn valid_rule_line(line: Seq<char>) -> bool {
    let t = trim(line);
    ||| is_ignored_line(t)
    ||| has_two_fields(t) && package_name_ok(field_name(t)) && is_version_req(field_requirement(t))
}

/// The package a non-ignored line declares.
pub open spec fn line_package(line: Seq<char>) -> Seq<char> {
    field_name(trim(line))
}

/// The rule a non-ignored line declares.
pub open spec fn line_rule(line: Seq<char>) -> (Seq<char>, Seq<char>) {
    (field_name(trim(line)), field_requirement(trim(line)))
}

/// Whether some non-ignored line declares the rule.
pub open spec fn declared_by(lines: Seq<Seq<char>>, rule: (Seq<char>, Seq<char>)) -> bool {
    exists|i: int| 0 <= i < lines.len() && !is_ignored_line(trim(#[trigger] lines[i])) && line_rule(lines[i]) == rule
}

/// A rule declared by a prefix of the lines is declared by the lines.
proof fn lemma_declared_by_extends(lines: Seq<Seq<char>>, rule: (Seq<char>, Seq<char>))
    requires
        lines.len() > 0,
        declared_by(lines.drop_last(), rule),
    ensures
        declared_by(lines, rule),
{
    let earlier = lines.drop_last();
    let i = choose|i: int| 0 <= i < earlier.len() && !is_ignored_line(trim(#[trigger] earlier[i])) && line_rule(earlier[i]) == rule;
    assert(lines[i] == earlier[i]);
}

/// A baseline whose lines are each valid, and that declares each package on
/// at most one line, is accepted; it holds the rule of every rule line, and
/// every rule it holds is declared by one of its lines.
pub proof fn lemma_valid_lines_accepted(lines: Seq<Seq<char>>)
    requires
        forall|i: int| 0 <= i < lines.len() ==> valid_rule_line(#[trigger] lines[i]),
        forall|i: int, j: int|
            0 <= i < j < lines.len() && !is_ignored_line(trim(#[trigger] lines[i])) && !is_ignored_line(
                trim(#[trigger] lines[j]),
            ) ==> line_package(lines[i]) != line_package(lines[j]),
    ensures
        read_lines(lines) is Ok,
        forall|i: int|
            0 <= i < lines.len() && !is_ignored_line(trim(#[trigger] lines[i])) ==> read_lines(
                lines,
            )->Ok_0.contains(line_rule(lines[i])),
        forall|k: int|
            0 <= k < read_lines(lines)->Ok_0.len() ==> declared_by(lines, #[trigger] read_lines(lines)->Ok_0[k]),
    decreases lines.len(),
{
    if lines.len() > 0 {
        let earlier = lines.drop_last();
        assert forall|i: int| 0 <= i < earlier.len() implies valid_rule_line(#[trigger] earlier[i]) by {
            assert(earlier[i] == lines[i]);
        }
        assert forall|i: int, j: int|
            0 <= i < j < earlier.len() && !is_ignored_line(trim(#[trigger] earlier[i])) && !is_ignored_line(
                trim(#[trigger] earlier[j]),
            ) implies line_package(earlier[i]) != line_package(earlier[j]) by {
            assert(earlier[i] == lines[i] && earlier[j] == lines[j]);
        }
        lemma_valid_lines_accepted(earlier);
        let rules = read_lines(earlier)->Ok_0;
        let n = lines.len() - 1;
        let last = lines[n];
        assert(lines.last() == last);
        assert(valid_rule_line(last));
        assert forall|k: int| 0 <= k < rules.len() implies declared_by(lines, #[trigger] rules[k]) by {
            lemma_declared_by_extends(lines, rules[k]);
        }
        if !is_ignored_line(trim(last)) {
            assert(!has_rule_name(rules, line_package(last))) by {
                if has_rule_name(rules, line_package(last)) {
                    let k = choose|k: int| 0 <= k < rules.len() && (#[trigger] rules[k]).0 == line_package(last);
                    assert(declared_by(earlier, rules[k]));
                    let i = choose|i: int|
                        0 <= i < earlier.len() && !is_ignored_line(trim(#[trigger] earlier[i])) && line_rule(
                            earlier[i],
                        ) == rules[k];
                    assert(earlier[i] == lines[i]);
                    assert(line_package(lines[i]) != line_package(lines[n]));
                }
            }
            let next = rules.push(line_rule(last));
            assert(read_lines(lines) == Ok::<Rules, Seq<char>>(next));
            assert forall|i: int|
                0 <= i < lines.len() && !is_ignored_line(trim(#[trigger] lines[i])) implies next.contains(
                line_rule(lines[i]),
            ) by {
                if i < n {
                    assert(earlier[i] == lines[i]);
                    let k = choose|k: int| 0 <= k < rules.len() && rules[k] == line_rule(earlier[i]);
                    assert(next[k] == rules[k]);
                } else {
                    assert(next[rules.len() as int] == line_rule(lines[i]));
                }
            }
            assert forall|k: int| 0 <= k < next.len() implies declared_by(lines, #[trigger] next[k]) by {
                if k < rules.len() {
                    assert(next[k] == rules[k]);
                } else {
                    assert(next[k] == line_rule(lines[n]));
                }
            }
        } else {
            assert(read_lines(lines) == Ok::<Rules, Seq<char>>(rules));
            assert forall|i: int|
                0 <= i < lines.len() && !is_ignored_line(trim(#[trigger] lines[i])) implies rules.contains(
                line_rule(lines[i]),
            ) by {
                assert(i < n);
                assert(earlier[i] == lines[i]);
            }
        }
    }
}

/// A text without a line feed is a single line.
proof fn lemma_split_single_line(s: Seq<char>)
    requires
        !s.contains('\n'),
    ensures
        split_lines(s) == seq![s],
    decreases s.len(),
{
    if s.len() > 0 {
        let p = s.drop_last();
        assert(!p.contains('\n')) by {
            if p.contains('\n') {
                let k = choose|k: int| 0 <= k < p.len() && p[k] == '\n';
                assert(s[k] == '\n');
            }
        }
        lemma_split_single_line(p);
        assert(s[s.len() - 1] != '\n');
        assert(s.drop_last() == p);
        assert(p.push(s.last()) =~= s);
        let ps = split_lines(p);
        assert(ps.len() == 1 && ps.last() == p);
        assert(ps.update(0, p.push(s.last())) =~= seq![s]);
    } else {
        assert(s =~= Seq::<char>::empty());
    }
}

/// A line feed at the end of a baseline changes nothing: the last line is
/// read whether or not a line feed ends it.
pub proof fn lemma_final_line_feed_optional(text: Seq<char>)
    ensures
        text_rules(text.push('\n')) == text_rules(text),
{
    let t = text.push('\n');
    assert(t.drop_last() =~= text);
    let lines = split_lines(text);
    assert(split_lines(t) == lines.push(Seq::<char>::empty()));
    assert(lines.push(Seq::<char>::empty()).drop_last() =~= lines);
    assert(trim(Seq::<char>::empty()) =~= Seq::<char>::empty());
}

/// A baseline of one `<package> <requirement>` line, with or without a
/// final line feed, holds exactly that line's rule.
pub proof fn lemma_single_rule_line(line: Seq<char>)
    requires
        !line.contains('\n'),
        valid_rule_line(line),
        !is_ignored_line(trim(line)),
    ensures
        text_rules(line) == Ok::<Rules, Seq<char>>(seq![line_rule(line)]),
        text_rules(line.push('\n')) == Ok::<Rules, Seq<char>>(seq![line_rule(line)]),
{
    lemma_split_single_line(line);
    assert(seq![line].drop_last() =~= Seq::<Seq<char>>::empty());
    assert(seq![line].last() == line);
    assert(read_lines(Seq::<Seq<char>>::empty()) == Ok::<Rules, Seq<char>>(Seq::empty()));
    assert(read_lines(seq![line]) == read_line(Seq::empty(), 1, line));
    let empty: Rules = Seq::empty();
    assert(!has_rule_name(empty, line_package(line)));
    assert(empty.push(line_rule(line)) =~= seq![line_rule(line)]);
    lemma_final_line_feed_optional(line);
}

/// A rule line after a baseline is read into it: appending a line feed and
/// a valid `<package> <requirement>` line for a package the baseline does
/// not name, with no line feed after it, adds that line's rule.
pub proof fn lemma_last_line_read(text: Seq<char>, line: Seq<char>)
    requires
        text_rules(text) is Ok,
        !line.contains('\n'),
        valid_rule_line(line),
        !is_ignored_line(trim(line)),
        !has_rule_name(text_rules(text)->Ok_0, line_package(line)),
    ensures
        text_rules(text.push('\n') + line) == Ok::<Rules, Seq<char>>(
            text_rules(text)->Ok_0.push(line_rule(line)),
        ),
{
    let head = text.push('\n');
    lemma_split_append(head, line);
    lemma_final_line_feed_optional(text);
    let lines = split_lines(head);
    let all = split_lines(head + line);
    assert(all.drop_last() =~= lines.drop_last().push(lines.last() + line).drop_last());
    assert(lines.last() == Seq::<char>::empty());
    assert(lines.drop_last().push(Seq::<char>::empty()) =~= lines);
    assert(Seq::<char>::empty() + line =~= line);
    assert(all =~= lines.drop_last().push(line));
    assert(all.drop_last() =~= lines.drop_last());
    assert(read_lines(lines) == read_lines(lines.drop_last())) by {
        assert(lines.drop_last().push(Seq::<char>::empty()) =~= lines);
        assert(trim(Seq::<char>::empty()) =~= Seq::<char>::empty());
    }
}

/// Appending text without a line feed extends the last line.
proof fn lemma_split_append(head: Seq<char>, tail: Seq<char>)
    requires
        !tail.contains('\n'),
    ensures
        split_lines(head + tail) == split_lines(head).drop_last().push(split_lines(head).last() + tail),
    decreases tail.len(),
{
    lemma_split_lines_nonempty(head);
    if tail.len() == 0 {
        assert(head + tail =~= head);
        assert(split_lines(head).last() + tail =~= split_lines(head).last());
        assert(split_lines(head).drop_last().push(split_lines(head).last()) =~= split_lines(head));
    } else {
        let t = tail.drop_last();
        assert(!t.contains('\n')) by {
            if t.contains('\n') {
                let k = choose|k: int| 0 <= k < t.len() && t[k] == '\n';
                assert(tail[k] == '\n');
            }
        }
        lemma_split_append(head, t);
        assert((head + tail).drop_last() =~= head + t);
        assert((head + tail).last() == tail.last());
        assert(tail[tail.len() - 1] != '\n');
        let p = split_lines(head + t);
        assert(p.len() == split_lines(head).len());
        assert(p.update(p.len() - 1, p.last().push(tail.last())) =~= split_lines(head).drop_last().push(
            split_lines(head).last() + tail,
        )) by {
            assert(split_lines(head).last() + t + seq![tail.last()] =~= split_lines(head).last() + tail);
            assert(p.last() == split_lines(head).last() + t);
            assert((split_lines(head).last() + t).push(tail.last()) =~= split_lines(head).last() + tail);
        }
    }
}

/// Every rule of an accepted TOML rule table passes the rule checks; in
/// particular every accepted resolved rule is `>=MAJOR.MINOR.PATCH` of a
/// stable version.
pub proof fn lemma_accepted_rules(rules: Rules, resolved: bool)
    requires
        first_rule_error(rules, resolved) is None,
    ensures
        forall|i: int| 0 <= i < rules.len() ==> rule_error(#[trigger] rules[i].0, rules[i].1, resolved) is None,
    decreases rules.len(),
{
    if rules.len() > 0 {
        lemma_accepted_rules(rules.drop_last(), resolved);
        assert forall|i: int| 0 <= i < rules.len() implies rule_error(
            #[trigger] rules[i].0,
            rules[i].1,
            resolved,
        ) is None by {
            if i < rules.len() - 1 {
                assert(rules.drop_last()[i] == rules[i]);
            }
        }
    }
}

} // verus!
