//! Baseline sources: where the pinned baseline of a project comes from, and
//! the baseline loaded from it.

use vstd::prelude::*;
use vstd::std_specs::hash::DefaultHasherAdditionalSpecFns;
use vstd::string::StringExecFns;

use std::collections::hash_map::DefaultHasher;
use std::hash::Hasher;

use crate::baseline::{pair_views, same_rules, text_rules, toml_document_error, toml_table, Baseline};
use crate::policy_error::PolicyError;
use crate::project_config::ProjectConfig;
use crate::text::{chars_of, has_prefix, hex_digits, push_hex_digits, starts_with, str_equal, sub_chars, string_from_chars};

verus! {

/// A baseline together with the source commit used to load it.
#[derive(Debug, Clone)]
pub struct LoadedBaseline {
    /// Commit SHA recorded by the project configuration.
    pub commit: String,
    /// Baseline release selected by the project configuration.
    pub release: String,
    /// Parsed and validated baseline.
    pub baseline: Baseline,
}

/// What `url` reports of a parsed policy source URL.
pub struct SourceUrl {
    /// The URL scheme.
    pub scheme: String,
    /// Whether `Url::to_file_path` gives a local path.
    pub has_file_path: bool,
    /// That path as UTF-8 text, when it is valid UTF-8.
    pub file_path: Option<String>,
}

/// A parsed source URL as plain values: scheme, local path present, and the
/// UTF-8 local path.
pub type SourceUrlView = (Seq<char>, bool, Option<Seq<char>>);

impl View for SourceUrl {
    type V = SourceUrlView;

    open spec fn view(&self) -> SourceUrlView {
        (
            self.scheme@,
            self.has_file_path,
            match self.file_path {
                Some(p) => Some(p@),
                None => None,
            },
        )
    }
}

/// What the `url` crate makes of a source text: the scheme of the parsed
/// `url::Url`, whether `to_file_path` gives a path and that path as UTF-8
/// text when `camino` accepts it; or the parse error's message. The path
/// that `to_file_path` gives follows the path conventions of the platform
/// the crate is built for, which one build fixes.
pub uninterp spec fn parsed_source_url(source: Seq<char>) -> Result<SourceUrlView, Seq<char>>;

/// Parses a policy source URL with `url::Url::parse`.
///
/// Moves the parsed URL's scheme, whether `Url::to_file_path` succeeds, and
/// the path that `camino::Utf8PathBuf::from_path_buf` accepts into plain
/// values. The contract names the outcome [`parsed_source_url`] of the text.
#[verifier::external_body]
fn parse_source_url(source: &str) -> (r: Result<SourceUrl, String>)
    ensures
        r is Ok <==> parsed_source_url(source@) is Ok,
        r matches Ok(url) ==> parsed_source_url(source@)->Ok_0 == url@,
        r matches Err(m) ==> parsed_source_url(source@)->Err_0 == m@,
{
    let url = url::Url::parse(source).map_err(|error| error.to_string())?;
    let path = url.to_file_path();
    Ok(SourceUrl {
        scheme: url.scheme().to_owned(),
        has_file_path: path.is_ok(),
        file_path: path.ok().and_then(|p| camino::Utf8PathBuf::from_path_buf(p).ok()).map(
            camino::Utf8PathBuf::into_string,
        ),
    })
}

/// Where a policy baseline is read from.
#[derive(Debug, Clone, PartialEq, Eq)]
pub enum PolicySource {
    /// A local directory holding the policy repository.
    Local {
        /// The directory.
        root: String,
    },
    /// A Git repository, cloned from the given URL.
    Git {
        /// The URL to clone, without a leading `git+`.
        url: String,
    },
}

/// A policy source as plain values: whether it is Git, and its root or URL.
pub open spec fn policy_source_view(s: PolicySource) -> (bool, Seq<char>) {
    match s {
        PolicySource::Local { root } => (false, root@),
        PolicySource::Git { url } => (true, url@),
    }
}

/// The schemes read through Git.
pub open spec fn is_git_scheme(scheme: Seq<char>) -> bool {
    ||| scheme == "http"@
    ||| scheme == "https"@
    ||| scheme == "ssh"@
    ||| scheme == "git+file"@
    ||| scheme == "git+http"@
    ||| scheme == "git+https"@
    ||| scheme == "git+ssh"@
}

/// The `git+` that marks a Git transport in a URL.
pub open spec fn git_plus() -> Seq<char> {
    seq!['g', 'i', 't', '+']
}

/// The URL Git clones: the source without a leading `git+`.
pub open spec fn clone_url(source: Seq<char>) -> Seq<char> {
    if has_prefix(source, git_plus()) {
        source.skip(4)
    } else {
        source
    }
}

/// Where a source reads from: a local directory for `file` URLs, a Git clone
/// for Git schemes; or why the source is refused.
pub open spec fn source_choice(source: Seq<char>) -> Result<(bool, Seq<char>), Seq<char>> {
    match parsed_source_url(source) {
        Err(error) => Err("invalid policy source URL: "@ + error),
        Ok(url) => if url.0 == "file"@ {
            if !url.1 {
                Err("file policy source has no local path"@)
            } else if url.2 is None {
                Err("policy source path is not valid UTF-8"@)
            } else {
                Ok((false, url.2->Some_0))
            }
        } else if is_git_scheme(url.0) {
            Ok((true, clone_url(source)))
        } else {
            Err("unsupported source scheme "@ + url.0)
        },
    }
}

/// Decides where a configuration's baseline is read from.
///
/// `file` URLs read a local directory; `http`, `https`, `ssh` and their
/// `git+` forms, and `git+file`, read a Git clone of the URL without its
/// `git+`. Other schemes, unparsable URLs and file URLs without a UTF-8
/// local path fail with [`PolicyError::Source`].
pub fn select_source(reference: &ProjectConfig) -> (r: Result<PolicySource, PolicyError>)
    ensures
        r is Ok <==> source_choice(reference.source@) is Ok,
        r matches Ok(s) ==> policy_source_view(s) == source_choice(reference.source@)->Ok_0,
        r matches Err(e) ==> e matches PolicyError::Source { message } && message@ == source_choice(
            reference.source@,
        )->Err_0,
{
    let source = reference.source.as_str();
    let url = match parse_source_url(source) {
        Ok(url) => url,
        Err(error) => {
            let mut message = String::new();
            message.append("invalid policy source URL: ");
            message.append(error.as_str());
            return Err(PolicyError::Source { message });
        },
    };
    let scheme = url.scheme.as_str();
    if str_equal(scheme, "file") {
        if !url.has_file_path {
            return Err(PolicyError::Source { message: "file policy source has no local path".to_owned() });
        }
        return match url.file_path {
            Some(root) => Ok(PolicySource::Local { root }),
            None => Err(PolicySource::invalid_path()),
        };
    }
    if str_equal(scheme, "http") || str_equal(scheme, "https") || str_equal(scheme, "ssh") || str_equal(
        scheme,
        "git+file",
    ) || str_equal(scheme, "git+http") || str_equal(scheme, "git+https") || str_equal(scheme, "git+ssh") {
        let chars = chars_of(source);
        let prefix = chars_of("git+");
        proof {
            reveal_strlit("git+");
            assert(prefix@ =~= git_plus());
        }
        let url = if starts_with(&chars, &prefix) {
            let rest = sub_chars(&chars, 4, chars.len());
            assert(rest@ =~= chars@.skip(4));
            string_from_chars(rest.as_slice())
        } else {
            source.to_owned()
        };
        return Ok(PolicySource::Git { url });
    }
    let mut message = String::new();
    message.append("unsupported source scheme ");
    message.append(scheme);
    Err(PolicyError::Source { message })
}

impl PolicySource {
    /// The error for a local path that is not UTF-8.
    fn invalid_path() -> (r: PolicyError)
        ensures
            r matches PolicyError::Source { message } && message@ == "policy source path is not valid UTF-8"@,
    {
        PolicyError::Source { message: "policy source path is not valid UTF-8".to_owned() }
    }
}

/// What hashing a string slice with `Hash::hash` writes into a hasher whose
/// writes so far are `state`.
pub uninterp spec fn str_hash_writes(state: Seq<Seq<u8>>, s: Seq<char>) -> Seq<Seq<u8>>;

/// Feeds a string slice to a `DefaultHasher` through `<str as Hash>::hash`.
///
/// The contract names the hasher's writes afterwards
/// [`str_hash_writes`] of its writes before and the characters.
#[verifier::external_body]
fn hash_str_into(hasher: &mut DefaultHasher, s: &str)
    ensures
        final(hasher)@ == str_hash_writes(old(hasher)@, s@),
{
    std::hash::Hash::hash(s, hasher)
}

/// The cache directory name of a Git source: `git-` and the sixteen
/// lower-case hexadecimal digits of the source's `DefaultHasher` hash.
pub open spec fn cache_name(source: Seq<char>) -> Seq<char> {
    "git-"@ + hex_digits(DefaultHasher::spec_finish(str_hash_writes(Seq::empty(), source)) as nat, 16)
}

/// Creates a stable cache directory name for a source URL.
pub fn git_cache_name(source: &str) -> (r: String)
    ensures
        r@ == cache_name(source@),
{
    let mut hasher = DefaultHasher::new();
    hash_str_into(&mut hasher, source);
    let hash = hasher.finish();
    let mut name = String::new();
    name.append("git-");
    push_hex_digits(&mut name, hash, 16);
    name
}

/// `c` with ASCII upper-case letters made lower-case.
pub open spec fn ascii_lower(c: char) -> char {
    if 'A' <= c && c <= 'Z' {
        ((c as u8) + 32) as char
    } else {
        c
    }
}

/// Equality ignoring ASCII case, as `str::eq_ignore_ascii_case` decides it.
pub open spec fn equal_ignoring_ascii_case(a: Seq<char>, b: Seq<char>) -> bool {
    a.len() == b.len() && forall|i: int| 0 <= i < a.len() ==> ascii_lower(#[trigger] a[i]) == ascii_lower(b[i])
}

/// Whether two characters are equal ignoring ASCII case.
fn same_ignoring_ascii_case(x: char, y: char) -> (r: bool)
    ensures
        r == (ascii_lower(x) == ascii_lower(y)),
{
    let lx = if 'A' <= x && x <= 'Z' {
        ((x as u8) + 32) as char
    } else {
        x
    };
    let ly = if 'A' <= y && y <= 'Z' {
        ((y as u8) + 32) as char
    } else {
        y
    };
    lx == ly
}

/// Confirms that a Git checkout is at the requested revision, comparing the
/// checked-out `HEAD` with it ignoring ASCII case.
pub fn check_checkout(head: &str, revision: &str) -> (r: Result<(), PolicyError>)
    ensures
        r is Ok <==> equal_ignoring_ascii_case(head@, revision@),
        r matches Err(e) ==> e matches PolicyError::Source { message } && message@ == "Git source HEAD "@
            + head@ + " does not match requested revision "@ + revision@,
{
    let a = chars_of(head);
    let b = chars_of(revision);
    let mut same = a.len() == b.len();
    let mut i: usize = 0;
    while same && i < a.len()
        invariant
            i <= a.len(),
            same ==> a@.len() == b@.len(),
            same ==> forall|k: int| 0 <= k < i ==> ascii_lower(#[trigger] a@[k]) == ascii_lower(b@[k]),
            !same ==> !equal_ignoring_ascii_case(a@, b@),
        decreases a.len() - i,
    {
        if !same_ignoring_ascii_case(a[i], b[i]) {
            same = false;
        }
        i = i + 1;
    }
    if same {
        Ok(())
    } else {
        let mut message = String::new();
        message.append("Git source HEAD ");
        message.append(head);
        message.append(" does not match requested revision ");
        message.append(revision);
        Err(PolicyError::Source { message })
    }
}

/// The file name of the selected baseline release: the release and `.toml`
/// when the policy repository holds a TOML baseline for it, the release and
/// `.txt` otherwise.
pub fn baseline_file_name(reference: &ProjectConfig, toml: bool) -> (r: String)
    ensures
        r@ == reference.baseline@ + (if toml {
            ".toml"@
        } else {
            ".txt"@
        }),
{
    let mut name = reference.baseline.clone();
    if toml {
        name.append(".toml");
    } else {
        name.append(".txt");
    }
    name
}

/// Parses the text of the selected `.txt` baseline file into a baseline
/// recorded with the configuration's revision and release. A text baseline
/// holds direct rules only.
pub fn loaded_baseline(reference: &ProjectConfig, text: &str) -> (r: Result<LoadedBaseline, PolicyError>)
    ensures
        r is Ok <==> text_rules(text@) is Ok,
        r matches Ok(loaded) ==> loaded.commit@ == reference.revision@ && loaded.release@
            == reference.baseline@ && loaded.baseline.wf() && same_rules(
            loaded.baseline.direct(),
            text_rules(text@)->Ok_0,
        ) && loaded.baseline.resolved().len() == 0,
        r matches Err(e) ==> e matches PolicyError::InvalidBaseline { message } && message@ == text_rules(
            text@,
        )->Err_0,
{
    let baseline = Baseline::parse(text)?;
    Ok(LoadedBaseline { commit: reference.revision.clone(), release: reference.baseline.clone(), baseline })
}

/// Builds the baseline of the selected `.toml` baseline file from its
/// `format` and its `direct` and `resolved` tables, recorded with the
/// configuration's revision and release. The baseline holds the direct
/// rules and the resolved minimum-version rules of the document.
pub fn loaded_toml_baseline(
    reference: &ProjectConfig,
    format: u32,
    direct: Vec<(String, String)>,
    resolved: Vec<(String, String)>,
) -> (r: Result<LoadedBaseline, PolicyError>)
    ensures
        r is Ok <==> toml_document_error(format, toml_table(pair_views(direct@)), toml_table(pair_views(resolved@))) is None,
        r matches Ok(loaded) ==> loaded.commit@ == reference.revision@ && loaded.release@
            == reference.baseline@ && loaded.baseline.wf() && loaded.baseline.direct() == toml_table(
            pair_views(direct@),
        ) && loaded.baseline.resolved() == toml_table(pair_views(resolved@)),
        r matches Err(e) ==> e matches PolicyError::InvalidBaseline { message } && message@
            == toml_document_error(format, toml_table(pair_views(direct@)), toml_table(pair_views(resolved@)))->Some_0,
{
    let baseline = Baseline::from_toml_document(format, direct, resolved)?;
    Ok(LoadedBaseline { commit: reference.revision.clone(), release: reference.baseline.clone(), baseline })
}

/// The number of digits [`hex_digits`] gives is its width.
proof fn lemma_hex_digits_len(n: nat, width: nat)
    ensures
        hex_digits(n, width).len() == width,
    decreases width,
{
    if width > 0 {
        lemma_hex_digits_len(n / 16, (width - 1) as nat);
    }
}

/// A Git cache name is `git-` followed by sixteen lower-case hexadecimal
/// digits, and depends on the source alone.
pub proof fn lemma_cache_name_shape(source: Seq<char>, other: Seq<char>)
    ensures
        has_prefix(cache_name(source), "git-"@),
        cache_name(source).len() == "git-"@.len() + 16,
        source == other ==> cache_name(source) == cache_name(other),
{
    let digits = hex_digits(DefaultHasher::spec_finish(str_hash_writes(Seq::empty(), source)) as nat, 16);
    lemma_hex_digits_len(DefaultHasher::spec_finish(str_hash_writes(Seq::empty(), source)) as nat, 16);
    assert(("git-"@ + digits).take("git-"@.len() as int) =~= "git-"@);
}

} // verus!
