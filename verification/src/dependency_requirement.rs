//! A parsed Cargo requirement retained by a dependency baseline, and the calls
//! into `semver` that parse and compare requirements and versions.

use vstd::prelude::*;

verus! {

/// A parsed Cargo version requirement.
#[verifier::external_type_specification]
#[verifier::external_body]
pub struct ExVersionReq(semver::VersionReq);

/// Cloning a requirement with the `Clone` that `semver` derives for
/// `VersionReq`, which the derived `Clone` of [`DependencyRequirement`] calls.
/// The contract claims nothing of the copy.
pub assume_specification[ <semver::VersionReq as Clone>::clone ](req: &semver::VersionReq) -> (r: semver::VersionReq);

/// What `semver::VersionReq::parse` gives for a text: `Ok` when the text is a
/// Cargo requirement, otherwise the message of the error it returns.
pub uninterp spec fn semver_req_parse(text: Seq<char>) -> Result<(), Seq<char>>;

/// Whether `semver::VersionReq::parse` accepts the text.
pub open spec fn is_version_req(text: Seq<char>) -> bool {
    semver_req_parse(text) is Ok
}

/// Parses a Cargo requirement with `semver::VersionReq::parse`.
///
/// The contract states that the call succeeds exactly when
/// [`semver_req_parse`] of the text is `Ok`, and that the error's `Display`
/// text is the message it names; both depend on the text alone.
#[verifier::external_body]
fn parse_version_req(text: &str) -> (r: Result<semver::VersionReq, String>)
    ensures
        r is Ok <==> semver_req_parse(text@) is Ok,
        r matches Err(message) ==> semver_req_parse(text@)->Err_0 == message@,
{
    semver::VersionReq::parse(text).map_err(|error| error.to_string())
}

/// A parsed version.
#[verifier::external_type_specification]
#[verifier::external_body]
pub struct ExVersion(semver::Version);

/// A parsed `semver::Version` and its parts: major, minor and patch numbers,
/// pre-release and build metadata.
///
/// The parts are those of the parsed version; [`parse_version`] is the only
/// constructor.
pub struct ParsedVersion {
    /// Major version number.
    major: u64,
    /// Minor version number.
    minor: u64,
    /// Patch version number.
    patch: u64,
    /// Pre-release identifier, empty for a stable release.
    pre: String,
    /// Build metadata, empty when absent.
    build: String,
    /// The parsed version the parts were read from.
    version: semver::Version,
}

/// The parts of a parsed version as plain values.
pub type ParsedVersionView = (u64, u64, u64, Seq<char>, Seq<char>);

impl View for ParsedVersion {
    type V = ParsedVersionView;

    closed spec fn view(&self) -> ParsedVersionView {
        (self.major, self.minor, self.patch, self.pre@, self.build@)
    }
}

impl ParsedVersion {
    /// The major version number.
    pub fn major(&self) -> (r: u64)
        ensures
            r == self@.0,
    {
        self.major
    }

    /// The minor version number.
    pub fn minor(&self) -> (r: u64)
        ensures
            r == self@.1,
    {
        self.minor
    }

    /// The patch version number.
    pub fn patch(&self) -> (r: u64)
        ensures
            r == self@.2,
    {
        self.patch
    }

    /// The pre-release identifier, empty for a stable release.
    pub fn pre(&self) -> (r: &str)
        ensures
            r@ == self@.3,
    {
        self.pre.as_str()
    }

    /// The build metadata, empty when absent.
    pub fn build(&self) -> (r: &str)
        ensures
            r@ == self@.4,
    {
        self.build.as_str()
    }
}

/// What `semver::Version::parse` gives for a text: its parts, or the message
/// of the error it returns.
pub uninterp spec fn semver_version_parse(text: Seq<char>) -> Result<ParsedVersionView, Seq<char>>;

/// Parses a complete version with `semver::Version::parse`.
///
/// On success the version is kept with its parts (pre-release and build
/// metadata by their `as_str` text) in a [`ParsedVersion`]; on failure the
/// error's `Display` text is returned. The contract names the outcome
/// [`semver_version_parse`] of the text.
#[verifier::external_body]
pub(crate) fn parse_version(text: &str) -> (r: Result<ParsedVersion, String>)
    ensures
        r is Ok <==> semver_version_parse(text@) is Ok,
        r matches Ok(v) ==> semver_version_parse(text@)->Ok_0 == v@,
        r matches Err(m) ==> semver_version_parse(text@)->Err_0 == m@,
{
    semver::Version::parse(text)
        .map(|v| ParsedVersion {
            major: v.major,
            minor: v.minor,
            patch: v.patch,
            pre: v.pre.as_str().to_owned(),
            build: v.build.as_str().to_owned(),
            version: v,
        })
        .map_err(|error| error.to_string())
}

/// One declared Cargo version requirement from a baseline line.
///
/// Instances are obtained from a [`crate::Baseline`], so the original text and
/// the parsed requirement stay consistent: `version` is what
/// `semver::VersionReq::parse` gives for `text`.
#[derive(Debug, Clone)]
pub struct DependencyRequirement {
    /// Original requirement text as it appeared in the baseline.
    text: String,
    /// Parsed semantic-version requirement used for comparisons.
    version: semver::VersionReq,
}

impl View for DependencyRequirement {
    type V = Seq<char>;

    /// A requirement is seen as its original text.
    closed spec fn view(&self) -> Seq<char> {
        self.text@
    }
}

impl DependencyRequirement {
    /// Parses a requirement text, keeping the text and its parsed form.
    ///
    /// Succeeds exactly when `semver` accepts the text; otherwise returns the
    /// `semver` error message.
    pub fn parse(text: &str) -> (r: Result<DependencyRequirement, String>)
        ensures
            r is Ok <==> is_version_req(text@),
            r matches Ok(req) ==> req@ == text@,
            r matches Err(message) ==> semver_req_parse(text@)->Err_0 == message@,
    {
        match parse_version_req(text) {
            Ok(version) => Ok(DependencyRequirement { text: text.to_owned(), version }),
            Err(message) => Err(message),
        }
    }

    /// Returns the original Cargo requirement text from the baseline.
    pub fn text(&self) -> (r: &str)
        ensures
            r@ == self@,
    {
        self.text.as_str()
    }

    /// Returns the parsed Cargo requirement used for comparisons.
    pub fn version(&self) -> (r: &semver::VersionReq)
        ensures
            *r == self.parsed(),
    {
        &self.version
    }

    /// The parsed requirement held beside the text: what
    /// `semver::VersionReq::parse` gave for it.
    pub closed spec fn parsed(&self) -> semver::VersionReq {
        self.version
    }
}

/// Whether the requirements that `semver::VersionReq::parse` gives for two
/// texts compare equal under the `PartialEq` that `semver` derives.
pub uninterp spec fn semver_req_equal(a: Seq<char>, b: Seq<char>) -> bool;

/// Compares two parsed requirements with `<semver::VersionReq as PartialEq>::eq`.
///
/// A requirement's parsed form is what `semver::VersionReq::parse` gave for
/// its text (the fields are private and [`DependencyRequirement::parse`] is
/// the only constructor), so the contract names the answer
/// [`semver_req_equal`] of the two texts.
#[verifier::external_body]
pub(crate) fn requirements_equal(a: &DependencyRequirement, b: &DependencyRequirement) -> (r: bool)
    ensures
        r == semver_req_equal(a@, b@),
{
    a.version == b.version
}

/// Whether the requirement that `semver::VersionReq::parse` gives for a text
/// `matches` the version with the given parts.
pub uninterp spec fn semver_req_matches(requirement: Seq<char>, version: ParsedVersionView) -> bool;

/// Checks a parsed version against a parsed requirement with
/// `semver::VersionReq::matches`.
///
/// The requirement is what `semver` parsed from its text, and the version is
/// determined by its parts, so the contract names the answer
/// [`semver_req_matches`] of the requirement text and the version's parts.
#[verifier::external_body]
pub(crate) fn requirement_matches(requirement: &DependencyRequirement, version: &ParsedVersion) -> (r: bool)
    ensures
        r == semver_req_matches(requirement@, version@),
{
    requirement.version.matches(&version.version)
}

} // verus!
