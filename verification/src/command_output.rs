//! Interpreting what the `git` and `cargo` commands print: their exit
//! status, standard output and standard error.

use vstd::prelude::*;
use vstd::string::StringExecFns;
use vstd::utf8::{decode_utf8, valid_utf8};

use crate::baseline::trim;
use crate::policy_error::PolicyError;
use crate::text::{chars_of, join, join_strings, string_from_chars};

verus! {

/// What the `Display` of the `FromUtf8Error` that `String::from_utf8` returns
/// for invalid bytes says.
pub uninterp spec fn utf8_error_text(bytes: Seq<u8>) -> Seq<char>;

/// Decodes bytes as UTF-8 with `String::from_utf8`.
///
/// The documentation promises success exactly for valid UTF-8, with the
/// decoded characters; the error's text is named [`utf8_error_text`].
#[verifier::external_body]
fn utf8_string(bytes: Vec<u8>) -> (r: Result<String, String>)
    ensures
        r is Ok <==> valid_utf8(bytes@),
        r matches Ok(s) ==> s@ == decode_utf8(bytes@),
        r matches Err(m) ==> m@ == utf8_error_text(bytes@),
{
    String::from_utf8(bytes).map_err(|error| error.to_string())
}

/// What `String::from_utf8_lossy` gives for bytes: their decoding, with a
/// replacement character for each invalid sequence.
pub uninterp spec fn lossy_utf8(bytes: Seq<u8>) -> Seq<char>;

/// Decodes bytes with `String::from_utf8_lossy`.
///
/// The contract names the result [`lossy_utf8`] of the bytes, and states the
/// documented fact that valid UTF-8 decodes unchanged.
#[verifier::external_body]
fn lossy_string(bytes: &[u8]) -> (r: String)
    ensures
        r@ == lossy_utf8(bytes@),
        valid_utf8(bytes@) ==> r@ == decode_utf8(bytes@),
{
    String::from_utf8_lossy(bytes).into_owned()
}

/// `s` without surrounding whitespace, as a new string.
fn trimmed(s: &str) -> (r: String)
    ensures
        r@ == trim(s@),
{
    let chars = chars_of(s);
    let t = crate::baseline::trim_chars(&chars);
    string_from_chars(t.as_slice())
}

/// The text of a failed command's standard error, trimmed.
pub open spec fn error_output(stderr: Seq<u8>) -> Seq<char> {
    trim(lossy_utf8(stderr))
}

/// What a `git` run gives: its trimmed standard output, or the failure.
pub open spec fn git_result(arguments: Seq<Seq<char>>, success: bool, stdout: Seq<u8>, stderr: Seq<u8>) -> Result<
    Seq<char>,
    Seq<char>,
> {
    if !success {
        Err("git "@ + join(arguments, " "@) + " failed: "@ + error_output(stderr))
    } else if !valid_utf8(stdout) {
        Err("git "@ + join(arguments, " "@) + " returned non-UTF-8 output: "@ + utf8_error_text(stdout))
    } else {
        Ok(trim(decode_utf8(stdout)))
    }
}

/// Interprets a finished `git` run with the given arguments: a failed run is
/// a [`PolicyError::Source`] carrying its trimmed standard error; otherwise
/// the standard output must be UTF-8, and is returned trimmed.
pub fn git_output(arguments: &Vec<String>, success: bool, stdout: Vec<u8>, stderr: &[u8]) -> (r: Result<
    String,
    PolicyError,
>)
    ensures
        r is Ok <==> git_result(arguments@.map_values(|a: String| a@), success, stdout@, stderr@) is Ok,
        r matches Ok(out) ==> out@ == git_result(
            arguments@.map_values(|a: String| a@),
            success,
            stdout@,
            stderr@,
        )->Ok_0,
        r matches Err(e) ==> e matches PolicyError::Source { message } && message@ == git_result(
            arguments@.map_values(|a: String| a@),
            success,
            stdout@,
            stderr@,
        )->Err_0,
{
    if !success {
        let mut message = String::new();
        message.append("git ");
        let joined = join_strings(arguments, " ");
        message.append(joined.as_str());
        message.append(" failed: ");
        let text = lossy_string(stderr);
        let shown = trimmed(text.as_str());
        message.append(shown.as_str());
        return Err(PolicyError::Source { message });
    }
    match utf8_string(stdout) {
        Ok(text) => Ok(trimmed(text.as_str())),
        Err(error) => {
            let mut message = String::new();
            message.append("git ");
            let joined = join_strings(arguments, " ");
            message.append(joined.as_str());
            message.append(" returned non-UTF-8 output: ");
            message.append(error.as_str());
            Err(PolicyError::Source { message })
        },
    }
}

/// What `camino::Utf8Path::parent` gives for a path.
pub uninterp spec fn utf8_path_parent(path: Seq<char>) -> Option<Seq<char>>;

/// The parent of a path, with `camino::Utf8Path::parent`.
///
/// The contract names the result [`utf8_path_parent`] of the path text.
#[verifier::external_body]
fn path_parent(path: &str) -> (r: Option<String>)
    ensures
        match r {
            Some(p) => utf8_path_parent(path@) == Some(p@),
            None => utf8_path_parent(path@) is None,
        },
{
    camino::Utf8Path::new(path).parent().map(|parent| parent.as_str().to_owned())
}

/// What `cargo locate-project --workspace` gives: the directory of the
/// workspace manifest it prints, or the failure.
pub open spec fn workspace_root_result(success: bool, stdout: Seq<u8>, stderr: Seq<u8>) -> Result<
    Seq<char>,
    Seq<char>,
> {
    if !success {
        Err(error_output(stderr))
    } else if !valid_utf8(stdout) {
        Err("Cargo workspace path is not UTF-8: "@ + utf8_error_text(stdout))
    } else {
        match utf8_path_parent(trim(decode_utf8(stdout))) {
            Some(root) => Ok(root),
            None => Err("Cargo workspace manifest has no parent"@),
        }
    }
}

/// Interprets a finished `cargo locate-project --workspace` run: a failed run
/// is a `DP201` Cargo error carrying its trimmed standard error; otherwise
/// the printed manifest path must be UTF-8 and have a parent directory,
/// which is the workspace root.
pub fn workspace_root_from_output(success: bool, stdout: Vec<u8>, stderr: &[u8]) -> (r: Result<
    String,
    PolicyError,
>)
    ensures
        r is Ok <==> workspace_root_result(success, stdout@, stderr@) is Ok,
        r matches Ok(root) ==> root@ == workspace_root_result(success, stdout@, stderr@)->Ok_0,
        r matches Err(e) ==> e matches PolicyError::Cargo { code, message } && code@ == "DP201"@
            && message@ == workspace_root_result(success, stdout@, stderr@)->Err_0,
{
    if !success {
        let text = lossy_string(stderr);
        let message = trimmed(text.as_str());
        return Err(PolicyError::Cargo { code: "DP201", message });
    }
    let manifest = match utf8_string(stdout) {
        Ok(text) => trimmed(text.as_str()),
        Err(error) => {
            let mut message = String::new();
            message.append("Cargo workspace path is not UTF-8: ");
            message.append(error.as_str());
            return Err(PolicyError::Cargo { code: "DP201", message });
        },
    };
    match path_parent(manifest.as_str()) {
        Some(root) => Ok(root),
        None => Err(
            PolicyError::Cargo { code: "DP201", message: "Cargo workspace manifest has no parent".to_owned() },
        ),
    }
}

/// Decides what a check needs before it runs, once it needs a lock file:
/// nothing when the workspace lock file exists (`false`); generating one when
/// the caller asked for a temporary lock file (`true`); otherwise a `DP402`
/// Cargo error naming the lock file.
pub fn temporary_lockfile_needed(lock_exists: bool, requested: bool, lock_path: &str) -> (r: Result<
    bool,
    PolicyError,
>)
    ensures
        r is Ok <==> lock_exists || requested,
        r matches Ok(generate) ==> generate == !lock_exists,
        r matches Err(e) ==> e matches PolicyError::Cargo { code, message } && code@ == "DP402"@ && message@
            == "resolved dependency rules require "@ + lock_path@ + "; pass --temporary-lockfile in CI"@,
{
    if lock_exists {
        return Ok(false);
    }
    if !requested {
        let mut message = String::new();
        message.append("resolved dependency rules require ");
        message.append(lock_path);
        message.append("; pass --temporary-lockfile in CI");
        return Err(PolicyError::Cargo { code: "DP402", message });
    }
    Ok(true)
}

/// Interprets a `cargo generate-lockfile` run: it succeeded only when the
/// command succeeded and the lock file now exists; otherwise a `DP405` Cargo
/// error carrying the trimmed standard error.
pub fn lockfile_generated(success: bool, lock_exists: bool, stderr: &[u8]) -> (r: Result<(), PolicyError>)
    ensures
        r is Ok <==> success && lock_exists,
        r matches Err(e) ==> e matches PolicyError::Cargo { code, message } && code@ == "DP405"@ && message@
            == "temporary Cargo.lock generation failed: "@ + error_output(stderr@),
{
    if success && lock_exists {
        return Ok(());
    }
    let mut message = String::new();
    message.append("temporary Cargo.lock generation failed: ");
    let text = lossy_string(stderr);
    let shown = trimmed(text.as_str());
    message.append(shown.as_str());
    Err(PolicyError::Cargo { code: "DP405", message })
}

} // verus!
