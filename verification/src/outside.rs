//! The calls into other crates, each with what is believed of it.

use crate::requirement::is_readable;
use crate::text::{byte_len, is_ascii_alphanumeric};
use crate::version::{
    is_digits, is_python_version_text, numeric_version, split, version_from, version_of,
    Pep440Version, Version,
};
use vstd::prelude::*;
use vstd::utf8::encode_utf8;

verus! {

/// The characters of an optional string.
pub open spec fn text_of(value: Option<String>) -> Option<Seq<char>> {
    match value {
        Some(s) => Some(s@),
        None => None,
    }
}

// ---------------------------------------------------------------------------
// serde_json
// ---------------------------------------------------------------------------

/// The string that the JSON text `raw` stands for, if it is a JSON string.
pub uninterp spec fn json_string_value(raw: Seq<char>) -> Option<Seq<char>>;

/// A JSON string without escapes: a quotation mark, then characters that are
/// neither quotation marks nor backslashes, then a quotation mark.
pub open spec fn is_plain_json_string(raw: Seq<char>) -> bool {
    &&& raw.len() >= 2
    &&& raw[0] == '"'
    &&& raw.last() == '"'
    &&& forall|i: int| 0 < i < raw.len() - 1 ==> #[trigger] raw[i] != '"' && raw[i] != '\\'
}

/// The first `n` characters behind a quotation mark, none of which is a quotation
/// mark or a backslash.
pub open spec fn is_plain_start(raw: Seq<char>, n: int) -> bool {
    &&& 0 <= n < raw.len()
    &&& raw[0] == '"'
    &&& forall|i: int| 0 < i <= n ==> #[trigger] raw[i] != '"' && raw[i] != '\\'
}

/// `serde_json::from_str::<String>`: the value of a JSON string. Its result is
/// named; beyond that, a string without escapes stands for what is between its
/// quotation marks; one with escapes begins with what stands before the first of
/// them; a control character between the quotation marks is refused, and a string
/// without escapes for nothing else; and no value takes more bytes than stand
/// between the quotation marks.
#[verifier::external_body]
pub(crate) fn json_string(raw: &str) -> (value: Option<String>)
    ensures
        text_of(value) == json_string_value(raw@),
        is_plain_json_string(raw@) && (forall|i: int|
            0 <= i < raw@.len() ==> #[trigger] raw@[i] >= ' ') ==> value is Some,
        value matches Some(v) ==> is_plain_json_string(raw@) ==> v@ == raw@.subrange(
            1,
            raw@.len() - 1,
        ),
        value matches Some(v) ==> forall|n: int| #[trigger]
            is_plain_start(raw@, n) ==> n <= v@.len() && v@.take(n) == raw@.subrange(1, n + 1),
        value is Some ==> raw@.len() > 0 && raw@[0] == '"' && raw@.last() == '"' ==> forall|i: int|
            0 <= i < raw@.len() ==> #[trigger] raw@[i] >= ' ',
        value matches Some(v) ==> raw@.len() > 0 && raw@[0] == '"' ==> byte_len(v@) + 2
            <= byte_len(raw@),
{
    serde_json::from_str::<String>(raw).ok()
}

// ---------------------------------------------------------------------------
// semver
// ---------------------------------------------------------------------------

/// The version that `text` stands for: its three numbers, its pre-release and
/// its build metadata.
pub uninterp spec fn semver_parse(text: Seq<char>) -> Option<
    (u64, u64, u64, Seq<char>, Seq<char>),
>;

/// Whether, of two versions with the same three numbers, the first takes
/// precedence for its pre-release and build metadata.
pub uninterp spec fn semver_suffix_newer(
    a_pre: Seq<char>,
    a_build: Seq<char>,
    b_pre: Seq<char>,
    b_build: Seq<char>,
) -> bool;

/// `semver::Version::parse`. Its result is named; beyond that, three numbers
/// joined by full stops are read as the numbers they write, unless one has a
/// needless zero in front or is too large, and build metadata comes only from
/// what follows a `+`.
#[verifier::external_body]
pub(crate) fn semver_version(text: &str) -> (version: Option<Version>)
    ensures
        version_of(version) == version_from(semver_parse(text@)),
        ({
            let parts = split(text@, '.');
            parts.len() == 3 && is_digits(parts[0]) && is_digits(parts[1]) && is_digits(parts[2])
                ==> version_of(version) == numeric_version(parts[0], parts[1], parts[2])
        }),
        version matches Some(v) ==> !text@.contains('+') ==> v.build@.len() == 0,
{
    semver::Version::parse(text).ok().map(
        |v|
            Version {
                major: v.major,
                minor: v.minor,
                patch: v.patch,
                pre: v.pre.as_str().to_string(),
                build: v.build.as_str().to_string(),
            },
    )
}

/// The order of `semver::Version`: `a > b`. The three numbers decide; where
/// they agree, the answer for pre-release and build metadata is named, and it is
/// no where both agree too.
#[verifier::external_body]
pub(crate) fn semver_newer(a: &Version, b: &Version) -> (newer: bool)
    ensures
        newer == (if a.major != b.major {
            a.major > b.major
        } else if a.minor != b.minor {
            a.minor > b.minor
        } else if a.patch != b.patch {
            a.patch > b.patch
        } else {
            (a.pre@ != b.pre@ || a.build@ != b.build@) && semver_suffix_newer(
                a.pre@,
                a.build@,
                b.pre@,
                b.build@,
            )
        }),
{
    let version = |v: &Version|
        semver::Version {
            major: v.major,
            minor: v.minor,
            patch: v.patch,
            pre: semver::Prerelease::new(&v.pre).unwrap_or_default(),
            build: semver::BuildMetadata::new(&v.build).unwrap_or_default(),
        };
    version(a) > version(b)
}

// ---------------------------------------------------------------------------
// pep440_rs
// ---------------------------------------------------------------------------

/// The Python version that `text` stands for: how it is written, and whether it
/// is neither a pre-release nor a development release.
pub uninterp spec fn pep440_parse(text: Seq<char>) -> Option<(Seq<char>, bool)>;

/// Whether the Python version that `a` writes takes precedence over the one
/// that `b` writes.
pub uninterp spec fn pep440_order(a: Seq<char>, b: Seq<char>) -> bool;

/// Whether the version specifier that `specifier` writes admits the Python
/// version that `version` writes.
pub uninterp spec fn pep440_admits(specifier: Seq<char>, version: Seq<char>) -> bool;

/// A text that a Python version is written as.
pub open spec fn is_pep440_text(text: Seq<char>) -> bool {
    pep440_parse(text) matches Some((written, stable)) && written == text
}

/// `pep440_rs::Version::from_str`, with the version's `Display` text and
/// `is_stable`. The result is named; beyond that, the text that a version is
/// written as is read as that version, and holds letters, digits, full stops,
/// exclamation marks and plus signs.
#[verifier::external_body]
pub(crate) fn pep440_version(text: &str) -> (version: Option<Pep440Version>)
    ensures
        (match version {
            Some(v) => Some((v.text@, v.stable)),
            None => None,
        }) == pep440_parse(text@),
        version matches Some(v) ==> pep440_parse(v.text@) == Some((v.text@, v.stable)),
        version matches Some(v) ==> is_python_version_text(v.text@),
{
    text.parse::<pep440_rs::Version>().ok().map(
        |v| Pep440Version { text: v.to_string(), stable: v.is_stable() },
    )
}

/// The order of `pep440_rs::Version`: `a > b`. The answer is named; beyond that,
/// among texts that versions are written as, no version is newer than one that is
/// newer than it, and what is not newer than `a` is not newer than `b` either
/// where `a` is not.
#[verifier::external_body]
pub(crate) fn pep440_newer(a: &str, b: &str) -> (newer: bool)
    ensures
        newer == pep440_order(a@, b@),
        newer && is_pep440_text(a@) && is_pep440_text(b@) ==> !pep440_order(b@, a@),
        !newer && is_pep440_text(a@) && is_pep440_text(b@) ==> forall|c: Seq<char>|
            is_pep440_text(c) && !pep440_order(c, a@) ==> !#[trigger] pep440_order(c, b@),
{
    a.parse::<pep440_rs::Version>().ok() > b.parse::<pep440_rs::Version>().ok()
}

/// `pep440_rs::VersionSpecifier::contains`. The answer is named; beyond that, a
/// specifier that pins a version admits that version.
#[verifier::external_body]
pub(crate) fn pep440_contains(specifier: &str, version: &str) -> (admits: bool)
    ensures
        admits == ((is_pep440_text(version@) && specifier@ == "=="@ + version@) || pep440_admits(
            specifier@,
            version@,
        )),
{
    match (specifier.parse::<pep440_rs::VersionSpecifier>(), version.parse()) {
        (Ok(specifier), Ok(version)) => specifier.contains(&version),
        _ => false,
    }
}

// ---------------------------------------------------------------------------
// pep508_rs
// ---------------------------------------------------------------------------

/// The package and the version specifiers that a Python requirement names; none
/// if it is not one, or names no version.
pub uninterp spec fn pep508_parse(requirement: Seq<char>) -> Option<(Seq<char>, Seq<Seq<char>>)>;

/// The texts of strings.
pub open spec fn texts_of(strings: Seq<String>) -> Seq<Seq<char>> {
    Seq::new(strings.len(), |i: int| strings[i]@)
}

/// `pep508_rs::Requirement::from_str`, with the requirement's name and its
/// version specifiers as they are written. The result is named. A requirement
/// that is read further than its version must not run into one of the parser's
/// panics, which [`crate::requirement::is_readable`] leaves out. Markers in
/// parentheses use the stack, one call for each of them.
#[verifier::external_body]
pub(crate) fn pep508_requirement(requirement: &str) -> (parsed: Option<(String, Vec<String>)>)
    requires
        is_readable(requirement@),
    ensures
        (match parsed {
            Some((name, specifiers)) => Some((name@, texts_of(specifiers@))),
            None => None,
        }) == pep508_parse(requirement@),
{
    let parsed = requirement.parse::<pep508_rs::Requirement<pep508_rs::VerbatimUrl>>().ok()?;
    match parsed.version_or_url? {
        pep508_rs::VersionOrUrl::VersionSpecifier(specifiers) => Some(
            (parsed.name.to_string(), specifiers.iter().map(|s| s.to_string()).collect()),
        ),
        pep508_rs::VersionOrUrl::Url(_) => None,
    }
}

// ---------------------------------------------------------------------------
// percent_encoding
// ---------------------------------------------------------------------------

/// A hexadecimal digit, in upper case.
pub open spec fn hex_digit(d: int) -> char {
    if d < 10 {
        ('0' as u32 + d) as char
    } else {
        ('A' as u32 + (d - 10)) as char
    }
}

/// A byte in an address: itself if it is a letter or a digit, else a percent
/// sign and two hexadecimal digits.
pub open spec fn encoded_byte(b: u8) -> Seq<char> {
    if b < 128 && is_ascii_alphanumeric(b as char) {
        seq![b as char]
    } else {
        seq!['%', hex_digit(b as int / 16), hex_digit(b as int % 16)]
    }
}

/// Bytes in an address.
pub open spec fn encoded_bytes(bytes: Seq<u8>) -> Seq<char>
    decreases bytes.len(),
{
    if bytes.len() == 0 {
        Seq::empty()
    } else {
        encoded_bytes(bytes.drop_last()) + encoded_byte(bytes.last())
    }
}

/// `percent_encoding::utf8_percent_encode` with the set `NON_ALPHANUMERIC`: of
/// the UTF-8 encoding, ASCII letters and digits stay, and every other byte is
/// written as a percent sign and two hexadecimal digits.
#[verifier::external_body]
pub(crate) fn percent_encode(text: &str) -> (encoded: String)
    ensures
        encoded@ == encoded_bytes(encode_utf8(text@)),
{
    percent_encoding::utf8_percent_encode(text, percent_encoding::NON_ALPHANUMERIC).to_string()
}

} // verus!
