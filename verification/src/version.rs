//! Semantic versions: how they are read, written and compared.

use crate::outside::{
    is_pep440_text, pep440_admits, pep440_contains, pep440_newer, pep440_order, pep440_parse,
    pep440_version, semver_newer, semver_parse, semver_suffix_newer, semver_version, texts_of,
};
use crate::text::{
    before, chars_of, find_char, index_of, is_ascii_alphanumeric, is_ascii_digit, lemma_index_of,
    string_of, trim, trimmed, up_to,
};
use vstd::prelude::*;
use vstd::slice::slice_subrange;
use vstd::string::{StrSliceExecFns, StringExecFns};

verus! {

// ---------------------------------------------------------------------------
// Splitting
// ---------------------------------------------------------------------------

/// The pieces of `s` between the occurrences of `sep`.
pub open spec fn split(s: Seq<char>, sep: char) -> Seq<Seq<char>>
    decreases s.len(),
{
    proof {
        lemma_index_of(s, sep, 0, s.len() as int);
    }
    match index_of(s, sep, 0, s.len() as int) {
        Some(i) => seq![s.take(i)] + split(s.skip(i + 1), sep),
        None => seq![s],
    }
}

/// Splits `s` at every `sep`.
pub fn split_at_char<'a>(s: &'a [char], sep: char) -> (parts: Vec<&'a [char]>)
    ensures
        parts@.len() == split(s@, sep).len(),
        forall|i: int| 0 <= i < parts@.len() ==> (#[trigger] parts@[i])@ == split(s@, sep)[i],
{
    let mut parts: Vec<&'a [char]> = Vec::new();
    let mut from: usize = 0;
    let ghost whole = split(s@, sep);
    assert(s@.skip(0) =~= s@);
    loop
        invariant
            from <= s@.len(),
            whole == split(s@, sep),
            whole.len() == parts@.len() + split(s@.skip(from as int), sep).len(),
            forall|i: int| 0 <= i < parts@.len() ==> (#[trigger] parts@[i])@ == whole[i],
            forall|i: int|
                0 <= i < split(s@.skip(from as int), sep).len() ==> whole[parts@.len() + i]
                    == #[trigger] split(s@.skip(from as int), sep)[i],
        decreases s@.len() - from,
    {
        let rest = slice_subrange(s, from, s.len());
        assert(rest@ =~= s@.skip(from as int));
        match find_char(rest, sep, 0, rest.len()) {
            Some(i) => {
                let part = slice_subrange(rest, 0, i);
                assert(part@ =~= rest@.take(i as int));
                assert(rest@.skip(i + 1) =~= s@.skip(from + i + 1));
                let ghost tail = split(s@.skip(from + i + 1), sep);
                let ghost here = split(s@.skip(from as int), sep);
                assert(here == seq![part@] + tail);
                assert(here[0] == part@);
                assert forall|k: int| 0 <= k < tail.len() implies whole[parts@.len() + 1 + k]
                    == #[trigger] tail[k] by {
                    assert(here[k + 1] == tail[k]);
                }
                parts.push(part);
                from = from + i + 1;
            },
            None => {
                assert(split(s@.skip(from as int), sep) =~= seq![rest@]);
                assert(split(s@.skip(from as int), sep)[0] == rest@);
                parts.push(rest);
                return parts;
            },
        }
    }
}

/// A piece without the separator is not split further.
pub proof fn lemma_split_one(a: Seq<char>, sep: char)
    requires
        !a.contains(sep),
    ensures
        split(a, sep) == seq![a],
{
    lemma_index_of(a, sep, 0, a.len() as int);
}

/// The first piece is what stands before the first separator.
pub proof fn lemma_split_first(a: Seq<char>, b: Seq<char>, sep: char)
    requires
        !a.contains(sep),
    ensures
        split(a.push(sep) + b, sep) == seq![a] + split(b, sep),
{
    let s = a.push(sep) + b;
    lemma_index_of(s, sep, 0, s.len() as int);
    assert(s[a.len() as int] == sep);
    match index_of(s, sep, 0, s.len() as int) {
        Some(i) => {
            if i < a.len() {
                assert(a[i] == sep);
            }
            assert(i == a.len());
            assert(s.take(i) =~= a);
            assert(s.skip(i + 1) =~= b);
        },
        None => {},
    }
}

// ---------------------------------------------------------------------------
// Decimal numbers
// ---------------------------------------------------------------------------

/// Whether `s` consists of digits.
pub open spec fn is_digits(s: Seq<char>) -> bool {
    forall|i: int| 0 <= i < s.len() ==> is_ascii_digit(#[trigger] s[i])
}

/// The number that the digits `s` write.
pub open spec fn number(s: Seq<char>) -> nat
    decreases s.len(),
{
    if s.len() == 0 {
        0
    } else {
        number(s.drop_last()) * 10 + ((s.last() as u32) - ('0' as u32)) as nat
    }
}

/// The digit of `d`.
pub open spec fn digit(d: nat) -> char {
    (('0' as u32 + d) as u32) as char
}

/// The decimal digits of `n`.
pub open spec fn decimal(n: nat) -> Seq<char>
    decreases n,
{
    if n < 10 {
        seq![digit(n)]
    } else {
        decimal(n / 10).push(digit(n % 10))
    }
}

/// The decimal digits of a number write that number, without a needless zero.
pub proof fn lemma_decimal(n: nat)
    ensures
        is_digits(decimal(n)),
        decimal(n).len() > 0,
        decimal(n).len() > 1 ==> decimal(n)[0] != '0',
        n > 0 ==> decimal(n)[0] != '0',
        number(decimal(n)) == n,
    decreases n,
{
    reveal_with_fuel(number, 2);
    if n >= 10 {
        lemma_decimal(n / 10);
        assert(decimal(n).drop_last() =~= decimal(n / 10));
        assert(decimal(n).last() == digit(n % 10));
    } else {
        assert(decimal(n).drop_last() =~= Seq::<char>::empty());
    }
}

/// Writes `n` in decimal.
pub fn decimal_text(n: u64) -> (text: String)
    ensures
        text@ == decimal(n as nat),
    decreases n,
{
    let last = digit_char(n % 10);
    if n < 10 {
        let mut text = String::new();
        text.push(last);
        text
    } else {
        let mut text = decimal_text(n / 10);
        text.push(last);
        text
    }
}

/// The digit of `d`.
fn digit_char(d: u64) -> (c: char)
    requires
        d < 10,
    ensures
        c == digit(d as nat),
{
    if d == 0 {
        '0'
    } else if d == 1 {
        '1'
    } else if d == 2 {
        '2'
    } else if d == 3 {
        '3'
    } else if d == 4 {
        '4'
    } else if d == 5 {
        '5'
    } else if d == 6 {
        '6'
    } else if d == 7 {
        '7'
    } else if d == 8 {
        '8'
    } else {
        '9'
    }
}

// ---------------------------------------------------------------------------
// Versions
// ---------------------------------------------------------------------------

/// A semantic version.
#[derive(Debug, PartialEq, Eq)]
pub struct Version {
    pub major: u64,
    pub minor: u64,
    pub patch: u64,
    pub pre: String,
    pub build: String,
}

/// What a [`Version`] says.
#[verifier::ext_equal]
pub struct VersionView {
    pub major: u64,
    pub minor: u64,
    pub patch: u64,
    pub pre: Seq<char>,
    pub build: Seq<char>,
}

impl View for Version {
    type V = VersionView;

    open spec fn view(&self) -> VersionView {
        VersionView {
            major: self.major,
            minor: self.minor,
            patch: self.patch,
            pre: self.pre@,
            build: self.build@,
        }
    }
}

impl Clone for Version {
    fn clone(&self) -> (copy: Self)
        ensures
            copy@ == self@,
    {
        Version {
            major: self.major,
            minor: self.minor,
            patch: self.patch,
            pre: self.pre.clone(),
            build: self.build.clone(),
        }
    }
}

/// The view of an optional version.
pub open spec fn version_of(version: Option<Version>) -> Option<VersionView> {
    match version {
        Some(v) => Some(v@),
        None => None,
    }
}

/// The version that its five parts make.
pub open spec fn version_from(
    parts: Option<(u64, u64, u64, Seq<char>, Seq<char>)>,
) -> Option<VersionView> {
    match parts {
        Some((major, minor, patch, pre, build)) => Some(
            VersionView { major, minor, patch, pre, build },
        ),
        None => None,
    }
}

/// The version that `text` stands for.
pub open spec fn parsed_version(text: Seq<char>) -> Option<VersionView> {
    version_from(semver_parse(text))
}

/// A version that is no pre-release.
pub open spec fn is_stable_version(v: VersionView) -> bool {
    v.pre.len() == 0
}

/// The precedence of versions: by the three numbers; where they agree, by what
/// follows them.
pub open spec fn is_newer(a: VersionView, b: VersionView) -> bool {
    if a.major != b.major {
        a.major > b.major
    } else if a.minor != b.minor {
        a.minor > b.minor
    } else if a.patch != b.patch {
        a.patch > b.patch
    } else {
        (a.pre != b.pre || a.build != b.build) && semver_suffix_newer(
            a.pre,
            a.build,
            b.pre,
            b.build,
        )
    }
}

/// A version in writing.
pub open spec fn version_text(v: VersionView) -> Seq<char> {
    let core = decimal(v.major as nat).push('.') + decimal(v.minor as nat).push('.') + decimal(
        v.patch as nat,
    );
    let with_pre = if v.pre.len() > 0 {
        core.push('-') + v.pre
    } else {
        core
    };
    if v.build.len() > 0 {
        with_pre.push('+') + v.build
    } else {
        with_pre
    }
}

impl Version {
    /// Reads a version in the strict form that semantic versioning gives it.
    pub fn parse(text: &str) -> (version: Option<Version>)
        ensures
            version_of(version) == parsed_version(text@),
            version matches Some(v) ==> !text@.contains('+') ==> v.build@.len() == 0,
    {
        semver_version(text)
    }

    /// Writes the version.
    pub fn to_text(&self) -> (text: String)
        ensures
            text@ == version_text(self@),
    {
        let mut text = decimal_text(self.major);
        text.push('.');
        let minor = decimal_text(self.minor);
        text.append(minor.as_str());
        text.push('.');
        let patch = decimal_text(self.patch);
        text.append(patch.as_str());
        assert(text@ =~= decimal(self.major as nat).push('.') + decimal(self.minor as nat).push('.')
            + decimal(self.patch as nat));
        if !self.pre.as_str().is_empty() {
            text.push('-');
            text.append(self.pre.as_str());
        }
        if !self.build.as_str().is_empty() {
            text.push('+');
            text.append(self.build.as_str());
        }
        text
    }

    /// Whether this version takes precedence over `other`.
    pub fn newer_than(&self, other: &Version) -> (newer: bool)
        ensures
            newer == is_newer(self@, other@),
    {
        semver_newer(self, other)
    }
}

/// Whether a version is no pre-release.
pub fn is_stable(version: &Version) -> (stable: bool)
    ensures
        stable == is_stable_version(version@),
{
    version.pre.as_str().is_empty()
}

// ---------------------------------------------------------------------------
// Python versions
// ---------------------------------------------------------------------------

/// A Python version: how it is written, and whether it is neither a pre-release
/// nor a development release. Two of them are equal where neither takes precedence,
/// however they are written.
#[derive(Debug, Eq)]
pub struct Pep440Version {
    pub text: String,
    pub stable: bool,
}

/// What a [`Pep440Version`] says.
#[verifier::ext_equal]
pub struct Pep440View {
    pub text: Seq<char>,
    pub stable: bool,
}

impl View for Pep440Version {
    type V = Pep440View;

    open spec fn view(&self) -> Pep440View {
        Pep440View { text: self.text@, stable: self.stable }
    }
}

impl PartialEq for Pep440Version {
    fn eq(&self, other: &Self) -> (equal: bool) {
        !self.newer_than(other) && !other.newer_than(self)
    }
}

impl vstd::std_specs::cmp::PartialEqSpecImpl for Pep440Version {
    open spec fn obeys_eq_spec() -> bool {
        true
    }

    open spec fn eq_spec(&self, other: &Self) -> bool {
        !pep440_order(self.text@, other.text@) && !pep440_order(other.text@, self.text@)
    }
}

impl Clone for Pep440Version {
    fn clone(&self) -> (copy: Self)
        ensures
            copy@ == self@,
    {
        Pep440Version { text: self.text.clone(), stable: self.stable }
    }
}

/// The view of an optional Python version.
pub open spec fn pep440_of(version: Option<Pep440Version>) -> Option<Pep440View> {
    match version {
        Some(v) => Some(v@),
        None => None,
    }
}

/// The Python version that `text` stands for.
pub open spec fn python_version(text: Seq<char>) -> Option<Pep440View> {
    match pep440_parse(text) {
        Some((text, stable)) => Some(Pep440View { text, stable }),
        None => None,
    }
}

/// What Python versions are written with.
#[verifier::allow_in_spec]
pub fn is_python_version_char(c: char) -> (b: bool)
    returns
        is_ascii_alphanumeric(c) || c == '.' || c == '!' || c == '+',
{
    is_ascii_alphanumeric(c) || c == '.' || c == '!' || c == '+'
}

/// Text of what Python versions are written with.
pub open spec fn is_python_version_text(s: Seq<char>) -> bool {
    s.len() > 0 && forall|i: int|
        0 <= i < s.len() ==> is_python_version_char(#[trigger] s[i])
}

impl Pep440View {
    /// The text is how a version is written, and its stability is that version's.
    pub open spec fn well_formed(self) -> bool {
        python_version(self.text) == Some(self) && is_python_version_text(self.text)
    }
}

/// Whether a version specifier admits a Python version. One that pins the
/// version does.
pub open spec fn specifier_admits(specifier: Seq<char>, version: Seq<char>) -> bool {
    (is_pep440_text(version) && specifier == "=="@ + version) || pep440_admits(specifier, version)
}

/// Whether all of the version specifiers admit a Python version.
pub open spec fn all_admit(specifiers: Seq<Seq<char>>, version: Seq<char>) -> bool {
    forall|i: int|
        0 <= i < specifiers.len() ==> #[trigger] specifier_admits(specifiers[i], version)
}

/// Whether all of the version specifiers admit a Python version.
pub fn specifiers_admit(specifiers: &Vec<String>, version: &Pep440Version) -> (admitted: bool)
    ensures
        admitted == all_admit(texts_of(specifiers@), version.text@),
{
    let mut i: usize = 0;
    while i < specifiers.len()
        invariant
            i <= specifiers@.len(),
            forall|j: int|
                0 <= j < i ==> #[trigger] specifier_admits(
                    texts_of(specifiers@)[j],
                    version.text@,
                ),
        decreases specifiers@.len() - i,
    {
        assert(texts_of(specifiers@)[i as int] == specifiers@[i as int]@);
        if !pep440_contains(specifiers[i].as_str(), version.text.as_str()) {
            assert(!specifier_admits(texts_of(specifiers@)[i as int], version.text@));
            return false;
        }
        i += 1;
    }
    true
}

impl Pep440Version {
    /// Reads a Python version.
    pub fn parse(text: &str) -> (version: Option<Pep440Version>)
        ensures
            pep440_of(version) == python_version(text@),
            version matches Some(v) ==> v@.well_formed(),
    {
        pep440_version(text)
    }

    /// Whether this version takes precedence over `other`.
    pub fn newer_than(&self, other: &Pep440Version) -> (newer: bool)
        ensures
            newer == pep440_order(self.text@, other.text@),
            newer && self@.well_formed() && other@.well_formed() ==> !pep440_order(
                other.text@,
                self.text@,
            ),
            !newer && self@.well_formed() && other@.well_formed() ==> forall|v: Pep440View|
                v.well_formed() && !pep440_order(v.text, self.text@) ==> !#[trigger] pep440_order(
                    v.text,
                    other.text@,
                ),
    {
        pep440_newer(self.text.as_str(), other.text.as_str())
    }
}

// ---------------------------------------------------------------------------
// Lenient versions
// ---------------------------------------------------------------------------

/// `value` up to its first `+`.
pub open spec fn without_metadata(value: Seq<char>) -> Seq<char> {
    up_to(value, '+')
}

/// Drops the build metadata of a version.
pub fn strip_semver_metadata(value: &str) -> (kept: &str)
    ensures
        kept@ == without_metadata(value@),
{
    let chars = chars_of(value);
    match find_char(chars.as_slice(), '+', 0, chars.len()) {
        Some(i) => {
            let kept = value.substring_char(0, i);
            assert(kept@ =~= value@.take(i as int));
            kept
        },
        None => value,
    }
}

/// One to three numbers, separated by full stops.
pub open spec fn is_simple(value: Seq<char>) -> bool {
    let parts = split(value, '.');
    &&& parts.len() <= 3
    &&& forall|i: int|
        0 <= i < parts.len() ==> (#[trigger] parts[i]).len() > 0 && is_digits(parts[i])
}

/// Whether `part` consists of digits.
pub fn all_digits(part: &[char]) -> (b: bool)
    ensures
        b == is_digits(part@),
{
    let mut i: usize = 0;
    while i < part.len()
        invariant
            i <= part@.len(),
            forall|j: int| 0 <= j < i ==> is_ascii_digit(#[trigger] part@[j]),
        decreases part@.len() - i,
    {
        if !is_ascii_digit(part[i]) {
            return false;
        }
        i += 1;
    }
    true
}

/// Whether `value` is one to three numbers, separated by full stops.
pub fn is_simple_version(value: &[char]) -> (b: bool)
    ensures
        b == is_simple(value@),
{
    let parts = split_at_char(value, '.');
    if parts.len() > 3 {
        return false;
    }
    let mut i: usize = 0;
    while i < parts.len()
        invariant
            i <= parts@.len() <= 3,
            parts@.len() == split(value@, '.').len(),
            forall|j: int| 0 <= j < parts@.len() ==> (#[trigger] parts@[j])@ == split(value@, '.')[j],
            forall|j: int|
                0 <= j < i ==> (#[trigger] split(value@, '.')[j]).len() > 0 && is_digits(
                    split(value@, '.')[j],
                ),
        decreases parts@.len() - i,
    {
        let part = parts[i];
        assert(part@ == split(value@, '.')[i as int]);
        if part.len() == 0 || !all_digits(part) {
            return false;
        }
        i += 1;
    }
    true
}

/// Digits that a semantic version accepts as a number: no needless zero in
/// front, and no more than 64 bits hold.
pub open spec fn is_version_number(part: Seq<char>) -> bool {
    &&& part.len() == 1 || (part.len() > 0 && part[0] != '0')
    &&& number(part) <= u64::MAX
}

/// The version that three numbers write.
pub open spec fn numeric_version(
    major: Seq<char>,
    minor: Seq<char>,
    patch: Seq<char>,
) -> Option<VersionView> {
    if is_version_number(major) && is_version_number(minor) && is_version_number(patch) {
        Some(
            VersionView {
                major: number(major) as u64,
                minor: number(minor) as u64,
                patch: number(patch) as u64,
                pre: Seq::empty(),
                build: Seq::empty(),
            },
        )
    } else {
        None
    }
}

/// `value` without the equals signs it begins with.
pub open spec fn without_equals(value: Seq<char>) -> Seq<char>
    decreases value.len(),
{
    if value.len() > 0 && value[0] == '=' {
        without_equals(value.skip(1))
    } else {
        value
    }
}

/// The part of a list of numbers at `i`; zero where the list is shorter.
pub open spec fn part_or_zero(parts: Seq<Seq<char>>, i: int) -> Seq<char> {
    if i < parts.len() {
        parts[i]
    } else {
        seq!['0']
    }
}

/// The version that a version requirement names: leading equals signs, white
/// space and build metadata are dropped, and missing numbers are zero.
pub open spec fn lenient_version(value: Seq<char>) -> Option<VersionView> {
    let clean = without_metadata(trimmed(without_equals(value)));
    if is_simple(clean) {
        let parts = split(clean, '.');
        numeric_version(part_or_zero(parts, 0), part_or_zero(parts, 1), part_or_zero(parts, 2))
    } else {
        None
    }
}

/// A split has at least one piece.
pub proof fn lemma_split_not_empty(s: Seq<char>, sep: char)
    ensures
        split(s, sep).len() > 0,
{
}

/// Three runs of digits, joined by full stops, split into themselves.
pub proof fn lemma_split_three(a: Seq<char>, b: Seq<char>, c: Seq<char>)
    requires
        is_digits(a),
        is_digits(b),
        is_digits(c),
    ensures
        split(a.push('.') + b.push('.') + c, '.') == seq![a, b, c],
{
    assert forall|s: Seq<char>| #[trigger] is_digits(s) implies !s.contains('.') by {
        if s.contains('.') {
            let i = choose|i: int| 0 <= i < s.len() && s[i] == '.';
            assert(is_ascii_digit(s[i]));
        }
    }
    lemma_split_one(c, '.');
    lemma_split_first(b, c, '.');
    lemma_split_first(a, b.push('.') + c, '.');
    assert(a.push('.') + b.push('.') + c =~= a.push('.') + (b.push('.') + c));
    assert(split(a.push('.') + b.push('.') + c, '.') =~= seq![a, b, c]);
}

/// Reads the version that a version requirement names.
pub fn parse_lenient_version(value: &str) -> (version: Option<Version>)
    ensures
        version_of(version) == lenient_version(value@),
{
    let chars = chars_of(value);
    lenient_version_of(chars.as_slice())
}

/// Reads the version that a version requirement names.
pub fn lenient_version_of(value: &[char]) -> (version: Option<Version>)
    ensures
        version_of(version) == lenient_version(value@),
{
    let mut from: usize = 0;
    assert(value@.skip(0) =~= value@);
    while from < value.len() && value[from] == '='
        invariant
            from <= value@.len(),
            without_equals(value@) == without_equals(value@.skip(from as int)),
        decreases value@.len() - from,
    {
        assert(value@.skip(from as int).skip(1) =~= value@.skip(from + 1));
        from += 1;
    }
    let rest = slice_subrange(value, from, value.len());
    assert(rest@ =~= value@.skip(from as int));
    let clean = before(trim(rest), '+');
    if !is_simple_version(clean) {
        return None;
    }
    let parts = split_at_char(clean, '.');
    let ghost wanted = split(clean@, '.');
    proof {
        lemma_split_not_empty(clean@, '.');
    }
    assert(parts@[0]@ == wanted[0]);
    let mut text = string_of(parts[0]);
    text.push('.');
    if parts.len() > 1 {
        assert(parts@[1]@ == wanted[1]);
        let minor = string_of(parts[1]);
        text.append(minor.as_str());
    } else {
        text.push('0');
    }
    text.push('.');
    if parts.len() > 2 {
        assert(parts@[2]@ == wanted[2]);
        let patch = string_of(parts[2]);
        text.append(patch.as_str());
    } else {
        text.push('0');
    }
    proof {
        let a = part_or_zero(wanted, 0);
        let b = part_or_zero(wanted, 1);
        let c = part_or_zero(wanted, 2);
        assert(text@ =~= a.push('.') + b.push('.') + c);
        lemma_split_three(a, b, c);
    }
    semver_version(text.as_str())
}

// ---------------------------------------------------------------------------
// Editable versions
// ---------------------------------------------------------------------------

/// The operator that a version requirement begins with: a caret, a tilde or
/// none.
pub open spec fn version_prefix(value: Seq<char>) -> Seq<char> {
    if value.len() > 0 && (value[0] == '^' || value[0] == '~') {
        value.take(1)
    } else {
        Seq::empty()
    }
}

/// A version requirement behind its operator.
pub open spec fn version_rest(value: Seq<char>) -> Seq<char> {
    value.skip(version_prefix(value).len() as int)
}

/// Splits a version requirement into its operator and what follows, and says
/// whether it can be rewritten: whether what follows is a simple version.
pub fn editable_version_parts<'a>(value: &'a [char]) -> (parts: (String, &'a [char], bool))
    ensures
        parts.0@ == version_prefix(value@),
        parts.1@ == version_rest(value@),
        parts.2 == is_simple(version_rest(value@)),
{
    let mut prefix = String::new();
    let mut from: usize = 0;
    if value.len() > 0 && (value[0] == '^' || value[0] == '~') {
        prefix.push(value[0]);
        from = 1;
        assert(prefix@ =~= value@.take(1));
    }
    let rest = slice_subrange(value, from, value.len());
    assert(rest@ =~= value@.skip(from as int));
    let can_edit = is_simple_version(rest);
    (prefix, rest, can_edit)
}

} // verus!
