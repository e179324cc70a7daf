//! Python versions in markers. To compare one, the successor of one of its release
//! numbers can be taken; the largest number that 64 bits hold has none.

use crate::outside::{pep440_parse, pep440_version};
use crate::requirement::{lemma_run_end, run_end, skip_run, Class};
use crate::text::{
    chars_of, ends_with, equals, find_char, index_of, is_ascii_digit, is_ascii_whitespace,
    lemma_index_of, string_of,
};
use vstd::prelude::*;
use vstd::slice::slice_subrange;

verus! {

/// How the two sides of a marker are compared.
#[derive(Debug, Clone, Copy, PartialEq, Eq, Structural)]
pub enum Comparison {
    Equal,
    NotEqual,
    Greater,
    GreaterEqual,
    Less,
    LessEqual,
    Compatible,
    In,
    NotIn,
    /// No comparison.
    Unknown,
}

/// The comparison that an operator writes.
pub open spec fn comparison(operator: Seq<char>) -> Comparison {
    if operator == "=="@ {
        Comparison::Equal
    } else if operator == "!="@ {
        Comparison::NotEqual
    } else if operator == ">"@ {
        Comparison::Greater
    } else if operator == ">="@ {
        Comparison::GreaterEqual
    } else if operator == "<"@ {
        Comparison::Less
    } else if operator == "<="@ {
        Comparison::LessEqual
    } else if operator == "~="@ {
        Comparison::Compatible
    } else {
        Comparison::Unknown
    }
}

/// Reads an operator.
pub fn read_comparison(operator: &[char]) -> (c: Comparison)
    ensures
        c == comparison(operator@),
{
    if equals(operator, "==") {
        Comparison::Equal
    } else if equals(operator, "!=") {
        Comparison::NotEqual
    } else if equals(operator, ">") {
        Comparison::Greater
    } else if equals(operator, ">=") {
        Comparison::GreaterEqual
    } else if equals(operator, "<") {
        Comparison::Less
    } else if equals(operator, "<=") {
        Comparison::LessEqual
    } else if equals(operator, "~=") {
        Comparison::Compatible
    } else {
        Comparison::Unknown
    }
}

/// The comparison with its sides exchanged.
#[verifier::allow_in_spec]
pub fn mirrored(c: Comparison) -> (m: Comparison)
    returns
        match c {
            Comparison::Greater => Comparison::Less,
            Comparison::GreaterEqual => Comparison::LessEqual,
            Comparison::Less => Comparison::Greater,
            Comparison::LessEqual => Comparison::GreaterEqual,
            _ => c,
        },
{
    match c {
        Comparison::Greater => Comparison::Less,
        Comparison::GreaterEqual => Comparison::LessEqual,
        Comparison::Less => Comparison::Greater,
        Comparison::LessEqual => Comparison::GreaterEqual,
        _ => c,
    }
}

// ---------------------------------------------------------------------------
// Release numbers
// ---------------------------------------------------------------------------

/// The largest number that 64 bits hold.
pub open spec fn is_largest(number: Seq<char>) -> bool {
    number == "18446744073709551615"@
}

/// The numbers from `from` on, separated by full stops.
pub open spec fn numbers_from(s: Seq<char>, from: int) -> Seq<Seq<char>>
    decreases s.len() - from,
{
    if 0 <= from <= s.len() {
        proof {
            lemma_run_end(s, Class::Digit, from);
        }
        let end = run_end(s, Class::Digit, from);
        let first = seq![s.subrange(from, end)];
        if end + 1 < s.len() && s[end] == '.' && is_ascii_digit(s[end + 1]) {
            first + numbers_from(s, end + 1)
        } else {
            first
        }
    } else {
        Seq::empty()
    }
}

/// The release numbers of a version as it is written: those behind its epoch.
pub open spec fn release_numbers(written: Seq<char>) -> Seq<Seq<char>> {
    match index_of(written, '!', 0, written.len() as int) {
        Some(i) => numbers_from(written, i + 1),
        None => numbers_from(written, 0),
    }
}

/// The views of numbers.
pub open spec fn number_views(numbers: Seq<&[char]>) -> Seq<Seq<char>> {
    Seq::new(numbers.len(), |i: int| numbers[i]@)
}

/// Lists the release numbers of a version as it is written.
pub fn list_release_numbers<'a>(written: &'a [char]) -> (numbers: Vec<&'a [char]>)
    ensures
        number_views(numbers@) == release_numbers(written@),
        numbers@.len() > 0,
{
    let n: usize = written.len();
    proof {
        lemma_index_of(written@, '!', 0, n as int);
    }
    let mut from: usize = match find_char(written, '!', 0, n) {
        Some(i) => i + 1,
        None => 0,
    };
    let ghost whole = release_numbers(written@);
    let mut numbers: Vec<&'a [char]> = Vec::new();
    assert(number_views(numbers@) + whole =~= whole);
    loop
        invariant
            n == written@.len(),
            from <= n,
            whole == release_numbers(written@),
            whole == number_views(numbers@) + numbers_from(written@, from as int),
        decreases n - from,
    {
        let end = skip_run(written, Class::Digit, from);
        let number = slice_subrange(written, from, end);
        let ghost done = number_views(numbers@);
        numbers.push(number);
        assert(number_views(numbers@) =~= done.push(number@));
        if end < n && n - end > 1 && written[end] == '.' && is_ascii_digit(written[end + 1]) {
            assert(done + (seq![number@] + numbers_from(written@, end + 1)) =~= done.push(number@)
                + numbers_from(written@, end + 1));
            from = end + 1;
        } else {
            assert(done + seq![number@] =~= done.push(number@));
            return numbers;
        }
    }
}

/// Numbers without the zeros at their end.
pub open spec fn without_zeros(numbers: Seq<Seq<char>>) -> Seq<Seq<char>>
    decreases numbers.len(),
{
    if numbers.len() > 0 && numbers.last() == "0"@ {
        without_zeros(numbers.drop_last())
    } else {
        numbers
    }
}

/// The release numbers that are compared: without the zeros at their end, if more
/// than one number stays.
pub open spec fn compared_numbers(numbers: Seq<Seq<char>>) -> Seq<Seq<char>> {
    if without_zeros(numbers).len() > 1 {
        without_zeros(numbers)
    } else {
        numbers
    }
}

/// Counts the release numbers that are compared.
fn count_compared(numbers: &Vec<&[char]>) -> (n: usize)
    ensures
        n <= numbers@.len(),
        compared_numbers(number_views(numbers@)) == number_views(numbers@).take(n as int),
        compared_numbers(number_views(numbers@)).len() == n,
{
    let ghost views = number_views(numbers@);
    let mut n: usize = numbers.len();
    assert(views.take(n as int) =~= views);
    while n > 0 && equals(numbers[n - 1], "0")
        invariant
            n <= numbers@.len(),
            views == number_views(numbers@),
            without_zeros(views) == without_zeros(views.take(n as int)),
        decreases n,
    {
        assert(views.take(n as int).drop_last() =~= views.take(n - 1));
        assert(views.take(n as int).last() == views[n - 1]);
        n -= 1;
    }
    assert(n > 0 ==> views.take(n as int).last() == views[n - 1]);
    assert(without_zeros(views) == views.take(n as int));
    if n > 1 {
        n
    } else {
        assert(views.take(views.len() as int) =~= views);
        numbers.len()
    }
}

/// Which of the release numbers that are compared has its successor taken, where
/// the marker is `python_version` or another.
pub open spec fn succeeded(python_version: bool, c: Comparison, count: int) -> Option<int> {
    if !python_version {
        if c == Comparison::Compatible && count >= 2 {
            Some(count - 2)
        } else {
            None
        }
    } else if count == 2 {
        match c {
            Comparison::Equal => Some(1),
            Comparison::NotEqual => Some(1),
            Comparison::Greater => Some(1),
            Comparison::LessEqual => Some(1),
            Comparison::Compatible => Some(0),
            _ => None,
        }
    } else if count > 2 {
        match c {
            Comparison::Greater => Some(1),
            Comparison::GreaterEqual => Some(1),
            Comparison::Less => Some(1),
            Comparison::LessEqual => Some(1),
            _ => None,
        }
    } else {
        None
    }
}

/// Which of the release numbers in front of an asterisk has its successor taken.
pub open spec fn starred(python_version: bool, c: Comparison, count: int) -> Option<int> {
    if (c == Comparison::Equal || c == Comparison::NotEqual) && (!python_version || count <= 2) {
        Some(count - 1)
    } else {
        None
    }
}

/// Versions with a local part can be compared as equal, and not otherwise.
pub open spec fn is_comparable(written: Seq<char>, c: Comparison) -> bool {
    index_of(written, '+', 0, written.len() as int) is None || c == Comparison::Equal || c
        == Comparison::NotEqual
}

/// To compare the version that is written so, the successor of the largest number
/// would be taken.
pub open spec fn version_lacks(written: Seq<char>, python_version: bool, c: Comparison) -> bool {
    let numbers = compared_numbers(release_numbers(written));
    is_comparable(written, c) && match succeeded(python_version, c, numbers.len() as int) {
        Some(i) => is_largest(numbers[i]),
        None => false,
    }
}

/// Nothing but an epoch and release numbers.
pub open spec fn is_release_text(written: Seq<char>) -> bool {
    forall|i: int|
        0 <= i < written.len() ==> is_ascii_digit(#[trigger] written[i]) || written[i] == '.'
            || written[i] == '!'
}

/// The text of the version that `value` writes.
pub open spec fn written_version(value: Seq<char>) -> Option<Seq<char>> {
    match pep440_parse(value) {
        Some((text, stable)) => Some(text),
        None => None,
    }
}

/// To compare with the versions that begin as `base` does, the successor of the
/// largest number would be taken.
pub open spec fn prefix_lacks(base: Seq<char>, python_version: bool, c: Comparison) -> bool {
    &&& base.len() > 0
    &&& !is_ascii_whitespace(base.last())
    &&& written_version(base) matches Some(written) && {
        let numbers = release_numbers(written);
        is_release_text(written) && match starred(python_version, c, numbers.len() as int) {
            Some(i) => is_largest(numbers[i]),
            None => false,
        }
    }
}

/// To compare the version `value`, or the versions that begin as it does, the
/// successor of the largest number would be taken.
pub open spec fn value_lacks(value: Seq<char>, python_version: bool, c: Comparison) -> bool {
    if ".*"@.is_suffix_of(value) {
        prefix_lacks(value.take(value.len() - 2), python_version, c)
    } else {
        written_version(value) matches Some(written) && version_lacks(written, python_version, c)
    }
}

/// The word that begins at or behind `from`.
pub open spec fn word_from(s: Seq<char>, from: int) -> Option<(int, int)> {
    let start = run_end(s, Class::Space, from);
    if start < s.len() {
        Some((start, run_end(s, Class::Word, start)))
    } else {
        None
    }
}

/// A word takes some room.
pub proof fn lemma_word_from(s: Seq<char>, from: int)
    requires
        0 <= from <= s.len(),
    ensures
        word_from(s, from) matches Some((start, end)) ==> from <= start < end <= s.len(),
{
    lemma_run_end(s, Class::Space, from);
    lemma_run_end(s, Class::Word, run_end(s, Class::Space, from));
}

/// Every word from `from` on is a version.
pub open spec fn all_versions(s: Seq<char>, from: int) -> bool
    decreases s.len() - from,
{
    if 0 <= from <= s.len() {
        proof {
            lemma_word_from(s, from);
        }
        match word_from(s, from) {
            Some((start, end)) => written_version(s.subrange(start, end)) is Some && all_versions(
                s,
                end,
            ),
            None => true,
        }
    } else {
        true
    }
}

/// Of the versions from `from` on, up to the first with more than two release
/// numbers, one has the largest number for its second and last.
pub open spec fn list_meets_largest(s: Seq<char>, from: int) -> bool
    decreases s.len() - from,
{
    if 0 <= from <= s.len() {
        proof {
            lemma_word_from(s, from);
        }
        match word_from(s, from) {
            Some((start, end)) => {
                let numbers = release_numbers(written_version(s.subrange(start, end))->0);
                if numbers.len() == 2 && is_largest(numbers[1]) {
                    true
                } else if numbers.len() > 2 {
                    false
                } else {
                    list_meets_largest(s, end)
                }
            },
            None => false,
        }
    } else {
        false
    }
}

/// To compare `python_version` with each of the versions in a list, the successor of
/// the largest number would be taken.
pub open spec fn list_lacks(s: Seq<char>) -> bool {
    all_versions(s, 0) && list_meets_largest(s, 0)
}

/// The markers that hold a version.
pub open spec fn is_version_key(key: Seq<char>) -> bool {
    ||| key == "implementation_version"@
    ||| key == "python_full_version"@
    ||| key == "python_version"@
}

/// To compare a quoted value, its quotation marks included, with a marker that holds
/// a version, the successor of the largest number would be taken. `first` says that
/// the value stands first.
pub open spec fn lacks_successor(
    quoted: Seq<char>,
    c: Comparison,
    key: Seq<char>,
    first: bool,
) -> bool {
    let value = quoted.subrange(1, quoted.len() - 1);
    let python_version = key == "python_version"@;
    is_version_key(key) && if first {
        written_version(value) matches Some(written) && version_lacks(
            written,
            python_version,
            mirrored(c),
        )
    } else if c == Comparison::In || c == Comparison::NotIn {
        python_version && list_lacks(value)
    } else {
        value_lacks(value, python_version, c)
    }
}

// ---------------------------------------------------------------------------
// Deciding it
// ---------------------------------------------------------------------------

/// Whether a number is the largest.
fn equals_largest(number: &[char]) -> (b: bool)
    ensures
        b == is_largest(number@),
{
    equals(number, "18446744073709551615")
}

/// Reads a version, and writes it.
fn write_version(value: &[char]) -> (written: Option<Vec<char>>)
    ensures
        (match written {
            Some(w) => Some(w@),
            None => None,
        }) == written_version(value@),
{
    let text = string_of(value);
    match pep440_version(text.as_str()) {
        Some(v) => Some(chars_of(v.text.as_str())),
        None => None,
    }
}

/// Whether the successor of the largest number would be taken to compare a version.
fn version_lacks_successor(written: &[char], python_version: bool, c: Comparison) -> (b: bool)
    ensures
        b == version_lacks(written@, python_version, c),
{
    if find_char(written, '+', 0, written.len()).is_some() && c != Comparison::Equal && c
        != Comparison::NotEqual {
        return false;
    }
    let numbers = list_release_numbers(written);
    let n = count_compared(&numbers);
    let ghost views = number_views(numbers@);
    let i: usize = if !python_version {
        if c == Comparison::Compatible && n >= 2 {
            n - 2
        } else {
            return false;
        }
    } else if n == 2 {
        match c {
            Comparison::Equal => 1,
            Comparison::NotEqual => 1,
            Comparison::Greater => 1,
            Comparison::LessEqual => 1,
            Comparison::Compatible => 0,
            _ => {
                return false;
            },
        }
    } else if n > 2 {
        match c {
            Comparison::Greater => 1,
            Comparison::GreaterEqual => 1,
            Comparison::Less => 1,
            Comparison::LessEqual => 1,
            _ => {
                return false;
            },
        }
    } else {
        return false;
    };
    assert(views.take(n as int)[i as int] == numbers@[i as int]@);
    equals_largest(numbers[i])
}

/// Whether a version is nothing but an epoch and release numbers.
fn is_release_version(written: &[char]) -> (b: bool)
    ensures
        b == is_release_text(written@),
{
    let mut i: usize = 0;
    while i < written.len()
        invariant
            i <= written@.len(),
            forall|k: int|
                0 <= k < i ==> is_ascii_digit(#[trigger] written@[k]) || written@[k] == '.'
                    || written@[k] == '!',
        decreases written@.len() - i,
    {
        if !is_ascii_digit(written[i]) && written[i] != '.' && written[i] != '!' {
            return false;
        }
        i += 1;
    }
    true
}

/// Whether the successor of the largest number would be taken to compare with the
/// versions that begin as `base` does.
fn prefix_lacks_successor(base: &[char], python_version: bool, c: Comparison) -> (b: bool)
    ensures
        b == prefix_lacks(base@, python_version, c),
{
    let n: usize = base.len();
    if n == 0 || is_ascii_whitespace(base[n - 1]) {
        return false;
    }
    let written = match write_version(base) {
        Some(w) => w,
        None => {
            return false;
        },
    };
    let numbers = list_release_numbers(written.as_slice());
    let count: usize = numbers.len();
    assert(number_views(numbers@)[count - 1] == numbers@[count - 1]@);
    is_release_version(written.as_slice()) && (c == Comparison::Equal || c == Comparison::NotEqual)
        && (!python_version || count <= 2) && equals_largest(numbers[count - 1])
}

/// Whether the successor of the largest number would be taken to compare `value`.
fn value_lacks_successor(value: &[char], python_version: bool, c: Comparison) -> (b: bool)
    ensures
        b == value_lacks(value@, python_version, c),
{
    proof {
        reveal_strlit(".*");
    }
    if ends_with(value, ".*") {
        let base = slice_subrange(value, 0, value.len() - 2);
        assert(base@ =~= value@.take(value@.len() - 2));
        prefix_lacks_successor(base, python_version, c)
    } else {
        match write_version(value) {
            Some(w) => version_lacks_successor(w.as_slice(), python_version, c),
            None => false,
        }
    }
}

/// Whether the successor of the largest number would be taken to compare with the
/// versions of a list.
fn list_lacks_successor(s: &[char]) -> (b: bool)
    ensures
        b == list_lacks(s@),
{
    let n: usize = s.len();
    let mut from: usize = 0;
    let mut met = false;
    let mut over = false;
    loop
        invariant
            n == s@.len(),
            from <= n,
            all_versions(s@, 0) == all_versions(s@, from as int),
            met ==> list_meets_largest(s@, 0),
            over && !met ==> !list_meets_largest(s@, 0),
            !met && !over ==> list_meets_largest(s@, 0) == list_meets_largest(s@, from as int),
        decreases n - from,
    {
        proof {
            lemma_word_from(s@, from as int);
        }
        let start = skip_run(s, Class::Space, from);
        if start >= n {
            return met;
        }
        let end = skip_run(s, Class::Word, start);
        let word = slice_subrange(s, start, end);
        let written = match write_version(word) {
            Some(w) => w,
            None => {
                return false;
            },
        };
        let numbers = list_release_numbers(written.as_slice());
        if !met && !over {
            if numbers.len() == 2 {
                assert(number_views(numbers@)[1] == numbers@[1]@);
                met = equals_largest(numbers[1]);
            } else if numbers.len() > 2 {
                over = true;
            }
        }
        from = end;
    }
}

/// Whether the successor of the largest number would be taken to compare a quoted
/// value with a marker.
pub fn has_no_successor(quoted: &[char], c: Comparison, key: &[char], first: bool) -> (b: bool)
    requires
        quoted@.len() >= 2,
    ensures
        b == lacks_successor(quoted@, c, key@, first),
{
    let python_version = equals(key, "python_version");
    if !python_version && !equals(key, "implementation_version") && !equals(
        key,
        "python_full_version",
    ) {
        return false;
    }
    let value = slice_subrange(quoted, 1, quoted.len() - 1);
    if first {
        match write_version(value) {
            Some(w) => version_lacks_successor(w.as_slice(), python_version, mirrored(c)),
            None => false,
        }
    } else if c == Comparison::In || c == Comparison::NotIn {
        python_version && list_lacks_successor(value)
    } else {
        value_lacks_successor(value, python_version, c)
    }
}

} // verus!
