//! Markers as they are written: comparisons, joined by `and` and `or`, in parentheses
//! or not.

use crate::outside::pep440_parse;
use crate::requirement::{
    in_class, is_ascii, is_operator_char, is_quotation_mark, is_string_key, lemma_run_end,
    marker_comparison, marker_operator, marker_reads, marker_value, run_end, Class,
};
use crate::successor::{
    all_versions, compared_numbers, is_largest, is_version_key, lacks_successor, lemma_word_from,
    list_meets_largest, numbers_from, prefix_lacks, release_numbers, value_lacks, version_lacks,
    without_zeros, word_from, written_version, Comparison,
};
use crate::text::{index_of, is_ascii_alphanumeric, is_whitespace, lemma_index_of};
use vstd::prelude::*;

verus! {

// ---------------------------------------------------------------------------
// Stretches of text
// ---------------------------------------------------------------------------

/// `part` stands in `s` at `i`.
pub open spec fn stands(s: Seq<char>, i: int, part: Seq<char>) -> bool {
    &&& 0 <= i <= i + part.len() <= s.len()
    &&& s.subrange(i, i + part.len()) == part
}

/// What stands at a place is found there, character by character.
pub proof fn lemma_stands(s: Seq<char>, i: int, part: Seq<char>)
    ensures
        stands(s, i, part) ==> forall|p: int|
            i <= p < i + part.len() ==> #[trigger] s[p] == part[p - i],
        0 <= i <= i + part.len() <= s.len() && (forall|k: int|
            0 <= k < part.len() ==> s[i + k] == #[trigger] part[k]) ==> stands(s, i, part),
{
    if stands(s, i, part) {
        assert forall|p: int| i <= p < i + part.len() implies #[trigger] s[p] == part[p - i] by {
            assert(s.subrange(i, i + part.len())[p - i] == part[p - i]);
        }
    }
    if 0 <= i <= i + part.len() <= s.len() && (forall|k: int|
        0 <= k < part.len() ==> s[i + k] == #[trigger] part[k]) {
        assert(s.subrange(i, i + part.len()) =~= part);
    }
}

/// The parts of what stands at a place stand one behind the other.
pub proof fn lemma_stands_parts(s: Seq<char>, i: int, a: Seq<char>, b: Seq<char>)
    ensures
        stands(s, i, a + b) <==> stands(s, i, a) && stands(s, i + a.len(), b),
{
    let n = a.len() as int;
    if stands(s, i, a + b) {
        assert(s.subrange(i, i + n) =~= (a + b).subrange(0, n));
        assert((a + b).subrange(0, n) =~= a);
        assert(s.subrange(i + n, i + n + b.len()) =~= (a + b).subrange(n, n + b.len()));
        assert((a + b).subrange(n, n + b.len()) =~= b);
    }
    if stands(s, i, a) && stands(s, i + n, b) {
        assert(s.subrange(i, i + n + b.len()) =~= s.subrange(i, i + n) + s.subrange(
            i + n,
            i + n + b.len(),
        ));
    }
}

/// A run ends where its class does.
pub proof fn lemma_run(s: Seq<char>, class: Class, from: int, to: int)
    requires
        0 <= from <= to <= s.len(),
        forall|k: int| from <= k < to ==> in_class(class, #[trigger] s[k]),
        to < s.len() ==> !in_class(class, s[to]),
    ensures
        run_end(s, class, from) == to,
    decreases to - from,
{
    if from < to {
        lemma_run(s, class, from + 1, to);
    }
}

/// Blanks: spaces and tabs.
pub open spec fn is_gap(gap: Seq<char>) -> bool {
    forall|i: int| 0 <= i < gap.len() ==> #[trigger] gap[i] == ' ' || gap[i] == '\t'
}

/// A gap is passed over.
pub proof fn lemma_gap(s: Seq<char>, from: int, gap: Seq<char>)
    requires
        is_gap(gap),
        stands(s, from, gap),
        from + gap.len() < s.len() ==> !is_whitespace(s[from + gap.len()]),
    ensures
        run_end(s, Class::Space, from) == from + gap.len(),
{
    lemma_stands(s, from, gap);
    assert forall|k: int| from <= k < from + gap.len() implies in_class(
        Class::Space,
        #[trigger] s[k],
    ) by {
        assert(gap[k - from] == s[k]);
    }
    lemma_run(s, Class::Space, from, from + gap.len());
}

// ---------------------------------------------------------------------------
// Comparisons
// ---------------------------------------------------------------------------

/// A side of a comparison: the name of a marker, or a text between quotation marks.
pub enum Operand {
    Key(Seq<char>),
    Text { quote: char, text: Seq<char> },
}

/// A marker: a comparison of two sides, two markers that are joined by a word, or a
/// marker in parentheses.
pub enum Marker {
    Compare {
        left: Operand,
        before: Seq<char>,
        operator: Seq<char>,
        after: Seq<char>,
        right: Operand,
    },
    Joined { first: Box<Marker>, word: Seq<char>, second: Box<Marker> },
    Group(Box<Marker>),
}

/// A side of a comparison in writing.
pub open spec fn operand_text(o: Operand) -> Seq<char> {
    match o {
        Operand::Key(key) => key,
        Operand::Text { quote, text } => seq![quote] + text + seq![quote],
    }
}

/// A marker in writing.
pub open spec fn marker_text(m: Marker) -> Seq<char>
    decreases m,
{
    match m {
        Marker::Compare { left, before, operator, after, right } => operand_text(left) + before
            + operator + after + operand_text(right),
        Marker::Joined { first, word, second } => marker_text(*first) + (seq![' '] + word + seq![
            ' ',
        ]) + marker_text(*second),
        Marker::Group(inner) => seq!['('] + marker_text(*inner) + seq![')'],
    }
}

/// What the names of markers are made of: letters, digits, underscores and full
/// stops.
pub open spec fn is_marker_name(key: Seq<char>) -> bool {
    key.len() > 0 && forall|i: int|
        0 <= i < key.len() ==> is_ascii_alphanumeric(#[trigger] key[i]) || key[i] == '_' || key[i]
            == '.'
}

/// A text that stands between quotation marks as it is: without quotation marks,
/// backslashes, number signs, colons and line breaks.
pub open spec fn is_plain_text(text: Seq<char>) -> bool {
    forall|i: int|
        0 <= i < text.len() ==> #[trigger] text[i] != '"' && text[i] != '\'' && text[i] != '\\'
            && text[i] != '#' && text[i] != ':' && text[i] != '\n' && text[i] != '\r'
}

/// A side of a comparison that is written as it should be.
pub open spec fn is_operand(o: Operand) -> bool {
    match o {
        Operand::Key(key) => is_marker_name(key),
        Operand::Text { quote, text } => (quote == '"' || quote == '\'') && is_plain_text(text),
    }
}

/// The operators that are made of signs.
pub open spec fn is_sign_operator(operator: Seq<char>) -> bool {
    ||| operator == "=="@
    ||| operator == "!="@
    ||| operator == "<="@
    ||| operator == ">="@
    ||| operator == "<"@
    ||| operator == ">"@
    ||| operator == "~="@
    ||| operator == "==="@
}

/// The operators that are words.
pub open spec fn is_word_operator(operator: Seq<char>) -> bool {
    operator == "in"@ || operator == "not in"@
}

/// No version that is a stretch of `text` is written with the largest number that
/// 64 bits hold.
pub open spec fn is_moderate(text: Seq<char>) -> bool {
    forall|i: int, j: int|
        0 <= i <= j <= text.len() ==> (pep440_parse(#[trigger] text.subrange(i, j)) matches Some((
            written,
            stable,
        )) ==> lacks_largest(written))
}

/// The largest number that 64 bits hold is nowhere in `written`.
pub open spec fn lacks_largest(written: Seq<char>) -> bool {
    forall|a: int, b: int|
        0 <= a <= b <= written.len() ==> #[trigger] written.subrange(a, b)
            != "18446744073709551615"@
}

/// A marker of which each comparison has the name of a marker on one side and a text
/// on the other. Where the marker holds a version, no version in the text is written
/// with the largest number; and `~=` has a marker that holds a string only on its
/// left.
pub open spec fn is_marker(m: Marker) -> bool
    decreases m,
{
    match m {
        Marker::Compare { left, before, operator, after, right } => {
            &&& is_operand(left) && is_operand(right)
            &&& is_gap(before) && is_gap(after)
            &&& is_sign_operator(operator) || (is_word_operator(operator) && before.len() > 0
                && after.len() > 0)
            &&& match (left, right) {
                (Operand::Key(key), Operand::Text { quote, text }) => is_moderate(text) || !(key
                    == "python_version"@ || key == "python_full_version"@ || key
                    == "implementation_version"@),
                (Operand::Text { quote, text }, Operand::Key(key)) => {
                    &&& is_moderate(text) || !(key == "python_version"@ || key
                        == "python_full_version"@ || key == "implementation_version"@)
                    &&& operator != "~="@ || key == "python_version"@ || key
                        == "python_full_version"@ || key == "implementation_version"@
                },
                _ => false,
            }
        },
        Marker::Joined { first, word, second } => {
            &&& word == "and"@ || word == "or"@
            &&& is_marker(*first) && is_marker(*second)
        },
        Marker::Group(inner) => is_marker(*inner),
    }
}

/// The numbers of a version are stretches of it.
proof fn lemma_numbers_inside(s: Seq<char>, from: int)
    requires
        lacks_largest(s),
    ensures
        forall|k: int| 0 <= k < numbers_from(s, from).len() ==> !is_largest(
            #[trigger] numbers_from(s, from)[k],
        ),
    decreases s.len() - from,
{
    if 0 <= from <= s.len() {
        lemma_run_end(s, Class::Digit, from);
        let end = run_end(s, Class::Digit, from);
        assert(s.subrange(from, end) != "18446744073709551615"@);
        if end + 1 < s.len() && s[end] == '.' {
            lemma_numbers_inside(s, end + 1);
            let first = seq![s.subrange(from, end)];
            let rest = numbers_from(s, end + 1);
            assert forall|k: int| 0 <= k < (first + rest).len() implies !is_largest(
                #[trigger] (first + rest)[k],
            ) by {
                if k > 0 {
                    assert((first + rest)[k] == rest[k - 1]);
                }
            }
        }
    }
}

/// None of the numbers of a version is the largest.
proof fn lemma_release_inside(written: Seq<char>)
    requires
        lacks_largest(written),
    ensures
        release_numbers(written).len() > 0,
        forall|k: int| 0 <= k < release_numbers(written).len() ==> !is_largest(
            #[trigger] release_numbers(written)[k],
        ),
        forall|k: int| 0 <= k < compared_numbers(release_numbers(written)).len() ==> !is_largest(
            #[trigger] compared_numbers(release_numbers(written))[k],
        ),
{
    lemma_numbers_inside(written, 0);
    lemma_index_of(written, '!', 0, written.len() as int);
    if let Some(i) = index_of(written, '!', 0, written.len() as int) {
        lemma_numbers_inside(written, i + 1);
    }
    lemma_without_zeros(release_numbers(written));
}

/// Dropping zeros keeps the numbers before them.
proof fn lemma_without_zeros(numbers: Seq<Seq<char>>)
    ensures
        without_zeros(numbers).len() <= numbers.len(),
        forall|k: int|
            0 <= k < without_zeros(numbers).len() ==> #[trigger] without_zeros(numbers)[k]
                == numbers[k],
    decreases numbers.len(),
{
    if numbers.len() > 0 && numbers.last() == "0"@ {
        lemma_without_zeros(numbers.drop_last());
    }
}

/// A version that is written without the largest number has a successor.
proof fn lemma_version_succeeds(written: Seq<char>, python_version: bool, c: Comparison)
    requires
        lacks_largest(written),
    ensures
        !version_lacks(written, python_version, c),
{
    lemma_release_inside(written);
}

/// So has every version in a list.
proof fn lemma_list_succeeds(s: Seq<char>, from: int)
    requires
        is_moderate(s),
        0 <= from <= s.len(),
    ensures
        all_versions(s, from) ==> !list_meets_largest(s, from),
    decreases s.len() - from,
{
    lemma_word_from(s, from);
    if let Some((start, end)) = word_from(s, from) {
        let word = s.subrange(start, end);
        if let Some(written) = written_version(word) {
            assert(lacks_largest(written));
            lemma_release_inside(written);
            lemma_list_succeeds(s, end);
        }
    }
}

/// Texts without the largest number can be compared.
proof fn lemma_succeeds(quoted: Seq<char>, text: Seq<char>, c: Comparison, key: Seq<char>, first: bool)
    requires
        quoted.len() >= 2,
        quoted.subrange(1, quoted.len() - 1) == text,
        is_moderate(text) || !is_version_key(key),
    ensures
        !lacks_successor(quoted, c, key, first),
{
    if is_version_key(key) {
        let python_version = key == "python_version"@;
        assert(text.subrange(0, text.len() as int) =~= text);
        if let Some(written) = written_version(text) {
            assert(lacks_largest(written));
            lemma_version_succeeds(written, python_version, c);
            lemma_version_succeeds(written, python_version, crate::successor::mirrored(c));
        }
        lemma_list_succeeds(text, 0);
        if ".*"@.is_suffix_of(text) {
            let base = text.take(text.len() - 2);
            reveal_strlit(".*");
            assert(base =~= text.subrange(0, text.len() - 2));
            if let Some(written) = written_version(base) {
                assert(lacks_largest(written));
                lemma_release_inside(written);
            }
            assert(!prefix_lacks(base, python_version, c));
        }
        assert(!value_lacks(text, python_version, c));
    }
}

/// A side of a comparison is read to its end.
proof fn lemma_operand(s: Seq<char>, i: int, o: Operand)
    requires
        is_operand(o),
        stands(s, i, operand_text(o)),
        ({
            let end = i + operand_text(o).len();
            o is Key && end < s.len() ==> !in_class(Class::Key, s[end])
        }),
    ensures
        operand_text(o).len() > 0,
        marker_value(s, i) == Some((o is Text, i + operand_text(o).len())),
        s.subrange(i, i + operand_text(o).len()) == operand_text(o),
        !is_whitespace(s[i]),
        !is_operator_char(s[i]),
        s[i] != '(',
        s[i] != ')',
{
    let t = operand_text(o);
    let end = i + t.len();
    lemma_stands(s, i, t);
    match o {
        Operand::Key(key) => {
            assert(key[0] == s[i]);
            assert forall|k: int| i <= k < end implies in_class(Class::Key, #[trigger] s[k])
                && !is_quotation_mark(s[k]) by {
                assert(s[k] == key[k - i]);
            }
            lemma_run(s, Class::Key, i, end);
        },
        Operand::Text { quote, text } => {
            assert(s[i] == t[0]);
            lemma_index_of(s, quote, i + 1, s.len() as int);
            assert(s[end - 1] == t[t.len() - 1]);
            assert forall|k: int| i < k < end - 1 implies #[trigger] s[k] != quote by {
                assert(s[k] == t[k - i]);
                assert(t[k - i] == text[k - i - 1]);
            }
        },
    }
}

/// An operator is read to its end.
proof fn lemma_operator(s: Seq<char>, i: int, operator: Seq<char>)
    requires
        is_sign_operator(operator) || is_word_operator(operator),
        stands(s, i, operator),
        i + operator.len() < s.len(),
        is_sign_operator(operator) ==> !is_operator_char(s[i + operator.len()]),
        is_word_operator(operator) ==> is_whitespace(s[i + operator.len()]),
    ensures
        operator.len() > 0,
        !is_whitespace(s[i]),
        marker_operator(s, i) matches Some((c, end)) && end == i + operator.len() && (c
            == Comparison::Compatible ==> operator == "~="@),
{
    reveal_strlit("==");
    reveal_strlit("!=");
    reveal_strlit("<=");
    reveal_strlit(">=");
    reveal_strlit("<");
    reveal_strlit(">");
    reveal_strlit("~=");
    reveal_strlit("===");
    reveal_strlit("in");
    reveal_strlit("not in");
    reveal_strlit("not");
    let end = i + operator.len();
    lemma_stands(s, i, operator);
    assert(s[i] == operator[0]);
    if is_sign_operator(operator) {
        assert forall|k: int| i <= k < end implies in_class(Class::Operator, #[trigger] s[k]) by {
            assert(s[k] == operator[k - i]);
        }
        lemma_run(s, Class::Operator, i, end);
        assert(s.subrange(i, end) == operator);
    } else if operator == "in"@ {
        assert(s[i + 1] == operator[1]);
        lemma_run(s, Class::BareWord, i, end);
    } else {
        assert(s[i + 1] == operator[1]);
        assert(s[i + 2] == operator[2]);
        assert(s[i + 3] == operator[3]);
        assert(s[i + 4] == operator[4]);
        assert(s[i + 5] == operator[5]);
        lemma_run(s, Class::BareWord, i, i + 3);
        assert(s.subrange(i, i + 3) =~= "not"@);
        assert("not"@.len() != "in"@.len());
        lemma_run(s, Class::Space, i + 3, i + 4);
    }
}

/// What can follow a marker: nothing, white space or a closing parenthesis.
pub open spec fn ends_marker(s: Seq<char>, end: int) -> bool {
    &&& end < s.len() ==> is_whitespace(s[end]) || s[end] == ')'
    &&& is_ascii(s.subrange(end, run_end(s, Class::Word, end)))
}

/// A comparison is read to its end.
#[verifier::rlimit(40)]
proof fn lemma_comparison(
    s: Seq<char>,
    i: int,
    left: Operand,
    before: Seq<char>,
    operator: Seq<char>,
    after: Seq<char>,
    right: Operand,
)
    requires
        ({
            let m = Marker::Compare { left, before, operator, after, right };
            let end = i + marker_text(m).len();
            &&& is_marker(m)
            &&& stands(s, i, marker_text(m))
            &&& end < s.len() ==> is_whitespace(s[end]) || s[end] == ')'
        }),
    ensures
        ({
            let m = Marker::Compare { left, before, operator, after, right };
            &&& marker_comparison(s, i) == Some(i + marker_text(m).len())
            &&& !is_whitespace(s[i])
            &&& s[i] != '('
        }),
{
    let l = operand_text(left);
    let r = operand_text(right);
    let a = i + l.len();
    let b = a + before.len();
    let c = b + operator.len();
    let d = c + after.len();
    lemma_stands_parts(s, i, l + before + operator + after, r);
    lemma_stands_parts(s, i, l + before + operator, after);
    lemma_stands_parts(s, i, l + before, operator);
    lemma_stands_parts(s, i, l, before);
    lemma_operand(s, d, right);
    lemma_stands(s, c, after);
    assert(c < s.len() && (after.len() > 0 ==> s[c] == after[0]));
    lemma_words_are_no_signs(operator);
    lemma_operator(s, b, operator);
    lemma_stands(s, a, before);
    assert(a < s.len() && (before.len() > 0 ==> s[a] == before[0]));
    lemma_stands(s, b, operator);
    if before.len() == 0 {
        lemma_sign_first(operator);
        assert(s[b] == operator[0]);
    }
    lemma_operand(s, i, left);
    lemma_gap(s, a, before);
    lemma_gap(s, c, after);
    let (sign, _) = marker_operator(s, b)->0;
    match (left, right) {
        (Operand::Key(key), Operand::Text { quote, text }) => {
            assert(r.subrange(1, r.len() - 1) =~= text);
            lemma_succeeds(r, text, sign, key, false);
        },
        (Operand::Text { quote, text }, Operand::Key(key)) => {
            assert(l.subrange(1, l.len() - 1) =~= text);
            lemma_succeeds(l, text, sign, key, true);
            lemma_version_keys(key);
        },
        _ => {},
    }
}

/// An operator is made of signs, or it is a word.
proof fn lemma_words_are_no_signs(operator: Seq<char>)
    ensures
        is_word_operator(operator) ==> !is_sign_operator(operator),
{
    reveal_strlit("in");
    reveal_strlit("not in");
    if is_sign_operator(operator) {
        lemma_sign_first(operator);
    }
}

/// An operator of signs begins with one.
proof fn lemma_sign_first(operator: Seq<char>)
    requires
        is_sign_operator(operator),
    ensures
        operator.len() > 0,
        is_operator_char(operator[0]),
{
    reveal_strlit("==");
    reveal_strlit("!=");
    reveal_strlit("<=");
    reveal_strlit(">=");
    reveal_strlit("<");
    reveal_strlit(">");
    reveal_strlit("~=");
    reveal_strlit("===");
}

/// A marker that holds a version holds no string.
proof fn lemma_version_keys(key: Seq<char>)
    ensures
        key == "python_version"@ || key == "python_full_version"@ || key
            == "implementation_version"@ ==> !is_string_key(key),
{
    reveal_strlit("python_version");
    reveal_strlit("python_full_version");
    reveal_strlit("implementation_version");
    reveal_strlit("implementation_name");
    reveal_strlit("os_name");
    reveal_strlit("os.name");
    reveal_strlit("platform_machine");
    reveal_strlit("platform.machine");
    reveal_strlit("platform_python_implementation");
    reveal_strlit("platform.python_implementation");
    reveal_strlit("python_implementation");
    reveal_strlit("platform_release");
    reveal_strlit("platform_system");
    reveal_strlit("platform_version");
    reveal_strlit("platform.version");
    reveal_strlit("sys_platform");
    reveal_strlit("sys.platform");
    if is_string_key(key) {
        assert("python_version"@[7] == 'v');
        assert("python_full_version"@[7] == 'f');
        assert("implementation_version"@[15] == 'v');
        assert("implementation_name"@[15] == 'n');
        assert("python_implementation"@[7] == 'i');
        assert("python_version"@.len() == 14);
        assert("python_full_version"@.len() == 19);
        assert("implementation_version"@.len() == 22);
    }
}

// ---------------------------------------------------------------------------
// Markers
// ---------------------------------------------------------------------------

/// Blanks before a marker do not matter.
proof fn lemma_marker_blank(s: Seq<char>, from: int, depth: nat, joint: bool)
    requires
        0 <= from < s.len(),
        is_whitespace(s[from]),
    ensures
        marker_reads(s, from, depth, joint) == marker_reads(s, from + 1, depth, joint),
{
    lemma_run_end(s, Class::Space, from + 1);
    assert(run_end(s, Class::Space, from) == run_end(s, Class::Space, from + 1));
}

/// Gaps before a marker do not matter.
pub proof fn lemma_marker_gap(s: Seq<char>, from: int, gap: Seq<char>, depth: nat, joint: bool)
    requires
        is_gap(gap),
        stands(s, from, gap),
    ensures
        marker_reads(s, from, depth, joint) == marker_reads(s, from + gap.len(), depth, joint),
    decreases gap.len(),
{
    if gap.len() > 0 {
        lemma_stands(s, from, gap);
        assert(gap[0] == s[from]);
        lemma_marker_blank(s, from, depth, joint);
        let rest = gap.skip(1);
        assert(gap =~= seq![gap[0]] + rest);
        lemma_stands_parts(s, from, seq![gap[0]], rest);
        lemma_marker_gap(s, from + 1, rest, depth, joint);
    }
}

/// A marker in writing is not empty, begins with no white space and ends with none.
pub proof fn lemma_marker_text(m: Marker)
    requires
        is_marker(m),
    ensures
        marker_text(m).len() > 0,
        !is_whitespace(marker_text(m)[0]),
        !is_whitespace(marker_text(m).last()),
    decreases m,
{
    let t = marker_text(m);
    match m {
        Marker::Compare { left, before, operator, after, right } => {
            let l = operand_text(left);
            let r = operand_text(right);
            assert(l.subrange(0, l.len() as int) =~= l);
            assert(r.subrange(0, r.len() as int) =~= r);
            lemma_operand(l, 0, left);
            lemma_operand(r, 0, right);
            assert(t[0] == l[0]);
            assert(t.last() == r.last());
            match right {
                Operand::Key(key) => {
                    assert(key[key.len() - 1] == r.last());
                },
                Operand::Text { quote, text } => {},
            }
        },
        Marker::Joined { first, word, second } => {
            lemma_marker_text(*first);
            lemma_marker_text(*second);
            assert(t[0] == marker_text(*first)[0]);
            assert(t.last() == marker_text(*second).last());
        },
        Marker::Group(inner) => {
            lemma_marker_text(*inner);
            assert(t.last() == ')');
        },
    }
}

/// A comparison that is read to its end is passed over.
proof fn lemma_compared(s: Seq<char>, from: int, depth: nat, end: int)
    requires
        0 <= from < s.len(),
        !is_whitespace(s[from]),
        s[from] != '(',
        marker_comparison(s, from) == Some(end),
    ensures
        marker_reads(s, from, depth, false) == marker_reads(s, end, depth, true),
{
    lemma_run(s, Class::Space, from, from);
}

/// An opening parenthesis is passed over.
proof fn lemma_group_begin(s: Seq<char>, from: int, depth: nat)
    requires
        0 <= from < s.len(),
        s[from] == '(',
    ensures
        marker_reads(s, from, depth, false) == marker_reads(s, from + 1, depth + 1, false),
{
    lemma_run(s, Class::Space, from, from);
}

/// A marker reads well to its end.
pub proof fn lemma_marker(s: Seq<char>, from: int, depth: nat, m: Marker)
    requires
        is_marker(m),
        stands(s, from, marker_text(m)),
        ends_marker(s, from + marker_text(m).len()),
    ensures
        marker_reads(s, from, depth, false) == marker_reads(
            s,
            from + marker_text(m).len(),
            depth,
            true,
        ),
    decreases m,
{
    lemma_marker_text(m);
    match m {
        Marker::Compare { left, before, operator, after, right } => {
            lemma_comparison(s, from, left, before, operator, after, right);
            lemma_compared(s, from, depth, from + marker_text(m).len());
        },
        Marker::Joined { first, word, second } => {
            let a = marker_text(*first);
            let w = seq![' '] + word + seq![' '];
            let b = marker_text(*second);
            lemma_stands_parts(s, from, a + w, b);
            lemma_stands_parts(s, from, a, w);
            let p = from + a.len();
            lemma_joint(s, p, depth, word);
            lemma_run(s, Class::Word, p, p);
            lemma_marker(s, from, depth, *first);
            lemma_marker(s, p + w.len(), depth, *second);
        },
        Marker::Group(inner) => {
            let a = marker_text(*inner);
            lemma_stands_parts(s, from, seq!['('] + a, seq![')']);
            lemma_stands_parts(s, from, seq!['('], a);
            let p = from + 1 + a.len();
            lemma_stands(s, p, seq![')']);
            assert(s[p] == seq![')'][0]);
            lemma_stands(s, from, seq!['(']);
            assert(s[from] == seq!['('][0]);
            lemma_group_begin(s, from, depth);
            lemma_group_end(s, p, depth);
            lemma_marker(s, from + 1, depth + 1, *inner);
        },
    }
}

/// The word that joins two markers is passed over.
proof fn lemma_joint(s: Seq<char>, p: int, depth: nat, word: Seq<char>)
    requires
        word == "and"@ || word == "or"@,
        stands(s, p, seq![' '] + word + seq![' ']),
    ensures
        is_whitespace(s[p]),
        marker_reads(s, p, depth, true) == marker_reads(s, p + word.len() + 2, depth, false),
{
    reveal_strlit("and");
    reveal_strlit("or");
    let w = seq![' '] + word + seq![' '];
    lemma_stands(s, p, w);
    assert(s[p] == w[0]);
    let end = p + 1 + word.len();
    assert(s[end] == w[1 + word.len() as int]);
    assert forall|k: int| p + 1 <= k < end implies in_class(Class::Word, #[trigger] s[k])
        && s[k] == word[k - p - 1] by {
        assert(s[k] == w[k - p]);
        assert(w[k - p] == word[k - p - 1]);
    }
    assert(s[p + 1] == word[0]);
    lemma_run(s, Class::Space, p, p + 1);
    lemma_run(s, Class::Word, p + 1, end);
    assert(s.subrange(p + 1, end) =~= word);
    lemma_marker_blank(s, end, depth, false);
}

/// A closing parenthesis is passed over; behind it the word goes on as behind the
/// marker.
proof fn lemma_group_end(s: Seq<char>, p: int, depth: nat)
    requires
        0 <= p < s.len(),
        s[p] == ')',
        ends_marker(s, p + 1),
    ensures
        ends_marker(s, p),
        marker_reads(s, p, depth + 1, true) == marker_reads(s, p + 1, depth, true),
{
    reveal_strlit("and");
    reveal_strlit("or");
    lemma_run_end(s, Class::Word, p + 1);
    let end = run_end(s, Class::Word, p + 1);
    let word = s.subrange(p, end);
    assert(run_end(s, Class::Word, p) == end);
    assert forall|k: int| 0 <= k < word.len() implies #[trigger] word[k] <= '\u{7f}' by {
        if k > 0 {
            assert(word[k] == s.subrange(p + 1, end)[k - 1]);
        }
    }
    lemma_run(s, Class::Space, p, p);
    assert(word[0] == ')');
    assert("and"@[0] == 'a');
    assert("or"@[0] == 'o');
}

} // verus!
