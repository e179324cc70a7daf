//! Text as a sequence of characters: searching, trimming and comparing
//! stretches of it, and the byte offsets of its characters.
//!
//! A manifest is read as a `Seq<char>`. Inside the library a position is a
//! character index; a [`crate::manifest::Span`] that leaves it counts bytes of
//! the UTF-8 encoding, and [`byte_offset`] is the step between the two.

use vstd::prelude::*;
use vstd::slice::slice_subrange;
use vstd::string::StrSliceExecFns;
use vstd::utf8::{encode_scalar, encode_utf8};

verus! {

/// `String::push` appends one character.
pub assume_specification[ String::push ](s: &mut String, c: char)
    ensures
        final(s)@ == old(s)@.push(c),
;

/// The Unicode `White_Space` characters.
#[verifier::allow_in_spec]
pub fn is_whitespace(c: char) -> (b: bool)
    returns
        ('\u{9}' <= c && c <= '\u{d}') || c == ' ' || c == '\u{85}' || c == '\u{a0}' || c
            == '\u{1680}' || ('\u{2000}' <= c && c <= '\u{200a}') || c == '\u{2028}' || c
            == '\u{2029}' || c == '\u{202f}' || c == '\u{205f}' || c == '\u{3000}',
{
    ('\u{9}' <= c && c <= '\u{d}') || c == ' ' || c == '\u{85}' || c == '\u{a0}' || c
        == '\u{1680}' || ('\u{2000}' <= c && c <= '\u{200a}') || c == '\u{2028}' || c == '\u{2029}'
        || c == '\u{202f}' || c == '\u{205f}' || c == '\u{3000}'
}

/// Space, tab, line feed, form feed and carriage return.
#[verifier::allow_in_spec]
pub fn is_ascii_whitespace(c: char) -> (b: bool)
    returns
        c == ' ' || c == '\t' || c == '\n' || c == '\u{c}' || c == '\r',
{
    c == ' ' || c == '\t' || c == '\n' || c == '\u{c}' || c == '\r'
}

/// The digits `0` to `9`.
#[verifier::allow_in_spec]
pub fn is_ascii_digit(c: char) -> (b: bool)
    returns
        '0' <= c && c <= '9',
{
    '0' <= c && c <= '9'
}

/// The digits and the letters of the Latin alphabet.
#[verifier::allow_in_spec]
pub fn is_ascii_alphanumeric(c: char) -> (b: bool)
    returns
        ('0' <= c && c <= '9') || ('a' <= c && c <= 'z') || ('A' <= c && c <= 'Z'),
{
    ('0' <= c && c <= '9') || ('a' <= c && c <= 'z') || ('A' <= c && c <= 'Z')
}

// ---------------------------------------------------------------------------
// Searching
// ---------------------------------------------------------------------------

/// The first index in `from..to` at which `p` holds.
pub open spec fn first_index(p: spec_fn(int) -> bool, from: int, to: int) -> Option<int>
    decreases to - from,
{
    if from >= to {
        None
    } else if p(from) {
        Some(from)
    } else {
        first_index(p, from + 1, to)
    }
}

/// What `first_index` finds lies in the range and satisfies `p`, and nothing
/// before it does.
pub proof fn lemma_first_index(p: spec_fn(int) -> bool, from: int, to: int)
    ensures
        first_index(p, from, to) matches Some(i) ==> from <= i < to && p(i),
        first_index(p, from, to) matches Some(i) ==> forall|j: int| from <= j < i ==> !(#[trigger] p(j)),
        first_index(p, from, to) is None ==> forall|j: int| from <= j < to ==> !(#[trigger] p(j)),
    decreases to - from,
{
    if from < to && !p(from) {
        lemma_first_index(p, from + 1, to);
    }
}

/// Holds of the positions of `c` in `s`.
pub open spec fn is_char(s: Seq<char>, c: char) -> spec_fn(int) -> bool {
    |i: int| s[i] == c
}

/// The first occurrence of `c` in `from..to`.
pub open spec fn index_of(s: Seq<char>, c: char, from: int, to: int) -> Option<int> {
    first_index(is_char(s, c), from, to)
}

/// The bounds of what `index_of` finds.
pub proof fn lemma_index_of(s: Seq<char>, c: char, from: int, to: int)
    ensures
        index_of(s, c, from, to) matches Some(i) ==> from <= i < to && s[i] == c,
        index_of(s, c, from, to) matches Some(i) ==> forall|j: int| from <= j < i ==> s[j] != c,
        index_of(s, c, from, to) is None ==> forall|j: int| from <= j < to ==> s[j] != c,
{
    let p = is_char(s, c);
    lemma_first_index(p, from, to);
    assert forall|j: int| s[j] != c <==> !(#[trigger] p(j)) by {}
    if let Some(i) = index_of(s, c, from, to) {
        assert forall|j: int| from <= j < i implies s[j] != c by {
            assert(!p(j));
        }
    } else {
        assert forall|j: int| from <= j < to implies s[j] != c by {
            assert(!p(j));
        }
    }
}

/// Finds the first occurrence of `c` in `from..to`.
pub fn find_char(s: &[char], c: char, from: usize, to: usize) -> (found: Option<usize>)
    requires
        to <= s@.len(),
    ensures
        found matches Some(i) ==> index_of(s@, c, from as int, to as int) == Some(i as int) && from
            <= i < to && s@[i as int] == c,
        found is None ==> index_of(s@, c, from as int, to as int) is None,
{
    let mut i: usize = from;
    while i < to
        invariant
            from <= i,
            to <= s@.len(),
            index_of(s@, c, from as int, to as int) == index_of(s@, c, i as int, to as int),
        decreases to - i,
    {
        if s[i] == c {
            return Some(i);
        }
        i += 1;
    }
    None
}

/// `s` up to the first `c`.
pub open spec fn up_to(s: Seq<char>, c: char) -> Seq<char> {
    match index_of(s, c, 0, s.len() as int) {
        Some(i) => s.take(i),
        None => s,
    }
}

/// Drops the first `c` of `s` and what follows it.
pub fn before(s: &[char], c: char) -> (kept: &[char])
    ensures
        kept@ == up_to(s@, c),
{
    match find_char(s, c, 0, s.len()) {
        Some(i) => {
            let kept = slice_subrange(s, 0, i);
            assert(kept@ =~= s@.take(i as int));
            kept
        },
        None => s,
    }
}

/// Whether `needle` occurs in `s`.
pub open spec fn contains_text(s: Seq<char>, needle: Seq<char>) -> bool {
    exists|i: int| 0 <= i <= s.len() && needle.is_prefix_of(#[trigger] s.skip(i))
}

// ---------------------------------------------------------------------------
// Comparing with literals
// ---------------------------------------------------------------------------

/// Whether `s` begins with `prefix`.
pub fn starts_with(s: &[char], prefix: &str) -> (b: bool)
    ensures
        b == prefix@.is_prefix_of(s@),
{
    let n = prefix.unicode_len();
    if s.len() < n {
        return false;
    }
    let mut i: usize = 0;
    while i < n
        invariant
            i <= n <= s@.len(),
            n == prefix@.len(),
            forall|j: int| 0 <= j < i ==> prefix@[j] == s@[j],
        decreases n - i,
    {
        if s[i] != prefix.get_char(i) {
            assert(prefix@[i as int] != s@.subrange(0, n as int)[i as int]);
            return false;
        }
        i += 1;
    }
    assert(prefix@ =~= s@.subrange(0, n as int));
    true
}

/// Whether `s` ends with `suffix`.
pub fn ends_with(s: &[char], suffix: &str) -> (b: bool)
    ensures
        b == suffix@.is_suffix_of(s@),
{
    let n = suffix.unicode_len();
    if s.len() < n {
        return false;
    }
    let start: usize = s.len() - n;
    let mut i: usize = 0;
    while i < n
        invariant
            i <= n <= s@.len(),
            n == suffix@.len(),
            s@.len() == s.len(),
            start == s@.len() - n,
            forall|j: int| 0 <= j < i ==> suffix@[j] == s@[start + j],
        decreases n - i,
    {
        if s[start + i] != suffix.get_char(i) {
            assert(suffix@[i as int] != s@.subrange(start as int, s@.len() as int)[i as int]);
            return false;
        }
        i += 1;
    }
    assert(suffix@ =~= s@.subrange(start as int, s@.len() as int));
    true
}

/// Whether `s` is `literal`.
pub fn equals(s: &[char], literal: &str) -> (b: bool)
    ensures
        b == (s@ == literal@),
{
    let same = starts_with(s, literal);
    let n = literal.unicode_len();
    proof {
        if same && s@.len() == n {
            assert(s@.subrange(0, n as int) =~= s@);
        }
        if s@ == literal@ {
            assert(s@.subrange(0, n as int) =~= s@);
        }
    }
    same && s.len() == n
}

/// Whether `needle` occurs in `s`.
pub fn contains(s: &[char], needle: &str) -> (b: bool)
    ensures
        b == contains_text(s@, needle@),
{
    let mut i: usize = 0;
    loop
        invariant
            i <= s@.len(),
            forall|j: int| 0 <= j < i ==> !needle@.is_prefix_of(#[trigger] s@.skip(j)),
        decreases s@.len() - i,
    {
        let rest = slice_subrange(s, i, s.len());
        assert(rest@ =~= s@.skip(i as int));
        if starts_with(rest, needle) {
            return true;
        }
        if i == s.len() {
            return false;
        }
        i += 1;
    }
}

/// Whether two strings hold the same characters.
pub fn same_text(a: &str, b: &str) -> (same: bool)
    ensures
        same == (a@ == b@),
{
    let chars = chars_of(a);
    equals(chars.as_slice(), b)
}

/// A letter of the Latin alphabet in lower case; any other character as it is.
pub open spec fn lower(c: char) -> char {
    if 'A' <= c && c <= 'Z' {
        ((c as u32) + 32) as char
    } else {
        c
    }
}

/// `s` with the letters of the Latin alphabet in lower case.
pub open spec fn lowered(s: Seq<char>) -> Seq<char> {
    Seq::new(s.len(), |i: int| lower(s[i]))
}

/// Puts the letters of the Latin alphabet in lower case.
pub fn to_ascii_lowercase(s: &[char]) -> (r: Vec<char>)
    ensures
        r@ == lowered(s@),
{
    let mut r: Vec<char> = Vec::new();
    let mut i: usize = 0;
    while i < s.len()
        invariant
            i <= s@.len(),
            r@ == lowered(s@.take(i as int)),
        decreases s@.len() - i,
    {
        let c = s[i];
        if 'A' <= c && c <= 'Z' {
            r.push((c as u8 + 32) as char);
        } else {
            r.push(c);
        }
        i += 1;
    }
    assert(s@.take(i as int) =~= s@);
    r
}

// ---------------------------------------------------------------------------
// Trimming
// ---------------------------------------------------------------------------

/// `s` without its leading white space.
pub open spec fn trimmed_start(s: Seq<char>) -> Seq<char>
    decreases s.len(),
{
    if s.len() > 0 && is_whitespace(s[0]) {
        trimmed_start(s.skip(1))
    } else {
        s
    }
}

/// `s` without its trailing white space.
pub open spec fn trimmed_end(s: Seq<char>) -> Seq<char>
    decreases s.len(),
{
    if s.len() > 0 && is_whitespace(s.last()) {
        trimmed_end(s.drop_last())
    } else {
        s
    }
}

/// `s` without the white space at both ends.
pub open spec fn trimmed(s: Seq<char>) -> Seq<char> {
    trimmed_end(trimmed_start(s))
}

/// Trimming the start leaves a suffix.
pub proof fn lemma_trimmed_start(s: Seq<char>)
    ensures
        trimmed_start(s).len() <= s.len(),
        trimmed_start(s) == s.skip(s.len() - trimmed_start(s).len()),
        trimmed_start(s).len() > 0 ==> !is_whitespace(trimmed_start(s)[0]),
    decreases s.len(),
{
    if s.len() > 0 && is_whitespace(s[0]) {
        lemma_trimmed_start(s.skip(1));
        let k = s.len() - 1 - trimmed_start(s.skip(1)).len();
        assert(s.skip(1).skip(k) =~= s.skip(k + 1));
    } else {
        assert(s.skip(0) =~= s);
    }
}

/// Trimming the end leaves a prefix.
pub proof fn lemma_trimmed_end(s: Seq<char>)
    ensures
        trimmed_end(s).len() <= s.len(),
        trimmed_end(s) == s.take(trimmed_end(s).len() as int),
        trimmed_end(s).len() > 0 ==> !is_whitespace(trimmed_end(s).last()),
    decreases s.len(),
{
    if s.len() > 0 && is_whitespace(s.last()) {
        lemma_trimmed_end(s.drop_last());
        assert(s.drop_last().take(trimmed_end(s).len() as int) =~= s.take(
            trimmed_end(s).len() as int,
        ));
    } else {
        assert(s.take(s.len() as int) =~= s);
    }
}

/// Drops leading white space.
pub fn trim_start(s: &[char]) -> (r: &[char])
    ensures
        r@ == trimmed_start(s@),
        r@.len() <= s@.len(),
        r@ == s@.skip(s@.len() - r@.len()),
{
    let mut i: usize = 0;
    assert(s@.skip(0) =~= s@);
    while i < s.len() && is_whitespace(s[i])
        invariant
            i <= s@.len(),
            trimmed_start(s@) == trimmed_start(s@.skip(i as int)),
        decreases s@.len() - i,
    {
        assert(s@.skip(i as int).skip(1) =~= s@.skip(i + 1));
        i += 1;
    }
    let r = slice_subrange(s, i, s.len());
    assert(r@ =~= s@.skip(i as int));
    r
}

/// Drops trailing white space.
pub fn trim_end(s: &[char]) -> (r: &[char])
    ensures
        r@ == trimmed_end(s@),
        r@.len() <= s@.len(),
        r@ == s@.take(r@.len() as int),
{
    let mut n: usize = s.len();
    assert(s@.take(n as int) =~= s@);
    while n > 0 && is_whitespace(s[n - 1])
        invariant
            n <= s@.len(),
            trimmed_end(s@) == trimmed_end(s@.take(n as int)),
        decreases n,
    {
        assert(s@.take(n as int).drop_last() =~= s@.take(n - 1));
        n -= 1;
    }
    let r = slice_subrange(s, 0, n);
    assert(r@ =~= s@.take(n as int));
    r
}

/// Drops the white space at both ends.
pub fn trim(s: &[char]) -> (r: &[char])
    ensures
        r@ == trimmed(s@),
{
    trim_end(trim_start(s))
}

// ---------------------------------------------------------------------------
// Strings and characters
// ---------------------------------------------------------------------------

/// The characters of `text`, in order.
pub fn chars_of(text: &str) -> (chars: Vec<char>)
    ensures
        chars@ == text@,
{
    let mut chars: Vec<char> = Vec::new();
    for c in iter: text.chars()
        invariant
            chars@ == iter.seq().take(iter.index() as int),
            iter.seq() == text@,
    {
        chars.push(c);
    }
    chars
}

/// The string whose characters are `chars`.
pub fn string_of(chars: &[char]) -> (text: String)
    ensures
        text@ == chars@,
{
    let mut text = String::new();
    let mut i: usize = 0;
    while i < chars.len()
        invariant
            i <= chars.len(),
            text@ == chars@.take(i as int),
        decreases chars.len() - i,
    {
        text.push(chars[i]);
        i += 1;
    }
    text
}

// ---------------------------------------------------------------------------
// Byte offsets
// ---------------------------------------------------------------------------

/// The number of bytes that encode `s`.
pub open spec fn byte_len(s: Seq<char>) -> nat {
    encode_utf8(s).len()
}

/// The byte at which character `i` of `s` begins; at the end, the length of
/// `s` in bytes.
pub open spec fn byte_offset(s: Seq<char>, i: int) -> nat {
    byte_len(s.take(i))
}

/// The encoding of a concatenation is the concatenation of the encodings.
pub proof fn lemma_encode_concat(a: Seq<char>, b: Seq<char>)
    ensures
        encode_utf8(a + b) == encode_utf8(a) + encode_utf8(b),
    decreases a.len(),
{
    if a.len() == 0 {
        assert(a + b =~= b);
    } else {
        lemma_encode_concat(a.drop_first(), b);
        assert((a + b).drop_first() =~= a.drop_first() + b);
    }
}

/// The next character begins where the encoding of this one ends.
pub proof fn lemma_byte_offset_step(s: Seq<char>, i: int)
    requires
        0 <= i < s.len(),
    ensures
        byte_offset(s, i + 1) == byte_offset(s, i) + encode_scalar(s[i] as u32).len(),
{
    let one = seq![s[i]];
    assert(s.take(i + 1) =~= s.take(i) + one);
    lemma_encode_concat(s.take(i), one);
    assert(one.drop_first() =~= Seq::<char>::empty());
    reveal_with_fuel(encode_utf8, 2);
    assert(encode_utf8(one) =~= encode_scalar(s[i] as u32));
}

/// Byte offsets grow with the position.
pub proof fn lemma_byte_offset_monotonic(s: Seq<char>, i: int, j: int)
    requires
        0 <= i <= j <= s.len(),
    ensures
        byte_offset(s, i) <= byte_offset(s, j),
        byte_offset(s, j) <= byte_len(s),
        byte_offset(s, i) + (j - i) <= byte_offset(s, j),
    decreases s.len() - i, s.len() - j,
{
    if i < j {
        lemma_byte_offset_step(s, i);
        vstd::utf8::char_is_scalar(s[i]);
        lemma_byte_offset_monotonic(s, i + 1, j);
    } else if j < s.len() {
        lemma_byte_offset_monotonic(s, j, s.len() as int);
        assert(s.take(s.len() as int) =~= s);
    } else {
        assert(s.take(s.len() as int) =~= s);
    }
}

/// The number of bytes that encode `c`.
pub fn utf8_width(c: char) -> (n: usize)
    ensures
        n == encode_scalar(c as u32).len(),
        1 <= n <= 4,
{
    let v = c as u32;
    if v <= 0x7f {
        1
    } else if v <= 0x7ff {
        2
    } else if v <= 0xffff {
        3
    } else {
        4
    }
}

/// The byte offset of every character of `text` and of its end.
pub fn byte_offsets(text: &str) -> (offsets: Vec<usize>)
    ensures
        offsets@.len() == text@.len() + 1,
        forall|i: int| 0 <= i <= text@.len() ==> #[trigger] offsets@[i] == byte_offset(text@, i),
        byte_len(text@) <= usize::MAX,
{
    let bytes = text.as_bytes();
    let total: usize = bytes.len();
    assert(byte_len(text@) == total);
    let mut offsets: Vec<usize> = Vec::new();
    let mut at: usize = 0;
    assert(text@.take(0) =~= Seq::<char>::empty());
    offsets.push(0);
    for c in iter: text.chars()
        invariant
            iter.seq() == text@,
            byte_len(text@) == total,
            offsets@.len() == iter.index() + 1,
            at == byte_offset(text@, iter.index() as int),
            forall|i: int|
                0 <= i <= iter.index() ==> #[trigger] offsets@[i] == byte_offset(text@, i),
    {
        proof {
            lemma_byte_offset_step(text@, iter.index() as int);
            lemma_byte_offset_monotonic(text@, iter.index() + 1, iter.index() + 1);
        }
        at = at + utf8_width(c);
        offsets.push(at);
    }
    offsets
}

} // verus!
