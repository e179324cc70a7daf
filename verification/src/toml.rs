//! The parts of TOML that dependency tables use: keys, quoted values and
//! inline tables. All positions are character indices.

use crate::scan::{
    is_verbatim, json_token, lemma_json_token, next_json_string, token_of, StringToken, TokenView,
};
use crate::text::{
    first_index, is_ascii_alphanumeric, lemma_first_index, same_text, string_of, trim_end,
    trim_start, trimmed_end, trimmed_start,
};
use vstd::prelude::*;
use vstd::slice::slice_subrange;

verus! {

/// A value in a text, and where it stands.
pub struct InlineValue {
    pub value: String,
    pub start: usize,
    pub end: usize,
}

/// What an [`InlineValue`] says.
#[verifier::ext_equal]
pub struct ValueView {
    pub value: Seq<char>,
    pub start: int,
    pub end: int,
}

impl View for InlineValue {
    type V = ValueView;

    open spec fn view(&self) -> ValueView {
        ValueView { value: self.value@, start: self.start as int, end: self.end as int }
    }
}

/// The view of an optional value.
pub open spec fn value_of(value: Option<InlineValue>) -> Option<ValueView> {
    match value {
        Some(v) => Some(v@),
        None => None,
    }
}

/// The value is what stands at its place, unless that is written with escapes.
pub open spec fn stands_in(v: ValueView, s: Seq<char>) -> bool {
    is_verbatim(s.subrange(v.start, v.end)) ==> v.value == s.subrange(v.start, v.end)
}

/// The double-quoted string that `s` begins with.
pub open spec fn quoted_value(s: Seq<char>) -> Option<ValueView> {
    match json_token(s, 0, s.len() as int) {
        Some(t) => if t.inner_start == 1 {
            Some(ValueView { value: t.value, start: t.inner_start, end: t.inner_end })
        } else {
            None
        },
        None => None,
    }
}

/// Reads the double-quoted string that `text` begins with.
pub fn parse_quoted_string(text: &[char]) -> (found: Option<InlineValue>)
    ensures
        value_of(found) == quoted_value(text@),
        found matches Some(v) ==> v.start <= v.end < text@.len() && stands_in(v@, text@),
{
    match next_json_string(text, 0, text.len()) {
        Some(t) => if t.inner_start == 1 {
            Some(InlineValue { value: t.value, start: t.inner_start, end: t.inner_end })
        } else {
            None
        },
        None => None,
    }
}

/// The name that a key stands for: the string it quotes, or itself.
pub open spec fn normalized_key(key: Seq<char>) -> Option<Seq<char>> {
    if key.len() > 0 && key[0] == '"' {
        match quoted_value(key) {
            Some(v) => Some(v.value),
            None => None,
        }
    } else if key.len() > 0 {
        Some(key)
    } else {
        None
    }
}

/// Reads a key.
pub fn normalize_toml_key(key: &[char]) -> (name: Option<String>)
    ensures
        crate::outside::text_of(name) == normalized_key(key@),
{
    if key.len() > 0 && key[0] == '"' {
        match parse_quoted_string(key) {
            Some(v) => Some(v.value),
            None => None,
        }
    } else if key.len() > 0 {
        Some(string_of(key))
    } else {
        None
    }
}

/// The characters of a bare key.
#[verifier::allow_in_spec]
pub fn is_key_char(c: char) -> (b: bool)
    returns
        is_ascii_alphanumeric(c) || c == '_' || c == '-',
{
    is_ascii_alphanumeric(c) || c == '_' || c == '-'
}

/// Holds where a key can begin.
pub open spec fn starts_key(s: Seq<char>) -> spec_fn(int) -> bool {
    |i: int| s[i] == '"' || is_key_char(s[i])
}

/// Holds where a bare key has ended.
pub open spec fn ends_key(s: Seq<char>) -> spec_fn(int) -> bool {
    |i: int| !is_key_char(s[i])
}

/// The bare key that begins at `start` ends here.
pub open spec fn bare_key_end(s: Seq<char>, start: int) -> int {
    match first_index(ends_key(s), start, s.len() as int) {
        Some(end) => end,
        None => s.len() as int,
    }
}

/// The first key from `from` on.
pub open spec fn key_token(s: Seq<char>, from: int) -> Option<TokenView> {
    match first_index(starts_key(s), from, s.len() as int) {
        Some(start) => if s[start] == '"' {
            json_token(s, start, s.len() as int)
        } else {
            let end = bare_key_end(s, start);
            Some(
                TokenView {
                    value: s.subrange(start, end),
                    inner_start: start,
                    inner_end: end,
                    outer_end: end,
                },
            )
        },
        None => None,
    }
}

/// A key is not empty.
pub proof fn lemma_key_token(s: Seq<char>, from: int)
    requires
        0 <= from,
    ensures
        key_token(s, from) matches Some(t) ==> from < t.outer_end <= s.len(),
{
    lemma_first_index(starts_key(s), from, s.len() as int);
    if let Some(start) = first_index(starts_key(s), from, s.len() as int) {
        assert(starts_key(s)(start));
        lemma_json_token(s, start, s.len() as int);
        lemma_first_index(ends_key(s), start, s.len() as int);
        if s[start] != '"' {
            assert(!ends_key(s)(start));
        }
    }
}

/// Finds the first key from `from` on.
pub fn next_toml_key_token(text: &[char], from: usize) -> (token: Option<StringToken>)
    ensures
        token_of(token) == key_token(text@, from as int),
        token matches Some(t) ==> from < t.outer_end <= text@.len(),
{
    let n: usize = text.len();
    let mut start: usize = from;
    let ghost p = starts_key(text@);
    while start < n && !(text[start] == '"' || is_key_char(text[start]))
        invariant
            from <= start,
            n == text@.len(),
            p == starts_key(text@),
            first_index(p, from as int, n as int) == first_index(p, start as int, n as int),
        decreases n - start,
    {
        assert(!p(start as int));
        start += 1;
    }
    if start >= n {
        return None;
    }
    assert(p(start as int));
    proof {
        lemma_key_token(text@, from as int);
    }
    if text[start] == '"' {
        return next_json_string(text, start, n);
    }
    let ghost q = ends_key(text@);
    let mut end: usize = start;
    while end < n && is_key_char(text[end])
        invariant
            start <= end <= n,
            n == text@.len(),
            q == ends_key(text@),
            first_index(q, start as int, n as int) == first_index(q, end as int, n as int),
        decreases n - end,
    {
        assert(!q(end as int));
        end += 1;
    }
    assert(end < n ==> q(end as int));
    let inner = slice_subrange(text, start, end);
    Some(
        StringToken { value: string_of(inner), inner_start: start, inner_end: end, outer_end: end },
    )
}

/// Holds where an unquoted value of an inline table ends.
pub open spec fn ends_bare_value(s: Seq<char>) -> spec_fn(int) -> bool {
    |i: int| s[i] == ',' || s[i] == '}'
}

/// The unquoted value that `s` begins with: what stands before the next comma
/// or closing brace, without the white space around it.
pub open spec fn bare_value(s: Seq<char>) -> Option<ValueView> {
    let start = s.len() - trimmed_start(s).len();
    let end = match first_index(ends_bare_value(s), start, s.len() as int) {
        Some(i) => i,
        None => s.len() as int,
    };
    let value = trimmed_end(s.subrange(start, end));
    if value.len() > 0 {
        Some(ValueView { value, start, end: start + value.len() })
    } else {
        None
    }
}

/// Reads the unquoted value that `text` begins with.
pub fn parse_bare_inline_value(text: &[char]) -> (found: Option<InlineValue>)
    ensures
        value_of(found) == bare_value(text@),
        found matches Some(v) ==> v.start <= v.end <= text@.len() && stands_in(v@, text@),
{
    let n: usize = text.len();
    let rest = trim_start(text);
    let start: usize = n - rest.len();
    let ghost p = ends_bare_value(text@);
    let mut end: usize = start;
    while end < n && !(text[end] == ',' || text[end] == '}')
        invariant
            start <= end <= n,
            n == text@.len(),
            p == ends_bare_value(text@),
            first_index(p, start as int, n as int) == first_index(p, end as int, n as int),
        decreases n - end,
    {
        assert(!p(end as int));
        end += 1;
    }
    assert(end < n ==> p(end as int));
    let value = trim_end(slice_subrange(text, start, end));
    if value.len() > 0 {
        assert(value@ =~= text@.subrange(start as int, start + value@.len()));
        Some(InlineValue { value: string_of(value), start, end: start + value.len() })
    } else {
        None
    }
}

/// The value that an inline table has at its beginning: a quoted one, or, where
/// `bare` says so, an unquoted one.
pub open spec fn table_value(s: Seq<char>, bare: bool) -> Option<ValueView> {
    match quoted_value(s) {
        Some(v) => Some(v),
        None => if bare {
            bare_value(s)
        } else {
            None
        },
    }
}

/// The value of the first key named `key` in an inline table, reading from
/// `cursor`; `bare` says whether an unquoted value counts.
pub open spec fn inline_value(s: Seq<char>, key: Seq<char>, bare: bool, cursor: int) -> Option<
    ValueView,
>
    decreases s.len() - cursor,
{
    proof {
        if cursor >= 0 {
            lemma_key_token(s, cursor);
        }
    }
    if cursor < 0 || cursor >= s.len() {
        None
    } else {
        match key_token(s, cursor) {
            Some(t) => {
                let after_key = trimmed_start(s.skip(t.outer_end));
                let after_equals = trimmed_start(after_key.skip(1));
                if after_key.len() > 0 && after_key[0] == '=' && t.value == key {
                    let at = s.len() - after_equals.len();
                    match table_value(after_equals, bare) {
                        Some(v) => Some(
                            ValueView { value: v.value, start: at + v.start, end: at + v.end },
                        ),
                        None => None,
                    }
                } else {
                    inline_value(s, key, bare, t.outer_end)
                }
            },
            None => None,
        }
    }
}

/// Finds the value of the first key named `key` in an inline table.
#[verifier::rlimit(40)]
pub fn find_inline_value(table: &[char], key: &str, bare: bool) -> (found: Option<InlineValue>)
    ensures
        value_of(found) == inline_value(table@, key@, bare, 0),
        found matches Some(v) ==> v.start <= v.end <= table@.len() && stands_in(v@, table@),
{
    let n: usize = table.len();
    let mut cursor: usize = 0;
    while cursor < n
        invariant
            n == table@.len(),
            inline_value(table@, key@, bare, 0) == inline_value(table@, key@, bare, cursor as int),
        decreases n - cursor,
    {
        let token = match next_toml_key_token(table, cursor) {
            Some(t) => t,
            None => {
                return None;
            },
        };
        let rest = slice_subrange(table, token.outer_end, n);
        assert(rest@ =~= table@.skip(token.outer_end as int));
        let after_key = trim_start(rest);
        if after_key.len() > 0 && after_key[0] == '=' && same_text(token.value.as_str(), key) {
            let rest = slice_subrange(after_key, 1, after_key.len());
            assert(rest@ =~= after_key@.skip(1));
            let after_equals = trim_start(rest);
            let at: usize = n - after_equals.len();
            let value = match parse_quoted_string(after_equals) {
                Some(v) => v,
                None => {
                    if !bare {
                        return None;
                    }
                    match parse_bare_inline_value(after_equals) {
                        Some(v) => v,
                        None => {
                            return None;
                        },
                    }
                },
            };
            assert(after_equals@ =~= table@.skip(at as int));
            assert(after_equals@.subrange(value.start as int, value.end as int) =~= table@.subrange(
                at + value.start,
                at + value.end,
            ));
            return Some(
                InlineValue { value: value.value, start: at + value.start, end: at + value.end },
            );
        }
        cursor = token.outer_end;
    }
    None
}

} // verus!
