//! Quoted strings, brackets and comments: the tokens that manifests are made
//! of. All positions are character indices.

use crate::outside::{is_plain_start, json_string, json_string_value};
use crate::text::{
    byte_len, byte_offset, find_char, first_index, index_of, is_ascii_whitespace,
    lemma_byte_offset_monotonic, lemma_encode_concat, lemma_first_index, lemma_index_of, string_of,
};
use vstd::prelude::*;
use vstd::slice::slice_subrange;

verus! {

// ---------------------------------------------------------------------------
// Quoting
// ---------------------------------------------------------------------------

/// Whether the character at `i` is escaped, reading from `start`: it follows a
/// backslash that is not itself escaped.
pub open spec fn escaped_at(s: Seq<char>, start: int, i: int) -> bool
    decreases i - start,
{
    i > start && s[i - 1] == '\\' && !escaped_at(s, start, i - 1)
}

/// Whether position `i` lies between quotation marks: an odd number of
/// unescaped ones stand before it.
pub open spec fn quoted_at(s: Seq<char>, i: int) -> bool
    decreases i,
{
    i > 0 && ((s[i - 1] == '"' && !escaped_at(s, 0, i - 1)) != quoted_at(s, i - 1))
}

/// Holds of the unescaped, unquoted positions of `target` in `s`.
pub open spec fn is_unquoted(s: Seq<char>, target: char) -> spec_fn(int) -> bool {
    |i: int|
        s[i] == target && target != '\\' && target != '"' && !escaped_at(s, 0, i) && !quoted_at(
            s,
            i,
        )
}

/// The first unescaped, unquoted occurrence of `target`.
pub open spec fn unquoted_index(s: Seq<char>, target: char) -> Option<int> {
    first_index(is_unquoted(s, target), 0, s.len() as int)
}

/// The part of a line before its first unquoted `#`.
pub open spec fn without_comment(line: Seq<char>) -> Seq<char> {
    match unquoted_index(line, '#') {
        Some(i) => line.take(i),
        None => line,
    }
}

/// Finds the first `target` that is neither escaped nor between quotation
/// marks.
pub fn find_unquoted_char(text: &[char], target: char) -> (found: Option<usize>)
    ensures
        found matches Some(i) ==> unquoted_index(text@, target) == Some(i as int) && i
            < text@.len() && text@[i as int] == target,
        found is None ==> unquoted_index(text@, target) is None,
{
    let mut escaped = false;
    let mut quoted = false;
    let mut i: usize = 0;
    let ghost p = is_unquoted(text@, target);
    while i < text.len()
        invariant
            i <= text@.len(),
            escaped == escaped_at(text@, 0, i as int),
            quoted == quoted_at(text@, i as int),
            p == is_unquoted(text@, target),
            unquoted_index(text@, target) == first_index(p, i as int, text@.len() as int),
        decreases text@.len() - i,
    {
        let c = text[i];
        if escaped {
            escaped = false;
        } else if c == '\\' {
            escaped = true;
        } else if c == '"' {
            quoted = !quoted;
        } else if !quoted && c == target {
            assert(p(i as int));
            return Some(i);
        }
        assert(!p(i as int));
        i += 1;
    }
    None
}

/// Drops the comment of a line.
pub fn strip_unquoted_comment(line: &[char]) -> (kept: &[char])
    ensures
        kept@ == without_comment(line@),
        kept@.len() <= line@.len(),
        kept@ == line@.take(kept@.len() as int),
{
    match find_unquoted_char(line, '#') {
        Some(i) => {
            let kept = slice_subrange(line, 0, i);
            assert(kept@ =~= line@.take(i as int));
            kept
        },
        None => {
            assert(line@.take(line@.len() as int) =~= line@);
            line
        },
    }
}

// ---------------------------------------------------------------------------
// String tokens
// ---------------------------------------------------------------------------

/// A string found in a text: its value, and where it stands.
pub struct StringToken {
    pub value: String,
    pub inner_start: usize,
    pub inner_end: usize,
    pub outer_end: usize,
}

/// What a [`StringToken`] says.
#[verifier::ext_equal]
pub struct TokenView {
    pub value: Seq<char>,
    pub inner_start: int,
    pub inner_end: int,
    pub outer_end: int,
}

impl View for StringToken {
    type V = TokenView;

    open spec fn view(&self) -> TokenView {
        TokenView {
            value: self.value@,
            inner_start: self.inner_start as int,
            inner_end: self.inner_end as int,
            outer_end: self.outer_end as int,
        }
    }
}

/// The view of an optional token.
pub open spec fn token_of(token: Option<StringToken>) -> Option<TokenView> {
    match token {
        Some(t) => Some(t@),
        None => None,
    }
}

/// Holds of the positions at which a string whose contents begin at `start`
/// can end.
pub open spec fn closes_string(s: Seq<char>, start: int) -> spec_fn(int) -> bool {
    |i: int| s[i] == '"' && !escaped_at(s, start, i)
}

/// The first double-quoted string in `from..to`; none if its contents are not
/// those of a JSON string.
pub open spec fn json_token(s: Seq<char>, from: int, to: int) -> Option<TokenView> {
    match index_of(s, '"', from, to) {
        Some(quote) => match first_index(closes_string(s, quote + 1), quote + 1, to) {
            Some(end) => match json_string_value(s.subrange(quote, end + 1)) {
                Some(value) => Some(
                    TokenView {
                        value,
                        inner_start: quote + 1,
                        inner_end: end,
                        outer_end: end + 1,
                    },
                ),
                None => None,
            },
            None => None,
        },
        None => None,
    }
}

/// Where a token stands.
pub proof fn lemma_json_token(s: Seq<char>, from: int, to: int)
    ensures
        json_token(s, from, to) matches Some(t) ==> from < t.inner_start <= t.inner_end < to
            && t.outer_end == t.inner_end + 1 && s[t.inner_start - 1] == '"' && s[t.inner_end]
            == '"' && index_of(s, '"', from, to) == Some(t.inner_start - 1),
{
    lemma_index_of(s, '"', from, to);
    if let Some(quote) = index_of(s, '"', from, to) {
        lemma_first_index(closes_string(s, quote + 1), quote + 1, to);
    }
}

/// Text that a string holds as it is, without escapes.
pub open spec fn is_verbatim(s: Seq<char>) -> bool {
    forall|i: int| 0 <= i < s.len() ==> #[trigger] s[i] != '\\'
}

/// The first `n` characters between the quotation marks of a string are no escapes.
pub open spec fn is_plain_to(s: Seq<char>, token: TokenView, n: int) -> bool {
    &&& 0 <= n <= token.inner_end - token.inner_start
    &&& is_verbatim(s.subrange(token.inner_start, token.inner_start + n))
}

/// The first `n` characters of a string are read as they stand.
pub open spec fn reads_alike(s: Seq<char>, token: TokenView, n: int) -> bool {
    &&& n <= token.value.len()
    &&& token.value.take(n) == s.subrange(token.inner_start, token.inner_start + n)
}

/// Finds the first double-quoted string in `from..to`.
pub fn next_json_string(text: &[char], from: usize, to: usize) -> (token: Option<StringToken>)
    requires
        to <= text@.len(),
    ensures
        token_of(token) == json_token(text@, from as int, to as int),
        token matches Some(t) ==> from < t.inner_start <= t.inner_end < to && t.outer_end
            == t.inner_end + 1,
        token matches Some(t) ==> byte_offset(text@, t.inner_start as int) + byte_len(t.value@)
            <= byte_offset(text@, t.inner_end as int),
        token matches Some(t) ==> is_verbatim(
            text@.subrange(t.inner_start as int, t.inner_end as int),
        ) ==> t.value@ == text@.subrange(t.inner_start as int, t.inner_end as int),
        token matches Some(t) ==> forall|n: int| #[trigger]
            is_plain_to(text@, t@, n) ==> reads_alike(text@, t@, n),
        token matches Some(t) ==> forall|p: int|
            t.inner_start <= p < t.inner_end ==> #[trigger] text@[p] >= ' ',
{
    let quote = match find_char(text, '"', from, to) {
        Some(i) => i,
        None => {
            return None;
        },
    };
    let ghost start = quote + 1;
    let ghost p = closes_string(text@, start);
    let mut cursor: usize = quote + 1;
    let mut escaped = false;
    while cursor < to
        invariant
            to <= text@.len(),
            start <= cursor,
            start == quote + 1,
            quote < to,
            from <= quote,
            text@[quote as int] == '"',
            escaped == escaped_at(text@, start, cursor as int),
            p == closes_string(text@, start),
            index_of(text@, '"', from as int, to as int) == Some(quote as int),
            first_index(p, start, to as int) == first_index(p, cursor as int, to as int),
        decreases to - cursor,
    {
        let c = text[cursor];
        if escaped {
            escaped = false;
        } else if c == '\\' {
            escaped = true;
        } else if c == '"' {
            assert(p(cursor as int));
            let raw = slice_subrange(text, quote, cursor + 1);
            let raw_text = string_of(raw);
            let value = match json_string(raw_text.as_str()) {
                Some(value) => value,
                None => {
                    return None;
                },
            };
            proof {
                lemma_inner_bytes(text@, quote as int, cursor as int);
                let inner = text@.subrange(quote + 1, cursor as int);
                if is_verbatim(inner) {
                    lemma_first_index(p, start, to as int);
                    assert forall|i: int| 0 < i < raw@.len() - 1 implies #[trigger] raw@[i] != '"'
                        && raw@[i] != '\\' by {
                        assert(raw@[i] == inner[i - 1]);
                        if i > 1 {
                            assert(inner[i - 2] == text@[quote + i - 1]);
                        }
                        assert(!p(quote + i));
                    }
                    assert(raw@.subrange(1, raw@.len() - 1) =~= inner);
                }
                assert(raw@.last() == '"');
                assert forall|p: int| start <= p < cursor implies #[trigger] text@[p] >= ' ' by {
                    assert(raw@[p - quote] == text@[p]);
                }
                let view = TokenView {
                    value: value@,
                    inner_start: start,
                    inner_end: cursor as int,
                    outer_end: cursor + 1,
                };
                assert forall|n: int| #[trigger] is_plain_to(text@, view, n) implies reads_alike(
                    text@,
                    view,
                    n,
                ) by {
                    lemma_plain_start(text@, quote as int, cursor as int, to as int, n);
                    assert(is_plain_start(raw@, n));
                    assert(raw@.subrange(1, n + 1) =~= text@.subrange(start, start + n));
                }
            }
            return Some(
                StringToken {
                    value,
                    inner_start: quote + 1,
                    inner_end: cursor,
                    outer_end: cursor + 1,
                },
            );
        }
        assert(!p(cursor as int));
        cursor += 1;
    }
    None
}

/// Where a string begins without escapes, it begins without quotation marks too.
proof fn lemma_plain_start(s: Seq<char>, quote: int, end: int, to: int, n: int)
    requires
        0 <= quote < end < to <= s.len(),
        s[quote] == '"',
        first_index(closes_string(s, quote + 1), quote + 1, to) == Some(end),
        0 <= n <= end - quote - 1,
        is_verbatim(s.subrange(quote + 1, quote + 1 + n)),
    ensures
        is_plain_start(s.subrange(quote, end + 1), n),
{
    let p = closes_string(s, quote + 1);
    let raw = s.subrange(quote, end + 1);
    let inner = s.subrange(quote + 1, quote + 1 + n);
    lemma_first_index(p, quote + 1, to);
    assert forall|i: int| 0 < i <= n implies #[trigger] raw[i] != '"' && raw[i] != '\\' by {
        assert(raw[i] == inner[i - 1]);
        if i > 1 {
            assert(inner[i - 2] == s[quote + i - 1]);
        }
        assert(!p(quote + i));
    }
}

/// Two quotation marks take one byte each.
proof fn lemma_inner_bytes(s: Seq<char>, quote: int, end: int)
    requires
        0 <= quote < end < s.len(),
        s[quote] == '"',
        s[end] == '"',
    ensures
        byte_len(s.subrange(quote, end + 1)) == byte_offset(s, end) - byte_offset(s, quote + 1) + 2,
        byte_offset(s, quote + 1) <= byte_offset(s, end),
{
    crate::text::lemma_byte_offset_step(s, quote);
    crate::text::lemma_byte_offset_step(s, end);
    lemma_byte_offset_monotonic(s, quote + 1, end);
    let raw = s.subrange(quote, end + 1);
    assert(s.take(end + 1) =~= s.take(quote) + raw);
    lemma_encode_concat(s.take(quote), raw);
}

/// The token whose contents stand between two apostrophes, the first of them at
/// `from`.
pub open spec fn literal_token(s: Seq<char>, from: int, to: int) -> Option<TokenView> {
    if 0 <= from < s.len() && s[from] == '\'' {
        match index_of(s, '\'', from + 1, to) {
            Some(end) => Some(
                TokenView {
                    value: s.subrange(from + 1, end),
                    inner_start: from + 1,
                    inner_end: end,
                    outer_end: end + 1,
                },
            ),
            None => None,
        }
    } else {
        None
    }
}

/// Where a literal token stands.
pub proof fn lemma_literal_token(s: Seq<char>, from: int, to: int)
    ensures
        literal_token(s, from, to) matches Some(t) ==> from < t.inner_start <= t.inner_end < to
            && t.outer_end == t.inner_end + 1,
{
    lemma_index_of(s, '\'', from + 1, to);
}

/// Reads the literal string that begins at `from`.
pub fn next_toml_literal_string(text: &[char], from: usize, to: usize) -> (token: Option<
    StringToken,
>)
    requires
        to <= text@.len(),
        from < to,
    ensures
        token_of(token) == literal_token(text@, from as int, to as int),
        token matches Some(t) ==> from < t.inner_start <= t.inner_end < to && t.outer_end
            == t.inner_end + 1,
        token matches Some(t) ==> byte_offset(text@, t.inner_start as int) + byte_len(t.value@)
            <= byte_offset(text@, t.inner_end as int),
{
    if text[from] != '\'' {
        return None;
    }
    match find_char(text, '\'', from + 1, to) {
        Some(end) => {
            let inner = slice_subrange(text, from + 1, end);
            proof {
                assert(text@.take(end as int) =~= text@.take(from + 1) + inner@);
                lemma_encode_concat(text@.take(from + 1), inner@);
            }
            Some(
                StringToken {
                    value: string_of(inner),
                    inner_start: from + 1,
                    inner_end: end,
                    outer_end: end + 1,
                },
            )
        },
        None => None,
    }
}

// ---------------------------------------------------------------------------
// Brackets
// ---------------------------------------------------------------------------

/// Where the comment that begins at `i` ends: behind the line feed, or at `to`.
pub open spec fn comment_end(s: Seq<char>, i: int, to: int) -> int {
    match index_of(s, '\n', i, to) {
        Some(k) => k + 1,
        None => to,
    }
}

/// A comment takes some room.
pub proof fn lemma_comment_end(s: Seq<char>, i: int, to: int)
    requires
        i < to,
    ensures
        i < comment_end(s, i, to) <= to,
{
    lemma_index_of(s, '\n', i, to);
}

/// Finds the end of the comment that begins at `i`.
pub fn skip_toml_comment(text: &[char], i: usize, to: usize) -> (end: usize)
    requires
        i < to <= text@.len(),
    ensures
        end == comment_end(text@, i as int, to as int),
        i < end <= to,
{
    match find_char(text, '\n', i, to) {
        Some(k) => k + 1,
        None => to,
    }
}

/// The bracket that brings the depth back to zero, reading from `cursor` at
/// the given depth and passing over strings; `literals` says whether
/// apostrophes delimit strings too, and number signs begin comments.
pub open spec fn closing_bracket(
    s: Seq<char>,
    open: char,
    close: char,
    literals: bool,
    cursor: int,
    depth: nat,
) -> Option<int>
    decreases s.len() - cursor,
{
    proof {
        lemma_json_token(s, cursor, s.len() as int);
        lemma_literal_token(s, cursor, s.len() as int);
    }
    if cursor < 0 || cursor >= s.len() {
        None
    } else if s[cursor] == '"' {
        match json_token(s, cursor, s.len() as int) {
            Some(t) => closing_bracket(s, open, close, literals, t.outer_end, depth),
            None => None,
        }
    } else if literals && s[cursor] == '\'' {
        match literal_token(s, cursor, s.len() as int) {
            Some(t) => closing_bracket(s, open, close, literals, t.outer_end, depth),
            None => None,
        }
    } else if literals && s[cursor] == '#' {
        proof {
            lemma_comment_end(s, cursor, s.len() as int);
        }
        closing_bracket(
            s,
            open,
            close,
            literals,
            comment_end(s, cursor, s.len() as int),
            depth,
        )
    } else if s[cursor] == open {
        closing_bracket(s, open, close, literals, cursor + 1, depth + 1)
    } else if s[cursor] == close {
        if depth == 0 {
            None
        } else if depth == 1 {
            Some(cursor)
        } else {
            closing_bracket(s, open, close, literals, cursor + 1, (depth - 1) as nat)
        }
    } else {
        closing_bracket(s, open, close, literals, cursor + 1, depth)
    }
}

/// A closing bracket lies behind where the search began.
pub proof fn lemma_closing_bracket(
    s: Seq<char>,
    open: char,
    close: char,
    literals: bool,
    cursor: int,
    depth: nat,
)
    ensures
        closing_bracket(s, open, close, literals, cursor, depth) matches Some(end) ==> cursor <= end
            < s.len() && s[end] == close,
        0 <= cursor < s.len() && s[cursor] == open && open != close && open != '"' && open != '\''
            && open != '#' ==> (closing_bracket(s, open, close, literals, cursor, depth) matches Some(end)
            ==> cursor < end),
    decreases s.len() - cursor,
{
    lemma_json_token(s, cursor, s.len() as int);
    lemma_literal_token(s, cursor, s.len() as int);
    if cursor < 0 || cursor >= s.len() {
    } else if s[cursor] == '"' {
        if let Some(t) = json_token(s, cursor, s.len() as int) {
            lemma_closing_bracket(s, open, close, literals, t.outer_end, depth);
        }
    } else if literals && s[cursor] == '\'' {
        if let Some(t) = literal_token(s, cursor, s.len() as int) {
            lemma_closing_bracket(s, open, close, literals, t.outer_end, depth);
        }
    } else if literals && s[cursor] == '#' {
        let n = s.len() as int;
        lemma_comment_end(s, cursor, n);
        lemma_closing_bracket(s, open, close, literals, comment_end(s, cursor, n), depth);
    } else if s[cursor] == open {
        lemma_closing_bracket(s, open, close, literals, cursor + 1, depth + 1);
    } else if s[cursor] == close {
        if depth > 1 {
            lemma_closing_bracket(s, open, close, literals, cursor + 1, (depth - 1) as nat);
        }
    } else {
        lemma_closing_bracket(s, open, close, literals, cursor + 1, depth);
    }
}

/// Finds the bracket that closes the one at `start`.
fn find_closing_bracket(
    text: &[char],
    start: usize,
    open: char,
    close: char,
    literals: bool,
) -> (found: Option<usize>)
    ensures
        found matches Some(end) ==> closing_bracket(text@, open, close, literals, start as int, 0)
            == Some(end as int),
        found is None ==> closing_bracket(text@, open, close, literals, start as int, 0) is None,
{
    let mut depth: usize = 0;
    let mut cursor: usize = start;
    while cursor < text.len()
        invariant
            start <= cursor,
            depth <= cursor,
            closing_bracket(text@, open, close, literals, start as int, 0) == closing_bracket(
                text@,
                open,
                close,
                literals,
                cursor as int,
                depth as nat,
            ),
        decreases text@.len() - cursor,
    {
        let c = text[cursor];
        if c == '"' {
            match next_json_string(text, cursor, text.len()) {
                Some(t) => {
                    cursor = t.outer_end;
                },
                None => {
                    return None;
                },
            }
        } else if literals && c == '\'' {
            match next_toml_literal_string(text, cursor, text.len()) {
                Some(t) => {
                    cursor = t.outer_end;
                },
                None => {
                    return None;
                },
            }
        } else if literals && c == '#' {
            cursor = skip_toml_comment(text, cursor, text.len());
        } else if c == open {
            depth += 1;
            cursor += 1;
        } else if c == close {
            if depth == 0 {
                return None;
            }
            depth -= 1;
            if depth == 0 {
                return Some(cursor);
            }
            cursor += 1;
        } else {
            cursor += 1;
        }
    }
    None
}

/// The `]` that closes the array opened at `start`.
pub open spec fn array_end(s: Seq<char>, start: int) -> Option<int> {
    closing_bracket(s, '[', ']', true, start, 0)
}

/// Finds the `]` that closes the array opened at `start`.
pub fn find_matching_toml_array(text: &[char], start: usize) -> (found: Option<usize>)
    ensures
        found matches Some(end) ==> array_end(text@, start as int) == Some(end as int),
        found is None ==> array_end(text@, start as int) is None,
{
    find_closing_bracket(text, start, '[', ']', true)
}

/// The `}` that closes the object opened at `start`.
pub open spec fn object_end(s: Seq<char>, start: int) -> Option<int> {
    closing_bracket(s, '{', '}', false, start, 0)
}

/// Finds the `}` that closes the object opened at `start`.
pub fn find_matching_json_brace(text: &[char], start: usize) -> (found: Option<usize>)
    ensures
        found matches Some(end) ==> object_end(text@, start as int) == Some(end as int),
        found is None ==> object_end(text@, start as int) is None,
{
    find_closing_bracket(text, start, '{', '}', false)
}

// ---------------------------------------------------------------------------
// JSON
// ---------------------------------------------------------------------------

/// Holds where `s` has anything but ASCII white space.
pub open spec fn is_not_space(s: Seq<char>) -> spec_fn(int) -> bool {
    |i: int| !is_ascii_whitespace(s[i])
}

/// The first position in `from..to` that is not ASCII white space.
pub open spec fn past_space(s: Seq<char>, from: int, to: int) -> Option<int> {
    first_index(is_not_space(s), from, to)
}

/// Finds the first position in `from..to` that is not ASCII white space.
pub fn skip_json_ws(text: &[char], from: usize, to: usize) -> (found: Option<usize>)
    requires
        to <= text@.len(),
    ensures
        found matches Some(i) ==> past_space(text@, from as int, to as int) == Some(i as int) && from
            <= i < to,
        found is None ==> past_space(text@, from as int, to as int) is None,
{
    let ghost p = is_not_space(text@);
    let mut i: usize = from;
    while i < to
        invariant
            from <= i,
            to <= text@.len(),
            p == is_not_space(text@),
            past_space(text@, from as int, to as int) == first_index(p, i as int, to as int),
        decreases to - i,
    {
        if !is_ascii_whitespace(text[i]) {
            assert(p(i as int));
            return Some(i);
        }
        assert(!p(i as int));
        i += 1;
    }
    None
}

/// Finds the first position from `from` on that is not ASCII white space.
pub fn skip_toml_ws(text: &[char], from: usize) -> (found: Option<usize>)
    ensures
        found matches Some(i) ==> past_space(text@, from as int, text@.len() as int) == Some(
            i as int,
        ) && from <= i < text@.len(),
        found is None ==> past_space(text@, from as int, text@.len() as int) is None,
{
    skip_json_ws(text, from, text.len())
}

/// The colon that follows `from`, with nothing but white space before it.
pub open spec fn json_colon(s: Seq<char>, from: int, to: int) -> Option<int> {
    match past_space(s, from, to) {
        Some(i) => if s[i] == ':' {
            Some(i)
        } else {
            None
        },
        None => None,
    }
}

/// Finds the colon that follows `from`.
pub fn find_json_colon(text: &[char], from: usize, to: usize) -> (found: Option<usize>)
    requires
        to <= text@.len(),
    ensures
        found matches Some(i) ==> json_colon(text@, from as int, to as int) == Some(i as int) && from
            <= i < to,
        found is None ==> json_colon(text@, from as int, to as int) is None,
{
    match skip_json_ws(text, from, to) {
        Some(i) => if text[i] == ':' {
            Some(i)
        } else {
            None
        },
        None => None,
    }
}

/// Where a JSON object stands: its braces.
pub struct JsonObjectSpan {
    pub start: usize,
    pub end: usize,
}

/// The object that is the value of the member `section` of the outermost
/// object, reading from `cursor` at the given depth. A string names a member where
/// a colon follows it; other strings, and a member of that name whose value is no
/// object, are passed over.
pub open spec fn top_level_object(
    s: Seq<char>,
    section: Seq<char>,
    cursor: int,
    depth: nat,
) -> Option<(int, int)>
    decreases s.len() - cursor,
{
    let n = s.len() as int;
    proof {
        lemma_json_token(s, cursor, n);
    }
    if cursor < 0 || cursor >= n {
        None
    } else if s[cursor] == '"' {
        match json_token(s, cursor, n) {
            Some(t) => if depth == 1 && t.value == section {
                match json_colon(s, t.outer_end, n) {
                    Some(colon) => match past_space(s, colon + 1, n) {
                        Some(start) => if s[start] == '{' {
                            match object_end(s, start) {
                                Some(end) => Some((start, end)),
                                None => None,
                            }
                        } else {
                            top_level_object(s, section, t.outer_end, depth)
                        },
                        None => None,
                    },
                    None => top_level_object(s, section, t.outer_end, depth),
                }
            } else {
                top_level_object(s, section, t.outer_end, depth)
            },
            None => None,
        }
    } else if s[cursor] == '{' {
        top_level_object(s, section, cursor + 1, depth + 1)
    } else if s[cursor] == '}' {
        top_level_object(
            s,
            section,
            cursor + 1,
            if depth > 0 {
                (depth - 1) as nat
            } else {
                0
            },
        )
    } else {
        top_level_object(s, section, cursor + 1, depth)
    }
}

/// Finds the object that is the value of the member `section` of the outermost
/// object.
pub fn find_top_level_json_object(text: &[char], section: &str) -> (found: Option<JsonObjectSpan>)
    ensures
        found matches Some(o) ==> top_level_object(text@, section@, 0, 0) == Some(
            (o.start as int, o.end as int),
        ) && o.start < o.end < text@.len(),
        found is None ==> top_level_object(text@, section@, 0, 0) is None,
{
    let n: usize = text.len();
    let mut depth: usize = 0;
    let mut cursor: usize = 0;
    while cursor < n
        invariant
            n == text@.len(),
            depth <= cursor,
            top_level_object(text@, section@, 0, 0) == top_level_object(
                text@,
                section@,
                cursor as int,
                depth as nat,
            ),
        decreases n - cursor,
    {
        let c = text[cursor];
        if c == '"' {
            let token = match next_json_string(text, cursor, n) {
                Some(t) => t,
                None => {
                    return None;
                },
            };
            if depth == 1 && crate::text::same_text(token.value.as_str(), section) {
                if let Some(colon) = find_json_colon(text, token.outer_end, n) {
                    let start = match skip_json_ws(text, colon + 1, n) {
                        Some(i) => i,
                        None => {
                            return None;
                        },
                    };
                    if text[start] == '{' {
                        proof {
                            lemma_closing_bracket(text@, '{', '}', false, start as int, 0);
                        }
                        return match find_matching_json_brace(text, start) {
                            Some(end) => Some(JsonObjectSpan { start, end }),
                            None => None,
                        };
                    }
                }
            }
            cursor = token.outer_end;
        } else if c == '{' {
            depth += 1;
            cursor += 1;
        } else if c == '}' {
            if depth > 0 {
                depth -= 1;
            }
            cursor += 1;
        } else {
            cursor += 1;
        }
    }
    None
}

} // verus!
