//! What becomes of the entries of an npm manifest when one of its versions is
//! replaced by another.

use crate::edits::{
    byte_shift, is_edit, is_version_char, is_version_like, lemma_byte_offset_injective,
    lemma_bytes_moved, lemma_escaped_same, lemma_first_same, lemma_first_skipped, lemma_replaced,
    lemma_token_at, lemma_token_before, lemma_token_skipped, lemma_updated_before,
    lemma_updated_concat, moved, moved_option, reads_back, replaced, shift, stands_alone, stands_at,
    updated_entries, updated_entry,
};
use crate::entries::{
    is_unsupported_npm_spec, npm_entries, npm_section_entries, object_entries, object_member,
    EntryView,
};
use crate::scan::{
    closes_string, closing_bracket, is_not_space, json_colon, json_token, lemma_closing_bracket,
    lemma_json_token, object_end, past_space, top_level_object, TokenView,
};
use crate::text::{
    byte_offset, first_index, index_of, is_char, lemma_byte_offset_monotonic, lemma_first_index,
    lemma_index_of, lowered,
};
use vstd::prelude::*;

verus! {

// ---------------------------------------------------------------------------
// Behind the replaced stretch
// ---------------------------------------------------------------------------

/// A token that stands `d` characters further to the right.
pub open spec fn shifted(token: TokenView, d: int) -> TokenView {
    TokenView {
        value: token.value,
        inner_start: token.inner_start + d,
        inner_end: token.inner_end + d,
        outer_end: token.outer_end + d,
    }
}

/// An optional position `d` characters further to the right.
pub open spec fn shifted_option(p: Option<int>, d: int) -> Option<int> {
    match p {
        Some(p) => Some(p + d),
        None => None,
    }
}

/// Strings behind the replaced stretch are found as before.
pub(crate) proof fn lemma_token_behind(
    s: Seq<char>,
    i: int,
    j: int,
    new: Seq<char>,
    from: int,
    to: int,
)
    requires
        is_edit(s, i, j, new),
        j <= from,
        to <= s.len(),
    ensures
        json_token(replaced(s, i, j, new), from + shift(i, j, new), to + shift(i, j, new)) == (
        match json_token(s, from, to) {
            Some(token) => Some(shifted(token, shift(i, j, new))),
            None => None,
        }),
{
    lemma_replaced(s, i, j, new);
    let d = shift(i, j, new);
    lemma_token_skipped(s, j, from, to);
    lemma_token_skipped(replaced(s, i, j, new), j + d, from + d, to + d);
}

/// White space behind the replaced stretch is passed as before.
pub(crate) proof fn lemma_space_behind(
    s: Seq<char>,
    i: int,
    j: int,
    new: Seq<char>,
    from: int,
    to: int,
)
    requires
        is_edit(s, i, j, new),
        j <= from,
        to <= s.len(),
    ensures
        past_space(replaced(s, i, j, new), from + shift(i, j, new), to + shift(i, j, new))
            == shifted_option(past_space(s, from, to), shift(i, j, new)),
        json_colon(replaced(s, i, j, new), from + shift(i, j, new), to + shift(i, j, new))
            == shifted_option(json_colon(s, from, to), shift(i, j, new)),
{
    lemma_replaced(s, i, j, new);
    let t = replaced(s, i, j, new);
    let d = shift(i, j, new);
    let p = is_not_space(t);
    let q = is_not_space(s);
    assert forall|k: int| from + d <= k < to + d implies #[trigger] p(k) == q(k - d) by {
        assert(s[k - d] == t[k - d + d]);
    }
    lemma_first_skipped(p, q, d, from + d, to + d);
    lemma_first_index(q, from, to);
    if let Some(k) = past_space(s, from, to) {
        assert(s[k] == t[k + d]);
    }
}

/// Brackets behind the replaced stretch are closed as before.
proof fn lemma_closing_behind(
    s: Seq<char>,
    i: int,
    j: int,
    new: Seq<char>,
    cursor: int,
    depth: nat,
)
    requires
        is_edit(s, i, j, new),
        j <= cursor,
    ensures
        closing_bracket(replaced(s, i, j, new), '{', '}', false, cursor + shift(i, j, new), depth)
            == shifted_option(
            closing_bracket(s, '{', '}', false, cursor, depth),
            shift(i, j, new),
        ),
    decreases s.len() - cursor,
{
    lemma_replaced(s, i, j, new);
    let t = replaced(s, i, j, new);
    let d = shift(i, j, new);
    if cursor < s.len() {
        assert(s[cursor] == t[cursor + d]);
        if s[cursor] == '"' {
            lemma_token_behind(s, i, j, new, cursor, s.len() as int);
            lemma_json_token(s, cursor, s.len() as int);
            if let Some(token) = json_token(s, cursor, s.len() as int) {
                lemma_closing_behind(s, i, j, new, token.outer_end, depth);
            }
        } else if s[cursor] == '{' {
            lemma_closing_behind(s, i, j, new, cursor + 1, depth + 1);
        } else if s[cursor] == '}' {
            if depth > 1 {
                lemma_closing_behind(s, i, j, new, cursor + 1, (depth - 1) as nat);
            }
        } else {
            lemma_closing_behind(s, i, j, new, cursor + 1, depth);
        }
    }
}

// ---------------------------------------------------------------------------
// Reading string by string
// ---------------------------------------------------------------------------

/// Reading from `from`, and passing over strings, arrives at `target`.
spec fn reaches(s: Seq<char>, from: int, target: int) -> bool
    decreases s.len() - from,
{
    proof {
        lemma_json_token(s, from, s.len() as int);
    }
    if from < 0 || from >= s.len() || from >= target {
        from == target
    } else if s[from] == '"' {
        match json_token(s, from, s.len() as int) {
            Some(token) => reaches(s, token.outer_end, target),
            None => false,
        }
    } else {
        reaches(s, from + 1, target)
    }
}

/// No quotation mark stands in `from..to`.
spec fn is_plain(s: Seq<char>, from: int, to: int) -> bool {
    forall|k: int| from <= k < to ==> #[trigger] s[k] != '"'
}

/// Reading on from where there was no string before.
proof fn lemma_reaches_over(s: Seq<char>, from: int, mid: int, target: int)
    requires
        0 <= from <= mid <= target,
        mid <= s.len(),
        is_plain(s, from, mid),
    ensures
        reaches(s, from, target) == reaches(s, mid, target),
    decreases mid - from,
{
    if from < mid {
        lemma_reaches_over(s, from + 1, mid, target);
    }
}

/// Reading on from where reading arrived.
proof fn lemma_reaches_transitive(s: Seq<char>, from: int, mid: int, target: int)
    requires
        0 <= from,
        reaches(s, from, mid),
        reaches(s, mid, target),
    ensures
        reaches(s, from, target),
    decreases s.len() - from,
{
    if from < mid && from < s.len() {
        lemma_json_token(s, from, s.len() as int);
        if s[from] == '"' {
            let token = json_token(s, from, s.len() as int)->0;
            lemma_reaches_transitive(s, token.outer_end, mid, target);
        } else {
            lemma_reaches_transitive(s, from + 1, mid, target);
        }
    }
}

/// A string found in a part of the text is found in the whole.
pub(crate) proof fn lemma_token_widened(s: Seq<char>, from: int, to: int)
    requires
        to <= s.len(),
        json_token(s, from, to) is Some,
    ensures
        json_token(s, from, s.len() as int) == json_token(s, from, to),
{
    lemma_json_token(s, from, to);
    let n = s.len() as int;
    let token = json_token(s, from, to)->0;
    let quote = token.inner_start - 1;
    lemma_first_same(is_char(s, '"'), is_char(s, '"'), from, to, n, quote);
    let p = closes_string(s, quote + 1);
    lemma_first_same(p, p, quote + 1, to, n, token.inner_end);
}

/// A string that is found is reached, and so is what follows it.
proof fn lemma_reaches_token(s: Seq<char>, from: int, to: int)
    requires
        0 <= from,
        to <= s.len(),
        json_token(s, from, to) is Some,
    ensures
        reaches(s, from, json_token(s, from, to)->0.inner_start - 1),
        reaches(s, from, json_token(s, from, to)->0.outer_end),
        is_plain(s, from, json_token(s, from, to)->0.inner_start - 1),
{
    let token = json_token(s, from, to)->0;
    lemma_json_token(s, from, to);
    let quote = token.inner_start - 1;
    lemma_index_of(s, '"', from, to);
    lemma_reaches_over(s, from, quote, quote);
    lemma_reaches_over(s, from, quote, token.outer_end);
    lemma_token_from(s, from, quote, to);
    lemma_token_widened(s, quote, to);
    assert(reaches(s, token.outer_end, token.outer_end));
    assert(reaches(s, quote, token.outer_end));
}

/// A string is found from anywhere between where it was looked for and where it
/// begins.
proof fn lemma_token_from(s: Seq<char>, from: int, mid: int, to: int)
    requires
        0 <= from <= mid,
        json_token(s, from, to) matches Some(token) && mid < token.inner_start,
    ensures
        json_token(s, mid, to) == json_token(s, from, to),
{
    lemma_json_token(s, from, to);
    let p = is_char(s, '"');
    let quote = json_token(s, from, to)->0.inner_start - 1;
    lemma_first_index(p, from, to);
    lemma_first_index(p, mid, to);
    assert(p(quote));
}

// ---------------------------------------------------------------------------
// Objects
// ---------------------------------------------------------------------------

/// The string at `i..j` has a version that is replaced.
spec fn is_replaced(s: Seq<char>, i: int, j: int, new: Seq<char>) -> bool {
    &&& is_edit(s, i, j, new)
    &&& is_version_like(new)
    &&& reads_back(new)
    &&& json_token(s, i - 1, s.len() as int) matches Some(token)
    &&& token.inner_start == i
    &&& token.inner_end == j
    &&& is_version_like(token.value)
    &&& i > 0
}

/// Where an object ends, reading up to the replaced string and on.
proof fn lemma_closing_moved(
    s: Seq<char>,
    i: int,
    j: int,
    new: Seq<char>,
    cursor: int,
    depth: nat,
)
    requires
        is_replaced(s, i, j, new),
        0 <= cursor,
        reaches(s, cursor, i - 1),
    ensures
        closing_bracket(replaced(s, i, j, new), '{', '}', false, cursor, depth) == moved_option(
            closing_bracket(s, '{', '}', false, cursor, depth),
            i,
            shift(i, j, new),
        ),
    decreases s.len() - cursor,
{
    lemma_replaced(s, i, j, new);
    let t = replaced(s, i, j, new);
    let d = shift(i, j, new);
    let n = s.len() as int;
    lemma_json_token(s, i - 1, n);
    lemma_json_token(s, cursor, n);
    assert(t[cursor] == s[cursor]);
    if cursor == i - 1 {
        lemma_token_at(s, i, j, new, i - 1, t.len() as int);
        lemma_closing_behind(s, i, j, new, j + 1, depth);
        lemma_closing_bracket(s, '{', '}', false, j + 1, depth);
    } else if s[cursor] == '"' {
        assert(reaches(s, json_token(s, cursor, n)->0.outer_end, i - 1));
        lemma_token_before(s, i, j, new, cursor, n, t.len() as int);
        lemma_closing_moved(s, i, j, new, json_token(s, cursor, n)->0.outer_end, depth);
    } else if s[cursor] == '{' {
        lemma_closing_moved(s, i, j, new, cursor + 1, depth + 1);
    } else if s[cursor] == '}' {
        if depth > 1 {
            lemma_closing_moved(s, i, j, new, cursor + 1, (depth - 1) as nat);
        }
    } else {
        lemma_closing_moved(s, i, j, new, cursor + 1, depth);
    }
}

/// Where an optional object is found again.
spec fn moved_object(object: Option<(int, int)>, i: int, d: int) -> Option<(int, int)> {
    match object {
        Some((start, end)) => Some((moved(start, i, d), moved(end, i, d))),
        None => None,
    }
}

/// An optional object `d` characters further to the right.
spec fn shifted_object(object: Option<(int, int)>, d: int) -> Option<(int, int)> {
    match object {
        Some((start, end)) => Some((start + d, end + d)),
        None => None,
    }
}

/// A character behind the replaced stretch.
proof fn lemma_char_behind(s: Seq<char>, i: int, j: int, new: Seq<char>, p: int)
    requires
        is_edit(s, i, j, new),
        j <= p < s.len(),
    ensures
        replaced(s, i, j, new).len() == s.len() + shift(i, j, new),
        replaced(s, i, j, new)[p + shift(i, j, new)] == s[p],
{
    lemma_replaced(s, i, j, new);
}

/// The object that follows a name behind the replaced stretch.
proof fn lemma_value_behind(s: Seq<char>, i: int, j: int, new: Seq<char>, from: int)
    requires
        is_edit(s, i, j, new),
        j <= from <= s.len(),
    ensures
        ({
            let t = replaced(s, i, j, new);
            let d = shift(i, j, new);
            let n = s.len() as int;
            let colon = json_colon(s, from, n);
            &&& json_colon(t, from + d, n + d) == shifted_option(colon, d)
            &&& colon matches Some(c) ==> {
                let start = past_space(s, c + 1, n);
                &&& past_space(t, c + 1 + d, n + d) == shifted_option(start, d)
                &&& start matches Some(k) ==> t[k + d] == s[k] && object_end(t, k + d)
                    == shifted_option(object_end(s, k), d)
            }
        }),
{
    let n = s.len() as int;
    lemma_space_behind(s, i, j, new, from, n);
    lemma_first_index(is_not_space(s), from, n);
    if let Some(colon) = json_colon(s, from, n) {
        lemma_space_behind(s, i, j, new, colon + 1, n);
        lemma_first_index(is_not_space(s), colon + 1, n);
        if let Some(start) = past_space(s, colon + 1, n) {
            lemma_char_behind(s, i, j, new, start);
            lemma_closing_behind(s, i, j, new, start, 0);
        }
    }
}

/// Sections behind the replaced stretch are found as before.
proof fn lemma_object_behind(
    s: Seq<char>,
    i: int,
    j: int,
    new: Seq<char>,
    section: Seq<char>,
    cursor: int,
    depth: nat,
)
    requires
        is_edit(s, i, j, new),
        j <= cursor,
    ensures
        top_level_object(replaced(s, i, j, new), section, cursor + shift(i, j, new), depth)
            == shifted_object(top_level_object(s, section, cursor, depth), shift(i, j, new)),
    decreases s.len() - cursor,
{
    let t = replaced(s, i, j, new);
    let d = shift(i, j, new);
    let n = s.len() as int;
    if cursor < n {
        lemma_char_behind(s, i, j, new, cursor);
        if s[cursor] == '"' {
            lemma_token_behind(s, i, j, new, cursor, n);
            lemma_json_token(s, cursor, n);
            if let Some(token) = json_token(s, cursor, n) {
                lemma_object_behind(s, i, j, new, section, token.outer_end, depth);
                lemma_value_behind(s, i, j, new, token.outer_end);
            }
        } else if s[cursor] == '{' {
            lemma_object_behind(s, i, j, new, section, cursor + 1, depth + 1);
        } else if s[cursor] == '}' {
            lemma_object_behind(
                s,
                i,
                j,
                new,
                section,
                cursor + 1,
                if depth > 0 {
                    (depth - 1) as nat
                } else {
                    0
                },
            );
        } else {
            lemma_object_behind(s, i, j, new, section, cursor + 1, depth);
        }
    } else {
        lemma_replaced(s, i, j, new);
    }
}

/// What follows a string that stands before the replaced one: white space is
/// passed as before, and what is found stands before the replaced string too.
proof fn lemma_space_before(s: Seq<char>, i: int, j: int, new: Seq<char>, from: int)
    requires
        is_replaced(s, i, j, new),
        0 <= from <= i - 1,
    ensures
        past_space(replaced(s, i, j, new), from, replaced(s, i, j, new).len() as int)
            == past_space(s, from, s.len() as int),
        json_colon(replaced(s, i, j, new), from, replaced(s, i, j, new).len() as int)
            == json_colon(s, from, s.len() as int),
        past_space(s, from, s.len() as int) matches Some(k) && from <= k <= i - 1 && is_plain(
            s,
            from,
            k,
        ),
        json_colon(s, from, s.len() as int) matches Some(k) ==> k < i - 1,
{
    lemma_replaced(s, i, j, new);
    let t = replaced(s, i, j, new);
    let p = is_not_space(s);
    let q = is_not_space(t);
    lemma_json_token(s, i - 1, s.len() as int);
    assert(p(i - 1));
    lemma_first_index(p, from, s.len() as int);
    let k = past_space(s, from, s.len() as int)->0;
    assert forall|m: int| from <= m < k implies #[trigger] s[m] != '"' by {
        assert(!p(m));
    }
    assert forall|m: int| from <= m <= k implies #[trigger] p(m) == q(m) by {
        assert(t[m] == s[m]);
    }
    lemma_first_same(p, q, from, s.len() as int, t.len() as int, k);
    assert(t[k] == s[k]);
}

/// The object that follows a name before the replaced string.
proof fn lemma_value_before(s: Seq<char>, i: int, j: int, new: Seq<char>, from: int)
    requires
        is_replaced(s, i, j, new),
        0 <= from,
        reaches(s, from, i - 1),
    ensures
        ({
            let t = replaced(s, i, j, new);
            let n = s.len() as int;
            let n2 = t.len() as int;
            let colon = json_colon(s, from, n);
            &&& json_colon(t, from, n2) == colon
            &&& colon matches Some(c) ==> {
                let start = past_space(s, c + 1, n);
                &&& past_space(t, c + 1, n2) == start
                &&& start matches Some(k) ==> k < i && t[k] == s[k] && (s[k] == '{' ==> object_end(
                    t,
                    k,
                ) == moved_option(object_end(s, k), i, shift(i, j, new)))
            }
        }),
{
    let n = s.len() as int;
    lemma_replaced(s, i, j, new);
    lemma_space_before(s, i, j, new, from);
    if let Some(colon) = json_colon(s, from, n) {
        lemma_space_before(s, i, j, new, colon + 1);
        let start = past_space(s, colon + 1, n)->0;
        if s[start] == '{' {
            lemma_opening(s, from, colon, start);
            lemma_reaches_over(s, from, start, i - 1);
            lemma_closing_moved(s, i, j, new, start, 0);
        }
    }
}

/// A character before the replaced stretch.
proof fn lemma_char_before(s: Seq<char>, i: int, j: int, new: Seq<char>, p: int)
    requires
        is_edit(s, i, j, new),
        0 <= p < i,
    ensures
        replaced(s, i, j, new).len() == s.len() + shift(i, j, new),
        p < replaced(s, i, j, new).len(),
        replaced(s, i, j, new)[p] == s[p],
{
    lemma_replaced(s, i, j, new);
}

/// Where a section stands, reading on from the replaced string.
proof fn lemma_object_at(
    s: Seq<char>,
    i: int,
    j: int,
    new: Seq<char>,
    section: Seq<char>,
    depth: nat,
)
    requires
        is_replaced(s, i, j, new),
        !is_version_like(section),
    ensures
        top_level_object(replaced(s, i, j, new), section, i - 1, depth) == moved_object(
            top_level_object(s, section, i - 1, depth),
            i,
            shift(i, j, new),
        ),
{
    let t = replaced(s, i, j, new);
    lemma_char_before(s, i, j, new, i - 1);
    lemma_json_token(s, i - 1, s.len() as int);
    lemma_token_at(s, i, j, new, i - 1, t.len() as int);
    lemma_object_behind(s, i, j, new, section, j + 1, depth);
    lemma_object_reached(s, section, j + 1, depth);
}

/// Where a section stands, reading up to the replaced string and on.
proof fn lemma_object_moved(
    s: Seq<char>,
    i: int,
    j: int,
    new: Seq<char>,
    section: Seq<char>,
    cursor: int,
    depth: nat,
)
    requires
        is_replaced(s, i, j, new),
        !is_version_like(section),
        0 <= cursor,
        reaches(s, cursor, i - 1),
    ensures
        top_level_object(replaced(s, i, j, new), section, cursor, depth) == moved_object(
            top_level_object(s, section, cursor, depth),
            i,
            shift(i, j, new),
        ),
    decreases s.len() - cursor,
{
    let t = replaced(s, i, j, new);
    let n = s.len() as int;
    if cursor == i - 1 {
        lemma_object_at(s, i, j, new, section, depth);
    } else {
        lemma_char_before(s, i, j, new, cursor);
        if s[cursor] == '"' {
            lemma_json_token(s, cursor, n);
            let token = json_token(s, cursor, n)->0;
            assert(reaches(s, token.outer_end, i - 1));
            lemma_token_before(s, i, j, new, cursor, n, t.len() as int);
            lemma_object_moved(s, i, j, new, section, token.outer_end, depth);
            lemma_value_before(s, i, j, new, token.outer_end);
        } else if s[cursor] == '{' {
            lemma_object_moved(s, i, j, new, section, cursor + 1, depth + 1);
        } else if s[cursor] == '}' {
            lemma_object_moved(
                s,
                i,
                j,
                new,
                section,
                cursor + 1,
                if depth > 0 {
                    (depth - 1) as nat
                } else {
                    0
                },
            );
        } else {
            lemma_object_moved(s, i, j, new, section, cursor + 1, depth);
        }
    }
}

/// A section that is found is reached.
proof fn lemma_object_reached(s: Seq<char>, section: Seq<char>, cursor: int, depth: nat)
    requires
        0 <= cursor,
    ensures
        top_level_object(s, section, cursor, depth) matches Some((start, end)) ==> reaches(
            s,
            cursor,
            start,
        ) && cursor < start < end < s.len() && s[start] == '{' && object_end(s, start) == Some(end),
    decreases s.len() - cursor,
{
    let n = s.len() as int;
    lemma_json_token(s, cursor, n);
    if cursor >= n {
    } else if s[cursor] == '"' {
        if let Some(token) = json_token(s, cursor, n) {
            lemma_object_reached(s, section, token.outer_end, depth);
            lemma_first_index(is_not_space(s), token.outer_end, n);
            if let Some(colon) = json_colon(s, token.outer_end, n) {
                lemma_first_index(is_not_space(s), colon + 1, n);
                if let Some(start) = past_space(s, colon + 1, n) {
                    if s[start] == '{' {
                        lemma_opening(s, token.outer_end, colon, start);
                        lemma_reaches_over(s, token.outer_end, start, start);
                        lemma_closing_bracket(s, '{', '}', false, start, 0);
                    }
                }
            }
        }
    } else if s[cursor] == '{' {
        lemma_object_reached(s, section, cursor + 1, depth + 1);
    } else if s[cursor] == '}' {
        lemma_object_reached(
            s,
            section,
            cursor + 1,
            if depth > 0 {
                (depth - 1) as nat
            } else {
                0
            },
        );
    } else {
        lemma_object_reached(s, section, cursor + 1, depth);
    }
}

/// Between a name and its object stands nothing but white space and a colon.
proof fn lemma_opening(s: Seq<char>, from: int, colon: int, start: int)
    requires
        0 <= from,
        json_colon(s, from, s.len() as int) == Some(colon),
        past_space(s, colon + 1, s.len() as int) == Some(start),
    ensures
        from <= colon < start < s.len(),
        forall|k: int|
            from <= k < start ==> #[trigger] s[k] != '"' && s[k] != '{' && s[k] != '}',
{
    let p = is_not_space(s);
    lemma_first_index(p, from, s.len() as int);
    lemma_first_index(p, colon + 1, s.len() as int);
    assert forall|k: int| from <= k < start implies #[trigger] s[k] != '"' && s[k] != '{' && s[k]
        != '}' by {
        if k != colon {
            assert(!p(k));
        }
    }
}

// ---------------------------------------------------------------------------
// Sections apart
// ---------------------------------------------------------------------------

/// Looking for a section passes over what opens nothing.
proof fn lemma_object_over(s: Seq<char>, section: Seq<char>, from: int, to: int, depth: nat)
    requires
        0 <= from <= to <= s.len(),
        forall|k: int| from <= k < to ==> #[trigger] s[k] != '"' && s[k] != '{' && s[k] != '}',
    ensures
        top_level_object(s, section, from, depth) == top_level_object(s, section, to, depth),
    decreases to - from,
{
    if from < to {
        lemma_object_over(s, section, from + 1, to, depth);
    }
}

/// Looking for a section passes over a nested object.
proof fn lemma_object_past(s: Seq<char>, section: Seq<char>, cursor: int, depth: nat)
    requires
        0 <= cursor,
        depth > 0,
        closing_bracket(s, '{', '}', false, cursor, depth) is Some,
    ensures
        top_level_object(s, section, cursor, depth + 1) == top_level_object(
            s,
            section,
            closing_bracket(s, '{', '}', false, cursor, depth)->0 + 1,
            1,
        ),
    decreases s.len() - cursor,
{
    let n = s.len() as int;
    lemma_json_token(s, cursor, n);
    if s[cursor] == '"' {
        lemma_object_past(s, section, json_token(s, cursor, n)->0.outer_end, depth);
    } else if s[cursor] == '{' {
        lemma_object_past(s, section, cursor + 1, depth + 1);
    } else if s[cursor] == '}' {
        if depth > 1 {
            lemma_object_past(s, section, cursor + 1, (depth - 1) as nat);
        }
    } else {
        lemma_object_past(s, section, cursor + 1, depth);
    }
}

/// Looking for one section passes over another.
proof fn lemma_section_past(
    s: Seq<char>,
    section: Seq<char>,
    from: int,
    colon: int,
    start: int,
    end: int,
)
    requires
        0 <= from,
        json_colon(s, from, s.len() as int) == Some(colon),
        past_space(s, colon + 1, s.len() as int) == Some(start),
        s[start] == '{',
        object_end(s, start) == Some(end),
    ensures
        top_level_object(s, section, from, 1) matches Some((a, b)) ==> end < a,
{
    lemma_opening(s, from, colon, start);
    lemma_object_over(s, section, from, start, 1);
    assert(closing_bracket(s, '{', '}', false, start + 1, 1) == Some(end));
    lemma_object_past(s, section, start + 1, 1);
    lemma_closing_bracket(s, '{', '}', false, start, 0);
    lemma_object_reached(s, section, end + 1, 1);
}

/// One of two objects ends before the other begins.
spec fn are_apart(one: Option<(int, int)>, other: Option<(int, int)>) -> bool {
    one matches Some((a, b)) ==> (other matches Some((c, d)) ==> b < c || d < a)
}

/// Different sections do not overlap.
proof fn lemma_sections_apart(
    s: Seq<char>,
    one: Seq<char>,
    other: Seq<char>,
    cursor: int,
    depth: nat,
)
    requires
        0 <= cursor,
        one != other,
        top_level_object(s, one, cursor, depth) is Some,
        top_level_object(s, other, cursor, depth) is Some,
    ensures
        are_apart(
            top_level_object(s, one, cursor, depth),
            top_level_object(s, other, cursor, depth),
        ),
    decreases s.len() - cursor,
{
    let n = s.len() as int;
    lemma_json_token(s, cursor, n);
    if s[cursor] == '"' {
        let token = json_token(s, cursor, n)->0;
        if depth == 1 && (token.value == one || token.value == other) {
            let colon = json_colon(s, token.outer_end, n)->0;
            let start = past_space(s, colon + 1, n)->0;
            if json_colon(s, token.outer_end, n) is None {
                lemma_sections_apart(s, one, other, token.outer_end, depth);
            } else if s[start] == '{' {
                let end = object_end(s, start)->0;
                if token.value == one {
                    lemma_section_past(s, other, token.outer_end, colon, start, end);
                } else {
                    lemma_section_past(s, one, token.outer_end, colon, start, end);
                }
            } else {
                lemma_sections_apart(s, one, other, token.outer_end, depth);
            }
        } else {
            lemma_sections_apart(s, one, other, token.outer_end, depth);
        }
    } else if s[cursor] == '{' {
        lemma_sections_apart(s, one, other, cursor + 1, depth + 1);
    } else if s[cursor] == '}' {
        lemma_sections_apart(
            s,
            one,
            other,
            cursor + 1,
            if depth > 0 {
                (depth - 1) as nat
            } else {
                0
            },
        );
    } else {
        lemma_sections_apart(s, one, other, cursor + 1, depth);
    }
}

// ---------------------------------------------------------------------------
// Members
// ---------------------------------------------------------------------------

/// Where a member stands.
proof fn lemma_member_bounds(s: Seq<char>, cursor: int, end: int)
    ensures
        object_member(s, cursor, end) matches Some((name, value)) ==> cursor < name.inner_start
            <= name.inner_end < name.outer_end < value.inner_start <= value.inner_end
            < value.outer_end <= end,
{
    lemma_json_token(s, cursor, end);
    if let Some(name) = json_token(s, cursor, end) {
        lemma_first_index(is_not_space(s), name.outer_end, end);
        if let Some(colon) = json_colon(s, name.outer_end, end) {
            lemma_json_token(s, colon + 1, end);
        }
    }
}

/// Members stand where their object does.
proof fn lemma_members_bounds(s: Seq<char>, cursor: int, end: int, section: Seq<char>)
    requires
        0 <= cursor,
        end <= s.len(),
    ensures
        forall|k: int|
            0 <= k < object_entries(s, cursor, end, section).len() ==> byte_offset(s, cursor) < (
            #[trigger] object_entries(s, cursor, end, section)[k]).start < byte_offset(s, end),
    decreases end - cursor,
{
    if cursor < end {
        lemma_member_bounds(s, cursor, end);
        if let Some((name, value)) = object_member(s, cursor, end) {
            lemma_members_bounds(s, value.outer_end, end, section);
            lemma_byte_offset_monotonic(s, cursor, value.outer_end);
            lemma_byte_offset_monotonic(s, cursor, value.inner_start);
            lemma_byte_offset_monotonic(s, value.inner_start, end);
            let rest = object_entries(s, value.outer_end, end, section);
            let all = object_entries(s, cursor, end, section);
            assert forall|k: int| 0 <= k < all.len() implies byte_offset(s, cursor) < (
            #[trigger] all[k]).start < byte_offset(s, end) by {
                if !is_unsupported_npm_spec(value.value) {
                    if k > 0 {
                        assert(all[k] == rest[k - 1]);
                    }
                } else {
                    assert(all[k] == rest[k]);
                }
            }
        }
    }
}

/// Members behind the replaced stretch are moved.
proof fn lemma_members_behind(
    s: Seq<char>,
    i: int,
    j: int,
    new: Seq<char>,
    cursor: int,
    end: int,
    section: Seq<char>,
)
    requires
        is_edit(s, i, j, new),
        j <= cursor,
        end <= s.len(),
    ensures
        object_entries(
            replaced(s, i, j, new),
            cursor + shift(i, j, new),
            end + shift(i, j, new),
            section,
        ) == updated_entries(
            object_entries(s, cursor, end, section),
            byte_offset(s, i) as int,
            byte_shift(s, i, j, new),
            new,
        ),
    decreases end - cursor,
{
    let t = replaced(s, i, j, new);
    let d = byte_shift(s, i, j, new);
    let start = byte_offset(s, i) as int;
    if cursor < end {
        lemma_member_behind(s, i, j, new, cursor, end);
        lemma_member_bounds(s, cursor, end);
        if let Some((name, value)) = object_member(s, cursor, end) {
            lemma_members_behind(s, i, j, new, value.outer_end, end, section);
            let rest = object_entries(s, value.outer_end, end, section);
            let entry = EntryView {
                name: name.value,
                section,
                version: Some(value.value),
                start: byte_offset(s, value.inner_start) as int,
                end: byte_offset(s, value.inner_end) as int,
            };
            lemma_updated_concat(seq![entry], rest, start, d, new);
            lemma_bytes_moved(s, i, j, new, value.inner_start);
            lemma_bytes_moved(s, i, j, new, value.inner_end);
            lemma_byte_offset_monotonic(s, i, value.inner_start);
            assert(updated_entries(seq![entry], start, d, new) =~= seq![
                updated_entry(entry, start, d, new),
            ]);
        } else {
            assert(updated_entries(Seq::<EntryView>::empty(), start, d, new) =~= Seq::<
                EntryView,
            >::empty());
        }
    } else {
        assert(updated_entries(Seq::<EntryView>::empty(), start, d, new) =~= Seq::<
            EntryView,
        >::empty());
    }
}

/// A member behind the replaced stretch is found as before.
proof fn lemma_member_behind(
    s: Seq<char>,
    i: int,
    j: int,
    new: Seq<char>,
    cursor: int,
    end: int,
)
    requires
        is_edit(s, i, j, new),
        j <= cursor,
        end <= s.len(),
    ensures
        object_member(
            replaced(s, i, j, new),
            cursor + shift(i, j, new),
            end + shift(i, j, new),
        ) == (match object_member(s, cursor, end) {
            Some((name, value)) => Some(
                (shifted(name, shift(i, j, new)), shifted(value, shift(i, j, new))),
            ),
            None => None,
        }),
{
    lemma_json_token(s, cursor, end);
    lemma_token_behind(s, i, j, new, cursor, end);
    if let Some(name) = json_token(s, cursor, end) {
        lemma_first_index(is_not_space(s), name.outer_end, end);
        lemma_space_behind(s, i, j, new, name.outer_end, end);
        if let Some(colon) = json_colon(s, name.outer_end, end) {
            lemma_token_behind(s, i, j, new, colon + 1, end);
        }
    }
}

/// A member before the replaced stretch is found as before.
proof fn lemma_member_before(
    s: Seq<char>,
    i: int,
    j: int,
    new: Seq<char>,
    cursor: int,
    end: int,
)
    requires
        is_edit(s, i, j, new),
        0 <= cursor,
        end <= i,
    ensures
        object_member(replaced(s, i, j, new), cursor, end) == object_member(s, cursor, end),
{
    lemma_json_token(s, cursor, end);
    lemma_token_same(s, i, j, new, cursor, end);
    if let Some(name) = json_token(s, cursor, end) {
        lemma_space_same(s, i, j, new, name.outer_end, end);
        lemma_first_index(is_not_space(s), name.outer_end, end);
        if let Some(colon) = json_colon(s, name.outer_end, end) {
            lemma_token_same(s, i, j, new, colon + 1, end);
        }
    }
}

/// Strings before the replaced stretch are found as before.
pub(crate) proof fn lemma_token_same(
    s: Seq<char>,
    i: int,
    j: int,
    new: Seq<char>,
    from: int,
    to: int,
)
    requires
        is_edit(s, i, j, new),
        0 <= from,
        to <= i,
    ensures
        json_token(replaced(s, i, j, new), from, to) == json_token(s, from, to),
{
    lemma_replaced(s, i, j, new);
    let t = replaced(s, i, j, new);
    lemma_first_skipped(is_char(t, '"'), is_char(s, '"'), 0, from, to);
    lemma_index_of(s, '"', from, to);
    if let Some(quote) = index_of(s, '"', from, to) {
        let p = closes_string(t, quote + 1);
        let q = closes_string(s, quote + 1);
        assert forall|k: int| quote + 1 <= k < to implies #[trigger] p(k) == q(k - 0) by {
            lemma_escaped_same(s, t, quote + 1, k);
        }
        lemma_first_skipped(p, q, 0, quote + 1, to);
        lemma_first_index(q, quote + 1, to);
        if let Some(end) = first_index(q, quote + 1, to) {
            assert(t.subrange(quote, end + 1) =~= s.subrange(quote, end + 1));
        }
    }
}

/// White space before the replaced stretch is passed as before.
proof fn lemma_space_same(s: Seq<char>, i: int, j: int, new: Seq<char>, from: int, to: int)
    requires
        is_edit(s, i, j, new),
        0 <= from,
        to <= i,
    ensures
        json_colon(replaced(s, i, j, new), from, to) == json_colon(s, from, to),
{
    lemma_replaced(s, i, j, new);
    let t = replaced(s, i, j, new);
    lemma_first_skipped(is_not_space(t), is_not_space(s), 0, from, to);
    lemma_first_index(is_not_space(s), from, to);
}

/// Members before the replaced stretch stay.
proof fn lemma_members_before(
    s: Seq<char>,
    i: int,
    j: int,
    new: Seq<char>,
    cursor: int,
    end: int,
    section: Seq<char>,
)
    requires
        is_edit(s, i, j, new),
        0 <= cursor,
        end <= i,
    ensures
        object_entries(replaced(s, i, j, new), cursor, end, section) == object_entries(
            s,
            cursor,
            end,
            section,
        ),
    decreases end - cursor,
{
    if cursor < end {
        lemma_member_before(s, i, j, new, cursor, end);
        lemma_member_bounds(s, cursor, end);
        if let Some((name, value)) = object_member(s, cursor, end) {
            lemma_members_before(s, i, j, new, value.outer_end, end, section);
            lemma_bytes_moved(s, i, j, new, value.inner_start);
            lemma_bytes_moved(s, i, j, new, value.inner_end);
        }
    }
}

/// The string that an entry has its version from.
proof fn lemma_entry_token(
    s: Seq<char>,
    i: int,
    j: int,
    cursor: int,
    end: int,
    section: Seq<char>,
    k: int,
)
    requires
        0 <= cursor,
        end <= s.len(),
        0 <= i <= j <= s.len(),
        0 <= k < object_entries(s, cursor, end, section).len(),
        object_entries(s, cursor, end, section)[k].start == byte_offset(s, i),
        object_entries(s, cursor, end, section)[k].end == byte_offset(s, j),
    ensures
        cursor <= i - 1,
        j < end,
        reaches(s, cursor, i - 1),
        json_token(s, i - 1, s.len() as int) == Some(
            TokenView {
                value: object_entries(s, cursor, end, section)[k].version->0,
                inner_start: i,
                inner_end: j,
                outer_end: j + 1,
            },
        ),
    decreases end - cursor,
{
    let (name, value) = object_member(s, cursor, end)->0;
    lemma_member_bounds(s, cursor, end);
    let rest = object_entries(s, value.outer_end, end, section);
    let all = object_entries(s, cursor, end, section);
    let colon = json_colon(s, name.outer_end, end)->0;
    lemma_first_index(is_not_space(s), name.outer_end, end);
    lemma_json_token(s, cursor, end);
    lemma_json_token(s, colon + 1, end);
    lemma_reaches_token(s, cursor, end);
    lemma_reaches_token(s, colon + 1, end);
    assert(is_plain(s, name.outer_end, colon + 1)) by {
        assert forall|m: int| name.outer_end <= m < colon + 1 implies #[trigger] s[m] != '"' by {
            if m < colon {
                assert(!is_not_space(s)(m));
            }
        }
    }
    lemma_reaches_over(s, name.outer_end, colon + 1, value.inner_start - 1);
    lemma_reaches_over(s, name.outer_end, colon + 1, value.outer_end);
    if !is_unsupported_npm_spec(value.value) && k == 0 {
        lemma_byte_offset_injective(s, value.inner_start, i);
        lemma_byte_offset_injective(s, value.inner_end, j);
        lemma_reaches_transitive(s, cursor, name.outer_end, i - 1);
        lemma_token_from(s, colon + 1, i - 1, end);
        lemma_token_widened(s, i - 1, end);
    } else {
        let k2 = if is_unsupported_npm_spec(value.value) {
            k
        } else {
            k - 1
        };
        assert(all[k] == rest[k2]);
        lemma_entry_token(s, i, j, value.outer_end, end, section, k2);
        lemma_reaches_transitive(s, cursor, name.outer_end, value.outer_end);
        lemma_reaches_transitive(s, cursor, value.outer_end, i - 1);
    }
}

/// A member that ends before the replaced string is found as before, though its
/// object ends elsewhere.
proof fn lemma_member_ahead(
    s: Seq<char>,
    i: int,
    j: int,
    new: Seq<char>,
    cursor: int,
    end: int,
)
    requires
        is_edit(s, i, j, new),
        0 <= cursor,
        j < end <= s.len(),
        object_member(s, cursor, end) matches Some((name, value)) && value.outer_end <= i,
    ensures
        object_member(replaced(s, i, j, new), cursor, end + shift(i, j, new)) == object_member(
            s,
            cursor,
            end,
        ),
{
    let (name, value) = object_member(s, cursor, end)->0;
    lemma_member_bounds(s, cursor, end);
    lemma_name_ahead(s, i, j, new, cursor, end);
    let colon = json_colon(s, name.outer_end, end)->0;
    lemma_first_index(is_not_space(s), name.outer_end, end);
    lemma_token_before(s, i, j, new, colon + 1, end, end + shift(i, j, new));
}

/// A name before the replaced string, and the colon behind it, are found as
/// before.
proof fn lemma_name_ahead(s: Seq<char>, i: int, j: int, new: Seq<char>, cursor: int, end: int)
    requires
        is_edit(s, i, j, new),
        0 <= cursor,
        j < end <= s.len(),
        object_member(s, cursor, end) matches Some((name, value)) && value.inner_start <= i,
    ensures
        json_token(replaced(s, i, j, new), cursor, end + shift(i, j, new)) == json_token(
            s,
            cursor,
            end,
        ),
        json_colon(
            replaced(s, i, j, new),
            json_token(s, cursor, end)->0.outer_end,
            end + shift(i, j, new),
        ) == json_colon(s, json_token(s, cursor, end)->0.outer_end, end),
{
    lemma_replaced(s, i, j, new);
    let t = replaced(s, i, j, new);
    let end2 = end + shift(i, j, new);
    let (name, value) = object_member(s, cursor, end)->0;
    lemma_member_bounds(s, cursor, end);
    let colon = json_colon(s, name.outer_end, end)->0;
    lemma_json_token(s, colon + 1, end);
    lemma_first_index(is_not_space(s), name.outer_end, end);
    lemma_token_before(s, i, j, new, cursor, end, end2);
    assert(t[colon] == s[colon]);
    lemma_first_same(is_not_space(s), is_not_space(t), name.outer_end, end, end2, colon);
}

/// Texts that begin otherwise are no prefixes.
proof fn lemma_other_start(needle: Seq<char>, s: Seq<char>)
    requires
        needle.len() > 0,
        s.len() > 0,
        needle[0] != s[0],
    ensures
        !needle.is_prefix_of(s),
{
    if needle.is_prefix_of(s) {
        assert(s.subrange(0, needle.len() as int)[0] == s[0]);
    }
}

/// What versions are made of takes no package from elsewhere.
proof fn lemma_version_is_supported(new: Seq<char>)
    requires
        is_version_like(new),
    ensures
        !is_unsupported_npm_spec(new),
{
    reveal_strlit("file:");
    reveal_strlit("link:");
    reveal_strlit("workspace:");
    reveal_strlit("git:");
    reveal_strlit("git+");
    reveal_strlit("github:");
    reveal_strlit("http:");
    reveal_strlit("https:");
    reveal_strlit("npm:");
    let lower = lowered(new);
    assert(is_version_char(new[0]));
    assert(lower[0] == new[0]);
    lemma_other_start("file:"@, lower);
    lemma_other_start("link:"@, lower);
    lemma_other_start("workspace:"@, lower);
    lemma_other_start("git:"@, lower);
    lemma_other_start("git+"@, lower);
    lemma_other_start("github:"@, lower);
    lemma_other_start("http:"@, lower);
    lemma_other_start("https:"@, lower);
    lemma_other_start("npm:"@, lower);
    if new.contains('/') {
        let k = choose|k: int| 0 <= k < new.len() && new[k] == '/';
        assert(is_version_char(new[k]));
    }
}

/// The members of the object that holds the replaced string: that one has the
/// new version, and the others are as before.
proof fn lemma_members_moved(
    s: Seq<char>,
    i: int,
    j: int,
    new: Seq<char>,
    cursor: int,
    end: int,
    section: Seq<char>,
    k: int,
)
    requires
        is_replaced(s, i, j, new),
        0 <= cursor,
        end <= s.len(),
        0 <= k < object_entries(s, cursor, end, section).len(),
        object_entries(s, cursor, end, section)[k].start == byte_offset(s, i),
        object_entries(s, cursor, end, section)[k].end == byte_offset(s, j),
    ensures
        object_entries(replaced(s, i, j, new), cursor, end + shift(i, j, new), section)
            == updated_entries(
            object_entries(s, cursor, end, section),
            byte_offset(s, i) as int,
            byte_shift(s, i, j, new),
            new,
        ),
        stands_alone(object_entries(s, cursor, end, section), k, byte_offset(s, i) as int),
    decreases end - cursor,
{
    let d = byte_shift(s, i, j, new);
    let start = byte_offset(s, i) as int;
    lemma_entry_token(s, i, j, cursor, end, section, k);
    let (name, value) = object_member(s, cursor, end)->0;
    lemma_member_bounds(s, cursor, end);
    let rest = object_entries(s, value.outer_end, end, section);
    let all = object_entries(s, cursor, end, section);
    let entry = EntryView {
        name: name.value,
        section,
        version: Some(value.value),
        start: byte_offset(s, value.inner_start) as int,
        end: byte_offset(s, value.inner_end) as int,
    };
    lemma_updated_concat(seq![entry], rest, start, d, new);
    assert(updated_entries(seq![entry], start, d, new) =~= seq![
        updated_entry(entry, start, d, new),
    ]);
    if !is_unsupported_npm_spec(value.value) && k == 0 {
        lemma_byte_offset_injective(s, value.inner_start, i);
        lemma_byte_offset_injective(s, value.inner_end, j);
        lemma_replaced_member(s, i, j, new, cursor, end);
        lemma_version_is_supported(new);
        lemma_members_behind(s, i, j, new, value.outer_end, end, section);
        lemma_bytes_moved(s, i, j, new, j);
        lemma_members_bounds(s, value.outer_end, end, section);
        lemma_byte_offset_monotonic(s, i, value.outer_end);
        assert forall|m: int| 0 <= m < all.len() && m != k implies (#[trigger] all[m]).start
            != start by {
            assert(all[m] == rest[m - 1]);
        }
    } else {
        let k2 = if is_unsupported_npm_spec(value.value) {
            k
        } else {
            k - 1
        };
        assert(all[k] == rest[k2]);
        lemma_entry_token(s, i, j, value.outer_end, end, section, k2);
        lemma_members_moved(s, i, j, new, value.outer_end, end, section, k2);
        lemma_member_ahead(s, i, j, new, cursor, end);
        lemma_bytes_moved(s, i, j, new, value.inner_start);
        lemma_bytes_moved(s, i, j, new, value.inner_end);
        lemma_byte_offset_monotonic(s, value.inner_start, i);
        assert forall|m: int| 0 <= m < all.len() && m != k implies (#[trigger] all[m]).start
            != start by {
            if is_unsupported_npm_spec(value.value) {
                assert(all[m] == rest[m]);
            } else if m > 0 {
                assert(all[m] == rest[m - 1]);
            }
        }
    }
}

/// The member that has the replaced string for its value.
proof fn lemma_replaced_member(
    s: Seq<char>,
    i: int,
    j: int,
    new: Seq<char>,
    cursor: int,
    end: int,
)
    requires
        is_replaced(s, i, j, new),
        0 <= cursor,
        j < end <= s.len(),
        object_member(s, cursor, end) matches Some((name, value)) && value.inner_start == i
            && value.inner_end == j,
    ensures
        object_member(replaced(s, i, j, new), cursor, end + shift(i, j, new)) == Some(
            (
                (object_member(s, cursor, end)->0).0,
                TokenView {
                    value: new,
                    inner_start: i,
                    inner_end: j + shift(i, j, new),
                    outer_end: j + shift(i, j, new) + 1,
                },
            ),
        ),
{
    let (name, value) = object_member(s, cursor, end)->0;
    let colon = json_colon(s, name.outer_end, end)->0;
    lemma_name_ahead(s, i, j, new, cursor, end);
    lemma_json_token(s, colon + 1, end);
    lemma_json_token(s, cursor, end);
    lemma_first_index(is_not_space(s), name.outer_end, end);
    lemma_index_of(s, '"', colon + 1, end);
    lemma_token_at(s, i, j, new, colon + 1, end + shift(i, j, new));
}

// ---------------------------------------------------------------------------
// Manifests
// ---------------------------------------------------------------------------

/// A section of which the replaced string is no member.
proof fn lemma_section_elsewhere(
    s: Seq<char>,
    i: int,
    j: int,
    new: Seq<char>,
    section: Seq<char>,
    other: Seq<char>,
)
    requires
        is_replaced(s, i, j, new),
        !is_version_like(other),
        reaches(s, 0, i - 1),
        section != other,
        top_level_object(s, section, 0, 0) matches Some((start, end)) && start < i && j < end,
    ensures
        npm_section_entries(replaced(s, i, j, new), other) == updated_entries(
            npm_section_entries(s, other),
            byte_offset(s, i) as int,
            byte_shift(s, i, j, new),
            new,
        ),
        stands_alone(npm_section_entries(s, other), -1, byte_offset(s, i) as int),
{
    let d = byte_shift(s, i, j, new);
    let at = byte_offset(s, i) as int;
    lemma_object_moved(s, i, j, new, other, 0, 0);
    if let Some((start, end)) = top_level_object(s, other, 0, 0) {
        lemma_sections_apart(s, section, other, 0, 0);
        lemma_object_reached(s, other, 0, 0);
        if end < i {
            lemma_members_before(s, i, j, new, start + 1, end, other);
            lemma_members_bounds(s, start + 1, end, other);
            lemma_byte_offset_monotonic(s, end, i);
            lemma_updated_before(object_entries(s, start + 1, end, other), at, d, new);
        } else {
            lemma_members_behind(s, i, j, new, start + 1, end, other);
            lemma_members_bounds(s, start + 1, end, other);
            lemma_byte_offset_monotonic(s, i, start + 1);
        }
    } else {
        assert(updated_entries(Seq::<EntryView>::empty(), at, d, new) =~= Seq::<
            EntryView,
        >::empty());
    }
}

/// The section of which the replaced string is a member.
proof fn lemma_section_replaced(
    s: Seq<char>,
    i: int,
    j: int,
    new: Seq<char>,
    section: Seq<char>,
    k: int,
)
    requires
        is_edit(s, i, j, new),
        is_version_like(new),
        reads_back(new),
        !is_version_like(section),
        0 <= k < npm_section_entries(s, section).len(),
        stands_at(npm_section_entries(s, section)[k], s, i, j),
    ensures
        is_replaced(s, i, j, new),
        reaches(s, 0, i - 1),
        top_level_object(s, section, 0, 0) matches Some((start, end)) && start < i && j < end,
        npm_section_entries(replaced(s, i, j, new), section) == updated_entries(
            npm_section_entries(s, section),
            byte_offset(s, i) as int,
            byte_shift(s, i, j, new),
            new,
        ),
        stands_alone(npm_section_entries(s, section), k, byte_offset(s, i) as int),
{
    let (start, end) = top_level_object(s, section, 0, 0)->0;
    lemma_object_reached(s, section, 0, 0);
    lemma_entry_token(s, i, j, start + 1, end, section, k);
    lemma_reaches_over(s, start, start + 1, i - 1);
    lemma_reaches_transitive(s, 0, start, i - 1);
    lemma_object_moved(s, i, j, new, section, 0, 0);
    lemma_members_moved(s, i, j, new, start + 1, end, section, k);
}

/// Where one version of a section is replaced, its entry has the new version, and
/// the other entries of the manifest are as before.
proof fn lemma_npm_section_replaced(
    s: Seq<char>,
    i: int,
    j: int,
    new: Seq<char>,
    section: Seq<char>,
    k: int,
)
    requires
        is_edit(s, i, j, new),
        is_version_like(new),
        reads_back(new),
        is_npm_section(section),
        0 <= k < npm_section_entries(s, section).len(),
        stands_at(npm_section_entries(s, section)[k], s, i, j),
    ensures
        npm_entries(replaced(s, i, j, new)) == updated_entries(
            npm_entries(s),
            byte_offset(s, i) as int,
            byte_shift(s, i, j, new),
            new,
        ),
        forall|other: Seq<char>| #[trigger]
            is_npm_section(other) ==> stands_alone(
                npm_section_entries(s, other),
                if other == section {
                    k
                } else {
                    -1
                },
                byte_offset(s, i) as int,
            ),
{
    let t = replaced(s, i, j, new);
    let d = byte_shift(s, i, j, new);
    let at = byte_offset(s, i) as int;
    lemma_npm_section(section);
    lemma_section_replaced(s, i, j, new, section, k);
    let a = "dependencies"@;
    let b = "devDependencies"@;
    let c = "peerDependencies"@;
    let o = "optionalDependencies"@;
    lemma_npm_section(a);
    lemma_npm_section(b);
    lemma_npm_section(c);
    lemma_npm_section(o);
    if section != a {
        lemma_section_elsewhere(s, i, j, new, section, a);
    }
    if section != b {
        lemma_section_elsewhere(s, i, j, new, section, b);
    }
    if section != c {
        lemma_section_elsewhere(s, i, j, new, section, c);
    }
    if section != o {
        lemma_section_elsewhere(s, i, j, new, section, o);
    }
    let ea = npm_section_entries(s, a);
    let eb = npm_section_entries(s, b);
    let ec = npm_section_entries(s, c);
    let eo = npm_section_entries(s, o);
    lemma_updated_concat(ea, eb, at, d, new);
    lemma_updated_concat(ea + eb, ec, at, d, new);
    lemma_updated_concat(ea + eb + ec, eo, at, d, new);
}

/// The sections of an npm manifest that list dependencies.
spec fn is_npm_section(section: Seq<char>) -> bool {
    ||| section == "dependencies"@
    ||| section == "devDependencies"@
    ||| section == "peerDependencies"@
    ||| section == "optionalDependencies"@
}

/// No section is named like a version.
proof fn lemma_npm_section(section: Seq<char>)
    requires
        is_npm_section(section),
    ensures
        !is_version_like(section),
{
    reveal_strlit("dependencies");
    reveal_strlit("devDependencies");
    reveal_strlit("peerDependencies");
    reveal_strlit("optionalDependencies");
    assert(!is_version_char(section[0]));
}

/// Where one version of an npm manifest is replaced, its entry has the new
/// version, and the other entries are as before.
pub proof fn lemma_npm_replaced(s: Seq<char>, i: int, j: int, new: Seq<char>, k: int)
    requires
        is_edit(s, i, j, new),
        is_version_like(new),
        reads_back(new),
        0 <= k < npm_entries(s).len(),
        stands_at(npm_entries(s)[k], s, i, j),
    ensures
        npm_entries(replaced(s, i, j, new)) == updated_entries(
            npm_entries(s),
            byte_offset(s, i) as int,
            byte_shift(s, i, j, new),
            new,
        ),
        stands_alone(npm_entries(s), k, byte_offset(s, i) as int),
{
    lemma_npm_names();
    assert(is_npm_section("dependencies"@));
    assert(is_npm_section("devDependencies"@));
    assert(is_npm_section("peerDependencies"@));
    assert(is_npm_section("optionalDependencies"@));
    let a = npm_section_entries(s, "dependencies"@);
    let b = npm_section_entries(s, "devDependencies"@);
    let c = npm_section_entries(s, "peerDependencies"@);
    let o = npm_section_entries(s, "optionalDependencies"@);
    if k < a.len() {
        assert(npm_entries(s)[k] == a[k]);
        lemma_npm_section_replaced(s, i, j, new, "dependencies"@, k);
    } else if k < a.len() + b.len() {
        assert(npm_entries(s)[k] == b[k - a.len()]);
        lemma_npm_section_replaced(s, i, j, new, "devDependencies"@, k - a.len());
    } else if k < a.len() + b.len() + c.len() {
        assert(npm_entries(s)[k] == c[k - a.len() - b.len()]);
        lemma_npm_section_replaced(s, i, j, new, "peerDependencies"@, k - a.len() - b.len());
    } else {
        assert(npm_entries(s)[k] == o[k - a.len() - b.len() - c.len()]);
        lemma_npm_section_replaced(
            s,
            i,
            j,
            new,
            "optionalDependencies"@,
            k - a.len() - b.len() - c.len(),
        );
    }
    let all = npm_entries(s);
    assert forall|m: int| 0 <= m < all.len() && m != k implies (#[trigger] all[m]).start
        != byte_offset(s, i) by {
        if m < a.len() {
            assert(all[m] == a[m]);
        } else if m < a.len() + b.len() {
            assert(all[m] == b[m - a.len()]);
        } else if m < a.len() + b.len() + c.len() {
            assert(all[m] == c[m - a.len() - b.len()]);
        } else {
            assert(all[m] == o[m - a.len() - b.len() - c.len()]);
        }
    }
}

/// The sections have different names.
proof fn lemma_npm_names()
    ensures
        "dependencies"@ != "devDependencies"@,
        "dependencies"@ != "peerDependencies"@,
        "dependencies"@ != "optionalDependencies"@,
        "devDependencies"@ != "peerDependencies"@,
        "devDependencies"@ != "optionalDependencies"@,
        "peerDependencies"@ != "optionalDependencies"@,
{
    reveal_strlit("dependencies");
    reveal_strlit("devDependencies");
    reveal_strlit("peerDependencies");
    reveal_strlit("optionalDependencies");
    assert("dependencies"@.len() == 12);
    assert("devDependencies"@.len() == 15);
    assert("peerDependencies"@.len() == 16);
    assert("optionalDependencies"@.len() == 20);
}

} // verus!
