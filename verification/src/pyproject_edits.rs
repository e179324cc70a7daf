//! What becomes of the entries of a project file when one of its requirements is
//! pinned to a version.

use crate::edits::{
    byte_shift, in_quotation_marks, is_edit, lemma_bytes_moved, lemma_escaped_same,
    lemma_first_same, lemma_first_skipped, lemma_replaced, lemma_token_before, moved_option,
    replaced, shift,
};
use crate::lines::{lemma_line_end, line_end};
use crate::npm_edits::{lemma_token_behind, lemma_token_same, shifted, shifted_option};
use crate::outside::json_string_value;
use crate::pyproject_lines::{
    begun_list, is_quiet, is_section_line, lemma_bracket_bounds, lemma_line_after, lemma_line_ahead,
    lemma_line_here, list_key, lists_apart, section_behind,
};
use crate::python::{
    array_entries, is_mark_at, is_on_one_line, is_written_plainly, line_array, listed,
    pyproject_arrays, section_label, specifiers_end, stands_as_read, string_token, string_tokens,
    token_entries, token_entry, ArrayView, PythonEntryView,
};
use crate::python_edits::{
    is_pin, is_placed, is_repin, lemma_entry_repinned, lemma_moved_concat, lemma_pin,
    lemma_repinned, lemma_repinned_first, lemma_repinned_second, moved_entries, pin_place,
    reads_repinned, repinned, repinned_entries, repinned_entry,
};
use crate::requirement::{is_foreign, is_quotation_mark, is_readable, specifier_span};
use crate::scan::{
    array_end, closes_string, closing_bracket, comment_end, escaped_at, json_token,
    lemma_closing_bracket, lemma_comment_end, lemma_json_token, lemma_literal_token, TokenView,
};
use crate::text::{byte_offset, first_index, index_of, is_char, lemma_first_index, lemma_index_of};
use vstd::prelude::*;

verus! {

// ---------------------------------------------------------------------------
// Strings
// ---------------------------------------------------------------------------

/// Where a string stands.
proof fn lemma_string_token(s: Seq<char>, i: int, to: int)
    requires
        is_quotation_mark(s[i]),
    ensures
        string_token(s, i, to) matches Some(token) ==> token.inner_start == i + 1
            && token.inner_start <= token.inner_end < to && token.outer_end == token.inner_end + 1
            && s[token.inner_end] == s[i],
{
    if s[i] == '\'' {
        lemma_literal_token(s, i, to);
        lemma_index_of(s, '\'', i + 1, to);
    } else {
        lemma_json_token(s, i, to);
        lemma_index_of(s, '"', i, to);
        if json_token(s, i, to) is Some {
            let p = is_char(s, '"');
            lemma_first_index(p, i, to);
            assert(p(i));
        }
    }
}

/// A string that is found is found with any bound behind it.
proof fn lemma_token_bound(s: Seq<char>, i: int, to: int, to2: int)
    requires
        is_quotation_mark(s[i]),
        string_token(s, i, to) matches Some(token) && token.outer_end <= to2,
    ensures
        string_token(s, i, to2) == string_token(s, i, to),
{
    lemma_string_token(s, i, to);
    let token = string_token(s, i, to)->0;
    if s[i] == '\'' {
        lemma_first_same(
            is_char(s, '\''),
            is_char(s, '\''),
            i + 1,
            to,
            to2,
            token.inner_end,
        );
    } else {
        lemma_json_token(s, i, to);
        lemma_first_same(is_char(s, '"'), is_char(s, '"'), i, to, to2, i);
        let p = closes_string(s, i + 1);
        lemma_first_same(p, p, i + 1, to, to2, token.inner_end);
    }
}

/// A string that ends before the replaced stretch is found as before.
proof fn lemma_string_before(
    s: Seq<char>,
    f: int,
    g: int,
    new: Seq<char>,
    i: int,
    to: int,
    to2: int,
)
    requires
        is_edit(s, f, g, new),
        0 <= i,
        to <= s.len(),
        is_quotation_mark(s[i]),
        string_token(s, i, to) matches Some(token) && token.outer_end <= f && token.outer_end <= to2,
    ensures
        string_token(replaced(s, f, g, new), i, to2) == string_token(s, i, to),
{
    lemma_string_token(s, i, to);
    lemma_replaced(s, f, g, new);
    let t = replaced(s, f, g, new);
    let token = string_token(s, i, to)->0;
    assert(t[i] == s[i]);
    if s[i] == '\'' {
        lemma_first_same(is_char(s, '\''), is_char(t, '\''), i + 1, to, to2, token.inner_end);
        assert(t.subrange(i + 1, token.inner_end) =~= s.subrange(i + 1, token.inner_end));
    } else {
        lemma_token_before(s, f, g, new, i, to, to2);
    }
}

/// Strings behind the replaced stretch are found as before.
proof fn lemma_string_behind(s: Seq<char>, f: int, g: int, new: Seq<char>, i: int, to: int)
    requires
        is_edit(s, f, g, new),
        g <= i < s.len(),
        to <= s.len(),
    ensures
        string_token(replaced(s, f, g, new), i + shift(f, g, new), to + shift(f, g, new)) == (
        match string_token(s, i, to) {
            Some(token) => Some(shifted(token, shift(f, g, new))),
            None => None,
        }),
{
    lemma_replaced(s, f, g, new);
    let t = replaced(s, f, g, new);
    let d = shift(f, g, new);
    assert(s[i] == t[i + d]);
    if s[i] == '\'' {
        lemma_char_behind(s, f, g, new, '\'', i + 1, to);
        lemma_index_of(s, '\'', i + 1, to);
        if let Some(end) = index_of(s, '\'', i + 1, to) {
            let x = t.subrange(i + 1 + d, end + d);
            let y = s.subrange(i + 1, end);
            assert forall|k: int| 0 <= k < y.len() implies #[trigger] x[k] == y[k] by {
                assert(s[i + 1 + k] == t[i + 1 + k + d]);
            }
            assert(x =~= y);
        }
    } else {
        lemma_token_behind(s, f, g, new, i, to);
    }
}

/// A character is found behind the replaced stretch as before.
proof fn lemma_char_behind(
    s: Seq<char>,
    f: int,
    g: int,
    new: Seq<char>,
    c: char,
    from: int,
    to: int,
)
    requires
        is_edit(s, f, g, new),
        g <= from,
        to <= s.len(),
    ensures
        index_of(replaced(s, f, g, new), c, from + shift(f, g, new), to + shift(f, g, new))
            == shifted_option(index_of(s, c, from, to), shift(f, g, new)),
{
    lemma_replaced(s, f, g, new);
    let t = replaced(s, f, g, new);
    let d = shift(f, g, new);
    let p = is_char(t, c);
    let q = is_char(s, c);
    assert forall|k: int| from + d <= k < to + d implies #[trigger] p(k) == q(k - d) by {
        assert(s[k - d] == t[k - d + d]);
    }
    lemma_first_skipped(p, q, d, from + d, to + d);
}

/// A comment that ends before the replaced stretch ends where it did.
proof fn lemma_comment_before(
    s: Seq<char>,
    f: int,
    g: int,
    new: Seq<char>,
    i: int,
    to: int,
    to2: int,
)
    requires
        is_edit(s, f, g, new),
        0 <= i < to <= s.len(),
        comment_end(s, i, to) <= f,
        comment_end(s, i, to) < to,
        comment_end(s, i, to) <= to2,
    ensures
        comment_end(replaced(s, f, g, new), i, to2) == comment_end(s, i, to),
{
    lemma_replaced(s, f, g, new);
    let t = replaced(s, f, g, new);
    let end = comment_end(s, i, to);
    lemma_index_of(s, '\n', i, to);
    lemma_first_same(is_char(s, '\n'), is_char(t, '\n'), i, to, to2, end - 1);
}

/// A comment behind the replaced stretch ends where it did.
proof fn lemma_comment_behind(s: Seq<char>, f: int, g: int, new: Seq<char>, i: int, to: int)
    requires
        is_edit(s, f, g, new),
        g <= i,
        to <= s.len(),
    ensures
        comment_end(replaced(s, f, g, new), i + shift(f, g, new), to + shift(f, g, new))
            == comment_end(s, i, to) + shift(f, g, new),
{
    lemma_char_behind(s, f, g, new, '\n', i, to);
}

// ---------------------------------------------------------------------------
// Brackets
// ---------------------------------------------------------------------------

/// Brackets behind the replaced stretch are closed as before.
#[verifier::rlimit(40)]
proof fn lemma_array_behind(
    s: Seq<char>,
    f: int,
    g: int,
    new: Seq<char>,
    cursor: int,
    depth: nat,
)
    requires
        is_edit(s, f, g, new),
        g <= cursor,
    ensures
        closing_bracket(replaced(s, f, g, new), '[', ']', true, cursor + shift(f, g, new), depth)
            == shifted_option(
            closing_bracket(s, '[', ']', true, cursor, depth),
            shift(f, g, new),
        ),
    decreases s.len() - cursor,
{
    lemma_replaced(s, f, g, new);
    let t = replaced(s, f, g, new);
    let d = shift(f, g, new);
    let n = s.len() as int;
    if cursor < n {
        assert(s[cursor] == t[cursor + d]);
        if is_quotation_mark(s[cursor]) {
            lemma_string_behind(s, f, g, new, cursor, n);
            lemma_string_token(s, cursor, n);
            if let Some(token) = string_token(s, cursor, n) {
                lemma_array_behind(s, f, g, new, token.outer_end, depth);
            }
        } else if s[cursor] == '#' {
            lemma_comment_end(s, cursor, n);
            lemma_comment_behind(s, f, g, new, cursor, n);
            lemma_array_behind(s, f, g, new, comment_end(s, cursor, n), depth);
        } else if s[cursor] == '[' {
            lemma_array_behind(s, f, g, new, cursor + 1, depth + 1);
        } else if s[cursor] == ']' {
            if depth > 1 {
                lemma_array_behind(s, f, g, new, cursor + 1, (depth - 1) as nat);
            }
        } else {
            lemma_array_behind(s, f, g, new, cursor + 1, depth);
        }
    }
}

/// Brackets that are closed before the replaced stretch are closed as before.
#[verifier::rlimit(60)]
pub(crate) proof fn lemma_array_before(
    s: Seq<char>,
    f: int,
    g: int,
    new: Seq<char>,
    cursor: int,
    depth: nat,
)
    requires
        is_edit(s, f, g, new),
        0 <= cursor,
        closing_bracket(s, '[', ']', true, cursor, depth) matches Some(end) && end < f,
    ensures
        closing_bracket(replaced(s, f, g, new), '[', ']', true, cursor, depth) == closing_bracket(
            s,
            '[',
            ']',
            true,
            cursor,
            depth,
        ),
    decreases s.len() - cursor,
{
    lemma_replaced(s, f, g, new);
    let t = replaced(s, f, g, new);
    let n = s.len() as int;
    let n2 = t.len() as int;
    lemma_closing_bracket(s, '[', ']', true, cursor, depth);
    assert(s[cursor] == t[cursor]);
    if is_quotation_mark(s[cursor]) {
        lemma_string_token(s, cursor, n);
        let token = string_token(s, cursor, n)->0;
        lemma_closing_bracket(s, '[', ']', true, token.outer_end, depth);
        lemma_string_before(s, f, g, new, cursor, n, n2);
        lemma_array_before(s, f, g, new, token.outer_end, depth);
    } else if s[cursor] == '#' {
        lemma_comment_end(s, cursor, n);
        lemma_closing_bracket(s, '[', ']', true, comment_end(s, cursor, n), depth);
        lemma_comment_before(s, f, g, new, cursor, n, n2);
        lemma_array_before(s, f, g, new, comment_end(s, cursor, n), depth);
    } else if s[cursor] == '[' {
        lemma_array_before(s, f, g, new, cursor + 1, depth + 1);
    } else if s[cursor] == ']' {
        if depth > 1 {
            lemma_array_before(s, f, g, new, cursor + 1, (depth - 1) as nat);
        }
    } else {
        lemma_array_before(s, f, g, new, cursor + 1, depth);
    }
}

/// Reading from `from`, and passing over strings and comments, arrives at `target`.
spec fn arrives(s: Seq<char>, from: int, target: int) -> bool
    decreases s.len() - from,
{
    let n = s.len() as int;
    if from < 0 || from >= n || from >= target {
        from == target
    } else if is_quotation_mark(s[from]) {
        proof {
            lemma_string_token(s, from, n);
        }
        match string_token(s, from, n) {
            Some(token) => arrives(s, token.outer_end, target),
            None => false,
        }
    } else if s[from] == '#' {
        proof {
            lemma_comment_end(s, from, n);
        }
        arrives(s, comment_end(s, from, n), target)
    } else {
        arrives(s, from + 1, target)
    }
}

/// The string whose contents stand at `f..g` is read as `value` with the contents
/// `new` in their place.
pub open spec fn is_restring(
    s: Seq<char>,
    f: int,
    g: int,
    new: Seq<char>,
    value: Seq<char>,
) -> bool {
    let t = replaced(s, f, g, new);
    let d = shift(f, g, new);
    &&& is_edit(s, f, g, new)
    &&& 0 < f
    &&& g < s.len()
    &&& is_quotation_mark(s[f - 1])
    &&& string_token(s, f - 1, s.len() as int) matches Some(token)
    &&& token.inner_end == g
    &&& string_token(t, f - 1, t.len() as int) == Some(
        TokenView { value, inner_start: f, inner_end: g + d, outer_end: g + d + 1 },
    )
}

/// Where a list ends, reading up to the replaced string and on.
#[verifier::rlimit(60)]
proof fn lemma_array_moved(
    s: Seq<char>,
    f: int,
    g: int,
    new: Seq<char>,
    value: Seq<char>,
    cursor: int,
    depth: nat,
)
    requires
        is_restring(s, f, g, new, value),
        0 <= cursor,
        arrives(s, cursor, f - 1),
    ensures
        closing_bracket(replaced(s, f, g, new), '[', ']', true, cursor, depth) == moved_option(
            closing_bracket(s, '[', ']', true, cursor, depth),
            f,
            shift(f, g, new),
        ),
    decreases s.len() - cursor,
{
    lemma_replaced(s, f, g, new);
    let t = replaced(s, f, g, new);
    let n = s.len() as int;
    let n2 = t.len() as int;
    assert(t[cursor] == s[cursor]);
    if cursor == f - 1 {
        lemma_string_token(s, cursor, n);
        lemma_array_behind(s, f, g, new, g + 1, depth);
        lemma_closing_bracket(s, '[', ']', true, g + 1, depth);
    } else if is_quotation_mark(s[cursor]) {
        lemma_string_token(s, cursor, n);
        let token = string_token(s, cursor, n)->0;
        assert(arrives(s, token.outer_end, f - 1));
        lemma_string_before(s, f, g, new, cursor, n, n2);
        lemma_array_moved(s, f, g, new, value, token.outer_end, depth);
    } else if s[cursor] == '#' {
        lemma_comment_end(s, cursor, n);
        let end = comment_end(s, cursor, n);
        assert(arrives(s, end, f - 1));
        lemma_comment_before(s, f, g, new, cursor, n, n2);
        lemma_array_moved(s, f, g, new, value, end, depth);
    } else if s[cursor] == '[' {
        lemma_array_moved(s, f, g, new, value, cursor + 1, depth + 1);
    } else if s[cursor] == ']' {
        if depth > 1 {
            lemma_array_moved(s, f, g, new, value, cursor + 1, (depth - 1) as nat);
        }
    } else {
        lemma_array_moved(s, f, g, new, value, cursor + 1, depth);
    }
}

// ---------------------------------------------------------------------------
// Lists
// ---------------------------------------------------------------------------

/// The entries of the strings in `c..to`.
pub open spec fn list_entries(s: Seq<char>, c: int, to: int, section: Seq<char>) -> Seq<
    PythonEntryView,
> {
    token_entries(s, string_tokens(s, c, to), section)
}

/// The entries of strings, the first of which is known.
proof fn lemma_token_entries_first(
    s: Seq<char>,
    first: TokenView,
    rest: Seq<TokenView>,
    section: Seq<char>,
)
    ensures
        token_entries(s, seq![first] + rest, section) == listed(token_entry(s, first, section))
            + token_entries(s, rest, section),
    decreases rest.len(),
{
    let all = seq![first] + rest;
    if rest.len() == 0 {
        assert(all =~= seq![first]);
        assert(all.drop_last() =~= Seq::<TokenView>::empty());
        assert(all.last() == first);
        assert(token_entries(s, all.drop_last(), section) =~= Seq::<PythonEntryView>::empty());
        assert(token_entries(s, rest, section) =~= Seq::<PythonEntryView>::empty());
        assert(token_entries(s, all, section) =~= listed(token_entry(s, first, section))
            + token_entries(s, rest, section));
    } else {
        assert(all.drop_last() =~= seq![first] + rest.drop_last());
        assert(all.last() == rest.last());
        lemma_token_entries_first(s, first, rest.drop_last(), section);
        assert(token_entries(s, all, section) == token_entries(s, all.drop_last(), section)
            + listed(token_entry(s, all.last(), section)));
        assert(token_entries(s, rest, section) == token_entries(s, rest.drop_last(), section)
            + listed(token_entry(s, rest.last(), section)));
        assert(token_entries(s, all, section) =~= listed(token_entry(s, first, section))
            + token_entries(s, rest, section));
    }
}

/// The entries of a list, read by one character, string or comment.
proof fn lemma_list_step(s: Seq<char>, c: int, to: int, section: Seq<char>)
    ensures
        c >= to ==> list_entries(s, c, to, section).len() == 0,
        c < to && s[c] == '#' ==> list_entries(s, c, to, section) == list_entries(
            s,
            comment_end(s, c, to),
            to,
            section,
        ),
        c < to && is_quotation_mark(s[c]) ==> list_entries(s, c, to, section) == (match string_token(
            s,
            c,
            to,
        ) {
            Some(token) => listed(token_entry(s, token, section)) + list_entries(
                s,
                token.outer_end,
                to,
                section,
            ),
            None => Seq::empty(),
        }),
        c < to && s[c] != '#' && !is_quotation_mark(s[c]) ==> list_entries(s, c, to, section)
            == list_entries(s, c + 1, to, section),
{
    let p = is_mark_at(s);
    lemma_first_index(p, c, to);
    if c < to {
        if s[c] == '#' || is_quotation_mark(s[c]) {
            assert(p(c));
            assert(first_index(p, c, to) == Some(c));
            if is_quotation_mark(s[c]) {
                if let Some(token) = string_token(s, c, to) {
                    lemma_token_entries_first(
                        s,
                        token,
                        string_tokens(s, token.outer_end, to),
                        section,
                    );
                }
            }
        } else {
            assert(!p(c));
            assert(first_index(p, c, to) == first_index(p, c + 1, to));
        }
    }
}

/// Entries of a list stand in it.
proof fn lemma_list_bounds(s: Seq<char>, c: int, to: int, section: Seq<char>)
    ensures
        forall|m: int|
            0 <= m < list_entries(s, c, to, section).len() ==> c < (#[trigger] list_entries(
                s,
                c,
                to,
                section,
            )[m]).from && list_entries(s, c, to, section)[m].to < to,
    decreases to - c,
{
    lemma_list_step(s, c, to, section);
    if c < to {
        if s[c] == '#' {
            lemma_comment_end(s, c, to);
            lemma_list_bounds(s, comment_end(s, c, to), to, section);
        } else if is_quotation_mark(s[c]) {
            lemma_string_token(s, c, to);
            if let Some(token) = string_token(s, c, to) {
                lemma_list_bounds(s, token.outer_end, to, section);
                let here = listed(token_entry(s, token, section));
                let rest = list_entries(s, token.outer_end, to, section);
                assert forall|m: int| 0 <= m < (here + rest).len() implies c < (#[trigger] (here
                    + rest)[m]).from && (here + rest)[m].to < to by {
                    if m >= here.len() {
                        assert((here + rest)[m] == rest[m - here.len()]);
                    }
                }
            }
        } else {
            lemma_list_bounds(s, c + 1, to, section);
        }
    }
}

/// The entry of a string behind the replaced stretch is moved.
proof fn lemma_token_entry_behind(
    s: Seq<char>,
    f: int,
    g: int,
    new: Seq<char>,
    token: TokenView,
    section: Seq<char>,
)
    requires
        is_edit(s, f, g, new),
        g <= token.inner_start <= s.len(),
    ensures
        listed(token_entry(replaced(s, f, g, new), shifted(token, shift(f, g, new)), section))
            == moved_entries(
            listed(token_entry(s, token, section)),
            shift(f, g, new),
            byte_shift(s, f, g, new),
        ),
{
    let t = replaced(s, f, g, new);
    let d = shift(f, g, new);
    lemma_bytes_moved(s, f, g, new, token.inner_start);
    assert(listed(token_entry(t, shifted(token, d), section)) =~= moved_entries(
        listed(token_entry(s, token, section)),
        d,
        byte_shift(s, f, g, new),
    ));
}

/// The entries of a list behind the replaced stretch are moved.
#[verifier::rlimit(60)]
proof fn lemma_list_behind(
    s: Seq<char>,
    f: int,
    g: int,
    new: Seq<char>,
    c: int,
    to: int,
    section: Seq<char>,
)
    requires
        is_edit(s, f, g, new),
        g <= c,
        to <= s.len(),
    ensures
        list_entries(
            replaced(s, f, g, new),
            c + shift(f, g, new),
            to + shift(f, g, new),
            section,
        ) == moved_entries(
            list_entries(s, c, to, section),
            shift(f, g, new),
            byte_shift(s, f, g, new),
        ),
    decreases to - c,
{
    lemma_replaced(s, f, g, new);
    let t = replaced(s, f, g, new);
    let d = shift(f, g, new);
    let bytes = byte_shift(s, f, g, new);
    lemma_list_step(s, c, to, section);
    lemma_list_step(t, c + d, to + d, section);
    if c < to {
        assert(s[c] == t[c + d]);
        if s[c] == '#' {
            lemma_comment_end(s, c, to);
            lemma_comment_behind(s, f, g, new, c, to);
            lemma_list_behind(s, f, g, new, comment_end(s, c, to), to, section);
        } else if is_quotation_mark(s[c]) {
            lemma_string_token(s, c, to);
            lemma_string_behind(s, f, g, new, c, to);
            if let Some(token) = string_token(s, c, to) {
                lemma_list_behind(s, f, g, new, token.outer_end, to, section);
                lemma_token_entry_behind(s, f, g, new, token, section);
                let here = listed(token_entry(s, token, section));
                let rest = list_entries(s, token.outer_end, to, section);
                lemma_moved_concat(here, rest, d, bytes);
            } else {
                assert(moved_entries(Seq::<PythonEntryView>::empty(), d, bytes) =~= Seq::<
                    PythonEntryView,
                >::empty());
            }
        } else {
            lemma_list_behind(s, f, g, new, c + 1, to, section);
        }
    } else {
        assert(moved_entries(list_entries(s, c, to, section), d, bytes) =~= Seq::<
            PythonEntryView,
        >::empty());
    }
}

/// A character before the replaced stretch is found as before.
proof fn lemma_char_same(
    s: Seq<char>,
    f: int,
    g: int,
    new: Seq<char>,
    c: char,
    from: int,
    to: int,
)
    requires
        is_edit(s, f, g, new),
        0 <= from,
        to <= f,
    ensures
        index_of(replaced(s, f, g, new), c, from, to) == index_of(s, c, from, to),
{
    lemma_replaced(s, f, g, new);
    let t = replaced(s, f, g, new);
    lemma_first_skipped(is_char(t, c), is_char(s, c), 0, from, to);
}

/// Strings before the replaced stretch are found as before.
proof fn lemma_string_same(s: Seq<char>, f: int, g: int, new: Seq<char>, i: int, to: int)
    requires
        is_edit(s, f, g, new),
        0 <= i < to <= f,
    ensures
        string_token(replaced(s, f, g, new), i, to) == string_token(s, i, to),
{
    lemma_replaced(s, f, g, new);
    let t = replaced(s, f, g, new);
    assert(t[i] == s[i]);
    if s[i] == '\'' {
        lemma_char_same(s, f, g, new, '\'', i + 1, to);
        lemma_index_of(s, '\'', i + 1, to);
        if let Some(end) = index_of(s, '\'', i + 1, to) {
            assert(t.subrange(i + 1, end) =~= s.subrange(i + 1, end));
        }
    } else {
        lemma_token_same(s, f, g, new, i, to);
    }
}

/// The entries of a list before the replaced stretch stay.
#[verifier::rlimit(60)]
pub(crate) proof fn lemma_list_same(
    s: Seq<char>,
    f: int,
    g: int,
    new: Seq<char>,
    c: int,
    to: int,
    section: Seq<char>,
)
    requires
        is_edit(s, f, g, new),
        0 <= c,
        to <= f,
    ensures
        list_entries(replaced(s, f, g, new), c, to, section) == list_entries(s, c, to, section),
    decreases to - c,
{
    lemma_replaced(s, f, g, new);
    let t = replaced(s, f, g, new);
    lemma_list_step(s, c, to, section);
    lemma_list_step(t, c, to, section);
    if c < to {
        assert(s[c] == t[c]);
        if s[c] == '#' {
            lemma_comment_end(s, c, to);
            lemma_char_same(s, f, g, new, '\n', c, to);
            lemma_list_same(s, f, g, new, comment_end(s, c, to), to, section);
        } else if is_quotation_mark(s[c]) {
            lemma_string_token(s, c, to);
            lemma_string_same(s, f, g, new, c, to);
            if let Some(token) = string_token(s, c, to) {
                lemma_list_same(s, f, g, new, token.outer_end, to, section);
                lemma_bytes_moved(s, f, g, new, token.inner_start);
            }
        } else {
            lemma_list_same(s, f, g, new, c + 1, to, section);
        }
    } else {
        assert(list_entries(t, c, to, section) =~= list_entries(s, c, to, section));
    }
}

/// The string that an entry of a list is read from is reached.
proof fn lemma_list_reached(s: Seq<char>, c: int, to: int, section: Seq<char>, k: int)
    requires
        0 <= c,
        to <= s.len(),
        0 <= k < list_entries(s, c, to, section).len(),
    ensures
        ({
            let e = list_entries(s, c, to, section)[k];
            let q = e.from - 1;
            &&& c <= q
            &&& arrives(s, c, q)
            &&& is_quotation_mark(s[q])
            &&& e.to < to
            &&& string_token(s, q, s.len() as int) matches Some(token)
            &&& token.inner_end == e.to
            &&& token.value == e.requirement
            &&& token_entry(s, token, section) == Some(e)
        }),
    decreases to - c,
{
    let n = s.len() as int;
    let e = list_entries(s, c, to, section)[k];
    lemma_list_step(s, c, to, section);
    lemma_list_bounds(s, c, to, section);
    if s[c] == '#' {
        lemma_comment_end(s, c, to);
        let end = comment_end(s, c, to);
        lemma_list_reached(s, end, to, section, k);
        lemma_list_step(s, end, to, section);
        lemma_index_of(s, '\n', c, to);
        lemma_first_same(is_char(s, '\n'), is_char(s, '\n'), c, to, n, end - 1);
        assert(comment_end(s, c, n) == end);
    } else if is_quotation_mark(s[c]) {
        lemma_string_token(s, c, to);
        let token = string_token(s, c, to)->0;
        lemma_token_bound(s, c, to, n);
        let here = listed(token_entry(s, token, section));
        let rest = list_entries(s, token.outer_end, to, section);
        if k < here.len() {
            assert((here + rest)[k] == here[k]);
            assert(arrives(s, c, c));
        } else {
            assert((here + rest)[k] == rest[k - here.len()]);
            lemma_list_reached(s, token.outer_end, to, section, k - here.len());
        }
    } else {
        lemma_list_reached(s, c + 1, to, section, k);
    }
}

/// The entry of the string at `c` is repinned, and those behind it are moved.
#[verifier::rlimit(80)]
proof fn lemma_repinned_here(
    s: Seq<char>,
    new: Seq<char>,
    r: Seq<char>,
    c: int,
    to: int,
    section: Seq<char>,
    k: int,
)
    requires
        is_pin(new),
        0 <= c,
        to <= s.len(),
        0 <= k < list_entries(s, c, to, section).len(),
        ({
            let e = list_entries(s, c, to, section)[k];
            &&& reads_repinned(e, new)
            &&& is_restring(s, e.from, e.to, r, repinned(e.requirement, new))
            &&& shift(e.from, e.to, r) == repinned(e.requirement, new).len() - e.requirement.len()
        }),
        c < to,
        is_quotation_mark(s[c]),
        string_token(s, c, to) matches Some(token) && k < listed(
            token_entry(s, token, section),
        ).len(),
    ensures
        ({
            let e = list_entries(s, c, to, section)[k];
            let d = shift(e.from, e.to, r);
            list_entries(replaced(s, e.from, e.to, r), c, to + d, section) == repinned_entries(
                list_entries(s, c, to, section),
                k,
                new,
                d,
                byte_shift(s, e.from, e.to, r),
            )
        }),
{
    let e = list_entries(s, c, to, section)[k];
    let f = e.from;
    let g = e.to;
    let d = shift(f, g, r);
    let bytes = byte_shift(s, f, g, r);
    let t = replaced(s, f, g, r);
    lemma_replaced(s, f, g, r);
    lemma_list_reached(s, c, to, section, k);
    lemma_list_step(s, c, to, section);
    lemma_list_step(t, c, to + d, section);
    assert(s[c] == t[c]);
    lemma_string_token(s, c, to);
    let token = string_token(s, c, to)->0;
    let here = listed(token_entry(s, token, section));
    let rest = list_entries(s, token.outer_end, to, section);
    assert((here + rest)[k] == here[k]);
    assert(token.inner_start == f && token.inner_end == g);
    let token2 = string_token(t, c, t.len() as int)->0;
    lemma_token_bound(t, c, t.len() as int, to + d);
    lemma_list_behind(s, f, g, r, g + 1, to, section);
    lemma_repinned_first(here, rest, k, new, d, bytes);
    lemma_bytes_moved(s, f, g, r, g);
    lemma_entry_repinned(
        token.value,
        new,
        section,
        byte_offset(s, f) as int,
        f,
        g,
    );
    assert(token_entry(t, token2, section) == Some(repinned_entry(e, new, d)));
    assert(repinned_entries(here, k, new, d, bytes) =~= listed(
        token_entry(t, token2, section),
    ));
}

/// The entries of the list that holds the replaced string: that one has the new
/// specifiers, and the others are as before.
#[verifier::rlimit(40)]
#[verifier::rlimit(80)]
proof fn lemma_list_repinned(
    s: Seq<char>,
    new: Seq<char>,
    r: Seq<char>,
    c: int,
    to: int,
    section: Seq<char>,
    k: int,
)
    requires
        is_pin(new),
        0 <= c,
        to <= s.len(),
        0 <= k < list_entries(s, c, to, section).len(),
        ({
            let e = list_entries(s, c, to, section)[k];
            &&& reads_repinned(e, new)
            &&& is_restring(s, e.from, e.to, r, repinned(e.requirement, new))
            &&& shift(e.from, e.to, r) == repinned(e.requirement, new).len() - e.requirement.len()
        }),
    ensures
        ({
            let e = list_entries(s, c, to, section)[k];
            let d = shift(e.from, e.to, r);
            list_entries(replaced(s, e.from, e.to, r), c, to + d, section) == repinned_entries(
                list_entries(s, c, to, section),
                k,
                new,
                d,
                byte_shift(s, e.from, e.to, r),
            )
        }),
    decreases to - c,
{
    let e = list_entries(s, c, to, section)[k];
    let f = e.from;
    let g = e.to;
    let d = shift(f, g, r);
    let bytes = byte_shift(s, f, g, r);
    let t = replaced(s, f, g, r);
    lemma_replaced(s, f, g, r);
    lemma_list_reached(s, c, to, section, k);
    lemma_list_step(s, c, to, section);
    lemma_list_step(t, c, to + d, section);
    assert(s[c] == t[c]);
    if s[c] == '#' {
        lemma_comment_end(s, c, to);
        let end = comment_end(s, c, to);
        lemma_list_bounds(s, end, to, section);
        lemma_list_step(s, end, to, section);
        lemma_comment_before(s, f, g, r, c, to, to + d);
        lemma_list_repinned(s, new, r, end, to, section, k);
    } else if is_quotation_mark(s[c]) {
        lemma_string_token(s, c, to);
        let token = string_token(s, c, to)->0;
        let here = listed(token_entry(s, token, section));
        let rest = list_entries(s, token.outer_end, to, section);
        if k < here.len() {
            lemma_repinned_here(s, new, r, c, to, section, k);
        } else {
            lemma_repinned_second(here, rest, k, new, d, bytes);
            lemma_list_bounds(s, token.outer_end, to, section);
            lemma_list_repinned(s, new, r, token.outer_end, to, section, k - here.len());
            lemma_string_before(s, f, g, r, c, to, to + d);
            lemma_bytes_moved(s, f, g, r, token.inner_start);
        }
    } else {
        lemma_list_repinned(s, new, r, c + 1, to, section, k);
    }
}

// ---------------------------------------------------------------------------
// Project files
// ---------------------------------------------------------------------------

/// The entries of the lists from the line at `from` on.
pub open spec fn project_entries(s: Seq<char>, from: int, section: Option<Seq<char>>) -> Seq<
    PythonEntryView,
> {
    array_entries(s, pyproject_arrays(s, from, section))
}

/// The entries of the list that the line at `from` begins.
pub open spec fn begun_entries(s: Seq<char>, from: int, section: Option<Seq<char>>) -> Seq<
    PythonEntryView,
> {
    match begun_list(s, from, section) {
        Some(start) => match array_end(s, start) {
            Some(end) => list_entries(
                s,
                start,
                end,
                section_label(section->0, list_key(s, from)),
            ),
            None => Seq::empty(),
        },
        None => Seq::empty(),
    }
}

/// The entries of lists, the first of which is known.
proof fn lemma_array_entries_first(s: Seq<char>, first: ArrayView, rest: Seq<ArrayView>)
    ensures
        array_entries(s, seq![first] + rest) == list_entries(
            s,
            first.start,
            first.end,
            first.section,
        ) + array_entries(s, rest),
    decreases rest.len(),
{
    let all = seq![first] + rest;
    let entries = list_entries(s, first.start, first.end, first.section);
    if rest.len() == 0 {
        assert(all =~= seq![first]);
        assert(all.drop_last() =~= Seq::<ArrayView>::empty());
        assert(all.last() == first);
        assert(array_entries(s, all.drop_last()) =~= Seq::<PythonEntryView>::empty());
        assert(array_entries(s, rest) =~= Seq::<PythonEntryView>::empty());
        assert(array_entries(s, all) =~= entries + array_entries(s, rest));
    } else {
        let last = rest.last();
        let more = list_entries(s, last.start, last.end, last.section);
        assert(all.drop_last() =~= seq![first] + rest.drop_last());
        assert(all.last() == last);
        lemma_array_entries_first(s, first, rest.drop_last());
        assert(array_entries(s, all) == array_entries(s, all.drop_last()) + more);
        assert(array_entries(s, rest) == array_entries(s, rest.drop_last()) + more);
        assert(array_entries(s, all) =~= entries + array_entries(s, rest));
    }
}

/// The entries of a project file, line by line.
pub(crate) proof fn lemma_project_step(s: Seq<char>, from: int, section: Option<Seq<char>>)
    requires
        0 <= from < s.len(),
    ensures
        project_entries(s, from, section) == begun_entries(s, from, section) + project_entries(
            s,
            line_end(s, from),
            section_behind(s, from, section),
        ),
        from < line_end(s, from) <= s.len(),
{
    lemma_line_end(s, from);
    let next = line_end(s, from);
    let rest = pyproject_arrays(s, next, section_behind(s, from, section));
    let empty = Seq::<PythonEntryView>::empty();
    assert(empty + array_entries(s, rest) =~= array_entries(s, rest));
    if !is_section_line(s, from) {
        if let Some(name) = section {
            if let Some(a) = line_array(s, from, name) {
                lemma_array_entries_first(s, a, rest);
            }
        }
    }
}

/// The entries of a project file stand behind the line from which they are read.
proof fn lemma_project_bounds(s: Seq<char>, from: int, section: Option<Seq<char>>)
    requires
        0 <= from <= s.len(),
    ensures
        forall|m: int|
            0 <= m < project_entries(s, from, section).len() ==> from < (#[trigger] project_entries(
                s,
                from,
                section,
            )[m]).from,
    decreases s.len() - from,
{
    if from < s.len() {
        lemma_project_step(s, from, section);
        let next = line_end(s, from);
        let here = begun_entries(s, from, section);
        let rest = project_entries(s, next, section_behind(s, from, section));
        lemma_project_bounds(s, next, section_behind(s, from, section));
        lemma_bracket_bounds(s, from);
        if let Some(start) = begun_list(s, from, section) {
            if let Some(end) = array_end(s, start) {
                lemma_list_bounds(s, start, end, section_label(section->0, list_key(s, from)));
            }
        }
        assert forall|m: int| 0 <= m < (here + rest).len() implies from < (#[trigger] (here
            + rest)[m]).from by {
            if m >= here.len() {
                assert((here + rest)[m] == rest[m - here.len()]);
            }
        }
    } else {
        assert(project_entries(s, from, section).len() == 0);
    }
}

/// Behind quiet lines, entries stand behind all of them.
proof fn lemma_quiet_bounds(s: Seq<char>, from: int, end: int, section: Option<Seq<char>>)
    requires
        0 <= from <= s.len(),
        is_quiet(s, from, end),
        end < s.len(),
    ensures
        forall|m: int|
            0 <= m < project_entries(s, from, section).len() ==> end < (#[trigger] project_entries(
                s,
                from,
                section,
            )[m]).from,
    decreases s.len() - from,
{
    if from < s.len() && from <= end {
        lemma_project_step(s, from, section);
        let next = line_end(s, from);
        let rest = project_entries(s, next, section);
        lemma_quiet_bounds(s, next, end, section);
        assert(begun_entries(s, from, section) + rest =~= rest);
    } else {
        lemma_project_bounds(s, from, section);
    }
}

/// The entries of the list that a line behind the replaced stretch begins.
proof fn lemma_begun_behind(
    s: Seq<char>,
    f: int,
    g: int,
    new: Seq<char>,
    from: int,
    section: Option<Seq<char>>,
)
    requires
        is_edit(s, f, g, new),
        g <= from < s.len(),
    ensures
        begun_entries(replaced(s, f, g, new), from + shift(f, g, new), section) == moved_entries(
            begun_entries(s, from, section),
            shift(f, g, new),
            byte_shift(s, f, g, new),
        ),
        section_behind(replaced(s, f, g, new), from + shift(f, g, new), section) == section_behind(
            s,
            from,
            section,
        ),
        line_end(replaced(s, f, g, new), from + shift(f, g, new)) == line_end(s, from) + shift(
            f,
            g,
            new,
        ),
{
    let t = replaced(s, f, g, new);
    let d = shift(f, g, new);
    let bytes = byte_shift(s, f, g, new);
    lemma_line_after(s, f, g, new, from);
    lemma_bracket_bounds(s, from);
    let empty = Seq::<PythonEntryView>::empty();
    assert(moved_entries(empty, d, bytes) =~= empty);
    if let Some(start) = begun_list(s, from, section) {
        lemma_array_behind(s, f, g, new, start, 0);
        lemma_closing_bracket(s, '[', ']', true, start, 0);
        if let Some(end) = array_end(s, start) {
            let label = section_label(section->0, list_key(s, from));
            lemma_list_behind(s, f, g, new, start, end, label);
        }
    }
}

/// The entries behind the replaced stretch are moved.
pub(crate) proof fn lemma_project_behind(
    s: Seq<char>,
    f: int,
    g: int,
    new: Seq<char>,
    from: int,
    section: Option<Seq<char>>,
)
    requires
        is_edit(s, f, g, new),
        g <= from <= s.len(),
    ensures
        project_entries(replaced(s, f, g, new), from + shift(f, g, new), section) == moved_entries(
            project_entries(s, from, section),
            shift(f, g, new),
            byte_shift(s, f, g, new),
        ),
    decreases s.len() - from,
{
    lemma_replaced(s, f, g, new);
    let t = replaced(s, f, g, new);
    let d = shift(f, g, new);
    let bytes = byte_shift(s, f, g, new);
    if from < s.len() {
        lemma_project_step(s, from, section);
        lemma_project_step(t, from + d, section);
        lemma_begun_behind(s, f, g, new, from, section);
        let next = line_end(s, from);
        let behind = section_behind(s, from, section);
        lemma_project_behind(s, f, g, new, next, behind);
        lemma_moved_concat(
            begun_entries(s, from, section),
            project_entries(s, next, behind),
            d,
            bytes,
        );
    } else {
        assert(moved_entries(project_entries(s, from, section), d, bytes) =~= project_entries(
            t,
            from + d,
            section,
        ));
    }
}

// ---------------------------------------------------------------------------
// Requirements
// ---------------------------------------------------------------------------

/// What the string of an entry holds, with its specifiers replaced.
pub open spec fn rewritten_string(s: Seq<char>, e: PythonEntryView, new: Seq<char>) -> Seq<char> {
    let (a, b) = specifier_span(e.requirement)->0;
    replaced(s.subrange(e.from, e.to), a, b, new)
}

/// Between double quotation marks, the string of an entry is read with its
/// specifiers replaced, and nothing else changed.
pub open spec fn reads_rewritten(s: Seq<char>, e: PythonEntryView, new: Seq<char>) -> bool {
    &&& e.from + specifiers_end(e.requirement) <= e.to
    &&& json_string_value(in_quotation_marks(rewritten_string(s, e, new))) == Some(
        repinned(e.requirement, new),
    )
}

/// An entry of a project file that can be rewritten in place: its string stands on
/// one line, holds no escapes up to the end of its specifiers, and is read back with
/// the new ones.
pub open spec fn is_rewritable(s: Seq<char>, e: PythonEntryView, new: Seq<char>) -> bool {
    &&& is_written_plainly(s, e)
    &&& is_on_one_line(s, e)
    &&& s[e.from - 1] == '"' ==> reads_rewritten(s, e, new)
}

/// Replacing the specifiers of a requirement replaces what its string holds.
#[verifier::rlimit(40)]
proof fn lemma_same_edit(s: Seq<char>, e: PythonEntryView, new: Seq<char>)
    requires
        is_pin(new),
        stands_as_read(s, e),
        is_readable(e.requirement),
        specifier_span(e.requirement) is Some,
    ensures
        ({
            let (i, j) = pin_place(e);
            let r = rewritten_string(s, e, new);
            &&& is_repin(s, i, j, new)
            &&& is_edit(s, e.from, e.to, r)
            &&& e.from < i
            &&& j <= e.to
            &&& replaced(s, i, j, new) == replaced(s, e.from, e.to, r)
            &&& shift(i, j, new) == shift(e.from, e.to, r)
            &&& byte_shift(s, i, j, new) == byte_shift(s, e.from, e.to, r)
            &&& shift(i, j, new) == repinned(e.requirement, new).len() - e.requirement.len()
        }),
{
    let f = e.from;
    let g = e.to;
    lemma_repinned(e.requirement, new);
    let (a, b) = specifier_span(e.requirement)->0;
    let (i, j) = pin_place(e);
    let r = rewritten_string(s, e, new);
    let stretch = s.subrange(f, f + b);
    assert forall|k: int| i <= k < j implies !is_foreign(#[trigger] s[k]) by {
        assert(stretch[k - f] == s[k]);
        assert(e.requirement.take(b)[k - f] == e.requirement[k - f]);
    }
    assert(stretch[a] == s[i] && e.requirement.take(b)[a] == e.requirement[a]);
    assert(stretch[b - 1] == s[j - 1] && e.requirement.take(b)[b - 1] == e.requirement[b - 1]);
    assert(replaced(s, i, j, new) =~= replaced(s, f, g, r));
    lemma_replaced(s.subrange(f, g), a, b, new);
    lemma_replaced(e.requirement, a, b, new);
    lemma_bytes_moved(s, i, j, new, g);
    lemma_bytes_moved(s, f, g, r, g);
}

/// A literal string with other contents is read with those.
proof fn lemma_literal_written(s: Seq<char>, f: int, g: int, r: Seq<char>)
    requires
        is_edit(s, f, g, r),
        0 < f,
        g < s.len(),
        s[f - 1] == '\'',
        s[g] == '\'',
        forall|p: int| 0 <= p < r.len() ==> #[trigger] r[p] != '\'',
    ensures
        ({
            let t = replaced(s, f, g, r);
            let end = g + shift(f, g, r);
            string_token(t, f - 1, t.len() as int) == Some(
                TokenView { value: r, inner_start: f, inner_end: end, outer_end: end + 1 },
            )
        }),
{
    lemma_replaced(s, f, g, r);
    let t = replaced(s, f, g, r);
    let end = g + shift(f, g, r);
    assert(s[g] == t[end]);
    assert(t[f - 1] == s[f - 1]);
    assert forall|p: int| f <= p < end implies #[trigger] t[p] != '\'' by {
        assert(t[p] == r[p - f]);
    }
    assert(t.subrange(f, end) =~= r);
    let p = is_char(t, '\'');
    lemma_first_index(p, f, t.len() as int);
    assert(p(end));
}

/// What is escaped behind replaced specifiers stays so, reading from where a string
/// begins.
proof fn lemma_escaped_after(
    s: Seq<char>,
    f: int,
    i: int,
    j: int,
    new: Seq<char>,
    p: int,
)
    requires
        is_repin(s, i, j, new),
        f <= i,
        j <= p <= s.len(),
    ensures
        escaped_at(replaced(s, i, j, new), f, p + shift(i, j, new)) == escaped_at(s, f, p),
    decreases p,
{
    lemma_pin(new);
    lemma_replaced(s, i, j, new);
    let t = replaced(s, i, j, new);
    let d = shift(i, j, new);
    if p == j {
        assert(!is_foreign(s[j - 1]));
        assert(t[j + d - 1] == new[new.len() - 1]);
    } else {
        lemma_escaped_after(s, f, i, j, new, p - 1);
        assert(s[p - 1] == t[p - 1 + d]);
    }
}

/// A string with replaced specifiers ends where it did.
#[verifier::rlimit(40)]
proof fn lemma_closes_moved(s: Seq<char>, f: int, i: int, j: int, new: Seq<char>, g: int)
    requires
        is_repin(s, i, j, new),
        0 < f <= i,
        j <= g < s.len(),
        first_index(closes_string(s, f), f, s.len() as int) == Some(g),
    ensures
        ({
            let t = replaced(s, i, j, new);
            first_index(closes_string(t, f), f, t.len() as int) == Some(g + shift(i, j, new))
        }),
{
    lemma_pin(new);
    lemma_replaced(s, i, j, new);
    let t = replaced(s, i, j, new);
    let d = shift(i, j, new);
    let n = s.len() as int;
    let p = closes_string(s, f);
    let q = closes_string(t, f);
    assert forall|k: int| f <= k < i implies #[trigger] p(k) == q(k) by {
        lemma_escaped_same(s, t, f, k);
    }
    assert forall|k: int| j <= k < n implies #[trigger] p(k) == q(k + d) by {
        lemma_escaped_after(s, f, i, j, new, k);
        assert(s[k] == t[k + d]);
    }
    assert forall|k: int| i <= k < j + d implies !#[trigger] q(k) by {
        assert(t[k] == new[k - i]);
    }
    lemma_first_index(p, f, n);
    lemma_first_index(q, f, t.len() as int);
    assert(p(g));
    assert(q(g + d));
    assert forall|k: int| f <= k < g + d implies !#[trigger] q(k) by {
        if k < i {
            assert(!p(k));
        } else if k >= j + d {
            assert(!p(k - d));
            assert(p(k - d) == q(k - d + d));
        }
    }
}

/// A double-quoted string with replaced specifiers is read with its new contents.
proof fn lemma_quoted_written(
    s: Seq<char>,
    f: int,
    g: int,
    r: Seq<char>,
    i: int,
    j: int,
    new: Seq<char>,
    value: Seq<char>,
)
    requires
        is_repin(s, i, j, new),
        is_edit(s, f, g, r),
        replaced(s, f, g, r) == replaced(s, i, j, new),
        shift(f, g, r) == shift(i, j, new),
        0 < f <= i,
        j <= g < s.len(),
        s[f - 1] == '"',
        json_token(s, f - 1, s.len() as int) matches Some(token) && token.inner_end == g,
        json_string_value(in_quotation_marks(r)) == Some(value),
    ensures
        ({
            let t = replaced(s, f, g, r);
            let end = g + shift(f, g, r);
            string_token(t, f - 1, t.len() as int) == Some(
                TokenView { value, inner_start: f, inner_end: end, outer_end: end + 1 },
            )
        }),
{
    lemma_replaced(s, f, g, r);
    let t = replaced(s, f, g, r);
    let end = g + shift(f, g, r);
    let n = s.len() as int;
    lemma_json_token(s, f - 1, n);
    lemma_first_index(is_char(s, '"'), f - 1, n);
    assert(is_char(s, '"')(f - 1));
    lemma_closes_moved(s, f, i, j, new, g);
    assert(t[f - 1] == s[f - 1]);
    assert(s[g] == t[end]);
    let p = is_char(t, '"');
    lemma_first_index(p, f - 1, t.len() as int);
    assert(p(f - 1));
    assert(t.subrange(f, end) =~= r);
    assert(t.subrange(f - 1, end + 1) =~= in_quotation_marks(r));
}

/// A requirement without apostrophes has none with its specifiers replaced.
proof fn lemma_repinned_without(r: Seq<char>, a: int, b: int, new: Seq<char>)
    requires
        is_repin(r, a, b, new),
        forall|p: int| 0 <= p < r.len() ==> #[trigger] r[p] != '\'',
    ensures
        forall|p: int|
            0 <= p < replaced(r, a, b, new).len() ==> #[trigger] replaced(r, a, b, new)[p] != '\'',
{
    lemma_pin(new);
    lemma_replaced(r, a, b, new);
    let t = replaced(r, a, b, new);
    let d = shift(a, b, new);
    assert forall|p: int| 0 <= p < t.len() implies #[trigger] t[p] != '\'' by {
        if p >= b + d {
            assert(r[p - d] == t[p - d + d]);
        } else if p >= a {
            assert(t[p] == new[p - a]);
        } else {
            assert(t[p] == r[p]);
        }
    }
}

/// The string of a requirement is read with its specifiers replaced.
proof fn lemma_restring(s: Seq<char>, e: PythonEntryView, new: Seq<char>)
    requires
        is_pin(new),
        0 < e.from <= e.to < s.len(),
        stands_as_read(s, e),
        is_readable(e.requirement),
        specifier_span(e.requirement) is Some,
        is_rewritable(s, e, new),
        is_quotation_mark(s[e.from - 1]),
        string_token(s, e.from - 1, s.len() as int) matches Some(token) && token.inner_end == e.to
            && token.value == e.requirement,
    ensures
        is_restring(
            s,
            e.from,
            e.to,
            rewritten_string(s, e, new),
            repinned(e.requirement, new),
        ),
{
    let f = e.from;
    let g = e.to;
    let r = rewritten_string(s, e, new);
    let (a, b) = specifier_span(e.requirement)->0;
    let (i, j) = pin_place(e);
    lemma_repinned(e.requirement, new);
    lemma_same_edit(s, e, new);
    lemma_string_token(s, f - 1, s.len() as int);
    if s[f - 1] == '\'' {
        lemma_index_of(s, '\'', f, s.len() as int);
        assert(e.requirement == s.subrange(f, g));
        assert forall|p: int| 0 <= p < e.requirement.len() implies #[trigger] e.requirement[p]
            != '\'' by {
            assert(e.requirement[p] == s[f + p]);
        }
        lemma_repinned_without(e.requirement, a, b, new);
        lemma_literal_written(s, f, g, r);
    } else {
        lemma_quoted_written(s, f, g, r, i, j, new, repinned(e.requirement, new));
    }
}

/// A line reaches over what holds no line feed.
proof fn lemma_line_over(s: Seq<char>, from: int, q: int, g: int)
    requires
        0 <= from <= q < line_end(s, from),
        q <= g <= s.len(),
        forall|p: int| q <= p < g ==> #[trigger] s[p] != '\n',
    ensures
        g <= line_end(s, from) <= s.len(),
{
    lemma_index_of(s, '\n', from, s.len() as int);
    if line_end(s, from) < g {
        assert(s[line_end(s, from) - 1] == '\n');
    }
}

/// What stands in one line at `f..g`: specifiers, behind a quotation mark.
spec fn is_in_line(s: Seq<char>, f: int, g: int, i: int, j: int, new: Seq<char>) -> bool {
    &&& is_repin(s, i, j, new)
    &&& 0 < f < i
    &&& j <= g < s.len()
    &&& is_quotation_mark(s[f - 1])
    &&& s[i - 1] != '\\'
    &&& forall|p: int| f - 1 <= p < g ==> #[trigger] s[p] != '\n'
}

/// The entries behind a list that holds replaced specifiers are moved.
proof fn lemma_rest_moved(
    s: Seq<char>,
    f: int,
    g: int,
    i: int,
    j: int,
    new: Seq<char>,
    from: int,
    end: int,
    section: Option<Seq<char>>,
)
    requires
        is_in_line(s, f, g, i, j, new),
        0 <= from < f <= end,
        is_quiet(s, from, end),
    ensures
        project_entries(replaced(s, i, j, new), from, section) == moved_entries(
            project_entries(s, from, section),
            shift(i, j, new),
            byte_shift(s, i, j, new),
        ),
    decreases s.len() - from,
{
    lemma_replaced(s, i, j, new);
    let t = replaced(s, i, j, new);
    let next = line_end(s, from);
    lemma_project_step(s, from, section);
    lemma_project_step(t, from, section);
    let rest = project_entries(s, next, section);
    assert(begun_entries(s, from, section) + rest =~= rest);
    if next < f {
        lemma_line_ahead(s, i, j, new, from);
        lemma_rest_moved(s, f, g, i, j, new, next, end, section);
    } else {
        lemma_line_over(s, from, f - 1, g);
        lemma_line_here(s, i, j, new, from, f - 1);
        lemma_project_behind(s, i, j, new, next, section);
    }
    let rest2 = project_entries(t, line_end(t, from), section);
    assert(begun_entries(t, from, section) + rest2 =~= rest2);
}

/// The entries of the list that a line ahead of replaced specifiers begins stay,
/// where the list ends before them.
proof fn lemma_begun_ahead(
    s: Seq<char>,
    f: int,
    g: int,
    r: Seq<char>,
    i: int,
    j: int,
    new: Seq<char>,
    from: int,
    section: Option<Seq<char>>,
)
    requires
        is_repin(s, i, j, new),
        is_edit(s, f, g, r),
        replaced(s, f, g, r) == replaced(s, i, j, new),
        0 <= from < s.len(),
        line_end(s, from) <= i,
        begun_list(s, from, section) matches Some(start) ==> (array_end(s, start) matches Some(end)
            && end < f),
    ensures
        begun_entries(replaced(s, i, j, new), from, section) == begun_entries(s, from, section),
        section_behind(replaced(s, i, j, new), from, section) == section_behind(s, from, section),
        line_end(replaced(s, i, j, new), from) == line_end(s, from),
{
    lemma_line_ahead(s, i, j, new, from);
    if let Some(start) = begun_list(s, from, section) {
        let end = array_end(s, start)->0;
        lemma_array_before(s, f, g, r, start, 0);
        lemma_list_same(
            s,
            f,
            g,
            r,
            start,
            end,
            section_label(section->0, list_key(s, from)),
        );
    }
}

/// The specifiers of an entry that can be rewritten stand in one line.
proof fn lemma_in_line(s: Seq<char>, e: PythonEntryView, new: Seq<char>)
    requires
        is_pin(new),
        0 < e.from <= e.to < s.len(),
        stands_as_read(s, e),
        is_readable(e.requirement),
        specifier_span(e.requirement) is Some,
        is_rewritable(s, e, new),
        is_quotation_mark(s[e.from - 1]),
    ensures
        is_in_line(s, e.from, e.to, pin_place(e).0, pin_place(e).1, new),
{
    let (i, j) = pin_place(e);
    let f = e.from;
    let g = e.to;
    lemma_same_edit(s, e, new);
    let end = f + specifiers_end(e.requirement);
    assert(s.subrange(f, if end < g { end } else { g })[i - 1 - f] == s[i - 1]);
}

/// The entries of the list whose specifiers are replaced.
proof fn lemma_list_here(
    s: Seq<char>,
    start: int,
    end: int,
    label: Seq<char>,
    k: int,
    new: Seq<char>,
)
    requires
        0 <= start,
        is_pin(new),
        array_end(s, start) == Some(end),
        0 <= k < list_entries(s, start, end, label).len(),
        ({
            let e = list_entries(s, start, end, label)[k];
            &&& stands_as_read(s, e)
            &&& is_rewritable(s, e, new)
            &&& reads_repinned(e, new)
        }),
    ensures
        ({
            let e = list_entries(s, start, end, label)[k];
            let (i, j) = pin_place(e);
            let t = replaced(s, i, j, new);
            let d = shift(i, j, new);
            &&& is_in_line(s, e.from, e.to, i, j, new)
            &&& start < e.from <= end
            &&& array_end(t, start) == Some(end + d)
            &&& list_entries(t, start, end + d, label) == repinned_entries(
                list_entries(s, start, end, label),
                k,
                new,
                d,
                byte_shift(s, i, j, new),
            )
        }),
{
    let e = list_entries(s, start, end, label)[k];
    let (i, j) = pin_place(e);
    let f = e.from;
    let g = e.to;
    let r = rewritten_string(s, e, new);
    lemma_closing_bracket(s, '[', ']', true, start, 0);
    lemma_list_reached(s, start, end, label, k);
    lemma_string_token(s, f - 1, s.len() as int);
    lemma_same_edit(s, e, new);
    lemma_in_line(s, e, new);
    lemma_restring(s, e, new);
    lemma_array_moved(s, f, g, r, repinned(e.requirement, new), start, 0);
    assert(array_end(replaced(s, f, g, r), start) == Some(end + shift(f, g, r)));
    lemma_list_repinned(s, new, r, start, end, label, k);
}

/// The line that begins a list with replaced specifiers begins it still, and what
/// stands behind the list is moved.
proof fn lemma_begun_line(
    s: Seq<char>,
    f: int,
    g: int,
    i: int,
    j: int,
    new: Seq<char>,
    from: int,
    end: int,
    section: Option<Seq<char>>,
)
    requires
        is_in_line(s, f, g, i, j, new),
        0 <= from < f <= end,
        begun_list(s, from, section) matches Some(start) && start < f,
        is_quiet(s, line_end(s, from), end),
    ensures
        ({
            let t = replaced(s, i, j, new);
            &&& begun_list(t, from, section) == begun_list(s, from, section)
            &&& list_key(t, from) == list_key(s, from)
            &&& section_behind(t, from, section) == section
            &&& section_behind(s, from, section) == section
            &&& project_entries(t, line_end(t, from), section) == moved_entries(
                project_entries(s, line_end(s, from), section),
                shift(i, j, new),
                byte_shift(s, i, j, new),
            )
        }),
{
    lemma_line_end(s, from);
    let next = line_end(s, from);
    if next < f {
        lemma_line_ahead(s, i, j, new, from);
        lemma_rest_moved(s, f, g, i, j, new, next, end, section);
    } else {
        lemma_line_over(s, from, f - 1, g);
        lemma_line_here(s, i, j, new, from, f - 1);
        lemma_project_behind(s, i, j, new, next, section);
    }
}

/// A list that begins before the entry at `m`, on the line before, ends before it.
proof fn lemma_list_ahead(s: Seq<char>, from: int, section: Option<Seq<char>>, m: int)
    requires
        0 <= from < s.len(),
        lists_apart(s, from, section),
        0 <= m < project_entries(s, line_end(s, from), section_behind(s, from, section)).len(),
    ensures
        ({
            let e = project_entries(s, line_end(s, from), section_behind(s, from, section))[m];
            &&& line_end(s, from) < e.from
            &&& begun_list(s, from, section) matches Some(start) ==> (array_end(
                s,
                start,
            ) matches Some(end) && end < e.from)
        }),
{
    lemma_line_end(s, from);
    let next = line_end(s, from);
    lemma_project_bounds(s, next, section_behind(s, from, section));
    if let Some(start) = begun_list(s, from, section) {
        lemma_bracket_bounds(s, from);
        lemma_closing_bracket(s, '[', ']', true, start, 0);
        lemma_quiet_bounds(s, next, array_end(s, start)->0, section);
    }
}

/// An entry of a project file stands in the text, and is made of its requirement.
pub(crate) proof fn lemma_project_entry(s: Seq<char>, from: int, section: Option<Seq<char>>, k: int)
    requires
        0 <= from <= s.len(),
        0 <= k < project_entries(s, from, section).len(),
    ensures
        ({
            let e = project_entries(s, from, section)[k];
            &&& 0 < e.from <= e.to < s.len()
            &&& is_quotation_mark(s[e.from - 1])
            &&& is_placed(s, e)
        }),
    decreases s.len() - from,
{
    lemma_project_step(s, from, section);
    let next = line_end(s, from);
    let behind = section_behind(s, from, section);
    let here = begun_entries(s, from, section);
    let rest = project_entries(s, next, behind);
    if k < here.len() {
        assert((here + rest)[k] == here[k]);
        let start = begun_list(s, from, section)->0;
        let end = array_end(s, start)->0;
        let label = section_label(section->0, list_key(s, from));
        lemma_bracket_bounds(s, from);
        lemma_closing_bracket(s, '[', ']', true, start, 0);
        lemma_list_reached(s, start, end, label, k);
        lemma_string_token(s, here[k].from - 1, s.len() as int);
    } else {
        assert((here + rest)[k] == rest[k - here.len()]);
        lemma_project_entry(s, next, behind, k - here.len());
    }
}

/// Where the specifiers of one entry of a project file are replaced, the entry has
/// the new ones, and the other entries are as before.
pub proof fn lemma_project_repinned(
    s: Seq<char>,
    from: int,
    section: Option<Seq<char>>,
    k: int,
    new: Seq<char>,
)
    requires
        0 <= from <= s.len(),
        is_pin(new),
        lists_apart(s, from, section),
        0 <= k < project_entries(s, from, section).len(),
        ({
            let e = project_entries(s, from, section)[k];
            &&& stands_as_read(s, e)
            &&& is_rewritable(s, e, new)
            &&& reads_repinned(e, new)
        }),
    ensures
        ({
            let e = project_entries(s, from, section)[k];
            let (i, j) = pin_place(e);
            &&& is_repin(s, i, j, new)
            &&& project_entries(replaced(s, i, j, new), from, section) == repinned_entries(
                project_entries(s, from, section),
                k,
                new,
                shift(i, j, new),
                byte_shift(s, i, j, new),
            )
        }),
    decreases s.len() - from,
{
    let e = project_entries(s, from, section)[k];
    let (i, j) = pin_place(e);
    let t = replaced(s, i, j, new);
    let d = shift(i, j, new);
    let bytes = byte_shift(s, i, j, new);
    lemma_project_step(s, from, section);
    let next = line_end(s, from);
    let behind = section_behind(s, from, section);
    let here = begun_entries(s, from, section);
    let rest = project_entries(s, next, behind);
    if k < here.len() {
        assert((here + rest)[k] == here[k]);
        let start = begun_list(s, from, section)->0;
        let end = array_end(s, start)->0;
        let label = section_label(section->0, list_key(s, from));
        lemma_bracket_bounds(s, from);
        lemma_list_here(s, start, end, label, k, new);
        lemma_begun_line(s, e.from, e.to, i, j, new, from, end, section);
        lemma_repinned_first(here, rest, k, new, d, bytes);
        assert(begun_entries(t, from, section) == repinned_entries(here, k, new, d, bytes));
    } else {
        let m = k - here.len();
        lemma_repinned_second(here, rest, k, new, d, bytes);
        lemma_list_ahead(s, from, section, m);
        lemma_project_repinned(s, next, behind, m, new);
        lemma_project_entry(s, next, behind, m);
        lemma_same_edit(s, e, new);
        let r = rewritten_string(s, e, new);
        lemma_begun_ahead(s, e.from, e.to, r, i, j, new, from, section);
    }
    lemma_replaced(s, i, j, new);
    lemma_project_step(t, from, section);
}

} // verus!
