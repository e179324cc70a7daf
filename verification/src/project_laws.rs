//! What is read of Python project files as they are written.

use crate::cargo_laws::{
    assigned_head, heading_line, heading_text, is_assignment, is_heading, is_odd, is_section_name,
    is_tail, is_tidy_char, key_text, lemma_assigned_head, lemma_even, lemma_heading_line,
    lemma_named, lemma_odd, lemma_quoted_at, lemma_trimmed_heading, Assignment, Heading,
};
use crate::edits::in_quotation_marks;
use crate::joined::lemma_line_first;
use crate::lines::{lemma_line_end, line_at, line_end, without_line_break};
use crate::manifest::{
    manifest_dependencies, python_dependencies, DependencyView, ManifestKind,
};
use crate::markers::{lemma_stands, lemma_stands_parts, stands};
use crate::npm_laws::{
    is_plain, is_space, lemma_bytes_behind, lemma_mark_byte, lemma_past, lemma_token,
};
use crate::python::{
    array_entries, is_mark_at, is_requirements_key, line_array, listed, pyproject_arrays,
    pyproject_entries, section_label, string_token, string_tokens, token_entries, token_entry,
    toml_section, ArrayView, PythonEntryView,
};
use crate::python_laws::{is_line_ending, lemma_entry, requirement_dependencies, lemma_trimmed_lead};
use crate::requirement::is_quotation_mark;
use crate::scan::{
    array_end, closing_bracket, is_unquoted, json_token, literal_token, past_space, unquoted_index,
    without_comment, TokenView,
};
use crate::tables::is_bare;
use crate::text::{
    byte_len, byte_offset, first_index, index_of, is_ascii_whitespace, is_whitespace,
    lemma_first_index, lemma_index_of, lemma_trimmed_end, trimmed, trimmed_start,
};
use crate::toml::{is_key_char, normalized_key};
use crate::written::{is_clean_char, is_written, lemma_clean, requirement_text, Written};
use vstd::prelude::*;

verus! {

// ---------------------------------------------------------------------------
// Lists as they are written
// ---------------------------------------------------------------------------

/// A requirement between quotation marks or apostrophes, with the space around it.
pub struct Item {
    pub lead: Seq<char>,
    pub quote: char,
    pub requirement: Written,
    pub behind: Seq<char>,
}

/// The string of an item.
pub open spec fn item_string(item: Item) -> Seq<char> {
    seq![item.quote] + requirement_text(item.requirement) + seq![item.quote]
}

/// An item in writing.
pub open spec fn item_text(item: Item) -> Seq<char> {
    item.lead + item_string(item) + item.behind
}

/// Items in writing, separated by commas.
pub open spec fn items_text(items: Seq<Item>) -> Seq<char>
    decreases items.len(),
{
    if items.len() == 0 {
        Seq::empty()
    } else if items.len() == 1 {
        item_text(items[0])
    } else {
        item_text(items[0]) + seq![','] + items_text(items.drop_first())
    }
}

/// A list in writing: items, perhaps a comma behind the last, and space.
pub open spec fn list_text(items: Seq<Item>, end: Seq<char>) -> Seq<char> {
    seq!['['] + items_text(items) + end + seq![']']
}

/// A requirement that its quotation marks do not interrupt, and that is read from
/// between them as it stands.
pub open spec fn is_quotable(text: Seq<char>, quote: char) -> bool {
    &&& quote == '"' ==> is_plain(text)
    &&& quote == '\'' ==> !text.contains('\'')
    &&& quote == '"' || quote == '\''
}

/// An item that is written as it should be.
pub open spec fn is_item(item: Item) -> bool {
    &&& is_space(item.lead) && is_space(item.behind)
    &&& is_written(item.requirement)
    &&& is_quotable(requirement_text(item.requirement), item.quote)
}

/// Items that are written as they should be.
pub open spec fn are_items(items: Seq<Item>) -> bool {
    forall|i: int| 0 <= i < items.len() ==> is_item(#[trigger] items[i])
}

/// What can stand behind the last item: space, and a comma before it.
pub open spec fn is_list_end(end: Seq<char>) -> bool {
    is_space(end) || (end.len() > 0 && end[0] == ',' && is_space(end.drop_first()))
}

/// The dependencies of items, of which the first begins at the byte `at`.
pub open spec fn item_dependencies(items: Seq<Item>, section: Seq<char>, at: int) -> Seq<
    DependencyView,
>
    decreases items.len(),
{
    if items.len() == 0 {
        Seq::empty()
    } else {
        requirement_dependencies(
            items[0].requirement,
            section,
            at + byte_len(items[0].lead) + 1,
        ) + item_dependencies(
            items.drop_first(),
            section,
            at + byte_len(item_text(items[0])) + 1,
        )
    }
}

// ---------------------------------------------------------------------------
// The strings of a list
// ---------------------------------------------------------------------------

/// The token of an item's string.
pub open spec fn item_token(p: int, item: Item) -> TokenView {
    let n = requirement_text(item.requirement).len();
    TokenView {
        value: requirement_text(item.requirement),
        inner_start: p + item.lead.len() + 1,
        inner_end: p + item.lead.len() + 1 + n,
        outer_end: p + item.lead.len() + 2 + n,
    }
}

/// Where the parts of an item stand.
proof fn lemma_item_parts(s: Seq<char>, p: int, item: Item)
    requires
        stands(s, p, item_text(item)),
    ensures
        ({
            let a = p + item.lead.len();
            let r = requirement_text(item.requirement);
            let b = a + 2 + r.len();
            &&& stands(s, p, item.lead)
            &&& stands(s, a, item_string(item))
            &&& stands(s, a + 1, r)
            &&& a < s.len() && s[a] == item.quote
            &&& b - 1 < s.len() && s[b - 1] == item.quote
            &&& stands(s, b, item.behind)
            &&& b + item.behind.len() == p + item_text(item).len()
        }),
{
    let a = p + item.lead.len();
    let r = requirement_text(item.requirement);
    let q = seq![item.quote];
    lemma_stands_parts(s, p, item.lead + item_string(item), item.behind);
    lemma_stands_parts(s, p, item.lead, item_string(item));
    lemma_stands_parts(s, a, q + r, q);
    lemma_stands_parts(s, a, q, r);
    lemma_stands(s, a, q);
    lemma_stands(s, a + 1 + r.len(), q);
    assert(s[a] == q[0]);
    assert(s[a + 1 + r.len()] == q[0]);
}

/// The string of an item is found as it stands.
proof fn lemma_item_token(s: Seq<char>, p: int, item: Item, to: int)
    requires
        is_item(item),
        stands(s, p, item_text(item)),
        p + item_text(item).len() <= to,
    ensures
        string_token(s, p + item.lead.len(), to) == Some(item_token(p, item)),
        item.quote == '"' ==> json_token(s, p + item.lead.len(), to) == Some(item_token(p, item)),
        item.quote == '\'' ==> literal_token(s, p + item.lead.len(), to) == Some(
            item_token(p, item),
        ),
{
    let a = p + item.lead.len();
    let r = requirement_text(item.requirement);
    lemma_item_parts(s, p, item);
    if item.quote == '"' {
        assert(item_string(item) == in_quotation_marks(r));
        lemma_token(s, a, r, to);
    } else {
        let end = a + 1 + r.len();
        lemma_index_of(s, '\'', a + 1, to);
        lemma_stands(s, a + 1, r);
        assert forall|k: int| a + 1 <= k < end implies #[trigger] s[k] != '\'' by {
            assert(s[k] == r[k - a - 1]);
            if s[k] == '\'' {
                assert(r.contains('\''));
            }
        }
        assert(index_of(s, '\'', a + 1, to) == Some(end));
    }
}

/// Space holds no marks.
proof fn lemma_blank(s: Seq<char>, p: int, space: Seq<char>)
    requires
        is_space(space),
        stands(s, p, space),
    ensures
        forall|k: int| p <= k < p + space.len() ==> is_ascii_whitespace(#[trigger] s[k]),
{
    lemma_stands(s, p, space);
    assert forall|k: int| p <= k < p + space.len() implies is_ascii_whitespace(#[trigger] s[k]) by {
        assert(s[k] == space[k - p]);
    }
}

/// Strings are looked for behind what holds no marks.
proof fn lemma_tokens_from(s: Seq<char>, p: int, q: int, to: int)
    requires
        p <= q <= to,
        forall|k: int| p <= k < q ==> !is_quotation_mark(#[trigger] s[k]) && s[k] != '#',
    ensures
        string_tokens(s, p, to) == string_tokens(s, q, to),
{
    let m = is_mark_at(s);
    lemma_first_index(m, p, to);
    lemma_first_index(m, q, to);
    assert forall|k: int| p <= k < q implies !(#[trigger] m(k)) by {
        assert(!is_quotation_mark(s[k]));
    }
    assert(first_index(m, p, to) == first_index(m, q, to)) by {
        match first_index(m, p, to) {
            Some(i) => {
                assert(m(i));
                assert(q <= i);
            },
            None => {},
        }
        match first_index(m, q, to) {
            Some(i) => {
                assert(m(i));
            },
            None => {},
        }
    }
}

/// The entries of strings, the first of them apart.
proof fn lemma_token_entries(s: Seq<char>, t: TokenView, rest: Seq<TokenView>, section: Seq<char>)
    ensures
        token_entries(s, seq![t] + rest, section) == listed(token_entry(s, t, section))
            + token_entries(s, rest, section),
    decreases rest.len(),
{
    let all = seq![t] + rest;
    let first = listed(token_entry(s, t, section));
    if rest.len() == 0 {
        reveal_with_fuel(token_entries, 2);
        assert(all.drop_last() =~= Seq::<TokenView>::empty());
        assert(all.last() == t);
        assert(token_entries(s, all, section) =~= first + token_entries(s, rest, section));
    } else {
        assert(all.drop_last() =~= seq![t] + rest.drop_last());
        assert(all.last() == rest.last());
        lemma_token_entries(s, t, rest.drop_last(), section);
        assert(first + (token_entries(s, rest.drop_last(), section) + listed(
            token_entry(s, rest.last(), section),
        )) =~= first + token_entries(s, rest.drop_last(), section) + listed(
            token_entry(s, rest.last(), section),
        ));
    }
}

/// The dependency of an item.
proof fn lemma_item_entry(s: Seq<char>, p: int, item: Item, section: Seq<char>)
    requires
        is_item(item),
        stands(s, p, item_text(item)),
    ensures
        python_dependencies(listed(token_entry(s, item_token(p, item), section)))
            == requirement_dependencies(
            item.requirement,
            section,
            byte_offset(s, p) as int + byte_len(item.lead) + 1,
        ),
        byte_offset(s, p + item_text(item).len()) == byte_offset(s, p) + byte_len(item_text(item)),
{
    let a = p + item.lead.len();
    let r = requirement_text(item.requirement);
    lemma_item_parts(s, p, item);
    lemma_bytes_behind(s, p, item.lead);
    assert(stands(s, a, seq![item.quote])) by {
        lemma_stands(s, a, seq![item.quote]);
    }
    lemma_bytes_behind(s, a, seq![item.quote]);
    lemma_mark_byte(item.quote);
    lemma_bytes_behind(s, p, item_text(item));
    lemma_entry(
        item.requirement,
        section,
        byte_offset(s, a + 1) as int,
        a + 1,
        a + 1 + r.len(),
    );
}

/// Python dependencies are put together as their entries are.
proof fn lemma_dependencies(a: Seq<PythonEntryView>, b: Seq<PythonEntryView>)
    ensures
        python_dependencies(a + b) == python_dependencies(a) + python_dependencies(b),
{
    assert(python_dependencies(a + b) =~= python_dependencies(a) + python_dependencies(b));
}

/// What stands behind the last item holds no marks.
proof fn lemma_end_blank(s: Seq<char>, p: int, end: Seq<char>)
    requires
        is_list_end(end),
        stands(s, p, end),
    ensures
        forall|k: int|
            p <= k < p + end.len() ==> is_ascii_whitespace(#[trigger] s[k]) || s[k] == ',',
{
    lemma_stands(s, p, end);
    assert forall|k: int| p <= k < p + end.len() implies is_ascii_whitespace(#[trigger] s[k])
        || s[k] == ',' by {
        assert(s[k] == end[k - p]);
        if !is_space(end) && k > p {
            assert(end.drop_first()[k - p - 1] == end[k - p]);
        }
    }
}

/// The items of a list are read.
#[verifier::rlimit(40)]
proof fn lemma_items_read(
    s: Seq<char>,
    p: int,
    items: Seq<Item>,
    end: Seq<char>,
    section: Seq<char>,
)
    requires
        are_items(items),
        is_list_end(end),
        stands(s, p, items_text(items) + end),
    ensures
        python_dependencies(
            token_entries(
                s,
                string_tokens(s, p, p + (items_text(items) + end).len()),
                section,
            ),
        ) == item_dependencies(items, section, byte_offset(s, p) as int),
    decreases items.len(),
{
    let to = p + (items_text(items) + end).len();
    lemma_stands_parts(s, p, items_text(items), end);
    lemma_end_blank(s, p + items_text(items).len(), end);
    if items.len() == 0 {
        lemma_tokens_from(s, p, to, to);
        assert(string_tokens(s, to, to) =~= Seq::<TokenView>::empty());
        assert(python_dependencies(token_entries(s, string_tokens(s, p, to), section))
            =~= item_dependencies(items, section, byte_offset(s, p) as int));
    } else {
        let item = items[0];
        let t = item_text(item);
        let rest = items.drop_first();
        assert(is_item(item));
        assert forall|i: int| 0 <= i < rest.len() implies is_item(#[trigger] rest[i]) by {
            assert(rest[i] == items[i + 1]);
        }
        let token = item_token(p, item);
        let next = token.outer_end;
        let at = byte_offset(s, p) as int;
        if items.len() == 1 {
            lemma_item_parts(s, p, item);
            lemma_blank(s, next, item.behind);
            lemma_tokens_from(s, next, to, to);
            assert(string_tokens(s, to, to) =~= Seq::<TokenView>::empty());
            assert(python_dependencies(token_entries(s, string_tokens(s, next, to), section))
                =~= item_dependencies(rest, section, at + byte_len(t) + 1));
        } else {
            lemma_stands_parts(s, p, t + seq![','], items_text(rest));
            lemma_stands_parts(s, p, t, seq![',']);
            lemma_item_parts(s, p, item);
            lemma_blank(s, next, item.behind);
            let q = p + t.len() + 1;
            lemma_stands(s, p + t.len(), seq![',']);
            assert(s[p + t.len()] == seq![','][0]);
            lemma_stands_parts(s, q, items_text(rest), end);
            lemma_tokens_from(s, next, q, to);
            lemma_items_read(s, q, rest, end, section);
            lemma_bytes_behind(s, p + t.len(), seq![',']);
            lemma_mark_byte(',');
        }
        lemma_item_entry(s, p, item, section);
        lemma_item_tokens(s, p, item, to);
        let tail = string_tokens(s, next, to);
        lemma_token_entries(s, token, tail, section);
        lemma_dependencies(
            listed(token_entry(s, token, section)),
            token_entries(s, tail, section),
        );
    }
}

/// The first string of a list is its first item's.
proof fn lemma_item_tokens(s: Seq<char>, p: int, item: Item, to: int)
    requires
        is_item(item),
        stands(s, p, item_text(item)),
        p + item_text(item).len() <= to,
    ensures
        string_tokens(s, p, to) == seq![item_token(p, item)] + string_tokens(
            s,
            item_token(p, item).outer_end,
            to,
        ),
{
    let a = p + item.lead.len();
    lemma_item_parts(s, p, item);
    lemma_blank(s, p, item.lead);
    lemma_tokens_from(s, p, a, to);
    lemma_item_token(s, p, item, to);
    let m = is_mark_at(s);
    assert(m(a));
    assert(first_index(m, a, to) == Some(a));
}

// ---------------------------------------------------------------------------
// The end of a list
// ---------------------------------------------------------------------------

/// Where no strings, comments and brackets stand, no bracket is closed.
proof fn lemma_flat(s: Seq<char>, p: int, q: int, depth: nat)
    requires
        0 <= p <= q <= s.len(),
        forall|k: int| p <= k < q ==> is_ascii_whitespace(#[trigger] s[k]) || s[k] == ',',
    ensures
        closing_bracket(s, '[', ']', true, p, depth) == closing_bracket(
            s,
            '[',
            ']',
            true,
            q,
            depth,
        ),
    decreases q - p,
{
    if p < q {
        assert(is_ascii_whitespace(s[p]) || s[p] == ',');
        lemma_flat(s, p + 1, q, depth);
    }
}

/// An item closes no bracket.
proof fn lemma_item_bracket(s: Seq<char>, p: int, item: Item, depth: nat)
    requires
        is_item(item),
        stands(s, p, item_text(item)),
    ensures
        closing_bracket(s, '[', ']', true, p, depth) == closing_bracket(
            s,
            '[',
            ']',
            true,
            p + item_text(item).len(),
            depth,
        ),
{
    let a = p + item.lead.len();
    lemma_item_parts(s, p, item);
    lemma_blank(s, p, item.lead);
    lemma_flat(s, p, a, depth);
    lemma_item_token(s, p, item, s.len() as int);
    let b = item_token(p, item).outer_end;
    lemma_blank(s, b, item.behind);
    lemma_flat(s, b, b + item.behind.len(), depth);
}

/// Items close no bracket.
proof fn lemma_items_bracket(s: Seq<char>, p: int, items: Seq<Item>, depth: nat)
    requires
        are_items(items),
        stands(s, p, items_text(items)),
    ensures
        closing_bracket(s, '[', ']', true, p, depth) == closing_bracket(
            s,
            '[',
            ']',
            true,
            p + items_text(items).len(),
            depth,
        ),
    decreases items.len(),
{
    if items.len() == 1 {
        lemma_item_bracket(s, p, items[0], depth);
    } else if items.len() > 1 {
        let t = item_text(items[0]);
        let rest = items.drop_first();
        assert forall|i: int| 0 <= i < rest.len() implies is_item(#[trigger] rest[i]) by {
            assert(rest[i] == items[i + 1]);
        }
        lemma_stands_parts(s, p, t + seq![','], items_text(rest));
        lemma_stands_parts(s, p, t, seq![',']);
        lemma_stands(s, p + t.len(), seq![',']);
        assert(s[p + t.len()] == seq![','][0]);
        lemma_item_bracket(s, p, items[0], depth);
        lemma_flat(s, p + t.len(), p + t.len() + 1, depth);
        lemma_items_bracket(s, p + t.len() + 1, rest, depth);
    }
}

/// A list ends at its bracket, and its strings are its items'.
proof fn lemma_list(s: Seq<char>, p: int, items: Seq<Item>, end: Seq<char>, section: Seq<char>)
    requires
        are_items(items),
        is_list_end(end),
        stands(s, p, list_text(items, end)),
    ensures
        ({
            let close = p + 1 + items_text(items).len() + end.len();
            &&& s[p] == '['
            &&& array_end(s, p) == Some(close)
            &&& python_dependencies(
                token_entries(s, string_tokens(s, p, close), section),
            ) == item_dependencies(items, section, byte_offset(s, p) as int + 1)
        }),
{
    let inner = items_text(items);
    let close = p + 1 + inner.len() + end.len();
    lemma_stands_parts(s, p, seq!['['] + inner + end, seq![']']);
    lemma_stands_parts(s, p, seq!['['] + inner, end);
    lemma_stands_parts(s, p, seq!['['], inner);
    lemma_stands_parts(s, p + 1, inner, end);
    lemma_stands(s, p, seq!['[']);
    lemma_stands(s, close, seq![']']);
    assert(s[p] == seq!['['][0]);
    assert(s[close] == seq![']'][0]);
    lemma_items_bracket(s, p + 1, items, 1);
    lemma_end_blank(s, p + 1 + inner.len(), end);
    lemma_flat(s, p + 1 + inner.len(), close, 1);
    assert(closing_bracket(s, '[', ']', true, p, 0) == closing_bracket(
        s,
        '[',
        ']',
        true,
        p + 1,
        1,
    ));
    assert(closing_bracket(s, '[', ']', true, close, 1) == Some(close));
    lemma_tokens_from(s, p, p + 1, close);
    lemma_items_read(s, p + 1, items, end, section);
    lemma_bytes_behind(s, p, seq!['[']);
    lemma_mark_byte('[');
}

// ---------------------------------------------------------------------------
// The lines of a list
// ---------------------------------------------------------------------------

/// All items are between quotation marks.
pub open spec fn are_double(items: Seq<Item>) -> bool {
    forall|i: int| 0 <= i < items.len() ==> (#[trigger] items[i]).quote == '"'
}

/// A list stands on one line.
pub open spec fn is_single_line(text: Seq<char>) -> bool {
    forall|i: int| 0 <= i < text.len() ==> #[trigger] text[i] != '\n' && text[i] != '\r'
}

/// Between quotation marks no line ends; outside them only space, commas and
/// quotation marks stand.
pub open spec fn is_orderly(s: Seq<char>, a: int, x: int) -> bool {
    &&& s[x] != '\\' && s[x] != '#'
    &&& is_odd(s.subrange(a, x)) ==> s[x] != '\n' && s[x] != '\r'
    &&& !is_odd(s.subrange(a, x)) ==> is_ascii_whitespace(s[x]) || s[x] == ',' || s[x] == '"'
}

/// Quotation marks are counted over a stretch.
proof fn lemma_odd_behind(s: Seq<char>, a: int, p: int, part: Seq<char>)
    requires
        0 <= a <= p,
        stands(s, p, part),
    ensures
        is_odd(s.subrange(a, p + part.len())) == (is_odd(s.subrange(a, p)) != is_odd(part)),
{
    assert(s.subrange(a, p + part.len()) =~= s.subrange(a, p) + s.subrange(p, p + part.len()));
    lemma_odd(s.subrange(a, p), part);
}

/// Space and commas are orderly, and open nothing.
proof fn lemma_orderly_space(s: Seq<char>, a: int, p: int, space: Seq<char>, x: int)
    requires
        0 <= a <= p,
        stands(s, p, space),
        forall|i: int|
            0 <= i < space.len() ==> is_ascii_whitespace(#[trigger] space[i]) || space[i] == ',',
        !is_odd(s.subrange(a, p)),
    ensures
        p <= x < p + space.len() ==> is_orderly(s, a, x),
        !is_odd(s.subrange(a, p + space.len())),
{
    lemma_even(space);
    lemma_odd_behind(s, a, p, space);
    if p <= x < p + space.len() {
        let part = space.take(x - p);
        assert(s.subrange(p, x) =~= s.subrange(p, p + space.len()).take(x - p));
        assert(stands(s, p, part));
        lemma_even(part);
        lemma_odd_behind(s, a, p, part);
        lemma_stands(s, p, space);
        assert(s[x] == space[x - p]);
    }
}

/// One quotation mark is odd.
proof fn lemma_odd_mark()
    ensures
        is_odd(seq!['"']),
{
    reveal_with_fuel(is_odd, 2);
    assert(seq!['"'].drop_last() =~= Seq::<char>::empty());
}

/// A string is orderly, and closes what it opens.
proof fn lemma_orderly_string(s: Seq<char>, a: int, p: int, w: Written, x: int)
    requires
        0 <= a <= p,
        is_written(w),
        is_plain(requirement_text(w)),
        stands(s, p, in_quotation_marks(requirement_text(w))),
        !is_odd(s.subrange(a, p)),
    ensures
        p <= x < p + requirement_text(w).len() + 2 ==> is_orderly(s, a, x),
        !is_odd(s.subrange(a, p + requirement_text(w).len() + 2)),
{
    let r = requirement_text(w);
    let q = seq!['"'];
    let end = p + 1 + r.len();
    lemma_stands_parts(s, p, q + r, q);
    lemma_stands_parts(s, p, q, r);
    lemma_odd_mark();
    lemma_odd_behind(s, a, p, q);
    lemma_even(r);
    lemma_odd_behind(s, a, p + 1, r);
    lemma_odd_behind(s, a, end, q);
    lemma_stands(s, p, q);
    lemma_stands(s, end, q);
    assert(s[p] == q[0]);
    assert(s[end] == q[0]);
    lemma_clean(w);
    if p < x < end {
        let part = r.take(x - p - 1);
        assert(s.subrange(p + 1, x) =~= s.subrange(p + 1, end).take(x - p - 1));
        assert(stands(s, p + 1, part));
        lemma_even(part);
        lemma_odd_behind(s, a, p + 1, part);
        lemma_stands(s, p + 1, r);
        assert(s[x] == r[x - p - 1]);
        assert(is_clean_char(r[x - p - 1]));
    }
}

/// Items are orderly, and close what they open.
proof fn lemma_orderly_items(s: Seq<char>, a: int, p: int, items: Seq<Item>, x: int)
    requires
        0 <= a <= p,
        are_items(items),
        are_double(items),
        stands(s, p, items_text(items)),
        !is_odd(s.subrange(a, p)),
    ensures
        p <= x < p + items_text(items).len() ==> is_orderly(s, a, x),
        !is_odd(s.subrange(a, p + items_text(items).len())),
    decreases items.len(),
{
    if items.len() > 0 {
        let item = items[0];
        let t = item_text(item);
        assert(is_item(item));
        assert(item.quote == '"');
        if items.len() > 1 {
            let rest = items.drop_first();
            assert forall|i: int| 0 <= i < rest.len() implies is_item(#[trigger] rest[i])
                && rest[i].quote == '"' by {
                assert(rest[i] == items[i + 1]);
            }
            lemma_stands_parts(s, p, t + seq![','], items_text(rest));
            lemma_stands_parts(s, p, t, seq![',']);
            lemma_orderly_item(s, a, p, item, x);
            lemma_orderly_space(s, a, p + t.len(), seq![','], x);
            lemma_orderly_items(s, a, p + t.len() + 1, rest, x);
        } else {
            lemma_orderly_item(s, a, p, item, x);
        }
    }
}

/// An item is orderly, and closes what it opens.
proof fn lemma_orderly_item(s: Seq<char>, a: int, p: int, item: Item, x: int)
    requires
        0 <= a <= p,
        is_item(item),
        item.quote == '"',
        stands(s, p, item_text(item)),
        !is_odd(s.subrange(a, p)),
    ensures
        p <= x < p + item_text(item).len() ==> is_orderly(s, a, x),
        !is_odd(s.subrange(a, p + item_text(item).len())),
{
    let b = p + item.lead.len();
    let c = b + requirement_text(item.requirement).len() + 2;
    lemma_item_parts(s, p, item);
    assert(item_string(item) == in_quotation_marks(requirement_text(item.requirement)));
    lemma_orderly_space(s, a, p, item.lead, x);
    lemma_orderly_string(s, a, b, item.requirement, x);
    lemma_orderly_space(s, a, c, item.behind, x);
}

/// The inside of a list is orderly.
proof fn lemma_orderly(s: Seq<char>, a: int, items: Seq<Item>, end: Seq<char>)
    requires
        0 <= a,
        are_items(items),
        are_double(items),
        is_list_end(end),
        stands(s, a, list_text(items, end)),
    ensures
        ({
            let close = a + 1 + items_text(items).len() + end.len();
            &&& close < s.len()
            &&& s[close] == ']'
            &&& !is_odd(s.subrange(a, close))
            &&& forall|x: int| a < x < close ==> #[trigger] is_orderly(s, a, x)
        }),
{
    let inner = items_text(items);
    let b = a + 1;
    let c = b + inner.len();
    let close = c + end.len();
    lemma_stands_parts(s, a, seq!['['] + inner + end, seq![']']);
    lemma_stands_parts(s, a, seq!['['] + inner, end);
    lemma_stands_parts(s, a, seq!['['], inner);
    lemma_stands(s, close, seq![']']);
    assert(s[close] == seq![']'][0]);
    lemma_even(seq!['[']);
    lemma_odd_behind(s, a, a, seq!['[']);
    assert(s.subrange(a, a) =~= Seq::<char>::empty());
    assert forall|i: int| 0 <= i < end.len() implies is_ascii_whitespace(#[trigger] end[i])
        || end[i] == ',' by {
        if !is_space(end) && i > 0 {
            assert(end.drop_first()[i - 1] == end[i]);
        }
    }
    assert forall|x: int| a < x < close implies #[trigger] is_orderly(s, a, x) by {
        lemma_orderly_items(s, a, b, items, x);
        lemma_orderly_space(s, a, c, end, x);
    }
    lemma_orderly_items(s, a, b, items, b);
    lemma_orderly_space(s, a, c, end, c);
}

/// What stands behind a list: its line has nothing but blanks and a comment, and is
/// the last.
pub open spec fn is_last_line(s: Seq<char>, close: int, gap: int) -> bool {
    &&& 0 <= close < gap <= s.len()
    &&& s[close] == ']'
    &&& forall|k: int| close < k < gap ==> #[trigger] s[k] == ' ' || s[k] == '\t'
    &&& gap < s.len() ==> s[gap] == '#' || s[gap] == '\n' || s[gap] == '\r'
    &&& forall|k: int| gap <= k < s.len() && #[trigger] s[k] == '\n' ==> k == s.len() - 1
    &&& gap < s.len() && s[gap] == '\r' ==> gap + 2 == s.len() && s[gap + 1] == '\n'
}

/// A line in a list, but the first: it is no header and begins no list.
proof fn lemma_quiet_line(s: Seq<char>, a: int, close: int, gap: int, from: int, section: Seq<char>)
    requires
        0 <= a < from <= close,
        is_last_line(s, close, gap),
        forall|x: int| a < x < close ==> #[trigger] is_orderly(s, a, x),
        !is_odd(s.subrange(a, close)),
        !is_odd(s.subrange(a, from)),
    ensures
        line_array(s, from, section) is None,
        ({
            let header = trimmed(line_at(s, from));
            header.len() > 0 ==> header[0] != '['
        }),
        line_end(s, from) < s.len() ==> line_end(s, from) <= close && !is_odd(
            s.subrange(a, line_end(s, from)),
        ),
{
    let next = line_end(s, from);
    lemma_line_end(s, from);
    lemma_index_of(s, '\n', from, s.len() as int);
    let line = line_at(s, from);
    let n = line.len() as int;
    crate::cargo_edits::lemma_line_prefix(s.subrange(from, next));
    assert forall|k: int| 0 <= k < n implies #[trigger] line[k] == s[from + k] by {
        assert(line == s.subrange(from, next).take(n));
    }
    assert forall|k: int| 0 <= k <= n && from + k <= close implies is_odd(#[trigger] line.take(k))
        == is_odd(s.subrange(a, from + k)) by {
        assert(s.subrange(a, from + k) =~= s.subrange(a, from) + line.take(k));
        lemma_odd(s.subrange(a, from), line.take(k));
    }
    // Where the line ends.
    if next < s.len() {
        let x = next - 1;
        assert(s[x] == '\n');
        if x > close {
            assert(x >= gap ==> x == s.len() - 1);
            assert(x < gap ==> s[x] == ' ' || s[x] == '\t');
        }
        assert(x < close);
        assert(is_orderly(s, a, x));
        lemma_even(seq!['\n']);
        assert(s.subrange(x, x + 1) =~= seq!['\n']);
        lemma_odd_behind(s, a, x, seq!['\n']);
    }
    lemma_quiet_header(s, a, close, from, line);
    lemma_unbroken(s.subrange(from, next));
    assert forall|k: int| 0 <= k < n implies #[trigger] line[k] != '\n' by {
        assert(line[k] == s[from + k]);
        if s[from + k] == '\n' {
            assert(from + k == next - 1);
            assert(k == n - 1);
            assert(line.last() == line[k]);
        }
    }
    lemma_quiet_equals(s, a, close, gap, from, line);
}

/// A line without its line break does not end with one.
proof fn lemma_unbroken(line: Seq<char>)
    ensures
        ({
            let kept = without_line_break(line);
            kept.len() > 0 ==> kept.last() != '\n' && kept.last() != '\r'
        }),
    decreases line.len(),
{
    if line.len() > 0 && (line.last() == '\r' || line.last() == '\n') {
        lemma_unbroken(line.drop_last());
    }
}

/// A line in a list begins with no bracket.
proof fn lemma_quiet_header(s: Seq<char>, a: int, close: int, from: int, line: Seq<char>)
    requires
        0 <= a < from <= close < s.len(),
        s[close] == ']',
        from + line.len() <= s.len(),
        forall|k: int| 0 <= k < line.len() ==> #[trigger] line[k] == s[from + k],
        forall|x: int| a < x < close ==> #[trigger] is_orderly(s, a, x),
        !is_odd(s.subrange(a, from)),
    ensures
        trimmed(line).len() > 0 ==> trimmed(line)[0] != '[',
{
    crate::text::lemma_trimmed_start(line);
    let rest = trimmed_start(line);
    lemma_trimmed_end(rest);
    if trimmed(line).len() > 0 {
        let k = line.len() - rest.len();
        assert(rest[0] == line[k]);
        assert(line[k] == s[from + k]);
        lemma_blank_before(line, k);
        if from + k < close {
            let part = line.take(k);
            lemma_even(part);
            assert(s.subrange(from, from + k) =~= part);
            lemma_odd_behind(s, a, from, part);
            assert(is_orderly(s, a, from + k));
        } else if from + k > close {
            assert(line[close - from] == s[close]);
            assert(is_whitespace(line[close - from]));
        }
    }
}

/// What is trimmed is white space.
proof fn lemma_blank_before(line: Seq<char>, k: int)
    requires
        k == line.len() - trimmed_start(line).len(),
        0 <= k,
    ensures
        forall|i: int| 0 <= i < k ==> is_whitespace(#[trigger] line[i]) && line[i] != '"',
    decreases line.len(),
{
    crate::text::lemma_trimmed_start(line);
    if line.len() > 0 && is_whitespace(line[0]) {
        let rest = line.skip(1);
        crate::text::lemma_trimmed_start(rest);
        lemma_blank_before(rest, k - 1);
        assert forall|i: int| 0 <= i < k implies is_whitespace(#[trigger] line[i]) && line[i]
            != '"' by {
            if i > 0 {
                assert(rest[i - 1] == line[i]);
            }
        }
    }
}

/// A line in a list assigns nothing.
proof fn lemma_quiet_equals(s: Seq<char>, a: int, close: int, gap: int, from: int, line: Seq<char>)
    requires
        0 <= a < from <= close,
        is_last_line(s, close, gap),
        from + line.len() <= s.len(),
        forall|k: int| 0 <= k < line.len() ==> #[trigger] line[k] == s[from + k],
        forall|x: int| a < x < close ==> #[trigger] is_orderly(s, a, x),
        !is_odd(s.subrange(a, close)),
        forall|k: int|
            0 <= k <= line.len() && from + k <= close ==> is_odd(#[trigger] line.take(k)) == is_odd(
                s.subrange(a, from + k),
            ),
        line.len() > 0 ==> line.last() != '\n' && line.last() != '\r',
        forall|k: int| 0 <= k < line.len() ==> #[trigger] line[k] != '\n',
    ensures
        unquoted_index(without_comment(line), '=') is None,
{
    let n = line.len() as int;
    let m = if from + n <= gap {
        n
    } else {
        gap - from
    };
    // Up to the comment the line is tidy.
    let head = line.take(m);
    assert forall|k: int| 0 <= k < head.len() implies #[trigger] head[k] != '\\' && head[k]
        != '#' by {
        let x = from + k;
        assert(line[k] == s[x]);
        if x < close {
            assert(is_orderly(s, a, x));
        } else if x > close {
            assert(s[x] == ' ' || s[x] == '\t');
        }
    }
    let p = is_unquoted(line, '#');
    lemma_first_index(p, 0, n);
    assert forall|k: int| 0 <= k < m implies !(#[trigger] p(k)) by {
        assert(head[k] == line[k]);
    }
    if m < n {
        assert(line[m] == s[gap]);
        assert(line[m] != '\n');
        assert(gap < s.len() - 1 || s[gap] != '\r') by {
            if s[gap] == '\r' {
                assert(line.len() <= gap + 2 - from);
                if line.len() == gap + 2 - from {
                    assert(line[m + 1] == s[gap + 1]);
                }
                assert(line.last() == line[n - 1]);
            }
        }
        assert(s[gap] == '#') by {
            if s[gap] == '\r' {
                assert(n == m + 1 || n == m + 2);
                if n == m + 2 {
                    assert(line[m + 1] == s[gap + 1]);
                } else {
                    assert(line.last() == line[m]);
                }
            }
        }
        assert forall|k: int| 0 <= k < m implies #[trigger] line[k] != '\\' by {
            assert(head[k] == line[k]);
        }
        lemma_loose_quoted_at(line, m);
        let c = close - from;
        let tail = line.subrange(c, m);
        assert forall|k: int| 0 <= k < tail.len() implies #[trigger] tail[k] != '"' by {
            assert(tail[k] == line[c + k]);
            assert(line[c + k] == s[close + k]);
        }
        lemma_even(tail);
        assert(line.take(m) =~= line.take(c) + tail);
        lemma_odd(line.take(c), tail);
        assert(p(m));
        assert(first_index(p, 0, n) == Some(m));
        assert(without_comment(line) == head);
    } else {
        assert(first_index(p, 0, n) is None);
        assert(without_comment(line) == line);
        assert(head =~= line);
    }
    let q = is_unquoted(head, '=');
    lemma_first_index(q, 0, m);
    assert forall|k: int| 0 <= k < m implies !(#[trigger] q(k)) by {
        let x = from + k;
        assert(head[k] == line[k]);
        assert(line[k] == s[x]);
        if x < close {
            assert(is_orderly(s, a, x));
            assert(head.take(k) =~= line.take(k));
            lemma_loose_quoted_at(head, k);
        } else if x > close {
            assert(s[x] == ' ' || s[x] == '\t');
        }
    }
}

/// Where the quotation marks of a line without backslashes are open.
proof fn lemma_loose_quoted_at(s: Seq<char>, i: int)
    requires
        0 <= i <= s.len(),
        forall|k: int| 0 <= k < i ==> #[trigger] s[k] != '\\',
    ensures
        crate::scan::quoted_at(s, i) == is_odd(s.take(i)),
        !crate::scan::escaped_at(s, 0, i),
    decreases i,
{
    if i > 0 {
        assert(s.take(i).drop_last() =~= s.take(i - 1));
        lemma_loose_quoted_at(s, i - 1);
        assert(s[i - 1] != '\\');
    }
}

/// The lines of a list, but the first, begin no lists.
proof fn lemma_quiet(s: Seq<char>, a: int, close: int, gap: int, from: int, section: Seq<char>)
    requires
        0 <= a < from,
        from <= close || from == s.len(),
        is_last_line(s, close, gap),
        forall|x: int| a < x < close ==> #[trigger] is_orderly(s, a, x),
        !is_odd(s.subrange(a, close)),
        from <= close ==> !is_odd(s.subrange(a, from)),
    ensures
        pyproject_arrays(s, from, Some(section)).len() == 0,
    decreases s.len() - from,
{
    if from < s.len() {
        lemma_line_end(s, from);
        lemma_quiet_line(s, a, close, gap, from, section);
        lemma_quiet(s, a, close, gap, line_end(s, from), section);
    }
}

// ---------------------------------------------------------------------------
// Project files
// ---------------------------------------------------------------------------

/// What a list is called, by its section and its key; other lists hold no
/// requirements.
pub open spec fn list_label(section: Seq<char>, key: Seq<char>) -> Option<Seq<char>> {
    if section == "project"@ && key == "dependencies"@ {
        Some("project.dependencies"@)
    } else if section == "build-system"@ && key == "requires"@ {
        Some("build-system.requires"@)
    } else if section == "project.optional-dependencies"@ {
        Some("project.optional-dependencies."@ + key)
    } else {
        None
    }
}

/// A section with one list.
pub open spec fn project_text(
    h: Heading,
    a: Assignment,
    items: Seq<Item>,
    end: Seq<char>,
    ending: Seq<char>,
) -> Seq<char> {
    heading_text(h) + assigned_head(a) + list_text(items, end) + a.tail + ending
}

/// What is no line break is kept.
proof fn lemma_kept_in_line(line: Seq<char>, i: int)
    requires
        0 <= i < line.len(),
        line[i] != '\n',
        line[i] != '\r',
    ensures
        without_line_break(line).len() > i,
    decreases line.len(),
{
    if line.last() == '\r' || line.last() == '\n' {
        assert(line.last() == line[line.len() - 1]);
        lemma_kept_in_line(line.drop_last(), i);
    }
}

/// A key without the blanks behind it.
proof fn lemma_trimmed_key(a: Assignment)
    requires
        is_assignment(a),
    ensures
        trimmed(key_text(a)) == a.key,
{
    let start = a.key + a.before;
    let n = a.key.len() as int;
    assert(is_key_char(a.key[0]) || a.key[0] == '.');
    assert(is_key_char(a.key[n - 1]) || a.key[n - 1] == '.');
    assert(start[0] == a.key[0]);
    assert(trimmed_start(start) == start);
    assert(start[n - 1] == a.key[n - 1]);
    assert forall|k: int| n <= k < start.len() implies is_whitespace(#[trigger] start[k]) by {
        assert(start[k] == a.before[k - n]);
    }
    crate::written::lemma_trimmed_gap(start, n);
    assert(start.take(n) =~= a.key);
    assert(key_text(a) =~= a.lead + start);
    lemma_trimmed_lead(a.lead, start);
}

/// A line that begins with an assignment is split there.
proof fn lemma_line_split(a: Assignment, line: Seq<char>)
    requires
        is_assignment(a),
        assigned_head(a).is_prefix_of(line),
    ensures
        ({
            let kept = without_comment(line);
            let e = key_text(a).len() as int;
            &&& unquoted_index(kept, '=') == Some(e)
            &&& trimmed(kept.take(e)) == a.key
        }),
{
    let head = assigned_head(a);
    let e = key_text(a).len() as int;
    lemma_assigned_head(a);
    lemma_trimmed_key(a);
    let p = is_unquoted(line, '#');
    lemma_first_index(p, 0, line.len() as int);
    assert forall|k: int| 0 <= k < head.len() implies !(#[trigger] p(k)) by {
        assert(line.take(head.len() as int)[k] == line[k]);
        assert(is_tidy_char(head[k]));
    }
    let kept = without_comment(line);
    if let Some(i) = first_index(p, 0, line.len() as int) {
        assert(p(i));
    }
    assert(kept.len() >= head.len());
    assert forall|k: int| 0 <= k < head.len() implies #[trigger] kept[k] == head[k] by {
        assert(line.take(head.len() as int)[k] == line[k]);
    }
    let q = is_unquoted(kept, '=');
    lemma_first_index(q, 0, kept.len() as int);
    assert forall|k: int| 0 <= k < e implies !(#[trigger] q(k)) by {
        assert(kept[k] == head[k]);
    }
    assert(kept.take(e) =~= head.take(e));
    assert(kept[e] == head[e]);
    lemma_quoted_at(kept, e);
    assert(q(e));
}

/// The label of a list.
proof fn lemma_label(section: Seq<char>, key: Seq<char>)
    requires
        list_label(section, key) is Some,
        is_bare(key),
    ensures
        is_requirements_key(section, key),
        section_label(section, key) == list_label(section, key)->0,
        is_section_name(section),
{
    reveal_strlit("project");
    reveal_strlit("build-system");
    reveal_strlit("project.optional-dependencies");
    assert(is_key_char(key[0]));
    assert(normalized_key(key) == Some(key));
    assert("project"@.len() != "build-system"@.len());
    assert("project"@.len() != "project.optional-dependencies"@.len());
    assert("build-system"@.len() != "project.optional-dependencies"@.len());
}

/// Where the parts of a project file stand.
proof fn lemma_project_parts(
    h: Heading,
    a: Assignment,
    items: Seq<Item>,
    end: Seq<char>,
    ending: Seq<char>,
)
    ensures
        ({
            let s = project_text(h, a, items, end, ending);
            let p = heading_text(h).len() as int;
            let v = p + assigned_head(a).len();
            let t = v + list_text(items, end).len();
            let u = t + a.tail.len();
            &&& stands(s, 0, heading_text(h))
            &&& stands(s, p, assigned_head(a))
            &&& stands(s, v, list_text(items, end))
            &&& stands(s, t, a.tail)
            &&& stands(s, u, ending)
            &&& s.len() == u + ending.len()
            &&& s == heading_text(h) + s.skip(p)
        }),
{
    let s = project_text(h, a, items, end, ending);
    let top = heading_text(h);
    let head = assigned_head(a);
    let list = list_text(items, end);
    assert(s.subrange(0, s.len() as int) =~= s);
    lemma_stands_parts(s, 0, top + head + list + a.tail, ending);
    lemma_stands_parts(s, 0, top + head + list, a.tail);
    lemma_stands_parts(s, 0, top + head, list);
    lemma_stands_parts(s, 0, top, head);
    assert(s =~= top + s.skip(top.len() as int));
}

/// A line that begins with an assignment holds it.
#[verifier::rlimit(60)]
proof fn lemma_head_line(s: Seq<char>, p: int, a: Assignment)
    requires
        is_assignment(a),
        stands(s, p, assigned_head(a)),
        p + assigned_head(a).len() < s.len(),
        s[p + assigned_head(a).len()] == '[',
    ensures
        line_end(s, p) > p + assigned_head(a).len(),
        assigned_head(a).is_prefix_of(line_at(s, p)),
{
    let head = assigned_head(a);
    let v = p + head.len();
    lemma_assigned_head(a);
    lemma_stands(s, p, head);
    lemma_index_of(s, '\n', p, s.len() as int);
    assert forall|k: int| p <= k <= v implies #[trigger] s[k] != '\n' by {
        if k < v {
            assert(s[k] == head[k - p]);
            assert(is_tidy_char(head[k - p]));
        }
    }
    let raw = s.subrange(p, line_end(s, p));
    let line = line_at(s, p);
    assert(raw[head.len() as int] == s[v]);
    lemma_kept_in_line(raw, head.len() as int);
    crate::cargo_edits::lemma_line_prefix(raw);
    assert forall|k: int| 0 <= k < head.len() implies head[k] == line.take(head.len() as int)[k] by {
        assert(line[k] == raw[k]);
        assert(s[p + k] == head[k]);
    }
    assert(head =~= line.take(head.len() as int));
}

/// The value of an assignment begins behind its blanks.
proof fn lemma_head_value(s: Seq<char>, p: int, a: Assignment)
    requires
        is_assignment(a),
        stands(s, p, assigned_head(a)),
        p + assigned_head(a).len() < s.len(),
        s[p + assigned_head(a).len()] == '[',
    ensures
        past_space(s, p + key_text(a).len() + 1, s.len() as int) == Some(
            p + assigned_head(a).len(),
        ),
{
    let e = key_text(a).len() as int;
    lemma_stands_parts(s, p, key_text(a) + seq!['='], a.after);
    lemma_past(s, p + e + 1, a.after, s.len() as int);
}

/// A line with a bare key is no header.
proof fn lemma_no_header(line: Seq<char>, a: Assignment)
    requires
        is_assignment(a),
        is_bare(a.key),
        assigned_head(a).is_prefix_of(line),
    ensures
        trimmed(line).len() > 0 ==> trimmed(line)[0] != '[',
{
    let head = assigned_head(a);
    let l = a.lead.len() as int;
    let rest = line.skip(l);
    assert(line.take(head.len() as int) == head);
    assert(line.take(l) =~= head.take(l));
    assert(head.take(l) =~= a.lead);
    assert(line =~= a.lead + rest);
    assert(line.take(head.len() as int)[l] == line[l]);
    assert(head[l] == a.key[0]);
    assert(rest[0] == a.key[0]);
    assert(is_key_char(a.key[0]));
    lemma_trimmed_lead(a.lead, rest);
    lemma_trimmed_end(rest);
}

/// The list of a section is found.
#[verifier::rlimit(40)]
proof fn lemma_list_found(
    h: Heading,
    a: Assignment,
    items: Seq<Item>,
    end: Seq<char>,
    ending: Seq<char>,
)
    requires
        is_heading(h),
        list_label(h.section, a.key) is Some,
        is_assignment(a),
        is_bare(a.key),
        are_items(items),
        is_list_end(end),
        is_line_ending(ending),
    ensures
        ({
            let s = project_text(h, a, items, end, ending);
            let p = heading_text(h).len() as int;
            let v = p + assigned_head(a).len();
            let close = v + 1 + items_text(items).len() + end.len();
            &&& line_array(s, p, h.section) == Some(
                (ArrayView { section: list_label(h.section, a.key)->0, start: v, end: close }),
            )
            &&& ({
                let header = trimmed(line_at(s, p));
                header.len() > 0 ==> header[0] != '['
            })
            &&& line_end(s, p) > v
        }),
{
    let s = project_text(h, a, items, end, ending);
    let p = heading_text(h).len() as int;
    let v = p + assigned_head(a).len();
    lemma_project_parts(h, a, items, end, ending);
    lemma_list(s, v, items, end, h.section);
    lemma_label(h.section, a.key);
    lemma_head_line(s, p, a);
    lemma_head_value(s, p, a);
    lemma_line_split(a, line_at(s, p));
    lemma_no_header(line_at(s, p), a);
}

/// What stands behind a bracket ends its file.
proof fn lemma_last_line(
    s: Seq<char>,
    close: int,
    tail: Seq<char>,
    blank: Seq<char>,
    ending: Seq<char>,
)
    requires
        0 <= close,
        is_tail(tail, blank),
        is_line_ending(ending),
        stands(s, close + 1, tail),
        stands(s, close + 1 + tail.len(), ending),
        s.len() == close + 1 + tail.len() + ending.len(),
        s[close] == ']',
    ensures
        is_last_line(s, close, close + 1 + blank.len()),
{
    let t = close + 1;
    let gap = t + blank.len();
    let u = t + tail.len();
    lemma_stands(s, t, tail);
    lemma_stands(s, u, ending);
    assert forall|k: int| close < k < gap implies #[trigger] s[k] == ' ' || s[k] == '\t' by {
        assert(s[k] == tail[k - t]);
        assert(tail.take(blank.len() as int)[k - t] == tail[k - t]);
        assert(blank[k - t] == ' ' || blank[k - t] == '\t');
    }
    assert forall|k: int| gap <= k < s.len() && #[trigger] s[k] == '\n' implies k == s.len()
        - 1 by {
        if k < u {
            assert(s[k] == tail[k - t]);
        } else {
            assert(s[k] == ending[k - u]);
        }
    }
    if gap < s.len() {
        if gap < u {
            assert(s[gap] == tail[gap - t]);
        } else {
            assert(s[gap] == ending[0]);
            if s[gap] == '\r' {
                assert(s[gap + 1] == ending[1]);
            }
        }
    }
}

/// What stands behind a list ends its file.
proof fn lemma_project_end(
    h: Heading,
    a: Assignment,
    items: Seq<Item>,
    end: Seq<char>,
    ending: Seq<char>,
)
    requires
        is_assignment(a),
        is_line_ending(ending),
    ensures
        ({
            let s = project_text(h, a, items, end, ending);
            let v = heading_text(h).len() as int + assigned_head(a).len();
            let close = v + 1 + items_text(items).len() + end.len();
            is_last_line(s, close, close + 1 + a.gap.len())
        }),
{
    let s = project_text(h, a, items, end, ending);
    let v = heading_text(h).len() as int + assigned_head(a).len();
    let list = list_text(items, end);
    let close = v + list.len() - 1;
    let before = heading_text(h) + assigned_head(a);
    assert(s =~= before + list + (a.tail + ending));
    assert(s[close] == list[list.len() - 1]);
    assert(s.subrange(close + 1, close + 1 + a.tail.len()) =~= a.tail);
    assert(s.subrange(close + 1 + a.tail.len(), s.len() as int) =~= ending);
    lemma_last_line(s, close, a.tail, a.gap, ending);
}

/// Every requirement in a list of a project file is read: in the dependencies of the
/// project, in the requirements of its build, and in each of its optional groups.
/// Whatever space stands around the items, and on however many lines between quotation
/// marks, each makes one dependency, if the parser of requirements finds a name and
/// specifiers in it, at the bytes that its specifiers take.
#[verifier::rlimit(60)]
pub proof fn listed_requirements_are_read(
    h: Heading,
    a: Assignment,
    items: Seq<Item>,
    end: Seq<char>,
    ending: Seq<char>,
)
    requires
        is_heading(h),
        list_label(h.section, a.key) is Some,
        is_assignment(a),
        is_bare(a.key),
        are_items(items),
        is_list_end(end),
        are_double(items) || is_single_line(list_text(items, end)),
        is_line_ending(ending),
    ensures
        manifest_dependencies(project_text(h, a, items, end, ending), ManifestKind::Pyproject)
            == item_dependencies(
            items,
            list_label(h.section, a.key)->0,
            byte_len(heading_text(h)) + byte_len(assigned_head(a)) as int + 1,
        ),
{
    let s = project_text(h, a, items, end, ending);
    let top = heading_text(h);
    let p = top.len() as int;
    let v = p + assigned_head(a).len();
    let close = v + 1 + items_text(items).len() + end.len();
    let label = list_label(h.section, a.key)->0;
    lemma_only_list(h, a, items, end, ending);
    lemma_project_parts(h, a, items, end, ending);
    lemma_list(s, v, items, end, label);
    lemma_bytes_behind(s, 0, top);
    lemma_bytes_behind(s, p, assigned_head(a));
    assert(s.take(0) =~= Seq::<char>::empty());
}

/// The list of a section is the only one, and its strings are those that are read.
#[verifier::rlimit(40)]
proof fn lemma_only_list(
    h: Heading,
    a: Assignment,
    items: Seq<Item>,
    end: Seq<char>,
    ending: Seq<char>,
)
    requires
        is_heading(h),
        list_label(h.section, a.key) is Some,
        is_assignment(a),
        is_bare(a.key),
        are_items(items),
        is_list_end(end),
        are_double(items) || is_single_line(list_text(items, end)),
        is_line_ending(ending),
    ensures
        ({
            let s = project_text(h, a, items, end, ending);
            let v = heading_text(h).len() as int + assigned_head(a).len();
            let close = v + 1 + items_text(items).len() + end.len();
            pyproject_entries(s) == token_entries(
                s,
                string_tokens(s, v, close),
                list_label(h.section, a.key)->0,
            )
        }),
{
    let s = project_text(h, a, items, end, ending);
    let top = heading_text(h);
    let p = top.len() as int;
    let v = p + assigned_head(a).len();
    let close = v + 1 + items_text(items).len() + end.len();
    let label = list_label(h.section, a.key)->0;
    lemma_label(h.section, a.key);
    lemma_project_parts(h, a, items, end, ending);
    lemma_project_start(h, s);
    lemma_list_found(h, a, items, end, ending);
    lemma_project_rest(h, a, items, end, ending);
    let array = ArrayView { section: label, start: v, end: close };
    let next = line_end(s, p);
    assert(p < s.len());
    assert(pyproject_arrays(s, p, Some(h.section)) =~= seq![array] + pyproject_arrays(
        s,
        next,
        Some(h.section),
    ));
    let arrays = pyproject_arrays(s, 0, None);
    assert(arrays =~= seq![array]);
    reveal_with_fuel(array_entries, 2);
    assert(arrays.drop_last() =~= Seq::<ArrayView>::empty());
    assert(arrays.last() == array);
    assert(pyproject_entries(s) =~= token_entries(s, string_tokens(s, v, close), label));
}

/// A header opens its section.
proof fn lemma_project_start(h: Heading, s: Seq<char>)
    requires
        is_heading(h),
        is_section_name(h.section),
        s == heading_text(h) + s.skip(heading_text(h).len() as int),
    ensures
        pyproject_arrays(s, 0, None) == pyproject_arrays(
            s,
            heading_text(h).len() as int,
            Some(h.section),
        ),
{
    let top = heading_text(h);
    lemma_heading_line(h);
    lemma_line_first(top, s.skip(top.len() as int), 0);
    lemma_trimmed_heading(h);
    lemma_named(h);
    assert(toml_section(trimmed(heading_line(h))) == Some(h.section));
    assert(s.len() > 0);
}

/// Behind the line that begins a list, no list begins.
#[verifier::rlimit(40)]
proof fn lemma_project_rest(
    h: Heading,
    a: Assignment,
    items: Seq<Item>,
    end: Seq<char>,
    ending: Seq<char>,
)
    requires
        is_heading(h),
        list_label(h.section, a.key) is Some,
        is_assignment(a),
        is_bare(a.key),
        are_items(items),
        is_list_end(end),
        are_double(items) || is_single_line(list_text(items, end)),
        is_line_ending(ending),
    ensures
        ({
            let s = project_text(h, a, items, end, ending);
            let p = heading_text(h).len() as int;
            pyproject_arrays(s, line_end(s, p), Some(h.section)).len() == 0
        }),
{
    let s = project_text(h, a, items, end, ending);
    let p = heading_text(h).len() as int;
    let v = p + assigned_head(a).len();
    let close = v + 1 + items_text(items).len() + end.len();
    let gap = close + 1 + a.gap.len();
    let next = line_end(s, p);
    lemma_project_parts(h, a, items, end, ending);
    lemma_list_found(h, a, items, end, ending);
    lemma_project_end(h, a, items, end, ending);
    lemma_index_of(s, '\n', p, s.len() as int);
    if next < s.len() {
        let x = next - 1;
        assert(s[x] == '\n');
        if x > close {
            assert(x < gap ==> s[x] == ' ' || s[x] == '\t');
        }
        assert(v <= x < close);
        lemma_stands(s, v, list_text(items, end));
        assert(s[x] == list_text(items, end)[x - v]);
        assert(are_double(items));
        lemma_orderly(s, v, items, end);
        lemma_list(s, v, items, end, Seq::empty());
        assert(is_orderly(s, v, x));
        lemma_even(seq!['\n']);
        assert(s.subrange(x, x + 1) =~= seq!['\n']);
        lemma_odd_behind(s, v, x, seq!['\n']);
        lemma_quiet(s, v, close, gap, next, h.section);
    }
}

} // verus!
