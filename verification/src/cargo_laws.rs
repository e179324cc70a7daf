//! What is read of Cargo manifests as they are written.

use crate::edits::in_quotation_marks;
use crate::entries::{
    cargo_entries, cargo_line, cargo_section, cargo_value, is_cargo_section, is_unsupported_table,
    is_workspace_key, placed, workspace_base, EntryView, LineEntryView,
};
use crate::joined::{ends_a_line, later_entries, lemma_cargo_second, lemma_line_first};
use crate::lines::{line_at, line_end};
use crate::manifest::{
    entry_dependencies, manifest_dependencies, plain_dependency, workspace_dependency, ManifestKind,
    Registry,
};
use crate::markers::is_gap;
use crate::python_laws::{is_line_ending, lemma_kept_at, lemma_one_line, lemma_trimmed_lead};
use crate::scan::{
    escaped_at, is_unquoted, lemma_json_token, quoted_at, unquoted_index, without_comment,
};
use crate::tables::{
    are_members, is_bare, is_member, is_text, is_value, items_text, lacks_key, lemma_table_lacks,
    lemma_table_value, lemma_text_token, listed_text, member_head, member_text, table_text,
    trailing_text, value_text, Member, Value,
};
use crate::text::{
    byte_len, byte_offset, contains_text, index_of, is_whitespace, lemma_encode_concat,
    lemma_first_index, lemma_index_of, lemma_trimmed_end, trimmed, trimmed_end, trimmed_start,
    up_to,
};
use crate::toml::{is_key_char, quoted_value};
use crate::written::lemma_trimmed_gap;
use vstd::prelude::*;

verus! {

// ---------------------------------------------------------------------------
// Tidy texts
// ---------------------------------------------------------------------------

/// No backslash, number sign or line break.
pub open spec fn is_tidy_char(c: char) -> bool {
    c != '\\' && c != '#' && c != '\n' && c != '\r'
}

/// Text without backslashes, number signs and line breaks.
pub open spec fn is_tidy(text: Seq<char>) -> bool {
    forall|i: int| 0 <= i < text.len() ==> is_tidy_char(#[trigger] text[i])
}

/// Whether an odd number of quotation marks is in a text.
pub open spec fn is_odd(text: Seq<char>) -> bool
    decreases text.len(),
{
    text.len() > 0 && ((text.last() == '"') != is_odd(text.drop_last()))
}

/// Tidy texts with their quotation marks closed.
pub open spec fn is_closed(text: Seq<char>) -> bool {
    is_tidy(text) && !is_odd(text)
}

/// Quotation marks are counted part by part.
pub(crate) proof fn lemma_odd(a: Seq<char>, b: Seq<char>)
    ensures
        is_odd(a + b) == (is_odd(a) != is_odd(b)),
    decreases b.len(),
{
    if b.len() == 0 {
        assert(a + b =~= a);
    } else {
        assert((a + b).drop_last() =~= a + b.drop_last());
        assert((a + b).last() == b.last());
        lemma_odd(a, b.drop_last());
    }
}

/// Texts without quotation marks are closed.
pub(crate) proof fn lemma_even(text: Seq<char>)
    requires
        forall|i: int| 0 <= i < text.len() ==> #[trigger] text[i] != '"',
    ensures
        !is_odd(text),
    decreases text.len(),
{
    if text.len() > 0 {
        assert(text.last() == text[text.len() - 1]);
        lemma_even(text.drop_last());
    }
}

/// Closed texts stay closed when they are put together.
pub(crate) proof fn lemma_closed(a: Seq<char>, b: Seq<char>)
    requires
        is_closed(a),
        is_closed(b),
    ensures
        is_closed(a + b),
{
    lemma_odd(a, b);
    assert forall|i: int| 0 <= i < (a + b).len() implies is_tidy_char(#[trigger] (a + b)[i]) by {
        if i < a.len() {
            assert((a + b)[i] == a[i]);
        } else {
            assert((a + b)[i] == b[i - a.len()]);
        }
    }
}

/// Texts of keys and blanks are closed.
pub(crate) proof fn lemma_plain(text: Seq<char>)
    requires
        forall|i: int|
            0 <= i < text.len() ==> is_key_char(#[trigger] text[i]) || text[i] == ' ' || text[i]
                == '\t' || text[i] == ',' || text[i] == '=' || text[i] == '{' || text[i] == '}'
                || text[i] == '[' || text[i] == ']' || text[i] == '.',
    ensures
        is_closed(text),
{
    lemma_even(text);
}

/// A text between quotation marks is closed.
proof fn lemma_quoted(text: Seq<char>)
    requires
        is_text(text),
    ensures
        is_closed(in_quotation_marks(text)),
{
    let q = seq!['"'];
    lemma_even(text);
    reveal_with_fuel(is_odd, 2);
    assert(q.drop_last() =~= Seq::<char>::empty());
    assert(is_odd(q));
    lemma_odd(q, text);
    lemma_odd(q + text, q);
    let t = in_quotation_marks(text);
    assert forall|i: int| 0 <= i < t.len() implies is_tidy_char(#[trigger] t[i]) by {
        if 0 < i < t.len() - 1 {
            assert(t[i] == text[i - 1]);
        }
    }
}

/// A list of texts is closed.
proof fn lemma_items(items: Seq<Seq<char>>)
    requires
        forall|i: int| 0 <= i < items.len() ==> is_text(#[trigger] items[i]),
    ensures
        is_closed(items_text(items)),
    decreases items.len(),
{
    if items.len() > 0 {
        lemma_quoted(items[0]);
        if items.len() > 1 {
            let rest = items.drop_first();
            assert forall|i: int| 0 <= i < rest.len() implies is_text(#[trigger] rest[i]) by {
                assert(rest[i] == items[i + 1]);
            }
            lemma_items(rest);
            lemma_plain(seq![',', ' ']);
            lemma_closed(in_quotation_marks(items[0]), seq![',', ' ']);
            lemma_closed(in_quotation_marks(items[0]) + seq![',', ' '], items_text(rest));
        }
    } else {
        lemma_plain(items_text(items));
    }
}

/// A value is closed.
proof fn lemma_value(value: Value)
    requires
        is_value(value),
    ensures
        is_closed(value_text(value)),
{
    match value {
        Value::Text(text) => {
            lemma_quoted(text);
        },
        Value::Word(word) => {
            lemma_plain(word);
        },
        Value::List(items) => {
            lemma_items(items);
            lemma_plain(seq!['[']);
            lemma_plain(seq![']']);
            lemma_closed(seq!['['], items_text(items));
            lemma_closed(seq!['['] + items_text(items), seq![']']);
        },
    }
}

/// A member is closed.
proof fn lemma_member(m: Member)
    requires
        is_member(m),
    ensures
        is_closed(member_head(m)),
        is_closed(member_text(m)),
{
    lemma_plain(m.lead);
    lemma_plain(m.key);
    lemma_plain(m.before);
    lemma_plain(seq!['=']);
    lemma_plain(m.after);
    lemma_plain(m.behind);
    lemma_value(m.value);
    lemma_closed(m.lead, m.key);
    lemma_closed(m.lead + m.key, m.before);
    lemma_closed(m.lead + m.key + m.before, seq!['=']);
    lemma_closed(m.lead + m.key + m.before + seq!['='], m.after);
    lemma_closed(member_head(m), value_text(m.value));
    lemma_closed(member_head(m) + value_text(m.value), m.behind);
}

/// Members are closed.
proof fn lemma_members(members: Seq<Member>)
    requires
        are_members(members),
    ensures
        is_closed(listed_text(members)),
        is_closed(trailing_text(members)),
    decreases members.len(),
{
    lemma_plain(seq![',']);
    if members.len() > 0 {
        let t = member_text(members[0]);
        let rest = members.drop_first();
        assert forall|i: int| 0 <= i < rest.len() implies is_member(#[trigger] rest[i]) by {
            assert(rest[i] == members[i + 1]);
        }
        lemma_members(rest);
        lemma_member(members[0]);
        lemma_closed(t, seq![',']);
        lemma_closed(t + seq![','], listed_text(rest));
        lemma_closed(seq![','], t);
        lemma_closed(seq![','] + t, trailing_text(rest));
    } else {
        lemma_plain(Seq::empty());
    }
}

/// A table is closed.
proof fn lemma_table(before: Seq<Member>, m: Member, behind: Seq<Member>)
    requires
        are_members(before),
        is_member(m),
        are_members(behind),
    ensures
        is_closed(table_text(before, m, behind)),
        table_text(before, m, behind)[0] == '{',
{
    let l = listed_text(before);
    let t = member_text(m);
    let r = trailing_text(behind);
    lemma_members(before);
    lemma_member(m);
    lemma_members(behind);
    lemma_plain(seq!['{']);
    lemma_plain(seq!['}']);
    lemma_closed(seq!['{'], l);
    lemma_closed(seq!['{'] + l, t);
    lemma_closed(seq!['{'] + l + t, r);
    lemma_closed(seq!['{'] + l + t + r, seq!['}']);
}

/// Where the quotation marks of a line are open.
pub(crate) proof fn lemma_quoted_at(s: Seq<char>, i: int)
    requires
        0 <= i <= s.len(),
        is_tidy(s.take(i)),
    ensures
        quoted_at(s, i) == is_odd(s.take(i)),
        !escaped_at(s, 0, i),
    decreases i,
{
    if i > 0 {
        assert(s.take(i).drop_last() =~= s.take(i - 1));
        assert(s.take(i)[i - 1] == s[i - 1]);
        assert forall|k: int| 0 <= k < s.take(i - 1).len() implies is_tidy_char(
            #[trigger] s.take(i - 1)[k],
        ) by {
            assert(s.take(i)[k] == s.take(i - 1)[k]);
        }
        assert(is_tidy_char(s.take(i)[i - 1]));
        lemma_quoted_at(s, i - 1);
    }
}

// ---------------------------------------------------------------------------
// Lines
// ---------------------------------------------------------------------------

/// What can stand behind a value in its line: blanks, or blanks and a comment.
pub open spec fn is_tail(tail: Seq<char>, gap: Seq<char>) -> bool {
    &&& is_gap(gap)
    &&& gap.is_prefix_of(tail)
    &&& tail == gap || (gap.len() < tail.len() && tail[gap.len() as int] == '#')
    &&& forall|i: int| 0 <= i < tail.len() ==> #[trigger] tail[i] != '\n' && tail[i] != '\r'
}

/// A key of a manifest: letters, digits, underscores, hyphens and full stops.
pub open spec fn is_key(key: Seq<char>) -> bool {
    key.len() > 0 && forall|i: int|
        0 <= i < key.len() ==> is_key_char(#[trigger] key[i]) || key[i] == '.'
}

/// A key with the blanks before it and around the equals sign behind it, and what stands
/// behind its value.
pub struct Assignment {
    pub lead: Seq<char>,
    pub key: Seq<char>,
    pub before: Seq<char>,
    pub after: Seq<char>,
    pub gap: Seq<char>,
    pub tail: Seq<char>,
}

/// An assignment that is written as it should be.
pub open spec fn is_assignment(a: Assignment) -> bool {
    is_gap(a.lead) && is_key(a.key) && is_gap(a.before) && is_gap(a.after) && is_tail(
        a.tail,
        a.gap,
    )
}

/// What stands before the equals sign of an assignment.
pub open spec fn key_text(a: Assignment) -> Seq<char> {
    a.lead + a.key + a.before
}

/// What stands before the value of an assignment.
pub open spec fn assigned_head(a: Assignment) -> Seq<char> {
    key_text(a) + seq!['='] + a.after
}

/// A line that assigns a value.
pub open spec fn assigned_text(a: Assignment, value: Seq<char>) -> Seq<char> {
    assigned_head(a) + value + a.tail
}

/// What stands before a value holds one equals sign, at its place, and no quotation
/// marks.
pub(crate) proof fn lemma_assigned_head(a: Assignment)
    requires
        is_assignment(a),
    ensures
        ({
            let head = assigned_head(a);
            let e = key_text(a).len() as int;
            &&& is_closed(head)
            &&& is_closed(head.take(e))
            &&& e < head.len()
            &&& head[e] == '='
            &&& head.take(e) == key_text(a)
            &&& head.skip(e + 1) == a.after
            &&& forall|k: int| 0 <= k < e ==> #[trigger] head[k] != '='
        }),
{
    let head = assigned_head(a);
    let e = key_text(a).len() as int;
    let start = key_text(a);
    assert(head.take(e) =~= start);
    assert(head.skip(e + 1) =~= a.after);
    lemma_plain(a.lead);
    lemma_plain(a.key);
    lemma_plain(a.before);
    lemma_plain(seq!['=']);
    lemma_plain(a.after);
    lemma_closed(a.lead, a.key);
    lemma_closed(a.lead + a.key, a.before);
    lemma_closed(start, seq!['=']);
    lemma_closed(start + seq!['='], a.after);
    assert forall|k: int| 0 <= k < e implies #[trigger] head[k] != '=' by {
        let l = a.lead.len() as int;
        let n = l + a.key.len();
        if k < l {
            assert(head[k] == a.lead[k]);
        } else if k < n {
            assert(head[k] == a.key[k - l]);
        } else {
            assert(head[k] == a.before[k - n]);
        }
    }
}

/// A line without its comment.
pub(crate) proof fn lemma_uncommented(a: Assignment, value: Seq<char>)
    requires
        is_assignment(a),
        is_closed(value),
    ensures
        without_comment(assigned_text(a, value)) == assigned_head(a) + value + a.gap,
{
    let raw = assigned_text(a, value);
    let kept = assigned_head(a) + value + a.gap;
    let n = kept.len() as int;
    lemma_assigned_head(a);
    lemma_plain(a.gap);
    lemma_closed(assigned_head(a), value);
    lemma_closed(assigned_head(a) + value, a.gap);
    assert(raw.take(n) =~= kept) by {
        assert(a.tail.take(a.gap.len() as int) =~= a.gap);
    }
    let p = is_unquoted(raw, '#');
    lemma_first_index(p, 0, raw.len() as int);
    assert forall|k: int| 0 <= k < n implies !(#[trigger] p(k)) by {
        assert(raw[k] == kept[k]);
        assert(is_tidy_char(kept[k]));
    }
    if a.tail == a.gap {
        assert(raw =~= kept);
    } else {
        assert(raw[n] == a.tail[a.gap.len() as int]);
        lemma_quoted_at(raw, n);
        assert(p(n));
    }
}

/// A line is split at its equals sign.
pub(crate) proof fn lemma_split(a: Assignment, value: Seq<char>)
    requires
        is_assignment(a),
        is_closed(value),
        value.len() > 0,
        !is_whitespace(value[0]),
    ensures
        ({
            let line = assigned_head(a) + value + a.gap;
            let e = key_text(a).len() as int;
            &&& unquoted_index(line, '=') == Some(e)
            &&& trimmed(line.take(e)) == a.key
            &&& trimmed_start(line.skip(e + 1)) == value + a.gap
        }),
{
    let head = assigned_head(a);
    let line = head + value + a.gap;
    let e = key_text(a).len() as int;
    lemma_assigned_head(a);
    let p = is_unquoted(line, '=');
    lemma_first_index(p, 0, line.len() as int);
    assert forall|k: int| 0 <= k < e implies !(#[trigger] p(k)) by {
        assert(line[k] == head[k]);
    }
    assert(line.take(e) =~= head.take(e));
    assert(line[e] == head[e]);
    lemma_quoted_at(line, e);
    assert(p(e));
    let start = a.key + a.before;
    let n = a.key.len() as int;
    assert(is_key_char(a.key[0]) || a.key[0] == '.');
    assert(is_key_char(a.key[n - 1]) || a.key[n - 1] == '.');
    assert(start[0] == a.key[0]);
    assert(trimmed_start(start) == start);
    assert(start[n - 1] == a.key[n - 1]);
    assert forall|k: int| n <= k < start.len() implies is_whitespace(#[trigger] start[k]) by {
        assert(start[k] == a.before[k - n]);
    }
    lemma_trimmed_gap(start, n);
    assert(start.take(n) =~= a.key);
    assert(key_text(a) =~= a.lead + start);
    lemma_trimmed_lead(a.lead, start);
    assert(line.skip(e + 1) =~= a.after + (value + a.gap));
    assert((value + a.gap)[0] == value[0]);
    lemma_trimmed_lead(a.after, value + a.gap);
}

/// What a line declares is what its value declares.
proof fn lemma_assigned(a: Assignment, value: Seq<char>, workspace: bool)
    requires
        is_assignment(a),
        is_closed(value),
        value.len() > 0,
        !is_whitespace(value[0]),
        !is_workspace_key(a.key),
    ensures
        cargo_line(assigned_text(a, value), workspace) == cargo_value(
            a.key,
            value + a.gap,
            assigned_head(a).len() as int,
            workspace,
        ),
{
    lemma_uncommented(a, value);
    lemma_split(a, value);
    assert(a.key[0] != '"');
}

/// A bare key refers to no workspace.
pub(crate) proof fn lemma_bare_key(key: Seq<char>)
    requires
        is_bare(key),
    ensures
        is_key(key),
        !is_workspace_key(key),
{
    reveal_strlit(".workspace");
    if ".workspace"@.is_suffix_of(key) {
        let n = key.len() - ".workspace"@.len();
        assert(".workspace"@[0] == key.subrange(n, key.len() as int)[0]);
        assert(is_key_char(key[n]));
    }
}

// ---------------------------------------------------------------------------
// Sections
// ---------------------------------------------------------------------------

/// A header: the name of a section between brackets, with blanks around it, and what
/// stands behind the brackets.
pub struct Heading {
    pub lead: Seq<char>,
    pub before: Seq<char>,
    pub section: Seq<char>,
    pub after: Seq<char>,
    pub rest: Seq<char>,
    pub ending: Seq<char>,
}

/// A header in writing.
pub open spec fn heading_line(h: Heading) -> Seq<char> {
    h.lead + seq!['['] + h.before + h.section + h.after + seq![']'] + h.rest
}

/// A header in writing, with the end of its line.
pub open spec fn heading_text(h: Heading) -> Seq<char> {
    heading_line(h) + h.ending
}

/// The sections that list the dependencies of a package.
pub open spec fn is_package_section(section: Seq<char>) -> bool {
    section == "dependencies"@ || section == "dev-dependencies"@ || section
        == "build-dependencies"@
}

/// A header that is written as it should be.
pub open spec fn is_heading(h: Heading) -> bool {
    &&& is_gap(h.lead) && is_gap(h.before) && is_gap(h.after)
    &&& forall|i: int| 0 <= i < h.rest.len() ==> #[trigger] h.rest[i] != '\n' && h.rest[i] != '\r'
    &&& h.ending == seq!['\n'] || h.ending == seq!['\r', '\n']
}

/// What the names of sections are made of.
pub open spec fn is_section_name(section: Seq<char>) -> bool {
    section.len() > 0 && forall|i: int|
        0 <= i < section.len() ==> is_key_char(#[trigger] section[i]) || section[i] == '.'
}

/// The sections that list dependencies have such names.
pub(crate) proof fn lemma_section_names(section: Seq<char>)
    requires
        is_package_section(section) || section == "workspace.dependencies"@,
    ensures
        is_section_name(section),
{
    reveal_strlit("dependencies");
    reveal_strlit("dev-dependencies");
    reveal_strlit("build-dependencies");
    reveal_strlit("workspace.dependencies");
}

/// The line of a header.
pub(crate) proof fn lemma_heading_line(h: Heading)
    requires
        is_heading(h),
        is_section_name(h.section),
    ensures
        ({
            let s = heading_text(h);
            &&& ends_a_line(s)
            &&& s.len() > 0
            &&& line_end(s, 0) == s.len()
            &&& line_at(s, 0) == heading_line(h)
        }),
{
    let line = heading_line(h);
    let inner = h.lead + seq!['['] + h.before + h.section + h.after + seq![']'];
    assert forall|i: int| 0 <= i < line.len() implies #[trigger] line[i] != '\n' && line[i]
        != '\r' by {
        let a = h.lead.len() as int;
        let b = a + 1 + h.before.len();
        let c = b + h.section.len();
        let d = c + h.after.len();
        if i < a {
            assert(line[i] == h.lead[i]);
        } else if i == a {
            assert(line[i] == '[');
        } else if i < b {
            assert(line[i] == h.before[i - a - 1]);
        } else if i < c {
            assert(line[i] == h.section[i - b]);
        } else if i < d {
            assert(line[i] == h.after[i - c]);
        } else if i == d {
            assert(line[i] == ']');
        } else {
            assert(line[i] == h.rest[i - d - 1]);
        }
    }
    lemma_one_line(line, h.ending);
    assert(heading_text(h).last() == h.ending.last());
}

/// The header of a line without the blanks around it.
pub(crate) proof fn lemma_trimmed_heading(h: Heading)
    requires
        is_heading(h),
        is_section_name(h.section),
    ensures
        ({
            let header = trimmed(heading_line(h));
            let name = h.before + h.section + h.after;
            &&& header.len() > name.len() + 1
            &&& header[0] == '['
            &&& header.skip(1).take(name.len() as int) == name
            &&& header[name.len() as int + 1] == ']'
        }),
{
    let line = heading_line(h);
    let name = h.before + h.section + h.after;
    let body = seq!['['] + name + seq![']'] + h.rest;
    assert(line =~= h.lead + body);
    assert(body[0] == '[');
    lemma_trimmed_lead(h.lead, body);
    let n = name.len() as int;
    assert(body[n + 1] == ']');
    lemma_kept_at(body, n + 1);
    lemma_trimmed_end(body);
    let header = trimmed_end(body);
    assert(header =~= body.take(header.len() as int));
    assert(header.skip(1).take(n) =~= name);
}

/// A header opens its section.
proof fn lemma_opened(h: Heading, workspace: bool)
    requires
        is_heading(h),
        is_section_name(h.section),
        is_cargo_section(h.section, workspace),
    ensures
        cargo_section(trimmed(heading_line(h)), workspace) == Some(h.section),
{
    lemma_named(h);
}

/// A header names its section.
pub(crate) proof fn lemma_named(h: Heading)
    requires
        is_heading(h),
        is_section_name(h.section),
    ensures
        trimmed(up_to(trimmed(heading_line(h)).skip(1), ']')) == h.section,
        !"[["@.is_prefix_of(trimmed(heading_line(h))),
{
    reveal_strlit("[[");
    let header = trimmed(heading_line(h));
    let name = h.before + h.section + h.after;
    let n = name.len() as int;
    lemma_trimmed_heading(h);
    let rest = header.skip(1);
    assert(rest.take(n) == name);
    assert(rest[n] == header[n + 1]);
    lemma_index_of(rest, ']', 0, rest.len() as int);
    let b = h.before.len() as int;
    let c = b + h.section.len();
    assert forall|k: int| 0 <= k < n implies #[trigger] rest[k] != ']' && rest[k] != '[' by {
        assert(rest.take(n)[k] == rest[k]);
        if k < b {
            assert(name[k] == h.before[k]);
        } else if k < c {
            assert(name[k] == h.section[k - b]);
        } else {
            assert(name[k] == h.after[k - c]);
        }
    }
    assert(index_of(rest, ']', 0, rest.len() as int) == Some(n));
    assert(up_to(rest, ']') == name);
    assert(name =~= h.before + (h.section + h.after));
    let tail = h.section + h.after;
    assert(is_key_char(h.section[0]) || h.section[0] == '.');
    assert(tail[0] == h.section[0]);
    lemma_trimmed_lead(h.before, tail);
    let m = h.section.len() as int;
    assert(is_key_char(h.section[m - 1]) || h.section[m - 1] == '.');
    assert(tail[m - 1] == h.section[m - 1]);
    assert forall|k: int| m <= k < tail.len() implies is_whitespace(#[trigger] tail[k]) by {
        assert(tail[k] == h.after[k - m]);
    }
    lemma_trimmed_gap(tail, m);
    assert(tail.take(m) =~= h.section);
    assert(trimmed(name) == h.section);
    if "[["@.is_prefix_of(header) {
        assert("[["@[1] == header[1]);
        assert(rest[0] == header[1]);
    }
}

// ---------------------------------------------------------------------------
// Declarations
// ---------------------------------------------------------------------------

/// A section with one line, which assigns a value.
pub open spec fn declaration_text(
    h: Heading,
    a: Assignment,
    value: Seq<char>,
    ending: Seq<char>,
) -> Seq<char> {
    heading_text(h) + (assigned_text(a, value) + ending)
}

/// The byte at which the value of a declaration begins.
pub open spec fn value_byte(h: Heading, a: Assignment) -> int {
    byte_len(heading_text(h)) + byte_len(assigned_head(a)) as int
}

/// An optional entry as a list of none or one.
pub open spec fn listed_entry(section: Seq<char>, s: Seq<char>, e: Option<LineEntryView>) -> Seq<
    EntryView,
> {
    match e {
        Some(e) => seq![placed(s, 0, section, e)],
        None => Seq::empty(),
    }
}

/// The line of an assignment.
pub(crate) proof fn lemma_assigned_line(a: Assignment, value: Seq<char>, ending: Seq<char>)
    requires
        is_assignment(a),
        is_closed(value),
        is_line_ending(ending),
    ensures
        ({
            let line = assigned_text(a, value);
            &&& line.len() > 0
            &&& line_end(line + ending, 0) == (line + ending).len()
            &&& line_at(line + ending, 0) == line
            &&& trimmed(line).len() > 0 ==> trimmed(line)[0] != '['
        }),
{
    let line = assigned_text(a, value);
    let n = (assigned_head(a) + value).len() as int;
    lemma_assigned_head(a);
    lemma_closed(assigned_head(a), value);
    assert forall|i: int| 0 <= i < line.len() implies #[trigger] line[i] != '\n' && line[i]
        != '\r' by {
        if i < n {
            assert(line[i] == (assigned_head(a) + value)[i]);
            assert(is_tidy_char((assigned_head(a) + value)[i]));
        } else {
            assert(line[i] == a.tail[i - n]);
        }
    }
    lemma_one_line(line, ending);
    let rest = a.key + a.before + seq!['='] + a.after + value + a.tail;
    assert(line =~= a.lead + rest);
    assert(rest[0] == a.key[0]);
    assert(is_key_char(a.key[0]) || a.key[0] == '.');
    lemma_trimmed_lead(a.lead, rest);
    lemma_trimmed_end(rest);
}

/// The entries of a section with one line.
proof fn lemma_declared(
    h: Heading,
    a: Assignment,
    value: Seq<char>,
    ending: Seq<char>,
    workspace: bool,
)
    requires
        is_heading(h),
        is_section_name(h.section),
        is_cargo_section(h.section, workspace),
        is_assignment(a),
        is_closed(value),
        is_line_ending(ending),
    ensures
        cargo_entries(declaration_text(h, a, value, ending), 0, None, workspace) == later_entries(
            listed_entry(
                h.section,
                assigned_text(a, value) + ending,
                cargo_line(assigned_text(a, value), workspace),
            ),
            byte_len(heading_text(h)) as int,
        ),
{
    let top = heading_text(h);
    let line = assigned_text(a, value);
    let b = line + ending;
    let s = top + b;
    lemma_heading_line(h);
    lemma_line_first(top, b, 0);
    lemma_trimmed_heading(h);
    lemma_opened(h, workspace);
    assert(cargo_entries(s, 0, None, workspace) == cargo_entries(
        s,
        top.len() as int,
        Some(h.section),
        workspace,
    ));
    lemma_cargo_second(top, b, 0, Some(h.section), workspace);
    lemma_assigned_line(a, value, ending);
    reveal_with_fuel(cargo_entries, 2);
    assert(cargo_entries(b, 0, Some(h.section), workspace) =~= listed_entry(
        h.section,
        b,
        cargo_line(line, workspace),
    ));
}

/// Where a stretch of the value of a declaration stands, in bytes.
proof fn lemma_value_bytes(a: Assignment, value: Seq<char>, ending: Seq<char>, x: int)
    requires
        0 <= x <= value.len(),
    ensures
        byte_offset(assigned_text(a, value) + ending, assigned_head(a).len() + x) == byte_len(
            assigned_head(a),
        ) + byte_offset(value, x),
{
    let s = assigned_text(a, value) + ending;
    let n = assigned_head(a).len() as int;
    assert(s.take(n + x) =~= assigned_head(a) + value.take(x));
    lemma_encode_concat(assigned_head(a), value.take(x));
}

/// A version between quotation marks declares a dependency: with the name of its key,
/// in its section, and at the bytes that the version takes.
pub proof fn text_declares_its_version(
    h: Heading,
    a: Assignment,
    version: Seq<char>,
    ending: Seq<char>,
)
    requires
        is_heading(h),
        is_package_section(h.section) || h.section == "workspace.dependencies"@,
        is_assignment(a),
        is_bare(a.key),
        is_text(version),
        is_line_ending(ending),
    ensures
        ({
            let start = value_byte(h, a) + 1;
            manifest_dependencies(
                declaration_text(h, a, in_quotation_marks(version), ending),
                ManifestKind::Cargo,
            ) == seq![
                plain_dependency(
                    a.key,
                    h.section,
                    Registry::Cargo,
                    version,
                    start,
                    start + byte_len(version),
                ),
            ]
        }),
{
    lemma_section_names(h.section);
    lemma_text_entries(h, a, version, ending, true);
    let entries = cargo_entries(
        declaration_text(h, a, in_quotation_marks(version), ending),
        0,
        None,
        true,
    );
    let start = value_byte(h, a) + 1;
    assert(entry_dependencies(entries, Registry::Cargo) =~= seq![
        plain_dependency(
            a.key,
            h.section,
            Registry::Cargo,
            version,
            start,
            start + byte_len(version),
        ),
    ]);
}

/// The bytes of a text between quotation marks.
proof fn lemma_inner_bytes(head: Seq<char>, text: Seq<char>, rest: Seq<char>)
    ensures
        ({
            let value = head + in_quotation_marks(text) + rest;
            let n = head.len() as int;
            &&& byte_offset(value, n + 1) == byte_len(head) + 1
            &&& byte_offset(value, n + 1 + text.len()) == byte_len(head) + 1 + byte_len(text)
        }),
{
    let value = head + in_quotation_marks(text) + rest;
    let n = head.len() as int;
    let q = seq!['"'];
    assert(value.take(n + 1) =~= head + q);
    assert(value.take(n + 1 + text.len()) =~= head + q + text);
    lemma_encode_concat(head, q);
    lemma_encode_concat(head + q, text);
    lemma_one_byte();
}

/// A quotation mark takes one byte.
proof fn lemma_one_byte()
    ensures
        byte_len(seq!['"']) == 1,
{
    let q = seq!['"'];
    crate::text::lemma_byte_offset_step(q, 0);
    assert(q.take(1) =~= q);
    assert(q.take(0) =~= Seq::<char>::empty());
}

/// The entry of a version between quotation marks.
pub(crate) proof fn lemma_text_entries(
    h: Heading,
    a: Assignment,
    version: Seq<char>,
    ending: Seq<char>,
    workspace: bool,
)
    requires
        is_heading(h),
        is_section_name(h.section),
        is_cargo_section(h.section, workspace),
        is_assignment(a),
        is_bare(a.key),
        is_text(version),
        is_line_ending(ending),
    ensures
        ({
            let start = value_byte(h, a) + 1;
            cargo_entries(
                declaration_text(h, a, in_quotation_marks(version), ending),
                0,
                None,
                workspace,
            ) == seq![
                (EntryView {
                    name: a.key,
                    section: h.section,
                    version: Some(version),
                    start,
                    end: start + byte_len(version),
                }),
            ]
        }),
{
    let value = in_quotation_marks(version);
    let at = assigned_head(a).len() as int;
    lemma_quoted(version);
    lemma_bare_key(a.key);
    assert(value[0] == '"');
    lemma_assigned(a, value, workspace);
    lemma_declared(h, a, value, ending, workspace);
    let whole = value + a.gap;
    assert(whole.subrange(0, value.len() as int) =~= value);
    lemma_text_token(whole, 0, version, whole.len() as int);
    let none = Seq::<char>::empty();
    lemma_inner_bytes(none, version, none);
    assert(none + value + none =~= value);
    assert(byte_len(none) == 0);
    lemma_value_bytes(a, value, ending, 1);
    lemma_value_bytes(a, value, ending, 1 + version.len() as int);
    let start = value_byte(h, a) + 1;
    assert(cargo_entries(declaration_text(h, a, value, ending), 0, None, workspace) =~= seq![
        (EntryView {
            name: a.key,
            section: h.section,
            version: Some(version),
            start,
            end: start + byte_len(version),
        }),
    ]);
}

// ---------------------------------------------------------------------------
// Tables
// ---------------------------------------------------------------------------

/// None of the members of a table takes the package from elsewhere than the registry.
pub open spec fn is_registry_table(before: Seq<Member>, m: Member, behind: Seq<Member>) -> bool {
    &&& lacks_key(before, "path"@) && m.key != "path"@ && lacks_key(behind, "path"@)
    &&& lacks_key(before, "git"@) && m.key != "git"@ && lacks_key(behind, "git"@)
    &&& lacks_key(before, "registry"@) && m.key != "registry"@ && lacks_key(behind, "registry"@)
}

/// No member of a table has a key.
pub open spec fn table_lacks(before: Seq<Member>, m: Member, behind: Seq<Member>, key: Seq<char>) -> bool {
    lacks_key(before, key) && m.key != key && lacks_key(behind, key)
}

/// The byte of a table at which the value of one of its members begins.
pub open spec fn member_byte(before: Seq<Member>, m: Member) -> int {
    1 + byte_len(listed_text(before)) + byte_len(member_head(m)) as int
}

/// The bytes before the value of a member.
proof fn lemma_member_bytes(before: Seq<Member>, m: Member, behind: Seq<Member>)
    ensures
        ({
            let table = table_text(before, m, behind);
            let v = 1 + listed_text(before).len() + member_head(m).len() as int;
            &&& 0 <= v <= v + value_text(m.value).len() <= table.len()
            &&& byte_offset(table, v) == member_byte(before, m)
            &&& m.value matches Value::Text(text) ==> byte_offset(table, v + 1) == member_byte(
                before,
                m,
            ) + 1 && byte_offset(table, v + 1 + text.len()) == member_byte(before, m) + 1
                + byte_len(text)
            &&& m.value matches Value::Word(word) ==> byte_offset(table, v + word.len())
                == member_byte(before, m) + byte_len(word)
        }),
{
    let table = table_text(before, m, behind);
    let brace = seq!['{'];
    let l = listed_text(before);
    let head = brace + l + member_head(m);
    let v = head.len() as int;
    let rest = m.behind + trailing_text(behind) + seq!['}'];
    let value = value_text(m.value);
    assert(table =~= head + value + rest);
    assert(table.take(v) =~= head);
    lemma_encode_concat(brace + l, member_head(m));
    lemma_encode_concat(brace, l);
    crate::text::lemma_byte_offset_step(brace, 0);
    assert(brace.take(1) =~= brace);
    assert(brace.take(0) =~= Seq::<char>::empty());
    assert(byte_len(brace) == 1);
    match m.value {
        Value::Text(text) => {
            lemma_inner_bytes(head, text, rest);
        },
        Value::Word(word) => {
            assert(table.take(v + word.len()) =~= head + word);
            lemma_encode_concat(head, word);
        },
        _ => {},
    }
}

/// The entry of a table with a version.
pub(crate) proof fn lemma_table_entries(
    h: Heading,
    a: Assignment,
    before: Seq<Member>,
    m: Member,
    behind: Seq<Member>,
    ending: Seq<char>,
    workspace: bool,
)
    requires
        is_heading(h),
        is_section_name(h.section),
        is_cargo_section(h.section, workspace),
        is_assignment(a),
        is_bare(a.key),
        are_members(before),
        is_member(m),
        are_members(behind),
        m.key == "version"@,
        lacks_key(before, "version"@),
        m.value is Text,
        is_registry_table(before, m, behind),
        workspace ==> table_lacks(before, m, behind, "workspace"@),
        !workspace ==> !contains_text(
            table_text(before, m, behind) + a.gap,
            "workspace = true"@,
        ) && !contains_text(table_text(before, m, behind) + a.gap, "workspace=true"@),
        is_line_ending(ending),
    ensures
        ({
            let version = m.value->Text_0;
            let start = value_byte(h, a) + member_byte(before, m) + 1;
            cargo_entries(
                declaration_text(h, a, table_text(before, m, behind), ending),
                0,
                None,
                workspace,
            ) == seq![
                (EntryView {
                    name: a.key,
                    section: h.section,
                    version: Some(version),
                    start,
                    end: start + byte_len(version),
                }),
            ]
        }),
{
    let version = m.value->Text_0;
    let table = table_text(before, m, behind);
    let whole = table + a.gap;
    let v = 1 + listed_text(before).len() + member_head(m).len() as int;
    lemma_table(before, m, behind);
    lemma_bare_key(a.key);
    lemma_assigned(a, table, workspace);
    lemma_declared(h, a, table, ending, workspace);
    assert(whole[0] == '{');
    lemma_json_token(whole, 0, whole.len() as int);
    assert(quoted_value(whole) is None);
    lemma_table_lacks(before, m, behind, a.gap, "path"@, workspace);
    lemma_table_lacks(before, m, behind, a.gap, "git"@, workspace);
    lemma_table_lacks(before, m, behind, a.gap, "registry"@, workspace);
    if workspace {
        lemma_table_lacks(before, m, behind, a.gap, "workspace"@, true);
    }
    lemma_table_value(before, m, behind, a.gap, workspace);
    lemma_member_bytes(before, m, behind);
    lemma_value_bytes(a, table, ending, v + 1);
    lemma_value_bytes(a, table, ending, v + 1 + version.len());
    let start = value_byte(h, a) + member_byte(before, m) + 1;
    assert(cargo_entries(declaration_text(h, a, table, ending), 0, None, workspace) =~= seq![
        (EntryView {
            name: a.key,
            section: h.section,
            version: Some(version),
            start,
            end: start + byte_len(version),
        }),
    ]);
}

/// A table with a version declares a dependency with it, whatever other keys it has
/// and wherever they stand, unless it takes the package from a path, a repository or
/// another registry, or its version from the workspace.
pub proof fn table_declares_its_version(
    h: Heading,
    a: Assignment,
    before: Seq<Member>,
    m: Member,
    behind: Seq<Member>,
    ending: Seq<char>,
)
    requires
        is_heading(h),
        is_package_section(h.section) || h.section == "workspace.dependencies"@,
        is_assignment(a),
        is_bare(a.key),
        are_members(before),
        is_member(m),
        are_members(behind),
        m.key == "version"@,
        lacks_key(before, "version"@),
        m.value is Text,
        is_registry_table(before, m, behind),
        table_lacks(before, m, behind, "workspace"@),
        is_line_ending(ending),
    ensures
        ({
            let version = m.value->Text_0;
            let start = value_byte(h, a) + member_byte(before, m) + 1;
            manifest_dependencies(
                declaration_text(h, a, table_text(before, m, behind), ending),
                ManifestKind::Cargo,
            ) == seq![
                plain_dependency(
                    a.key,
                    h.section,
                    Registry::Cargo,
                    version,
                    start,
                    start + byte_len(version),
                ),
            ]
        }),
{
    lemma_section_names(h.section);
    lemma_table_entries(h, a, before, m, behind, ending, true);
    let version = m.value->Text_0;
    let start = value_byte(h, a) + member_byte(before, m) + 1;
    let entries = cargo_entries(
        declaration_text(h, a, table_text(before, m, behind), ending),
        0,
        None,
        true,
    );
    assert(entry_dependencies(entries, Registry::Cargo) =~= seq![
        plain_dependency(
            a.key,
            h.section,
            Registry::Cargo,
            version,
            start,
            start + byte_len(version),
        ),
    ]);
}

/// A table that takes the package from elsewhere has no entry.
pub(crate) proof fn lemma_elsewhere_entries(
    h: Heading,
    a: Assignment,
    before: Seq<Member>,
    m: Member,
    behind: Seq<Member>,
    ending: Seq<char>,
    workspace: bool,
)
    requires
        is_heading(h),
        is_section_name(h.section),
        is_cargo_section(h.section, workspace),
        is_assignment(a),
        is_bare(a.key),
        are_members(before),
        is_member(m),
        are_members(behind),
        m.key == "path"@ || m.key == "git"@ || m.key == "registry"@,
        lacks_key(before, m.key),
        m.value is Text,
        workspace ==> table_lacks(before, m, behind, "workspace"@),
        is_line_ending(ending),
    ensures
        cargo_entries(
            declaration_text(h, a, table_text(before, m, behind), ending),
            0,
            None,
            workspace,
        ).len() == 0,
{
    let table = table_text(before, m, behind);
    let whole = table + a.gap;
    lemma_table(before, m, behind);
    lemma_bare_key(a.key);
    lemma_assigned(a, table, workspace);
    lemma_declared(h, a, table, ending, workspace);
    assert(whole[0] == '{');
    lemma_json_token(whole, 0, whole.len() as int);
    assert(quoted_value(whole) is None);
    if workspace {
        lemma_table_lacks(before, m, behind, a.gap, "workspace"@, true);
    }
    lemma_table_value(before, m, behind, a.gap, workspace);
    assert(is_unsupported_table(whole, workspace));
}

/// Where no workspace is known, a table that leaves its version to it has no entry.
#[verifier::rlimit(40)]
pub(crate) proof fn lemma_deferred_entries(
    h: Heading,
    a: Assignment,
    before: Seq<Member>,
    m: Member,
    behind: Seq<Member>,
    ending: Seq<char>,
)
    requires
        is_heading(h),
        is_section_name(h.section),
        is_cargo_section(h.section, false),
        is_assignment(a),
        is_bare(a.key),
        are_members(before),
        is_member(m),
        are_members(behind),
        m.key == "workspace"@,
        m.value == Value::Word("true"@),
        m.before == m.after,
        m.before == seq![' '] || m.before.len() == 0,
        is_line_ending(ending),
    ensures
        cargo_entries(
            declaration_text(h, a, table_text(before, m, behind), ending),
            0,
            None,
            false,
        ).len() == 0,
{
    let table = table_text(before, m, behind);
    let whole = table + a.gap;
    lemma_table(before, m, behind);
    lemma_bare_key(a.key);
    lemma_assigned(a, table, false);
    lemma_declared(h, a, table, ending, false);
    assert(whole[0] == '{');
    lemma_json_token(whole, 0, whole.len() as int);
    assert(quoted_value(whole) is None);
    reveal_strlit("workspace");
    reveal_strlit("true");
    reveal_strlit("workspace = true");
    reveal_strlit("workspace=true");
    let i = 1 + listed_text(before).len() + m.lead.len() as int;
    let rest = m.behind + trailing_text(behind) + seq!['}'] + a.gap;
    if m.before.len() == 0 {
        assert(m.before =~= Seq::<char>::empty());
        assert(whole.skip(i) =~= "workspace=true"@ + rest);
        assert("workspace=true"@ =~= whole.skip(i).take(14));
        assert("workspace=true"@.is_prefix_of(whole.skip(i)));
    } else {
        assert(whole.skip(i) =~= "workspace = true"@ + rest);
        assert("workspace = true"@ =~= whole.skip(i).take(16));
        assert("workspace = true"@.is_prefix_of(whole.skip(i)));
    }
    assert(is_unsupported_table(whole, false));
}

/// A table that takes the package from a path, a repository or another registry
/// declares nothing, whatever version it has.
pub proof fn table_from_elsewhere_declares_nothing(
    h: Heading,
    a: Assignment,
    before: Seq<Member>,
    m: Member,
    behind: Seq<Member>,
    ending: Seq<char>,
)
    requires
        is_heading(h),
        is_package_section(h.section) || h.section == "workspace.dependencies"@,
        is_assignment(a),
        is_bare(a.key),
        are_members(before),
        is_member(m),
        are_members(behind),
        m.key == "path"@ || m.key == "git"@ || m.key == "registry"@,
        lacks_key(before, m.key),
        m.value is Text,
        table_lacks(before, m, behind, "workspace"@),
        is_line_ending(ending),
    ensures
        manifest_dependencies(
            declaration_text(h, a, table_text(before, m, behind), ending),
            ManifestKind::Cargo,
        ).len() == 0,
{
    lemma_section_names(h.section);
    lemma_elsewhere_entries(h, a, before, m, behind, ending, true);
}

/// A table that leaves its version to the workspace declares a dependency that does,
/// whatever other keys it has.
pub proof fn table_refers_to_the_workspace(
    h: Heading,
    a: Assignment,
    before: Seq<Member>,
    m: Member,
    behind: Seq<Member>,
    ending: Seq<char>,
)
    requires
        is_heading(h),
        is_package_section(h.section) || h.section == "workspace.dependencies"@,
        is_assignment(a),
        is_bare(a.key),
        are_members(before),
        is_member(m),
        are_members(behind),
        m.key == "workspace"@,
        lacks_key(before, "workspace"@),
        m.value == Value::Word("true"@),
        is_line_ending(ending),
    ensures
        ({
            let start = value_byte(h, a) + member_byte(before, m);
            manifest_dependencies(
                declaration_text(h, a, table_text(before, m, behind), ending),
                ManifestKind::Cargo,
            ) == seq![
                workspace_dependency(a.key, h.section, start, start + byte_len("true"@)),
            ]
        }),
{
    let table = table_text(before, m, behind);
    let whole = table + a.gap;
    let word = "true"@;
    let v = 1 + listed_text(before).len() + member_head(m).len() as int;
    lemma_section_names(h.section);
    lemma_table(before, m, behind);
    lemma_bare_key(a.key);
    lemma_assigned(a, table, true);
    lemma_declared(h, a, table, ending, true);
    assert(whole[0] == '{');
    lemma_json_token(whole, 0, whole.len() as int);
    assert(quoted_value(whole) is None);
    lemma_table_value(before, m, behind, a.gap, true);
    lemma_member_bytes(before, m, behind);
    lemma_value_bytes(a, table, ending, v);
    lemma_value_bytes(a, table, ending, v + word.len());
    let start = value_byte(h, a) + member_byte(before, m);
    assert(manifest_dependencies(declaration_text(h, a, table, ending), ManifestKind::Cargo)
        =~= seq![workspace_dependency(a.key, h.section, start, start + byte_len(word))]);
}

/// A key behind a name and a full stop leaves the version to the workspace too.
pub proof fn dotted_key_refers_to_the_workspace(
    h: Heading,
    a: Assignment,
    name: Seq<char>,
    ending: Seq<char>,
)
    requires
        is_heading(h),
        is_package_section(h.section) || h.section == "workspace.dependencies"@,
        is_assignment(a),
        is_bare(name),
        a.key == name + ".workspace"@,
        is_line_ending(ending),
    ensures
        manifest_dependencies(declaration_text(h, a, "true"@, ending), ManifestKind::Cargo)
            == seq![
            workspace_dependency(
                name,
                h.section,
                value_byte(h, a),
                value_byte(h, a) + byte_len("true"@),
            ),
        ],
{
    reveal_strlit("true");
    reveal_strlit(".workspace");
    let value = "true"@;
    let whole = value + a.gap;
    lemma_section_names(h.section);
    lemma_plain(value);
    lemma_uncommented(a, value);
    lemma_split(a, value);
    lemma_declared(h, a, value, ending, true);
    let n = name.len() as int;
    assert(a.key.subrange(n, a.key.len() as int) =~= ".workspace"@);
    assert(a.key.take(n) =~= name);
    assert(is_key_char(name[0]) && is_key_char(name[n - 1]));
    assert(trimmed_start(name) == name);
    lemma_trimmed_gap(name, n);
    assert(name.take(n) =~= name);
    assert(workspace_base(a.key) == name);
    assert(whole[0] == 't' && whole[3] == 'e');
    assert(trimmed_start(whole) == whole);
    assert forall|k: int| 4 <= k < whole.len() implies is_whitespace(#[trigger] whole[k]) by {
        assert(whole[k] == a.gap[k - 4]);
    }
    lemma_trimmed_gap(whole, 4);
    assert(whole.take(4) =~= value);
    assert(trimmed(whole) == value);
    lemma_value_bytes(a, value, ending, 0);
    lemma_value_bytes(a, value, ending, 4);
    assert(value.take(0) =~= Seq::<char>::empty());
    assert(value.take(4) =~= value);
    assert(manifest_dependencies(declaration_text(h, a, value, ending), ManifestKind::Cargo)
        =~= seq![
        workspace_dependency(
            name,
            h.section,
            value_byte(h, a),
            value_byte(h, a) + byte_len("true"@),
        ),
    ]);
}

} // verus!
