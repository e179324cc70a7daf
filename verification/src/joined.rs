//! The entries of two texts that are written one behind the other.

use crate::cargo_edits::{lemma_line_entry_bounds, lemma_line_prefix};
use crate::entries::{cargo_entries, cargo_line, cargo_section, line_entries, EntryView};
use crate::lines::{lemma_line_end, line_at, line_end};
use crate::python::{
    line_requirement, listed, requirements_entries, requirements_line_entry, PythonEntryView,
};
use crate::python_edits::{lemma_line_placed, lemma_moved_concat, moved_entries};
use crate::text::{byte_len, byte_offset, index_of, lemma_encode_concat, lemma_index_of, trimmed};
use vstd::prelude::*;

verus! {

/// Nothing stands behind the last line break of a text.
pub open spec fn ends_a_line(s: Seq<char>) -> bool {
    s.len() == 0 || s.last() == '\n'
}

/// The first line of a text opens or closes a section.
pub open spec fn begins_with_header(s: Seq<char>) -> bool {
    s.len() > 0 && {
        let header = trimmed(line_at(s, 0));
        header.len() > 0 && header[0] == '['
    }
}

/// The lines of the first text are lines of both.
pub(crate) proof fn lemma_line_first(a: Seq<char>, b: Seq<char>, from: int)
    requires
        ends_a_line(a),
        0 <= from < a.len(),
    ensures
        line_end(a + b, from) == line_end(a, from),
        line_at(a + b, from) == line_at(a, from),
{
    let t = a + b;
    lemma_index_of(a, '\n', from, a.len() as int);
    lemma_index_of(t, '\n', from, t.len() as int);
    assert(a[a.len() - 1] == '\n');
    let end = line_end(a, from);
    assert(t[end - 1] == a[end - 1]);
    assert forall|k: int| from <= k < end - 1 implies t[k] != '\n' by {
        assert(t[k] == a[k]);
    }
    assert(t.subrange(from, end) =~= a.subrange(from, end));
}

/// The lines of the second text are lines of both.
pub(crate) proof fn lemma_line_second(a: Seq<char>, b: Seq<char>, from: int)
    requires
        0 <= from < b.len(),
    ensures
        line_end(a + b, a.len() + from) == a.len() + line_end(b, from),
        line_at(a + b, a.len() + from) == line_at(b, from),
{
    let t = a + b;
    let n = a.len() as int;
    lemma_index_of(b, '\n', from, b.len() as int);
    lemma_index_of(t, '\n', n + from, t.len() as int);
    assert forall|k: int| 0 <= k < b.len() implies t[n + k] == #[trigger] b[k] by {}
    let end = line_end(b, from);
    if let Some(i) = index_of(t, '\n', n + from, t.len() as int) {
        assert(b[i - n] == t[i]);
    }
    assert(t.subrange(n + from, n + end) =~= b.subrange(from, end));
}

/// The bytes of the first text stand where they stood, and those of the second one
/// follow.
pub(crate) proof fn lemma_bytes_joined(a: Seq<char>, b: Seq<char>, p: int)
    ensures
        0 <= p <= a.len() ==> byte_offset(a + b, p) == byte_offset(a, p),
        0 <= p <= b.len() ==> byte_offset(a + b, a.len() + p) == byte_len(a) + byte_offset(b, p),
{
    if 0 <= p <= a.len() {
        assert((a + b).take(p) =~= a.take(p));
    }
    if 0 <= p <= b.len() {
        assert((a + b).take(a.len() + p) =~= a + b.take(p));
        lemma_encode_concat(a, b.take(p));
    }
}

// ---------------------------------------------------------------------------
// Requirements files
// ---------------------------------------------------------------------------

/// The entries of the second text are moved.
proof fn lemma_requirements_second(a: Seq<char>, b: Seq<char>, from: int)
    requires
        0 <= from <= b.len(),
    ensures
        requirements_entries(a + b, a.len() + from) == moved_entries(
            requirements_entries(b, from),
            a.len() as int,
            byte_len(a) as int,
        ),
    decreases b.len() - from,
{
    let t = a + b;
    let n = a.len() as int;
    let bytes = byte_len(a) as int;
    if from < b.len() {
        lemma_line_second(a, b, from);
        lemma_line_end(b, from);
        lemma_line_prefix(b.subrange(from, line_end(b, from)));
        let u = line_at(b, from);
        if let Some((r, st)) = line_requirement(u) {
            lemma_line_placed(u);
            lemma_bytes_joined(a, b, from + st);
        }
        let here = listed(requirements_line_entry(b, from));
        assert(listed(requirements_line_entry(t, n + from)) =~= moved_entries(here, n, bytes));
        let next = line_end(b, from);
        lemma_requirements_second(a, b, next);
        lemma_moved_concat(here, requirements_entries(b, next), n, bytes);
    } else {
        assert(moved_entries(requirements_entries(b, from), n, bytes) =~= Seq::<
            PythonEntryView,
        >::empty());
    }
}

/// The entries of both texts, from a line of the first one on.
pub(crate) proof fn lemma_requirements_joined(a: Seq<char>, b: Seq<char>, from: int)
    requires
        ends_a_line(a),
        0 <= from <= a.len(),
    ensures
        requirements_entries(a + b, from) == requirements_entries(a, from) + moved_entries(
            requirements_entries(b, 0),
            a.len() as int,
            byte_len(a) as int,
        ),
    decreases a.len() - from,
{
    let later = moved_entries(requirements_entries(b, 0), a.len() as int, byte_len(a) as int);
    if from < a.len() {
        lemma_line_first(a, b, from);
        lemma_line_end(a, from);
        lemma_line_prefix(a.subrange(from, line_end(a, from)));
        let u = line_at(a, from);
        if let Some((r, st)) = line_requirement(u) {
            lemma_line_placed(u);
            lemma_bytes_joined(a, b, from + st);
        }
        let next = line_end(a, from);
        lemma_requirements_joined(a, b, next);
        let here = listed(requirements_line_entry(a, from));
        assert(here + (requirements_entries(a, next) + later) =~= here + requirements_entries(
            a,
            next,
        ) + later);
    } else {
        lemma_requirements_second(a, b, 0);
        assert(requirements_entries(a, from) + later =~= later);
    }
}

// ---------------------------------------------------------------------------
// Cargo manifests
// ---------------------------------------------------------------------------

/// Entries that stand `bytes` further to the right.
pub open spec fn later_entries(entries: Seq<EntryView>, bytes: int) -> Seq<EntryView> {
    Seq::new(
        entries.len(),
        |k: int|
            EntryView { start: entries[k].start + bytes, end: entries[k].end + bytes, ..entries[k] },
    )
}

/// The entries of the second text are moved.
pub(crate) proof fn lemma_cargo_second(
    a: Seq<char>,
    b: Seq<char>,
    from: int,
    section: Option<Seq<char>>,
    workspace: bool,
)
    requires
        0 <= from <= b.len(),
    ensures
        cargo_entries(a + b, a.len() + from, section, workspace) == later_entries(
            cargo_entries(b, from, section, workspace),
            byte_len(a) as int,
        ),
    decreases b.len() - from,
{
    let t = a + b;
    let n = a.len() as int;
    let bytes = byte_len(a) as int;
    if from < b.len() {
        lemma_line_second(a, b, from);
        lemma_line_end(b, from);
        let next = line_end(b, from);
        let header = trimmed(line_at(b, from));
        if header.len() > 0 && header[0] == '[' {
            lemma_cargo_second(a, b, next, cargo_section(header, workspace), workspace);
        } else {
            lemma_cargo_second(a, b, next, section, workspace);
            lemma_line_entry_bounds(b, from, workspace);
            let here = line_entries(b, from, section, workspace);
            let rest = cargo_entries(b, next, section, workspace);
            if let Some(e) = cargo_line(line_at(b, from), workspace) {
                lemma_bytes_joined(a, b, from + e.start);
                lemma_bytes_joined(a, b, from + e.end);
            }
            assert(line_entries(t, n + from, section, workspace) =~= later_entries(here, bytes));
            assert(later_entries(here, bytes) + later_entries(rest, bytes) =~= later_entries(
                here + rest,
                bytes,
            ));
        }
    } else {
        assert(later_entries(cargo_entries(b, from, section, workspace), bytes) =~= Seq::<
            EntryView,
        >::empty());
    }
}

/// The entries of both texts, from a line of the first one on.
pub(crate) proof fn lemma_cargo_joined(
    a: Seq<char>,
    b: Seq<char>,
    from: int,
    section: Option<Seq<char>>,
    workspace: bool,
)
    requires
        ends_a_line(a),
        begins_with_header(b),
        0 <= from <= a.len(),
    ensures
        cargo_entries(a + b, from, section, workspace) == cargo_entries(a, from, section, workspace)
            + later_entries(cargo_entries(b, 0, None, workspace), byte_len(a) as int),
    decreases a.len() - from,
{
    let later = later_entries(cargo_entries(b, 0, None, workspace), byte_len(a) as int);
    if from < a.len() {
        lemma_line_first(a, b, from);
        lemma_line_end(a, from);
        let next = line_end(a, from);
        let header = trimmed(line_at(a, from));
        if header.len() > 0 && header[0] == '[' {
            lemma_cargo_joined(a, b, next, cargo_section(header, workspace), workspace);
        } else {
            lemma_cargo_joined(a, b, next, section, workspace);
            lemma_line_entry_bounds(a, from, workspace);
            if let Some(e) = cargo_line(line_at(a, from), workspace) {
                lemma_bytes_joined(a, b, from + e.start);
                lemma_bytes_joined(a, b, from + e.end);
            }
            let here = line_entries(a, from, section, workspace);
            let rest = cargo_entries(a, next, section, workspace);
            assert(line_entries(a + b, from, section, workspace) =~= here);
            assert(here + (rest + later) =~= here + rest + later);
        }
    } else {
        lemma_cargo_second(a, b, 0, section, workspace);
        assert(cargo_entries(b, 0, section, workspace) == cargo_entries(b, 0, None, workspace));
        assert(cargo_entries(a, from, section, workspace) + later =~= later);
    }
}

} // verus!
