//! What becomes of the entries of a Python manifest when one of its requirements
//! is pinned to a version.

use crate::cargo_edits::{lemma_line_before, lemma_line_behind};
use crate::edits::{
    byte_shift, is_edit, lemma_bytes_moved, lemma_escaped_same, lemma_first_moved,
    lemma_index_moved, lemma_replaced, replaced, shift,
};
use crate::lines::{lemma_line_end, line_at, line_end, without_line_break};
use crate::python::{
    in_quotes, is_path_like, line_requirement, listed, read_requirement, requirement_entry,
    requirements_entries, requirements_line_entry, starts_comment, without_requirement_comment,
    PythonEntryView,
};
use crate::requirement::{
    ends_specifiers, extras_end, in_class, is_foreign, is_operator_at, is_operator_char,
    is_quotation_mark, is_readable, lemma_run_end, marker_start, run_end, specifier_span,
    specifier_start, specifier_stop, version_start, Class,
};
use crate::scan::escaped_at;
use crate::text::{
    byte_offset, contains_text, first_index, is_whitespace, lemma_byte_offset_step,
    lemma_encode_concat, lemma_first_index, lemma_index_of, trimmed, trimmed_end, trimmed_start,
};
use crate::version::{is_python_version_char, is_python_version_text};
use vstd::prelude::*;

verus! {

// ---------------------------------------------------------------------------
// Pins
// ---------------------------------------------------------------------------

/// A specifier that pins a version.
pub open spec fn is_pin(new: Seq<char>) -> bool {
    &&& new.len() > 2
    &&& new[0] == '='
    &&& new[1] == '='
    &&& forall|k: int| 2 <= k < new.len() ==> is_python_version_char(#[trigger] new[k])
}

/// Version specifiers stand at `i..j`, and `new` pins a version.
pub open spec fn is_repin(s: Seq<char>, i: int, j: int, new: Seq<char>) -> bool {
    &&& 0 <= i < j <= s.len()
    &&& is_pin(new)
    &&& forall|k: int| i <= k < j ==> !is_foreign(#[trigger] s[k])
    &&& !is_whitespace(s[i])
    &&& !is_whitespace(s[j - 1])
}

/// What a pin is made of.
pub(crate) proof fn lemma_pin(new: Seq<char>)
    requires
        is_pin(new),
    ensures
        forall|k: int|
            0 <= k < new.len() ==> !is_foreign(#[trigger] new[k]) && !is_whitespace(new[k])
                && new[k] != ';' && new[k] != ')' && new[k] != ':' && new[k] != '/' && new[k]
                != '\n' && new[k] != '\\',
{
    assert forall|k: int| 0 <= k < new.len() implies !is_foreign(#[trigger] new[k])
        && !is_whitespace(new[k]) && new[k] != ';' && new[k] != ')' && new[k] != ':' && new[k]
        != '/' && new[k] != '\n' && new[k] != '\\' by {
        if k >= 2 {
            assert(is_python_version_char(new[k]));
        }
    }
}

/// A version behind two equals signs pins it.
pub proof fn lemma_pinned(version: Seq<char>)
    requires
        is_python_version_text(version),
    ensures
        is_pin("=="@ + version),
{
    reveal_strlit("==");
    let new = "=="@ + version;
    assert forall|k: int| 2 <= k < new.len() implies is_python_version_char(#[trigger] new[k]) by {
        assert(new[k] == version[k - 2]);
    }
}

/// Replacing in the stretch `k..m`.
pub(crate) proof fn lemma_edit_subrange(
    s: Seq<char>,
    i: int,
    j: int,
    new: Seq<char>,
    k: int,
    m: int,
)
    requires
        is_edit(s, i, j, new),
        0 <= k <= i,
        j <= m <= s.len(),
    ensures
        is_edit(s.subrange(k, m), i - k, j - k, new),
        replaced(s, i, j, new).subrange(k, m + shift(i, j, new)) == replaced(
            s.subrange(k, m),
            i - k,
            j - k,
            new,
        ),
{
    assert(replaced(s, i, j, new).subrange(k, m + shift(i, j, new)) =~= replaced(
        s.subrange(k, m),
        i - k,
        j - k,
        new,
    ));
}

/// Specifiers in the stretch `k..m`.
pub(crate) proof fn lemma_repin_subrange(
    s: Seq<char>,
    i: int,
    j: int,
    new: Seq<char>,
    k: int,
    m: int,
)
    requires
        is_repin(s, i, j, new),
        0 <= k <= i,
        j <= m <= s.len(),
    ensures
        is_repin(s.subrange(k, m), i - k, j - k, new),
{
    let u = s.subrange(k, m);
    assert forall|p: int| i - k <= p < j - k implies !is_foreign(#[trigger] u[p]) by {
        assert(u[p] == s[p + k]);
    }
}

// ---------------------------------------------------------------------------
// Trimming
// ---------------------------------------------------------------------------

/// What is kept of a text whose white space at the start is known.
pub(crate) proof fn lemma_trim_start_at(s: Seq<char>, k: int)
    requires
        0 <= k <= s.len(),
        forall|p: int| 0 <= p < k ==> is_whitespace(#[trigger] s[p]),
        k < s.len() ==> !is_whitespace(s[k]),
    ensures
        trimmed_start(s) == s.skip(k),
    decreases k,
{
    if k > 0 {
        let u = s.skip(1);
        assert forall|p: int| 0 <= p < k - 1 implies is_whitespace(#[trigger] u[p]) by {
            assert(u[p] == s[p + 1]);
        }
        assert(is_whitespace(s[0]));
        lemma_trim_start_at(u, k - 1);
        assert(u.skip(k - 1) =~= s.skip(k));
    } else {
        assert(s.skip(0) =~= s);
    }
}

/// How much white space a text begins with.
pub(crate) proof fn lemma_trim_start_found(s: Seq<char>) -> (k: int)
    ensures
        0 <= k <= s.len(),
        trimmed_start(s) == s.skip(k),
        forall|p: int| 0 <= p < k ==> is_whitespace(#[trigger] s[p]),
        k < s.len() ==> !is_whitespace(s[k]),
    decreases s.len(),
{
    if s.len() > 0 && is_whitespace(s[0]) {
        let u = s.skip(1);
        let k = lemma_trim_start_found(u);
        assert forall|p: int| 0 <= p < k + 1 implies is_whitespace(#[trigger] s[p]) by {
            if p > 0 {
                assert(u[p - 1] == s[p]);
            }
        }
        assert(u.skip(k) =~= s.skip(k + 1));
        k + 1
    } else {
        assert(s.skip(0) =~= s);
        0
    }
}

/// What is kept of a text whose white space at the end is known.
proof fn lemma_trim_end_at(s: Seq<char>, m: int)
    requires
        0 <= m <= s.len(),
        forall|p: int| m <= p < s.len() ==> is_whitespace(#[trigger] s[p]),
        m > 0 ==> !is_whitespace(s[m - 1]),
    ensures
        trimmed_end(s) == s.take(m),
    decreases s.len(),
{
    if m < s.len() {
        let u = s.drop_last();
        assert(is_whitespace(s[s.len() - 1]));
        assert forall|p: int| m <= p < u.len() implies is_whitespace(#[trigger] u[p]) by {
            assert(u[p] == s[p]);
        }
        lemma_trim_end_at(u, m);
        assert(u.take(m) =~= s.take(m));
    } else {
        assert(s.take(m) =~= s);
    }
}

/// How far a text reaches before the white space at its end.
pub(crate) proof fn lemma_trim_end_found(s: Seq<char>) -> (m: int)
    ensures
        0 <= m <= s.len(),
        trimmed_end(s) == s.take(m),
        trimmed_end(s).len() == m,
        forall|p: int| m <= p < s.len() ==> is_whitespace(#[trigger] s[p]),
        m > 0 ==> !is_whitespace(s[m - 1]),
    decreases s.len(),
{
    if s.len() > 0 && is_whitespace(s.last()) {
        let u = s.drop_last();
        let m = lemma_trim_end_found(u);
        assert forall|p: int| m <= p < s.len() implies is_whitespace(#[trigger] s[p]) by {
            if p < u.len() {
                assert(u[p] == s[p]);
            }
        }
        assert(u.take(m) =~= s.take(m));
        m
    } else {
        assert(s.take(s.len() as int) =~= s);
        s.len() as int
    }
}

/// A text that ends in no white space before the stretch `i..j` is trimmed the same
/// way with it replaced.
proof fn lemma_trim_end_moved(s: Seq<char>, i: int, j: int, new: Seq<char>)
    requires
        is_repin(s, i, j, new),
    ensures
        j <= trimmed_end(s).len() <= s.len(),
        trimmed_end(s) == s.take(trimmed_end(s).len() as int),
        trimmed_end(replaced(s, i, j, new)) == replaced(s, i, j, new).take(
            trimmed_end(s).len() + shift(i, j, new),
        ),
{
    lemma_pin(new);
    lemma_replaced(s, i, j, new);
    let t = replaced(s, i, j, new);
    let d = shift(i, j, new);
    let m = lemma_trim_end_found(s);
    assert(m >= j) by {
        if m < j {
            assert(is_whitespace(s[j - 1]));
        }
    }
    assert forall|p: int| m + d <= p < t.len() implies is_whitespace(#[trigger] t[p]) by {
        assert(s[p - d] == t[p - d + d]);
    }
    assert(!is_whitespace(t[m + d - 1])) by {
        if m > j {
            assert(s[m - 1] == t[m - 1 + d]);
        } else {
            assert(t[m + d - 1] == new[new.len() - 1]);
        }
    }
    lemma_trim_end_at(t, m + d);
}

// ---------------------------------------------------------------------------
// One requirement
// ---------------------------------------------------------------------------

/// A search for specifiers passes over what is no bracket, semicolon or operator.
proof fn lemma_start_over(s: Seq<char>, from: int, to: int)
    requires
        0 <= from <= to <= s.len(),
        forall|k: int|
            from <= k < to ==> #[trigger] s[k] != '[' && s[k] != ']' && s[k] != ';'
                && !is_operator_char(s[k]),
    ensures
        specifier_start(s, from, 0) == specifier_start(s, to, 0),
    decreases to - from,
{
    if from < to {
        assert(!is_operator_char(s[from]));
        lemma_start_over(s, from + 1, to);
    }
}

/// A search for specifiers passes over what stands in brackets.
proof fn lemma_start_inside(s: Seq<char>, from: int, to: int)
    requires
        0 <= from <= to <= s.len(),
        forall|k: int| from <= k < to ==> #[trigger] s[k] != '[' && s[k] != ']',
    ensures
        specifier_start(s, from, 1) == specifier_start(s, to, 1),
    decreases to - from,
{
    if from < to {
        assert(s[from] != '[');
        lemma_start_inside(s, from + 1, to);
    }
}

/// A run of characters is passed over by a search for specifiers.
proof fn lemma_start_run(s: Seq<char>, class: Class, from: int)
    requires
        0 <= from <= s.len(),
        class == Class::Space || class == Class::Name,
    ensures
        from <= run_end(s, class, from) <= s.len(),
        specifier_start(s, from, 0) == specifier_start(s, run_end(s, class, from), 0),
        from < run_end(s, class, from) ==> !is_operator_char(s[run_end(s, class, from) - 1]),
{
    lemma_run_end(s, class, from);
    let end = run_end(s, class, from);
    assert forall|k: int| from <= k < end implies #[trigger] s[k] != '[' && s[k] != ']' && s[k]
        != ';' && !is_operator_char(s[k]) by {
        assert(in_class(class, s[k]));
    }
    lemma_start_over(s, from, end);
    if from < end {
        assert(in_class(class, s[end - 1]));
    }
}

/// Where the specifiers of a requirement that can be read stand, and what they are
/// made of.
pub proof fn lemma_readable(s: Seq<char>)
    requires
        is_readable(s),
    ensures
        specifier_start(s, 0, 0) is Some,
        0 < specifier_start(s, 0, 0)->0 < s.len(),
        is_operator_at(s, specifier_start(s, 0, 0)->0),
        !is_operator_char(s[specifier_start(s, 0, 0)->0 - 1]),
        forall|k: int|
            specifier_start(s, 0, 0)->0 <= k < marker_start(s, specifier_start(s, 0, 0)->0)
                ==> !is_foreign(#[trigger] s[k]),
{
    let name = run_end(s, Class::Space, 0);
    lemma_start_run(s, Class::Space, 0);
    let name_end = run_end(s, Class::Name, name);
    lemma_start_run(s, Class::Name, name);
    let extras = run_end(s, Class::Space, name_end);
    lemma_start_run(s, Class::Space, name_end);
    let end = extras_end(s, extras)->0;
    if extras < s.len() && s[extras] == '[' {
        lemma_index_of(s, ']', extras, s.len() as int);
        assert forall|k: int| extras + 1 <= k < end - 1 implies #[trigger] s[k] != '[' && s[k]
            != ']' by {}
        lemma_start_inside(s, extras + 1, end - 1);
    }
    assert(specifier_start(s, 0, 0) == specifier_start(s, end, 0));
    assert(0 < end <= s.len());
    assert(!is_operator_char(s[end - 1]));
    let i = run_end(s, Class::Space, end);
    lemma_start_run(s, Class::Space, end);
    let version = version_start(s, end);
    if i < s.len() && s[i] == '(' {
        assert(specifier_start(s, i, 0) == specifier_start(s, i + 1, 0));
        lemma_start_run(s, Class::Space, i + 1);
    }
    assert(specifier_start(s, 0, 0) == specifier_start(s, version, 0));
    assert(!is_operator_char(s[version - 1]));
    assert(is_operator_char(s[version]));
    assert(specifier_start(s, version, 0) == Some(version));
}

/// A search for specifiers finds the same place, with them replaced.
proof fn lemma_start_moved(s: Seq<char>, a: int, b: int, new: Seq<char>, i: int, depth: nat)
    requires
        is_repin(s, a, b, new),
        0 <= i <= a,
        specifier_start(s, i, depth) == Some(a),
        a > 0 ==> !is_operator_char(s[a - 1]),
    ensures
        specifier_start(replaced(s, a, b, new), i, depth) == Some(a),
    decreases a - i,
{
    lemma_replaced(s, a, b, new);
    let t = replaced(s, a, b, new);
    if i < a {
        assert(t[i] == s[i]);
        if i + 1 < a {
            assert(t[i + 1] == s[i + 1]);
        }
        let next = if s[i] == '[' {
            depth + 1
        } else if s[i] == ']' && depth > 0 {
            (depth - 1) as nat
        } else {
            depth
        };
        lemma_start_moved(s, a, b, new, i + 1, next);
    } else {
        assert(t[a] == new[0]);
        assert(t[a + 1] == new[1]);
        lemma_start_depth(s, a, depth);
    }
}

/// Specifiers begin outside brackets.
proof fn lemma_start_depth(s: Seq<char>, a: int, depth: nat)
    requires
        0 <= a,
        specifier_start(s, a, depth) == Some(a),
    ensures
        depth == 0,
    decreases s.len() - a,
{
    if depth > 0 && a < s.len() {
        let next = if s[a] == '[' {
            depth + 1
        } else if s[a] == ']' {
            (depth - 1) as nat
        } else {
            depth
        };
        lemma_start_ahead(s, a + 1, next);
    }
}

/// Specifiers begin behind where they are looked for.
proof fn lemma_start_ahead(s: Seq<char>, i: int, depth: nat)
    ensures
        specifier_start(s, i, depth) matches Some(a) ==> i <= a < s.len(),
    decreases s.len() - i,
{
    if 0 <= i < s.len() {
        lemma_start_ahead(s, i + 1, depth + 1);
        lemma_start_ahead(s, i + 1, depth);
        if depth > 0 {
            lemma_start_ahead(s, i + 1, (depth - 1) as nat);
        } else {
            lemma_start_ahead(s, i + 1, 0);
        }
    }
}

/// A requirement with its specifiers replaced.
pub open spec fn repinned(requirement: Seq<char>, new: Seq<char>) -> Seq<char> {
    match specifier_span(requirement) {
        Some((a, b)) => replaced(requirement, a, b, new),
        None => requirement,
    }
}

/// The specifiers of a requirement that is read can be replaced, and are found in
/// the same place then.
pub proof fn lemma_repinned(r: Seq<char>, new: Seq<char>)
    requires
        is_readable(r),
        is_pin(new),
        specifier_span(r) is Some,
    ensures
        ({
            let (a, b) = specifier_span(r)->0;
            &&& 0 < a
            &&& is_repin(r, a, b, new)
            &&& repinned(r, new) == replaced(r, a, b, new)
            &&& specifier_span(repinned(r, new)) == Some((a, a + new.len()))
            &&& trimmed(repinned(r, new).subrange(a, a + new.len())) == new
        }),
{
    lemma_readable(r);
    lemma_pin(new);
    let (a, b) = specifier_span(r)->0;
    let n = r.len() as int;
    let p = ends_specifiers(r);
    lemma_first_index(p, a, n);
    let stop = specifier_stop(r, a);
    let head = r.take(stop);
    let m = lemma_trim_end_found(head);
    assert(m == b);
    assert(r[a] == head[a]);
    assert(r[b - 1] == head[b - 1]);
    lemma_index_of(r, ';', a, n);
    assert(stop <= marker_start(r, a)) by {
        if marker_start(r, a) < n {
            assert(p(marker_start(r, a)));
        }
    }
    assert(is_operator_at(r, a));
    assert(!is_whitespace(r[a]));
    assert(is_repin(r, a, b, new));
    lemma_replaced(r, a, b, new);
    let t = replaced(r, a, b, new);
    let d = shift(a, b, new);
    lemma_start_moved(r, a, b, new, 0, 0);
    let q = ends_specifiers(t);
    let n2 = t.len() as int;
    // The specifiers end where they did.
    assert forall|k: int| 0 <= k < a implies #[trigger] p(k) == q(k) by {
        assert(t[k] == r[k]);
    }
    assert forall|k: int| a <= k < b implies !#[trigger] p(k) by {}
    assert forall|k: int| a <= k < b + d implies !#[trigger] q(k) by {
        assert(t[k] == new[k - a]);
    }
    assert forall|k: int| b <= k < n implies #[trigger] p(k) == q(k + d) by {
        assert(r[k] == t[k + d]);
    }
    lemma_first_moved(p, q, a, b, d, a, n);
    assert(specifier_stop(t, a) == stop + d);
    let head2 = t.take(stop + d);
    assert forall|k: int| b + d <= k < head2.len() implies is_whitespace(#[trigger] head2[k]) by {
        assert(head2[k] == t[k]);
        assert(r[k - d] == t[k - d + d]);
        assert(is_whitespace(head[k - d]));
    }
    assert(head2[b + d - 1] == new[new.len() - 1]);
    lemma_trim_end_at(head2, b + d);
    assert(t.subrange(a, a + new.len()) =~= new);
    lemma_trim_start_at(new, 0);
    assert(new.skip(0) =~= new);
    lemma_trim_end_at(new, new.len() as int);
    assert(new.take(new.len() as int) =~= new);
}

/// What is read of a requirement whose specifiers are replaced.
pub open spec fn reads_repinned(e: PythonEntryView, new: Seq<char>) -> bool {
    read_requirement(repinned(e.requirement, new)) == Some((e.name, seq![new]))
}

/// An entry with its specifiers replaced.
pub open spec fn repinned_entry(e: PythonEntryView, new: Seq<char>, d: int) -> PythonEntryView {
    PythonEntryView {
        current: new,
        specifiers: seq![new],
        end: e.start + new.len(),
        requirement: repinned(e.requirement, new),
        to: e.to + d,
        ..e
    }
}

/// An entry that stands `d` characters and `bytes` bytes further to the right.
pub open spec fn moved_entry(e: PythonEntryView, d: int, bytes: int) -> PythonEntryView {
    PythonEntryView {
        start: e.start + bytes,
        end: e.end + bytes,
        from: e.from + d,
        to: e.to + d,
        ..e
    }
}

/// Entries that stand further to the right.
pub open spec fn moved_entries(entries: Seq<PythonEntryView>, d: int, bytes: int) -> Seq<
    PythonEntryView,
> {
    Seq::new(entries.len(), |m: int| moved_entry(entries[m], d, bytes))
}

/// Entries with the specifiers of the one at `k` replaced: those behind it are
/// moved, and those before it stay.
pub open spec fn repinned_entries(
    entries: Seq<PythonEntryView>,
    k: int,
    new: Seq<char>,
    d: int,
    bytes: int,
) -> Seq<PythonEntryView> {
    Seq::new(
        entries.len(),
        |m: int|
            if m < k {
                entries[m]
            } else if m == k {
                repinned_entry(entries[m], new, d)
            } else {
                moved_entry(entries[m], d, bytes)
            },
    )
}

/// The updates of two lists, one behind the other, where the first holds the entry.
pub(crate) proof fn lemma_repinned_first(
    a: Seq<PythonEntryView>,
    b: Seq<PythonEntryView>,
    k: int,
    new: Seq<char>,
    d: int,
    bytes: int,
)
    requires
        0 <= k < a.len(),
    ensures
        repinned_entries(a + b, k, new, d, bytes) == repinned_entries(a, k, new, d, bytes)
            + moved_entries(b, d, bytes),
{
    assert(repinned_entries(a + b, k, new, d, bytes) =~= repinned_entries(a, k, new, d, bytes)
        + moved_entries(b, d, bytes));
}

/// The updates of two lists, one behind the other, where the second holds the
/// entry.
pub(crate) proof fn lemma_repinned_second(
    a: Seq<PythonEntryView>,
    b: Seq<PythonEntryView>,
    k: int,
    new: Seq<char>,
    d: int,
    bytes: int,
)
    requires
        a.len() <= k < a.len() + b.len(),
    ensures
        repinned_entries(a + b, k, new, d, bytes) == a + repinned_entries(
            b,
            k - a.len(),
            new,
            d,
            bytes,
        ),
        (a + b)[k] == b[k - a.len()],
{
    assert(repinned_entries(a + b, k, new, d, bytes) =~= a + repinned_entries(
        b,
        k - a.len(),
        new,
        d,
        bytes,
    ));
}

/// Two lists, one behind the other, moved.
pub(crate) proof fn lemma_moved_concat(
    a: Seq<PythonEntryView>,
    b: Seq<PythonEntryView>,
    d: int,
    bytes: int,
)
    ensures
        moved_entries(a + b, d, bytes) == moved_entries(a, d, bytes) + moved_entries(b, d, bytes),
{
    assert(moved_entries(a + b, d, bytes) =~= moved_entries(a, d, bytes) + moved_entries(
        b,
        d,
        bytes,
    ));
}

/// A pin takes one byte for each character.
pub(crate) proof fn lemma_pin_bytes(new: Seq<char>, n: int)
    requires
        is_pin(new),
        0 <= n <= new.len(),
    ensures
        byte_offset(new, n) == n,
    decreases n,
{
    if n > 0 {
        lemma_pin_bytes(new, n - 1);
        lemma_byte_offset_step(new, n - 1);
        if n > 2 {
            assert(is_python_version_char(new[n - 1]));
        }
    } else {
        assert(new.take(0) =~= Seq::<char>::empty());
    }
}

/// The entry of a requirement with its specifiers replaced.
pub(crate) proof fn lemma_entry_repinned(
    r: Seq<char>,
    new: Seq<char>,
    section: Seq<char>,
    at: int,
    from: int,
    to: int,
)
    requires
        is_pin(new),
        requirement_entry(r, read_requirement(r), section, at, from, to) matches Some(e)
            && reads_repinned(e, new),
    ensures
        ({
            let e = requirement_entry(r, read_requirement(r), section, at, from, to)->0;
            let t = repinned(r, new);
            let d = t.len() - r.len();
            requirement_entry(t, read_requirement(t), section, at, from, to + d) == Some(
                repinned_entry(e, new, d),
            )
        }),
{
    lemma_repinned(r, new);
    let (a, b) = specifier_span(r)->0;
    lemma_replaced(r, a, b, new);
    let t = repinned(r, new);
    assert(t.take(a) =~= r.take(a));
    assert(t.take(a + new.len()) =~= t.take(a) + new);
    lemma_encode_concat(t.take(a), new);
    lemma_pin_bytes(new, new.len() as int);
    assert(new.take(new.len() as int) =~= new);
    assert(seq![new].len() > 0);
}

// ---------------------------------------------------------------------------
// Lines of requirements files
// ---------------------------------------------------------------------------

/// What is escaped behind replaced specifiers stays so.
pub(crate) proof fn lemma_escaped_behind(u: Seq<char>, x: int, y: int, new: Seq<char>, p: int)
    requires
        is_repin(u, x, y, new),
        y <= p <= u.len(),
    ensures
        escaped_at(replaced(u, x, y, new), 0, p + shift(x, y, new)) == escaped_at(u, 0, p),
    decreases p,
{
    lemma_pin(new);
    lemma_replaced(u, x, y, new);
    let t = replaced(u, x, y, new);
    let d = shift(x, y, new);
    if p == y {
        assert(!is_foreign(u[y - 1]));
        assert(t[y + d - 1] == new[new.len() - 1]);
    } else {
        lemma_escaped_behind(u, x, y, new, p - 1);
        assert(u[p - 1] == t[p - 1 + d]);
    }
}

/// What lies between quotation marks of either kind depends on what stands before
/// it.
proof fn lemma_quotes_same(s: Seq<char>, t: Seq<char>, p: int)
    requires
        forall|k: int| 0 <= k < p ==> #[trigger] s[k] == t[k],
    ensures
        in_quotes(s, p) == in_quotes(t, p),
    decreases p,
{
    if p > 0 {
        assert(s[p - 1] == t[p - 1]);
        lemma_quotes_same(s, t, p - 1);
        lemma_escaped_same(s, t, 0, p - 1);
    }
}

/// A stretch without quotation marks neither opens nor closes a quotation.
proof fn lemma_quotes_flat(s: Seq<char>, x: int, p: int)
    requires
        0 <= x <= p <= s.len(),
        forall|k: int| x <= k < p ==> !is_quotation_mark(#[trigger] s[k]),
    ensures
        in_quotes(s, p) == in_quotes(s, x),
    decreases p - x,
{
    if x < p {
        lemma_quotes_flat(s, x, p - 1);
        assert(!is_quotation_mark(s[p - 1]));
    }
}

/// What lies between quotation marks behind replaced specifiers stays so.
proof fn lemma_quotes_behind(u: Seq<char>, x: int, y: int, new: Seq<char>, p: int)
    requires
        is_repin(u, x, y, new),
        y <= p <= u.len(),
    ensures
        in_quotes(replaced(u, x, y, new), p + shift(x, y, new)) == in_quotes(u, p),
    decreases p,
{
    lemma_pin(new);
    lemma_replaced(u, x, y, new);
    let t = replaced(u, x, y, new);
    let d = shift(x, y, new);
    if p == y {
        lemma_quotes_same(u, t, x);
        assert forall|k: int| x <= k < y implies !is_quotation_mark(#[trigger] u[k]) by {
            assert(!is_foreign(u[k]));
        }
        lemma_quotes_flat(u, x, y);
        assert forall|k: int| x <= k < y + d implies !is_quotation_mark(#[trigger] t[k]) by {
            assert(!is_foreign(new[k - x]));
        }
        lemma_quotes_flat(t, x, y + d);
    } else {
        lemma_quotes_behind(u, x, y, new, p - 1);
        lemma_escaped_behind(u, x, y, new, p - 1);
        assert(u[p - 1] == t[p - 1 + d]);
    }
}

/// A line loses the same comment, where its specifiers stand before it.
#[verifier::rlimit(40)]
proof fn lemma_comment_moved(u: Seq<char>, x: int, y: int, new: Seq<char>)
    requires
        is_repin(u, x, y, new),
        y <= without_requirement_comment(u).len(),
    ensures
        without_requirement_comment(u).len() <= u.len(),
        without_requirement_comment(u) == u.take(without_requirement_comment(u).len() as int),
        without_requirement_comment(replaced(u, x, y, new)) == replaced(u, x, y, new).take(
            without_requirement_comment(u).len() + shift(x, y, new),
        ),
{
    lemma_pin(new);
    lemma_replaced(u, x, y, new);
    let t = replaced(u, x, y, new);
    let d = shift(x, y, new);
    let n = u.len() as int;
    let p = starts_comment(u);
    let q = starts_comment(t);
    assert forall|k: int| 0 <= k < x implies #[trigger] p(k) == q(k) by {
        lemma_escaped_same(u, t, 0, k);
        lemma_quotes_same(u, t, k);
        assert(u[k] == t[k]);
        if k > 0 {
            assert(u[k - 1] == t[k - 1]);
        }
    }
    assert forall|k: int| x <= k < y implies !#[trigger] p(k) by {
        assert(!is_foreign(u[k]));
    }
    assert forall|k: int| x <= k < y + d implies !#[trigger] q(k) by {
        assert(!is_foreign(new[k - x]));
    }
    assert forall|k: int| y <= k < n implies #[trigger] p(k) == q(k + d) by {
        lemma_escaped_behind(u, x, y, new, k);
        lemma_quotes_behind(u, x, y, new, k);
        assert(u[k] == t[k + d]);
        if k > y {
            assert(u[k - 1] == t[k - 1 + d]);
        } else {
            assert(t[k - 1 + d] == new[new.len() - 1]);
        }
    }
    lemma_first_moved(p, q, x, y, d, 0, n);
    lemma_first_index(p, 0, n);
    match first_index(p, 0, n) {
        Some(c) => {
            let m = lemma_trim_end_found(u.take(c));
            assert(c >= y);
            lemma_repin_subrange(u, x, y, new, 0, c);
            lemma_edit_subrange(u, x, y, new, 0, c);
            assert(u.take(c) =~= u.subrange(0, c));
            assert(t.take(c + d) =~= t.subrange(0, c + d));
            lemma_trim_end_moved(u.take(c), x, y, new);
            assert(u.take(c).take(m) =~= u.take(m));
            assert(t.take(c + d).take(m + d) =~= t.take(m + d));
        },
        None => {
            assert(u.take(n) =~= u);
            assert(t.take(n + d) =~= t);
        },
    }
}

/// A needle that a pin does not touch is not brought in by one.
proof fn lemma_contains_repinned(
    s: Seq<char>,
    a: int,
    b: int,
    new: Seq<char>,
    needle: Seq<char>,
)
    requires
        is_repin(s, a, b, new),
        needle.len() > 0,
        forall|k: int, m: int|
            0 <= k < needle.len() && 0 <= m < new.len() ==> #[trigger] needle[k]
                != #[trigger] new[m],
        contains_text(replaced(s, a, b, new), needle),
    ensures
        contains_text(s, needle),
{
    lemma_replaced(s, a, b, new);
    let t = replaced(s, a, b, new);
    let d = shift(a, b, new);
    let n = needle.len() as int;
    let at = choose|at: int| 0 <= at <= t.len() && needle.is_prefix_of(#[trigger] t.skip(at));
    assert forall|k: int| 0 <= k < n implies #[trigger] needle[k] == t[at + k] by {
        assert(t.skip(at).subrange(0, n)[k] == t[at + k]);
    }
    if at < b + d && a < at + n {
        let k = if at < a {
            a
        } else {
            at
        };
        assert(t[k] == new[k - a]);
        assert(needle[k - at] == t[at + (k - at)]);
    } else {
        let from = if at + n <= a {
            at
        } else {
            at - d
        };
        assert forall|k: int| 0 <= k < n implies #[trigger] needle[k] == s[from + k] by {
            assert(needle[k] == t[at + k]);
            if at + n > a {
                assert(s[from + k] == t[from + k + d]);
            }
        }
        assert(s.skip(from).subrange(0, n) =~= needle);
        assert(needle.is_prefix_of(s.skip(from)));
    }
}

/// A prefix without equals signs is not brought in by a pin.
proof fn lemma_prefix_repinned(s: Seq<char>, a: int, b: int, new: Seq<char>, needle: Seq<char>)
    requires
        is_repin(s, a, b, new),
        forall|k: int| 0 <= k < needle.len() ==> #[trigger] needle[k] != '=',
        needle.is_prefix_of(replaced(s, a, b, new)),
    ensures
        needle.is_prefix_of(s),
{
    lemma_replaced(s, a, b, new);
    let t = replaced(s, a, b, new);
    let n = needle.len() as int;
    assert forall|k: int| 0 <= k < n implies #[trigger] needle[k] == t[k] by {
        assert(t.subrange(0, n)[k] == t[k]);
    }
    if a < n {
        assert(t[a] == new[0]);
        assert(needle[a] == '=');
    }
    assert(s.subrange(0, n) =~= needle);
}

/// An address is not brought in by a pin.
proof fn lemma_address_repinned(s: Seq<char>, a: int, b: int, new: Seq<char>)
    requires
        is_repin(s, a, b, new),
        contains_text(replaced(s, a, b, new), "://"@),
    ensures
        contains_text(s, "://"@),
{
    lemma_pin(new);
    reveal_strlit("://");
    let needle = "://"@;
    assert(needle[0] == ':' && needle[1] == '/' && needle[2] == '/');
    assert(needle.len() == 3);
    assert forall|k: int, m: int|
        0 <= k < needle.len() && 0 <= m < new.len() implies #[trigger] needle[k]
        != #[trigger] new[m] by {
        assert(new[m] != ':' && new[m] != '/');
        assert(k == 0 || k == 1 || k == 2);
    }
    lemma_contains_repinned(s, a, b, new, needle);
}

/// A requirement that names no file or address names none with its specifiers
/// replaced.
proof fn lemma_path_repinned(s: Seq<char>, a: int, b: int, new: Seq<char>)
    requires
        is_repin(s, a, b, new),
        !is_path_like(s),
    ensures
        !is_path_like(replaced(s, a, b, new)),
{
    let t = replaced(s, a, b, new);
    assert(t.len() > 0 && t[0] == (if a > 0 {
        s[0]
    } else {
        new[0]
    })) by {
        lemma_replaced(s, a, b, new);
    }
    if contains_text(t, "://"@) {
        lemma_address_repinned(s, a, b, new);
    }
    if "git+"@.is_prefix_of(t) {
        reveal_strlit("git+");
        lemma_prefix_repinned(s, a, b, new, "git+"@);
    }
    if "file:"@.is_prefix_of(t) {
        reveal_strlit("file:");
        lemma_prefix_repinned(s, a, b, new, "file:"@);
    }
}

/// Where the requirement of a line stands.
pub(crate) proof fn lemma_line_placed(u: Seq<char>)
    requires
        line_requirement(u) is Some,
    ensures
        ({
            let (r, st) = line_requirement(u)->0;
            let kept = without_requirement_comment(u);
            &&& 0 <= st
            &&& r.len() > 0
            &&& st + r.len() <= kept.len() <= u.len()
            &&& kept == u.take(kept.len() as int)
            &&& r == u.subrange(st, st + r.len())
            &&& !is_whitespace(u[st])
            &&& forall|p: int| 0 <= p < st ==> is_whitespace(#[trigger] u[p])
            &&& !is_whitespace(u[st + r.len() - 1])
            &&& forall|p: int| st + r.len() <= p < kept.len() ==> is_whitespace(#[trigger] u[p])
        }),
{
    let (r, st) = line_requirement(u)->0;
    let kept = without_requirement_comment(u);
    lemma_kept_prefix(u);
    let k0 = lemma_trim_start_found(kept);
    let rest = trimmed_start(kept);
    let m = lemma_trim_end_found(rest);
    assert(st == k0);
    assert(r =~= u.subrange(st, st + m));
    assert forall|p: int| 0 <= p < st implies is_whitespace(#[trigger] u[p]) by {
        assert(kept[p] == u[p]);
    }
    assert(kept[st] == u[st]);
    assert(rest[m - 1] == u[st + m - 1]);
    assert forall|p: int| st + m <= p < kept.len() implies is_whitespace(#[trigger] u[p]) by {
        assert(rest[p - st] == u[p]);
    }
}

/// The requirement of a line that begins and ends at known places.
proof fn lemma_line_found(u: Seq<char>, st: int, end: int)
    requires
        0 <= st < end <= without_requirement_comment(u).len(),
        !is_whitespace(u[st]),
        forall|p: int| 0 <= p < st ==> is_whitespace(#[trigger] u[p]),
        !is_whitespace(u[end - 1]),
        forall|p: int|
            end <= p < without_requirement_comment(u).len() ==> is_whitespace(#[trigger] u[p]),
        u[st] != '-',
        !is_path_like(u.subrange(st, end)),
    ensures
        line_requirement(u) == Some((u.subrange(st, end), st)),
{
    let kept = without_requirement_comment(u);
    lemma_kept_prefix(u);
    assert forall|p: int| 0 <= p < st implies is_whitespace(#[trigger] kept[p]) by {
        assert(kept[p] == u[p]);
    }
    assert(kept[st] == u[st]);
    lemma_trim_start_at(kept, st);
    let rest = kept.skip(st);
    assert forall|p: int| end - st <= p < rest.len() implies is_whitespace(#[trigger] rest[p]) by {
        assert(rest[p] == u[p + st]);
    }
    assert(rest[end - st - 1] == u[end - 1]);
    lemma_trim_end_at(rest, end - st);
    assert(rest.take(end - st) =~= u.subrange(st, end));
    assert(u.subrange(st, end)[0] == u[st]);
}

/// The white space around a requirement stays, where its specifiers are replaced.
proof fn lemma_frame_repinned(
    u: Seq<char>,
    x: int,
    y: int,
    new: Seq<char>,
    st: int,
    end: int,
    n: int,
)
    requires
        is_repin(u, x, y, new),
        0 <= st <= x,
        y <= end <= n <= u.len(),
        !is_whitespace(u[st]),
        !is_whitespace(u[end - 1]),
        forall|p: int| 0 <= p < st ==> is_whitespace(#[trigger] u[p]),
        forall|p: int| end <= p < n ==> is_whitespace(#[trigger] u[p]),
    ensures
        ({
            let t = replaced(u, x, y, new);
            let d = shift(x, y, new);
            &&& !is_whitespace(t[st])
            &&& !is_whitespace(t[end + d - 1])
            &&& forall|p: int| 0 <= p < st ==> is_whitespace(#[trigger] t[p])
            &&& forall|p: int| end + d <= p < n + d ==> is_whitespace(#[trigger] t[p])
        }),
{
    lemma_pin(new);
    lemma_replaced(u, x, y, new);
    let t = replaced(u, x, y, new);
    let d = shift(x, y, new);
    assert forall|p: int| 0 <= p < st implies is_whitespace(#[trigger] t[p]) by {
        assert(t[p] == u[p]);
    }
    assert(t[st] == (if st < x {
        u[st]
    } else {
        new[0]
    }));
    assert forall|p: int| end + d <= p < n + d implies is_whitespace(#[trigger] t[p]) by {
        assert(u[p - d] == t[p - d + d]);
    }
    if end > y {
        assert(u[end - 1] == t[end - 1 + d]);
    } else {
        assert(t[end + d - 1] == new[new.len() - 1]);
    }
}

/// The requirement of a line is found with its specifiers replaced.
#[verifier::rlimit(40)]
proof fn lemma_line_repinned(u: Seq<char>, a: int, b: int, new: Seq<char>)
    requires
        line_requirement(u) matches Some((r, st)) && is_repin(r, a, b, new),
    ensures
        ({
            let (r, st) = line_requirement(u)->0;
            &&& 0 <= st
            &&& st + r.len() <= u.len()
            &&& r == u.subrange(st, st + r.len())
            &&& is_repin(u, st + a, st + b, new)
            &&& line_requirement(replaced(u, st + a, st + b, new)) == Some(
                (replaced(r, a, b, new), st),
            )
        }),
{
    let (r, st) = line_requirement(u)->0;
    lemma_pin(new);
    lemma_line_placed(u);
    let x = st + a;
    let y = st + b;
    let end = st + r.len();
    assert forall|k: int| x <= k < y implies !is_foreign(#[trigger] u[k]) by {
        assert(r[k - st] == u[k]);
    }
    assert(u[x] == r[a] && u[y - 1] == r[b - 1]);
    lemma_comment_moved(u, x, y, new);
    lemma_replaced(u, x, y, new);
    let t = replaced(u, x, y, new);
    let d = shift(x, y, new);
    lemma_edit_subrange(u, x, y, new, st, end);
    lemma_path_repinned(r, a, b, new);
    lemma_frame_repinned(u, x, y, new, st, end, without_requirement_comment(u).len() as int);
    assert(replaced(r, a, b, new) == t.subrange(st, end + d));
    lemma_line_found(t, st, end + d);
}

/// A line without its comment begins like the line.
proof fn lemma_kept_prefix(u: Seq<char>)
    ensures
        without_requirement_comment(u).len() <= u.len(),
        without_requirement_comment(u) == u.take(without_requirement_comment(u).len() as int),
{
    lemma_first_index(starts_comment(u), 0, u.len() as int);
    match first_index(starts_comment(u), 0, u.len() as int) {
        Some(c) => {
            let m = lemma_trim_end_found(u.take(c));
            assert(u.take(c).take(m) =~= u.take(m));
        },
        None => {
            assert(u.take(u.len() as int) =~= u);
        },
    }
}

// ---------------------------------------------------------------------------
// Lines
// ---------------------------------------------------------------------------

/// What is kept of a line whose line break is known.
proof fn lemma_break_at(line: Seq<char>, m: int)
    requires
        0 <= m <= line.len(),
        forall|p: int| m <= p < line.len() ==> #[trigger] line[p] == '\r' || line[p] == '\n',
        m > 0 ==> line[m - 1] != '\r' && line[m - 1] != '\n',
    ensures
        without_line_break(line) == line.take(m),
    decreases line.len(),
{
    if m < line.len() {
        let u = line.drop_last();
        assert(line[line.len() - 1] == '\r' || line[line.len() - 1] == '\n');
        assert forall|p: int| m <= p < u.len() implies #[trigger] u[p] == '\r' || u[p] == '\n' by {
            assert(u[p] == line[p]);
        }
        lemma_break_at(u, m);
        assert(u.take(m) =~= line.take(m));
    } else {
        assert(line.take(m) =~= line);
    }
}

/// Where the line break of a line begins.
pub(crate) proof fn lemma_break_found(line: Seq<char>) -> (m: int)
    ensures
        0 <= m <= line.len(),
        without_line_break(line) == line.take(m),
        forall|p: int| m <= p < line.len() ==> #[trigger] line[p] == '\r' || line[p] == '\n',
        m > 0 ==> line[m - 1] != '\r' && line[m - 1] != '\n',
    decreases line.len(),
{
    if line.len() > 0 && (line.last() == '\r' || line.last() == '\n') {
        let u = line.drop_last();
        let m = lemma_break_found(u);
        assert forall|p: int| m <= p < line.len() implies #[trigger] line[p] == '\r' || line[p]
            == '\n' by {
            if p < u.len() {
                assert(u[p] == line[p]);
            }
        }
        assert(u.take(m) =~= line.take(m));
        m
    } else {
        assert(line.take(line.len() as int) =~= line);
        line.len() as int
    }
}

/// The line that holds the replaced specifiers is found with the new ones.
#[verifier::rlimit(60)]
pub(crate) proof fn lemma_line_edited(s: Seq<char>, i: int, j: int, new: Seq<char>, from: int)
    requires
        is_repin(s, i, j, new),
        0 <= from <= i,
        j <= from + line_at(s, from).len(),
    ensures
        from + line_at(s, from).len() <= line_end(s, from) <= s.len(),
        line_at(s, from) == s.subrange(from, from + line_at(s, from).len()),
        line_end(replaced(s, i, j, new), from) == line_end(s, from) + shift(i, j, new),
        line_at(replaced(s, i, j, new), from) == replaced(
            line_at(s, from),
            i - from,
            j - from,
            new,
        ),
{
    lemma_pin(new);
    lemma_replaced(s, i, j, new);
    let t = replaced(s, i, j, new);
    let d = shift(i, j, new);
    let n = s.len() as int;
    lemma_line_end(s, from);
    let next = line_end(s, from);
    let line = s.subrange(from, next);
    let m = lemma_break_found(line);
    lemma_index_of(s, '\n', from, n);
    assert forall|k: int| i <= k < j implies #[trigger] s[k] != '\n' by {
        if s[k] == '\n' {
            assert(k == next - 1);
            assert(line[m - 1] == s[from + m - 1]);
        }
    }
    lemma_index_moved(s, i, j, new, '\n', from, n);
    let line2 = t.subrange(from, next + d);
    lemma_edit_subrange(s, i, j, new, from, next);
    assert forall|p: int| m + d <= p < line2.len() implies #[trigger] line2[p] == '\r' || line2[p]
        == '\n' by {
        assert(line2[p] == t[from + p]);
        assert(s[from + p - d] == t[from + p - d + d]);
        assert(line[p - d] == s[from + p - d]);
    }
    assert(line2[m + d - 1] != '\r' && line2[m + d - 1] != '\n') by {
        assert(line2[m + d - 1] == t[from + m + d - 1]);
        if from + m > j {
            assert(s[from + m - 1] == t[from + m - 1 + d]);
            assert(line[m - 1] == s[from + m - 1]);
        } else {
            assert(t[from + m + d - 1] == new[new.len() - 1]);
            assert(!is_whitespace(new[new.len() - 1]));
        }
    }
    lemma_break_at(line2, m + d);
    lemma_edit_subrange(s, i, j, new, from, from + m);
    assert(line.take(m) =~= s.subrange(from, from + m));
    assert(line2.take(m + d) =~= t.subrange(from, from + m + d));
}

/// A line is a stretch of its text.
pub(crate) proof fn lemma_line_stretch(s: Seq<char>, from: int)
    requires
        0 <= from < s.len(),
    ensures
        from + line_at(s, from).len() <= line_end(s, from) <= s.len(),
        line_at(s, from) == s.subrange(from, from + line_at(s, from).len()),
        from < line_end(s, from),
{
    lemma_line_end(s, from);
    let line = s.subrange(from, line_end(s, from));
    let m = lemma_break_found(line);
    assert(line.take(m) =~= s.subrange(from, from + m));
}

// ---------------------------------------------------------------------------
// Requirements files
// ---------------------------------------------------------------------------

/// Entries stand where their lines do.
proof fn lemma_requirements_bounds(s: Seq<char>, from: int)
    requires
        0 <= from <= s.len(),
    ensures
        forall|m: int|
            0 <= m < requirements_entries(s, from).len() ==> from <= (
            #[trigger] requirements_entries(s, from)[m]).from,
    decreases s.len() - from,
{
    if from < s.len() {
        lemma_line_end(s, from);
        let next = line_end(s, from);
        lemma_requirements_bounds(s, next);
        let here = listed(requirements_line_entry(s, from));
        let rest = requirements_entries(s, next);
        if line_requirement(line_at(s, from)) is Some {
            lemma_line_placed(line_at(s, from));
        }
        assert forall|m: int| 0 <= m < (here + rest).len() implies from <= (#[trigger] (here
            + rest)[m]).from by {
            if m >= here.len() {
                assert((here + rest)[m] == rest[m - here.len()]);
            }
        }
    }
}

/// The entry of a line that stands behind the replaced stretch is moved.
proof fn lemma_line_entry_behind(s: Seq<char>, i: int, j: int, new: Seq<char>, from: int)
    requires
        is_edit(s, i, j, new),
        j <= from < s.len(),
    ensures
        line_end(replaced(s, i, j, new), from + shift(i, j, new)) == line_end(s, from) + shift(
            i,
            j,
            new,
        ),
        listed(requirements_line_entry(replaced(s, i, j, new), from + shift(i, j, new)))
            == moved_entries(
            listed(requirements_line_entry(s, from)),
            shift(i, j, new),
            byte_shift(s, i, j, new),
        ),
{
    lemma_line_behind(s, i, j, new, from);
    lemma_line_stretch(s, from);
    let t = replaced(s, i, j, new);
    let d = shift(i, j, new);
    let u = line_at(s, from);
    if let Some((r, st)) = line_requirement(u) {
        lemma_line_placed(u);
        lemma_bytes_moved(s, i, j, new, from + st);
    }
    assert(listed(requirements_line_entry(t, from + d)) =~= moved_entries(
        listed(requirements_line_entry(s, from)),
        d,
        byte_shift(s, i, j, new),
    ));
}

/// Entries behind the replaced stretch are moved.
proof fn lemma_requirements_behind(s: Seq<char>, i: int, j: int, new: Seq<char>, from: int)
    requires
        is_edit(s, i, j, new),
        j <= from <= s.len(),
    ensures
        requirements_entries(replaced(s, i, j, new), from + shift(i, j, new)) == moved_entries(
            requirements_entries(s, from),
            shift(i, j, new),
            byte_shift(s, i, j, new),
        ),
    decreases s.len() - from,
{
    lemma_replaced(s, i, j, new);
    let d = shift(i, j, new);
    let bytes = byte_shift(s, i, j, new);
    if from < s.len() {
        lemma_line_entry_behind(s, i, j, new, from);
        lemma_line_end(s, from);
        lemma_requirements_behind(s, i, j, new, line_end(s, from));
        lemma_moved_concat(
            listed(requirements_line_entry(s, from)),
            requirements_entries(s, line_end(s, from)),
            d,
            bytes,
        );
    } else {
        assert(moved_entries(Seq::<PythonEntryView>::empty(), d, bytes) =~= Seq::<
            PythonEntryView,
        >::empty());
    }
}

/// An entry is made of its requirement, at the byte at which that begins.
pub open spec fn is_placed(s: Seq<char>, e: PythonEntryView) -> bool {
    requirement_entry(
        e.requirement,
        read_requirement(e.requirement),
        e.section,
        byte_offset(s, e.from) as int,
        e.from,
        e.to,
    ) == Some(e)
}

/// Where the specifiers of an entry stand, in characters.
pub open spec fn pin_place(e: PythonEntryView) -> (int, int) {
    let (a, b) = specifier_span(e.requirement)->0;
    (e.from + a, e.from + b)
}

/// The line whose specifiers are replaced holds the requirement with the new ones.
#[verifier::rlimit(40)]
proof fn lemma_requirement_here(s: Seq<char>, new: Seq<char>, from: int)
    requires
        0 <= from < s.len(),
        is_pin(new),
        line_requirement(line_at(s, from)) matches Some((r, st)) && is_readable(r)
            && specifier_span(r) is Some,
    ensures
        ({
            let (r, st) = line_requirement(line_at(s, from))->0;
            let (a, b) = specifier_span(r)->0;
            let i = from + st + a;
            let j = from + st + b;
            let t = replaced(s, i, j, new);
            &&& 0 <= st
            &&& 0 < a < b <= r.len()
            &&& is_repin(s, i, j, new)
            &&& from + st + r.len() <= line_end(s, from) <= s.len()
            &&& line_end(t, from) == line_end(s, from) + shift(i, j, new)
            &&& line_requirement(line_at(t, from)) == Some((repinned(r, new), st))
            &&& repinned(r, new).len() == r.len() + shift(i, j, new)
        }),
{
    let u = line_at(s, from);
    let (r, st) = line_requirement(u)->0;
    lemma_line_stretch(s, from);
    lemma_repinned(r, new);
    let (a, b) = specifier_span(r)->0;
    lemma_line_repinned(u, a, b, new);
    let i = from + st + a;
    let j = from + st + b;
    assert forall|k: int| i <= k < j implies !is_foreign(#[trigger] s[k]) by {
        assert(u[k - from] == s[k]);
    }
    assert(u[i - from] == s[i] && u[j - 1 - from] == s[j - 1]);
    lemma_line_edited(s, i, j, new, from);
    lemma_replaced(r, a, b, new);
}

/// The entry of the line whose specifiers are replaced.
proof fn lemma_line_entry_here(s: Seq<char>, new: Seq<char>, from: int)
    requires
        0 <= from < s.len(),
        is_pin(new),
        requirements_line_entry(s, from) matches Some(e) && reads_repinned(e, new),
    ensures
        ({
            let e = requirements_line_entry(s, from)->0;
            let (i, j) = pin_place(e);
            let t = replaced(s, i, j, new);
            let d = shift(i, j, new);
            &&& is_repin(s, i, j, new)
            &&& from <= i
            &&& j <= line_end(s, from)
            &&& line_end(t, from) == line_end(s, from) + d
            &&& requirements_line_entry(t, from) == Some(repinned_entry(e, new, d))
        }),
{
    let (r, st) = line_requirement(line_at(s, from))->0;
    lemma_requirement_here(s, new, from);
    let (a, b) = specifier_span(r)->0;
    let i = from + st + a;
    let j = from + st + b;
    lemma_bytes_moved(s, i, j, new, from + st);
    lemma_entry_repinned(
        r,
        new,
        "requirements"@,
        byte_offset(s, from + st) as int,
        from + st,
        from + st + r.len(),
    );
}

/// The entry of a line before the replaced stretch stays.
proof fn lemma_line_entry_before(s: Seq<char>, i: int, j: int, new: Seq<char>, from: int)
    requires
        is_edit(s, i, j, new),
        0 <= from < s.len(),
        line_end(s, from) <= i < s.len(),
    ensures
        line_end(replaced(s, i, j, new), from) == line_end(s, from),
        requirements_line_entry(replaced(s, i, j, new), from) == requirements_line_entry(s, from),
{
    lemma_line_before(s, i, j, new, from);
    lemma_line_stretch(s, from);
    let u = line_at(s, from);
    if let Some((r, st)) = line_requirement(u) {
        lemma_line_placed(u);
        lemma_bytes_moved(s, i, j, new, from + st);
    }
}

/// Where the specifiers of one entry of a requirements file are replaced, the entry
/// has the new ones, and the other entries are as before.
pub proof fn lemma_requirements_repinned(s: Seq<char>, from: int, k: int, new: Seq<char>)
    requires
        0 <= from <= s.len(),
        is_pin(new),
        0 <= k < requirements_entries(s, from).len(),
        reads_repinned(requirements_entries(s, from)[k], new),
    ensures
        ({
            let e = requirements_entries(s, from)[k];
            let (i, j) = pin_place(e);
            &&& is_repin(s, i, j, new)
            &&& from <= i
            &&& requirements_entries(replaced(s, i, j, new), from) == repinned_entries(
                requirements_entries(s, from),
                k,
                new,
                shift(i, j, new),
                byte_shift(s, i, j, new),
            )
        }),
    decreases s.len() - from,
{
    let e = requirements_entries(s, from)[k];
    let (i, j) = pin_place(e);
    let d = shift(i, j, new);
    let bytes = byte_shift(s, i, j, new);
    lemma_line_end(s, from);
    let next = line_end(s, from);
    let here = listed(requirements_line_entry(s, from));
    let rest = requirements_entries(s, next);
    if k < here.len() {
        assert((here + rest)[k] == here[k]);
        lemma_line_entry_here(s, new, from);
        lemma_replaced(s, i, j, new);
        lemma_requirements_behind(s, i, j, new, next);
        lemma_repinned_first(here, rest, k, new, d, bytes);
        assert(repinned_entries(here, k, new, d, bytes) =~= seq![repinned_entry(e, new, d)]);
    } else {
        lemma_repinned_second(here, rest, k, new, d, bytes);
        lemma_requirements_repinned(s, next, k - here.len(), new);
        lemma_line_entry_before(s, i, j, new, from);
        lemma_replaced(s, i, j, new);
    }
}

} // verus!
