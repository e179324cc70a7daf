//! Python manifests in which a dependency is pinned to its latest version.

use crate::edits::{byte_shift, replaced, shift};
use crate::lines::{lemma_line_end, line_at, line_end};
use crate::manifest::{
    manifest_dependencies, python_dependencies, python_dependency, replacement,
    DependencyVersionView, DependencyView, ManifestKind,
};
use crate::outside::texts_of;
use crate::position::lemma_char_at_byte;
use crate::pyproject_edits::{
    is_rewritable, lemma_project_entry, lemma_project_repinned, reads_rewritten,
};
use crate::pyproject_lines::lists_apart;
use crate::python::{
    is_on_one_line, is_written_plainly, lemma_offset_in_stretch, line_requirement,
    list_pyproject_entries, list_requirements_entries, listed, plain_entries_stand,
    pyproject_entries, python_entry_views, read_python_requirement, requirements_entries,
    requirements_line_entry, specifiers_end, stands_in_list, PythonEntry, PythonEntryView,
};
use crate::python_edits::{
    is_pin, is_placed, lemma_line_placed, lemma_line_stretch, lemma_pin_bytes, lemma_pinned,
    lemma_repinned, lemma_requirements_repinned, pin_place, reads_repinned, repinned,
    repinned_entries,
};
use crate::requirement::{is_readable, python_specifier_span, specifier_span};
use crate::text::{chars_of, same_text, string_of};
use crate::update::{read_quoted, rewritten, updated_text};
use crate::version::Pep440View;
use vstd::prelude::*;
use vstd::slice::slice_subrange;
use vstd::string::StringExecFns;

verus! {

/// The entries of a Python manifest.
pub open spec fn python_entries(text: Seq<char>, kind: ManifestKind) -> Seq<PythonEntryView> {
    match kind {
        ManifestKind::Pyproject => pyproject_entries(text),
        _ => requirements_entries(text, 0),
    }
}

/// The dependencies of a Python manifest with the one at `k` pinned by `new`: that
/// one has the new specifier and no other, those behind it are moved, and all else
/// is as before.
pub open spec fn repinned_dependencies(
    dependencies: Seq<DependencyView>,
    k: int,
    new: Seq<char>,
) -> Seq<DependencyView> {
    let old = dependencies[k];
    let d = new.len() - (old.end - old.start);
    Seq::new(
        dependencies.len(),
        |m: int|
            {
                let dep = dependencies[m];
                if m == k {
                    DependencyView {
                        current: new,
                        end: dep.end + d,
                        python_specifiers: Some(seq![new]),
                        ..dep
                    }
                } else if m > k {
                    DependencyView { start: dep.start + d, end: dep.end + d, ..dep }
                } else {
                    dep
                }
            },
    )
}

/// The dependency at `k` of a Python manifest can be pinned to `latest` in place.
/// In a project file, its string holds no escapes up to the end of its specifiers
/// and, between apostrophes, stands on one line; and every list is closed and holds
/// no other.
pub open spec fn is_repinnable(
    text: Seq<char>,
    kind: ManifestKind,
    k: int,
    latest: DependencyVersionView,
) -> bool {
    let entries = python_entries(text, kind);
    &&& kind == ManifestKind::Requirements || kind == ManifestKind::Pyproject
    &&& 0 <= k < entries.len()
    &&& latest matches DependencyVersionView::Pep440(v) && v.well_formed()
    &&& kind == ManifestKind::Pyproject ==> {
        &&& is_written_plainly(text, entries[k])
        &&& text[entries[k].from - 1] == '\'' ==> is_on_one_line(text, entries[k])
        &&& lists_apart(text, 0, None)
    }
}

/// The requirement at `k` is read with `new` as its specifier, and nothing else
/// changed; so is its string, between double quotation marks.
pub open spec fn reads_pinned(text: Seq<char>, kind: ManifestKind, k: int, new: Seq<char>) -> bool {
    let e = python_entries(text, kind)[k];
    &&& reads_repinned(e, new)
    &&& kind == ManifestKind::Pyproject && text[e.from - 1] == '"' ==> reads_rewritten(
        text,
        e,
        new,
    )
}

/// The specifiers of a requirement that is read end in it.
proof fn lemma_specifiers_end(requirement: Seq<char>)
    requires
        is_readable(requirement),
        specifier_span(requirement) is Some,
    ensures
        0 <= specifiers_end(requirement) <= requirement.len(),
{
    let new = seq!['=', '=', '0'];
    assert(is_pin(new));
    lemma_repinned(requirement, new);
}

/// Requirements of a requirements file stand as they are read.
#[verifier::rlimit(40)]
proof fn lemma_requirements_stand(s: Seq<char>, from: int, k: int)
    requires
        0 <= from <= s.len(),
        0 <= k < requirements_entries(s, from).len(),
    ensures
        stands_before(s, requirements_entries(s, from)[k]),
        is_placed(s, requirements_entries(s, from)[k]),
    decreases s.len() - from,
{
    lemma_line_end(s, from);
    let here = listed(requirements_line_entry(s, from));
    let rest = requirements_entries(s, line_end(s, from));
    if k < here.len() {
        assert((here + rest)[k] == here[k]);
        let u = line_at(s, from);
        let (r, st) = line_requirement(u)->0;
        lemma_line_stretch(s, from);
        lemma_line_placed(u);
        lemma_specifiers_end(r);
        let n = specifiers_end(r);
        assert(r.take(n) =~= s.subrange(from + st, from + st + n));
    } else {
        assert((here + rest)[k] == rest[k - here.len()]);
        lemma_requirements_stand(s, line_end(s, from), k - here.len());
    }
}

/// A requirement stands as it is read, up to the end of its specifiers.
spec fn stands_before(text: Seq<char>, e: PythonEntryView) -> bool {
    let n = specifiers_end(e.requirement);
    &&& 0 <= e.from <= e.from + n <= text.len()
    &&& e.requirement.take(n) == text.subrange(e.from, e.from + n)
}

/// The bytes of an entry are those of its specifiers.
proof fn lemma_pin_rewritten(text: Seq<char>, e: PythonEntryView, new: Seq<char>)
    requires
        stands_before(text, e),
        is_placed(text, e),
        is_pin(new),
    ensures
        ({
            let (i, j) = pin_place(e);
            &&& rewritten(text, e.start, e.end, new) == replaced(text, i, j, new)
            &&& byte_shift(text, i, j, new) == new.len() - (e.end - e.start)
        }),
{
    let (a, b) = specifier_span(e.requirement)->0;
    let (i, j) = pin_place(e);
    lemma_repinned(e.requirement, new);
    lemma_offset_in_stretch(text, e.from, e.from + b, a);
    lemma_offset_in_stretch(text, e.from, e.from + b, b);
    assert(e.requirement.take(b).take(a) =~= e.requirement.take(a));
    assert(e.requirement.take(b).take(b) =~= e.requirement.take(b));
    lemma_char_at_byte(text, i, 0);
    lemma_char_at_byte(text, j, 0);
    lemma_pin_bytes(new, new.len() as int);
    assert(new.take(new.len() as int) =~= new);
}

/// Dependencies of entries one of which is pinned.
proof fn lemma_dependencies_repinned(
    entries: Seq<PythonEntryView>,
    k: int,
    new: Seq<char>,
    d: int,
)
    requires
        0 <= k < entries.len(),
    ensures
        python_dependencies(
            repinned_entries(entries, k, new, d, new.len() - (entries[k].end - entries[k].start)),
        ) == repinned_dependencies(python_dependencies(entries), k, new),
{
    let bytes = new.len() - (entries[k].end - entries[k].start);
    let before = python_dependencies(entries);
    let pinned = repinned_entries(entries, k, new, d, bytes);
    let after = python_dependencies(pinned);
    let expected = repinned_dependencies(before, k, new);
    assert forall|m: int| 0 <= m < after.len() implies #[trigger] after[m] == expected[m] by {
        assert(after[m] == python_dependency(pinned[m]));
        assert(before[m] == python_dependency(entries[m]));
        assert(before[k] == python_dependency(entries[k]));
    }
    assert(after =~= expected);
}

/// A dependency is read from a Python manifest with the specifier that pins it, and
/// the others as before.
pub proof fn lemma_repinned_manifest(
    text: Seq<char>,
    kind: ManifestKind,
    k: int,
    latest: Pep440View,
)
    requires
        is_repinnable(text, kind, k, DependencyVersionView::Pep440(latest)),
        kind == ManifestKind::Pyproject ==> plain_entries_stand(text, pyproject_entries(text)),
        reads_pinned(text, kind, k, "=="@ + latest.text),
    ensures
        ({
            let dependencies = manifest_dependencies(text, kind);
            let new = "=="@ + latest.text;
            &&& replacement(dependencies[k], DependencyVersionView::Pep440(latest)) == Some(new)
            &&& updated_text(
                text,
                kind,
                k,
                DependencyVersionView::Pep440(latest),
            ) matches Some(after) && manifest_dependencies(after, kind) == repinned_dependencies(
                dependencies,
                k,
                new,
            )
        }),
{
    let new = "=="@ + latest.text;
    let entries = python_entries(text, kind);
    let e = entries[k];
    let (i, j) = pin_place(e);
    lemma_pinned(latest.text);
    assert(manifest_dependencies(text, kind) == python_dependencies(entries));
    assert(manifest_dependencies(text, kind)[k] == python_dependency(e));
    if kind == ManifestKind::Pyproject {
        assert(stands_in_list(text, e));
        lemma_project_entry(text, 0, None, k);
        assert(is_rewritable(text, e, new));
        lemma_project_repinned(text, 0, None, k, new);
    } else {
        lemma_requirements_stand(text, 0, k);
        lemma_requirements_repinned(text, 0, k, new);
    }
    lemma_pin_rewritten(text, e, new);
    lemma_dependencies_repinned(entries, k, new, shift(i, j, new));
}

// ---------------------------------------------------------------------------
// Reading what is written
// ---------------------------------------------------------------------------

/// Puts `new` in place of the characters `i..j`.
fn replace_chars(s: &[char], i: usize, j: usize, new: &str) -> (after: String)
    requires
        i <= j <= s@.len(),
    ensures
        after@ == replaced(s@, i as int, j as int, new@),
{
    let head = slice_subrange(s, 0, i);
    let tail = slice_subrange(s, j, s.len());
    assert(head@ =~= s@.take(i as int));
    assert(tail@ =~= s@.skip(j as int));
    let mut after = string_of(head);
    after.append(new);
    let rest = string_of(tail);
    after.append(rest.as_str());
    after
}

/// Puts `new` in place of the specifiers of a requirement.
pub fn repin(requirement: &str, new: &str) -> (after: String)
    ensures
        after@ == repinned(requirement@, new@),
{
    let chars = chars_of(requirement);
    let s = chars.as_slice();
    match python_specifier_span(s) {
        Some((start, end)) => replace_chars(s, start, end, new),
        None => requirement.to_string(),
    }
}

/// Whether the string of an entry is read with its specifiers replaced by `new`, and
/// nothing else changed.
fn string_reads_rewritten(text: &[char], entry: &PythonEntry, new: &str) -> (b: bool)
    requires
        entry.from <= entry.to <= text@.len(),
        specifier_span(entry.requirement@) is Some,
    ensures
        b == reads_rewritten(text@, entry@, new@),
{
    let requirement = chars_of(entry.requirement.as_str());
    let string = slice_subrange(text, entry.from, entry.to);
    match python_specifier_span(requirement.as_slice()) {
        Some((start, end)) => {
            if end > string.len() {
                return false;
            }
            let written = replace_chars(string, start, end, new);
            let expected = repin(entry.requirement.as_str(), new);
            match read_quoted(written.as_str()) {
                Some(read) => same_text(read.as_str(), expected.as_str()),
                None => false,
            }
        },
        None => false,
    }
}

/// Whether an entry is read with `new` as its specifier, and nothing else changed.
pub fn entry_reads_repinned(entry: &PythonEntry, new: &str) -> (b: bool)
    ensures
        b == reads_repinned(entry@, new@),
{
    let after = repin(entry.requirement.as_str(), new);
    match read_python_requirement(after.as_str()) {
        Some((name, specifiers)) => {
            let b = specifiers.len() == 1 && same_text(name.as_str(), entry.name.as_str())
                && same_text(specifiers[0].as_str(), new);
            proof {
                if specifiers@.len() == 1 {
                    assert(texts_of(specifiers@)[0] == specifiers@[0]@);
                    assert(specifiers@[0]@ == new@ ==> texts_of(specifiers@) =~= seq![new@]);
                }
                assert(seq![new@].len() == 1 && seq![new@][0] == new@);
            }
            b
        },
        None => false,
    }
}

/// Whether the requirement at `index` of a Python manifest is read with `new` as its
/// specifier, and nothing else changed.
pub fn requirement_reads_pinned(text: &str, kind: ManifestKind, index: usize, new: &str) -> (b:
    bool)
    requires
        index < python_entries(text@, kind).len(),
    ensures
        b == reads_pinned(text@, kind, index as int, new@),
        kind == ManifestKind::Pyproject ==> plain_entries_stand(text@, pyproject_entries(text@)),
{
    match kind {
        ManifestKind::Pyproject => {
            let entries = list_pyproject_entries(text);
            let entry = &entries[index];
            proof {
                assert(python_entry_views(entries@)[index as int] == entry@);
                lemma_project_entry(text@, 0, None, index as int);
            }
            let chars = chars_of(text);
            entry_reads_repinned(entry, new) && (chars[entry.from - 1] != '"'
                || string_reads_rewritten(chars.as_slice(), entry, new))
        },
        _ => {
            let entries = list_requirements_entries(text);
            assert(python_entry_views(entries@)[index as int] == entries@[index as int]@);
            entry_reads_repinned(&entries[index], new)
        },
    }
}

} // verus!
