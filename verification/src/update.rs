//! Manifests in which a dependency is brought to its latest version.

use crate::cargo_edits::lemma_cargo_replaced;
use crate::edits::{
    byte_shift, in_quotation_marks, is_edit, is_version_char, is_version_like, lemma_version_bytes,
    reads_back, replaced, stands_alone, stands_at, updated_entries, updated_entry,
};
use crate::entries::{cargo_entries, covers, covers_chars, npm_entries, EntryView};
use crate::laws::{pinned_manifest_reads_back, updated_manifest_reads_back};
use crate::manifest::{
    dependency_views, entry_dependencies, manifest_dependencies, parse_manifest, plain_dependency,
    replacement, spans_cover, DependencyVersion, DependencyVersionView, DependencyView,
    ManifestKind, Registry,
};
use crate::newest::is_release;
use crate::npm_edits::lemma_npm_replaced;
use crate::outside::{json_string, json_string_value, text_of};
use crate::position::{char_at_byte, lemma_char_at_byte, Span};
use crate::python_update::{
    is_repinnable, reads_pinned, repinned_dependencies, requirement_reads_pinned,
};
use crate::scan::is_verbatim;
use crate::text::{
    byte_offset, byte_offsets, chars_of, is_ascii_digit, lemma_index_of, same_text, string_of,
};
use crate::version::{
    decimal, is_digits, is_simple, lemma_decimal, split, version_prefix, version_rest, version_text,
    VersionView,
};
use vstd::prelude::*;
use vstd::slice::slice_subrange;
use vstd::string::StringExecFns;

verus! {

/// `text` with `new` in place of the bytes `start..end`.
pub open spec fn rewritten(text: Seq<char>, start: int, end: int, new: Seq<char>) -> Seq<char> {
    replaced(text, char_at_byte(text, start, 0), char_at_byte(text, end, 0), new)
}

/// The text of a manifest with the dependency at `k` brought to `latest`.
pub open spec fn updated_text(
    text: Seq<char>,
    kind: ManifestKind,
    k: int,
    latest: DependencyVersionView,
) -> Option<Seq<char>> {
    let dependencies = manifest_dependencies(text, kind);
    if 0 <= k < dependencies.len() {
        let dep = dependencies[k];
        match replacement(dep, latest) {
            Some(new) => Some(rewritten(text, dep.start, dep.end, new)),
            None => None,
        }
    } else {
        None
    }
}

/// The dependencies of a manifest with the version of the one at `k` replaced by
/// `new`: that one has the new version, those that stand behind it are moved, and
/// all else is as before.
pub open spec fn updated_dependencies(
    dependencies: Seq<DependencyView>,
    k: int,
    new: Seq<char>,
) -> Seq<DependencyView> {
    let old = dependencies[k];
    let d = new.len() - (old.end - old.start);
    Seq::new(
        dependencies.len(),
        |m: int|
            {
                let dep = dependencies[m];
                if m == k {
                    plain_dependency(
                        dep.name,
                        dep.section,
                        dep.registry,
                        new,
                        dep.start,
                        dep.end + d,
                    )
                } else if dep.start > old.start {
                    DependencyView { start: dep.start + d, end: dep.end + d, ..dep }
                } else {
                    dep
                }
            },
    )
}

/// The dependency at `k` of a Cargo or npm manifest can be brought to `latest`,
/// which is a release.
pub open spec fn is_updatable(
    text: Seq<char>,
    kind: ManifestKind,
    k: int,
    latest: DependencyVersionView,
) -> bool {
    let dependencies = manifest_dependencies(text, kind);
    &&& kind == ManifestKind::Cargo || kind == ManifestKind::PackageJson
    &&& 0 <= k < dependencies.len()
    &&& dependencies[k].can_edit
    &&& latest matches DependencyVersionView::Semver(v) && is_release(v)
}

/// A simple version is made of digits and full stops.
proof fn lemma_simple(s: Seq<char>)
    requires
        forall|i: int|
            0 <= i < split(s, '.').len() ==> (#[trigger] split(s, '.')[i]).len() > 0 && is_digits(
                split(s, '.')[i],
            ),
    ensures
        is_version_like(s),
    decreases s.len(),
{
    lemma_index_of(s, '.', 0, s.len() as int);
    let parts = split(s, '.');
    let head = parts[0];
    assert(head.len() > 0 && is_digits(head));
    match crate::text::index_of(s, '.', 0, s.len() as int) {
        Some(i) => {
            let rest = s.skip(i + 1);
            let others = split(rest, '.');
            assert forall|m: int| 0 <= m < others.len() implies (#[trigger] others[m]).len() > 0
                && is_digits(others[m]) by {
                assert(parts[m + 1] == others[m]);
            }
            lemma_simple(rest);
            assert(head == s.take(i));
            assert forall|m: int| 0 <= m < s.len() implies is_version_char(#[trigger] s[m]) by {
                if m < i {
                    assert(is_ascii_digit(head[m]));
                } else if m > i {
                    assert(is_version_char(rest[m - i - 1]));
                }
            }
        },
        None => {
            assert forall|m: int| 0 <= m < s.len() implies is_version_char(#[trigger] s[m]) by {
                assert(is_ascii_digit(head[m]));
            }
        },
    }
}

/// A version requirement that can be rewritten is made of what versions are made
/// of.
pub(crate) proof fn lemma_editable(current: Seq<char>)
    requires
        is_simple(version_rest(current)),
    ensures
        is_version_like(current),
{
    let rest = version_rest(current);
    lemma_simple(rest);
    let n = version_prefix(current).len() as int;
    assert forall|m: int| 0 <= m < current.len() implies is_version_char(#[trigger] current[m]) by {
        if m >= n {
            assert(is_version_char(rest[m - n]));
        }
    }
}

/// What is written in place of a version is made of what versions are made of.
pub(crate) proof fn lemma_new_text(current: Seq<char>, latest: VersionView)
    requires
        is_release(latest),
    ensures
        is_version_like(version_prefix(current) + version_text(latest)),
{
    let prefix = version_prefix(current);
    let a = decimal(latest.major as nat);
    let b = decimal(latest.minor as nat);
    let c = decimal(latest.patch as nat);
    lemma_decimal(latest.major as nat);
    lemma_decimal(latest.minor as nat);
    lemma_decimal(latest.patch as nat);
    let text = version_text(latest);
    assert(text == a.push('.') + b.push('.') + c);
    assert forall|m: int| 0 <= m < text.len() implies is_version_char(#[trigger] text[m]) by {
        if m < a.len() {
            assert(is_ascii_digit(a[m]));
        } else if a.len() < m < a.len() + 1 + b.len() {
            assert(is_ascii_digit(b[m - a.len() - 1]));
        } else if m > a.len() + 1 + b.len() {
            assert(is_ascii_digit(c[m - a.len() - 1 - b.len() - 1]));
        }
    }
    let new = prefix + text;
    assert forall|m: int| 0 <= m < new.len() implies is_version_char(#[trigger] new[m]) by {
        if m >= prefix.len() {
            assert(new[m] == text[m - prefix.len()]);
        }
    }
}

/// Where the version of a dependency stands, in characters.
pub(crate) proof fn lemma_version_stands(
    text: Seq<char>,
    start: int,
    end: int,
    current: Seq<char>,
    new: Seq<char>,
)
    requires
        covers(text, start, end, current),
        is_version_like(current),
        is_version_like(new),
    ensures
        ({
            let i = char_at_byte(text, start, 0);
            let j = char_at_byte(text, end, 0);
            &&& is_edit(text, i, j, new)
            &&& i < j
            &&& start == byte_offset(text, i)
            &&& end == byte_offset(text, j)
            &&& byte_shift(text, i, j, new) == new.len() - (end - start)
        }),
{
    let (i, j) = choose|i: int, j: int| #[trigger] covers_chars(text, i, j, start, end, current);
    lemma_char_at_byte(text, i, 0);
    lemma_char_at_byte(text, j, 0);
    lemma_version_bytes(new);
    if i == j {
        assert(is_verbatim(text.subrange(i, j)));
    }
}

/// Dependencies of updated entries are updated.
proof fn lemma_dependencies_updated(
    entries: Seq<EntryView>,
    registry: Registry,
    k: int,
    new: Seq<char>,
)
    requires
        0 <= k < entries.len(),
        entries[k].version is Some,
        stands_alone(entries, k, entries[k].start),
    ensures
        entry_dependencies(
            updated_entries(
                entries,
                entries[k].start,
                new.len() - (entries[k].end - entries[k].start),
                new,
            ),
            registry,
        ) == updated_dependencies(entry_dependencies(entries, registry), k, new),
{
    let start = entries[k].start;
    let d = new.len() - (entries[k].end - entries[k].start);
    let before = entry_dependencies(entries, registry);
    let after = entry_dependencies(updated_entries(entries, start, d, new), registry);
    assert forall|m: int| 0 <= m < after.len() implies #[trigger] after[m] == updated_dependencies(
        before,
        k,
        new,
    )[m] by {
        assert(updated_entries(entries, start, d, new)[m] == updated_entry(
            entries[m],
            start,
            d,
            new,
        ));
        assert(before[m] == crate::manifest::entry_dependency(entries[m], registry));
    }
    assert(after =~= updated_dependencies(before, k, new));
}

/// A dependency is read from an updated manifest with its new version, and the
/// others as before.
pub proof fn lemma_updated_manifest(
    text: Seq<char>,
    kind: ManifestKind,
    k: int,
    latest: VersionView,
)
    requires
        is_updatable(text, kind, k, DependencyVersionView::Semver(latest)),
        spans_cover(text, manifest_dependencies(text, kind)),
        reads_back(manifest_dependencies(text, kind)[k].prefix + version_text(latest)),
    ensures
        ({
            let dependencies = manifest_dependencies(text, kind);
            let new = dependencies[k].prefix + version_text(latest);
            updated_text(text, kind, k, DependencyVersionView::Semver(latest)) matches Some(after)
                && manifest_dependencies(after, kind) == updated_dependencies(dependencies, k, new)
        }),
{
    let dependencies = manifest_dependencies(text, kind);
    let dep = dependencies[k];
    let new = dep.prefix + version_text(latest);
    let i = char_at_byte(text, dep.start, 0);
    let j = char_at_byte(text, dep.end, 0);
    lemma_editable(dep.current);
    lemma_new_text(dep.current, latest);
    lemma_version_stands(text, dep.start, dep.end, dep.current, new);
    match kind {
        ManifestKind::Cargo => {
            let entries = cargo_entries(text, 0, None, true);
            assert(dep == crate::manifest::entry_dependency(entries[k], Registry::Cargo));
            assert(stands_at(entries[k], text, i, j));
            lemma_cargo_replaced(text, i, j, new, 0, None, true, k);
            lemma_dependencies_updated(entries, Registry::Cargo, k, new);
        },
        _ => {
            let entries = npm_entries(text);
            assert(dep == crate::manifest::entry_dependency(entries[k], Registry::Npm));
            assert(stands_at(entries[k], text, i, j));
            lemma_npm_replaced(text, i, j, new, k);
            lemma_dependencies_updated(entries, Registry::Npm, k, new);
        },
    }
}

/// The first character that begins at the byte `target` or behind it.
fn find_char_at_byte(text: &str, target: usize) -> (at: usize)
    ensures
        at == char_at_byte(text@, target as int, 0),
        at <= text@.len(),
{
    let offsets = byte_offsets(text);
    let n: usize = offsets.len() - 1;
    let mut at: usize = 0;
    while at < n && offsets[at] < target
        invariant
            at <= n,
            n == text@.len(),
            offsets@.len() == n + 1,
            forall|k: int| 0 <= k <= n ==> #[trigger] offsets@[k] == byte_offset(text@, k),
            char_at_byte(text@, target as int, 0) == char_at_byte(text@, target as int, at as int),
        decreases n - at,
    {
        at += 1;
    }
    at
}

/// Writes `new` in place of a span.
pub fn rewrite(text: &str, span: &Span, new: &str) -> (after: String)
    ensures
        after@ == rewritten(text@, span.start as int, span.end as int, new@),
{
    let chars = chars_of(text);
    let s = chars.as_slice();
    let i = find_char_at_byte(text, span.start);
    let j = find_char_at_byte(text, span.end);
    let head = slice_subrange(s, 0, i);
    let tail = slice_subrange(s, j, s.len());
    assert(head@ =~= text@.take(i as int));
    assert(tail@ =~= text@.skip(j as int));
    let mut after = string_of(head);
    after.append(new);
    let rest = string_of(tail);
    after.append(rest.as_str());
    after
}

/// Reads `value` from between quotation marks. What versions are made of is read as
/// it is.
pub(crate) fn read_quoted(value: &str) -> (read: Option<String>)
    ensures
        text_of(read) == json_string_value(in_quotation_marks(value@)),
        is_version_like(value@) ==> reads_back(value@),
{
    let mut raw = "\"".to_string();
    raw.append(value);
    raw.push('"');
    let read = json_string(raw.as_str());
    proof {
        reveal_strlit("\"");
        assert(raw@ =~= in_quotation_marks(value@));
        if is_version_like(value@) {
            assert forall|m: int| 0 < m < raw@.len() - 1 implies is_version_char(
                #[trigger] raw@[m],
            ) by {
                assert(raw@[m] == value@[m - 1]);
            }
            assert(raw@.subrange(1, raw@.len() - 1) =~= value@);
        }
    }
    read
}

/// Whether `value` is read from between quotation marks as it is. What versions are
/// made of is.
pub fn reads_as_written(value: &str) -> (b: bool)
    ensures
        b == reads_back(value@),
        is_version_like(value@) ==> b,
{
    match read_quoted(value) {
        Some(read) => same_text(read.as_str(), value),
        None => false,
    }
}

/// What an update writes for the dependency at `k` is read again as it is written.
pub open spec fn reads_written(
    text: Seq<char>,
    kind: ManifestKind,
    k: int,
    new: Seq<char>,
) -> bool {
    match kind {
        ManifestKind::Cargo => reads_back(new),
        ManifestKind::PackageJson => reads_back(new),
        _ => reads_pinned(text, kind, k, new),
    }
}

/// The text of a manifest with the dependency at `k` brought to `latest`, if it is
/// read again as it is written.
pub open spec fn sound_update(
    text: Seq<char>,
    kind: ManifestKind,
    k: int,
    latest: DependencyVersionView,
) -> Option<Seq<char>> {
    match updated_text(text, kind, k, latest) {
        Some(after) => if reads_written(
            text,
            kind,
            k,
            replacement(manifest_dependencies(text, kind)[k], latest)->0,
        ) {
            Some(after)
        } else {
            None
        },
        None => None,
    }
}

/// Brings the dependency at `index` of a manifest to `latest`; none if there is no
/// such dependency, nothing to write for it, or what would be written is not read
/// again as it is. Read again, the manifest has the dependency with that version,
/// and the others as before; a Cargo or npm manifest can always be brought to a
/// release.
pub fn update_dependency(
    text: &str,
    kind: ManifestKind,
    index: usize,
    latest: &DependencyVersion,
) -> (after: Option<String>)
    ensures
        text_of(after) == sound_update(text@, kind, index as int, latest@),
        is_updatable(text@, kind, index as int, latest@) ==> (after matches Some(t)
            && manifest_dependencies(t@, kind) == updated_dependencies(
            manifest_dependencies(text@, kind),
            index as int,
            replacement(manifest_dependencies(text@, kind)[index as int], latest@)->0,
        )),
        is_repinnable(text@, kind, index as int, latest@) ==> (after matches Some(t)
            ==> manifest_dependencies(t@, kind) == repinned_dependencies(
            manifest_dependencies(text@, kind),
            index as int,
            replacement(manifest_dependencies(text@, kind)[index as int], latest@)->0,
        )),
{
    let dependencies = parse_manifest(text, kind);
    if index >= dependencies.len() {
        return None;
    }
    let dep = &dependencies[index];
    assert(dependency_views(dependencies@)[index as int] == dep@);
    let new = match dep.replacement_for(latest) {
        Some(new) => new,
        None => {
            return None;
        },
    };
    proof {
        if is_updatable(text@, kind, index as int, latest@) {
            lemma_new_text(dep@.current, latest@->Semver_0);
        }
    }
    let reads = match kind {
        ManifestKind::Cargo => reads_as_written(new.as_str()),
        ManifestKind::PackageJson => reads_as_written(new.as_str()),
        _ => requirement_reads_pinned(text, kind, index, new.as_str()),
    };
    if !reads {
        return None;
    }
    proof {
        if is_updatable(text@, kind, index as int, latest@) {
            updated_manifest_reads_back(text@, kind, index as int, latest@->Semver_0);
        }
        if is_repinnable(text@, kind, index as int, latest@) {
            pinned_manifest_reads_back(text@, kind, index as int, latest@->Pep440_0);
        }
    }
    Some(rewrite(text, &dep.value_span, new.as_str()))
}

} // verus!
