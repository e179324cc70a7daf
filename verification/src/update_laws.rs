//! What updates write, and where editors are told to write it.

use crate::edits::reads_back;
use crate::manifest::{manifest_dependencies, DependencyVersionView, ManifestKind};
use crate::position::{
    byte_place, is_range_of, lemma_char_at_byte, lemma_char_at_place, place_fits, place_named,
    position_offset, span_fits, Position, Range, Span,
};
use crate::python_update::reads_pinned;
use crate::text::byte_offset;
use crate::update::{rewritten, sound_update, updated_text};
use crate::version::{version_text, Pep440View, VersionView};
use vstd::prelude::*;

verus! {

// ---------------------------------------------------------------------------
// Updates
// ---------------------------------------------------------------------------

/// What is written takes the place of the characters that its bytes are those of; the
/// rest of the text stays.
pub proof fn rewriting_leaves_the_rest(text: Seq<char>, i: int, j: int, new: Seq<char>)
    requires
        0 <= i <= j <= text.len(),
    ensures
        rewritten(text, byte_offset(text, i) as int, byte_offset(text, j) as int, new)
            == text.take(i) + new + text.skip(j),
{
    lemma_char_at_byte(text, i, 0);
    lemma_char_at_byte(text, j, 0);
}

/// A dependency of a Cargo or npm manifest that can be rewritten is brought to every
/// version whose text is read as it is written: behind the operator that it had, and in
/// the place of its version.
pub proof fn update_writes_at_the_span(
    text: Seq<char>,
    kind: ManifestKind,
    k: int,
    i: int,
    j: int,
    latest: VersionView,
)
    requires
        kind == ManifestKind::Cargo || kind == ManifestKind::PackageJson,
        0 <= k < manifest_dependencies(text, kind).len(),
        manifest_dependencies(text, kind)[k].can_edit,
        0 <= i <= j <= text.len(),
        manifest_dependencies(text, kind)[k].start == byte_offset(text, i),
        manifest_dependencies(text, kind)[k].end == byte_offset(text, j),
        reads_back(manifest_dependencies(text, kind)[k].prefix + version_text(latest)),
    ensures
        sound_update(text, kind, k, DependencyVersionView::Semver(latest)) == Some(
            text.take(i) + (manifest_dependencies(text, kind)[k].prefix + version_text(latest))
                + text.skip(j),
        ),
{
    let dep = manifest_dependencies(text, kind)[k];
    rewriting_leaves_the_rest(text, i, j, dep.prefix + version_text(latest));
}

/// A Python dependency is pinned to every version for which its requirement is read
/// again with the pin, in the place of its specifiers.
pub proof fn update_pins_at_the_span(
    text: Seq<char>,
    kind: ManifestKind,
    k: int,
    i: int,
    j: int,
    latest: Pep440View,
)
    requires
        kind == ManifestKind::Pyproject || kind == ManifestKind::Requirements,
        0 <= k < manifest_dependencies(text, kind).len(),
        0 <= i <= j <= text.len(),
        manifest_dependencies(text, kind)[k].start == byte_offset(text, i),
        manifest_dependencies(text, kind)[k].end == byte_offset(text, j),
        reads_pinned(text, kind, k, "=="@ + latest.text),
    ensures
        sound_update(text, kind, k, DependencyVersionView::Pep440(latest)) == Some(
            text.take(i) + ("=="@ + latest.text) + text.skip(j),
        ),
{
    rewriting_leaves_the_rest(text, i, j, "=="@ + latest.text);
}

/// Nothing is written for what is no dependency, or cannot be rewritten.
pub proof fn locked_dependency_is_not_written(
    text: Seq<char>,
    kind: ManifestKind,
    k: int,
    latest: DependencyVersionView,
)
    requires
        k < 0 || k >= manifest_dependencies(text, kind).len() || !manifest_dependencies(
            text,
            kind,
        )[k].can_edit,
    ensures
        sound_update(text, kind, k, latest) is None,
        updated_text(text, kind, k, latest) is None,
{
}

// ---------------------------------------------------------------------------
// Ranges
// ---------------------------------------------------------------------------

/// The range of a span leads back to it: its start to the first byte of the span, and
/// its end to the byte behind the last one.
pub proof fn ranges_lead_back(text: Seq<char>, span: Span, range: Range, i: int, j: int)
    requires
        0 <= i <= j <= text.len(),
        span.start == byte_offset(text, i),
        span.end == byte_offset(text, j),
        is_range_of(range, text, span),
    ensures
        position_offset(text, range.start) == Some(span.start as int),
        position_offset(text, range.end) == Some(span.end as int),
{
    lemma_char_at_byte(text, i, 0);
    lemma_char_at_place(text, i, 0);
    lemma_char_at_byte(text, j, 0);
    lemma_char_at_place(text, j, 0);
}

/// A span has a range wherever its ends have positions.
pub proof fn spans_with_positions_have_ranges(
    text: Seq<char>,
    span: Span,
    start: Position,
    end: Position,
)
    requires
        place_named(start) == byte_place(text, span.start as int),
        place_named(end) == byte_place(text, span.end as int),
    ensures
        place_fits(place_named(start)),
        place_fits(place_named(end)),
        span_fits(text, span),
        is_range_of(Range { start, end }, text, span),
{
}

} // verus!
