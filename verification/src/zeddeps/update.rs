//! Manifests in which a dependency is brought to its latest version.

use crate::cargo_edits::lemma_cargo_replaced;
use crate::edits::{reads_back, stands_alone, stands_at, updated_entries, updated_entry};
use crate::entries::{cargo_entries, npm_entries, EntryView};
use crate::laws::{cargo_entries_are_dependencies, npm_entries_are_dependencies};
use crate::newest::is_release;
use crate::npm_edits::lemma_npm_replaced;
use crate::outside::text_of;
use crate::position::char_at_byte;
use crate::update::{
    lemma_editable, lemma_new_text, lemma_version_stands, reads_as_written, rewrite, rewritten,
};
use crate::version::{version_text, Version, VersionView};
use crate::zeddeps::laws::updated_manifest_reads_back;
use crate::zeddeps::manifest::{
    dependency_views, entry_dependencies, manifest_dependencies, parse_manifest, plain_dependency,
    replacement, spans_cover, DependencyView, Registry,
};
use vstd::prelude::*;

verus! {

/// The text of a manifest with the dependency at `k` brought to `latest`.
pub open spec fn updated_text(
    text: Seq<char>,
    kind: Registry,
    k: int,
    latest: VersionView,
) -> Option<
    Seq<char>,
> {
    let dependencies = manifest_dependencies(text, kind);
    if 0 <= k < dependencies.len() {
        let dep = dependencies[k];
        match replacement(dep, latest) {
            Some(new) => Some(rewritten(text, dep.start, dep.end, new)),
            None => None,
        }
    } else {
        None
    }
}

/// The dependencies of a manifest with the version of the one at `k` replaced by
/// `new`: that one has the new version, those that stand behind it are moved, and
/// all else is as before.
pub open spec fn updated_dependencies(
    dependencies: Seq<DependencyView>,
    k: int,
    new: Seq<char>,
) -> Seq<DependencyView> {
    let old = dependencies[k];
    let d = new.len() - (old.end - old.start);
    Seq::new(
        dependencies.len(),
        |m: int|
            {
                let dep = dependencies[m];
                if m == k {
                    plain_dependency(
                        dep.name,
                        dep.section,
                        dep.registry,
                        new,
                        dep.start,
                        dep.end + d,
                    )
                } else if dep.start > old.start {
                    DependencyView { start: dep.start + d, end: dep.end + d, ..dep }
                } else {
                    dep
                }
            },
    )
}

/// The dependency at `k` can be brought to `latest`, which is a release.
pub open spec fn is_updatable(
    text: Seq<char>,
    kind: Registry,
    k: int,
    latest: VersionView,
) -> bool {
    let dependencies = manifest_dependencies(text, kind);
    &&& 0 <= k < dependencies.len()
    &&& dependencies[k].can_edit
    &&& is_release(latest)
}

/// Where every entry has a version, every entry is a dependency.
proof fn lemma_all_entries(entries: Seq<EntryView>, registry: Registry)
    requires
        forall|m: int| 0 <= m < entries.len() ==> (#[trigger] entries[m]).version is Some,
    ensures
        entry_dependencies(entries, registry).len() == entries.len(),
        forall|m: int|
            0 <= m < entries.len() ==> #[trigger] entry_dependencies(entries, registry)[m]
                == plain_dependency(
                entries[m].name,
                entries[m].section,
                registry,
                entries[m].version->0,
                entries[m].start,
                entries[m].end,
            ),
    decreases entries.len(),
{
    if entries.len() > 0 {
        let head = entries.drop_last();
        assert forall|m: int| 0 <= m < head.len() implies (#[trigger] head[m]).version is Some by {
            assert(head[m] == entries[m]);
        }
        lemma_all_entries(head, registry);
        assert(entries[entries.len() - 1] == entries.last());
        let all = entry_dependencies(entries, registry);
        let before = entry_dependencies(head, registry);
        assert forall|m: int| 0 <= m < entries.len() implies #[trigger] all[m] == plain_dependency(
            entries[m].name,
            entries[m].section,
            registry,
            entries[m].version->0,
            entries[m].start,
            entries[m].end,
        ) by {
            if m < head.len() {
                assert(all[m] == before[m]);
                assert(head[m] == entries[m]);
            }
        }
    }
}

/// Every dependency of a manifest is one with a version requirement.
pub proof fn lemma_plain(text: Seq<char>, kind: Registry, k: int)
    requires
        0 <= k < manifest_dependencies(text, kind).len(),
    ensures
        ({
            let dep = manifest_dependencies(text, kind)[k];
            dep == plain_dependency(
                dep.name,
                dep.section,
                dep.registry,
                dep.current,
                dep.start,
                dep.end,
            )
        }),
{
    cargo_entries_are_dependencies(text, 0, None, false);
    npm_entries_are_dependencies(text);
    match kind {
        Registry::Cargo => {
            lemma_all_entries(cargo_entries(text, 0, None, false), kind);
        },
        Registry::Npm => {
            lemma_all_entries(npm_entries(text), kind);
        },
    }
}

/// Dependencies of updated entries are updated.
proof fn lemma_dependencies_updated(
    entries: Seq<EntryView>,
    registry: Registry,
    k: int,
    new: Seq<char>,
)
    requires
        0 <= k < entries.len(),
        forall|m: int| 0 <= m < entries.len() ==> (#[trigger] entries[m]).version is Some,
        stands_alone(entries, k, entries[k].start),
    ensures
        entry_dependencies(
            updated_entries(
                entries,
                entries[k].start,
                new.len() - (entries[k].end - entries[k].start),
                new,
            ),
            registry,
        ) == updated_dependencies(entry_dependencies(entries, registry), k, new),
{
    let start = entries[k].start;
    let d = new.len() - (entries[k].end - entries[k].start);
    let updated = updated_entries(entries, start, d, new);
    let before = entry_dependencies(entries, registry);
    let after = entry_dependencies(updated, registry);
    lemma_all_entries(entries, registry);
    assert forall|m: int| 0 <= m < updated.len() implies (#[trigger] updated[m]).version is Some by {
        assert(updated[m] == updated_entry(entries[m], start, d, new));
    }
    lemma_all_entries(updated, registry);
    assert forall|m: int| 0 <= m < after.len() implies #[trigger] after[m] == updated_dependencies(
        before,
        k,
        new,
    )[m] by {
        assert(updated[m] == updated_entry(entries[m], start, d, new));
        assert(before[m].start == entries[m].start);
        assert(before[k].start == start);
    }
    assert(after =~= updated_dependencies(before, k, new));
}

/// A dependency is read from an updated manifest with its new version, and the
/// others as before.
pub proof fn lemma_updated_manifest(text: Seq<char>, kind: Registry, k: int, latest: VersionView)
    requires
        is_updatable(text, kind, k, latest),
        spans_cover(text, manifest_dependencies(text, kind)),
        reads_back(manifest_dependencies(text, kind)[k].prefix + version_text(latest)),
    ensures
        ({
            let dependencies = manifest_dependencies(text, kind);
            let new = dependencies[k].prefix + version_text(latest);
            updated_text(text, kind, k, latest) matches Some(after) && manifest_dependencies(
                after,
                kind,
            ) == updated_dependencies(dependencies, k, new)
        }),
{
    let dep = manifest_dependencies(text, kind)[k];
    let new = dep.prefix + version_text(latest);
    let i = char_at_byte(text, dep.start, 0);
    let j = char_at_byte(text, dep.end, 0);
    let entries = match kind {
        Registry::Cargo => cargo_entries(text, 0, None, false),
        Registry::Npm => npm_entries(text),
    };
    cargo_entries_are_dependencies(text, 0, None, false);
    npm_entries_are_dependencies(text);
    lemma_all_entries(entries, kind);
    lemma_editable(dep.current);
    lemma_new_text(dep.current, latest);
    lemma_version_stands(text, dep.start, dep.end, dep.current, new);
    assert(stands_at(entries[k], text, i, j));
    match kind {
        Registry::Cargo => {
            lemma_cargo_replaced(text, i, j, new, 0, None, false, k);
        },
        Registry::Npm => {
            lemma_npm_replaced(text, i, j, new, k);
        },
    }
    lemma_dependencies_updated(entries, kind, k, new);
}

/// The text of a manifest with the dependency at `k` brought to `latest`, if what is
/// written is read again as it is.
pub open spec fn sound_update(
    text: Seq<char>,
    kind: Registry,
    k: int,
    latest: VersionView,
) -> Option<
    Seq<char>,
> {
    match updated_text(text, kind, k, latest) {
        Some(after) => if reads_back(
            replacement(manifest_dependencies(text, kind)[k], latest)->0,
        ) {
            Some(after)
        } else {
            None
        },
        None => None,
    }
}

/// Brings the dependency at `index` of a manifest to `latest`; none if there is no
/// such dependency, it cannot be rewritten, or what would be written is not read
/// again as it is. Read again, the manifest has the dependency with that version,
/// and the others as before; it can always be brought to a release.
pub fn update_dependency(text: &str, kind: Registry, index: usize, latest: &Version) -> (after:
    Option<String>)
    ensures
        text_of(after) == sound_update(text@, kind, index as int, latest@),
        is_updatable(text@, kind, index as int, latest@) ==> (after matches Some(t)
            && manifest_dependencies(t@, kind) == updated_dependencies(
            manifest_dependencies(text@, kind),
            index as int,
            replacement(manifest_dependencies(text@, kind)[index as int], latest@)->0,
        )),
{
    let dependencies = parse_manifest(text, kind);
    if index >= dependencies.len() {
        return None;
    }
    let dep = &dependencies[index];
    assert(dependency_views(dependencies@)[index as int] == dep@);
    let new = match dep.replacement_for(latest) {
        Some(new) => new,
        None => {
            return None;
        },
    };
    proof {
        if is_updatable(text@, kind, index as int, latest@) {
            lemma_plain(text@, kind, index as int);
            lemma_new_text(dep@.current, latest@);
        }
    }
    if !reads_as_written(new.as_str()) {
        return None;
    }
    proof {
        if is_updatable(text@, kind, index as int, latest@) {
            updated_manifest_reads_back(text@, kind, index as int, latest@);
        }
    }
    Some(rewrite(text, &dep.value_span, new.as_str()))
}

} // verus!
