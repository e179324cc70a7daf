//! What holds of the smaller server as a whole.

use crate::edits::reads_back;
use crate::entries::{cargo_entries, EntryView};
use crate::joined::{begins_with_header, ends_a_line, later_entries, lemma_cargo_joined};
use crate::laws::{release_text_reads_back, releases_are_ordered};
use crate::newest::is_release;
use crate::position::{position_offset, Position};
use crate::text::{byte_len, first_index, is_ascii_digit, lemma_first_index};
use crate::version::{
    decimal, is_simple, lemma_decimal, version_prefix, version_rest, version_text, VersionView,
};
use crate::zeddeps::manifest::{
    entry_dependencies, manifest_dependencies, plain_dependency, replacement, spans_cover,
    DependencyView, Registry,
};
use crate::zeddeps::server::{dependency_under, fix, holds_offset, news, outdated};
use crate::zeddeps::update::{
    is_updatable, lemma_plain, lemma_updated_manifest, updated_dependencies, updated_text,
};
use vstd::prelude::*;

verus! {

/// An update is final: with the replacement in place of its version, a dependency
/// names the latest version, keeps its operator, can still be rewritten, and is
/// not outdated.
pub proof fn update_is_final(
    name: Seq<char>,
    section: Seq<char>,
    registry: Registry,
    current: Seq<char>,
    start: int,
    end: int,
    latest: VersionView,
)
    requires
        is_simple(version_rest(current)),
        is_release(latest),
    ensures
        ({
            let dep = plain_dependency(name, section, registry, current, start, end);
            replacement(dep, latest) matches Some(text) && {
                let updated = plain_dependency(name, section, registry, text, start, end);
                &&& updated.current_version == Some(latest)
                &&& updated.prefix == dep.prefix
                &&& updated.can_edit
                &&& !outdated(updated, latest)
            }
        }),
{
    let prefix = version_prefix(current);
    let core = version_text(latest);
    let text = prefix + core;
    release_text_reads_back(latest);
    releases_are_ordered(latest, latest);
    lemma_decimal(latest.major as nat);
    assert(core[0] == decimal(latest.major as nat)[0]);
    assert(is_ascii_digit(core[0]));
    assert(prefix.len() > 0 ==> text[0] == current[0]);
    assert(version_prefix(text) =~= prefix);
    assert(version_rest(text) =~= core);
}

/// What an update writes is read back: with the latest release in place of its
/// version, a dependency is read with that release, behind the operator that it
/// had, and is not outdated. The other dependencies are read as before; those
/// behind it have moved by as much as its version has grown.
pub proof fn updated_manifest_reads_back(
    text: Seq<char>,
    kind: Registry,
    k: int,
    latest: VersionView,
)
    requires
        is_updatable(text, kind, k, latest),
        spans_cover(text, manifest_dependencies(text, kind)),
        reads_back(manifest_dependencies(text, kind)[k].prefix + version_text(latest)),
    ensures
        ({
            let before = manifest_dependencies(text, kind);
            let new = before[k].prefix + version_text(latest);
            &&& replacement(before[k], latest) == Some(new)
            &&& updated_text(text, kind, k, latest) matches Some(after) && {
                let read = manifest_dependencies(after, kind);
                &&& read == updated_dependencies(before, k, new)
                &&& read[k].name == before[k].name
                &&& read[k].section == before[k].section
                &&& read[k].current_version == Some(latest)
                &&& read[k].prefix == before[k].prefix
                &&& read[k].can_edit
                &&& !outdated(read[k], latest)
            }
        }),
{
    let dep = manifest_dependencies(text, kind)[k];
    let new = dep.prefix + version_text(latest);
    lemma_updated_manifest(text, kind, k, latest);
    lemma_plain(text, kind, k);
    update_is_final(
        dep.name,
        dep.section,
        dep.registry,
        dep.current,
        dep.start,
        dep.end + new.len() - (dep.end - dep.start),
        latest,
    );
}

/// A fix is offered exactly for an outdated dependency that can be rewritten, and
/// puts the latest version behind the dependency's own operator.
pub proof fn fix_writes_the_news(
    dep: DependencyView,
    latest: Result<Option<VersionView>, Seq<char>>,
)
    ensures
        fix(dep, latest) is Some == (dep.can_edit && (latest matches Ok(Some(v)) && outdated(
            dep,
            v,
        ))),
        fix(dep, latest) matches Some(f) ==> f.new_text == dep.prefix + version_text(
            news(dep, latest)->0,
        ),
{
}

/// `dep` is at `i` among the dependencies, its span holds the byte `offset`, and
/// that of no earlier one does.
pub open spec fn is_first_at(
    dependencies: Seq<DependencyView>,
    i: int,
    offset: int,
    dep: DependencyView,
) -> bool {
    &&& 0 <= i < dependencies.len()
    &&& dependencies[i] == dep
    &&& dep.start <= offset <= dep.end
    &&& forall|j: int|
        0 <= j < i ==> !((#[trigger] dependencies[j]).start <= offset <= dependencies[j].end)
}

/// The dependency under a position is one of the manifest's, its span holds the
/// position, and no earlier one does.
pub proof fn dependency_under_holds_position(text: Seq<char>, kind: Registry, position: Position)
    ensures
        dependency_under(text, kind, position) matches Some(dep) ==> {
            let dependencies = manifest_dependencies(text, kind);
            position_offset(text, position) matches Some(offset) && exists|i: int|
                is_first_at(dependencies, i, offset, dep)
        },
{
    let dependencies = manifest_dependencies(text, kind);
    if let Some(offset) = position_offset(text, position) {
        let p = holds_offset(dependencies, offset);
        lemma_first_index(p, 0, dependencies.len() as int);
        if let Some(i) = first_index(p, 0, dependencies.len() as int) {
            assert(p(i));
            assert forall|j: int| 0 <= j < i implies !((#[trigger] dependencies[j]).start <= offset
                <= dependencies[j].end) by {
                assert(!p(j));
            }
            assert(is_first_at(dependencies, i, offset, dependencies[i]));
        }
    }
}

/// Dependencies that stand `bytes` further to the right.
pub open spec fn later_dependencies(dependencies: Seq<DependencyView>, bytes: int) -> Seq<
    DependencyView,
> {
    Seq::new(
        dependencies.len(),
        |k: int|
            DependencyView {
                start: dependencies[k].start + bytes,
                end: dependencies[k].end + bytes,
                ..dependencies[k]
            },
    )
}

/// The dependencies of entries, and of moved ones behind them.
pub(crate) proof fn lemma_dependencies_join(a: Seq<EntryView>, b: Seq<EntryView>, bytes: int)
    ensures
        entry_dependencies(a + later_entries(b, bytes), Registry::Cargo) == entry_dependencies(
            a,
            Registry::Cargo,
        ) + later_dependencies(entry_dependencies(b, Registry::Cargo), bytes),
    decreases b.len(),
{
    let later = later_entries(b, bytes);
    let dependencies = later_dependencies(entry_dependencies(b, Registry::Cargo), bytes);
    let before = entry_dependencies(a, Registry::Cargo);
    if b.len() == 0 {
        assert(a + later =~= a);
        assert(before + dependencies =~= before);
    } else {
        lemma_dependencies_join(a, b.drop_last(), bytes);
        assert((a + later).drop_last() =~= a + later_entries(b.drop_last(), bytes));
        assert((a + later).last() == later.last());
        assert(entry_dependencies(a + later, Registry::Cargo) =~= before + dependencies);
    }
}

/// A Cargo manifest that is split before a header declares what its two parts
/// declare, the second one's dependencies as far to the right as the first one is
/// long.
pub proof fn cargo_manifests_join(a: Seq<char>, b: Seq<char>)
    requires
        ends_a_line(a),
        begins_with_header(b),
    ensures
        manifest_dependencies(a + b, Registry::Cargo) == manifest_dependencies(a, Registry::Cargo)
            + later_dependencies(manifest_dependencies(b, Registry::Cargo), byte_len(a) as int),
{
    lemma_cargo_joined(a, b, 0, None, false);
    lemma_dependencies_join(
        cargo_entries(a, 0, None, false),
        cargo_entries(b, 0, None, false),
        byte_len(a) as int,
    );
}

} // verus!
