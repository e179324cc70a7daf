//! What the smaller server reads of manifests as they are written.

use crate::cargo_laws::{
    declaration_text, heading_text, is_assignment, is_heading, is_package_section,
    is_registry_table, is_section_name, lemma_deferred_entries, lemma_elsewhere_entries,
    lemma_section_names, lemma_table_entries, lemma_text_entries, member_byte, value_byte,
    Assignment, Heading,
};
use crate::edits::{in_quotation_marks, reads_back};
use crate::entries::{cargo_entries, npm_entries, EntryView};
use crate::joined::ends_a_line;
use crate::laws::npm_entries_are_dependencies;
use crate::manifest::ManifestKind;
use crate::markers::is_gap;
use crate::python_laws::is_line_ending;
use crate::section_laws::{
    any_header, is_any_header, lacks_headers, lemma_other_section, lemma_section_joined,
    lemma_sectionless,
};
use crate::tables::{
    are_members, is_bare, is_member, is_text, lacks_key, table_text, Member, Value,
};
use crate::text::{byte_len, byte_offset, contains_text, trimmed};
use crate::update_laws::rewriting_leaves_the_rest;
use crate::version::{version_text, VersionView};
use crate::zeddeps::laws::{later_dependencies, lemma_dependencies_join};
use crate::zeddeps::manifest::{
    entry_dependencies, manifest_dependencies, plain_dependency, DependencyView, Registry,
};
use crate::zeddeps::registry::known_registry;
use crate::zeddeps::server_laws::known_dependency;
use crate::zeddeps::update::sound_update;
use vstd::prelude::*;

verus! {

/// Dependencies as the larger server has them.
pub open spec fn known_dependencies(dependencies: Seq<DependencyView>) -> Seq<
    crate::manifest::DependencyView,
> {
    Seq::new(dependencies.len(), |i: int| known_dependency(dependencies[i]))
}

/// Both servers make the same of a name, a section and a version.
pub proof fn dependencies_agree(
    name: Seq<char>,
    section: Seq<char>,
    registry: Registry,
    current: Seq<char>,
    start: int,
    end: int,
)
    ensures
        known_dependency(plain_dependency(name, section, registry, current, start, end))
            == crate::manifest::plain_dependency(
            name,
            section,
            known_registry(registry),
            current,
            start,
            end,
        ),
{
}

/// Both servers make the same of entries with versions.
proof fn lemma_entries_agree(entries: Seq<EntryView>, registry: Registry)
    requires
        forall|k: int| 0 <= k < entries.len() ==> (#[trigger] entries[k]).version is Some,
    ensures
        known_dependencies(entry_dependencies(entries, registry))
            == crate::manifest::entry_dependencies(entries, known_registry(registry)),
    decreases entries.len(),
{
    let here = entry_dependencies(entries, registry);
    let there = crate::manifest::entry_dependencies(entries, known_registry(registry));
    if entries.len() > 0 {
        let before = entries.drop_last();
        let last = entries.len() - 1;
        assert(entries[last] == entries.last());
        assert forall|k: int| 0 <= k < before.len() implies (
        #[trigger] before[k]).version is Some by {
            assert(before[k] == entries[k]);
        }
        lemma_entries_agree(before, registry);
        let shorter = entry_dependencies(before, registry);
        assert(here == shorter.push(here.last()));
        assert(here.drop_last() =~= shorter);
        let e = entries.last();
        dependencies_agree(e.name, e.section, registry, e.version->0, e.start, e.end);
        assert(known_dependencies(here) =~= known_dependencies(shorter).push(
            known_dependency(here.last()),
        ));
        assert(there =~= crate::manifest::entry_dependencies(
            before,
            known_registry(registry),
        ).push(there[last]));
    } else {
        assert(known_dependencies(here) =~= there);
    }
}

/// Both servers read the same dependencies from an npm manifest.
pub proof fn npm_manifests_agree(text: Seq<char>)
    ensures
        known_dependencies(manifest_dependencies(text, Registry::Npm))
            == crate::manifest::manifest_dependencies(text, ManifestKind::PackageJson),
{
    npm_entries_are_dependencies(text);
    lemma_entries_agree(npm_entries(text), Registry::Npm);
}

/// The dependency of a single entry.
proof fn lemma_single(e: EntryView, version: Seq<char>)
    requires
        e.version == Some(version),
    ensures
        entry_dependencies(seq![e], Registry::Cargo) == seq![
            plain_dependency(e.name, e.section, Registry::Cargo, version, e.start, e.end),
        ],
{
    let entries = seq![e];
    assert(entries.last() == e);
    assert(entries.drop_last() =~= Seq::<EntryView>::empty());
    assert(entry_dependencies(entries.drop_last(), Registry::Cargo) =~= Seq::<
        DependencyView,
    >::empty());
    assert(entry_dependencies(entries, Registry::Cargo) =~= seq![
        plain_dependency(e.name, e.section, Registry::Cargo, version, e.start, e.end),
    ]);
}

/// A version between quotation marks declares a dependency: with the name of its key,
/// in its section, and at the bytes that the version takes.
pub proof fn text_declares_its_version(
    h: Heading,
    a: Assignment,
    version: Seq<char>,
    ending: Seq<char>,
)
    requires
        is_heading(h),
        is_package_section(h.section),
        is_assignment(a),
        is_bare(a.key),
        is_text(version),
        is_line_ending(ending),
    ensures
        ({
            let start = value_byte(h, a) + 1;
            manifest_dependencies(
                declaration_text(h, a, in_quotation_marks(version), ending),
                Registry::Cargo,
            ) == seq![
                plain_dependency(
                    a.key,
                    h.section,
                    Registry::Cargo,
                    version,
                    start,
                    start + byte_len(version),
                ),
            ]
        }),
{
    lemma_section_names(h.section);
    lemma_text_entries(h, a, version, ending, false);
    let start = value_byte(h, a) + 1;
    lemma_single(
        EntryView {
            name: a.key,
            section: h.section,
            version: Some(version),
            start,
            end: start + byte_len(version),
        },
        version,
    );
}

/// A table with a version declares a dependency with it, whatever other keys it has
/// and wherever they stand, unless it takes the package from a path, a repository or
/// another registry, or speaks of the workspace.
pub proof fn table_declares_its_version(
    h: Heading,
    a: Assignment,
    before: Seq<Member>,
    m: Member,
    behind: Seq<Member>,
    ending: Seq<char>,
)
    requires
        is_heading(h),
        is_package_section(h.section),
        is_assignment(a),
        is_bare(a.key),
        are_members(before),
        is_member(m),
        are_members(behind),
        m.key == "version"@,
        lacks_key(before, "version"@),
        m.value is Text,
        is_registry_table(before, m, behind),
        !contains_text(table_text(before, m, behind) + a.gap, "workspace = true"@),
        !contains_text(table_text(before, m, behind) + a.gap, "workspace=true"@),
        is_line_ending(ending),
    ensures
        ({
            let version = m.value->Text_0;
            let start = value_byte(h, a) + member_byte(before, m) + 1;
            manifest_dependencies(
                declaration_text(h, a, table_text(before, m, behind), ending),
                Registry::Cargo,
            ) == seq![
                plain_dependency(
                    a.key,
                    h.section,
                    Registry::Cargo,
                    version,
                    start,
                    start + byte_len(version),
                ),
            ]
        }),
{
    let version = m.value->Text_0;
    let start = value_byte(h, a) + member_byte(before, m) + 1;
    lemma_section_names(h.section);
    lemma_table_entries(h, a, before, m, behind, ending, false);
    lemma_single(
        EntryView {
            name: a.key,
            section: h.section,
            version: Some(version),
            start,
            end: start + byte_len(version),
        },
        version,
    );
}

/// A table that takes the package from a path, a repository or another registry
/// declares nothing, whatever version it has.
pub proof fn table_from_elsewhere_declares_nothing(
    h: Heading,
    a: Assignment,
    before: Seq<Member>,
    m: Member,
    behind: Seq<Member>,
    ending: Seq<char>,
)
    requires
        is_heading(h),
        is_package_section(h.section),
        is_assignment(a),
        is_bare(a.key),
        are_members(before),
        is_member(m),
        are_members(behind),
        m.key == "path"@ || m.key == "git"@ || m.key == "registry"@,
        lacks_key(before, m.key),
        m.value is Text,
        is_line_ending(ending),
    ensures
        manifest_dependencies(
            declaration_text(h, a, table_text(before, m, behind), ending),
            Registry::Cargo,
        ).len() == 0,
{
    lemma_section_names(h.section);
    lemma_elsewhere_entries(h, a, before, m, behind, ending, false);
}

/// A table that leaves its version to the workspace declares nothing here, with a blank
/// on both sides of its equals sign or on none.
pub proof fn table_of_the_workspace_declares_nothing(
    h: Heading,
    a: Assignment,
    before: Seq<Member>,
    m: Member,
    behind: Seq<Member>,
    ending: Seq<char>,
)
    requires
        is_heading(h),
        is_package_section(h.section),
        is_assignment(a),
        is_bare(a.key),
        are_members(before),
        is_member(m),
        are_members(behind),
        m.key == "workspace"@,
        m.value == Value::Word("true"@),
        m.before == m.after,
        m.before == seq![' '] || m.before.len() == 0,
        is_line_ending(ending),
    ensures
        manifest_dependencies(
            declaration_text(h, a, table_text(before, m, behind), ending),
            Registry::Cargo,
        ).len() == 0,
{
    lemma_section_names(h.section);
    lemma_deferred_entries(h, a, before, m, behind, ending);
}

/// A section declares what its lines declare: those up to a line break, and then those
/// behind it, as far to the right as the first ones are long.
pub proof fn section_lines_join(h: Heading, a: Seq<char>, b: Seq<char>)
    requires
        is_heading(h),
        is_section_name(h.section),
        ends_a_line(a),
        lacks_headers(a),
    ensures
        manifest_dependencies(heading_text(h) + (a + b), Registry::Cargo) == manifest_dependencies(
            heading_text(h) + a,
            Registry::Cargo,
        ) + later_dependencies(
            manifest_dependencies(heading_text(h) + b, Registry::Cargo),
            byte_len(a) as int,
        ),
{
    lemma_section_joined(h, a, b, false);
    lemma_dependencies_join(
        cargo_entries(heading_text(h) + a, 0, None, false),
        cargo_entries(heading_text(h) + b, 0, None, false),
        byte_len(a) as int,
    );
}

/// What stands above the first header declares nothing; nor do the lines below a header
/// of another name, that of the workspace's dependencies included, or between double
/// brackets.
pub proof fn other_sections_declare_nothing(
    lead: Seq<char>,
    name: Seq<char>,
    rest: Seq<char>,
    ending: Seq<char>,
    a: Seq<char>,
)
    requires
        is_any_header(lead, name, rest, ending),
        (name.len() > 0 && name[0] == '[') || !is_package_section(trimmed(name)),
        lacks_headers(a),
    ensures
        manifest_dependencies(a, Registry::Cargo).len() == 0,
        manifest_dependencies(any_header(lead, name, rest, ending) + a, Registry::Cargo).len() == 0,
{
    lemma_sectionless(a, 0, false);
    lemma_other_section(lead, name, rest, ending, a, false);
}

/// A dependency that can be rewritten is brought to every version whose text is read as
/// it is written: behind the operator that it had, and in the place of its version.
/// Nothing is written for another.
pub proof fn update_writes_at_the_span(
    text: Seq<char>,
    kind: Registry,
    k: int,
    i: int,
    j: int,
    latest: VersionView,
)
    requires
        0 <= k < manifest_dependencies(text, kind).len(),
        0 <= i <= j <= text.len(),
        manifest_dependencies(text, kind)[k].start == byte_offset(text, i),
        manifest_dependencies(text, kind)[k].end == byte_offset(text, j),
        reads_back(manifest_dependencies(text, kind)[k].prefix + version_text(latest)),
    ensures
        manifest_dependencies(text, kind)[k].can_edit ==> sound_update(text, kind, k, latest)
            == Some(
            text.take(i) + (manifest_dependencies(text, kind)[k].prefix + version_text(latest))
                + text.skip(j),
        ),
        !manifest_dependencies(text, kind)[k].can_edit ==> sound_update(
            text,
            kind,
            k,
            latest,
        ) is None,
{
    let dep = manifest_dependencies(text, kind)[k];
    rewriting_leaves_the_rest(text, i, j, dep.prefix + version_text(latest));
}

} // verus!
