//! What holds of the library as a whole.

use crate::cache::{kept_after, latest_step, CACHE_TTL, KeptView, LatestStep};
use crate::documents::{changed, opened, DocumentView};
use crate::edits::reads_back;
use crate::entries::{
    cargo_entries, cargo_section, covers, covers_chars, is_cargo_section, is_unsupported_npm_spec,
    lemma_object_step, line_entries, npm_entries, npm_section_entries, object_entries,
    object_member,
};
use crate::joined::{
    begins_with_header, ends_a_line, lemma_cargo_joined, lemma_requirements_joined,
};
use crate::lines::{lemma_line_end, line_at, line_end, text_lines};
use crate::manifest::{
    dependency_version_text, file_name, is_path_separator, manifest_dependencies, manifest_kind,
    plain_dependency, replacement, spans_cover, DependencyVersionView, DependencyView, ManifestKind,
    Registry,
};
use crate::newest::is_release;
use crate::outside::{encoded_byte, encoded_bytes, is_pep440_text};
use crate::position::{
    byte_place, char_at_place, lemma_char_at_byte, lemma_char_at_place, place_named, place_of,
    position_offset, Position,
};
use crate::python::{included_paths, plain_entries_stand, pyproject_entries};
use crate::python_update::{
    is_repinnable, lemma_repinned_manifest, reads_pinned, repinned_dependencies,
};
use crate::references::{is_directory, is_plain_name, lemma_names_beside, names_file};
use crate::registry::LatestView;
use crate::server::{
    action, declares, dependency_under, document_kind, fix, holds_offset, is_referrer,
    nearest_declaration, news, outdated, resolved, workspace_declaration, Ancestor, CodeActionView,
};
use crate::text::{
    byte_len, byte_offset, first_index, is_ascii_alphanumeric, is_ascii_digit,
    lemma_byte_offset_monotonic, lemma_first_index, lemma_index_of, trimmed,
};
use crate::update::{
    is_updatable, lemma_updated_manifest, rewritten, updated_dependencies, updated_text,
};
use crate::version::{
    all_admit, decimal, is_newer, is_simple, lemma_decimal, lemma_split_three, lenient_version,
    numeric_version, specifier_admits, split, version_prefix, version_rest, version_text,
    without_equals, without_metadata, Pep440View, VersionView,
};
use vstd::prelude::*;
use vstd::utf8::encode_utf8;

verus! {

// ---------------------------------------------------------------------------
// Versions
// ---------------------------------------------------------------------------

/// A release in writing is a simple version, and is read as that release.
pub proof fn release_text_reads_back(v: VersionView)
    requires
        is_release(v),
    ensures
        is_simple(version_text(v)),
        lenient_version(version_text(v)) == Some(v),
{
    let a = decimal(v.major as nat);
    let b = decimal(v.minor as nat);
    let c = decimal(v.patch as nat);
    let text = version_text(v);
    lemma_decimal(v.major as nat);
    lemma_decimal(v.minor as nat);
    lemma_decimal(v.patch as nat);
    lemma_split_three(a, b, c);
    assert(text == a.push('.') + b.push('.') + c);
    let parts = split(text, '.');
    assert(parts == seq![a, b, c]);
    assert(text[0] == a[0]);
    assert(is_ascii_digit(a[0]));
    assert(text.last() == c.last());
    assert(is_ascii_digit(c[c.len() - 1]));
    assert(without_equals(text) == text);
    assert(trimmed(text) == text);
    lemma_index_of(text, '+', 0, text.len() as int);
    assert forall|i: int| 0 <= i < text.len() implies text[i] != '+' by {
        if i < a.len() {
            assert(is_ascii_digit(a[i]));
        } else if i == a.len() {
        } else if i < a.len() + 1 + b.len() {
            assert(is_ascii_digit(b[i - a.len() - 1]));
        } else if i == a.len() + 1 + b.len() {
        } else {
            assert(is_ascii_digit(c[i - a.len() - 1 - b.len() - 1]));
        }
    }
    assert(without_metadata(text) == text);
    assert(numeric_version(a, b, c) == Some(v)) by {
        assert(v.pre =~= Seq::<char>::empty());
        assert(v.build =~= Seq::<char>::empty());
    }
}

/// Of two releases at most one is newer, and two different ones are never equal
/// in rank.
pub proof fn releases_are_ordered(a: VersionView, b: VersionView)
    requires
        is_release(a),
        is_release(b),
    ensures
        !(is_newer(a, b) && is_newer(b, a)),
        a != b ==> is_newer(a, b) || is_newer(b, a),
        !is_newer(a, a),
{
    assert(a.pre =~= b.pre);
    assert(a.build =~= b.build);
}

/// Between releases, being newer is handed on.
pub proof fn newer_is_transitive(a: VersionView, b: VersionView, c: VersionView)
    requires
        is_release(a),
        is_release(b),
        is_release(c),
        is_newer(a, b),
        is_newer(b, c),
    ensures
        is_newer(a, c),
{
    assert(a.pre =~= b.pre);
    assert(a.build =~= b.build);
    assert(b.pre =~= c.pre);
    assert(b.build =~= c.build);
}

// ---------------------------------------------------------------------------
// Quick fixes
// ---------------------------------------------------------------------------

/// An update is final: with the replacement in place of its version, a
/// dependency on a Cargo or npm package names the latest version, keeps its
/// operator, can still be rewritten, and is not outdated.
pub proof fn update_is_final(
    name: Seq<char>,
    section: Seq<char>,
    registry: Registry,
    current: Seq<char>,
    start: int,
    end: int,
    latest: VersionView,
)
    requires
        registry != Registry::Pypi,
        is_simple(version_rest(current)),
        is_release(latest),
    ensures
        ({
            let dep = plain_dependency(name, section, registry, current, start, end);
            let version = DependencyVersionView::Semver(latest);
            replacement(dep, version) matches Some(text) && {
                let updated = plain_dependency(name, section, registry, text, start, end);
                &&& updated.current_version == Some(version)
                &&& updated.prefix == dep.prefix
                &&& updated.can_edit
                &&& !outdated(updated, version)
            }
        }),
{
    let prefix = version_prefix(current);
    let core = version_text(latest);
    let text = prefix + core;
    release_text_reads_back(latest);
    releases_are_ordered(latest, latest);
    lemma_decimal(latest.major as nat);
    assert(core[0] == decimal(latest.major as nat)[0]);
    assert(is_ascii_digit(core[0]));
    if prefix.len() == 0 {
        assert(text =~= core);
        assert(version_prefix(text) =~= prefix);
        assert(version_rest(text) =~= core);
    } else {
        assert(text[0] == current[0]);
        assert(version_prefix(text) =~= prefix);
        assert(version_rest(text) =~= core);
    }
}

/// What an update writes is read back: with the latest release in place of its
/// version, a dependency of a Cargo or npm manifest is read with that release,
/// behind the operator that it had, and is not outdated. The other dependencies
/// are read as before; those behind it have moved by as much as its version has
/// grown.
pub proof fn updated_manifest_reads_back(
    text: Seq<char>,
    kind: ManifestKind,
    k: int,
    latest: VersionView,
)
    requires
        is_updatable(text, kind, k, DependencyVersionView::Semver(latest)),
        spans_cover(text, manifest_dependencies(text, kind)),
        reads_back(manifest_dependencies(text, kind)[k].prefix + version_text(latest)),
    ensures
        ({
            let version = DependencyVersionView::Semver(latest);
            let before = manifest_dependencies(text, kind);
            let new = before[k].prefix + version_text(latest);
            &&& replacement(before[k], version) == Some(new)
            &&& updated_text(text, kind, k, version) matches Some(after) && {
                let read = manifest_dependencies(after, kind);
                &&& read == updated_dependencies(before, k, new)
                &&& read[k].name == before[k].name
                &&& read[k].section == before[k].section
                &&& read[k].current_version == Some(version)
                &&& read[k].prefix == before[k].prefix
                &&& read[k].can_edit
                &&& !outdated(read[k], version)
            }
        }),
{
    let dep = manifest_dependencies(text, kind)[k];
    let new = dep.prefix + version_text(latest);
    lemma_updated_manifest(text, kind, k, latest);
    update_is_final(
        dep.name,
        dep.section,
        dep.registry,
        dep.current,
        dep.start,
        dep.end + new.len() - (dep.end - dep.start),
        latest,
    );
}

/// An update of a Python dependency is final: pinned to the latest version, it is
/// not outdated.
pub proof fn python_update_is_final(dep: DependencyView, latest: Pep440View)
    requires
        dep.registry == Registry::Pypi,
        dep.can_edit,
        dep.current_version is None,
        is_pep440_text(latest.text),
    ensures
        ({
            let version = DependencyVersionView::Pep440(latest);
            replacement(dep, version) matches Some(text) && !outdated(
                DependencyView { python_specifiers: Some(seq![text]), ..dep },
                version,
            )
        }),
{
    let text = "=="@ + latest.text;
    assert(specifier_admits(text, latest.text));
    assert(all_admit(seq![text], latest.text));
}

/// What an update of a Python dependency writes is read back. Where the requirement
/// is read with the specifier that pins the latest version, and its own name, the
/// manifest has the dependency with that specifier, at the same place and not
/// outdated. The other dependencies are read as before; those behind it have moved
/// by as much as its specifiers have grown.
pub proof fn pinned_manifest_reads_back(
    text: Seq<char>,
    kind: ManifestKind,
    k: int,
    latest: Pep440View,
)
    requires
        is_repinnable(text, kind, k, DependencyVersionView::Pep440(latest)),
        kind == ManifestKind::Pyproject ==> plain_entries_stand(text, pyproject_entries(text)),
        reads_pinned(text, kind, k, "=="@ + latest.text),
    ensures
        ({
            let version = DependencyVersionView::Pep440(latest);
            let before = manifest_dependencies(text, kind);
            let new = "=="@ + latest.text;
            &&& replacement(before[k], version) == Some(new)
            &&& updated_text(text, kind, k, version) matches Some(after) && {
                let read = manifest_dependencies(after, kind);
                &&& read == repinned_dependencies(before, k, new)
                &&& read[k].name == before[k].name
                &&& read[k].section == before[k].section
                &&& read[k].start == before[k].start
                &&& read[k].current == new
                &&& read[k].python_specifiers == Some(seq![new])
                &&& read[k].can_edit
                &&& !outdated(read[k], version)
            }
        }),
{
    lemma_repinned_manifest(text, kind, k, latest);
    python_update_is_final(manifest_dependencies(text, kind)[k], latest);
}

/// A dependency that cannot be rewritten is offered no fix.
pub proof fn locked_dependency_is_left_alone(
    dep: DependencyView,
    latest: Result<LatestView, Seq<char>>,
)
    requires
        !dep.can_edit,
    ensures
        fix(dep, latest) is None,
{
}

/// A fix is offered only for an outdated dependency, and puts the latest version
/// behind the dependency's own operator.
pub proof fn fix_writes_the_news(dep: DependencyView, latest: Result<LatestView, Seq<char>>)
    ensures
        fix(dep, latest) matches Some(f) ==> {
            &&& news(dep, latest) matches Some(v) && outdated(dep, v)
            &&& latest matches Ok(info) && info.version == news(dep, latest)
            &&& dep.registry != Registry::Pypi ==> f.new_text == dep.prefix
                + dependency_version_text(news(dep, latest)->0)
            &&& dep.registry == Registry::Pypi ==> f.new_text == "=="@ + dependency_version_text(
                news(dep, latest)->0,
            )
        },
{
}

/// An outdated dependency that can be rewritten is offered a fix, where the latest
/// version is one of its registry.
pub proof fn outdated_dependency_is_offered_a_fix(
    dep: DependencyView,
    info: LatestView,
    latest: DependencyVersionView,
)
    requires
        dep.can_edit,
        info.version == Some(latest),
        outdated(dep, latest),
        latest is Pep440 == (dep.registry == Registry::Pypi),
    ensures
        fix(dep, Ok(info)) is Some,
{
}

/// A code action writes what brings the dependency at `k` of the manifest `text` to
/// `latest`.
pub open spec fn is_update_of(
    a: CodeActionView,
    text: Seq<char>,
    kind: ManifestKind,
    k: int,
    latest: DependencyVersionView,
) -> bool {
    &&& a.target.text == text
    &&& updated_text(text, kind, k, latest) == Some(
        rewritten(text, a.target.start, a.target.end, a.fix.new_text),
    )
}

/// The code action for a dependency brings it to the latest version, in the
/// document that it stands in.
pub proof fn action_updates_the_document(
    uri: Seq<char>,
    text: Seq<char>,
    kind: ManifestKind,
    k: int,
    latest: Result<LatestView, Seq<char>>,
)
    ensures
        ({
            let dep = manifest_dependencies(text, kind)[k];
            0 <= k < manifest_dependencies(text, kind).len() ==> (action(
                uri,
                text,
                dep,
                None,
                latest,
            ) matches Some(a) ==> a.target.uri == uri && is_update_of(
                a,
                text,
                kind,
                k,
                news(dep, latest)->0,
            ))
        }),
{
}

/// The code action for a dependency that refers to the workspace brings what the
/// nearest manifest above declares of it to the latest version.
pub proof fn action_updates_the_workspace(
    uri: Seq<char>,
    text: Seq<char>,
    dep: DependencyView,
    ancestors: Seq<Ancestor>,
    latest: Result<LatestView, Seq<char>>,
)
    requires
        dep.registry == Registry::Cargo,
    ensures
        ({
            let (after, target) = resolved(dep, ancestors);
            target is Some ==> (action(uri, text, after, target, latest) matches Some(a)
                ==> exists|i: int, k: int|
                {
                    let above = ancestors[i].text@;
                    let declared = manifest_dependencies(above, ManifestKind::Cargo)[k];
                    &&& 0 <= i < ancestors.len()
                    &&& declared.name == dep.name
                    &&& declared.section == "workspace.dependencies"@
                    &&& #[trigger] is_update_of(
                        a,
                        ancestors[i].text@,
                        ManifestKind::Cargo,
                        k,
                        news(after, latest)->0,
                    )
                })
        }),
{
    let (after, target) = resolved(dep, ancestors);
    if target is Some {
        if let Some(a) = action(uri, text, after, target, latest) {
            lemma_nearest(ancestors, dep.name, 0);
            let (i, declared) = nearest_declaration(ancestors, dep.name, 0)->0;
            let above = ancestors[i].text@;
            let dependencies = manifest_dependencies(above, ManifestKind::Cargo);
            let p = declares(dependencies, dep.name);
            lemma_first_index(p, 0, dependencies.len() as int);
            let k = first_index(p, 0, dependencies.len() as int)->0;
            assert(p(k));
            assert(is_update_of(a, above, ManifestKind::Cargo, k, news(after, latest)->0));
        }
    }
}

/// The nearest declaration is one of a manifest above.
proof fn lemma_nearest(ancestors: Seq<Ancestor>, name: Seq<char>, from: int)
    requires
        0 <= from,
    ensures
        nearest_declaration(ancestors, name, from) matches Some((i, declared)) ==> from <= i
            < ancestors.len() && workspace_declaration(ancestors[i].text@, name) == Some(declared),
    decreases ancestors.len() - from,
{
    if from < ancestors.len() && workspace_declaration(ancestors[from].text@, name) is None {
        lemma_nearest(ancestors, name, from + 1);
    }
}

// ---------------------------------------------------------------------------
// Places
// ---------------------------------------------------------------------------

/// The start of a character leads to a position, and that position back to it.
pub proof fn positions_lead_back(s: Seq<char>, i: int, position: Position)
    requires
        0 <= i <= s.len(),
        place_named(position) == byte_place(s, byte_offset(s, i) as int),
    ensures
        position_offset(s, position) == Some(byte_offset(s, i) as int),
{
    lemma_char_at_byte(s, i, 0);
    lemma_char_at_place(s, i, 0);
}

/// A position that stands in a text leads to an offset, and that offset back to
/// it.
pub proof fn offsets_lead_back(s: Seq<char>, position: Position)
    ensures
        position_offset(s, position) matches Some(offset) ==> byte_place(s, offset) == place_named(
            position,
        ),
{
    lemma_found_place(s, place_named(position), 0);
    if let Some(i) = char_at_place(s, place_named(position), 0) {
        lemma_char_at_byte(s, i, 0);
    }
}

/// What is found at a place stands there.
proof fn lemma_found_place(s: Seq<char>, place: (nat, nat), from: int)
    requires
        0 <= from,
    ensures
        char_at_place(s, place, from) matches Some(i) ==> from <= i <= s.len() && place_of(s, i)
            == place,
    decreases s.len() + 1 - from,
{
    if from <= s.len() && place_of(s, from) != place {
        lemma_found_place(s, place, from + 1);
    }
}

/// A span that covers a version lies in the text.
pub proof fn covering_span_is_in_the_text(
    text: Seq<char>,
    start: int,
    end: int,
    value: Seq<char>,
)
    requires
        covers(text, start, end, value),
    ensures
        0 <= start <= end <= byte_len(text),
{
    let (i, j) = choose|i: int, j: int| #[trigger] covers_chars(text, i, j, start, end, value);
    lemma_byte_offset_monotonic(text, i, j);
}

/// `dep` is at `i` among the dependencies, its span holds the byte `offset`, and
/// that of no earlier one does.
pub open spec fn is_first_at(
    dependencies: Seq<DependencyView>,
    i: int,
    offset: int,
    dep: DependencyView,
) -> bool {
    &&& 0 <= i < dependencies.len()
    &&& dependencies[i] == dep
    &&& dep.start <= offset <= dep.end
    &&& forall|j: int|
        0 <= j < i ==> !((#[trigger] dependencies[j]).start <= offset <= dependencies[j].end)
}

/// The dependency under a position is one of the manifest's, its span holds the
/// position, and no earlier one does.
pub proof fn dependency_under_holds_position(
    text: Seq<char>,
    kind: ManifestKind,
    position: Position,
)
    ensures
        dependency_under(text, kind, position) matches Some(dep) ==> {
            let dependencies = manifest_dependencies(text, kind);
            position_offset(text, position) matches Some(offset) && exists|i: int|
                is_first_at(dependencies, i, offset, dep)
        },
{
    let dependencies = manifest_dependencies(text, kind);
    if let Some(offset) = position_offset(text, position) {
        let p = holds_offset(dependencies, offset);
        lemma_first_index(p, 0, dependencies.len() as int);
        if let Some(i) = first_index(p, 0, dependencies.len() as int) {
            assert(p(i));
            assert forall|j: int| 0 <= j < i implies !((#[trigger] dependencies[j]).start <= offset
                <= dependencies[j].end) by {
                assert(!p(j));
            }
            assert(is_first_at(dependencies, i, offset, dependencies[i]));
        }
    }
}

// ---------------------------------------------------------------------------
// Manifests
// ---------------------------------------------------------------------------

/// The directories of a path do not matter for the kind of a manifest.
pub proof fn file_name_decides_kind(directory: Seq<char>, separator: char, name: Seq<char>)
    requires
        is_path_separator(separator),
        forall|i: int| 0 <= i < name.len() ==> !is_path_separator(#[trigger] name[i]),
    ensures
        manifest_kind(directory.push(separator) + name) == manifest_kind(name),
{
    lemma_file_name(directory.push(separator), name);
    lemma_file_name(Seq::empty(), name);
    assert(Seq::<char>::empty() + name =~= name);
}

/// A name without separators is the file name of what it ends.
pub(crate) proof fn lemma_file_name(head: Seq<char>, name: Seq<char>)
    requires
        head.len() == 0 || is_path_separator(head.last()),
        forall|i: int| 0 <= i < name.len() ==> !is_path_separator(#[trigger] name[i]),
    ensures
        file_name(head + name) == name,
    decreases name.len(),
{
    if name.len() == 0 {
        assert(head + name =~= head);
        assert(file_name(head) =~= name);
    } else {
        let path = head + name;
        assert(path.drop_last() =~= head + name.drop_last());
        assert(path.last() == name.last());
        assert(name[name.len() - 1] == name.last());
        lemma_file_name(head, name.drop_last());
        assert(file_name(path) =~= name);
    }
}

/// Every entry of a Cargo manifest stands in a section that lists dependencies,
/// and has a version unless it refers to the workspace.
pub proof fn cargo_entries_are_dependencies(
    s: Seq<char>,
    from: int,
    section: Option<Seq<char>>,
    workspace: bool,
)
    requires
        section matches Some(name) ==> is_cargo_section(name, workspace),
    ensures
        forall|k: int|
            0 <= k < cargo_entries(s, from, section, workspace).len() ==> {
                let e = #[trigger] cargo_entries(s, from, section, workspace)[k];
                &&& is_cargo_section(e.section, workspace)
                &&& e.version is None ==> workspace
            },
    decreases s.len() - from,
{
    if 0 <= from < s.len() {
        lemma_line_end(s, from);
        let header = trimmed(line_at(s, from));
        let next = line_end(s, from);
        if header.len() > 0 && header[0] == '[' {
            cargo_entries_are_dependencies(s, next, cargo_section(header, workspace), workspace);
        } else {
            cargo_entries_are_dependencies(s, next, section, workspace);
            let here = line_entries(s, from, section, workspace);
            let rest = cargo_entries(s, next, section, workspace);
            assert forall|k: int| 0 <= k < (here + rest).len() implies {
                let e = #[trigger] (here + rest)[k];
                &&& is_cargo_section(e.section, workspace)
                &&& e.version is None ==> workspace
            } by {
                if k >= here.len() {
                    assert((here + rest)[k] == rest[k - here.len()]);
                }
            }
        }
    }
}

/// Every entry of an npm manifest stands in a section that lists dependencies and
/// has a version that the registry can have.
pub proof fn npm_entries_are_dependencies(s: Seq<char>)
    ensures
        forall|k: int|
            0 <= k < npm_entries(s).len() ==> {
                let e = #[trigger] npm_entries(s)[k];
                &&& e.section == "dependencies"@ || e.section == "devDependencies"@ || e.section
                    == "peerDependencies"@ || e.section == "optionalDependencies"@
                &&& e.version matches Some(v) && !is_unsupported_npm_spec(v)
            },
{
    lemma_section_entries(s, "dependencies"@);
    lemma_section_entries(s, "devDependencies"@);
    lemma_section_entries(s, "peerDependencies"@);
    lemma_section_entries(s, "optionalDependencies"@);
}

/// The entries of a section name it.
proof fn lemma_section_entries(s: Seq<char>, section: Seq<char>)
    ensures
        forall|k: int|
            0 <= k < npm_section_entries(s, section).len() ==> {
                let e = #[trigger] npm_section_entries(s, section)[k];
                e.section == section && (e.version matches Some(v) && !is_unsupported_npm_spec(v))
            },
{
    if let Some((start, end)) = crate::scan::top_level_object(s, section, 0, 0) {
        lemma_object_entries(s, start + 1, end, section);
    }
}

/// The entries of an object name its section.
proof fn lemma_object_entries(s: Seq<char>, cursor: int, end: int, section: Seq<char>)
    ensures
        forall|k: int|
            0 <= k < object_entries(s, cursor, end, section).len() ==> {
                let e = #[trigger] object_entries(s, cursor, end, section)[k];
                e.section == section && (e.version matches Some(v) && !is_unsupported_npm_spec(v))
            },
    decreases end - cursor,
{
    lemma_object_step(s, cursor, end);
    if cursor < end {
        if let Some((name, value)) = object_member(s, cursor, end) {
            lemma_object_entries(s, value.outer_end, end, section);
        }
    }
}

// ---------------------------------------------------------------------------
// Workspaces
// ---------------------------------------------------------------------------

/// Dependencies that stand `bytes` further to the right.
pub open spec fn later_dependencies(dependencies: Seq<DependencyView>, bytes: int) -> Seq<
    DependencyView,
> {
    Seq::new(
        dependencies.len(),
        |k: int|
            DependencyView {
                start: dependencies[k].start + bytes,
                end: dependencies[k].end + bytes,
                ..dependencies[k]
            },
    )
}

/// A requirements file that is split behind a line break declares what its two parts
/// declare, the second one's dependencies as far to the right as the first one is
/// long.
pub proof fn requirements_files_join(a: Seq<char>, b: Seq<char>)
    requires
        ends_a_line(a),
    ensures
        manifest_dependencies(a + b, ManifestKind::Requirements) == manifest_dependencies(
            a,
            ManifestKind::Requirements,
        ) + later_dependencies(
            manifest_dependencies(b, ManifestKind::Requirements),
            byte_len(a) as int,
        ),
{
    lemma_requirements_joined(a, b, 0);
    assert(manifest_dependencies(a + b, ManifestKind::Requirements) =~= manifest_dependencies(
        a,
        ManifestKind::Requirements,
    ) + later_dependencies(
        manifest_dependencies(b, ManifestKind::Requirements),
        byte_len(a) as int,
    ));
}

/// A Cargo manifest that is split before a header declares what its two parts
/// declare, the second one's dependencies as far to the right as the first one is
/// long.
pub proof fn cargo_manifests_join(a: Seq<char>, b: Seq<char>)
    requires
        ends_a_line(a),
        begins_with_header(b),
    ensures
        manifest_dependencies(a + b, ManifestKind::Cargo) == manifest_dependencies(
            a,
            ManifestKind::Cargo,
        ) + later_dependencies(manifest_dependencies(b, ManifestKind::Cargo), byte_len(a) as int),
{
    lemma_cargo_joined(a, b, 0, None, true);
    assert(manifest_dependencies(a + b, ManifestKind::Cargo) =~= manifest_dependencies(
        a,
        ManifestKind::Cargo,
    ) + later_dependencies(manifest_dependencies(b, ManifestKind::Cargo), byte_len(a) as int));
}

/// Resolving a dependency changes neither what it is called nor where it stands,
/// leaves one that does not refer to the workspace alone, and names a place to
/// write only for one that can be rewritten.
pub proof fn resolving_keeps_the_dependency(dep: DependencyView, ancestors: Seq<Ancestor>)
    ensures
        ({
            let (after, target) = resolved(dep, ancestors);
            &&& after.name == dep.name
            &&& after.section == dep.section
            &&& after.registry == dep.registry
            &&& after.start == dep.start
            &&& after.end == dep.end
            &&& after.is_workspace == dep.is_workspace
            &&& !dep.is_workspace ==> after == dep && target is None
            &&& target is Some ==> after.can_edit
        }),
{
}

// ---------------------------------------------------------------------------
// Answers
// ---------------------------------------------------------------------------

/// An answer that was just kept is taken for ten minutes, without a fetch; after
/// that one is fetched, with its tag.
pub proof fn answer_counts_for_ten_minutes<T>(
    kept: Option<KeptView<T>>,
    outcome: Option<(Result<T, Seq<char>>, Option<Seq<char>>)>,
    url: Seq<char>,
    then: u128,
    now: u128,
)
    ensures
        ({
            let after = kept_after(kept, outcome, then);
            &&& now < then + CACHE_TTL ==> latest_step(Some(after), url, now) == LatestStep::Known(
                after.result,
            )
            &&& now >= then + CACHE_TTL ==> latest_step(Some(after), url, now)
                == LatestStep::<T>::Fetch { url, etag: after.etag }
        }),
{
}

/// News that nothing has changed keeps the answer and its tag.
pub proof fn unchanged_answer_stays<T>(kept: KeptView<T>, now: u128)
    ensures
        kept_after(Some(kept), None, now).result == kept.result,
        kept_after(Some(kept), None, now).etag == kept.etag,
{
}

/// An address holds letters, digits and percent signs in place of a name.
pub proof fn encoded_names_are_plain(bytes: Seq<u8>)
    ensures
        forall|i: int|
            0 <= i < encoded_bytes(bytes).len() ==> is_ascii_alphanumeric(
                #[trigger] encoded_bytes(bytes)[i],
            ) || encoded_bytes(bytes)[i] == '%',
    decreases bytes.len(),
{
    if bytes.len() > 0 {
        encoded_names_are_plain(bytes.drop_last());
        let head = encoded_bytes(bytes.drop_last());
        let tail = encoded_byte(bytes.last());
        assert forall|i: int| 0 <= i < (head + tail).len() implies is_ascii_alphanumeric(
            #[trigger] (head + tail)[i],
        ) || (head + tail)[i] == '%' by {
            if i < head.len() {
                assert((head + tail)[i] == head[i]);
            } else {
                assert((head + tail)[i] == tail[i - head.len()]);
            }
        }
    }
}

// ---------------------------------------------------------------------------
// Documents
// ---------------------------------------------------------------------------

/// A document that was opened is there with its text; one that was changed has
/// the new text and the kind that it had.
pub proof fn documents_hold_the_last_text<K>(
    documents: Map<Seq<char>, DocumentView<K>>,
    uri: Seq<char>,
    kind: Option<K>,
    text: Seq<char>,
)
    ensures
        kind matches Some(k) ==> opened(documents, uri, kind, text)[uri] == (DocumentView {
            text,
            kind: k,
        }),
        documents.dom().contains(uri) ==> changed(documents, uri, kind, text)[uri] == (
        DocumentView { text, kind: documents[uri].kind }),
        !documents.dom().contains(uri) ==> changed(documents, uri, kind, text) == opened(
            documents,
            uri,
            kind,
            text,
        ),
{
}

/// Other documents are left alone.
pub proof fn other_documents_stay<K>(
    documents: Map<Seq<char>, DocumentView<K>>,
    uri: Seq<char>,
    kind: Option<K>,
    text: Seq<char>,
    other: Seq<char>,
)
    requires
        other != uri,
    ensures
        opened(documents, uri, kind, text).dom().contains(other) == documents.dom().contains(other),
        changed(documents, uri, kind, text).dom().contains(other) == documents.dom().contains(
            other,
        ),
        documents.dom().contains(other) ==> opened(documents, uri, kind, text)[other]
            == documents[other] && changed(documents, uri, kind, text)[other] == documents[other],
{
}

/// Every file that an open requirements file refers to is a manifest: one of
/// requirements, unless its name says otherwise.
pub proof fn referenced_files_are_manifests(
    documents: Map<Seq<char>, DocumentView<ManifestKind>>,
    base: Seq<char>,
    i: int,
    uri: Seq<char>,
    path: Seq<char>,
)
    requires
        documents.dom().contains(base),
        documents[base].kind == ManifestKind::Requirements,
        names_file(base, included_paths(text_lines(documents[base].text, 0)), i, uri),
    ensures
        document_kind(documents, uri, path) == (match manifest_kind(path) {
            Some(kind) => Some(kind),
            None => Some(ManifestKind::Requirements),
        }),
{
    assert(is_referrer(documents, base, uri));
}

/// A requirements file that refers to a file beside it by its name refers to the one
/// whose address holds that name escaped. Where the name holds no percent sign, the
/// address can hold it as it is.
pub proof fn reference_names_the_file_beside(
    directory: Seq<char>,
    file: Seq<char>,
    references: Seq<Seq<char>>,
    i: int,
)
    requires
        is_directory(directory),
        is_plain_name(file),
        0 <= i < references.len(),
        is_plain_name(references[i]),
    ensures
        names_file(
            directory + file,
            references,
            i,
            directory + encoded_bytes(encode_utf8(references[i])),
        ),
        !references[i].contains('%') ==> names_file(
            directory + file,
            references,
            i,
            directory + references[i],
        ),
{
    reveal_strlit(".");
    reveal_strlit("..");
    let bytes = encode_utf8(references[i]);
    encoded_names_are_plain(bytes);
    let escaped = encoded_bytes(bytes);
    assert(encoded_byte(bytes.last()).len() > 0);
    assert(escaped.len() > 0);
    assert forall|k: int| 0 <= k < escaped.len() implies !is_path_separator(
        #[trigger] escaped[k],
    ) && escaped[k] != '.' by {}
    assert(escaped[0] != '.');
    lemma_names_beside(directory, file, references, i);
}

} // verus!
