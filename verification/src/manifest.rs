//! The manifests that the server reads, and the dependencies they declare.

use crate::entries::{
    cargo_entries, covers, covers_chars, entries_stand, entry_views, list_cargo_entries,
    list_npm_entries, npm_entries, Entry, EntryView,
};
use crate::outside::{text_of, texts_of};
use crate::python::{
    is_at_chars, is_written_plainly, list_pyproject_entries, list_requirements_entries,
    pyproject_entries, python_entries_stand, python_entry_views, requirements_entries,
    stands_as_read, stands_in_list, PythonEntry, PythonEntryView,
};
use crate::text::{chars_of, ends_with, equals, starts_with};
use crate::version::{
    editable_version_parts, is_simple, lenient_version, lenient_version_of, version_prefix,
    version_rest, version_text, Pep440Version, Pep440View, Version, VersionView,
};
use vstd::prelude::*;
use vstd::slice::slice_subrange;
use vstd::string::StringExecFns;

pub use crate::python::requirements_include_paths;
pub use crate::position::Span;
pub use crate::version::{parse_lenient_version, strip_semver_metadata};

verus! {

/// Where packages come from.
#[derive(Debug, Clone, Copy, PartialEq, Eq, Hash, Structural)]
pub enum Registry {
    Cargo,
    Npm,
    Pypi,
}

/// The page of a package on its registry.
pub open spec fn package_page(registry: Registry, name: Seq<char>) -> Seq<char> {
    match registry {
        Registry::Cargo => "https://crates.io/crates/"@ + name,
        Registry::Npm => "https://www.npmjs.com/package/"@ + name,
        Registry::Pypi => "https://pypi.org/project/"@ + name + "/"@,
    }
}

impl Registry {
    /// The page of the package `name`.
    pub fn package_url(&self, name: &str) -> (url: String)
        ensures
            url@ == package_page(*self, name@),
    {
        match self {
            Registry::Cargo => {
                let mut url = "https://crates.io/crates/".to_string();
                url.append(name);
                url
            },
            Registry::Npm => {
                let mut url = "https://www.npmjs.com/package/".to_string();
                url.append(name);
                url
            },
            Registry::Pypi => {
                let mut url = "https://pypi.org/project/".to_string();
                url.append(name);
                url.append("/");
                url
            },
        }
    }
}

/// The kinds of manifest.
#[derive(Debug, Clone, Copy, PartialEq, Eq, Hash, Structural)]
pub enum ManifestKind {
    Cargo,
    PackageJson,
    Pyproject,
    Requirements,
}

// ---------------------------------------------------------------------------
// Kinds of manifest
// ---------------------------------------------------------------------------

/// Both kinds of slash separate the parts of a path.
#[verifier::allow_in_spec]
pub fn is_path_separator(c: char) -> (b: bool)
    returns
        c == '/' || c == '\\',
{
    c == '/' || c == '\\'
}

/// The last part of a path.
pub open spec fn file_name(path: Seq<char>) -> Seq<char>
    decreases path.len(),
{
    if path.len() == 0 || is_path_separator(path.last()) {
        Seq::empty()
    } else {
        file_name(path.drop_last()).push(path.last())
    }
}

/// The names of requirements files.
pub open spec fn is_requirements_name(name: Seq<char>) -> bool {
    ||| name == "requirements.txt"@
    ||| "requirements"@.is_prefix_of(name) && ".txt"@.is_suffix_of(name)
    ||| ".requirements.txt"@.is_suffix_of(name)
}

/// The kind of the manifest at `path`, which its file name decides.
pub open spec fn manifest_kind(path: Seq<char>) -> Option<ManifestKind> {
    let name = file_name(path);
    if name == "Cargo.toml"@ {
        Some(ManifestKind::Cargo)
    } else if name == "package.json"@ {
        Some(ManifestKind::PackageJson)
    } else if name == "pyproject.toml"@ {
        Some(ManifestKind::Pyproject)
    } else if is_requirements_name(name) {
        Some(ManifestKind::Requirements)
    } else {
        None
    }
}

/// The last part of a path.
pub(crate) fn file_name_of(path: &[char]) -> (name: &[char])
    ensures
        name@ == file_name(path@),
{
    let mut from: usize = path.len();
    assert(path@.take(from as int) =~= path@);
    assert(path@.skip(from as int) =~= Seq::<char>::empty());
    assert(file_name(path@) =~= file_name(path@.take(from as int)) + path@.skip(from as int));
    while from > 0 && !is_path_separator(path[from - 1])
        invariant
            from <= path@.len(),
            file_name(path@) == file_name(path@.take(from as int)) + path@.skip(from as int),
        decreases from,
    {
        proof {
            let head = path@.take(from as int);
            assert(head.drop_last() =~= path@.take(from - 1));
            assert(path@.skip(from - 1) =~= seq![head.last()] + path@.skip(from as int));
            assert(file_name(head.drop_last()).push(head.last()) + path@.skip(from as int)
                =~= file_name(head.drop_last()) + path@.skip(from - 1));
        }
        from -= 1;
    }
    let name = slice_subrange(path, from, path.len());
    assert(name@ =~= path@.skip(from as int));
    assert(file_name(path@.take(from as int)) =~= Seq::<char>::empty());
    name
}

/// Whether a file name is that of a requirements file.
pub fn is_requirements_file(name: &[char]) -> (b: bool)
    ensures
        b == is_requirements_name(name@),
{
    equals(name, "requirements.txt") || (starts_with(name, "requirements") && ends_with(
        name,
        ".txt",
    )) || ends_with(name, ".requirements.txt")
}

/// The kind of the manifest at `uri_path`.
pub fn detect_manifest_kind(uri_path: &str) -> (kind: Option<ManifestKind>)
    ensures
        kind == manifest_kind(uri_path@),
{
    let chars = chars_of(uri_path);
    let name = file_name_of(chars.as_slice());
    if equals(name, "Cargo.toml") {
        Some(ManifestKind::Cargo)
    } else if equals(name, "package.json") {
        Some(ManifestKind::PackageJson)
    } else if equals(name, "pyproject.toml") {
        Some(ManifestKind::Pyproject)
    } else if is_requirements_file(name) {
        Some(ManifestKind::Requirements)
    } else {
        None
    }
}

// ---------------------------------------------------------------------------
// Dependencies
// ---------------------------------------------------------------------------

/// A version of a package: semantic, or a Python version.
#[derive(Debug, PartialEq, Eq)]
pub enum DependencyVersion {
    Semver(Version),
    Pep440(Pep440Version),
}

/// What a [`DependencyVersion`] says.
pub enum DependencyVersionView {
    Semver(VersionView),
    Pep440(Pep440View),
}

impl View for DependencyVersion {
    type V = DependencyVersionView;

    open spec fn view(&self) -> DependencyVersionView {
        match self {
            DependencyVersion::Semver(v) => DependencyVersionView::Semver(v@),
            DependencyVersion::Pep440(v) => DependencyVersionView::Pep440(v@),
        }
    }
}

impl Clone for DependencyVersion {
    fn clone(&self) -> (copy: Self)
        ensures
            copy@ == self@,
    {
        match self {
            DependencyVersion::Semver(v) => DependencyVersion::Semver(v.clone()),
            DependencyVersion::Pep440(v) => DependencyVersion::Pep440(v.clone()),
        }
    }
}

/// The view of an optional version.
pub open spec fn dependency_version_of(version: Option<DependencyVersion>) -> Option<
    DependencyVersionView,
> {
    match version {
        Some(v) => Some(v@),
        None => None,
    }
}

/// A version in writing.
pub open spec fn dependency_version_text(version: DependencyVersionView) -> Seq<char> {
    match version {
        DependencyVersionView::Semver(v) => version_text(v),
        DependencyVersionView::Pep440(v) => v.text,
    }
}

impl DependencyVersion {
    /// Writes the version.
    pub fn to_text(&self) -> (text: String)
        ensures
            text@ == dependency_version_text(self@),
    {
        match self {
            DependencyVersion::Semver(v) => v.to_text(),
            DependencyVersion::Pep440(v) => v.text.clone(),
        }
    }
}

/// A dependency that a manifest declares.
#[derive(Debug, PartialEq, Eq)]
pub struct Dependency {
    pub name: String,
    pub section: String,
    pub registry: Registry,
    pub current: String,
    pub value_span: Span,
    pub can_edit: bool,
    pub prefix: String,
    pub current_version: Option<DependencyVersion>,
    pub python_specifiers: Option<Vec<String>>,
    pub is_workspace: bool,
}

/// What a [`Dependency`] says.
#[verifier::ext_equal]
pub struct DependencyView {
    pub name: Seq<char>,
    pub section: Seq<char>,
    pub registry: Registry,
    pub current: Seq<char>,
    pub start: int,
    pub end: int,
    pub can_edit: bool,
    pub prefix: Seq<char>,
    pub current_version: Option<DependencyVersionView>,
    pub python_specifiers: Option<Seq<Seq<char>>>,
    pub is_workspace: bool,
}

/// The texts of optional strings.
pub open spec fn specifiers_of(specifiers: Option<Vec<String>>) -> Option<Seq<Seq<char>>> {
    match specifiers {
        Some(s) => Some(texts_of(s@)),
        None => None,
    }
}

impl View for Dependency {
    type V = DependencyView;

    open spec fn view(&self) -> DependencyView {
        DependencyView {
            name: self.name@,
            section: self.section@,
            registry: self.registry,
            current: self.current@,
            start: self.value_span.start as int,
            end: self.value_span.end as int,
            can_edit: self.can_edit,
            prefix: self.prefix@,
            current_version: dependency_version_of(self.current_version),
            python_specifiers: specifiers_of(self.python_specifiers),
            is_workspace: self.is_workspace,
        }
    }
}

impl Clone for Dependency {
    fn clone(&self) -> (copy: Self)
        ensures
            copy@ == self@,
    {
        Dependency {
            name: self.name.clone(),
            section: self.section.clone(),
            registry: self.registry,
            current: self.current.clone(),
            value_span: self.value_span,
            can_edit: self.can_edit,
            prefix: self.prefix.clone(),
            current_version: match &self.current_version {
                Some(v) => Some(v.clone()),
                None => None,
            },
            python_specifiers: match &self.python_specifiers {
                Some(specifiers) => Some(copy_strings(specifiers)),
                None => None,
            },
            is_workspace: self.is_workspace,
        }
    }
}

/// The views of dependencies.
pub open spec fn dependency_views(dependencies: Seq<Dependency>) -> Seq<DependencyView> {
    Seq::new(dependencies.len(), |i: int| dependencies[i]@)
}

/// What to write in place of a dependency's version to get to `latest`.
pub open spec fn replacement(dep: DependencyView, latest: DependencyVersionView) -> Option<
    Seq<char>,
> {
    match (dep.registry, latest) {
        (Registry::Pypi, DependencyVersionView::Pep440(v)) if dep.can_edit => Some("=="@ + v.text),
        (Registry::Cargo, DependencyVersionView::Semver(v)) if dep.can_edit => Some(
            dep.prefix + version_text(v),
        ),
        (Registry::Npm, DependencyVersionView::Semver(v)) if dep.can_edit => Some(
            dep.prefix + version_text(v),
        ),
        _ => None,
    }
}

impl Dependency {
    /// What to write in place of the version to get to `latest`: none for a
    /// dependency that cannot be rewritten, or for a version of another kind.
    pub fn replacement_for(&self, latest: &DependencyVersion) -> (text: Option<String>)
        ensures
            text_of(text) == replacement(self@, latest@),
    {
        if !self.can_edit {
            return None;
        }
        match (self.registry, latest) {
            (Registry::Pypi, DependencyVersion::Pep440(v)) => {
                let mut text = "==".to_string();
                text.append(v.text.as_str());
                Some(text)
            },
            (Registry::Cargo, DependencyVersion::Semver(v)) => {
                let mut text = self.prefix.clone();
                let version = v.to_text();
                text.append(version.as_str());
                Some(text)
            },
            (Registry::Npm, DependencyVersion::Semver(v)) => {
                let mut text = self.prefix.clone();
                let version = v.to_text();
                text.append(version.as_str());
                Some(text)
            },
            _ => None,
        }
    }
}

/// A dependency with the version requirement `current`.
pub open spec fn plain_dependency(
    name: Seq<char>,
    section: Seq<char>,
    registry: Registry,
    current: Seq<char>,
    start: int,
    end: int,
) -> DependencyView {
    DependencyView {
        name,
        section,
        registry,
        current,
        start,
        end,
        can_edit: is_simple(version_rest(current)),
        prefix: version_prefix(current),
        current_version: match lenient_version(version_rest(current)) {
            Some(v) => Some(DependencyVersionView::Semver(v)),
            None => None,
        },
        python_specifiers: None,
        is_workspace: false,
    }
}

/// Makes a dependency with the version requirement `current`.
pub fn build_dependency(
    name: String,
    section: &str,
    registry: Registry,
    current: String,
    span_start: usize,
    span_end: usize,
) -> (dep: Dependency)
    ensures
        dep@ == plain_dependency(
            name@,
            section@,
            registry,
            current@,
            span_start as int,
            span_end as int,
        ),
{
    let chars = chars_of(current.as_str());
    let (prefix, version, can_edit) = editable_version_parts(chars.as_slice());
    let current_version = match lenient_version_of(version) {
        Some(v) => Some(DependencyVersion::Semver(v)),
        None => None,
    };
    Dependency {
        name,
        section: section.to_string(),
        registry,
        current,
        value_span: Span { start: span_start, end: span_end },
        can_edit,
        prefix,
        current_version,
        python_specifiers: None,
        is_workspace: false,
    }
}

/// A dependency that leaves its version to the workspace.
pub open spec fn workspace_dependency(
    name: Seq<char>,
    section: Seq<char>,
    start: int,
    end: int,
) -> DependencyView {
    DependencyView {
        name,
        section,
        registry: Registry::Cargo,
        current: "workspace = true"@,
        start,
        end,
        can_edit: false,
        prefix: Seq::empty(),
        current_version: None,
        python_specifiers: None,
        is_workspace: true,
    }
}

/// Makes a dependency that leaves its version to the workspace.
pub fn build_workspace_dependency(
    name: String,
    section: &str,
    span_start: usize,
    span_end: usize,
) -> (dep: Dependency)
    ensures
        dep@ == workspace_dependency(name@, section@, span_start as int, span_end as int),
{
    Dependency {
        name,
        section: section.to_string(),
        registry: Registry::Cargo,
        current: "workspace = true".to_string(),
        value_span: Span { start: span_start, end: span_end },
        can_edit: false,
        prefix: String::new(),
        current_version: None,
        python_specifiers: None,
        is_workspace: true,
    }
}

/// The dependency that an entry of a Cargo or npm manifest declares.
pub open spec fn entry_dependency(e: EntryView, registry: Registry) -> DependencyView {
    match e.version {
        Some(version) => plain_dependency(e.name, e.section, registry, version, e.start, e.end),
        None => workspace_dependency(e.name, e.section, e.start, e.end),
    }
}

/// The dependency that an entry of a Python manifest declares.
pub open spec fn python_dependency(e: PythonEntryView) -> DependencyView {
    DependencyView {
        name: e.name,
        section: e.section,
        registry: Registry::Pypi,
        current: e.current,
        start: e.start,
        end: e.end,
        can_edit: true,
        prefix: "=="@,
        current_version: None,
        python_specifiers: Some(e.specifiers),
        is_workspace: false,
    }
}

/// The dependencies of entries.
pub open spec fn entry_dependencies(entries: Seq<EntryView>, registry: Registry) -> Seq<
    DependencyView,
> {
    Seq::new(entries.len(), |i: int| entry_dependency(entries[i], registry))
}

/// The dependencies of Python entries.
pub open spec fn python_dependencies(entries: Seq<PythonEntryView>) -> Seq<DependencyView> {
    Seq::new(entries.len(), |i: int| python_dependency(entries[i]))
}

/// The dependencies that a manifest declares.
pub open spec fn manifest_dependencies(text: Seq<char>, kind: ManifestKind) -> Seq<DependencyView> {
    match kind {
        ManifestKind::Cargo => entry_dependencies(
            cargo_entries(text, 0, None, true),
            Registry::Cargo,
        ),
        ManifestKind::PackageJson => entry_dependencies(npm_entries(text), Registry::Npm),
        ManifestKind::Pyproject => python_dependencies(pyproject_entries(text)),
        ManifestKind::Requirements => python_dependencies(requirements_entries(text, 0)),
    }
}

/// The span of every dependency with a version covers that version.
pub open spec fn spans_cover(text: Seq<char>, dependencies: Seq<DependencyView>) -> bool {
    forall|k: int|
        0 <= k < dependencies.len() && !(#[trigger] dependencies[k]).is_workspace ==> covers(
            text,
            dependencies[k].start,
            dependencies[k].end,
            dependencies[k].current,
        )
}

/// The span of every dependency of a project file whose own string holds no
/// escapes up to the end of its version covers that version.
pub open spec fn plain_spans_cover(text: Seq<char>, dependencies: Seq<DependencyView>) -> bool {
    forall|k: int|
        0 <= k < dependencies.len() && is_written_plainly(text, pyproject_entries(text)[k])
            ==> covers(
            text,
            (#[trigger] dependencies[k]).start,
            dependencies[k].end,
            dependencies[k].current,
        )
}

/// Makes dependencies of entries.
fn dependencies_of_entries(entries: Vec<Entry>, registry: Registry) -> (dependencies: Vec<
    Dependency,
>)
    ensures
        dependency_views(dependencies@) == entry_dependencies(entry_views(entries@), registry),
{
    let mut dependencies: Vec<Dependency> = Vec::new();
    let mut i: usize = 0;
    while i < entries.len()
        invariant
            i == dependencies@.len() <= entries@.len(),
            forall|k: int|
                0 <= k < i ==> (#[trigger] dependencies@[k])@ == entry_dependency(
                    entries@[k]@,
                    registry,
                ),
        decreases entries@.len() - i,
    {
        let e = &entries[i];
        let dep = match &e.version {
            Some(version) => build_dependency(
                e.name.clone(),
                e.section.as_str(),
                registry,
                version.clone(),
                e.start,
                e.end,
            ),
            None => build_workspace_dependency(
                e.name.clone(),
                e.section.as_str(),
                e.start,
                e.end,
            ),
        };
        dependencies.push(dep);
        i += 1;
    }
    assert(dependency_views(dependencies@) =~= entry_dependencies(entry_views(entries@), registry));
    dependencies
}

/// Copies strings.
fn copy_strings(strings: &Vec<String>) -> (copies: Vec<String>)
    ensures
        texts_of(copies@) == texts_of(strings@),
{
    let mut copies: Vec<String> = Vec::new();
    let mut i: usize = 0;
    while i < strings.len()
        invariant
            i == copies@.len() <= strings@.len(),
            forall|k: int| 0 <= k < i ==> (#[trigger] copies@[k])@ == strings@[k]@,
        decreases strings@.len() - i,
    {
        copies.push(strings[i].clone());
        i += 1;
    }
    assert(texts_of(copies@) =~= texts_of(strings@));
    copies
}

/// Makes dependencies of Python entries.
fn dependencies_of_python_entries(entries: Vec<PythonEntry>) -> (dependencies: Vec<Dependency>)
    ensures
        dependency_views(dependencies@) == python_dependencies(python_entry_views(entries@)),
{
    let mut dependencies: Vec<Dependency> = Vec::new();
    let mut i: usize = 0;
    while i < entries.len()
        invariant
            i == dependencies@.len() <= entries@.len(),
            forall|k: int|
                0 <= k < i ==> (#[trigger] dependencies@[k])@ == python_dependency(entries@[k]@),
        decreases entries@.len() - i,
    {
        let e = &entries[i];
        dependencies.push(
            Dependency {
                name: e.name.clone(),
                section: e.section.clone(),
                registry: Registry::Pypi,
                current: e.current.clone(),
                value_span: Span { start: e.start, end: e.end },
                can_edit: true,
                prefix: "==".to_string(),
                current_version: None,
                python_specifiers: Some(copy_strings(&e.specifiers)),
                is_workspace: false,
            },
        );
        i += 1;
    }
    assert(dependency_views(dependencies@) =~= python_dependencies(python_entry_views(entries@)));
    dependencies
}

/// Where entries stand, their dependencies do.
proof fn lemma_spans_of_entries(text: Seq<char>, entries: Seq<EntryView>, registry: Registry)
    requires
        entries_stand(text, entries),
    ensures
        spans_cover(text, entry_dependencies(entries, registry)),
{
    let dependencies = entry_dependencies(entries, registry);
    assert forall|k: int|
        0 <= k < dependencies.len() && !(#[trigger] dependencies[k]).is_workspace implies covers(
        text,
        dependencies[k].start,
        dependencies[k].end,
        dependencies[k].current,
    ) by {
        assert(dependencies[k] == entry_dependency(entries[k], registry));
    }
}

/// Where Python entries stand, their dependencies do.
proof fn lemma_spans_of_python_entries(text: Seq<char>, entries: Seq<PythonEntryView>)
    requires
        python_entries_stand(text, entries),
    ensures
        spans_cover(text, python_dependencies(entries)),
{
    let dependencies = python_dependencies(entries);
    assert forall|k: int|
        0 <= k < dependencies.len() && !(#[trigger] dependencies[k]).is_workspace implies covers(
        text,
        dependencies[k].start,
        dependencies[k].end,
        dependencies[k].current,
    ) by {
        assert(stands_as_read(text, entries[k]));
        lemma_covered(text, entries[k]);
    }
}

/// An entry that stands where it says covers its version.
proof fn lemma_covered(text: Seq<char>, e: PythonEntryView)
    requires
        stands_as_read(text, e),
    ensures
        covers(text, e.start, e.end, e.current),
{
    let (i, j) = choose|i: int, j: int| #[trigger]
        is_at_chars(text, i, j, e.start, e.end, e.current);
    assert(covers_chars(text, i, j, e.start, e.end, e.current));
}

/// The dependencies of a Cargo manifest.
pub fn parse_cargo_manifest(text: &str) -> (dependencies: Vec<Dependency>)
    ensures
        dependency_views(dependencies@) == manifest_dependencies(text@, ManifestKind::Cargo),
        spans_cover(text@, dependency_views(dependencies@)),
{
    let entries = list_cargo_entries(text, true);
    proof {
        lemma_spans_of_entries(text@, entry_views(entries@), Registry::Cargo);
    }
    dependencies_of_entries(entries, Registry::Cargo)
}

/// The dependencies of an npm manifest.
pub fn parse_package_json(text: &str) -> (dependencies: Vec<Dependency>)
    ensures
        dependency_views(dependencies@) == manifest_dependencies(text@, ManifestKind::PackageJson),
        spans_cover(text@, dependency_views(dependencies@)),
{
    let entries = list_npm_entries(text);
    proof {
        lemma_spans_of_entries(text@, entry_views(entries@), Registry::Npm);
    }
    dependencies_of_entries(entries, Registry::Npm)
}

/// The dependencies of a Python project file. Where the string of a dependency
/// holds an escape in its version or before it, its span need not cover its version.
pub fn parse_pyproject_manifest(text: &str) -> (dependencies: Vec<Dependency>)
    ensures
        dependency_views(dependencies@) == manifest_dependencies(text@, ManifestKind::Pyproject),
        plain_spans_cover(text@, dependency_views(dependencies@)),
{
    let entries = list_pyproject_entries(text);
    proof {
        let views = python_entry_views(entries@);
        let found = python_dependencies(views);
        assert forall|k: int|
            0 <= k < found.len() && is_written_plainly(
                text@,
                pyproject_entries(text@)[k],
            ) implies covers(
            text@,
            (#[trigger] found[k]).start,
            found[k].end,
            found[k].current,
        ) by {
            assert(stands_in_list(text@, views[k]));
            lemma_covered(text@, views[k]);
        }
    }
    dependencies_of_python_entries(entries)
}

/// The dependencies of a requirements file.
pub fn parse_requirements_manifest(text: &str) -> (dependencies: Vec<Dependency>)
    ensures
        dependency_views(dependencies@) == manifest_dependencies(text@, ManifestKind::Requirements),
        spans_cover(text@, dependency_views(dependencies@)),
{
    let entries = list_requirements_entries(text);
    proof {
        lemma_spans_of_python_entries(text@, python_entry_views(entries@));
    }
    dependencies_of_python_entries(entries)
}

/// The dependencies of a manifest.
pub fn parse_manifest(text: &str, kind: ManifestKind) -> (dependencies: Vec<Dependency>)
    ensures
        dependency_views(dependencies@) == manifest_dependencies(text@, kind),
        kind != ManifestKind::Pyproject ==> spans_cover(text@, dependency_views(dependencies@)),
        kind == ManifestKind::Pyproject ==> plain_spans_cover(
            text@,
            dependency_views(dependencies@),
        ),
{
    match kind {
        ManifestKind::Cargo => parse_cargo_manifest(text),
        ManifestKind::PackageJson => parse_package_json(text),
        ManifestKind::Pyproject => parse_pyproject_manifest(text),
        ManifestKind::Requirements => parse_requirements_manifest(text),
    }
}

} // verus!
