//! The manifests that the Cargo and npm server reads.

use crate::entries::{
    cargo_entries, covers, entries_stand, entry_views, list_cargo_entries, list_npm_entries,
    npm_entries, Entry, EntryView,
};
use crate::outside::text_of;
use crate::text::{chars_of, ends_with};
use crate::version::{
    editable_version_parts, is_simple, lenient_version, lenient_version_of, version_of,
    version_prefix, version_rest, version_text, Version, VersionView,
};
use vstd::prelude::*;
use vstd::string::StringExecFns;

pub use crate::position::Span;
pub use crate::version::{parse_lenient_version, strip_semver_metadata};

verus! {

/// Where packages come from.
#[derive(Debug, Clone, Copy, PartialEq, Eq, Hash, Structural)]
pub enum Registry {
    Cargo,
    Npm,
}

/// The page of a package on its registry.
pub open spec fn package_page(registry: Registry, name: Seq<char>) -> Seq<char> {
    match registry {
        Registry::Cargo => "https://crates.io/crates/"@ + name,
        Registry::Npm => "https://www.npmjs.com/package/"@ + name,
    }
}

impl Registry {
    /// The page of the package `name`.
    pub fn package_url(&self, name: &str) -> (url: String)
        ensures
            url@ == package_page(*self, name@),
    {
        match self {
            Registry::Cargo => {
                let mut url = "https://crates.io/crates/".to_string();
                url.append(name);
                url
            },
            Registry::Npm => {
                let mut url = "https://www.npmjs.com/package/".to_string();
                url.append(name);
                url
            },
        }
    }
}

/// The registry of the manifest at `path`, which the end of the path decides.
pub open spec fn manifest_registry(path: Seq<char>) -> Option<Registry> {
    if "Cargo.toml"@.is_suffix_of(path) {
        Some(Registry::Cargo)
    } else if "package.json"@.is_suffix_of(path) {
        Some(Registry::Npm)
    } else {
        None
    }
}

/// The registry of the manifest at `uri_path`.
pub fn detect_manifest_kind(uri_path: &str) -> (kind: Option<Registry>)
    ensures
        kind == manifest_registry(uri_path@),
{
    let chars = chars_of(uri_path);
    if ends_with(chars.as_slice(), "Cargo.toml") {
        Some(Registry::Cargo)
    } else if ends_with(chars.as_slice(), "package.json") {
        Some(Registry::Npm)
    } else {
        None
    }
}

// ---------------------------------------------------------------------------
// Dependencies
// ---------------------------------------------------------------------------

/// A dependency that a manifest declares.
#[derive(Debug, PartialEq, Eq)]
pub struct Dependency {
    pub name: String,
    pub section: String,
    pub registry: Registry,
    pub current: String,
    pub value_span: Span,
    pub can_edit: bool,
    pub prefix: String,
    pub current_version: Option<Version>,
}

/// What a [`Dependency`] says.
#[verifier::ext_equal]
pub struct DependencyView {
    pub name: Seq<char>,
    pub section: Seq<char>,
    pub registry: Registry,
    pub current: Seq<char>,
    pub start: int,
    pub end: int,
    pub can_edit: bool,
    pub prefix: Seq<char>,
    pub current_version: Option<VersionView>,
}

impl View for Dependency {
    type V = DependencyView;

    open spec fn view(&self) -> DependencyView {
        DependencyView {
            name: self.name@,
            section: self.section@,
            registry: self.registry,
            current: self.current@,
            start: self.value_span.start as int,
            end: self.value_span.end as int,
            can_edit: self.can_edit,
            prefix: self.prefix@,
            current_version: version_of(self.current_version),
        }
    }
}

impl Clone for Dependency {
    fn clone(&self) -> (copy: Self)
        ensures
            copy@ == self@,
    {
        Dependency {
            name: self.name.clone(),
            section: self.section.clone(),
            registry: self.registry,
            current: self.current.clone(),
            value_span: self.value_span,
            can_edit: self.can_edit,
            prefix: self.prefix.clone(),
            current_version: match &self.current_version {
                Some(v) => Some(v.clone()),
                None => None,
            },
        }
    }
}

/// The views of dependencies.
pub open spec fn dependency_views(dependencies: Seq<Dependency>) -> Seq<DependencyView> {
    Seq::new(dependencies.len(), |i: int| dependencies[i]@)
}

/// What to write in place of a dependency's version to get to `latest`.
pub open spec fn replacement(dep: DependencyView, latest: VersionView) -> Option<Seq<char>> {
    if dep.can_edit {
        Some(dep.prefix + version_text(latest))
    } else {
        None
    }
}

impl Dependency {
    /// What to write in place of the version to get to `latest`: none for a
    /// dependency that cannot be rewritten.
    pub fn replacement_for(&self, latest: &Version) -> (text: Option<String>)
        ensures
            text_of(text) == replacement(self@, latest@),
    {
        if self.can_edit {
            let mut text = self.prefix.clone();
            let version = latest.to_text();
            text.append(version.as_str());
            Some(text)
        } else {
            None
        }
    }
}

/// A dependency with the version requirement `current`.
pub open spec fn plain_dependency(
    name: Seq<char>,
    section: Seq<char>,
    registry: Registry,
    current: Seq<char>,
    start: int,
    end: int,
) -> DependencyView {
    DependencyView {
        name,
        section,
        registry,
        current,
        start,
        end,
        can_edit: is_simple(version_rest(current)),
        prefix: version_prefix(current),
        current_version: lenient_version(version_rest(current)),
    }
}

/// Makes a dependency with the version requirement `current`.
pub fn build_dependency(
    name: String,
    section: &str,
    registry: Registry,
    current: String,
    span_start: usize,
    span_end: usize,
) -> (dep: Dependency)
    ensures
        dep@ == plain_dependency(
            name@,
            section@,
            registry,
            current@,
            span_start as int,
            span_end as int,
        ),
{
    let chars = chars_of(current.as_str());
    let (prefix, version, can_edit) = editable_version_parts(chars.as_slice());
    let current_version = lenient_version_of(version);
    Dependency {
        name,
        section: section.to_string(),
        registry,
        current,
        value_span: Span { start: span_start, end: span_end },
        can_edit,
        prefix,
        current_version,
    }
}

/// The dependencies of the entries that have a version.
pub open spec fn entry_dependencies(entries: Seq<EntryView>, registry: Registry) -> Seq<
    DependencyView,
>
    decreases entries.len(),
{
    if entries.len() == 0 {
        Seq::empty()
    } else {
        let e = entries.last();
        let before = entry_dependencies(entries.drop_last(), registry);
        match e.version {
            Some(version) => before.push(
                plain_dependency(e.name, e.section, registry, version, e.start, e.end),
            ),
            None => before,
        }
    }
}

/// The dependencies that a manifest declares.
pub open spec fn manifest_dependencies(text: Seq<char>, kind: Registry) -> Seq<DependencyView> {
    match kind {
        Registry::Cargo => entry_dependencies(
            cargo_entries(text, 0, None, false),
            Registry::Cargo,
        ),
        Registry::Npm => entry_dependencies(npm_entries(text), Registry::Npm),
    }
}

/// The span of every dependency covers its version.
pub open spec fn spans_cover(text: Seq<char>, dependencies: Seq<DependencyView>) -> bool {
    forall|k: int|
        0 <= k < dependencies.len() ==> covers(
            text,
            (#[trigger] dependencies[k]).start,
            dependencies[k].end,
            dependencies[k].current,
        )
}

/// Makes dependencies of entries.
fn dependencies_of_entries(text: &str, entries: Vec<Entry>, registry: Registry) -> (dependencies:
    Vec<Dependency>)
    requires
        entries_stand(text@, entry_views(entries@)),
    ensures
        dependency_views(dependencies@) == entry_dependencies(entry_views(entries@), registry),
        spans_cover(text@, dependency_views(dependencies@)),
{
    let ghost views = entry_views(entries@);
    let mut dependencies: Vec<Dependency> = Vec::new();
    let mut i: usize = 0;
    assert(views.take(0) =~= Seq::<EntryView>::empty());
    assert(dependency_views(dependencies@) =~= Seq::<DependencyView>::empty());
    while i < entries.len()
        invariant
            i <= entries@.len(),
            views == entry_views(entries@),
            entries_stand(text@, views),
            dependency_views(dependencies@) == entry_dependencies(views.take(i as int), registry),
            spans_cover(text@, dependency_views(dependencies@)),
        decreases entries@.len() - i,
    {
        let e = &entries[i];
        let ghost done = dependency_views(dependencies@);
        assert(views[i as int] == e@);
        assert(views.take(i + 1).drop_last() =~= views.take(i as int));
        assert(views.take(i + 1).last() == e@);
        if let Some(version) = &e.version {
            let dep = build_dependency(
                e.name.clone(),
                e.section.as_str(),
                registry,
                version.clone(),
                e.start,
                e.end,
            );
            let ghost view = dep@;
            dependencies.push(dep);
            assert(dependency_views(dependencies@) =~= done.push(view));
        }
        i += 1;
    }
    assert(views.take(i as int) =~= views);
    dependencies
}

/// The dependencies of a Cargo manifest.
pub fn parse_cargo_manifest(text: &str) -> (dependencies: Vec<Dependency>)
    ensures
        dependency_views(dependencies@) == manifest_dependencies(text@, Registry::Cargo),
        spans_cover(text@, dependency_views(dependencies@)),
{
    let entries = list_cargo_entries(text, false);
    dependencies_of_entries(text, entries, Registry::Cargo)
}

/// The dependencies of an npm manifest.
pub fn parse_package_json(text: &str) -> (dependencies: Vec<Dependency>)
    ensures
        dependency_views(dependencies@) == manifest_dependencies(text@, Registry::Npm),
        spans_cover(text@, dependency_views(dependencies@)),
{
    let entries = list_npm_entries(text);
    dependencies_of_entries(text, entries, Registry::Npm)
}

/// The dependencies of a manifest.
pub fn parse_manifest(text: &str, kind: Registry) -> (dependencies: Vec<Dependency>)
    ensures
        dependency_views(dependencies@) == manifest_dependencies(text@, kind),
        spans_cover(text@, dependency_views(dependencies@)),
{
    match kind {
        Registry::Cargo => parse_cargo_manifest(text),
        Registry::Npm => parse_package_json(text),
    }
}

} // verus!
