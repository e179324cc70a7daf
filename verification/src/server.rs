//! What the language server shows of a manifest, and what it offers to change.

use crate::documents::{changed, changed_by, opened, DocumentView};
use crate::manifest::{
    dependency_version_text, dependency_views, detect_manifest_kind, manifest_dependencies,
    manifest_kind, package_page, parse_cargo_manifest, parse_manifest, replacement, Dependency,
    DependencyVersion, DependencyVersionView, DependencyView, ManifestKind, Registry, Span,
};
use crate::outside::{pep440_order, text_of};
use crate::position::position_offset;
use crate::references::{refers_to, requirements_refer_to};
use crate::registry::{latest_of, LatestInfo, LatestResult, LatestView};
use crate::text::{first_index, same_text};
use crate::version::{all_admit, is_newer, specifiers_admit};
use vstd::prelude::*;
use vstd::string::StringExecFns;

pub use crate::position::{
    checked_range, offset_to_position, position_to_offset, span_to_range, Position, Range,
};

verus! {

// ---------------------------------------------------------------------------
// Outdated dependencies
// ---------------------------------------------------------------------------

/// Whether `latest` is news for a dependency: it is newer than the version that
/// the manifest names, or the version specifiers do not admit it.
pub open spec fn outdated(dep: DependencyView, latest: DependencyVersionView) -> bool {
    match (dep.current_version, latest) {
        (
            Some(DependencyVersionView::Semver(current)),
            DependencyVersionView::Semver(v),
        ) => is_newer(v, current),
        (
            Some(DependencyVersionView::Pep440(current)),
            DependencyVersionView::Pep440(v),
        ) => pep440_order(v.text, current.text),
        (None, DependencyVersionView::Pep440(v)) => match dep.python_specifiers {
            Some(specifiers) => !all_admit(specifiers, v.text),
            None => false,
        },
        _ => false,
    }
}

/// Whether `latest` is news for a dependency.
pub fn is_outdated(dep: &Dependency, latest: &DependencyVersion) -> (b: bool)
    ensures
        b == outdated(dep@, latest@),
{
    match (&dep.current_version, latest) {
        (
            Some(DependencyVersion::Semver(current)),
            DependencyVersion::Semver(v),
        ) => v.newer_than(current),
        (
            Some(DependencyVersion::Pep440(current)),
            DependencyVersion::Pep440(v),
        ) => v.newer_than(current),
        (None, DependencyVersion::Pep440(v)) => match &dep.python_specifiers {
            Some(specifiers) => !specifiers_admit(specifiers, v),
            None => false,
        },
        _ => false,
    }
}

/// The version that is news for a dependency.
pub open spec fn news(dep: DependencyView, latest: Result<LatestView, Seq<char>>) -> Option<
    DependencyVersionView,
> {
    match latest {
        Ok(info) => match info.version {
            Some(v) => if outdated(dep, v) {
                Some(v)
            } else {
                None
            },
            None => None,
        },
        Err(_) => None,
    }
}

// ---------------------------------------------------------------------------
// Hovers
// ---------------------------------------------------------------------------

/// What a registry is called.
pub open spec fn registry_label(registry: Registry) -> Seq<char> {
    match registry {
        Registry::Cargo => "crates.io"@,
        Registry::Npm => "npm"@,
        Registry::Pypi => "PyPI"@,
    }
}

/// The links of a dependency: to its registry, and to its repository where that
/// is another page.
pub open spec fn links(dep: DependencyView, repository_url: Option<Seq<char>>) -> Seq<char> {
    let page = package_page(dep.registry, dep.name);
    let registry_link = "[Open in "@ + registry_label(dep.registry) + "]("@ + page + ")"@;
    match repository_url {
        Some(url) => if url != page {
            registry_link + " | [Open repository]("@ + url + ")"@
        } else {
            registry_link
        },
        None => registry_link,
    }
}

/// Writes the links of a dependency.
pub fn dependency_links_markdown(dep: &Dependency, latest: Option<&LatestInfo>) -> (text: String)
    ensures
        text@ == links(
            dep@,
            match latest {
                Some(info) => info@.repository_url,
                None => None,
            },
        ),
{
    let label = match dep.registry {
        Registry::Cargo => "crates.io",
        Registry::Npm => "npm",
        Registry::Pypi => "PyPI",
    };
    let page = dep.registry.package_url(dep.name.as_str());
    let mut text = "[Open in ".to_string();
    text.append(label);
    text.append("](");
    text.append(page.as_str());
    text.append(")");
    if let Some(info) = latest {
        if let Some(url) = &info.repository_url {
            if !same_text(url.as_str(), page.as_str()) {
                text.append(" | [Open repository](");
                text.append(url.as_str());
                text.append(")");
            }
        }
    }
    text
}

/// What every hover begins with.
pub open spec fn hover_head(dep: DependencyView, repository_url: Option<Seq<char>>) -> Seq<char> {
    "**"@ + dep.name + "**\n\n"@ + links(dep, repository_url) + "\n\nCurrent: `"@ + dep.current
        + "`\n\n"@
}

/// The hover of a dependency: its links, its version, and the latest stable
/// version with what to write for it, or why there is none.
pub open spec fn hover_text(dep: DependencyView, latest: Result<LatestView, Seq<char>>) -> Seq<
    char,
> {
    match latest {
        Ok(info) => {
            let head = hover_head(dep, info.repository_url);
            match info.version {
                Some(v) => {
                    let stable = head + "Latest stable: `"@ + dependency_version_text(v);
                    if outdated(dep, v) {
                        stable + "`\n\nReplacement: `"@ + (match replacement(dep, v) {
                            Some(text) => text,
                            None => dependency_version_text(v),
                        }) + "`"@
                    } else {
                        stable + "`\n\nAlready up to date."@
                    }
                },
                None => head + "No stable registry version was found."@,
            }
        },
        Err(error) => hover_head(dep, None) + "Could not check latest version: `"@ + error + "`"@,
    }
}

/// Writes what every hover begins with.
fn write_hover_head(dep: &Dependency, latest: Option<&LatestInfo>) -> (text: String)
    ensures
        text@ == hover_head(
            dep@,
            match latest {
                Some(info) => info@.repository_url,
                None => None,
            },
        ),
{
    let links = dependency_links_markdown(dep, latest);
    let mut text = "**".to_string();
    text.append(dep.name.as_str());
    text.append("**\n\n");
    text.append(links.as_str());
    text.append("\n\nCurrent: `");
    text.append(dep.current.as_str());
    text.append("`\n\n");
    text
}

/// Writes the hover of a dependency.
pub fn hover_markdown(dep: &Dependency, latest: Result<&LatestInfo, &String>) -> (text: String)
    ensures
        text@ == hover_text(
            dep@,
            match latest {
                Ok(info) => Ok(info@),
                Err(error) => Err(error@),
            },
        ),
{
    match latest {
        Ok(info) => {
            let mut text = write_hover_head(dep, Some(info));
            match &info.version {
                Some(v) => {
                    let version = v.to_text();
                    text.append("Latest stable: `");
                    text.append(version.as_str());
                    if is_outdated(dep, v) {
                        let replacement = match dep.replacement_for(v) {
                            Some(text) => text,
                            None => version,
                        };
                        text.append("`\n\nReplacement: `");
                        text.append(replacement.as_str());
                        text.append("`");
                    } else {
                        text.append("`\n\nAlready up to date.");
                    }
                },
                None => {
                    text.append("No stable registry version was found.");
                },
            }
            text
        },
        Err(error) => {
            let mut text = write_hover_head(dep, None);
            text.append("Could not check latest version: `");
            text.append(error.as_str());
            text.append("`");
            text
        },
    }
}

// ---------------------------------------------------------------------------
// Places in a document
// ---------------------------------------------------------------------------

/// Holds of the dependencies whose span holds a byte; its end counts.
pub open spec fn holds_offset(
    dependencies: Seq<DependencyView>,
    offset: int) -> spec_fn(int,
) -> bool {
    |i: int| dependencies[i].start <= offset <= dependencies[i].end
}

/// The first dependency of a manifest whose span holds a position.
pub open spec fn dependency_under(
    text: Seq<char>,
    kind: ManifestKind,
    position: Position,
) -> Option<
    DependencyView,
> {
    let dependencies = manifest_dependencies(text, kind);
    match position_offset(text, position) {
        Some(offset) => match first_index(
            holds_offset(dependencies, offset),
            0,
            dependencies.len() as int,
        ) {
            Some(i) => Some(dependencies[i]),
            None => None,
        },
        None => None,
    }
}

/// The view of an optional dependency.
pub open spec fn dependency_of(dep: Option<Dependency>) -> Option<DependencyView> {
    match dep {
        Some(d) => Some(d@),
        None => None,
    }
}

/// Finds the dependency at a position of a document.
pub fn dependency_at(document: &Document, position: Position) -> (dep: Option<Dependency>)
    ensures
        dependency_of(dep) == dependency_under(document.text@, document.kind, position),
{
    let offset = match position_to_offset(document.text.as_str(), position) {
        Some(offset) => offset,
        None => {
            return None;
        },
    };
    let mut dependencies = parse_manifest(document.text.as_str(), document.kind);
    let ghost views = dependency_views(dependencies@);
    let ghost p = holds_offset(views, offset as int);
    let n: usize = dependencies.len();
    let mut i: usize = 0;
    while i < n
        invariant
            i <= n == dependencies@.len(),
            views == dependency_views(dependencies@),
            views == manifest_dependencies(document.text@, document.kind),
            p == holds_offset(views, offset as int),
            position_offset(document.text@, position) == Some(offset as int),
            first_index(p, 0, n as int) == first_index(p, i as int, n as int),
        decreases n - i,
    {
        let span = dependencies[i].value_span;
        assert(views[i as int] == dependencies@[i as int]@);
        if span.start <= offset && offset <= span.end {
            assert(p(i as int));
            let dep = dependencies.swap_remove(i);
            return Some(dep);
        }
        assert(!p(i as int));
        i += 1;
    }
    None
}

// ---------------------------------------------------------------------------
// Diagnostics and quick fixes
// ---------------------------------------------------------------------------

/// What is said of an outdated dependency.
pub open spec fn diagnostic_text(dep: DependencyView, latest: DependencyVersionView) -> Seq<char> {
    dep.name + " "@ + dependency_version_text(latest) + " is available"@
}

/// Says of a dependency that it is outdated, if it is.
pub fn diagnostic_message(dep: &Dependency, latest: &LatestResult) -> (message: Option<String>)
    ensures
        text_of(message) == (match news(dep@, latest_of(*latest)) {
            Some(v) => Some(diagnostic_text(dep@, v)),
            None => None,
        }),
{
    let info = match latest {
        Ok(info) => info,
        Err(_) => {
            return None;
        },
    };
    match &info.version {
        Some(v) => if is_outdated(dep, v) {
            let version = v.to_text();
            let mut message = dep.name.clone();
            message.append(" ");
            message.append(version.as_str());
            message.append(" is available");
            Some(message)
        } else {
            None
        },
        None => None,
    }
}

/// A diagnostic: the span it is for, and what it says.
pub struct Diagnostic {
    pub span: Span,
    pub message: String,
}

/// What a [`Diagnostic`] says.
#[verifier::ext_equal]
pub struct DiagnosticView {
    pub start: int,
    pub end: int,
    pub message: Seq<char>,
}

impl View for Diagnostic {
    type V = DiagnosticView;

    open spec fn view(&self) -> DiagnosticView {
        DiagnosticView {
            start: self.span.start as int,
            end: self.span.end as int,
            message: self.message@,
        }
    }
}

/// The views of diagnostics.
pub open spec fn diagnostic_views(diagnostics: Seq<Diagnostic>) -> Seq<DiagnosticView> {
    Seq::new(diagnostics.len(), |i: int| diagnostics[i]@)
}

/// The diagnostics of dependencies, each with what is known of its package: one
/// for each that is outdated, in their order.
pub open spec fn outdated_diagnostics(
    dependencies: Seq<Dependency>,
    latest: Seq<LatestResult>,
) -> Seq<DiagnosticView>
    decreases dependencies.len(),
{
    if dependencies.len() == 0 {
        Seq::empty()
    } else {
        let before = outdated_diagnostics(dependencies.drop_last(), latest.drop_last());
        let dep = dependencies.last()@;
        match news(dep, latest_of(latest.last())) {
            Some(v) => before.push(
                DiagnosticView {
                    start: dep.start,
                    end: dep.end,
                    message: diagnostic_text(dep, v),
                },
            ),
            None => before,
        }
    }
}

/// The diagnostics of dependencies, each with what is known of its package.
pub fn diagnostics(dependencies: &Vec<Dependency>, latest: &Vec<LatestResult>) -> (diagnostics: Vec<
    Diagnostic,
>)
    requires
        dependencies@.len() == latest@.len(),
    ensures
        diagnostic_views(diagnostics@) == outdated_diagnostics(dependencies@, latest@),
{
    let mut found: Vec<Diagnostic> = Vec::new();
    let mut i: usize = 0;
    assert(diagnostic_views(found@) =~= Seq::<DiagnosticView>::empty());
    while i < dependencies.len()
        invariant
            i <= dependencies@.len() == latest@.len(),
            diagnostic_views(found@) == outdated_diagnostics(
                dependencies@.take(i as int),
                latest@.take(i as int),
            ),
        decreases dependencies@.len() - i,
    {
        let ghost done = diagnostic_views(found@);
        assert(dependencies@.take(i + 1).drop_last() =~= dependencies@.take(i as int));
        assert(latest@.take(i + 1).drop_last() =~= latest@.take(i as int));
        assert(dependencies@.take(i + 1).last() == dependencies@[i as int]);
        assert(latest@.take(i + 1).last() == latest@[i as int]);
        if let Some(message) = diagnostic_message(&dependencies[i], &latest[i]) {
            let diagnostic = Diagnostic { span: dependencies[i].value_span, message };
            let ghost view = diagnostic@;
            found.push(diagnostic);
            assert(diagnostic_views(found@) =~= done.push(view));
        }
        i += 1;
    }
    assert(dependencies@.take(i as int) =~= dependencies@);
    assert(latest@.take(i as int) =~= latest@);
    found
}

/// A quick fix: what it is called, and what it writes in place of the version.
pub struct QuickFix {
    pub title: String,
    pub new_text: String,
}

/// What a [`QuickFix`] says.
#[verifier::ext_equal]
pub struct QuickFixView {
    pub title: Seq<char>,
    pub new_text: Seq<char>,
}

impl View for QuickFix {
    type V = QuickFixView;

    open spec fn view(&self) -> QuickFixView {
        QuickFixView { title: self.title@, new_text: self.new_text@ }
    }
}

/// The quick fix for a dependency: there is one where the dependency is outdated
/// and can be rewritten.
pub open spec fn fix(dep: DependencyView, latest: Result<LatestView, Seq<char>>) -> Option<
    QuickFixView,
> {
    match news(dep, latest) {
        Some(v) => match replacement(dep, v) {
            Some(new_text) => Some(
                QuickFixView {
                    title: "Update "@ + dep.name + " to "@ + dependency_version_text(v),
                    new_text,
                },
            ),
            None => None,
        },
        None => None,
    }
}

/// Offers a quick fix for a dependency.
pub fn quick_fix(dep: &Dependency, latest: &LatestResult) -> (offer: Option<QuickFix>)
    ensures
        (match offer {
            Some(f) => Some(f@),
            None => None,
        }) == fix(dep@, latest_of(*latest)),
{
    if !dep.can_edit {
        return None;
    }
    let info = match latest {
        Ok(info) => info,
        Err(_) => {
            return None;
        },
    };
    match &info.version {
        Some(v) => {
            if !is_outdated(dep, v) {
                return None;
            }
            match dep.replacement_for(v) {
                Some(new_text) => {
                    let version = v.to_text();
                    let mut title = "Update ".to_string();
                    title.append(dep.name.as_str());
                    title.append(" to ");
                    title.append(version.as_str());
                    Some(QuickFix { title, new_text })
                },
                None => None,
            }
        },
        None => None,
    }
}

// ---------------------------------------------------------------------------
// Workspaces
// ---------------------------------------------------------------------------

/// Where a quick fix writes.
pub struct EditTarget {
    pub uri: String,
    pub text: String,
    pub span: Span,
}

/// What an [`EditTarget`] says.
#[verifier::ext_equal]
pub struct TargetView {
    pub uri: Seq<char>,
    pub text: Seq<char>,
    pub start: int,
    pub end: int,
}

impl View for EditTarget {
    type V = TargetView;

    open spec fn view(&self) -> TargetView {
        TargetView {
            uri: self.uri@,
            text: self.text@,
            start: self.span.start as int,
            end: self.span.end as int,
        }
    }
}

/// A Cargo manifest of a directory above: its address, if it has one, and its
/// text.
pub struct Ancestor {
    pub uri: Option<String>,
    pub text: String,
}

/// Holds of the workspace dependencies on a package.
pub open spec fn declares(
    dependencies: Seq<DependencyView>,
    name: Seq<char>) -> spec_fn(int,
) -> bool {
    |i: int|
        dependencies[i].name == name && dependencies[i].section == "workspace.dependencies"@
}

/// What a manifest declares for the whole workspace about a package.
pub open spec fn workspace_declaration(text: Seq<char>, name: Seq<char>) -> Option<DependencyView> {
    let dependencies = manifest_dependencies(text, ManifestKind::Cargo);
    match first_index(declares(dependencies, name), 0, dependencies.len() as int) {
        Some(i) => Some(dependencies[i]),
        None => None,
    }
}

/// The nearest manifest, from `from` on, that declares a package for the whole
/// workspace, and what it declares.
pub open spec fn nearest_declaration(
    ancestors: Seq<Ancestor>,
    name: Seq<char>,
    from: int,
) -> Option<
    (int, DependencyView),
>
    decreases ancestors.len() - from,
{
    if from < 0 || from >= ancestors.len() {
        None
    } else {
        match workspace_declaration(ancestors[from].text@, name) {
            Some(d) => Some((from, d)),
            None => nearest_declaration(ancestors, name, from + 1),
        }
    }
}

/// A dependency with the version that the workspace declares.
pub open spec fn with_declaration(dep: DependencyView, declared: DependencyView) -> DependencyView {
    DependencyView {
        current: declared.current,
        current_version: declared.current_version,
        prefix: declared.prefix,
        can_edit: declared.can_edit,
        ..dep
    }
}

/// What the workspace makes of a dependency, and where a fix of it writes.
pub open spec fn resolved(dep: DependencyView, ancestors: Seq<Ancestor>) -> (
    DependencyView,
    Option<TargetView>,
) {
    match nearest_declaration(ancestors, dep.name, 0) {
        Some((i, declared)) => if dep.is_workspace {
            (
                with_declaration(dep, declared),
                match ancestors[i].uri {
                    Some(uri) => if declared.can_edit {
                        Some(
                            TargetView {
                                uri: uri@,
                                text: ancestors[i].text@,
                                start: declared.start,
                                end: declared.end,
                            },
                        )
                    } else {
                        None
                    },
                    None => None,
                },
            )
        } else {
            (dep, None)
        },
        None => (dep, None),
    }
}

/// Finds what a manifest declares for the whole workspace about a package.
fn find_workspace_declaration(text: &str, name: &str) -> (found: Option<Dependency>)
    ensures
        dependency_of(found) == workspace_declaration(text@, name@),
{
    let mut dependencies = parse_cargo_manifest(text);
    let ghost views = dependency_views(dependencies@);
    let ghost p = declares(views, name@);
    let n: usize = dependencies.len();
    let mut i: usize = 0;
    while i < n
        invariant
            i <= n == dependencies@.len(),
            views == dependency_views(dependencies@),
            views == manifest_dependencies(text@, ManifestKind::Cargo),
            p == declares(views, name@),
            first_index(p, 0, n as int) == first_index(p, i as int, n as int),
        decreases n - i,
    {
        assert(views[i as int] == dependencies@[i as int]@);
        if same_text(dependencies[i].name.as_str(), name) && same_text(
            dependencies[i].section.as_str(),
            "workspace.dependencies",
        ) {
            assert(p(i as int));
            let dep = dependencies.swap_remove(i);
            return Some(dep);
        }
        assert(!p(i as int));
        i += 1;
    }
    None
}

/// Gives a workspace dependency the version that the nearest manifest above
/// declares, and says where a fix of it writes. The manifests of the directories
/// above come nearest first.
pub fn resolve_workspace_dependency(dep: &mut Dependency, ancestors: &Vec<Ancestor>) -> (target:
    Option<EditTarget>)
    ensures
        final(dep)@ == resolved(old(dep)@, ancestors@).0,
        (match target {
            Some(t) => Some(t@),
            None => None,
        }) == resolved(old(dep)@, ancestors@).1,
{
    if !dep.is_workspace {
        return None;
    }
    let ghost before = dep@;
    let mut i: usize = 0;
    while i < ancestors.len()
        invariant
            i <= ancestors@.len(),
            dep@ == before,
            before == old(dep)@,
            before.is_workspace,
            nearest_declaration(ancestors@, before.name, 0) == nearest_declaration(
                ancestors@,
                before.name,
                i as int,
            ),
        decreases ancestors@.len() - i,
    {
        let ancestor = &ancestors[i];
        if let Some(declared) = find_workspace_declaration(
            ancestor.text.as_str(),
            dep.name.as_str(),
        ) {
            dep.current = declared.current;
            dep.current_version = declared.current_version;
            dep.prefix = declared.prefix;
            dep.can_edit = declared.can_edit;
            if !declared.can_edit {
                return None;
            }
            return match &ancestor.uri {
                Some(uri) => Some(
                    EditTarget {
                        uri: uri.clone(),
                        text: ancestor.text.clone(),
                        span: declared.value_span,
                    },
                ),
                None => None,
            };
        }
        i += 1;
    }
    None
}

// ---------------------------------------------------------------------------
// Code actions
// ---------------------------------------------------------------------------

/// A code action: a quick fix, and where it writes.
pub struct CodeAction {
    pub fix: QuickFix,
    pub target: EditTarget,
}

/// What a [`CodeAction`] says.
#[verifier::ext_equal]
pub struct CodeActionView {
    pub fix: QuickFixView,
    pub target: TargetView,
}

impl View for CodeAction {
    type V = CodeActionView;

    open spec fn view(&self) -> CodeActionView {
        CodeActionView { fix: self.fix@, target: self.target@ }
    }
}

/// The code action for a dependency of the document `text` at `uri`, once it is
/// resolved: its quick fix, which writes where the workspace declares the
/// version, or else in the document.
pub open spec fn action(
    uri: Seq<char>,
    text: Seq<char>,
    dep: DependencyView,
    target: Option<TargetView>,
    latest: Result<LatestView, Seq<char>>,
) -> Option<CodeActionView> {
    match fix(dep, latest) {
        Some(fix) => Some(
            CodeActionView {
                fix,
                target: match target {
                    Some(target) => target,
                    None => TargetView { uri, text, start: dep.start, end: dep.end },
                },
            },
        ),
        None => None,
    }
}

/// Offers a code action for a dependency of the document `text` at `uri`.
pub fn code_action(
    uri: &str,
    text: &str,
    dep: &Dependency,
    target: Option<EditTarget>,
    latest: &LatestResult,
) -> (offer: Option<CodeAction>)
    ensures
        (match offer {
            Some(a) => Some(a@),
            None => None,
        }) == action(
            uri@,
            text@,
            dep@,
            match target {
                Some(t) => Some(t@),
                None => None,
            },
            latest_of(*latest),
        ),
{
    let fix = match quick_fix(dep, latest) {
        Some(fix) => fix,
        None => {
            return None;
        },
    };
    let target = match target {
        Some(target) => target,
        None => EditTarget {
            uri: uri.to_string(),
            text: text.to_string(),
            span: dep.value_span,
        },
    };
    Some(CodeAction { fix, target })
}

// ---------------------------------------------------------------------------
// Documents
// ---------------------------------------------------------------------------

/// An open manifest.
pub type Document = crate::documents::Document<ManifestKind>;

/// The open manifests, by address.
pub type Documents = crate::documents::Documents<ManifestKind>;

/// The document at `from` is a requirements file that refers to the one with the
/// address `uri`.
pub open spec fn is_referrer(
    documents: Map<Seq<char>, DocumentView<ManifestKind>>,
    from: Seq<char>,
    uri: Seq<char>,
) -> bool {
    &&& documents.dom().contains(from)
    &&& documents[from].kind == ManifestKind::Requirements
    &&& refers_to(from, documents[from].text, uri)
}

/// The kind of the document at `uri`: its file name decides, or else that an open
/// requirements file refers to it.
pub open spec fn document_kind(
    documents: Map<Seq<char>, DocumentView<ManifestKind>>,
    uri: Seq<char>,
    path: Seq<char>,
) -> Option<ManifestKind> {
    match manifest_kind(path) {
        Some(kind) => Some(kind),
        None => if exists|from: Seq<char>| is_referrer(documents, from, uri) {
            Some(ManifestKind::Requirements)
        } else {
            None
        },
    }
}

/// Finds the kind of the document at `uri`.
pub fn detect_document_kind(documents: &Documents, uri: &str, path: &str) -> (kind: Option<
    ManifestKind,
>)
    requires
        documents.well_formed(),
    ensures
        kind == document_kind(documents@, uri@, path@),
{
    if let Some(kind) = detect_manifest_kind(path) {
        return Some(kind);
    }
    let list = documents.list();
    let mut i: usize = 0;
    while i < list.len()
        invariant
            i <= list@.len(),
            manifest_kind(path@) is None,
            forall|k: int|
                0 <= k < list@.len() ==> documents@.dom().contains((#[trigger] list@[k]).0@)
                    && list@[k].1@ == documents@[list@[k].0@],
            forall|k: int|
                0 <= k < i ==> !is_referrer(documents@, (#[trigger] list@[k]).0@, uri@),
        decreases list@.len() - i,
    {
        let (from, document) = list[i];
        assert(list@[i as int].0@ == from@);
        if document.kind == ManifestKind::Requirements && requirements_refer_to(
            from.as_str(),
            document.text.as_str(),
            uri,
        ) {
            assert(is_referrer(documents@, from@, uri@));
            return Some(ManifestKind::Requirements);
        }
        i += 1;
    }
    proof {
        if exists|from: Seq<char>| is_referrer(documents@, from, uri@) {
            let from = choose|from: Seq<char>| is_referrer(documents@, from, uri@);
            assert(documents@.dom().contains(from));
            let k = choose|k: int| 0 <= k < list@.len() && (#[trigger] list@[k]).0@ == from;
            assert(!is_referrer(documents@, list@[k].0@, uri@));
        }
    }
    None
}

/// Keeps a document that was opened, if it is a manifest, and says whether it
/// is.
pub fn did_open(documents: &mut Documents, uri: &str, path: &str, text: String) -> (kept: bool)
    requires
        old(documents).well_formed(),
    ensures
        final(documents).well_formed(),
        final(documents)@ == opened(
            old(documents)@,
            uri@,
            document_kind(old(documents)@, uri@, path@),
            text@,
        ),
        kept == document_kind(old(documents)@, uri@, path@) is Some,
{
    let kind = detect_document_kind(documents, uri, path);
    let kept = kind.is_some();
    documents.open(uri, kind, text);
    kept
}

/// Keeps the last of the new texts of a document, and says whether there was one.
pub fn did_change(documents: &mut Documents, uri: &str, path: &str, texts: Vec<String>) -> (any:
    bool)
    requires
        old(documents).well_formed(),
    ensures
        final(documents).well_formed(),
        any == (texts@.len() > 0),
        final(documents)@ == (if texts@.len() > 0 {
            changed(
                old(documents)@,
                uri@,
                document_kind(old(documents)@, uri@, path@),
                texts@.last()@,
            )
        } else {
            old(documents)@
        }),
        final(documents)@ == changed_by(
            old(documents)@,
            uri@,
            document_kind(old(documents)@, uri@, path@),
            texts@,
        ),
{
    let mut texts = texts;
    match texts.pop() {
        Some(text) => {
            let kind = detect_document_kind(documents, uri, path);
            documents.change(uri, kind, text);
            true
        },
        None => false,
    }
}

/// Forgets a document that was closed.
pub fn did_close(documents: &mut Documents, uri: &str)
    requires
        old(documents).well_formed(),
    ensures
        final(documents).well_formed(),
        final(documents)@ == old(documents)@.remove(uri@),
{
    documents.close(uri);
}

} // verus!
