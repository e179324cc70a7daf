//! What the Cargo and npm server shows of a manifest, and what it offers to
//! change.

use crate::documents::{changed, changed_by, opened};
use crate::outside::text_of;
use crate::position::position_offset;
use crate::text::first_index;
use crate::version::{is_newer, version_of, version_text, Version, VersionView};
use crate::zeddeps::manifest::{
    dependency_views, detect_manifest_kind, manifest_dependencies, manifest_registry, package_page,
    parse_manifest, replacement, Dependency, DependencyView, Registry, Span,
};
use crate::zeddeps::registry::{latest_of, LatestResult};
use vstd::prelude::*;
use vstd::string::StringExecFns;

pub use crate::position::{
    checked_range, offset_to_position, position_to_offset, span_to_range, Position, Range,
};

verus! {

/// Whether `latest` is newer than the version that the manifest names.
pub open spec fn outdated(dep: DependencyView, latest: VersionView) -> bool {
    match dep.current_version {
        Some(current) => is_newer(latest, current),
        None => false,
    }
}

/// Whether `latest` is newer than the version that the manifest names.
pub fn is_outdated(dep: &Dependency, latest: &Version) -> (b: bool)
    ensures
        b == outdated(dep@, latest@),
{
    match &dep.current_version {
        Some(current) => latest.newer_than(current),
        None => false,
    }
}

/// The version that is news for a dependency.
pub open spec fn news(
    dep: DependencyView,
    latest: Result<Option<VersionView>, Seq<char>>,
) -> Option<VersionView> {
    match latest {
        Ok(Some(v)) => if outdated(dep, v) {
            Some(v)
        } else {
            None
        },
        _ => None,
    }
}

// ---------------------------------------------------------------------------
// Hovers
// ---------------------------------------------------------------------------

/// What a registry is called.
pub open spec fn registry_label(registry: Registry) -> Seq<char> {
    match registry {
        Registry::Cargo => "crates.io"@,
        Registry::Npm => "npm"@,
    }
}

/// What every hover begins with.
pub open spec fn hover_head(dep: DependencyView) -> Seq<char> {
    "**"@ + dep.name + "**\n\n[Open in "@ + registry_label(dep.registry) + "]("@ + package_page(
        dep.registry,
        dep.name,
    ) + ")\n\nCurrent: `"@ + dep.current + "`\n\n"@
}

/// The hover of a dependency: a link, its version, and the latest stable version
/// with what to write for it, or why there is none.
pub open spec fn hover_text(
    dep: DependencyView,
    latest: Result<Option<VersionView>, Seq<char>>,
) -> Seq<char> {
    let head = hover_head(dep);
    match latest {
        Ok(Some(v)) => {
            let stable = head + "Latest stable: `"@ + version_text(v);
            if outdated(dep, v) {
                stable + "`\n\nReplacement: `"@ + (match replacement(dep, v) {
                    Some(text) => text,
                    None => version_text(v),
                }) + "`"@
            } else {
                stable + "`\n\nAlready up to date."@
            }
        },
        Ok(None) => head + "No stable registry version was found."@,
        Err(error) => head + "Could not check latest version: `"@ + error + "`"@,
    }
}

/// Writes the hover of a dependency.
pub fn hover_markdown(dep: &Dependency, latest: Result<&Option<Version>, &String>) -> (text: String)
    ensures
        text@ == hover_text(
            dep@,
            match latest {
                Ok(version) => Ok(version_of(*version)),
                Err(error) => Err(error@),
            },
        ),
{
    let label = match dep.registry {
        Registry::Cargo => "crates.io",
        Registry::Npm => "npm",
    };
    let page = dep.registry.package_url(dep.name.as_str());
    let mut text = "**".to_string();
    text.append(dep.name.as_str());
    text.append("**\n\n[Open in ");
    text.append(label);
    text.append("](");
    text.append(page.as_str());
    text.append(")\n\nCurrent: `");
    text.append(dep.current.as_str());
    text.append("`\n\n");
    match latest {
        Ok(Some(v)) => {
            let version = v.to_text();
            text.append("Latest stable: `");
            text.append(version.as_str());
            if is_outdated(dep, v) {
                let replacement = match dep.replacement_for(v) {
                    Some(text) => text,
                    None => version,
                };
                text.append("`\n\nReplacement: `");
                text.append(replacement.as_str());
                text.append("`");
            } else {
                text.append("`\n\nAlready up to date.");
            }
        },
        Ok(None) => {
            text.append("No stable registry version was found.");
        },
        Err(error) => {
            text.append("Could not check latest version: `");
            text.append(error.as_str());
            text.append("`");
        },
    }
    text
}

// ---------------------------------------------------------------------------
// Places in a document
// ---------------------------------------------------------------------------

/// Holds of the dependencies whose span holds a byte; its end counts.
pub open spec fn holds_offset(
    dependencies: Seq<DependencyView>,
    offset: int) -> spec_fn(int,
) -> bool {
    |i: int| dependencies[i].start <= offset <= dependencies[i].end
}

/// The first dependency of a manifest whose span holds a position.
pub open spec fn dependency_under(text: Seq<char>, kind: Registry, position: Position) -> Option<
    DependencyView,
> {
    let dependencies = manifest_dependencies(text, kind);
    match position_offset(text, position) {
        Some(offset) => match first_index(
            holds_offset(dependencies, offset),
            0,
            dependencies.len() as int,
        ) {
            Some(i) => Some(dependencies[i]),
            None => None,
        },
        None => None,
    }
}

/// The view of an optional dependency.
pub open spec fn dependency_of(dep: Option<Dependency>) -> Option<DependencyView> {
    match dep {
        Some(d) => Some(d@),
        None => None,
    }
}

/// Finds the dependency at a position of a document.
pub fn dependency_at(document: &Document, position: Position) -> (dep: Option<Dependency>)
    ensures
        dependency_of(dep) == dependency_under(document.text@, document.kind, position),
{
    let offset = match position_to_offset(document.text.as_str(), position) {
        Some(offset) => offset,
        None => {
            return None;
        },
    };
    let mut dependencies = parse_manifest(document.text.as_str(), document.kind);
    let ghost views = dependency_views(dependencies@);
    let ghost p = holds_offset(views, offset as int);
    let n: usize = dependencies.len();
    let mut i: usize = 0;
    while i < n
        invariant
            i <= n == dependencies@.len(),
            views == dependency_views(dependencies@),
            views == manifest_dependencies(document.text@, document.kind),
            p == holds_offset(views, offset as int),
            position_offset(document.text@, position) == Some(offset as int),
            first_index(p, 0, n as int) == first_index(p, i as int, n as int),
        decreases n - i,
    {
        let span = dependencies[i].value_span;
        assert(views[i as int] == dependencies@[i as int]@);
        if span.start <= offset && offset <= span.end {
            assert(p(i as int));
            let dep = dependencies.swap_remove(i);
            return Some(dep);
        }
        assert(!p(i as int));
        i += 1;
    }
    None
}

// ---------------------------------------------------------------------------
// Diagnostics and quick fixes
// ---------------------------------------------------------------------------

/// What is said of an outdated dependency.
pub open spec fn diagnostic_text(dep: DependencyView, latest: VersionView) -> Seq<char> {
    dep.name + " "@ + version_text(latest) + " is available"@
}

/// Says of a dependency that it is outdated, if it is.
pub fn diagnostic_message(dep: &Dependency, latest: &LatestResult) -> (message: Option<String>)
    ensures
        text_of(message) == (match news(dep@, latest_of(*latest)) {
            Some(v) => Some(diagnostic_text(dep@, v)),
            None => None,
        }),
{
    match latest {
        Ok(Some(v)) => if is_outdated(dep, v) {
            let version = v.to_text();
            let mut message = dep.name.clone();
            message.append(" ");
            message.append(version.as_str());
            message.append(" is available");
            Some(message)
        } else {
            None
        },
        _ => None,
    }
}

/// A diagnostic: the span it is for, and what it says.
pub struct Diagnostic {
    pub span: Span,
    pub message: String,
}

/// What a [`Diagnostic`] says.
#[verifier::ext_equal]
pub struct DiagnosticView {
    pub start: int,
    pub end: int,
    pub message: Seq<char>,
}

impl View for Diagnostic {
    type V = DiagnosticView;

    open spec fn view(&self) -> DiagnosticView {
        DiagnosticView {
            start: self.span.start as int,
            end: self.span.end as int,
            message: self.message@,
        }
    }
}

/// The views of diagnostics.
pub open spec fn diagnostic_views(diagnostics: Seq<Diagnostic>) -> Seq<DiagnosticView> {
    Seq::new(diagnostics.len(), |i: int| diagnostics[i]@)
}

/// The diagnostics of dependencies, each with what is known of its package: one
/// for each that is outdated, in their order.
pub open spec fn outdated_diagnostics(
    dependencies: Seq<Dependency>,
    latest: Seq<LatestResult>,
) -> Seq<DiagnosticView>
    decreases dependencies.len(),
{
    if dependencies.len() == 0 {
        Seq::empty()
    } else {
        let before = outdated_diagnostics(dependencies.drop_last(), latest.drop_last());
        let dep = dependencies.last()@;
        match news(dep, latest_of(latest.last())) {
            Some(v) => before.push(
                DiagnosticView {
                    start: dep.start,
                    end: dep.end,
                    message: diagnostic_text(dep, v),
                },
            ),
            None => before,
        }
    }
}

/// The diagnostics of dependencies, each with what is known of its package.
pub fn diagnostics(dependencies: &Vec<Dependency>, latest: &Vec<LatestResult>) -> (diagnostics: Vec<
    Diagnostic,
>)
    requires
        dependencies@.len() == latest@.len(),
    ensures
        diagnostic_views(diagnostics@) == outdated_diagnostics(dependencies@, latest@),
{
    let mut found: Vec<Diagnostic> = Vec::new();
    let mut i: usize = 0;
    assert(diagnostic_views(found@) =~= Seq::<DiagnosticView>::empty());
    while i < dependencies.len()
        invariant
            i <= dependencies@.len() == latest@.len(),
            diagnostic_views(found@) == outdated_diagnostics(
                dependencies@.take(i as int),
                latest@.take(i as int),
            ),
        decreases dependencies@.len() - i,
    {
        let ghost done = diagnostic_views(found@);
        assert(dependencies@.take(i + 1).drop_last() =~= dependencies@.take(i as int));
        assert(latest@.take(i + 1).drop_last() =~= latest@.take(i as int));
        assert(dependencies@.take(i + 1).last() == dependencies@[i as int]);
        assert(latest@.take(i + 1).last() == latest@[i as int]);
        if let Some(message) = diagnostic_message(&dependencies[i], &latest[i]) {
            let diagnostic = Diagnostic { span: dependencies[i].value_span, message };
            let ghost view = diagnostic@;
            found.push(diagnostic);
            assert(diagnostic_views(found@) =~= done.push(view));
        }
        i += 1;
    }
    assert(dependencies@.take(i as int) =~= dependencies@);
    assert(latest@.take(i as int) =~= latest@);
    found
}

/// A quick fix: what it is called, and what it writes in place of the version.
pub struct QuickFix {
    pub title: String,
    pub new_text: String,
}

/// What a [`QuickFix`] says.
#[verifier::ext_equal]
pub struct QuickFixView {
    pub title: Seq<char>,
    pub new_text: Seq<char>,
}

impl View for QuickFix {
    type V = QuickFixView;

    open spec fn view(&self) -> QuickFixView {
        QuickFixView { title: self.title@, new_text: self.new_text@ }
    }
}

/// The quick fix for a dependency: there is one where the dependency is outdated
/// and can be rewritten.
pub open spec fn fix(
    dep: DependencyView,
    latest: Result<Option<VersionView>, Seq<char>>,
) -> Option<QuickFixView> {
    match news(dep, latest) {
        Some(v) => match replacement(dep, v) {
            Some(new_text) => Some(
                QuickFixView {
                    title: "Update "@ + dep.name + " to "@ + version_text(v),
                    new_text,
                },
            ),
            None => None,
        },
        None => None,
    }
}

/// Offers a quick fix for a dependency.
pub fn quick_fix(dep: &Dependency, latest: &LatestResult) -> (offer: Option<QuickFix>)
    ensures
        (match offer {
            Some(f) => Some(f@),
            None => None,
        }) == fix(dep@, latest_of(*latest)),
{
    if !dep.can_edit {
        return None;
    }
    match latest {
        Ok(Some(v)) => {
            if !is_outdated(dep, v) {
                return None;
            }
            match dep.replacement_for(v) {
                Some(new_text) => {
                    let version = v.to_text();
                    let mut title = "Update ".to_string();
                    title.append(dep.name.as_str());
                    title.append(" to ");
                    title.append(version.as_str());
                    Some(QuickFix { title, new_text })
                },
                None => None,
            }
        },
        _ => None,
    }
}

// ---------------------------------------------------------------------------
// Documents
// ---------------------------------------------------------------------------

/// An open manifest.
pub type Document = crate::documents::Document<Registry>;

/// The open manifests, by address.
pub type Documents = crate::documents::Documents<Registry>;

/// Keeps a document that was opened, if it is a manifest, and says whether it
/// is.
pub fn did_open(documents: &mut Documents, uri: &str, path: &str, text: String) -> (kept: bool)
    requires
        old(documents).well_formed(),
    ensures
        final(documents).well_formed(),
        final(documents)@ == opened(old(documents)@, uri@, manifest_registry(path@), text@),
        kept == manifest_registry(path@) is Some,
{
    let kind = detect_manifest_kind(path);
    let kept = kind.is_some();
    documents.open(uri, kind, text);
    kept
}

/// Keeps the last of the new texts of a document, and says whether there was one.
pub fn did_change(documents: &mut Documents, uri: &str, path: &str, texts: Vec<String>) -> (any:
    bool)
    requires
        old(documents).well_formed(),
    ensures
        final(documents).well_formed(),
        any == (texts@.len() > 0),
        final(documents)@ == (if texts@.len() > 0 {
            changed(old(documents)@, uri@, manifest_registry(path@), texts@.last()@)
        } else {
            old(documents)@
        }),
        final(documents)@ == changed_by(
            old(documents)@,
            uri@,
            manifest_registry(path@),
            texts@,
        ),
{
    let mut texts = texts;
    match texts.pop() {
        Some(text) => {
            documents.change(uri, detect_manifest_kind(path), text);
            true
        },
        None => false,
    }
}

/// Forgets a document that was closed.
pub fn did_close(documents: &mut Documents, uri: &str)
    requires
        old(documents).well_formed(),
    ensures
        final(documents).well_formed(),
        final(documents)@ == old(documents)@.remove(uri@),
{
    documents.close(uri);
}

} // verus!
