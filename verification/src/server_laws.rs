//! What holds between a dependency, the answer of its registry, and what the server
//! shows and offers.

use crate::laws::is_first_at;
use crate::manifest::{
    dependency_version_text, manifest_dependencies, package_page, Dependency, DependencyVersionView,
    DependencyView, ManifestKind, Registry,
};
use crate::outside::{is_pep440_text, pep440_admits, pep440_order, semver_suffix_newer};
use crate::position::{position_offset, Position};
use crate::registry::{LatestResult, LatestView};
use crate::server::{
    action, declares, dependency_under, fix, holds_offset, hover_head, hover_text, links,
    nearest_declaration, outdated, outdated_diagnostics, resolved, workspace_declaration, Ancestor,
    DiagnosticView, TargetView,
};
use crate::text::{first_index, lemma_first_index};
use crate::version::{all_admit, specifier_admits, version_text, Pep440View, VersionView};
use vstd::prelude::*;

verus! {

// ---------------------------------------------------------------------------
// Outdated dependencies
// ---------------------------------------------------------------------------

/// The three numbers of `a` come behind those of `b`: the first of them that differs
/// is larger.
pub open spec fn numbers_exceed(a: VersionView, b: VersionView) -> bool {
    ||| a.major > b.major
    ||| a.major == b.major && a.minor > b.minor
    ||| a.major == b.major && a.minor == b.minor && a.patch > b.patch
}

/// The three numbers of two versions are the same.
pub open spec fn numbers_agree(a: VersionView, b: VersionView) -> bool {
    a.major == b.major && a.minor == b.minor && a.patch == b.patch
}

/// A dependency whose version is known is outdated wherever the numbers of the
/// latest version exceed those of its own, whatever its registry, its section and its
/// operator; and where they are exceeded it is not. Versions that are the same are
/// never news.
pub proof fn larger_numbers_are_news(dep: DependencyView, current: VersionView, latest: VersionView)
    requires
        dep.current_version == Some(DependencyVersionView::Semver(current)),
    ensures
        numbers_exceed(latest, current) ==> outdated(dep, DependencyVersionView::Semver(latest)),
        numbers_exceed(current, latest) ==> !outdated(dep, DependencyVersionView::Semver(latest)),
        latest == current ==> !outdated(dep, DependencyVersionView::Semver(latest)),
        numbers_agree(latest, current) && latest != current ==> outdated(
            dep,
            DependencyVersionView::Semver(latest),
        ) == semver_suffix_newer(latest.pre, latest.build, current.pre, current.build),
{
    if latest != current && numbers_agree(latest, current) {
        assert(latest.pre != current.pre || latest.build != current.build);
    }
}

/// A Python dependency is outdated if and only if one of its specifiers keeps the
/// latest version out: it neither pins that version nor admits it.
pub proof fn refused_versions_are_news(
    dep: DependencyView,
    specifiers: Seq<Seq<char>>,
    latest: Pep440View,
)
    requires
        dep.current_version is None,
        dep.python_specifiers == Some(specifiers),
    ensures
        outdated(dep, DependencyVersionView::Pep440(latest)) <==> exists|i: int|
            0 <= i < specifiers.len() && !pep440_admits(#[trigger] specifiers[i], latest.text)
                && !(is_pep440_text(latest.text) && specifiers[i] == "=="@ + latest.text),
{
    if exists|i: int|
        0 <= i < specifiers.len() && !pep440_admits(#[trigger] specifiers[i], latest.text) && !(
        is_pep440_text(latest.text) && specifiers[i] == "=="@ + latest.text) {
        let i = choose|i: int|
            0 <= i < specifiers.len() && !pep440_admits(#[trigger] specifiers[i], latest.text) && !(
            is_pep440_text(latest.text) && specifiers[i] == "=="@ + latest.text);
        assert(!specifier_admits(specifiers[i], latest.text));
    } else {
        assert forall|i: int| 0 <= i < specifiers.len() implies #[trigger] specifier_admits(
            specifiers[i],
            latest.text,
        ) by {}
        assert(all_admit(specifiers, latest.text));
    }
}

/// A dependency on a known Python version is outdated where the latest version
/// takes precedence; without a version and specifiers, or against a version of
/// another kind, it never is.
pub proof fn unknown_versions_are_no_news(dep: DependencyView, latest: DependencyVersionView)
    ensures
        dep.current_version is None && dep.python_specifiers is None ==> !outdated(dep, latest),
        dep.current_version is None && latest is Semver ==> !outdated(dep, latest),
        dep.current_version matches Some(DependencyVersionView::Semver(v)) ==> latest is Pep440
            ==> !outdated(dep, latest),
        dep.current_version matches Some(DependencyVersionView::Pep440(v)) ==> latest is Semver
            ==> !outdated(dep, latest),
        dep.current_version matches Some(DependencyVersionView::Pep440(v)) ==> (
        latest matches DependencyVersionView::Pep440(w) ==> outdated(dep, latest) == pep440_order(
            w.text,
            v.text,
        )),
{
}

// ---------------------------------------------------------------------------
// Hovers, fixes and diagnostics
// ---------------------------------------------------------------------------

/// What a hover ends with says whether there is news. It says that the dependency is
/// up to date if and only if a version is known and is no news; it offers a
/// replacement if and only if the version is news; and where a fix is offered, the
/// replacement is what the fix writes.
#[verifier::rlimit(40)]
pub proof fn hover_agrees_with_the_fix(dep: DependencyView, latest: Result<LatestView, Seq<char>>)
    ensures
        "Already up to date."@.is_suffix_of(hover_text(dep, latest)) <==> (
        latest matches Ok(info) && (info.version matches Some(v) && !outdated(dep, v))),
        latest matches Ok(info) ==> (info.version matches Some(v) ==> outdated(dep, v) ==> (
        fix(dep, latest) matches Some(f) ==> ("\n\nReplacement: `"@ + f.new_text
            + "`"@).is_suffix_of(hover_text(dep, latest)))),
        latest matches Ok(info) ==> (info.version matches Some(v) ==> outdated(dep, v) ==> fix(
            dep,
            latest,
        ) is None ==> ("\n\nReplacement: `"@ + dependency_version_text(v) + "`"@).is_suffix_of(
            hover_text(dep, latest),
        )),
        fix(dep, latest) matches Some(f) ==> ("\n\nReplacement: `"@ + f.new_text
            + "`"@).is_suffix_of(hover_text(dep, latest)),
        latest matches Ok(info) ==> (info.version is None
            ==> "No stable registry version was found."@.is_suffix_of(hover_text(dep, latest))),
        latest matches Err(error) ==> ("Could not check latest version: `"@ + error
            + "`"@).is_suffix_of(hover_text(dep, latest)),
{
    reveal_strlit("Already up to date.");
    reveal_strlit("No stable registry version was found.");
    reveal_strlit("`");
    let text = hover_text(dep, latest);
    let up_to_date = "Already up to date."@;
    match latest {
        Ok(info) => match info.version {
            Some(v) => {
                if outdated(dep, v) {
                    reveal_strlit("`\n\nReplacement: `");
                    reveal_strlit("\n\nReplacement: `");
                    let shown = match fix(dep, latest) {
                        Some(f) => f.new_text,
                        None => dependency_version_text(v),
                    };
                    assert(text.last() == '`');
                    assert(("\n\nReplacement: `"@ + shown + "`"@).is_suffix_of(text)) by {
                        let end = "\n\nReplacement: `"@ + shown + "`"@;
                        assert(end =~= text.subrange(text.len() - end.len(), text.len() as int));
                    }
                    if up_to_date.is_suffix_of(text) {
                        assert(up_to_date.last() == text.last());
                    }
                } else {
                    reveal_strlit("`\n\nAlready up to date.");
                    assert(up_to_date =~= text.subrange(
                        text.len() - up_to_date.len(),
                        text.len() as int,
                    ));
                }
            },
            None => {
                let end = "No stable registry version was found."@;
                assert(end =~= text.subrange(text.len() - end.len(), text.len() as int));
                if up_to_date.is_suffix_of(text) {
                    assert(up_to_date[17] == text.subrange(
                        text.len() - up_to_date.len(),
                        text.len() as int,
                    )[17]);
                    assert(text[text.len() - 2] == 'd');
                }
            },
        },
        Err(error) => {
            assert(text.last() == '`');
            if up_to_date.is_suffix_of(text) {
                assert(up_to_date.last() == text.last());
            }
            let end = "Could not check latest version: `"@ + error + "`"@;
            assert(end =~= text.subrange(text.len() - end.len(), text.len() as int));
        },
    }
}

/// A hover begins with the name of the dependency and the page of its package on its
/// registry, then a link to the repository where it is another page, then the version
/// as the manifest has it, then the latest stable version if there is one.
pub proof fn hover_begins_with_the_dependency(
    dep: DependencyView,
    latest: Result<LatestView, Seq<char>>,
)
    ensures
        ({
            let (label, page) = match dep.registry {
                Registry::Cargo => ("crates.io"@, "https://crates.io/crates/"@ + dep.name),
                Registry::Npm => ("npm"@, "https://www.npmjs.com/package/"@ + dep.name),
                Registry::Pypi => ("PyPI"@, "https://pypi.org/project/"@ + dep.name + "/"@),
            };
            let link = "[Open in "@ + label + "]("@ + page + ")"@;
            let begin = "**"@ + dep.name + "**\n\n"@ + link;
            let current = "\n\nCurrent: `"@ + dep.current + "`\n\n"@;
            let text = hover_text(dep, latest);
            &&& latest is Err ==> (begin + current).is_prefix_of(text)
            &&& latest matches Ok(info) ==> {
                let stable = match info.version {
                    Some(v) => "Latest stable: `"@ + dependency_version_text(v),
                    None => Seq::empty(),
                };
                &&& info.repository_url is None ==> (begin + current + stable).is_prefix_of(text)
                &&& info.repository_url == Some(page) ==> (begin + current + stable).is_prefix_of(
                    text,
                )
                &&& info.repository_url matches Some(url) ==> url != page ==> (begin
                    + " | [Open repository]("@ + url + ")"@ + current + stable).is_prefix_of(text)
            }
        }),
{
    let text = hover_text(dep, latest);
    match latest {
        Err(error) => {
            let head = hover_head(dep, None);
            assert(head =~= text.take(head.len() as int));
            lemma_head(dep, None);
        },
        Ok(info) => {
            let head = hover_head(dep, info.repository_url);
            let stable = match info.version {
                Some(v) => "Latest stable: `"@ + dependency_version_text(v),
                None => Seq::empty(),
            };
            assert(head + stable =~= text.take((head + stable).len() as int));
            lemma_head(dep, info.repository_url);
        },
    }
}

/// The beginning of a hover, part by part.
proof fn lemma_head(dep: DependencyView, repository_url: Option<Seq<char>>)
    ensures
        hover_head(dep, repository_url) == "**"@ + dep.name + "**\n\n"@ + links(
            dep,
            repository_url,
        ) + ("\n\nCurrent: `"@ + dep.current + "`\n\n"@),
        ({
            let head = "**"@ + dep.name + "**\n\n"@;
            repository_url matches Some(url) ==> url != package_page(dep.registry, dep.name)
                ==> head + links(dep, repository_url) == head + links(dep, None)
                + " | [Open repository]("@ + url + ")"@
        }),
{
    assert(hover_head(dep, repository_url) =~= "**"@ + dep.name + "**\n\n"@ + links(
        dep,
        repository_url,
    ) + ("\n\nCurrent: `"@ + dep.current + "`\n\n"@));
    let head = "**"@ + dep.name + "**\n\n"@;
    if let Some(url) = repository_url {
        if url != package_page(dep.registry, dep.name) {
            assert(head + links(dep, repository_url) =~= head + links(dep, None)
                + " | [Open repository]("@ + url + ")"@);
        }
    }
}

/// A fix is offered if and only if the dependency can be rewritten and the version
/// that the registry knows is news and of the registry's kind. It is called after the
/// package and that version, and writes that version: behind the operator of a
/// dependency on a Cargo or npm package, and pinned for a Python package.
pub proof fn fix_is_offered_for_news(dep: DependencyView, latest: Result<LatestView, Seq<char>>)
    ensures
        fix(dep, latest) is Some <==> (dep.can_edit && (latest matches Ok(info) && (
        info.version matches Some(v) && outdated(dep, v) && (v is Pep440 <==> dep.registry
            == Registry::Pypi)))),
        latest matches Ok(info) ==> (info.version matches Some(DependencyVersionView::Semver(v))
            ==> (fix(dep, latest) matches Some(f) ==> f.new_text == dep.prefix + version_text(v)
            && f.title == "Update "@ + dep.name + " to "@ + version_text(v))),
        latest matches Ok(info) ==> (info.version matches Some(DependencyVersionView::Pep440(v))
            ==> (fix(dep, latest) matches Some(f) ==> f.new_text == "=="@ + v.text && f.title
            == "Update "@ + dep.name + " to "@ + v.text)),
{
}

/// A dependency that is looked at last adds one diagnostic if the version that its
/// registry knows is news, at its own place, with its name and that version; else it
/// adds none.
pub proof fn diagnostics_follow_the_news(
    dependencies: Seq<Dependency>,
    latest: Seq<LatestResult>,
    dep: Dependency,
    answer: LatestResult,
)
    ensures
        ({
            let before = outdated_diagnostics(dependencies, latest);
            let after = outdated_diagnostics(dependencies.push(dep), latest.push(answer));
            let is_news = answer matches Ok(info) && (info@.version matches Some(v) && outdated(
                dep@,
                v,
            ));
            &&& is_news ==> (answer matches Ok(info) && (info@.version matches Some(v) && after
                == before.push(
                (DiagnosticView {
                    start: dep.value_span.start as int,
                    end: dep.value_span.end as int,
                    message: dep.name@ + " "@ + dependency_version_text(v) + " is available"@,
                }),
            )))
            &&& !is_news ==> after == before
        }),
        outdated_diagnostics(Seq::empty(), Seq::empty()).len() == 0,
{
    assert(dependencies.push(dep).drop_last() =~= dependencies);
    assert(latest.push(answer).drop_last() =~= latest);
}

/// A code action is offered if and only if a fix is; it is that fix, and writes where
/// the workspace says, or else at the place of the dependency in its document.
pub proof fn action_is_the_fix(
    uri: Seq<char>,
    text: Seq<char>,
    dep: DependencyView,
    target: Option<TargetView>,
    latest: Result<LatestView, Seq<char>>,
)
    ensures
        action(uri, text, dep, target, latest) is Some <==> fix(dep, latest) is Some,
        action(uri, text, dep, target, latest) matches Some(a) ==> {
            &&& fix(dep, latest) == Some(a.fix)
            &&& target matches Some(t) ==> a.target == t
            &&& target is None ==> a.target.uri == uri && a.target.text == text && a.target.start
                == dep.start && a.target.end == dep.end
        },
{
}

/// A position in the span of a dependency, its end included, finds a dependency.
pub proof fn dependency_is_found_at_its_span(
    text: Seq<char>,
    kind: ManifestKind,
    position: Position,
    offset: int,
    k: int,
)
    requires
        position_offset(text, position) == Some(offset),
        0 <= k < manifest_dependencies(text, kind).len(),
        manifest_dependencies(text, kind)[k].start <= offset,
        offset <= manifest_dependencies(text, kind)[k].end,
    ensures
        dependency_under(text, kind, position) matches Some(dep) && exists|i: int|
            0 <= i <= k && #[trigger] is_first_at(
                manifest_dependencies(text, kind),
                i,
                offset,
                dep,
            ),
{
    let dependencies = manifest_dependencies(text, kind);
    let p = holds_offset(dependencies, offset);
    lemma_first_index(p, 0, dependencies.len() as int);
    assert(p(k));
    let i = first_index(p, 0, dependencies.len() as int)->0;
    assert(p(i));
    assert forall|j: int| 0 <= j < i implies !((#[trigger] dependencies[j]).start <= offset
        <= dependencies[j].end) by {
        assert(!p(j));
    }
    assert(is_first_at(dependencies, i, offset, dependencies[i]));
}

// ---------------------------------------------------------------------------
// Workspaces
// ---------------------------------------------------------------------------

/// The dependency at `k` of a Cargo manifest declares a package for the workspace.
pub open spec fn declares_at(text: Seq<char>, k: int, name: Seq<char>) -> bool {
    let dependencies = manifest_dependencies(text, ManifestKind::Cargo);
    &&& 0 <= k < dependencies.len()
    &&& dependencies[k].name == name
    &&& dependencies[k].section == "workspace.dependencies"@
}

/// Of the manifests above, that at `i` is the first with a declaration of a package,
/// and `k` is the first of its declarations.
pub open spec fn is_nearest(ancestors: Seq<Ancestor>, i: int, k: int, name: Seq<char>) -> bool {
    &&& 0 <= i < ancestors.len()
    &&& declares_at(ancestors[i].text@, k, name)
    &&& forall|m: int| 0 <= m < k ==> !#[trigger] declares_at(ancestors[i].text@, m, name)
    &&& forall|j: int, m: int|
        0 <= j < i ==> !#[trigger] declares_at(ancestors[j].text@, m, name)
}

/// A manifest's declaration of a package is its first.
proof fn lemma_declaration(text: Seq<char>, name: Seq<char>)
    ensures
        workspace_declaration(text, name) is None ==> forall|m: int| !#[trigger]
            declares_at(text, m, name),
        forall|k: int|
            (#[trigger] declares_at(text, k, name) && forall|m: int|
                0 <= m < k ==> !#[trigger] declares_at(text, m, name)) ==> workspace_declaration(
                text,
                name,
            ) == Some(manifest_dependencies(text, ManifestKind::Cargo)[k]),
        (forall|m: int| !#[trigger] declares_at(text, m, name)) ==> workspace_declaration(
            text,
            name,
        ) is None,
{
    let dependencies = manifest_dependencies(text, ManifestKind::Cargo);
    let p = declares(dependencies, name);
    let n = dependencies.len() as int;
    lemma_first_index(p, 0, n);
    assert forall|m: int| #[trigger] declares_at(text, m, name) implies 0 <= m < n && p(m) by {}
    assert forall|m: int| 0 <= m < n && #[trigger] p(m) implies declares_at(text, m, name) by {}
    if let Some(i) = first_index(p, 0, n) {
        assert(p(i));
        assert forall|k: int|
            (#[trigger] declares_at(text, k, name) && forall|m: int|
                0 <= m < k ==> !#[trigger] declares_at(text, m, name)) implies i == k by {
            if i < k {
                assert(!declares_at(text, i, name));
            }
        }
    }
}

/// The nearest declaration is found.
proof fn lemma_nearest_found(
    ancestors: Seq<Ancestor>,
    i: int,
    k: int,
    name: Seq<char>,
    from: int,
)
    requires
        is_nearest(ancestors, i, k, name),
        0 <= from <= i,
    ensures
        nearest_declaration(ancestors, name, from) == Some(
            (i, manifest_dependencies(ancestors[i].text@, ManifestKind::Cargo)[k]),
        ),
    decreases i - from,
{
    lemma_declaration(ancestors[from].text@, name);
    if from < i {
        assert forall|m: int| !#[trigger] declares_at(ancestors[from].text@, m, name) by {}
        lemma_nearest_found(ancestors, i, k, name, from + 1);
    }
}

/// Without a declaration there is none that is nearest.
proof fn lemma_none_nearest(ancestors: Seq<Ancestor>, name: Seq<char>, from: int)
    requires
        0 <= from,
        forall|j: int, m: int|
            0 <= j < ancestors.len() ==> !#[trigger] declares_at(ancestors[j].text@, m, name),
    ensures
        nearest_declaration(ancestors, name, from) is None,
    decreases ancestors.len() - from,
{
    if from < ancestors.len() {
        lemma_declaration(ancestors[from].text@, name);
        lemma_none_nearest(ancestors, name, from + 1);
    }
}

/// A dependency that refers to the workspace takes its version from the nearest
/// manifest above that declares the package for the workspace, and there from the
/// first declaration, in whatever section the dependency stands. A fix of it writes at
/// the place of that declaration, if it can be rewritten and its manifest has an
/// address.
pub proof fn workspace_declaration_is_taken(
    dep: DependencyView,
    ancestors: Seq<Ancestor>,
    i: int,
    k: int,
)
    requires
        dep.is_workspace,
        is_nearest(ancestors, i, k, dep.name),
    ensures
        ({
            let declared = manifest_dependencies(ancestors[i].text@, ManifestKind::Cargo)[k];
            let (after, target) = resolved(dep, ancestors);
            &&& after.current == declared.current
            &&& after.current_version == declared.current_version
            &&& after.prefix == declared.prefix
            &&& after.can_edit == declared.can_edit
            &&& after.name == dep.name
            &&& after.section == dep.section
            &&& after.registry == dep.registry
            &&& after.start == dep.start
            &&& after.end == dep.end
            &&& after.python_specifiers == dep.python_specifiers
            &&& after.is_workspace
            &&& target is Some <==> declared.can_edit && ancestors[i].uri is Some
            &&& target matches Some(t) ==> {
                &&& ancestors[i].uri matches Some(uri) && t.uri == uri@
                &&& t.text == ancestors[i].text@
                &&& t.start == declared.start
                &&& t.end == declared.end
            }
        }),
{
    lemma_nearest_found(ancestors, i, k, dep.name, 0);
}

/// A dependency that refers to the workspace stays as it is where no manifest above
/// declares the package, and so does every dependency that does not refer to it.
pub proof fn undeclared_dependency_stays(dep: DependencyView, ancestors: Seq<Ancestor>)
    requires
        !dep.is_workspace || forall|j: int, m: int|
            0 <= j < ancestors.len() ==> !#[trigger] declares_at(
                ancestors[j].text@,
                m,
                dep.name,
            ),
    ensures
        resolved(dep, ancestors) == (dep, None::<TargetView>),
{
    if dep.is_workspace {
        lemma_none_nearest(ancestors, dep.name, 0);
    }
}

} // verus!
