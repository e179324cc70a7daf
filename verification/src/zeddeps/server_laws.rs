//! The smaller server shows and offers what the larger one does for the same
//! dependency and the same answer.

use crate::manifest::DependencyVersionView;
use crate::position::{position_offset, Position};
use crate::registry::{body_info, LatestView};
use crate::server_laws::numbers_exceed;
use crate::text::{first_index, lemma_first_index};
use crate::version::{version_text, VersionView};
use crate::zeddeps::laws::is_first_at;
use crate::zeddeps::manifest::{
    manifest_dependencies, manifest_registry, package_page, replacement, Dependency,
    DependencyView, Registry,
};
use crate::zeddeps::registry::{body_version, known_registry, Body, LatestResult};
use crate::zeddeps::server::{
    dependency_under, fix, holds_offset, hover_text, outdated, outdated_diagnostics,
    DiagnosticView,
};
use vstd::prelude::*;

verus! {

/// A dependency as the larger server has it.
pub open spec fn known_dependency(dep: DependencyView) -> crate::manifest::DependencyView {
    crate::manifest::DependencyView {
        name: dep.name,
        section: dep.section,
        registry: known_registry(dep.registry),
        current: dep.current,
        start: dep.start,
        end: dep.end,
        can_edit: dep.can_edit,
        prefix: dep.prefix,
        current_version: match dep.current_version {
            Some(v) => Some(DependencyVersionView::Semver(v)),
            None => None,
        },
        python_specifiers: None,
        is_workspace: false,
    }
}

/// An answer as the larger server has it, without a repository.
pub open spec fn known_answer(latest: Result<Option<VersionView>, Seq<char>>) -> Result<
    LatestView,
    Seq<char>,
> {
    match latest {
        Ok(Some(v)) => Ok(
            LatestView {
                version: Some(DependencyVersionView::Semver(v)),
                repository_url: None,
            },
        ),
        Ok(None) => Ok(LatestView { version: None, repository_url: None }),
        Err(error) => Err(error),
    }
}

/// The registries are the same two.
pub proof fn registries_agree(name: Seq<char>)
    ensures
        known_registry(Registry::Cargo) == crate::manifest::Registry::Cargo,
        known_registry(Registry::Npm) == crate::manifest::Registry::Npm,
        package_page(Registry::Cargo, name) == "https://crates.io/crates/"@ + name,
        package_page(Registry::Npm, name) == "https://www.npmjs.com/package/"@ + name,
{
}

/// What is news for the one is news for the other: larger numbers are, whatever the
/// registry and the operator, and smaller ones are not.
pub proof fn news_agree(dep: DependencyView, latest: VersionView)
    ensures
        outdated(dep, latest) == crate::server::outdated(
            known_dependency(dep),
            DependencyVersionView::Semver(latest),
        ),
        dep.current_version matches Some(current) ==> {
            &&& numbers_exceed(latest, current) ==> outdated(dep, latest)
            &&& numbers_exceed(current, latest) ==> !outdated(dep, latest)
            &&& latest == current ==> !outdated(dep, latest)
        },
        dep.current_version is None ==> !outdated(dep, latest),
{
}

/// A fix of the one is a fix of the other.
pub proof fn fixes_agree(dep: DependencyView, latest: Result<Option<VersionView>, Seq<char>>)
    ensures
        ({
            let other = crate::server::fix(known_dependency(dep), known_answer(latest));
            &&& fix(dep, latest) is Some <==> other is Some
            &&& fix(dep, latest) matches Some(f) ==> (other matches Some(g) && f.title == g.title
                && f.new_text == g.new_text)
        }),
        fix(dep, latest) is Some <==> dep.can_edit && (latest matches Ok(Some(v)) && outdated(
            dep,
            v,
        )),
        fix(dep, latest) matches Some(f) ==> (latest matches Ok(Some(v)) && f.title == "Update "@
            + dep.name + " to "@ + version_text(v) && f.new_text == dep.prefix + version_text(v)),
{
}

/// A hover of the one says what a hover of the other says without a repository.
pub proof fn hovers_agree(dep: DependencyView, latest: Result<Option<VersionView>, Seq<char>>)
    ensures
        hover_text(dep, latest) == crate::server::hover_text(
            known_dependency(dep),
            known_answer(latest),
        ),
{
    reveal_strlit("**\n\n");
    reveal_strlit("[Open in ");
    reveal_strlit("**\n\n[Open in ");
    reveal_strlit(")");
    reveal_strlit("\n\nCurrent: `");
    reveal_strlit(")\n\nCurrent: `");
    let known = known_dependency(dep);
    let head = crate::zeddeps::server::hover_head(dep);
    assert("**\n\n"@ + "[Open in "@ =~= "**\n\n[Open in "@);
    assert(")"@ + "\n\nCurrent: `"@ =~= ")\n\nCurrent: `"@);
    assert(head =~= crate::server::hover_head(known, None));
    match latest {
        Ok(Some(v)) => {
            news_agree(dep, v);
            assert(replacement(dep, v) == crate::manifest::replacement(
                known,
                DependencyVersionView::Semver(v),
            ));
        },
        _ => {},
    }
}

/// A dependency that is looked at last adds one diagnostic if the version that its
/// registry knows is news, at its own place, with its name and that version; else it
/// adds none.
pub proof fn diagnostics_follow_the_news(
    dependencies: Seq<Dependency>,
    latest: Seq<LatestResult>,
    dep: Dependency,
    answer: LatestResult,
)
    ensures
        ({
            let before = outdated_diagnostics(dependencies, latest);
            let after = outdated_diagnostics(dependencies.push(dep), latest.push(answer));
            let is_news = answer matches Ok(Some(v)) && outdated(dep@, v@);
            &&& is_news ==> (answer matches Ok(Some(v)) && after == before.push(
                (DiagnosticView {
                    start: dep.value_span.start as int,
                    end: dep.value_span.end as int,
                    message: dep.name@ + " "@ + version_text(v@) + " is available"@,
                }),
            ))
            &&& !is_news ==> after == before
        }),
        outdated_diagnostics(Seq::empty(), Seq::empty()).len() == 0,
{
    assert(dependencies.push(dep).drop_last() =~= dependencies);
    assert(latest.push(answer).drop_last() =~= latest);
}

/// A position in the span of a dependency, its end included, finds a dependency.
pub proof fn dependency_is_found_at_its_span(
    text: Seq<char>,
    kind: Registry,
    position: Position,
    offset: int,
    k: int,
)
    requires
        position_offset(text, position) == Some(offset),
        0 <= k < manifest_dependencies(text, kind).len(),
        manifest_dependencies(text, kind)[k].start <= offset,
        offset <= manifest_dependencies(text, kind)[k].end,
    ensures
        dependency_under(text, kind, position) matches Some(dep) && exists|i: int|
            0 <= i <= k && #[trigger] is_first_at(
                manifest_dependencies(text, kind),
                i,
                offset,
                dep,
            ),
{
    let dependencies = manifest_dependencies(text, kind);
    let p = holds_offset(dependencies, offset);
    lemma_first_index(p, 0, dependencies.len() as int);
    assert(p(k));
    let i = first_index(p, 0, dependencies.len() as int)->0;
    assert(p(i));
    assert forall|j: int| 0 <= j < i implies !((#[trigger] dependencies[j]).start <= offset
        <= dependencies[j].end) by {
        assert(!p(j));
    }
    assert(is_first_at(dependencies, i, offset, dependencies[i]));
}

/// The end of its path makes a file a manifest, in whatever directory.
pub proof fn path_end_decides(directory: Seq<char>, path: Seq<char>)
    ensures
        manifest_registry(directory + "Cargo.toml"@) == Some(Registry::Cargo),
        manifest_registry(directory + "package.json"@) == Some(Registry::Npm),
        !"Cargo.toml"@.is_suffix_of(path) && !"package.json"@.is_suffix_of(path)
            ==> manifest_registry(path) is None,
{
    reveal_strlit("Cargo.toml");
    reveal_strlit("package.json");
    let a = directory + "Cargo.toml"@;
    let b = directory + "package.json"@;
    assert(a.subrange(a.len() - 10, a.len() as int) =~= "Cargo.toml"@);
    assert(b.subrange(b.len() - 12, b.len() as int) =~= "package.json"@);
    if "Cargo.toml"@.is_suffix_of(b) {
        assert("Cargo.toml"@[9] == b.subrange(b.len() - 10, b.len() as int)[9]);
        assert(b.last() == 'n');
    }
}

/// The version that an answer offers is the one that the larger server finds in the
/// same answer.
pub proof fn answers_agree(body: Body, other: crate::registry::Body)
    requires
        match (body, other) {
            (Body::Crates(b), crate::registry::Body::Crates(c)) => b.versions@ == c.versions@,
            (Body::Npm(b), crate::registry::Body::Npm(c)) => b.dist_tags@ == c.dist_tags@
                && b.versions@ == c.versions@,
            _ => false,
        },
    ensures
        body_info(other).version == (match body_version(body) {
            Some(v) => Some(DependencyVersionView::Semver(v)),
            None => None,
        }),
{
}

} // verus!
