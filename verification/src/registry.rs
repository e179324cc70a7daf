//! What the registries answer, and what is kept of it.

use crate::cache::{kept_after, latest_step, Cache, CacheEntry, KeptView, LatestStep, Lookup};
use crate::fetch::{
    body_failed, body_failure, head_of, package_address, read_head, request_failed, request_failure,
    request_url, Head, HeadView,
};
use crate::manifest::{
    dependency_version_of, Dependency, DependencyVersion, DependencyVersionView, Registry,
};
use crate::newest::{
    are_releases, candidate_views, is_newest_python, is_release, lemma_newest, newest, newest_of,
    newest_python, newest_python_of, python_candidate_views, read_stable_python_version,
    read_stable_version, stable_python_version, stable_version,
};
use crate::outside::text_of;
use crate::text::{chars_of, same_text, starts_with, string_of, trim, trimmed};
use crate::version::{
    is_newer, pep440_of, version_of, Pep440Version, Pep440View, Version, VersionView,
};
use vstd::prelude::*;
use vstd::slice::slice_subrange;
use vstd::string::StringExecFns;

pub use crate::cache::{FetchOutcome, FetchRequest, Latest};
pub use crate::version::is_stable;

verus! {

/// A repository address in a form that a browser opens.
pub open spec fn browsable_url(url: Seq<char>) -> Seq<char> {
    let clean = trimmed(url);
    if "git+"@.is_prefix_of(clean) {
        clean.skip("git+"@.len() as int)
    } else if "git://"@.is_prefix_of(clean) {
        "https://"@ + clean.skip("git://"@.len() as int)
    } else if "github:"@.is_prefix_of(clean) {
        "https://github.com/"@ + clean.skip("github:"@.len() as int)
    } else if "gitlab:"@.is_prefix_of(clean) {
        "https://gitlab.com/"@ + clean.skip("gitlab:"@.len() as int)
    } else {
        clean
    }
}

/// What follows `prefix` in `s`, behind `instead`.
fn replace_prefix(s: &[char], prefix: &str, instead: &str) -> (text: String)
    requires
        prefix@.is_prefix_of(s@),
    ensures
        text@ == instead@ + s@.skip(prefix@.len() as int),
{
    let n: usize = chars_of(prefix).len();
    let rest = slice_subrange(s, n, s.len());
    assert(rest@ =~= s@.skip(n as int));
    let rest = string_of(rest);
    let mut text = instead.to_string();
    text.append(rest.as_str());
    text
}

/// Turns a repository address of an npm package into one that a browser opens.
pub fn clean_npm_repo_url(url: &str) -> (clean: Option<String>)
    ensures
        clean matches Some(text) && text@ == browsable_url(url@),
{
    let chars = chars_of(url);
    let url = trim(chars.as_slice());
    if starts_with(url, "git+") {
        let text = replace_prefix(url, "git+", "");
        proof {
            reveal_strlit("");
        }
        assert(text@ =~= url@.skip("git+"@.len() as int));
        Some(text)
    } else if starts_with(url, "git://") {
        Some(replace_prefix(url, "git://", "https://"))
    } else if starts_with(url, "github:") {
        Some(replace_prefix(url, "github:", "https://github.com/"))
    } else if starts_with(url, "gitlab:") {
        Some(replace_prefix(url, "gitlab:", "https://gitlab.com/"))
    } else {
        Some(string_of(url))
    }
}

// ---------------------------------------------------------------------------
// crates.io
// ---------------------------------------------------------------------------

/// The answer of crates.io.
pub struct CratesResponse {
    pub crate_info: CrateInfo,
    pub versions: Vec<CrateVersion>,
}

/// What crates.io says of a crate.
pub struct CrateInfo {
    pub repository: Option<String>,
}

/// What crates.io says of a version.
pub struct CrateVersion {
    pub num: String,
    pub yanked: bool,
}

/// The version that can be offered, if this one can: stable and not yanked.
pub open spec fn crate_candidate(version: CrateVersion) -> Option<VersionView> {
    if version.yanked {
        None
    } else {
        stable_version(version.num@)
    }
}

/// The versions that can be offered.
pub open spec fn crate_candidates(versions: Seq<CrateVersion>) -> Seq<Option<VersionView>> {
    Seq::new(versions.len(), |i: int| crate_candidate(versions[i]))
}

/// `best` is one of the candidates, and none of them is newer; without one there
/// is no candidate.
pub open spec fn is_best(candidates: Seq<Option<VersionView>>, best: Option<VersionView>) -> bool {
    match best {
        Some(b) => candidates.contains(Some(b)) && forall|i: int|
            0 <= i < candidates.len() ==> ((#[trigger] candidates[i]) matches Some(v) ==> !is_newer(
                v,
                b,
            )),
        None => forall|i: int| 0 <= i < candidates.len() ==> (#[trigger] candidates[i]) is None,
    }
}

/// Finds the newest version that is stable and not yanked.
pub fn newest_stable_crate_version(versions: &Vec<CrateVersion>) -> (best: Option<Version>)
    ensures
        version_of(best) == newest(crate_candidates(versions@)),
        is_best(crate_candidates(versions@), version_of(best)),
        best matches Some(v) ==> is_release(v@),
{
    let mut candidates: Vec<Option<Version>> = Vec::new();
    let mut i: usize = 0;
    while i < versions.len()
        invariant
            i == candidates@.len() <= versions@.len(),
            forall|k: int|
                0 <= k < i ==> version_of(#[trigger] candidates@[k]) == crate_candidate(
                    versions@[k],
                ),
            are_releases(candidate_views(candidates@)),
        decreases versions@.len() - i,
    {
        let ghost before = candidate_views(candidates@);
        let candidate = if versions[i].yanked {
            None
        } else {
            read_stable_version(versions[i].num.as_str())
        };
        candidates.push(candidate);
        proof {
            let after = candidate_views(candidates@);
            assert forall|k: int| 0 <= k < after.len() implies ((#[trigger] after[k]) matches Some(
                v,
            ) ==> is_release(v)) by {
                if k < i {
                    assert(after[k] == before[k]);
                }
            }
        }
        i += 1;
    }
    assert(candidate_views(candidates@) =~= crate_candidates(versions@));
    proof {
        lemma_newest(candidate_views(candidates@));
    }
    newest_of(&candidates)
}

// ---------------------------------------------------------------------------
// npm
// ---------------------------------------------------------------------------

/// The answer of the npm registry.
pub struct NpmResponse {
    pub dist_tags: Vec<(String, String)>,
    pub versions: Vec<String>,
    pub repository: Option<NpmRepository>,
}

/// Where the npm registry says that a package is developed.
pub struct NpmRepository {
    pub url: Option<String>,
}

/// The first value of `key`.
pub open spec fn value_under(pairs: Seq<(String, String)>, key: Seq<char>) -> Option<Seq<char>>
    decreases pairs.len(),
{
    if pairs.len() == 0 {
        None
    } else if pairs[0].0@ == key {
        Some(pairs[0].1@)
    } else {
        value_under(pairs.skip(1), key)
    }
}

/// Finds the first value of `key`.
fn find_value<'a>(pairs: &'a Vec<(String, String)>, key: &str) -> (value: Option<&'a String>)
    ensures
        (match value {
            Some(v) => Some(v@),
            None => None,
        }) == value_under(pairs@, key@),
{
    let mut i: usize = 0;
    assert(pairs@.skip(0) =~= pairs@);
    while i < pairs.len()
        invariant
            i <= pairs@.len(),
            value_under(pairs@, key@) == value_under(pairs@.skip(i as int), key@),
        decreases pairs@.len() - i,
    {
        assert(pairs@.skip(i as int)[0] == pairs@[i as int]);
        assert(pairs@.skip(i as int).skip(1) =~= pairs@.skip(i + 1));
        if same_text(pairs[i].0.as_str(), key) {
            return Some(&pairs[i].1);
        }
        i += 1;
    }
    None
}

/// The versions that can be offered.
pub open spec fn npm_candidates(versions: Seq<String>) -> Seq<Option<VersionView>> {
    Seq::new(versions.len(), |i: int| stable_version(versions[i]@))
}

/// The stable version that is tagged as the latest.
pub open spec fn npm_tagged(dist_tags: Seq<(String, String)>) -> Option<VersionView> {
    match value_under(dist_tags, "latest"@) {
        Some(text) => stable_version(text),
        None => None,
    }
}

/// The version to offer: the one tagged as the latest if it is stable, else the
/// newest that is.
pub open spec fn npm_latest(dist_tags: Seq<(String, String)>, versions: Seq<String>) -> Option<
    VersionView,
> {
    match npm_tagged(dist_tags) {
        Some(v) => Some(v),
        None => newest(npm_candidates(versions)),
    }
}

/// Finds the version to offer among tags and versions.
pub fn newest_npm_version(dist_tags: &Vec<(String, String)>, versions: &Vec<String>) -> (best:
    Option<Version>)
    ensures
        version_of(best) == npm_latest(dist_tags@, versions@),
        npm_tagged(dist_tags@) matches Some(v) ==> version_of(best) == Some(v),
        npm_tagged(dist_tags@) is None ==> is_best(npm_candidates(versions@), version_of(best)),
        best matches Some(v) ==> is_release(v@),
{
    if let Some(text) = find_value(dist_tags, "latest") {
        if let Some(v) = read_stable_version(text.as_str()) {
            return Some(v);
        }
    }
    let mut candidates: Vec<Option<Version>> = Vec::new();
    let mut i: usize = 0;
    while i < versions.len()
        invariant
            i == candidates@.len() <= versions@.len(),
            forall|k: int|
                0 <= k < i ==> version_of(#[trigger] candidates@[k]) == stable_version(
                    versions@[k]@,
                ),
            are_releases(candidate_views(candidates@)),
        decreases versions@.len() - i,
    {
        let ghost before = candidate_views(candidates@);
        candidates.push(read_stable_version(versions[i].as_str()));
        proof {
            let after = candidate_views(candidates@);
            assert forall|k: int| 0 <= k < after.len() implies ((#[trigger] after[k]) matches Some(
                v,
            ) ==> is_release(v)) by {
                if k < i {
                    assert(after[k] == before[k]);
                }
            }
        }
        i += 1;
    }
    assert(candidate_views(candidates@) =~= npm_candidates(versions@));
    proof {
        lemma_newest(candidate_views(candidates@));
    }
    newest_of(&candidates)
}

/// Finds the version of an npm package to offer.
pub fn newest_stable_npm_version(body: &NpmResponse) -> (best: Option<Version>)
    ensures
        version_of(best) == npm_latest(body.dist_tags@, body.versions@),
        npm_tagged(body.dist_tags@) matches Some(v) ==> version_of(best) == Some(v),
        npm_tagged(body.dist_tags@) is None ==> is_best(
            npm_candidates(body.versions@),
            version_of(best),
        ),
        best matches Some(v) ==> is_release(v@),
{
    newest_npm_version(&body.dist_tags, &body.versions)
}

// ---------------------------------------------------------------------------
// PyPI
// ---------------------------------------------------------------------------

/// The answer of PyPI.
pub struct PypiResponse {
    pub info: PypiInfo,
    pub releases: Vec<(String, Vec<PypiReleaseFile>)>,
}

/// What PyPI says of a project.
pub struct PypiInfo {
    pub home_page: Option<String>,
    pub project_urls: Option<Vec<(String, String)>>,
}

/// What PyPI says of a file of a release.
pub struct PypiReleaseFile {
    pub yanked: bool,
}

/// A release of which something can be had: it has no files, or one that is not
/// yanked.
pub open spec fn is_available(files: Seq<PypiReleaseFile>) -> bool {
    files.len() == 0 || exists|i: int| 0 <= i < files.len() && !(#[trigger] files[i]).yanked
}

/// The version that can be offered, if this one can: stable and not yanked.
pub open spec fn pypi_candidate(release: (String, Vec<PypiReleaseFile>)) -> Option<Pep440View> {
    if is_available(release.1@) {
        stable_python_version(release.0@)
    } else {
        None
    }
}

/// The versions that can be offered.
pub open spec fn pypi_candidates(releases: Seq<(String, Vec<PypiReleaseFile>)>) -> Seq<
    Option<Pep440View>,
> {
    Seq::new(releases.len(), |i: int| pypi_candidate(releases[i]))
}

/// Whether something of a release can be had.
fn release_is_available(files: &Vec<PypiReleaseFile>) -> (b: bool)
    ensures
        b == is_available(files@),
{
    let mut i: usize = 0;
    while i < files.len()
        invariant
            i <= files@.len(),
            forall|k: int| 0 <= k < i ==> (#[trigger] files@[k]).yanked,
        decreases files@.len() - i,
    {
        if !files[i].yanked {
            return true;
        }
        i += 1;
    }
    files.len() == 0
}

/// Finds the newest Python version that is stable and not yanked. No other
/// candidate is newer.
pub fn newest_stable_pypi_version(body: &PypiResponse) -> (best: Option<Pep440Version>)
    ensures
        pep440_of(best) == newest_python(pypi_candidates(body.releases@)),
        best matches Some(b) ==> b@.well_formed() && exists|at: int| #[trigger]
            is_newest_python(pypi_candidates(body.releases@), at, b@),
        best is None ==> forall|i: int|
            0 <= i < body.releases@.len() ==> pypi_candidate(#[trigger] body.releases@[i]) is None,
{
    let releases = &body.releases;
    let mut candidates: Vec<Option<Pep440Version>> = Vec::new();
    let mut i: usize = 0;
    while i < releases.len()
        invariant
            i == candidates@.len() <= releases@.len(),
            forall|k: int|
                0 <= k < i ==> pep440_of(#[trigger] candidates@[k]) == pypi_candidate(releases@[k]),
            forall|k: int|
                0 <= k < i ==> ((#[trigger] candidates@[k]) matches Some(v) ==> v@.well_formed()),
        decreases releases@.len() - i,
    {
        let candidate = if release_is_available(&releases[i].1) {
            read_stable_python_version(releases[i].0.as_str())
        } else {
            None
        };
        candidates.push(candidate);
        i += 1;
    }
    assert(python_candidate_views(candidates@) =~= pypi_candidates(releases@));
    let best = newest_python_of(&candidates);
    proof {
        if best is None {
            assert forall|k: int| 0 <= k < releases@.len() implies pypi_candidate(
                #[trigger] releases@[k],
            ) is None by {
                assert(candidates@[k] is None);
            }
        }
    }
    best
}

/// The address under `key`, unless it is empty.
pub open spec fn url_under(urls: Seq<(String, String)>, key: Seq<char>) -> Option<Seq<char>> {
    match value_under(urls, key) {
        Some(url) => if url.len() > 0 {
            Some(url)
        } else {
            None
        },
        None => None,
    }
}

/// The address of a project's repository among its addresses.
pub open spec fn project_url(urls: Seq<(String, String)>) -> Option<Seq<char>> {
    match url_under(urls, "Source"@) {
        Some(url) => Some(url),
        None => match url_under(urls, "Repository"@) {
            Some(url) => Some(url),
            None => match url_under(urls, "Source Code"@) {
                Some(url) => Some(url),
                None => match url_under(urls, "Code"@) {
                    Some(url) => Some(url),
                    None => match url_under(urls, "Homepage"@) {
                        Some(url) => Some(url),
                        None => url_under(urls, "Home"@),
                    },
                },
            },
        },
    }
}

/// A text, unless it is empty.
pub open spec fn filled(text: Option<Seq<char>>) -> Option<Seq<char>> {
    match text {
        Some(t) => if t.len() > 0 {
            Some(t)
        } else {
            None
        },
        None => None,
    }
}

/// The address of a project's repository; failing that, its home page.
pub open spec fn pypi_repository(info: PypiInfo) -> Option<Seq<char>> {
    let listed = match info.project_urls {
        Some(urls) => project_url(urls@),
        None => None,
    };
    match listed {
        Some(url) => Some(url),
        None => filled(text_of(info.home_page)),
    }
}

/// Finds the address under `key`.
fn find_url(urls: &Vec<(String, String)>, key: &str) -> (url: Option<String>)
    ensures
        text_of(url) == url_under(urls@, key@),
{
    match find_value(urls, key) {
        Some(url) => if url.as_str().is_empty() {
            None
        } else {
            Some(url.clone())
        },
        None => None,
    }
}

/// Finds the address of a project's repository among its addresses.
fn find_project_url(urls: &Vec<(String, String)>) -> (url: Option<String>)
    ensures
        text_of(url) == project_url(urls@),
{
    if let Some(url) = find_url(urls, "Source") {
        return Some(url);
    }
    if let Some(url) = find_url(urls, "Repository") {
        return Some(url);
    }
    if let Some(url) = find_url(urls, "Source Code") {
        return Some(url);
    }
    if let Some(url) = find_url(urls, "Code") {
        return Some(url);
    }
    if let Some(url) = find_url(urls, "Homepage") {
        return Some(url);
    }
    find_url(urls, "Home")
}

/// A copy of a text, unless it is empty.
fn copy_filled(text: &Option<String>) -> (copy: Option<String>)
    ensures
        text_of(copy) == filled(text_of(*text)),
{
    match text {
        Some(t) => if t.as_str().is_empty() {
            None
        } else {
            Some(t.clone())
        },
        None => None,
    }
}

/// Finds the address of a project's repository.
pub fn pypi_repository_url(info: &PypiInfo) -> (url: Option<String>)
    ensures
        text_of(url) == pypi_repository(*info),
{
    if let Some(urls) = &info.project_urls {
        if let Some(url) = find_project_url(urls) {
            return Some(url);
        }
    }
    copy_filled(&info.home_page)
}

// ---------------------------------------------------------------------------
// Answers
// ---------------------------------------------------------------------------

/// What is known of a package: its newest stable version and its repository.
#[derive(Debug)]
pub struct LatestInfo {
    pub version: Option<DependencyVersion>,
    pub repository_url: Option<String>,
}

/// What a [`LatestInfo`] says.
#[verifier::ext_equal]
pub struct LatestView {
    pub version: Option<DependencyVersionView>,
    pub repository_url: Option<Seq<char>>,
}

impl View for LatestInfo {
    type V = LatestView;

    open spec fn view(&self) -> LatestView {
        LatestView {
            version: dependency_version_of(self.version),
            repository_url: text_of(self.repository_url),
        }
    }
}

impl Clone for LatestInfo {
    fn clone(&self) -> (copy: Self)
        ensures
            copy@ == self@,
    {
        LatestInfo {
            version: match &self.version {
                Some(v) => Some(v.clone()),
                None => None,
            },
            repository_url: match &self.repository_url {
                Some(url) => Some(url.clone()),
                None => None,
            },
        }
    }
}

/// What is known of a package, or why it is not.
pub type LatestResult = Result<LatestInfo, String>;

/// What a [`LatestResult`] says.
pub open spec fn latest_of(result: LatestResult) -> Result<LatestView, Seq<char>> {
    match result {
        Ok(info) => Ok(info@),
        Err(reason) => Err(reason@),
    }
}

/// A copy of what is known.
fn copy_result(result: &LatestResult) -> (copy: LatestResult)
    ensures
        latest_of(copy) == latest_of(*result),
{
    match result {
        Ok(info) => Ok(info.clone()),
        Err(reason) => Err(reason.clone()),
    }
}

/// The body of an answer.
pub enum Body {
    Crates(CratesResponse),
    Npm(NpmResponse),
    Pypi(PypiResponse),
}

/// What the body of an answer says of a package.
pub open spec fn body_info(body: Body) -> LatestView {
    match body {
        Body::Crates(b) => LatestView {
            version: match newest(crate_candidates(b.versions@)) {
                Some(v) => Some(DependencyVersionView::Semver(v)),
                None => None,
            },
            repository_url: filled(text_of(b.crate_info.repository)),
        },
        Body::Npm(b) => LatestView {
            version: match npm_latest(b.dist_tags@, b.versions@) {
                Some(v) => Some(DependencyVersionView::Semver(v)),
                None => None,
            },
            repository_url: match b.repository {
                Some(r) => match r.url {
                    Some(url) => Some(browsable_url(url@)),
                    None => None,
                },
                None => None,
            },
        },
        Body::Pypi(b) => LatestView {
            version: match newest_python(pypi_candidates(b.releases@)) {
                Some(v) => Some(DependencyVersionView::Pep440(v)),
                None => None,
            },
            repository_url: pypi_repository(b.info),
        },
    }
}

/// Reads the body of an answer.
pub fn read_body(body: &Body) -> (info: LatestInfo)
    ensures
        info@ == body_info(*body),
{
    match body {
        Body::Crates(b) => LatestInfo {
            version: match newest_stable_crate_version(&b.versions) {
                Some(v) => Some(DependencyVersion::Semver(v)),
                None => None,
            },
            repository_url: copy_filled(&b.crate_info.repository),
        },
        Body::Npm(b) => LatestInfo {
            version: match newest_stable_npm_version(b) {
                Some(v) => Some(DependencyVersion::Semver(v)),
                None => None,
            },
            repository_url: match &b.repository {
                Some(r) => match &r.url {
                    Some(url) => clean_npm_repo_url(url.as_str()),
                    None => None,
                },
                None => None,
            },
        },
        Body::Pypi(b) => LatestInfo {
            version: match newest_stable_pypi_version(b) {
                Some(v) => Some(DependencyVersion::Pep440(v)),
                None => None,
            },
            repository_url: pypi_repository_url(&b.info),
        },
    }
}

/// What a [`FetchOutcome`] says.
pub open spec fn outcome_of(outcome: FetchOutcome<LatestResult>) -> Option<
    (Result<LatestView, Seq<char>>, Option<Seq<char>>),
> {
    match outcome {
        FetchOutcome::Fresh { result, etag } => Some((latest_of(result), text_of(etag))),
        FetchOutcome::NotModified => None,
    }
}

/// Makes an outcome of a request that did not go through.
pub fn unsent_outcome(registry: Registry, error: &str) -> (outcome: FetchOutcome<LatestResult>)
    ensures
        outcome_of(outcome) == Some(
            (Err::<LatestView, Seq<char>>(request_failure(registry, error@)), None::<Seq<char>>),
        ),
{
    FetchOutcome::Fresh { result: Err(request_failed(registry, error)), etag: None }
}

/// Makes an outcome of the head of an answer; none if the answer is in the body.
pub fn head_outcome(
    registry: Registry,
    status: u16,
    status_text: &str,
    etag: Option<String>,
) -> (outcome: Option<FetchOutcome<LatestResult>>)
    ensures
        match head_of(registry, status, status_text@) {
            HeadView::NotModified => outcome matches Some(o) && outcome_of(o) is None,
            HeadView::Failed(reason) => outcome matches Some(o) && outcome_of(o) == Some(
                (Err::<LatestView, Seq<char>>(reason), text_of(etag)),
            ),
            HeadView::Body => outcome is None,
        },
{
    match read_head(registry, status, status_text) {
        Head::NotModified => Some(FetchOutcome::NotModified),
        Head::Failed(reason) => Some(FetchOutcome::Fresh { result: Err(reason), etag }),
        Head::Body => None,
    }
}

/// Makes an outcome of the body of an answer, or of the reason why it could not
/// be read.
pub fn body_outcome(
    registry: Registry,
    body: Result<Body, String>,
    etag: Option<String>,
) -> (outcome:
    FetchOutcome<LatestResult>)
    ensures
        outcome_of(outcome) == Some(
            (
                match body {
                    Ok(b) => Ok(body_info(b)),
                    Err(error) => Err(body_failure(registry, error@)),
                },
                text_of(etag),
            ),
        ),
{
    FetchOutcome::Fresh {
        result: match body {
            Ok(b) => Ok(read_body(&b)),
            Err(error) => Err(body_failed(registry, error.as_str())),
        },
        etag,
    }
}

// ---------------------------------------------------------------------------
// The client
// ---------------------------------------------------------------------------

/// What the registries have answered.
pub struct RegistryClient {
    cargo: Cache<LatestResult>,
    npm: Cache<LatestResult>,
    pypi: Cache<LatestResult>,
}

/// What a cache keeps for a package.
pub open spec fn kept_in(
    cache: Map<Seq<char>, CacheEntry<LatestResult>>,
    name: Seq<char>,
) -> Option<
    KeptView<LatestView>,
> {
    if cache.dom().contains(name) {
        let entry = cache[name];
        Some(
            KeptView {
                fetched_at: entry.fetched_at,
                etag: text_of(entry.etag),
                result: latest_of(entry.result),
            },
        )
    } else {
        None
    }
}

/// What a [`Latest`] says.
pub open spec fn step_of(step: Latest<LatestResult>) -> LatestStep<LatestView> {
    match step {
        Latest::Known(result) => LatestStep::Known(latest_of(result)),
        Latest::Fetch(request) => LatestStep::Fetch {
            url: request.url@,
            etag: text_of(request.etag),
        },
    }
}

impl RegistryClient {
    /// No package occurs twice.
    pub closed spec fn well_formed(self) -> bool {
        self.cargo.well_formed() && self.npm.well_formed() && self.pypi.well_formed()
    }

    /// What is kept of a package.
    pub closed spec fn kept(
        self,
        registry: Registry,
        name: Seq<char>,
    ) -> Option<KeptView<LatestView>> {
        match registry {
            Registry::Cargo => kept_in(self.cargo@, name),
            Registry::Npm => kept_in(self.npm@, name),
            Registry::Pypi => kept_in(self.pypi@, name),
        }
    }

    /// A client that knows nothing yet.
    pub fn new() -> (client: Self)
        ensures
            client.well_formed(),
            forall|registry: Registry, name: Seq<char>| #[trigger]
                client.kept(registry, name) is None,
    {
        RegistryClient { cargo: Cache::new(), npm: Cache::new(), pypi: Cache::new() }
    }

    /// What to do for the package of a dependency: an answer that came less than
    /// ten minutes ago is taken, else one is fetched.
    pub fn latest_for(&self, dep: &Dependency, now: u128) -> (step: Latest<LatestResult>)
        requires
            self.well_formed(),
        ensures
            step_of(step) == latest_step(
                self.kept(dep.registry, dep.name@),
                package_address(dep.registry, dep.name@),
                now,
            ),
    {
        let cache = match dep.registry {
            Registry::Cargo => &self.cargo,
            Registry::Npm => &self.npm,
            Registry::Pypi => &self.pypi,
        };
        match cache.lookup(dep.name.as_str(), now) {
            Lookup::Known(result) => Latest::Known(copy_result(result)),
            Lookup::Stale(etag) => Latest::Fetch(
                FetchRequest { url: request_url(dep.registry, dep.name.as_str()), etag },
            ),
        }
    }

    /// Keeps what a fetch came to, and gives the answer that now holds.
    pub fn record(
        &mut self,
        dep: &Dependency,
        outcome: FetchOutcome<LatestResult>,
        now: u128,
    ) -> (result: LatestResult)
        requires
            old(self).well_formed(),
        ensures
            final(self).well_formed(),
            final(self).kept(dep.registry, dep.name@) == Some(
                kept_after(
                    old(self).kept(dep.registry, dep.name@),
                    outcome_of(outcome),
                    now,
                ),
            ),
            forall|registry: Registry, name: Seq<char>|
                registry != dep.registry || name != dep.name@ ==> #[trigger] final(self).kept(
                    registry,
                    name,
                ) == old(self).kept(registry, name),
            latest_of(result) == kept_after(
                old(self).kept(dep.registry, dep.name@),
                outcome_of(outcome),
                now,
            ).result,
    {
        let missing: LatestResult = Err("Registry cache entry expired before refresh".to_string());
        let name = dep.name.as_str();
        match dep.registry {
            Registry::Cargo => {
                self.cargo.record(name, outcome, missing, now);
                kept_copy(&self.cargo, name)
            },
            Registry::Npm => {
                self.npm.record(name, outcome, missing, now);
                kept_copy(&self.npm, name)
            },
            Registry::Pypi => {
                self.pypi.record(name, outcome, missing, now);
                kept_copy(&self.pypi, name)
            },
        }
    }
}

/// A copy of the answer that is kept for a package.
fn kept_copy(cache: &Cache<LatestResult>, name: &str) -> (result: LatestResult)
    requires
        cache.well_formed(),
        cache@.dom().contains(name@),
    ensures
        latest_of(result) == latest_of(cache@[name@].result),
{
    match cache.result(name) {
        Some(result) => copy_result(result),
        None => Err(String::new()),
    }
}

impl Default for RegistryClient {
    fn default() -> (client: Self)
        ensures
            client.well_formed(),
            forall|registry: Registry, name: Seq<char>| #[trigger]
                client.kept(registry, name) is None,
    {
        RegistryClient::new()
    }
}

} // verus!
