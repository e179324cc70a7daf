//! What crates.io and the npm registry answer, and what is kept of it.

use crate::cache::{kept_after, latest_step, Cache, CacheEntry, KeptView, LatestStep, Lookup};
use crate::fetch::{
    body_failed, body_failure, head_of, package_address, read_head, request_failed, request_failure,
    request_url, Head, HeadView,
};
use crate::newest::{is_release, newest};
use crate::outside::text_of;
use crate::registry::{
    crate_candidates, is_best, newest_npm_version, npm_candidates, npm_latest, npm_tagged,
};
use crate::version::{version_of, Version, VersionView};
use crate::zeddeps::manifest::{Dependency, Registry};
use vstd::prelude::*;

pub use crate::registry::{newest_stable_crate_version, CrateVersion};
pub use crate::cache::{FetchOutcome, FetchRequest, Latest};
pub use crate::version::is_stable;

verus! {

/// The answer of crates.io.
pub struct CratesResponse {
    pub versions: Vec<CrateVersion>,
}

/// The answer of the npm registry.
pub struct NpmResponse {
    pub dist_tags: Vec<(String, String)>,
    pub versions: Vec<String>,
}

/// Finds the version of an npm package to offer.
pub fn newest_stable_npm_version(body: &NpmResponse) -> (best: Option<Version>)
    ensures
        version_of(best) == npm_latest(body.dist_tags@, body.versions@),
        npm_tagged(body.dist_tags@) matches Some(v) ==> version_of(best) == Some(v),
        npm_tagged(body.dist_tags@) is None ==> is_best(
            npm_candidates(body.versions@),
            version_of(best),
        ),
        best matches Some(v) ==> is_release(v@),
{
    newest_npm_version(&body.dist_tags, &body.versions)
}

/// The newest stable version of a package, or why it is not known.
pub type LatestResult = Result<Option<Version>, String>;

/// What a [`LatestResult`] says.
pub open spec fn latest_of(result: LatestResult) -> Result<Option<VersionView>, Seq<char>> {
    match result {
        Ok(version) => Ok(version_of(version)),
        Err(reason) => Err(reason@),
    }
}

/// A copy of what is known.
fn copy_result(result: &LatestResult) -> (copy: LatestResult)
    ensures
        latest_of(copy) == latest_of(*result),
{
    match result {
        Ok(Some(v)) => Ok(Some(v.clone())),
        Ok(None) => Ok(None),
        Err(reason) => Err(reason.clone()),
    }
}

/// The registry among all that are known.
pub open spec fn known_registry(registry: Registry) -> crate::manifest::Registry {
    match registry {
        Registry::Cargo => crate::manifest::Registry::Cargo,
        Registry::Npm => crate::manifest::Registry::Npm,
    }
}

/// Finds the registry among all that are known.
fn as_known(registry: Registry) -> (known: crate::manifest::Registry)
    ensures
        known == known_registry(registry),
{
    match registry {
        Registry::Cargo => crate::manifest::Registry::Cargo,
        Registry::Npm => crate::manifest::Registry::Npm,
    }
}

/// The body of an answer.
pub enum Body {
    Crates(CratesResponse),
    Npm(NpmResponse),
}

/// The version that the body of an answer offers.
pub open spec fn body_version(body: Body) -> Option<VersionView> {
    match body {
        Body::Crates(b) => newest(crate_candidates(b.versions@)),
        Body::Npm(b) => npm_latest(b.dist_tags@, b.versions@),
    }
}

/// Reads the body of an answer.
pub fn read_body(body: &Body) -> (version: Option<Version>)
    ensures
        version_of(version) == body_version(*body),
{
    match body {
        Body::Crates(b) => newest_stable_crate_version(&b.versions),
        Body::Npm(b) => newest_stable_npm_version(b),
    }
}

/// What a [`FetchOutcome`] says.
pub open spec fn outcome_of(outcome: FetchOutcome<LatestResult>) -> Option<
    (Result<Option<VersionView>, Seq<char>>, Option<Seq<char>>),
> {
    match outcome {
        FetchOutcome::Fresh { result, etag } => Some((latest_of(result), text_of(etag))),
        FetchOutcome::NotModified => None,
    }
}

/// Makes an outcome of a request that did not go through.
pub fn unsent_outcome(registry: Registry, error: &str) -> (outcome: FetchOutcome<LatestResult>)
    ensures
        outcome_of(outcome) == Some(
            (
                Err::<Option<VersionView>, Seq<char>>(
                    request_failure(known_registry(registry), error@),
                ),
                None::<Seq<char>>,
            ),
        ),
{
    FetchOutcome::Fresh { result: Err(request_failed(as_known(registry), error)), etag: None }
}

/// Makes an outcome of the head of an answer; none if the answer is in the body.
pub fn head_outcome(
    registry: Registry,
    status: u16,
    status_text: &str,
    etag: Option<String>,
) -> (outcome: Option<FetchOutcome<LatestResult>>)
    ensures
        match head_of(known_registry(registry), status, status_text@) {
            HeadView::NotModified => outcome matches Some(o) && outcome_of(o) is None,
            HeadView::Failed(reason) => outcome matches Some(o) && outcome_of(o) == Some(
                (Err::<Option<VersionView>, Seq<char>>(reason), text_of(etag)),
            ),
            HeadView::Body => outcome is None,
        },
{
    match read_head(as_known(registry), status, status_text) {
        Head::NotModified => Some(FetchOutcome::NotModified),
        Head::Failed(reason) => Some(FetchOutcome::Fresh { result: Err(reason), etag }),
        Head::Body => None,
    }
}

/// Makes an outcome of the body of an answer, or of the reason why it could not
/// be read.
pub fn body_outcome(
    registry: Registry,
    body: Result<Body, String>,
    etag: Option<String>,
) -> (outcome:
    FetchOutcome<LatestResult>)
    ensures
        outcome_of(outcome) == Some(
            (
                match body {
                    Ok(b) => Ok(body_version(b)),
                    Err(error) => Err(body_failure(known_registry(registry), error@)),
                },
                text_of(etag),
            ),
        ),
{
    FetchOutcome::Fresh {
        result: match body {
            Ok(b) => Ok(read_body(&b)),
            Err(error) => Err(body_failed(as_known(registry), error.as_str())),
        },
        etag,
    }
}

// ---------------------------------------------------------------------------
// The client
// ---------------------------------------------------------------------------

/// What the registries have answered.
pub struct RegistryClient {
    cargo: Cache<LatestResult>,
    npm: Cache<LatestResult>,
}

/// What a cache keeps for a package.
pub open spec fn kept_in(
    cache: Map<Seq<char>, CacheEntry<LatestResult>>,
    name: Seq<char>,
) -> Option<
    KeptView<Option<VersionView>>,
> {
    if cache.dom().contains(name) {
        let entry = cache[name];
        Some(
            KeptView {
                fetched_at: entry.fetched_at,
                etag: text_of(entry.etag),
                result: latest_of(entry.result),
            },
        )
    } else {
        None
    }
}

/// What a [`Latest`] says.
pub open spec fn step_of(step: Latest<LatestResult>) -> LatestStep<Option<VersionView>> {
    match step {
        Latest::Known(result) => LatestStep::Known(latest_of(result)),
        Latest::Fetch(request) => LatestStep::Fetch {
            url: request.url@,
            etag: text_of(request.etag),
        },
    }
}

impl RegistryClient {
    /// No package occurs twice.
    pub closed spec fn well_formed(self) -> bool {
        self.cargo.well_formed() && self.npm.well_formed()
    }

    /// What is kept of a package.
    pub closed spec fn kept(
        self,
        registry: Registry,
        name: Seq<char>,
    ) -> Option<KeptView<Option<VersionView>>> {
        match registry {
            Registry::Cargo => kept_in(self.cargo@, name),
            Registry::Npm => kept_in(self.npm@, name),
        }
    }

    /// A client that knows nothing yet.
    pub fn new() -> (client: Self)
        ensures
            client.well_formed(),
            forall|registry: Registry, name: Seq<char>| #[trigger]
                client.kept(registry, name) is None,
    {
        RegistryClient { cargo: Cache::new(), npm: Cache::new() }
    }

    /// What to do for the package of a dependency: an answer that came less than
    /// ten minutes ago is taken, else one is fetched.
    pub fn latest_for(&self, dep: &Dependency, now: u128) -> (step: Latest<LatestResult>)
        requires
            self.well_formed(),
        ensures
            step_of(step) == latest_step(
                self.kept(dep.registry, dep.name@),
                package_address(known_registry(dep.registry), dep.name@),
                now,
            ),
    {
        let cache = match dep.registry {
            Registry::Cargo => &self.cargo,
            Registry::Npm => &self.npm,
        };
        match cache.lookup(dep.name.as_str(), now) {
            Lookup::Known(result) => Latest::Known(copy_result(result)),
            Lookup::Stale(etag) => Latest::Fetch(
                FetchRequest { url: request_url(as_known(dep.registry), dep.name.as_str()), etag },
            ),
        }
    }

    /// Keeps what a fetch came to, and gives the answer that now holds.
    pub fn record(
        &mut self,
        dep: &Dependency,
        outcome: FetchOutcome<LatestResult>,
        now: u128,
    ) -> (result: LatestResult)
        requires
            old(self).well_formed(),
        ensures
            final(self).well_formed(),
            final(self).kept(dep.registry, dep.name@) == Some(
                kept_after(
                    old(self).kept(dep.registry, dep.name@),
                    outcome_of(outcome),
                    now,
                ),
            ),
            forall|registry: Registry, name: Seq<char>|
                registry != dep.registry || name != dep.name@ ==> #[trigger] final(self).kept(
                    registry,
                    name,
                ) == old(self).kept(registry, name),
            latest_of(result) == kept_after(
                old(self).kept(dep.registry, dep.name@),
                outcome_of(outcome),
                now,
            ).result,
    {
        let missing: LatestResult = Err("Registry cache entry expired before refresh".to_string());
        let name = dep.name.as_str();
        match dep.registry {
            Registry::Cargo => {
                self.cargo.record(name, outcome, missing, now);
                kept_copy(&self.cargo, name)
            },
            Registry::Npm => {
                self.npm.record(name, outcome, missing, now);
                kept_copy(&self.npm, name)
            },
        }
    }
}

/// A copy of the answer that is kept for a package.
fn kept_copy(cache: &Cache<LatestResult>, name: &str) -> (result: LatestResult)
    requires
        cache.well_formed(),
        cache@.dom().contains(name@),
    ensures
        latest_of(result) == latest_of(cache@[name@].result),
{
    match cache.result(name) {
        Some(result) => copy_result(result),
        None => Err(String::new()),
    }
}

impl Default for RegistryClient {
    fn default() -> (client: Self)
        ensures
            client.well_formed(),
            forall|registry: Registry, name: Seq<char>| #[trigger]
                client.kept(registry, name) is None,
    {
        RegistryClient::new()
    }
}

} // verus!
