//! What the registries have answered, and for how long it counts.

use crate::outside::text_of;
use crate::table::Table;
use vstd::prelude::*;

verus! {

/// How long an answer counts, in nanoseconds.
pub const CACHE_TTL: u128 = 600_000_000_000;

/// An answer: when it came, by which tag the registry knows it, and what it was.
pub struct CacheEntry<R> {
    pub fetched_at: u128,
    pub etag: Option<String>,
    pub result: R,
}

/// What a fetch has brought: an answer, or the news that the last one still
/// holds.
pub enum FetchOutcome<R> {
    Fresh { result: R, etag: Option<String> },
    NotModified,
}

/// What is known of a package: its answer, or that one must be fetched, with
/// the tag of the last.
pub enum Lookup<'a, R> {
    Known(&'a R),
    Stale(Option<String>),
}

/// Whether an answer that came at `fetched_at` still counts.
pub open spec fn counts(fetched_at: u128, now: u128) -> bool {
    now < fetched_at + CACHE_TTL
}

/// Answers by package.
pub struct Cache<R> {
    table: Table<CacheEntry<R>>,
}

impl<R> View for Cache<R> {
    type V = Map<Seq<char>, CacheEntry<R>>;

    closed spec fn view(&self) -> Map<Seq<char>, CacheEntry<R>> {
        self.table@
    }
}

impl<R> Cache<R> {
    /// No package occurs twice.
    pub closed spec fn well_formed(self) -> bool {
        self.table.well_formed()
    }

    /// An empty cache.
    pub fn new() -> (cache: Self)
        ensures
            cache.well_formed(),
            cache@ == Map::<Seq<char>, CacheEntry<R>>::empty(),
    {
        Cache { table: Table::new() }
    }

    /// What is known of a package.
    pub fn lookup(&self, name: &str, now: u128) -> (found: Lookup<'_, R>)
        requires
            self.well_formed(),
        ensures
            match found {
                Lookup::Known(result) => {
                    &&& self@.dom().contains(name@)
                    &&& counts(self@[name@].fetched_at, now)
                    &&& *result == self@[name@].result
                },
                Lookup::Stale(etag) => {
                    &&& !(self@.dom().contains(name@) && counts(self@[name@].fetched_at, now))
                    &&& text_of(etag) == (if self@.dom().contains(name@) {
                        text_of(self@[name@].etag)
                    } else {
                        None
                    })
                },
            },
    {
        match self.table.get(name) {
            Some(entry) => {
                let age: u128 = if now >= entry.fetched_at {
                    now - entry.fetched_at
                } else {
                    0
                };
                if age < CACHE_TTL {
                    Lookup::Known(&entry.result)
                } else {
                    Lookup::Stale(
                        match &entry.etag {
                            Some(etag) => Some(etag.clone()),
                            None => None,
                        },
                    )
                }
            },
            None => Lookup::Stale(None),
        }
    }

    /// Keeps what a fetch has brought. An answer that still holds counts anew;
    /// where it is gone, `missing` takes its place.
    pub fn record(&mut self, name: &str, outcome: FetchOutcome<R>, missing: R, now: u128)
        requires
            old(self).well_formed(),
        ensures
            final(self).well_formed(),
            final(self)@ == old(self)@.insert(
                name@,
                match outcome {
                    FetchOutcome::Fresh { result, etag } => CacheEntry {
                        fetched_at: now,
                        etag,
                        result,
                    },
                    FetchOutcome::NotModified => if old(self)@.dom().contains(name@) {
                        CacheEntry { fetched_at: now, ..old(self)@[name@] }
                    } else {
                        CacheEntry { fetched_at: now, etag: None, result: missing }
                    },
                },
            ),
    {
        let ghost before = self.table@;
        match outcome {
            FetchOutcome::Fresh { result, etag } => {
                self.table.insert(name, CacheEntry { fetched_at: now, etag, result });
            },
            FetchOutcome::NotModified => {
                match self.table.remove(name) {
                    Some(entry) => {
                        let entry = CacheEntry {
                            fetched_at: now,
                            etag: entry.etag,
                            result: entry.result,
                        };
                        self.table.insert(name, entry);
                        assert(self.table@ =~= before.insert(
                            name@,
                            CacheEntry { fetched_at: now, ..before[name@] },
                        ));
                    },
                    None => {
                        self.table.insert(
                            name,
                            CacheEntry { fetched_at: now, etag: None, result: missing },
                        );
                        assert(self.table@ =~= before.insert(
                            name@,
                            CacheEntry { fetched_at: now, etag: None, result: missing },
                        ));
                    },
                }
            },
        }
    }

    /// The answer for a package, however old it is.
    pub fn result(&self, name: &str) -> (found: Option<&R>)
        requires
            self.well_formed(),
        ensures
            found matches Some(result) ==> self@.dom().contains(name@) && *result
                == self@[name@].result,
            found is None ==> !self@.dom().contains(name@),
    {
        match self.table.get(name) {
            Some(entry) => Some(&entry.result),
            None => None,
        }
    }
}

// ---------------------------------------------------------------------------
// What follows from what is kept
// ---------------------------------------------------------------------------

/// A request to a registry: the address, and the tag of the last answer.
pub struct FetchRequest {
    pub url: String,
    pub etag: Option<String>,
}

/// What to do for a package: take the answer that is known, or fetch one.
pub enum Latest<R> {
    Known(R),
    Fetch(FetchRequest),
}

/// What is kept of an answer: a value of `T`, or why there is none.
#[verifier::ext_equal]
pub struct KeptView<T> {
    pub fetched_at: u128,
    pub etag: Option<Seq<char>>,
    pub result: Result<T, Seq<char>>,
}

/// What a [`Latest`] says.
pub enum LatestStep<T> {
    Known(Result<T, Seq<char>>),
    Fetch { url: Seq<char>, etag: Option<Seq<char>> },
}

/// What to do for a package at the address `url` of which `kept` is kept.
pub open spec fn latest_step<T>(
    kept: Option<KeptView<T>>,
    url: Seq<char>,
    now: u128,
) -> LatestStep<T> {
    match kept {
        Some(k) => if counts(k.fetched_at, now) {
            LatestStep::Known(k.result)
        } else {
            LatestStep::Fetch { url, etag: k.etag }
        },
        None => LatestStep::Fetch { url, etag: None },
    }
}

/// What is kept of a package after a fetch: the answer that it brought, or the
/// last one anew.
pub open spec fn kept_after<T>(
    kept: Option<KeptView<T>>,
    outcome: Option<(Result<T, Seq<char>>, Option<Seq<char>>)>,
    now: u128,
) -> KeptView<T> {
    match (outcome, kept) {
        (Some((result, etag)), _) => KeptView { fetched_at: now, etag, result },
        (None, Some(k)) => KeptView { fetched_at: now, etag: k.etag, result: k.result },
        (None, None) => KeptView {
            fetched_at: now,
            etag: None,
            result: Err("Registry cache entry expired before refresh"@),
        },
    }
}

} // verus!
