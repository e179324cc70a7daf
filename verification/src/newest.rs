//! The newest of the versions that a registry lists.

use crate::outside::pep440_order;
use crate::text::lemma_index_of;
use crate::version::{
    is_newer, is_stable, is_stable_version, parsed_version, pep440_of, python_version,
    strip_semver_metadata, version_of, without_metadata, Pep440Version, Pep440View, Version,
    VersionView,
};
use vstd::prelude::*;

verus! {

// ---------------------------------------------------------------------------
// Semantic versions
// ---------------------------------------------------------------------------

/// The stable version that `text` stands for, build metadata apart.
pub open spec fn stable_version(text: Seq<char>) -> Option<VersionView> {
    match parsed_version(without_metadata(text)) {
        Some(v) => if is_stable_version(v) {
            Some(v)
        } else {
            None
        },
        None => None,
    }
}

/// A version that is nothing but three numbers.
pub open spec fn is_release(v: VersionView) -> bool {
    v.pre.len() == 0 && v.build.len() == 0
}

/// Reads a stable version.
pub fn read_stable_version(text: &str) -> (version: Option<Version>)
    ensures
        version_of(version) == stable_version(text@),
        version matches Some(v) ==> is_release(v@),
{
    let clean = strip_semver_metadata(text);
    proof {
        lemma_index_of(text@, '+', 0, text@.len() as int);
        if clean@.contains('+') {
            let i = choose|i: int| 0 <= i < clean@.len() && clean@[i] == '+';
            assert(text@[i] == '+');
        }
    }
    match Version::parse(clean) {
        Some(v) => if is_stable(&v) {
            Some(v)
        } else {
            None
        },
        None => None,
    }
}

/// The newest of the versions that are there; of equal ones the last.
pub open spec fn newest(candidates: Seq<Option<VersionView>>) -> Option<VersionView>
    decreases candidates.len(),
{
    if candidates.len() == 0 {
        None
    } else {
        match (newest(candidates.drop_last()), candidates.last()) {
            (Some(best), Some(v)) => if is_newer(best, v) {
                Some(best)
            } else {
                Some(v)
            },
            (best, None) => best,
            (None, v) => v,
        }
    }
}

/// The views of candidates.
pub open spec fn candidate_views(candidates: Seq<Option<Version>>) -> Seq<Option<VersionView>> {
    Seq::new(candidates.len(), |i: int| version_of(candidates[i]))
}

/// All that is there is nothing but three numbers.
pub open spec fn are_releases(candidates: Seq<Option<VersionView>>) -> bool {
    forall|i: int|
        0 <= i < candidates.len() ==> ((#[trigger] candidates[i]) matches Some(v) ==> is_release(v))
}

/// The newest of releases is one of them, none of them is newer, and there is
/// one wherever there is a release.
pub proof fn lemma_newest(candidates: Seq<Option<VersionView>>)
    requires
        are_releases(candidates),
    ensures
        newest(candidates) matches Some(best) ==> is_release(best) && candidates.contains(
            Some(best),
        ) && forall|i: int|
            0 <= i < candidates.len() ==> ((#[trigger] candidates[i]) matches Some(v) ==> !is_newer(
                v,
                best,
            )),
        newest(candidates) is None ==> forall|i: int|
            0 <= i < candidates.len() ==> (#[trigger] candidates[i]) is None,
    decreases candidates.len(),
{
    if candidates.len() > 0 {
        let head = candidates.drop_last();
        let last = candidates.len() - 1;
        assert(are_releases(head)) by {
            assert forall|i: int| 0 <= i < head.len() implies ((#[trigger] head[i]) matches Some(
                v,
            ) ==> is_release(v)) by {
                assert(head[i] == candidates[i]);
            }
        }
        lemma_newest(head);
        assert(candidates[last] == candidates.last());
        if let Some(best) = newest(candidates) {
            assert forall|v: VersionView, w: VersionView|
                is_release(v) && is_release(w) implies v.pre == w.pre && v.build == w.build by {
                assert(v.pre =~= w.pre);
                assert(v.build =~= w.build);
            }
            assert(candidates.contains(Some(best))) by {
                if head.contains(Some(best)) {
                    let k = choose|k: int| 0 <= k < head.len() && head[k] == Some(best);
                    assert(candidates[k] == Some(best));
                }
            }
            assert forall|i: int| 0 <= i < candidates.len() implies ((
            #[trigger] candidates[i]) matches Some(v) ==> !is_newer(v, best)) by {
                if i < last {
                    assert(head[i] == candidates[i]);
                }
            }
        } else {
            assert forall|i: int| 0 <= i < candidates.len() implies (
            #[trigger] candidates[i]) is None by {
                if i < last {
                    assert(head[i] == candidates[i]);
                }
            }
        }
    }
}

/// Finds the newest of the versions that are there.
pub fn newest_of(candidates: &Vec<Option<Version>>) -> (best: Option<Version>)
    ensures
        version_of(best) == newest(candidate_views(candidates@)),
{
    let ghost views = candidate_views(candidates@);
    let mut best: Option<Version> = None;
    let mut i: usize = 0;
    assert(views.take(0) =~= Seq::<Option<VersionView>>::empty());
    while i < candidates.len()
        invariant
            i <= candidates@.len(),
            views == candidate_views(candidates@),
            version_of(best) == newest(views.take(i as int)),
        decreases candidates@.len() - i,
    {
        assert(views.take(i + 1).drop_last() =~= views.take(i as int));
        assert(views.take(i + 1).last() == version_of(candidates@[i as int]));
        if let Some(v) = &candidates[i] {
            let keep = match &best {
                Some(b) => b.newer_than(v),
                None => false,
            };
            if !keep {
                best = Some(v.clone());
            }
        }
        i += 1;
    }
    assert(views.take(i as int) =~= views);
    best
}

// ---------------------------------------------------------------------------
// Python versions
// ---------------------------------------------------------------------------

/// The stable Python version that `text` stands for.
pub open spec fn stable_python_version(text: Seq<char>) -> Option<Pep440View> {
    match python_version(text) {
        Some(v) => if v.stable {
            Some(v)
        } else {
            None
        },
        None => None,
    }
}

/// Reads a stable Python version.
pub fn read_stable_python_version(text: &str) -> (version: Option<Pep440Version>)
    ensures
        pep440_of(version) == stable_python_version(text@),
        version matches Some(v) ==> v@.well_formed(),
{
    match Pep440Version::parse(text) {
        Some(v) => if v.stable {
            Some(v)
        } else {
            None
        },
        None => None,
    }
}

/// The newest of the Python versions that are there; of equal ones the last.
pub open spec fn newest_python(candidates: Seq<Option<Pep440View>>) -> Option<Pep440View>
    decreases candidates.len(),
{
    if candidates.len() == 0 {
        None
    } else {
        match (newest_python(candidates.drop_last()), candidates.last()) {
            (Some(best), Some(v)) => if pep440_order(best.text, v.text) {
                Some(best)
            } else {
                Some(v)
            },
            (best, None) => best,
            (None, v) => v,
        }
    }
}

/// The views of candidates.
pub open spec fn python_candidate_views(candidates: Seq<Option<Pep440Version>>) -> Seq<
    Option<Pep440View>,
> {
    Seq::new(candidates.len(), |i: int| pep440_of(candidates[i]))
}

/// `best` is at `at` among the candidates, and no other candidate is newer.
pub open spec fn is_newest_python(
    candidates: Seq<Option<Pep440View>>,
    at: int,
    best: Pep440View,
) -> bool {
    &&& 0 <= at < candidates.len()
    &&& candidates[at] == Some(best)
    &&& forall|i: int|
        0 <= i < candidates.len() && i != at ==> ((#[trigger] candidates[i]) matches Some(v)
            ==> !pep440_order(v.text, best.text))
}

/// Finds the newest of the Python versions that are there. It is one of them,
/// and none of the others is newer.
pub fn newest_python_of(candidates: &Vec<Option<Pep440Version>>) -> (best: Option<Pep440Version>)
    requires
        forall|i: int|
            0 <= i < candidates@.len() ==> ((#[trigger] candidates@[i]) matches Some(v)
                ==> v@.well_formed()),
    ensures
        pep440_of(best) == newest_python(python_candidate_views(candidates@)),
        best matches Some(b) ==> b@.well_formed() && exists|at: int| #[trigger]
            is_newest_python(python_candidate_views(candidates@), at, b@),
        best is None ==> forall|i: int|
            0 <= i < candidates@.len() ==> (#[trigger] candidates@[i]) is None,
{
    let ghost views = python_candidate_views(candidates@);
    let mut best: Option<Pep440Version> = None;
    let ghost mut at: int = 0;
    let mut i: usize = 0;
    assert(views.take(0) =~= Seq::<Option<Pep440View>>::empty());
    while i < candidates.len()
        invariant
            i <= candidates@.len(),
            views == python_candidate_views(candidates@),
            forall|k: int|
                0 <= k < candidates@.len() ==> ((#[trigger] candidates@[k]) matches Some(v)
                    ==> v@.well_formed()),
            pep440_of(best) == newest_python(views.take(i as int)),
            best matches Some(b) ==> b@.well_formed() && is_newest_python(
                views.take(i as int),
                at,
                b@,
            ),
            best is None ==> forall|k: int| 0 <= k < i ==> (#[trigger] candidates@[k]) is None,
        decreases candidates@.len() - i,
    {
        let ghost seen = views.take(i as int);
        let ghost now = views.take(i + 1);
        assert(now.drop_last() =~= seen);
        assert(now.last() == pep440_of(candidates@[i as int]));
        assert forall|k: int| 0 <= k < i implies now[k] == #[trigger] seen[k] by {}
        assert forall|k: int| 0 <= k < i implies ((#[trigger] seen[k]) matches Some(v)
            ==> v.well_formed()) by {
            assert(seen[k] == pep440_of(candidates@[k]));
        }
        if let Some(v) = &candidates[i] {
            let keep = match &best {
                Some(b) => b.newer_than(v),
                None => false,
            };
            if keep {
                assert(is_newest_python(now, at, best->0@)) by {
                    assert(now[at] == seen[at]);
                    assert forall|k: int| 0 <= k < now.len() && k != at implies ((
                    #[trigger] now[k]) matches Some(w) ==> !pep440_order(w.text, best->0.text@)) by {
                        if k < i {
                            assert(now[k] == seen[k]);
                        }
                    }
                }
            } else {
                let ghost before = pep440_of(best);
                best = Some(v.clone());
                proof {
                    assert forall|k: int| 0 <= k < now.len() && k != i implies ((
                    #[trigger] now[k]) matches Some(w) ==> !pep440_order(w.text, v.text@)) by {
                        assert(now[k] == seen[k]);
                        match before {
                            Some(b) => {
                                if k != at {
                                    assert(seen[k] matches Some(w) ==> !pep440_order(
                                        w.text,
                                        b.text,
                                    ));
                                }
                            },
                            None => {
                                assert(candidates@[k] is None);
                            },
                        }
                    }
                    at = i as int;
                    assert(is_newest_python(now, at, v@));
                }
            }
        } else {
            if let Some(b) = &best {
                assert(is_newest_python(now, at, b@)) by {
                    assert(now[at] == seen[at]);
                    assert forall|k: int| 0 <= k < now.len() && k != at implies ((
                    #[trigger] now[k]) matches Some(w) ==> !pep440_order(w.text, b.text@)) by {
                        if k < i {
                            assert(now[k] == seen[k]);
                        }
                    }
                }
            }
        }
        i += 1;
    }
    assert(views.take(i as int) =~= views);
    proof {
        if best is Some {
            assert(is_newest_python(views, at, best->0@));
        }
    }
    best
}

} // verus!
