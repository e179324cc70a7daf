//! What holds between the answers of the registries and the version that is offered.

use crate::newest::{are_releases, is_release, lemma_newest, newest, newest_python, stable_version};
use crate::outside::{pep440_parse, semver_parse};
use crate::registry::{
    browsable_url, crate_candidates, npm_candidates, npm_latest, npm_tagged, project_url,
    pypi_candidate, pypi_candidates, url_under, value_under, CrateVersion, PypiReleaseFile,
};
use crate::server_laws::numbers_exceed;
use crate::text::{lemma_index_of, trimmed};
use crate::version::{is_newer, without_metadata, Pep440View, VersionView};
use vstd::prelude::*;

verus! {

// ---------------------------------------------------------------------------
// Stable versions
// ---------------------------------------------------------------------------

/// `text` is `clean`, or `clean` with build metadata behind a plus sign, and `clean`
/// is read as the version `v`.
pub open spec fn reads_as(text: Seq<char>, clean: Seq<char>, v: VersionView) -> bool {
    &&& !clean.contains('+')
    &&& text == clean || clean.push('+').is_prefix_of(text)
    &&& semver_parse(clean) == Some((v.major, v.minor, v.patch, v.pre, v.build))
}

/// `text` names the version `v`, build metadata apart, and `v` is no pre-release.
pub open spec fn names_stable(text: Seq<char>, v: VersionView) -> bool {
    v.pre.len() == 0 && exists|clean: Seq<char>| #[trigger] reads_as(text, clean, v)
}

/// Versions have build metadata only behind a plus sign.
pub open spec fn metadata_follows_plus() -> bool {
    forall|text: Seq<char>|
        !text.contains('+') ==> ((#[trigger] semver_parse(text)) matches Some(parts)
            ==> parts.4.len() == 0)
}

/// What stands before build metadata.
proof fn lemma_clean(text: Seq<char>)
    ensures
        !without_metadata(text).contains('+'),
        text == without_metadata(text) || without_metadata(text).push('+').is_prefix_of(text),
        forall|clean: Seq<char>|
            !(#[trigger] clean.contains('+')) && (text == clean || clean.push('+').is_prefix_of(
                text,
            )) ==> clean == without_metadata(text),
{
    lemma_index_of(text, '+', 0, text.len() as int);
    let kept = without_metadata(text);
    if kept.contains('+') {
        let i = choose|i: int| 0 <= i < kept.len() && kept[i] == '+';
        assert(text[i] == '+');
    }
    if kept != text {
        assert(kept.push('+') =~= text.take(kept.len() as int + 1));
    }
    assert forall|clean: Seq<char>|
        !(#[trigger] clean.contains('+')) && (text == clean || clean.push('+').is_prefix_of(
            text,
        )) implies clean == kept by {
        let n = clean.len() as int;
        if text == clean {
            if kept != text {
                assert(text[kept.len() as int] == '+');
            }
        } else {
            assert(clean.push('+')[n] == '+');
            assert(text[n] == '+');
            assert(kept.len() <= n);
            if kept.len() < n {
                assert(clean.push('+')[kept.len() as int] == text[kept.len() as int]);
                assert(clean[kept.len() as int] == '+');
            }
            assert forall|i: int| 0 <= i < n implies clean[i] == kept[i] by {
                assert(clean.push('+')[i] == text[i]);
            }
            assert(clean =~= kept);
        }
    }
}

/// What counts as stable.
proof fn lemma_stable(text: Seq<char>, v: VersionView)
    ensures
        stable_version(text) == Some(v) <==> names_stable(text, v),
{
    lemma_clean(text);
    if stable_version(text) == Some(v) {
        assert(reads_as(text, without_metadata(text), v));
    }
    if names_stable(text, v) {
        let clean = choose|clean: Seq<char>| #[trigger] reads_as(text, clean, v);
        assert(!clean.contains('+'));
    }
}

/// Candidates that are stable versions are releases.
proof fn lemma_releases(candidates: Seq<Option<VersionView>>, texts: Seq<Seq<char>>)
    requires
        metadata_follows_plus(),
        candidates.len() == texts.len(),
        forall|i: int|
            0 <= i < texts.len() ==> (#[trigger] candidates[i]) is None || candidates[i]
                == stable_version(texts[i]),
    ensures
        are_releases(candidates),
{
    assert forall|i: int| 0 <= i < candidates.len() implies ((
    #[trigger] candidates[i]) matches Some(v) ==> is_release(v)) by {
        if let Some(v) = candidates[i] {
            lemma_clean(texts[i]);
            assert(semver_parse(without_metadata(texts[i])) is Some);
        }
    }
}

// ---------------------------------------------------------------------------
// crates.io
// ---------------------------------------------------------------------------

/// Of the versions of a crate, the one offered is listed, stable and not yanked; and
/// wherever a version is listed, stable and not yanked, one is offered, and none of
/// those exceeds it.
pub proof fn newest_crate_version_is_offered(versions: Seq<CrateVersion>)
    requires
        metadata_follows_plus(),
    ensures
        newest(crate_candidates(versions)) matches Some(best) ==> exists|i: int|
            0 <= i < versions.len() && !(#[trigger] versions[i]).yanked && names_stable(
                versions[i].num@,
                best,
            ),
        forall|i: int, v: VersionView|
            0 <= i < versions.len() && !versions[i].yanked && #[trigger] names_stable(
                versions[i].num@,
                v,
            ) ==> (newest(crate_candidates(versions)) matches Some(best) && !numbers_exceed(
                v,
                best,
            )),
{
    let candidates = crate_candidates(versions);
    let texts = Seq::new(versions.len(), |i: int| versions[i].num@);
    lemma_releases(candidates, texts);
    lemma_newest(candidates);
    if let Some(best) = newest(candidates) {
        let i = choose|i: int| 0 <= i < candidates.len() && candidates[i] == Some(best);
        lemma_stable(versions[i].num@, best);
        assert(!versions[i].yanked);
    }
    assert forall|i: int, v: VersionView|
        0 <= i < versions.len() && !versions[i].yanked && #[trigger] names_stable(
            versions[i].num@,
            v,
        ) implies (newest(candidates) matches Some(best) && !numbers_exceed(v, best)) by {
        lemma_stable(versions[i].num@, v);
        assert(candidates[i] == Some(v));
        assert(!is_newer(v, newest(candidates)->0));
    }
}

// ---------------------------------------------------------------------------
// npm
// ---------------------------------------------------------------------------

/// The pair at `i` is the first with a key.
pub open spec fn is_first_under(pairs: Seq<(String, String)>, i: int, key: Seq<char>) -> bool {
    &&& 0 <= i < pairs.len()
    &&& pairs[i].0@ == key
    &&& forall|j: int| 0 <= j < i ==> (#[trigger] pairs[j]).0@ != key
}

/// No pair has a key.
pub open spec fn is_none_under(pairs: Seq<(String, String)>, key: Seq<char>) -> bool {
    forall|j: int| 0 <= j < pairs.len() ==> (#[trigger] pairs[j]).0@ != key
}

/// The value of a key is that of the first pair that has it.
proof fn lemma_value_under(pairs: Seq<(String, String)>, key: Seq<char>)
    ensures
        forall|i: int|
            #[trigger] is_first_under(pairs, i, key) ==> value_under(pairs, key) == Some(
                pairs[i].1@,
            ),
        is_none_under(pairs, key) ==> value_under(pairs, key) is None,
    decreases pairs.len(),
{
    if pairs.len() > 0 && pairs[0].0@ != key {
        let rest = pairs.skip(1);
        lemma_value_under(rest, key);
        assert forall|i: int| #[trigger] is_first_under(pairs, i, key) implies value_under(
            pairs,
            key,
        ) == Some(pairs[i].1@) by {
            assert forall|j: int| 0 <= j < i - 1 implies (#[trigger] rest[j]).0@ != key by {
                assert(rest[j] == pairs[j + 1]);
            }
            assert(rest[i - 1] == pairs[i]);
            assert(is_first_under(rest, i - 1, key));
        }
        if is_none_under(pairs, key) {
            assert forall|j: int| 0 <= j < rest.len() implies (#[trigger] rest[j]).0@ != key by {
                assert(rest[j] == pairs[j + 1]);
            }
        }
    } else {
        assert forall|i: int| #[trigger] is_first_under(pairs, i, key) implies i == 0 by {
            if 0 < i {
                assert(pairs[0].0@ != key);
            }
        }
    }
}

/// The version of an npm package that is tagged as the latest is offered if it is
/// stable, whatever versions are listed.
pub proof fn npm_tag_decides(
    dist_tags: Seq<(String, String)>,
    versions: Seq<String>,
    i: int,
    v: VersionView,
)
    requires
        is_first_under(dist_tags, i, "latest"@),
        names_stable(dist_tags[i].1@, v),
    ensures
        npm_latest(dist_tags, versions) == Some(v),
{
    lemma_value_under(dist_tags, "latest"@);
    lemma_stable(dist_tags[i].1@, v);
}

/// Where no stable version of an npm package is tagged as the latest, the one offered
/// is listed and stable; and wherever a stable version is listed, one is offered, and
/// none of those exceeds it.
pub proof fn npm_list_decides(
    dist_tags: Seq<(String, String)>,
    versions: Seq<String>,
    i: int,
)
    requires
        metadata_follows_plus(),
        is_none_under(dist_tags, "latest"@) || (is_first_under(dist_tags, i, "latest"@) && forall|
            v: VersionView,
        |
            !#[trigger] names_stable(dist_tags[i].1@, v)),
    ensures
        npm_latest(dist_tags, versions) matches Some(best) ==> exists|k: int|
            0 <= k < versions.len() && names_stable((#[trigger] versions[k])@, best),
        forall|k: int, v: VersionView|
            0 <= k < versions.len() && #[trigger] names_stable(versions[k]@, v) ==> (npm_latest(
                dist_tags,
                versions,
            ) matches Some(best) && !numbers_exceed(v, best)),
{
    lemma_value_under(dist_tags, "latest"@);
    if let Some(v) = npm_tagged(dist_tags) {
        lemma_stable(dist_tags[i].1@, v);
    }
    let candidates = npm_candidates(versions);
    let texts = Seq::new(versions.len(), |k: int| versions[k]@);
    lemma_releases(candidates, texts);
    lemma_newest(candidates);
    if let Some(best) = newest(candidates) {
        let k = choose|k: int| 0 <= k < candidates.len() && candidates[k] == Some(best);
        lemma_stable(versions[k]@, best);
    }
    assert forall|k: int, v: VersionView|
        0 <= k < versions.len() && #[trigger] names_stable(versions[k]@, v) implies (npm_latest(
        dist_tags,
        versions,
    ) matches Some(best) && !numbers_exceed(v, best)) by {
        lemma_stable(versions[k]@, v);
        assert(candidates[k] == Some(v));
        assert(!is_newer(v, newest(candidates)->0));
    }
}

// ---------------------------------------------------------------------------
// PyPI
// ---------------------------------------------------------------------------

/// A release of a Python package can be offered as the version `v`: something of it
/// can be had, and its text is read as `v`, which is stable.
pub open spec fn offers(release: (String, Vec<PypiReleaseFile>), v: Pep440View) -> bool {
    &&& release.1@.len() == 0 || exists|k: int|
        0 <= k < release.1@.len() && !(#[trigger] release.1@[k]).yanked
    &&& pep440_parse(release.0@) == Some((v.text, true))
    &&& v.stable
}

/// The releases of a Python package that count are those that can be offered. The one
/// offered is among them, and one is offered wherever there is any.
pub proof fn pypi_release_is_offered(releases: Seq<(String, Vec<PypiReleaseFile>)>)
    ensures
        forall|i: int, v: Pep440View|
            0 <= i < releases.len() ==> (pypi_candidates(releases)[i] == Some(v)
                <==> #[trigger] offers(releases[i], v)),
        newest_python(pypi_candidates(releases)) matches Some(best) ==> exists|i: int|
            0 <= i < releases.len() && offers(#[trigger] releases[i], best),
        forall|i: int, v: Pep440View|
            0 <= i < releases.len() && #[trigger] offers(releases[i], v) ==> newest_python(
                pypi_candidates(releases),
            ) is Some,
{
    let candidates = pypi_candidates(releases);
    assert forall|i: int, v: Pep440View| 0 <= i < releases.len() implies (candidates[i] == Some(v)
        <==> #[trigger] offers(releases[i], v)) by {
        assert(candidates[i] == pypi_candidate(releases[i]));
    }
    lemma_newest_python(candidates);
    if let Some(best) = newest_python(candidates) {
        let i = choose|i: int| 0 <= i < candidates.len() && candidates[i] == Some(best);
        assert(offers(releases[i], best));
    }
}

/// The newest of Python versions is one of them.
proof fn lemma_newest_python(candidates: Seq<Option<Pep440View>>)
    ensures
        newest_python(candidates) matches Some(best) ==> candidates.contains(Some(best)),
        newest_python(candidates) is None ==> forall|i: int|
            0 <= i < candidates.len() ==> (#[trigger] candidates[i]) is None,
    decreases candidates.len(),
{
    if candidates.len() > 0 {
        let head = candidates.drop_last();
        lemma_newest_python(head);
        let last = candidates.len() - 1;
        assert(candidates[last] == candidates.last());
        if let Some(best) = newest_python(candidates) {
            if head.contains(Some(best)) {
                let i = choose|i: int| 0 <= i < head.len() && head[i] == Some(best);
                assert(candidates[i] == Some(best));
            }
        } else {
            assert forall|i: int| 0 <= i < candidates.len() implies (
            #[trigger] candidates[i]) is None by {
                if i < last {
                    assert(candidates[i] == head[i]);
                }
            }
        }
    }
}

// ---------------------------------------------------------------------------
// Repositories
// ---------------------------------------------------------------------------

/// The address of a repository, in a form that a browser opens: what stands behind
/// `git+`, and web addresses for what is written with `git://`, `github:` and
/// `gitlab:`; another address stays. White space around it does not matter.
pub proof fn repository_address_opens(url: Seq<char>, rest: Seq<char>)
    ensures
        trimmed(url) == "git+"@ + rest ==> browsable_url(url) == rest,
        trimmed(url) == "git://"@ + rest ==> browsable_url(url) == "https://"@ + rest,
        trimmed(url) == "github:"@ + rest ==> browsable_url(url) == "https://github.com/"@ + rest,
        trimmed(url) == "gitlab:"@ + rest ==> browsable_url(url) == "https://gitlab.com/"@ + rest,
        trimmed(url).len() == 0 || trimmed(url)[0] != 'g' ==> browsable_url(url) == trimmed(url),
        !"git+"@.is_prefix_of(trimmed(url)) && !"git://"@.is_prefix_of(trimmed(url))
            && !"github:"@.is_prefix_of(trimmed(url)) && !"gitlab:"@.is_prefix_of(trimmed(url))
            ==> browsable_url(url) == trimmed(url),
{
    reveal_strlit("git+");
    reveal_strlit("git://");
    reveal_strlit("github:");
    reveal_strlit("gitlab:");
    let clean = trimmed(url);
    if clean == "git+"@ + rest {
        assert("git+"@ =~= clean.take("git+"@.len() as int));
        assert(clean.skip("git+"@.len() as int) =~= rest);
    }
    if clean == "git://"@ + rest {
        assert(clean[3] == ':');
        assert("git://"@ =~= clean.take("git://"@.len() as int));
        assert(clean.skip("git://"@.len() as int) =~= rest);
    }
    if clean == "github:"@ + rest {
        assert(clean[3] == 'h');
        assert("github:"@ =~= clean.take("github:"@.len() as int));
        assert(clean.skip("github:"@.len() as int) =~= rest);
    }
    if clean == "gitlab:"@ + rest {
        assert(clean[3] == 'l');
        assert("gitlab:"@ =~= clean.take("gitlab:"@.len() as int));
        assert(clean.skip("gitlab:"@.len() as int) =~= rest);
    }
    if clean.len() == 0 || clean[0] != 'g' {
        assert("git+"@[0] == 'g');
        assert("git://"@[0] == 'g');
        assert("github:"@[0] == 'g');
        assert("gitlab:"@[0] == 'g');
    }
}

/// The keys under which a Python project's repository is looked for, in their order.
pub open spec fn repository_keys() -> Seq<Seq<char>> {
    seq!["Source"@, "Repository"@, "Source Code"@, "Code"@, "Homepage"@, "Home"@]
}

/// A key of a Python project's addresses leads to one that is not empty.
pub open spec fn leads_to(urls: Seq<(String, String)>, key: Seq<char>, i: int) -> bool {
    is_first_under(urls, i, key) && urls[i].1@.len() > 0
}

/// The repository of a Python project is the address under the first of the known
/// keys that leads to one.
pub proof fn first_known_key_decides(urls: Seq<(String, String)>, k: int, i: int)
    requires
        0 <= k < 6,
        leads_to(urls, repository_keys()[k], i),
        forall|m: int| 0 <= m < k ==> !exists|j: int| #[trigger] leads_to(
            urls,
            #[trigger] repository_keys()[m],
            j,
        ),
    ensures
        project_url(urls) == Some(urls[i].1@),
{
    let keys = repository_keys();
    assert forall|m: int| 0 <= m < 6 && (forall|j: int| !#[trigger] leads_to(urls, keys[m], j))
        implies url_under(urls, #[trigger] keys[m]) is None by {
        lemma_url_under(urls, keys[m]);
    }
    lemma_value_under(urls, keys[k]);
    assert(url_under(urls, keys[k]) == Some(urls[i].1@));
    assert forall|m: int| 0 <= m < k implies url_under(urls, #[trigger] keys[m]) is None by {
        assert(forall|j: int| !#[trigger] leads_to(urls, keys[m], j));
    }
    assert(0 < k ==> url_under(urls, keys[0]) is None);
    assert(1 < k ==> url_under(urls, keys[1]) is None);
    assert(2 < k ==> url_under(urls, keys[2]) is None);
    assert(3 < k ==> url_under(urls, keys[3]) is None);
    assert(4 < k ==> url_under(urls, keys[4]) is None);
}

/// Where none of the known keys leads to an address, none of the addresses is the
/// repository.
pub(crate) proof fn lemma_no_known_key(urls: Seq<(String, String)>)
    requires
        forall|k: int, i: int|
            0 <= k < 6 ==> !#[trigger] leads_to(urls, repository_keys()[k], i),
    ensures
        project_url(urls) is None,
{
    let keys = repository_keys();
    assert forall|k: int| 0 <= k < 6 implies url_under(urls, #[trigger] keys[k]) is None by {
        lemma_url_under(urls, keys[k]);
    }
    assert(url_under(urls, keys[0]) is None);
    assert(url_under(urls, keys[1]) is None);
    assert(url_under(urls, keys[2]) is None);
    assert(url_under(urls, keys[3]) is None);
    assert(url_under(urls, keys[4]) is None);
    assert(url_under(urls, keys[5]) is None);
}

/// Where no key leads to an address, there is none under it.
proof fn lemma_url_under(urls: Seq<(String, String)>, key: Seq<char>)
    requires
        forall|j: int| !#[trigger] leads_to(urls, key, j),
    ensures
        url_under(urls, key) is None,
{
    lemma_value_under(urls, key);
    if !is_none_under(urls, key) {
        let j = choose|j: int| 0 <= j < urls.len() && (#[trigger] urls[j]).0@ == key;
        let i = lemma_first_under(urls, key, j);
        assert(!leads_to(urls, key, i));
    }
}

/// A key that a pair has is had by a first pair.
proof fn lemma_first_under(pairs: Seq<(String, String)>, key: Seq<char>, j: int) -> (i: int)
    requires
        0 <= j < pairs.len(),
        pairs[j].0@ == key,
    ensures
        is_first_under(pairs, i, key),
    decreases j,
{
    if forall|m: int| 0 <= m < j ==> (#[trigger] pairs[m]).0@ != key {
        j
    } else {
        let m = choose|m: int| 0 <= m < j && (#[trigger] pairs[m]).0@ == key;
        lemma_first_under(pairs, key, m)
    }
}

} // verus!
