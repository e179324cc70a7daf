//! How the registries are asked, and what becomes of their answers.

use crate::cache::{kept_after, latest_step, KeptView, LatestStep};
use crate::fetch::{body_failure, head_of, package_address, request_failure, HeadView};
use crate::manifest::{DependencyVersionView, Registry};
use crate::newest::{newest, newest_python};
use crate::outside::{encoded_byte, encoded_bytes};
use crate::registry::{
    body_info, browsable_url, crate_candidates, npm_latest, project_url, pypi_candidates,
    pypi_repository, Body, CratesResponse, NpmResponse, PypiInfo, PypiResponse,
};
use crate::registry_laws::{leads_to, lemma_no_known_key, repository_keys};
use crate::text::is_ascii_alphanumeric;
use vstd::prelude::*;
use vstd::utf8::{encode_utf8, is_ascii_chars, is_ascii_chars_encode_utf8};

verus! {

// ---------------------------------------------------------------------------
// Requests
// ---------------------------------------------------------------------------

/// Letters and digits.
pub open spec fn is_plain_word(name: Seq<char>) -> bool {
    forall|i: int| 0 <= i < name.len() ==> is_ascii_alphanumeric(#[trigger] name[i])
}

/// Bytes of letters and digits stand in an address as they are.
proof fn lemma_encoded(bytes: Seq<u8>, name: Seq<char>)
    requires
        bytes.len() == name.len(),
        is_plain_word(name),
        forall|i: int| 0 <= i < name.len() ==> #[trigger] bytes[i] == name[i] as u8,
    ensures
        encoded_bytes(bytes) == name,
    decreases name.len(),
{
    if name.len() > 0 {
        let last = name.len() - 1;
        lemma_encoded(bytes.drop_last(), name.drop_last());
        assert(is_ascii_alphanumeric(name[last]));
        assert(bytes[last] == name[last] as u8);
        assert((name[last] as u8) as char == name[last]);
        assert(encoded_byte(bytes.last()) =~= seq![name.last()]);
        assert(name.drop_last() + seq![name.last()] =~= name);
    } else {
        assert(encoded_bytes(bytes) =~= name);
    }
}

/// A package whose name is made of letters and digits is asked for at its registry by
/// that name.
pub proof fn packages_are_asked_for_by_name(name: Seq<char>)
    requires
        is_plain_word(name),
    ensures
        package_address(Registry::Cargo, name) == "https://crates.io/api/v1/crates/"@ + name,
        package_address(Registry::Npm, name) == "https://registry.npmjs.org/"@ + name,
        package_address(Registry::Pypi, name) == "https://pypi.org/pypi/"@ + name + "/json"@,
{
    assert(is_ascii_chars(name)) by {
        assert forall|i: int| 0 <= i < name.len() implies '\0' <= #[trigger] name[i]
            <= '\u{7f}' by {
            assert(is_ascii_alphanumeric(name[i]));
        }
    }
    is_ascii_chars_encode_utf8(name);
    assert forall|i: int| 0 <= i < name.len() implies #[trigger] encode_utf8(name)[i]
        == name[i] as u8 by {}
    lemma_encoded(encode_utf8(name), name);
}

/// The addresses of all packages begin with that of their registry; crates.io is asked
/// for the name as it is, npm and PyPI for its bytes in the form of an address.
pub proof fn packages_are_asked_for_at_their_registry(name: Seq<char>)
    ensures
        package_address(Registry::Cargo, name) == "https://crates.io/api/v1/crates/"@ + name,
        package_address(Registry::Npm, name) == "https://registry.npmjs.org/"@ + encoded_bytes(
            encode_utf8(name),
        ),
        package_address(Registry::Pypi, name) == "https://pypi.org/pypi/"@ + encoded_bytes(
            encode_utf8(name),
        ) + "/json"@,
{
}

/// A byte that is neither a letter nor a digit takes a percent sign and two digits of
/// sixteen, the higher one first.
pub proof fn other_bytes_are_escaped(bytes: Seq<u8>, b: u8)
    ensures
        encoded_bytes(Seq::empty()).len() == 0,
        ({
            let head = encoded_bytes(bytes);
            let whole = encoded_bytes(bytes.push(b));
            &&& b < 128 && is_ascii_alphanumeric(b as char) ==> whole == head.push(b as char)
            &&& !(b < 128 && is_ascii_alphanumeric(b as char)) ==> whole.len() == head.len() + 3
                && whole.take(head.len() as int) == head && whole[head.len() as int] == '%'
        }),
        b == 0x20 && bytes.len() == 0 ==> encoded_bytes(bytes.push(b)) == seq!['%', '2', '0'],
        b == 0x2f && bytes.len() == 0 ==> encoded_bytes(bytes.push(b)) == seq!['%', '2', 'F'],
        b == 0x40 && bytes.len() == 0 ==> encoded_bytes(bytes.push(b)) == seq!['%', '4', '0'],
{
    let head = encoded_bytes(bytes);
    assert(bytes.push(b).drop_last() =~= bytes);
    assert(encoded_bytes(bytes.push(b)) == head + encoded_byte(b));
    assert((head + encoded_byte(b)).take(head.len() as int) =~= head);
    if b < 128 && is_ascii_alphanumeric(b as char) {
        assert(head + encoded_byte(b) =~= head.push(b as char));
    }
    if bytes.len() == 0 {
        assert(head + encoded_byte(b) =~= encoded_byte(b));
    }
}

// ---------------------------------------------------------------------------
// Answers
// ---------------------------------------------------------------------------

/// The status of an answer decides: a success has a body, 304 says that nothing has
/// changed, and every other status is a failure, which names the registry and the
/// status.
pub proof fn status_decides(registry: Registry, status: u16, status_text: Seq<char>)
    ensures
        ({
            let head = head_of(registry, status, status_text);
            &&& head is NotModified <==> status == 304
            &&& head is Body <==> status / 100 == 2
            &&& head is Failed <==> status != 304 && status / 100 != 2
            &&& head matches HeadView::Failed(reason) ==> {
                &&& registry == Registry::Cargo ==> reason == "crates.io returned "@ + status_text
                &&& registry == Registry::Npm ==> reason == "npm registry returned "@ + status_text
                &&& registry == Registry::Pypi ==> reason == "PyPI returned "@ + status_text
            }
        }),
{
}

/// What is said of a failure names the registry, what failed, and the error.
pub proof fn failures_name_the_registry(error: Seq<char>)
    ensures
        request_failure(Registry::Cargo, error) == "crates.io request failed: "@ + error,
        request_failure(Registry::Npm, error) == "npm registry request failed: "@ + error,
        request_failure(Registry::Pypi, error) == "PyPI request failed: "@ + error,
        body_failure(Registry::Cargo, error) == "crates.io response parse failed: "@ + error,
        body_failure(Registry::Npm, error) == "npm response parse failed: "@ + error,
        body_failure(Registry::Pypi, error) == "PyPI response parse failed: "@ + error,
{
}

/// An answer of crates.io offers the newest of its versions that can be had, and names
/// the repository that it gives, unless that is empty.
pub proof fn crate_answer_is_read(answer: CratesResponse)
    ensures
        ({
            let info = body_info(Body::Crates(answer));
            &&& newest(crate_candidates(answer.versions@)) matches Some(v) ==> info.version == Some(
                DependencyVersionView::Semver(v),
            )
            &&& newest(crate_candidates(answer.versions@)) is None ==> info.version is None
            &&& answer.crate_info.repository matches Some(url) ==> {
                &&& url@.len() > 0 ==> info.repository_url == Some(url@)
                &&& url@.len() == 0 ==> info.repository_url is None
            }
            &&& answer.crate_info.repository is None ==> info.repository_url is None
        }),
{
}

/// An answer of the npm registry offers its version, and names the repository that it
/// gives, in a form that a browser opens.
pub proof fn npm_answer_is_read(answer: NpmResponse)
    ensures
        ({
            let info = body_info(Body::Npm(answer));
            &&& npm_latest(answer.dist_tags@, answer.versions@) matches Some(v) ==> info.version
                == Some(DependencyVersionView::Semver(v))
            &&& npm_latest(answer.dist_tags@, answer.versions@) is None ==> info.version is None
            &&& answer.repository matches Some(r) ==> {
                &&& r.url matches Some(url) ==> info.repository_url == Some(browsable_url(url@))
                &&& r.url is None ==> info.repository_url is None
            }
            &&& answer.repository is None ==> info.repository_url is None
        }),
{
}

/// An answer of PyPI offers the newest of its releases that can be had, and names the
/// repository of the project.
pub proof fn pypi_answer_is_read(answer: PypiResponse)
    ensures
        ({
            let info = body_info(Body::Pypi(answer));
            &&& newest_python(pypi_candidates(answer.releases@)) matches Some(v) ==> info.version
                == Some(DependencyVersionView::Pep440(v))
            &&& newest_python(pypi_candidates(answer.releases@)) is None ==> info.version is None
            &&& info.repository_url == pypi_repository(answer.info)
        }),
{
}

/// A Python project whose addresses lead to none has its home page in place of a
/// repository, unless that is empty; one whose addresses lead to one has that.
pub proof fn home_page_stands_in(info: PypiInfo)
    ensures
        info.project_urls matches Some(urls) ==> (project_url(urls@) is Some ==> pypi_repository(
            info,
        ) == project_url(urls@)),
        (info.project_urls matches Some(urls) ==> forall|k: int, i: int|
            0 <= k < 6 ==> !#[trigger] leads_to(urls@, repository_keys()[k], i)) ==> {
            &&& info.home_page matches Some(url) ==> {
                &&& url@.len() > 0 ==> pypi_repository(info) == Some(url@)
                &&& url@.len() == 0 ==> pypi_repository(info) is None
            }
            &&& info.home_page is None ==> pypi_repository(info) is None
        },
{
    if let Some(urls) = info.project_urls {
        if forall|k: int, i: int|
            0 <= k < 6 ==> !#[trigger] leads_to(urls@, repository_keys()[k], i) {
            lemma_no_known_key(urls@);
        }
    }
}

// ---------------------------------------------------------------------------
// What is kept
// ---------------------------------------------------------------------------

/// A fresh answer takes the place of whatever was kept, with its tag and its time; news
/// that nothing has changed makes the kept answer new again; and where nothing was
/// kept, it is a failure.
pub proof fn fresh_answer_is_kept<T>(
    kept: Option<KeptView<T>>,
    result: Result<T, Seq<char>>,
    etag: Option<Seq<char>>,
    now: u128,
)
    ensures
        kept_after(kept, Some((result, etag)), now) == (KeptView { fetched_at: now, etag, result }),
        kept_after(kept, None, now).fetched_at == now,
        kept matches Some(k) ==> kept_after(kept, None, now).result == k.result && kept_after(
            kept,
            None,
            now,
        ).etag == k.etag,
        kept is None ==> kept_after(kept, None, now).result == Err::<T, Seq<char>>(
            "Registry cache entry expired before refresh"@,
        ),
{
}

/// A package of which nothing is kept is fetched, without a tag; one that was fetched
/// is taken as it is kept for ten minutes, counted in nanoseconds, errors too, and then
/// fetched again with the tag of the last answer.
pub proof fn kept_answer_is_taken<T>(kept: KeptView<T>, url: Seq<char>, now: u128)
    ensures
        latest_step(None::<KeptView<T>>, url, now) == (
        LatestStep::<T>::Fetch { url, etag: None }),
        now - kept.fetched_at < 600_000_000_000 ==> latest_step(Some(kept), url, now)
            == LatestStep::Known(kept.result),
        now - kept.fetched_at >= 600_000_000_000 ==> latest_step(Some(kept), url, now)
            == (LatestStep::<T>::Fetch { url, etag: kept.etag }),
{
}

} // verus!
