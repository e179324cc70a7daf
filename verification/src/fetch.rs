//! How a registry is asked, and what its answers mean before they are read.

use crate::manifest::Registry;
use crate::outside::{encoded_bytes, percent_encode};
use vstd::prelude::*;
use vstd::string::StringExecFns;
use vstd::utf8::encode_utf8;

verus! {

/// The address that a registry answers at for a package.
pub open spec fn package_address(registry: Registry, name: Seq<char>) -> Seq<char> {
    match registry {
        Registry::Cargo => "https://crates.io/api/v1/crates/"@ + name,
        Registry::Npm => "https://registry.npmjs.org/"@ + encoded_bytes(encode_utf8(name)),
        Registry::Pypi => "https://pypi.org/pypi/"@ + encoded_bytes(encode_utf8(name)) + "/json"@,
    }
}

/// The address that a registry answers at for a package.
pub fn request_url(registry: Registry, name: &str) -> (url: String)
    ensures
        url@ == package_address(registry, name@),
{
    match registry {
        Registry::Cargo => joined("https://crates.io/api/v1/crates/", name),
        Registry::Npm => {
            let encoded = percent_encode(name);
            joined("https://registry.npmjs.org/", encoded.as_str())
        },
        Registry::Pypi => {
            let encoded = percent_encode(name);
            let mut url = joined("https://pypi.org/pypi/", encoded.as_str());
            url.append("/json");
            url
        },
    }
}

/// Two texts, one behind the other.
pub fn joined(a: &str, b: &str) -> (text: String)
    ensures
        text@ == a@ + b@,
{
    let mut text = a.to_string();
    text.append(b);
    text
}

/// What is said of a request that did not go through.
pub open spec fn request_failure(registry: Registry, error: Seq<char>) -> Seq<char> {
    match registry {
        Registry::Cargo => "crates.io request failed: "@ + error,
        Registry::Npm => "npm registry request failed: "@ + error,
        Registry::Pypi => "PyPI request failed: "@ + error,
    }
}

/// Says that a request did not go through.
pub fn request_failed(registry: Registry, error: &str) -> (message: String)
    ensures
        message@ == request_failure(registry, error@),
{
    match registry {
        Registry::Cargo => joined("crates.io request failed: ", error),
        Registry::Npm => joined("npm registry request failed: ", error),
        Registry::Pypi => joined("PyPI request failed: ", error),
    }
}

/// What is said of an answer with an unsuccessful status.
pub open spec fn status_failure(registry: Registry, status: Seq<char>) -> Seq<char> {
    match registry {
        Registry::Cargo => "crates.io returned "@ + status,
        Registry::Npm => "npm registry returned "@ + status,
        Registry::Pypi => "PyPI returned "@ + status,
    }
}

/// What is said of an answer that cannot be read.
pub open spec fn body_failure(registry: Registry, error: Seq<char>) -> Seq<char> {
    match registry {
        Registry::Cargo => "crates.io response parse failed: "@ + error,
        Registry::Npm => "npm response parse failed: "@ + error,
        Registry::Pypi => "PyPI response parse failed: "@ + error,
    }
}

/// Says that an answer cannot be read.
pub fn body_failed(registry: Registry, error: &str) -> (message: String)
    ensures
        message@ == body_failure(registry, error@),
{
    match registry {
        Registry::Cargo => joined("crates.io response parse failed: ", error),
        Registry::Npm => joined("npm response parse failed: ", error),
        Registry::Pypi => joined("PyPI response parse failed: ", error),
    }
}

/// What the head of an answer calls for.
pub enum Head {
    /// The last answer still holds.
    NotModified,
    /// There is no answer, for this reason.
    Failed(String),
    /// The answer is in the body.
    Body,
}

/// What the head of an answer says.
pub enum HeadView {
    NotModified,
    Failed(Seq<char>),
    Body,
}

impl View for Head {
    type V = HeadView;

    open spec fn view(&self) -> HeadView {
        match self {
            Head::NotModified => HeadView::NotModified,
            Head::Failed(reason) => HeadView::Failed(reason@),
            Head::Body => HeadView::Body,
        }
    }
}

/// What the status of an answer calls for.
pub open spec fn head_of(registry: Registry, status: u16, status_text: Seq<char>) -> HeadView {
    if status == 304 {
        HeadView::NotModified
    } else if 200 <= status < 300 {
        HeadView::Body
    } else {
        HeadView::Failed(status_failure(registry, status_text))
    }
}

/// Reads the status of an answer.
pub fn read_head(registry: Registry, status: u16, status_text: &str) -> (head: Head)
    ensures
        head@ == head_of(registry, status, status_text@),
{
    if status == 304 {
        Head::NotModified
    } else if status >= 200 && status < 300 {
        Head::Body
    } else {
        Head::Failed(
            match registry {
                Registry::Cargo => joined("crates.io returned ", status_text),
                Registry::Npm => joined("npm registry returned ", status_text),
                Registry::Pypi => joined("PyPI returned ", status_text),
            },
        )
    }
}

} // verus!
