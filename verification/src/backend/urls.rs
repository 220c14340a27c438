//! Addresses of calendars and resources.
use vstd::prelude::*;

use crate::text;

verus! {

/// What `reqwest::Url::parse` finds in a text that is an address: its scheme, and whether it names
/// a host.
pub uninterp spec fn url_parts(address: Seq<char>) -> Option<(Seq<char>, bool)>;

/// The address that `reqwest::Url::join` makes of a base address and a reference, as text; none
/// where the base is no address or the two do not join.
pub uninterp spec fn url_joined(base: Seq<char>, reference: Seq<char>) -> Option<Seq<char>>;

/// `reqwest::Url::parse` with `scheme` and `host_str` of its result: named by [`url_parts`].
#[verifier::external_body]
fn reqwest_url_parts(address: &str) -> (r: Option<(String, bool)>)
    ensures
        parts_view(r) == url_parts(address@),
{
    match reqwest::Url::parse(address) {
        Ok(url) => Some((url.scheme().to_owned(), url.host_str().is_some())),
        Err(_) => None,
    }
}

/// `reqwest::Url::join` on the address that `Url::parse` reads, written back by `to_string`: named
/// by [`url_joined`].
#[verifier::external_body]
fn reqwest_url_joined(base: &str, reference: &str) -> (r: Option<String>)
    ensures
        crate::model::text_view(r) == url_joined(base@, reference@),
{
    match reqwest::Url::parse(base).and_then(|url| url.join(reference)) {
        Ok(url) => Some(url.to_string()),
        Err(_) => None,
    }
}

/// The contents of a scheme with its host mark.
pub open spec fn parts_view(parts: Option<(String, bool)>) -> Option<(Seq<char>, bool)> {
    match parts {
        Some((scheme, host)) => Some((scheme@, host)),
        None => None,
    }
}

/// Whether a text is an address that HTTP requests can go to, by what was found in it.
pub open spec fn is_http_parts(parts: Option<(Seq<char>, bool)>) -> bool {
    parts matches Some((scheme, host)) && host && (scheme == "http"@ || scheme == "https"@)
}

/// Whether a text is an address that HTTP requests can go to.
pub open spec fn is_http(address: Seq<char>) -> bool {
    is_http_parts(url_parts(address))
}

/// Whether what was found in a text makes it an address that HTTP requests can go to.
pub fn has_http_parts(parts: &Option<(String, bool)>) -> (r: bool)
    ensures
        r == is_http_parts(parts_view(*parts)),
{
    match parts {
        Some((scheme, host)) => *host && (text::same_text(scheme.as_str(), "http")
            || text::same_text(scheme.as_str(), "https")),
        None => false,
    }
}

/// Whether a text is an address that HTTP requests can go to: it has a host, and its scheme is
/// `http` or `https`.
pub fn is_http_url(address: &str) -> (r: bool)
    ensures
        r == is_http(address@),
{
    has_http_parts(&reqwest_url_parts(address))
}

/// Whether a text is an address.
pub fn is_url(address: &str) -> (r: bool)
    ensures
        r == url_parts(address@) is Some,
{
    reqwest_url_parts(address).is_some()
}

/// The address that a reference found under a base address means; none where the base is no
/// address or the two do not join.
pub fn resolve_href(base: &str, href: &str) -> (r: Option<String>)
    ensures
        crate::model::text_view(r) == url_joined(base@, href@),
{
    reqwest_url_joined(base, href)
}

/// An address of the web has one of its two schemes and a host.
pub proof fn law_addresses_of_the_web(scheme: Seq<char>, host: bool)
    ensures
        is_http_parts(None) == false,
        is_http_parts(Some((scheme, host))) <==> host && seq!["http"@, "https"@].contains(scheme),
{
    let known = seq!["http"@, "https"@];
    assert(known[0] == "http"@ && known[1] == "https"@);
}

} // verus!
