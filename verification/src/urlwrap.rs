//! Absolute-URL splitting, delegated to the `url` crate.
//!
//! The forwarding and rewriting logic only ever reads three things of a
//! URL: its scheme, its host text, and its explicit port.  What those are
//! for a given input is fixed by the URL grammar, which is far too large to
//! restate here, so the three results are given opaque names and every
//! caller's contract speaks through them.

use vstd::prelude::*;

verus! {

/// Whether the bytes parse as an absolute URL with a host.
pub uninterp spec fn url_parses(s: Seq<u8>) -> bool;

/// The scheme of such a URL.
pub uninterp spec fn url_scheme_of(s: Seq<u8>) -> Seq<u8>;

/// The host text of such a URL.
pub uninterp spec fn url_host_of(s: Seq<u8>) -> Seq<u8>;

/// The explicit port of such a URL, if it has one.
pub uninterp spec fn url_port_of(s: Seq<u8>) -> Option<u16>;

/// The three parts of an absolute URL that the proxy logic reads.
pub struct UrlParts {
    pub scheme: Vec<u8>,
    pub host: Vec<u8>,
    pub port: Option<u16>,
}

/// Relies on `url::Url::parse` together with its `scheme`, `host_str` and
/// `port` accessors: the bytes are taken as UTF-8 text and split as an
/// absolute URL; it succeeds exactly when the text parses and names a host.
#[verifier::external_body]
pub fn parse_url(s: &[u8]) -> (r: Option<UrlParts>)
    ensures
        r is Some <==> url_parses(s@),
        r matches Some(p) ==> p.scheme@ == url_scheme_of(s@) && p.host@ == url_host_of(s@)
            && p.port == url_port_of(s@),
{
    let text = std::str::from_utf8(s).ok()?;
    let u = url::Url::parse(text).ok()?;
    let host = u.host_str()?.as_bytes().to_vec();
    Some(UrlParts { scheme: u.scheme().as_bytes().to_vec(), host, port: u.port() })
}

} // verus!
