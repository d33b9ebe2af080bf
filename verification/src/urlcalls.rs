//! The trusted boundary to the `url` crate. The request builder hands
//! a URL string in and gets plain parts back; which strings parse and
//! what parts they carry is the `url` crate's decision, a function of
//! the string alone, so each outcome is given a name that the
//! builder's contract can speak of.

use vstd::prelude::*;

verus! {

/// Does the string parse as an absolute URL? Relies on `url::Url::parse`.
pub uninterp spec fn url_parses(s: Seq<char>) -> bool;

/// The host of the parsed URL, when it has one (`url::Url::host_str`).
pub uninterp spec fn url_host_of(s: Seq<char>) -> Option<Seq<char>>;

/// The explicit port or the scheme's default, when known
/// (`url::Url::port_or_known_default`).
pub uninterp spec fn url_port_of(s: Seq<char>) -> Option<u16>;

/// The scheme of the parsed URL (`url::Url::scheme`).
pub uninterp spec fn url_scheme_of(s: Seq<char>) -> Seq<char>;

/// The path of the parsed URL (`url::Url::path`).
pub uninterp spec fn url_path_of(s: Seq<char>) -> Seq<char>;

/// The query string of the parsed URL, when one is present
/// (`url::Url::query`).
pub uninterp spec fn url_query_of(s: Seq<char>) -> Option<Seq<char>>;

/// Is the host a registered name rather than an IP address
/// (`url::Url::domain`)?
pub uninterp spec fn url_is_domain(s: Seq<char>) -> bool;

/// The plain parts of a parsed URL.
pub struct UrlParts {
    pub scheme: String,
    pub host: String,
    pub port: u16,
    pub path: String,
    pub query: Option<String>,
    pub is_domain: bool,
}

/// Why a URL string yields no parts: it does not parse, or it parses
/// but carries no host, or no port is known for its scheme.
pub enum UrlPartsError {
    Parse(String),
    NoHost,
    NoPort,
}

/// Relies on `url::Url::parse` and its accessors `scheme`, `host_str`,
/// `domain`, `port_or_known_default`, `path` and `query`: all are
/// functions of the URL string alone. Succeeds exactly when the string
/// parses and a host and a port are known, and then returns the named
/// parts; otherwise says which of the three was missing.
#[verifier::external_body]
pub fn parse_url_parts(s: &str) -> (r: Result<UrlParts, UrlPartsError>)
    ensures
        match r {
            Ok(p) => {
                &&& url_parses(s@)
                &&& url_host_of(s@) matches Some(h) && p.host@ == h
                &&& url_port_of(s@) matches Some(pt) && p.port == pt
                &&& p.scheme@ == url_scheme_of(s@)
                &&& p.path@ == url_path_of(s@)
                &&& match p.query {
                    Some(q) => url_query_of(s@) matches Some(qq) && q@ == qq,
                    None => url_query_of(s@) is None,
                }
                &&& p.is_domain == url_is_domain(s@)
            },
            Err(e) => match e {
                UrlPartsError::Parse(_) => !url_parses(s@),
                UrlPartsError::NoHost => url_parses(s@) && url_host_of(s@) is None,
                UrlPartsError::NoPort => url_parses(s@) && url_host_of(s@) is Some && url_port_of(
                    s@,
                ) is None,
            },
        },
{
    match url::Url::parse(s) {
        Err(e) => Err(UrlPartsError::Parse(format!("{}", e))),
        Ok(u) => match (u.host_str(), u.port_or_known_default()) {
            (None, _) => Err(UrlPartsError::NoHost),
            (Some(_), None) => Err(UrlPartsError::NoPort),
            (Some(h), Some(port)) => Ok(UrlParts {
                scheme: u.scheme().to_string(), host: h.to_string(), port,
                path: u.path().to_string(), query: u.query().map(|q| q.to_string()),
                is_domain: u.domain().is_some(),
            }),
        },
    }
}

} // verus!
