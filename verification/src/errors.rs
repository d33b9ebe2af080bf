//! The error taxonomy. Every failure the library can surface is one
//! variant of [`CabotError`]; causes coming from outside the library
//! (sockets, TLS, URL parsing, UTF-8 decoding) are carried as their
//! display text.

use crate::ascii::dec_chars;
use vstd::prelude::*;
use vstd::string::StringExecFns;

verus! {

#[derive(Debug)]
pub enum CabotError {
    DNSLookupError(String),
    HostnameParseError(String),
    HttpResponseParseError(String),
    OpaqueUrlError(String),
    SchemeError(String),
    MaxRedirectionAttempt(u8),
    CertificateError(String),
    EncodingError(String),
    IOError(String),
    UrlParseError(String),
}

/// The display text of an error.
pub open spec fn spec_description(e: &CabotError) -> Seq<char> {
    match e {
        CabotError::DNSLookupError(d) => "DNS Lookup Error: "@ + d@,
        CabotError::HostnameParseError(d) => "Invalid Hostname: "@ + d@,
        CabotError::HttpResponseParseError(d) => "HTTP Response Parse Error: "@ + d@,
        CabotError::OpaqueUrlError(d) => "Opaque URL Error: "@ + d@,
        CabotError::SchemeError(d) => "Unmanaged Scheme: "@ + d@,
        CabotError::MaxRedirectionAttempt(m) => "Maximum redirection attempt: "@ + dec_chars(
            *m as nat,
        ),
        CabotError::CertificateError(d) => "Certificate Error: "@ + d@,
        CabotError::EncodingError(d) => "Utf8 Encoding Error: "@ + d@,
        CabotError::IOError(d) => "IO Error: "@ + d@,
        CabotError::UrlParseError(d) => "URL Parse Error: "@ + d@,
    }
}

impl CabotError {
    /// One line of text describing the error, with its detail appended.
    pub fn description(&self) -> (r: String)
        ensures
            r@ == spec_description(self),
    {
        match self {
            CabotError::DNSLookupError(d) => {
                let mut r = "DNS Lookup Error: ".to_owned();
                r.append(d.as_str());
                r
            },
            CabotError::HostnameParseError(d) => {
                let mut r = "Invalid Hostname: ".to_owned();
                r.append(d.as_str());
                r
            },
            CabotError::HttpResponseParseError(d) => {
                let mut r = "HTTP Response Parse Error: ".to_owned();
                r.append(d.as_str());
                r
            },
            CabotError::OpaqueUrlError(d) => {
                let mut r = "Opaque URL Error: ".to_owned();
                r.append(d.as_str());
                r
            },
            CabotError::SchemeError(d) => {
                let mut r = "Unmanaged Scheme: ".to_owned();
                r.append(d.as_str());
                r
            },
            CabotError::MaxRedirectionAttempt(m) => {
                let mut r = "Maximum redirection attempt: ".to_owned();
                let digits = crate::ascii::dec_string(*m as u64);
                r.append(digits.as_str());
                r
            },
            CabotError::CertificateError(d) => {
                let mut r = "Certificate Error: ".to_owned();
                r.append(d.as_str());
                r
            },
            CabotError::EncodingError(d) => {
                let mut r = "Utf8 Encoding Error: ".to_owned();
                r.append(d.as_str());
                r
            },
            CabotError::IOError(d) => {
                let mut r = "IO Error: ".to_owned();
                r.append(d.as_str());
                r
            },
            CabotError::UrlParseError(d) => {
                let mut r = "URL Parse Error: ".to_owned();
                r.append(d.as_str());
                r
            },
        }
    }
}

} // verus!
