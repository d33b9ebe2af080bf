//! HTTP request handling: the [`Request`] model, its wire serialization,
//! and the [`RequestBuilder`] that parses a URL and assembles a request.
//!
//! Contracts about text are stated over the UTF-8 encoding of the string
//! fields, so the serialized form is pinned down byte for byte.

use crate::ascii::{
    bytes_has_prefix, dec_chars, dec_digits, dec_string, format_dec, lemma_dec_digits_value,
};
use crate::errors::CabotError;
use crate::results::CabotResult;
use crate::strconv::{
    bytes_to_vec, extend_bytes, lemma_ascii_bytes_valid_utf8, lemma_encode_utf8_concat,
    string_from_utf8,
};
use crate::urlcalls::{
    url_host_of, url_is_domain, url_parses, url_path_of, url_port_of, url_query_of, url_scheme_of,
    UrlPartsError,
};
use vstd::prelude::*;
use vstd::string::StringSliceAdditionalSpecFns;
use vstd::string::StringExecFns;
use vstd::utf8::{encode_utf8, is_ascii_chars, valid_utf8};

verus! {

/// An HTTP request: everything needed to drive one wire exchange.
///
/// `headers` holds caller-supplied header lines (each already formatted
/// as `Name: value`, without the terminating CRLF). `Host`, `Connection`
/// and `Content-Length` are not stored here: they are synthesized when
/// the request is serialized.
pub struct Request {
    pub host: String,
    pub port: u16,
    pub authority: String,
    pub is_domain: bool,
    pub scheme: String,
    pub http_method: String,
    pub request_uri: String,
    pub http_version: String,
    pub headers: Vec<String>,
    pub body: Option<Vec<u8>>,
}

/// The serialized caller-supplied header lines: each line's bytes
/// followed by CRLF, in order.
pub open spec fn spec_header_lines(headers: Seq<String>) -> Seq<u8>
    decreases headers.len(),
{
    if headers.len() == 0 {
        Seq::<u8>::empty()
    } else {
        spec_header_lines(headers.drop_last()) + encode_utf8(headers.last()@) + encode_utf8(
            "\r\n"@,
        )
    }
}

/// The serialized request line: `method SP request-target SP version CRLF`.
pub open spec fn spec_request_line(r: &Request) -> Seq<u8> {
    encode_utf8(r.http_method@) + encode_utf8(" "@) + encode_utf8(r.request_uri@) + encode_utf8(
        " "@,
    ) + encode_utf8(r.http_version@) + encode_utf8("\r\n"@)
}

/// The `Host` line, present exactly when the host is a registered name.
pub open spec fn spec_host_line(r: &Request) -> Seq<u8> {
    if r.is_domain {
        encode_utf8("Host: "@) + encode_utf8(r.host@) + encode_utf8("\r\n"@)
    } else {
        Seq::<u8>::empty()
    }
}

/// What follows the `Connection: close` line: either a bare CRLF, or a
/// `Content-Length` line, a blank line, and the body bytes.
pub open spec fn spec_request_tail(r: &Request) -> Seq<u8> {
    match r.body {
        Some(b) => encode_utf8("Content-Length: "@) + dec_digits(b@.len()) + encode_utf8(
            "\r\n\r\n"@,
        ) + b@,
        None => encode_utf8("\r\n"@),
    }
}

/// The complete wire form of a request.
pub open spec fn spec_request_bytes(r: &Request) -> Seq<u8> {
    spec_request_line(r) + spec_header_lines(r.headers@) + spec_host_line(r) + encode_utf8(
        "Connection: close\r\n"@,
    ) + spec_request_tail(r)
}

impl Request {
    pub fn new(
        host: String,
        port: u16,
        authority: String,
        is_domain: bool,
        scheme: String,
        http_method: String,
        request_uri: String,
        http_version: String,
        headers: Vec<String>,
        body: Option<Vec<u8>>,
    ) -> (r: Request)
        ensures
            r.host == host,
            r.port == port,
            r.authority == authority,
            r.is_domain == is_domain,
            r.scheme == scheme,
            r.http_method == http_method,
            r.request_uri == request_uri,
            r.http_version == http_version,
            r.headers == headers,
            r.body == body,
    {
        Request {
            host,
            port,
            authority,
            is_domain,
            scheme,
            http_method,
            request_uri,
            http_version,
            headers,
            body,
        }
    }

    /// The HTTP verb used to perform the request, such as GET or POST.
    pub fn http_method(&self) -> (r: &str)
        ensures
            r@ == self.http_method@,
    {
        self.http_method.as_str()
    }

    /// The HTTP body of the request.
    pub fn body(&self) -> (r: Option<&[u8]>)
        ensures
            match r {
                Some(b) => self.body matches Some(bb) && b@ == bb@,
                None => self.body is None,
            },
    {
        match &self.body {
            None => None,
            Some(body) => Some(body.as_slice()),
        }
    }

    /// The body as a string, when the body is UTF-8.
    pub fn body_as_string(&self) -> (r: CabotResult<Option<String>>)
        ensures
            match r {
                Ok(Some(s)) => self.body matches Some(b) && valid_utf8(b@) && encode_utf8(s@)
                    == b@,
                Ok(None) => self.body is None,
                Err(e) => self.body matches Some(b) && !valid_utf8(b@) && e is EncodingError,
            },
    {
        match &self.body {
            None => Ok(None),
            Some(body) => {
                let copy = bytes_to_vec(body.as_slice());
                match string_from_utf8(copy) {
                    Ok(s) => Ok(Some(s)),
                    Err(detail) => Err(CabotError::EncodingError(detail)),
                }
            },
        }
    }

    /// The HTTP version used to perform the request.
    pub fn http_version(&self) -> (r: &str)
        ensures
            r@ == self.http_version@,
    {
        self.http_version.as_str()
    }

    /// The server to connect to: a name to resolve or an IP address.
    pub fn host(&self) -> (r: &str)
        ensures
            r@ == self.host@,
    {
        self.host.as_str()
    }

    /// The TCP port to connect to.
    pub fn port(&self) -> (r: u16)
        ensures
            r == self.port,
    {
        self.port
    }

    /// The authority part of the URL: `host:port`.
    pub fn authority(&self) -> (r: &str)
        ensures
            r@ == self.authority@,
    {
        self.authority.as_str()
    }

    /// The protocol scheme: `http` or `https`.
    pub fn scheme(&self) -> (r: &str)
        ensures
            r@ == self.scheme@,
    {
        self.scheme.as_str()
    }

    /// The request-target: the path with its optional query string.
    pub fn request_uri(&self) -> (r: &str)
        ensures
            r@ == self.request_uri@,
    {
        self.request_uri.as_str()
    }

    /// The caller-supplied header lines.
    pub fn headers(&self) -> (r: &Vec<String>)
        ensures
            r == &self.headers,
    {
        &self.headers
    }

    /// The bytes of the query to send to the server.
    pub fn to_bytes(&self) -> (r: Vec<u8>)
        ensures
            r@ == spec_request_bytes(self),
    {
        let mut resp: Vec<u8> = Vec::new();
        extend_bytes(&mut resp, self.http_method.as_str().as_bytes());
        extend_bytes(&mut resp, " ".as_bytes());
        extend_bytes(&mut resp, self.request_uri.as_str().as_bytes());
        extend_bytes(&mut resp, " ".as_bytes());
        extend_bytes(&mut resp, self.http_version.as_str().as_bytes());
        extend_bytes(&mut resp, "\r\n".as_bytes());
        assert(resp@ =~= spec_request_line(self));
        let mut i: usize = 0;
        while i < self.headers.len()
            invariant
                0 <= i <= self.headers@.len(),
                resp@ =~= spec_request_line(self) + spec_header_lines(self.headers@.take(i as int)),
            decreases self.headers@.len() - i,
        {
            extend_bytes(&mut resp, self.headers[i].as_str().as_bytes());
            extend_bytes(&mut resp, "\r\n".as_bytes());
            proof {
                let hs = self.headers@;
                assert(hs.take(i as int + 1).drop_last() =~= hs.take(i as int));
                assert(hs.take(i as int + 1).last() == hs[i as int]);
                assert(resp@ =~= spec_request_line(self) + spec_header_lines(
                    hs.take(i as int + 1),
                ));
            }
            i = i + 1;
        }
        proof {
            assert(self.headers@.take(self.headers@.len() as int) =~= self.headers@);
        }
        if self.is_domain {
            extend_bytes(&mut resp, "Host: ".as_bytes());
            extend_bytes(&mut resp, self.host.as_str().as_bytes());
            extend_bytes(&mut resp, "\r\n".as_bytes());
        }
        assert(resp@ =~= spec_request_line(self) + spec_header_lines(self.headers@)
            + spec_host_line(self));
        extend_bytes(&mut resp, "Connection: close\r\n".as_bytes());
        match &self.body {
            Some(payload) => {
                extend_bytes(&mut resp, "Content-Length: ".as_bytes());
                let digits = format_dec(payload.len());
                extend_bytes(&mut resp, digits.as_slice());
                extend_bytes(&mut resp, "\r\n\r\n".as_bytes());
                extend_bytes(&mut resp, payload.as_slice());
            },
            None => {
                extend_bytes(&mut resp, "\r\n".as_bytes());
            },
        }
        assert(resp@ =~= spec_request_bytes(self));
        resp
    }

    /// The text form of the query. The body, when present, must be UTF-8.
    pub fn to_string(&self) -> (r: String)
        requires
            self.body matches Some(b) ==> valid_utf8(b@),
        ensures
            encode_utf8(r@) == spec_request_bytes(self),
    {
        proof {
            lemma_request_bytes_valid(self);
        }
        let bytes = self.to_bytes();
        match string_from_utf8(bytes) {
            Ok(s) => s,
            Err(_) => {
                proof {
                    assert(false);
                }
                vstd::pervasive::unreached()
            },
        }
    }
}

/// The serialized header lines are valid UTF-8.
proof fn lemma_header_lines_valid(headers: Seq<String>)
    ensures
        valid_utf8(spec_header_lines(headers)),
    decreases headers.len(),
{
    broadcast use vstd::utf8::encode_utf8_valid_utf8, vstd::utf8::valid_utf8_concat;

    if headers.len() == 0 {
    } else {
        lemma_header_lines_valid(headers.drop_last());
    }
}

/// The wire form of a request whose body is UTF-8 (or absent) is valid
/// UTF-8 as a whole.
pub proof fn lemma_request_bytes_valid(r: &Request)
    requires
        r.body matches Some(b) ==> valid_utf8(b@),
    ensures
        valid_utf8(spec_request_bytes(r)),
{
    broadcast use vstd::utf8::encode_utf8_valid_utf8, vstd::utf8::valid_utf8_concat;

    lemma_header_lines_valid(r.headers@);
    let a1 = encode_utf8(r.http_method@);
    let a2 = encode_utf8(" "@);
    let a3 = encode_utf8(r.request_uri@);
    let a5 = encode_utf8(r.http_version@);
    let a6 = encode_utf8("\r\n"@);
    assert(valid_utf8(a1 + a2));
    assert(valid_utf8(a1 + a2 + a3));
    assert(valid_utf8(a1 + a2 + a3 + a2));
    assert(valid_utf8(a1 + a2 + a3 + a2 + a5));
    assert(valid_utf8(a1 + a2 + a3 + a2 + a5 + a6));
    let line = spec_request_line(r);
    assert(line == a1 + a2 + a3 + a2 + a5 + a6);
    let hs = spec_header_lines(r.headers@);
    assert(valid_utf8(line + hs));
    let host = spec_host_line(r);
    if r.is_domain {
        assert(valid_utf8(encode_utf8("Host: "@) + encode_utf8(r.host@)));
        assert(valid_utf8(encode_utf8("Host: "@) + encode_utf8(r.host@) + encode_utf8("\r\n"@)));
        assert(valid_utf8(host));
    } else {
        assert(valid_utf8(host));
    }
    assert(valid_utf8(line + hs + host));
    let conn = encode_utf8("Connection: close\r\n"@);
    assert(valid_utf8(line + hs + host + conn));
    let tail = spec_request_tail(r);
    match r.body {
        Some(b) => {
            lemma_dec_digits_value(b@.len());
            let d = dec_digits(b@.len());
            assert(forall|i: int| 0 <= i < d.len() ==> #[trigger] d[i] < 0x80);
            lemma_ascii_bytes_valid_utf8(d);
            let c1 = encode_utf8("Content-Length: "@);
            assert(valid_utf8(c1 + d));
            assert(valid_utf8(c1 + d + encode_utf8("\r\n\r\n"@)));
            assert(valid_utf8(c1 + d + encode_utf8("\r\n\r\n"@) + b@));
            assert(valid_utf8(tail));
        },
        None => {
            assert(valid_utf8(tail));
        },
    }
    assert(valid_utf8(line + hs + host + conn + tail));
    assert(spec_request_bytes(r) == line + hs + host + conn + tail);
}

/// Law (request round trip): the serialized request decomposes exactly
/// into the request line, the caller-supplied header lines, a `Host`
/// line present if and only if the host is a registered name, a single
/// `Connection: close` line, and the tail. It begins with
/// `method SP request-target SP version CRLF`. With a body, the tail
/// is a single `Content-Length` line for the body's exact length, a
/// blank line, and the body bytes, so the bytes end with CRLF CRLF
/// followed by the body; with no body, they end with CRLF CRLF.
#[verifier::rlimit(60)]
pub proof fn lemma_request_wire_format(r: &Request)
    ensures
        spec_request_bytes(r) == spec_request_line(r) + spec_header_lines(r.headers@)
            + spec_host_line(r) + encode_utf8("Connection: close\r\n"@) + spec_request_tail(r),
        spec_request_line(r) == encode_utf8(
            r.http_method@ + " "@ + r.request_uri@ + " "@ + r.http_version@ + "\r\n"@,
        ),
        spec_request_bytes(r).take(spec_request_line(r).len() as int) == spec_request_line(r),
        spec_host_line(r) == (if r.is_domain {
            encode_utf8("Host: "@ + r.host@ + "\r\n"@)
        } else {
            Seq::<u8>::empty()
        }),
        r.body matches Some(b) ==> spec_request_bytes(r).len() >= b@.len() + 4
            && spec_request_bytes(r).skip(spec_request_bytes(r).len() - b@.len() - 4)
            == encode_utf8("\r\n\r\n"@) + b@,
        r.body is None ==> spec_request_bytes(r).len() >= 4 && spec_request_bytes(r).skip(
            spec_request_bytes(r).len() - 4,
        ) == encode_utf8("\r\n\r\n"@),
{
    let line = spec_request_line(r);
    let hs = spec_header_lines(r.headers@);
    let host = spec_host_line(r);
    let conn = encode_utf8("Connection: close\r\n"@);
    let tail = spec_request_tail(r);
    let all = spec_request_bytes(r);
    // the request line is the encoding of the concatenated text
    lemma_encode_utf8_concat(r.http_method@, " "@);
    lemma_encode_utf8_concat(r.http_method@ + " "@, r.request_uri@);
    lemma_encode_utf8_concat(r.http_method@ + " "@ + r.request_uri@, " "@);
    lemma_encode_utf8_concat(r.http_method@ + " "@ + r.request_uri@ + " "@, r.http_version@);
    lemma_encode_utf8_concat(
        r.http_method@ + " "@ + r.request_uri@ + " "@ + r.http_version@,
        "\r\n"@,
    );
    assert(line =~= encode_utf8(
        r.http_method@ + " "@ + r.request_uri@ + " "@ + r.http_version@ + "\r\n"@,
    ));
    // it is the prefix of the whole
    assert(all.take(line.len() as int) =~= line);
    // the Host line as one encoded text
    if r.is_domain {
        lemma_encode_utf8_concat("Host: "@, r.host@);
        lemma_encode_utf8_concat("Host: "@ + r.host@, "\r\n"@);
        assert(host =~= encode_utf8("Host: "@ + r.host@ + "\r\n"@));
    }
    // the tail
    match r.body {
        Some(b) => {
            reveal_strlit("\r\n\r\n");
            assert(is_ascii_chars("\r\n\r\n"@));
            vstd::utf8::is_ascii_chars_encode_utf8("\r\n\r\n"@);
            assert(encode_utf8("\r\n\r\n"@).len() == 4);
            let suffix = encode_utf8("\r\n\r\n"@) + b@;
            assert(tail == encode_utf8("Content-Length: "@) + dec_digits(b@.len()) + encode_utf8(
                "\r\n\r\n"@,
            ) + b@);
            let front = line + hs + host + conn + encode_utf8("Content-Length: "@) + dec_digits(
                b@.len(),
            );
            assert(all =~= front + suffix);
            assert(all.len() == front.len() + suffix.len());
            assert(all.skip(front.len() as int) =~= suffix);
        },
        None => {
            reveal_strlit("Connection: close\r\n");
            reveal_strlit("\r\n");
            reveal_strlit("\r\n\r\n");
            assert(is_ascii_chars("Connection: close\r\n"@));
            assert(is_ascii_chars("\r\n"@));
            assert(is_ascii_chars("\r\n\r\n"@));
            vstd::utf8::is_ascii_chars_encode_utf8("Connection: close\r\n"@);
            vstd::utf8::is_ascii_chars_encode_utf8("\r\n"@);
            vstd::utf8::is_ascii_chars_encode_utf8("\r\n\r\n"@);
            let crlf2 = encode_utf8("\r\n\r\n"@);
            assert(crlf2.len() == 4);
            assert(conn.len() == 19);
            assert(all =~= line + hs + host + conn + encode_utf8("\r\n"@));
            assert(all.len() >= 4);
            assert forall|m: int| 0 <= m < 4 implies all.skip(all.len() - 4)[m] == crlf2[m] by {
                if m < 2 {
                    assert(all[all.len() - 4 + m] == conn[17 + m]);
                } else {
                    assert(all[all.len() - 4 + m] == encode_utf8("\r\n"@)[m - 2]);
                }
            }
            assert(all.skip(all.len() - 4) =~= crlf2);
        },
    }
}

// --- counting the head's lines ---

/// A byte string free of line feeds: it stays one line when split.
pub open spec fn lf_free(s: Seq<u8>) -> bool {
    forall|i: int| 0 <= i < s.len() ==> s[i] != 0x0a
}

/// A logical line of the head as the line splitter yields it: the
/// line's bytes with the carriage return that preceded the line feed.
pub open spec fn line_of(h: String) -> Seq<u8> {
    encode_utf8(h@) + seq![0x0du8]
}

/// How many lines start with the given prefix.
pub open spec fn count_with_prefix(lines: Seq<Seq<u8>>, prefix: Seq<u8>) -> int
    decreases lines.len(),
{
    if lines.len() == 0 {
        0
    } else {
        (if bytes_has_prefix(lines.first(), prefix) {
            1int
        } else {
            0int
        }) + count_with_prefix(lines.drop_first(), prefix)
    }
}

proof fn lemma_count_concat(a: Seq<Seq<u8>>, b: Seq<Seq<u8>>, p: Seq<u8>)
    ensures
        count_with_prefix(a + b, p) == count_with_prefix(a, p) + count_with_prefix(b, p),
    decreases a.len(),
{
    if a.len() == 0 {
        assert(a + b =~~= b);
    } else {
        assert((a + b).first() == a.first());
        assert((a + b).drop_first() =~~= a.drop_first() + b);
        lemma_count_concat(a.drop_first(), b, p);
    }
}

proof fn lemma_count_none(lines: Seq<Seq<u8>>, p: Seq<u8>)
    requires
        forall|i: int| 0 <= i < lines.len() ==> !bytes_has_prefix(#[trigger] lines[i], p),
    ensures
        count_with_prefix(lines, p) == 0,
    decreases lines.len(),
{
    if lines.len() > 0 {
        assert forall|i: int| 0 <= i < lines.drop_first().len() implies !bytes_has_prefix(
            #[trigger] lines.drop_first()[i],
            p,
        ) by {
            assert(lines.drop_first()[i] == lines[i + 1]);
        }
        lemma_count_none(lines.drop_first(), p);
    }
}

/// The UTF-8 bytes of a CRLF.
pub proof fn lemma_crlf_bytes()
    ensures
        encode_utf8("\r\n"@) == seq![0x0du8, 0x0au8],
{
    reveal_strlit("\r\n");
    assert(is_ascii_chars("\r\n"@));
    vstd::utf8::is_ascii_chars_encode_utf8("\r\n"@);
    assert(encode_utf8("\r\n"@) =~= seq![0x0du8, 0x0au8]);
}

/// Each header line becomes one segment of the split, and the rest of
/// the head splits on its own.
proof fn lemma_split_headers_bytes(hs: Seq<String>, x: Seq<u8>)
    requires
        forall|i: int| 0 <= i < hs.len() ==> lf_free(encode_utf8(#[trigger] hs[i]@)),
    ensures
        crate::client::split_lf(spec_header_lines(hs) + x) =~~= hs.map_values(
            |h: String| line_of(h),
        ) + crate::client::split_lf(x),
    decreases hs.len(),
{
    lemma_crlf_bytes();
    if hs.len() == 0 {
        assert(spec_header_lines(hs) + x =~= x);
        assert(hs.map_values(|h: String| line_of(h)) =~~= Seq::<Seq<u8>>::empty());
    } else {
        let h = hs.last();
        let rest = hs.drop_last();
        let tail2 = encode_utf8(h@) + encode_utf8("\r\n"@) + x;
        assert(spec_header_lines(hs) + x =~= spec_header_lines(rest) + tail2);
        assert forall|i: int| 0 <= i < rest.len() implies lf_free(encode_utf8(
            #[trigger] rest[i]@,
        )) by {
            assert(rest[i] == hs[i]);
        }
        lemma_split_headers_bytes(rest, tail2);
        let l = line_of(h);
        assert(tail2 =~= l + seq![0x0au8] + x);
        assert forall|i: int| 0 <= i < l.len() implies l[i] != 0x0a by {
            if i < encode_utf8(h@).len() {
                assert(l[i] == encode_utf8(h@)[i]);
            }
        }
        crate::client::lemma_split_lf_line(l, x);
        assert(hs.map_values(|hh: String| line_of(hh)) =~~= rest.map_values(
            |hh: String| line_of(hh),
        ) + seq![l]);
        assert(crate::client::split_lf(spec_header_lines(hs) + x) =~~= hs.map_values(
            |hh: String| line_of(hh),
        ) + crate::client::split_lf(x));
    }
}

/// The head of the serialized request: every line before the blank
/// line that separates it from the body.
pub open spec fn spec_request_head(r: &Request) -> Seq<u8> {
    spec_request_line(r) + spec_header_lines(r.headers@) + spec_host_line(r) + encode_utf8(
        "Connection: close\r\n"@,
    ) + (match r.body {
        Some(b) => encode_utf8("Content-Length: "@) + dec_digits(b@.len()) + encode_utf8("\r\n"@),
        None => Seq::<u8>::empty(),
    })
}

/// The logical lines of the head, in order, each with its trailing
/// carriage return: the request line, the caller's header lines, the
/// `Host` line when the host is a registered name, the
/// `Connection: close` line, and the `Content-Length` line when a
/// body is present.
pub open spec fn spec_request_head_lines(r: &Request) -> Seq<Seq<u8>> {
    seq![
        encode_utf8(r.http_method@ + " "@ + r.request_uri@ + " "@ + r.http_version@)
            + seq![0x0du8],
    ] + r.headers@.map_values(|h: String| line_of(h)) + (if r.is_domain {
        seq![encode_utf8("Host: "@) + encode_utf8(r.host@) + seq![0x0du8]]
    } else {
        Seq::<Seq<u8>>::empty()
    }) + seq![encode_utf8("Connection: close"@) + seq![0x0du8]] + (match r.body {
        Some(b) => seq![encode_utf8("Content-Length: "@) + dec_digits(b@.len()) + seq![0x0du8]],
        None => Seq::<Seq<u8>>::empty(),
    })
}

/// The serialized request is the head, a blank line, and the body
/// bytes, and splitting the head block on line feeds yields exactly
/// the head's logical lines followed by the blank line's two segments.
#[verifier::rlimit(80)]
pub proof fn lemma_request_head_decomposition(r: &Request)
    requires
        lf_free(encode_utf8(r.http_method@)),
        lf_free(encode_utf8(r.request_uri@)),
        lf_free(encode_utf8(r.http_version@)),
        lf_free(encode_utf8(r.host@)),
        forall|i: int| 0 <= i < r.headers@.len() ==> lf_free(encode_utf8(#[trigger] r.headers@[i]@)),
    ensures
        spec_request_bytes(r) == spec_request_head(r) + encode_utf8("\r\n"@) + (match r.body {
            Some(b) => b@,
            None => Seq::<u8>::empty(),
        }),
        crate::client::split_lf(spec_request_head(r) + encode_utf8("\r\n"@))
            =~~= spec_request_head_lines(r) + seq![seq![0x0du8], Seq::<u8>::empty()],
{
    lemma_crlf_bytes();
    reveal_strlit("\r\n\r\n");
    assert(is_ascii_chars("\r\n\r\n"@));
    vstd::utf8::is_ascii_chars_encode_utf8("\r\n\r\n"@);
    reveal_strlit("Connection: close\r\n");
    assert(is_ascii_chars("Connection: close\r\n"@));
    vstd::utf8::is_ascii_chars_encode_utf8("Connection: close\r\n"@);
    reveal_strlit("Connection: close");
    assert(is_ascii_chars("Connection: close"@));
    vstd::utf8::is_ascii_chars_encode_utf8("Connection: close"@);
    reveal_strlit("Host: ");
    assert(is_ascii_chars("Host: "@));
    vstd::utf8::is_ascii_chars_encode_utf8("Host: "@);
    reveal_strlit("Content-Length: ");
    assert(is_ascii_chars("Content-Length: "@));
    vstd::utf8::is_ascii_chars_encode_utf8("Content-Length: "@);
    reveal_strlit(" ");
    assert(is_ascii_chars(" "@));
    vstd::utf8::is_ascii_chars_encode_utf8(" "@);
    // the whole is head + blank line + body
    match r.body {
        Some(b) => {
            lemma_dec_digits_value(b@.len());
            assert(spec_request_bytes(r) =~= spec_request_head(r) + encode_utf8("\r\n"@) + b@);
        },
        None => {
            assert(spec_request_bytes(r) =~= spec_request_head(r) + encode_utf8("\r\n"@)
                + Seq::<u8>::empty());
        },
    }
    // the request line is one segment
    let l1 = encode_utf8(r.http_method@ + " "@ + r.request_uri@ + " "@ + r.http_version@) + seq![
        0x0du8,
    ];
    lemma_encode_utf8_concat(r.http_method@, " "@);
    lemma_encode_utf8_concat(r.http_method@ + " "@, r.request_uri@);
    lemma_encode_utf8_concat(r.http_method@ + " "@ + r.request_uri@, " "@);
    lemma_encode_utf8_concat(r.http_method@ + " "@ + r.request_uri@ + " "@, r.http_version@);
    assert forall|i: int| 0 <= i < l1.len() - 1 implies l1[i] != 0x0a by {
        let m = encode_utf8(r.http_method@);
        let u = encode_utf8(r.request_uri@);
        let v = encode_utf8(r.http_version@);
        let sp = encode_utf8(" "@);
        assert(sp =~= seq![0x20u8]);
        assert(l1[i] == (m + sp + u + sp + v)[i]);
    }
    assert forall|i: int| 0 <= i < l1.len() implies l1[i] != 0x0a by {
        if i == l1.len() - 1 {
            assert(l1[i] == 0x0d);
        }
    }
    let rest1 = spec_header_lines(r.headers@) + spec_host_line(r) + encode_utf8(
        "Connection: close\r\n"@,
    ) + (match r.body {
        Some(b) => encode_utf8("Content-Length: "@) + dec_digits(b@.len()) + encode_utf8("\r\n"@),
        None => Seq::<u8>::empty(),
    }) + encode_utf8("\r\n"@);
    assert(spec_request_head(r) + encode_utf8("\r\n"@) =~= l1 + seq![0x0au8] + rest1);
    crate::client::lemma_split_lf_line(l1, rest1);
    // the caller's header lines are one segment each
    let rest2 = spec_host_line(r) + encode_utf8("Connection: close\r\n"@) + (match r.body {
        Some(b) => encode_utf8("Content-Length: "@) + dec_digits(b@.len()) + encode_utf8("\r\n"@),
        None => Seq::<u8>::empty(),
    }) + encode_utf8("\r\n"@);
    assert(rest1 =~= spec_header_lines(r.headers@) + rest2);
    lemma_split_headers_bytes(r.headers@, rest2);
    // the Host line, when present
    let rest3 = encode_utf8("Connection: close\r\n"@) + (match r.body {
        Some(b) => encode_utf8("Content-Length: "@) + dec_digits(b@.len()) + encode_utf8("\r\n"@),
        None => Seq::<u8>::empty(),
    }) + encode_utf8("\r\n"@);
    if r.is_domain {
        let lh = encode_utf8("Host: "@) + encode_utf8(r.host@) + seq![0x0du8];
        assert(rest2 =~= lh + seq![0x0au8] + rest3);
        assert forall|i: int| 0 <= i < lh.len() implies lh[i] != 0x0a by {
            let hp = encode_utf8("Host: "@);
            let hb = encode_utf8(r.host@);
            if i < hp.len() {
                assert(lh[i] == hp[i]);
            } else if i < hp.len() + hb.len() {
                assert(lh[i] == hb[i - hp.len()]);
            } else {
                assert(lh[i] == 0x0d);
            }
        }
        crate::client::lemma_split_lf_line(lh, rest3);
    } else {
        assert(rest2 =~= rest3);
    }
    // the Connection line
    let lc = encode_utf8("Connection: close"@) + seq![0x0du8];
    let rest4 = (match r.body {
        Some(b) => encode_utf8("Content-Length: "@) + dec_digits(b@.len()) + encode_utf8("\r\n"@),
        None => Seq::<u8>::empty(),
    }) + encode_utf8("\r\n"@);
    assert(rest3 =~= lc + seq![0x0au8] + rest4);
    assert forall|i: int| 0 <= i < lc.len() implies lc[i] != 0x0a by {}
    crate::client::lemma_split_lf_line(lc, rest4);
    // the Content-Length line, when present
    let rest5 = encode_utf8("\r\n"@);
    match r.body {
        Some(b) => {
            lemma_dec_digits_value(b@.len());
            let ll = encode_utf8("Content-Length: "@) + dec_digits(b@.len()) + seq![0x0du8];
            assert(rest4 =~= ll + seq![0x0au8] + rest5);
            assert forall|i: int| 0 <= i < ll.len() implies ll[i] != 0x0a by {
                let cp = encode_utf8("Content-Length: "@);
                let d = dec_digits(b@.len());
                if i < cp.len() {
                    assert(ll[i] == cp[i]);
                } else if i < cp.len() + d.len() {
                    assert(ll[i] == d[i - cp.len()]);
                    assert(crate::ascii::is_digit_byte(d[i - cp.len()]));
                } else {
                    assert(ll[i] == 0x0d);
                }
            }
            crate::client::lemma_split_lf_line(ll, rest5);
        },
        None => {
            assert(rest4 =~= rest5);
        },
    }
    // the blank line: one bare-CR segment and an empty tail
    assert(rest5 =~= seq![0x0du8] + seq![0x0au8] + Seq::<u8>::empty());
    crate::client::lemma_split_lf_line(seq![0x0du8], Seq::<u8>::empty());
    assert(crate::ascii::idx_of(Seq::<u8>::empty(), 0x0a) == 0);
    assert(crate::client::split_lf(Seq::<u8>::empty()) =~~= seq![Seq::<u8>::empty()]);
    assert(crate::client::split_lf(spec_request_head(r) + encode_utf8("\r\n"@))
        =~~= spec_request_head_lines(r) + seq![seq![0x0du8], Seq::<u8>::empty()]);
}

proof fn lemma_count_single(x: Seq<u8>, p: Seq<u8>)
    ensures
        count_with_prefix(seq![x], p) == (if bytes_has_prefix(x, p) {
            1int
        } else {
            0int
        }),
{
    assert(seq![x].first() == x);
    assert(seq![x].drop_first() =~~= Seq::<Seq<u8>>::empty());
    assert(count_with_prefix(Seq::<Seq<u8>>::empty(), p) == 0);
}

/// Law (request round trip, line counts): among the head's logical
/// lines stand exactly one `Host: ` line when the host is a registered
/// name and none otherwise, exactly one `Connection: close` line,
/// exactly one `Content-Length: ` line when a body is present and none
/// otherwise, and exactly as many `User-Agent: ` lines as the caller's
/// headers hold — one, for a request a builder made. Holds when
/// neither the request line nor a caller header line starts with one
/// of the synthesized names.
#[verifier::rlimit(100)]
pub proof fn lemma_request_head_counts(r: &Request)
    requires
        lf_free(encode_utf8(r.http_method@)),
        lf_free(encode_utf8(r.request_uri@)),
        lf_free(encode_utf8(r.http_version@)),
        lf_free(encode_utf8(r.host@)),
        forall|i: int| 0 <= i < r.headers@.len() ==> lf_free(encode_utf8(#[trigger] r.headers@[i]@)),
        !bytes_has_prefix(spec_request_head_lines(r)[0], encode_utf8("Host: "@)),
        !bytes_has_prefix(spec_request_head_lines(r)[0], encode_utf8("Connection: close"@)),
        !bytes_has_prefix(spec_request_head_lines(r)[0], encode_utf8("Content-Length: "@)),
        !bytes_has_prefix(spec_request_head_lines(r)[0], encode_utf8("User-Agent: "@)),
        forall|i: int|
            0 <= i < r.headers@.len() ==> !bytes_has_prefix(
                #[trigger] line_of(r.headers@[i]),
                encode_utf8("Host: "@),
            ),
        forall|i: int|
            0 <= i < r.headers@.len() ==> !bytes_has_prefix(
                #[trigger] line_of(r.headers@[i]),
                encode_utf8("Connection: close"@),
            ),
        forall|i: int|
            0 <= i < r.headers@.len() ==> !bytes_has_prefix(
                #[trigger] line_of(r.headers@[i]),
                encode_utf8("Content-Length: "@),
            ),
    ensures
        count_with_prefix(spec_request_head_lines(r), encode_utf8("Host: "@)) == (
        if r.is_domain {
            1int
        } else {
            0int
        }),
        count_with_prefix(spec_request_head_lines(r), encode_utf8("Connection: close"@)) == 1,
        count_with_prefix(spec_request_head_lines(r), encode_utf8("Content-Length: "@)) == (
        match r.body {
            Some(_) => 1int,
            None => 0int,
        }),
        count_with_prefix(spec_request_head_lines(r), encode_utf8("User-Agent: "@))
            == count_with_prefix(
            r.headers@.map_values(|h: String| line_of(h)),
            encode_utf8("User-Agent: "@),
        ),
{
    reveal_strlit("Host: ");
    assert(is_ascii_chars("Host: "@));
    vstd::utf8::is_ascii_chars_encode_utf8("Host: "@);
    reveal_strlit("Connection: close");
    assert(is_ascii_chars("Connection: close"@));
    vstd::utf8::is_ascii_chars_encode_utf8("Connection: close"@);
    reveal_strlit("Content-Length: ");
    assert(is_ascii_chars("Content-Length: "@));
    vstd::utf8::is_ascii_chars_encode_utf8("Content-Length: "@);
    reveal_strlit("User-Agent: ");
    assert(is_ascii_chars("User-Agent: "@));
    vstd::utf8::is_ascii_chars_encode_utf8("User-Agent: "@);
    let hp = encode_utf8("Host: "@);
    let cp = encode_utf8("Connection: close"@);
    let lp = encode_utf8("Content-Length: "@);
    let up = encode_utf8("User-Agent: "@);
    assert(hp.len() == 6 && hp[0] == 0x48);
    assert(cp.len() == 17 && cp[0] == 0x43 && cp[3] == 0x6e);
    assert(lp.len() == 16 && lp[0] == 0x43 && lp[3] == 0x74);
    assert(up.len() == 12 && up[0] == 0x55);
    let lines = spec_request_head_lines(r);
    let a = seq![
        encode_utf8(r.http_method@ + " "@ + r.request_uri@ + " "@ + r.http_version@)
            + seq![0x0du8],
    ];
    let m = r.headers@.map_values(|h: String| line_of(h));
    let hseq = if r.is_domain {
        seq![encode_utf8("Host: "@) + encode_utf8(r.host@) + seq![0x0du8]]
    } else {
        Seq::<Seq<u8>>::empty()
    };
    let cseq = seq![encode_utf8("Connection: close"@) + seq![0x0du8]];
    let lseq = match r.body {
        Some(b) => seq![encode_utf8("Content-Length: "@) + dec_digits(b@.len()) + seq![0x0du8]],
        None => Seq::<Seq<u8>>::empty(),
    };
    assert(lines == a + m + hseq + cseq + lseq);
    assert(lines[0] == a[0]);
    // prefix facts for each synthesized line
    let lc = cseq[0];
    assert(lc.subrange(0, cp.len() as int) =~= cp);
    assert(bytes_has_prefix(lc, cp));
    assert(!bytes_has_prefix(lc, hp)) by {
        if bytes_has_prefix(lc, hp) {
            assert(lc.subrange(0, hp.len() as int)[0] == hp[0]);
            assert(lc[0] == cp[0]);
        }
    }
    assert(!bytes_has_prefix(lc, lp)) by {
        if bytes_has_prefix(lc, lp) {
            assert(lc.subrange(0, lp.len() as int)[3] == lp[3]);
            assert(lc[3] == cp[3]);
        }
    }
    assert(!bytes_has_prefix(lc, up)) by {
        if bytes_has_prefix(lc, up) {
            assert(lc.subrange(0, up.len() as int)[0] == up[0]);
            assert(lc[0] == cp[0]);
        }
    }
    if r.is_domain {
        let lh = hseq[0];
        assert(lh.subrange(0, hp.len() as int) =~= hp);
        assert(bytes_has_prefix(lh, hp));
        assert(lh[0] == hp[0]);
        assert(!bytes_has_prefix(lh, cp)) by {
            if bytes_has_prefix(lh, cp) {
                assert(lh.subrange(0, cp.len() as int)[0] == cp[0]);
            }
        }
        assert(!bytes_has_prefix(lh, lp)) by {
            if bytes_has_prefix(lh, lp) {
                assert(lh.subrange(0, lp.len() as int)[0] == lp[0]);
            }
        }
        assert(!bytes_has_prefix(lh, up)) by {
            if bytes_has_prefix(lh, up) {
                assert(lh.subrange(0, up.len() as int)[0] == up[0]);
            }
        }
    }
    match r.body {
        Some(b) => {
            let ll = lseq[0];
            assert(ll.subrange(0, lp.len() as int) =~= lp);
            assert(bytes_has_prefix(ll, lp));
            assert(ll[0] == lp[0]);
            assert(ll[3] == lp[3]);
            assert(!bytes_has_prefix(ll, hp)) by {
                if bytes_has_prefix(ll, hp) {
                    assert(ll.subrange(0, hp.len() as int)[0] == hp[0]);
                }
            }
            assert(!bytes_has_prefix(ll, cp)) by {
                if bytes_has_prefix(ll, cp) {
                    assert(ll.subrange(0, cp.len() as int)[3] == cp[3]);
                }
            }
            assert(!bytes_has_prefix(ll, up)) by {
                if bytes_has_prefix(ll, up) {
                    assert(ll.subrange(0, up.len() as int)[0] == up[0]);
                }
            }
        },
        None => {},
    }
    // assemble the counts for each of the four prefixes
    lemma_count_single(a[0], hp);
    lemma_count_single(a[0], cp);
    lemma_count_single(a[0], lp);
    lemma_count_single(a[0], up);
    assert(a =~~= seq![a[0]]);
    lemma_count_none(m, hp);
    lemma_count_none(m, cp);
    lemma_count_none(m, lp);
    if r.is_domain {
        lemma_count_single(hseq[0], hp);
        lemma_count_single(hseq[0], cp);
        lemma_count_single(hseq[0], lp);
        lemma_count_single(hseq[0], up);
        assert(hseq =~~= seq![hseq[0]]);
    }
    lemma_count_single(cseq[0], hp);
    lemma_count_single(cseq[0], cp);
    lemma_count_single(cseq[0], lp);
    lemma_count_single(cseq[0], up);
    assert(cseq =~~= seq![cseq[0]]);
    match r.body {
        Some(_) => {
            lemma_count_single(lseq[0], hp);
            lemma_count_single(lseq[0], cp);
            lemma_count_single(lseq[0], lp);
            lemma_count_single(lseq[0], up);
            assert(lseq =~~= seq![lseq[0]]);
        },
        None => {},
    }
    lemma_count_concat(a, m, hp);
    lemma_count_concat(a + m, hseq, hp);
    lemma_count_concat(a + m + hseq, cseq, hp);
    lemma_count_concat(a + m + hseq + cseq, lseq, hp);
    lemma_count_concat(a, m, cp);
    lemma_count_concat(a + m, hseq, cp);
    lemma_count_concat(a + m + hseq, cseq, cp);
    lemma_count_concat(a + m + hseq + cseq, lseq, cp);
    lemma_count_concat(a, m, lp);
    lemma_count_concat(a + m, hseq, lp);
    lemma_count_concat(a + m + hseq, cseq, lp);
    lemma_count_concat(a + m + hseq + cseq, lseq, lp);
    lemma_count_concat(a, m, up);
    lemma_count_concat(a + m, hseq, up);
    lemma_count_concat(a + m + hseq, cseq, up);
    lemma_count_concat(a + m + hseq + cseq, lseq, up);
}

/// Constructs a [`Request`].
pub struct RequestBuilder {
    pub http_method: String,
    pub user_agent: String,
    pub url: String,
    pub http_version: String,
    pub headers: Vec<String>,
    pub body: Option<Vec<u8>>,
}

impl RequestBuilder {
    /// Create a new builder for the given URL. Until changed, the
    /// method is `GET`, the version `HTTP/1.1`, the user agent the
    /// library default, and there are no headers and no body.
    pub fn new(url: &str) -> (r: Self)
        ensures
            r.url@ == url@,
            r.http_method@ == "GET"@,
            r.http_version@ == "HTTP/1.1"@,
            r.user_agent@ == "cabot/0.7.1"@,
            r.headers@.len() == 0,
            r.body is None,
    {
        RequestBuilder {
            http_method: "GET".to_owned(),
            url: url.to_owned(),
            user_agent: crate::constants::user_agent(),
            http_version: "HTTP/1.1".to_owned(),
            headers: Vec::new(),
            body: None,
        }
    }

    /// Replace the URL, so one builder can serve several queries.
    pub fn set_url(self, url: &str) -> (r: Self)
        ensures
            r.url@ == url@,
            r.http_method == self.http_method,
            r.http_version == self.http_version,
            r.user_agent == self.user_agent,
            r.headers == self.headers,
            r.body == self.body,
    {
        let mut s = self;
        s.url = url.to_owned();
        s
    }

    /// Set the HTTP method, such as `GET` or `POST`.
    pub fn set_http_method(self, http_method: &str) -> (r: Self)
        ensures
            r.http_method@ == http_method@,
            r.url == self.url,
            r.http_version == self.http_version,
            r.user_agent == self.user_agent,
            r.headers == self.headers,
            r.body == self.body,
    {
        let mut s = self;
        s.http_method = http_method.to_owned();
        s
    }

    /// Set the protocol version to use.
    pub fn set_http_version(self, http_version: &str) -> (r: Self)
        ensures
            r.http_version@ == http_version@,
            r.url == self.url,
            r.http_method == self.http_method,
            r.user_agent == self.user_agent,
            r.headers == self.headers,
            r.body == self.body,
    {
        let mut s = self;
        s.http_version = http_version.to_owned();
        s
    }

    /// Add one HTTP header line.
    pub fn add_header(self, header: &str) -> (r: Self)
        ensures
            r.headers@ == self.headers@.push(r.headers@.last()),
            r.headers@.len() == self.headers@.len() + 1,
            r.headers@.last()@ == header@,
            forall|i: int| 0 <= i < self.headers@.len() ==> r.headers@[i] == self.headers@[i],
            r.url == self.url,
            r.http_method == self.http_method,
            r.http_version == self.http_version,
            r.user_agent == self.user_agent,
            r.body == self.body,
    {
        let mut s = self;
        s.headers.push(header.to_owned());
        s
    }

    /// Add several header lines at once.
    pub fn add_headers(self, headers: &[&str]) -> (r: Self)
        ensures
            r.headers@.len() == self.headers@.len() + headers@.len(),
            forall|i: int| 0 <= i < self.headers@.len() ==> r.headers@[i] == self.headers@[i],
            forall|i: int|
                0 <= i < headers@.len() ==> r.headers@[self.headers@.len() + i]@ == #[trigger] (
                headers@[i])@,
            r.url == self.url,
            r.http_method == self.http_method,
            r.http_version == self.http_version,
            r.user_agent == self.user_agent,
            r.body == self.body,
    {
        let mut s = self;
        let mut i: usize = 0;
        while i < headers.len()
            invariant
                0 <= i <= headers@.len(),
                s.headers@.len() == self.headers@.len() + i,
                forall|j: int| 0 <= j < self.headers@.len() ==> s.headers@[j] == self.headers@[j],
                forall|j: int|
                    0 <= j < i ==> s.headers@[self.headers@.len() + j]@ == #[trigger] (
                    headers@[j])@,
                s.url == self.url,
                s.http_method == self.http_method,
                s.http_version == self.http_version,
                s.user_agent == self.user_agent,
                s.body == self.body,
            decreases headers@.len() - i,
        {
            s.headers.push(headers[i].to_owned());
            i = i + 1;
        }
        s
    }

    /// Override the default user agent. Do not also add a `User-Agent`
    /// header line, or the serialized request will carry two.
    pub fn set_user_agent(self, user_agent: &str) -> (r: Self)
        ensures
            r.user_agent@ == user_agent@,
            r.url == self.url,
            r.http_method == self.http_method,
            r.http_version == self.http_version,
            r.headers == self.headers,
            r.body == self.body,
    {
        let mut s = self;
        s.user_agent = user_agent.to_owned();
        s
    }

    /// Set the request body. A `Content-Length` header is synthesized
    /// at serialization.
    pub fn set_body(self, buf: &[u8]) -> (r: Self)
        ensures
            r.body matches Some(b) && b@ == buf@,
            r.url == self.url,
            r.http_method == self.http_method,
            r.http_version == self.http_version,
            r.user_agent == self.user_agent,
            r.headers == self.headers,
    {
        let mut s = self;
        s.body = Some(bytes_to_vec(buf));
        s
    }

    /// Set the request body from a string.
    pub fn set_body_as_str(self, body: &str) -> (r: Self)
        ensures
            r.body matches Some(b) && b@ == body.spec_bytes(),
            r.url == self.url,
            r.http_method == self.http_method,
            r.http_version == self.http_version,
            r.user_agent == self.user_agent,
            r.headers == self.headers,
    {
        let b = body.as_bytes();
        self.set_body(b)
    }

    /// Construct the [`Request`].
    ///
    /// Succeeds exactly when the URL parses and carries a host and a
    /// known port; a string that does not parse is rejected with
    /// `UrlParseError`, one without host or port with `OpaqueUrlError`.
    /// On success every field is pinned: host, port, scheme and the
    /// registered-name flag are the URL's named parts, the
    /// request-target is the path (`/` when empty) with its optional
    /// query, the authority is `host:port`, and method, version, body
    /// and headers come from the builder, with exactly one `User-Agent`
    /// line appended last.
    pub fn build(&self) -> (r: CabotResult<Request>)
        ensures
            ({
                let s = self.url@;
                match r {
                    Ok(req) => {
                        &&& url_parses(s) && url_host_of(s) is Some && url_port_of(s) is Some
                        &&& url_host_of(s) matches Some(h) && req.host@ == h
                        &&& url_port_of(s) matches Some(p) && req.port == p
                        &&& req.scheme@ == url_scheme_of(s)
                        &&& req.is_domain == url_is_domain(s)
                        &&& req.request_uri@ == (if url_path_of(s).len() == 0 {
                            "/"@
                        } else {
                            url_path_of(s)
                        }) + (match url_query_of(s) {
                            Some(q) => "?"@ + q,
                            None => Seq::<char>::empty(),
                        })
                        &&& req.http_method == self.http_method
                        &&& req.http_version == self.http_version
                        &&& (req.body is Some <==> self.body is Some)
                        &&& (self.body matches Some(b) ==> req.body matches Some(b2) && b2@ == b@)
                        &&& req.headers@.len() == self.headers@.len() + 1
                        &&& forall|i: int|
                            0 <= i < self.headers@.len() ==> req.headers@[i] == self.headers@[i]
                        &&& req.headers@.last()@ == "User-Agent: "@ + self.user_agent@
                        &&& req.authority@ == req.host@ + ":"@ + dec_chars(req.port as nat)
                    },
                    Err(e) => match e {
                        CabotError::UrlParseError(_) => !url_parses(s),
                        CabotError::OpaqueUrlError(_) => url_parses(s) && (url_host_of(s) is None
                            || url_port_of(s) is None),
                        _ => false,
                    },
                }
            }),
    {
        let parts = match crate::urlcalls::parse_url_parts(self.url.as_str()) {
            Ok(parts) => parts,
            Err(UrlPartsError::Parse(detail)) => {
                return Err(CabotError::UrlParseError(detail));
            },
            Err(UrlPartsError::NoHost) => {
                return Err(CabotError::OpaqueUrlError("Unable to find host".to_owned()));
            },
            Err(UrlPartsError::NoPort) => {
                return Err(CabotError::OpaqueUrlError("Unable to determine a port".to_owned()));
            },
        };
        let host: String = parts.host;
        let port: u16 = parts.port;
        let mut request_uri: String;
        if parts.path.as_str().is_empty() {
            request_uri = "/".to_owned();
        } else {
            request_uri = parts.path;
        }
        match &parts.query {
            Some(querystring) => {
                request_uri.append("?");
                request_uri.append(querystring.as_str());
            },
            None => {},
        }
        let is_domain = parts.is_domain;
        let mut headers = self.headers.clone();
        let mut ua_line = "User-Agent: ".to_owned();
        ua_line.append(self.user_agent.as_str());
        headers.push(ua_line);
        let mut authority = host.clone();
        authority.append(":");
        let port_digits = dec_string(port as u64);
        authority.append(port_digits.as_str());
        let body = match &self.body {
            Some(b) => Some(bytes_to_vec(b.as_slice())),
            None => None,
        };
        let scheme = parts.scheme;
        proof {
            assert(headers@.len() == self.headers@.len() + 1);
        }
        Ok(
            Request::new(
                host,
                port,
                authority,
                is_domain,
                scheme,
                self.http_method.clone(),
                request_uri,
                self.http_version.clone(),
                headers,
                body,
            ),
        )
    }
}

} // verus!
