//! HTTP response handling: the [`Response`] model and the
//! [`ResponseBuilder`] that parses the status line and assembles a
//! response from decoded parts.

use crate::ascii::{
    all_digits, bytes_starts_with, bytes_subrange, dec_value, find_byte, idx_of,
    lemma_first_occurrence_is_idx_of, lemma_no_occurrence_idx_of, parse_dec,
};
use crate::errors::CabotError;
use crate::results::CabotResult;
use crate::strconv::{bytes_to_vec, lemma_split_after_ascii, string_from_utf8};
use vstd::prelude::*;
use vstd::utf8::{encode_utf8, valid_utf8};

verus! {

/// A parsed HTTP response.
pub struct Response {
    pub http_version: String,
    pub status_code: usize,
    pub status_line: String,
    pub headers: Vec<String>,
    pub body: Option<Vec<u8>>,
}

impl Response {
    pub fn new(
        http_version: String,
        status_code: usize,
        status_line: String,
        headers: Vec<String>,
        body: Option<Vec<u8>>,
    ) -> (r: Response)
        ensures
            r.http_version == http_version,
            r.status_code == status_code,
            r.status_line == status_line,
            r.headers == headers,
            r.body == body,
    {
        Response { http_version, status_code, status_line, headers, body }
    }

    /// The HTTP version from the status line, such as `HTTP/1.1`.
    pub fn http_version(&self) -> (r: &str)
        ensures
            r@ == self.http_version@,
    {
        self.http_version.as_str()
    }

    /// The numeric status code, such as `200`.
    pub fn status_code(&self) -> (r: usize)
        ensures
            r == self.status_code,
    {
        self.status_code
    }

    /// The status line with the HTTP version stripped, such as `200 Ok`.
    pub fn status_line(&self) -> (r: &str)
        ensures
            r@ == self.status_line@,
    {
        self.status_line.as_str()
    }

    /// The response headers, in insertion order. Obsolete line folding
    /// has already been unfolded when the response was decoded.
    pub fn headers(&self) -> (r: Vec<&str>)
        ensures
            r@.len() == self.headers@.len(),
            forall|i: int| 0 <= i < r@.len() ==> r@[i]@ == #[trigger] self.headers@[i]@,
    {
        let mut v: Vec<&str> = Vec::new();
        let mut i: usize = 0;
        while i < self.headers.len()
            invariant
                0 <= i <= self.headers@.len(),
                v@.len() == i,
                forall|j: int| 0 <= j < i ==> v@[j]@ == #[trigger] self.headers@[j]@,
            decreases self.headers@.len() - i,
        {
            v.push(self.headers[i].as_str());
            i = i + 1;
        }
        v
    }

    /// The body in raw form.
    pub fn body(&self) -> (r: Option<&[u8]>)
        ensures
            match r {
                Some(b) => self.body matches Some(bb) && b@ == bb@,
                None => self.body is None,
            },
    {
        match &self.body {
            None => None,
            Some(body) => Some(body.as_slice()),
        }
    }

    /// The body as a string: empty when absent, decoded when UTF-8,
    /// an encoding error otherwise.
    pub fn body_as_string(&self) -> (r: CabotResult<String>)
        ensures
            match r {
                Ok(s) => match self.body {
                    Some(b) => valid_utf8(b@) && encode_utf8(s@) == b@,
                    None => s@.len() == 0,
                },
                Err(e) => self.body matches Some(b) && !valid_utf8(b@) && e is EncodingError,
            },
    {
        match &self.body {
            None => {
                proof {
                    reveal_strlit("");
                }
                Ok("".to_owned())
            },
            Some(body) => {
                let copy = bytes_to_vec(body.as_slice());
                match string_from_utf8(copy) {
                    Ok(s) => Ok(s),
                    Err(detail) => Err(CabotError::EncodingError(detail)),
                }
            },
        }
    }
}

// --- status line parsing, at the byte level ---

/// Everything before the first space: the HTTP version.
pub open spec fn status_version(sb: Seq<u8>) -> Seq<u8> {
    sb.take(idx_of(sb, 0x20))
}

/// Everything after the first space: the code and the reason phrase.
pub open spec fn status_rest(sb: Seq<u8>) -> Seq<u8> {
    sb.subrange(idx_of(sb, 0x20) + 1, sb.len() as int)
}

/// The token between the first and second spaces: the status code.
pub open spec fn status_code_bytes(sb: Seq<u8>) -> Seq<u8> {
    status_rest(sb).take(idx_of(status_rest(sb), 0x20))
}

/// A status line is accepted exactly when it has at least three
/// space-separated parts, the first starts with `HTTP/`, and the second
/// is a decimal number that fits in `usize`.
pub open spec fn spec_status_line_ok(sb: Seq<u8>) -> bool {
    let p = encode_utf8("HTTP/"@);
    &&& idx_of(sb, 0x20) < sb.len()
    &&& idx_of(status_rest(sb), 0x20) < status_rest(sb).len()
    &&& status_version(sb).len() >= p.len()
    &&& status_version(sb).subrange(0, p.len() as int) == p
    &&& status_code_bytes(sb).len() > 0
    &&& all_digits(status_code_bytes(sb))
    &&& dec_value(status_code_bytes(sb)) <= usize::MAX
}

/// What a response built from an accepted status line holds: the parsed
/// version, code and stripped status line, and the builder's headers
/// and body unchanged.
pub open spec fn spec_built_response(resp: Response, b: ResponseBuilder, sb: Seq<u8>) -> bool {
    &&& encode_utf8(resp.http_version@) == status_version(sb)
    &&& resp.status_code == dec_value(status_code_bytes(sb))
    &&& encode_utf8(resp.status_line@) == status_rest(sb)
    &&& resp.headers@.len() == b.headers@.len()
    &&& (forall|i: int| 0 <= i < b.headers@.len() ==> resp.headers@[i] == b.headers@[i])
    &&& (resp.body is Some <==> b.body is Some)
    &&& (b.body matches Some(bb) ==> resp.body matches Some(b2) && b2@ == bb@)
}

/// Law (response round trip, status line): a status line serialized
/// from a version that starts with `HTTP/` and holds no space, any
/// status code, and any reason phrase parses back to exactly that
/// version, that code, and the text after the first space — so
/// [`ResponseBuilder::build`] on such a line succeeds and recovers the
/// fields.
pub proof fn lemma_status_line_round_trip(version: Seq<u8>, code: usize, reason: Seq<u8>)
    requires
        version.len() >= encode_utf8("HTTP/"@).len(),
        version.subrange(0, encode_utf8("HTTP/"@).len() as int) == encode_utf8("HTTP/"@),
        forall|i: int| 0 <= i < version.len() ==> version[i] != 0x20,
    ensures
        ({
            let sb = version + seq![0x20u8] + crate::ascii::dec_digits(code as nat)
                + seq![0x20u8] + reason;
            &&& spec_status_line_ok(sb)
            &&& status_version(sb) == version
            &&& dec_value(status_code_bytes(sb)) == code
            &&& status_rest(sb) == crate::ascii::dec_digits(code as nat) + seq![0x20u8] + reason
        }),
{
    let d = crate::ascii::dec_digits(code as nat);
    crate::ascii::lemma_dec_digits_value(code as nat);
    let sb = version + seq![0x20u8] + d + seq![0x20u8] + reason;
    assert(sb[version.len() as int] == 0x20);
    assert forall|j: int| 0 <= j < version.len() implies sb[j] != 0x20 by {
        assert(sb[j] == version[j]);
    }
    lemma_first_occurrence_is_idx_of(sb, 0x20, version.len() as int);
    assert(status_version(sb) =~= version);
    let rest = sb.subrange(version.len() as int + 1, sb.len() as int);
    assert(rest =~= d + seq![0x20u8] + reason);
    assert(rest[d.len() as int] == 0x20);
    assert forall|j: int| 0 <= j < d.len() implies rest[j] != 0x20 by {
        assert(rest[j] == d[j]);
        assert(crate::ascii::is_digit_byte(d[j]));
    }
    lemma_first_occurrence_is_idx_of(rest, 0x20, d.len() as int);
    assert(status_code_bytes(sb) =~= d);
    assert(status_version(sb).subrange(0, encode_utf8("HTTP/"@).len() as int) == encode_utf8(
        "HTTP/"@,
    ));
}

/// Builds a [`Response`] from the decoded status line, header lines and
/// body bytes.
pub struct ResponseBuilder {
    pub status_line: Option<String>,
    pub headers: Vec<String>,
    pub body: Option<Vec<u8>>,
}

impl ResponseBuilder {
    pub fn new() -> (r: Self)
        ensures
            r.status_line is None,
            r.headers@.len() == 0,
            r.body is None,
    {
        ResponseBuilder { status_line: None, headers: Vec::new(), body: None }
    }

    /// Record the status line.
    pub fn set_status_line(self, status_line: &str) -> (r: Self)
        ensures
            r.status_line matches Some(s) && s@ == status_line@,
            r.headers == self.headers,
            r.body == self.body,
    {
        let mut s = self;
        s.status_line = Some(status_line.to_owned());
        s
    }

    /// Append one header line.
    pub fn add_header(self, header: &str) -> (r: Self)
        ensures
            r.headers@.len() == self.headers@.len() + 1,
            forall|i: int| 0 <= i < self.headers@.len() ==> r.headers@[i] == self.headers@[i],
            r.headers@.last()@ == header@,
            r.status_line == self.status_line,
            r.body == self.body,
    {
        let mut s = self;
        s.headers.push(header.to_owned());
        s
    }

    /// Record the body bytes.
    pub fn set_body(self, buf: &[u8]) -> (r: Self)
        ensures
            r.body matches Some(b) && b@ == buf@,
            r.status_line == self.status_line,
            r.headers == self.headers,
    {
        let mut s = self;
        s.body = Some(bytes_to_vec(buf));
        s
    }

    /// Build the [`Response`]. Fails with a parse error when no status
    /// line was recorded or the status line is malformed.
    pub fn build(&self) -> (r: CabotResult<Response>)
        ensures
            match &self.status_line {
                None => r matches Err(e) && e is HttpResponseParseError,
                Some(sl) => {
                    if spec_status_line_ok(encode_utf8(sl@)) {
                        r matches Ok(resp) && spec_built_response(resp, *self, encode_utf8(sl@))
                    } else {
                        r matches Err(e) && e is HttpResponseParseError
                    }
                },
            },
    {
        broadcast use vstd::utf8::encode_utf8_valid_utf8;

        let sl: &String = match &self.status_line {
            None => {
                return Err(CabotError::HttpResponseParseError("No Status Line".to_owned()));
            },
            Some(sl) => sl,
        };
        let bytes: &[u8] = sl.as_str().as_bytes();
        let ghost sb = encode_utf8(sl@);
        assert(bytes@ == sb);
        // first space: version | rest
        let i = match find_byte(bytes, 0x20, 0) {
            Some(i) => i,
            None => {
                proof {
                    lemma_no_occurrence_idx_of(sb, 0x20);
                }
                return Err(CabotError::HttpResponseParseError("Malformed Status Line".to_owned()));
            },
        };
        proof {
            lemma_first_occurrence_is_idx_of(sb, 0x20, i as int);
        }
        let version_vec = bytes_subrange(bytes, 0, i);
        if !bytes_starts_with(version_vec.as_slice(), "HTTP/".as_bytes()) {
            proof {
                assert(version_vec@ =~= status_version(sb));
            }
            return Err(
                CabotError::HttpResponseParseError("Unknown Protocol in Status Line".to_owned()),
            );
        }
        // second space: code | reason
        let n = bytes.len();
        assert(i < n);
        let ghost rest = status_rest(sb);
        let j = match find_byte(bytes, 0x20, i + 1) {
            Some(j) => j,
            None => {
                proof {
                    assert(forall|m: int|
                        0 <= m < rest.len() ==> rest[m] == #[trigger] sb[i + 1 + m]);
                    lemma_no_occurrence_idx_of(rest, 0x20);
                }
                return Err(CabotError::HttpResponseParseError("Malformed Status Line".to_owned()));
            },
        };
        proof {
            assert(forall|m: int| 0 <= m < rest.len() ==> rest[m] == #[trigger] sb[i + 1 + m]);
            assert(rest[j - i - 1] == 0x20);
            lemma_first_occurrence_is_idx_of(rest, 0x20, j - i - 1);
        }
        let code_vec = bytes_subrange(bytes, i + 1, j);
        proof {
            assert(code_vec@ =~= status_code_bytes(sb));
        }
        let status_code = match parse_dec(code_vec.as_slice()) {
            Some(c) => c,
            None => {
                return Err(CabotError::HttpResponseParseError("Malformed status code".to_owned()));
            },
        };
        // the pieces before and after the first space are valid UTF-8
        proof {
            lemma_split_after_ascii(sb, i as int);
            assert(version_vec@ =~= sb.subrange(0, i as int));
        }
        let version = match string_from_utf8(version_vec) {
            Ok(s) => s,
            Err(_) => {
                proof {
                    assert(false);
                }
                vstd::pervasive::unreached()
            },
        };
        let rest_vec = bytes_subrange(bytes, i + 1, bytes.len());
        proof {
            assert(rest_vec@ =~= sb.subrange(i as int + 1, sb.len() as int));
        }
        let status_line_text = match string_from_utf8(rest_vec) {
            Ok(s) => s,
            Err(_) => {
                proof {
                    assert(false);
                }
                vstd::pervasive::unreached()
            },
        };
        let headers = self.headers.clone();
        let body = match &self.body {
            Some(b) => Some(bytes_to_vec(b.as_slice())),
            None => None,
        };
        Ok(Response::new(version, status_code, status_line_text, headers, body))
    }
}

} // verus!
