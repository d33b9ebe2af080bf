//! The HTTP/1.1 response decoder and the request engine's decisions.
//!
//! The decoder is a pure state machine over a byte buffer: the caller
//! feeds it bytes read from the transport and drives it with
//! [`HttpDecoder::read_headers_step`] and [`HttpDecoder::body_step`],
//! writing whatever those hand back to the sink. All framing decisions
//! (status line, header dispatch, `Content-Length` counting, chunked
//! decoding, redirect classification) happen here and are verified;
//! the surrounding I/O loop stays outside the library.

use crate::ascii::{
    all_digits, all_hex_digits, ascii_upper, bytes_eq, bytes_has_prefix, bytes_subrange,
    dec_value, find_byte, hex_value, idx_of, lemma_first_occurrence_is_idx_of, lemma_idx_of,
    lemma_no_occurrence_idx_of, parse_dec, parse_hex, trim_bytes, trim_spec, upper_byte, upper_seq,
};
use crate::errors::CabotError;
use crate::request::Request;
use crate::results::CabotResult;
use crate::strconv::{bytes_to_vec, extend_bytes, string_from_utf8_lossy};
use crate::urlcalls::{
    url_host_of, url_parses, url_path_of, url_port_of, url_query_of, url_scheme_of,
};
use vstd::string::{StrSliceExecFns, StringExecFns};
use vstd::prelude::*;
use vstd::utf8::{encode_utf8, valid_utf8};

verus! {

/// How the response body is framed.
#[derive(Debug, Clone, Copy)]
pub enum TransferEncoding {
    /// A `Content-Length` header was seen: read exactly this many bytes.
    ContentLength(usize),
    /// A `Transfer-Encoding: chunked` header was seen.
    Chunked,
    /// A `Transfer-Encoding` header was seen but is not implemented:
    /// read until the connection closes.
    Unknown,
    /// No framing header seen yet: read until the connection closes.
    Unset,
}

/// Sub-state of the chunked decoder.
#[derive(Debug, Clone, Copy)]
pub enum TransferEncodingStatus {
    /// Awaiting a chunk-size line.
    ReadingHeader,
    /// Inside a chunk: this many body bytes remain, after which the
    /// chunk's trailing CRLF is consumed.
    ReadingBody(usize),
}

/// The implemented 3xx redirections, each carrying the target URL.
#[derive(Debug, Clone)]
pub enum HTTPRedirect {
    /// 302 Found: the method becomes GET and the body is dropped.
    HTTPFound(String),
    /// 301 Moved Permanently: the method becomes GET and the body is dropped.
    HTTPMovedPermanently(String),
    /// 308 Permanent Redirect: method and body are preserved.
    HTTPPermanentRedirect(String),
    /// 303 See Other: the method becomes GET and the body is dropped.
    HTTPSeeOther(String),
    /// 307 Temporary Redirect: method and body are preserved.
    HTTPTemporaryRedirect(String),
}

/// What processing one header line decides.
pub enum HeaderOutcome {
    /// Keep reading headers.
    Proceed,
    /// A `Location` header on a redirect status: switch to a new request.
    Redirect(HTTPRedirect),
    /// The header block is malformed.
    Failed(CabotError),
}

/// One step of the header phase.
pub enum HeaderStep {
    /// The buffer holds no complete line: feed more bytes.
    NeedMore,
    /// The header block ended; its raw bytes are handed back to be
    /// written to the sink as the single header write.
    Done(Vec<u8>),
    /// A redirect was detected while reading headers.
    Redirect(HTTPRedirect),
}

/// Normalization of one header-name byte: `-` becomes `_`, letters are
/// upper-cased.
pub open spec fn norm_byte(b: u8) -> u8 {
    if b == 0x2d {
        0x5f
    } else {
        upper_byte(b)
    }
}

/// The normalized header name: everything before the first colon,
/// upper-cased with `-` replaced by `_`.
pub open spec fn norm_name(h: Seq<u8>) -> Seq<u8> {
    h.take(idx_of(h, 0x3a)).map_values(|b: u8| norm_byte(b))
}

/// What one header line tells the header phase to do.
pub enum HeaderSignal {
    /// Keep reading headers.
    Go,
    /// Switch to the redirect target.
    Switch,
    /// The header is malformed.
    Bad,
}

/// How the header phase as a whole ends.
pub enum HeadOutcome {
    /// No complete line is buffered.
    MoreNeeded,
    /// The empty line ended the block.
    Complete,
    /// A `Location` header on a redirect status was seen.
    Redirected,
    /// A header was malformed.
    Malformed,
}

/// What processing one raw header line does, as a pure function: the
/// framing afterwards, the signal, and the redirect target (trimmed,
/// empty unless the signal is `Switch`).
pub open spec fn spec_process_header(h: Seq<u8>, code: (u8, u8, u8), te: TransferEncoding) -> (
    TransferEncoding,
    HeaderSignal,
    Seq<u8>,
) {
    let colon = idx_of(h, 0x3a);
    let tval = trim_spec(h.subrange(colon + 1, h.len() as int));
    if colon >= h.len() {
        (te, HeaderSignal::Go, Seq::<u8>::empty())
    } else if norm_name(h) == encode_utf8("TRANSFER_ENCODING"@) {
        (
            if upper_seq(tval) == encode_utf8("CHUNKED"@) {
                TransferEncoding::Chunked
            } else {
                TransferEncoding::Unknown
            },
            HeaderSignal::Go,
            Seq::<u8>::empty(),
        )
    } else if norm_name(h) == encode_utf8("CONTENT_LENGTH"@) {
        if tval.len() > 0 && all_digits(tval) && dec_value(tval) <= usize::MAX {
            (
                TransferEncoding::ContentLength(dec_value(tval) as usize),
                HeaderSignal::Go,
                Seq::<u8>::empty(),
            )
        } else {
            (te, HeaderSignal::Bad, Seq::<u8>::empty())
        }
    } else if norm_name(h) == encode_utf8("LOCATION"@) && code.0 == 0x33 {
        if code == (0x33u8, 0x30u8, 0x31u8) || code == (0x33u8, 0x30u8, 0x32u8) || code == (
            0x33u8,
            0x30u8,
            0x33u8,
        ) || code == (0x33u8, 0x30u8, 0x37u8) || code == (0x33u8, 0x30u8, 0x38u8) {
            (te, HeaderSignal::Switch, tval)
        } else {
            (te, HeaderSignal::Go, Seq::<u8>::empty())
        }
    } else {
        (te, HeaderSignal::Go, Seq::<u8>::empty())
    }
}

/// One maximal run of the header phase over a buffer, as a pure
/// function: how many bytes are consumed, how it ends, the status code
/// and framing afterwards, and the redirect target when one was seen.
pub open spec fn spec_read_head(
    b: Seq<u8>,
    seen: bool,
    code: (u8, u8, u8),
    te: TransferEncoding,
) -> (int, HeadOutcome, (u8, u8, u8), TransferEncoding, Seq<u8>)
    decreases b.len(),
    via spec_read_head_decreases
{
    let i = idx_of(b, 0x0a);
    if i >= b.len() {
        (0, HeadOutcome::MoreNeeded, code, te, Seq::<u8>::empty())
    } else {
        let line = b.take(i + 1);
        let rest = b.subrange(i + 1, b.len() as int);
        if !seen {
            let rec = spec_read_head(rest, true, spec_status_code_of(line, code), te);
            (i + 1 + rec.0, rec.1, rec.2, rec.3, rec.4)
        } else {
            let p = spec_process_header(line, code, te);
            if p.1 is Bad {
                (i + 1, HeadOutcome::Malformed, code, te, Seq::<u8>::empty())
            } else if p.1 is Switch {
                (i + 1, HeadOutcome::Redirected, code, te, p.2)
            } else if line.len() == 2 {
                (i + 1, HeadOutcome::Complete, code, p.0, Seq::<u8>::empty())
            } else {
                let rec = spec_read_head(rest, true, code, p.0);
                (i + 1 + rec.0, rec.1, rec.2, rec.3, rec.4)
            }
        }
    }
}

#[via_fn]
proof fn spec_read_head_decreases(b: Seq<u8>, seen: bool, code: (u8, u8, u8), te: TransferEncoding) {
    lemma_idx_of(b, 0x0a);
}

/// The target URL a redirect carries.
pub open spec fn spec_redirect_url(rd: &HTTPRedirect) -> Seq<char> {
    match rd {
        HTTPRedirect::HTTPFound(u) => u@,
        HTTPRedirect::HTTPMovedPermanently(u) => u@,
        HTTPRedirect::HTTPPermanentRedirect(u) => u@,
        HTTPRedirect::HTTPSeeOther(u) => u@,
        HTTPRedirect::HTTPTemporaryRedirect(u) => u@,
    }
}

/// The correspondence between a redirect's variant and the status code
/// it was raised for.
pub open spec fn spec_redirect_matches_code(rd: &HTTPRedirect, code: (u8, u8, u8)) -> bool {
    match rd {
        HTTPRedirect::HTTPMovedPermanently(_) => code == (0x33u8, 0x30u8, 0x31u8),
        HTTPRedirect::HTTPFound(_) => code == (0x33u8, 0x30u8, 0x32u8),
        HTTPRedirect::HTTPSeeOther(_) => code == (0x33u8, 0x30u8, 0x33u8),
        HTTPRedirect::HTTPTemporaryRedirect(_) => code == (0x33u8, 0x30u8, 0x37u8),
        HTTPRedirect::HTTPPermanentRedirect(_) => code == (0x33u8, 0x30u8, 0x38u8),
    }
}

/// Normalize a header name.
fn normalize_name(s: &[u8]) -> (r: Vec<u8>)
    ensures
        r@ == s@.map_values(|b: u8| norm_byte(b)),
{
    let mut r: Vec<u8> = Vec::new();
    let mut i: usize = 0;
    while i < s.len()
        invariant
            0 <= i <= s@.len(),
            r@ =~= s@.map_values(|b: u8| norm_byte(b)).take(i as int),
        decreases s@.len() - i,
    {
        let b = s[i];
        if b == 0x2d {
            r.push(0x5f);
        } else if 0x61 <= b && b <= 0x7a {
            r.push(b - 0x20);
        } else {
            r.push(b);
        }
        assert(r@ =~= s@.map_values(|b: u8| norm_byte(b)).take(i as int + 1));
        i = i + 1;
    }
    assert(r@ =~= s@.map_values(|b: u8| norm_byte(b)));
    r
}

/// One maximal run of the chunked decoder over a buffer, as a pure
/// function: the body bytes it hands out, the bytes left unparsed, the
/// new sub-state, whether the body ended (a zero-size chunk was seen),
/// and whether the stream is malformed. The size is the leading
/// hexadecimal token of the size line; what follows it (a chunk
/// extension such as `;name=value`) is stripped. A size line without a
/// leading hexadecimal digit, or with a size too large for the
/// machine, is malformed.
pub open spec fn spec_dechunk(b: Seq<u8>, st: TransferEncodingStatus) -> (
    Seq<u8>,
    Seq<u8>,
    TransferEncodingStatus,
    bool,
    bool,
)
    decreases b.len(),
    via spec_dechunk_decreases
{
    match st {
        TransferEncodingStatus::ReadingHeader => {
            let i = idx_of(b, 0x0a);
            if i >= b.len() {
                (Seq::<u8>::empty(), b, st, false, false)
            } else {
                let line = b.take(i + 1);
                let rest = b.subrange(i + 1, b.len() as int);
                if line.len() <= 2 {
                    (Seq::<u8>::empty(), b, st, false, true)
                } else {
                    let t = trim_spec(line);
                    let pre = t.take(crate::ascii::hex_prefix_len(t));
                    if pre.len() > 0 && hex_value(pre) <= usize::MAX {
                        if hex_value(pre) == 0 {
                            let j = idx_of(rest, 0x0a);
                            let rest2 = if j >= rest.len() {
                                rest
                            } else {
                                rest.subrange(j + 1, rest.len() as int)
                            };
                            (
                                Seq::<u8>::empty(),
                                rest2,
                                TransferEncodingStatus::ReadingHeader,
                                true,
                                false,
                            )
                        } else {
                            spec_dechunk(
                                rest,
                                TransferEncodingStatus::ReadingBody(hex_value(pre) as usize),
                            )
                        }
                    } else {
                        (Seq::<u8>::empty(), b, st, false, true)
                    }
                }
            }
        },
        TransferEncodingStatus::ReadingBody(rem) => {
            if rem == 0 {
                if b.len() >= 2 {
                    spec_dechunk(
                        b.subrange(2, b.len() as int),
                        TransferEncodingStatus::ReadingHeader,
                    )
                } else {
                    (Seq::<u8>::empty(), b, st, false, false)
                }
            } else if b.len() == 0 {
                (Seq::<u8>::empty(), b, st, false, false)
            } else {
                let take = if b.len() < rem {
                    b.len() as int
                } else {
                    rem as int
                };
                let rec = spec_dechunk(
                    b.subrange(take, b.len() as int),
                    TransferEncodingStatus::ReadingBody((rem - take) as usize),
                );
                (b.take(take) + rec.0, rec.1, rec.2, rec.3, rec.4)
            }
        },
    }
}

#[via_fn]
proof fn spec_dechunk_decreases(b: Seq<u8>, st: TransferEncodingStatus) {
    lemma_idx_of(b, 0x0a);
}

/// The HTTP response decoder's state: an internal buffer of unparsed
/// bytes, the framing decision, the chunk sub-state, the status code
/// bytes (for redirect classification), the raw head gathered so far,
/// and the count of body bytes already handed out under
/// `Content-Length` framing.
pub struct HttpDecoder {
    pub buffer: Vec<u8>,
    pub transfer_encoding: TransferEncoding,
    pub transfer_encoding_status: TransferEncodingStatus,
    pub status_code: (u8, u8, u8),
    pub head: Vec<u8>,
    pub seen_status: bool,
    pub body_forwarded: usize,
}

/// Everything but the buffer is unchanged.
pub open spec fn same_but_buffer(a: HttpDecoder, b: HttpDecoder) -> bool {
    &&& a.transfer_encoding == b.transfer_encoding
    &&& a.transfer_encoding_status == b.transfer_encoding_status
    &&& a.status_code == b.status_code
    &&& a.head == b.head
    &&& a.seen_status == b.seen_status
    &&& a.body_forwarded == b.body_forwarded
}

/// Everything but the buffer and the framing decision is unchanged.
pub open spec fn same_but_framing(a: HttpDecoder, b: HttpDecoder) -> bool {
    &&& a.buffer == b.buffer
    &&& a.transfer_encoding_status == b.transfer_encoding_status
    &&& a.status_code == b.status_code
    &&& a.head == b.head
    &&& a.seen_status == b.seen_status
    &&& a.body_forwarded == b.body_forwarded
}

/// The status code bytes a status line records: the three bytes after
/// the first space, when the line is long enough, else the previous
/// code.
pub open spec fn spec_status_code_of(line: Seq<u8>, prev: (u8, u8, u8)) -> (u8, u8, u8) {
    let i = idx_of(line, 0x20);
    if i < line.len() && i + 3 < line.len() {
        (line[i + 1], line[i + 2], line[i + 3])
    } else {
        prev
    }
}

impl HttpDecoder {
    /// A fresh decoder: empty buffer, no framing decision, status code
    /// `000`.
    pub fn new() -> (r: Self)
        ensures
            r.buffer@.len() == 0,
            r.transfer_encoding is Unset,
            r.transfer_encoding_status is ReadingHeader,
            r.status_code == (0x30u8, 0x30u8, 0x30u8),
            r.head@.len() == 0,
            r.seen_status == false,
            r.body_forwarded == 0,
    {
        HttpDecoder {
            buffer: Vec::new(),
            transfer_encoding: TransferEncoding::Unset,
            transfer_encoding_status: TransferEncodingStatus::ReadingHeader,
            status_code: (0x30, 0x30, 0x30),
            head: Vec::new(),
            seen_status: false,
            body_forwarded: 0,
        }
    }

    /// Feed bytes read from the transport into the buffer.
    pub fn feed(&mut self, data: &[u8])
        ensures
            final(self).buffer@ == old(self).buffer@ + data@,
            same_but_buffer(*old(self), *final(self)),
    {
        let mut buffer = bytes_to_vec(self.buffer.as_slice());
        extend_bytes(&mut buffer, data);
        self.buffer = buffer;
    }

    /// Extract the first line from the buffer, when a complete one is
    /// there. The line includes its terminating line feed.
    pub fn drain_line(&mut self) -> (r: Option<Vec<u8>>)
        ensures
            match r {
                Some(line) => {
                    &&& line@.len() >= 1
                    &&& line@.last() == 0x0a
                    &&& forall|j: int| 0 <= j < line@.len() - 1 ==> line@[j] != 0x0a
                    &&& old(self).buffer@ == line@ + final(self).buffer@
                    &&& same_but_buffer(*old(self), *final(self))
                },
                None => {
                    &&& *final(self) == *old(self)
                    &&& forall|j: int|
                        0 <= j < old(self).buffer@.len() ==> old(self).buffer@[j] != 0x0a
                },
            },
    {
        let n = self.buffer.len();
        match find_byte(self.buffer.as_slice(), 0x0a, 0) {
            Some(pos) => {
                let line = bytes_subrange(self.buffer.as_slice(), 0, pos + 1);
                let rest = bytes_subrange(self.buffer.as_slice(), pos + 1, n);
                proof {
                    assert(old(self).buffer@ =~= line@ + rest@);
                }
                self.buffer = rest;
                Some(line)
            },
            None => None,
        }
    }

    /// Read the status line, when complete, and record its status code
    /// bytes.
    pub fn read_status_line(&mut self) -> (r: Option<Vec<u8>>)
        ensures
            match r {
                Some(line) => {
                    &&& line@.len() >= 1
                    &&& line@.last() == 0x0a
                    &&& forall|j: int| 0 <= j < line@.len() - 1 ==> line@[j] != 0x0a
                    &&& old(self).buffer@ == line@ + final(self).buffer@
                    &&& final(self).status_code == spec_status_code_of(
                        line@,
                        old(self).status_code,
                    )
                    &&& final(self).transfer_encoding == old(self).transfer_encoding
                    &&& final(self).transfer_encoding_status == old(
                        self,
                    ).transfer_encoding_status
                    &&& final(self).head == old(self).head
                    &&& final(self).seen_status == old(self).seen_status
                    &&& final(self).body_forwarded == old(self).body_forwarded
                },
                None => {
                    &&& *final(self) == *old(self)
                    &&& forall|j: int|
                        0 <= j < old(self).buffer@.len() ==> old(self).buffer@[j] != 0x0a
                },
            },
    {
        let line = match self.drain_line() {
            Some(line) => line,
            None => {
                return None;
            },
        };
        match find_byte(line.as_slice(), 0x20, 0) {
            Some(pos) => {
                proof {
                    lemma_first_occurrence_is_idx_of(line@, 0x20, pos as int);
                }
                if line.len() > 3 && pos < line.len() - 3 {
                    self.status_code = (line[pos + 1], line[pos + 2], line[pos + 3]);
                }
            },
            None => {
                proof {
                    lemma_no_occurrence_idx_of(line@, 0x20);
                }
            },
        }
        Some(line)
    }

    /// Dispatch one raw header line (terminating CRLF included):
    /// record the framing it declares, or classify the redirect it
    /// announces.
    pub fn process_header(&mut self, header: &[u8]) -> (r: HeaderOutcome)
        ensures
            ({
                let h = header@;
                let colon = idx_of(h, 0x3a);
                let tval = trim_spec(h.subrange(colon + 1, h.len() as int));
                if colon >= h.len() {
                    r is Proceed && *final(self) == *old(self)
                } else if norm_name(h) == encode_utf8("TRANSFER_ENCODING"@) {
                    &&& r is Proceed
                    &&& same_but_framing(*old(self), *final(self))
                    &&& final(self).transfer_encoding == (if upper_seq(tval) == encode_utf8(
                        "CHUNKED"@,
                    ) {
                        TransferEncoding::Chunked
                    } else {
                        TransferEncoding::Unknown
                    })
                } else if norm_name(h) == encode_utf8("CONTENT_LENGTH"@) {
                    if tval.len() > 0 && all_digits(tval) && dec_value(tval) <= usize::MAX {
                        &&& r is Proceed
                        &&& same_but_framing(*old(self), *final(self))
                        &&& final(self).transfer_encoding matches TransferEncoding::ContentLength(
                            sz,
                        ) && sz == dec_value(tval)
                    } else {
                        r matches HeaderOutcome::Failed(e) && e is HttpResponseParseError
                            && *final(self) == *old(self)
                    }
                } else if norm_name(h) == encode_utf8("LOCATION"@) && old(self).status_code.0
                    == 0x33 {
                    &&& *final(self) == *old(self)
                    &&& ({
                        let c = old(self).status_code;
                        if c == (0x33u8, 0x30u8, 0x31u8) {
                            r matches HeaderOutcome::Redirect(
                                HTTPRedirect::HTTPMovedPermanently(loc),
                            ) && (valid_utf8(tval) ==> encode_utf8(loc@) == tval)
                        } else if c == (0x33u8, 0x30u8, 0x32u8) {
                            r matches HeaderOutcome::Redirect(HTTPRedirect::HTTPFound(loc)) && (
                            valid_utf8(tval) ==> encode_utf8(loc@) == tval)
                        } else if c == (0x33u8, 0x30u8, 0x33u8) {
                            r matches HeaderOutcome::Redirect(HTTPRedirect::HTTPSeeOther(loc)) && (
                            valid_utf8(tval) ==> encode_utf8(loc@) == tval)
                        } else if c == (0x33u8, 0x30u8, 0x37u8) {
                            r matches HeaderOutcome::Redirect(
                                HTTPRedirect::HTTPTemporaryRedirect(loc),
                            ) && (valid_utf8(tval) ==> encode_utf8(loc@) == tval)
                        } else if c == (0x33u8, 0x30u8, 0x38u8) {
                            r matches HeaderOutcome::Redirect(
                                HTTPRedirect::HTTPPermanentRedirect(loc),
                            ) && (valid_utf8(tval) ==> encode_utf8(loc@) == tval)
                        } else {
                            r is Proceed
                        }
                    })
                } else {
                    r is Proceed && *final(self) == *old(self)
                }
            }),
    {
        let n = header.len();
        let colon = match find_byte(header, 0x3a, 0) {
            Some(c) => c,
            None => {
                proof {
                    lemma_no_occurrence_idx_of(header@, 0x3a);
                }
                return HeaderOutcome::Proceed;
            },
        };
        proof {
            lemma_first_occurrence_is_idx_of(header@, 0x3a, colon as int);
        }
        let name_raw = bytes_subrange(header, 0, colon);
        let name = normalize_name(name_raw.as_slice());
        proof {
            assert(name@ =~= norm_name(header@));
        }
        let value = bytes_subrange(header, colon + 1, n);
        if bytes_eq(name.as_slice(), "TRANSFER_ENCODING".as_bytes()) {
            let t = trim_bytes(value.as_slice());
            let tu = ascii_upper(t.as_slice());
            if bytes_eq(tu.as_slice(), "CHUNKED".as_bytes()) {
                self.transfer_encoding = TransferEncoding::Chunked;
            } else {
                self.transfer_encoding = TransferEncoding::Unknown;
            }
            HeaderOutcome::Proceed
        } else if bytes_eq(name.as_slice(), "CONTENT_LENGTH".as_bytes()) {
            let t = trim_bytes(value.as_slice());
            match parse_dec(t.as_slice()) {
                Some(sz) => {
                    self.transfer_encoding = TransferEncoding::ContentLength(sz);
                    HeaderOutcome::Proceed
                },
                None => HeaderOutcome::Failed(
                    CabotError::HttpResponseParseError("Malformed Content-Length".to_owned()),
                ),
            }
        } else if bytes_eq(name.as_slice(), "LOCATION".as_bytes()) {
            if self.status_code.0 == 0x33 {
                let t = trim_bytes(value.as_slice());
                proof {
                    broadcast use vstd::utf8::decode_utf8_encode_utf8;

                }
                let loc = string_from_utf8_lossy(t.as_slice());
                let c1 = self.status_code.1;
                let c2 = self.status_code.2;
                if c1 == 0x30 && c2 == 0x31 {
                    HeaderOutcome::Redirect(HTTPRedirect::HTTPMovedPermanently(loc))
                } else if c1 == 0x30 && c2 == 0x32 {
                    HeaderOutcome::Redirect(HTTPRedirect::HTTPFound(loc))
                } else if c1 == 0x30 && c2 == 0x33 {
                    HeaderOutcome::Redirect(HTTPRedirect::HTTPSeeOther(loc))
                } else if c1 == 0x30 && c2 == 0x37 {
                    HeaderOutcome::Redirect(HTTPRedirect::HTTPTemporaryRedirect(loc))
                } else if c1 == 0x30 && c2 == 0x38 {
                    HeaderOutcome::Redirect(HTTPRedirect::HTTPPermanentRedirect(loc))
                } else {
                    HeaderOutcome::Proceed
                }
            } else {
                HeaderOutcome::Proceed
            }
        } else {
            HeaderOutcome::Proceed
        }
    }

    /// One step of the header phase: consume as many complete lines as
    /// the buffer holds, exactly as [`spec_read_head`] describes. The
    /// consumed bytes are appended to the raw head in order (except a
    /// redirecting or malformed line, which is dropped). Ends with the
    /// block's raw bytes on the empty line, with a redirect when a
    /// `Location` header on a 3xx status is seen, or with a parse
    /// error.
    pub fn read_headers_step(&mut self) -> (r: Result<HeaderStep, CabotError>)
        ensures
            final(self).body_forwarded == old(self).body_forwarded,
            final(self).transfer_encoding_status == old(self).transfer_encoding_status,
            ({
                let rh = spec_read_head(
                    old(self).buffer@,
                    old(self).seen_status,
                    old(self).status_code,
                    old(self).transfer_encoding,
                );
                &&& final(self).buffer@ == old(self).buffer@.skip(rh.0)
                &&& final(self).status_code == rh.2
                &&& final(self).transfer_encoding == rh.3
                &&& match r {
                    Ok(HeaderStep::NeedMore) => rh.1 is MoreNeeded && final(self).head@ == old(
                        self,
                    ).head@ + old(self).buffer@.take(rh.0),
                    Ok(HeaderStep::Done(h)) => rh.1 is Complete && h@ == final(self).head@
                        && final(self).head@ == old(self).head@ + old(self).buffer@.take(rh.0)
                        && final(self).seen_status == true,
                    Ok(HeaderStep::Redirect(rd)) => rh.1 is Redirected
                        && spec_redirect_matches_code(&rd, rh.2) && (valid_utf8(rh.4)
                        ==> encode_utf8(spec_redirect_url(&rd)) == rh.4),
                    Err(e) => rh.1 is Malformed && e is HttpResponseParseError,
                }
            }),
    {
        let ghost buf0 = self.buffer@;
        let ghost head0 = self.head@;
        let ghost rh0 = spec_read_head(
            buf0,
            self.seen_status,
            self.status_code,
            self.transfer_encoding,
        );
        let ghost mut consumed: int = 0;
        proof {
            assert(buf0.skip(0) =~= buf0);
            assert(head0 + buf0.take(0) =~= head0);
        }
        loop
            invariant
                buf0 == old(self).buffer@,
                head0 == old(self).head@,
                rh0 == spec_read_head(
                    buf0,
                    old(self).seen_status,
                    old(self).status_code,
                    old(self).transfer_encoding,
                ),
                self.body_forwarded == old(self).body_forwarded,
                self.transfer_encoding_status == old(self).transfer_encoding_status,
                0 <= consumed <= buf0.len(),
                self.buffer@ == buf0.skip(consumed),
                self.head@ == head0 + buf0.take(consumed),
                ({
                    let rhc = spec_read_head(
                        self.buffer@,
                        self.seen_status,
                        self.status_code,
                        self.transfer_encoding,
                    );
                    &&& rh0.0 == consumed + rhc.0
                    &&& rh0.1 == rhc.1
                    &&& rh0.2 == rhc.2
                    &&& rh0.3 == rhc.3
                    &&& rh0.4 == rhc.4
                }),
            decreases self.buffer@.len(),
        {
            let ghost cur = self.buffer@;
            let ghost curcode = self.status_code;
            let ghost curte = self.transfer_encoding;
            if !self.seen_status {
                let line = match self.read_status_line() {
                    None => {
                        proof {
                            lemma_no_occurrence_idx_of(cur, 0x0a);
                        }
                        return Ok(HeaderStep::NeedMore);
                    },
                    Some(l) => l,
                };
                proof {
                    lemma_first_occurrence_is_idx_of(cur, 0x0a, line@.len() - 1);
                    assert(cur.take(line@.len() as int) =~= line@);
                    assert(cur.subrange(line@.len() as int, cur.len() as int) =~= self.buffer@);
                }
                self.seen_status = true;
                let mut h = bytes_to_vec(self.head.as_slice());
                extend_bytes(&mut h, line.as_slice());
                self.head = h;
                proof {
                    lemma_line_consumed(buf0, head0, cur, self.buffer@, line@, consumed);
                    consumed = consumed + line@.len();
                }
            } else {
                let line = match self.drain_line() {
                    None => {
                        proof {
                            lemma_no_occurrence_idx_of(cur, 0x0a);
                        }
                        return Ok(HeaderStep::NeedMore);
                    },
                    Some(l) => l,
                };
                proof {
                    lemma_first_occurrence_is_idx_of(cur, 0x0a, line@.len() - 1);
                    assert(cur.take(line@.len() as int) =~= line@);
                    assert(cur.subrange(line@.len() as int, cur.len() as int) =~= self.buffer@);
                }
                let ghost p = spec_process_header(line@, curcode, curte);
                match self.process_header(line.as_slice()) {
                    HeaderOutcome::Proceed => {
                        proof {
                            assert(p.1 is Go && p.0 == self.transfer_encoding);
                        }
                    },
                    HeaderOutcome::Redirect(rd) => {
                        proof {
                            assert(p.1 is Switch);
                            lemma_line_consumed(buf0, head0, cur, self.buffer@, line@, consumed);
                        }
                        return Ok(HeaderStep::Redirect(rd));
                    },
                    HeaderOutcome::Failed(e) => {
                        proof {
                            assert(p.1 is Bad);
                            lemma_line_consumed(buf0, head0, cur, self.buffer@, line@, consumed);
                        }
                        return Err(e);
                    },
                }
                let mut h = bytes_to_vec(self.head.as_slice());
                extend_bytes(&mut h, line.as_slice());
                self.head = h;
                proof {
                    lemma_line_consumed(buf0, head0, cur, self.buffer@, line@, consumed);
                    consumed = consumed + line@.len();
                }
                if line.len() == 2 {
                    return Ok(HeaderStep::Done(bytes_to_vec(self.head.as_slice())));
                }
            }
        }
    }

    /// One step of the body phase, driven by the framing: hand back the
    /// body bytes the buffer yields and whether the body is complete.
    /// Under `Content-Length` framing, bytes past the declared length
    /// are discarded. With no recognized framing, everything is handed
    /// back and the body ends when the caller signals the end of the
    /// stream (`eof`).
    pub fn body_step(&mut self, eof: bool) -> (r: Result<(Vec<u8>, bool), CabotError>)
        ensures
            final(self).transfer_encoding == old(self).transfer_encoding,
            final(self).status_code == old(self).status_code,
            final(self).head == old(self).head,
            final(self).seen_status == old(self).seen_status,
            match old(self).transfer_encoding {
                TransferEncoding::ContentLength(size) => ({
                    let remaining = if size > old(self).body_forwarded {
                        size - old(self).body_forwarded
                    } else {
                        0
                    };
                    let take = if old(self).buffer@.len() < remaining {
                        old(self).buffer@.len() as int
                    } else {
                        remaining as int
                    };
                    &&& r matches Ok(p) && p.0@ == old(self).buffer@.take(take) && p.1 == (old(
                        self,
                    ).body_forwarded + take >= size)
                    &&& final(self).buffer@.len() == 0
                    &&& final(self).body_forwarded == old(self).body_forwarded + take
                    &&& final(self).transfer_encoding_status == old(self).transfer_encoding_status
                }),
                TransferEncoding::Chunked => ({
                    let d = spec_dechunk(old(self).buffer@, old(self).transfer_encoding_status);
                    if d.4 {
                        r matches Err(e) && e is HttpResponseParseError
                    } else {
                        &&& r matches Ok(p) && p.0@ == d.0 && p.1 == d.3
                        &&& final(self).buffer@ == d.1
                        &&& final(self).transfer_encoding_status == d.2
                        &&& final(self).body_forwarded == old(self).body_forwarded
                    }
                }),
                _ => {
                    &&& r matches Ok(p) && p.0@ == old(self).buffer@ && p.1 == eof
                    &&& final(self).buffer@.len() == 0
                    &&& final(self).body_forwarded == old(self).body_forwarded
                    &&& final(self).transfer_encoding_status == old(self).transfer_encoding_status
                },
            },
    {
        match self.transfer_encoding {
            TransferEncoding::ContentLength(size) => {
                let forwarded = self.body_forwarded;
                let remaining = if size > forwarded {
                    size - forwarded
                } else {
                    0
                };
                let blen = self.buffer.len();
                let take = if blen < remaining {
                    blen
                } else {
                    remaining
                };
                let out = bytes_subrange(self.buffer.as_slice(), 0, take);
                self.buffer = Vec::new();
                self.body_forwarded = forwarded + take;
                Ok((out, forwarded + take >= size))
            },
            TransferEncoding::Chunked => {
                let ghost b0 = self.buffer@;
                let ghost st0 = self.transfer_encoding_status;
                let ghost d0 = spec_dechunk(b0, st0);
                let mut out: Vec<u8> = Vec::new();
                loop
                    invariant
                        self.transfer_encoding == old(self).transfer_encoding,
                        self.transfer_encoding is Chunked,
                        self.status_code == old(self).status_code,
                        self.head == old(self).head,
                        self.seen_status == old(self).seen_status,
                        self.body_forwarded == old(self).body_forwarded,
                        d0 == spec_dechunk(old(self).buffer@, old(self).transfer_encoding_status),
                        ({
                            let d = spec_dechunk(self.buffer@, self.transfer_encoding_status);
                            d0.0 == out@ + d.0 && d0.1 == d.1 && d0.2 == d.2 && d0.3 == d.3 && d0.4
                                == d.4
                        }),
                    decreases self.buffer@.len(),
                {
                    let ghost cur = self.buffer@;
                    let ghost curst = self.transfer_encoding_status;
                    match self.transfer_encoding_status {
                        TransferEncodingStatus::ReadingHeader => {
                            let line = match self.drain_line() {
                                None => {
                                    proof {
                                        lemma_no_occurrence_idx_of(cur, 0x0a);
                                    }
                                    return Ok((out, false));
                                },
                                Some(l) => l,
                            };
                            proof {
                                lemma_first_occurrence_is_idx_of(cur, 0x0a, line@.len() - 1);
                                assert(cur.take(line@.len() as int) =~= line@);
                                assert(cur.subrange(line@.len() as int, cur.len() as int)
                                    =~= self.buffer@);
                            }
                            if line.len() <= 2 {
                                return Err(
                                    CabotError::HttpResponseParseError(
                                        "Chunk header is too short, should be an hexa string".to_owned(),
                                    ),
                                );
                            }
                            let t = trim_bytes(line.as_slice());
                            let k = crate::ascii::hex_prefix(t.as_slice());
                            let pre = bytes_subrange(t.as_slice(), 0, k);
                            match parse_hex(pre.as_slice()) {
                                None => {
                                    return Err(
                                        CabotError::HttpResponseParseError(
                                            "Chunk part should be an hexa string".to_owned(),
                                        ),
                                    );
                                },
                                Some(size) => {
                                    if size == 0 {
                                        let ghost rest = self.buffer@;
                                        match self.drain_line() {
                                            Some(l2) => {
                                                proof {
                                                    lemma_first_occurrence_is_idx_of(
                                                        rest,
                                                        0x0a,
                                                        l2@.len() - 1,
                                                    );
                                                    assert(rest.subrange(
                                                        l2@.len() as int,
                                                        rest.len() as int,
                                                    ) =~= self.buffer@);
                                                }
                                            },
                                            None => {
                                                proof {
                                                    lemma_no_occurrence_idx_of(rest, 0x0a);
                                                }
                                            },
                                        }
                                        return Ok((out, true));
                                    }
                                    self.transfer_encoding_status =
                                    TransferEncodingStatus::ReadingBody(size);
                                },
                            }
                        },
                        TransferEncodingStatus::ReadingBody(rem) => {
                            if rem == 0 {
                                let blen = self.buffer.len();
                                if blen >= 2 {
                                    let rest = bytes_subrange(self.buffer.as_slice(), 2, blen);
                                    proof {
                                        assert(rest@ =~= cur.subrange(2, cur.len() as int));
                                    }
                                    self.buffer = rest;
                                    self.transfer_encoding_status =
                                    TransferEncodingStatus::ReadingHeader;
                                } else {
                                    return Ok((out, false));
                                }
                            } else {
                                let blen = self.buffer.len();
                                if blen == 0 {
                                    return Ok((out, false));
                                }
                                let take = if blen < rem {
                                    blen
                                } else {
                                    rem
                                };
                                let chunk = bytes_subrange(self.buffer.as_slice(), 0, take);
                                extend_bytes(&mut out, chunk.as_slice());
                                let rest = bytes_subrange(self.buffer.as_slice(), take, blen);
                                proof {
                                    assert(chunk@ =~= cur.take(take as int));
                                    assert(rest@ =~= cur.subrange(take as int, cur.len() as int));
                                }
                                self.buffer = rest;
                                self.transfer_encoding_status = TransferEncodingStatus::ReadingBody(
                                    rem - take,
                                );
                            }
                        },
                    }
                }
            },
            _ => {
                let out = bytes_to_vec(self.buffer.as_slice());
                self.buffer = Vec::new();
                Ok((out, eof))
            },
        }
    }
}

// --- the head-phase round trip ---

/// The signal a header line raises does not depend on the framing
/// seen so far.
proof fn lemma_signal_te_independent(
    h: Seq<u8>,
    code: (u8, u8, u8),
    te1: TransferEncoding,
    te2: TransferEncoding,
)
    ensures
        spec_process_header(h, code, te1).1 == spec_process_header(h, code, te2).1,
{
}

/// Well-formed header lines followed by the final empty line are
/// consumed exactly, ending the header phase at the empty line.
proof fn lemma_head_lines_consumption(
    hs: Seq<Seq<u8>>,
    tail: Seq<u8>,
    code: (u8, u8, u8),
    te: TransferEncoding,
)
    requires
        forall|i: int| 0 <= i < hs.len() ==> crate::client::wf_header_line(#[trigger] hs[i]),
        forall|i: int|
            0 <= i < hs.len() ==> spec_process_header(
                #[trigger] hs[i] + seq![0x0du8, 0x0au8],
                code,
                TransferEncoding::Unset,
            ).1 is Go,
    ensures
        ({
            let rh = spec_read_head(
                crate::client::spec_head_lines(hs) + seq![0x0du8, 0x0au8] + tail,
                true,
                code,
                te,
            );
            &&& rh.0 == crate::client::spec_head_lines(hs).len() + 2
            &&& rh.1 is Complete
            &&& rh.2 == code
        }),
    decreases hs.len(),
{
    if hs.len() == 0 {
        let b = crate::client::spec_head_lines(hs) + seq![0x0du8, 0x0au8] + tail;
        assert(b =~= seq![0x0du8, 0x0au8] + tail);
        assert(b[1] == 0x0a && b[0] == 0x0d);
        lemma_first_occurrence_is_idx_of(b, 0x0a, 1);
        let line = b.take(2);
        assert(line =~= seq![0x0du8, 0x0au8]);
        lemma_no_occurrence_idx_of(line, 0x3a);
        assert(spec_process_header(line, code, te).1 is Go);
    } else {
        let h = hs.first();
        let rest = hs.drop_first();
        let b = crate::client::spec_head_lines(hs) + seq![0x0du8, 0x0au8] + tail;
        let line = h + seq![0x0du8, 0x0au8];
        let b2 = crate::client::spec_head_lines(rest) + seq![0x0du8, 0x0au8] + tail;
        assert(b =~= line + b2);
        assert(b[h.len() as int + 1] == 0x0a);
        assert forall|j: int| 0 <= j < h.len() + 1 implies b[j] != 0x0a by {
            if j < h.len() {
                assert(b[j] == h[j]);
            } else {
                assert(b[j] == 0x0d);
            }
        }
        lemma_first_occurrence_is_idx_of(b, 0x0a, h.len() as int + 1);
        assert(b.take(h.len() as int + 2) =~= line);
        assert(b.subrange(h.len() as int + 2, b.len() as int) =~= b2);
        let p = spec_process_header(line, code, te);
        assert(hs[0] == h);
        lemma_signal_te_independent(line, code, te, TransferEncoding::Unset);
        assert(p.1 is Go);
        assert(line.len() > 2);
        assert forall|i: int|
            0 <= i < rest.len() implies crate::client::wf_header_line(#[trigger] rest[i])
            && spec_process_header(
            rest[i] + seq![0x0du8, 0x0au8],
            code,
            TransferEncoding::Unset,
        ).1 is Go by {
            assert(rest[i] == hs[i + 1]);
        }
        lemma_head_lines_consumption(rest, tail, code, p.0);
        assert(crate::client::spec_head_lines(hs).len() == h.len() + 2
            + crate::client::spec_head_lines(rest).len());
    }
}

/// Law (response round trip, head consumption): fed a complete head
/// block — a status line and well-formed header lines, none of which
/// announces a redirect or carries a malformed `Content-Length` —
/// followed by anything, the header phase consumes exactly the block
/// and ends it at the empty line, recording the status code the
/// status line carries. Together with the head-block and status-line
/// round trips this pins the response round trip: the decoder hands
/// the sink exactly the block, and the sink parses back exactly the
/// status line and headers it was serialized from.
pub proof fn lemma_head_consumption(
    status: Seq<u8>,
    hs: Seq<Seq<u8>>,
    tail: Seq<u8>,
    code0: (u8, u8, u8),
    te0: TransferEncoding,
)
    requires
        forall|i: int| 0 <= i < status.len() ==> status[i] != 0x0a,
        forall|i: int| 0 <= i < hs.len() ==> crate::client::wf_header_line(#[trigger] hs[i]),
        forall|i: int|
            0 <= i < hs.len() ==> spec_process_header(
                #[trigger] hs[i] + seq![0x0du8, 0x0au8],
                spec_status_code_of(status + seq![0x0du8, 0x0au8], code0),
                TransferEncoding::Unset,
            ).1 is Go,
    ensures
        ({
            let block = crate::client::spec_head_block(status, hs);
            let rh = spec_read_head(block + tail, false, code0, te0);
            &&& rh.0 == block.len()
            &&& rh.1 is Complete
            &&& rh.2 == spec_status_code_of(status + seq![0x0du8, 0x0au8], code0)
        }),
{
    let block = crate::client::spec_head_block(status, hs);
    let b = block + tail;
    let line = status + seq![0x0du8, 0x0au8];
    let b2 = crate::client::spec_head_lines(hs) + seq![0x0du8, 0x0au8] + tail;
    assert(b =~= line + b2);
    assert(b[status.len() as int + 1] == 0x0a);
    assert forall|j: int| 0 <= j < status.len() + 1 implies b[j] != 0x0a by {
        if j < status.len() {
            assert(b[j] == status[j]);
        } else {
            assert(b[j] == 0x0d);
        }
    }
    lemma_first_occurrence_is_idx_of(b, 0x0a, status.len() as int + 1);
    assert(b.take(status.len() as int + 2) =~= line);
    assert(b.subrange(status.len() as int + 2, b.len() as int) =~= b2);
    let code1 = spec_status_code_of(line, code0);
    lemma_head_lines_consumption(hs, tail, code1, te0);
    assert(block.len() == status.len() + 2 + crate::client::spec_head_lines(hs).len() + 2);
}

// --- the chunked round trip ---

/// The wire frame of one chunk: its size in hexadecimal, CRLF, the
/// chunk bytes, CRLF.
pub open spec fn spec_chunk_frame(c: Seq<u8>) -> Seq<u8> {
    crate::ascii::hex_digits(c.len()) + seq![0x0du8, 0x0au8] + c + seq![0x0du8, 0x0au8]
}

/// A complete chunked body: each chunk framed in order, then the
/// zero-size chunk and the final empty line.
pub open spec fn spec_chunk_stream(chunks: Seq<Seq<u8>>) -> Seq<u8>
    decreases chunks.len(),
{
    if chunks.len() == 0 {
        seq![0x30u8, 0x0du8, 0x0au8, 0x0du8, 0x0au8]
    } else {
        spec_chunk_frame(chunks.first()) + spec_chunk_stream(chunks.drop_first())
    }
}

/// The chunks' payload bytes, concatenated in order.
pub open spec fn concat_chunks(chunks: Seq<Seq<u8>>) -> Seq<u8>
    decreases chunks.len(),
{
    if chunks.len() == 0 {
        Seq::<u8>::empty()
    } else {
        chunks.first() + concat_chunks(chunks.drop_first())
    }
}

/// Law (chunked idempotence): however a body is split into nonempty
/// chunks, decoding the framed stream hands back exactly the
/// concatenated body, consumes the whole stream, and ends the body
/// without error. A chunk of size zero cannot occur in a split (it
/// would end the stream early), so the chunks are required nonempty.
pub proof fn lemma_chunked_round_trip(chunks: Seq<Seq<u8>>)
    requires
        forall|i: int| 0 <= i < chunks.len() ==> (#[trigger] chunks[i]).len() > 0,
        forall|i: int| 0 <= i < chunks.len() ==> (#[trigger] chunks[i]).len() <= usize::MAX,
    ensures
        ({
            let d = spec_dechunk(spec_chunk_stream(chunks), TransferEncodingStatus::ReadingHeader);
            d.0 == concat_chunks(chunks) && d.1 == Seq::<u8>::empty() && d.3 == true && d.4
                == false
        }),
    decreases chunks.len(),
{
    let s = spec_chunk_stream(chunks);
    if chunks.len() == 0 {
        assert(s =~= seq![0x30u8, 0x0du8, 0x0au8, 0x0du8, 0x0au8]);
        lemma_first_occurrence_is_idx_of(s, 0x0a, 2);
        let line = s.take(3);
        assert(line =~= seq![0x30u8] + seq![0x0du8, 0x0au8]);
        crate::ascii::lemma_trim_line_of(seq![0x30u8], line);
        let t = trim_spec(line);
        assert(t =~= seq![0x30u8]);
        assert(all_hex_digits(t));
        crate::ascii::lemma_hex_prefix_all(t);
        let pre = t.take(crate::ascii::hex_prefix_len(t));
        assert(pre =~= t);
        assert(pre.drop_last() =~= Seq::<u8>::empty());
        assert(hex_value(pre) == hex_value(pre.drop_last()) * 16 + crate::ascii::hex_digit_val(
            pre.last(),
        ));
        assert(hex_value(pre) == 0);
        let rest = s.subrange(3, s.len() as int);
        assert(rest =~= seq![0x0du8, 0x0au8]);
        lemma_first_occurrence_is_idx_of(rest, 0x0a, 1);
        assert(rest.subrange(2, rest.len() as int) =~= Seq::<u8>::empty());
        assert(concat_chunks(chunks) =~= Seq::<u8>::empty());
    } else {
        let c = chunks.first();
        let rest_chunks = chunks.drop_first();
        let d = crate::ascii::hex_digits(c.len());
        crate::ascii::lemma_hex_digits_value(c.len());
        let s2 = spec_chunk_stream(rest_chunks);
        assert(s == spec_chunk_frame(c) + s2);
        // the size line ends at the first line feed
        assert(s[d.len() as int + 1] == 0x0a);
        assert forall|j: int| 0 <= j < d.len() + 1 implies s[j] != 0x0a by {
            if j < d.len() {
                assert(s[j] == d[j]);
                assert(crate::ascii::is_hex_digit_byte(d[j]));
            } else {
                assert(s[j] == 0x0d);
            }
        }
        lemma_first_occurrence_is_idx_of(s, 0x0a, d.len() as int + 1);
        let line = s.take(d.len() as int + 2);
        assert(line =~= d + seq![0x0du8, 0x0au8]);
        assert forall|i: int| 0 <= i < d.len() implies !crate::ascii::is_ws_byte(
            #[trigger] d[i],
        ) by {
            assert(crate::ascii::is_hex_digit_byte(d[i]));
        }
        crate::ascii::lemma_trim_line_of(d, line);
        assert(trim_spec(line) == d);
        crate::ascii::lemma_hex_prefix_all(d);
        assert(d.take(crate::ascii::hex_prefix_len(d)) =~= d);
        assert(hex_value(d) == c.len());
        assert(line.len() > 2);
        // the rest: the chunk bytes, their CRLF, and the remaining frames
        let rest = s.subrange(d.len() as int + 2, s.len() as int);
        assert(rest =~= c + seq![0x0du8, 0x0au8] + s2);
        // the whole chunk is present, so it is taken in one step
        assert(rest.len() > c.len());
        let after_c = rest.subrange(c.len() as int, rest.len() as int);
        assert(rest.take(c.len() as int) =~= c);
        assert(after_c =~= seq![0x0du8, 0x0au8] + s2);
        // the chunk's CRLF is consumed, then the remaining frames decode
        assert(after_c.len() >= 2);
        assert(after_c.subrange(2, after_c.len() as int) =~= s2);
        lemma_chunked_round_trip(rest_chunks);
        let drest = spec_dechunk(s2, TransferEncodingStatus::ReadingHeader);
        assert(spec_dechunk(
            after_c.subrange(2, after_c.len() as int),
            TransferEncodingStatus::ReadingHeader,
        ) == drest);
        let dafter = spec_dechunk(after_c, TransferEncodingStatus::ReadingBody(0));
        assert(dafter == drest);
        let dbody = spec_dechunk(rest, TransferEncodingStatus::ReadingBody(c.len() as usize));
        assert(dbody.0 == c + dafter.0);
        let dall = spec_dechunk(s, TransferEncodingStatus::ReadingHeader);
        assert(dall == dbody);
        assert(dall.0 =~= concat_chunks(chunks));
    }
}

// --- the request engine's decisions ---

/// Law: the read budget never outlasts the request budget. With a
/// positive overall request timeout, the effective read timeout is the
/// smaller of the two; a request timeout of zero (no overall cap)
/// leaves the read timeout alone.
pub fn effective_read_timeout(read_timeout: u64, request_timeout: u64) -> (r: u64)
    ensures
        request_timeout > 0 ==> r == (if read_timeout < request_timeout {
            read_timeout
        } else {
            request_timeout
        }),
        request_timeout == 0 ==> r == read_timeout,
        request_timeout > 0 ==> r <= request_timeout,
        r <= read_timeout,
{
    if request_timeout > 0 && read_timeout > request_timeout {
        request_timeout
    } else {
        read_timeout
    }
}

/// Decide whether the connection is wrapped in TLS: `https` is, `http`
/// is not, and any other scheme is refused.
pub fn scheme_is_https(scheme: &str) -> (r: CabotResult<bool>)
    ensures
        match r {
            Ok(b) => (b == true ==> scheme@ == "https"@) && (b == false ==> scheme@ == "http"@),
            Err(e) => e is SchemeError && scheme@ != "http"@ && scheme@ != "https"@,
        },
{
    if crate::strconv::str_eq(scheme, "http") {
        Ok(false)
    } else if crate::strconv::str_eq(scheme, "https") {
        Ok(true)
    } else {
        let mut detail = "Unrecognized scheme ".to_owned();
        detail.append(scheme);
        Err(CabotError::SchemeError(detail))
    }
}

/// Account for one redirect: when the counter is exhausted the
/// redirection limit error is returned, else the counter goes down by
/// one and the engine may retry.
pub fn on_redirect(followed: &mut u8, max_redir: u8) -> (r: Option<CabotError>)
    ensures
        *old(followed) == 0 ==> (r matches Some(e) && e matches CabotError::MaxRedirectionAttempt(
            m,
        ) && m == max_redir) && *final(followed) == 0,
        *old(followed) > 0 ==> r is None && *final(followed) == *old(followed) - 1,
{
    if *followed == 0 {
        Some(CabotError::MaxRedirectionAttempt(max_redir))
    } else {
        *followed = *followed - 1;
        None
    }
}

/// Law: the engine makes at most `max_redir + 1` request attempts, and
/// a run that redirects at every attempt makes exactly that many.
///
/// `counters` lists, in order, the value of the remaining-redirects
/// counter at each attempt. The first attempt starts at `max_redir`,
/// and each further attempt exists only because [`on_redirect`]
/// permitted a retry: the counter was positive and went down by one.
/// Any such run has at most `max_redir + 1` entries, the counter at
/// attempt `i` is `max_redir - i`, and on the `max_redir + 1`-th
/// attempt it is 0, so [`on_redirect`] refuses the next redirect with
/// `MaxRedirectionAttempt(max_redir)`.
pub proof fn lemma_redirect_attempt_bound(counters: Seq<int>, max_redir: int)
    requires
        counters.len() >= 1,
        max_redir >= 0,
        counters[0] == max_redir,
        forall|i: int|
            0 <= i < counters.len() - 1 ==> #[trigger] counters[i] > 0 && counters[i + 1]
                == counters[i] - 1,
    ensures
        counters.len() <= max_redir + 1,
        forall|i: int| 0 <= i < counters.len() ==> #[trigger] counters[i] == max_redir - i,
        counters.len() == max_redir + 1 ==> counters.last() == 0,
    decreases counters.len(),
{
    if counters.len() >= 2 {
        let rest = counters.drop_first();
        assert forall|i: int|
            0 <= i < rest.len() - 1 implies #[trigger] rest[i] > 0 && rest[i + 1] == rest[i]
            - 1 by {
            assert(rest[i] == counters[i + 1]);
            assert(rest[i + 1] == counters[i + 2]);
            assert(counters[i + 1] > 0 && counters[i + 2] == counters[i + 1] - 1);
        }
        assert(rest[0] == counters[1] == max_redir - 1);
        lemma_redirect_attempt_bound(rest, max_redir - 1);
        assert forall|i: int| 0 <= i < counters.len() implies #[trigger] counters[i] == max_redir
            - i by {
            if i > 0 {
                assert(rest[i - 1] == counters[i]);
            }
        }
    }
}

/// A header line carried over to a redirected request's user agent:
/// its name, case-insensitively, is `User-Agent`.
pub open spec fn is_ua_header(h: String) -> bool {
    bytes_has_prefix(upper_seq(encode_utf8(h@)), encode_utf8("USER-AGENT:"@))
}

/// A header line carried over to a redirected request verbatim: its
/// name, case-insensitively, is `Set-Cookie`.
pub open spec fn is_cookie_header(h: String) -> bool {
    bytes_has_prefix(upper_seq(encode_utf8(h@)), encode_utf8("SET-COOKIE:"@))
}

/// The header lines of a request that a redirect carries over
/// verbatim: the `Set-Cookie` lines, in order. A `User-Agent` line is
/// never among them: it is taken first, as the engine dispatches on
/// the name prefixes in that order.
pub open spec fn spec_cookie_headers(hs: Seq<String>) -> Seq<String>
    decreases hs.len(),
{
    if hs.len() == 0 {
        Seq::<String>::empty()
    } else if !is_ua_header(hs.last()) && is_cookie_header(hs.last()) {
        spec_cookie_headers(hs.drop_last()).push(hs.last())
    } else {
        spec_cookie_headers(hs.drop_last())
    }
}

/// The last `User-Agent` header line of a request, if any.
pub open spec fn spec_ua_header(hs: Seq<String>) -> Option<String>
    decreases hs.len(),
{
    if hs.len() == 0 {
        Option::<String>::None
    } else if is_ua_header(hs.last()) {
        Some(hs.last())
    } else {
        spec_ua_header(hs.drop_last())
    }
}

/// The user-agent value a carried `User-Agent` line holds: everything
/// after the name and colon, trimmed.
pub open spec fn spec_ua_value(h: String) -> Seq<u8> {
    trim_spec(encode_utf8(h@).skip(encode_utf8("USER-AGENT:"@).len() as int))
}

/// The URL a redirect leads to: a `Location` that starts with `/` is
/// resolved against the previous request's scheme, host and port; any
/// other is taken as it stands.
pub open spec fn spec_redirect_target(prev: &Request, redir: &HTTPRedirect) -> Seq<char> {
    let loc = spec_redirect_url(redir);
    if loc.len() > 0 && loc[0] == '/' {
        prev.scheme@ + "://"@ + prev.host@ + ":"@ + crate::ascii::dec_chars(prev.port as nat)
            + loc
    } else {
        loc
    }
}

/// Build the request that follows a redirect, to the target
/// [`spec_redirect_target`] names (a `Location` starting with `/` is
/// resolved against the previous request). For 307 and 308 the method
/// and body are preserved; for 301, 302 and 303 the method becomes GET
/// and the body is dropped. Of the previous request's headers exactly
/// the `Set-Cookie` lines are carried over, and its last `User-Agent`
/// line, when there is one, supplies the user agent. Success and the
/// URL-derived fields follow [`RequestBuilder::build`]'s contract on
/// the target.
pub fn build_redirect_request(prev: &Request, redir: &HTTPRedirect) -> (r: CabotResult<Request>)
    ensures
        ({
            let t = spec_redirect_target(prev, redir);
            match r {
                Ok(req) => {
                    &&& url_parses(t) && url_host_of(t) is Some && url_port_of(t) is Some
                    &&& url_host_of(t) matches Some(h) && req.host@ == h
                    &&& url_port_of(t) matches Some(p) && req.port == p
                    &&& req.scheme@ == url_scheme_of(t)
                    &&& req.request_uri@ == (if url_path_of(t).len() == 0 {
                        "/"@
                    } else {
                        url_path_of(t)
                    }) + (match url_query_of(t) {
                        Some(q) => "?"@ + q,
                        None => Seq::<char>::empty(),
                    })
                    &&& (match redir {
                        HTTPRedirect::HTTPPermanentRedirect(_)
                        | HTTPRedirect::HTTPTemporaryRedirect(_) => {
                            &&& req.http_method@ == prev.http_method@
                            &&& (req.body is Some <==> prev.body is Some)
                            &&& (prev.body matches Some(b) ==> req.body matches Some(b2) && b2@
                                == b@)
                        },
                        _ => req.http_method@ == "GET"@ && req.body is None,
                    })
                    &&& req.http_version@ == "HTTP/1.1"@
                    &&& req.headers@.len() == spec_cookie_headers(prev.headers@).len() + 1
                    &&& (forall|i: int|
                        0 <= i < spec_cookie_headers(prev.headers@).len() ==> (
                        #[trigger] req.headers@[i])@ == spec_cookie_headers(prev.headers@)[i]@)
                    &&& (match spec_ua_header(prev.headers@) {
                        Some(h) => valid_utf8(spec_ua_value(h)) ==> encode_utf8(
                            req.headers@.last()@,
                        ) == encode_utf8("User-Agent: "@) + spec_ua_value(h),
                        None => req.headers@.last()@ == "User-Agent: "@ + "cabot/0.7.1"@,
                    })
                    &&& req.authority@ == req.host@ + ":"@ + crate::ascii::dec_chars(
                        req.port as nat,
                    )
                },
                Err(e) => match e {
                    CabotError::UrlParseError(_) => !url_parses(t),
                    CabotError::OpaqueUrlError(_) => url_parses(t) && (url_host_of(t) is None
                        || url_port_of(t) is None),
                    _ => false,
                },
            }
        }),
{
    broadcast use vstd::utf8::decode_utf8_encode_utf8;

    let url: &String = match redir {
        HTTPRedirect::HTTPFound(u) => u,
        HTTPRedirect::HTTPMovedPermanently(u) => u,
        HTTPRedirect::HTTPPermanentRedirect(u) => u,
        HTTPRedirect::HTTPSeeOther(u) => u,
        HTTPRedirect::HTTPTemporaryRedirect(u) => u,
    };
    let target: String;
    if !url.as_str().is_empty() && url.as_str().get_char(0) == '/' {
        let mut t = prev.scheme.clone();
        t.append("://");
        t.append(prev.host.as_str());
        t.append(":");
        let digits = crate::ascii::dec_string(prev.port as u64);
        t.append(digits.as_str());
        t.append(url.as_str());
        target = t;
    } else {
        target = url.clone();
    }
    assert(target@ == spec_redirect_target(prev, redir));
    let mut builder = crate::request::RequestBuilder::new(target.as_str());
    match redir {
        HTTPRedirect::HTTPPermanentRedirect(_) | HTTPRedirect::HTTPTemporaryRedirect(_) => {
            builder = builder.set_http_method(prev.http_method.as_str());
            match &prev.body {
                Some(b) => {
                    builder = builder.set_body(b.as_slice());
                },
                None => {},
            }
        },
        _ => {},
    }
    let ua_prefix = "USER-AGENT:".as_bytes();
    let cookie_prefix = "SET-COOKIE:".as_bytes();
    let mut i: usize = 0;
    while i < prev.headers.len()
        invariant
            0 <= i <= prev.headers@.len(),
            ua_prefix@ == encode_utf8("USER-AGENT:"@),
            cookie_prefix@ == encode_utf8("SET-COOKIE:"@),
            builder.url@ == spec_redirect_target(prev, redir),
            builder.headers@.len() == spec_cookie_headers(prev.headers@.take(i as int)).len(),
            forall|j: int|
                0 <= j < builder.headers@.len() ==> (#[trigger] builder.headers@[j])@
                    == spec_cookie_headers(prev.headers@.take(i as int))[j]@,
            (match spec_ua_header(prev.headers@.take(i as int)) {
                Some(h) => valid_utf8(spec_ua_value(h)) ==> encode_utf8(builder.user_agent@)
                    == spec_ua_value(h),
                None => builder.user_agent@ == "cabot/0.7.1"@,
            }),
            builder.http_method@ == (match redir {
                HTTPRedirect::HTTPPermanentRedirect(_) | HTTPRedirect::HTTPTemporaryRedirect(_)
                    => prev.http_method@,
                _ => "GET"@,
            }),
            builder.http_version@ == "HTTP/1.1"@,
            (match redir {
                HTTPRedirect::HTTPPermanentRedirect(_) | HTTPRedirect::HTTPTemporaryRedirect(_)
                    => (builder.body is Some <==> prev.body is Some) && (prev.body matches Some(b)
                    ==> builder.body matches Some(b2) && b2@ == b@),
                _ => builder.body is None,
            }),
        decreases prev.headers@.len() - i,
    {
        let h = &prev.headers[i];
        let hb = h.as_str().as_bytes();
        let up = ascii_upper(hb);
        let ghost taken = prev.headers@.take(i as int);
        proof {
            assert(prev.headers@.take(i as int + 1).drop_last() =~= taken);
            assert(prev.headers@.take(i as int + 1).last() == prev.headers@[i as int]);
        }
        if crate::ascii::bytes_starts_with(up.as_slice(), ua_prefix) {
            let m = ua_prefix.len();
            let value = bytes_subrange(hb, m, hb.len());
            let t = trim_bytes(value.as_slice());
            let ua = string_from_utf8_lossy(t.as_slice());
            builder = builder.set_user_agent(ua.as_str());
            proof {
                assert(is_ua_header(prev.headers@[i as int]));
                assert(value@ =~= encode_utf8(prev.headers@[i as int]@).skip(m as int));
                assert(t@ == spec_ua_value(prev.headers@[i as int]));
                assert(spec_ua_header(prev.headers@.take(i as int + 1)) == Some(
                    prev.headers@[i as int],
                ));
                if valid_utf8(t@) {
                    vstd::utf8::decode_utf8_encode_utf8(t@);
                    assert(encode_utf8(builder.user_agent@) == t@);
                }
            }
        } else if crate::ascii::bytes_starts_with(up.as_slice(), cookie_prefix) {
            builder = builder.add_header(h.as_str());
            proof {
                assert(!is_ua_header(prev.headers@[i as int]));
                assert(is_cookie_header(prev.headers@[i as int]));
                assert(spec_cookie_headers(prev.headers@.take(i as int + 1))
                    =~= spec_cookie_headers(prev.headers@.take(i as int)).push(
                    prev.headers@[i as int],
                ));
            }
        } else {
            proof {
                assert(!is_ua_header(prev.headers@[i as int]));
                assert(!is_cookie_header(prev.headers@[i as int]));
            }
        }
        i = i + 1;
    }
    proof {
        assert(prev.headers@.take(prev.headers@.len() as int) =~= prev.headers@);
    }
    let req = match builder.build() {
        Ok(req) => req,
        Err(e) => {
            return Err(e);
        },
    };
    proof {
        crate::strconv::lemma_encode_utf8_concat("User-Agent: "@, builder.user_agent@);
    }
    Ok(req)
}

/// After draining one line, the buffer is a longer suffix of the
/// original buffer, and the consumed prefix grows by exactly that
/// line.
proof fn lemma_line_consumed(
    buf0: Seq<u8>,
    head0: Seq<u8>,
    cur: Seq<u8>,
    newbuf: Seq<u8>,
    line: Seq<u8>,
    consumed: int,
)
    requires
        0 <= consumed <= buf0.len(),
        cur == buf0.skip(consumed),
        cur == line + newbuf,
    ensures
        consumed + line.len() <= buf0.len(),
        newbuf =~= buf0.skip(consumed + line.len()),
        buf0.take(consumed + line.len()) =~= buf0.take(consumed) + line,
{
    assert(cur.len() == buf0.len() - consumed);
    assert(cur.len() == line.len() + newbuf.len());
    let k2 = consumed + line.len();
    assert forall|m: int| 0 <= m < newbuf.len() implies newbuf[m] == buf0[k2 + m] by {
        assert(newbuf[m] == cur[line.len() + m]);
        assert(cur[line.len() + m] == buf0[consumed + line.len() + m]);
    }
    assert(newbuf =~= buf0.skip(k2));
    assert forall|m: int| 0 <= m < k2 implies buf0.take(k2)[m] == (buf0.take(consumed) + line)[m]
        by {
        if m >= consumed {
            assert(line[m - consumed] == cur[m - consumed]);
            assert(cur[m - consumed] == buf0[m]);
        }
    }
    assert(buf0.take(k2) =~= buf0.take(consumed) + line);
}

} // verus!
