use cabot::client::CabotLibWrite;
use cabot::errors::CabotError;
use cabot::http::{HeaderStep, HttpDecoder, TransferEncoding};

/// Drive the decoder over a complete in-memory response, delivering
/// bytes `step` at a time, and hand everything to the library sink.
fn decode_response(bytes: &[u8], step: usize) -> cabot::response::Response {
    let mut decoder = HttpDecoder::new();
    let mut out = CabotLibWrite::new();
    let mut pos = 0;
    let head = loop {
        match decoder.read_headers_step().unwrap() {
            HeaderStep::Done(head) => break head,
            HeaderStep::NeedMore => {
                assert!(pos < bytes.len(), "response head is incomplete");
                let end = (pos + step).min(bytes.len());
                decoder.feed(&bytes[pos..end]);
                pos = end;
            }
            HeaderStep::Redirect(_) => panic!("unexpected redirect"),
        }
    };
    out.write(&head);
    loop {
        let eof = pos >= bytes.len();
        let (body, done) = decoder.body_step(eof).unwrap();
        if !body.is_empty() {
            out.write(&body);
        }
        if done {
            break;
        }
        if eof {
            break;
        }
        let end = (pos + step).min(bytes.len());
        decoder.feed(&bytes[pos..end]);
        pos = end;
    }
    out.flush();
    out.response().unwrap()
}

#[test]
fn test_decode_plain_get() {
    let raw = b"HTTP/1.1 200 OK\r\nContent-Length: 12\r\n\r\nHello World!";
    let response = decode_response(raw, raw.len());
    assert_eq!(response.status_code(), 200);
    assert_eq!(response.status_line(), "200 OK");
    assert_eq!(response.http_version(), "HTTP/1.1");
    assert_eq!(response.headers(), &["Content-Length: 12"]);
    assert_eq!(response.body_as_string().unwrap(), "Hello World!");
}

#[test]
fn test_decode_plain_get_small_reads() {
    let raw = b"HTTP/1.1 200 OK\r\nContent-Length: 12\r\n\r\nHello World!";
    let response = decode_response(raw, 4);
    assert_eq!(response.status_code(), 200);
    assert_eq!(response.body_as_string().unwrap(), "Hello World!");
}

#[test]
fn test_decode_chunked_body() {
    let raw = b"HTTP/1.1 200 OK\r\nTransfer-Encoding: chunked\r\n\r\n5\r\nHello\r\n6\r\n World\r\n0\r\n\r\n";
    let response = decode_response(raw, raw.len());
    assert_eq!(response.status_code(), 200);
    assert_eq!(response.headers(), &["Transfer-Encoding: chunked"]);
    assert_eq!(response.body_as_string().unwrap(), "Hello World");
}

#[test]
fn test_decode_chunked_body_small_reads() {
    let raw = b"HTTP/1.1 200 OK\r\nTransfer-Encoding: chunked\r\n\r\n5\r\nHello\r\n6\r\n World\r\n0\r\n\r\n";
    let response = decode_response(raw, 3);
    assert_eq!(response.body_as_string().unwrap(), "Hello World");
}

#[test]
fn test_decode_chunked_other_split() {
    // the same body split into different chunk sizes decodes the same
    let raw = b"HTTP/1.1 200 OK\r\nTransfer-Encoding: chunked\r\n\r\n1\r\nH\r\na\r\nello World\r\n0\r\n\r\n";
    let response = decode_response(raw, raw.len());
    assert_eq!(response.body_as_string().unwrap(), "Hello World");
}

#[test]
fn test_decode_chunked_hex_size_upper_case() {
    let raw = b"HTTP/1.1 200 OK\r\nTransfer-Encoding: chunked\r\n\r\nB\r\nHello World\r\n0\r\n\r\n";
    let response = decode_response(raw, raw.len());
    assert_eq!(response.body_as_string().unwrap(), "Hello World");
}

#[test]
fn test_decode_chunked_with_extension() {
    // a chunk extension after the size is stripped
    let raw = b"HTTP/1.1 200 OK\r\nTransfer-Encoding: chunked\r\n\r\n5;name=val\r\nHello\r\n0\r\n\r\n";
    let response = decode_response(raw, raw.len());
    assert_eq!(response.body_as_string().unwrap(), "Hello");
}

#[test]
fn test_decode_obsolete_line_folding() {
    let raw = b"HTTP/1.1 200 OK\r\nows: https://example.org/spec\r\n  #section-3.2.4\r\nContent-Length: 0\r\n\r\n";
    let response = decode_response(raw, raw.len());
    assert_eq!(
        response.headers(),
        &["ows: https://example.org/spec #section-3.2.4", "Content-Length: 0"]
    );
    // a framed-as-zero body is absent, not empty
    assert!(response.body().is_none());
}

#[test]
fn test_decode_read_until_close() {
    // no framing header: everything until the stream ends is the body
    let raw = b"HTTP/1.1 200 OK\r\n\r\nsome payload";
    let response = decode_response(raw, raw.len());
    assert_eq!(response.body_as_string().unwrap(), "some payload");
}

#[test]
fn test_decode_content_length_discards_extra() {
    let raw = b"HTTP/1.1 200 OK\r\nContent-Length: 5\r\n\r\nHelloEXTRA";
    let response = decode_response(raw, raw.len());
    assert_eq!(response.body_as_string().unwrap(), "Hello");
}

#[test]
fn test_decode_malformed_chunk_size() {
    let raw = b"HTTP/1.1 200 OK\r\nTransfer-Encoding: chunked\r\n\r\nzz\r\nHello\r\n0\r\n\r\n";
    let mut decoder = HttpDecoder::new();
    decoder.feed(raw);
    match decoder.read_headers_step().unwrap() {
        HeaderStep::Done(_) => {}
        _ => panic!("expected the head to complete"),
    }
    let err = decoder.body_step(false);
    assert!(matches!(err, Err(CabotError::HttpResponseParseError(_))));
}

#[test]
fn test_decode_malformed_content_length() {
    let raw = b"HTTP/1.1 200 OK\r\nContent-Length: twelve\r\n\r\n";
    let mut decoder = HttpDecoder::new();
    decoder.feed(raw);
    let err = decoder.read_headers_step();
    assert!(matches!(err, Err(CabotError::HttpResponseParseError(_))));
}

#[test]
fn test_decode_framing_dispatch() {
    let raw = b"HTTP/1.1 200 OK\r\ncontent-length: 7\r\n\r\n";
    let mut decoder = HttpDecoder::new();
    decoder.feed(raw);
    decoder.read_headers_step().unwrap();
    assert!(matches!(
        decoder.transfer_encoding,
        TransferEncoding::ContentLength(7)
    ));

    let raw = b"HTTP/1.1 200 OK\r\nTransfer-Encoding: gzip\r\n\r\n";
    let mut decoder = HttpDecoder::new();
    decoder.feed(raw);
    decoder.read_headers_step().unwrap();
    assert!(matches!(decoder.transfer_encoding, TransferEncoding::Unknown));
}
