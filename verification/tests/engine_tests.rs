use cabot::errors::CabotError;
use cabot::http::{
    build_redirect_request, effective_read_timeout, on_redirect, scheme_is_https, HeaderStep,
    HttpDecoder, HTTPRedirect,
};
use cabot::request::RequestBuilder;

fn redirect_from(raw: &[u8]) -> HTTPRedirect {
    let mut decoder = HttpDecoder::new();
    decoder.feed(raw);
    match decoder.read_headers_step().unwrap() {
        HeaderStep::Redirect(r) => r,
        _ => panic!("expected a redirect"),
    }
}

#[test]
fn test_redirect_preserves_post_and_body() {
    let prev = RequestBuilder::new("http://localhost/")
        .set_http_method("POST")
        .set_body_as_str("{}")
        .build()
        .unwrap();
    let redir =
        redirect_from(b"HTTP/1.1 308 Permanent Redirect\r\nLocation: /v2\r\n\r\n");
    assert!(matches!(redir, HTTPRedirect::HTTPPermanentRedirect(_)));
    let next = build_redirect_request(&prev, &redir).unwrap();
    assert_eq!(next.host(), "localhost");
    let text = next.to_string();
    assert!(text.starts_with("POST /v2 HTTP/1.1\r\n"));
    assert!(text.ends_with("Content-Length: 2\r\n\r\n{}"));
    assert_eq!(next.body_as_string().unwrap().unwrap(), "{}");
}

#[test]
fn test_redirect_downgrades_to_get() {
    let prev = RequestBuilder::new("http://localhost/")
        .set_http_method("POST")
        .set_body_as_str("{}")
        .build()
        .unwrap();
    let redir = redirect_from(b"HTTP/1.1 302 Found\r\nLocation: /moved\r\n\r\n");
    assert!(matches!(redir, HTTPRedirect::HTTPFound(_)));
    let next = build_redirect_request(&prev, &redir).unwrap();
    assert_eq!(next.host(), "localhost");
    let text = next.to_string();
    assert!(text.starts_with("GET /moved HTTP/1.1\r\n"));
    assert!(!text.contains("Content-Length"));
    assert!(text.ends_with("\r\n\r\n"));
    assert!(next.body().is_none());
}

#[test]
fn test_redirect_absolute_location() {
    let prev = RequestBuilder::new("http://localhost/").build().unwrap();
    let redir = redirect_from(
        b"HTTP/1.1 301 Moved Permanently\r\nLocation: https://example.org/new\r\n\r\n",
    );
    let next = build_redirect_request(&prev, &redir).unwrap();
    assert_eq!(next.host(), "example.org");
    assert_eq!(next.scheme(), "https");
    assert_eq!(next.request_uri(), "/new");
}

#[test]
fn test_redirect_carries_user_agent_and_cookies() {
    let prev = RequestBuilder::new("http://localhost/")
        .set_user_agent("tester/1.0")
        .add_header("Set-Cookie: a=b")
        .add_header("Authorization: secret")
        .build()
        .unwrap();
    let redir = redirect_from(
        b"HTTP/1.1 301 Moved Permanently\r\nLocation: http://localhost/next\r\n\r\n",
    );
    assert!(matches!(redir, HTTPRedirect::HTTPMovedPermanently(_)));
    let next = build_redirect_request(&prev, &redir).unwrap();
    assert_eq!(
        next.headers,
        vec![
            "Set-Cookie: a=b".to_string(),
            "User-Agent: tester/1.0".to_string(),
        ]
    );
}

#[test]
fn test_redirect_classification() {
    assert!(matches!(
        redirect_from(b"HTTP/1.1 301 M\r\nLocation: http://x/\r\n\r\n"),
        HTTPRedirect::HTTPMovedPermanently(_)
    ));
    assert!(matches!(
        redirect_from(b"HTTP/1.1 303 S\r\nLocation: http://x/\r\n\r\n"),
        HTTPRedirect::HTTPSeeOther(_)
    ));
    assert!(matches!(
        redirect_from(b"HTTP/1.1 307 T\r\nLocation: http://x/\r\n\r\n"),
        HTTPRedirect::HTTPTemporaryRedirect(_)
    ));
    // an unimplemented 3xx code delivers the response normally
    let mut decoder = HttpDecoder::new();
    decoder.feed(b"HTTP/1.1 304 Not Modified\r\nLocation: http://x/\r\n\r\n");
    assert!(matches!(
        decoder.read_headers_step().unwrap(),
        HeaderStep::Done(_)
    ));
    // Location on a non-3xx status is an ordinary header
    let mut decoder = HttpDecoder::new();
    decoder.feed(b"HTTP/1.1 201 Created\r\nLocation: http://x/\r\n\r\n");
    assert!(matches!(
        decoder.read_headers_step().unwrap(),
        HeaderStep::Done(_)
    ));
}

#[test]
fn test_max_redirects_attempt_count() {
    // a redirect loop with max_redir = 3 makes exactly 4 attempts
    let max_redir = 3u8;
    let mut followed = max_redir;
    let mut attempts = 1;
    let err = loop {
        match on_redirect(&mut followed, max_redir) {
            None => attempts += 1,
            Some(e) => break e,
        }
    };
    assert_eq!(attempts, 4);
    assert!(matches!(err, CabotError::MaxRedirectionAttempt(3)));
}

#[test]
fn test_timeout_precedence() {
    // when t_read > t_request > 0, the effective read timeout is t_request
    assert_eq!(effective_read_timeout(10_000, 2_000), 2_000);
    assert_eq!(effective_read_timeout(1_000, 2_000), 1_000);
    assert_eq!(effective_read_timeout(10_000, 0), 10_000);
}

#[test]
fn test_scheme_dispatch() {
    assert_eq!(scheme_is_https("http").unwrap(), false);
    assert_eq!(scheme_is_https("https").unwrap(), true);
    assert!(matches!(
        scheme_is_https("ftp"),
        Err(CabotError::SchemeError(_))
    ));
}

#[test]
fn test_select_addr_family_filter() {
    let resolver = cabot::dns::Resolver::new(false);
    let families = vec![false, true, false];  // v6, v4, v6
    assert_eq!(resolver.select_addr(&families, true, true), Some(0));
    assert_eq!(resolver.select_addr(&families, true, false), Some(1));
    assert_eq!(resolver.select_addr(&families, false, true), Some(0));
    assert_eq!(resolver.select_addr(&families, false, false), None);
    let v4only = vec![true, true];
    assert_eq!(resolver.select_addr(&v4only, false, true), None);
}

#[test]
fn test_error_descriptions() {
    assert_eq!(
        CabotError::DNSLookupError("Timeout".to_owned()).description(),
        "DNS Lookup Error: Timeout"
    );
    assert_eq!(
        CabotError::HostnameParseError("bad".to_owned()).description(),
        "Invalid Hostname: bad"
    );
    assert_eq!(
        CabotError::HttpResponseParseError("x".to_owned()).description(),
        "HTTP Response Parse Error: x"
    );
    assert_eq!(
        CabotError::OpaqueUrlError("u".to_owned()).description(),
        "Opaque URL Error: u"
    );
    assert_eq!(
        CabotError::SchemeError("ftp".to_owned()).description(),
        "Unmanaged Scheme: ftp"
    );
    assert_eq!(
        CabotError::MaxRedirectionAttempt(16).description(),
        "Maximum redirection attempt: 16"
    );
    assert_eq!(
        CabotError::CertificateError("c".to_owned()).description(),
        "Certificate Error: c"
    );
    assert_eq!(
        CabotError::EncodingError("e".to_owned()).description(),
        "Utf8 Encoding Error: e"
    );
    assert_eq!(
        CabotError::IOError("Read Timeout".to_owned()).description(),
        "IO Error: Read Timeout"
    );
    assert_eq!(
        CabotError::UrlParseError("p".to_owned()).description(),
        "URL Parse Error: p"
    );
}

#[test]
fn test_numeral_helpers() {
    assert_eq!(cabot::ascii::format_dec(0), b"0".to_vec());
    assert_eq!(cabot::ascii::format_dec(1048576), b"1048576".to_vec());
    assert_eq!(cabot::ascii::parse_dec(b"42"), Some(42));
    assert_eq!(cabot::ascii::parse_dec(b""), None);
    assert_eq!(cabot::ascii::parse_dec(b"4x"), None);
    assert_eq!(cabot::ascii::parse_dec(b"99999999999999999999999999"), None);
    assert_eq!(cabot::ascii::parse_hex(b"ff"), Some(255));
    assert_eq!(cabot::ascii::parse_hex(b"FF"), Some(255));
    assert_eq!(cabot::ascii::parse_hex(b"0"), Some(0));
    assert_eq!(cabot::ascii::parse_hex(b"g"), None);
    assert_eq!(cabot::ascii::dec_string(207), "207");
    assert_eq!(cabot::ascii::trim_bytes(b"  a b\t\r\n"), b"a b".to_vec());
    assert_eq!(cabot::ascii::trim_end_bytes(b"  a\r"), b"  a".to_vec());
}

#[test]
fn test_parse_resolve_entry() {
    let r = cabot::dns::parse_resolve_entry("example.org:80:93.184.216.34").unwrap();
    assert_eq!(r.0, "example.org:80");
    assert_eq!(r.1, "93.184.216.34:80");
    assert!(cabot::dns::parse_resolve_entry("example.org:80").is_none());
    assert!(cabot::dns::parse_resolve_entry("noport").is_none());
    assert!(cabot::dns::parse_resolve_entry("example.org:eighty:1.2.3.4").is_none());
}

#[test]
fn test_user_agent_value() {
    assert_eq!(cabot::constants::user_agent(), "cabot/0.7.1");
}
