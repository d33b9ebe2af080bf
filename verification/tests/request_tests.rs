use cabot::constants::user_agent;
use cabot::request::{Request, RequestBuilder};

#[test]
fn test_get_request_to_string() {
    let request = Request::new(
        "127.0.0.1".to_owned(),
        80,
        "127.0.0.1:80".to_owned(),
        false,
        "http".to_owned(),
        "GET".to_owned(),
        "/path?query".to_owned(),
        "HTTP/1.1".to_owned(),
        Vec::new(),
        None,
    );
    let attempt = "GET /path?query HTTP/1.1\r\nConnection: close\r\n\r\n";
    assert_eq!(request.to_string(), attempt);
}

#[test]
fn test_get_request_with_host_to_string() {
    let request = Request::new(
        "localhost".to_owned(),
        80,
        "localhost:80".to_owned(),
        true,
        "http".to_owned(),
        "GET".to_owned(),
        "/path?query".to_owned(),
        "HTTP/1.1".to_owned(),
        Vec::new(),
        None,
    );
    let attempt = "GET /path?query HTTP/1.1\r\nHost: localhost\r\nConnection: close\r\n\r\n";
    assert_eq!(request.to_string(), attempt);
}

#[test]
fn test_get_request_with_headers_to_string() {
    let request = Request::new(
        "localhost".to_owned(),
        80,
        "localhost:80".to_owned(),
        true,
        "http".to_owned(),
        "GET".to_owned(),
        "/path?query".to_owned(),
        "HTTP/1.1".to_owned(),
        vec![
            "Accept-Language: fr".to_owned(),
            "Accept-Encoding: gzip".to_owned(),
        ],
        None,
    );
    let attempt = "GET /path?query HTTP/1.1\r\nAccept-Language: fr\r\nAccept-Encoding: \
                   gzip\r\nHost: localhost\r\nConnection: close\r\n\r\n";
    assert_eq!(request.to_string(), attempt);
}

#[test]
fn test_post_request_with_headers_to_string() {
    let body: Vec<u8> = vec![123, 125];
    let request = Request::new(
        "localhost".to_owned(),
        80,
        "localhost:80".to_owned(),
        true,
        "http".to_owned(),
        "POST".to_owned(),
        "/".to_owned(),
        "HTTP/1.1".to_owned(),
        vec![
            "Accept-Language: fr".to_owned(),
            "Content-Type: application/json".to_owned(),
        ],
        Some(body),
    );
    let attempt = "POST / HTTP/1.1\r\nAccept-Language: fr\r\nContent-Type: \
                   application/json\r\nHost: localhost\r\nConnection: \
                   close\r\nContent-Length: 2\r\n\r\n{}";
    assert_eq!(request.to_string(), attempt);
}

#[test]
fn test_request_builder_simple() {
    let request = RequestBuilder::new("http://localhost/").build().unwrap();
    assert_eq!(request.host(), "localhost".to_string());
    assert_eq!(request.scheme(), "http".to_string());
    assert_eq!(request.body, None);
    assert_eq!(request.http_method(), "GET".to_string());
    assert_eq!(request.http_version(), "HTTP/1.1".to_string());
    let headers: Vec<String> = vec![format!("User-Agent: {}", user_agent())];
    assert_eq!(request.headers, headers);
}

#[test]
fn test_request_builder_complete() {
    let builder = RequestBuilder::new("http://localhost/")
        .set_http_method("POST")
        .set_http_version("HTTP/1.0")
        .set_user_agent("anonymized")
        .add_header("Content-Type: application/json")
        .add_headers(&["Accept-Encoding: deflate", "Accept-Language: fr"])
        .set_body_as_str("{}");
    let body: &[u8] = &[123, 125];
    let request = builder.build().unwrap();
    assert_eq!(request.host(), "localhost".to_string());
    assert_eq!(request.body(), Some(body));
    assert_eq!(request.body_as_string().unwrap().unwrap(), "{}".to_string());
    assert_eq!(request.scheme(), "http".to_string());
    assert_eq!(request.http_method(), "POST".to_string());
    assert_eq!(request.request_uri(), "/");
    assert_eq!(request.http_version(), "HTTP/1.0".to_string());
    assert_eq!(
        request.headers,
        vec![
            "Content-Type: application/json".to_string(),
            "Accept-Encoding: deflate".to_string(),
            "Accept-Language: fr".to_string(),
            "User-Agent: anonymized".to_string(),
        ]
    );

    let builder = builder.set_url("http://[::1]/path");
    let request = builder.build().unwrap();
    assert_eq!(request.host(), "[::1]".to_string());
    assert_eq!(request.request_uri(), "/path");
    assert_eq!(request.body(), Some(body));
    assert_eq!(request.body_as_string().unwrap().unwrap(), "{}".to_string());
    assert_eq!(request.scheme(), "http".to_string());
    assert_eq!(request.http_method(), "POST".to_string());
    assert_eq!(request.http_version(), "HTTP/1.0".to_string());
    assert_eq!(
        request.headers,
        vec![
            "Content-Type: application/json".to_string(),
            "Accept-Encoding: deflate".to_string(),
            "Accept-Language: fr".to_string(),
            "User-Agent: anonymized".to_string(),
        ]
    );

    let builder = builder.set_url("not_an_url");
    let err = builder.build();
    assert!(err.is_err());
}

#[test]
fn test_request_builder_https_authority() {
    let request = RequestBuilder::new("https://example.org/a?b=c")
        .build()
        .unwrap();
    assert_eq!(request.scheme(), "https");
    assert_eq!(request.port(), 443);
    assert_eq!(request.authority(), "example.org:443");
    assert_eq!(request.request_uri(), "/a?b=c");
}

#[test]
fn test_request_body_as_string_invalid_utf8() {
    let request = RequestBuilder::new("http://localhost/")
        .set_body(&[0xff, 0xfe])
        .build()
        .unwrap();
    let err = request.body_as_string();
    assert!(matches!(
        err,
        Err(cabot::errors::CabotError::EncodingError(_))
    ));
}
