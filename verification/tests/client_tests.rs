use cabot::client::{CabotLibWrite, Client};

#[test]
fn test_build_http_response_from_string() {
    let response = [
        vec![
            "HTTP/1.1 200 Ok",
            "Content-Type: text/plain",
            "Content-Length: 12",
        ]
        .join("\r\n"),
        vec!["Hello World!"].join("\r\n"),
    ];

    let mut out = CabotLibWrite::new();
    out.write(response[0].as_bytes());
    out.write(response[1].as_bytes());
    out.flush();
    let response = out.response().unwrap();
    assert_eq!(response.http_version(), "HTTP/1.1");
    assert_eq!(response.status_code(), 200);
    assert_eq!(response.status_line(), "200 Ok");
    let headers: &[&str] = &["Content-Type: text/plain", "Content-Length: 12"];
    assert_eq!(response.headers(), headers);
    assert_eq!(response.body_as_string().unwrap(), "Hello World!".to_owned());
}

#[test]
fn test_build_http_header_obsolete_line_folding() {
    let response = [
        vec![
            "HTTP/1.1 200 Ok",
            "ows: https://tools.ietf.org/html/rfc7230",
            "  #section-3.2.4",
            "Content-Length: 12",
        ]
        .join("\r\n"),
        vec!["Hello World!"].join("\r\n"),
    ];

    let mut out = CabotLibWrite::new();
    out.write(response[0].as_bytes());
    out.write(response[1].as_bytes());
    out.flush();
    let response = out.response().unwrap();
    assert_eq!(response.http_version(), "HTTP/1.1");
    assert_eq!(response.status_code(), 200);
    assert_eq!(response.status_line(), "200 Ok");
    let headers: &[&str] = &[
        "ows: https://tools.ietf.org/html/rfc7230 #section-3.2.4",
        "Content-Length: 12",
    ];
    assert_eq!(response.headers(), headers);
    assert_eq!(response.body_as_string().unwrap(), "Hello World!".to_owned());
}

#[test]
fn test_build_http_header_obsolete_line_folding_tab() {
    let response = [
        vec![
            "HTTP/1.1 200 Ok",
            "ows: https://tools.ietf.org/html/rfc7230",
            "\t#section-3.2.4",
            "Content-Length: 12",
        ]
        .join("\r\n"),
        vec!["Hello World!"].join("\r\n"),
    ];

    let mut out = CabotLibWrite::new();
    out.write(response[0].as_bytes());
    out.write(response[1].as_bytes());
    out.flush();
    let response = out.response().unwrap();
    assert_eq!(response.http_version(), "HTTP/1.1");
    assert_eq!(response.status_code(), 200);
    assert_eq!(response.status_line(), "200 Ok");
    let headers: &[&str] = &[
        "ows: https://tools.ietf.org/html/rfc7230 #section-3.2.4",
        "Content-Length: 12",
    ];
    assert_eq!(response.headers(), headers);
    assert_eq!(response.body_as_string().unwrap(), "Hello World!".to_owned());
}

#[test]
fn test_build_http_no_response_body() {
    let response = vec![
        "HTTP/1.1 302 Moved",
        "Location: https://tools.ietf.org/html/rfc7230#section-3.3",
    ]
    .join("\r\n");

    let mut out = CabotLibWrite::new();
    out.write(response.as_bytes());
    out.flush();
    let response = out.response().unwrap();
    assert_eq!(response.http_version(), "HTTP/1.1");
    assert_eq!(response.status_code(), 302);
    assert_eq!(response.status_line(), "302 Moved");
    let headers: &[&str] = &["Location: https://tools.ietf.org/html/rfc7230#section-3.3"];
    assert_eq!(response.headers(), headers);
    assert!(response.body().is_none());
    assert_eq!(response.body_as_string().unwrap(), "");
}

#[test]
fn test_split_headers_without_line_feed_changes_nothing() {
    // a header write without any line feed leaves the builder untouched
    let mut out = CabotLibWrite::new();
    out.write(b"HTTP/1.1 200 Ok");
    out.flush();
    let err = out.response();
    assert!(err.is_err());
}

#[test]
fn test_client_defaults() {
    let client = Client::new();
    assert_eq!(client.dns_timeout, 5000);
    assert_eq!(client.connect_timeout, 15000);
    assert_eq!(client.read_timeout, 10000);
    assert_eq!(client.request_timeout, 0);
    assert_eq!(client.max_redir, 16);
    assert!(client.ipv4);
    assert!(client.ipv6);
    assert!(!client.verbose);
}

#[test]
fn test_client_setters() {
    let mut client = Client::new();
    client.set_dns_timeout(2);
    client.set_connect_timeout(3);
    client.set_read_timeout(4);
    client.set_request_timeout(5);
    assert_eq!(client.dns_timeout, 2000);
    assert_eq!(client.connect_timeout, 3000);
    assert_eq!(client.read_timeout, 4000);
    assert_eq!(client.request_timeout, 5000);
    client.set_dns_timeout_ms(21);
    client.set_connect_timeout_ms(31);
    client.set_read_timeout_ms(41);
    client.set_request_timeout_ms(51);
    assert_eq!(client.dns_timeout, 21);
    assert_eq!(client.connect_timeout, 31);
    assert_eq!(client.read_timeout, 41);
    assert_eq!(client.request_timeout, 51);
    client.set_max_redir(3);
    assert_eq!(client.max_redir, 3);
    client.set_ip_version(true, false);
    assert!(client.ipv4);
    assert!(!client.ipv6);
}

#[test]
fn test_client_authorities() {
    let mut client = Client::new();
    assert!(client.find_authority("example.org:80").is_none());
    client.add_authority("example.org:80", "93.184.216.34:80");
    client.add_authority("example.org:80", "10.0.0.1:80");
    let found = client.find_authority("example.org:80").unwrap();
    assert_eq!(found, "93.184.216.34:80");
    assert!(client.find_authority("example.com:80").is_none());
}
