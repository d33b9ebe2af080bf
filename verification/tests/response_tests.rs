use cabot::errors::CabotError;
use cabot::response::{Response, ResponseBuilder};

#[test]
fn test_response_ok() {
    let response = Response::new(
        "HTTP/1.1".to_owned(),
        200,
        "200 Ok".to_owned(),
        vec!["Content-Type: application/json".to_owned()],
        Some(vec![123, 125]),
    );

    assert_eq!(response.http_version(), "HTTP/1.1");
    assert_eq!(response.status_code(), 200);
    assert_eq!(response.status_line(), "200 Ok");
    assert_eq!(response.headers(), &["Content-Type: application/json"]);
    let body: &[u8] = &[123, 125];
    assert_eq!(response.body(), Some(body));
    assert_eq!(response.body_as_string().unwrap(), "{}");
}

#[test]
fn test_response_ok_no_body() {
    let response = Response::new(
        "HTTP/1.1".to_owned(),
        204,
        "204 No Content".to_owned(),
        vec![],
        None,
    );

    assert_eq!(response.http_version(), "HTTP/1.1");
    assert_eq!(response.status_code(), 204);
    assert_eq!(response.status_line(), "204 No Content");
    let headers: &[&str] = &[];
    assert_eq!(response.headers(), headers);
    assert_eq!(response.body(), None);
    assert_eq!(response.body_as_string().unwrap(), "".to_string());
}

#[test]
fn test_build_response_ok() {
    let response = ResponseBuilder::new()
        .set_status_line("HTTP/1.1 200 Ok")
        .add_header("Content-Type: application/json")
        .set_body(&[123, 125])
        .build()
        .unwrap();

    assert_eq!(response.http_version(), "HTTP/1.1");
    assert_eq!(response.status_code(), 200);
    assert_eq!(response.status_line(), "200 Ok");
    assert_eq!(response.headers(), &["Content-Type: application/json"]);
    let body: &[u8] = &[123, 125];
    assert_eq!(response.body(), Some(body));
    assert_eq!(response.body_as_string().unwrap(), "{}");
}

#[test]
fn test_build_response_no_status_line() {
    let err = ResponseBuilder::new().build();
    assert!(matches!(err, Err(CabotError::HttpResponseParseError(_))));
}

#[test]
fn test_build_response_malformed_status_line() {
    let err = ResponseBuilder::new().set_status_line("HTTP/1.1 200").build();
    assert!(matches!(err, Err(CabotError::HttpResponseParseError(_))));
}

#[test]
fn test_build_response_unknown_protocol() {
    let err = ResponseBuilder::new()
        .set_status_line("ICY 200 Ok")
        .build();
    assert!(matches!(err, Err(CabotError::HttpResponseParseError(_))));
}

#[test]
fn test_build_response_bad_status_code() {
    let err = ResponseBuilder::new()
        .set_status_line("HTTP/1.1 abc Ok")
        .build();
    assert!(matches!(err, Err(CabotError::HttpResponseParseError(_))));
}

#[test]
fn test_build_response_empty_reason() {
    let response = ResponseBuilder::new()
        .set_status_line("HTTP/1.1 204 ")
        .build()
        .unwrap();
    assert_eq!(response.status_code(), 204);
    assert_eq!(response.status_line(), "204 ");
}

#[test]
fn test_response_body_as_string_invalid_utf8() {
    let response = Response::new(
        "HTTP/1.1".to_owned(),
        200,
        "200 Ok".to_owned(),
        vec![],
        Some(vec![0xff, 0xfe]),
    );
    assert!(matches!(
        response.body_as_string(),
        Err(CabotError::EncodingError(_))
    ));
}
