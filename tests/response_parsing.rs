use rumbo_http_client::{HttpError, Response};

#[test]
fn test_response_parsing() {
    let response_str = "HTTP/1.1 200 OK\r\nContent-Type: application/json\r\nContent-Length: 13\r\n\r\n{\"hello\":\"world\"}";

    let response = Response::parse(response_str).unwrap();
    assert_eq!(response.status, 200);
    assert_eq!(
        response.header("content-type"),
        Some(&"application/json".to_string())
    );
    assert_eq!(response.body, Some("{\"hello\":\"world\"}".to_string()));
    assert!(response.is_success());
}

#[test]
fn parse_recovers_status_headers_and_body() {
    let text = "HTTP/1.1 404 Not Found\r\n  X-Custom-Name  :   some value  \r\nServer: demo\r\n\r\nmissing";
    let response = Response::parse(text).unwrap();
    assert_eq!(response.status, 404);
    assert_eq!(response.header("x-custom-name"), Some(&"some value".to_string()));
    assert_eq!(response.header("X-CUSTOM-NAME"), Some(&"some value".to_string()));
    assert_eq!(response.header("server"), Some(&"demo".to_string()));
    assert_eq!(response.header("absent"), None);
    assert_eq!(response.headers.len(), 2);
    assert_eq!(response.body, Some("missing".to_string()));
    assert!(!response.is_success());
}

#[test]
fn parse_without_separator_has_no_body() {
    let response = Response::parse("HTTP/1.1 204 No Content\r\n").unwrap();
    assert_eq!(response.status, 204);
    assert_eq!(response.body, None);
    assert!(response.headers.is_empty());
}

#[test]
fn parse_empty_body_after_separator_is_absent() {
    let response = Response::parse("HTTP/1.1 200 OK\r\nA: b\r\n\r\n").unwrap();
    assert_eq!(response.body, None);
    assert_eq!(response.header("a"), Some(&"b".to_string()));
}

#[test]
fn parse_body_is_everything_after_first_separator() {
    let response = Response::parse("HTTP/1.1 200 OK\r\n\r\nfirst\r\n\r\nsecond").unwrap();
    assert_eq!(response.body, Some("first\r\n\r\nsecond".to_string()));
}

#[test]
fn parse_duplicate_header_last_wins() {
    let response = Response::parse("HTTP/1.1 200 OK\r\nSet: one\r\nset: two\r\n\r\n").unwrap();
    assert_eq!(response.header("SET"), Some(&"two".to_string()));
    assert_eq!(response.headers.len(), 1);
}

#[test]
fn parse_skips_lines_without_colon() {
    let response = Response::parse("HTTP/1.1 200 OK\r\nno colon here\r\nK: v:w\r\n\r\n").unwrap();
    assert_eq!(response.headers.len(), 1);
    assert_eq!(response.header("k"), Some(&"v:w".to_string()));
}

#[test]
fn parse_non_numeric_status_fails() {
    let r = Response::parse("HTTP/1.1 abc OK\r\n\r\n");
    assert!(matches!(r, Err(HttpError::ResponseParseError(_))));
}

#[test]
fn parse_empty_input_fails() {
    let r = Response::parse("");
    assert!(matches!(r, Err(HttpError::ResponseParseError(_))));
}

#[test]
fn parse_status_line_with_one_word_fails() {
    let r = Response::parse("HTTP/1.1\r\n\r\nbody");
    assert!(matches!(r, Err(HttpError::ResponseParseError(_))));
}

#[test]
fn parse_status_code_range() {
    assert_eq!(Response::parse("HTTP/1.1 65535 Odd\r\n").unwrap().status, 65535);
    assert_eq!(Response::parse("HTTP/1.1 +201 Created\r\n").unwrap().status, 201);
    assert_eq!(Response::parse("HTTP/1.1 099 Odd\r\n").unwrap().status, 99);
    assert_eq!(
        Response::parse("HTTP/1.1 18446744073709551615 Max\r\n").unwrap().status,
        u64::MAX
    );
    assert!(Response::parse("HTTP/1.1 18446744073709551616 Over\r\n").is_err());
    assert!(Response::parse("HTTP/1.1 -1 Odd\r\n").is_err());
    assert!(Response::parse("HTTP/1.1 + Odd\r\n").is_err());
}

#[test]
fn parse_status_line_with_extra_whitespace() {
    let response = Response::parse("  HTTP/1.1 \t 302   Found\r\nLocation: /x\r\n\r\n").unwrap();
    assert_eq!(response.status, 302);
    assert_eq!(response.header("location"), Some(&"/x".to_string()));
}

#[test]
fn parse_lines_ending_in_bare_newline() {
    let response = Response::parse("HTTP/1.1 200 OK\nA: 1\nB: 2").unwrap();
    assert_eq!(response.header("a"), Some(&"1".to_string()));
    assert_eq!(response.header("b"), Some(&"2".to_string()));
    assert_eq!(response.body, None);
}

#[test]
fn is_success_boundaries() {
    let at = |status: u64| Response { status, headers: Vec::new(), body: None };
    assert!(!at(199).is_success());
    assert!(at(200).is_success());
    assert!(at(299).is_success());
    assert!(!at(300).is_success());
}

#[test]
fn header_lookup_lowercases_the_query() {
    let response = Response {
        status: 200,
        headers: vec![("content-type".to_string(), "text/plain".to_string())],
        body: None,
    };
    assert_eq!(response.header("Content-Type"), Some(&"text/plain".to_string()));
    assert_eq!(response.header("content-length"), None);
}

#[test]
fn from_bytes_replaces_invalid_sequences() {
    let mut data = b"HTTP/1.1 200 OK\r\nX: y\r\n\r\nab".to_vec();
    data.push(0xff);
    let response = Response::from_bytes(&data).unwrap();
    assert_eq!(response.status, 200);
    assert_eq!(response.body, Some("ab\u{fffd}".to_string()));
    assert!(matches!(Response::from_bytes(b"garbage"), Err(HttpError::ResponseParseError(_))));
}

#[test]
fn parse_recovers_encoded_values() {
    let text = "HTTP/1.1 301 Moved Permanently\r\n Location :  /new \r\nX-A:1\r\nx-a: 2\r\n\r\nbody text";
    let response = Response::parse(text).unwrap();
    assert_eq!(response.status, 301);
    assert_eq!(response.header("location"), Some(&"/new".to_string()));
    assert_eq!(response.header("x-a"), Some(&"2".to_string()));
    assert_eq!(response.headers.len(), 2);
    assert_eq!(response.body, Some("body text".to_string()));
}

#[test]
fn parse_accepts_large_status_code() {
    let response = Response::parse("HTTP/1.1 99999 Odd").unwrap();
    assert_eq!(response.status, 99999);
    assert_eq!(response.body, None);
    let response = Response::parse("HTTP/1.1 99999 Odd\r\n\r\nx").unwrap();
    assert_eq!(response.status, 99999);
    assert_eq!(response.body, Some("x".to_string()));
    assert!(!response.is_success());
}

#[test]
fn header_values_trim_unicode_whitespace() {
    let response = Response::parse("HTTP/1.1 200 OK\r\n\u{a0}Name\u{3000}:\u{2003} v a l \t\r\n\r\n").unwrap();
    assert_eq!(response.header("name"), Some(&"v a l".to_string()));
    let blank = Response::parse("HTTP/1.1 200 OK\r\nEmpty:   \r\n").unwrap();
    assert_eq!(blank.header("empty"), Some(&"".to_string()));
}
