use rumbo_http_client::{HttpClient, HttpMethod};

#[test]
fn get_request_first_line_and_no_length() {
    let req = HttpClient::build_request(HttpMethod::GET, "example.com", "/get", None);
    assert_eq!(req.split("\r\n").next(), Some("GET /get HTTP/1.1"));
    assert!(!req.contains("Content-Length"));
    assert_eq!(
        req,
        "GET /get HTTP/1.1\r\nHost: example.com\r\nUser-Agent: mini-http-client/0.1.0\r\nConnection: close\r\n\r\n"
    );
}

#[test]
fn get_request_ignores_body() {
    let req = HttpClient::build_request(HttpMethod::GET, "h", "/p?q=1", Some("{}"));
    assert!(req.ends_with("\r\n\r\n"));
    assert!(req.starts_with("GET /p?q=1 HTTP/1.1\r\n"));
}

#[test]
fn post_request_length_and_payload() {
    let json = serde_json::to_string(&vec![1, 2, 3]).unwrap();
    let req = HttpClient::build_request(HttpMethod::POST, "example.com", "/post", Some(&json));
    let (head, payload) = req.split_once("\r\n\r\n").unwrap();
    assert_eq!(payload, json);
    assert!(head.contains(&format!("\r\nContent-Length: {}\r\n", json.len())));
    assert!(head.contains("\r\nContent-Type: application/json\r\n"));
    assert!(head.starts_with("POST /post HTTP/1.1\r\nHost: example.com\r\n"));
}

#[test]
fn post_request_counts_bytes_not_characters() {
    let json = "{\"name\":\"Zoë\"}";
    let req = HttpClient::build_request(HttpMethod::POST, "h", "/", Some(json));
    assert!(req.contains("\r\nContent-Length: 15\r\n"));
    assert!(req.ends_with(json));
}

#[test]
fn post_request_without_body_is_empty() {
    let req = HttpClient::build_request(HttpMethod::POST, "h", "/", None);
    assert!(req.contains("\r\nContent-Length: 0\r\n"));
    assert!(req.ends_with("Connection: close\r\n\r\n"));
}

#[test]
fn post_request_multi_digit_length() {
    let json = "x".repeat(1234);
    let req = HttpClient::build_request(HttpMethod::POST, "h", "/", Some(&json));
    assert!(req.contains("\r\nContent-Length: 1234\r\n"));
}
