use rumbo_http_client::{HttpClient, HttpError, UrlParts};

#[test]
fn unsupported_scheme_is_invalid_url() {
    let r = HttpClient::resolve("ftp://host/resource", true);
    assert_eq!(r.err(), Some(HttpError::InvalidUrl("Unsupported scheme: ftp".to_string())));
}

#[test]
fn malformed_url_is_invalid_url() {
    assert!(matches!(HttpClient::resolve("not a url", true), Err(HttpError::InvalidUrl(_))));
    assert!(matches!(HttpClient::resolve("http://", true), Err(HttpError::InvalidUrl(_))));
}

#[test]
fn http_url_with_default_port_and_query() {
    let t = HttpClient::resolve("http://httpbin.org/get?a=1&b=2", false).unwrap();
    assert!(!t.secure);
    assert_eq!(t.host, "httpbin.org");
    assert_eq!(t.port, 80);
    assert_eq!(t.full_path, "/get?a=1&b=2");
}

#[test]
fn https_url_with_explicit_port() {
    let t = HttpClient::resolve("https://example.com:8443/x", true).unwrap();
    assert!(t.secure);
    assert_eq!(t.port, 8443);
    assert_eq!(t.full_path, "/x");
    let d = HttpClient::resolve("https://example.com", true).unwrap();
    assert_eq!(d.port, 443);
    assert_eq!(d.full_path, "/");
}

#[test]
fn https_without_tls_support_is_tls_error() {
    let r = HttpClient::resolve("https://example.com/", false);
    assert!(matches!(r, Err(HttpError::TlsError(_))));
}

#[test]
fn url_without_host_is_invalid_url() {
    let r = HttpClient::resolve("unix:/run/socket", true);
    assert!(matches!(r, Err(HttpError::InvalidUrl(_))));
}

#[test]
fn target_of_missing_port() {
    let parts = UrlParts {
        scheme: "gopher".to_string(),
        host: Some("h".to_string()),
        port: None,
        path: "/".to_string(),
        query: None,
    };
    assert!(matches!(HttpClient::target_of(parts, true), Err(HttpError::InvalidUrl(_))));
}
