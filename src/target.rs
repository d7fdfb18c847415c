//! Where a request goes: the URL read by the `url` crate, and the choice of
//! transport that its scheme makes.

use vstd::prelude::*;

use crate::response::opt_view;
use crate::{HttpClient, HttpError};

verus! {

#[verifier::external_type_specification]
#[verifier::external_body]
pub struct ExUrlParseError(url::ParseError);

/// Whether `url::Url::parse` accepts a text.
pub uninterp spec fn url_parses(text: Seq<char>) -> bool;

/// The scheme that `url::Url::scheme` gives for a text.
pub uninterp spec fn url_scheme(text: Seq<char>) -> Seq<char>;

/// The host that `url::Url::host_str` gives for a text.
pub uninterp spec fn url_host(text: Seq<char>) -> Option<Seq<char>>;

/// The port that `url::Url::port_or_known_default` gives for a text.
pub uninterp spec fn url_port(text: Seq<char>) -> Option<u16>;

/// The path that `url::Url::path` gives for a text.
pub uninterp spec fn url_path(text: Seq<char>) -> Seq<char>;

/// The query that `url::Url::query` gives for a text.
pub uninterp spec fn url_query(text: Seq<char>) -> Option<Seq<char>>;

/// The parts of a URL that a request needs, as plain values.
pub struct UrlParts {
    pub scheme: String,
    pub host: Option<String>,
    pub port: Option<u16>,
    pub path: String,
    pub query: Option<String>,
}

/// Relies on `url::Url::parse`, and on the accessors `scheme`, `host_str`,
/// `port_or_known_default`, `path` and `query` of the URL it returns; the
/// port is the scheme's default (80 for http, 443 for https) where the text
/// gives none.
#[verifier::external_body]
fn parse_url(text: &str) -> (r: Result<UrlParts, url::ParseError>)
    ensures
        r is Ok <==> url_parses(text@),
        r matches Ok(p) ==> {
            &&& p.scheme@ == url_scheme(text@)
            &&& opt_view(p.host) == url_host(text@)
            &&& p.port == url_port(text@)
            &&& p.path@ == url_path(text@)
            &&& opt_view(p.query) == url_query(text@)
            &&& (p.scheme@ == "http"@ || p.scheme@ == "https"@) ==> p.port is Some
        },
{
    let u = url::Url::parse(text)?;
    Ok(UrlParts {
        scheme: u.scheme().to_string(),
        host: u.host_str().map(|h| h.to_string()),
        port: u.port_or_known_default(),
        path: u.path().to_string(),
        query: u.query().map(|q| q.to_string()),
    })
}

/// Where one request goes: over TLS or not, the host and port to connect
/// to, and the path (with its query) to ask for.
pub struct Target {
    pub secure: bool,
    pub host: String,
    pub port: u16,
    pub full_path: String,
}

/// The path with `?` and the query after it, where there is a query.
pub open spec fn full_path_of(path: Seq<char>, query: Option<Seq<char>>) -> Seq<char> {
    match query {
        Some(q) => path + "?"@ + q,
        None => path,
    }
}

/// What a request to a URL with these parts comes to: a missing host or port
/// or a scheme other than http and https is an invalid URL (for the latter,
/// one that names the unsupported scheme); https without TLS
/// support is a TLS error; otherwise the target, secure for https.
pub open spec fn resolves_to(
    scheme: Seq<char>,
    host: Option<Seq<char>>,
    port: Option<u16>,
    path: Seq<char>,
    query: Option<Seq<char>>,
    tls: bool,
    r: Result<Target, HttpError>,
) -> bool {
    if host is None || port is None {
        r matches Err(HttpError::InvalidUrl(_))
    } else if scheme == "https"@ && !tls {
        r matches Err(HttpError::TlsError(_))
    } else if scheme == "http"@ || scheme == "https"@ {
        r matches Ok(t) && t.secure == (scheme == "https"@) && t.host@ == host->0 && t.port
            == port->0 && t.full_path@ == full_path_of(path, query)
    } else {
        r matches Err(HttpError::InvalidUrl(m)) && m@ == "Unsupported scheme: "@ + scheme
    }
}

/// Whether two texts are the same.
fn same_text(a: &str, b: &str) -> (r: bool)
    ensures
        r == (a@ == b@),
{
    String::from_str(a) == String::from_str(b)
}

impl HttpClient {
    /// Decides where a request to a URL with these parts goes; `tls` says
    /// whether TLS support is available.
    pub fn target_of(parts: UrlParts, tls: bool) -> (r: Result<Target, HttpError>)
        ensures
            resolves_to(
                parts.scheme@,
                opt_view(parts.host),
                parts.port,
                parts.path@,
                opt_view(parts.query),
                tls,
                r,
            ),
    {
        let host = match parts.host {
            Some(h) => h,
            None => {
                return Err(HttpError::InvalidUrl(String::from_str("Missing host")));
            },
        };
        let port = match parts.port {
            Some(p) => p,
            None => {
                return Err(HttpError::InvalidUrl(String::from_str("Missing port")));
            },
        };
        let https = same_text(parts.scheme.as_str(), "https");
        let http = same_text(parts.scheme.as_str(), "http");
        if https && !tls {
            return Err(HttpError::TlsError(String::from_str("TLS support is not available")));
        }
        if !http && !https {
            let message = String::from_str("Unsupported scheme: ").concat(parts.scheme.as_str());
            return Err(HttpError::InvalidUrl(message));
        }
        let mut full_path = parts.path;
        match parts.query {
            Some(q) => {
                full_path.append("?");
                full_path.append(q.as_str());
            },
            None => {},
        }
        Ok(Target { secure: https, host, port, full_path })
    }

    /// Reads a URL and decides where a request to it goes: a text that is
    /// no URL is an invalid URL; otherwise as `target_of` decides on its parts.
    pub fn resolve(url: &str, tls: bool) -> (r: Result<Target, HttpError>)
        ensures
            !url_parses(url@) ==> r matches Err(HttpError::InvalidUrl(_)),
            url_parses(url@) ==> resolves_to(
                url_scheme(url@),
                url_host(url@),
                url_port(url@),
                url_path(url@),
                url_query(url@),
                tls,
                r,
            ),
    {
        match parse_url(url) {
            Ok(parts) => HttpClient::target_of(parts, tls),
            Err(e) => Err(HttpError::InvalidUrl(e.to_string())),
        }
    }
}

} // verus!

verus! {

/// A URL whose scheme is neither http nor https never leads to a connection:
/// whatever its other parts, it resolves to an invalid-URL error.
pub proof fn lemma_other_scheme_is_invalid_url(
    scheme: Seq<char>,
    host: Option<Seq<char>>,
    port: Option<u16>,
    path: Seq<char>,
    query: Option<Seq<char>>,
    tls: bool,
    r: Result<Target, HttpError>,
)
    requires
        scheme != "http"@,
        scheme != "https"@,
        resolves_to(scheme, host, port, path, query, tls, r),
    ensures
        r matches Err(HttpError::InvalidUrl(_)),
{
}

} // verus!
