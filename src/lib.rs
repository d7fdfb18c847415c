//! A minimal HTTP/1.1 client core: the request builder, the target resolver
//! and the response parser, each with a contract over a character-level model.

mod text;
pub mod request;
pub mod response;
pub mod target;

use vstd::prelude::*;

pub use response::Response;
pub use target::{Target, UrlParts};
pub use HttpMethod::{GET, POST};

verus! {

/// The request methods that the client can send.
#[derive(Debug, Clone, Copy, PartialEq, Eq)]
pub enum HttpMethod {
    GET,
    POST,
}

/// The kinds of failure of a request, each with a message.
#[derive(Debug, Clone, PartialEq, Eq)]
pub enum HttpError {
    InvalidUrl(String),
    ConnectionFailed(String),
    TlsError(String),
    RequestFailed(String),
    ResponseParseError(String),
}

/// The stateless client: its operations are associated functions.
pub struct HttpClient;

} // verus!
