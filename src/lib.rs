//! The networking front end of a small browser: parsing a typed address into
//! a scheme-aware `Url`, and the HTTP/1.0 exchange for web addresses (the
//! request text, and the parsing of what the server sends back).
use vstd::prelude::*;

pub mod text;
pub mod url;
pub mod http;
pub mod laws;

pub use url::{ParseError, Url};
pub use http::{parse_response, ProtocolError, Response};
