//! A small HTTP/1.1 request parser and response builder.
//!
//! The parsing logic (request line, headers, body framing by
//! `Content-Length`) and the response serialisation are verified with Verus.
pub mod shared;
pub mod body;
pub mod text;
pub mod numbers;
pub mod http_version;
pub mod headers;
pub mod request;
pub mod status_codes;
pub mod response;
