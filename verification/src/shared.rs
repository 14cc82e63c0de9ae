//! Error type shared by the parsers.
use vstd::prelude::*;

verus! {

/// Why a request could not be parsed.
#[derive(Debug, Clone, Copy, PartialEq, Eq, Structural)]
pub enum RequestErrorEnum {
    /// Parsing the request failed
    ParseError,
    /// The method is not one of those of [`crate::request::Method`]
    MethodNotFound,
    /// Request incomplete
    IncompleteRequest,
    /// Parsing HTTP version failed
    HttpVersionParseError,
    /// HTTP version is not 1.1
    IncompatibleVersion,
    /// Found a malformed header in the request
    MalFormedHeader,
    /// Unexpected state encountered during request parsing
    UnexpectedStateError,
    /// Request does not contain any data to read
    NoRequestToRead,
}

/// Carriage return.
pub const CR: u8 = 13;

/// Line feed.
pub const LF: u8 = 10;

/// The separator that ends the request line: `"\r\n"`.
pub open spec fn separator() -> Seq<u8> {
    seq![CR, LF]
}

/// The blank line that ends the header block: `"\r\n\r\n"`.
pub open spec fn crlf_crlf() -> Seq<u8> {
    seq![CR, LF, CR, LF]
}

} // verus!
