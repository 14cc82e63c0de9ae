//! Response status codes.
use vstd::prelude::*;
use vstd::string::StringExecFns;

verus! {

/// The statuses this server answers with.
#[derive(Debug, Clone, Copy, PartialEq, Eq, Structural)]
pub enum StatusCode {
    Success,
    NotFound,
}

/// The text of a status in a response line.
pub open spec fn status_text(s: StatusCode) -> Seq<char> {
    match s {
        StatusCode::Success => "200 OK"@,
        StatusCode::NotFound => "404 Not Found"@,
    }
}

impl StatusCode {
    /// The numeric code.
    pub fn code(&self) -> (res: u16)
        ensures
            res == (match *self {
                StatusCode::Success => 200u16,
                StatusCode::NotFound => 404u16,
            }),
    {
        match self {
            StatusCode::Success => 200,
            StatusCode::NotFound => 404,
        }
    }

    /// The code and its reason phrase, as a response line writes them.
    pub fn to_string(&self) -> (res: String)
        ensures
            res@ == status_text(*self),
    {
        match self {
            StatusCode::Success => String::from_str("200 OK"),
            StatusCode::NotFound => String::from_str("404 Not Found"),
        }
    }
}

} // verus!
