//! Status lines.
use vstd::prelude::*;

verus! {

/// The statuses of responses without a body.
#[derive(Debug, Clone, Copy, PartialEq, Eq, Structural)]
pub enum HttpStatus {
    NotFound,
    BadRequest,
    UriTooLong,
    HeaderTooLong,
    MethodNotAllowed,
}

impl HttpStatus {
    /// The code and the reason phrase.
    pub open spec fn text(self) -> Seq<char> {
        match self {
            HttpStatus::NotFound => "404 Not Found"@,
            HttpStatus::BadRequest => "400 Bad Request"@,
            HttpStatus::UriTooLong => "414 URI Too Long"@,
            HttpStatus::HeaderTooLong => "431 Request Header Fields Too Large"@,
            HttpStatus::MethodNotAllowed => "405 Method Not Allowed"@,
        }
    }

    /// The code and the reason phrase.
    pub fn as_str(&self) -> (r: &'static str)
        ensures
            r@ == self.text(),
    {
        match self {
            HttpStatus::NotFound => "404 Not Found",
            HttpStatus::BadRequest => "400 Bad Request",
            HttpStatus::UriTooLong => "414 URI Too Long",
            HttpStatus::HeaderTooLong => "431 Request Header Fields Too Large",
            HttpStatus::MethodNotAllowed => "405 Method Not Allowed",
        }
    }
}

} // verus!
