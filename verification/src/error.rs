//! The body of a response that reports a failure.

use vstd::prelude::*;
use vstd::std_specs::convert::FromSpecImpl;

verus! {

/// What the requester is told when a request fails.
#[derive(Debug, Clone, PartialEq, Eq)]
pub struct ErrorResponse {
    pub message: String,
}

impl View for ErrorResponse {
    type V = Seq<char>;

    open spec fn view(&self) -> Seq<char> {
        self.message@
    }
}

impl ErrorResponse {
    /// The response that says `message`.
    pub fn new(message: &str) -> (response: ErrorResponse)
        ensures
            response@ == message@,
    {
        ErrorResponse { message: message.to_owned() }
    }
}

impl<'a> From<&'a str> for ErrorResponse {
    /// The response that says `s`.
    fn from(s: &'a str) -> (response: ErrorResponse)
        ensures
            response@ == s@,
    {
        ErrorResponse::new(s)
    }
}

impl<'a> FromSpecImpl<&'a str> for ErrorResponse {
    open spec fn obeys_from_spec() -> bool {
        false
    }

    open spec fn from_spec(s: &'a str) -> ErrorResponse {
        arbitrary()
    }
}

} // verus!
