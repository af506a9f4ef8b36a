//! What becomes of a connection.
use vstd::prelude::*;

use crate::request::Request;

verus! {

/// The length of the buffer of a connection.
pub const BUFFER_LEN: usize = 1024;

/// What is done next with a connection.
#[derive(Debug, Clone, Copy, PartialEq, Eq, Structural)]
pub enum Step {
    /// The request is answered; the connection is kept afterwards or not.
    Respond { keep_alive: bool },
    /// The next request is read.
    Read,
    /// The connection is closed.
    Close,
}

/// What is done once a request has been read, or none was to be had.
pub open spec fn step_after_read(read: Result<Request, Vec<u8>>) -> Step {
    match read {
        Ok(Request::Get { headers, .. }) => Step::Respond { keep_alive: !headers.close },
        Ok(Request::Bad { .. }) => Step::Respond { keep_alive: false },
        Err(_) => Step::Close,
    }
}

/// What is done once a request has been answered, or could not be.
pub open spec fn step_after_response(sent: bool, keep_alive: bool) -> Step {
    if sent && keep_alive {
        Step::Read
    } else {
        Step::Close
    }
}

/// What is done once a request has been read, or none was to be had.
pub fn after_read(read: &Result<Request, Vec<u8>>) -> (r: Step)
    ensures
        r == step_after_read(*read),
{
    match read {
        Ok(request) => Step::Respond { keep_alive: request.keep_alive() },
        Err(_) => Step::Close,
    }
}

/// What is done once a request has been answered, or could not be.
pub fn after_response(sent: bool, keep_alive: bool) -> (r: Step)
    ensures
        r == step_after_response(sent, keep_alive),
{
    if sent && keep_alive {
        Step::Read
    } else {
        Step::Close
    }
}

} // verus!
