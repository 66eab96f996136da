//! Talking to the daemon.
//!
//! Every client command is one connection, one request, one response. Anything
//! the GUI will do must be reachable here first, so the CLI stays the reference
//! implementation of the protocol. The functions here take what came back over the
//! connection.
use vstd::prelude::*;
use crate::protocol::{unframe, Response};

verus! {

/// Why a request was not carried out.
#[derive(Debug, Clone, PartialEq, Eq)]
pub enum ClientError {
    /// The daemon could not be spoken to.
    Unreachable { reason: String },
    /// The daemon closed the connection without replying.
    NoReply,
    /// The reply could not be decoded.
    Malformed { reason: String },
    /// The daemon could not carry the request out.
    Refused { message: String },
}

/// The message of a reply line.
pub fn reply_text(line: &str) -> (r: Result<String, ClientError>)
    ensures
        match r {
            Ok(body) => body@ == crate::text::trimmed(line@) && body@.len() > 0,
            Err(e) => e is NoReply && crate::text::trimmed(line@).len() == 0,
        },
{
    let body = unframe(line);
    if body.as_str().is_empty() {
        Err(ClientError::NoReply)
    } else {
        Ok(body)
    }
}

/// What is made of the reply to a request that is expected to succeed: a daemon-side
/// error is a normal failure rather than a surprising `Ok`.
pub fn send_ok(reply: Result<Response, ClientError>) -> (r: Result<Response, ClientError>)
    ensures
        match reply {
            Ok(Response::Error { message }) => r == Err::<Response, ClientError>(
                ClientError::Refused { message },
            ),
            _ => r == reply,
        },
{
    match reply {
        Ok(Response::Error { message }) => Err(ClientError::Refused { message }),
        Ok(other) => Ok(other),
        Err(e) => Err(e),
    }
}

/// Whether a daemon is listening, by its reply to a ping. A leftover socket file
/// answers nothing, so the ping is sent rather than the path checked.
pub fn daemon_running(reply: &Result<Response, ClientError>) -> (r: bool)
    ensures
        r == (reply matches Ok(Response::Done)),
{
    match reply {
        Ok(Response::Done) => true,
        _ => false,
    }
}

/// A request that succeeded was not refused: no error of the daemon passes for a
/// success.
pub proof fn law_an_error_is_no_success(message: String)
    ensures
        forall|r: Result<Response, ClientError>| #[trigger]
            call_ensures(send_ok, (Ok(Response::Error { message }),), r) ==> r is Err,
{
}

/// A reply that is no refusal is handed on as it came; a daemon is there where it answered
/// that it did what was asked, and a line of white space is no reply.
pub proof fn law_replies_are_handed_on(reply: Result<Response, ClientError>, line: &str)
    requires
        !(reply matches Ok(Response::Error { .. })),
    ensures
        forall|r: Result<Response, ClientError>| #[trigger]
            call_ensures(send_ok, (reply,), r) ==> r == reply,
        forall|message: String, r: Result<Response, ClientError>| #[trigger]
            call_ensures(send_ok, (Ok(Response::Error { message }),), r) ==> (r matches Err(
                ClientError::Refused { message: told },
            ) && told == message),
        forall|r: bool| #[trigger]
            call_ensures(daemon_running, (&reply,), r) ==> r == (reply
                == Ok::<Response, ClientError>(Response::Done)),
        forall|r: Result<String, ClientError>| #[trigger]
            call_ensures(reply_text, (line,), r) ==> (r is Ok) == !(forall|i: int|
                0 <= i < line@.len() ==> crate::text::white_space(#[trigger] line@[i])),
{
    crate::text::law_only_white_space_is_trimmed_away(line@);
}

} // verus!
