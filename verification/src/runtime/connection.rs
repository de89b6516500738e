use crate::encoding::{push_bytes, str_eq};
use crate::http::headers::value_of;
use crate::http::request::{Failure, HttpError, Request};
use crate::http::response::{
    header_block_text, html_fields, html_response, status_line_text, write_headers,
    write_status_line, Response, StatusCode,
};
use vstd::prelude::*;
use vstd::utf8::encode_utf8;

verus! {

/// The seconds that one request may take, from its first octet to the end
/// of its answer.
pub const SERVER_TIMEOUT_SECS: u64 = 120;

/// The seconds that a connection may wait for its next request to arrive.
pub const KEEP_ALIVE_TIMEOUT_SECS: u64 = 15;

/// The milliseconds to wait after a failed accept before the next.
pub const ACCEPT_RETRY_MILLIS: u64 = 50;

/// What the server does about a request that it could not read.
#[derive(Clone, Copy, Debug, PartialEq, Eq, Structural)]
pub enum Reaction {
    /// Close the connection without an answer.
    Close,
    /// Answer with the page for this status, then close the connection.
    Reject(StatusCode),
}

/// What the accept loop does after an accept failed.
#[derive(Clone, Copy, Debug, PartialEq, Eq, Structural)]
pub enum AcceptAction {
    /// Leave the loop: the server was closed.
    Stop,
    /// Wait this many milliseconds, then accept again.
    RetryAfterMillis(u64),
}

/// The name of the field that says whether the connection stays open.
pub open spec fn connection_name() -> Seq<char> {
    "connection"@
}

/// Whether `fields` ask for the connection to be closed.
pub open spec fn asks_to_close(fields: Seq<(Seq<char>, Seq<char>)>) -> bool {
    value_of(fields, connection_name()) == Some("close"@)
}

/// The reaction to a request that failed to be read with `failure`, where
/// `received_any` says whether any octet of it had arrived.
///
/// A peer that closes between two requests is not answered. One that stops
/// within a request, or sends what cannot be parsed, gets 400. A request
/// that did not arrive in time gets 408.
pub open spec fn reaction_to(failure: Failure, received_any: bool) -> Reaction {
    match failure {
        Failure::UnexpectedEOF => if received_any {
            Reaction::Reject(StatusCode::BadRequest)
        } else {
            Reaction::Close
        },
        Failure::Timeout => Reaction::Reject(StatusCode::RequestTimeout),
        _ => Reaction::Reject(StatusCode::BadRequest),
    }
}

/// Decides what to do about a request that could not be read.
pub fn on_read_error(error: &HttpError, received_any: bool) -> (reaction: Reaction)
    ensures
        reaction == reaction_to(error@, received_any),
{
    match error {
        HttpError::UnexpectedEOF => {
            if received_any {
                Reaction::Reject(StatusCode::BadRequest)
            } else {
                Reaction::Close
            }
        },
        HttpError::Timeout => Reaction::Reject(StatusCode::RequestTimeout),
        _ => Reaction::Reject(StatusCode::BadRequest),
    }
}

/// Decides what to do when the wait for a request has run out: a
/// connection on which nothing arrived is closed without an answer, a
/// request that was under way gets 400.
pub fn on_keep_alive_elapsed(received_any: bool) -> (reaction: Reaction)
    ensures
        reaction == if received_any {
            Reaction::Reject(StatusCode::BadRequest)
        } else {
            Reaction::Close
        },
{
    if received_any {
        Reaction::Reject(StatusCode::BadRequest)
    } else {
        Reaction::Close
    }
}

/// The page that goes with a status that the server answers on its own.
pub open spec fn page_text(status: StatusCode) -> Seq<char> {
    match status {
        StatusCode::RequestTimeout => "<html><body><h1>Request timed out</h1></body></html>"@,
        StatusCode::GatewayTimeout => "<html><body><h1>Gateway Timed out</h1></body></html>"@,
        StatusCode::BadRequest => "<html><body><h1>Bad Request</h1></body></html>"@,
        StatusCode::NotFound => "<html><body><h1>Not Found</h1></body></html>"@,
        StatusCode::InternalServerError =>
            "<html><body><h1>Internal Server Error</h1></body></html>"@,
        StatusCode::Created => "<html><body><h1>Created</h1></body></html>"@,
        StatusCode::Okay => "<html><body><h1>All good!</h1></body></html>"@,
    }
}

/// The response that the server makes up for `status`.
pub fn error_response(status: StatusCode) -> (response: Response)
    ensures
        response.status == status,
        response.headers.fields() == html_fields(encode_utf8(page_text(status)).len()),
        response.body@ == encode_utf8(page_text(status)),
{
    let page = match status {
        StatusCode::RequestTimeout => "<html><body><h1>Request timed out</h1></body></html>",
        StatusCode::GatewayTimeout => "<html><body><h1>Gateway Timed out</h1></body></html>",
        StatusCode::BadRequest => "<html><body><h1>Bad Request</h1></body></html>",
        StatusCode::NotFound => "<html><body><h1>Not Found</h1></body></html>",
        StatusCode::InternalServerError =>
            "<html><body><h1>Internal Server Error</h1></body></html>",
        StatusCode::Created => "<html><body><h1>Created</h1></body></html>",
        StatusCode::Okay => "<html><body><h1>All good!</h1></body></html>",
    };
    html_response(status, page)
}

/// Whether the peer lets the connection stay open after `request`: it
/// does unless the request says `connection: close`.
pub fn wants_keep_alive(request: &Request) -> (keep_alive: bool)
    ensures
        keep_alive == !asks_to_close(request@.fields),
{
    match request.headers.get("connection") {
        Some(value) => !str_eq(value, "close"),
        None => true,
    }
}

/// Whether the connection stays open after a request was handled.
///
/// It is closed where the handler returned no response, because it wrote
/// one itself, where the response says `connection: close`, and where the
/// request did.
pub open spec fn stays_open(
    keep_alive: bool,
    response: Option<Seq<(Seq<char>, Seq<char>)>>,
) -> bool {
    match response {
        None => false,
        Some(fields) => !asks_to_close(fields) && keep_alive,
    }
}

/// Decides whether the connection stays open after a request was handled,
/// where `keep_alive` was taken from the request and `response` is what the
/// handler returned.
pub fn after_response(keep_alive: bool, response: Option<&Response>) -> (open: bool)
    ensures
        open == stays_open(
            keep_alive,
            match response {
                Some(r) => Some(r.headers.fields()),
                None => None,
            },
        ),
{
    match response {
        None => false,
        Some(r) => {
            match r.headers.get("connection") {
                Some(value) => !str_eq(value, "close") && keep_alive,
                None => keep_alive,
            }
        },
    }
}

/// Decides what the accept loop does after an accept failed: it stops
/// where the server was closed, and tries again after a pause where it was
/// not.
pub fn on_accept_error(closed: bool) -> (action: AcceptAction)
    ensures
        action == if closed {
            AcceptAction::Stop
        } else {
            AcceptAction::RetryAfterMillis(ACCEPT_RETRY_MILLIS)
        },
{
    if closed {
        AcceptAction::Stop
    } else {
        AcceptAction::RetryAfterMillis(ACCEPT_RETRY_MILLIS)
    }
}

/// The octets of a response that is emitted as a whole: status line, header
/// block, body.
pub open spec fn response_bytes(
    status: StatusCode,
    fields: Seq<(Seq<char>, Seq<char>)>,
    body: Seq<u8>,
) -> Seq<u8> {
    encode_utf8(status_line_text(status)) + encode_utf8(header_block_text(fields)) + body
}

/// Appends `response` to `writer` as it goes over the wire.
pub fn write_response(writer: &mut Vec<u8>, response: &mut Response) -> (r: Result<(), HttpError>)
    ensures
        r is Ok,
        *final(response) == *old(response),
        final(writer)@ == old(writer)@ + response_bytes(
            old(response).status,
            old(response).headers.fields(),
            old(response).body@,
        ),
{
    let _ = write_status_line(writer, response.status);
    let _ = write_headers(writer, &mut response.headers);
    push_bytes(writer, response.body.as_slice());
    assert(final(writer)@ =~= old(writer)@ + response_bytes(
        old(response).status,
        old(response).headers.fields(),
        old(response).body@,
    ));
    Ok(())
}

} // verus!
