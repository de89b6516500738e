//! A small HTTP/1.1 server toolkit: request parsing, response emission and the
//! decisions of a connection's lifecycle, each with a machine-checked contract.
//!
//! Bytes are framed into lines in [`bytes`], lines become text in
//! [`encoding`] and [`text`], and the protocol itself lives in [`http`].
//! [`runtime`] holds the decisions that a server makes around one connection.

/// Line framing on raw octets.
pub mod bytes;
/// Conversions between octets and text.
pub mod encoding;
/// Numbers written as text.
pub mod numeric;
/// Character classes, trimming and case folding.
pub mod text;
/// Requests, responses and header fields.
pub mod http;
/// The decisions of the server around its connections.
pub mod runtime;
