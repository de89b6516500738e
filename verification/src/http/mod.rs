/// What holds of the header fields and of their parser.
pub mod header_laws;
/// The case-insensitive field store and the header-block parser.
pub mod headers;
/// The request state machine and its error type.
pub mod request;
/// What holds of every request that is read.
pub mod request_laws;
/// The request line parser.
pub mod request_line;
/// Status codes, responses and their emission.
pub mod response;
/// What is written reads back.
pub mod round_trip;
