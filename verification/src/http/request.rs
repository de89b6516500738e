use crate::bytes::lemma_find_crlf;
use crate::encoding::{push_bytes, str_eq};
use crate::http::header_laws::law_block_stops_at_line_end;
use crate::http::headers::{names_distinct, parse_block, value_of, BlockStatus, Headers};
use crate::http::request_laws::law_read_request_is_sound;
use crate::http::request_line::{
    parse_request_line_bytes, request_line_parse, RequestLine, RequestLineText,
};
use crate::numeric::{decimal_value, parse_decimal};
use vstd::prelude::*;
use vstd::utf8::encode_utf8;

verus! {

/// What can go wrong while a request is read, parsed or answered.
#[derive(Debug)]
pub enum HttpError {
    /// The request line names a version other than `1.1`.
    UnsupportedVersion(String),
    /// The request line names a method outside the accepted set.
    InvalidMethod(String),
    /// The parser was driven in a state that does not allow the step.
    InvalidParserState,
    /// The request line does not have the shape `METHOD SP target SP HTTP/version`.
    MalformedRequestLine,
    /// A header line does not have the shape `name: value`.
    MalformedHeader,
    /// A header field is well formed but not acceptable, such as an empty `host`.
    InvalidHeaders,
    /// The peer stopped sending before the request was complete.
    UnexpectedEOF,
    /// More body octets arrived than `Content-Length` announced.
    InvalidBodyLength,
    /// The underlying stream failed.
    Io,
    /// `Content-Length` is not an unsigned decimal number.
    ParseError,
    /// A condition that the code rules out was met all the same.
    InternalInvariantViolated,
    /// A request that a handler sent upstream failed.
    UpstreamRequestFailed,
    /// A task that a handler was waiting for did not complete.
    TaskJoin,
    /// A deadline passed.
    Timeout,
    /// The request or its header block is larger than the server accepts.
    ContentTooLarge,
}

/// The mathematical value of an [`HttpError`].
pub enum Failure {
    UnsupportedVersion(Seq<char>),
    InvalidMethod(Seq<char>),
    InvalidParserState,
    MalformedRequestLine,
    MalformedHeader,
    InvalidHeaders,
    UnexpectedEOF,
    InvalidBodyLength,
    Io,
    ParseError,
    InternalInvariantViolated,
    UpstreamRequestFailed,
    TaskJoin,
    Timeout,
    ContentTooLarge,
}

impl View for HttpError {
    type V = Failure;

    open spec fn view(&self) -> Failure {
        match self {
            HttpError::UnsupportedVersion(v) => Failure::UnsupportedVersion(v@),
            HttpError::InvalidMethod(m) => Failure::InvalidMethod(m@),
            HttpError::InvalidParserState => Failure::InvalidParserState,
            HttpError::MalformedRequestLine => Failure::MalformedRequestLine,
            HttpError::MalformedHeader => Failure::MalformedHeader,
            HttpError::InvalidHeaders => Failure::InvalidHeaders,
            HttpError::UnexpectedEOF => Failure::UnexpectedEOF,
            HttpError::InvalidBodyLength => Failure::InvalidBodyLength,
            HttpError::Io => Failure::Io,
            HttpError::ParseError => Failure::ParseError,
            HttpError::InternalInvariantViolated => Failure::InternalInvariantViolated,
            HttpError::UpstreamRequestFailed => Failure::UpstreamRequestFailed,
            HttpError::TaskJoin => Failure::TaskJoin,
            HttpError::Timeout => Failure::Timeout,
            HttpError::ContentTooLarge => Failure::ContentTooLarge,
        }
    }
}


/// How far the parser has come with a request.
#[derive(Debug, Clone, Copy, PartialEq, Eq, Structural)]
pub enum ParseState {
    /// Nothing was parsed yet: the request line comes next.
    Initialized,
    /// The request line was parsed: header lines come next.
    ParseHeaders,
    /// The header block is complete: the body comes next.
    ParseBody,
    /// The request is complete.
    Done,
}

/// A request, as far as it was parsed.
#[derive(Debug)]
pub struct Request {
    /// How far the parser has come.
    pub parse_state: ParseState,
    /// The request line; empty until it was parsed.
    pub request_line: RequestLine,
    /// The header fields that were parsed so far.
    pub headers: Headers,
    /// The body octets that were received so far.
    pub body: Vec<u8>,
}

/// The mathematical value of a [`Request`].
pub struct RequestModel {
    pub state: ParseState,
    pub request_line: RequestLineText,
    pub fields: Seq<(Seq<char>, Seq<char>)>,
    pub body: Seq<u8>,
}

impl View for Request {
    type V = RequestModel;

    open spec fn view(&self) -> RequestModel {
        RequestModel {
            state: self.parse_state,
            request_line: self.request_line@,
            fields: self.headers.fields(),
            body: self.body@,
        }
    }
}

/// What one step of the parser gives: the request after it, the number of
/// octets that it consumed, and why it failed if it did.
pub struct Step {
    pub request: RequestModel,
    pub consumed: int,
    pub failure: Option<Failure>,
}

/// The only version that the server speaks.
pub open spec fn supported_version() -> Seq<char> {
    "1.1"@
}

/// The name of the field that announces the length of the body.
pub open spec fn content_length_name() -> Seq<char> {
    "content-length"@
}

/// A request of which nothing was parsed yet.
pub open spec fn fresh_request() -> RequestModel {
    RequestModel {
        state: ParseState::Initialized,
        request_line: RequestLineText {
            method: Seq::empty(),
            request_target: Seq::empty(),
            http_version: Seq::empty(),
        },
        fields: Seq::empty(),
        body: Seq::empty(),
    }
}

/// The step from `Initialized`: reads the request line, once it is
/// complete, and insists on the supported version.
pub open spec fn step_request_line(request: RequestModel, data: Seq<u8>) -> Step {
    match request_line_parse(data) {
        Err(e) => Step { request, consumed: 0, failure: Some(e) },
        Ok(None) => Step { request, consumed: 0, failure: None },
        Ok(Some(found)) => if found.0.http_version != supported_version() {
            Step {
                request,
                consumed: 0,
                failure: Some(Failure::UnsupportedVersion(found.0.http_version)),
            }
        } else {
            Step {
                request: RequestModel {
                    state: ParseState::ParseHeaders,
                    request_line: found.0,
                    ..request
                },
                consumed: found.1,
                failure: None,
            }
        },
    }
}

/// The step from `ParseHeaders`: reads the complete header lines, and
/// moves on when the blank line was among them.
pub open spec fn step_headers(request: RequestModel, data: Seq<u8>) -> Step {
    let block = parse_block(request.fields, data);
    match block.status {
        BlockStatus::Failed(e) => Step {
            request: RequestModel { fields: block.fields, ..request },
            consumed: 0,
            failure: Some(e),
        },
        BlockStatus::Partial => Step {
            request: RequestModel { fields: block.fields, ..request },
            consumed: block.consumed,
            failure: None,
        },
        BlockStatus::Complete => Step {
            request: RequestModel {
                state: ParseState::ParseBody,
                fields: block.fields,
                ..request
            },
            consumed: block.consumed,
            failure: None,
        },
    }
}

/// The step from `ParseBody`: without `content-length` the request is
/// complete as it is. With it, all of `data` joins the body, which may not
/// grow beyond the announced length, and the request is complete when the
/// body has that length.
pub open spec fn step_body(request: RequestModel, data: Seq<u8>) -> Step {
    match value_of(request.fields, content_length_name()) {
        None => Step {
            request: RequestModel { state: ParseState::Done, ..request },
            consumed: 0,
            failure: None,
        },
        Some(text) => match decimal_value(text) {
            None => Step { request, consumed: 0, failure: Some(Failure::ParseError) },
            Some(length) => if request.body.len() + data.len() > length {
                Step { request, consumed: 0, failure: Some(Failure::InvalidBodyLength) }
            } else {
                Step {
                    request: RequestModel {
                        state: if request.body.len() + data.len() == length {
                            ParseState::Done
                        } else {
                            ParseState::ParseBody
                        },
                        body: request.body + data,
                        ..request
                    },
                    consumed: data.len() as int,
                    failure: None,
                }
            },
        },
    }
}

/// The step from `Done`: nothing may follow a complete request.
pub open spec fn step_done(request: RequestModel, data: Seq<u8>) -> Step {
    if data.len() > 0 {
        Step { request, consumed: 0, failure: Some(Failure::InvalidBodyLength) }
    } else {
        Step { request, consumed: 0, failure: None }
    }
}

/// One step of the parser on `data`, the octets that were received and not
/// consumed yet.
pub open spec fn parse_step(request: RequestModel, data: Seq<u8>) -> Step {
    match request.state {
        ParseState::Initialized => step_request_line(request, data),
        ParseState::ParseHeaders => step_headers(request, data),
        ParseState::ParseBody => step_body(request, data),
        ParseState::Done => step_done(request, data),
    }
}

impl Request {
    /// A request of which nothing was parsed yet.
    pub fn new() -> (request: Request)
        ensures
            request@ == fresh_request(),
            request.headers.wf(),
    {
        Request {
            parse_state: ParseState::Initialized,
            request_line: RequestLine {
                method: String::new(),
                request_target: String::new(),
                http_version: String::new(),
            },
            headers: Headers::new(),
            body: Vec::new(),
        }
    }

    /// Takes one step on `data`, the octets that were received and not
    /// consumed yet, and returns how many of them the step consumed.
    ///
    /// The caller drops what was consumed and hands in the rest again, with
    /// what has arrived since behind it.
    pub fn parse(&mut self, data: &[u8]) -> (r: Result<usize, HttpError>)
        ensures
            final(self)@ == parse_step(old(self)@, data@).request,
            match parse_step(old(self)@, data@).failure {
                None => r matches Ok(n) && n == parse_step(old(self)@, data@).consumed,
                Some(e) => r matches Err(x) && x@ == e,
            },
            old(self).headers.wf() ==> final(self).headers.wf(),
    {
        match self.parse_state {
            ParseState::Initialized => {
                match parse_request_line_bytes(data) {
                    Err(e) => Err(e),
                    Ok((None, _)) => Ok(0),
                    Ok((Some(line), size)) => {
                        if !str_eq(line.http_version.as_str(), "1.1") {
                            return Err(HttpError::UnsupportedVersion(line.http_version));
                        }
                        self.parse_state = ParseState::ParseHeaders;
                        self.request_line = line;
                        Ok(size)
                    },
                }
            },
            ParseState::ParseHeaders => {
                match self.headers.parse_header(data) {
                    Err(e) => Err(e),
                    Ok((size, done)) => {
                        if done {
                            self.parse_state = ParseState::ParseBody;
                        }
                        Ok(size)
                    },
                }
            },
            ParseState::ParseBody => {
                let length: usize = match self.headers.get("content-length") {
                    None => {
                        self.parse_state = ParseState::Done;
                        return Ok(0);
                    },
                    Some(text) => match parse_decimal(text) {
                        None => {
                            return Err(HttpError::ParseError);
                        },
                        Some(length) => length,
                    },
                };
                let received: usize = self.body.len();
                if received > length || data.len() > length - received {
                    return Err(HttpError::InvalidBodyLength);
                }
                push_bytes(&mut self.body, data);
                if self.body.len() == length {
                    self.parse_state = ParseState::Done;
                }
                Ok(data.len())
            },
            ParseState::Done => {
                if data.len() > 0 {
                    return Err(HttpError::InvalidBodyLength);
                }
                Ok(0)
            },
        }
    }
}


/// The most octets that a request may have in all.
pub const MAX_REQUEST_SIZE: usize = 8 * 1024 * 1024;

/// The most octets that may arrive while the header block is read.
pub const MAX_HEADER_SIZE: usize = 32 * 1024;

/// The most octets that one read asks for.
pub const SCRATCH_SIZE: usize = 64;

/// The seconds within which a request must have arrived in full.
pub const READ_REQUEST_TIMEOUT_SECS: u64 = 30;

/// A step consumes no more than it was given.
pub proof fn lemma_step_consumes_within(request: RequestModel, data: Seq<u8>)
    ensures
        0 <= parse_step(request, data).consumed <= data.len(),
{
    match request.state {
        ParseState::Initialized => {
            lemma_find_crlf(data);
        },
        ParseState::ParseHeaders => {
            law_block_stops_at_line_end(request.fields, data);
        },
        ParseState::ParseBody => {},
        ParseState::Done => {},
    }
}

/// What parsing gives when it has gone as far as the octets at hand allow.
pub struct Settled {
    pub request: RequestModel,
    /// The octets that were not consumed.
    pub buffer: Seq<u8>,
    pub failure: Option<Failure>,
}

/// Parses `buffer` as far as it allows: steps are taken as long as each
/// consumes something, the request is not complete and nothing fails.
#[verifier::opaque]
pub open spec fn settle(request: RequestModel, buffer: Seq<u8>) -> Settled
    decreases buffer.len(),
{
    if request.state is Done {
        Settled { request, buffer, failure: None }
    } else {
        let step = parse_step(request, buffer);
        if step.failure is Some {
            Settled { request: step.request, buffer, failure: step.failure }
        } else if 0 < step.consumed <= buffer.len() {
            settle(step.request, buffer.subrange(step.consumed, buffer.len() as int))
        } else {
            Settled { request: step.request, buffer, failure: None }
        }
    }
}

/// The mathematical value of a [`RequestReader`].
pub struct ReaderModel {
    pub request: RequestModel,
    /// The octets that were received and not consumed yet.
    pub buffer: Seq<u8>,
    /// The octets that were received in all.
    pub total: int,
    /// The octets that were received while the header block was read.
    pub header_total: int,
}

/// A reader that has received nothing.
pub open spec fn fresh_reader() -> ReaderModel {
    ReaderModel { request: fresh_request(), buffer: Seq::empty(), total: 0, header_total: 0 }
}

/// `reader` after it has parsed as far as its buffer allows.
pub open spec fn settled_reader(reader: ReaderModel) -> ReaderModel {
    ReaderModel {
        request: settle(reader.request, reader.buffer).request,
        buffer: settle(reader.request, reader.buffer).buffer,
        ..reader
    }
}

/// What a read that returned `chunk` does to `reader`.
///
/// An empty chunk is the end of the stream. Any other is counted and joins
/// the buffer, unless it takes the request or its header block over the size
/// that the server accepts. A refused chunk leaves the reader as it was.
pub open spec fn receive_chunk(reader: ReaderModel, chunk: Seq<u8>) -> Result<
    ReaderModel,
    Failure,
> {
    let header_total = if reader.request.state is ParseHeaders {
        reader.header_total + chunk.len()
    } else {
        reader.header_total
    };
    if chunk.len() == 0 {
        Err(Failure::UnexpectedEOF)
    } else if reader.total + chunk.len() > MAX_REQUEST_SIZE || header_total > MAX_HEADER_SIZE {
        Err(Failure::ContentTooLarge)
    } else {
        Ok(
            ReaderModel {
                request: reader.request,
                buffer: reader.buffer + chunk,
                total: reader.total + chunk.len(),
                header_total,
            },
        )
    }
}

/// What reading a request gives, and how many octets were read for it.
pub struct Run {
    pub outcome: Result<RequestModel, Failure>,
    pub octets: int,
}

/// Reads a request from a stream whose reads return `chunks`, one after the
/// other, and then nothing.
///
/// The reader parses as far as it can. It reads on only while the request is
/// not complete, so what follows a complete request is never asked for.
pub open spec fn run(reader: ReaderModel, chunks: Seq<Seq<u8>>) -> Run
    decreases chunks.len(),
{
    let settled = settle(reader.request, reader.buffer);
    if settled.failure is Some {
        Run { outcome: Err(settled.failure->0), octets: 0 }
    } else if settled.request.state is Done {
        Run { outcome: Ok(settled.request), octets: 0 }
    } else if chunks.len() == 0 {
        Run { outcome: Err(Failure::UnexpectedEOF), octets: 0 }
    } else {
        match receive_chunk(settled_reader(reader), chunks[0]) {
            Err(e) => Run { outcome: Err(e), octets: chunks[0].len() as int },
            Ok(next) => {
                let rest = run(next, chunks.drop_first());
                Run { outcome: rest.outcome, octets: chunks[0].len() + rest.octets }
            },
        }
    }
}

/// The state of reading one request from a stream: the parser, the octets
/// that it has not consumed yet, and the counters that bound the request's
/// size.
///
/// Whoever owns the stream calls [`RequestReader::advance`], reads when
/// that asks for more, and hands what the read returned to
/// [`RequestReader::receive`].
#[derive(Debug)]
pub struct RequestReader {
    request: Request,
    buffer: Vec<u8>,
    total_bytes_read: usize,
    header_bytes_read: usize,
}

impl View for RequestReader {
    type V = ReaderModel;

    closed spec fn view(&self) -> ReaderModel {
        ReaderModel {
            request: self.request@,
            buffer: self.buffer@,
            total: self.total_bytes_read as int,
            header_total: self.header_bytes_read as int,
        }
    }
}

impl RequestReader {
    /// A reader that has received nothing.
    pub fn new() -> (reader: RequestReader)
        ensures
            reader@ == fresh_reader(),
    {
        RequestReader {
            request: Request::new(),
            buffer: Vec::new(),
            total_bytes_read: 0,
            header_bytes_read: 0,
        }
    }

    /// Parses as far as the received octets allow. Returns whether the
    /// request is complete; if it is not, the caller reads on.
    pub fn advance(&mut self) -> (r: Result<bool, HttpError>)
        ensures
            final(self)@ == settled_reader(old(self)@),
            match settle(old(self)@.request, old(self)@.buffer).failure {
                Some(e) => r matches Err(x) && x@ == e,
                None => r matches Ok(done) && done == (settle(
                    old(self)@.request,
                    old(self)@.buffer,
                ).request.state is Done),
            },
    {
        loop
            invariant
                self.total_bytes_read == old(self).total_bytes_read,
                self.header_bytes_read == old(self).header_bytes_read,
                settle(self.request@, self.buffer@) == settle(
                    old(self).request@,
                    old(self).buffer@,
                ),
            decreases self.buffer@.len(),
        {
            proof {
                reveal(settle);
                lemma_step_consumes_within(self.request@, self.buffer@);
            }
            match self.request.parse_state {
                ParseState::Done => {
                    return Ok(true);
                },
                _ => {},
            }
            let parsed: usize = match self.request.parse(self.buffer.as_slice()) {
                Err(e) => {
                    return Err(e);
                },
                Ok(parsed) => parsed,
            };
            if parsed == 0 {
                let done = match self.request.parse_state {
                    ParseState::Done => true,
                    _ => false,
                };
                return Ok(done);
            }
            let rest = self.buffer.split_off(parsed);
            self.buffer = rest;
        }
    }

    /// Takes in what a read returned: `chunk`, which is empty at the end of
    /// the stream.
    pub fn receive(&mut self, chunk: &[u8]) -> (r: Result<(), HttpError>)
        ensures
            match receive_chunk(old(self)@, chunk@) {
                Ok(next) => r is Ok && final(self)@ == next,
                Err(e) => r matches Err(x) && x@ == e && final(self)@ == old(self)@,
            },
    {
        let read: usize = chunk.len();
        if read == 0 {
            return Err(HttpError::UnexpectedEOF);
        }
        let in_headers = match self.request.parse_state {
            ParseState::ParseHeaders => true,
            _ => false,
        };
        if self.total_bytes_read > MAX_REQUEST_SIZE || read > MAX_REQUEST_SIZE
            - self.total_bytes_read {
            return Err(HttpError::ContentTooLarge);
        }
        if in_headers && (self.header_bytes_read > MAX_HEADER_SIZE || read > MAX_HEADER_SIZE
            - self.header_bytes_read) {
            return Err(HttpError::ContentTooLarge);
        }
        if !in_headers && self.header_bytes_read > MAX_HEADER_SIZE {
            return Err(HttpError::ContentTooLarge);
        }
        if in_headers {
            self.header_bytes_read = self.header_bytes_read + read;
        }
        self.total_bytes_read = self.total_bytes_read + read;
        push_bytes(&mut self.buffer, chunk);
        Ok(())
    }

    /// Whether any octet was received.
    pub fn has_received(&self) -> (r: bool)
        ensures
            r == (self@.total > 0),
    {
        self.total_bytes_read > 0
    }

    /// The request as far as it was parsed.
    pub fn into_request(self) -> (request: Request)
        ensures
            request@ == self@.request,
    {
        self.request
    }
}


/// How many octets a read returns: what is pending, but no more than the
/// stream gives at once, nor than the read asks for.
pub open spec fn chunk_size(pending: int, stride: int, limit: int) -> int {
    if pending <= stride && pending <= limit {
        pending
    } else if stride <= limit {
        stride
    } else {
        limit
    }
}

/// The chunks in which `pending` arrives when the stream gives `stride`
/// octets at once and each read asks for `limit`.
pub open spec fn reads(pending: Seq<u8>, stride: int, limit: int) -> Seq<Seq<u8>>
    decreases pending.len(),
{
    if pending.len() == 0 || stride <= 0 || limit <= 0 {
        Seq::empty()
    } else {
        seq![pending.take(chunk_size(pending.len() as int, stride, limit))] + reads(
            pending.skip(chunk_size(pending.len() as int, stride, limit)),
            stride,
            limit,
        )
    }
}

/// A stream held in memory, which gives its octets a few at a time.
#[derive(Debug)]
pub struct ChunkReader {
    data: Vec<u8>,
    num_bytes_per_read: usize,
    pos: usize,
}

impl ChunkReader {
    /// The octets that were not read yet.
    pub closed spec fn pending(&self) -> Seq<u8> {
        if self.pos <= self.data@.len() {
            self.data@.skip(self.pos as int)
        } else {
            Seq::empty()
        }
    }

    /// The most octets that one read returns.
    pub closed spec fn stride(&self) -> int {
        if self.num_bytes_per_read == 0 {
            1
        } else {
            self.num_bytes_per_read as int
        }
    }

    /// A stream of the octets of `data`, of which a read returns
    /// `num_bytes_per_read` at most, and one where that is 0.
    pub fn new(data: &str, num_bytes_per_read: usize) -> (reader: ChunkReader)
        ensures
            reader.pending() == encode_utf8(data@),
            reader.stride() == if num_bytes_per_read == 0 {
                1
            } else {
                num_bytes_per_read as int
            },
    {
        let mut octets: Vec<u8> = Vec::new();
        push_bytes(&mut octets, data.as_bytes());
        let reader = ChunkReader { data: octets, num_bytes_per_read, pos: 0 };
        assert(reader.pending() =~= encode_utf8(data@));
        reader
    }

    /// Reads up to `limit` octets: none at the end of the stream.
    pub fn read(&mut self, limit: usize) -> (chunk: Vec<u8>)
        ensures
            chunk@ == old(self).pending().take(
                chunk_size(old(self).pending().len() as int, old(self).stride(), limit as int),
            ),
            final(self).pending() == old(self).pending().skip(chunk@.len() as int),
            final(self).stride() == old(self).stride(),
    {
        let mut chunk: Vec<u8> = Vec::new();
        if self.pos >= self.data.len() {
            assert(chunk@ =~= old(self).pending().take(0));
            assert(final(self).pending() =~= old(self).pending().skip(0));
            return chunk;
        }
        let pending: usize = self.data.len() - self.pos;
        let stride: usize = if self.num_bytes_per_read == 0 {
            1
        } else {
            self.num_bytes_per_read
        };
        let size: usize = if pending <= stride && pending <= limit {
            pending
        } else if stride <= limit {
            stride
        } else {
            limit
        };
        push_bytes(&mut chunk, vstd::slice::slice_subrange(self.data.as_slice(), self.pos, self.pos + size));
        self.pos = self.pos + size;
        assert(chunk@ =~= old(self).pending().take(size as int));
        assert(final(self).pending() =~= old(self).pending().skip(size as int));
        chunk
    }
}

/// `run` with `by` more octets counted as read.
pub open spec fn run_after(run: Run, by: int) -> Run {
    Run { outcome: run.outcome, octets: run.octets + by }
}

/// Reads one request from `reader`, asking for [`SCRATCH_SIZE`] octets at a
/// time.
///
/// Returns the request once it is complete, and leaves in the reader what
/// follows it and was not read. Fails as the parser fails, with
/// `UnexpectedEOF` where the stream ends before the request is complete, and
/// with `ContentTooLarge` where the request or its header block is larger
/// than the server accepts.
pub fn request_from_reader(reader: &mut ChunkReader) -> (r: Result<Request, HttpError>)
    ensures
        match run(
            fresh_reader(),
            reads(old(reader).pending(), old(reader).stride(), SCRATCH_SIZE as int),
        ).outcome {
            Ok(request) => r matches Ok(parsed) && parsed@ == request,
            Err(e) => r matches Err(x) && x@ == e,
        },
        final(reader).pending() == old(reader).pending().skip(
            run(
                fresh_reader(),
                reads(old(reader).pending(), old(reader).stride(), SCRATCH_SIZE as int),
            ).octets,
        ),
        final(reader).stride() == old(reader).stride(),
        r matches Ok(parsed) ==> parsed.headers.wf(),
{
    proof {
        if run(
            fresh_reader(),
            reads(old(reader).pending(), old(reader).stride(), SCRATCH_SIZE as int),
        ).outcome is Ok {
            law_read_request_is_sound(
                reads(old(reader).pending(), old(reader).stride(), SCRATCH_SIZE as int),
            );
        }
    }
    let ghost whole = run(
        fresh_reader(),
        reads(old(reader).pending(), old(reader).stride(), SCRATCH_SIZE as int),
    );
    let ghost mut octets: int = 0;
    let mut machine = RequestReader::new();
    assert(old(reader).pending().skip(0) =~= old(reader).pending());
    loop
        invariant
            reader.stride() == old(reader).stride(),
            0 <= octets <= old(reader).pending().len(),
            reader.pending() == old(reader).pending().skip(octets),
            whole == run(
                fresh_reader(),
                reads(old(reader).pending(), old(reader).stride(), SCRATCH_SIZE as int),
            ),
            whole == run_after(
                run(machine@, reads(reader.pending(), reader.stride(), SCRATCH_SIZE as int)),
                octets,
            ),
            whole.outcome matches Ok(request) ==> names_distinct(request.fields),
        decreases reader.pending().len(),
    {
        let ghost before = machine@;
        let ghost chunks = reads(reader.pending(), reader.stride(), SCRATCH_SIZE as int);
        match machine.advance() {
            Err(e) => {
                return Err(e);
            },
            Ok(true) => {
                return Ok(machine.into_request());
            },
            Ok(false) => {},
        }
        let ghost pending = reader.pending();
        let chunk = reader.read(SCRATCH_SIZE);
        proof {
            if pending.len() > 0 {
                assert(chunks[0] == chunk@);
                assert(chunks.drop_first() =~= reads(
                    reader.pending(),
                    reader.stride(),
                    SCRATCH_SIZE as int,
                ));
            } else {
                assert(chunks.len() == 0);
            }
        }
        match machine.receive(chunk.as_slice()) {
            Err(e) => {
                return Err(e);
            },
            Ok(()) => {},
        }
        proof {
            assert(old(reader).pending().skip(octets).skip(chunk@.len() as int) =~= old(
                reader,
            ).pending().skip(octets + chunk@.len()));
            octets = octets + chunk@.len();
        }
    }
}

} // verus!
