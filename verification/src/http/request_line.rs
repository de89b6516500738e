use crate::bytes::{find_crlf, first_crlf, lemma_find_crlf, CRLF_LEN};
use crate::encoding::{
    decode_lossy, from_chars, lemma_ascii_octet_splits, str_eq, text_of, to_chars,
};
use crate::http::request::{Failure, HttpError};
use crate::text::{first_index_of, lemma_first_index_of};
use vstd::prelude::*;
use vstd::slice::slice_subrange;
use vstd::utf8::{decode_utf8, encode_utf8, encode_utf8_decode_utf8, encode_utf8_valid_utf8};

verus! {

/// The first line of a request: `METHOD SP target SP HTTP/version`.
#[derive(Debug)]
pub struct RequestLine {
    /// The method, one of the nine that the server accepts.
    pub method: String,
    /// What the request is aimed at, as it was sent.
    pub request_target: String,
    /// The protocol version: what follows `HTTP/`.
    pub http_version: String,
}

/// The mathematical value of a [`RequestLine`].
pub struct RequestLineText {
    pub method: Seq<char>,
    pub request_target: Seq<char>,
    pub http_version: Seq<char>,
}

impl View for RequestLine {
    type V = RequestLineText;

    open spec fn view(&self) -> RequestLineText {
        RequestLineText {
            method: self.method@,
            request_target: self.request_target@,
            http_version: self.http_version@,
        }
    }
}

/// Whether `method` is one of the nine methods that the server accepts,
/// spelled in upper case.
pub open spec fn known_method(method: Seq<char>) -> bool {
    method == "GET"@ || method == "POST"@ || method == "PATCH"@ || method == "PUT"@ || method
        == "DELETE"@ || method == "HEAD"@ || method == "OPTIONS"@ || method == "CONNECT"@
        || method == "TRACE"@
}

/// What every version part starts with.
pub open spec fn version_prefix() -> Seq<char> {
    seq!['H', 'T', 'T', 'P', '/']
}

/// Where the two spaces of a request line stand, if it has exactly two:
/// the line is then three parts with one space between each two.
pub open spec fn line_spaces(line: Seq<char>) -> Option<(int, int)> {
    let first = first_index_of(line, ' ');
    let behind = line.subrange(first + 1, line.len() as int);
    let second = first_index_of(behind, ' ');
    let last = behind.subrange(second + 1, behind.len() as int);
    if first >= line.len() || second >= behind.len() || first_index_of(last, ' ') < last.len() {
        None
    } else {
        Some((first, first + 1 + second))
    }
}

/// The request line that `line` holds, or why it is refused.
///
/// The line must be three parts with one space between each two: fewer or
/// more spaces are refused, and so is a tab in place of a space. The third
/// part must start with `HTTP/`. Only then is the method looked at.
pub open spec fn request_line_of(line: Seq<char>) -> Result<RequestLineText, Failure> {
    match line_spaces(line) {
        None => Err(Failure::MalformedRequestLine),
        Some(spaces) => {
            let method = line.subrange(0, spaces.0);
            let last = line.subrange(spaces.1 + 1, line.len() as int);
            if !(last.len() >= 5 && last.subrange(0, 5) == version_prefix()) {
                Err(Failure::MalformedRequestLine)
            } else if !known_method(method) {
                Err(Failure::InvalidMethod(method))
            } else {
                Ok(
                    RequestLineText {
                        method,
                        request_target: line.subrange(spaces.0 + 1, spaces.1),
                        http_version: last.subrange(5, last.len() as int),
                    },
                )
            }
        },
    }
}

/// What reading a request line from the start of `data` gives: nothing
/// while no line is complete, else the line and the octets that it takes
/// with its terminator, or why the line is refused.
pub open spec fn request_line_parse(data: Seq<u8>) -> Result<
    Option<(RequestLineText, int)>,
    Failure,
> {
    match find_crlf(data) {
        None => Ok(None),
        Some(end) => match request_line_of(text_of(data.subrange(0, end))) {
            Ok(line) => Ok(Some((line, end + 2))),
            Err(e) => Err(e),
        },
    }
}

/// The index of the first space in `chars[from..]`, or the length.
fn next_space(chars: &[char], from: usize) -> (at: usize)
    requires
        from <= chars@.len(),
    ensures
        from <= at <= chars@.len(),
        at - from == first_index_of(chars@.subrange(from as int, chars@.len() as int), ' '),
{
    let ghost s = chars@.subrange(from as int, chars@.len() as int);
    let mut at: usize = from;
    while at < chars.len() && chars[at] != ' '
        invariant
            from <= at <= chars@.len(),
            s == chars@.subrange(from as int, chars@.len() as int),
            forall|j: int| 0 <= j < at - from ==> s[j] != ' ',
        decreases chars@.len() - at,
    {
        at += 1;
    }
    proof {
        lemma_first_index_of(s, ' ', at - from);
    }
    at
}

/// Whether `method` is one of the nine accepted methods.
fn is_known_method(method: &str) -> (r: bool)
    ensures
        r == known_method(method@),
{
    str_eq(method, "GET") || str_eq(method, "POST") || str_eq(method, "PATCH") || str_eq(
        method,
        "PUT",
    ) || str_eq(method, "DELETE") || str_eq(method, "HEAD") || str_eq(method, "OPTIONS")
        || str_eq(method, "CONNECT") || str_eq(method, "TRACE")
}

/// Finds the two spaces of a request line.
fn find_spaces(chars: &[char]) -> (r: Option<(usize, usize)>)
    ensures
        match r {
            Some(spaces) => line_spaces(chars@) == Some((spaces.0 as int, spaces.1 as int))
                && spaces.0 < spaces.1 < chars@.len(),
            None => line_spaces(chars@) is None,
        },
{
    let n: usize = chars.len();
    let ghost line = chars@;
    assert(line.subrange(0, n as int) =~= line);
    let first = next_space(chars, 0);
    if first >= n {
        return None;
    }
    let ghost behind = line.subrange(first + 1, n as int);
    let second = next_space(chars, first + 1);
    if second >= n {
        return None;
    }
    assert(behind.subrange(second - first, behind.len() as int) =~= line.subrange(
        second as int + 1,
        n as int,
    ));
    let third = next_space(chars, second + 1);
    if third < n {
        return None;
    }
    Some((first, second))
}

/// Whether `chars[from..]` starts with `HTTP/`.
fn has_version_prefix(chars: &[char], from: usize) -> (r: bool)
    requires
        from <= chars@.len(),
    ensures
        r == (chars@.len() - from >= 5 && chars@.subrange(from as int, chars@.len() as int).subrange(
            0,
            5,
        ) == version_prefix()),
{
    let n: usize = chars.len();
    let ghost last = chars@.subrange(from as int, n as int);
    if n - from < 5 {
        return false;
    }
    let r = chars[from] == 'H' && chars[from + 1] == 'T' && chars[from + 2] == 'T' && chars[from
        + 3] == 'P' && chars[from + 4] == '/';
    proof {
        let p = last.subrange(0, 5);
        assert(p[0] == last[0] && p[1] == last[1] && p[2] == last[2] && p[3] == last[3] && p[4]
            == last[4]);
        if r {
            assert(p =~= version_prefix());
        }
    }
    r
}

/// Parses one request line, without its line terminator.
pub fn parse_request_line_text(line: &str) -> (r: Result<RequestLine, HttpError>)
    ensures
        match request_line_of(line@) {
            Ok(text) => r matches Ok(l) && l@ == text,
            Err(e) => r matches Err(x) && x@ == e,
        },
{
    let chars = to_chars(line);
    let n: usize = chars.len();
    let (first, second) = match find_spaces(chars.as_slice()) {
        None => {
            return Err(HttpError::MalformedRequestLine);
        },
        Some(spaces) => spaces,
    };
    if !has_version_prefix(chars.as_slice(), second + 1) {
        return Err(HttpError::MalformedRequestLine);
    }
    let method = from_chars(chars.as_slice(), 0, first);
    if !is_known_method(method.as_str()) {
        return Err(HttpError::InvalidMethod(method));
    }
    let request_target = from_chars(chars.as_slice(), first + 1, second);
    let http_version = from_chars(chars.as_slice(), second + 6, n);
    assert(http_version@ =~= line@.subrange(second as int + 1, n as int).subrange(
        5,
        n - second - 1,
    ));
    Ok(RequestLine { method, request_target, http_version })
}

/// Reads a request line from the start of `data`.
///
/// Returns no line and 0 while `data` holds no `\r\n`: the caller reads
/// on. Else returns the line that ends there, and its length with the
/// terminator.
pub fn parse_request_line_bytes(data: &[u8]) -> (r: Result<(Option<RequestLine>, usize), HttpError>)
    ensures
        match request_line_parse(data@) {
            Ok(None) => r matches Ok(v) && v.0 is None && v.1 == 0,
            Ok(Some(found)) => r matches Ok(v) && v.0 matches Some(l) && l@ == found.0 && v.1
                == found.1,
            Err(e) => r matches Err(x) && x@ == e,
        },
{
    let n: usize = data.len();
    match first_crlf(data) {
        None => Ok((None, 0)),
        Some(end) => {
            proof {
                lemma_find_crlf(data@);
                assert(end + 2 <= n);
            }
            let text = decode_lossy(slice_subrange(data, 0, end));
            match parse_request_line_text(text.as_str()) {
                Ok(line) => Ok((Some(line), end + CRLF_LEN)),
                Err(e) => Err(e),
            }
        },
    }
}

/// Reads a request line from the start of `request`.
///
/// Returns no line and 0 while `request` holds no `\r\n`. Else returns the
/// line that ends there, and its length in octets with the terminator.
pub fn parse_request_line(request: &str) -> (r: Result<(Option<RequestLine>, usize), HttpError>)
    ensures
        match request_line_parse(encode_utf8(request@)) {
            Ok(None) => r matches Ok(v) && v.0 is None && v.1 == 0,
            Ok(Some(found)) => r matches Ok(v) && v.0 matches Some(l) && l@ == found.0 && v.1
                == found.1,
            Err(e) => r matches Err(x) && x@ == e,
        },
{
    parse_request_line_bytes(request.as_bytes())
}

/// From a request that is text, the line is read as it stands: the line
/// that is parsed, its terminator, and what is left behind it make up the
/// request.
pub proof fn law_line_of_text_is_its_start(request: Seq<char>)
    ensures
        find_crlf(encode_utf8(request)) matches Some(end) ==> request == text_of(
            encode_utf8(request).subrange(0, end),
        ) + seq!['\r', '\n'] + text_of(
            encode_utf8(request).subrange(end + 2, encode_utf8(request).len() as int),
        ),
{
    let octets = encode_utf8(request);
    lemma_find_crlf(octets);
    if let Some(end) = find_crlf(octets) {
        encode_utf8_valid_utf8(request);
        encode_utf8_decode_utf8(request);
        let line = octets.subrange(0, end);
        let behind = octets.subrange(end + 1, octets.len() as int);
        let left = octets.subrange(end + 2, octets.len() as int);
        lemma_ascii_octet_splits(octets, end);
        lemma_ascii_octet_splits(behind, 0);
        assert(behind.subrange(0, 0) =~= Seq::<u8>::empty());
        assert(behind.subrange(1, behind.len() as int) =~= left);
        assert(decode_utf8(Seq::<u8>::empty()) =~= Seq::<char>::empty());
        assert(13u8 as char == '\r' && 10u8 as char == '\n');
        assert(request =~= decode_utf8(line) + seq!['\r', '\n'] + decode_utf8(left));
    }
}

} // verus!
