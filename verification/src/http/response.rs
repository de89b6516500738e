use crate::encoding::{
    lemma_encode_concat, lowercase_text, push_bytes, push_str_bytes, to_lowercase,
};
use crate::http::headers::Headers;
use crate::http::request::HttpError;
use crate::numeric::{decimal_digits, decimal_string, push_upper_hex, upper_hex_digits};
use vstd::prelude::*;
use vstd::utf8::encode_utf8;

verus! {

/// The status codes that the server answers with.
#[derive(Clone, Copy, Debug, PartialEq, Eq, Structural)]
pub enum StatusCode {
    /// 200: the request succeeded.
    Okay,
    /// 201: the request created something.
    Created,
    /// 400: the request is not acceptable.
    BadRequest,
    /// 404: nothing is found at the target.
    NotFound,
    /// 408: the request did not arrive in time.
    RequestTimeout,
    /// 500: the server failed.
    InternalServerError,
    /// 504: the answer was not ready in time.
    GatewayTimeout,
}

impl StatusCode {
    /// The number of the status.
    pub open spec fn number(self) -> nat {
        match self {
            StatusCode::Okay => 200,
            StatusCode::Created => 201,
            StatusCode::BadRequest => 400,
            StatusCode::NotFound => 404,
            StatusCode::RequestTimeout => 408,
            StatusCode::InternalServerError => 500,
            StatusCode::GatewayTimeout => 504,
        }
    }

    /// The reason phrase of the status.
    pub open spec fn reason(self) -> Seq<char> {
        match self {
            StatusCode::Okay => "OK"@,
            StatusCode::Created => "Created"@,
            StatusCode::BadRequest => "Bad Request"@,
            StatusCode::NotFound => "Not Found"@,
            StatusCode::RequestTimeout => "Request Timeout"@,
            StatusCode::InternalServerError => "Internal Server Error"@,
            StatusCode::GatewayTimeout => "Gateway Timeout"@,
        }
    }

    /// The number of the status.
    #[must_use]
    pub fn code(&self) -> (code: u16)
        ensures
            code == self.number(),
    {
        match self {
            StatusCode::Okay => 200,
            StatusCode::Created => 201,
            StatusCode::BadRequest => 400,
            StatusCode::NotFound => 404,
            StatusCode::RequestTimeout => 408,
            StatusCode::InternalServerError => 500,
            StatusCode::GatewayTimeout => 504,
        }
    }

    /// The reason phrase of the status.
    #[must_use]
    pub fn reason_phrase(&self) -> (phrase: &'static str)
        ensures
            phrase@ == self.reason(),
    {
        match self {
            StatusCode::Okay => "OK",
            StatusCode::Created => "Created",
            StatusCode::BadRequest => "Bad Request",
            StatusCode::NotFound => "Not Found",
            StatusCode::RequestTimeout => "Request Timeout",
            StatusCode::InternalServerError => "Internal Server Error",
            StatusCode::GatewayTimeout => "Gateway Timeout",
        }
    }
}

/// A response that is emitted as a whole.
#[derive(Debug)]
pub struct Response {
    /// The status of the response.
    pub status: StatusCode,
    /// The header fields of the response.
    pub headers: Headers,
    /// The body; `content-length` announces its length.
    pub body: Vec<u8>,
}

/// The status line for `status`: `HTTP/1.1 <number> <reason>\r\n`.
pub open spec fn status_line_text(status: StatusCode) -> Seq<char> {
    "HTTP/1.1 "@ + decimal_digits(status.number()) + " "@ + status.reason() + "\r\n"@
}

/// One header line: `name: value\r\n`.
pub open spec fn header_line_text(field: (Seq<char>, Seq<char>)) -> Seq<char> {
    field.0 + ": "@ + field.1 + "\r\n"@
}

/// The header lines of `fields`, in their order.
pub open spec fn header_lines_text(fields: Seq<(Seq<char>, Seq<char>)>) -> Seq<char>
    decreases fields.len(),
{
    if fields.len() == 0 {
        Seq::empty()
    } else {
        header_lines_text(fields.drop_last()) + header_line_text(fields.last())
    }
}

/// The header block of `fields`: their lines, then the blank line.
pub open spec fn header_block_text(fields: Seq<(Seq<char>, Seq<char>)>) -> Seq<char> {
    header_lines_text(fields) + "\r\n"@
}

/// `fields` with every name and every value in lower case.
pub open spec fn lowered(fields: Seq<(Seq<char>, Seq<char>)>) -> Seq<(Seq<char>, Seq<char>)> {
    Seq::new(fields.len(), |i: int| (lowercase_text(fields[i].0), lowercase_text(fields[i].1)))
}

/// One chunk of a chunked body: the length of `data` in upper case
/// hexadecimal, `\r\n`, `data`, `\r\n`.
pub open spec fn chunk_bytes(data: Seq<u8>) -> Seq<u8> {
    encode_utf8(upper_hex_digits(data.len()) + "\r\n"@) + data + encode_utf8("\r\n"@)
}

/// The end of a chunked body: `0\r\n`, then the trailer fields in lower
/// case, if there are any, and the blank line.
pub open spec fn final_chunk_bytes(trailers: Option<Seq<(Seq<char>, Seq<char>)>>) -> Seq<u8> {
    match trailers {
        Some(fields) => encode_utf8("0\r\n"@) + encode_utf8(header_block_text(lowered(fields))),
        None => encode_utf8("0\r\n"@) + encode_utf8("\r\n"@),
    }
}

/// Writes the status line.
pub fn write_status_line(writer: &mut Vec<u8>, status_code: StatusCode) -> (r: Result<
    (),
    HttpError,
>)
    ensures
        r is Ok,
        final(writer)@ == old(writer)@ + encode_utf8(status_line_text(status_code)),
{
    let number = decimal_string(status_code.code() as usize);
    let phrase = status_code.reason_phrase();
    push_str_bytes(writer, "HTTP/1.1 ");
    push_str_bytes(writer, number.as_str());
    push_str_bytes(writer, " ");
    push_str_bytes(writer, phrase);
    push_str_bytes(writer, "\r\n");
    proof {
        let a = "HTTP/1.1 "@;
        let b = number@;
        let c = " "@;
        let d = phrase@;
        let e = "\r\n"@;
        lemma_encode_concat(a, b);
        lemma_encode_concat(a + b, c);
        lemma_encode_concat(a + b + c, d);
        lemma_encode_concat(a + b + c + d, e);
        assert(final(writer)@ =~= old(writer)@ + encode_utf8(a + b + c + d + e));
    }
    Ok(())
}

/// Appends one header line to `writer`.
fn write_header_line(writer: &mut Vec<u8>, name: &str, value: &str)
    ensures
        final(writer)@ == old(writer)@ + encode_utf8(header_line_text((name@, value@))),
{
    push_str_bytes(writer, name);
    push_str_bytes(writer, ": ");
    push_str_bytes(writer, value);
    push_str_bytes(writer, "\r\n");
    proof {
        let a = name@;
        let b = ": "@;
        let c = value@;
        let d = "\r\n"@;
        lemma_encode_concat(a, b);
        lemma_encode_concat(a + b, c);
        lemma_encode_concat(a + b + c, d);
        assert(final(writer)@ =~= old(writer)@ + encode_utf8(a + b + c + d));
    }
}

/// Writes the header block: a line for each field, in the order of
/// emission and with the names as they are stored, then the blank line.
pub fn write_headers(writer: &mut Vec<u8>, headers: &mut Headers) -> (r: Result<(), HttpError>)
    ensures
        r is Ok,
        *final(headers) == *old(headers),
        final(writer)@ == old(writer)@ + encode_utf8(header_block_text(old(headers).fields())),
{
    let pairs = headers.iter();
    let ghost fields = headers.fields();
    let mut i: usize = 0;
    while i < pairs.len()
        invariant
            i <= pairs@.len() == fields.len(),
            fields == headers.fields(),
            *headers == *old(headers),
            forall|j: int|
                0 <= j < pairs@.len() ==> (#[trigger] pairs@[j]).0@ == fields[j].0 && pairs@[j].1@
                    == fields[j].1,
            writer@ == old(writer)@ + encode_utf8(header_lines_text(fields.take(i as int))),
        decreases pairs@.len() - i,
    {
        let pair = pairs[i];
        write_header_line(writer, pair.0, pair.1);
        i += 1;
        proof {
            let before = fields.take(i as int - 1);
            let upto = fields.take(i as int);
            assert(upto.drop_last() =~= before);
            assert(upto.last() == (pair.0@, pair.1@));
            lemma_encode_concat(header_lines_text(before), header_line_text(upto.last()));
            assert(writer@ =~= old(writer)@ + encode_utf8(header_lines_text(upto)));
        }
    }
    push_str_bytes(writer, "\r\n");
    proof {
        assert(fields.take(fields.len() as int) =~= fields);
        lemma_encode_concat(header_lines_text(fields), "\r\n"@);
        assert(final(writer)@ =~= old(writer)@ + encode_utf8(header_block_text(fields)));
    }
    Ok(())
}

/// Writes one chunk of a chunked body.
pub fn write_chunked_body(writer: &mut Vec<u8>, data: &[u8]) -> (r: Result<(), HttpError>)
    ensures
        r is Ok,
        final(writer)@ == old(writer)@ + chunk_bytes(data@),
{
    let mut size = String::new();
    push_upper_hex(&mut size, data.len());
    size.push('\r');
    size.push('\n');
    proof {
        reveal_strlit("\r\n");
        assert(size@ =~= upper_hex_digits(data@.len()) + "\r\n"@);
    }
    push_str_bytes(writer, size.as_str());
    push_bytes(writer, data);
    push_str_bytes(writer, "\r\n");
    assert(final(writer)@ =~= old(writer)@ + chunk_bytes(data@));
    Ok(())
}

/// Writes the trailer block: a line for each field with its name and its
/// value in lower case, then the blank line.
pub fn write_trailers(writer: &mut Vec<u8>, headers: &Headers) -> (r: Result<(), HttpError>)
    ensures
        r is Ok,
        final(writer)@ == old(writer)@ + encode_utf8(
            header_block_text(lowered(headers.fields())),
        ),
{
    let pairs = headers.iter();
    let ghost fields = lowered(headers.fields());
    let mut i: usize = 0;
    while i < pairs.len()
        invariant
            i <= pairs@.len() == fields.len(),
            fields == lowered(headers.fields()),
            forall|j: int|
                0 <= j < pairs@.len() ==> (#[trigger] pairs@[j]).0@ == headers.fields()[j].0
                    && pairs@[j].1@ == headers.fields()[j].1,
            writer@ == old(writer)@ + encode_utf8(header_lines_text(fields.take(i as int))),
        decreases pairs@.len() - i,
    {
        let pair = pairs[i];
        let name = to_lowercase(pair.0);
        let value = to_lowercase(pair.1);
        write_header_line(writer, name.as_str(), value.as_str());
        i += 1;
        proof {
            let before = fields.take(i as int - 1);
            let upto = fields.take(i as int);
            assert(upto.drop_last() =~= before);
            assert(upto.last() == (name@, value@));
            lemma_encode_concat(header_lines_text(before), header_line_text(upto.last()));
            assert(writer@ =~= old(writer)@ + encode_utf8(header_lines_text(upto)));
        }
    }
    push_str_bytes(writer, "\r\n");
    proof {
        assert(fields.take(fields.len() as int) =~= fields);
        lemma_encode_concat(header_lines_text(fields), "\r\n"@);
        assert(final(writer)@ =~= old(writer)@ + encode_utf8(header_block_text(fields)));
    }
    Ok(())
}

/// Writes the end of a chunked body, with the trailer fields if there are
/// any.
pub fn write_final_body_chunk(writer: &mut Vec<u8>, trailers: Option<Headers>) -> (r: Result<
    (),
    HttpError,
>)
    ensures
        r is Ok,
        final(writer)@ == old(writer)@ + final_chunk_bytes(
            match trailers {
                Some(fields) => Some(fields.fields()),
                None => None,
            },
        ),
{
    push_str_bytes(writer, "0\r\n");
    match trailers {
        Some(fields) => {
            let _ = write_trailers(writer, &fields);
            assert(final(writer)@ =~= old(writer)@ + final_chunk_bytes(Some(fields.fields())));
        },
        None => {
            push_str_bytes(writer, "\r\n");
            assert(final(writer)@ =~= old(writer)@ + final_chunk_bytes(None));
        },
    }
    Ok(())
}

/// The fields of a response that carries `length` octets of HTML.
pub open spec fn html_fields(length: nat) -> Seq<(Seq<char>, Seq<char>)> {
    seq![("content-type"@, "text/html"@), ("content-length"@, decimal_digits(length))]
}

/// A response with the body `html`, announced as `text/html` and with its
/// length in octets.
#[must_use]
pub fn html_response(status: StatusCode, html: &str) -> (response: Response)
    ensures
        response.status == status,
        response.headers.fields() == html_fields(encode_utf8(html@).len()),
        response.headers.wf(),
        response.body@ == encode_utf8(html@),
{
    let mut headers = Headers::new();
    headers.insert("content-type", "text/html");
    let octets = html.as_bytes();
    let length = decimal_string(octets.len());
    headers.insert("content-length", length.as_str());
    let mut body: Vec<u8> = Vec::new();
    push_bytes(&mut body, octets);
    proof {
        reveal_strlit("content-type");
        reveal_strlit("content-length");
        let none = Seq::<(Seq<char>, Seq<char>)>::empty();
        let one = seq![("content-type"@, "text/html"@)];
        assert(!crate::http::headers::has_name(none, "content-type"@));
        assert(crate::http::headers::put(none, "content-type"@, "text/html"@) =~= one);
        assert("content-type"@.len() != "content-length"@.len());
        assert(!crate::http::headers::has_name(one, "content-length"@)) by {
            if crate::http::headers::has_name(one, "content-length"@) {
                let i = choose|i: int| crate::http::headers::name_at(one, "content-length"@, i);
                assert(one[i].0 == "content-type"@);
            }
        }
        let two = crate::http::headers::put(one, "content-length"@, length@);
        assert(two =~= one.push(("content-length"@, length@)));
        assert(two =~= html_fields(encode_utf8(html@).len()));
    }
    Response { status, headers, body }
}


/// A chunked body without trailer fields ends in exactly `0\r\n\r\n`.
pub proof fn law_final_chunk_without_trailers()
    ensures
        final_chunk_bytes(None) == seq![48u8, 13u8, 10u8, 13u8, 10u8],
        final_chunk_bytes(None) == encode_utf8("0\r\n\r\n"@),
{
    reveal_strlit("0\r\n");
    reveal_strlit("\r\n");
    reveal_strlit("0\r\n\r\n");
    let zero = "0\r\n"@;
    let blank = "\r\n"@;
    let both = "0\r\n\r\n"@;
    assert(vstd::utf8::is_ascii_chars(zero));
    assert(vstd::utf8::is_ascii_chars(blank));
    vstd::utf8::is_ascii_chars_encode_utf8(zero);
    vstd::utf8::is_ascii_chars_encode_utf8(blank);
    assert(both =~= zero + blank);
    lemma_encode_concat(zero, blank);
    assert(final_chunk_bytes(None) =~= seq![48u8, 13u8, 10u8, 13u8, 10u8]);
}

} // verus!
