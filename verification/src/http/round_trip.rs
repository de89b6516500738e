//! What the emitter writes, the parser reads back.
use crate::bytes::{crlf_at, find_crlf, lemma_find_crlf_is};
use crate::encoding::{lemma_encode_concat, text_of};
use crate::http::headers::{
    advanced, field_of_line, has_name, name_at, names_distinct, parse_block, put_joined, value_of,
    with_line, BlockParse, BlockStatus,
};
use crate::http::request::Failure;
use crate::http::response::{
    header_block_text, header_line_text, header_lines_text, html_fields, status_line_text,
    StatusCode,
};
use crate::numeric::{decimal_digits, decimal_value, digits_value, is_digits, unsigned_part};
use crate::runtime::connection::response_bytes;
use crate::text::{
    ascii_lower, has_no_upper, is_token, is_token_char, is_whitespace, lemma_first_index_of, trim,
    trim_start,
};
use vstd::prelude::*;
use vstd::utf8::{
    encode_utf8, encode_utf8_decode_utf8, encode_utf8_valid_utf8, is_ascii_chars,
    is_ascii_chars_encode_utf8,
};

verus! {

/// Whether `s` holds no carriage return.
pub open spec fn has_no_cr(s: Seq<char>) -> bool {
    forall|i: int| 0 <= i < s.len() ==> #[trigger] s[i] != '\r'
}

/// Whether `s` is not empty and has no whitespace at either end.
pub open spec fn is_trimmed(s: Seq<char>) -> bool {
    s.len() > 0 && !is_whitespace(s[0]) && !is_whitespace(s.last())
}

/// The two characters between a name and its value.
pub open spec fn colon_space() -> Seq<char> {
    seq![':', ' ']
}

/// The two octets that end a line.
pub open spec fn crlf() -> Seq<u8> {
    seq![13u8, 10u8]
}

/// Text that is trimmed is what trimming it gives.
pub proof fn lemma_trim_of_trimmed(s: Seq<char>)
    requires
        is_trimmed(s),
    ensures
        trim(s) == s,
{
}

/// The octets that encode `s` are the text `s`.
pub proof fn lemma_text_of_encoded(s: Seq<char>)
    ensures
        text_of(encode_utf8(s)) == s,
{
    encode_utf8_valid_utf8(s);
    encode_utf8_decode_utf8(s);
}

/// A line of ASCII text without a carriage return, encoded and ended, is
/// the first line of what it stands at the start of.
pub proof fn lemma_line_is_framed(line: Seq<char>, rest: Seq<u8>)
    requires
        is_ascii_chars(line),
        has_no_cr(line),
    ensures
        encode_utf8(line).len() == line.len(),
        find_crlf(encode_utf8(line) + crlf() + rest) == Some(line.len() as int),
        (encode_utf8(line) + crlf() + rest).subrange(0, line.len() as int) == encode_utf8(line),
        (encode_utf8(line) + crlf() + rest).subrange(
            line.len() as int + 2,
            (encode_utf8(line) + crlf() + rest).len() as int,
        ) == rest,
{
    let octets = encode_utf8(line);
    let data = octets + crlf() + rest;
    let n = line.len() as int;
    is_ascii_chars_encode_utf8(line);
    assert(data[n] == 13u8 && data[n + 1] == 10u8);
    assert(crlf_at(data, n));
    assert forall|j: int| 0 <= j < n implies !crlf_at(data, j) by {
        assert(data[j] == octets[j]);
        assert(line[j] as u8 == octets[j]);
        assert(line[j] != '\r');
        assert('\0' <= line[j] <= '\u{7f}');
    }
    lemma_find_crlf_is(data, n);
    assert(data.subrange(0, n) =~= octets);
    assert(data.subrange(n + 2, data.len() as int) =~= rest);
}

/// A header line that was written from a field reads back as that field,
/// where the name is a token without upper case letters and the value is
/// trimmed.
pub proof fn lemma_field_reads_back(name: Seq<char>, value: Seq<char>)
    requires
        is_token(name),
        has_no_upper(name),
        is_trimmed(value),
    ensures
        field_of_line(name + colon_space() + value) == Ok::<(Seq<char>, Seq<char>), Failure>(
            (name, value),
        ),
{
    let line = name + colon_space() + value;
    let n = name.len() as int;
    assert(line[n] == ':');
    assert(line.last() == value.last());
    if n > 0 {
        assert(line[0] == name[0]);
        assert(is_token_char(name[0]));
    }
    assert(!is_whitespace(line[0]));
    lemma_trim_of_trimmed(line);
    assert forall|j: int| 0 <= j < n implies line[j] != ':' by {
        assert(line[j] == name[j]);
        assert(is_token_char(name[j]));
    }
    lemma_first_index_of(line, ':', n);
    assert(line.subrange(0, n) =~= name);
    let behind = line.subrange(n + 1, line.len() as int);
    assert(behind[0] == ' ');
    assert(behind.drop_first() =~= value);
    assert(trim_start(behind) == trim_start(value));
    assert(trim(behind) == value);
    assert(ascii_lower(name) =~= name);
    assert(value.len() > 0);
}

/// A header line that was written from a field and stands at the start of
/// some octets is read as that field, and reading goes on behind it.
pub proof fn lemma_block_reads_line(
    fields: Seq<(Seq<char>, Seq<char>)>,
    name: Seq<char>,
    value: Seq<char>,
    rest: Seq<u8>,
)
    requires
        is_token(name),
        has_no_upper(name),
        is_trimmed(value),
        is_ascii_chars(name),
        is_ascii_chars(value),
        has_no_cr(value),
    ensures
        parse_block(fields, encode_utf8(name + colon_space() + value) + crlf() + rest)
            == advanced(
            parse_block(put_joined(fields, name, value), rest),
            (name + colon_space() + value).len() as int + 2,
        ),
{
    reveal(with_line);
    let line = name + colon_space() + value;
    let data = encode_utf8(line) + crlf() + rest;
    assert(is_ascii_chars(line) && has_no_cr(line)) by {
        assert forall|i: int| 0 <= i < line.len() implies '\0' <= #[trigger] line[i] <= '\u{7f}'
            && line[i] != '\r' by {
            if i < name.len() {
                assert(line[i] == name[i]);
                assert(is_token_char(name[i]));
            } else if i >= name.len() + 2 {
                assert(line[i] == value[i - name.len() - 2]);
            }
        }
    }
    lemma_line_is_framed(line, rest);
    lemma_text_of_encoded(line);
    lemma_field_reads_back(name, value);
    assert(line.len() > 0);
}


/// Whether `fields` can go over the wire and come back: every name is a
/// token without upper case letters, and every value is trimmed ASCII text
/// without a carriage return.
pub open spec fn reads_back(fields: Seq<(Seq<char>, Seq<char>)>) -> bool {
    forall|i: int|
        0 <= i < fields.len() ==> is_token((#[trigger] fields[i]).0) && has_no_upper(fields[i].0)
            && is_trimmed(fields[i].1) && is_ascii_chars(fields[i].1) && has_no_cr(fields[i].1)
}

/// What the literals of a header line are.
proof fn lemma_line_literals()
    ensures
        ": "@ == colon_space(),
        encode_utf8("\r\n"@) == crlf(),
        "\r\n"@.len() == 2,
{
    reveal_strlit(": ");
    reveal_strlit("\r\n");
    assert(": "@ =~= colon_space());
    let s = "\r\n"@;
    assert(is_ascii_chars(s));
    is_ascii_chars_encode_utf8(s);
    assert(encode_utf8(s) =~= crlf());
}

/// The lines of some fields are the line of the first, then the lines of
/// the others.
proof fn lemma_lines_from_the_front(fields: Seq<(Seq<char>, Seq<char>)>)
    requires
        fields.len() > 0,
    ensures
        header_lines_text(fields) == header_line_text(fields[0]) + header_lines_text(
            fields.drop_first(),
        ),
    decreases fields.len(),
{
    let others = fields.drop_first();
    if fields.len() == 1 {
        assert(fields.drop_last() =~= Seq::<(Seq<char>, Seq<char>)>::empty());
        assert(others =~= Seq::<(Seq<char>, Seq<char>)>::empty());
        assert(header_lines_text(fields.drop_last()) =~= Seq::<char>::empty());
        assert(header_lines_text(others) =~= Seq::<char>::empty());
        assert(fields.last() == fields[0]);
        assert(header_lines_text(fields) =~= header_line_text(fields[0]));
        assert(header_line_text(fields[0]) + header_lines_text(others) =~= header_line_text(
            fields[0],
        ));
    } else {
        lemma_lines_from_the_front(fields.drop_last());
        assert(fields.drop_last().drop_first() =~= others.drop_last());
        assert(fields.drop_last()[0] == fields[0]);
        assert(others.last() == fields.last());
        assert(header_lines_text(fields) =~= header_line_text(fields[0]) + header_lines_text(
            others,
        ));
    }
}

/// A header block that was written from fields reads back as those
/// fields, behind the fields that were there.
proof fn lemma_block_reads_back_behind(
    done: Seq<(Seq<char>, Seq<char>)>,
    todo: Seq<(Seq<char>, Seq<char>)>,
    rest: Seq<u8>,
)
    requires
        names_distinct(done + todo),
        reads_back(todo),
    ensures
        parse_block(done, encode_utf8(header_block_text(todo)) + rest) == (BlockParse {
            fields: done + todo,
            consumed: encode_utf8(header_block_text(todo)).len() as int,
            status: BlockStatus::Complete,
        }),
    decreases todo.len(),
{
    lemma_line_literals();
    let block = encode_utf8(header_block_text(todo));
    if todo.len() == 0 {
        assert(done + todo =~= done);
        assert(header_block_text(todo) =~= "\r\n"@);
        assert(block + rest =~= crlf() + rest);
        assert(crlf_at(crlf() + rest, 0));
        lemma_find_crlf_is(crlf() + rest, 0);
    } else {
        let name = todo[0].0;
        let value = todo[0].1;
        let others = todo.drop_first();
        let line = name + colon_space() + value;
        lemma_lines_from_the_front(todo);
        assert(header_line_text(todo[0]) =~= line + "\r\n"@);
        assert(header_block_text(todo) =~= (line + "\r\n"@) + header_block_text(others));
        lemma_encode_concat(line + "\r\n"@, header_block_text(others));
        lemma_encode_concat(line, "\r\n"@);
        let behind = encode_utf8(header_block_text(others)) + rest;
        assert(block + rest =~= encode_utf8(line) + crlf() + behind);
        assert(is_ascii_chars(name)) by {
            assert forall|i: int| 0 <= i < name.len() implies '\0' <= #[trigger] name[i]
                <= '\u{7f}' by {
                assert(is_token_char(name[i]));
            }
        }
        lemma_block_reads_line(done, name, value, behind);
        assert(!has_name(done, name)) by {
            if has_name(done, name) {
                let i = choose|i: int| name_at(done, name, i);
                assert((done + todo)[i].0 == (done + todo)[done.len() as int].0);
            }
        }
        let next = done.push((name, value));
        assert(put_joined(done, name, value) == next);
        assert(next + others =~= done + todo);
        assert(reads_back(others)) by {
            assert forall|i: int| 0 <= i < others.len() implies is_token(
                (#[trigger] others[i]).0,
            ) && has_no_upper(others[i].0) && is_trimmed(others[i].1) && is_ascii_chars(
                others[i].1,
            ) && has_no_cr(others[i].1) by {
                assert(others[i] == todo[i + 1]);
            }
        }
        lemma_block_reads_back_behind(next, others, rest);
        assert(is_ascii_chars(line)) by {
            assert forall|i: int| 0 <= i < line.len() implies '\0' <= #[trigger] line[i]
                <= '\u{7f}' by {
                if i < name.len() {
                    assert(line[i] == name[i]);
                } else if i >= name.len() + 2 {
                    assert(line[i] == value[i - name.len() - 2]);
                }
            }
        }
        is_ascii_chars_encode_utf8(line);
        assert(block.len() == line.len() + 2 + encode_utf8(header_block_text(others)).len());
    }
}

/// What the header writer emits, the header parser reads back.
///
/// Let `fields` have distinct names, each a token without upper case
/// letters, and values that are trimmed ASCII text without a carriage
/// return. Then the header block that is written from them, with whatever
/// behind it, is read in full as a complete block that holds those fields, in
/// their order.
pub proof fn law_header_block_reads_back(fields: Seq<(Seq<char>, Seq<char>)>, rest: Seq<u8>)
    requires
        names_distinct(fields),
        reads_back(fields),
    ensures
        parse_block(
            Seq::<(Seq<char>, Seq<char>)>::empty(),
            encode_utf8(header_block_text(fields)) + rest,
        ) == (BlockParse {
            fields,
            consumed: encode_utf8(header_block_text(fields)).len() as int,
            status: BlockStatus::Complete,
        }),
{
    let none = Seq::<(Seq<char>, Seq<char>)>::empty();
    assert(none + fields =~= fields);
    lemma_block_reads_back_behind(none, fields, rest);
}


/// A number written in base 10 is one digit or more, and writes that
/// number.
pub proof fn lemma_decimal_digits(n: nat)
    ensures
        decimal_digits(n).len() > 0,
        is_digits(decimal_digits(n)),
        digits_value(decimal_digits(n)) == n,
    decreases n,
{
    let d = decimal_digits(n);
    if n < 10 {
        assert(d.drop_last() =~= Seq::<char>::empty());
        assert(digits_value(d.drop_last()) == 0);
    } else {
        lemma_decimal_digits(n / 10);
        let front = decimal_digits(n / 10);
        assert(d.drop_last() =~= front);
        assert forall|i: int| 0 <= i < d.len() implies '0' <= #[trigger] d[i] <= '9' by {
            if i < front.len() {
                assert(d[i] == front[i]);
            }
        }
    }
}

/// A number that fits the machine word reads back from what it is written
/// as.
pub proof fn law_decimal_reads_back(n: nat)
    requires
        n <= usize::MAX,
    ensures
        decimal_value(decimal_digits(n)) == Some(n),
{
    lemma_decimal_digits(n);
    let d = decimal_digits(n);
    assert('0' <= d[0] <= '9');
    assert(unsigned_part(d) == d);
}

/// The fields of an HTML response can go over the wire and come back.
proof fn lemma_html_fields_read_back(length: nat)
    ensures
        names_distinct(html_fields(length)),
        reads_back(html_fields(length)),
        value_of(html_fields(length), "content-type"@) == Some("text/html"@),
        value_of(html_fields(length), "content-length"@) == Some(decimal_digits(length)),
{
    let fields = html_fields(length);
    let kind = "content-type"@;
    let html = "text/html"@;
    let size = "content-length"@;
    let digits = decimal_digits(length);
    reveal_strlit("content-type");
    reveal_strlit("text/html");
    reveal_strlit("content-length");
    lemma_decimal_digits(length);
    assert(kind.len() == 12 && size.len() == 14 && html.len() == 9);
    assert(fields[0] == (kind, html) && fields[1] == (size, digits));
    assert(is_token(kind) && has_no_upper(kind)) by {
        assert forall|i: int| 0 <= i < kind.len() implies is_token_char(#[trigger] kind[i]) && !(
        'A' <= kind[i] <= 'Z') by {
            lemma_literal_chars_kind(i);
        }
    }
    assert(is_token(size) && has_no_upper(size)) by {
        assert forall|i: int| 0 <= i < size.len() implies is_token_char(#[trigger] size[i]) && !(
        'A' <= size[i] <= 'Z') by {
            lemma_literal_chars_size(i);
        }
    }
    assert(is_trimmed(html) && is_ascii_chars(html) && has_no_cr(html)) by {
        assert forall|i: int| 0 <= i < html.len() implies '\0' <= #[trigger] html[i] <= '\u{7f}'
            && html[i] != '\r' && !is_whitespace(html[i]) by {
            lemma_literal_chars_html(i);
        }
    }
    assert(is_trimmed(digits) && is_ascii_chars(digits) && has_no_cr(digits)) by {
        assert forall|i: int| 0 <= i < digits.len() implies '\0' <= #[trigger] digits[i]
            <= '\u{7f}' && digits[i] != '\r' && !is_whitespace(digits[i]) by {
            assert('0' <= digits[i] <= '9');
        }
    }
    assert(name_at(fields, kind, 0));
    assert(name_at(fields, size, 1));
    assert(!name_at(fields, size, 0));
    crate::http::headers::lemma_position_is(fields, kind, 0);
    crate::http::headers::lemma_position_is(fields, size, 1);
}

/// The characters of `content-type`.
proof fn lemma_literal_chars_kind(i: int)
    requires
        0 <= i < 12,
    ensures
        is_token_char("content-type"@[i]),
        !('A' <= "content-type"@[i] <= 'Z'),
{
    reveal_strlit("content-type");
    let s = "content-type"@;
    assert(s[0] == 'c' && s[1] == 'o' && s[2] == 'n' && s[3] == 't' && s[4] == 'e' && s[5] == 'n');
    assert(s[6] == 't' && s[7] == '-' && s[8] == 't' && s[9] == 'y' && s[10] == 'p' && s[11]
        == 'e');
}

/// The characters of `content-length`.
proof fn lemma_literal_chars_size(i: int)
    requires
        0 <= i < 14,
    ensures
        is_token_char("content-length"@[i]),
        !('A' <= "content-length"@[i] <= 'Z'),
{
    reveal_strlit("content-length");
    let s = "content-length"@;
    assert(s[0] == 'c' && s[1] == 'o' && s[2] == 'n' && s[3] == 't' && s[4] == 'e' && s[5] == 'n');
    assert(s[6] == 't' && s[7] == '-' && s[8] == 'l' && s[9] == 'e' && s[10] == 'n' && s[11]
        == 'g');
    assert(s[12] == 't' && s[13] == 'h');
}

/// The characters of `text/html`.
proof fn lemma_literal_chars_html(i: int)
    requires
        0 <= i < 9,
    ensures
        '\0' <= "text/html"@[i] <= '\u{7f}',
        "text/html"@[i] != '\r',
        !is_whitespace("text/html"@[i]),
{
    reveal_strlit("text/html");
    let s = "text/html"@;
    assert(s[0] == 't' && s[1] == 'e' && s[2] == 'x' && s[3] == 't' && s[4] == '/' && s[5] == 'h');
    assert(s[6] == 't' && s[7] == 'm' && s[8] == 'l');
}

/// An HTML response reads back as it was written.
///
/// The octets of a response that was made from a status and a text are
/// the status line, the header block and the text. The header block, with
/// the text behind it, is read in full as a complete block that binds
/// `content-type` to `text/html` and `content-length` to a number, which
/// is the length of what is left: the text.
pub proof fn law_html_response_reads_back(status: StatusCode, html: Seq<char>)
    requires
        encode_utf8(html).len() <= usize::MAX,
    ensures
        response_bytes(status, html_fields(encode_utf8(html).len()), encode_utf8(html))
            == encode_utf8(status_line_text(status)) + encode_utf8(
            header_block_text(html_fields(encode_utf8(html).len())),
        ) + encode_utf8(html),
        parse_block(
            Seq::<(Seq<char>, Seq<char>)>::empty(),
            encode_utf8(header_block_text(html_fields(encode_utf8(html).len()))) + encode_utf8(
                html,
            ),
        ) == (BlockParse {
            fields: html_fields(encode_utf8(html).len()),
            consumed: encode_utf8(
                header_block_text(html_fields(encode_utf8(html).len())),
            ).len() as int,
            status: BlockStatus::Complete,
        }),
        value_of(html_fields(encode_utf8(html).len()), "content-type"@) == Some("text/html"@),
        value_of(html_fields(encode_utf8(html).len()), "content-length"@) == Some(
            decimal_digits(encode_utf8(html).len()),
        ),
        decimal_value(decimal_digits(encode_utf8(html).len())) == Some(encode_utf8(html).len()),
{
    let body = encode_utf8(html);
    lemma_html_fields_read_back(body.len());
    law_header_block_reads_back(html_fields(body.len()), body);
    law_decimal_reads_back(body.len());
}


/// Whether `s` is ASCII text without a carriage return.
pub open spec fn is_plain(s: Seq<char>) -> bool {
    is_ascii_chars(s) && has_no_cr(s)
}

/// Plain text behind plain text is plain text.
proof fn lemma_plain_concat(a: Seq<char>, b: Seq<char>)
    requires
        is_plain(a),
        is_plain(b),
    ensures
        is_plain(a + b),
{
    assert forall|i: int| 0 <= i < (a + b).len() implies '\0' <= #[trigger] (a + b)[i] <= '\u{7f}'
        && (a + b)[i] != '\r' by {
        if i < a.len() {
            assert((a + b)[i] == a[i]);
        } else {
            assert((a + b)[i] == b[i - a.len()]);
        }
    }
}

/// The start of every status line is plain text of nine characters.
proof fn lemma_version_is_plain()
    ensures
        is_plain("HTTP/1.1 "@),
        "HTTP/1.1 "@.len() == 9,
        is_plain(" "@),
        " "@.len() == 1,
{
    reveal_strlit("HTTP/1.1 ");
    reveal_strlit(" ");
    let s = "HTTP/1.1 "@;
    assert(s[0] == 'H' && s[1] == 'T' && s[2] == 'T' && s[3] == 'P');
    assert(s[4] == '/' && s[5] == '1' && s[6] == '.' && s[7] == '1');
    assert(s[8] == ' ');
    assert forall|i: int| 0 <= i < s.len() implies '\0' <= #[trigger] s[i] <= '\u{7f}' && s[i]
        != '\r' by {}
    let t = " "@;
    assert(t[0] == ' ');
}

/// Every reason phrase is plain text.
proof fn lemma_reason_is_plain(status: StatusCode)
    ensures
        is_plain(status.reason()),
{
    let s = status.reason();
    match status {
        StatusCode::Okay => {
            reveal_strlit("OK");
            assert(s[0] == 'O' && s[1] == 'K');
        },
        StatusCode::Created => {
            reveal_strlit("Created");
            assert(s[0] == 'C' && s[1] == 'r' && s[2] == 'e' && s[3] == 'a');
            assert(s[4] == 't' && s[5] == 'e' && s[6] == 'd');
        },
        StatusCode::BadRequest => {
            reveal_strlit("Bad Request");
            assert(s[0] == 'B' && s[1] == 'a' && s[2] == 'd' && s[3] == ' ');
            assert(s[4] == 'R' && s[5] == 'e' && s[6] == 'q' && s[7] == 'u');
            assert(s[8] == 'e' && s[9] == 's' && s[10] == 't');
        },
        StatusCode::NotFound => {
            reveal_strlit("Not Found");
            assert(s[0] == 'N' && s[1] == 'o' && s[2] == 't' && s[3] == ' ');
            assert(s[4] == 'F' && s[5] == 'o' && s[6] == 'u' && s[7] == 'n');
            assert(s[8] == 'd');
        },
        StatusCode::RequestTimeout => {
            reveal_strlit("Request Timeout");
            assert(s[0] == 'R' && s[1] == 'e' && s[2] == 'q' && s[3] == 'u');
            assert(s[4] == 'e' && s[5] == 's' && s[6] == 't' && s[7] == ' ');
            assert(s[8] == 'T' && s[9] == 'i' && s[10] == 'm' && s[11] == 'e');
            assert(s[12] == 'o' && s[13] == 'u' && s[14] == 't');
        },
        StatusCode::InternalServerError => {
            reveal_strlit("Internal Server Error");
            assert(s[0] == 'I' && s[1] == 'n' && s[2] == 't' && s[3] == 'e');
            assert(s[4] == 'r' && s[5] == 'n' && s[6] == 'a' && s[7] == 'l');
            assert(s[8] == ' ' && s[9] == 'S' && s[10] == 'e' && s[11] == 'r');
            assert(s[12] == 'v' && s[13] == 'e' && s[14] == 'r' && s[15] == ' ');
            assert(s[16] == 'E' && s[17] == 'r' && s[18] == 'r' && s[19] == 'o');
            assert(s[20] == 'r');
        },
        StatusCode::GatewayTimeout => {
            reveal_strlit("Gateway Timeout");
            assert(s[0] == 'G' && s[1] == 'a' && s[2] == 't' && s[3] == 'e');
            assert(s[4] == 'w' && s[5] == 'a' && s[6] == 'y' && s[7] == ' ');
            assert(s[8] == 'T' && s[9] == 'i' && s[10] == 'm' && s[11] == 'e');
            assert(s[12] == 'o' && s[13] == 'u' && s[14] == 't');
        },
    }
    assert forall|i: int| 0 <= i < s.len() implies '\0' <= #[trigger] s[i] <= '\u{7f}' && s[i]
        != '\r' by {}
}

/// The number of every status is written in three digits.
proof fn lemma_status_number_digits(status: StatusCode)
    ensures
        decimal_digits(status.number()).len() == 3,
{
    reveal_with_fuel(decimal_digits, 3);
}

/// The status line is the first line of a response: it is plain text,
/// ended by the first line terminator of whatever it stands at the start
/// of.
pub proof fn law_status_line_is_first_line(status: StatusCode, rest: Seq<u8>)
    ensures
        encode_utf8(status_line_text(status)).len() == status_line_text(status).len(),
        find_crlf(encode_utf8(status_line_text(status)) + rest) == Some(
            status_line_text(status).len() - 2,
        ),
{
    lemma_line_literals();
    lemma_version_is_plain();
    lemma_reason_is_plain(status);
    lemma_decimal_digits(status.number());
    let digits = decimal_digits(status.number());
    assert(is_plain(digits)) by {
        assert forall|i: int| 0 <= i < digits.len() implies '\0' <= #[trigger] digits[i]
            <= '\u{7f}' && digits[i] != '\r' by {
            assert('0' <= digits[i] <= '9');
        }
    }
    let line = "HTTP/1.1 "@ + digits + " "@ + status.reason();
    lemma_plain_concat("HTTP/1.1 "@, digits);
    lemma_plain_concat("HTTP/1.1 "@ + digits, " "@);
    lemma_plain_concat("HTTP/1.1 "@ + digits + " "@, status.reason());
    lemma_encode_concat(line, "\r\n"@);
    lemma_line_is_framed(line, rest);
    assert(status_line_text(status) == line + "\r\n"@);
}

/// The status line names the status: no two statuses have the same.
pub proof fn law_status_line_names_the_status(a: StatusCode, b: StatusCode)
    requires
        status_line_text(a) == status_line_text(b),
    ensures
        a == b,
{
    lemma_version_is_plain();
    lemma_status_number_digits(a);
    lemma_status_number_digits(b);
    lemma_decimal_digits(a.number());
    lemma_decimal_digits(b.number());
    assert(status_line_text(a).subrange(9, 12) =~= decimal_digits(a.number()));
    assert(status_line_text(b).subrange(9, 12) =~= decimal_digits(b.number()));
}

} // verus!
