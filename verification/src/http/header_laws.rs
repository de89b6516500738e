//! What holds of the header fields and of the header-block parser.
use crate::bytes::{crlf_at, find_crlf, lemma_find_crlf, lemma_find_crlf_is};
use crate::encoding::text_of;
use crate::http::headers::{
    advanced, field_of_line, has_name, joined, lemma_position_of, lemma_put, names_canonical,
    parse_block, position_of, put, put_joined, value_of, with_line,
};
use crate::http::request::Failure;
use crate::text::{
    ascii_lower, first_index_of, has_no_upper, is_token, is_token_char, is_whitespace,
    lemma_trim_is_trimmed, trim,
};
use vstd::prelude::*;

verus! {

/// A name that was bound and then added to is bound to both values,
/// joined.
pub proof fn law_insert_then_append(
    fields: Seq<(Seq<char>, Seq<char>)>,
    name: Seq<char>,
    first: Seq<char>,
    second: Seq<char>,
)
    ensures
        value_of(put_joined(put(fields, name, first), name, second), name) == Some(
            joined(first, second),
        ),
        first.len() > 0 ==> joined(first, second) == first + seq![',', ' '] + second,
{
    let bound = put(fields, name, first);
    lemma_put(fields, name, first, name);
    lemma_put(bound, name, joined(first, second), name);
}

/// Adding to a name that no field holds binds it to the value alone.
pub proof fn law_append_alone(name: Seq<char>, value: Seq<char>)
    ensures
        value_of(put_joined(Seq::<(Seq<char>, Seq<char>)>::empty(), name, value), name) == Some(
            value,
        ),
{
    let none = Seq::<(Seq<char>, Seq<char>)>::empty();
    assert(!has_name(none, name));
    lemma_put(none, name, value, name);
}

/// Binding a canonical name keeps the names canonical.
pub proof fn lemma_put_canonical(
    fields: Seq<(Seq<char>, Seq<char>)>,
    name: Seq<char>,
    value: Seq<char>,
)
    requires
        names_canonical(fields),
        is_token(name),
        has_no_upper(name),
    ensures
        names_canonical(put(fields, name, value)),
{
    let after = put(fields, name, value);
    if has_name(fields, name) {
        lemma_position_of(fields, name);
    }
    assert forall|i: int| 0 <= i < after.len() implies is_token((#[trigger] after[i]).0)
        && has_no_upper(after[i].0) by {
        if has_name(fields, name) {
            if i != position_of(fields, name) {
                assert(after[i] == fields[i]);
            }
        } else {
            if i < fields.len() {
                assert(after[i] == fields[i]);
            }
        }
    }
}

/// Folding a token to lower case gives a token without upper case letters.
pub proof fn lemma_lower_token(key: Seq<char>)
    requires
        is_token(key),
    ensures
        is_token(ascii_lower(key)),
        has_no_upper(ascii_lower(key)),
{
    assert forall|i: int| 0 <= i < key.len() implies is_token_char(
        #[trigger] ascii_lower(key)[i],
    ) && !('A' <= ascii_lower(key)[i] <= 'Z') by {
        assert(is_token_char(key[i]));
    }
}

/// The field that a header line holds has a token without upper case
/// letters for its name, and a value that is empty or has something other
/// than whitespace at either end.
pub proof fn law_field_is_canonical(line: Seq<char>)
    ensures
        field_of_line(line) matches Ok(field) ==> is_token(field.0) && has_no_upper(field.0) && (
        field.1.len() == 0 || (!is_whitespace(field.1[0]) && !is_whitespace(field.1.last()))),
{
    if let Ok(field) = field_of_line(line) {
        let t = trim(line);
        let colon = first_index_of(t, ':');
        lemma_lower_token(t.subrange(0, colon));
        lemma_trim_is_trimmed(t.subrange(colon + 1, t.len() as int));
    }
}

/// The header parser stores canonical names only: where the names were
/// canonical before a line is taken in, they are so after it.
pub proof fn law_line_keeps_names_canonical(fields: Seq<(Seq<char>, Seq<char>)>, line: Seq<char>)
    requires
        names_canonical(fields),
    ensures
        with_line(fields, line) matches Ok(after) ==> names_canonical(after),
{
    reveal(with_line);
    if let Ok(field) = field_of_line(line) {
        let t = trim(line);
        let key = t.subrange(0, first_index_of(t, ':'));
        lemma_lower_token(key);
        match value_of(fields, field.0) {
            Some(prev) => lemma_put_canonical(fields, field.0, joined(prev, field.1)),
            None => lemma_put_canonical(fields, field.0, field.1),
        }
    }
}

/// The header parser stores canonical names only: a header block read into
/// canonical names, such as none, leaves canonical names, however far it
/// was read.
pub proof fn law_block_keeps_names_canonical(fields: Seq<(Seq<char>, Seq<char>)>, data: Seq<u8>)
    requires
        names_canonical(fields),
    ensures
        names_canonical(parse_block(fields, data).fields),
    decreases data.len(),
{
    lemma_find_crlf(data);
    if let Some(end) = find_crlf(data) {
        if end != 0 {
            let line = text_of(data.subrange(0, end));
            law_line_keeps_names_canonical(fields, line);
            if let Ok(next) = with_line(fields, line) {
                law_block_keeps_names_canonical(next, data.subrange(end + 2, data.len() as int));
            }
        }
    }
}

/// The parser stops right behind a line terminator: what it consumed lies
/// within the data and, unless it is nothing, ends in `\r\n`. Where the
/// block is not complete, what is left holds no line terminator.
pub proof fn law_block_stops_at_line_end(fields: Seq<(Seq<char>, Seq<char>)>, data: Seq<u8>)
    ensures
        0 <= parse_block(fields, data).consumed <= data.len(),
        parse_block(fields, data).consumed == 0 || crlf_at(
            data,
            parse_block(fields, data).consumed - 2,
        ),
        parse_block(fields, data).status is Partial ==> find_crlf(
            data.subrange(parse_block(fields, data).consumed, data.len() as int),
        ) is None,
    decreases data.len(),
{
    lemma_find_crlf(data);
    match find_crlf(data) {
        None => {
            assert(data.subrange(0, data.len() as int) =~= data);
        },
        Some(end) => {
            if end != 0 {
                let line = text_of(data.subrange(0, end));
                if let Ok(next) = with_line(fields, line) {
                    let rest = data.subrange(end + 2, data.len() as int);
                    law_block_stops_at_line_end(next, rest);
                    let inner = parse_block(next, rest);
                    assert(rest.subrange(inner.consumed, rest.len() as int) =~= data.subrange(
                        end + 2 + inner.consumed,
                        data.len() as int,
                    ));
                    if inner.consumed != 0 {
                        assert(crlf_at(rest, inner.consumed - 2));
                        assert(crlf_at(data, end + 2 + inner.consumed - 2));
                    }
                }
            }
        },
    }
}

/// Whether a blank line ends at `i`: a line terminator, or the start of the
/// data, with a line terminator right behind it.
pub open spec fn blank_line_ends_at(data: Seq<u8>, i: int) -> bool {
    crlf_at(data, i - 2) && (i == 2 || crlf_at(data, i - 4))
}

/// A complete block ends with its blank line: what was consumed ends in a
/// line terminator that stands at the start of the data or right behind
/// another.
pub proof fn law_block_completes_at_blank_line(fields: Seq<(Seq<char>, Seq<char>)>, data: Seq<u8>)
    requires
        parse_block(fields, data).status is Complete,
    ensures
        blank_line_ends_at(data, parse_block(fields, data).consumed),
    decreases data.len(),
{
    lemma_find_crlf(data);
    let end = find_crlf(data)->0;
    if end != 0 {
        let line = text_of(data.subrange(0, end));
        let next = with_line(fields, line)->Ok_0;
        let rest = data.subrange(end + 2, data.len() as int);
        law_block_completes_at_blank_line(next, rest);
        let inner = parse_block(next, rest).consumed;
        assert(crlf_at(rest, inner - 2));
        assert(crlf_at(data, end + 2 + inner - 2));
        if inner != 2 {
            assert(crlf_at(rest, inner - 4));
            assert(crlf_at(data, end + 2 + inner - 4));
        }
    }
}

/// A block that holds a blank line is complete, unless a line before the
/// blank line is refused: the parser does not wait for more.
pub proof fn law_blank_line_completes_block(
    fields: Seq<(Seq<char>, Seq<char>)>,
    data: Seq<u8>,
    i: int,
)
    requires
        i == 2 || crlf_at(data, i - 4),
        crlf_at(data, i - 2),
    ensures
        parse_block(fields, data).status is Complete || parse_block(fields, data).status is Failed,
    decreases data.len(),
{
    lemma_find_crlf(data);
    let end = find_crlf(data)->0;
    assert(find_crlf(data) is Some) by {
        if find_crlf(data) is None {
            assert(!crlf_at(data, i - 2));
        }
    }
    if end != 0 {
        let line = text_of(data.subrange(0, end));
        if let Ok(next) = with_line(fields, line) {
            let rest = data.subrange(end + 2, data.len() as int);
            if i == 2 {
                assert(!crlf_at(data, 0));
            } else {
                if end > i - 4 {
                    assert(!crlf_at(data, i - 4));
                }
                if end == i - 4 {
                    assert(crlf_at(rest, 0));
                    law_blank_line_completes_block(next, rest, 2);
                } else {
                    assert(end != i - 3);
                    assert(crlf_at(rest, i - end - 2 - 4));
                    assert(crlf_at(rest, i - end - 2 - 2));
                    law_blank_line_completes_block(next, rest, i - end - 2);
                }
            }
        }
    }
}

/// The first line terminator of `data` is the first one of `data` with
/// more octets behind it.
pub proof fn lemma_find_crlf_extend(data: Seq<u8>, more: Seq<u8>)
    requires
        find_crlf(data) is Some,
    ensures
        find_crlf(data + more) == find_crlf(data),
{
    lemma_find_crlf(data);
    let end = find_crlf(data)->0;
    let all = data + more;
    assert(crlf_at(all, end));
    assert forall|j: int| 0 <= j < end implies !crlf_at(all, j) by {
        assert(!crlf_at(data, j));
        assert(all[j] == data[j]);
        assert(all[j + 1] == data[j + 1]);
    }
    lemma_find_crlf_is(all, end);
}

/// One step of [`parse_block`], for data whose first line is taken in.
proof fn lemma_block_step(
    fields: Seq<(Seq<char>, Seq<char>)>,
    data: Seq<u8>,
    end: int,
    next: Seq<(Seq<char>, Seq<char>)>,
)
    requires
        find_crlf(data) == Some(end),
        end != 0,
        with_line(fields, text_of(data.subrange(0, end))) == Ok::<_, Failure>(next),
    ensures
        parse_block(fields, data) == advanced(
            parse_block(next, data.subrange(end + 2, data.len() as int)),
            end + 2,
        ),
{
}

/// The parser can be resumed: reading `data` and then, from where that
/// stopped, what was left with `more` behind it gives what reading `data`
/// with `more` behind it gives at once. A block that was complete, or
/// refused, stays as it was read.
pub proof fn law_block_resumes(fields: Seq<(Seq<char>, Seq<char>)>, data: Seq<u8>, more: Seq<u8>)
    ensures
        parse_block(fields, data).status is Partial ==> parse_block(fields, data + more)
            == advanced(
            parse_block(
                parse_block(fields, data).fields,
                data.subrange(parse_block(fields, data).consumed, data.len() as int) + more,
            ),
            parse_block(fields, data).consumed,
        ),
        !(parse_block(fields, data).status is Partial) ==> parse_block(fields, data + more)
            == parse_block(fields, data),
    decreases data.len(),
{
    let first = parse_block(fields, data);
    let all = data + more;
    match find_crlf(data) {
        None => {
            assert(data.subrange(0, data.len() as int) + more =~= all);
        },
        Some(end) => {
            lemma_find_crlf(data);
            lemma_find_crlf_extend(data, more);
            assert(all.subrange(0, end) =~= data.subrange(0, end));
            if end != 0 {
                let line = text_of(data.subrange(0, end));
                if let Ok(next) = with_line(fields, line) {
                    let rest = data.subrange(end + 2, data.len() as int);
                    let inner = parse_block(next, rest);
                    assert(all.subrange(end + 2, all.len() as int) =~= rest + more);
                    lemma_block_step(fields, data, end, next);
                    lemma_block_step(fields, all, end, next);
                    law_block_resumes(next, rest, more);
                    law_block_stops_at_line_end(next, rest);
                    if inner.status is Partial {
                        assert(rest.subrange(inner.consumed, rest.len() as int) =~= data.subrange(
                            first.consumed,
                            data.len() as int,
                        ));
                    }
                }
            }
        },
    }
}

} // verus!
