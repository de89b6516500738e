//! What holds of every request that is read: the chunks in which it arrives
//! do not matter, and its body has the length that was announced.
use crate::bytes::{find_crlf, lemma_find_crlf};
use crate::encoding::text_of;
use crate::http::header_laws::{
    law_block_keeps_names_canonical, law_block_resumes, law_block_stops_at_line_end,
    lemma_find_crlf_extend,
};
use crate::http::headers::{
    field_of_line, joined, lemma_put, names_canonical, names_distinct, parse_block, value_of,
    with_line,
};
use crate::http::request::{
    content_length_name, fresh_reader, fresh_request, lemma_step_consumes_within, parse_step,
    receive_chunk, run, settle, settled_reader, supported_version, Failure, ParseState, ReaderModel,
    RequestModel, Settled, MAX_HEADER_SIZE, MAX_REQUEST_SIZE,
};
use crate::http::request_line::known_method;
use crate::numeric::decimal_value;
use vstd::prelude::*;

verus! {

/// What [`settle`] is, case by case.
pub proof fn lemma_settle_unfold(request: RequestModel, buffer: Seq<u8>)
    ensures
        0 <= parse_step(request, buffer).consumed <= buffer.len(),
        request.state is Done ==> settle(request, buffer) == (Settled {
            request,
            buffer,
            failure: None,
        }),
        !(request.state is Done) && parse_step(request, buffer).failure is Some ==> settle(
            request,
            buffer,
        ) == (Settled {
            request: parse_step(request, buffer).request,
            buffer,
            failure: parse_step(request, buffer).failure,
        }),
        !(request.state is Done) && parse_step(request, buffer).failure is None && parse_step(
            request,
            buffer,
        ).consumed > 0 ==> settle(request, buffer) == settle(
            parse_step(request, buffer).request,
            buffer.subrange(parse_step(request, buffer).consumed, buffer.len() as int),
        ),
        !(request.state is Done) && parse_step(request, buffer).failure is None && parse_step(
            request,
            buffer,
        ).consumed == 0 ==> settle(request, buffer) == (Settled {
            request: parse_step(request, buffer).request,
            buffer,
            failure: None,
        }),
{
    reveal(settle);
    lemma_step_consumes_within(request, buffer);
}

/// A header block of which nothing was consumed, and which was not
/// refused, holds no complete line.
pub proof fn lemma_block_nothing_consumed(fields: Seq<(Seq<char>, Seq<char>)>, data: Seq<u8>)
    requires
        parse_block(fields, data).consumed == 0,
        !(parse_block(fields, data).status is Failed),
    ensures
        find_crlf(data) is None,
        parse_block(fields, data).fields == fields,
        parse_block(fields, data).status is Partial,
{
    lemma_find_crlf(data);
    if let Some(end) = find_crlf(data) {
        if end != 0 {
            let line = text_of(data.subrange(0, end));
            if let Ok(next) = with_line(fields, line) {
                law_block_stops_at_line_end(next, data.subrange(end + 2, data.len() as int));
            }
        }
    }
}


/// A step that fails on some octets fails on them with more behind.
pub proof fn lemma_failure_persists(request: RequestModel, buffer: Seq<u8>, more: Seq<u8>)
    requires
        !(request.state is Done),
        parse_step(request, buffer).failure is Some,
    ensures
        parse_step(request, buffer + more).failure is Some,
{
    match request.state {
        ParseState::Initialized => {
            lemma_find_crlf(buffer);
            lemma_find_crlf_extend(buffer, more);
            let end = find_crlf(buffer)->0;
            assert((buffer + more).subrange(0, end) =~= buffer.subrange(0, end));
        },
        ParseState::ParseHeaders => {
            law_block_resumes(request.fields, buffer, more);
        },
        ParseState::ParseBody => {},
        ParseState::Done => {},
    }
}

/// A request line that was read from some octets is read from them with
/// more behind.
proof fn lemma_line_step_first(request: RequestModel, buffer: Seq<u8>, more: Seq<u8>)
    requires
        request.state is Initialized,
        parse_step(request, buffer).failure is None,
        parse_step(request, buffer).consumed > 0,
    ensures
        parse_step(request, buffer + more) == parse_step(request, buffer),
{
    lemma_find_crlf(buffer);
    lemma_find_crlf_extend(buffer, more);
    let end = find_crlf(buffer)->0;
    assert((buffer + more).subrange(0, end) =~= buffer.subrange(0, end));
}

/// A step that can be taken on some octets can be taken first when more
/// octets are behind them.
pub proof fn lemma_step_first(request: RequestModel, buffer: Seq<u8>, more: Seq<u8>)
    requires
        !(request.state is Done),
        parse_step(request, buffer).failure is None,
        parse_step(request, buffer).consumed > 0,
        settle(request, buffer + more).failure is None,
    ensures
        settle(request, buffer + more) == settle(
            parse_step(request, buffer).request,
            buffer.subrange(parse_step(request, buffer).consumed, buffer.len() as int) + more,
        ),
{
    let all = buffer + more;
    let step = parse_step(request, buffer);
    let tail = buffer.subrange(step.consumed, buffer.len() as int);
    lemma_settle_unfold(request, buffer);
    lemma_settle_unfold(request, all);
    match request.state {
        ParseState::Initialized => {
            lemma_line_step_first(request, buffer, more);
            assert(all.subrange(step.consumed, all.len() as int) =~= tail + more);
        },
        ParseState::ParseHeaders => {
            lemma_headers_step_first(request, buffer, more);
        },
        ParseState::ParseBody => {
            lemma_body_step_first(request, buffer, more);
        },
        ParseState::Done => {},
    }
}

/// [`lemma_step_first`] while the header block is read.
proof fn lemma_headers_step_first(request: RequestModel, buffer: Seq<u8>, more: Seq<u8>)
    requires
        request.state is ParseHeaders,
        parse_step(request, buffer).failure is None,
        parse_step(request, buffer).consumed > 0,
        settle(request, buffer + more).failure is None,
    ensures
        settle(request, buffer + more) == settle(
            parse_step(request, buffer).request,
            buffer.subrange(parse_step(request, buffer).consumed, buffer.len() as int) + more,
        ),
{
    let all = buffer + more;
    let step = parse_step(request, buffer);
    let tail = buffer.subrange(step.consumed, buffer.len() as int);
    let block = parse_block(request.fields, buffer);
    lemma_settle_unfold(request, buffer);
    lemma_settle_unfold(request, all);
    law_block_resumes(request.fields, buffer, more);
    if block.status is Complete {
        assert(parse_step(request, all) == step);
        assert(all.subrange(step.consumed, all.len() as int) =~= tail + more);
    } else {
        let inner = parse_block(block.fields, tail + more);
        let whole = parse_step(request, all);
        let next = parse_step(step.request, tail + more);
        law_block_stops_at_line_end(block.fields, tail + more);
        assert(whole.request == next.request);
        assert(whole.failure == next.failure);
        assert(whole.consumed == step.consumed + next.consumed);
        lemma_settle_unfold(step.request, tail + more);
        if next.consumed > 0 {
            assert((tail + more).subrange(next.consumed, (tail + more).len() as int) =~= all.subrange(
                whole.consumed,
                all.len() as int,
            ));
        } else {
            lemma_block_nothing_consumed(block.fields, tail + more);
            assert(next.request == step.request);
            assert(all.subrange(whole.consumed, all.len() as int) =~= tail + more);
        }
    }
}

/// [`lemma_step_first`] while the body is read.
proof fn lemma_body_step_first(request: RequestModel, buffer: Seq<u8>, more: Seq<u8>)
    requires
        request.state is ParseBody,
        parse_step(request, buffer).failure is None,
        parse_step(request, buffer).consumed > 0,
        settle(request, buffer + more).failure is None,
    ensures
        settle(request, buffer + more) == settle(
            parse_step(request, buffer).request,
            buffer.subrange(parse_step(request, buffer).consumed, buffer.len() as int) + more,
        ),
{
    let all = buffer + more;
    let step = parse_step(request, buffer);
    let tail = buffer.subrange(step.consumed, buffer.len() as int);
    let none = Seq::<u8>::empty();
    lemma_settle_unfold(request, buffer);
    lemma_settle_unfold(request, all);
    let whole = parse_step(request, all);
    assert(tail =~= none);
    assert(tail + more =~= more);
    assert(all.subrange(whole.consumed, all.len() as int) =~= none);
    lemma_settle_unfold(step.request, more);
    lemma_settle_unfold(whole.request, none);
    if step.request.state is Done {
        assert(more =~= none);
        assert(request.body + all =~= request.body + buffer);
        assert(whole.request == step.request);
    } else {
        let next = parse_step(step.request, more);
        assert((request.body + buffer) + more =~= request.body + all);
        assert(next.request == whole.request);
        if more.len() > 0 {
            assert(more.subrange(next.consumed, more.len() as int) =~= none);
        } else {
            assert(more =~= none);
            let again = parse_step(whole.request, none);
            assert(whole.request.body + none =~= whole.request.body);
            assert(again.request == whole.request);
        }
    }
}

/// A step that consumes nothing of some octets changes nothing about what
/// they give with more behind.
pub proof fn lemma_step_nothing(request: RequestModel, buffer: Seq<u8>, more: Seq<u8>)
    requires
        !(request.state is Done),
        parse_step(request, buffer).failure is None,
        parse_step(request, buffer).consumed == 0,
        settle(request, buffer + more).failure is None,
    ensures
        settle(parse_step(request, buffer).request, buffer + more) == settle(
            request,
            buffer + more,
        ),
{
    let all = buffer + more;
    let step = parse_step(request, buffer);
    lemma_settle_unfold(request, all);
    lemma_settle_unfold(step.request, all);
    match request.state {
        ParseState::Initialized => {
            lemma_find_crlf(buffer);
            assert(step.request == request);
        },
        ParseState::ParseHeaders => {
            lemma_block_nothing_consumed(request.fields, buffer);
            assert(step.request == request);
        },
        ParseState::ParseBody => {
            let whole = parse_step(request, all);
            if step.request.state is Done {
                if value_of(request.fields, content_length_name()) is Some {
                    assert(buffer.len() == 0);
                    assert(more.len() == 0);
                    assert(request.body + all =~= request.body + buffer);
                    assert(whole.request == step.request);
                }
            } else {
                assert(request.body + buffer =~= request.body);
                assert(step.request == request);
            }
        },
        ParseState::Done => {},
    }
}

/// Parsing can be resumed: where some octets with more behind them parse
/// without a failure, the octets alone do, and going on from there with the
/// rest gives the same.
pub proof fn lemma_settle_resumes(request: RequestModel, buffer: Seq<u8>, more: Seq<u8>)
    requires
        settle(request, buffer + more).failure is None,
    ensures
        settle(request, buffer).failure is None,
        settle(settle(request, buffer).request, settle(request, buffer).buffer + more) == settle(
            request,
            buffer + more,
        ),
    decreases buffer.len(),
{
    let all = buffer + more;
    let step = parse_step(request, buffer);
    lemma_settle_unfold(request, buffer);
    lemma_settle_unfold(request, all);
    if request.state is Done {
    } else if step.failure is Some {
        lemma_failure_persists(request, buffer, more);
    } else if step.consumed > 0 {
        let tail = buffer.subrange(step.consumed, buffer.len() as int);
        lemma_step_first(request, buffer, more);
        lemma_settle_resumes(step.request, tail, more);
    } else {
        lemma_step_nothing(request, buffer, more);
    }
}


/// The octets of `chunks`, one chunk behind the other.
pub open spec fn concat(chunks: Seq<Seq<u8>>) -> Seq<u8>
    decreases chunks.len(),
{
    if chunks.len() == 0 {
        Seq::empty()
    } else {
        chunks[0] + concat(chunks.drop_first())
    }
}

/// Whether every chunk holds an octet.
pub open spec fn all_nonempty(chunks: Seq<Seq<u8>>) -> bool {
    forall|i: int| 0 <= i < chunks.len() ==> (#[trigger] chunks[i]).len() > 0
}

/// A reader whose octets, with those of `chunks` behind them, parse to
/// the complete request `target`, reads that request from `chunks`, unless
/// it finds the header block too large on the way.
proof fn lemma_run_reaches(reader: ReaderModel, chunks: Seq<Seq<u8>>, target: Settled)
    requires
        all_nonempty(chunks),
        target == settle(reader.request, reader.buffer + concat(chunks)),
        target.failure is None,
        target.request.state is Done,
        reader.total + concat(chunks).len() <= MAX_REQUEST_SIZE,
    ensures
        run(reader, chunks).outcome == Ok::<RequestModel, Failure>(target.request) || run(
            reader,
            chunks,
        ).outcome == Err::<RequestModel, Failure>(Failure::ContentTooLarge),
        reader.header_total + concat(chunks).len() <= MAX_HEADER_SIZE ==> run(
            reader,
            chunks,
        ).outcome == Ok::<RequestModel, Failure>(target.request),
    decreases chunks.len(),
{
    let rest = concat(chunks);
    let here = settle(reader.request, reader.buffer);
    lemma_settle_resumes(reader.request, reader.buffer, rest);
    lemma_settle_unfold(here.request, here.buffer + rest);
    if here.request.state is Done {
    } else if chunks.len() == 0 {
        assert(reader.buffer + rest =~= reader.buffer);
        assert(here.buffer + rest =~= here.buffer);
        lemma_settle_resumes(reader.request, reader.buffer, rest);
    } else {
        let chunk = chunks[0];
        let later = chunks.drop_first();
        assert(all_nonempty(later)) by {
            assert forall|i: int| 0 <= i < later.len() implies (#[trigger] later[i]).len()
                > 0 by {
                assert(later[i] == chunks[i + 1]);
            }
        }
        assert(chunk.len() > 0);
        match receive_chunk(settled_reader(reader), chunk) {
            Err(e) => {},
            Ok(next) => {
                assert(next.buffer + concat(later) =~= here.buffer + rest);
                lemma_run_reaches(next, later, target);
            },
        }
    }
}

/// It does not matter in which chunks a request arrives.
///
/// Let a stream give the octets `whole` at once, and let the reader read a
/// request from them. Then it reads the same request from every stream
/// that gives the same octets in chunks, however they are cut, with one
/// exception: a header block that arrives in pieces is counted, and is
/// refused as too large where it exceeds the bound. Octets that are no
/// more than that bound in all are never refused.
pub proof fn law_chunking_does_not_matter(whole: Seq<u8>, chunks: Seq<Seq<u8>>)
    requires
        concat(chunks) == whole,
        all_nonempty(chunks),
        run(fresh_reader(), seq![whole]).outcome is Ok,
    ensures
        run(fresh_reader(), chunks).outcome == run(fresh_reader(), seq![whole]).outcome || run(
            fresh_reader(),
            chunks,
        ).outcome == Err::<RequestModel, Failure>(Failure::ContentTooLarge),
        whole.len() <= MAX_HEADER_SIZE ==> run(fresh_reader(), chunks).outcome == run(
            fresh_reader(),
            seq![whole],
        ).outcome,
{
    let none = Seq::<u8>::empty();
    let start = fresh_reader();
    let at_once = seq![whole];
    lemma_settle_unfold(fresh_request(), none);
    lemma_find_crlf(none);
    let idle = settle(fresh_request(), none);
    assert(idle == Settled { request: fresh_request(), buffer: none, failure: None });
    assert(at_once[0] == whole);
    assert(at_once.drop_first() =~= Seq::<Seq<u8>>::empty());
    assert(none + whole =~= whole);
    let fed = receive_chunk(settled_reader(start), whole);
    assert(fed is Ok);
    let target = settle(fresh_request(), whole);
    assert(run(fed->Ok_0, Seq::<Seq<u8>>::empty()).outcome == run(start, at_once).outcome);
    assert(target.failure is None && target.request.state is Done);
    assert(start.buffer + concat(chunks) =~= whole);
    lemma_run_reaches(start, chunks, target);
}


/// Whether the body of `request` has the length that was announced: that
/// of `content-length`, and none without it.
pub open spec fn has_announced_length(request: RequestModel) -> bool {
    match value_of(request.fields, content_length_name()) {
        None => request.body.len() == 0,
        Some(text) => decimal_value(text) == Some(request.body.len()),
    }
}

/// Whether `request` is as far as it can be what a request has to be in
/// the end.
///
/// Its names are distinct tokens without upper case letters. Once the
/// request line was read, the method is one of the nine and the version is
/// the supported one. The body is empty until the header block is complete,
/// no longer than announced while it is read, and as long as announced in
/// the end.
pub open spec fn coherent(request: RequestModel) -> bool {
    &&& names_distinct(request.fields)
    &&& names_canonical(request.fields)
    &&& !(request.state is Initialized) ==> known_method(request.request_line.method)
        && request.request_line.http_version == supported_version()
    &&& match request.state {
        ParseState::Initialized => request.body.len() == 0 && request.fields.len() == 0,
        ParseState::ParseHeaders => request.body.len() == 0,
        ParseState::ParseBody => request.body.len() == 0 || match value_of(
            request.fields,
            content_length_name(),
        ) {
            None => false,
            Some(text) => decimal_value(text) matches Some(length) && request.body.len()
                <= length,
        },
        ParseState::Done => has_announced_length(request),
    }
}

/// Taking in a header line keeps the names distinct.
proof fn lemma_line_keeps_names_distinct(fields: Seq<(Seq<char>, Seq<char>)>, line: Seq<char>)
    requires
        names_distinct(fields),
    ensures
        with_line(fields, line) matches Ok(after) ==> names_distinct(after),
{
    reveal(with_line);
    if let Ok(field) = field_of_line(line) {
        match value_of(fields, field.0) {
            Some(prev) => lemma_put(fields, field.0, joined(prev, field.1), field.0),
            None => lemma_put(fields, field.0, field.1, field.0),
        }
    }
}

/// Reading a header block keeps the names distinct.
proof fn lemma_block_keeps_names_distinct(fields: Seq<(Seq<char>, Seq<char>)>, data: Seq<u8>)
    requires
        names_distinct(fields),
    ensures
        names_distinct(parse_block(fields, data).fields),
    decreases data.len(),
{
    lemma_find_crlf(data);
    if let Some(end) = find_crlf(data) {
        if end != 0 {
            let line = text_of(data.subrange(0, end));
            lemma_line_keeps_names_distinct(fields, line);
            if let Ok(next) = with_line(fields, line) {
                lemma_block_keeps_names_distinct(next, data.subrange(end + 2, data.len() as int));
            }
        }
    }
}

/// A step keeps a request coherent.
proof fn lemma_step_keeps_coherent(request: RequestModel, data: Seq<u8>)
    requires
        coherent(request),
        parse_step(request, data).failure is None,
    ensures
        coherent(parse_step(request, data).request),
{
    match request.state {
        ParseState::ParseHeaders => {
            lemma_block_keeps_names_distinct(request.fields, data);
            law_block_keeps_names_canonical(request.fields, data);
        },
        _ => {},
    }
}

/// Parsing keeps a request coherent.
proof fn lemma_settle_keeps_coherent(request: RequestModel, buffer: Seq<u8>)
    requires
        coherent(request),
        settle(request, buffer).failure is None,
    ensures
        coherent(settle(request, buffer).request),
    decreases buffer.len(),
{
    lemma_settle_unfold(request, buffer);
    let step = parse_step(request, buffer);
    if !(request.state is Done) && step.failure is None {
        lemma_step_keeps_coherent(request, buffer);
        if step.consumed > 0 {
            lemma_settle_keeps_coherent(
                step.request,
                buffer.subrange(step.consumed, buffer.len() as int),
            );
        }
    }
}

/// Reading keeps a request coherent.
proof fn lemma_run_keeps_coherent(reader: ReaderModel, chunks: Seq<Seq<u8>>)
    requires
        coherent(reader.request),
        run(reader, chunks).outcome is Ok,
    ensures
        run(reader, chunks).outcome->Ok_0.state is Done,
        coherent(run(reader, chunks).outcome->Ok_0),
    decreases chunks.len(),
{
    let here = settle(reader.request, reader.buffer);
    if here.failure is None {
        lemma_settle_keeps_coherent(reader.request, reader.buffer);
        if !(here.request.state is Done) && chunks.len() > 0 {
            if let Ok(next) = receive_chunk(settled_reader(reader), chunks[0]) {
                lemma_run_keeps_coherent(next, chunks.drop_first());
            }
        }
    }
}

/// Every request that is read is complete and sound: its method is one of
/// the nine, its version is the supported one, its names are distinct tokens
/// without upper case letters, and its body has the length that
/// `content-length` announced, or none where the field is absent.
pub proof fn law_read_request_is_sound(chunks: Seq<Seq<u8>>)
    requires
        run(fresh_reader(), chunks).outcome is Ok,
    ensures
        run(fresh_reader(), chunks).outcome->Ok_0.state is Done,
        known_method(run(fresh_reader(), chunks).outcome->Ok_0.request_line.method),
        run(fresh_reader(), chunks).outcome->Ok_0.request_line.http_version
            == supported_version(),
        names_distinct(run(fresh_reader(), chunks).outcome->Ok_0.fields),
        names_canonical(run(fresh_reader(), chunks).outcome->Ok_0.fields),
        has_announced_length(run(fresh_reader(), chunks).outcome->Ok_0),
{
    lemma_run_keeps_coherent(fresh_reader(), chunks);
}

} // verus!
