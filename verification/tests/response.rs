use httpserver::http::headers::Headers;
use httpserver::http::request::{request_from_reader, ChunkReader};
use httpserver::http::response::{
    html_response, write_chunked_body, write_final_body_chunk, write_headers, write_status_line,
    write_trailers, StatusCode,
};
use httpserver::runtime::connection::write_response;

#[test]
fn reason_phrase_converts_method_to_string() {
    let valid_methods = [
        (StatusCode::Okay, "OK"),
        (StatusCode::Created, "Created"),
        (StatusCode::BadRequest, "Bad Request"),
        (StatusCode::NotFound, "Not Found"),
        (StatusCode::InternalServerError, "Internal Server Error"),
    ];

    for (method, expected) in valid_methods {
        assert_eq!(method.reason_phrase(), expected);
    }
}

#[test]
fn write_status_line_produces_correct_http_line() {
    let mut buffer = Vec::new();
    let expected = "HTTP/1.1 200 OK\r\n".as_bytes();

    write_status_line(&mut buffer, StatusCode::Okay).unwrap();

    assert_eq!(buffer, expected);
}

#[test]
fn write_headers_produces_correct_headers() {
    let mut buffer = Vec::new();
    let mut headers = Headers::new();
    headers.insert("host", "localhost:8080");
    let expected = "host: localhost:8080\r\n\r\n".as_bytes();

    write_headers(&mut buffer, &mut headers).unwrap();

    assert_eq!(buffer, expected);
}

#[test]
fn write_chunked_bodies_formats_body() {
    let mut buffer = Vec::new();
    let data = "Let us see what happens".as_bytes();
    let expected =
    "17\r\n\
    Let us see what happens\r\n\
    ";

    write_chunked_body(&mut buffer, data).unwrap();

    assert_eq!(buffer, expected.as_bytes());
}

#[test]
fn write_final_body_chunk_formats_ending_without_trailer() {
    let mut buffer = Vec::new();
    let expected =
    "0\r\n\
    \r\n\
    ";

    write_final_body_chunk(&mut buffer, None).unwrap();

    assert_eq!(buffer, expected.as_bytes());
}

#[test]
fn write_final_body_chunk_formats_ending_with_trailer() {
    let mut buffer = Vec::new();
    let mut trailers = Headers::new();
    trailers.insert("Server-Timing", "custom-metric;dur=123.4");
    let expected =
    "0\r\n\
    server-timing: custom-metric;dur=123.4\r\n\
    \r\n\
    ";

    write_final_body_chunk(&mut buffer, Some(trailers)).unwrap();

    assert_eq!(buffer, expected.as_bytes());
}

#[test]
fn every_status_has_its_number_and_reason() {
    let all = [
        (StatusCode::Okay, 200, "OK"),
        (StatusCode::Created, 201, "Created"),
        (StatusCode::BadRequest, 400, "Bad Request"),
        (StatusCode::NotFound, 404, "Not Found"),
        (StatusCode::RequestTimeout, 408, "Request Timeout"),
        (StatusCode::InternalServerError, 500, "Internal Server Error"),
        (StatusCode::GatewayTimeout, 504, "Gateway Timeout"),
    ];
    for (status, number, reason) in all {
        assert_eq!(status.code(), number);
        assert_eq!(status.reason_phrase(), reason);
        let mut buffer = Vec::new();
        write_status_line(&mut buffer, status).unwrap();
        assert_eq!(buffer, format!("HTTP/1.1 {number} {reason}\r\n").as_bytes());
    }
}

#[test]
fn writers_append_to_what_is_there() {
    let mut buffer = b"seen".to_vec();
    write_status_line(&mut buffer, StatusCode::NotFound).unwrap();
    write_chunked_body(&mut buffer, b"ab").unwrap();
    assert_eq!(buffer, b"seenHTTP/1.1 404 Not Found\r\n2\r\nab\r\n");
}

#[test]
fn write_headers_keeps_names_as_stored_and_order_of_insertion() {
    let mut buffer = Vec::new();
    let mut headers = Headers::new();
    headers.insert("X-Mixed", "Value");
    headers.insert("a", "");
    write_headers(&mut buffer, &mut headers).unwrap();
    assert_eq!(buffer, b"X-Mixed: Value\r\na: \r\n\r\n");
    assert_eq!(headers.get("X-Mixed"), Some("Value"));
}

#[test]
fn write_headers_of_no_fields_is_the_blank_line() {
    let mut buffer = Vec::new();
    write_headers(&mut buffer, &mut Headers::new()).unwrap();
    assert_eq!(buffer, b"\r\n");
}

#[test]
fn chunk_length_is_upper_case_hexadecimal() {
    for (size, expected) in [
        (0usize, "0"),
        (9, "9"),
        (10, "A"),
        (15, "F"),
        (16, "10"),
        (255, "FF"),
        (256, "100"),
        (2748, "ABC"),
        (65535, "FFFF"),
    ] {
        let data = vec![b'z'; size];
        let mut buffer = Vec::new();
        write_chunked_body(&mut buffer, &data).unwrap();
        let mut wanted = format!("{expected}\r\n").into_bytes();
        wanted.extend_from_slice(&data);
        wanted.extend_from_slice(b"\r\n");
        assert_eq!(buffer, wanted);
        assert_eq!(format!("{size:X}"), expected);
    }
}

#[test]
fn chunk_then_final_chunk() {
    let mut buffer = Vec::new();
    write_chunked_body(&mut buffer, b"Let us see what happens").unwrap();
    write_final_body_chunk(&mut buffer, None).unwrap();
    assert_eq!(buffer, b"17\r\nLet us see what happens\r\n0\r\n\r\n");
}

#[test]
fn trailers_are_lowered_in_name_and_value() {
    let mut buffer = Vec::new();
    let mut trailers = Headers::new();
    trailers.insert("X-Content-SHA256", "ABCdef");
    trailers.insert("X-\u{c9}t\u{c9}", "GR\u{dc}SSE");
    write_trailers(&mut buffer, &trailers).unwrap();
    assert_eq!(
        buffer,
        "x-content-sha256: abcdef\r\nx-\u{e9}t\u{e9}: gr\u{fc}sse\r\n\r\n".as_bytes()
    );
}

#[test]
fn final_chunk_with_no_trailer_fields_is_zero_and_blank_line() {
    let mut buffer = Vec::new();
    write_final_body_chunk(&mut buffer, Some(Headers::new())).unwrap();
    assert_eq!(buffer, b"0\r\n\r\n");
}

#[test]
fn html_response_announces_type_and_length() {
    let response = html_response(StatusCode::Created, "<p>caf\u{e9}</p>");
    assert_eq!(response.status, StatusCode::Created);
    assert_eq!(response.headers.get("content-type"), Some("text/html"));
    assert_eq!(response.headers.get("content-length"), Some("12"));
    assert_eq!(response.headers.len(), 2);
    assert_eq!(response.body, "<p>caf\u{e9}</p>".as_bytes());

    let empty = html_response(StatusCode::Okay, "");
    assert_eq!(empty.headers.get("content-length"), Some("0"));
    assert!(empty.body.is_empty());
}

#[test]
fn html_response_reads_back_as_it_was_written() {
    for (status, html) in [
        (StatusCode::Okay, "<html><body><h1>All good!</h1></body></html>"),
        (StatusCode::BadRequest, ""),
        (StatusCode::GatewayTimeout, "line\r\nline \u{2603}"),
    ] {
        let mut response = html_response(status, html);
        let mut wire = Vec::new();
        write_response(&mut wire, &mut response).unwrap();

        let status_line = format!("HTTP/1.1 {} {}\r\n", status.code(), status.reason_phrase());
        assert!(wire.starts_with(status_line.as_bytes()));

        let mut headers = Headers::new();
        let (size, done) = headers.parse_header(&wire[status_line.len()..]).unwrap();
        assert!(done);
        assert_eq!(headers.get("content-type"), Some("text/html"));
        assert_eq!(
            headers.get("content-length"),
            Some(html.len().to_string().as_str())
        );
        assert_eq!(headers.len(), 2);
        assert_eq!(&wire[status_line.len() + size..], html.as_bytes());
    }
}

#[test]
fn written_headers_read_back_through_the_request_parser() {
    let mut headers = Headers::new();
    headers.insert("host", "localhost:8080");
    headers.insert("content-length", "5");
    let mut wire = b"PUT /x HTTP/1.1\r\n".to_vec();
    write_headers(&mut wire, &mut headers).unwrap();
    wire.extend_from_slice(b"hello");
    let text = String::from_utf8(wire).unwrap();
    let mut reader = ChunkReader::new(&text, 5);
    let request = request_from_reader(&mut reader).unwrap();
    assert_eq!(request.headers.iter(), headers.iter());
    assert_eq!(request.body, b"hello");
}

#[test]
fn status_line_is_the_first_line_and_names_the_status() {
    let all = [
        StatusCode::Okay,
        StatusCode::Created,
        StatusCode::BadRequest,
        StatusCode::NotFound,
        StatusCode::RequestTimeout,
        StatusCode::InternalServerError,
        StatusCode::GatewayTimeout,
    ];
    let mut lines = Vec::new();
    for status in all {
        let mut response = html_response(status, "a\r\nb");
        let mut wire = Vec::new();
        write_response(&mut wire, &mut response).unwrap();
        let end = wire.windows(2).position(|pair| pair == b"\r\n").unwrap();
        let mut line = Vec::new();
        write_status_line(&mut line, status).unwrap();
        assert_eq!(&wire[..end + 2], &line[..]);
        assert!(!lines.contains(&line));
        lines.push(line);
    }
}
