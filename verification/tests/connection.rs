use httpserver::http::headers::Headers;
use httpserver::http::request::{request_from_reader, ChunkReader, HttpError};
use httpserver::http::response::{html_response, Response, StatusCode};
use httpserver::runtime::connection::{
    after_response, error_response, on_accept_error, on_keep_alive_elapsed, on_read_error,
    wants_keep_alive, write_response, AcceptAction, Reaction, ACCEPT_RETRY_MILLIS,
    KEEP_ALIVE_TIMEOUT_SECS, SERVER_TIMEOUT_SECS,
};

fn request_with(headers: &str) -> httpserver::http::request::Request {
    let text = format!("GET /test HTTP/1.1\r\n{headers}\r\n");
    let mut reader = ChunkReader::new(&text, 16);
    request_from_reader(&mut reader).unwrap()
}

#[test]
fn budgets_are_as_documented() {
    assert_eq!(SERVER_TIMEOUT_SECS, 120);
    assert_eq!(KEEP_ALIVE_TIMEOUT_SECS, 15);
    assert_eq!(ACCEPT_RETRY_MILLIS, 50);
    assert_eq!(httpserver::http::request::READ_REQUEST_TIMEOUT_SECS, 30);
    assert_eq!(httpserver::http::request::MAX_REQUEST_SIZE, 8_388_608);
    assert_eq!(httpserver::http::request::MAX_HEADER_SIZE, 32_768);
    assert_eq!(httpserver::http::request::SCRATCH_SIZE, 64);
}

#[test]
fn peer_that_closes_between_requests_is_not_answered() {
    assert_eq!(on_read_error(&HttpError::UnexpectedEOF, false), Reaction::Close);
}

#[test]
fn peer_that_stops_within_a_request_gets_400() {
    assert_eq!(
        on_read_error(&HttpError::UnexpectedEOF, true),
        Reaction::Reject(StatusCode::BadRequest)
    );
}

#[test]
fn request_that_timed_out_gets_408() {
    for received in [false, true] {
        assert_eq!(
            on_read_error(&HttpError::Timeout, received),
            Reaction::Reject(StatusCode::RequestTimeout)
        );
    }
}

#[test]
fn every_other_read_error_gets_400() {
    let errors = [
        HttpError::UnsupportedVersion(String::from("1.0")),
        HttpError::InvalidMethod(String::from("TAKE")),
        HttpError::InvalidParserState,
        HttpError::MalformedRequestLine,
        HttpError::MalformedHeader,
        HttpError::InvalidHeaders,
        HttpError::InvalidBodyLength,
        HttpError::Io,
        HttpError::ParseError,
        HttpError::InternalInvariantViolated,
        HttpError::UpstreamRequestFailed,
        HttpError::TaskJoin,
        HttpError::ContentTooLarge,
    ];
    for error in errors {
        for received in [false, true] {
            assert_eq!(
                on_read_error(&error, received),
                Reaction::Reject(StatusCode::BadRequest),
                "{error:?}"
            );
        }
    }
}

#[test]
fn idle_connection_is_closed_without_an_answer() {
    assert_eq!(on_keep_alive_elapsed(false), Reaction::Close);
    assert_eq!(
        on_keep_alive_elapsed(true),
        Reaction::Reject(StatusCode::BadRequest)
    );
}

#[test]
fn error_pages() {
    let page = error_response(StatusCode::BadRequest);
    assert_eq!(page.status, StatusCode::BadRequest);
    assert_eq!(page.body, b"<html><body><h1>Bad Request</h1></body></html>");
    assert_eq!(page.headers.get("content-type"), Some("text/html"));
    assert_eq!(page.headers.get("content-length"), Some("46"));

    let page = error_response(StatusCode::RequestTimeout);
    assert_eq!(page.status, StatusCode::RequestTimeout);
    assert_eq!(
        page.body,
        b"<html><body><h1>Request timed out</h1></body></html>"
    );

    let page = error_response(StatusCode::GatewayTimeout);
    assert_eq!(page.status, StatusCode::GatewayTimeout);
    assert_eq!(
        page.body,
        b"<html><body><h1>Gateway Timed out</h1></body></html>"
    );
    assert_eq!(page.headers.get("content-length"), Some("52"));
}

#[test]
fn keep_alive_is_the_default() {
    assert!(wants_keep_alive(&request_with("Host: a\r\n")));
    assert!(wants_keep_alive(&request_with("Connection: keep-alive\r\n")));
    assert!(wants_keep_alive(&request_with("Connection: Close\r\n")));
    assert!(!wants_keep_alive(&request_with("Connection: close\r\n")));
    assert!(!wants_keep_alive(&request_with("connection:   close  \r\n")));
}

#[test]
fn connection_stays_open_only_if_both_sides_let_it() {
    let plain = html_response(StatusCode::Okay, "x");
    let mut closing = html_response(StatusCode::Okay, "x");
    closing.headers.insert("connection", "close");
    let mut keeping = html_response(StatusCode::Okay, "x");
    keeping.headers.insert("connection", "keep-alive");

    assert!(after_response(true, Some(&plain)));
    assert!(after_response(true, Some(&keeping)));
    assert!(!after_response(true, Some(&closing)));
    assert!(!after_response(false, Some(&plain)));
    assert!(!after_response(false, Some(&keeping)));
    assert!(!after_response(false, Some(&closing)));
    assert!(!after_response(true, None));
    assert!(!after_response(false, None));
}

#[test]
fn two_requests_on_one_connection_are_both_answered() {
    let text = "GET /test HTTP/1.1\r\nHost: a\r\n\r\nGET /test HTTP/1.1\r\nHost: a\r\n\r\n";
    let mut reader = ChunkReader::new(text, 31);
    let mut wire = Vec::new();
    let mut answered = 0;
    loop {
        let request = match request_from_reader(&mut reader) {
            Ok(request) => request,
            Err(error) => {
                assert_eq!(on_read_error(&error, false), Reaction::Close);
                break;
            }
        };
        let keep_alive = wants_keep_alive(&request);
        let mut response = html_response(StatusCode::Okay, "ok");
        write_response(&mut wire, &mut response).unwrap();
        answered += 1;
        if !after_response(keep_alive, Some(&response)) {
            break;
        }
    }
    assert_eq!(answered, 2);
    let one = "HTTP/1.1 200 OK\r\ncontent-type: text/html\r\ncontent-length: 2\r\n\r\nok";
    assert_eq!(wire, format!("{one}{one}").as_bytes());
}

#[test]
fn accept_loop_stops_when_closed_and_retries_otherwise() {
    assert_eq!(on_accept_error(true), AcceptAction::Stop);
    assert_eq!(on_accept_error(false), AcceptAction::RetryAfterMillis(50));
}

#[test]
fn write_response_is_status_line_headers_body() {
    let mut headers = Headers::new();
    headers.insert("content-length", "3");
    let mut response = Response {
        status: StatusCode::InternalServerError,
        headers,
        body: b"\x00\xff!".to_vec(),
    };
    let mut wire = Vec::new();
    write_response(&mut wire, &mut response).unwrap();
    assert_eq!(
        wire,
        b"HTTP/1.1 500 Internal Server Error\r\ncontent-length: 3\r\n\r\n\x00\xff!"
    );
    assert_eq!(response.body, b"\x00\xff!");
}
