use httpserver::http::request::HttpError;
use httpserver::http::request_line::{
    parse_request_line, parse_request_line_bytes, parse_request_line_text,
};

#[test]
fn request_line_get_request_line_valid() {
    let input = "GET / HTTP/1.1\r\n
             Host: localhost:8080\r\n\
             User-Agent: curl/7.81.0\r\n\
             Accept: */*\r\n\
             \r\n";
    let (result, result_size) = parse_request_line(input).unwrap();

    assert!(result.is_some());
    let request_line = result.unwrap();
    assert_eq!(request_line.method, "GET");
    assert_eq!(request_line.request_target, "/");
    assert_eq!(request_line.http_version, "1.1");
    assert_eq!(result_size, 16);
}

#[test]
fn request_line_get_request_line_with_path_valid() {
    let input = "GET /coffee HTTP/1.1\r\n\
             Host: localhost:8080\r\n\
             User-Agent: curl/7.81.0\r\n\
             Accept: */*\r\n\
             \r\n";

    let (result, result_size) = parse_request_line(input).unwrap();

    assert!(result.is_some());
    let request_line = result.unwrap();
    assert_eq!(request_line.method, "GET");
    assert_eq!(request_line.request_target, "/coffee");
    assert_eq!(request_line.http_version, "1.1");
    assert_eq!(result_size, 22);
}

#[test]
fn request_line_request_line_return_none_when_incomplete_call() {
    let input = "GET /coffee HTTP/1.";

    let (result, result_size) = parse_request_line(input).unwrap();
    assert!(result.is_none());
    assert_eq!(result_size, 0);
}

#[test]
fn request_line_request_line_return_throw_malformed_when_incorrect_splitting() {
    let input = "GET/coffeeHTTP/1.1\r\n";

    let result = parse_request_line(input);
    assert!(result.is_err());
    assert!(
        matches!(result, Err(HttpError::MalformedRequestLine)),
        "Expected Err(HttpError::MalformedRequestLine), got {result:?}"
    );
}

#[test]
fn request_line_request_line_return_throw_malformed_when_wrong_http_definition() {
    let input = "GET /coffee HTT/1.1\r\n";

    let result = parse_request_line(input);
    assert!(result.is_err());
    assert!(
        matches!(result, Err(HttpError::MalformedRequestLine)),
        "Expected Err(HttpError::MalformedRequestLine), got {result:?}"
    );
}

#[test]
fn request_line_request_line_return_throw_invalid_method() {
    let input = "TAKE /coffee HTTP/1.1\r\n";

    let result = parse_request_line(input);
    assert!(result.is_err());
    assert!(
        matches!(result, Err(HttpError::InvalidMethod(_))),
        "Expected Err(HttpError::InvalidMethod), got {result:?}"
    );
}

#[test]
fn request_line_test_get_request_line_valid() {
    let input = "GET / HTTP/1.1\r\n
             Host: localhost:8080\r\n\
             User-Agent: curl/7.81.0\r\n\
             Accept: */*\r\n\
             \r\n";
    let (result, result_size) = parse_request_line(input).unwrap();

    assert!(result.is_some());
    let request_line = result.unwrap();
    assert_eq!(request_line.method, "GET");
    assert_eq!(request_line.request_target, "/");
    assert_eq!(request_line.http_version, "1.1");
    assert_eq!(result_size, 16);
}

#[test]
fn request_line_test_get_request_line_with_path_valid() {
    let input = "GET /coffee HTTP/1.1\r\n\
             Host: localhost:8080\r\n\
             User-Agent: curl/7.81.0\r\n\
             Accept: */*\r\n\
             \r\n";

    let (result, result_size) = parse_request_line(input).unwrap();

    assert!(result.is_some());
    let request_line = result.unwrap();
    assert_eq!(request_line.method, "GET");
    assert_eq!(request_line.request_target, "/coffee");
    assert_eq!(request_line.http_version, "1.1");
    assert_eq!(result_size, 22);
}

#[test]
fn request_line_test_request_line_return_none_when_incomplete_call() {
    let input = "GET /coffee HTTP/1.";

    let (result, result_size) = parse_request_line(input).unwrap();
    assert!(result.is_none());
    assert_eq!(result_size, 0);
}

#[test]
fn request_line_test_request_line_return_throw_malformed_when_incorrect_splitting() {
    let input = "GET/coffeeHTTP/1.1\r\n";

    let result = parse_request_line(input);
    assert!(result.is_err());
    assert!(
        matches!(result, Err(HttpError::MalformedRequestLine)),
        "Expected Err(HttpError::MalformedRequestLine), got {result:?}"
    );
}

#[test]
fn request_line_test_request_line_return_throw_malformed_when_wrong_http_definition() {
    let input = "GET /coffee HTT/1.1\r\n";

    let result = parse_request_line(input);
    assert!(result.is_err());
    assert!(
        matches!(result, Err(HttpError::MalformedRequestLine)),
        "Expected Err(HttpError::MalformedRequestLine), got {result:?}"
    );
}

#[test]
fn request_line_test_request_line_return_throw_invalid_method() {
    let input = "TAKE /coffee HTTP/1.1\r\n";

    let result = parse_request_line(input);
    assert!(result.is_err());
    assert!(
        matches!(result, Err(HttpError::InvalidMethod(_))),
        "Expected Err(HttpError::InvalidMethod), got {result:?}"
    );
}

#[test]
fn each_of_the_nine_methods_is_accepted() {
    for method in [
        "GET", "POST", "PATCH", "PUT", "DELETE", "HEAD", "OPTIONS", "CONNECT", "TRACE",
    ] {
        let line = parse_request_line_text(&format!("{method} /x HTTP/1.1")).unwrap();
        assert_eq!(line.method, method);
        assert_eq!(line.request_target, "/x");
        assert_eq!(line.http_version, "1.1");
    }
}

#[test]
fn method_in_other_case_is_invalid_and_named() {
    let result = parse_request_line_text("get / HTTP/1.1");
    match result {
        Err(HttpError::InvalidMethod(method)) => assert_eq!(method, "get"),
        other => panic!("{other:?}"),
    }
}

#[test]
fn empty_method_is_invalid() {
    let result = parse_request_line_text(" / HTTP/1.1");
    assert!(matches!(result, Err(HttpError::InvalidMethod(m)) if m.is_empty()));
}

#[test]
fn shape_is_checked_before_the_method() {
    assert!(matches!(
        parse_request_line_text("TAKE / HTT/1.1"),
        Err(HttpError::MalformedRequestLine)
    ));
    assert!(matches!(
        parse_request_line_text("TAKE /"),
        Err(HttpError::MalformedRequestLine)
    ));
}

#[test]
fn extra_spaces_tabs_and_missing_parts_are_malformed() {
    for line in [
        "GET  / HTTP/1.1",
        "GET /  HTTP/1.1",
        "GET / HTTP/1.1 ",
        " GET / HTTP/1.1",
        "GET\t/\tHTTP/1.1",
        "GET /",
        "GET",
        "",
        "GET / http/1.1",
        "GET / HTTP",
    ] {
        let result = parse_request_line_text(line);
        assert!(
            matches!(result, Err(HttpError::MalformedRequestLine)),
            "{line:?}: {result:?}"
        );
    }
}

#[test]
fn version_is_what_follows_the_prefix_unchecked() {
    let line = parse_request_line_text("GET /a?b=c#d HTTP/").unwrap();
    assert_eq!(line.http_version, "");
    assert_eq!(line.request_target, "/a?b=c#d");
    let line = parse_request_line_text("GET * HTTP/2.0-beta").unwrap();
    assert_eq!(line.http_version, "2.0-beta");
}

#[test]
fn size_counts_octets_of_the_line_and_its_terminator() {
    let input = "GET /caf\u{e9} HTTP/1.1\r\nrest";
    let (line, size) = parse_request_line(input).unwrap();
    assert_eq!(line.unwrap().request_target, "/caf\u{e9}");
    assert_eq!(size, 21);
    assert_eq!(&input.as_bytes()[size..], b"rest");
}

#[test]
fn bytes_that_are_not_utf8_are_replaced_in_the_target() {
    let (line, size) = parse_request_line_bytes(b"GET /\xff HTTP/1.1\r\n").unwrap();
    assert_eq!(line.unwrap().request_target, "/\u{fffd}");
    assert_eq!(size, 17);
}

#[test]
fn lone_carriage_return_or_line_feed_does_not_end_the_line() {
    let (line, size) = parse_request_line("GET / HTTP/1.1\rX\n").unwrap();
    assert!(line.is_none());
    assert_eq!(size, 0);
}
