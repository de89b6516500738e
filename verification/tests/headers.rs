use httpserver::http::headers::Headers;
use httpserver::http::request::HttpError;

#[test]
fn headers_single_header_valid() {
    let input = "Host: localhost:8080\r\n\r\n";
    let mut headers = Headers::new();
    let result = headers.parse_header(input.as_bytes());
    assert!(result.is_ok());

    let (size, done) = result.unwrap();
    assert_eq!(headers.get("host").unwrap(), "localhost:8080");
    assert_eq!(size, 24);
    assert!(done);
}

#[test]
fn headers_single_header_extra_whitespace_valid() {
    let input = "        Host: localhost:8080\r\n\r\n             ";
    let mut headers = Headers::new();
    let result = headers.parse_header(input.as_bytes());
    assert!(result.is_ok());

    let (size, done) = result.unwrap();
    assert_eq!(headers.get("host").unwrap(), "localhost:8080");
    assert_eq!(size, 32);
    assert!(done);
}

#[test]
fn headers_single_header_extra_whitespace_value_valid() {
    let input = "        HoSt:    localhost:8080\r\n\r\n             ";
    let mut headers = Headers::new();
    let result = headers.parse_header(input.as_bytes());
    assert!(result.is_ok());

    let (size, done) = result.unwrap();
    assert_eq!(headers.get("host").unwrap(), "localhost:8080");
    assert_eq!(size, 35);
    assert!(done);
}

#[test]
fn headers_single_header_no_whitespaces_valid() {
    let input = "Host:localhost:8080\r\n\r\n";
    let mut headers = Headers::new();
    let result = headers.parse_header(input.as_bytes());
    assert!(result.is_ok());

    let (size, done) = result.unwrap();
    assert_eq!(headers.get("host").unwrap(), "localhost:8080");
    assert_eq!(size, 23);
    assert!(done);
}

#[test]
fn headers_two_headers_valid() {
    let input = "Host: localhost:8080\r\nHost:localhost:8081";
    let mut headers = Headers::new();
    let result = headers.parse_header(input.as_bytes());
    assert!(result.is_ok());

    let (size, done) = result.unwrap();
    assert_eq!(headers.get("host").unwrap(), "localhost:8080");
    assert_eq!(size, 22);
    assert!(!done);
}

#[test]
fn headers_invalid_spacing_headers_should_throw_malformedheader() {
    let input = "          Host : localhost:8080          \r\n\r\n";
    let mut headers = Headers::new();
    let result = headers.parse_header(input.as_bytes());
    assert!(matches!(result, Err(HttpError::MalformedHeader)));
}

#[test]
fn headers_it_valid_done() {
    let input = "\r\nhello123";
    let mut headers = Headers::new();
    let result = headers.parse_header(input.as_bytes());
    assert!(result.is_ok());

    let (size, done) = result.unwrap();
    assert_eq!(size, 2);
    assert!(done);
}

#[test]
fn headers_incomplete_request_valid() {
    let input = "key: value";
    let mut headers = Headers::new();
    let result = headers.parse_header(input.as_bytes());
    assert!(result.is_ok());

    let (size, done) = result.unwrap();
    assert_eq!(size, 0);
    assert!(!done);
}

#[test]
fn headers_invalid_name_character_should_throw_error() {
    let input = "@:email\r\n";
    let mut headers = Headers::new();
    let result = headers.parse_header(input.as_bytes());
    assert!(result.is_err());
}

#[test]
fn multiple_values_valid() {
    let input = "Host: localhost:8080\r\n\r\n";
    let mut headers = Headers::new();
    headers.insert("host", "localhost:8081");
    let result = headers.parse_header(input.as_bytes());
    assert!(result.is_ok());

    let (size, done) = result.unwrap();
    assert_eq!(
        headers.get("host").unwrap(),
        "localhost:8081, localhost:8080"
    );
    assert_eq!(size, 24);
    assert!(done);
}

#[test]
fn headers_test_two_headers_valid() {
    let input = "Host: localhost:8080\r\nHost:localhost:8081";
    let mut headers = Headers::new();
    let result = headers.parse_header(input.as_bytes());
    assert!(result.is_ok());

    let (size, done) = result.unwrap();
    assert_eq!(headers.get("host").unwrap(), "localhost:8080");
    assert_eq!(size, 22);
    assert_eq!(done, false);
}

#[test]
fn headers_test_invalid_spacing_headers_should_throw_malformedheader() {
    let input = "          Host : localhost:8080          \r\n\r\n";
    let mut headers = Headers::new();
    let result = headers.parse_header(input.as_bytes());
    assert!(matches!(result, Err(HttpError::MalformedHeader)));
}

#[test]
fn headers_test_it_valid_done() {
    let input = "\r\nhello123";
    let mut headers = Headers::new();
    let result = headers.parse_header(input.as_bytes());
    assert!(result.is_ok());

    let (size, done) = result.unwrap();
    assert_eq!(size, 2);
    assert_eq!(done, true);
}

#[test]
fn headers_test_incomplete_request_valid() {
    let input = "key: value";
    let mut headers = Headers::new();
    let result = headers.parse_header(input.as_bytes());
    assert!(result.is_ok());

    let (size, done) = result.unwrap();
    assert_eq!(size, 0);
    assert_eq!(done, false);
}

#[test]
fn headers_test_invalid_name_character_should_throw_error() {
    let input = "@:email\r\n";
    let mut headers = Headers::new();
    let result = headers.parse_header(input.as_bytes());
    assert!(result.is_err());
}

#[test]
fn insert_then_get() {
    let mut headers = Headers::new();
    headers.insert("drink", "milk");
    assert_eq!(headers.get("drink"), Some("milk"));
    assert_eq!(headers.get("food"), None);
    assert_eq!(headers.len(), 1);
    assert!(!headers.is_empty());
}

#[test]
fn insert_overwrites() {
    let mut headers = Headers::new();
    headers.insert("drink", "milk");
    headers.insert("food", "pizza");
    headers.insert("drink", "water");
    assert_eq!(headers.get("drink"), Some("water"));
    assert_eq!(headers.len(), 2);
    assert_eq!(headers.iter(), vec![("drink", "water"), ("food", "pizza")]);
}

#[test]
fn insert_then_append_joins_with_comma_and_space() {
    let mut headers = Headers::new();
    headers.insert("drink", "milk");
    headers.append("drink", "water");
    headers.append("food", "pizza");
    assert_eq!(headers.get("drink"), Some("milk, water"));
    assert_eq!(headers.get("food"), Some("pizza"));
}

#[test]
fn append_alone_on_empty_map_binds_the_value() {
    let mut headers = Headers::new();
    headers.append("drink", "milk");
    assert_eq!(headers.get("drink"), Some("milk"));
    assert_eq!(headers.len(), 1);
}

#[test]
fn append_to_empty_value_replaces_it() {
    let mut headers = Headers::new();
    headers.insert("drink", "");
    headers.append("drink", "milk");
    assert_eq!(headers.get("drink"), Some("milk"));
}

#[test]
fn new_and_default_are_empty() {
    assert!(Headers::new().is_empty());
    assert_eq!(Headers::new().len(), 0);
    assert!(Headers::default().is_empty());
    assert!(Headers::new().iter().is_empty());
}

#[test]
fn iter_yields_each_pair_once_in_order() {
    let mut headers = Headers::new();
    let input = "B: 2\r\nA: 1\r\nb: 3\r\n\r\n";
    assert!(matches!(headers.parse_header(input.as_bytes()), Ok((20, true))));
    assert_eq!(headers.iter(), vec![("b", "2, 3"), ("a", "1")]);
}

#[test]
fn parsed_names_are_lower_case() {
    let mut headers = Headers::new();
    let input = "Content-TYPE: Text/HTML\r\nX-Custom_1: Yes\r\n\r\n";
    assert!(headers.parse_header(input.as_bytes()).is_ok());
    for (name, _) in headers.iter() {
        assert_eq!(name, name.to_ascii_lowercase());
    }
    assert_eq!(headers.get("content-type"), Some("Text/HTML"));
    assert_eq!(headers.get("x-custom_1"), Some("Yes"));
    assert_eq!(headers.get("Content-TYPE"), None);
}

#[test]
fn missing_colon_is_malformed() {
    let mut headers = Headers::new();
    let result = headers.create_header_from_string("Host localhost");
    assert!(matches!(result, Err(HttpError::MalformedHeader)));
    assert!(headers.is_empty());
}

#[test]
fn tab_before_colon_is_malformed() {
    let mut headers = Headers::new();
    let result = headers.create_header_from_string("Host\t: localhost");
    assert!(matches!(result, Err(HttpError::MalformedHeader)));
}

#[test]
fn empty_lower_case_host_is_invalid() {
    let mut headers = Headers::new();
    let result = headers.create_header_from_string("host:   ");
    assert!(matches!(result, Err(HttpError::InvalidHeaders)));
    assert!(headers.is_empty());
}

#[test]
fn empty_host_in_other_case_is_kept() {
    let mut headers = Headers::new();
    assert!(headers.create_header_from_string("Host:").is_ok());
    assert_eq!(headers.get("host"), Some(""));
}

#[test]
fn empty_value_is_legal_for_other_fields() {
    let mut headers = Headers::new();
    assert!(headers.create_header_from_string("x-empty:").is_ok());
    assert_eq!(headers.get("x-empty"), Some(""));
}

#[test]
fn value_keeps_inner_spaces_and_colons() {
    let mut headers = Headers::new();
    assert!(headers
        .create_header_from_string("  User-Agent:   curl / 7.81.0 : x  ")
        .is_ok());
    assert_eq!(headers.get("user-agent"), Some("curl / 7.81.0 : x"));
}

#[test]
fn unicode_whitespace_is_trimmed() {
    let mut headers = Headers::new();
    assert!(headers
        .create_header_from_string("\u{a0}name:\u{2003}value\u{3000}")
        .is_ok());
    assert_eq!(headers.get("name"), Some("value"));
}

#[test]
fn every_token_symbol_is_accepted_in_a_name() {
    let mut headers = Headers::new();
    assert!(headers
        .create_header_from_string("aZ09!#$%&'*+-.^_`|~: ok")
        .is_ok());
    assert_eq!(headers.get("az09!#$%&'*+-.^_`|~"), Some("ok"));
}

#[test]
fn characters_outside_the_token_grammar_are_refused() {
    for bad in ["(", ")", ",", "/", ";", "<", "=", ">", "?", "@", "[", "\\", "]", "{", "}", "\"", "\u{e9}"] {
        let mut headers = Headers::new();
        let line = format!("na{bad}me: value");
        let result = headers.create_header_from_string(&line);
        assert!(matches!(result, Err(HttpError::MalformedHeader)), "{line}");
    }
}

#[test]
fn bytes_that_are_not_utf8_are_replaced_in_values() {
    let mut headers = Headers::new();
    let input = b"x-raw: a\xffb\r\n\r\n";
    let result = headers.parse_header(input);
    assert!(matches!(result, Ok((14, true))));
    assert_eq!(headers.get("x-raw"), Some("a\u{fffd}b"));
}

#[test]
fn refused_line_keeps_the_lines_before_it() {
    let mut headers = Headers::new();
    let input = "a: 1\r\nb 2\r\nc: 3\r\n\r\n";
    let result = headers.parse_header(input.as_bytes());
    assert!(matches!(result, Err(HttpError::MalformedHeader)));
    assert_eq!(headers.iter(), vec![("a", "1")]);
}

#[test]
fn parser_stops_behind_the_last_complete_line() {
    let mut headers = Headers::new();
    let input = "a: 1\r\nb: 2\r\nc: 3\r";
    let result = headers.parse_header(input.as_bytes());
    assert!(matches!(result, Ok((12, false))));
    assert_eq!(&input.as_bytes()[10..12], b"\r\n");
    assert_eq!(headers.len(), 2);
}

#[test]
fn parser_does_not_read_behind_the_blank_line() {
    let mut headers = Headers::new();
    let input = "a: 1\r\n\r\nb: 2\r\n\r\n";
    let result = headers.parse_header(input.as_bytes());
    assert!(matches!(result, Ok((8, true))));
    assert_eq!(headers.get("b"), None);
}

#[test]
fn resuming_gives_what_one_call_gives() {
    let whole = "Host: localhost:8080\r\nAccept: */*\r\nX-A: 1\r\n\r\nbody";
    let mut at_once = Headers::new();
    let expected = at_once.parse_header(whole.as_bytes()).unwrap();
    assert_eq!(expected, (45, true));

    for cut in 0..whole.len() {
        let mut resumed = Headers::new();
        let (first, done) = resumed.parse_header(&whole.as_bytes()[..cut]).unwrap();
        if done {
            assert_eq!((first, done), expected);
        } else {
            let (second, done) = resumed.parse_header(&whole.as_bytes()[first..]).unwrap();
            assert_eq!((first + second, done), expected);
        }
        assert_eq!(resumed.iter(), at_once.iter());
    }
}

#[test]
fn duplicate_headers_sees_repeated_critical_fields() {
    for name in ["host", "content-length", "transfer-encoding", "connection"] {
        let mut headers = Headers::new();
        headers.insert(name, "a");
        assert!(!headers.duplicate_headers());
        headers.append(name, "b");
        assert!(headers.duplicate_headers(), "{name}");
    }
}

#[test]
fn duplicate_headers_ignores_other_fields_and_lone_commas() {
    let mut headers = Headers::new();
    headers.insert("accept", "a, b");
    headers.insert("host", "a,b ,c");
    assert!(!headers.duplicate_headers());
    assert!(!Headers::new().duplicate_headers());
}

#[test]
fn blank_line_completes_the_block_wherever_it_stands() {
    for (input, size) in [
        ("\r\n", 2),
        ("\r\n\r\n", 2),
        ("a: 1\r\n\r\n", 8),
        ("a: 1\r\nb: 2\r\n\r\nrest\r\n\r\n", 14),
    ] {
        let mut headers = Headers::new();
        let (consumed, done) = headers.parse_header(input.as_bytes()).unwrap();
        assert!(done, "{input:?}");
        assert_eq!(consumed, size);
        assert_eq!(&input.as_bytes()[consumed - 2..consumed], b"\r\n");
        assert!(consumed == 2 || &input.as_bytes()[consumed - 4..consumed - 2] == b"\r\n");
    }
}

#[test]
fn parsed_values_are_trimmed() {
    for line in ["a:b", "a: b ", "a:\t b\t", " a:   ", "a:\u{a0}b c\u{2009}"] {
        let mut headers = Headers::new();
        headers.create_header_from_string(line).unwrap();
        let value = headers.get("a").unwrap();
        assert_eq!(value, value.trim(), "{line:?}");
    }
}
