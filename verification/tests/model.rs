use httpserver::http::headers::Headers;
use httpserver::http::request::HttpError;
use httpserver::http::request_line::parse_request_line;

struct Dice(u64);

impl Dice {
    fn roll(&mut self, sides: usize) -> usize {
        self.0 = self
            .0
            .wrapping_mul(6364136223846793005)
            .wrapping_add(1442695040888963407);
        ((self.0 >> 33) as usize) % sides
    }

    fn text(&mut self, pieces: &[&str], most: usize) -> String {
        let count = self.roll(most + 1);
        let mut text = String::new();
        for _ in 0..count {
            text.push_str(pieces[self.roll(pieces.len())]);
        }
        text
    }
}

#[derive(Debug, PartialEq)]
enum Refused {
    Malformed,
    Invalid,
}

fn is_token_char(c: char) -> bool {
    c.is_ascii_alphanumeric() || "!#$%&'*+-.^_`|~".contains(c)
}

fn line_model(fields: &mut Vec<(String, String)>, line: &str) -> Result<(), Refused> {
    let (key, value) = line.trim().split_once(':').ok_or(Refused::Malformed)?;
    let value = value.trim();
    if key.contains(' ') || !key.chars().all(is_token_char) {
        return Err(Refused::Malformed);
    }
    if key == "host" && value.is_empty() {
        return Err(Refused::Invalid);
    }
    let name = key.to_lowercase();
    match fields.iter_mut().find(|field| field.0 == name) {
        Some(field) => {
            if !field.1.is_empty() {
                field.1.push_str(", ");
            }
            field.1.push_str(value);
        }
        None => fields.push((name, value.to_string())),
    }
    Ok(())
}

fn block_model(
    fields: &mut Vec<(String, String)>,
    text: &str,
) -> Result<(usize, bool), Refused> {
    let mut consumed = 0;
    if text.contains("\r\n\r\n") {
        for line in text.split("\r\n") {
            if line.is_empty() {
                consumed += 2;
                break;
            }
            consumed += line.len() + 2;
            line_model(fields, line)?;
        }
        return Ok((consumed, true));
    }
    if let Some((complete, _)) = text.rsplit_once("\r\n") {
        for line in complete.split("\r\n") {
            if line.is_empty() {
                return Ok((consumed + 2, true));
            }
            consumed += line.len() + 2;
            line_model(fields, line)?;
        }
        return Ok((consumed, false));
    }
    Ok((0, false))
}

const PIECES: [&str; 24] = [
    "a", "B", "host", "Host", "x-y", ":", ":", " ", " ", "\t", "\r\n", "\r\n", "\r\n", "\r", "\n",
    ",", ", ", "@", "1", "\u{e9}", "\u{a0}", "\u{2003}", "~", "v",
];

#[test]
fn header_parser_agrees_with_a_model_on_strings() {
    let mut dice = Dice(7);
    for round in 0..30000 {
        let text = dice.text(&PIECES, 24);
        let mut expected_fields = Vec::new();
        let expected = block_model(&mut expected_fields, &text);
        let mut headers = Headers::new();
        let got = headers.parse_header(text.as_bytes());
        match (&expected, &got) {
            (Ok(size), Ok(parsed)) => assert_eq!(size, parsed, "{round}: {text:?}"),
            (Err(Refused::Malformed), Err(HttpError::MalformedHeader)) => {}
            (Err(Refused::Invalid), Err(HttpError::InvalidHeaders)) => {}
            _ => panic!("{round}: {text:?}: {expected:?} and {got:?}"),
        }
        let got_fields: Vec<(String, String)> = headers
            .iter()
            .into_iter()
            .map(|(name, value)| (name.to_string(), value.to_string()))
            .collect();
        assert_eq!(expected_fields, got_fields, "{round}: {text:?}");
    }
}

fn request_line_model(
    text: &str,
) -> Result<Option<(String, String, String, usize)>, String> {
    let Some((line, _)) = text.split_once("\r\n") else {
        return Ok(None);
    };
    let parts: Vec<&str> = line.split(' ').collect();
    if parts.len() != 3 {
        return Err(String::from("malformed"));
    }
    let version = parts[2]
        .strip_prefix("HTTP/")
        .ok_or(String::from("malformed"))?;
    let methods = [
        "GET", "POST", "PATCH", "PUT", "DELETE", "HEAD", "OPTIONS", "CONNECT", "TRACE",
    ];
    if !methods.contains(&parts[0]) {
        return Err(format!("method {}", parts[0]));
    }
    Ok(Some((
        parts[0].to_string(),
        parts[1].to_string(),
        version.to_string(),
        line.len() + 2,
    )))
}

const LINE_PIECES: [&str; 20] = [
    "GET", "GET", "POST", "TRACE", "get", " ", " ", " ", "/", "/a", "HTTP/", "HTTP/", "1.1",
    "HTTP/1.1", "\r\n", "\r", "\n", "\t", "\u{e9}", "H",
];

#[test]
fn request_line_parser_agrees_with_a_model_on_strings() {
    let mut dice = Dice(11);
    for round in 0..30000 {
        let text = dice.text(&LINE_PIECES, 9);
        let expected = request_line_model(&text);
        let got = parse_request_line(&text);
        match (expected, got) {
            (Ok(None), Ok((None, 0))) => {}
            (Ok(Some(line)), Ok((Some(parsed), size))) => {
                assert_eq!(line.0, parsed.method, "{round}: {text:?}");
                assert_eq!(line.1, parsed.request_target, "{round}: {text:?}");
                assert_eq!(line.2, parsed.http_version, "{round}: {text:?}");
                assert_eq!(line.3, size, "{round}: {text:?}");
            }
            (Err(why), Err(HttpError::MalformedRequestLine)) => {
                assert_eq!(why, "malformed", "{round}: {text:?}")
            }
            (Err(why), Err(HttpError::InvalidMethod(method))) => {
                assert_eq!(why, format!("method {method}"), "{round}: {text:?}")
            }
            (expected, got) => panic!("{round}: {text:?}: {expected:?} and {got:?}"),
        }
    }
}
