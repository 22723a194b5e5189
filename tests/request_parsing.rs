use http_mini::request::{
    build_header_pairs, init_request, is_request_method, parse_header, parse_request,
    split_spaces, HttpRequest, ParseHttpRequestError, StreamTrait,
};

fn lines(v: &[&str]) -> Vec<String> {
    v.iter().map(|s| s.to_string()).collect()
}

fn empty_request() -> HttpRequest {
    HttpRequest { method: None, protocol: None, path: None, headers: vec![], body: None }
}

#[test]
fn well_formed_request_line_is_echoed() {
    for method in ["GET", "POST", "PUT", "DELETE", "HEAD", "OPTIONS"] {
        let line = format!("{} /docs/a.txt HTTP/1.0", method);
        let r = parse_request(&lines(&[line.as_str()])).unwrap();
        assert_eq!(r.method.as_deref(), Some(method));
        assert_eq!(r.path.as_deref(), Some("/docs/a.txt"));
        assert_eq!(r.protocol.as_deref(), Some("HTTP/1.0"));
        assert!(r.headers.is_empty());
        assert_eq!(r.body, None);
    }
}

#[test]
fn two_tokens_are_malformed() {
    let r = parse_request(&lines(&["GET HTTP/1.1"]));
    assert_eq!(r, Err(ParseHttpRequestError::BadLen));
}

#[test]
fn four_tokens_are_malformed() {
    let r = parse_request(&lines(&["GET / HTTP/1.1 extra"]));
    assert_eq!(r, Err(ParseHttpRequestError::BadLen));
}

#[test]
fn one_token_is_malformed() {
    let r = parse_request(&lines(&["GET"]));
    assert_eq!(r, Err(ParseHttpRequestError::BadLen));
}

#[test]
fn each_request_line_error() {
    assert_eq!(parse_request(&lines(&[" / HTTP/1.1"])), Err(ParseHttpRequestError::NoMethod));
    assert_eq!(parse_request(&lines(&["FETCH / HTTP/1.1"])), Err(ParseHttpRequestError::UnknownMethod));
    assert_eq!(parse_request(&lines(&["get / HTTP/1.1"])), Err(ParseHttpRequestError::UnknownMethod));
    assert_eq!(parse_request(&lines(&["GET  HTTP/1.1"])), Err(ParseHttpRequestError::NoPath));
    assert_eq!(parse_request(&lines(&["GET / "])), Err(ParseHttpRequestError::NoProtocol));
    assert_eq!(parse_request(&lines(&["GET / FTP/1.0"])), Err(ParseHttpRequestError::UnknownProtocol));
}

#[test]
fn error_messages() {
    assert_eq!(ParseHttpRequestError::BadLen.message(), "Invalid request format");
    assert_eq!(ParseHttpRequestError::NoMethod.message(), "Missing request method");
    assert_eq!(ParseHttpRequestError::UnknownMethod.message(), "Unknown request method");
    assert_eq!(ParseHttpRequestError::NoPath.message(), "Missing request path");
    assert_eq!(ParseHttpRequestError::NoProtocol.message(), "Missing request protocol");
    assert_eq!(ParseHttpRequestError::UnknownProtocol.message(), "Unknown request protocol");
}

#[test]
fn headers_split_at_first_separator_in_order() {
    let r = parse_request(&lines(&[
        "GET / HTTP/1.1",
        "Host: localhost:8080",
        "X-Note: a: b",
        "Host: second",
    ]))
    .unwrap();
    assert_eq!(
        r.headers,
        vec![
            ("Host".to_string(), "localhost:8080".to_string()),
            ("X-Note".to_string(), "a: b".to_string()),
            ("Host".to_string(), "second".to_string()),
        ]
    );
}

#[test]
fn header_line_without_separator_is_skipped() {
    let r = parse_request(&lines(&["GET / HTTP/1.1", "Broken", "A: 1", "B:2"])).unwrap();
    assert_eq!(r.headers, vec![("A".to_string(), "1".to_string())]);
}

#[test]
fn parsing_stops_at_blank_line() {
    let r = parse_request(&lines(&["GET / HTTP/1.1", "A: 1", "", "B: 2", "not a request"])).unwrap();
    assert_eq!(r.headers, vec![("A".to_string(), "1".to_string())]);
    assert_eq!(r.body.as_deref(), Some("B: 2\nnot a request"));
    let r = parse_request(&lines(&["GET / HTTP/1.1", ""])).unwrap();
    assert_eq!(r.body, None);
    let r = parse_request(&lines(&["GET / HTTP/1.1", "", ""])).unwrap();
    assert_eq!(r.body.as_deref(), Some(""));
}

#[test]
fn blank_first_line_gives_empty_request() {
    let mut with_body = empty_request();
    with_body.body = Some("GET / HTTP/1.1".to_string());
    assert_eq!(parse_request(&lines(&["", "GET / HTTP/1.1"])), Ok(with_body));
    assert_eq!(parse_request(&lines(&[""])), Ok(empty_request()));
    assert_eq!(parse_request(&lines(&[])), Ok(empty_request()));
}

#[test]
fn parse_through_trait() {
    let v = lines(&["HEAD /x HTTP/1.1", "Accept: */*"]);
    let r = v.parse().unwrap();
    assert_eq!(r.method.as_deref(), Some("HEAD"));
    assert_eq!(r.headers, vec![("Accept".to_string(), "*/*".to_string())]);
}

#[test]
fn body_lines_are_joined() {
    let r = parse_request(&lines(&["POST /f HTTP/1.1", "", "a=1", "b=2", "c"])).unwrap();
    assert_eq!(r.body.as_deref(), Some("a=1\nb=2\nc"));
    assert_eq!(
        http_mini::request::join_lines_of(&lines(&["x", "", "y"])),
        "x\n\ny"
    );
}

#[test]
fn split_spaces_keeps_empty_tokens() {
    assert_eq!(split_spaces("a  b"), vec!["a", "", "b"]);
    assert_eq!(split_spaces(""), vec![""]);
    assert_eq!(split_spaces(" x "), vec!["", "x", ""]);
}

#[test]
fn init_request_leaves_request_on_error() {
    let mut r = empty_request();
    assert_eq!(init_request(&mut r, &["GET", "/", "SPDY"]), Err(ParseHttpRequestError::UnknownProtocol));
    assert_eq!(r, empty_request());
    assert_eq!(init_request(&mut r, &["PUT", "/f", "HTTP/2"]), Ok(()));
    assert_eq!(r.method.as_deref(), Some("PUT"));
    assert_eq!(r.path.as_deref(), Some("/f"));
    assert_eq!(r.protocol.as_deref(), Some("HTTP/2"));
}

#[test]
fn single_header_parsing() {
    assert_eq!(parse_header("K: v"), Some(("K".to_string(), "v".to_string())));
    assert_eq!(parse_header(": v"), Some(("".to_string(), "v".to_string())));
    assert_eq!(parse_header("K: "), Some(("K".to_string(), "".to_string())));
    assert_eq!(parse_header("K:v"), None);
    assert_eq!(parse_header(""), None);
    assert_eq!(
        build_header_pairs(&lines(&["A: 1", "nope", "B: 2"])),
        vec![("A".to_string(), "1".to_string()), ("B".to_string(), "2".to_string())]
    );
}

#[test]
fn method_set() {
    assert!(is_request_method("OPTIONS"));
    assert!(!is_request_method("PATCH"));
    assert!(!is_request_method(""));
}
