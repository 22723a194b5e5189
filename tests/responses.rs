use http_mini::config::{classify_argument, settle_params, ArgUse, MissingSourceDirectoryError, Params};
use http_mini::framing::read_framed_body;
use http_mini::listing::{get_dir_contents_as_html, ListingEntry, ListingError};
use http_mini::paths::{resolve, RejectReason, ResolvedTarget};
use http_mini::request::parse_request;
use http_mini::response::{assemble_response, build_headers, decimal_string};
use http_mini::server::{
    base_url, directory_reply, effective_port, file_reply, rejection_reply, route_request, Route,
};

fn mime_table() -> Vec<(String, String)> {
    vec![
        ("css".to_string(), "text/css".to_string()),
        ("js".to_string(), "text/javascript".to_string()),
        ("png".to_string(), "image/png".to_string()),
    ]
}

/// Reads a framed response the way a client does: the head ends at the
/// first "\n\r\n", the last header line gives the length.
fn client_read(wire: &[u8]) -> (String, Vec<(String, String)>, Vec<u8>) {
    let p = wire.windows(3).position(|w| w == b"\n\r\n").unwrap();
    let head = String::from_utf8(wire[..p].to_vec()).unwrap();
    let (status, rest) = head.split_once("\r\n").unwrap();
    let headers: Vec<(String, String)> = rest
        .split('\n')
        .map(|l| {
            let (k, v) = l.split_once(": ").unwrap();
            (k.to_string(), v.to_string())
        })
        .collect();
    let len: usize = headers.last().unwrap().1.parse().unwrap();
    assert_eq!(headers.last().unwrap().0, "Content-Length");
    (status.to_string(), headers, wire[p + 3..p + 3 + len].to_vec())
}

fn lines(v: &[&str]) -> Vec<String> {
    v.iter().map(|s| s.to_string()).collect()
}

#[test]
fn decimal_formatting() {
    assert_eq!(decimal_string(0), "0");
    assert_eq!(decimal_string(7), "7");
    assert_eq!(decimal_string(10), "10");
    assert_eq!(decimal_string(65535), "65535");
    assert_eq!(decimal_string(usize::MAX), usize::MAX.to_string());
}

#[test]
fn header_block_appends_content_length() {
    let h = vec![("Content-Type".to_string(), "text/html".to_string()), ("X".to_string(), "y".to_string())];
    assert_eq!(build_headers(h, 42), "Content-Type: text/html\nX: y\nContent-Length: 42\n");
    assert_eq!(build_headers(vec![], 0), "Content-Length: 0\n");
}

#[test]
fn assembled_bytes_are_exact() {
    let w = assemble_response(
        "HTTP/1.1 200 OK",
        Some(vec![("Content-Type".to_string(), "text/plain".to_string())]),
        Some(b"hi".to_vec()),
    );
    assert_eq!(w, b"HTTP/1.1 200 OK\r\nContent-Type: text/plain\nContent-Length: 2\n\r\nhi".to_vec());
    let w = assemble_response("HTTP/1.1 404 Not Found", None, None);
    assert_eq!(w, b"HTTP/1.1 404 Not Found\r\nContent-Length: 0\n\r\n".to_vec());
}

#[test]
fn framing_round_trip() {
    let body: Vec<u8> = vec![0, 10, 13, 10, 255, b'\n', b'\r', b'\n', 7];
    let w = assemble_response(
        "HTTP/1.1 200 OK",
        Some(vec![("A".to_string(), "1".to_string()), ("B".to_string(), "x: y".to_string())]),
        Some(body.clone()),
    );
    let (status, headers, got) = client_read(&w);
    assert_eq!(status, "HTTP/1.1 200 OK");
    assert_eq!(headers.last().unwrap().1, body.len().to_string());
    assert_eq!(headers.len(), 3);
    assert_eq!(got, body);
}

#[test]
fn scenario_file_is_served() {
    let root = "/srv/www";
    let parsed = parse_request(&lines(&["GET /index.html HTTP/1.1"]));
    let target = match route_request(&parsed, root) {
        Route::Inspect(t, _) => t,
        Route::Respond(_) => panic!("expected a path to inspect"),
    };
    assert_eq!(target, "/srv/www/index.html");
    assert_eq!(resolve(root, &target, "http-mini", false, false), ResolvedTarget::RegularFile);
    let protocol = match route_request(&parsed, root) {
        Route::Inspect(_, v) => v,
        Route::Respond(_) => panic!("expected a path to inspect"),
    };
    assert_eq!(protocol, "HTTP/1.1");
    let reply = file_reply(&protocol, &target, Ok(b"hi".to_vec()), &mime_table());
    let (status, headers, body) = client_read(&reply.into_bytes());
    assert_eq!(status, "HTTP/1.1 200 OK");
    assert!(headers.contains(&("Content-Type".to_string(), "text/plain".to_string())));
    assert!(headers.contains(&("Content-Length".to_string(), "2".to_string())));
    assert_eq!(body, b"hi".to_vec());
}

#[test]
fn scenario_missing_file_read_error() {
    let root = "/srv/www";
    let parsed = parse_request(&lines(&["GET /missing.txt HTTP/1.1"]));
    let target = match route_request(&parsed, root) {
        Route::Inspect(t, _) => t,
        Route::Respond(_) => panic!("expected a path to inspect"),
    };
    assert_eq!(resolve(root, &target, "http-mini", false, false), ResolvedTarget::RegularFile);
    let msg = "No such file or directory (os error 2)".to_string();
    let reply = file_reply("HTTP/1.1", &target, Err(msg.clone()), &mime_table());
    let (status, _, body) = client_read(&reply.into_bytes());
    assert_eq!(status, "HTTP/1.1 400 Bad Request");
    assert_eq!(body, msg.into_bytes());
}

#[test]
fn scenario_malformed_request_line() {
    let parsed = parse_request(&lines(&["GET HTTP/1.1"]));
    let reply = match route_request(&parsed, "/srv/www") {
        Route::Respond(r) => r,
        Route::Inspect(_, _) => panic!("expected an immediate reply"),
    };
    let (status, headers, body) = client_read(&reply.into_bytes());
    assert_eq!(status, "HTTP/1.1 400 Bad Request");
    assert_eq!(headers, vec![("Content-Length".to_string(), "22".to_string())]);
    assert_eq!(body, b"Invalid request format".to_vec());
}

#[test]
fn scenario_directory_listing() {
    let root = "/srv/www";
    let parsed = parse_request(&lines(&["GET / HTTP/1.1"]));
    let target = match route_request(&parsed, root) {
        Route::Inspect(t, _) => t,
        Route::Respond(_) => panic!("expected a path to inspect"),
    };
    assert_eq!(resolve(root, &target, "http-mini", true, false), ResolvedTarget::Directory);
    let entries = vec![ListingEntry { name: "a.txt".to_string(), is_dir: false }];
    let reply = directory_reply(&target, root, "http://localhost:8080", Some(&entries));
    let (status, headers, body) = client_read(&reply.into_bytes());
    assert!(status.contains(" 200 "));
    assert!(headers.contains(&("Content-Type".to_string(), "text/html".to_string())));
    let html = String::from_utf8(body).unwrap();
    assert_eq!(html.matches("<li>").count(), 1);
    assert!(html.contains("<a href=\"http://localhost:8080/a.txt\" target=\"_self\">./a.txt</a>"));
    assert!(html.contains("<title>./</title>"));
}

#[test]
fn listing_has_one_item_per_child() {
    let entries = vec![
        ListingEntry { name: "b".to_string(), is_dir: true },
        ListingEntry { name: "c.css".to_string(), is_dir: false },
        ListingEntry { name: "d".to_string(), is_dir: false },
    ];
    let html = get_dir_contents_as_html("/srv/www/sub", "/srv/www", "http://h:1", true, &entries).unwrap();
    assert_eq!(
        html,
        "<!DOCTYPE html><html><head><title>./sub</title></head><body><ul>\n\
         <li><strong>DIR</strong>&nbsp;&nbsp;&nbsp; <a href=\"http://h:1/sub/b\" target=\"_self\">./sub/b</a>/</li>\n\
         <li>file&nbsp;&nbsp;&nbsp;&nbsp; <a href=\"http://h:1/sub/c.css\" target=\"_self\">./sub/c.css</a></li>\n\
         <li>file&nbsp;&nbsp;&nbsp;&nbsp; <a href=\"http://h:1/sub/d\" target=\"_self\">./sub/d</a></li>\n\
         \n</ul>\n</body></html>"
    );
    assert_eq!(html.matches("<li>").count(), 3);
    assert_eq!(html.matches("<a href=\"http://h:1/").count(), 3);
}

#[test]
fn listing_refusals() {
    assert_eq!(get_dir_contents_as_html("/srv/www/f", "/srv/www", "x", false, &[]), Err(ListingError::NotADirectory));
    assert_eq!(get_dir_contents_as_html("/etc", "/srv/www", "x", true, &[]), Err(ListingError::AccessForbidden));
    let empty = get_dir_contents_as_html("/srv/www", "/srv/www", "x", true, &[]).unwrap();
    assert_eq!(empty, "<!DOCTYPE html><html><head><title>.</title></head><body><ul>\n\n</ul>\n</body></html>");
}

#[test]
fn error_replies() {
    let (status, _, body) = client_read(&rejection_reply(RejectReason::SelfAccess).into_bytes());
    assert_eq!(status, "HTTP/1.1 404 Not Found");
    assert!(body.is_empty());
    let (status, _, body) = client_read(&directory_reply("/srv/www", "/srv/www", "x", None).into_bytes());
    assert_eq!(status, "HTTP/1.1 500 Internal Server Error");
    assert!(body.is_empty());
    let (status, _, _) = client_read(&directory_reply("/etc", "/srv/www", "x", Some(&[])).into_bytes());
    assert_eq!(status, "HTTP/1.1 500 Internal Server Error");
    let no_path = parse_request(&lines(&[""]));
    match route_request(&no_path, "/srv/www") {
        Route::Respond(r) => {
            assert_eq!(r.status_line, "HTTP/1.1 400 Bad Request");
            assert!(r.body.is_empty());
        }
        Route::Inspect(_, _) => panic!("expected an immediate reply"),
    }
}

#[test]
fn file_reply_uses_protocol_and_type() {
    let r = file_reply("HTTP/1.0", "/srv/www/s.css", Ok(vec![1, 2, 3]), &mime_table());
    assert_eq!(r.status_line, "HTTP/1.0 200 OK");
    assert_eq!(r.headers, vec![("Content-Type".to_string(), "text/css".to_string())]);
    assert_eq!(r.body, vec![1, 2, 3]);
}

#[test]
fn ports_and_base_url() {
    assert_eq!(effective_port(8090), 8090);
    assert_eq!(effective_port(1), 1);
    assert_eq!(effective_port(65535), 65535);
    assert_eq!(effective_port(0), 8080);
    assert_eq!(effective_port(65536), 8080);
    assert_eq!(effective_port(-5), 8080);
    assert_eq!(base_url("::", 8080), "http://localhost:8080");
    assert_eq!(base_url("192.168.1.23", 80), "http://192.168.1.23:80");
}

#[test]
fn startup_parameters() {
    assert_eq!(classify_argument("-v", false, false, false, true, true, true), ArgUse::Ignored);
    assert_eq!(classify_argument("/srv", false, false, false, true, false, false), ArgUse::SourceDir);
    assert_eq!(classify_argument("/srv", true, false, false, true, false, false), ArgUse::Ignored);
    assert_eq!(classify_argument("8090", true, false, false, false, true, false), ArgUse::Port);
    assert_eq!(classify_argument("::1", true, true, false, false, false, true), ArgUse::Address);
    assert_eq!(settle_params(None, None, None, false), Err(MissingSourceDirectoryError));
    assert_eq!(
        settle_params(None, None, None, true),
        Ok(("::".to_string(), 8080, "./".to_string()))
    );
    assert_eq!(
        settle_params(Some("127.0.0.1".to_string()), Some(9000), Some("/srv".to_string()), false),
        Ok(("127.0.0.1".to_string(), 9000, "/srv".to_string()))
    );
    assert_eq!(
        MissingSourceDirectoryError.message(),
        "Critical: missing absolute path to HTTP server source directory"
    );
}

#[test]
fn client_reader_recovers_body() {
    let body: Vec<u8> = vec![0, 10, 13, 10, 255];
    let w = assemble_response(
        "HTTP/1.1 200 OK",
        Some(vec![("A".to_string(), "1".to_string())]),
        Some(body.clone()),
    );
    assert_eq!(read_framed_body(&w), Some(body));
    let empty = assemble_response("HTTP/1.1 404 Not Found", None, None);
    assert_eq!(read_framed_body(&empty), Some(vec![]));
    assert_eq!(read_framed_body(b"S\r\nContent-Length: 1\n\r\nab"), Some(b"a".to_vec()));
    assert_eq!(read_framed_body(b"S\r\nContent-Length: 5\n\r\nab"), None);
    assert_eq!(read_framed_body(b"no terminator"), None);
    assert_eq!(read_framed_body(b"S\r\nContent-Length: x\n\r\n"), None);
    assert_eq!(read_framed_body(b"S\r\nContent-Length: \n\r\n"), None);
    assert_eq!(read_framed_body(b"S\r\nLength: 1\n\r\na"), None);
    assert_eq!(
        read_framed_body(b"S\r\nContent-Length: 99999999999999999999999999\n\r\n"),
        None
    );
}

#[test]
fn listing_under_slash_root_keeps_separator() {
    let entries = vec![ListingEntry { name: "x".to_string(), is_dir: false }];
    let html = get_dir_contents_as_html("/", "/", "http://localhost:8080", true, &entries).unwrap();
    assert!(html.contains("<a href=\"http://localhost:8080/x\" target=\"_self\">./x</a>"));
    let sub = vec![ListingEntry { name: "a.txt".to_string(), is_dir: false }];
    let html = get_dir_contents_as_html("/sub", "/", "http://h:1", true, &sub).unwrap();
    assert!(html.contains("<title>./sub</title>"));
    assert!(html.contains("<a href=\"http://h:1/sub/a.txt\""));
    let html = get_dir_contents_as_html("/srv/www/", "/srv/www/", "http://h:1", true, &sub).unwrap();
    assert!(html.contains("<a href=\"http://h:1/a.txt\""));
}

#[test]
fn listing_of_root_reached_through_parent_step() {
    let sub = vec![ListingEntry { name: "a.txt".to_string(), is_dir: false }];
    let html = get_dir_contents_as_html("/r/a/..", "/r", "http://h:1", true, &sub).unwrap();
    assert_eq!(html.matches("<li>").count(), 1);
    assert_eq!(
        get_dir_contents_as_html("/r/..", "/r", "http://h:1", true, &sub),
        Err(ListingError::AccessForbidden)
    );
}

#[test]
fn request_without_protocol_gets_empty_400() {
    let q = http_mini::request::HttpRequest {
        method: Some("GET".to_string()),
        protocol: None,
        path: Some("/".to_string()),
        headers: vec![],
        body: None,
    };
    match route_request(&Ok(q), "/srv/www") {
        Route::Respond(r) => {
            assert_eq!(r.status_line, "HTTP/1.1 400 Bad Request");
            assert!(r.body.is_empty());
        }
        Route::Inspect(_, _) => panic!("expected an immediate reply"),
    }
}

#[test]
fn arguments_fill_roles_in_turn() {
    let mut p = Params::new();
    p.take_argument("-v".to_string(), None, None, false);
    assert_eq!(p, Params::new());
    p.take_argument("/srv".to_string(), Some("/srv".to_string()), None, false);
    p.take_argument("8090".to_string(), None, Some(8090), false);
    p.take_argument("::1".to_string(), None, None, true);
    p.take_argument("9000".to_string(), None, Some(9000), false);
    assert_eq!(p.source_dir.as_deref(), Some("/srv"));
    assert_eq!(p.port, Some(8090));
    assert_eq!(p.address.as_deref(), Some("::1"));
}
