//! The decisions of one connection: from a parsed request to the reply,
//! with the filesystem's answers handed in as plain values.

use vstd::prelude::*;
use vstd::utf8::encode_utf8;
use crate::listing::{entries_view, get_dir_contents_as_html, listing_of, ListingEntry};
use crate::mime::{content_type_for, content_type_of};
use crate::paths::{file_name_of, last_segment, target_of, target_path, RejectReason};
use crate::request::{error_text, pairs_view, HttpRequest, ParseHttpRequestError};
use crate::response::{assemble_response, decimal, decimal_string, head_text};
use crate::text::same_text;

verus! {

/// A response ready to be framed.
pub struct Reply {
    pub status_line: String,
    pub headers: Vec<(String, String)>,
    pub body: Vec<u8>,
}

pub struct ReplyView {
    pub status_line: Seq<char>,
    pub headers: Seq<(Seq<char>, Seq<char>)>,
    pub body: Seq<u8>,
}

impl View for Reply {
    type V = ReplyView;

    open spec fn view(&self) -> ReplyView {
        ReplyView {
            status_line: self.status_line@,
            headers: pairs_view(self.headers@),
            body: self.body@,
        }
    }
}

pub open spec fn reply_of(status: Seq<char>, hs: Seq<(Seq<char>, Seq<char>)>, body: Seq<u8>) -> ReplyView {
    ReplyView { status_line: status, headers: hs, body }
}

pub open spec fn no_headers() -> Seq<(Seq<char>, Seq<char>)> {
    Seq::empty()
}

pub open spec fn one_header(name: Seq<char>, value: Seq<char>) -> Seq<(Seq<char>, Seq<char>)> {
    seq![(name, value)]
}

pub open spec fn bad_request() -> Seq<char> {
    "HTTP/1.1 400 Bad Request"@
}

pub open spec fn not_found() -> Seq<char> {
    "HTTP/1.1 404 Not Found"@
}

pub open spec fn server_error() -> Seq<char> {
    "HTTP/1.1 500 Internal Server Error"@
}

impl Reply {
    /// The bytes sent on the wire for this reply.
    pub fn into_bytes(self) -> (r: Vec<u8>)
        ensures
            r@ == encode_utf8(head_text(self@.status_line, self@.headers, self@.body.len()))
                + self@.body,
    {
        assemble_response(self.status_line.as_str(), Some(self.headers), Some(self.body))
    }
}

fn text_bytes(s: &str) -> (r: Vec<u8>)
    ensures
        r@ == encode_utf8(s@),
{
    let b = s.as_bytes();
    let mut out: Vec<u8> = Vec::new();
    let mut i: usize = 0;
    while i < b.len()
        invariant
            i <= b@.len(),
            b@ == encode_utf8(s@),
            out@ == b@.take(i as int),
        decreases b.len() - i,
    {
        out.push(b[i]);
        assert(b@.take(i + 1) =~= b@.take(i as int).push(b@[i as int]));
        i += 1;
    }
    assert(b@.take(b.len() as int) =~= b@);
    out
}

fn plain_reply(status: &str) -> (r: Reply)
    ensures
        r@ == reply_of(status@, no_headers(), Seq::empty()),
{
    let r = Reply { status_line: String::from_str(status), headers: Vec::new(), body: Vec::new() };
    assert(r@.headers =~= no_headers());
    r
}

/// What the server does next with a parsed request.
pub enum Route {
    /// Answer at once.
    Respond(Reply),
    /// Look at this path (the first field) on the filesystem and resolve
    /// it; the second field is the request's protocol, for a 200 reply.
    Inspect(String, String),
}

/// The route a parse outcome takes: a parse error is answered with 400 and
/// the error's text, a request without a path or protocol with an empty
/// 400, and a request with both goes on to the filesystem path it names.
pub open spec fn route_spec(
    parsed: Result<HttpRequest, ParseHttpRequestError>,
    root: Seq<char>,
    r: Route,
) -> bool {
    match parsed {
        Err(e) => r matches Route::Respond(rep) && rep@ == reply_of(
            bad_request(),
            no_headers(),
            encode_utf8(error_text(e)),
        ),
        Ok(q) => match (q.path, q.protocol) {
            (Some(p), Some(v)) => r matches Route::Inspect(t, w) && t@ == target_of(root, p@)
                && w@ == v@,
            _ => r matches Route::Respond(rep) && rep@ == reply_of(
                bad_request(),
                no_headers(),
                Seq::empty(),
            ),
        },
    }
}

/// Routes a parse outcome.
pub fn route_request(parsed: &Result<HttpRequest, ParseHttpRequestError>, root: &str) -> (r: Route)
    ensures
        route_spec(*parsed, root@, r),
{
    match parsed {
        Err(e) => {
            let text = e.message();
            let body = text_bytes(text.as_str());
            let rep = Reply {
                status_line: String::from_str("HTTP/1.1 400 Bad Request"),
                headers: Vec::new(),
                body,
            };
            assert(rep@.headers =~= no_headers());
            Route::Respond(rep)
        },
        Ok(q) => match (&q.path, &q.protocol) {
            (Some(p), Some(v)) => Route::Inspect(target_path(root, p.as_str()), v.clone()),
            _ => Route::Respond(plain_reply("HTTP/1.1 400 Bad Request")),
        },
    }
}

/// The reply to a path that was not served: 404 with an empty body,
/// whatever the reason.
pub fn rejection_reply(_reason: RejectReason) -> (r: Reply)
    ensures
        r@ == reply_of(not_found(), no_headers(), Seq::empty()),
{
    plain_reply("HTTP/1.1 404 Not Found")
}

/// The reply to a directory request. `entries` is `None` where the
/// directory could not be read; then, as on a refused listing, the reply
/// is an empty 500. Otherwise it is a 200 with the HTML listing.
pub fn directory_reply(
    target: &str,
    root: &str,
    address: &str,
    entries: Option<&[ListingEntry]>,
) -> (r: Reply)
    ensures
        match entries {
            None => r@ == reply_of(server_error(), no_headers(), Seq::empty()),
            Some(es) => match listing_of(root@, address@, target@, true, entries_view(es@)) {
                Ok(html) => r@ == reply_of(
                    "HTTP/1.1 200 OK"@,
                    one_header("Content-Type"@, "text/html"@),
                    encode_utf8(html),
                ),
                Err(_) => r@ == reply_of(server_error(), no_headers(), Seq::empty()),
            },
        },
{
    match entries {
        None => plain_reply("HTTP/1.1 500 Internal Server Error"),
        Some(es) => match get_dir_contents_as_html(target, root, address, true, es) {
            Err(_) => plain_reply("HTTP/1.1 500 Internal Server Error"),
            Ok(html) => {
                let mut headers: Vec<(String, String)> = Vec::new();
                headers.push((String::from_str("Content-Type"), String::from_str("text/html")));
                let rep = Reply {
                    status_line: String::from_str("HTTP/1.1 200 OK"),
                    headers,
                    body: text_bytes(html.as_str()),
                };
                assert(rep@.headers =~= one_header("Content-Type"@, "text/html"@));
                rep
            },
        },
    }
}

/// The reply to a regular file: where reading failed, a 400 whose body is
/// the error's text; else a 200 under the request's protocol, typed by the
/// file name's extension, with the file's bytes.
pub fn file_reply(
    protocol: &str,
    target: &str,
    contents: Result<Vec<u8>, String>,
    mime_table: &[(String, String)],
) -> (r: Reply)
    ensures
        match contents {
            Err(msg) => r@ == reply_of(bad_request(), no_headers(), encode_utf8(msg@)),
            Ok(bytes) => r@ == reply_of(
                protocol@ + " 200 OK"@,
                one_header(
                    "Content-Type"@,
                    content_type_of(pairs_view(mime_table@), last_segment(target@)),
                ),
                bytes@,
            ),
        },
{
    match contents {
        Err(msg) => {
            let rep = Reply {
                status_line: String::from_str("HTTP/1.1 400 Bad Request"),
                headers: Vec::new(),
                body: text_bytes(msg.as_str()),
            };
            assert(rep@.headers =~= no_headers());
            rep
        },
        Ok(bytes) => {
            let name = file_name_of(target);
            let mime = content_type_for(mime_table, name);
            let mut headers: Vec<(String, String)> = Vec::new();
            headers.push((String::from_str("Content-Type"), mime));
            let mut status = String::from_str(protocol);
            status.append(" 200 OK");
            let rep = Reply { status_line: status, headers, body: bytes };
            assert(rep@.headers =~= one_header(
                "Content-Type"@,
                content_type_of(pairs_view(mime_table@), last_segment(target@)),
            ));
            rep
        },
    }
}

/// The port actually bound: the one asked for when it lies in 1..=65535,
/// else 8080.
pub fn effective_port(port: i32) -> (r: u16)
    ensures
        r == (if 1 <= port <= 65535 {
            port as u16
        } else {
            8080u16
        }),
{
    if 1 <= port && port <= 65535 {
        port as u16
    } else {
        8080
    }
}

/// The base address that listing links start with: `http://HOST:PORT`,
/// where the wildcard address `::` is shown as `localhost`.
pub fn base_url(address: &str, port: u16) -> (r: String)
    ensures
        r@ == "http://"@ + (if address@ == "::"@ {
            "localhost"@
        } else {
            address@
        }) + ":"@ + decimal(port as nat),
{
    let mut r = String::from_str("http://");
    if same_text(address, "::") {
        r.append("localhost");
    } else {
        r.append(address);
    }
    r.append(":");
    let digits = decimal_string(port as usize);
    r.append(digits.as_str());
    r
}

} // verus!
