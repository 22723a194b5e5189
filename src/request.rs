//! Parsing of the request head: the request line and the header lines.

use vstd::prelude::*;
use crate::text::{
    contains_seq, contains_text, lemma_split_nonempty, occurs_at, same_text, split_at_char,
    split_on, strs_view,
};

verus! {

/// Why a request head could not be parsed.
#[derive(Debug, Clone, Copy, PartialEq, Eq, Structural)]
pub enum ParseHttpRequestError {
    BadLen,
    NoMethod,
    UnknownMethod,
    NoPath,
    NoProtocol,
    UnknownProtocol,
}

/// The human-readable text of each parse error.
pub open spec fn error_text(e: ParseHttpRequestError) -> Seq<char> {
    match e {
        ParseHttpRequestError::BadLen => "Invalid request format"@,
        ParseHttpRequestError::NoMethod => "Missing request method"@,
        ParseHttpRequestError::UnknownMethod => "Unknown request method"@,
        ParseHttpRequestError::NoPath => "Missing request path"@,
        ParseHttpRequestError::NoProtocol => "Missing request protocol"@,
        ParseHttpRequestError::UnknownProtocol => "Unknown request protocol"@,
    }
}

impl ParseHttpRequestError {
    /// The text sent back to the client with a 400 response.
    pub fn message(&self) -> (r: String)
        ensures
            r@ == error_text(*self),
    {
        match self {
            ParseHttpRequestError::BadLen => String::from_str("Invalid request format"),
            ParseHttpRequestError::NoMethod => String::from_str("Missing request method"),
            ParseHttpRequestError::UnknownMethod => String::from_str("Unknown request method"),
            ParseHttpRequestError::NoPath => String::from_str("Missing request path"),
            ParseHttpRequestError::NoProtocol => String::from_str("Missing request protocol"),
            ParseHttpRequestError::UnknownProtocol => String::from_str("Unknown request protocol"),
        }
    }
}

/// A parsed request head. Fields stay `None` when the head was empty.
#[derive(Debug, PartialEq)]
pub struct HttpRequest {
    pub method: Option<String>,
    pub protocol: Option<String>,
    pub path: Option<String>,
    pub headers: Vec<(String, String)>,
    pub body: Option<String>,
}

/// The mathematical value of an `HttpRequest`.
pub struct RequestView {
    pub method: Option<Seq<char>>,
    pub protocol: Option<Seq<char>>,
    pub path: Option<Seq<char>>,
    pub headers: Seq<(Seq<char>, Seq<char>)>,
    pub body: Option<Seq<char>>,
}

pub open spec fn opt_view(o: Option<String>) -> Option<Seq<char>> {
    match o {
        Some(s) => Some(s@),
        None => None,
    }
}

pub open spec fn pairs_view(v: Seq<(String, String)>) -> Seq<(Seq<char>, Seq<char>)> {
    v.map_values(|p: (String, String)| (p.0@, p.1@))
}

pub open spec fn strings_view(v: Seq<String>) -> Seq<Seq<char>> {
    v.map_values(|t: String| t@)
}

impl View for HttpRequest {
    type V = RequestView;

    open spec fn view(&self) -> RequestView {
        RequestView {
            method: opt_view(self.method),
            protocol: opt_view(self.protocol),
            path: opt_view(self.path),
            headers: pairs_view(self.headers@),
            body: opt_view(self.body),
        }
    }
}

pub open spec fn empty_request() -> RequestView {
    RequestView { method: None, protocol: None, path: None, headers: Seq::empty(), body: None }
}

pub open spec fn result_view(r: Result<HttpRequest, ParseHttpRequestError>) -> Result<
    RequestView,
    ParseHttpRequestError,
> {
    match r {
        Ok(q) => Ok(q@),
        Err(e) => Err(e),
    }
}

/// The methods a request line may name.
pub open spec fn is_method(t: Seq<char>) -> bool {
    t == "GET"@ || t == "POST"@ || t == "PUT"@ || t == "DELETE"@ || t == "HEAD"@ || t
        == "OPTIONS"@
}

/// The verdict on the tokens of a request line: the first failed check, if any.
pub open spec fn request_line_error(t: Seq<Seq<char>>) -> Option<ParseHttpRequestError> {
    if t.len() != 3 {
        Some(ParseHttpRequestError::BadLen)
    } else if t[0].len() == 0 {
        Some(ParseHttpRequestError::NoMethod)
    } else if !is_method(t[0]) {
        Some(ParseHttpRequestError::UnknownMethod)
    } else if t[1].len() == 0 {
        Some(ParseHttpRequestError::NoPath)
    } else if t[2].len() == 0 {
        Some(ParseHttpRequestError::NoProtocol)
    } else if !contains_seq(t[2], "HTTP"@) {
        Some(ParseHttpRequestError::UnknownProtocol)
    } else {
        None
    }
}

/// The position of the first `": "` in `l` at or after `i`, or -1.
pub open spec fn find_sep(l: Seq<char>, i: int) -> int
    decreases l.len() - i,
{
    if i < 0 || i + 1 >= l.len() {
        -1
    } else if l[i] == ':' && l[i + 1] == ' ' {
        i
    } else {
        find_sep(l, i + 1)
    }
}

/// A header line split at the first `": "`; `None` where it has none.
pub open spec fn split_header(l: Seq<char>) -> Option<(Seq<char>, Seq<char>)> {
    let k = find_sep(l, 0);
    if k < 0 {
        None
    } else {
        Some((l.take(k), l.skip(k + 2)))
    }
}

/// The header pairs of a run of header lines, in order; lines without
/// `": "` are skipped.
pub open spec fn header_pairs(ls: Seq<Seq<char>>) -> Seq<(Seq<char>, Seq<char>)>
    decreases ls.len(),
{
    if ls.len() == 0 {
        Seq::empty()
    } else {
        let rest = header_pairs(ls.drop_last());
        match split_header(ls.last()) {
            Some(h) => rest.push(h),
            None => rest,
        }
    }
}

/// The index of the first blank line at or after `i`, or the number of lines.
pub open spec fn first_blank(lines: Seq<Seq<char>>, i: int) -> int
    decreases lines.len() - i,
{
    if i < 0 || i >= lines.len() {
        lines.len() as int
    } else if lines[i].len() == 0 {
        i
    } else {
        first_blank(lines, i + 1)
    }
}

/// The lines joined with line feeds.
pub open spec fn join_lines(ls: Seq<Seq<char>>) -> Seq<char>
    decreases ls.len(),
{
    if ls.len() == 0 {
        Seq::empty()
    } else if ls.len() == 1 {
        ls[0]
    } else {
        join_lines(ls.drop_last()) + seq!['\n'] + ls.last()
    }
}

/// What follows the blank line at `n`, joined with line feeds; `None`
/// where nothing follows it.
pub open spec fn body_after(lines: Seq<Seq<char>>, n: int) -> Option<Seq<char>> {
    if n < lines.len() && n + 1 < lines.len() {
        Some(join_lines(lines.skip(n + 1)))
    } else {
        None
    }
}

/// What a request, given as its lines, parses to. Lines after the
/// first blank one are not read.
pub open spec fn parse_lines(lines: Seq<Seq<char>>) -> Result<RequestView, ParseHttpRequestError> {
    let n = first_blank(lines, 0);
    if n == 0 {
        Ok(RequestView { body: body_after(lines, n), ..empty_request() })
    } else {
        let t = split_on(lines[0], ' ');
        match request_line_error(t) {
            Some(e) => Err(e),
            None => Ok(
                RequestView {
                    method: Some(t[0]),
                    protocol: Some(t[2]),
                    path: Some(t[1]),
                    headers: header_pairs(lines.subrange(1, n)),
                    body: body_after(lines, n),
                },
            ),
        }
    }
}

/// Splits a line at every space.
pub fn split_spaces(line: &str) -> (r: Vec<&str>)
    ensures
        strs_view(r@) == split_on(line@, ' '),
{
    split_at_char(line, ' ')
}

/// Whether `t` names one of the accepted methods.
pub fn is_request_method(t: &str) -> (r: bool)
    ensures
        r == is_method(t@),
{
    same_text(t, "GET") || same_text(t, "POST") || same_text(t, "PUT") || same_text(t, "DELETE")
        || same_text(t, "HEAD") || same_text(t, "OPTIONS")
}

/// Checks the tokens of a request line and, when they pass, records the
/// method, path and protocol in `http_request`. On an error the request is
/// left as it was.
pub fn init_request(http_request: &mut HttpRequest, first_line_vector: &[&str]) -> (r: Result<
    (),
    ParseHttpRequestError,
>)
    ensures
        ({
            let t = strs_view(first_line_vector@);
            match request_line_error(t) {
                Some(e) => r == Err::<(), ParseHttpRequestError>(e) && *final(http_request)
                    == *old(http_request),
                None => r is Ok && final(http_request)@ == (RequestView {
                    method: Some(t[0]),
                    protocol: Some(t[2]),
                    path: Some(t[1]),
                    ..old(http_request)@
                }),
            }
        }),
{
    let ghost t = strs_view(first_line_vector@);
    if first_line_vector.len() != 3 {
        return Err(ParseHttpRequestError::BadLen);
    }
    assert(t[0] == first_line_vector@[0]@);
    assert(t[1] == first_line_vector@[1]@);
    assert(t[2] == first_line_vector@[2]@);
    let method = first_line_vector[0];
    let path = first_line_vector[1];
    let protocol = first_line_vector[2];
    if method.unicode_len() == 0 {
        return Err(ParseHttpRequestError::NoMethod);
    }
    if !is_request_method(method) {
        return Err(ParseHttpRequestError::UnknownMethod);
    }
    if path.unicode_len() == 0 {
        return Err(ParseHttpRequestError::NoPath);
    }
    if protocol.unicode_len() == 0 {
        return Err(ParseHttpRequestError::NoProtocol);
    }
    if !contains_text(protocol, "HTTP") {
        return Err(ParseHttpRequestError::UnknownProtocol);
    }
    http_request.method = Some(String::from_str(method));
    http_request.path = Some(String::from_str(path));
    http_request.protocol = Some(String::from_str(protocol));
    Ok(())
}

/// Splits a header line at the first `": "` into name and value; `None`
/// for a line without that separator.
pub fn parse_header(line: &str) -> (r: Option<(String, String)>)
    ensures
        match r {
            Some(p) => split_header(line@) == Some((p.0@, p.1@)),
            None => split_header(line@) is None,
        },
{
    let n = line.unicode_len();
    let mut i: usize = 0;
    while n > 0 && i < n - 1
        invariant
            n == line@.len(),
            find_sep(line@, 0) == find_sep(line@, i as int),
        decreases n - i,
    {
        if line.get_char(i) == ':' && line.get_char(i + 1) == ' ' {
            let name = line.substring_char(0, i);
            let value = line.substring_char(i + 2, n);
            assert(line@.take(i as int) == name@);
            assert(line@.skip(i + 2) =~= value@);
            return Some((String::from_str(name), String::from_str(value)));
        }
        i += 1;
    }
    None
}

/// The header pairs of a run of header lines, in order; lines without
/// `": "` are skipped.
pub fn build_header_pairs(lines: &[String]) -> (r: Vec<(String, String)>)
    ensures
        pairs_view(r@) == header_pairs(strings_view(lines@)),
{
    let mut out: Vec<(String, String)> = Vec::new();
    let mut i: usize = 0;
    assert(strings_view(lines@).take(0) =~= Seq::<Seq<char>>::empty());
    assert(pairs_view(out@) =~= Seq::<(Seq<char>, Seq<char>)>::empty());
    while i < lines.len()
        invariant
            i <= lines@.len(),
            pairs_view(out@) == header_pairs(strings_view(lines@).take(i as int)),
        decreases lines.len() - i,
    {
        let ghost before = out@;
        let ghost ls = strings_view(lines@).take(i + 1);
        assert(ls.drop_last() =~= strings_view(lines@).take(i as int));
        assert(ls.last() == lines@[i as int]@);
        match parse_header(lines[i].as_str()) {
            Some(p) => {
                out.push(p);
                assert(pairs_view(out@) =~= pairs_view(before).push((p.0@, p.1@)));
            },
            None => {},
        }
        i += 1;
    }
    assert(strings_view(lines@).take(lines.len() as int) =~= strings_view(lines@));
    out
}

/// Joins lines with line feeds.
pub fn join_lines_of(lines: &[String]) -> (r: String)
    ensures
        r@ == join_lines(strings_view(lines@)),
{
    let ghost ls = strings_view(lines@);
    let mut out = String::new();
    let mut i: usize = 0;
    proof {
        reveal_strlit("\n");
    }
    assert(ls.take(0) =~= Seq::<Seq<char>>::empty());
    while i < lines.len()
        invariant
            i <= lines@.len(),
            ls == strings_view(lines@),
            "\n"@ == seq!['\n'],
            out@ == join_lines(ls.take(i as int)),
        decreases lines.len() - i,
    {
        assert(ls.take(i + 1).drop_last() =~= ls.take(i as int));
        assert(ls.take(i + 1).last() == lines@[i as int]@);
        if i > 0 {
            out.append("\n");
        } else {
            assert(out@ =~= Seq::<char>::empty());
        }
        out.append(lines[i].as_str());
        assert(out@ =~= join_lines(ls.take(i + 1)));
        i += 1;
    }
    assert(ls.take(lines.len() as int) =~= ls);
    out
}

fn body_of(lines: &[String], n: usize) -> (r: Option<String>)
    requires
        n <= lines@.len(),
    ensures
        opt_view(r) == body_after(strings_view(lines@), n as int),
{
    if n < lines.len() && n + 1 < lines.len() {
        let b = join_lines_of(&lines[n + 1..lines.len()]);
        assert(strings_view(lines@.subrange(n + 1, lines@.len() as int)) =~= strings_view(
            lines@,
        ).skip(n + 1));
        Some(b)
    } else {
        None
    }
}

/// Parses a request given as its lines (without line terminators). The
/// head ends at the first blank line; the lines after it, joined with line
/// feeds, are the body. A request whose first line is blank has no method,
/// path, protocol or headers.
pub fn parse_request(lines: &[String]) -> (r: Result<HttpRequest, ParseHttpRequestError>)
    ensures
        result_view(r) == parse_lines(strings_view(lines@)),
{
    let ghost ls = strings_view(lines@);
    let mut n: usize = 0;
    while n < lines.len()
        invariant
            n <= lines@.len(),
            ls == strings_view(lines@),
            first_blank(ls, 0) == first_blank(ls, n as int),
        ensures
            n <= lines@.len(),
            first_blank(ls, 0) == n,
        decreases lines.len() - n,
    {
        if lines[n].unicode_len() == 0 {
            break;
        }
        n += 1;
    }
    assert(first_blank(ls, 0) == n);
    let mut request = HttpRequest {
        method: None,
        protocol: None,
        path: None,
        headers: Vec::new(),
        body: None,
    };
    let body = body_of(lines, n);
    if n == 0 {
        request.body = body;
        assert(request@.headers =~= Seq::<(Seq<char>, Seq<char>)>::empty());
        return Ok(request);
    }
    let toks = split_spaces(lines[0].as_str());
    let init = init_request(&mut request, toks.as_slice());
    match init {
        Err(e) => Err(e),
        Ok(()) => {
            let headers = build_header_pairs(&lines[1..n]);
            assert(strings_view(lines@.subrange(1, n as int)) =~= ls.subrange(1, n as int));
            request.headers = headers;
            request.body = body;
            Ok(request)
        },
    }
}

/// A source of request-head lines that can be parsed into a request.
pub trait StreamTrait {
    /// The lines this source holds, without their terminators.
    spec fn head_lines(&self) -> Seq<Seq<char>>;

    fn parse(&self) -> (r: Result<HttpRequest, ParseHttpRequestError>)
        ensures
            result_view(r) == parse_lines(self.head_lines()),
    ;
}

impl StreamTrait for Vec<String> {
    open spec fn head_lines(&self) -> Seq<Seq<char>> {
        strings_view(self@)
    }

    fn parse(&self) -> (r: Result<HttpRequest, ParseHttpRequestError>) {
        parse_request(self.as_slice())
    }
}

pub proof fn lemma_split_without_sep(a: Seq<char>, sep: char)
    requires
        forall|i: int| 0 <= i < a.len() ==> a[i] != sep,
    ensures
        split_on(a, sep) == seq![a],
    decreases a.len(),
{
    if a.len() > 0 {
        lemma_split_without_sep(a.drop_last(), sep);
        assert(a.drop_last().push(a.last()) =~= a);
        assert(split_on(a, sep) =~= seq![a]);
    } else {
        assert(a =~= Seq::<char>::empty());
    }
}

pub proof fn lemma_split_concat(x: Seq<char>, b: Seq<char>, sep: char)
    ensures
        split_on(x + seq![sep] + b, sep) == split_on(x, sep) + split_on(b, sep),
    decreases b.len(),
{
    let s = x + seq![sep] + b;
    if b.len() == 0 {
        assert(s.drop_last() =~= x);
        assert(b =~= Seq::<char>::empty());
        assert(split_on(s, sep) =~= split_on(x, sep) + split_on(b, sep));
    } else {
        let b1 = b.drop_last();
        lemma_split_concat(x, b1, sep);
        lemma_split_nonempty(b1, sep);
        lemma_split_nonempty(x, sep);
        assert(s.drop_last() =~= x + seq![sep] + b1);
        assert(s.last() == b.last());
        assert(split_on(s, sep) =~= split_on(x, sep) + split_on(b, sep));
    }
}

pub proof fn lemma_first_blank_at_least(lines: Seq<Seq<char>>, i: int)
    requires
        0 <= i <= lines.len(),
    ensures
        i <= first_blank(lines, i) <= lines.len(),
    decreases lines.len() - i,
{
    if i < lines.len() && lines[i].len() != 0 {
        lemma_first_blank_at_least(lines, i + 1);
    }
}

/// A request line `METHOD PATH PROTO` whose tokens hold no space, with an
/// accepted method, a non-empty path and a protocol that mentions "HTTP",
/// parses, and the three tokens come back as they were sent.
pub proof fn lemma_well_formed_request_line(
    m: Seq<char>,
    p: Seq<char>,
    q: Seq<char>,
    rest: Seq<Seq<char>>,
)
    requires
        is_method(m),
        p.len() > 0,
        contains_seq(q, "HTTP"@),
        forall|i: int| 0 <= i < m.len() ==> m[i] != ' ',
        forall|i: int| 0 <= i < p.len() ==> p[i] != ' ',
        forall|i: int| 0 <= i < q.len() ==> q[i] != ' ',
    ensures
        parse_lines(seq![m + seq![' '] + p + seq![' '] + q] + rest) matches Ok(v) && v.method
            == Some(m) && v.path == Some(p) && v.protocol == Some(q),
{
    reveal_strlit("HTTP");
    reveal_strlit("GET");
    reveal_strlit("POST");
    reveal_strlit("PUT");
    reveal_strlit("DELETE");
    reveal_strlit("HEAD");
    reveal_strlit("OPTIONS");
    let line = m + seq![' '] + p + seq![' '] + q;
    let lines = seq![line] + rest;
    lemma_split_concat(m + seq![' '] + p, q, ' ');
    lemma_split_concat(m, p, ' ');
    lemma_split_without_sep(m, ' ');
    lemma_split_without_sep(p, ' ');
    lemma_split_without_sep(q, ' ');
    assert(split_on(line, ' ') =~= seq![m, p, q]);
    assert(lines[0] == line);
    lemma_first_blank_at_least(lines, 1);
    let k = choose|k: int| occurs_at(q, "HTTP"@, k);
    assert(q.len() >= 4);
    assert(line.len() > 0);
    assert(first_blank(lines, 0) == first_blank(lines, 1));
}

/// A non-blank request line that does not split into exactly three
/// space-separated tokens is refused as malformed, whatever follows it.
pub proof fn lemma_bad_token_count(line: Seq<char>, rest: Seq<Seq<char>>)
    requires
        line.len() > 0,
        split_on(line, ' ').len() != 3,
    ensures
        parse_lines(seq![line] + rest) == Err::<RequestView, ParseHttpRequestError>(
            ParseHttpRequestError::BadLen,
        ),
{
    let lines = seq![line] + rest;
    assert(lines[0] == line);
    lemma_first_blank_at_least(lines, 1);
    assert(first_blank(lines, 0) == first_blank(lines, 1));
}

/// A header line `name: value`, whose name holds no `": "`, splits into
/// exactly that name and that value, even where the value holds `": "`.
pub proof fn lemma_header_split(a: Seq<char>, b: Seq<char>)
    requires
        forall|i: int| 0 <= i < a.len() - 1 ==> !(#[trigger] a[i] == ':' && a[i + 1] == ' '),
    ensures
        split_header(a + seq![':', ' '] + b) == Some((a, b)),
{
    let l = a + seq![':', ' '] + b;
    lemma_find_sep_down(a, b, a.len() as int);
    assert(find_sep(l, 0) == a.len());
    assert(l.take(a.len() as int) =~= a);
    assert(l.skip(a.len() as int + 2) =~= b);
}

proof fn lemma_find_sep_down(a: Seq<char>, b: Seq<char>, i: int)
    requires
        0 <= i <= a.len(),
        forall|j: int| 0 <= j < a.len() - 1 ==> !(#[trigger] a[j] == ':' && a[j + 1] == ' '),
    ensures
        find_sep(a + seq![':', ' '] + b, a.len() - i) == a.len() as int,
    decreases i,
{
    let l = a + seq![':', ' '] + b;
    if i > 0 {
        lemma_find_sep_down(a, b, i - 1);
        let k = a.len() - i;
        assert(l[k] == a[k]);
        if k + 1 < a.len() {
            assert(l[k + 1] == a[k + 1]);
        } else {
            assert(l[k + 1] == ':');
        }
    }
}

/// Where every header line holds `": "`, each one gives exactly one pair,
/// its own split, and the pairs keep the order of the lines.
pub proof fn lemma_headers_in_order(ls: Seq<Seq<char>>)
    requires
        forall|i: int| 0 <= i < ls.len() ==> split_header(#[trigger] ls[i]) is Some,
    ensures
        header_pairs(ls) == ls.map_values(|l: Seq<char>| split_header(l)->Some_0),
    decreases ls.len(),
{
    if ls.len() > 0 {
        let d = ls.drop_last();
        assert forall|i: int| 0 <= i < d.len() implies split_header(#[trigger] d[i]) is Some by {
            assert(d[i] == ls[i]);
        }
        lemma_headers_in_order(d);
        assert(split_header(ls[ls.len() - 1]) is Some);
        assert(header_pairs(ls) =~= ls.map_values(|l: Seq<char>| split_header(l)->Some_0));
    } else {
        assert(header_pairs(ls) =~= ls.map_values(|l: Seq<char>| split_header(l)->Some_0));
    }
}

} // verus!
