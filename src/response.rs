//! Framing of a response: status line, header lines, a synthesized
//! `Content-Length`, a blank line and the body bytes.

use vstd::prelude::*;
use crate::request::pairs_view;
use vstd::utf8::encode_utf8;

verus! {

/// The decimal digit for `d` (taken modulo 10).
pub open spec fn digit_char(d: nat) -> char {
    let d = d % 10;
    if d == 0 {
        '0'
    } else if d == 1 {
        '1'
    } else if d == 2 {
        '2'
    } else if d == 3 {
        '3'
    } else if d == 4 {
        '4'
    } else if d == 5 {
        '5'
    } else if d == 6 {
        '6'
    } else if d == 7 {
        '7'
    } else if d == 8 {
        '8'
    } else {
        '9'
    }
}

/// The decimal numeral of `n`, without leading zeros.
pub open spec fn decimal(n: nat) -> Seq<char>
    decreases n,
{
    if n < 10 {
        seq![digit_char(n)]
    } else {
        decimal(n / 10).push(digit_char(n % 10))
    }
}

fn digit_text(d: usize) -> (r: &'static str)
    requires
        d < 10,
    ensures
        r@ == seq![digit_char(d as nat)],
{
    proof {
        reveal_strlit("0");
        reveal_strlit("1");
        reveal_strlit("2");
        reveal_strlit("3");
        reveal_strlit("4");
        reveal_strlit("5");
        reveal_strlit("6");
        reveal_strlit("7");
        reveal_strlit("8");
        reveal_strlit("9");
    }
    let r = match d {
        0 => "0",
        1 => "1",
        2 => "2",
        3 => "3",
        4 => "4",
        5 => "5",
        6 => "6",
        7 => "7",
        8 => "8",
        _ => "9",
    };
    assert(r@ =~= seq![digit_char(d as nat)]);
    r
}

/// Writes `n` in decimal.
pub fn decimal_string(n: usize) -> (r: String)
    ensures
        r@ == decimal(n as nat),
    decreases n,
{
    if n < 10 {
        String::from_str(digit_text(n))
    } else {
        let mut s = decimal_string(n / 10);
        s.append(digit_text(n % 10));
        s
    }
}

/// The header lines for `hs`, each `name: value` ended by a bare line feed.
pub open spec fn header_text(hs: Seq<(Seq<char>, Seq<char>)>) -> Seq<char>
    decreases hs.len(),
{
    if hs.len() == 0 {
        Seq::empty()
    } else {
        header_text(hs.drop_last()) + hs.last().0 + ": "@ + hs.last().1 + "\n"@
    }
}

/// The header block: the caller's headers, then `Content-Length`.
pub open spec fn header_block(hs: Seq<(Seq<char>, Seq<char>)>, len: nat) -> Seq<char> {
    header_text(hs) + "Content-Length: "@ + decimal(len) + "\n"@
}

/// The whole response head, up to and including the blank line.
pub open spec fn head_text(status: Seq<char>, hs: Seq<(Seq<char>, Seq<char>)>, len: nat) -> Seq<
    char,
> {
    status + "\r\n"@ + header_block(hs, len) + "\r\n"@
}

/// Assembles the header lines, with `Content-Length` appended last.
pub fn build_headers(headers: Vec<(String, String)>, content_length: usize) -> (r: String)
    ensures
        r@ == header_block(pairs_view(headers@), content_length as nat),
{
    let mut result = String::new();
    let mut i: usize = 0;
    assert(pairs_view(headers@).take(0) =~= Seq::<(Seq<char>, Seq<char>)>::empty());
    while i < headers.len()
        invariant
            i <= headers@.len(),
            result@ == header_text(pairs_view(headers@).take(i as int)),
        decreases headers.len() - i,
    {
        let ghost hs = pairs_view(headers@).take(i + 1);
        assert(hs.drop_last() =~= pairs_view(headers@).take(i as int));
        let (key, value) = &headers[i];
        result.append(key.as_str());
        result.append(": ");
        result.append(value.as_str());
        result.append("\n");
        assert(result@ =~= header_text(hs));
        i += 1;
    }
    assert(pairs_view(headers@).take(headers.len() as int) =~= pairs_view(headers@));
    result.append("Content-Length: ");
    let digits = decimal_string(content_length);
    result.append(digits.as_str());
    result.append("\n");
    result
}

fn push_bytes(out: &mut Vec<u8>, b: &[u8])
    ensures
        final(out)@ == old(out)@ + b@,
{
    let mut i: usize = 0;
    while i < b.len()
        invariant
            i <= b@.len(),
            out@ == old(out)@ + b@.take(i as int),
        decreases b.len() - i,
    {
        out.push(b[i]);
        assert(b@.take(i + 1) =~= b@.take(i as int).push(b@[i as int]));
        i += 1;
    }
    assert(b@.take(b.len() as int) =~= b@);
}

/// The bytes of a response: the head, encoded as UTF-8, then the body.
/// A missing header list is empty and a missing body has no bytes.
pub fn assemble_response(
    status_line: &str,
    headers: Option<Vec<(String, String)>>,
    contents_option: Option<Vec<u8>>,
) -> (r: Vec<u8>)
    ensures
        ({
            let hs = match headers {
                Some(v) => pairs_view(v@),
                None => Seq::empty(),
            };
            let body = match contents_option {
                Some(c) => c@,
                None => Seq::empty(),
            };
            r@ == encode_utf8(head_text(status_line@, hs, body.len())) + body
        }),
{
    let contents = match contents_option {
        Some(c) => c,
        None => Vec::new(),
    };
    let hs = match headers {
        Some(v) => v,
        None => Vec::new(),
    };
    assert(pairs_view(Seq::<(String, String)>::empty()) =~= Seq::<(Seq<char>, Seq<char>)>::empty());
    let content_length = contents.len();
    let block = build_headers(hs, content_length);
    let mut head = String::from_str(status_line);
    head.append("\r\n");
    head.append(block.as_str());
    head.append("\r\n");
    let mut out: Vec<u8> = Vec::new();
    push_bytes(&mut out, head.as_str().as_bytes());
    push_bytes(&mut out, contents.as_slice());
    assert(out@ =~= encode_utf8(head@) + contents@);
    out
}

} // verus!
