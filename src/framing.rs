//! How a client reads a framed response back: the head ends at the first
//! line feed followed by a blank CRLF line, its last header line carries
//! `Content-Length`, and that many bytes after the head are the body.

use vstd::prelude::*;
use vstd::arithmetic::div_mod::lemma_fundamental_div_mod;
use vstd::utf8::{encode_utf8, is_ascii_chars, is_ascii_chars_encode_utf8};
use crate::request::{
    header_pairs, lemma_header_split, lemma_headers_in_order, lemma_split_concat,
    lemma_split_without_sep, split_header,
};
use crate::response::{decimal, digit_char, head_text, header_block, header_text};
use crate::text::split_on;

verus! {

/// Bytes that hold neither a carriage return nor a line feed.
pub open spec fn no_break_bytes(b: Seq<u8>) -> bool {
    forall|i: int| 0 <= i < b.len() ==> #[trigger] b[i] != 10 && b[i] != 13
}

/// Whether the header terminator (line feed, then CR LF) starts at `k`.
pub open spec fn is_terminator(w: Seq<u8>, k: int) -> bool {
    0 <= k && k + 2 < w.len() && w[k] == 10 && w[k + 1] == 13 && w[k + 2] == 10
}

/// The first header terminator at or after `i`, or -1.
pub open spec fn first_terminator(w: Seq<u8>, i: int) -> int
    decreases w.len() - i,
{
    if i < 0 || i + 2 >= w.len() {
        -1
    } else if is_terminator(w, i) {
        i
    } else {
        first_terminator(w, i + 1)
    }
}

/// The last line feed before position `p`, or -1.
pub open spec fn last_lf_before(w: Seq<u8>, p: int) -> int
    decreases p,
{
    if p <= 0 || p > w.len() {
        -1
    } else if w[p - 1] == 10 {
        p - 1
    } else {
        last_lf_before(w, p - 1)
    }
}

/// The first CR LF at or after `i`, or -1.
pub open spec fn first_crlf(w: Seq<u8>, i: int) -> int
    decreases w.len() - i,
{
    if i < 0 || i + 1 >= w.len() {
        -1
    } else if w[i] == 13 && w[i + 1] == 10 {
        i
    } else {
        first_crlf(w, i + 1)
    }
}

/// The status line a client reads: the bytes before the first CR LF.
pub open spec fn framed_status(w: Seq<u8>) -> Option<Seq<u8>> {
    let c = first_crlf(w, 0);
    if c < 0 {
        None
    } else {
        Some(w.take(c))
    }
}

/// The header lines a client reads: the bytes after the status line's
/// CR LF, up to and including the line feed that opens the terminator.
pub open spec fn framed_header_bytes(w: Seq<u8>) -> Option<Seq<u8>> {
    let c = first_crlf(w, 0);
    let p = first_terminator(w, 0);
    if c < 0 || p < 0 || p + 1 < c + 2 {
        None
    } else {
        Some(w.subrange(c + 2, p + 1))
    }
}

/// The bytes that open a `Content-Length` header line.
pub open spec fn length_field() -> Seq<u8> {
    encode_utf8("Content-Length: "@)
}

pub open spec fn is_digits(s: Seq<u8>) -> bool {
    s.len() > 0 && forall|i: int| 0 <= i < s.len() ==> 48 <= #[trigger] s[i] <= 57
}

/// The number that ASCII decimal digits spell.
pub open spec fn digits_value(s: Seq<u8>) -> nat
    decreases s.len(),
{
    if s.len() == 0 {
        0
    } else {
        digits_value(s.drop_last()) * 10 + (s.last() - 48) as nat
    }
}

/// The length a header line announces, if it is a `Content-Length` line.
pub open spec fn content_length_in(line: Seq<u8>) -> Option<nat> {
    let f = length_field();
    if line.len() > f.len() && line.take(f.len() as int) == f && is_digits(line.skip(f.len() as int)) {
        Some(digits_value(line.skip(f.len() as int)))
    } else {
        None
    }
}

/// The body a client reads from a framed response, if the framing holds.
pub open spec fn framed_body(w: Seq<u8>) -> Option<Seq<u8>> {
    let p = first_terminator(w, 0);
    if p < 0 {
        None
    } else {
        let j = last_lf_before(w, p);
        if j < 0 {
            None
        } else {
            match content_length_in(w.subrange(j + 1, p)) {
                None => None,
                Some(n) => if p + 3 + n <= w.len() {
                    Some(w.subrange(p + 3, p + 3 + n))
                } else {
                    None
                },
            }
        }
    }
}

pub proof fn lemma_encode_concat(a: Seq<char>, b: Seq<char>)
    ensures
        encode_utf8(a + b) == encode_utf8(a) + encode_utf8(b),
    decreases a.len(),
{
    if a.len() == 0 {
        assert(a + b =~= b);
        assert(encode_utf8(a) =~= Seq::<u8>::empty());
        assert(encode_utf8(a) + encode_utf8(b) =~= encode_utf8(b));
    } else {
        lemma_encode_concat(a.drop_first(), b);
        assert((a + b).drop_first() =~= a.drop_first() + b);
        assert((a + b)[0] == a[0]);
        assert(encode_utf8(a + b) =~= encode_utf8(a) + encode_utf8(b));
    }
}

pub proof fn lemma_ascii_encode(c: Seq<char>)
    requires
        is_ascii_chars(c),
    ensures
        encode_utf8(c) == c.map_values(|x: char| x as u8),
{
    is_ascii_chars_encode_utf8(c);
    assert(encode_utf8(c) =~= c.map_values(|x: char| x as u8));
}

proof fn lemma_decimal_digits(n: nat)
    ensures
        forall|i: int| 0 <= i < decimal(n).len() ==> '0' <= #[trigger] decimal(n)[i] <= '9',
        decimal(n).len() > 0,
    decreases n,
{
    if n >= 10 {
        lemma_decimal_digits(n / 10);
    }
}

/// The ASCII bytes of the decimal numeral of `n`.
pub open spec fn decimal_bytes(n: nat) -> Seq<u8> {
    decimal(n).map_values(|c: char| c as u8)
}

proof fn lemma_digit_byte(d: nat)
    ensures
        digit_char(d) as u8 == 48 + d % 10,
{
}

pub proof fn lemma_decimal_bytes(n: nat)
    ensures
        encode_utf8(decimal(n)) == decimal_bytes(n),
        is_digits(decimal_bytes(n)),
        digits_value(decimal_bytes(n)) == n,
    decreases n,
{
    lemma_decimal_digits(n);
    assert(is_ascii_chars(decimal(n)));
    lemma_ascii_encode(decimal(n));
    lemma_digit_byte(n);
    if n >= 10 {
        lemma_decimal_bytes(n / 10);
        assert(decimal_bytes(n).drop_last() =~= decimal_bytes(n / 10));
        assert(decimal_bytes(n).last() == digit_char(n % 10) as u8);
        lemma_fundamental_div_mod(n as int, 10);
        assert(digit_char(n % 10) == digit_char(n));
        assert(decimal_bytes(n).last() == 48 + n % 10);
        assert(digits_value(decimal_bytes(n)) == digits_value(decimal_bytes(n / 10)) * 10 + (n
            % 10));
    } else {
        assert(decimal_bytes(n).drop_last() =~= Seq::<u8>::empty());
        assert(digits_value(decimal_bytes(n).drop_last()) == 0);
        assert(decimal_bytes(n).last() == 48 + n);
    }
    let d = decimal_bytes(n);
    assert forall|i: int| 0 <= i < d.len() implies 48 <= #[trigger] d[i] <= 57 by {
        assert('0' <= decimal(n)[i] <= '9');
    }
}

proof fn lemma_literals()
    ensures
        encode_utf8("\r\n"@) == seq![13u8, 10u8],
        encode_utf8("\n"@) == seq![10u8],
        encode_utf8(": "@) == seq![58u8, 32u8],
        no_break_bytes(length_field()),
        length_field().len() == 16,
{
    reveal_strlit("\r\n");
    reveal_strlit("\n");
    reveal_strlit(": ");
    reveal_strlit("Content-Length: ");
    assert(is_ascii_chars("\r\n"@));
    assert(is_ascii_chars("\n"@));
    assert(is_ascii_chars(": "@));
    assert(is_ascii_chars("Content-Length: "@));
    lemma_ascii_encode("\r\n"@);
    lemma_ascii_encode("\n"@);
    lemma_ascii_encode(": "@);
    lemma_ascii_encode("Content-Length: "@);
    assert(encode_utf8("\r\n"@) =~= seq![13u8, 10u8]);
    assert(encode_utf8("\n"@) =~= seq![10u8]);
    assert(encode_utf8(": "@) =~= seq![58u8, 32u8]);
    let f = length_field();
    assert forall|i: int| 0 <= i < f.len() implies #[trigger] f[i] != 10 && f[i] != 13 by {
        let c = "Content-Length: "@[i];
        assert(f[i] == c as u8);
    }
}

/// The header lines of headers whose names and values hold no line breaks:
/// their bytes hold no carriage return and, unless empty, end in a line feed.
proof fn lemma_header_bytes(hs: Seq<(Seq<char>, Seq<char>)>)
    requires
        forall|i: int|
            0 <= i < hs.len() ==> no_break_bytes(encode_utf8(#[trigger] hs[i].0))
                && no_break_bytes(encode_utf8(hs[i].1)),
    ensures
        forall|i: int|
            0 <= i < encode_utf8(header_text(hs)).len() ==> #[trigger] encode_utf8(
                header_text(hs),
            )[i] != 13,
        encode_utf8(header_text(hs)).len() == 0 || encode_utf8(header_text(hs)).last() == 10,
    decreases hs.len(),
{
    if hs.len() == 0 {
        assert(encode_utf8(header_text(hs)) =~= Seq::<u8>::empty());
    } else {
        let d = hs.drop_last();
        assert forall|i: int| 0 <= i < d.len() implies no_break_bytes(encode_utf8(#[trigger] d[i].0))
            && no_break_bytes(encode_utf8(d[i].1)) by {
            assert(d[i] == hs[i]);
        }
        lemma_header_bytes(d);
        lemma_literals();
        let h = hs.last();
        assert(no_break_bytes(encode_utf8(hs[hs.len() - 1].0)));
        let prev = header_text(d);
        lemma_encode_concat(prev + h.0 + ": "@ + h.1, "\n"@);
        lemma_encode_concat(prev + h.0 + ": "@, h.1);
        lemma_encode_concat(prev + h.0, ": "@);
        lemma_encode_concat(prev, h.0);
        let w = encode_utf8(header_text(hs));
        assert(w =~= encode_utf8(prev) + encode_utf8(h.0) + seq![58u8, 32u8] + encode_utf8(h.1)
            + seq![10u8]);
    }
}

proof fn lemma_first_terminator_skip(w: Seq<u8>, i: int, p: int)
    requires
        0 <= i <= p,
        is_terminator(w, p),
        forall|k: int| i <= k < p ==> !is_terminator(w, k),
    ensures
        first_terminator(w, i) == p,
    decreases p - i,
{
    if i < p {
        lemma_first_terminator_skip(w, i + 1, p);
    }
}

proof fn lemma_first_crlf_skip(w: Seq<u8>, i: int, c: int)
    requires
        0 <= i <= c,
        c + 1 < w.len(),
        w[c] == 13 && w[c + 1] == 10,
        forall|k: int| i <= k < c ==> w[k] != 13,
    ensures
        first_crlf(w, i) == c,
    decreases c - i,
{
    if i < c {
        lemma_first_crlf_skip(w, i + 1, c);
    }
}

proof fn lemma_last_lf_skip(w: Seq<u8>, a: int, p: int)
    requires
        1 <= a <= p <= w.len(),
        w[a - 1] == 10,
        forall|k: int| a <= k < p ==> w[k] != 10,
    ensures
        last_lf_before(w, p) == a - 1,
    decreases p - a,
{
    if a < p {
        lemma_last_lf_skip(w, a, p - 1);
    }
}

proof fn lemma_frame_layout(s1: Seq<u8>, hb: Seq<u8>, d: Seq<u8>, body: Seq<u8>)
    requires
        no_break_bytes(s1),
        forall|i: int| 0 <= i < hb.len() ==> #[trigger] hb[i] != 13,
        hb.len() == 0 || hb.last() == 10,
        is_digits(d),
        digits_value(d) == body.len(),
        no_break_bytes(length_field()),
        length_field().len() == 16,
    ensures
        ({
            let w = s1 + seq![13u8, 10u8] + hb + length_field() + d + seq![10u8, 13u8, 10u8] + body;
            &&& framed_body(w) == Some(body)
            &&& framed_status(w) == Some(s1)
            &&& framed_header_bytes(w) == Some(hb + length_field() + d + seq![10u8])
        }),
{
    let f = length_field();
    let w = s1 + seq![13u8, 10u8] + hb + f + d + seq![10u8, 13u8, 10u8] + body;
    let n: int = body.len() as int;
    let a: int = s1.len() + 2 + hb.len() as int;
    let p: int = a + 16 + d.len() as int;
    assert(w.len() == p + 3 + n);
    assert forall|j: int| 0 <= j < s1.len() implies w[j] == s1[j] by {}
    assert(w[s1.len() as int] == 13 && w[s1.len() as int + 1] == 10);
    assert forall|j: int| s1.len() + 2 <= j < a implies w[j] == hb[j - s1.len() - 2] by {}
    assert forall|j: int| a <= j < a + 16 implies w[j] == f[j - a] by {}
    assert forall|j: int| a + 16 <= j < p implies w[j] == d[j - a - 16] by {}
    assert(w[p] == 10 && w[p + 1] == 13 && w[p + 2] == 10);
    assert forall|k: int| 0 <= k < p implies !is_terminator(w, k) by {
        if is_terminator(w, k) {
            let j = k + 1;
            if j < s1.len() {
                assert(w[j] == s1[j]);
            } else if j == s1.len() {
                assert(w[k] == s1[k]);
            } else if j == s1.len() + 1 {
            } else if j < a {
                assert(w[j] == hb[j - s1.len() - 2]);
            } else if j < a + 16 {
                assert(w[j] == f[j - a]);
            } else if j < p {
                assert(w[j] == d[j - a - 16]);
            } else {
                assert(w[k] == d[d.len() - 1]);
            }
        }
    }
    lemma_first_terminator_skip(w, 0, p);
    lemma_first_crlf_skip(w, 0, s1.len() as int);
    assert(w.take(s1.len() as int) =~= s1);
    assert(w.subrange(s1.len() as int + 2, p + 1) =~= hb + f + d + seq![10u8]);
    assert forall|k: int| a <= k < p implies w[k] != 10 by {
        if k < a + 16 {
            assert(w[k] == f[k - a]);
        } else {
            assert(w[k] == d[k - a - 16]);
        }
    }
    if hb.len() > 0 {
        assert(w[a - 1] == hb[hb.len() - 1]);
    }
    lemma_last_lf_skip(w, a, p);
    let line = w.subrange(a, p);
    assert(line =~= f + d);
    assert(line.take(16) =~= f);
    assert(line.skip(16) =~= d);
    assert(w.subrange(p + 3, p + 3 + n) =~= body);
}

/// Framing round trip: where the status line and the caller's header names
/// and values hold no line-break bytes, a client reading the assembled
/// bytes back recovers exactly the status line, exactly the header block
/// (the caller's headers in order, then `Content-Length` with the body's
/// length; see `lemma_header_block_reads_back`) and exactly the body, even
/// where the body itself holds line breaks.
pub proof fn lemma_framing_round_trip(
    status: Seq<char>,
    hs: Seq<(Seq<char>, Seq<char>)>,
    body: Seq<u8>,
)
    requires
        no_break_bytes(encode_utf8(status)),
        forall|i: int|
            0 <= i < hs.len() ==> no_break_bytes(encode_utf8(#[trigger] hs[i].0))
                && no_break_bytes(encode_utf8(hs[i].1)),
    ensures
        ({
            let w = encode_utf8(head_text(status, hs, body.len())) + body;
            &&& framed_body(w) == Some(body)
            &&& framed_status(w) == Some(encode_utf8(status))
            &&& framed_header_bytes(w) == Some(encode_utf8(header_block(hs, body.len())))
        }),
{
    let n = body.len();
    lemma_literals();
    lemma_header_bytes(hs);
    lemma_decimal_bytes(n);
    let ht = header_text(hs);
    let s1 = encode_utf8(status);
    let hb = encode_utf8(ht);
    let f = length_field();
    let d = decimal_bytes(n);
    lemma_encode_concat(status + "\r\n"@ + header_block(hs, n), "\r\n"@);
    lemma_encode_concat(status + "\r\n"@, header_block(hs, n));
    lemma_encode_concat(status, "\r\n"@);
    lemma_encode_concat(ht + "Content-Length: "@ + decimal(n), "\n"@);
    lemma_encode_concat(ht + "Content-Length: "@, decimal(n));
    lemma_encode_concat(ht, "Content-Length: "@);
    let w = encode_utf8(head_text(status, hs, n)) + body;
    assert(w =~= s1 + seq![13u8, 10u8] + hb + f + d + seq![10u8, 13u8, 10u8] + body);
    lemma_frame_layout(s1, hb, d, body);
    assert(encode_utf8(header_block(hs, n)) =~= hb + f + d + seq![10u8]);
}

proof fn lemma_digits_value_grows(s: Seq<u8>, i: int)
    requires
        0 <= i <= s.len(),
    ensures
        digits_value(s.take(i)) <= digits_value(s),
    decreases s.len() - i,
{
    if i < s.len() {
        lemma_digits_value_grows(s, i + 1);
        assert(s.take(i + 1).drop_last() =~= s.take(i));
    } else {
        assert(s.take(i) =~= s);
    }
}

/// One header line as written, without its line feed.
pub open spec fn line_of(h: (Seq<char>, Seq<char>)) -> Seq<char> {
    h.0 + seq![':', ' '] + h.1
}

pub open spec fn has_no(s: Seq<char>, c: char) -> bool {
    forall|i: int| 0 <= i < s.len() ==> #[trigger] s[i] != c
}

pub open spec fn has_no_sep(s: Seq<char>) -> bool {
    forall|i: int| 0 <= i < s.len() - 1 ==> !(#[trigger] s[i] == ':' && s[i + 1] == ' ')
}

proof fn lemma_header_text_lines(hs: Seq<(Seq<char>, Seq<char>)>, t: Seq<char>)
    requires
        forall|i: int| 0 <= i < hs.len() ==> has_no(line_of(#[trigger] hs[i]), '\n'),
    ensures
        split_on(header_text(hs) + t, '\n') == hs.map_values(|h: (Seq<char>, Seq<char>)| line_of(h))
            + split_on(t, '\n'),
    decreases hs.len(),
{
    reveal_strlit(": ");
    reveal_strlit("\n");
    if hs.len() == 0 {
        assert(header_text(hs) + t =~= t);
        assert(hs.map_values(|h: (Seq<char>, Seq<char>)| line_of(h)) + split_on(t, '\n')
            =~= split_on(t, '\n'));
    } else {
        let d = hs.drop_last();
        let l = line_of(hs.last());
        assert forall|i: int| 0 <= i < d.len() implies has_no(line_of(#[trigger] d[i]), '\n') by {
            assert(d[i] == hs[i]);
        }
        lemma_header_text_lines(d, l + seq!['\n'] + t);
        assert(has_no(line_of(hs[hs.len() - 1]), '\n'));
        lemma_split_concat(l, t, '\n');
        lemma_split_without_sep(l, '\n');
        assert(header_text(hs) + t =~= header_text(d) + (l + seq!['\n'] + t));
        assert(hs.map_values(|h: (Seq<char>, Seq<char>)| line_of(h)) =~= d.map_values(
            |h: (Seq<char>, Seq<char>)| line_of(h),
        ).push(l));
        assert(split_on(header_text(hs) + t, '\n') =~= hs.map_values(
            |h: (Seq<char>, Seq<char>)| line_of(h),
        ) + split_on(t, '\n'));
    }
}

/// The header block reads back as written: split into lines at line feeds
/// and each line at its first `": "`, it gives the caller's headers in
/// order, then one `Content-Length` header whose value is the body length,
/// then nothing but the empty rest after the last line feed. This holds
/// where names hold no line feed and no `": "`, and values no line feed.
pub proof fn lemma_header_block_reads_back(hs: Seq<(Seq<char>, Seq<char>)>, len: nat)
    requires
        forall|i: int|
            0 <= i < hs.len() ==> has_no(#[trigger] hs[i].0, '\n') && has_no(hs[i].1, '\n')
                && has_no_sep(hs[i].0),
    ensures
        ({
            let ls = split_on(header_block(hs, len), '\n');
            &&& ls.len() == hs.len() + 2
            &&& ls.last().len() == 0
            &&& header_pairs(ls.drop_last()) == hs.push(("Content-Length"@, decimal(len)))
        }),
{
    reveal_strlit(": ");
    reveal_strlit("\n");
    reveal_strlit("Content-Length: ");
    reveal_strlit("Content-Length");
    let cl = "Content-Length"@;
    let cl_line = cl + seq![':', ' '] + decimal(len);
    assert("Content-Length: "@ =~= cl + seq![':', ' ']);
    assert forall|i: int| 0 <= i < hs.len() implies has_no(line_of(#[trigger] hs[i]), '\n') by {
        let l = line_of(hs[i]);
        assert forall|j: int| 0 <= j < l.len() implies #[trigger] l[j] != '\n' by {
            if j < hs[i].0.len() {
                assert(l[j] == hs[i].0[j]);
            } else if j >= hs[i].0.len() + 2 {
                assert(l[j] == hs[i].1[j - hs[i].0.len() - 2]);
            }
        }
    }
    let e = Seq::<char>::empty();
    let t = cl_line + seq!['\n'] + e;
    assert(header_block(hs, len) =~= header_text(hs) + t);
    lemma_header_text_lines(hs, t);
    lemma_split_concat(cl_line, e, '\n');
    lemma_decimal_no_break(len);
    assert forall|j: int| 0 <= j < cl_line.len() implies #[trigger] cl_line[j] != '\n' by {
        if j >= 16 {
            assert(cl_line[j] == decimal(len)[j - 16]);
        }
    }
    lemma_split_without_sep(cl_line, '\n');
    lemma_split_without_sep(e, '\n');
    let lines = hs.map_values(|h: (Seq<char>, Seq<char>)| line_of(h));
    let ls = split_on(header_block(hs, len), '\n');
    assert(ls =~= lines + seq![cl_line, e]);
    let heads = lines.push(cl_line);
    assert(ls.drop_last() =~= heads);
    assert forall|i: int| 0 <= i < heads.len() implies split_header(#[trigger] heads[i]) == Some(
        if i < hs.len() {
            hs[i]
        } else {
            (cl, decimal(len))
        },
    ) by {
        if i < hs.len() {
            assert(heads[i] == line_of(hs[i]));
            lemma_header_split(hs[i].0, hs[i].1);
        } else {
            assert(heads[i] == cl_line);
            lemma_header_split(cl, decimal(len));
        }
    }
    lemma_headers_in_order(heads);
    assert(heads.map_values(|l: Seq<char>| split_header(l)->Some_0) =~= hs.push(
        (cl, decimal(len)),
    ));
}

proof fn lemma_decimal_no_break(n: nat)
    ensures
        has_no(decimal(n), '\n'),
{
    lemma_decimal_digits(n);
}

/// Reads the body back out of a framed response, as a client does.
pub fn read_framed_body(wire: &[u8]) -> (r: Option<Vec<u8>>)
    ensures
        match r {
            Some(b) => framed_body(wire@) == Some(b@),
            None => framed_body(wire@) is None,
        },
{
    let ghost w = wire@;
    let n = wire.len();
    let mut p: usize = 0;
    let mut found = false;
    while n >= 3 && p < n - 2
        invariant
            n == w.len(),
            w == wire@,
            first_terminator(w, 0) == first_terminator(w, p as int),
        ensures
            n >= 3 && p < n - 2 ==> is_terminator(w, p as int) && first_terminator(w, 0) == p,
            !(n >= 3 && p < n - 2) ==> first_terminator(w, 0) == -1,
        decreases n - p,
    {
        if wire[p] == 10 && wire[p + 1] == 13 && wire[p + 2] == 10 {
            break;
        }
        p += 1;
    }
    if !(n >= 3 && p < n - 2) {
        return None;
    }
    let mut k: usize = p;
    while k > 0 && wire[k - 1] != 10
        invariant
            k <= p < n,
            n == w.len(),
            w == wire@,
            last_lf_before(w, p as int) == last_lf_before(w, k as int),
        decreases k,
    {
        k -= 1;
    }
    if k == 0 {
        return None;
    }
    assert(last_lf_before(w, p as int) == k - 1);
    let field = "Content-Length: ".as_bytes();
    let flen = field.len();
    proof {
        lemma_literals();
    }
    assert(field@ == length_field());
    let ghost line = w.subrange(k as int, p as int);
    if p - k <= flen {
        return None;
    }
    let mut i: usize = 0;
    while i < flen
        invariant
            i <= flen,
            flen == 16,
            k + flen < p < n,
            n == w.len(),
            w == wire@,
            line == w.subrange(k as int, p as int),
            field@ == length_field(),
            field@.len() == 16,
            length_field().len() == 16,
            first_terminator(w, 0) == p,
            last_lf_before(w, p as int) == k - 1,
            forall|j: int| 0 <= j < i ==> line[j] == field@[j],
        decreases flen - i,
    {
        if wire[k + i] != field[i] {
            assert(line.take(16)[i as int] != length_field()[i as int]);
            return None;
        }
        i += 1;
    }
    assert(line.take(16) =~= length_field());
    let ghost digits = line.skip(16);
    let start = k + flen;
    let mut value: u128 = 0;
    let mut q: usize = start;
    while q < p
        invariant
            start == k + 16,
            start <= q <= p < n,
            n == w.len(),
            w == wire@,
            line == w.subrange(k as int, p as int),
            digits == line.skip(16),
            digits.len() == p - start,
            forall|j: int| 0 <= j < q - start ==> 48 <= #[trigger] digits[j] <= 57,
            value as nat == digits_value(digits.take(q - start)),
            value <= n,
            line.take(16) == length_field(),
            length_field().len() == 16,
            first_terminator(w, 0) == p,
            last_lf_before(w, p as int) == k - 1,
        decreases p - q,
    {
        let b = wire[q];
        assert(digits[q - start] == b);
        if b < 48 || b > 57 {
            assert(!is_digits(digits));
            return None;
        }
        assert(digits.take(q - start + 1).drop_last() =~= digits.take(q - start));
        value = value * 10 + (b - 48) as u128;
        if value > n as u128 {
            proof {
                lemma_digits_value_grows(digits, q - start + 1);
            }
            assert(is_digits(digits) ==> digits_value(digits) > n);
            return None;
        }
        q += 1;
    }
    assert(digits.take(p - start) =~= digits);
    assert(is_digits(digits));
    if value > (n - p - 3) as u128 {
        return None;
    }
    let len = value as usize;
    let mut out: Vec<u8> = Vec::new();
    let mut m: usize = 0;
    while m < len
        invariant
            p + 3 + len <= n,
            n == w.len(),
            w == wire@,
            m <= len,
            out@ == w.subrange(p + 3, p + 3 + m),
        decreases len - m,
    {
        out.push(wire[p + 3 + m]);
        assert(w.subrange(p + 3, p + 3 + m + 1) =~= w.subrange(p + 3, p + 3 + m).push(
            w[p + 3 + m],
        ));
        m += 1;
    }
    Some(out)
}

} // verus!
