//! Content types by file extension, from a table the server is given.

use vstd::prelude::*;
use crate::request::pairs_view;
use crate::text::same_text;

verus! {

/// The index of the last `.` in `s`, or -1.
pub open spec fn last_dot(s: Seq<char>) -> int
    decreases s.len(),
{
    if s.len() == 0 {
        -1
    } else if s.last() == '.' {
        s.len() - 1
    } else {
        last_dot(s.drop_last())
    }
}

/// The extension of a file name: what follows its last `.`, where that dot
/// is not the name's first character.
pub open spec fn extension_of(name: Seq<char>) -> Option<Seq<char>> {
    let k = last_dot(name);
    if k <= 0 {
        None
    } else {
        Some(name.skip(k + 1))
    }
}

/// The content type used where the table knows no better.
pub open spec fn default_type() -> Seq<char> {
    "text/plain"@
}

/// The type of the first table entry for `ext`, else the default.
pub open spec fn lookup(table: Seq<(Seq<char>, Seq<char>)>, ext: Seq<char>) -> Seq<char>
    decreases table.len(),
{
    if table.len() == 0 {
        default_type()
    } else if table[0].0 == ext {
        table[0].1
    } else {
        lookup(table.skip(1), ext)
    }
}

/// The content type served for a file of this name.
pub open spec fn content_type_of(table: Seq<(Seq<char>, Seq<char>)>, name: Seq<char>) -> Seq<char> {
    match extension_of(name) {
        Some(e) => lookup(table, e),
        None => default_type(),
    }
}

/// Looks an extension up in `(extension, type)` pairs; the first match
/// wins and an unknown extension gives `text/plain`.
pub fn get_mime_type(table: &[(String, String)], extension: &str) -> (r: String)
    ensures
        r@ == lookup(pairs_view(table@), extension@),
{
    let ghost t = pairs_view(table@);
    let mut i: usize = 0;
    assert(t.skip(0) =~= t);
    while i < table.len()
        invariant
            i <= table@.len(),
            t == pairs_view(table@),
            lookup(t, extension@) == lookup(t.skip(i as int), extension@),
        decreases table.len() - i,
    {
        let (key, value) = &table[i];
        assert(t.skip(i as int)[0] == (key@, value@));
        assert(t.skip(i as int).skip(1) =~= t.skip(i + 1));
        if same_text(key.as_str(), extension) {
            return value.clone();
        }
        i += 1;
    }
    String::from_str("text/plain")
}

/// The extension of a file name, if it has one.
pub fn extension_in(name: &str) -> (r: Option<&str>)
    ensures
        match r {
            Some(e) => extension_of(name@) == Some(e@),
            None => extension_of(name@) is None,
        },
{
    let n = name.unicode_len();
    let mut k: usize = n;
    assert(name@.take(n as int) =~= name@);
    while k > 0 && name.get_char(k - 1) != '.'
        invariant
            n == name@.len(),
            k <= n,
            last_dot(name@) == last_dot(name@.take(k as int)),
        decreases k,
    {
        assert(name@.take(k as int).drop_last() =~= name@.take(k - 1));
        k -= 1;
    }
    if k > 0 {
        assert(name@.take(k as int).last() == '.');
    } else {
        assert(name@.take(0) =~= Seq::<char>::empty());
    }
    if k <= 1 {
        None
    } else {
        Some(name.substring_char(k, n))
    }
}

/// The content type for a file of this name.
pub fn content_type_for(table: &[(String, String)], name: &str) -> (r: String)
    ensures
        r@ == content_type_of(pairs_view(table@), name@),
{
    match extension_in(name) {
        Some(e) => get_mime_type(table, e),
        None => String::from_str("text/plain"),
    }
}

} // verus!
