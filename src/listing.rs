//! The HTML index of a directory: one list item per direct child, each
//! linking to the child's address on this server.

use vstd::prelude::*;
use crate::paths::{child_of, child_path, is_within_root, within_root};

verus! {

/// A direct child of a listed directory, as the filesystem reported it.
#[derive(Debug)]
pub struct ListingEntry {
    pub name: String,
    pub is_dir: bool,
}

/// Why a directory listing was refused.
#[derive(Debug, Clone, Copy, PartialEq, Eq, Structural)]
pub enum ListingError {
    NotADirectory,
    AccessForbidden,
}

pub open spec fn entries_view(v: Seq<ListingEntry>) -> Seq<(Seq<char>, bool)> {
    v.map_values(|e: ListingEntry| (e.name@, e.is_dir))
}

/// The length of `root` without a trailing `/`.
pub open spec fn root_stem_len(root: Seq<char>) -> int {
    if root.len() > 0 && root.last() == '/' {
        root.len() - 1
    } else {
        root.len() as int
    }
}

/// A path under `root` as shown to the client: the root becomes `.`, and
/// the separator after it stays.
pub open spec fn display_of(root: Seq<char>, p: Seq<char>) -> Seq<char> {
    seq!['.'] + p.skip(root_stem_len(root))
}

/// The link to a child: the server's base address, then the child's shown
/// path without its leading `.`.
pub open spec fn href_of(root: Seq<char>, address: Seq<char>, dir: Seq<char>, name: Seq<char>) -> Seq<
    char,
> {
    address + display_of(root, child_path(dir, name)).skip(1)
}

pub open spec fn kind_tag(is_dir: bool) -> Seq<char> {
    if is_dir {
        "<strong>DIR</strong>&nbsp;&nbsp;&nbsp; "@
    } else {
        "file&nbsp;&nbsp;&nbsp;&nbsp; "@
    }
}

pub open spec fn dir_mark(is_dir: bool) -> Seq<char> {
    if is_dir {
        "/"@
    } else {
        Seq::empty()
    }
}

/// The list item of one child.
pub open spec fn item_text(
    root: Seq<char>,
    address: Seq<char>,
    dir: Seq<char>,
    e: (Seq<char>, bool),
) -> Seq<char> {
    "<li>"@ + kind_tag(e.1) + "<a href=\""@ + href_of(root, address, dir, e.0)
        + "\" target=\"_self\">"@ + display_of(root, child_path(dir, e.0)) + "</a>"@ + dir_mark(
        e.1,
    ) + "</li>\n"@
}

/// The list items of all children, in the order given.
pub open spec fn items_text(
    root: Seq<char>,
    address: Seq<char>,
    dir: Seq<char>,
    es: Seq<(Seq<char>, bool)>,
) -> Seq<char>
    decreases es.len(),
{
    if es.len() == 0 {
        Seq::empty()
    } else {
        items_text(root, address, dir, es.drop_last()) + item_text(root, address, dir, es.last())
    }
}

/// The whole page around a title and the list items.
pub open spec fn page_text(title: Seq<char>, items: Seq<char>) -> Seq<char> {
    "<!DOCTYPE html><html><head><title>"@ + title + "</title></head><body>"@ + "<ul>\n"@ + items
        + "\n</ul>\n"@ + "</body></html>"@
}

/// The listing of `dir` under `root`, or why there is none.
pub open spec fn listing_of(
    root: Seq<char>,
    address: Seq<char>,
    dir: Seq<char>,
    is_dir: bool,
    es: Seq<(Seq<char>, bool)>,
) -> Result<Seq<char>, ListingError> {
    if !is_dir {
        Err(ListingError::NotADirectory)
    } else if !within_root(root, dir) {
        Err(ListingError::AccessForbidden)
    } else {
        Ok(page_text(display_of(root, dir), items_text(root, address, dir, es)))
    }
}

fn shown_path(root_len: usize, p: &str) -> (r: String)
    requires
        root_len <= p@.len(),
    ensures
        r@ == seq!['.'] + p@.skip(root_len as int),
{
    let mut r = String::from_str(".");
    proof {
        reveal_strlit(".");
    }
    r.append(p.substring_char(root_len, p.unicode_len()));
    assert(r@ =~= seq!['.'] + p@.skip(root_len as int));
    r
}

/// Renders the listing of the directory `path` under `source_dir`, with
/// links based at `address`. `is_dir` and `entries` are what the filesystem
/// reported of `path` and of its children.
pub fn get_dir_contents_as_html(
    path: &str,
    source_dir: &str,
    address: &str,
    is_dir: bool,
    entries: &[ListingEntry],
) -> (r: Result<String, ListingError>)
    ensures
        match r {
            Ok(s) => listing_of(source_dir@, address@, path@, is_dir, entries_view(entries@)) == Ok::<
                Seq<char>,
                ListingError,
            >(s@),
            Err(e) => listing_of(source_dir@, address@, path@, is_dir, entries_view(entries@))
                == Err::<Seq<char>, ListingError>(e),
        },
{
    if !is_dir {
        return Err(ListingError::NotADirectory);
    }
    if !is_within_root(source_dir, path) {
        return Err(ListingError::AccessForbidden);
    }
    let full_len = source_dir.unicode_len();
    let root_len = if full_len > 0 && source_dir.get_char(full_len - 1) == '/' {
        full_len - 1
    } else {
        full_len
    };
    let ghost root = source_dir@;
    let ghost es = entries_view(entries@);
    let mut items = String::new();
    let mut i: usize = 0;
    assert(es.take(0) =~= Seq::<(Seq<char>, bool)>::empty());
    while i < entries.len()
        invariant
            i <= entries@.len(),
            root_len == root_stem_len(root),
            root_len <= root.len(),
            root == source_dir@,
            es == entries_view(entries@),
            within_root(root, path@),
            items@ == items_text(root, address@, path@, es.take(i as int)),
        decreases entries.len() - i,
    {
        let entry = &entries[i];
        assert(es.take(i + 1).drop_last() =~= es.take(i as int));
        assert(es.take(i + 1).last() == (entry.name@, entry.is_dir));
        let child = child_of(path, entry.name.as_str());
        assert(child@.len() >= root.len());
        let shown = shown_path(root_len, child.as_str());
        let link_tail = shown.as_str().substring_char(1, shown.unicode_len());
        let ghost before = items@;
        items.append("<li>");
        if entry.is_dir {
            items.append("<strong>DIR</strong>&nbsp;&nbsp;&nbsp; ");
        } else {
            items.append("file&nbsp;&nbsp;&nbsp;&nbsp; ");
        }
        items.append("<a href=\"");
        items.append(address);
        items.append(link_tail);
        items.append("\" target=\"_self\">");
        items.append(shown.as_str());
        items.append("</a>");
        if entry.is_dir {
            items.append("/");
        }
        items.append("</li>\n");
        assert(items@ =~= before + item_text(root, address@, path@, (entry.name@, entry.is_dir)));
        i += 1;
    }
    assert(es.take(entries.len() as int) =~= es);
    let title = shown_path(root_len, path);
    let mut page = String::from_str("<!DOCTYPE html><html><head><title>");
    page.append(title.as_str());
    page.append("</title></head><body>");
    page.append("<ul>\n");
    page.append(items.as_str());
    page.append("\n</ul>\n");
    page.append("</body></html>");
    Ok(page)
}

/// The link to a child of a directory under the root is the base address,
/// a `/`, and the child's path relative to the root.
pub proof fn lemma_link_under_root(
    root: Seq<char>,
    address: Seq<char>,
    dir: Seq<char>,
    name: Seq<char>,
)
    requires
        within_root(root, dir),
    ensures
        href_of(root, address, dir, name) == address + seq!['/'] + child_path(dir, name).skip(
            root_stem_len(root) + 1,
        ),
{
    let cp = child_path(dir, name);
    let k = root_stem_len(root);
    assert(cp.take(dir.len() as int) =~= dir);
    assert(cp.len() > k);
    if root.len() > 0 && root.last() == '/' {
        assert(cp[k] == dir[k]);
        assert(dir[k] == root[k]);
    } else if dir.len() > root.len() {
        assert(cp[k] == dir[k]);
    } else {
        assert(cp[k] == '/');
    }
    assert(cp.skip(k) =~= seq!['/'] + cp.skip(k + 1));
    assert((seq!['.'] + cp.skip(k)).skip(1) =~= cp.skip(k));
    assert(href_of(root, address, dir, name) =~= address + seq!['/'] + cp.skip(k + 1));
}

pub proof fn lemma_items_concat(
    root: Seq<char>,
    address: Seq<char>,
    dir: Seq<char>,
    a: Seq<(Seq<char>, bool)>,
    b: Seq<(Seq<char>, bool)>,
)
    ensures
        items_text(root, address, dir, a + b) == items_text(root, address, dir, a) + items_text(
            root,
            address,
            dir,
            b,
        ),
    decreases b.len(),
{
    if b.len() == 0 {
        assert(a + b =~= a);
        assert(items_text(root, address, dir, a) + items_text(root, address, dir, b) =~= items_text(
            root,
            address,
            dir,
            a,
        ));
    } else {
        lemma_items_concat(root, address, dir, a, b.drop_last());
        assert((a + b).drop_last() =~= a + b.drop_last());
        assert((a + b).last() == b.last());
        assert(items_text(root, address, dir, a + b) =~= items_text(root, address, dir, a)
            + items_text(root, address, dir, b));
    }
}

/// A listing holds exactly one list item per child, in the order the
/// children were given, and each item's link starts with the server's base
/// address.
pub proof fn lemma_listing_items(
    root: Seq<char>,
    address: Seq<char>,
    dir: Seq<char>,
    es: Seq<(Seq<char>, bool)>,
)
    ensures
        forall|i: int|
            0 <= i < es.len() ==> (#[trigger] href_of(root, address, dir, es[i].0)).take(
                address.len() as int,
            ) == address,
        forall|i: int|
            0 <= i < es.len() ==> items_text(root, address, dir, es) == items_text(
                root,
                address,
                dir,
                es.take(i),
            ) + #[trigger] item_text(root, address, dir, es[i]) + items_text(
                root,
                address,
                dir,
                es.skip(i + 1),
            ),
{
    assert forall|i: int| 0 <= i < es.len() implies (#[trigger] href_of(
        root,
        address,
        dir,
        es[i].0,
    )).take(address.len() as int) == address by {
        assert(href_of(root, address, dir, es[i].0).take(address.len() as int) =~= address);
    }
    assert forall|i: int| 0 <= i < es.len() implies items_text(root, address, dir, es)
        == items_text(root, address, dir, es.take(i)) + #[trigger] item_text(
        root,
        address,
        dir,
        es[i],
    ) + items_text(root, address, dir, es.skip(i + 1)) by {
        let one = seq![es[i]];
        assert(es =~= es.take(i) + one + es.skip(i + 1));
        lemma_items_concat(root, address, dir, es.take(i) + one, es.skip(i + 1));
        lemma_items_concat(root, address, dir, es.take(i), one);
        assert(one.drop_last() =~= Seq::<(Seq<char>, bool)>::empty());
        assert(items_text(root, address, dir, one.drop_last()) == Seq::<char>::empty());
        assert(one.last() == es[i]);
        assert(items_text(root, address, dir, one) =~= item_text(root, address, dir, es[i]));
    }
}

} // verus!
