//! Resolution of a request path against the served root, with the guards
//! that keep every served file inside the root and away from the server's
//! own executable.

use vstd::prelude::*;
use crate::request::{lemma_split_concat, lemma_split_without_sep};
use crate::text::{same_text, split_at_char, split_on, strs_view};

verus! {

/// The path with one leading `/` removed, if it has one.
pub open spec fn strip_one_slash(p: Seq<char>) -> Seq<char> {
    if p.len() > 0 && p[0] == '/' {
        p.skip(1)
    } else {
        p
    }
}

/// `name` placed under the directory `dir`, with one separator between them.
pub open spec fn child_path(dir: Seq<char>, name: Seq<char>) -> Seq<char> {
    if dir.len() > 0 && dir.last() == '/' {
        dir + name
    } else {
        dir + seq!['/'] + name
    }
}

/// `part` joined onto `base`; an absolute `part` replaces `base`.
pub open spec fn joined(base: Seq<char>, part: Seq<char>) -> Seq<char> {
    if part.len() > 0 && part[0] == '/' {
        part
    } else {
        child_path(base, part)
    }
}

/// The filesystem path a request path names under `root`.
pub open spec fn target_of(root: Seq<char>, request_path: Seq<char>) -> Seq<char> {
    joined(root, strip_one_slash(request_path))
}

pub open spec fn is_absolute(p: Seq<char>) -> bool {
    p.len() > 0 && p[0] == '/'
}

/// The change in depth one path component makes: `..` climbs one level,
/// an empty or `.` component stays, any other descends one.
pub open spec fn step_depth(c: Seq<char>) -> int {
    if c == seq!['.', '.'] {
        -1
    } else if c.len() == 0 || c == seq!['.'] {
        0
    } else {
        1
    }
}

/// The depth reached after walking the components `cs`.
pub open spec fn depth_of(cs: Seq<Seq<char>>) -> int
    decreases cs.len(),
{
    if cs.len() == 0 {
        0
    } else {
        depth_of(cs.drop_last()) + step_depth(cs.last())
    }
}

/// Whether walking the components `cs` at some point climbs above where
/// the walk started.
pub open spec fn climbs_out(cs: Seq<Seq<char>>) -> bool {
    exists|i: int| 0 < i <= cs.len() && #[trigger] depth_of(cs.take(i)) < 0
}

/// Whether `p` names `root` itself or something beneath it, once its `..`
/// steps are taken: `root` is a whole-component prefix of `p`, and the
/// components after it never climb above the root.
pub open spec fn within_root(root: Seq<char>, p: Seq<char>) -> bool {
    root.len() <= p.len() && p.take(root.len() as int) == root && (p.len() == root.len() || (
    root.len() > 0 && root.last() == '/') || p[root.len() as int] == '/') && !climbs_out(
        split_on(p.skip(root.len() as int), '/'),
    )
}

/// The last component of `p`: what follows its last `/`.
pub open spec fn last_segment(p: Seq<char>) -> Seq<char>
    decreases p.len(),
{
    if p.len() == 0 || p.last() == '/' {
        Seq::empty()
    } else {
        last_segment(p.drop_last()).push(p.last())
    }
}

/// Why a request path is not served.
#[derive(Debug, Clone, Copy, PartialEq, Eq, Structural)]
pub enum RejectReason {
    OutsideRoot,
    Symlink,
    Relative,
    NoFileName,
    SelfAccess,
}

/// What a request path resolves to.
#[derive(Debug, Clone, Copy, PartialEq, Eq, Structural)]
pub enum ResolvedTarget {
    Directory,
    RegularFile,
    Rejected(RejectReason),
}

/// The verdict on a joined path, given what the filesystem says of it
/// (`is_dir` follows links, `is_symlink` does not).
pub open spec fn resolution(
    root: Seq<char>,
    target: Seq<char>,
    executable_name: Seq<char>,
    is_dir: bool,
    is_symlink: bool,
) -> ResolvedTarget {
    if is_dir {
        if within_root(root, target) {
            ResolvedTarget::Directory
        } else {
            ResolvedTarget::Rejected(RejectReason::OutsideRoot)
        }
    } else if is_symlink {
        ResolvedTarget::Rejected(RejectReason::Symlink)
    } else if !is_absolute(target) {
        ResolvedTarget::Rejected(RejectReason::Relative)
    } else if !within_root(root, target) {
        ResolvedTarget::Rejected(RejectReason::OutsideRoot)
    } else if last_segment(target).len() == 0 {
        ResolvedTarget::Rejected(RejectReason::NoFileName)
    } else if last_segment(target) == executable_name {
        ResolvedTarget::Rejected(RejectReason::SelfAccess)
    } else {
        ResolvedTarget::RegularFile
    }
}

fn ends_with_slash(s: &str) -> (r: bool)
    ensures
        r == (s@.len() > 0 && s@.last() == '/'),
{
    let n = s.unicode_len();
    n > 0 && s.get_char(n - 1) == '/'
}

fn starts_with_slash(s: &str) -> (r: bool)
    ensures
        r == is_absolute(s@),
{
    s.unicode_len() > 0 && s.get_char(0) == '/'
}

/// `name` placed under the directory `dir`.
pub fn child_of(dir: &str, name: &str) -> (r: String)
    ensures
        r@ == child_path(dir@, name@),
{
    let mut r = String::from_str(dir);
    if !ends_with_slash(dir) {
        r.append("/");
        proof {
            reveal_strlit("/");
        }
    }
    r.append(name);
    r
}

/// The filesystem path that `request_path` names under `root`: one leading
/// `/` is removed and the rest is joined onto the root.
pub fn target_path(root: &str, request_path: &str) -> (r: String)
    ensures
        r@ == target_of(root@, request_path@),
{
    let n = request_path.unicode_len();
    let part = if starts_with_slash(request_path) {
        request_path.substring_char(1, n)
    } else {
        request_path
    };
    assert(part@ == strip_one_slash(request_path@));
    if starts_with_slash(part) {
        String::from_str(part)
    } else {
        child_of(root, part)
    }
}

/// Whether walking the `/`-separated components of `s` climbs above
/// where it starts.
pub fn climbs_out_of(s: &str) -> (r: bool)
    ensures
        r == climbs_out(split_on(s@, '/')),
{
    proof {
        reveal_strlit("..");
        reveal_strlit(".");
    }
    assert(".."@ =~= seq!['.', '.']);
    assert("."@ =~= seq!['.']);
    let parts = split_at_char(s, '/');
    let ghost cs = strs_view(parts@);
    let mut depth: usize = 0;
    let mut i: usize = 0;
    assert(cs.take(0) =~= Seq::<Seq<char>>::empty());
    while i < parts.len()
        invariant
            i <= parts@.len(),
            cs == strs_view(parts@),
            cs == split_on(s@, '/'),
            ".."@ == seq!['.', '.'],
            "."@ == seq!['.'],
            depth <= i,
            depth as int == depth_of(cs.take(i as int)),
            forall|j: int| 0 < j <= i ==> #[trigger] depth_of(cs.take(j)) >= 0,
        decreases parts.len() - i,
    {
        let c = parts[i];
        assert(cs.take(i + 1).drop_last() =~= cs.take(i as int));
        assert(cs.take(i + 1).last() == c@);
        if same_text(c, "..") {
            assert(step_depth(c@) == -1);
            if depth == 0 {
                assert(depth_of(cs.take(i + 1)) < 0);
                assert(cs.len() == parts@.len());
                assert(climbs_out(cs));
                return true;
            }
            depth -= 1;
        } else if c.unicode_len() == 0 || same_text(c, ".") {
            assert(step_depth(c@) == 0);
        } else {
            assert(step_depth(c@) == 1);
            depth += 1;
        }
        i += 1;
    }
    assert(cs.take(parts.len() as int) =~= cs);
    assert forall|j: int| 0 < j <= cs.len() implies #[trigger] depth_of(cs.take(j)) >= 0 by {}
    false
}

/// Whether `p` is `root` or lies beneath it.
pub fn is_within_root(root: &str, p: &str) -> (r: bool)
    ensures
        r == within_root(root@, p@),
{
    let rl = root.unicode_len();
    let pl = p.unicode_len();
    if rl > pl {
        return false;
    }
    if !same_text(p.substring_char(0, rl), root) {
        return false;
    }
    if !(pl == rl || ends_with_slash(root) || p.get_char(rl) == '/') {
        return false;
    }
    !climbs_out_of(p.substring_char(rl, pl))
}

/// The last component of `p`.
pub fn file_name_of(p: &str) -> (r: &str)
    ensures
        r@ == last_segment(p@),
{
    let n = p.unicode_len();
    let mut k: usize = n;
    assert(p@.subrange(n as int, n as int) =~= Seq::<char>::empty());
    assert(p@.take(n as int) =~= p@);
    while k > 0 && p.get_char(k - 1) != '/'
        invariant
            n == p@.len(),
            k <= n,
            last_segment(p@) == last_segment(p@.take(k as int)) + p@.subrange(k as int, n as int),
        decreases k,
    {
        let ghost t = p@.take(k as int);
        assert(t.drop_last() =~= p@.take(k - 1));
        assert(p@.subrange(k - 1, n as int) =~= seq![t.last()] + p@.subrange(k as int, n as int));
        assert(last_segment(t) == last_segment(t.drop_last()).push(t.last()));
        assert(last_segment(t.drop_last()).push(t.last()) + p@.subrange(k as int, n as int)
            =~= last_segment(t.drop_last()) + p@.subrange(k - 1, n as int));
        k -= 1;
    }
    assert(last_segment(p@.take(k as int)) =~= Seq::<char>::empty());
    let r = p.substring_char(k, n);
    assert(last_segment(p@) =~= r@);
    r
}

/// A path is servable as a file only when it is no symbolic link and is
/// absolute.
pub fn validate_path(path: &str, is_symlink: bool) -> (r: bool)
    ensures
        r == (!is_symlink && is_absolute(path@)),
{
    !is_symlink && starts_with_slash(path)
}

/// Decides what a joined path is to the server, from what the filesystem
/// says of it.
pub fn resolve(
    root: &str,
    target: &str,
    executable_name: &str,
    is_dir: bool,
    is_symlink: bool,
) -> (r: ResolvedTarget)
    ensures
        r == resolution(root@, target@, executable_name@, is_dir, is_symlink),
{
    if is_dir {
        if is_within_root(root, target) {
            return ResolvedTarget::Directory;
        } else {
            return ResolvedTarget::Rejected(RejectReason::OutsideRoot);
        }
    }
    if is_symlink {
        return ResolvedTarget::Rejected(RejectReason::Symlink);
    }
    if !validate_path(target, is_symlink) {
        return ResolvedTarget::Rejected(RejectReason::Relative);
    }
    if !is_within_root(root, target) {
        return ResolvedTarget::Rejected(RejectReason::OutsideRoot);
    }
    let name = file_name_of(target);
    if name.unicode_len() == 0 {
        return ResolvedTarget::Rejected(RejectReason::NoFileName);
    }
    if same_text(name, executable_name) {
        return ResolvedTarget::Rejected(RejectReason::SelfAccess);
    }
    ResolvedTarget::RegularFile
}

/// A request path whose joined form lies outside the root is never served:
/// it resolves to a rejection, whatever the filesystem says of it.
pub proof fn lemma_outside_root_rejected(
    root: Seq<char>,
    request_path: Seq<char>,
    executable_name: Seq<char>,
    is_dir: bool,
    is_symlink: bool,
)
    requires
        !within_root(root, target_of(root, request_path)),
    ensures
        resolution(
            root,
            target_of(root, request_path),
            executable_name,
            is_dir,
            is_symlink,
        ) is Rejected,
{
}

/// A request path that starts with `/../` names something above the root:
/// its joined form is never within the root, so it is always rejected.
pub proof fn lemma_parent_of_root_rejected(
    root: Seq<char>,
    rest: Seq<char>,
    executable_name: Seq<char>,
    is_dir: bool,
    is_symlink: bool,
)
    ensures
        !within_root(root, target_of(root, seq!['/', '.', '.', '/'] + rest)),
        resolution(
            root,
            target_of(root, seq!['/', '.', '.', '/'] + rest),
            executable_name,
            is_dir,
            is_symlink,
        ) is Rejected,
{
    let rp = seq!['/', '.', '.', '/'] + rest;
    let dd = seq!['.', '.'];
    let part = dd + seq!['/'] + rest;
    assert(strip_one_slash(rp) =~= part);
    let t = target_of(root, rp);
    lemma_split_concat(dd, rest, '/');
    lemma_split_without_sep(dd, '/');
    if root.len() > 0 && root.last() == '/' {
        assert(t =~= root + part);
        assert(t.skip(root.len() as int) =~= part);
        let cs = split_on(part, '/');
        assert(cs.take(1) =~= seq![dd]);
        assert(seq![dd].drop_last() =~= Seq::<Seq<char>>::empty());
        assert(step_depth(dd) == -1);
        assert(depth_of(seq![dd]) == depth_of(seq![dd].drop_last()) + step_depth(dd));
        assert(depth_of(cs.take(1)) < 0);
        assert(climbs_out(cs));
    } else {
        let e = Seq::<char>::empty();
        assert(t =~= root + seq!['/'] + part);
        assert(t.skip(root.len() as int) =~= e + seq!['/'] + part);
        lemma_split_concat(e, part, '/');
        lemma_split_without_sep(e, '/');
        let cs = split_on(e + seq!['/'] + part, '/');
        assert(cs.take(2) =~= seq![e, dd]);
        assert(seq![e, dd].drop_last() =~= seq![e]);
        assert(seq![e].drop_last() =~= Seq::<Seq<char>>::empty());
        assert(step_depth(dd) == -1);
        assert(step_depth(e) == 0);
        assert(depth_of(seq![e]) == depth_of(seq![e].drop_last()) + step_depth(e));
        assert(depth_of(seq![e, dd]) == depth_of(seq![e]) + step_depth(dd));
        assert(depth_of(cs.take(2)) < 0);
        assert(climbs_out(cs));
    }
}

/// Whatever the depth, a path whose last component is the executable's
/// file name is rejected unless it is a directory.
pub proof fn lemma_self_access_any_depth(
    root: Seq<char>,
    request_path: Seq<char>,
    executable_name: Seq<char>,
    is_symlink: bool,
)
    requires
        last_segment(target_of(root, request_path)) == executable_name,
    ensures
        resolution(
            root,
            target_of(root, request_path),
            executable_name,
            false,
            is_symlink,
        ) is Rejected,
{
}

pub proof fn lemma_last_segment_after_slash(x: Seq<char>, e: Seq<char>)
    requires
        x.len() > 0,
        x.last() == '/',
        forall|i: int| 0 <= i < e.len() ==> e[i] != '/',
    ensures
        last_segment(x + e) == e,
    decreases e.len(),
{
    if e.len() == 0 {
        assert(x + e =~= x);
    } else {
        lemma_last_segment_after_slash(x, e.drop_last());
        assert((x + e).drop_last() =~= x + e.drop_last());
        assert(e.drop_last().push(e.last()) =~= e);
    }
}

/// A request for `/NAME`, where NAME is the file name of the server's own
/// executable, is always rejected when NAME is a file, even one that exists
/// and could otherwise be read.
pub proof fn lemma_self_access_rejected(root: Seq<char>, executable_name: Seq<char>, is_symlink: bool)
    requires
        executable_name.len() > 0,
        forall|i: int| 0 <= i < executable_name.len() ==> executable_name[i] != '/',
    ensures
        resolution(
            root,
            target_of(root, seq!['/'] + executable_name),
            executable_name,
            false,
            is_symlink,
        ) is Rejected,
{
    let rp = seq!['/'] + executable_name;
    assert(strip_one_slash(rp) =~= executable_name);
    assert(executable_name[0] != '/');
    if root.len() > 0 && root.last() == '/' {
        lemma_last_segment_after_slash(root, executable_name);
    } else {
        lemma_last_segment_after_slash(root + seq!['/'], executable_name);
    }
}

} // verus!
