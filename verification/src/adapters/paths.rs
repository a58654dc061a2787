//! Paths as texts, in the form of the platform they belong to.
//!
//! On Windows both `/` and `\` separate the parts of a path, and a path may
//! start with a drive (`C:`) or a share (`\\server\share`). Elsewhere only `/`
//! separates.

use vstd::prelude::*;

use crate::text::{chars_of, concat2, same_text, split_text, text_of, wrapped};

verus! {

use crate::text::{split_on, texts_view};

/// The path with every separator written as `/`.
pub open spec fn slashed(path: Seq<char>, windows: bool) -> Seq<char> {
    if windows {
        Seq::new(
            path.len(),
            |i: int|
                if path[i] == '\\' {
                    '/'
                } else {
                    path[i]
                },
        )
    } else {
        path
    }
}

/// The path starts with a drive.
pub open spec fn has_drive(u: Seq<char>) -> bool {
    &&& u.len() >= 2
    &&& ('a' <= u[0] && u[0] <= 'z') || ('A' <= u[0] && u[0] <= 'Z')
    &&& u[1] == ':'
}

/// The first position from `i` on that holds a slash, or the length.
pub open spec fn next_slash(u: Seq<char>, i: int) -> int
    decreases u.len() - i,
{
    if i < 0 || i >= u.len() {
        u.len() as int
    } else if u[i] == '/' {
        i
    } else {
        next_slash(u, i + 1)
    }
}

/// How many characters name the share that the path starts with.
pub open spec fn share_size(u: Seq<char>) -> int {
    let server = next_slash(u, 2);
    let share = next_slash(u, server + 1);
    if u.len() > 2 && u[0] == '/' && u[1] == '/' && server > 2 && share > server + 1 {
        share
    } else {
        0
    }
}

/// How many characters name the drive or the share that the path starts with.
pub open spec fn prefix_size(u: Seq<char>, windows: bool) -> int {
    if !windows {
        0
    } else if has_drive(u) {
        2
    } else {
        share_size(u)
    }
}

/// The text starts with a slash.
pub open spec fn is_rooted(u: Seq<char>) -> bool {
    u.len() > 0 && u[0] == '/'
}

/// The path says on its own where it leads.
pub open spec fn is_absolute(path: Seq<char>, windows: bool) -> bool {
    let u = slashed(path, windows);
    if !windows {
        is_rooted(u)
    } else if has_drive(u) {
        u.len() > 2 && u[2] == '/'
    } else {
        share_size(u) > 0
    }
}

/// The path starts at a root or names a drive, or steps to a parent directory.
pub open spec fn escapes(path: Seq<char>, windows: bool) -> bool {
    let u = slashed(path, windows);
    is_rooted(u) || (windows && has_drive(u)) || split_on(u, '/').contains(".."@)
}

/// The path below the base. On Windows a path with a drive or a share stands
/// for itself, and one that starts at a root stays on the base's drive.
pub open spec fn joined(base: Seq<char>, path: Seq<char>, windows: bool) -> Seq<char> {
    let b = slashed(base, windows);
    let u = slashed(path, windows);
    if windows && prefix_size(u, windows) > 0 {
        path
    } else if windows && is_rooted(u) {
        base.take(prefix_size(b, windows)) + path
    } else if b.len() == 0 || b.last() == '/' || (windows && has_drive(b) && b.len() == 2) {
        base + path
    } else if windows {
        base + "\\"@ + path
    } else {
        base + "/"@ + path
    }
}

/// The parts among the first `k` that have a name.
pub open spec fn named_parts(parts: Seq<Seq<char>>, k: int) -> Seq<Seq<char>>
    decreases k,
{
    if k <= 0 {
        Seq::empty()
    } else if parts[k - 1].len() == 0 {
        named_parts(parts, k - 1)
    } else {
        named_parts(parts, k - 1).push(parts[k - 1])
    }
}

/// Where the path starts: its drive or share, and its root.
pub open spec fn start_parts(u: Seq<char>, n: int) -> Seq<Seq<char>> {
    (if n > 0 {
        seq![u.take(n)]
    } else {
        Seq::empty()
    }) + (if is_rooted(u.skip(n)) {
        seq!["/"@]
    } else {
        Seq::empty()
    })
}

/// Where a canonical path starts, its directories from there down, and its
/// file.
pub open spec fn components(path: Seq<char>, windows: bool) -> Seq<Seq<char>> {
    let u = slashed(path, windows);
    let n = prefix_size(u, windows);
    let parts = split_on(u.skip(n), '/');
    start_parts(u, n) + named_parts(parts, parts.len() as int)
}

/// The canonical path is the directory or lies below it.
pub open spec fn is_inside(path: Seq<char>, dir: Seq<char>, windows: bool) -> bool {
    components(dir, windows).is_prefix_of(components(path, windows))
}

fn slash(path: &str, windows: bool) -> (r: Vec<char>)
    ensures
        r@ == slashed(path@, windows),
{
    let chars = chars_of(path);
    if !windows {
        return chars;
    }
    let mut out: Vec<char> = Vec::new();
    let mut i: usize = 0;
    while i < chars.len()
        invariant
            i <= chars@.len(),
            chars@ == path@,
            windows,
            out@ == slashed(path@, windows).take(i as int),
        decreases chars.len() - i,
    {
        out.push(
            if chars[i] == '\\' {
                '/'
            } else {
                chars[i]
            },
        );
        assert(out@ =~= slashed(path@, windows).take(i + 1));
        i = i + 1;
    }
    assert(out@ =~= slashed(path@, windows));
    out
}

fn names_drive(u: &Vec<char>) -> (r: bool)
    ensures
        r == has_drive(u@),
{
    u.len() >= 2 && (('a' <= u[0] && u[0] <= 'z') || ('A' <= u[0] && u[0] <= 'Z')) && u[1] == ':'
}

fn find_slash(u: &Vec<char>, from: usize) -> (r: usize)
    ensures
        r == next_slash(u@, from as int),
        r <= u@.len(),
        from <= u@.len() ==> from <= r,
{
    let mut i: usize = from;
    while i < u.len()
        invariant
            from <= i,
            from <= u@.len() ==> i <= u@.len(),
            next_slash(u@, i as int) == next_slash(u@, from as int),
        decreases u.len() - i,
    {
        if u[i] == '/' {
            return i;
        }
        i = i + 1;
    }
    u.len()
}

fn prefix_len(u: &Vec<char>, windows: bool) -> (r: usize)
    ensures
        r == prefix_size(u@, windows),
        r <= u@.len(),
{
    if !windows {
        return 0;
    }
    if names_drive(u) {
        return 2;
    }
    let server = find_slash(u, 2);
    if u.len() <= 2 || u[0] != '/' || u[1] != '/' || server <= 2 {
        return 0;
    }
    if server == u.len() {
        assert(next_slash(u@, server + 1) == u@.len());
        return 0;
    }
    let share = find_slash(u, server + 1);
    if share > server + 1 {
        share
    } else {
        0
    }
}

fn starts_rooted(u: &Vec<char>) -> (r: bool)
    ensures
        r == is_rooted(u@),
{
    u.len() > 0 && u[0] == '/'
}

/// Whether the path says on its own where it leads.
pub fn starts_at_root(path: &str, windows: bool) -> (r: bool)
    ensures
        r == is_absolute(path@, windows),
{
    let u = slash(path, windows);
    if !windows {
        return starts_rooted(&u);
    }
    if names_drive(&u) {
        return u.len() > 2 && u[2] == '/';
    }
    prefix_len(&u, windows) > 0
}

/// Whether the path starts at a root or names a drive, or steps to a parent
/// directory.
pub fn leaves_base(path: &str, windows: bool) -> (r: bool)
    ensures
        r == escapes(path@, windows),
{
    let u = slash(path, windows);
    if starts_rooted(&u) || (windows && names_drive(&u)) {
        return true;
    }
    let size: usize = u.len();
    let text = text_of(&u, 0, size);
    assert(text@ =~= u@);
    let parts = split_text(text.as_str(), '/');
    let ghost ps = texts_view(parts@);
    let mut i: usize = 0;
    while i < parts.len()
        invariant
            i <= parts@.len(),
            ps == texts_view(parts@),
            ps == split_on(slashed(path@, windows), '/'),
            forall|j: int| 0 <= j < i ==> ps[j] != ".."@,
        decreases parts.len() - i,
    {
        assert(ps[i as int] == parts@[i as int]@);
        if same_text(parts[i].as_str(), "..") {
            assert(ps.contains(".."@));
            return true;
        }
        i = i + 1;
    }
    false
}

/// The path below the base.
pub fn join_path(base: &str, path: &str, windows: bool) -> (r: String)
    ensures
        r@ == joined(base@, path@, windows),
{
    let b = slash(base, windows);
    let u = slash(path, windows);
    if windows && prefix_len(&u, windows) > 0 {
        return path.to_owned();
    }
    if windows && starts_rooted(&u) {
        let n = prefix_len(&b, windows);
        let chars = chars_of(base);
        let start = text_of(&chars, 0, n);
        assert(start@ =~= base@.take(n as int));
        return concat2(start.as_str(), path);
    }
    if b.len() == 0 || b[b.len() - 1] == '/' || (windows && names_drive(&b) && b.len() == 2) {
        concat2(base, path)
    } else if windows {
        wrapped(base, "\\", path)
    } else {
        wrapped(base, "/", path)
    }
}

fn path_components(path: &str, windows: bool) -> (r: Vec<String>)
    ensures
        texts_view(r@) == components(path@, windows),
{
    let u = slash(path, windows);
    let n = prefix_len(&u, windows);
    let size: usize = u.len();
    let tail = text_of(&u, n, size);
    assert(tail@ =~= u@.skip(n as int));
    let parts = split_text(tail.as_str(), '/');
    let ghost ps = texts_view(parts@);
    let mut out: Vec<String> = Vec::new();
    let ghost front = start_parts(u@, n as int);
    if n > 0 {
        let start = text_of(&u, 0, n);
        assert(start@ =~= u@.take(n as int));
        out.push(start);
    }
    if n < u.len() && u[n] == '/' {
        out.push("/".to_owned());
    }
    assert(texts_view(out@) =~= front + named_parts(ps, 0));
    let mut i: usize = 0;
    while i < parts.len()
        invariant
            i <= parts@.len(),
            ps == texts_view(parts@),
            texts_view(out@) == front + named_parts(ps, i as int),
        decreases parts.len() - i,
    {
        assert(ps[i as int] == parts@[i as int]@);
        let ghost before = texts_view(out@);
        let size: usize = chars_of(parts[i].as_str()).len();
        if size > 0 {
            out.push(parts[i].clone());
            proof {
                assert(texts_view(out@) =~= before.push(ps[i as int]));
                assert((front + named_parts(ps, i as int)).push(ps[i as int]) =~= front
                    + named_parts(ps, i as int).push(ps[i as int]));
            }
        }
        i = i + 1;
    }
    out
}

/// Whether the canonical path is the directory or lies below it.
pub fn lies_inside(path: &str, dir: &str, windows: bool) -> (r: bool)
    ensures
        r == is_inside(path@, dir@, windows),
{
    let inner = path_components(path, windows);
    let outer = path_components(dir, windows);
    let ghost a = components(path@, windows);
    let ghost b = components(dir@, windows);
    if outer.len() > inner.len() {
        return false;
    }
    let mut i: usize = 0;
    while i < outer.len()
        invariant
            i <= outer@.len() <= inner@.len(),
            a == texts_view(inner@),
            b == texts_view(outer@),
            a == components(path@, windows),
            b == components(dir@, windows),
            forall|j: int| 0 <= j < i ==> a[j] == b[j],
        decreases outer.len() - i,
    {
        assert(a[i as int] == inner@[i as int]@ && b[i as int] == outer@[i as int]@);
        if !same_text(inner[i].as_str(), outer[i].as_str()) {
            assert(a.subrange(0, b.len() as int)[i as int] != b[i as int]);
            return false;
        }
        i = i + 1;
    }
    assert(a.subrange(0, b.len() as int) =~= b);
    true
}

} // verus!
