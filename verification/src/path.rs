//! Where the files derived from a document live, and when one of them is
//! out of date.
//!
//! A path is a text whose segments are separated by `/`. Its file name is
//! its last segment, not counting segments that are empty or `.`; a path
//! whose last segment is `..`, or that has no other kind of segment, has
//! no file name. The extension of a file name is what follows its last
//! `.`, unless that `.` is its first character.

use crate::text::{append, chars_of, slice, string_of};
use vstd::prelude::*;

verus! {

/// `name` below `root`: `name` alone when it starts at the root directory or
/// `root` is empty, otherwise `root`, one `/` unless `root` ends in one, and
/// `name`.
pub open spec fn joined(root: Seq<char>, name: Seq<char>) -> Seq<char> {
    if (name.len() > 0 && name[0] == '/') || root.len() == 0 {
        name
    } else if root.last() == '/' {
        root + name
    } else {
        root.push('/') + name
    }
}

/// The index at which the last segment of `p` starts.
pub open spec fn segment_start(p: Seq<char>) -> int
    decreases p.len(),
{
    if p.len() == 0 {
        0
    } else if p.last() == '/' {
        p.len() as int
    } else {
        segment_start(p.drop_last())
    }
}

/// The length of `p` without what names nothing at its end: each `/`
/// there, and each segment that is `.`.
pub open spec fn name_end(p: Seq<char>) -> int
    decreases p.len(),
{
    if p.len() == 0 {
        0
    } else if p.last() == '/' {
        name_end(p.drop_last())
    } else if p.last() == '.' && (p.len() == 1 || p[p.len() - 2] == '/') {
        name_end(p.drop_last())
    } else {
        p.len() as int
    }
}

/// The index at which the segment starts that ends at `name_end(p)`.
pub open spec fn name_start(p: Seq<char>) -> int {
    segment_start(p.subrange(0, name_end(p)))
}

/// `p` has a file name: the segment that ends at `name_end(p)` is there
/// and is not `..`.
pub open spec fn has_file_name(p: Seq<char>) -> bool {
    let s = name_start(p);
    let e = name_end(p);
    e > 0 && !(e - s == 2 && p[s] == '.' && p[s + 1] == '.')
}

/// The index of the last `.` of `p` at or after `from`; -1 when there is none.
pub open spec fn last_dot(p: Seq<char>, from: int) -> int
    decreases p.len(),
{
    if p.len() == 0 || p.len() <= from {
        -1
    } else if p.last() == '.' {
        p.len() - 1
    } else {
        last_dot(p.drop_last(), from)
    }
}

/// The index at which the stem of the file name of `p` ends: that of the
/// `.` before its extension, or the end of the file name when it has no
/// extension.
pub open spec fn stem_end(p: Seq<char>) -> int {
    let s = name_start(p);
    let e = name_end(p);
    let d = last_dot(p.subrange(0, e), s);
    if has_file_name(p) && d > s {
        d
    } else {
        e
    }
}

/// The file name of `p`; empty when it has none.
pub open spec fn file_name(p: Seq<char>) -> Seq<char> {
    if has_file_name(p) {
        p.subrange(name_start(p), name_end(p))
    } else {
        Seq::empty()
    }
}

/// The file name of `p` without its extension; empty when `p` has no
/// file name.
pub open spec fn file_stem(p: Seq<char>) -> Seq<char> {
    if has_file_name(p) {
        p.subrange(name_start(p), stem_end(p))
    } else {
        Seq::empty()
    }
}

/// The extension of the file name of `p`; empty when it has none.
pub open spec fn extension(p: Seq<char>) -> Seq<char> {
    if has_file_name(p) && stem_end(p) < name_end(p) {
        p.subrange(stem_end(p) + 1, name_end(p))
    } else {
        Seq::empty()
    }
}

/// `p` with the extension of its file name replaced by `ext`, or removed
/// when `ext` is empty. What follows the file name goes. A path without a
/// file name stays as it is.
pub open spec fn with_extension(p: Seq<char>, ext: Seq<char>) -> Seq<char> {
    if !has_file_name(p) {
        p
    } else if ext.len() == 0 {
        p.subrange(0, stem_end(p))
    } else {
        p.subrange(0, stem_end(p)).push('.') + ext
    }
}

/// The path of the markup file of the document `name` below `root`.
pub open spec fn markdown_path(root: Seq<char>, name: Seq<char>) -> Seq<char> {
    with_extension(joined(root, name), seq!['m', 'd'])
}

/// The path of the rendered page of the document `name` below `root`.
pub open spec fn html_path(root: Seq<char>, name: Seq<char>) -> Seq<char> {
    with_extension(joined(root, name), seq!['h', 't', 'm', 'l'])
}

pub proof fn lemma_segment_start(p: Seq<char>)
    ensures
        0 <= segment_start(p) <= p.len(),
        segment_start(p) > 0 ==> p[segment_start(p) - 1] == '/',
        forall|k: int| segment_start(p) <= k < p.len() ==> #[trigger] p[k] != '/',
    decreases p.len(),
{
    if p.len() > 0 && p.last() != '/' {
        let q = p.drop_last();
        lemma_segment_start(q);
        assert forall|k: int| segment_start(p) <= k < p.len() implies #[trigger] p[k] != '/' by {
            if k < q.len() {
                assert(p[k] == q[k]);
            }
        }
    }
}

/// The last segment starts where `segment_start` says.
pub proof fn lemma_segment_start_is(p: Seq<char>, s: int)
    requires
        0 <= s <= p.len(),
        s > 0 ==> p[s - 1] == '/',
        forall|k: int| s <= k < p.len() ==> #[trigger] p[k] != '/',
    ensures
        segment_start(p) == s,
{
    lemma_segment_start(p);
    let t = segment_start(p);
    if t < s {
        assert(p[s - 1] != '/');
    } else if s < t {
        assert(p[t - 1] != '/');
    }
}

pub proof fn lemma_name_end(p: Seq<char>)
    ensures
        0 <= name_end(p) <= p.len(),
        name_end(p) > 0 ==> p[name_end(p) - 1] != '/',
        name_end(p) == 1 ==> p[0] != '.',
        name_end(p) > 1 ==> !(p[name_end(p) - 1] == '.' && p[name_end(p) - 2] == '/'),
        name_end(p.subrange(0, name_end(p))) == name_end(p),
    decreases p.len(),
{
    if p.len() == 0 {
        assert(p.subrange(0, 0) == p);
    } else if p.last() == '/' || (p.last() == '.' && (p.len() == 1 || p[p.len() - 2] == '/')) {
        let q = p.drop_last();
        lemma_name_end(q);
        assert(q.subrange(0, name_end(q)) == p.subrange(0, name_end(p)));
        if name_end(q) > 1 {
            assert(p[name_end(q) - 1] == q[name_end(q) - 1]);
            assert(p[name_end(q) - 2] == q[name_end(q) - 2]);
        } else if name_end(q) == 1 {
            assert(p[0] == q[0]);
        }
    } else {
        assert(p.subrange(0, p.len() as int) == p);
    }
}

/// The file name of a path that has one is not empty and holds no `/`.
pub proof fn lemma_file_name(p: Seq<char>)
    requires
        has_file_name(p),
    ensures
        0 <= name_start(p) < name_end(p) <= p.len(),
        name_start(p) > 0 ==> p[name_start(p) - 1] == '/',
        forall|k: int| name_start(p) <= k < name_end(p) ==> #[trigger] p[k] != '/',
{
    lemma_name_end(p);
    let e = name_end(p);
    let body = p.subrange(0, e);
    lemma_segment_start(body);
    let s = segment_start(body);
    if s == e {
        assert(body[s - 1] == '/');
    }
    assert forall|k: int| s <= k < e implies #[trigger] p[k] != '/' by {
        assert(p[k] == body[k]);
    }
    if s > 0 {
        assert(p[s - 1] == body[s - 1]);
    }
}

pub proof fn lemma_last_dot(p: Seq<char>, from: int)
    requires
        0 <= from,
    ensures
        last_dot(p, from) == -1 || from <= last_dot(p, from) < p.len(),
        last_dot(p, from) >= 0 ==> p[last_dot(p, from)] == '.',
        forall|k: int|
            from <= k < p.len() && last_dot(p, from) < k ==> #[trigger] p[k] != '.',
    decreases p.len(),
{
    if p.len() == 0 || p.len() <= from || p.last() == '.' {
    } else {
        let q = p.drop_last();
        lemma_last_dot(q, from);
        assert forall|k: int| from <= k < p.len() && last_dot(p, from) < k implies #[trigger] p[k]
            != '.' by {
            if k < q.len() {
                assert(p[k] == q[k]);
            }
        }
    }
}

/// The last `.` is where `last_dot` says.
pub proof fn lemma_last_dot_is(p: Seq<char>, from: int, d: int)
    requires
        0 <= from,
        d == -1 || (from <= d < p.len() && p[d] == '.'),
        forall|k: int| from <= k < p.len() && d < k ==> #[trigger] p[k] != '.',
    ensures
        last_dot(p, from) == d,
{
    lemma_last_dot(p, from);
    let e = last_dot(p, from);
    if e < d {
        assert(p[d] != '.');
    } else if d < e {
        assert(p[e] != '.');
    }
}

pub proof fn lemma_stem_end(p: Seq<char>)
    requires
        has_file_name(p),
    ensures
        name_start(p) < stem_end(p) <= name_end(p) <= p.len(),
        stem_end(p) < name_end(p) ==> p[stem_end(p)] == '.',
        forall|k: int| stem_end(p) < k < name_end(p) ==> #[trigger] p[k] != '.',
{
    lemma_file_name(p);
    let e = name_end(p);
    let body = p.subrange(0, e);
    lemma_last_dot(body, name_start(p));
    let d = last_dot(body, name_start(p));
    if d >= 0 {
        assert(p[d] == body[d]);
    }
    assert forall|k: int| stem_end(p) < k < e implies #[trigger] p[k] != '.' by {
        assert(p[k] == body[k]);
    }
}

/// No `/` and no `.` stands in `ext`, and `ext` is not empty.
pub open spec fn is_plain_extension(ext: Seq<char>) -> bool {
    ext.len() > 0 && forall|k: int| 0 <= k < ext.len() ==> ext[k] != '/' && ext[k] != '.'
}

/// An extension that is put on a path is the extension of the result, and
/// nothing is left of the one before: the next extension finds the path
/// as the first one found it. This holds of every path with a file name.
pub proof fn lemma_extension_forced(p: Seq<char>, ext: Seq<char>, next: Seq<char>)
    requires
        has_file_name(p),
        is_plain_extension(ext),
    ensures
        has_file_name(with_extension(p, ext)),
        extension(with_extension(p, ext)) == ext,
        file_stem(with_extension(p, ext)) == file_stem(p),
        with_extension(with_extension(p, ext), next) == with_extension(p, next),
{
    lemma_stem_end(p);
    lemma_file_name(p);
    let s = name_start(p);
    let t = stem_end(p);
    let r = with_extension(p, ext);
    assert(r.len() == t + 1 + ext.len());
    assert(r.last() == ext.last());
    assert(name_end(r) == r.len());
    assert(r.subrange(0, r.len() as int) == r);
    assert(segment_start(r) == s) by {
        assert forall|k: int| s <= k < r.len() implies #[trigger] r[k] != '/' by {
            if k < t {
                assert(r[k] == p[k]);
            } else if k > t {
                assert(r[k] == ext[k - t - 1]);
            }
        }
        if s > 0 {
            assert(r[s - 1] == p[s - 1]);
        }
        lemma_segment_start_is(r, s);
    }
    assert(last_dot(r, s) == t) by {
        assert forall|k: int| s <= k < r.len() && t < k implies #[trigger] r[k] != '.' by {
            assert(r[k] == ext[k - t - 1]);
        }
        lemma_last_dot_is(r, s, t);
    }
    assert(has_file_name(r));
    assert(stem_end(r) == t);
    assert(r.subrange(t + 1, r.len() as int) == ext);
    assert(r.subrange(s, t) == p.subrange(s, t));
    assert(r.subrange(0, t) == p.subrange(0, t));
}

/// The markup file of a document has the extension `md` and its rendered
/// page the extension `html`, whatever extension the name of the document
/// came with; and each path is the other one with its extension changed.
/// This holds wherever the name, joined to the directory, has a file
/// name. Where it has none, as with the name `..`, the path is the same
/// for both and has no extension.
pub proof fn lemma_paths_force_extension(root: Seq<char>, name: Seq<char>)
    ensures
        has_file_name(joined(root, name)) ==> {
            &&& extension(markdown_path(root, name)) == seq!['m', 'd']
            &&& extension(html_path(root, name)) == seq!['h', 't', 'm', 'l']
            &&& with_extension(markdown_path(root, name), seq!['h', 't', 'm', 'l']) == html_path(
                root,
                name,
            )
            &&& with_extension(html_path(root, name), seq!['m', 'd']) == markdown_path(root, name)
            &&& file_stem(markdown_path(root, name)) == file_stem(joined(root, name))
            &&& file_stem(html_path(root, name)) == file_stem(joined(root, name))
        },
        !has_file_name(joined(root, name)) ==> {
            &&& markdown_path(root, name) == joined(root, name)
            &&& html_path(root, name) == joined(root, name)
            &&& extension(joined(root, name)).len() == 0
        },
{
    let md = seq!['m', 'd'];
    let html = seq!['h', 't', 'm', 'l'];
    if has_file_name(joined(root, name)) {
        lemma_extension_forced(joined(root, name), md, html);
        lemma_extension_forced(joined(root, name), html, md);
    }
}

/// The extension that a name comes with does not tell in the paths of its
/// document: with another extension the name gives the same two paths.
/// This holds of every name with a file name, and of every extension
/// without `/` and `.`.
pub proof fn lemma_paths_ignore_extension(root: Seq<char>, name: Seq<char>, ext: Seq<char>)
    requires
        has_file_name(name),
        is_plain_extension(ext),
    ensures
        markdown_path(root, with_extension(name, ext)) == markdown_path(root, name),
        html_path(root, with_extension(name, ext)) == html_path(root, name),
{
    let md = seq!['m', 'd'];
    let html = seq!['h', 't', 'm', 'l'];
    let p = joined(root, name);
    lemma_joined_with_extension(root, name, ext);
    lemma_extension_forced(p, ext, md);
    lemma_extension_forced(p, ext, html);
}

/// A directory in front of a path with a file name moves the file name
/// and leaves it alone.
proof fn lemma_prefixed(pre: Seq<char>, name: Seq<char>)
    requires
        pre.len() == 0 || pre.last() == '/',
        has_file_name(name),
    ensures
        name_end(pre + name) == pre.len() + name_end(name),
        name_start(pre + name) == pre.len() + name_start(name),
        has_file_name(pre + name),
        stem_end(pre + name) == pre.len() + stem_end(name),
{
    let p = pre + name;
    let off = pre.len() as int;
    lemma_file_name(name);
    let e = name_end(name);
    let s = name_start(name);
    lemma_name_end_prefixed(pre, name);
    let body = name.subrange(0, e);
    let pbody = p.subrange(0, e + off);
    assert(pbody == pre + body);
    lemma_segment_start(body);
    assert(segment_start(pbody) == s + off) by {
        assert forall|k: int| s + off <= k < pbody.len() implies #[trigger] pbody[k] != '/' by {
            assert(pbody[k] == body[k - off]);
        }
        if s > 0 {
            assert(pbody[s + off - 1] == body[s - 1]);
        } else if off > 0 {
            assert(pbody[off - 1] == pre.last());
        }
        lemma_segment_start_is(pbody, s + off);
    }
    assert(p[s + off] == name[s]);
    if e - s == 2 {
        assert(p[s + off + 1] == name[s + 1]);
    }
    assert(has_file_name(p));
    let d = last_dot(body, s);
    lemma_last_dot(body, s);
    assert(last_dot(pbody, s + off) == if d >= 0 {
        d + off
    } else {
        -1
    }) by {
        assert forall|k: int| s + off <= k < pbody.len() && d + off < k implies #[trigger] pbody[k]
            != '.' by {
            assert(pbody[k] == body[k - off]);
        }
        if d >= 0 {
            assert(pbody[d + off] == body[d]);
            lemma_last_dot_is(pbody, s + off, d + off);
        } else {
            lemma_last_dot_is(pbody, s + off, -1);
        }
    }
}

/// A directory in front of a path leaves the end of its file name where
/// it was.
proof fn lemma_name_end_prefixed(pre: Seq<char>, name: Seq<char>)
    requires
        name_end(name) > 0,
    ensures
        name_end(pre + name) == pre.len() + name_end(name),
    decreases name.len(),
{
    let p = pre + name;
    assert(p.last() == name.last());
    assert(p.drop_last() == pre + name.drop_last());
    if name.len() >= 2 {
        assert(p[p.len() - 2] == name[name.len() - 2]);
    }
    if name.last() == '/' || (name.last() == '.' && (name.len() == 1 || name[name.len() - 2]
        == '/')) {
        lemma_name_end_prefixed(pre, name.drop_last());
    }
}

/// To join a name and to change its extension can be done in either
/// order.
pub proof fn lemma_joined_with_extension(root: Seq<char>, name: Seq<char>, ext: Seq<char>)
    requires
        has_file_name(name),
        ext.len() > 0,
    ensures
        has_file_name(joined(root, name)),
        joined(root, with_extension(name, ext)) == with_extension(joined(root, name), ext),
{
    lemma_file_name(name);
    let pre = if name[0] == '/' || root.len() == 0 {
        Seq::<char>::empty()
    } else if root.last() == '/' {
        root
    } else {
        root.push('/')
    };
    assert(joined(root, name) == pre + name);
    lemma_prefixed(pre, name);
    lemma_stem_end(name);
    let t = stem_end(name);
    let renamed = with_extension(name, ext);
    assert(renamed[0] == name[0]);
    assert(joined(root, renamed) == pre + renamed);
    assert((pre + name).subrange(0, pre.len() + t) == pre + name.subrange(0, t));
    assert(with_extension(pre + name, ext) == pre + renamed);
}

pub fn join(root: &Vec<char>, name: &Vec<char>) -> (p: Vec<char>)
    ensures
        p@ == joined(root@, name@),
{
    let mut p: Vec<char> = Vec::new();
    if !((name.len() > 0 && name[0] == '/') || root.len() == 0) {
        append(&mut p, root);
        if root[root.len() - 1] != '/' {
            p.push('/');
        }
    }
    append(&mut p, name);
    p
}

/// Where the file name of a path stands: the indices at which it starts,
/// at which its stem ends, and at which it ends.
pub struct NameBounds {
    pub start: usize,
    pub stem_end: usize,
    pub end: usize,
}

/// Where the file name of `p` stands; `None` when `p` has none.
pub fn find_file_name(p: &Vec<char>) -> (r: Option<NameBounds>)
    ensures
        match r {
            Some(b) => {
                &&& has_file_name(p@)
                &&& b.start == name_start(p@)
                &&& b.stem_end == stem_end(p@)
                &&& b.end == name_end(p@)
                &&& b.start < b.stem_end <= b.end <= p.len()
            },
            None => !has_file_name(p@),
        },
{
    let mut e: usize = p.len();
    assert(p@.subrange(0, e as int) == p@);
    while e > 0 && (p[e - 1] == '/' || (p[e - 1] == '.' && (e == 1 || p[e - 2] == '/')))
        invariant
            e <= p.len(),
            name_end(p@) == name_end(p@.subrange(0, e as int)),
        decreases e,
    {
        assert(p@.subrange(0, e as int).drop_last() == p@.subrange(0, e - 1));
        e -= 1;
    }
    let ghost body = p@.subrange(0, e as int);
    let mut s: usize = e;
    assert(body.subrange(0, s as int) == body);
    while s > 0 && p[s - 1] != '/'
        invariant
            s <= e <= p.len(),
            body == p@.subrange(0, e as int),
            segment_start(body) == segment_start(body.subrange(0, s as int)),
        decreases s,
    {
        assert(body.subrange(0, s as int).drop_last() == body.subrange(0, s - 1));
        s -= 1;
    }
    assert(s == name_start(p@));
    if e == 0 || (e - s == 2 && p[s] == '.' && p[s + 1] == '.') {
        return None;
    }
    proof {
        lemma_stem_end(p@);
    }
    let mut i: usize = e;
    assert(body.subrange(0, i as int) == body);
    while i > s && p[i - 1] != '.'
        invariant
            s <= i <= e <= p.len(),
            body == p@.subrange(0, e as int),
            last_dot(body, s as int) == last_dot(body.subrange(0, i as int), s as int),
        decreases i,
    {
        assert(body.subrange(0, i as int).drop_last() == body.subrange(0, i - 1));
        i -= 1;
    }
    let t: usize = if i > s && i - 1 > s {
        i - 1
    } else {
        e
    };
    Some(NameBounds { start: s, stem_end: t, end: e })
}

pub fn file_name_of(p: &Vec<char>) -> (name: Vec<char>)
    ensures
        name@ == file_name(p@),
{
    match find_file_name(p) {
        Some(b) => slice(p, b.start, b.end),
        None => Vec::new(),
    }
}

pub fn file_stem_of(p: &Vec<char>) -> (stem: Vec<char>)
    ensures
        stem@ == file_stem(p@),
{
    match find_file_name(p) {
        Some(b) => slice(p, b.start, b.stem_end),
        None => Vec::new(),
    }
}

pub fn extension_of(p: &Vec<char>) -> (ext: Vec<char>)
    ensures
        ext@ == extension(p@),
{
    match find_file_name(p) {
        Some(b) => if b.stem_end < b.end {
            slice(p, b.stem_end + 1, b.end)
        } else {
            Vec::new()
        },
        None => Vec::new(),
    }
}

pub fn set_extension(p: &Vec<char>, ext: &Vec<char>) -> (out: Vec<char>)
    ensures
        out@ == with_extension(p@, ext@),
{
    match find_file_name(p) {
        Some(b) => {
            let mut out = slice(p, 0, b.stem_end);
            if ext.len() > 0 {
                out.push('.');
                append(&mut out, ext);
            }
            out
        },
        None => {
            assert(p@.subrange(0, p.len() as int) == p@);
            slice(p, 0, p.len())
        },
    }
}

/// The path of the markup file of the document `name` below `path`:
/// `name` joined to `path`, with the extension `md` whatever extension
/// `name` came with. A path without a file name stays as it is.
pub fn markdown(path: &str, name: &str) -> (file: String)
    ensures
        file@ == markdown_path(path@, name@),
{
    let p = join(&chars_of(path), &chars_of(name));
    let ext: Vec<char> = vec!['m', 'd'];
    assert(ext@ == seq!['m', 'd']);
    string_of(&set_extension(&p, &ext))
}

/// The path of the rendered page of the document `name` below `path`:
/// `name` joined to `path`, with the extension `html` whatever extension
/// `name` came with. A path without a file name stays as it is.
pub fn html(path: &str, name: &str) -> (file: String)
    ensures
        file@ == html_path(path@, name@),
{
    let p = join(&chars_of(path), &chars_of(name));
    let ext: Vec<char> = vec!['h', 't', 'm', 'l'];
    assert(ext@ == seq!['h', 't', 'm', 'l']);
    string_of(&set_extension(&p, &ext))
}

/// When a file counts as last modified, given its modification time if it
/// exists: a file that does not exist counts as modified at time 0, before
/// or at the same time as every file that exists.
pub open spec fn modified_at(mtime: Option<u128>) -> u128 {
    match mtime {
        Some(t) => t,
        None => 0,
    }
}

pub fn modified(mtime: Option<u128>) -> (t: u128)
    ensures
        t == modified_at(mtime),
{
    match mtime {
        Some(t) => t,
        None => 0,
    }
}

/// A target is out of date when its source was modified strictly after it.
pub open spec fn stale(source: Option<u128>, target: Option<u128>) -> bool {
    modified_at(source) > modified_at(target)
}

/// A target that does not exist is out of date whenever its source exists
/// and was modified after time 0. A target that exists and was modified
/// after its source, or with it, is not out of date.
pub proof fn lemma_stale(source: Option<u128>, target: Option<u128>)
    ensures
        target is None && source is Some && source->0 > 0 ==> stale(source, target),
        target is Some && target->0 >= modified_at(source) ==> !stale(source, target),
{
}

pub fn is_stale(source: Option<u128>, target: Option<u128>) -> (b: bool)
    ensures
        b == stale(source, target),
{
    modified(source) > modified(target)
}

} // verus!
