//! Paths as the tree builder reads them: `/`-separated strings, split into
//! components, taken relative to a root, and named by their last component.

use vstd::prelude::*;
use crate::text::{chars_to_string, string_chars};
use crate::types::string_views;

verus! {

/// The pieces of `p` between its `/` separators, empty pieces included:
/// one more piece than there are separators.
pub open spec fn split_segments(p: Seq<char>) -> Seq<Seq<char>>
    decreases p.len(),
{
    if p.len() == 0 {
        seq![Seq::<char>::empty()]
    } else if p.last() == '/' {
        split_segments(p.drop_last()).push(Seq::<char>::empty())
    } else {
        let before = split_segments(p.drop_last());
        before.drop_last().push(before.last().push(p.last()))
    }
}

/// A piece that stands for a path component: not empty and not `.`.
pub open spec fn is_plain(seg: Seq<char>) -> bool {
    seg.len() > 0 && seg != seq!['.']
}

/// A plain piece that names an entry: not `..`.
pub open spec fn is_normal(seg: Seq<char>) -> bool {
    is_plain(seg) && seg != seq!['.', '.']
}

/// The plain pieces of `segs`, in order.
pub open spec fn keep_plain(segs: Seq<Seq<char>>) -> Seq<Seq<char>>
    decreases segs.len(),
{
    if segs.len() == 0 {
        Seq::empty()
    } else if is_plain(segs.last()) {
        keep_plain(segs.drop_last()).push(segs.last())
    } else {
        keep_plain(segs.drop_last())
    }
}

/// The normal pieces of `segs`, in order.
pub open spec fn keep_normal(segs: Seq<Seq<char>>) -> Seq<Seq<char>>
    decreases segs.len(),
{
    if segs.len() == 0 {
        Seq::empty()
    } else if is_normal(segs.last()) {
        keep_normal(segs.drop_last()).push(segs.last())
    } else {
        keep_normal(segs.drop_last())
    }
}

/// The components of a path: its pieces without the empty ones and `.`.
pub open spec fn components(p: Seq<char>) -> Seq<Seq<char>> {
    keep_plain(split_segments(p))
}

/// Whether the path starts at the file system root.
pub open spec fn is_absolute(p: Seq<char>) -> bool {
    p.len() > 0 && p[0] == '/'
}

/// Whether `a` is a prefix of `b`, component by component.
pub open spec fn is_component_prefix(a: Seq<Seq<char>>, b: Seq<Seq<char>>) -> bool {
    a.len() <= b.len() && forall|i: int| 0 <= i < a.len() ==> a[i] == b[i]
}

/// Whether the path starts with the current directory: it is `.`, or it
/// begins with `./`.
pub open spec fn starts_here(p: Seq<char>) -> bool {
    p.len() > 0 && p[0] == '.' && (p.len() == 1 || p[1] == '/')
}

/// Whether two paths begin alike: both at the file system root, both with
/// the current directory, or both with neither.
pub open spec fn same_lead(a: Seq<char>, b: Seq<char>) -> bool {
    is_absolute(a) == is_absolute(b) && starts_here(a) == starts_here(b)
}

/// The normal components of `path` below `root`, or `None` where `path`
/// does not lie under `root`: the two must begin alike, and the components
/// of `root` must lead those of `path`. Every path lies under the empty
/// root.
pub open spec fn relative_components(root: Seq<char>, path: Seq<char>) -> Option<Seq<Seq<char>>> {
    let r = components(root);
    let p = components(path);
    if (root.len() == 0 || same_lead(root, path)) && is_component_prefix(r, p) {
        Some(keep_normal(p.skip(r.len() as int)))
    } else {
        None
    }
}

/// The last component of `p`, unless there is none or it is `..`.
pub open spec fn file_name(p: Seq<char>) -> Option<Seq<char>> {
    let c = components(p);
    if c.len() > 0 && c.last() != seq!['.', '.'] {
        Some(c.last())
    } else {
        None
    }
}

/// The name a node for `p` is shown under: its file name, or the whole path
/// where it has none.
pub open spec fn display_name(p: Seq<char>) -> Seq<char> {
    match file_name(p) {
        Some(name) => name,
        None => p,
    }
}

/// The index of the last dot of `name`, or `-1` where it holds none.
pub open spec fn last_dot(name: Seq<char>) -> int
    decreases name.len(),
{
    if name.len() == 0 {
        -1
    } else if name.last() == '.' {
        name.len() - 1
    } else {
        last_dot(name.drop_last())
    }
}

/// The extension of a path: what follows the last dot of its file name,
/// where the name has a dot that is not its first character.
pub open spec fn extension(path: Seq<char>) -> Option<Seq<char>> {
    match file_name(path) {
        Some(name) => if last_dot(name) > 0 {
            Some(name.skip(last_dot(name) + 1))
        } else {
            None
        },
        None => None,
    }
}

proof fn lemma_last_dot(name: Seq<char>, k: int)
    requires
        -1 <= k < name.len(),
        k >= 0 ==> name[k] == '.',
        forall|j: int| k < j < name.len() ==> name[j] != '.',
    ensures
        last_dot(name) == k,
    decreases name.len(),
{
    if name.len() > 0 && k < name.len() - 1 {
        let init = name.drop_last();
        assert forall|j: int| k < j < init.len() implies init[j] != '.' by {
            assert(init[j] == name[j]);
        }
        if k >= 0 {
            assert(init[k] == name[k]);
        }
        lemma_last_dot(init, k);
    }
}

fn chars_are_plain(chars: &Vec<char>, from: usize, to: usize) -> (r: bool)
    requires
        from <= to <= chars.len(),
    ensures
        r == is_plain(chars@.subrange(from as int, to as int)),
{
    let ghost seg = chars@.subrange(from as int, to as int);
    if to == from {
        false
    } else if to - from == 1 && chars[from] == '.' {
        proof {
            assert(seg =~= seq!['.']);
        }
        false
    } else {
        proof {
            if seg == seq!['.'] {
                assert(seg.len() == 1);
                assert(seg[0] == chars@[from as int]);
            }
        }
        true
    }
}

fn string_is_parent(s: &str) -> (r: bool)
    ensures
        r == (s@ == seq!['.', '.']),
{
    let chars = string_chars(s);
    if chars.len() == 2 && chars[0] == '.' && chars[1] == '.' {
        proof {
            assert(chars@ =~= seq!['.', '.']);
        }
        true
    } else {
        proof {
            if chars@ == seq!['.', '.'] {
                assert(chars@[0] == '.' && chars@[1] == '.');
            }
        }
        false
    }
}

proof fn lemma_split_nonempty(p: Seq<char>)
    ensures
        split_segments(p).len() > 0,
    decreases p.len(),
{
    if p.len() > 0 {
        lemma_split_nonempty(p.drop_last());
    }
}

/// The components of a path, in order.
pub fn path_components(path: &str) -> (out: Vec<String>)
    ensures
        string_views(out@) == components(path@),
{
    let chars = string_chars(path);
    let n = chars.len();
    let ghost s = chars@;
    let mut out: Vec<String> = Vec::new();
    let mut start: usize = 0;
    let mut i: usize = 0;
    while i < n
        invariant
            start <= i <= n == chars.len(),
            s == chars@,
            split_segments(s.take(i as int)).len() > 0,
            split_segments(s.take(i as int)).last() == s.subrange(start as int, i as int),
            string_views(out@) == keep_plain(split_segments(s.take(i as int)).drop_last()),
        decreases n - i,
    {
        let ghost before = split_segments(s.take(i as int));
        proof {
            assert(s.take(i + 1).drop_last() =~= s.take(i as int));
            assert(s.take(i + 1).last() == s[i as int]);
        }
        if chars[i] == '/' {
            proof {
                let after = split_segments(s.take(i + 1));
                assert(after == before.push(Seq::<char>::empty()));
                assert(after.drop_last() =~= before);
                assert(before.drop_last().push(before.last()) =~= before);
                assert(s.subrange(i + 1, i + 1) =~= Seq::<char>::empty());
            }
            if chars_are_plain(&chars, start, i) {
                let ghost prev = string_views(out@);
                let piece = chars_to_string(&chars, start, i);
                out.push(piece);
                proof {
                    assert(string_views(out@) =~= prev.push(s.subrange(start as int, i as int)));
                }
            }
            start = i + 1;
        } else {
            proof {
                let after = split_segments(s.take(i + 1));
                assert(after == before.drop_last().push(before.last().push(s[i as int])));
                assert(after.drop_last() =~= before.drop_last());
                assert(s.subrange(start as int, i + 1) =~= s.subrange(start as int, i as int).push(
                    s[i as int],
                ));
            }
        }
        i += 1;
    }
    proof {
        assert(s.take(n as int) =~= s);
        let all = split_segments(s);
        assert(all.drop_last().push(all.last()) =~= all);
    }
    if chars_are_plain(&chars, start, n) {
        let ghost prev = string_views(out@);
        let piece = chars_to_string(&chars, start, n);
        out.push(piece);
        proof {
            assert(string_views(out@) =~= prev.push(s.subrange(start as int, n as int)));
        }
    }
    proof {
        lemma_split_nonempty(Seq::<char>::empty());
        assert(s.take(0) =~= Seq::<char>::empty());
    }
    out
}

/// Whether the path starts at the file system root.
pub fn path_is_absolute(path: &str) -> (r: bool)
    ensures
        r == is_absolute(path@),
{
    let mut it = path.chars();
    match it.next() {
        Some(c) => c == '/',
        None => false,
    }
}

/// Whether the path starts with the current directory.
pub fn path_starts_here(path: &str) -> (r: bool)
    ensures
        r == starts_here(path@),
{
    let mut it = path.chars();
    match it.next() {
        Some(first) => {
            if first == '.' {
                match it.next() {
                    Some(second) => second == '/',
                    None => true,
                }
            } else {
                false
            }
        },
        None => false,
    }
}

/// The last component of a path, unless there is none or it is `..`.
pub fn path_file_name(path: &str) -> (name: Option<String>)
    ensures
        name is Some <==> file_name(path@) is Some,
        name is Some ==> Some(name->0@) == file_name(path@),
{
    let mut parts = path_components(path);
    let n = parts.len();
    if n > 0 && !string_is_parent(parts[n - 1].as_str()) {
        let ghost all = parts@;
        proof {
            assert(string_views(all).last() == all[n - 1]@);
        }
        parts.pop()
    } else {
        proof {
            if n > 0 {
                assert(string_views(parts@).last() == parts@[n - 1]@);
            }
        }
        None
    }
}

/// The name a node for `path` is shown under.
pub fn path_display_name(path: &str) -> (name: String)
    ensures
        name@ == display_name(path@),
{
    match path_file_name(path) {
        Some(name) => name,
        None => path.to_owned(),
    }
}

/// The extension of a path.
pub fn path_extension(path: &str) -> (ext: Option<String>)
    ensures
        ext is Some <==> extension(path@) is Some,
        ext is Some ==> Some(ext->0@) == extension(path@),
{
    let found = match path_file_name(path) {
        Some(name) => name,
        None => {
            return None;
        },
    };
    let name = string_chars(found.as_str());
    let len = name.len();
    let mut k: usize = len;
    while k > 0 && name[k - 1] != '.'
        invariant
            k <= len == name.len(),
            forall|j: int| k <= j < len ==> name@[j] != '.',
        decreases k,
    {
        k -= 1;
    }
    proof {
        lemma_last_dot(name@, k - 1);
    }
    if k <= 1 {
        return None;
    }
    proof {
        assert(name@.skip(k as int) =~= name@.subrange(k as int, len as int));
    }
    Some(chars_to_string(&name, k, len))
}

/// The normal components of `path` below `root`, where it lies under it.
pub fn path_relative_components(root: &str, path: &str) -> (out: Option<Vec<String>>)
    ensures
        out is Some <==> relative_components(root@, path@) is Some,
        out is Some ==> string_views(out->0@) == relative_components(root@, path@)->0,
{
    let r = path_components(root);
    let p = path_components(path);
    let alike = path_is_absolute(root) == path_is_absolute(path) && path_starts_here(root)
        == path_starts_here(path);
    if !alike {
        let mut it = root.chars();
        if it.next().is_some() {
            return None;
        }
    }
    if r.len() > p.len() {
        return None;
    }
    let ghost rs = string_views(r@);
    let ghost ps = string_views(p@);
    let mut i: usize = 0;
    while i < r.len()
        invariant
            i <= r.len() <= p.len(),
            rs == string_views(r@),
            ps == string_views(p@),
            rs == components(root@),
            ps == components(path@),
            root@.len() == 0 || same_lead(root@, path@),
            forall|j: int| 0 <= j < i ==> rs[j] == ps[j],
        decreases r.len() - i,
    {
        let same = r[i] == p[i];
        if !same {
            proof {
                assert(rs[i as int] == r@[i as int]@);
                assert(ps[i as int] == p@[i as int]@);
                assert(rs[i as int] != ps[i as int]);
            }
            return None;
        }
        proof {
            assert(rs[i as int] == r@[i as int]@);
            assert(ps[i as int] == p@[i as int]@);
        }
        i += 1;
    }
    let ghost rest = ps.skip(r.len() as int);
    let mut out: Vec<String> = Vec::new();
    let mut k: usize = r.len();
    while k < p.len()
        invariant
            r.len() <= k <= p.len(),
            ps == string_views(p@),
            ps == components(path@),
            rest == ps.skip(r.len() as int),
            string_views(out@) == keep_normal(rest.take(k - r.len())),
        decreases p.len() - k,
    {
        proof {
            let upto = rest.take(k + 1 - r.len());
            assert(upto.drop_last() =~= rest.take(k - r.len()));
            assert(upto.last() == ps[k as int]);
            assert(ps[k as int] == p@[k as int]@);
        }
        let piece = &p[k];
        proof {
            lemma_components_plain(path@, k as int);
        }
        if !string_is_parent(piece.as_str()) {
            let ghost prev = string_views(out@);
            out.push(piece.clone());
            proof {
                assert(string_views(out@) =~= prev.push(ps[k as int]));
            }
        }
        k += 1;
    }
    proof {
        assert(rest.take(p.len() - r.len()) =~= rest);
    }
    Some(out)
}

proof fn lemma_keep_plain_all_plain(segs: Seq<Seq<char>>)
    ensures
        forall|i: int| 0 <= i < keep_plain(segs).len() ==> is_plain(#[trigger] keep_plain(segs)[i]),
    decreases segs.len(),
{
    if segs.len() > 0 {
        let init = keep_plain(segs.drop_last());
        lemma_keep_plain_all_plain(segs.drop_last());
        assert forall|i: int| 0 <= i < keep_plain(segs).len() implies is_plain(
            #[trigger] keep_plain(segs)[i],
        ) by {
            if i < init.len() {
                assert(keep_plain(segs)[i] == init[i]);
            }
        }
    }
}

/// Every component of a path is a plain piece.
pub proof fn lemma_components_plain(p: Seq<char>, i: int)
    requires
        0 <= i < components(p).len(),
    ensures
        is_plain(components(p)[i]),
{
    lemma_keep_plain_all_plain(split_segments(p));
}

} // verus!
