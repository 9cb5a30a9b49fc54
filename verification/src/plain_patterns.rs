//! Plain ignore patterns, for lists that use no glob syntax: a folder name
//! between slashes, an exact path between double quotes, an extension
//! behind `*.`, or a name. All of them are compared without regard to
//! case.

use vstd::prelude::*;
use crate::paths::{
    components, extension, file_name, is_absolute, path_components, path_extension,
    path_file_name, path_is_absolute, path_starts_here, starts_here,
};
use crate::text::{
    chars_to_string, lowercase, same_text, string_chars, to_lowercase, trim_string, trimmed,
};
use crate::types::string_views;

verus! {

/// What a path begins with, as a segment of its own: the file system root,
/// the current directory, or nothing.
pub open spec fn lead_segments(path: Seq<char>) -> Seq<Seq<char>> {
    if is_absolute(path) {
        seq!["/"@]
    } else if starts_here(path) {
        seq!["."@]
    } else {
        Seq::empty()
    }
}

/// The segments of a path: what it begins with, then its components.
pub open spec fn segments(path: Seq<char>) -> Seq<Seq<char>> {
    lead_segments(path) + components(path)
}

/// Whether a segment of the path, in lower case, is `name`.
pub open spec fn has_segment(path: Seq<char>, name: Seq<char>) -> bool {
    exists|i: int| 0 <= i < segments(path).len() && lowercase(#[trigger] segments(path)[i]) == name
}

/// Whether `needle` occurs in `hay` as a run of characters.
pub open spec fn occurs_in(hay: Seq<char>, needle: Seq<char>) -> bool {
    exists|k: int|
        0 <= k <= hay.len() - needle.len() && #[trigger] hay.subrange(k, k + needle.len())
            == needle
}

/// A pattern that names a folder: something between two slashes.
pub open spec fn is_folder_pattern(pat: Seq<char>) -> bool {
    pat.len() > 2 && pat[0] == '/' && pat.last() == '/'
}

/// A pattern that names an exact path: something, or nothing, between two
/// double quotes.
pub open spec fn is_exact_pattern(pat: Seq<char>) -> bool {
    pat.len() >= 2 && pat[0] == '"' && pat.last() == '"'
}

/// A pattern without its first and its last character.
pub open spec fn inner(pat: Seq<char>) -> Seq<char> {
    pat.subrange(1, pat.len() - 1)
}

/// Whether a pattern, trimmed and not empty, matches a path.
/// - A folder pattern matches where a segment of the path is the folder's
///   name.
/// - An exact pattern matches the path that it quotes.
/// - A pattern that begins with `*.` matches where the rest of it is the
///   extension of the path.
/// - Any other pattern matches where it is the file name of the path, or
///   occurs somewhere in the path.
/// Both sides are compared in lower case.
pub open spec fn pattern_matches(path: Seq<char>, pat: Seq<char>) -> bool {
    if is_folder_pattern(pat) {
        lowercase(inner(pat)).len() > 0 && has_segment(path, lowercase(inner(pat)))
    } else if is_exact_pattern(pat) {
        lowercase(path) == lowercase(inner(pat))
    } else {
        let p = lowercase(pat);
        if p.len() >= 2 && p[0] == '*' && p[1] == '.' {
            match extension(path) {
                Some(ext) => lowercase(ext) == p.skip(2),
                None => false,
            }
        } else {
            (match file_name(path) {
                Some(name) => lowercase(name) == p,
                None => false,
            }) || occurs_in(lowercase(path), p)
        }
    }
}

/// Whether one of the patterns matches the path; blank patterns match
/// nothing.
pub open spec fn ignored_by_patterns(path: Seq<char>, patterns: Seq<Seq<char>>) -> bool {
    exists|i: int|
        0 <= i < patterns.len() && trimmed(#[trigger] patterns[i]).len() > 0 && pattern_matches(
            path,
            trimmed(patterns[i]),
        )
}

/// A folder pattern matches every path that has the folder among its
/// components, at whatever depth, and so everything that lies beneath such
/// a folder.
pub proof fn lemma_folder_matches_at_any_depth(path: Seq<char>, folder: Seq<char>, i: int)
    requires
        0 <= i < components(path).len(),
        components(path)[i] == folder,
    ensures
        folder.len() > 0 && lowercase(folder).len() > 0 ==> pattern_matches(
            path,
            seq!['/'] + folder + seq!['/'],
        ),
{
    let pat = seq!['/'] + folder + seq!['/'];
    if folder.len() > 0 && lowercase(folder).len() > 0 {
        assert(pat[0] == '/');
        assert(pat.last() == '/');
        assert(inner(pat) =~= folder);
        let at = lead_segments(path).len() + i;
        assert(segments(path)[at] == folder);
    }
}

fn contains_chars(hay: &Vec<char>, needle: &Vec<char>) -> (r: bool)
    ensures
        r == occurs_in(hay@, needle@),
{
    let m = needle.len();
    if m > hay.len() {
        return false;
    }
    let last = hay.len() - m;
    let mut k: usize = 0;
    loop
        invariant
            m == needle@.len(),
            m <= hay@.len(),
            hay@.len() <= usize::MAX,
            last == hay@.len() - m,
            k <= last,
            forall|x: int| 0 <= x < k ==> #[trigger] hay@.subrange(x, x + m) != needle@,
        decreases last - k,
    {
        let mut j: usize = 0;
        while j < m && hay[k + j] == needle[j]
            invariant
                j <= m,
                m == needle@.len(),
                k + m <= hay@.len(),
                hay@.len() <= usize::MAX,
                forall|x: int| 0 <= x < j ==> hay@[k + x] == needle@[x],
            decreases m - j,
        {
            j += 1;
        }
        let ghost part = hay@.subrange(k as int, k + m);
        if j == m {
            proof {
                assert(part =~= needle@);
            }
            return true;
        }
        proof {
            assert(part[j as int] == hay@[k + j]);
        }
        if k == last {
            return false;
        }
        k += 1;
    }
}

fn has_lower_segment(path: &str, name: &str) -> (r: bool)
    ensures
        r == has_segment(path@, name@),
{
    let ghost lead = lead_segments(path@);
    let ghost all = segments(path@);
    if path_is_absolute(path) {
        if same_text(to_lowercase("/").as_str(), name) {
            proof {
                assert(all[0] == "/"@);
            }
            return true;
        }
    } else if path_starts_here(path) {
        if same_text(to_lowercase(".").as_str(), name) {
            proof {
                assert(all[0] == "."@);
            }
            return true;
        }
    }
    let parts = path_components(path);
    let ghost views = string_views(parts@);
    let mut i: usize = 0;
    while i < parts.len()
        invariant
            i <= parts@.len(),
            views == string_views(parts@),
            views == components(path@),
            lead == lead_segments(path@),
            all == lead + views,
            all == segments(path@),
            forall|x: int| 0 <= x < lead.len() + i ==> lowercase(#[trigger] all[x]) != name@,
        decreases parts@.len() - i,
    {
        proof {
            assert(all[lead.len() + i] == views[i as int]);
            assert(views[i as int] == parts@[i as int]@);
        }
        if same_text(to_lowercase(parts[i].as_str()).as_str(), name) {
            return true;
        }
        i += 1;
    }
    false
}

fn matches_pattern(path: &str, path_lc: &str, pat: &str) -> (m: bool)
    requires
        path_lc@ == lowercase(path@),
    ensures
        m == pattern_matches(path@, pat@),
{
    let chars = string_chars(pat);
    let n = chars.len();
    if n > 2 && chars[0] == '/' && chars[n - 1] == '/' {
        let folder = to_lowercase(chars_to_string(&chars, 1, n - 1).as_str());
        if folder.as_str().is_empty() {
            false
        } else {
            has_lower_segment(path, folder.as_str())
        }
    } else if n >= 2 && chars[0] == '"' && chars[n - 1] == '"' {
        let exact = to_lowercase(chars_to_string(&chars, 1, n - 1).as_str());
        same_text(path_lc, exact.as_str())
    } else {
        let pat_lc = to_lowercase(pat);
        let p = string_chars(pat_lc.as_str());
        if p.len() >= 2 && p[0] == '*' && p[1] == '.' {
            match path_extension(path) {
                Some(ext) => {
                    let wanted = chars_to_string(&p, 2, p.len());
                    proof {
                        assert(p@.skip(2) =~= p@.subrange(2, p@.len() as int));
                    }
                    same_text(to_lowercase(ext.as_str()).as_str(), wanted.as_str())
                },
                None => false,
            }
        } else {
            let by_name = match path_file_name(path) {
                Some(name) => same_text(to_lowercase(name.as_str()).as_str(), pat_lc.as_str()),
                None => false,
            };
            if by_name {
                true
            } else {
                let hay = string_chars(path_lc);
                contains_chars(&hay, &p)
            }
        }
    }
}

/// Says whether one of the plain patterns matches the path.
pub fn path_ignored_by_patterns(real_path: &str, ignore_patterns: &Vec<String>) -> (ignored: bool)
    ensures
        ignored == ignored_by_patterns(real_path@, string_views(ignore_patterns@)),
{
    let path_lc = to_lowercase(real_path);
    let ghost pats = string_views(ignore_patterns@);
    let mut i: usize = 0;
    while i < ignore_patterns.len()
        invariant
            i <= ignore_patterns@.len(),
            pats == string_views(ignore_patterns@),
            path_lc@ == lowercase(real_path@),
            forall|j: int|
                0 <= j < i ==> !(trimmed(#[trigger] pats[j]).len() > 0 && pattern_matches(
                    real_path@,
                    trimmed(pats[j]),
                )),
        decreases ignore_patterns@.len() - i,
    {
        proof {
            assert(pats[i as int] == ignore_patterns@[i as int]@);
        }
        let pat = trim_string(ignore_patterns[i].as_str());
        if !pat.as_str().is_empty() {
            if matches_pattern(real_path, path_lc.as_str(), pat.as_str()) {
                return true;
            }
        }
        i += 1;
    }
    false
}

} // verus!
