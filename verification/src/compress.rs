//! Helpers of source compression: line bounds in a byte buffer, the shape of
//! a function body, the choice of a compressor by file extension, and the
//! squeezing of blank lines.

use vstd::prelude::*;
use crate::paths::{extension, path_extension};
use crate::text::{
    char_is_whitespace, chars_to_string, is_whitespace, string_chars, trim_bounds, trimmed,
};

verus! {

/// The content of a file, or the reason it could not be read.
#[derive(Debug)]
pub enum FileResult {
    Content(String),
    Failure(String),
}

/// What the caller asks of a compressor.
#[derive(Debug, Clone, Copy)]
pub struct SmartCompressOptions {
    pub remove_comments: bool,
}

impl Default for SmartCompressOptions {
    fn default() -> (options: Self)
        ensures
            !options.remove_comments,
    {
        SmartCompressOptions { remove_comments: false }
    }
}

/// The start of the line that holds position `pos`: behind the last line
/// feed before `pos`, or the start of the buffer.
pub open spec fn line_start(bytes: Seq<u8>, pos: int) -> int
    decreases pos,
{
    if pos <= 0 {
        0
    } else if bytes[pos - 1] == 10 {
        pos
    } else {
        line_start(bytes, pos - 1)
    }
}

/// The start of the line that holds position `pos`; a position behind the
/// end counts as the end.
pub fn sol_of(bytes: &[u8], pos: usize) -> (start: usize)
    ensures
        start == line_start(
            bytes@,
            if pos <= bytes@.len() {
                pos as int
            } else {
                bytes@.len() as int
            },
        ),
{
    let mut i: usize = if pos <= bytes.len() {
        pos
    } else {
        bytes.len()
    };
    let ghost top = i;
    while i > 0 && bytes[i - 1] != 10
        invariant
            i <= top <= bytes@.len(),
            line_start(bytes@, top as int) == line_start(bytes@, i as int),
        decreases i,
    {
        i -= 1;
    }
    i
}

/// The first position at or behind `i` that holds neither a space nor a tab.
pub open spec fn skip_blanks(bytes: Seq<u8>, i: int) -> int
    decreases bytes.len() - i,
{
    if 0 <= i < bytes.len() && (bytes[i] == 32 || bytes[i] == 9) {
        skip_blanks(bytes, i + 1)
    } else {
        i
    }
}

/// The end of a span once it is extended over the blanks behind it and the
/// line end that follows them: an optional carriage return, then an
/// optional line feed.
pub open spec fn line_extent(bytes: Seq<u8>, end: int) -> int {
    let a = skip_blanks(bytes, end);
    let b = if 0 <= a < bytes.len() && bytes[a] == 13 {
        a + 1
    } else {
        a
    };
    if 0 <= b < bytes.len() && bytes[b] == 10 {
        b + 1
    } else {
        b
    }
}

/// Extends the end of a span over trailing blanks and the line end.
pub fn extend_to_eol(bytes: &[u8], end: usize) -> (extent: usize)
    ensures
        extent == line_extent(bytes@, end as int),
{
    let mut i: usize = end;
    while i < bytes.len() && (bytes[i] == 32 || bytes[i] == 9)
        invariant
            skip_blanks(bytes@, end as int) == skip_blanks(bytes@, i as int),
        decreases bytes@.len() - i,
    {
        i += 1;
    }
    if i < bytes.len() && bytes[i] == 13 {
        i += 1;
    }
    if i < bytes.len() && bytes[i] == 10 {
        i += 1;
    }
    i
}

/// The index of the first line feed of `s`, or the length of `s` where it
/// holds none.
pub open spec fn first_newline(s: Seq<char>) -> int
    decreases s.len(),
{
    if s.len() == 0 {
        0
    } else if s[0] == '\n' {
        0
    } else {
        1 + first_newline(s.drop_first())
    }
}

/// The whitespace that `s` begins with.
pub open spec fn leading_whitespace(s: Seq<char>) -> Seq<char>
    decreases s.len(),
{
    if s.len() > 0 && is_whitespace(s[0]) {
        seq![s[0]] + leading_whitespace(s.drop_first())
    } else {
        Seq::empty()
    }
}

/// Whether a body spans several lines, and the indentation of its second
/// line.
pub open spec fn body_shape(body: Seq<char>) -> (bool, Seq<char>) {
    let at = first_newline(body);
    if at < body.len() {
        (true, leading_whitespace(body.skip(at + 1)))
    } else {
        (false, Seq::empty())
    }
}

proof fn lemma_first_newline(s: Seq<char>, k: int)
    requires
        0 <= k <= s.len(),
        forall|j: int| 0 <= j < k ==> s[j] != '\n',
        k == s.len() || s[k] == '\n',
    ensures
        first_newline(s) == k,
    decreases k,
{
    if k > 0 {
        let rest = s.drop_first();
        assert forall|j: int| 0 <= j < k - 1 implies rest[j] != '\n' by {
            assert(rest[j] == s[j + 1]);
        }
        if k < s.len() {
            assert(rest[k - 1] == s[k]);
        }
        lemma_first_newline(rest, k - 1);
    }
}

proof fn lemma_leading_whitespace(s: Seq<char>, k: int)
    requires
        0 <= k <= s.len(),
        forall|j: int| 0 <= j < k ==> is_whitespace(s[j]),
        k == s.len() || !is_whitespace(s[k]),
    ensures
        leading_whitespace(s) == s.take(k),
    decreases k,
{
    if k > 0 {
        let rest = s.drop_first();
        assert forall|j: int| 0 <= j < k - 1 implies is_whitespace(rest[j]) by {
            assert(rest[j] == s[j + 1]);
        }
        if k < s.len() {
            assert(rest[k - 1] == s[k]);
        }
        lemma_leading_whitespace(rest, k - 1);
        assert(s.take(k) =~= seq![s[0]] + rest.take(k - 1));
    } else {
        assert(s.take(0) =~= Seq::<char>::empty());
    }
}

/// Says whether a function body spans several lines, and gives the
/// indentation of its second line.
pub fn py_body_shape_and_indent(slice: &str) -> (shape: (bool, String))
    ensures
        shape.0 == body_shape(slice@).0,
        shape.1@ == body_shape(slice@).1,
{
    let chars = string_chars(slice);
    let n = chars.len();
    let mut at: usize = 0;
    while at < n && chars[at] != '\n'
        invariant
            at <= n == chars.len(),
            forall|j: int| 0 <= j < at ==> chars@[j] != '\n',
        decreases n - at,
    {
        at += 1;
    }
    proof {
        lemma_first_newline(chars@, at as int);
    }
    if at >= n {
        return (false, String::new());
    }
    let from = at + 1;
    let mut to: usize = from;
    let ghost rest = chars@.skip(from as int);
    while to < n && char_is_whitespace(chars[to])
        invariant
            from <= to <= n == chars.len(),
            rest == chars@.skip(from as int),
            forall|j: int| 0 <= j < to - from ==> is_whitespace(rest[j]),
        decreases n - to,
    {
        proof {
            assert(rest[to - from] == chars@[to as int]);
        }
        to += 1;
    }
    proof {
        if to < n {
            assert(rest[to - from] == chars@[to as int]);
        }
        lemma_leading_whitespace(rest, to - from);
        assert(rest.take(to - from) =~= chars@.subrange(from as int, to as int));
    }
    (true, chars_to_string(&chars, from, to))
}

/// The compressors there are.
#[derive(Debug, Clone, Copy, PartialEq, Eq, Structural)]
pub enum CompressorKind {
    Python,
    Tsx,
}

/// The compressor for a path: Python for `.py`, TSX for `.ts` and `.tsx`,
/// none for anything else.
pub open spec fn compressor_for(path: Seq<char>) -> Option<CompressorKind> {
    match extension(path) {
        Some(ext) => if ext == seq!['p', 'y'] {
            Some(CompressorKind::Python)
        } else if ext == seq!['t', 's'] || ext == seq!['t', 's', 'x'] {
            Some(CompressorKind::Tsx)
        } else {
            None
        },
        None => None,
    }
}

/// Chooses the compressor for a path by its extension.
pub fn get_compressor_for_path(path: &str) -> (kind: Option<CompressorKind>)
    ensures
        kind == compressor_for(path@),
{
    let found = match path_extension(path) {
        Some(e) => e,
        None => {
            return None;
        },
    };
    let ext = string_chars(found.as_str());
    let size = ext.len();
    if size == 2 && ext[0] == 'p' && ext[1] == 'y' {
        proof {
            assert(ext@ =~= seq!['p', 'y']);
        }
        Some(CompressorKind::Python)
    } else if size == 2 && ext[0] == 't' && ext[1] == 's' {
        proof {
            assert(ext@ =~= seq!['t', 's']);
        }
        Some(CompressorKind::Tsx)
    } else if size == 3 && ext[0] == 't' && ext[1] == 's' && ext[2] == 'x' {
        proof {
            assert(ext@ =~= seq!['t', 's', 'x']);
        }
        Some(CompressorKind::Tsx)
    } else {
        proof {
            let py = seq!['p', 'y'];
            let ts = seq!['t', 's'];
            let tsx = seq!['t', 's', 'x'];
            assert(py.len() == 2 && py[0] == 'p' && py[1] == 'y');
            assert(ts.len() == 2 && ts[0] == 't' && ts[1] == 's');
            assert(tsx.len() == 3 && tsx[0] == 't' && tsx[1] == 's' && tsx[2] == 'x');
        }
        None
    }
}

/// The pieces of `s` between its line feeds, empty pieces included.
pub open spec fn split_lines(s: Seq<char>) -> Seq<Seq<char>>
    decreases s.len(),
{
    if s.len() == 0 {
        seq![Seq::<char>::empty()]
    } else if s.last() == '\n' {
        split_lines(s.drop_last()).push(Seq::<char>::empty())
    } else {
        let before = split_lines(s.drop_last());
        before.drop_last().push(before.last().push(s.last()))
    }
}

/// A line without the carriage return at its end, if it has one.
pub open spec fn without_cr(line: Seq<char>) -> Seq<char> {
    if line.len() > 0 && line.last() == '\r' {
        line.drop_last()
    } else {
        line
    }
}

/// The lines of a text: each piece that a line feed ends, without the
/// carriage return before the line feed; and what follows the last line
/// feed, if anything does.
pub open spec fn text_lines(s: Seq<char>) -> Seq<Seq<char>> {
    let pieces = split_lines(s);
    let ended = Seq::new((pieces.len() - 1) as nat, |i: int| without_cr(pieces[i]));
    if pieces.last().len() == 0 {
        ended
    } else {
        ended.push(pieces.last())
    }
}

/// Whether a line holds nothing but whitespace.
pub open spec fn is_blank(line: Seq<char>) -> bool {
    trimmed(line).len() == 0
}

/// The first `n` lines without the blank lines that follow a blank line.
pub open spec fn squeezed(lines: Seq<Seq<char>>, n: int) -> Seq<Seq<char>>
    decreases n,
{
    if n <= 0 {
        Seq::empty()
    } else if n >= 2 && is_blank(lines[n - 1]) && is_blank(lines[n - 2]) {
        squeezed(lines, n - 1)
    } else {
        squeezed(lines, n - 1).push(lines[n - 1])
    }
}

/// The lines put together, with a line feed between each two.
pub open spec fn joined(lines: Seq<Seq<char>>) -> Seq<char>
    decreases lines.len(),
{
    if lines.len() == 0 {
        Seq::empty()
    } else if lines.len() == 1 {
        lines[0]
    } else {
        joined(lines.drop_last()) + seq!['\n'] + lines.last()
    }
}

/// A text without runs of blank lines: of each run the first line stays.
pub open spec fn cleaned(text: Seq<char>) -> Seq<char> {
    joined(squeezed(text_lines(text), text_lines(text).len() as int))
}

/// The character sequences of a list of lines.
pub open spec fn line_views(lines: Seq<Vec<char>>) -> Seq<Seq<char>> {
    Seq::new(lines.len(), |i: int| lines[i]@)
}

proof fn lemma_split_lines_nonempty(s: Seq<char>)
    ensures
        split_lines(s).len() > 0,
    decreases s.len(),
{
    if s.len() > 0 {
        lemma_split_lines_nonempty(s.drop_last());
    }
}

/// The lines of a text.
pub fn lines_of(text: &str) -> (lines: Vec<Vec<char>>)
    ensures
        line_views(lines@) == text_lines(text@),
{
    let chars = string_chars(text);
    let n = chars.len();
    let ghost s = chars@;
    let mut lines: Vec<Vec<char>> = Vec::new();
    let mut current: Vec<char> = Vec::new();
    let mut i: usize = 0;
    proof {
        assert(s.take(0) =~= Seq::<char>::empty());
        assert(line_views(lines@) =~= Seq::<Seq<char>>::empty());
    }
    while i < n
        invariant
            i <= n == chars.len(),
            s == chars@,
            split_lines(s.take(i as int)).len() == lines@.len() + 1,
            current@ == split_lines(s.take(i as int)).last(),
            forall|k: int|
                0 <= k < lines@.len() ==> (#[trigger] lines@[k])@ == without_cr(
                    split_lines(s.take(i as int))[k],
                ),
        decreases n - i,
    {
        let ghost before = split_lines(s.take(i as int));
        proof {
            assert(s.take(i + 1).drop_last() =~= s.take(i as int));
            assert(s.take(i + 1).last() == s[i as int]);
        }
        let c = chars[i];
        if c == '\n' {
            let len = current.len();
            if len > 0 && current[len - 1] == '\r' {
                current.pop();
            }
            let mut done: Vec<char> = Vec::new();
            core::mem::swap(&mut done, &mut current);
            lines.push(done);
            proof {
                let after = split_lines(s.take(i + 1));
                assert(after == before.push(Seq::<char>::empty()));
                assert forall|k: int| 0 <= k < lines@.len() implies (#[trigger] lines@[k])@
                    == without_cr(after[k]) by {
                    assert(after[k] == before[k]);
                }
            }
        } else {
            current.push(c);
            proof {
                let after = split_lines(s.take(i + 1));
                assert(after == before.drop_last().push(before.last().push(c)));
                assert forall|k: int| 0 <= k < lines@.len() implies (#[trigger] lines@[k])@
                    == without_cr(after[k]) by {
                    assert(after[k] == before[k]);
                }
            }
        }
        i += 1;
    }
    proof {
        assert(s.take(n as int) =~= s);
    }
    let ghost pieces = split_lines(s);
    let ghost ended = line_views(lines@);
    proof {
        assert(ended =~= Seq::new((pieces.len() - 1) as nat, |k: int| without_cr(pieces[k])));
    }
    if current.len() > 0 {
        lines.push(current);
        proof {
            assert(line_views(lines@) =~= ended.push(pieces.last()));
        }
    }
    lines
}

fn line_is_blank(line: &Vec<char>) -> (blank: bool)
    ensures
        blank == is_blank(line@),
{
    let (from, to) = trim_bounds(line);
    from == to
}

/// Squeezes runs of blank lines into one blank line each, and puts the
/// lines together again with line feeds.
pub fn clean_blank_lines(text: String) -> (out: String)
    ensures
        out@ == cleaned(text@),
{
    let lines = lines_of(text.as_str());
    let ghost views = text_lines(text@);
    let n = lines.len();
    let mut out: Vec<char> = Vec::new();
    let mut kept: usize = 0;
    let mut previous_blank = false;
    let mut i: usize = 0;
    while i < n
        invariant
            i <= n == lines@.len(),
            views == line_views(lines@),
            out@ == joined(squeezed(views, i as int)),
            kept == squeezed(views, i as int).len(),
            kept <= i,
            previous_blank == (i > 0 && is_blank(views[i - 1])),
        decreases n - i,
    {
        proof {
            assert(views[i as int] == lines@[i as int]@);
        }
        let blank = line_is_blank(&lines[i]);
        if !(i > 0 && blank && previous_blank) {
            let ghost before = squeezed(views, i as int);
            let ghost prefix = out@;
            if kept > 0 {
                out.push('\n');
            }
            let line = &lines[i];
            let mut k: usize = 0;
            let ghost base = out@;
            while k < line.len()
                invariant
                    k <= line@.len(),
                    out@ == base + line@.take(k as int),
                decreases line@.len() - k,
            {
                out.push(line[k]);
                proof {
                    assert(line@.take(k + 1) =~= line@.take(k as int).push(line@[k as int]));
                    assert(base + line@.take(k + 1) =~= (base + line@.take(k as int)).push(
                        line@[k as int],
                    ));
                }
                k += 1;
            }
            proof {
                assert(line@.take(line@.len() as int) =~= line@);
                let after = before.push(views[i as int]);
                assert(squeezed(views, i + 1) == after);
                assert(after.drop_last() =~= before);
                if kept == 0 {
                    assert(base =~= Seq::<char>::empty());
                    assert(out@ =~= line@);
                } else {
                    assert(base =~= prefix + seq!['\n']);
                }
            }
            kept += 1;
        }
        previous_blank = blank;
        i += 1;
    }
    chars_to_string(&out, 0, out.len())
}

} // verus!
