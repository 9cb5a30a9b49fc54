//! The compressor for TypeScript and TSX sources: comments go on request,
//! and the bodies that a query found (those of hook callbacks and of
//! functions that are no components) give way to an ellipsis in braces.

use vstd::prelude::*;
use vstd::utf8::encode_utf8;
use crate::compress::{clean_blank_lines, cleaned, SmartCompressOptions};
use crate::edits::{edit_views, rewrite, rewritten, Edit, EditView};
use crate::text::same_text;

verus! {

/// A node that a query captured: the name of the capture, the bytes of the
/// source that the node spans, and how many children it has, named ones
/// and all of them.
#[derive(Debug)]
pub struct Capture {
    pub name: String,
    pub start: usize,
    pub end: usize,
    pub named_child_count: usize,
    pub child_count: usize,
}

/// Mathematical model of a [`Capture`].
pub struct CaptureModel {
    pub name: Seq<char>,
    pub start: int,
    pub end: int,
    pub named_child_count: int,
    pub child_count: int,
}

impl View for Capture {
    type V = CaptureModel;

    open spec fn view(&self) -> CaptureModel {
        CaptureModel {
            name: self.name@,
            start: self.start as int,
            end: self.end as int,
            named_child_count: self.named_child_count as int,
            child_count: self.child_count as int,
        }
    }
}

/// One match of the query: its captures, in the order of the query.
#[derive(Debug)]
pub struct QueryMatch {
    pub captures: Vec<Capture>,
}

impl View for QueryMatch {
    type V = Seq<CaptureModel>;

    open spec fn view(&self) -> Seq<CaptureModel> {
        Seq::new(self.captures@.len(), |i: int| self.captures@[i]@)
    }
}

/// The models of a sequence of matches, element by element.
pub open spec fn match_views(s: Seq<QueryMatch>) -> Seq<Seq<CaptureModel>> {
    Seq::new(s.len(), |i: int| s[i]@)
}

/// The bytes that stand for a body: `{ ... }`.
pub open spec fn ellipsis_block() -> Seq<u8> {
    seq![123u8, 32u8, 46u8, 46u8, 46u8, 32u8, 125u8]
}

/// The edits that take out the comments among the captures, in order; none
/// unless comments are to go.
pub open spec fn comment_edits(caps: Seq<CaptureModel>, remove_comments: bool) -> Seq<EditView>
    decreases caps.len(),
{
    if caps.len() == 0 {
        Seq::empty()
    } else if remove_comments && caps.last().name == "comment"@ {
        comment_edits(caps.drop_last(), remove_comments).push(
            EditView { start: caps.last().start, end: caps.last().end, replacement: Seq::empty() },
        )
    } else {
        comment_edits(caps.drop_last(), remove_comments)
    }
}

/// The index of the last capture that is a body, or `-1` where there is
/// none.
pub open spec fn last_body(caps: Seq<CaptureModel>) -> int
    decreases caps.len(),
{
    if caps.len() == 0 {
        -1
    } else if caps.last().name == "body"@ {
        caps.len() - 1
    } else {
        last_body(caps.drop_last())
    }
}

/// Whether a body is empty already, or holds nothing that the grammar
/// names between its braces.
pub open spec fn is_hollow(body: CaptureModel) -> bool {
    body.named_child_count == 0 && body.child_count <= 2
}

/// The edits of one match: its comments, then its body, unless that is
/// hollow.
pub open spec fn match_edits(caps: Seq<CaptureModel>, remove_comments: bool) -> Seq<EditView> {
    let at = last_body(caps);
    if at >= 0 && !is_hollow(caps[at]) {
        comment_edits(caps, remove_comments).push(
            EditView { start: caps[at].start, end: caps[at].end, replacement: ellipsis_block() },
        )
    } else {
        comment_edits(caps, remove_comments)
    }
}

/// The edits of all matches, in the order of the matches.
pub open spec fn tsx_edits(matches: Seq<Seq<CaptureModel>>, remove_comments: bool) -> Seq<EditView>
    decreases matches.len(),
{
    if matches.len() == 0 {
        Seq::empty()
    } else {
        tsx_edits(matches.drop_last(), remove_comments) + match_edits(
            matches.last(),
            remove_comments,
        )
    }
}

proof fn lemma_last_body(caps: Seq<CaptureModel>)
    ensures
        -1 <= last_body(caps) < caps.len(),
    decreases caps.len(),
{
    if caps.len() > 0 {
        lemma_last_body(caps.drop_last());
    }
}

fn ellipsis_block_bytes() -> (out: Vec<u8>)
    ensures
        out@ == ellipsis_block(),
{
    let mut out: Vec<u8> = Vec::new();
    out.push(123u8);
    out.push(32u8);
    out.push(46u8);
    out.push(46u8);
    out.push(46u8);
    out.push(32u8);
    out.push(125u8);
    proof {
        assert(out@ =~= ellipsis_block());
    }
    out
}

/// Plans the edits of a source from the matches of the query.
pub fn plan_tsx_edits(matches: &Vec<QueryMatch>, remove_comments: bool) -> (edits: Vec<Edit>)
    ensures
        edit_views(edits@) == tsx_edits(match_views(matches@), remove_comments),
{
    let ghost all = match_views(matches@);
    let mut edits: Vec<Edit> = Vec::new();
    let mut m: usize = 0;
    proof {
        assert(edit_views(edits@) =~= Seq::<EditView>::empty());
    }
    while m < matches.len()
        invariant
            m <= matches@.len(),
            all == match_views(matches@),
            edit_views(edits@) == tsx_edits(all.take(m as int), remove_comments),
        decreases matches@.len() - m,
    {
        let caps = &matches[m].captures;
        let ghost views = matches@[m as int]@;
        let ghost before = edit_views(edits@);
        let mut body: Option<usize> = None;
        let mut i: usize = 0;
        proof {
            assert(all.take(m + 1).drop_last() =~= all.take(m as int));
            assert(all.take(m + 1).last() == views);
            assert(before + Seq::<EditView>::empty() =~= before);
        }
        while i < caps.len()
            invariant
                i <= caps@.len(),
                views.len() == caps@.len(),
                forall|j: int| 0 <= j < caps@.len() ==> views[j] == caps@[j]@,
                edit_views(edits@) == before + comment_edits(views.take(i as int), remove_comments),
                match body {
                    Some(at) => at == last_body(views.take(i as int)),
                    None => last_body(views.take(i as int)) < 0,
                },
            decreases caps@.len() - i,
        {
            let cap = &caps[i];
            let ghost held = edit_views(edits@);
            proof {
                assert(views.take(i + 1).drop_last() =~= views.take(i as int));
                assert(views.take(i + 1).last() == cap@);
            }
            if same_text(cap.name.as_str(), "comment") {
                if remove_comments {
                    edits.push(Edit { start: cap.start, end: cap.end, replacement: Vec::new() });
                    proof {
                        let e = EditView { start: cap.start as int, end: cap.end as int, replacement: Seq::empty() };
                        assert(edit_views(edits@) =~= held.push(e));
                        assert(held.push(e) =~= before + comment_edits(
                            views.take(i as int),
                            remove_comments,
                        ).push(e));
                    }
                }
            }
            if same_text(cap.name.as_str(), "body") {
                body = Some(i);
            }
            i += 1;
        }
        proof {
            assert(views.take(caps@.len() as int) =~= views);
            lemma_last_body(views);
        }
        match body {
            Some(at) => {
                let b = &caps[at];
                if !(b.named_child_count == 0 && b.child_count <= 2) {
                    let ghost held = edit_views(edits@);
                    edits.push(Edit { start: b.start, end: b.end, replacement: ellipsis_block_bytes() });
                    proof {
                        let e = EditView { start: b.start as int, end: b.end as int, replacement: ellipsis_block() };
                        assert(edit_views(edits@) =~= held.push(e));
                        assert(held.push(e) =~= before + comment_edits(views, remove_comments).push(e));
                    }
                }
            },
            None => {},
        }
        m += 1;
    }
    proof {
        assert(all.take(matches@.len() as int) =~= all);
    }
    edits
}

/// The compressed form of a source with the given matches: the planned
/// edits applied from the end to the start, an edit with an empty span left
/// out, and runs of blank lines squeezed.
pub open spec fn tsx_compressed(source: Seq<char>, matches: Seq<Seq<CaptureModel>>, remove_comments: bool) -> Seq<
    char,
> {
    cleaned(rewritten(encode_utf8(source), tsx_edits(matches, remove_comments), true))
}

/// The compressor for TypeScript and TSX sources.
#[derive(Debug, Clone, Copy)]
pub struct TsxCompressor;

impl TsxCompressor {
    /// Compresses a source, given the matches of the query on its syntax
    /// tree. A source that the parser gave no tree for stays as it is.
    pub fn compress(&self, source: &str, parsed: Option<&Vec<QueryMatch>>, opts: &SmartCompressOptions) -> (out:
        String)
        ensures
            out@ == match parsed {
                Some(matches) => tsx_compressed(source@, match_views(matches@), opts.remove_comments),
                None => source@,
            },
    {
        match parsed {
            Some(matches) => {
                let edits = plan_tsx_edits(matches, opts.remove_comments);
                clean_blank_lines(rewrite(source.as_bytes(), edits, true))
            },
            None => source.to_owned(),
        }
    }
}

} // verus!
