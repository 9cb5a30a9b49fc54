//! The compressor for Python sources: comments go on request, and the body
//! of every function but `__init__` gives way to an ellipsis behind its
//! docstring, if it has one.

use vstd::prelude::*;
use vstd::utf8::encode_utf8;
use crate::compress::{
    body_shape, clean_blank_lines, cleaned, extend_to_eol, line_extent, line_start,
    py_body_shape_and_indent, sol_of, SmartCompressOptions,
};
use crate::edits::{edit_views, rewrite, rewritten, Edit, EditView};
use crate::syntax::{
    first_named, first_with_field, lemma_first_named, lemma_syntax_children, named_count,
    text_at, text_between, SyntaxNode, SyntaxView,
};
use crate::text::same_text;

verus! {

/// Whether a statement is nothing but a string: the form of a docstring.
pub open spec fn is_string_statement(n: SyntaxView) -> bool {
    n.kind == "expression_statement"@ && first_named(n.children) >= 0 && (n.children[first_named(
        n.children,
    )].kind == "string"@ || n.children[first_named(n.children)].kind == "concatenated_string"@)
}

/// The bytes of an ellipsis on a line of its own, behind the indentation
/// `indent`.
pub open spec fn ellipsis_line(indent: Seq<char>) -> Seq<u8> {
    seq![10u8] + encode_utf8(indent) + seq![46u8, 46u8, 46u8]
}

/// The bytes of an ellipsis that stays on the line of the header.
pub open spec fn ellipsis_inline() -> Seq<u8> {
    seq![32u8, 46u8, 46u8, 46u8]
}

/// The edit that takes a comment out: its whole line where nothing stands
/// before it, up to and with the line end.
pub open spec fn comment_edit(bytes: Seq<u8>, n: SyntaxView) -> EditView {
    EditView {
        start: line_start(
            bytes,
            if n.start <= bytes.len() {
                n.start
            } else {
                bytes.len() as int
            },
        ),
        end: line_extent(bytes, n.end),
        replacement: Seq::empty(),
    }
}

/// The edit that shortens a function body. Behind a docstring that is
/// followed by more, the rest gives way to an ellipsis on a line of its
/// own. A body without docstring gives way to an ellipsis as a whole, on a
/// line of its own if the body spans lines. A body that holds only a
/// docstring, or nothing that the grammar names, stays.
pub open spec fn body_edit(source: Seq<char>, body: SyntaxView) -> Option<EditView> {
    match text_at(source, body.start, body.end) {
        None => None,
        Some(text) => {
            let first = first_named(body.children);
            if first >= 0 && is_string_statement(body.children[first]) {
                if named_count(body.children) > 1 {
                    Some(
                        EditView {
                            start: body.children[first].end,
                            end: body.end,
                            replacement: ellipsis_line(body_shape(text).1),
                        },
                    )
                } else {
                    None
                }
            } else if first >= 0 {
                Some(
                    EditView {
                        start: body.start,
                        end: body.end,
                        replacement: if body_shape(text).0 {
                            ellipsis_line(body_shape(text).1)
                        } else {
                            ellipsis_inline()
                        },
                    },
                )
            } else {
                None
            }
        },
    }
}

/// The edit that a node asks for as a function definition: that of its
/// body, if it has a name and a body and the name is not `__init__`.
pub open spec fn function_edit(source: Seq<char>, n: SyntaxView) -> Option<EditView> {
    let name_at = first_with_field(n.children, "name"@);
    let body_at = first_with_field(n.children, "body"@);
    if n.kind == "function_definition"@ && name_at >= 0 && body_at >= 0 {
        match text_at(source, n.children[name_at].start, n.children[name_at].end) {
            Some(name) => if name == "__init__"@ {
                None
            } else {
                body_edit(source, n.children[body_at])
            },
            None => None,
        }
    } else {
        None
    }
}

/// The edits that a node asks for by itself, without those of its
/// children.
pub open spec fn own_edits(source: Seq<char>, n: SyntaxView, remove_comments: bool) -> Seq<EditView> {
    let first = if remove_comments && n.kind == "comment"@ {
        seq![comment_edit(encode_utf8(source), n)]
    } else {
        Seq::empty()
    };
    match function_edit(source, n) {
        Some(e) => first.push(e),
        None => first,
    }
}

/// The edits of a tree: those of its root, then those of the subtrees, in
/// the order of the source.
pub open spec fn python_edits(source: Seq<char>, n: SyntaxView, remove_comments: bool) -> Seq<EditView>
    decreases n, n.children.len() + 1,
{
    own_edits(source, n, remove_comments) + python_edits_below(
        source,
        n,
        n.children.len() as int,
        remove_comments,
    )
}

/// The edits of the first `k` subtrees of a node.
pub open spec fn python_edits_below(source: Seq<char>, n: SyntaxView, k: int, remove_comments: bool) -> Seq<
    EditView,
>
    decreases n, k,
{
    if 0 < k <= n.children.len() {
        python_edits_below(source, n, k - 1, remove_comments) + python_edits(
            source,
            n.children[k - 1],
            remove_comments,
        )
    } else {
        Seq::empty()
    }
}

/// Whether a statement is nothing but a string.
pub fn is_py_string_stmt(node: &SyntaxNode) -> (b: bool)
    ensures
        b == is_string_statement(node@),
{
    if !same_text(node.kind.as_str(), "expression_statement") {
        return false;
    }
    match node.first_named_child() {
        Some(child) => same_text(child.kind.as_str(), "string") || same_text(
            child.kind.as_str(),
            "concatenated_string",
        ),
        None => false,
    }
}

fn line_ellipsis(indent: &str) -> (out: Vec<u8>)
    ensures
        out@ == ellipsis_line(indent@),
{
    let bytes = indent.as_bytes();
    let mut out: Vec<u8> = Vec::new();
    out.push(10u8);
    let mut i: usize = 0;
    while i < bytes.len()
        invariant
            i <= bytes@.len(),
            out@ == seq![10u8] + bytes@.take(i as int),
        decreases bytes@.len() - i,
    {
        out.push(bytes[i]);
        proof {
            assert(seq![10u8] + bytes@.take(i + 1) =~= (seq![10u8] + bytes@.take(i as int)).push(
                bytes@[i as int],
            ));
        }
        i += 1;
    }
    proof {
        assert(bytes@.take(bytes@.len() as int) =~= bytes@);
    }
    out.push(46u8);
    out.push(46u8);
    out.push(46u8);
    proof {
        assert(out@ =~= ellipsis_line(indent@));
    }
    out
}

fn inline_ellipsis() -> (out: Vec<u8>)
    ensures
        out@ == ellipsis_inline(),
{
    let mut out: Vec<u8> = Vec::new();
    out.push(32u8);
    out.push(46u8);
    out.push(46u8);
    out.push(46u8);
    proof {
        assert(out@ =~= ellipsis_inline());
    }
    out
}

fn body_edit_of(source: &str, body: &SyntaxNode) -> (out: Option<Edit>)
    ensures
        out is Some <==> body_edit(source@, body@) is Some,
        out is Some ==> Some(out->0@) == body_edit(source@, body@),
{
    let text = match text_between(source, body.start, body.end) {
        Some(t) => t,
        None => {
            return None;
        },
    };
    proof {
        lemma_first_named(body@.children);
    }
    match body.first_named_child() {
        Some(first) => {
            if is_py_string_stmt(first) {
                if body.named_child_count() > 1 {
                    let shape = py_body_shape_and_indent(text);
                    Some(
                        Edit {
                            start: first.end,
                            end: body.end,
                            replacement: line_ellipsis(shape.1.as_str()),
                        },
                    )
                } else {
                    None
                }
            } else {
                let shape = py_body_shape_and_indent(text);
                let replacement = if shape.0 {
                    line_ellipsis(shape.1.as_str())
                } else {
                    inline_ellipsis()
                };
                Some(Edit { start: body.start, end: body.end, replacement })
            }
        },
        None => None,
    }
}

fn function_edit_of(source: &str, node: &SyntaxNode) -> (out: Option<Edit>)
    ensures
        out is Some <==> function_edit(source@, node@) is Some,
        out is Some ==> Some(out->0@) == function_edit(source@, node@),
{
    if !same_text(node.kind.as_str(), "function_definition") {
        return None;
    }
    let name = match node.child_by_field_name("name") {
        Some(n) => n,
        None => {
            return None;
        },
    };
    let body = match node.child_by_field_name("body") {
        Some(b) => b,
        None => {
            return None;
        },
    };
    match text_between(source, name.start, name.end) {
        Some(text) => {
            if same_text(text, "__init__") {
                None
            } else {
                body_edit_of(source, body)
            }
        },
        None => None,
    }
}

fn collect_edits(source: &str, node: &SyntaxNode, remove_comments: bool, out: &mut Vec<Edit>)
    ensures
        edit_views(final(out)@) == edit_views(old(out)@) + python_edits(
            source@,
            node@,
            remove_comments,
        ),
    decreases node,
{
    let ghost before = edit_views(out@);
    let ghost own = own_edits(source@, node@, remove_comments);
    if remove_comments && same_text(node.kind.as_str(), "comment") {
        let bytes = source.as_bytes();
        out.push(
            Edit {
                start: sol_of(bytes, node.start),
                end: extend_to_eol(bytes, node.end),
                replacement: Vec::new(),
            },
        );
    }
    match function_edit_of(source, node) {
        Some(e) => {
            out.push(e);
        },
        None => {},
    }
    proof {
        assert(edit_views(out@) =~= before + own);
        lemma_syntax_children(*node);
    }
    let mut i: usize = 0;
    while i < node.children.len()
        invariant
            i <= node.children@.len(),
            node@.children.len() == node.children@.len(),
            forall|j: int| 0 <= j < node.children@.len() ==> node@.children[j] == node.children@[j]@,
            edit_views(out@) == before + own + python_edits_below(
                source@,
                node@,
                i as int,
                remove_comments,
            ),
        decreases node.children@.len() - i,
    {
        let ghost held = edit_views(out@);
        collect_edits(source, &node.children[i], remove_comments, out);
        proof {
            let below = python_edits_below(source@, node@, i as int, remove_comments);
            let next = python_edits(source@, node@.children[i as int], remove_comments);
            assert(python_edits_below(source@, node@, i + 1, remove_comments) == below + next);
            assert(held + next =~= before + own + (below + next));
        }
        i += 1;
    }
    proof {
        assert(edit_views(out@) =~= before + python_edits(source@, node@, remove_comments));
    }
}

/// Plans the edits of a Python source from its syntax tree.
pub fn plan_python_edits(source: &str, root: &SyntaxNode, remove_comments: bool) -> (edits: Vec<Edit>)
    ensures
        edit_views(edits@) == python_edits(source@, root@, remove_comments),
{
    let mut edits: Vec<Edit> = Vec::new();
    collect_edits(source, root, remove_comments, &mut edits);
    proof {
        assert(edit_views(Seq::<Edit>::empty()) =~= Seq::<EditView>::empty());
        assert(Seq::<EditView>::empty() + python_edits(source@, root@, remove_comments)
            =~= python_edits(source@, root@, remove_comments));
    }
    edits
}

/// The compressed form of a Python source with the syntax tree `root`: the
/// planned edits applied from the end to the start, an edit with an empty
/// span included, and runs of blank lines squeezed.
pub open spec fn python_compressed(source: Seq<char>, root: SyntaxView, remove_comments: bool) -> Seq<
    char,
> {
    cleaned(rewritten(encode_utf8(source), python_edits(source, root, remove_comments), false))
}

/// The compressor for Python sources.
#[derive(Debug, Clone, Copy)]
pub struct PythonCompressor;

impl PythonCompressor {
    /// Compresses a source, given the syntax tree that the parser made of
    /// it. A source that the parser gave no tree for stays as it is.
    pub fn compress(&self, source: &str, parsed: Option<&SyntaxNode>, opts: &SmartCompressOptions) -> (out:
        String)
        ensures
            out@ == match parsed {
                Some(root) => python_compressed(source@, root@, opts.remove_comments),
                None => source@,
            },
    {
        match parsed {
            Some(root) => {
                let edits = plan_python_edits(source, root, opts.remove_comments);
                clean_blank_lines(rewrite(source.as_bytes(), edits, false))
            },
            None => source.to_owned(),
        }
    }
}

} // verus!
