//! Syntax trees as plain values: what a parser found in a source text, as
//! far as the compressors read it.

use vstd::prelude::*;
use vstd::string::StringSliceAdditionalSpecFns;
use crate::text::same_text;
use vstd::utf8::{
    decode_utf8, encode_utf8, encode_utf8_decode_utf8, encode_utf8_valid_utf8, is_char_boundary,
    is_char_boundary_iff_not_is_continuation_byte, is_char_boundary_start_end_of_seq,
    is_continuation_byte, valid_utf8, valid_utf8_split,
};

verus! {

/// A node of a syntax tree: its kind, the field of its parent that it
/// fills, whether the grammar names it, the bytes of the source that it
/// spans, and its children in the order of the source.
#[derive(Debug)]
pub struct SyntaxNode {
    pub kind: String,
    pub field: Option<String>,
    pub named: bool,
    pub start: usize,
    pub end: usize,
    pub children: Vec<SyntaxNode>,
}

/// Mathematical model of a [`SyntaxNode`].
pub struct SyntaxView {
    pub kind: Seq<char>,
    pub field: Option<Seq<char>>,
    pub named: bool,
    pub start: int,
    pub end: int,
    pub children: Seq<SyntaxView>,
}

/// The model of `node`, with the models of its children in their order.
pub open spec fn syntax_view(node: SyntaxNode) -> SyntaxView
    decreases node,
{
    SyntaxView {
        kind: node.kind@,
        field: match node.field {
            Some(name) => Some(name@),
            None => None,
        },
        named: node.named,
        start: node.start as int,
        end: node.end as int,
        children: Seq::new(
            node.children@.len(),
            |i: int|
                if 0 <= i < node.children@.len() {
                    syntax_view(node.children@[i])
                } else {
                    arbitrary()
                },
        ),
    }
}

impl View for SyntaxNode {
    type V = SyntaxView;

    open spec fn view(&self) -> SyntaxView {
        syntax_view(*self)
    }
}

/// The models of a sequence of nodes, element by element.
pub open spec fn syntax_views(s: Seq<SyntaxNode>) -> Seq<SyntaxView> {
    Seq::new(s.len(), |i: int| s[i]@)
}

/// The children of a node's model are the models of its children.
pub proof fn lemma_syntax_children(node: SyntaxNode)
    ensures
        node@.children == syntax_views(node.children@),
{
    let kids = node@.children;
    assert(kids.len() == node.children@.len());
    assert forall|i: int| 0 <= i < kids.len() implies kids[i] == node.children@[i]@ by {}
    assert(kids =~= syntax_views(node.children@));
}

/// The index of the first of `kids` that fills the field `field`, or `-1`
/// where none does.
pub open spec fn first_with_field(kids: Seq<SyntaxView>, field: Seq<char>) -> int
    decreases kids.len(),
{
    if kids.len() == 0 {
        -1
    } else {
        let before = first_with_field(kids.drop_last(), field);
        if before >= 0 {
            before
        } else if kids.last().field == Some(field) {
            kids.len() - 1
        } else {
            -1
        }
    }
}

/// The index of the first named node among `kids`, or `-1` where none is
/// named.
pub open spec fn first_named(kids: Seq<SyntaxView>) -> int
    decreases kids.len(),
{
    if kids.len() == 0 {
        -1
    } else {
        let before = first_named(kids.drop_last());
        if before >= 0 {
            before
        } else if kids.last().named {
            kids.len() - 1
        } else {
            -1
        }
    }
}

/// The number of named nodes among `kids`.
pub open spec fn named_count(kids: Seq<SyntaxView>) -> nat
    decreases kids.len(),
{
    if kids.len() == 0 {
        0
    } else if kids.last().named {
        named_count(kids.drop_last()) + 1
    } else {
        named_count(kids.drop_last())
    }
}

/// The first named node stands at a valid index and is named; there is one
/// just where the count of named nodes is not zero.
pub proof fn lemma_first_named(kids: Seq<SyntaxView>)
    ensures
        -1 <= first_named(kids) < kids.len(),
        first_named(kids) >= 0 ==> kids[first_named(kids)].named,
        first_named(kids) >= 0 <==> named_count(kids) > 0,
        named_count(kids) <= kids.len(),
    decreases kids.len(),
{
    if kids.len() > 0 {
        lemma_first_named(kids.drop_last());
        let before = first_named(kids.drop_last());
        if before >= 0 {
            assert(kids.drop_last()[before] == kids[before]);
        }
    }
}

/// The first node with a field stands at a valid index and fills the field.
pub proof fn lemma_first_with_field(kids: Seq<SyntaxView>, field: Seq<char>)
    ensures
        -1 <= first_with_field(kids, field) < kids.len(),
        first_with_field(kids, field) >= 0 ==> kids[first_with_field(kids, field)].field == Some(
            field,
        ),
    decreases kids.len(),
{
    if kids.len() > 0 {
        lemma_first_with_field(kids.drop_last(), field);
        let before = first_with_field(kids.drop_last(), field);
        if before >= 0 {
            assert(kids.drop_last()[before] == kids[before]);
        }
    }
}

impl SyntaxNode {
    /// The first child that fills the field `field`.
    pub fn child_by_field_name(&self, field: &str) -> (out: Option<&SyntaxNode>)
        ensures
            out is Some <==> first_with_field(self@.children, field@) >= 0,
            out is Some ==> out->0@ == self@.children[first_with_field(self@.children, field@)],
    {
        let ghost kids = self@.children;
        proof {
            lemma_syntax_children(*self);
        }
        let mut i: usize = 0;
        while i < self.children.len()
            invariant
                i <= self.children@.len(),
                kids == self@.children,
                kids == syntax_views(self.children@),
                first_with_field(kids.take(i as int), field@) < 0,
            decreases self.children@.len() - i,
        {
            let child = &self.children[i];
            let found = match &child.field {
                Some(name) => same_text(name.as_str(), field),
                None => false,
            };
            proof {
                assert(kids.take(i + 1).drop_last() =~= kids.take(i as int));
                assert(kids.take(i + 1).last() == child@);
            }
            if found {
                proof {
                    lemma_field_found(kids, field@, i as int);
                }
                return Some(child);
            }
            i += 1;
        }
        proof {
            assert(kids.take(kids.len() as int) =~= kids);
        }
        None
    }

    /// The first child that the grammar names.
    pub fn first_named_child(&self) -> (out: Option<&SyntaxNode>)
        ensures
            out is Some <==> first_named(self@.children) >= 0,
            out is Some ==> out->0@ == self@.children[first_named(self@.children)],
    {
        let ghost kids = self@.children;
        proof {
            lemma_syntax_children(*self);
        }
        let mut i: usize = 0;
        while i < self.children.len()
            invariant
                i <= self.children@.len(),
                kids == self@.children,
                kids == syntax_views(self.children@),
                first_named(kids.take(i as int)) < 0,
            decreases self.children@.len() - i,
        {
            let child = &self.children[i];
            proof {
                assert(kids.take(i + 1).drop_last() =~= kids.take(i as int));
                assert(kids.take(i + 1).last() == child@);
            }
            if child.named {
                proof {
                    lemma_named_found(kids, i as int);
                }
                return Some(child);
            }
            i += 1;
        }
        proof {
            assert(kids.take(kids.len() as int) =~= kids);
        }
        None
    }

    /// The number of children that the grammar names.
    pub fn named_child_count(&self) -> (n: usize)
        ensures
            n == named_count(self@.children),
    {
        let ghost kids = self@.children;
        proof {
            lemma_syntax_children(*self);
        }
        let mut n: usize = 0;
        let mut i: usize = 0;
        while i < self.children.len()
            invariant
                i <= self.children@.len(),
                kids == self@.children,
                kids == syntax_views(self.children@),
                n == named_count(kids.take(i as int)),
                n <= i,
            decreases self.children@.len() - i,
        {
            proof {
                assert(kids.take(i + 1).drop_last() =~= kids.take(i as int));
                assert(kids.take(i + 1).last() == self.children@[i as int]@);
            }
            if self.children[i].named {
                n += 1;
            }
            i += 1;
        }
        proof {
            assert(kids.take(kids.len() as int) =~= kids);
        }
        n
    }
}

proof fn lemma_field_found(kids: Seq<SyntaxView>, field: Seq<char>, i: int)
    requires
        0 <= i < kids.len(),
        first_with_field(kids.take(i), field) < 0,
        first_with_field(kids.take(i + 1), field) == i,
    ensures
        first_with_field(kids, field) == i,
    decreases kids.len(),
{
    if kids.len() > i + 1 {
        let init = kids.drop_last();
        assert(init.take(i) =~= kids.take(i));
        assert(init.take(i + 1) =~= kids.take(i + 1));
        lemma_field_found(init, field, i);
    } else {
        assert(kids.take(i + 1) =~= kids);
    }
}

proof fn lemma_named_found(kids: Seq<SyntaxView>, i: int)
    requires
        0 <= i < kids.len(),
        first_named(kids.take(i)) < 0,
        first_named(kids.take(i + 1)) == i,
    ensures
        first_named(kids) == i,
    decreases kids.len(),
{
    if kids.len() > i + 1 {
        let init = kids.drop_last();
        assert(init.take(i) =~= kids.take(i));
        assert(init.take(i + 1) =~= kids.take(i + 1));
        lemma_named_found(init, i);
    } else {
        assert(kids.take(i + 1) =~= kids);
    }
}

/// Whether the bytes `start..end` of a text are a text themselves: the span
/// lies within the bytes and neither end cuts a character.
pub open spec fn sliceable(bytes: Seq<u8>, start: int, end: int) -> bool {
    0 <= start <= end <= bytes.len() && is_char_boundary(bytes, start) && is_char_boundary(
        bytes,
        end,
    )
}

/// The text that the bytes `start..end` of `source` hold.
pub open spec fn slice_text(source: Seq<char>, start: int, end: int) -> Seq<char> {
    decode_utf8(encode_utf8(source).subrange(start, end))
}

/// The text that the bytes `start..end` of `source` hold, where they are a
/// text.
pub open spec fn text_at(source: Seq<char>, start: int, end: int) -> Option<Seq<char>> {
    if sliceable(encode_utf8(source), start, end) {
        Some(slice_text(source, start, end))
    } else {
        None
    }
}

/// The part of `source` that the bytes `start..end` hold, where they are a
/// text.
pub fn text_between(source: &str, start: usize, end: usize) -> (out: Option<&str>)
    ensures
        out is Some <==> text_at(source@, start as int, end as int) is Some,
        out is Some ==> Some(out->0@) == text_at(source@, start as int, end as int),
{
    let ghost bytes = encode_utf8(source@);
    proof {
        encode_utf8_valid_utf8(source@);
    }
    let raw = source.as_bytes();
    if !(start <= end && end <= raw.len()) {
        return None;
    }
    if !source.is_char_boundary(start) || !source.is_char_boundary(end) {
        return None;
    }
    let (head, _) = source.split_at(end);
    proof {
        let front = head.spec_bytes();
        assert(front == bytes.subrange(0, end as int));
        valid_utf8_split(bytes, end as int);
        if start < end {
            is_char_boundary_iff_not_is_continuation_byte(bytes, start as int);
            is_char_boundary_iff_not_is_continuation_byte(front, start as int);
            assert(front[start as int] == bytes[start as int]);
        } else {
            is_char_boundary_start_end_of_seq(front);
        }
    }
    let (_, mid) = head.split_at(start);
    proof {
        assert(mid.spec_bytes() =~= bytes.subrange(start as int, end as int));
        encode_utf8_decode_utf8(mid@);
    }
    Some(mid)
}

} // verus!
