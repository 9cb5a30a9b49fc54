//! Edits of a source text: the replacement of byte spans, the order in
//! which a list of edits is applied, and the text that results.

use vstd::prelude::*;
use vstd::seq_lib::{to_multiset_build, to_multiset_insert};
use vstd::utf8::{decode_utf8, valid_utf8};

verus! {

/// The replacement of the bytes `start..end` of a source.
#[derive(Debug)]
pub struct Edit {
    pub start: usize,
    pub end: usize,
    pub replacement: Vec<u8>,
}

/// Mathematical model of an [`Edit`].
pub struct EditView {
    pub start: int,
    pub end: int,
    pub replacement: Seq<u8>,
}

impl View for Edit {
    type V = EditView;

    open spec fn view(&self) -> EditView {
        EditView { start: self.start as int, end: self.end as int, replacement: self.replacement@ }
    }
}

/// The models of a sequence of edits, element by element.
pub open spec fn edit_views(s: Seq<Edit>) -> Seq<EditView> {
    Seq::new(s.len(), |i: int| s[i]@)
}

/// The source after one edit, offered in strict or in lenient mode: the
/// bytes `start..end` give way to the replacement, if the span lies within
/// the source and is not reversed, nor empty in strict mode. Otherwise the
/// source stays as it is.
pub open spec fn edited(source: Seq<u8>, start: int, end: int, replacement: Seq<u8>, strict: bool) -> Seq<
    u8,
> {
    if (if strict {
        start < end
    } else {
        start <= end
    }) && end <= source.len() && 0 <= start {
        source.subrange(0, start) + replacement + source.subrange(end, source.len() as int)
    } else {
        source
    }
}

/// Applies one edit to the source.
pub fn apply_edit(source: Vec<u8>, edit: &Edit, strict: bool) -> (out: Vec<u8>)
    ensures
        out@ == edited(source@, edit.start as int, edit.end as int, edit.replacement@, strict),
{
    let fits = if strict {
        edit.start < edit.end
    } else {
        edit.start <= edit.end
    };
    if !(fits && edit.end <= source.len()) {
        return source;
    }
    let mut out: Vec<u8> = Vec::new();
    let mut i: usize = 0;
    while i < edit.start
        invariant
            i <= edit.start <= edit.end <= source@.len(),
            out@ == source@.subrange(0, i as int),
        decreases edit.start - i,
    {
        out.push(source[i]);
        proof {
            assert(source@.subrange(0, i + 1) =~= source@.subrange(0, i as int).push(
                source@[i as int],
            ));
        }
        i += 1;
    }
    let mut k: usize = 0;
    while k < edit.replacement.len()
        invariant
            k <= edit.replacement@.len(),
            out@ == source@.subrange(0, edit.start as int) + edit.replacement@.take(k as int),
        decreases edit.replacement@.len() - k,
    {
        out.push(edit.replacement[k]);
        proof {
            let r = edit.replacement@;
            assert(r.take(k + 1) =~= r.take(k as int).push(r[k as int]));
            assert(source@.subrange(0, edit.start as int) + r.take(k + 1) =~= (source@.subrange(
                0,
                edit.start as int,
            ) + r.take(k as int)).push(r[k as int]));
        }
        k += 1;
    }
    proof {
        assert(edit.replacement@.take(edit.replacement@.len() as int) =~= edit.replacement@);
    }
    let ghost head = source@.subrange(0, edit.start as int) + edit.replacement@;
    let mut j: usize = edit.end;
    while j < source.len()
        invariant
            edit.end <= j <= source@.len(),
            out@ == head + source@.subrange(edit.end as int, j as int),
        decreases source@.len() - j,
    {
        out.push(source[j]);
        proof {
            assert(source@.subrange(edit.end as int, j + 1) =~= source@.subrange(
                edit.end as int,
                j as int,
            ).push(source@[j as int]));
            assert(head + source@.subrange(edit.end as int, j + 1) =~= (head + source@.subrange(
                edit.end as int,
                j as int,
            )).push(source@[j as int]));
        }
        j += 1;
    }
    out
}

/// Where an edit that starts at `start` goes into a list of edits sorted by
/// their start: behind every edit that starts no later.
pub open spec fn start_position(sorted: Seq<EditView>, start: int) -> int
    decreases sorted.len(),
{
    if sorted.len() > 0 && sorted.last().start > start {
        start_position(sorted.drop_last(), start)
    } else {
        sorted.len() as int
    }
}

/// The edits sorted by their start, ascending; edits with the same start
/// keep the order they came in.
pub open spec fn sorted_by_start(edits: Seq<EditView>) -> Seq<EditView>
    decreases edits.len(),
{
    if edits.len() == 0 {
        Seq::empty()
    } else {
        let prev = sorted_by_start(edits.drop_last());
        prev.insert(start_position(prev, edits.last().start), edits.last())
    }
}

/// The order in which a list of edits is applied: from the end of the
/// source to its start, so that an edit does not move the spans of those
/// that follow it; of edits with the same start the later one goes first.
pub open spec fn application_order(edits: Seq<EditView>) -> Seq<EditView> {
    sorted_by_start(edits).reverse()
}

/// The source after the edits are applied to it one after the other.
pub open spec fn applied(source: Seq<u8>, edits: Seq<EditView>, strict: bool) -> Seq<u8>
    decreases edits.len(),
{
    if edits.len() == 0 {
        source
    } else {
        let e = edits.last();
        edited(applied(source, edits.drop_last(), strict), e.start, e.end, e.replacement, strict)
    }
}

/// The position of an edit lies within the list, behind an edit that
/// starts no later and before edits that all start later.
pub proof fn lemma_start_position(sorted: Seq<EditView>, start: int)
    ensures
        0 <= start_position(sorted, start) <= sorted.len(),
        forall|i: int|
            start_position(sorted, start) <= i < sorted.len() ==> (#[trigger] sorted[i]).start
                > start,
        start_position(sorted, start) > 0 ==> sorted[start_position(sorted, start) - 1].start
            <= start,
    decreases sorted.len(),
{
    if sorted.len() > 0 && sorted.last().start > start {
        let init = sorted.drop_last();
        lemma_start_position(init, start);
        let p = start_position(init, start);
        assert forall|i: int| p <= i < sorted.len() implies (#[trigger] sorted[i]).start > start by {
            if i < init.len() {
                assert(init[i] == sorted[i]);
            }
        }
        if p > 0 {
            assert(init[p - 1] == sorted[p - 1]);
        }
    }
}

/// Sorting by start keeps every edit, as often as it occurs, and puts the
/// starts in ascending order.
pub proof fn lemma_sorted_by_start(edits: Seq<EditView>)
    ensures
        sorted_by_start(edits).len() == edits.len(),
        sorted_by_start(edits).to_multiset() == edits.to_multiset(),
        forall|i: int, j: int|
            0 <= i < j < edits.len() ==> (#[trigger] sorted_by_start(edits)[i]).start <= (
            #[trigger] sorted_by_start(edits)[j]).start,
    decreases edits.len(),
{
    if edits.len() > 0 {
        let init = edits.drop_last();
        let e = edits.last();
        lemma_sorted_by_start(init);
        let prev = sorted_by_start(init);
        let p = start_position(prev, e.start);
        lemma_start_position(prev, e.start);
        let out = sorted_by_start(edits);
        assert(out == prev.insert(p, e));
        to_multiset_insert(prev, p, e);
        assert(init.push(e) =~= edits);
        to_multiset_build(init, e);
        assert(out.to_multiset() =~= edits.to_multiset());
        assert forall|i: int, j: int| 0 <= i < j < edits.len() implies (#[trigger] out[i]).start <= (
        #[trigger] out[j]).start by {
            let a = if i < p { i } else { i - 1 };
            let b = if j < p { j } else { j - 1 };
            if i != p && j != p {
                assert(out[i] == prev[a] && out[j] == prev[b]);
            } else if i == p {
                assert(out[j] == prev[b]);
            } else {
                assert(out[i] == prev[a]);
                if a < p - 1 {
                    assert(prev[a].start <= prev[p - 1].start);
                }
            }
        }
    } else {
        assert(edits =~= Seq::<EditView>::empty());
    }
}

/// Puts the edits in the order in which they are applied.
pub fn order_edits(edits: Vec<Edit>) -> (out: Vec<Edit>)
    ensures
        edit_views(out@) == application_order(edit_views(edits@)),
{
    let ghost all = edit_views(edits@);
    let ghost mut done: int = 0;
    let mut sorted: Vec<Edit> = Vec::new();
    for edit in it: edits
        invariant
            edit_views(it.seq()) == all,
            done == it.index(),
            0 <= done <= all.len(),
            edit_views(sorted@) == sorted_by_start(all.take(done)),
    {
        let ghost before = edit_views(sorted@);
        let ghost start = edit.start as int;
        proof {
            assert(all.take(done + 1).drop_last() =~= all.take(done));
            assert(all.take(done + 1).last() == edit@);
            assert(before.take(before.len() as int) =~= before);
        }
        let mut p: usize = sorted.len();
        while p > 0 && sorted[p - 1].start > edit.start
            invariant
                p <= sorted@.len(),
                edit_views(sorted@) == before,
                start == edit.start,
                start_position(before, start) == start_position(before.take(p as int), start),
            decreases p,
        {
            proof {
                assert(before.take(p as int).last() == sorted@[p - 1]@);
                assert(before.take(p as int).drop_last() =~= before.take(p - 1));
            }
            p -= 1;
        }
        proof {
            if p > 0 {
                assert(before.take(p as int).last() == sorted@[p - 1]@);
            }
            assert(before.take(p as int).len() == p);
            assert(start_position(before, start) == p);
        }
        let ghost view = edit@;
        sorted.insert(p, edit);
        proof {
            assert(edit_views(sorted@) =~= before.insert(p as int, view));
            done = done + 1;
        }
    }
    proof {
        assert(all.take(all.len() as int) =~= all);
    }
    let ghost ranked = edit_views(sorted@);
    let mut out: Vec<Edit> = Vec::new();
    while sorted.len() > 0
        invariant
            sorted@.len() <= ranked.len(),
            edit_views(sorted@) == ranked.take(sorted@.len() as int),
            out@.len() == ranked.len() - sorted@.len(),
            forall|i: int| 0 <= i < out@.len() ==> (#[trigger] out@[i])@ == ranked[ranked.len() - 1 - i],
        decreases sorted@.len(),
    {
        let ghost n = sorted@.len() as int;
        let ghost held = sorted@;
        let last = sorted.pop();
        match last {
            Some(edit) => {
                proof {
                    assert(edit@ == edit_views(held)[n - 1]);
                    assert(edit_views(sorted@) =~= ranked.take(n - 1));
                }
                out.push(edit);
            },
            None => {},
        }
    }
    proof {
        if ranked.len() > 0 {
            assert(edit_views(out@) =~= ranked.reverse());
        } else {
            assert(edit_views(out@) =~= ranked.reverse());
        }
    }
    out
}

/// Applies the edits to the source one after the other.
pub fn apply_edits(source: Vec<u8>, edits: &Vec<Edit>, strict: bool) -> (out: Vec<u8>)
    ensures
        out@ == applied(source@, edit_views(edits@), strict),
{
    let ghost all = edit_views(edits@);
    let ghost first = source@;
    let mut out = source;
    let mut i: usize = 0;
    while i < edits.len()
        invariant
            i <= edits@.len(),
            all == edit_views(edits@),
            out@ == applied(first, all.take(i as int), strict),
        decreases edits@.len() - i,
    {
        proof {
            assert(all.take(i + 1).drop_last() =~= all.take(i as int));
            assert(all.take(i + 1).last() == edits@[i as int]@);
        }
        out = apply_edit(out, &edits[i], strict);
        i += 1;
    }
    proof {
        assert(all.take(edits@.len() as int) =~= all);
    }
    out
}

/// The text that `String::from_utf8_lossy` makes of a byte sequence.
pub uninterp spec fn lossy_text(bytes: Seq<u8>) -> Seq<char>;

/// `String::from_utf8_lossy`: the text that the bytes hold. Bytes that are
/// valid UTF-8 give the text they encode; the result depends on the bytes
/// alone.
#[verifier::external_body]
fn text_of_bytes(bytes: &[u8]) -> (text: String)
    ensures
        text@ == lossy_text(bytes@),
        valid_utf8(bytes@) ==> text@ == decode_utf8(bytes@),
{
    String::from_utf8_lossy(bytes).into_owned()
}

/// The text that a source gives once the edits are applied to it in their
/// order of application.
pub open spec fn rewritten(source: Seq<u8>, edits: Seq<EditView>, strict: bool) -> Seq<char> {
    lossy_text(applied(source, application_order(edits), strict))
}

/// Applies a list of edits to a source, in their order of application,
/// and returns the text that results.
pub fn rewrite(source: &[u8], edits: Vec<Edit>, strict: bool) -> (text: String)
    ensures
        text@ == rewritten(source@, edit_views(edits@), strict),
        valid_utf8(applied(source@, application_order(edit_views(edits@)), strict)) ==> text@
            == decode_utf8(applied(source@, application_order(edit_views(edits@)), strict)),
{
    let ordered = order_edits(edits);
    let mut bytes: Vec<u8> = Vec::new();
    let mut i: usize = 0;
    while i < source.len()
        invariant
            i <= source@.len(),
            bytes@ == source@.take(i as int),
        decreases source@.len() - i,
    {
        bytes.push(source[i]);
        proof {
            assert(source@.take(i + 1) =~= source@.take(i as int).push(source@[i as int]));
        }
        i += 1;
    }
    proof {
        assert(source@.take(source@.len() as int) =~= source@);
    }
    let out = apply_edits(bytes, &ordered, strict);
    text_of_bytes(out.as_slice())
}

} // verus!
