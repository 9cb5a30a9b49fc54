//! Assembly of the file tree: candidates are inserted below the root by
//! the components of their paths, then every directory has its children
//! sorted and its statistics summed from them.

use vstd::prelude::*;
use crate::sorting::{
    apply_order, insert_position, is_permutation, key_le, keyed_items, keyed_keys,
    lemma_insert_position, lemma_sort_order, lemma_sort_order_covers, sort_keyed, sort_order, Key,
    Keyed,
};
use crate::paths::{display_name, path_display_name, path_relative_components, relative_components};
use crate::scan_cache::{CacheEntry, CacheMap};
use crate::path_map::str_lt;
use crate::traversal::paths_distinct;
use crate::text::{lemma_str_le_antisymmetric, lowercase, to_lowercase};
use crate::types::{
    candidate_views, lemma_children_views, node_views, string_views, Candidate, CandidateView,
    FileNode, NodeView,
};

verus! {

/// The three counters of a node.
pub struct Stats {
    pub lines: nat,
    pub tokens: nat,
    pub size: nat,
}

/// The counters of `n`.
pub open spec fn stats_of(n: NodeView) -> Stats {
    Stats { lines: n.lines, tokens: n.tokens, size: n.size }
}

/// Counter by counter, the sum of `a` and `b`.
pub open spec fn add_stats(a: Stats, b: Stats) -> Stats {
    Stats { lines: a.lines + b.lines, tokens: a.tokens + b.tokens, size: a.size + b.size }
}

/// Counter by counter, the sum of all of `s`.
pub open spec fn sum_stats(s: Seq<Stats>) -> Stats
    decreases s.len(),
{
    if s.len() == 0 {
        Stats { lines: 0, tokens: 0, size: 0 }
    } else {
        add_stats(sum_stats(s.drop_last()), s.last())
    }
}

/// The counters of each of `kids`.
pub open spec fn child_stats(kids: Seq<NodeView>) -> Seq<Stats> {
    Seq::new(kids.len(), |i: int| stats_of(kids[i]))
}

/// Whether the counters fit the machine types of a [`FileNode`].
pub open spec fn stats_fit(s: Stats) -> bool {
    s.lines <= usize::MAX && s.tokens <= usize::MAX && s.size <= u64::MAX
}

/// What a directory's children are sorted by: files before directories,
/// then the name in lower case.
pub open spec fn child_key(n: NodeView) -> Key {
    (n.is_dir, lowercase(n.name))
}

/// The sort key of each of `kids`.
pub open spec fn child_keys(kids: Seq<NodeView>) -> Seq<Key> {
    Seq::new(kids.len(), |i: int| child_key(kids[i]))
}

/// `kids` in the order of a directory listing: stably sorted by
/// [`child_key`].
pub open spec fn sorted_children(kids: Seq<NodeView>) -> Seq<NodeView> {
    apply_order(kids, sort_order(child_keys(kids)))
}

/// Each of `kids` finalized, in the same order.
pub open spec fn finalized_each(kids: Seq<NodeView>) -> Seq<NodeView>
    decreases kids,
{
    Seq::new(
        kids.len(),
        |i: int|
            if 0 <= i < kids.len() {
                finalized(kids[i])
            } else {
                arbitrary()
            },
    )
}

/// The finalized form of a node. A file stays as it is. A directory has
/// its children finalized and sorted, and its counters set to the sums of
/// theirs.
pub open spec fn finalized(n: NodeView) -> NodeView
    decreases n,
{
    if n.is_dir {
        let kids = sorted_children(finalized_each(n.children));
        let total = sum_stats(child_stats(kids));
        NodeView { lines: total.lines, tokens: total.tokens, size: total.size, children: kids, ..n }
    } else {
        n
    }
}

/// The counters that finalizing gives a node: for a file its own, for a
/// directory the sum over everything below it.
pub open spec fn total_stats(n: NodeView) -> Stats
    decreases n,
{
    if n.is_dir {
        sum_stats(total_stats_each(n.children))
    } else {
        stats_of(n)
    }
}

/// The total counters of each of `kids`.
pub open spec fn total_stats_each(kids: Seq<NodeView>) -> Seq<Stats>
    decreases kids,
{
    Seq::new(
        kids.len(),
        |i: int|
            if 0 <= i < kids.len() {
                total_stats(kids[i])
            } else {
                arbitrary()
            },
    )
}

/// The counters of a directory are the sums of its children's, down to the
/// leaves.
pub open spec fn aggregated(n: NodeView) -> bool
    decreases n,
{
    n.is_dir ==> {
        &&& stats_of(n) == sum_stats(child_stats(n.children))
        &&& forall|i: int| 0 <= i < n.children.len() ==> aggregated(#[trigger] n.children[i])
    }
}

/// In a listing the files come first, then the directories; within each
/// group the names ascend when compared in lower case.
pub open spec fn children_ordered(kids: Seq<NodeView>) -> bool {
    forall|i: int, j: int|
        0 <= i < j < kids.len() ==> key_le(child_key(#[trigger] kids[i]), child_key(#[trigger] kids[j]))
}

/// Every directory of the tree lists its children in order.
pub open spec fn ordered(n: NodeView) -> bool
    decreases n,
{
    n.is_dir ==> {
        &&& children_ordered(n.children)
        &&& forall|i: int| 0 <= i < n.children.len() ==> ordered(#[trigger] n.children[i])
    }
}

proof fn lemma_sum_insert(s: Seq<Stats>, p: int, x: Stats)
    requires
        0 <= p <= s.len(),
    ensures
        sum_stats(s.insert(p, x)) == add_stats(sum_stats(s), x),
    decreases s.len(),
{
    let t = s.insert(p, x);
    if p == s.len() {
        assert(t.drop_last() =~= s);
    } else {
        assert(t.drop_last() =~= s.drop_last().insert(p, x));
        assert(t.last() == s.last());
        lemma_sum_insert(s.drop_last(), p, x);
    }
}

proof fn lemma_sum_sorted(s: Seq<Stats>, keys: Seq<Key>)
    requires
        s.len() == keys.len(),
    ensures
        sum_stats(apply_order(s, sort_order(keys))) == sum_stats(s),
    decreases keys.len(),
{
    if keys.len() == 0 {
        assert(apply_order(s, sort_order(keys)) =~= s);
    } else {
        let n = keys.len() - 1;
        let prev = sort_order(keys.drop_last());
        let placed = apply_order(keys.drop_last(), prev);
        let p = insert_position(placed, keys.last());
        lemma_sort_order(keys.drop_last());
        lemma_sort_order(keys);
        lemma_sum_sorted(s.drop_last(), keys.drop_last());
        let before = apply_order(s.drop_last(), prev);
        let after = apply_order(s, sort_order(keys));
        lemma_insert_position(placed, keys.last());
        assert(sort_order(keys) == prev.insert(p, n));
        assert forall|i: int| 0 <= i < after.len() implies after[i] == before.insert(
            p,
            s.last(),
        )[i] by {
            if i < p {
                assert(sort_order(keys)[i] == prev[i]);
            } else if i > p {
                assert(sort_order(keys)[i] == prev[i - 1]);
            }
        }
        assert(after =~= before.insert(p, s.last()));
        lemma_sum_insert(before, p, s.last());
    }
}

proof fn lemma_sum_bounds(s: Seq<Stats>, i: int)
    requires
        0 <= i < s.len(),
    ensures
        s[i].lines <= sum_stats(s).lines,
        s[i].tokens <= sum_stats(s).tokens,
        s[i].size <= sum_stats(s).size,
        sum_stats(s.take(i)).lines <= sum_stats(s).lines,
        sum_stats(s.take(i)).tokens <= sum_stats(s).tokens,
        sum_stats(s.take(i)).size <= sum_stats(s).size,
        sum_stats(s.take(i + 1)) == add_stats(sum_stats(s.take(i)), s[i]),
    decreases s.len(),
{
    assert(s.take(i + 1).drop_last() =~= s.take(i));
    if i == s.len() - 1 {
        assert(s.take(i) =~= s.drop_last());
        assert(s.take(i + 1) =~= s);
    } else {
        lemma_sum_bounds(s.drop_last(), i);
        assert(s.drop_last().take(i) =~= s.take(i));
        assert(s.drop_last().take(i + 1) =~= s.take(i + 1));
    }
}

/// Finalizing keeps what a node is sorted by, and gives it its total
/// counters.
pub proof fn lemma_finalized_basics(n: NodeView)
    ensures
        finalized(n).is_dir == n.is_dir,
        finalized(n).name == n.name,
        finalized(n).path == n.path,
        finalized(n).last_modified == n.last_modified,
        child_key(finalized(n)) == child_key(n),
        stats_of(finalized(n)) == total_stats(n),
    decreases n,
{
    if n.is_dir {
        let each = finalized_each(n.children);
        let kids = sorted_children(each);
        assert forall|i: int| 0 <= i < n.children.len() implies stats_of(each[i]) == total_stats(
            n.children[i],
        ) by {
            lemma_finalized_basics(n.children[i]);
        }
        assert(child_stats(each) =~= total_stats_each(n.children));
        lemma_sort_order(child_keys(each));
        let order = sort_order(child_keys(each));
        assert(child_stats(kids) =~= apply_order(child_stats(each), order));
        lemma_sum_sorted(child_stats(each), child_keys(each));
    }
}

/// Finalizing leaves every directory with the sums of its children's
/// counters, down to the leaves.
pub proof fn lemma_finalized_aggregated(n: NodeView)
    ensures
        aggregated(finalized(n)),
    decreases n,
{
    if n.is_dir {
        let each = finalized_each(n.children);
        let kids = sorted_children(each);
        lemma_sort_order(child_keys(each));
        let order = sort_order(child_keys(each));
        assert forall|i: int| 0 <= i < kids.len() implies aggregated(#[trigger] kids[i]) by {
            assert(kids[i] == each[order[i]]);
            lemma_finalized_aggregated(n.children[order[i]]);
        }
    }
}

/// Finalizing leaves every directory with its children in listing order:
/// files before directories, each group ascending by lower-case name.
pub proof fn lemma_finalized_ordered(n: NodeView)
    ensures
        ordered(finalized(n)),
    decreases n,
{
    if n.is_dir {
        let each = finalized_each(n.children);
        let kids = sorted_children(each);
        let keys = child_keys(each);
        lemma_sort_order(keys);
        let order = sort_order(keys);
        assert forall|i: int| 0 <= i < kids.len() implies ordered(#[trigger] kids[i]) by {
            assert(kids[i] == each[order[i]]);
            lemma_finalized_ordered(n.children[order[i]]);
        }
        assert forall|i: int, j: int| 0 <= i < j < kids.len() implies key_le(
            child_key(#[trigger] kids[i]),
            child_key(#[trigger] kids[j]),
        ) by {
            assert(kids[i] == each[order[i]]);
            assert(kids[j] == each[order[j]]);
            assert(keys[order[i]] == child_key(each[order[i]]));
            assert(keys[order[j]] == child_key(each[order[j]]));
        }
    }
}

/// The sums of the counters of `kids`.
fn sum_children(kids: &Vec<FileNode>) -> (total: (usize, usize, u64))
    requires
        stats_fit(sum_stats(child_stats(node_views(kids@)))),
    ensures
        total.0 == sum_stats(child_stats(node_views(kids@))).lines,
        total.1 == sum_stats(child_stats(node_views(kids@))).tokens,
        total.2 == sum_stats(child_stats(node_views(kids@))).size,
{
    let ghost all = child_stats(node_views(kids@));
    let mut lines: usize = 0;
    let mut tokens: usize = 0;
    let mut size: u64 = 0;
    let mut i: usize = 0;
    while i < kids.len()
        invariant
            i <= kids.len(),
            all == child_stats(node_views(kids@)),
            stats_fit(sum_stats(all)),
            lines == sum_stats(all.take(i as int)).lines,
            tokens == sum_stats(all.take(i as int)).tokens,
            size == sum_stats(all.take(i as int)).size,
        decreases kids.len() - i,
    {
        proof {
            lemma_sum_bounds(all, i as int);
            if i + 1 < kids.len() {
                lemma_sum_bounds(all, i + 1);
            } else {
                assert(all.take(i + 1) =~= all);
            }
            assert(all[i as int] == stats_of(kids@[i as int]@));
        }
        lines = lines + kids[i].lines;
        tokens = tokens + kids[i].tokens;
        size = size + kids[i].size;
        i += 1;
    }
    proof {
        assert(all.take(kids.len() as int) =~= all);
    }
    (lines, tokens, size)
}

/// Sorts the children of a directory into listing order.
fn sort_children(kids: Vec<FileNode>) -> (out: Vec<FileNode>)
    ensures
        node_views(out@) == sorted_children(node_views(kids@)),
{
    let ghost all = kids@;
    let ghost mut done: int = 0;
    let mut pairs: Vec<Keyed<FileNode>> = Vec::new();
    for child in it: kids
        invariant
            it.seq() == all,
            done == it.index(),
            0 <= done <= all.len(),
            keyed_items(pairs@) == all.take(done),
            keyed_keys(pairs@) == child_keys(node_views(all.take(done))),
    {
        let ghost before = pairs@;
        let text = to_lowercase(child.name.as_str());
        pairs.push(Keyed { group: child.is_dir, text, item: child });
        proof {
            let next = all.take(done + 1);
            assert(next.drop_last() =~= all.take(done));
            assert(keyed_items(pairs@) =~= next);
            let prev_keys = child_keys(node_views(all.take(done)));
            let next_keys = child_keys(node_views(next));
            assert forall|j: int| 0 <= j < next.len() implies keyed_keys(pairs@)[j]
                == next_keys[j] by {
                if j < done {
                    assert(pairs@[j] == before[j]);
                    assert(keyed_keys(before)[j] == prev_keys[j]);
                    assert(prev_keys[j] == child_key(all.take(done)[j]@));
                } else {
                    assert(next[j] == child);
                    assert(child@.is_dir == child.is_dir);
                    assert(child@.name == child.name@);
                }
            }
            assert(keyed_keys(pairs@) =~= next_keys);
            done = done + 1;
        }
    }
    proof {
        assert(all.take(all.len() as int) =~= all);
    }
    let out = sort_keyed(pairs);
    proof {
        let keys = child_keys(node_views(all));
        lemma_sort_order(keys);
        assert(node_views(out@) =~= apply_order(node_views(all), sort_order(keys)));
    }
    out
}

/// Finalizes a node in place: a directory has its children finalized and
/// sorted, files before directories and then by lower-case name, and its
/// three counters set to the sums of its children's. A file is left as it
/// is.
pub fn finalize_node(node: &mut FileNode)
    requires
        stats_fit(total_stats(old(node)@)),
    ensures
        final(node)@ == finalized(old(node)@),
    decreases *old(node),
{
    if node.is_dir {
        let ghost before = *node;
        let ghost kids_before = node.children@;
        proof {
            lemma_children_views(before);
        }
        let n = node.children.len();
        let mut i: usize = 0;
        while i < n
            invariant
                i <= n == node.children@.len(),
                before == *old(node),
                kids_before == before.children@,
                kids_before.len() == n,
                node.path == before.path,
                node.name == before.name,
                node.is_dir == before.is_dir,
                node.last_modified == before.last_modified,
                before.is_dir,
                stats_fit(total_stats(before@)),
                before@.children == node_views(kids_before),
                forall|j: int| 0 <= j < i ==> (#[trigger] node.children@[j])@ == finalized(kids_before[j]@),
                forall|j: int| i <= j < n ==> #[trigger] node.children@[j] == kids_before[j],
            decreases n - i,
        {
            proof {
                let totals = total_stats_each(before@.children);
                lemma_sum_bounds(totals, i as int);
                assert(totals[i as int] == total_stats(kids_before[i as int]@));
                assert(decreases_to!(before => before.children));
                assert(decreases_to!(before.children => before.children@[i as int]));
            }
            finalize_node(&mut node.children[i]);
            i += 1;
        }
        let mut kids: Vec<FileNode> = Vec::new();
        core::mem::swap(&mut kids, &mut node.children);
        proof {
            assert(node_views(kids@) =~= finalized_each(before@.children));
        }
        let sorted = sort_children(kids);
        proof {
            lemma_finalized_basics(before@);
        }
        let (lines, tokens, size) = sum_children(&sorted);
        node.lines = lines;
        node.tokens = tokens;
        node.size = size;
        node.children = sorted;
        proof {
            lemma_children_views(*node);
        }
    }
}

/// Whether one of `kids` has the path `path`.
pub open spec fn has_child_path(kids: Seq<NodeView>, path: Seq<char>) -> bool {
    exists|i: int| 0 <= i < kids.len() && (#[trigger] kids[i]).path == path
}

/// The index of the first directory among `kids` that is named `name`, or
/// `-1` where there is none.
pub open spec fn first_dir_named(kids: Seq<NodeView>, name: Seq<char>) -> int
    decreases kids.len(),
{
    if kids.len() == 0 {
        -1
    } else {
        let before = first_dir_named(kids.drop_last(), name);
        if before >= 0 {
            before
        } else if kids.last().is_dir && kids.last().name == name {
            kids.len() - 1
        } else {
            -1
        }
    }
}

/// The tree below `cur` after `node` is offered for insertion at the place
/// that `comps`, its path components relative to `cur`, name. The node is
/// attached as the last child of the directory that the components but the
/// last lead to, if each of them names a directory child that is there, the
/// last component is the node's name, and that directory has no child with
/// the node's path yet. Otherwise nothing changes.
pub open spec fn inserted(cur: NodeView, comps: Seq<Seq<char>>, node: NodeView) -> NodeView
    decreases comps.len(),
{
    if !cur.is_dir || comps.len() == 0 {
        cur
    } else if comps.len() == 1 {
        if node.name == comps[0] && !has_child_path(cur.children, node.path) {
            NodeView { children: cur.children.push(node), ..cur }
        } else {
            cur
        }
    } else {
        let at = first_dir_named(cur.children, comps[0]);
        if at >= 0 {
            NodeView {
                children: cur.children.update(
                    at,
                    inserted(cur.children[at], comps.drop_first(), node),
                ),
                ..cur
            }
        } else {
            cur
        }
    }
}

proof fn lemma_first_dir_named(kids: Seq<NodeView>, name: Seq<char>)
    ensures
        -1 <= first_dir_named(kids, name) < kids.len(),
        first_dir_named(kids, name) >= 0 ==> {
            let at = first_dir_named(kids, name);
            &&& kids[at].is_dir
            &&& kids[at].name == name
            &&& forall|j: int| 0 <= j < at ==> !((#[trigger] kids[j]).is_dir && kids[j].name == name)
        },
        first_dir_named(kids, name) < 0 ==> forall|j: int|
            0 <= j < kids.len() ==> !((#[trigger] kids[j]).is_dir && kids[j].name == name),
    decreases kids.len(),
{
    if kids.len() > 0 {
        let init = kids.drop_last();
        lemma_first_dir_named(init, name);
        let before = first_dir_named(init, name);
        if before >= 0 {
            assert(init[before] == kids[before]);
            assert forall|j: int| 0 <= j < before implies !((#[trigger] kids[j]).is_dir
                && kids[j].name == name) by {
                assert(init[j] == kids[j]);
            }
        } else {
            assert forall|j: int| 0 <= j < kids.len() - 1 implies !((#[trigger] kids[j]).is_dir
                && kids[j].name == name) by {
                assert(init[j] == kids[j]);
            }
        }
    }
}

fn find_dir_named(kids: &Vec<FileNode>, name: &String) -> (r: Option<usize>)
    ensures
        match r {
            Some(at) => at == first_dir_named(node_views(kids@), name@),
            None => first_dir_named(node_views(kids@), name@) < 0,
        },
{
    let ghost views = node_views(kids@);
    let mut i: usize = 0;
    while i < kids.len()
        invariant
            i <= kids.len(),
            views == node_views(kids@),
            forall|j: int| 0 <= j < i ==> !((#[trigger] views[j]).is_dir && views[j].name == name@),
        decreases kids.len() - i,
    {
        proof {
            assert(views[i as int] == kids@[i as int]@);
        }
        if kids[i].is_dir && kids[i].name == *name {
            proof {
                lemma_first_dir_named(views, name@);
            }
            return Some(i);
        }
        i += 1;
    }
    proof {
        lemma_first_dir_named(views, name@);
    }
    None
}

fn has_path(kids: &Vec<FileNode>, path: &String) -> (r: bool)
    ensures
        r == has_child_path(node_views(kids@), path@),
{
    let ghost views = node_views(kids@);
    let mut i: usize = 0;
    while i < kids.len()
        invariant
            i <= kids.len(),
            views == node_views(kids@),
            forall|j: int| 0 <= j < i ==> (#[trigger] views[j]).path != path@,
        decreases kids.len() - i,
    {
        proof {
            assert(views[i as int] == kids@[i as int]@);
        }
        if kids[i].path == *path {
            return true;
        }
        i += 1;
    }
    false
}

/// Offers `node_to_insert` for insertion below `current_node`, at the place
/// that `components` name: the path components of the node relative to
/// `current_node`.
pub fn insert_node_recursive(
    current_node: &mut FileNode,
    components: &[String],
    node_to_insert: FileNode,
)
    ensures
        final(current_node)@ == inserted(
            old(current_node)@,
            crate::types::string_views(components@),
            node_to_insert@,
        ),
    decreases components@.len(),
{
    let ghost comps = crate::types::string_views(components@);
    let ghost before = *current_node;
    proof {
        lemma_children_views(before);
    }
    if !current_node.is_dir {
        return;
    }
    if components.len() == 0 {
        return;
    }
    proof {
        assert(comps[0] == components@[0]@);
    }
    if components.len() == 1 {
        if node_to_insert.name == components[0] {
            if !has_path(&current_node.children, &node_to_insert.path) {
                current_node.children.push(node_to_insert);
                proof {
                    lemma_children_views(*current_node);
                    assert(node_views(current_node.children@) =~= node_views(before.children@).push(
                        node_to_insert@,
                    ));
                }
            }
        }
    } else {
        let found = find_dir_named(&current_node.children, &components[0]);
        if let Some(at) = found {
            let rest = vstd::slice::slice_subrange(components, 1, components.len());
            proof {
                lemma_first_dir_named(node_views(before.children@), comps[0]);
                assert(crate::types::string_views(rest@) =~= comps.drop_first());
                assert(node_views(before.children@)[at as int] == before.children@[at as int]@);
            }
            insert_node_recursive(&mut current_node.children[at], rest, node_to_insert);
            proof {
                lemma_children_views(*current_node);
                assert(node_views(current_node.children@) =~= node_views(before.children@).update(
                    at as int,
                    current_node.children@[at as int]@,
                ));
            }
        }
    }
}

/// The root of a tree that is still empty.
pub open spec fn root_node(root: Seq<char>) -> NodeView {
    NodeView {
        path: root,
        name: display_name(root),
        is_dir: true,
        lines: 0,
        tokens: 0,
        size: 0,
        last_modified: Seq::empty(),
        children: Seq::empty(),
    }
}

/// The node that stands for a candidate before it is inserted: a file
/// carries the counters of its cache entry, if it has one; a directory, and
/// a file without entry, carries zeros.
pub open spec fn leaf_for(c: CandidateView, cache: Map<Seq<char>, CacheEntry>) -> NodeView {
    if !c.is_dir && cache.contains_key(c.path) {
        NodeView {
            path: c.path,
            name: display_name(c.path),
            is_dir: false,
            lines: cache[c.path].lines as nat,
            tokens: cache[c.path].tokens as nat,
            size: cache[c.path].size as nat,
            last_modified: cache[c.path].last_modified@,
            children: Seq::empty(),
        }
    } else {
        NodeView {
            path: c.path,
            name: display_name(c.path),
            is_dir: c.is_dir,
            lines: 0,
            tokens: 0,
            size: 0,
            last_modified: Seq::empty(),
            children: Seq::empty(),
        }
    }
}

/// The tree after one candidate is offered to it: the root itself and a
/// path that does not lie below the root change nothing.
pub open spec fn offered(
    tree: NodeView,
    root: Seq<char>,
    c: CandidateView,
    cache: Map<Seq<char>, CacheEntry>,
) -> NodeView {
    if c.path == root {
        tree
    } else {
        match relative_components(root, c.path) {
            Some(comps) => if comps.len() > 0 {
                inserted(tree, comps, leaf_for(c, cache))
            } else {
                tree
            },
            None => tree,
        }
    }
}

/// The tree after the candidates are offered to it one after the other.
pub open spec fn offered_all(
    tree: NodeView,
    root: Seq<char>,
    cands: Seq<CandidateView>,
    cache: Map<Seq<char>, CacheEntry>,
) -> NodeView
    decreases cands.len(),
{
    if cands.len() == 0 {
        tree
    } else {
        offered(offered_all(tree, root, cands.drop_last(), cache), root, cands.last(), cache)
    }
}

/// What candidates are sorted by before they are inserted: their path.
pub open spec fn candidate_keys(cands: Seq<CandidateView>) -> Seq<Key> {
    Seq::new(cands.len(), |i: int| (false, cands[i].path))
}

/// The candidates in the order of insertion: stably sorted by path, so
/// that a directory comes before what lies in it.
pub open spec fn sorted_candidates(cands: Seq<CandidateView>) -> Seq<CandidateView> {
    apply_order(cands, sort_order(candidate_keys(cands)))
}

/// The tree that a scan yields for the root, the candidates and the cache:
/// every candidate inserted below the root in the order of the paths, then
/// the whole finalized.
pub open spec fn tree_of(
    root: Seq<char>,
    cands: Seq<CandidateView>,
    cache: Map<Seq<char>, CacheEntry>,
) -> NodeView {
    finalized(offered_all(root_node(root), root, sorted_candidates(cands), cache))
}

/// The counters of the leaves of all candidates.
pub open spec fn leaf_stats(cands: Seq<CandidateView>, cache: Map<Seq<char>, CacheEntry>) -> Seq<
    Stats,
> {
    Seq::new(cands.len(), |i: int| stats_of(leaf_for(cands[i], cache)))
}

/// Counter by counter, `a` is at most `b`.
pub open spec fn stats_le(a: Stats, b: Stats) -> bool {
    a.lines <= b.lines && a.tokens <= b.tokens && a.size <= b.size
}

proof fn lemma_sum_update(s: Seq<Stats>, i: int, x: Stats)
    requires
        0 <= i < s.len(),
    ensures
        add_stats(sum_stats(s.update(i, x)), s[i]) == add_stats(sum_stats(s), x),
    decreases s.len(),
{
    let t = s.update(i, x);
    if i == s.len() - 1 {
        assert(t.drop_last() =~= s.drop_last());
    } else {
        assert(t.drop_last() =~= s.drop_last().update(i, x));
        lemma_sum_update(s.drop_last(), i, x);
    }
}

proof fn lemma_sum_push(s: Seq<Stats>, x: Stats)
    ensures
        sum_stats(s.push(x)) == add_stats(sum_stats(s), x),
{
    assert(s.push(x).drop_last() =~= s);
}

proof fn lemma_inserted_total(cur: NodeView, comps: Seq<Seq<char>>, node: NodeView)
    ensures
        stats_le(
            total_stats(inserted(cur, comps, node)),
            add_stats(total_stats(cur), total_stats(node)),
        ),
    decreases comps.len(),
{
    if !cur.is_dir || comps.len() == 0 {
    } else if comps.len() == 1 {
        if node.name == comps[0] && !has_child_path(cur.children, node.path) {
            let kids = cur.children.push(node);
            assert(total_stats_each(kids) =~= total_stats_each(cur.children).push(total_stats(node)));
            lemma_sum_push(total_stats_each(cur.children), total_stats(node));
        }
    } else {
        let at = first_dir_named(cur.children, comps[0]);
        lemma_first_dir_named(cur.children, comps[0]);
        if at >= 0 {
            let child = inserted(cur.children[at], comps.drop_first(), node);
            lemma_inserted_total(cur.children[at], comps.drop_first(), node);
            let kids = cur.children.update(at, child);
            let totals = total_stats_each(cur.children);
            assert(total_stats_each(kids) =~= totals.update(at, total_stats(child)));
            lemma_sum_update(totals, at, total_stats(child));
        }
    }
}

proof fn lemma_offered_total(
    tree: NodeView,
    root: Seq<char>,
    cands: Seq<CandidateView>,
    cache: Map<Seq<char>, CacheEntry>,
)
    ensures
        stats_le(
            total_stats(offered_all(tree, root, cands, cache)),
            add_stats(total_stats(tree), sum_stats(leaf_stats(cands, cache))),
        ),
    decreases cands.len(),
{
    if cands.len() > 0 {
        let init = cands.drop_last();
        let c = cands.last();
        lemma_offered_total(tree, root, init, cache);
        let mid = offered_all(tree, root, init, cache);
        let leaf = leaf_for(c, cache);
        assert(total_stats_each(leaf.children) =~= Seq::<Stats>::empty());
        assert(total_stats(leaf) == stats_of(leaf));
        assert(leaf_stats(cands, cache).drop_last() =~= leaf_stats(init, cache));
        match relative_components(root, c.path) {
            Some(comps) => {
                lemma_inserted_total(mid, comps, leaf);
            },
            None => {},
        }
    }
}

/// The counters of the unfinalized tree are bounded by the counters of the
/// candidates' leaves taken together.
proof fn lemma_tree_total(root: Seq<char>, cands: Seq<CandidateView>, cache: Map<Seq<char>, CacheEntry>)
    ensures
        stats_le(
            total_stats(offered_all(root_node(root), root, sorted_candidates(cands), cache)),
            sum_stats(leaf_stats(cands, cache)),
        ),
{
    let keys = candidate_keys(cands);
    let sorted = sorted_candidates(cands);
    lemma_sort_order(keys);
    lemma_offered_total(root_node(root), root, sorted, cache);
    assert(leaf_stats(sorted, cache) =~= apply_order(leaf_stats(cands, cache), sort_order(keys)));
    lemma_sum_sorted(leaf_stats(cands, cache), keys);
    assert(total_stats_each(root_node(root).children) =~= Seq::<Stats>::empty());
}

/// The leaf that stands for a candidate.
pub fn leaf_node(c: &Candidate, cache_map: &CacheMap) -> (leaf: FileNode)
    requires
        cache_map.wf(),
    ensures
        leaf@ == leaf_for(c@, cache_map@),
{
    let name = path_display_name(c.path.as_str());
    let entry = if c.is_dir {
        None
    } else {
        cache_map.get(c.path.as_str())
    };
    let leaf = match entry {
        Some(e) => FileNode {
            path: c.path.clone(),
            name,
            is_dir: false,
            lines: e.lines,
            tokens: e.tokens,
            size: e.size,
            last_modified: e.last_modified.clone(),
            children: Vec::new(),
        },
        None => FileNode {
            path: c.path.clone(),
            name,
            is_dir: c.is_dir,
            lines: 0,
            tokens: 0,
            size: 0,
            last_modified: String::new(),
            children: Vec::new(),
        },
    };
    proof {
        lemma_children_views(leaf);
        assert(leaf@.children =~= Seq::<NodeView>::empty());
    }
    leaf
}

/// Whether the counters of the candidates' cache entries, taken together,
/// fit the machine types of a node.
pub fn candidate_totals_fit(valid_paths: &Vec<Candidate>, cache_map: &CacheMap) -> (fit: bool)
    requires
        cache_map.wf(),
    ensures
        fit == stats_fit(sum_stats(leaf_stats(candidate_views(valid_paths@), cache_map@))),
{
    let ghost cands = candidate_views(valid_paths@);
    let ghost all = leaf_stats(cands, cache_map@);
    let mut lines: usize = 0;
    let mut tokens: usize = 0;
    let mut size: u64 = 0;
    let mut i: usize = 0;
    while i < valid_paths.len()
        invariant
            i <= valid_paths.len(),
            cache_map.wf(),
            cands == candidate_views(valid_paths@),
            all == leaf_stats(cands, cache_map@),
            lines == sum_stats(all.take(i as int)).lines,
            tokens == sum_stats(all.take(i as int)).tokens,
            size == sum_stats(all.take(i as int)).size,
        decreases valid_paths.len() - i,
    {
        proof {
            lemma_sum_bounds(all, i as int);
            assert(cands[i as int] == valid_paths@[i as int]@);
        }
        let c = &valid_paths[i];
        if !c.is_dir {
            if let Some(e) = cache_map.get(c.path.as_str()) {
                let l = lines.checked_add(e.lines);
                let t = tokens.checked_add(e.tokens);
                let z = size.checked_add(e.size);
                if l.is_none() || t.is_none() || z.is_none() {
                    proof {
                        if i + 1 < valid_paths.len() {
                            lemma_sum_bounds(all, i + 1);
                        } else {
                            assert(all.take(i + 1) =~= all);
                        }
                    }
                    return false;
                }
                lines = l.unwrap();
                tokens = t.unwrap();
                size = z.unwrap();
            }
        }
        i += 1;
    }
    proof {
        assert(all.take(valid_paths.len() as int) =~= all);
    }
    true
}

/// Builds the tree of a scan: one node per candidate, inserted below the
/// root by the components of its path, with the counters of its cache
/// entry; then all directories sorted and summed. A candidate whose parent
/// directory is not in the tree is left out, with all that lies below it.
pub fn build_tree_from_paths(root_path: &str, valid_paths: &Vec<Candidate>, cache_map: &CacheMap) -> (tree:
    FileNode)
    requires
        cache_map.wf(),
        stats_fit(sum_stats(leaf_stats(candidate_views(valid_paths@), cache_map@))),
    ensures
        tree@ == tree_of(root_path@, candidate_views(valid_paths@), cache_map@),
{
    let ghost cands = candidate_views(valid_paths@);
    let ghost keys = candidate_keys(cands);
    let root_string = root_path.to_owned();
    let mut root = FileNode {
        path: root_path.to_owned(),
        name: path_display_name(root_path),
        is_dir: true,
        lines: 0,
        tokens: 0,
        size: 0,
        last_modified: String::new(),
        children: Vec::new(),
    };
    proof {
        lemma_children_views(root);
        assert(root@.children =~= Seq::<NodeView>::empty());
    }
    let mut pairs: Vec<Keyed<usize>> = Vec::new();
    let mut i: usize = 0;
    while i < valid_paths.len()
        invariant
            i <= valid_paths.len(),
            cands == candidate_views(valid_paths@),
            pairs@.len() == i,
            forall|j: int| 0 <= j < i ==> (#[trigger] pairs@[j]).item == j && !pairs@[j].group && pairs@[j].text@ == cands[j].path,
        decreases valid_paths.len() - i,
    {
        proof {
            assert(cands[i as int] == valid_paths@[i as int]@);
        }
        pairs.push(Keyed { group: false, text: valid_paths[i].path.clone(), item: i });
        i += 1;
    }
    proof {
        assert(keyed_keys(pairs@) =~= keys);
    }
    let ghost items = keyed_items(pairs@);
    let order = sort_keyed(pairs);
    let ghost perm = sort_order(keys);
    let ghost sorted = sorted_candidates(cands);
    proof {
        lemma_sort_order(keys);
        assert forall|k: int| 0 <= k < perm.len() implies order@[k] == perm[k] by {
            assert(items[perm[k]] == perm[k]);
        }
    }
    let mut k: usize = 0;
    while k < order.len()
        invariant
            k <= order.len(),
            cache_map.wf(),
            root_string@ == root_path@,
            cands == candidate_views(valid_paths@),
            keys == candidate_keys(cands),
            perm == sort_order(keys),
            sorted == sorted_candidates(cands),
            is_permutation(perm, cands.len() as int),
            order@.len() == perm.len(),
            forall|j: int| 0 <= j < perm.len() ==> order@[j] == perm[j],
            root@ == offered_all(root_node(root_path@), root_path@, sorted.take(k as int), cache_map@),
        decreases order.len() - k,
    {
        let at = order[k];
        proof {
            assert(perm[k as int] == at);
            assert(sorted.take(k + 1).drop_last() =~= sorted.take(k as int));
            assert(sorted.take(k + 1).last() == cands[at as int]);
            assert(cands[at as int] == valid_paths@[at as int]@);
        }
        let c = &valid_paths[at];
        if !(c.path == root_string) {
            if let Some(comps) = path_relative_components(root_path, c.path.as_str()) {
                if comps.len() > 0 {
                    let leaf = leaf_node(c, cache_map);
                    insert_node_recursive(&mut root, comps.as_slice(), leaf);
                }
            }
        }
        k += 1;
    }
    proof {
        assert(sorted.take(order.len() as int) =~= sorted);
        lemma_tree_total(root_path@, cands, cache_map@);
    }
    finalize_node(&mut root);
    root
}

/// Builds the tree of a scan where the counters fit, and tells where they
/// do not.
pub fn build_tree_checked(root_path: &str, valid_paths: &Vec<Candidate>, cache_map: &CacheMap) -> (tree:
    Option<FileNode>)
    requires
        cache_map.wf(),
    ensures
        tree is Some <==> stats_fit(
            sum_stats(leaf_stats(candidate_views(valid_paths@), cache_map@)),
        ),
        tree is Some ==> tree->0@ == tree_of(
            root_path@,
            candidate_views(valid_paths@),
            cache_map@,
        ),
{
    if candidate_totals_fit(valid_paths, cache_map) {
        Some(build_tree_from_paths(root_path, valid_paths, cache_map))
    } else {
        None
    }
}

/// No two of `kids` have the same path.
pub open spec fn paths_differ(kids: Seq<NodeView>) -> bool {
    forall|i: int, j: int|
        0 <= i < j < kids.len() ==> (#[trigger] kids[i]).path != (#[trigger] kids[j]).path
}

/// In every directory of the tree no two children have the same path.
pub open spec fn siblings_differ(n: NodeView) -> bool
    decreases n,
{
    n.is_dir ==> {
        &&& paths_differ(n.children)
        &&& forall|i: int| 0 <= i < n.children.len() ==> siblings_differ(#[trigger] n.children[i])
    }
}

proof fn lemma_inserted_keeps_path(cur: NodeView, comps: Seq<Seq<char>>, node: NodeView)
    ensures
        inserted(cur, comps, node).path == cur.path,
        inserted(cur, comps, node).is_dir == cur.is_dir,
    decreases comps.len(),
{
}

/// An insertion into a tree whose siblings all differ in their paths
/// leaves such a tree.
pub proof fn lemma_inserted_siblings_differ(cur: NodeView, comps: Seq<Seq<char>>, node: NodeView)
    requires
        siblings_differ(cur),
        siblings_differ(node),
    ensures
        siblings_differ(inserted(cur, comps, node)),
    decreases comps.len(),
{
    if !cur.is_dir || comps.len() == 0 {
    } else if comps.len() == 1 {
        if node.name == comps[0] && !has_child_path(cur.children, node.path) {
            let kids = cur.children.push(node);
            assert forall|i: int, j: int| 0 <= i < j < kids.len() implies (#[trigger] kids[i]).path != (
            #[trigger] kids[j]).path by {
                if j == cur.children.len() {
                    assert(kids[i] == cur.children[i]);
                } else {
                    assert(kids[i] == cur.children[i] && kids[j] == cur.children[j]);
                }
            }
            assert forall|i: int| 0 <= i < kids.len() implies siblings_differ(#[trigger] kids[i]) by {
                if i < cur.children.len() {
                    assert(kids[i] == cur.children[i]);
                }
            }
        }
    } else {
        let at = first_dir_named(cur.children, comps[0]);
        lemma_first_dir_named(cur.children, comps[0]);
        if at >= 0 {
            let child = inserted(cur.children[at], comps.drop_first(), node);
            lemma_inserted_siblings_differ(cur.children[at], comps.drop_first(), node);
            lemma_inserted_keeps_path(cur.children[at], comps.drop_first(), node);
            let kids = cur.children.update(at, child);
            assert forall|i: int, j: int| 0 <= i < j < kids.len() implies (#[trigger] kids[i]).path != (
            #[trigger] kids[j]).path by {
                assert(kids[i].path == cur.children[i].path);
                assert(kids[j].path == cur.children[j].path);
            }
            assert forall|i: int| 0 <= i < kids.len() implies siblings_differ(#[trigger] kids[i]) by {
                if i != at {
                    assert(kids[i] == cur.children[i]);
                }
            }
        }
    }
}

proof fn lemma_offered_siblings_differ(
    tree: NodeView,
    root: Seq<char>,
    cands: Seq<CandidateView>,
    cache: Map<Seq<char>, CacheEntry>,
)
    requires
        siblings_differ(tree),
    ensures
        siblings_differ(offered_all(tree, root, cands, cache)),
    decreases cands.len(),
{
    if cands.len() > 0 {
        lemma_offered_siblings_differ(tree, root, cands.drop_last(), cache);
        let mid = offered_all(tree, root, cands.drop_last(), cache);
        let leaf = leaf_for(cands.last(), cache);
        match relative_components(root, cands.last().path) {
            Some(comps) => {
                lemma_inserted_siblings_differ(mid, comps, leaf);
            },
            None => {},
        }
    }
}

/// Finalizing a tree whose siblings all differ in their paths leaves such
/// a tree.
pub proof fn lemma_finalized_siblings_differ(n: NodeView)
    requires
        siblings_differ(n),
    ensures
        siblings_differ(finalized(n)),
    decreases n,
{
    if n.is_dir {
        let each = finalized_each(n.children);
        let kids = sorted_children(each);
        lemma_sort_order(child_keys(each));
        let order = sort_order(child_keys(each));
        assert forall|i: int| 0 <= i < kids.len() implies siblings_differ(#[trigger] kids[i]) by {
            assert(kids[i] == each[order[i]]);
            lemma_finalized_siblings_differ(n.children[order[i]]);
        }
        assert forall|i: int, j: int| 0 <= i < j < kids.len() implies (#[trigger] kids[i]).path != (
        #[trigger] kids[j]).path by {
            assert(kids[i] == each[order[i]]);
            assert(kids[j] == each[order[j]]);
            lemma_finalized_basics(n.children[order[i]]);
            lemma_finalized_basics(n.children[order[j]]);
            assert(order[i] != order[j]);
            if order[i] < order[j] {
                assert(n.children[order[i]].path != n.children[order[j]].path);
            } else {
                assert(n.children[order[j]].path != n.children[order[i]].path);
            }
        }
    }
}

/// In the tree of a scan no directory has two children with the same
/// path.
pub proof fn lemma_tree_siblings_differ(
    root: Seq<char>,
    cands: Seq<CandidateView>,
    cache: Map<Seq<char>, CacheEntry>,
)
    ensures
        siblings_differ(tree_of(root, cands, cache)),
{
    lemma_offered_siblings_differ(root_node(root), root, sorted_candidates(cands), cache);
    lemma_finalized_siblings_differ(
        offered_all(root_node(root), root, sorted_candidates(cands), cache),
    );
}

/// Every candidate comes strictly before those behind it in the order of
/// the paths.
pub open spec fn candidates_ascend(cands: Seq<CandidateView>) -> bool {
    forall|i: int, j: int|
        0 <= i < j < cands.len() ==> str_lt((#[trigger] cands[i]).path, (#[trigger] cands[j]).path)
}

proof fn lemma_sorted_candidates(cands: Seq<CandidateView>)
    requires
        paths_distinct(cands),
    ensures
        candidates_ascend(sorted_candidates(cands)),
        forall|x: CandidateView| sorted_candidates(cands).contains(x) <==> cands.contains(x),
{
    let keys = candidate_keys(cands);
    let order = sort_order(keys);
    let sorted = sorted_candidates(cands);
    lemma_sort_order(keys);
    assert forall|i: int, j: int| 0 <= i < j < sorted.len() implies str_lt(
        (#[trigger] sorted[i]).path,
        (#[trigger] sorted[j]).path,
    ) by {
        assert(sorted[i] == cands[order[i]] && sorted[j] == cands[order[j]]);
        assert(key_le(keys[order[i]], keys[order[j]]));
        assert(order[i] != order[j]);
        if order[i] < order[j] {
            assert(cands[order[i]].path != cands[order[j]].path);
        } else {
            assert(cands[order[j]].path != cands[order[i]].path);
        }
    }
    assert forall|x: CandidateView| sorted.contains(x) <==> cands.contains(x) by {
        if sorted.contains(x) {
            let i = choose|i: int| 0 <= i < sorted.len() && sorted[i] == x;
            assert(cands[order[i]] == x);
        }
        if cands.contains(x) {
            let k = choose|k: int| 0 <= k < cands.len() && cands[k] == x;
            lemma_sort_order_covers(keys, k);
            let i = choose|i: int| 0 <= i < keys.len() && #[trigger] order[i] == k;
            assert(sorted[i] == x);
        }
    }
}

proof fn lemma_ascending_index(a: Seq<CandidateView>, b: Seq<CandidateView>, i: int)
    requires
        candidates_ascend(a),
        candidates_ascend(b),
        forall|x: CandidateView| a.contains(x) ==> b.contains(x),
        0 <= i < a.len(),
    ensures
        exists|j: int| i <= j < b.len() && b[j] == a[i],
    decreases i,
{
    assert(a.contains(a[i]));
    let j = choose|j: int| 0 <= j < b.len() && b[j] == a[i];
    if i > 0 {
        lemma_ascending_index(a, b, i - 1);
        let before = choose|k: int| i - 1 <= k < b.len() && b[k] == a[i - 1];
        assert(str_lt(a[i - 1].path, a[i].path));
        if j < before {
            assert(str_lt(b[j].path, b[before].path));
            lemma_str_le_antisymmetric(a[i - 1].path, a[i].path);
        }
        assert(j > before);
    }
    assert(b[j] == a[i]);
}

proof fn lemma_ascending_same(a: Seq<CandidateView>, b: Seq<CandidateView>)
    requires
        candidates_ascend(a),
        candidates_ascend(b),
        forall|x: CandidateView| a.contains(x) <==> b.contains(x),
    ensures
        a == b,
{
    assert forall|i: int| 0 <= i < a.len() implies i < b.len() && a[i] == b[i] by {
        lemma_ascending_index(a, b, i);
        let j = choose|j: int| i <= j < b.len() && b[j] == a[i];
        lemma_ascending_index(b, a, j);
        let back = choose|k: int| j <= k < a.len() && a[k] == b[j];
        if back > i {
            assert(str_lt(a[i].path, a[back].path));
        }
    }
    if a.len() > 0 {
        lemma_ascending_index(a, b, a.len() - 1);
    }
    if b.len() > 0 {
        lemma_ascending_index(b, a, b.len() - 1);
    }
    assert(a =~= b);
}

/// The tree does not depend on the order in which the candidates come in,
/// as long as no path occurs twice among them: two lists that hold the
/// same candidates give the same tree.
pub proof fn lemma_tree_in_any_order(
    root: Seq<char>,
    a: Seq<CandidateView>,
    b: Seq<CandidateView>,
    cache: Map<Seq<char>, CacheEntry>,
)
    requires
        paths_distinct(a),
        paths_distinct(b),
        forall|x: CandidateView| a.contains(x) <==> b.contains(x),
    ensures
        tree_of(root, a, cache) == tree_of(root, b, cache),
{
    lemma_sorted_candidates(a);
    lemma_sorted_candidates(b);
    let left = sorted_candidates(a);
    let right = sorted_candidates(b);
    assert forall|x: CandidateView| left.contains(x) <==> right.contains(x) by {
        assert(left.contains(x) <==> a.contains(x));
        assert(right.contains(x) <==> b.contains(x));
        assert(a.contains(x) <==> b.contains(x));
    }
    lemma_ascending_same(left, right);
}

/// In the tree of a scan every directory carries the sums of its
/// children's counters and lists its children in order.
pub proof fn lemma_tree_aggregated_and_ordered(
    root: Seq<char>,
    cands: Seq<CandidateView>,
    cache: Map<Seq<char>, CacheEntry>,
)
    ensures
        aggregated(tree_of(root, cands, cache)),
        ordered(tree_of(root, cands, cache)),
{
    let raw = offered_all(root_node(root), root, sorted_candidates(cands), cache);
    lemma_finalized_aggregated(raw);
    lemma_finalized_ordered(raw);
}

} // verus!
