//! Stable sorting by a key made of a group flag and a string: the order in
//! which the children of a directory and the candidates of a scan are put.

use vstd::prelude::*;
use crate::text::{
    lemma_str_le_reflexive, lemma_str_le_total, lemma_str_le_transitive, rank_strings, str_le,
    Rank,
};

verus! {

/// A sort key: the group (`false` sorts before `true`) and a string.
pub type Key = (bool, Seq<char>);

/// `a` sorts no later than `b`: by group first, then by string.
pub open spec fn key_le(a: Key, b: Key) -> bool {
    if a.0 != b.0 {
        !a.0
    } else {
        str_le(a.1, b.1)
    }
}

/// Any two keys are comparable by `key_le`.
pub proof fn lemma_key_le_total(a: Key, b: Key)
    ensures
        key_le(a, b) || key_le(b, a),
{
    lemma_str_le_total(a.1, b.1);
}

/// `key_le` is transitive.
pub proof fn lemma_key_le_transitive(a: Key, b: Key, c: Key)
    requires
        key_le(a, b),
        key_le(b, c),
    ensures
        key_le(a, c),
{
    if a.0 == b.0 && b.0 == c.0 {
        lemma_str_le_transitive(a.1, b.1, c.1);
    }
}

/// The elements of `s` in the order that `order` gives: element `i` of the
/// result is `s[order[i]]`.
pub open spec fn apply_order<A>(s: Seq<A>, order: Seq<int>) -> Seq<A> {
    Seq::new(order.len(), |i: int| s[order[i]])
}

/// Where a new key goes into a sorted sequence of keys: behind every key
/// that sorts no later than it.
pub open spec fn insert_position(sorted: Seq<Key>, k: Key) -> int
    decreases sorted.len(),
{
    if sorted.len() > 0 && !key_le(sorted.last(), k) {
        insert_position(sorted.drop_last(), k)
    } else {
        sorted.len() as int
    }
}

/// The stable sorting order of `keys`: the indices of `keys`, arranged so
/// that the keys ascend and equal keys keep the order they came in.
pub open spec fn sort_order(keys: Seq<Key>) -> Seq<int>
    decreases keys.len(),
{
    if keys.len() == 0 {
        Seq::empty()
    } else {
        let prev = sort_order(keys.drop_last());
        let placed = apply_order(keys.drop_last(), prev);
        prev.insert(insert_position(placed, keys.last()), keys.len() - 1)
    }
}

/// `order` names every index below `n` once, and nothing else.
pub open spec fn is_permutation(order: Seq<int>, n: int) -> bool {
    &&& order.len() == n
    &&& forall|i: int| 0 <= i < n ==> 0 <= #[trigger] order[i] < n
    &&& forall|i: int, j: int| 0 <= i < j < n ==> #[trigger] order[i] != #[trigger] order[j]
}

/// In `order` the keys ascend, and of two keys that sort alike the one that
/// came first stands first.
pub open spec fn is_stable_ascending(keys: Seq<Key>, order: Seq<int>) -> bool {
    forall|i: int, j: int|
        0 <= i < j < order.len() ==> key_le(keys[#[trigger] order[i]], keys[#[trigger] order[j]])
            && (key_le(keys[order[j]], keys[order[i]]) ==> order[i] < order[j])
}

/// The insert position lies within the sequence, behind a key that sorts
/// no later than the new one and before keys that all sort later.
pub proof fn lemma_insert_position(sorted: Seq<Key>, k: Key)
    ensures
        0 <= insert_position(sorted, k) <= sorted.len(),
        forall|i: int|
            insert_position(sorted, k) <= i < sorted.len() ==> !key_le(#[trigger] sorted[i], k),
        insert_position(sorted, k) > 0 ==> key_le(sorted[insert_position(sorted, k) - 1], k),
    decreases sorted.len(),
{
    if sorted.len() > 0 && !key_le(sorted.last(), k) {
        let init = sorted.drop_last();
        lemma_insert_position(init, k);
        let p = insert_position(init, k);
        assert forall|i: int| p <= i < sorted.len() implies !key_le(#[trigger] sorted[i], k) by {
            if i < init.len() {
                assert(init[i] == sorted[i]);
            }
        }
        if p > 0 {
            assert(init[p - 1] == sorted[p - 1]);
        }
    }
}

/// The sorting order is a permutation under which the keys ascend and
/// equal keys keep their order: the stable sort.
pub proof fn lemma_sort_order(keys: Seq<Key>)
    ensures
        is_permutation(sort_order(keys), keys.len() as int),
        is_stable_ascending(keys, sort_order(keys)),
    decreases keys.len(),
{
    if keys.len() > 0 {
        let n = keys.len() - 1;
        let init = keys.drop_last();
        let k = keys.last();
        lemma_sort_order(init);
        let prev = sort_order(init);
        let placed = apply_order(init, prev);
        let p = insert_position(placed, k);
        lemma_insert_position(placed, k);
        let order = sort_order(keys);
        assert(order == prev.insert(p, n));
        assert forall|i: int| 0 <= i < n + 1 implies 0 <= #[trigger] order[i] < n + 1 by {
            if i < p {
                assert(order[i] == prev[i]);
            } else if i > p {
                assert(order[i] == prev[i - 1]);
            }
        }
        assert forall|i: int, j: int| 0 <= i < j < n + 1 implies #[trigger] order[i]
            != #[trigger] order[j] by {
            let a = if i < p { i } else { i - 1 };
            let b = if j < p { j } else { j - 1 };
            if i != p && j != p {
                assert(order[i] == prev[a] && order[j] == prev[b]);
            } else if i == p {
                assert(order[j] == prev[b]);
            } else {
                assert(order[i] == prev[a]);
            }
        }
        assert forall|i: int, j: int| 0 <= i < j < order.len() implies key_le(
            keys[#[trigger] order[i]],
            keys[#[trigger] order[j]],
        ) && (key_le(keys[order[j]], keys[order[i]]) ==> order[i] < order[j]) by {
            let a = if i < p { i } else { i - 1 };
            let b = if j < p { j } else { j - 1 };
            if i != p && j != p {
                assert(order[i] == prev[a] && order[j] == prev[b]);
                assert(keys[prev[a]] == init[prev[a]]);
                assert(keys[prev[b]] == init[prev[b]]);
            } else if i == p {
                // the new key stands before a key that sorts strictly later
                assert(order[j] == prev[b]);
                assert(placed[b] == init[prev[b]]);
                assert(!key_le(placed[b], k));
                lemma_key_le_total(placed[b], k);
            } else {
                // a key at or before the place of the new one sorts no later
                assert(order[i] == prev[a]);
                assert(placed[a] == init[prev[a]]);
                assert(placed[p - 1] == init[prev[p - 1]]);
                if a < p - 1 {
                    assert(key_le(init[prev[a]], init[prev[p - 1]]));
                    lemma_key_le_transitive(placed[a], placed[p - 1], k);
                }
            }
        }
    }
}

/// The sorting order names every index of the keys somewhere.
pub proof fn lemma_sort_order_covers(keys: Seq<Key>, k: int)
    requires
        0 <= k < keys.len(),
    ensures
        exists|i: int| 0 <= i < keys.len() && #[trigger] sort_order(keys)[i] == k,
    decreases keys.len(),
{
    let n = keys.len() - 1;
    let init = keys.drop_last();
    lemma_sort_order(init);
    let prev = sort_order(init);
    let placed = apply_order(init, prev);
    let p = insert_position(placed, keys.last());
    lemma_insert_position(placed, keys.last());
    let order = sort_order(keys);
    assert(order == prev.insert(p, n));
    if k == n {
        assert(order[p] == n);
    } else {
        lemma_sort_order_covers(init, k);
        let i = choose|i: int| 0 <= i < init.len() && #[trigger] prev[i] == k;
        if i < p {
            assert(order[i] == k);
        } else {
            assert(order[i + 1] == k);
        }
    }
}

/// An item with the key it is sorted by.
pub struct Keyed<T> {
    pub group: bool,
    pub text: String,
    pub item: T,
}

/// The key of a keyed item.
pub open spec fn key_of<T>(k: Keyed<T>) -> Key {
    (k.group, k.text@)
}

/// The keys of a sequence of keyed items.
pub open spec fn keyed_keys<T>(s: Seq<Keyed<T>>) -> Seq<Key> {
    Seq::new(s.len(), |i: int| key_of(s[i]))
}

/// The items of a sequence of keyed items.
pub open spec fn keyed_items<T>(s: Seq<Keyed<T>>) -> Seq<T> {
    Seq::new(s.len(), |i: int| s[i].item)
}

fn keyed_le<T>(a: &Keyed<T>, b: &Keyed<T>) -> (r: bool)
    ensures
        r == key_le(key_of(*a), key_of(*b)),
{
    if a.group != b.group {
        !a.group
    } else {
        proof {
            lemma_str_le_reflexive(a.text@);
        }
        match rank_strings(a.text.as_str(), b.text.as_str()) {
            Rank::After => false,
            _ => true,
        }
    }
}

/// Sorts the items by their keys, keeping the order of items whose keys
/// sort alike, and returns them without the keys.
pub fn sort_keyed<T>(pairs: Vec<Keyed<T>>) -> (out: Vec<T>)
    ensures
        out@ == apply_order(keyed_items(pairs@), sort_order(keyed_keys(pairs@))),
{
    let ghost all = pairs@;
    let ghost mut order: Seq<int> = Seq::empty();
    let ghost mut done: int = 0;
    let mut sorted: Vec<Keyed<T>> = Vec::new();
    for pair in it: pairs
        invariant
            it.seq() == all,
            done == it.index(),
            0 <= done <= all.len(),
            order == sort_order(keyed_keys(all.take(done))),
            sorted@ == apply_order(all.take(done), order),
    {
        let ghost before = sorted@;
        let ghost init = all.take(done);
        let ghost next = all.take(done + 1);
        let ghost placed = apply_order(keyed_keys(init), order);
        proof {
            lemma_sort_order(keyed_keys(init));
            assert(next.drop_last() =~= init);
            assert(next.last() == pair);
            assert(keyed_keys(next).drop_last() =~= keyed_keys(init));
            assert(keyed_keys(before) =~= placed);
        }
        let mut p: usize = sorted.len();
        proof {
            assert(placed.take(p as int) =~= placed);
        }
        while p > 0 && !keyed_le(&sorted[p - 1], &pair)
            invariant
                p <= sorted@.len(),
                sorted@ == before,
                keyed_keys(before) == placed,
                insert_position(placed, key_of(pair)) == insert_position(
                    placed.take(p as int),
                    key_of(pair),
                ),
            decreases p,
        {
            proof {
                assert(placed.take(p as int).last() == key_of(before[p - 1]));
                assert(placed.take(p as int).drop_last() =~= placed.take(p - 1));
            }
            p -= 1;
        }
        proof {
            if p > 0 {
                assert(placed.take(p as int).last() == key_of(before[p - 1]));
            }
            assert(placed.take(p as int).len() == p);
            assert(insert_position(placed, key_of(pair)) == p);
        }
        sorted.insert(p, pair);
        proof {
            let new_order = sort_order(keyed_keys(next));
            assert(new_order == order.insert(p as int, done));
            assert forall|i: int| 0 <= i < new_order.len() implies sorted@[i]
                == next[new_order[i]] by {
                if i < p {
                    assert(new_order[i] == order[i]);
                    assert(before[i] == init[order[i]]);
                } else if i > p {
                    assert(new_order[i] == order[i - 1]);
                    assert(before[i - 1] == init[order[i - 1]]);
                }
            }
            assert(sorted@ =~= apply_order(next, new_order));
            order = new_order;
            done = done + 1;
        }
    }
    proof {
        assert(all.take(all.len() as int) =~= all);
        lemma_sort_order(keyed_keys(all));
    }
    let ghost ranked = sorted@;
    let ghost mut count: int = 0;
    let mut out: Vec<T> = Vec::new();
    for pair in it: sorted
        invariant
            it.seq() == ranked,
            count == it.index(),
            0 <= count <= ranked.len(),
            out@ == keyed_items(ranked).take(count),
    {
        proof {
            assert(keyed_items(ranked).take(count + 1) =~= keyed_items(ranked).take(count).push(
                pair.item,
            ));
            count = count + 1;
        }
        out.push(pair.item);
    }
    proof {
        assert(keyed_items(ranked).take(ranked.len() as int) =~= keyed_items(ranked));
        assert(keyed_items(ranked) =~= apply_order(keyed_items(all), order));
    }
    out
}

} // verus!
