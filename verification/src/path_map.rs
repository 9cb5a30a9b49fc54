//! A map keyed by path strings, kept as a vector sorted by key so that
//! lookups are binary searches.

use vstd::prelude::*;
use crate::text::{
    lemma_str_le_antisymmetric, lemma_str_le_total, lemma_str_le_transitive, rank_strings,
    str_le, Rank,
};

verus! {

/// `a` comes strictly before `b` in the order of strings.
pub open spec fn str_lt(a: Seq<char>, b: Seq<char>) -> bool {
    str_le(a, b) && a != b
}

/// Every key comes strictly before the keys behind it.
pub open spec fn strictly_sorted(keys: Seq<Seq<char>>) -> bool {
    forall|i: int, j: int| 0 <= i < j < keys.len() ==> str_lt(#[trigger] keys[i], #[trigger] keys[j])
}

/// One key with its value.
pub struct Slot<V> {
    pub key: String,
    pub value: V,
}

/// The keys of a sequence of slots, in order.
pub open spec fn slot_keys<V>(slots: Seq<Slot<V>>) -> Seq<Seq<char>> {
    Seq::new(slots.len(), |i: int| slots[i].key@)
}

/// The values of a sequence of slots, in order.
pub open spec fn slot_values<V>(slots: Seq<Slot<V>>) -> Seq<V> {
    Seq::new(slots.len(), |i: int| slots[i].value)
}

/// The map that holds `values[i]` under `keys[i]`.
pub open spec fn map_of<V>(keys: Seq<Seq<char>>, values: Seq<V>) -> Map<Seq<char>, V> {
    Map::new(|k: Seq<char>| keys.contains(k), |k: Seq<char>| values[keys.index_of(k)])
}

/// In a strictly sorted sequence a key stands at one index only.
pub proof fn lemma_sorted_index(keys: Seq<Seq<char>>, i: int)
    requires
        strictly_sorted(keys),
        0 <= i < keys.len(),
    ensures
        keys.contains(keys[i]),
        keys.index_of(keys[i]) == i,
{
    let k = keys[i];
    assert(keys.contains(k));
    let j = keys.index_of(k);
    if j < i {
        assert(str_lt(keys[j], keys[i]));
    } else if i < j {
        assert(str_lt(keys[i], keys[j]));
    }
}

/// A strictly sorted sequence holds no key twice.
pub proof fn lemma_sorted_no_duplicates(keys: Seq<Seq<char>>)
    requires
        strictly_sorted(keys),
    ensures
        keys.no_duplicates(),
{
    assert forall|i: int, j: int| 0 <= i < keys.len() && 0 <= j < keys.len() && i != j implies keys[i]
        != keys[j] by {
        if i < j {
            assert(str_lt(keys[i], keys[j]));
        } else {
            assert(str_lt(keys[j], keys[i]));
        }
    }
}

/// A map from path strings to values of type `V`.
pub struct PathMap<V> {
    slots: Vec<Slot<V>>,
}

impl<V> View for PathMap<V> {
    type V = Map<Seq<char>, V>;

    closed spec fn view(&self) -> Map<Seq<char>, V> {
        map_of(slot_keys(self.slots@), slot_values(self.slots@))
    }
}

impl<V> PathMap<V> {
    /// The representation is in order: the keys are strictly ascending.
    pub closed spec fn wf(&self) -> bool {
        strictly_sorted(slot_keys(self.slots@))
    }

    /// The keys of the map, in ascending order.
    pub closed spec fn keys(&self) -> Seq<Seq<char>> {
        slot_keys(self.slots@)
    }

    /// The values of the map, in the order of their keys.
    pub closed spec fn values(&self) -> Seq<V> {
        slot_values(self.slots@)
    }

    /// An empty map.
    pub fn new() -> (m: Self)
        ensures
            m.wf(),
            m@ == Map::<Seq<char>, V>::empty(),
            m.keys() == Seq::<Seq<char>>::empty(),
    {
        let m = PathMap { slots: Vec::new() };
        proof {
            assert(slot_keys(m.slots@) =~= Seq::<Seq<char>>::empty());
            assert(m@ =~= Map::<Seq<char>, V>::empty());
        }
        m
    }

    /// Number of keys. The keys are strictly ascending, each value stands
    /// under the key of its index, and the map holds nothing else.
    pub fn len(&self) -> (n: usize)
        requires
            self.wf(),
        ensures
            n == self.keys().len(),
            strictly_sorted(self.keys()),
            self.keys().len() == self.values().len(),
            self@ == map_of(self.keys(), self.values()),
            forall|k: Seq<char>| self@.contains_key(k) <==> self.keys().contains(k),
            forall|i: int|
                0 <= i < self.keys().len() ==> self@.contains_key(#[trigger] self.keys()[i])
                    && self@[self.keys()[i]] == self.values()[i],
    {
        proof {
            let keys = self.keys();
            assert forall|i: int| 0 <= i < keys.len() implies self@.contains_key(
                #[trigger] keys[i],
            ) && self@[keys[i]] == self.values()[i] by {
                lemma_sorted_index(keys, i);
            }
        }
        self.slots.len()
    }

    /// The key at position `i` of the ascending order.
    pub fn key_at(&self, i: usize) -> (k: &String)
        requires
            i < self.keys().len(),
        ensures
            k@ == self.keys()[i as int],
    {
        &self.slots[i].key
    }

    /// The value at position `i` of the ascending order of keys.
    pub fn value_at(&self, i: usize) -> (v: &V)
        requires
            self.wf(),
            i < self.keys().len(),
        ensures
            *v == self.values()[i as int],
            self@.contains_key(self.keys()[i as int]),
            *v == self@[self.keys()[i as int]],
    {
        proof {
            lemma_sorted_index(slot_keys(self.slots@), i as int);
        }
        &self.slots[i].value
    }

    /// Binary search: whether `key` is present, and the index at which it
    /// stands or would have to be inserted.
    fn find(&self, key: &str) -> (r: (bool, usize))
        requires
            self.wf(),
        ensures
            r.1 <= self.slots@.len(),
            r.0 ==> r.1 < self.slots@.len() && self.slots@[r.1 as int].key@ == key@,
            !r.0 ==> !slot_keys(self.slots@).contains(key@),
            !r.0 ==> forall|i: int| 0 <= i < r.1 ==> str_lt(self.slots@[i].key@, key@),
            !r.0 ==> forall|i: int|
                r.1 <= i < self.slots@.len() ==> str_lt(key@, self.slots@[i].key@),
    {
        let ghost keys = slot_keys(self.slots@);
        let mut lo: usize = 0;
        let mut hi: usize = self.slots.len();
        while lo < hi
            invariant
                lo <= hi <= self.slots@.len(),
                keys == slot_keys(self.slots@),
                strictly_sorted(keys),
                forall|i: int| 0 <= i < lo ==> str_lt(#[trigger] keys[i], key@),
                forall|i: int| hi <= i < keys.len() ==> str_lt(key@, #[trigger] keys[i]),
            decreases hi - lo,
        {
            let mid = lo + (hi - lo) / 2;
            let rank = rank_strings(self.slots[mid].key.as_str(), key);
            assert(keys[mid as int] == self.slots@[mid as int].key@);
            match rank {
                Rank::Same => {
                    return (true, mid);
                },
                Rank::Before => {
                    proof {
                        assert forall|i: int| 0 <= i < mid + 1 implies str_lt(
                            #[trigger] keys[i],
                            key@,
                        ) by {
                            if i < mid {
                                assert(str_lt(keys[i], keys[mid as int]));
                                lemma_str_le_transitive(keys[i], keys[mid as int], key@);
                                if keys[i] == key@ {
                                    lemma_str_le_antisymmetric(keys[i], keys[mid as int]);
                                }
                            }
                        }
                    }
                    lo = mid + 1;
                },
                Rank::After => {
                    proof {
                        lemma_str_le_total(keys[mid as int], key@);
                        assert forall|i: int| mid <= i < keys.len() implies str_lt(
                            key@,
                            #[trigger] keys[i],
                        ) by {
                            if mid < i {
                                assert(str_lt(keys[mid as int], keys[i]));
                                lemma_str_le_transitive(key@, keys[mid as int], keys[i]);
                                if keys[i] == key@ {
                                    lemma_str_le_antisymmetric(keys[i], keys[mid as int]);
                                }
                            }
                        }
                    }
                    hi = mid;
                },
            }
        }
        proof {
            if keys.contains(key@) {
                let i = keys.index_of(key@);
                if i < lo {
                    assert(str_lt(keys[i], key@));
                } else {
                    assert(str_lt(key@, keys[i]));
                }
            }
            assert forall|i: int| 0 <= i < lo implies str_lt(self.slots@[i].key@, key@) by {
                assert(keys[i] == self.slots@[i].key@);
            }
            assert forall|i: int| lo <= i < self.slots@.len() implies str_lt(
                key@,
                self.slots@[i].key@,
            ) by {
                assert(keys[i] == self.slots@[i].key@);
            }
        }
        (false, lo)
    }

    /// Whether the map holds `key`.
    pub fn contains_key(&self, key: &str) -> (b: bool)
        requires
            self.wf(),
        ensures
            b == self@.contains_key(key@),
    {
        let (found, at) = self.find(key);
        proof {
            if found {
                assert(slot_keys(self.slots@)[at as int] == key@);
            }
        }
        found
    }

    /// The value under `key`, if the map holds one.
    pub fn get(&self, key: &str) -> (r: Option<&V>)
        requires
            self.wf(),
        ensures
            r is Some <==> self@.contains_key(key@),
            r is Some ==> *r->0 == self@[key@],
    {
        let (found, at) = self.find(key);
        if found {
            proof {
                    assert(slot_keys(self.slots@)[at as int] == key@);
                lemma_sorted_index(slot_keys(self.slots@), at as int);
            }
            Some(&self.slots[at].value)
        } else {
            None
        }
    }

    /// Puts `value` under `key`, in place of an earlier value if there is
    /// one.
    pub fn insert(&mut self, key: String, value: V)
        requires
            old(self).wf(),
        ensures
            final(self).wf(),
            final(self)@ == old(self)@.insert(key@, value),
    {
        let (found, at) = self.find(key.as_str());
        let ghost before = self.slots@;
        if found {
            self.slots.remove(at);
        }
        let ghost middle = self.slots@;
        proof {
            let mk = slot_keys(middle);
            let bk = slot_keys(before);
            if found {
                assert forall|i: int, j: int| 0 <= i < j < mk.len() implies str_lt(
                    #[trigger] mk[i],
                    #[trigger] mk[j],
                ) by {
                    let ii = if i < at { i } else { i + 1 };
                    let jj = if j < at { j } else { j + 1 };
                    assert(mk[i] == bk[ii]);
                    assert(mk[j] == bk[jj]);
                }
            } else {
                assert(mk =~= bk);
            }
        }
        self.slots.insert(at, Slot { key, value });
        proof {
            let mk = slot_keys(middle);
            let bk = slot_keys(before);
            let nk = slot_keys(self.slots@);
            let nv = slot_values(self.slots@);
            assert forall|i: int| 0 <= i < at implies str_lt(#[trigger] mk[i], key@) by {
                assert(mk[i] == bk[i]);
                if found {
                    assert(str_lt(bk[i], bk[at as int]));
                } else {
                    assert(bk[i] == before[i].key@);
                }
            }
            assert forall|i: int| at <= i < mk.len() implies str_lt(key@, #[trigger] mk[i]) by {
                if found {
                    assert(mk[i] == bk[i + 1]);
                    assert(str_lt(bk[at as int], bk[i + 1]));
                } else {
                    assert(mk[i] == bk[i]);
                    assert(bk[i] == before[i].key@);
                }
            }
            assert forall|i: int, j: int| 0 <= i < j < nk.len() implies str_lt(
                #[trigger] nk[i],
                #[trigger] nk[j],
            ) by {
                if i == at {
                    assert(nk[j] == mk[j - 1]);
                } else if j == at {
                    assert(nk[i] == mk[i]);
                } else {
                    let ii = if i < at { i } else { i - 1 };
                    let jj = if j < at { j } else { j - 1 };
                    assert(nk[i] == mk[ii]);
                    assert(nk[j] == mk[jj]);
                    if i < at && j > at {
                        lemma_str_le_transitive(mk[ii], key@, mk[jj]);
                        if mk[ii] == mk[jj] {
                            lemma_str_le_antisymmetric(mk[ii], key@);
                        }
                    }
                }
            }
            let target = map_of(bk, slot_values(before)).insert(key@, value);
            let result = map_of(nk, nv);
            assert(nk[at as int] == key@);
            assert forall|k: Seq<char>| result.contains_key(k) <==> target.contains_key(k) by {
                if result.contains_key(k) {
                    let i = nk.index_of(k);
                    if i != at {
                        let ii = if i < at { i } else { i - 1 };
                        assert(mk[ii] == k);
                        if found {
                            let bi = if ii < at { ii } else { ii + 1 };
                            assert(bk[bi] == k);
                        } else {
                            assert(bk[ii] == k);
                        }
                    }
                }
                if target.contains_key(k) && k != key@ {
                    let bi = bk.index_of(k);
                    if found {
                        assert(bi != at);
                        let mi = if bi < at { bi } else { bi - 1 };
                        assert(mk[mi] == k);
                        let ni = if mi < at { mi } else { mi + 1 };
                        assert(nk[ni] == k);
                    } else {
                        assert(mk[bi] == k);
                        let ni = if bi < at { bi } else { bi + 1 };
                        assert(nk[ni] == k);
                    }
                }
            }
            assert forall|k: Seq<char>| result.contains_key(k) implies result[k] == target[k] by {
                let i = nk.index_of(k);
                lemma_sorted_index(nk, i);
                if i == at {
                    assert(nv[i] == value);
                } else {
                    let ii = if i < at { i } else { i - 1 };
                    let bi = if found && ii >= at { ii + 1 } else { ii };
                    assert(mk[ii] == k);
                    assert(bk[bi] == k);
                    lemma_sorted_index(bk, bi);
                    assert(nv[i] == middle[ii].value);
                    assert(middle[ii].value == before[bi].value);
                    assert(k != key@) by {
                        if k == key@ {
                            assert(nk[i] == nk[at as int]);
                            lemma_sorted_index(nk, at as int);
                        }
                    }
                }
            }
            assert(result =~= target);
        }
    }

    /// Takes `key` and its value out of the map, if it is there.
    pub fn remove(&mut self, key: &str)
        requires
            old(self).wf(),
        ensures
            final(self).wf(),
            final(self)@ == old(self)@.remove(key@),
    {
        let (found, at) = self.find(key);
        let ghost before = self.slots@;
        if found {
            self.slots.remove(at);
            proof {
                let bk = slot_keys(before);
                let nk = slot_keys(self.slots@);
                assert forall|i: int, j: int| 0 <= i < j < nk.len() implies str_lt(
                    #[trigger] nk[i],
                    #[trigger] nk[j],
                ) by {
                    let ii = if i < at { i } else { i + 1 };
                    let jj = if j < at { j } else { j + 1 };
                    assert(nk[i] == bk[ii]);
                    assert(nk[j] == bk[jj]);
                }
                let target = map_of(bk, slot_values(before)).remove(key@);
                let result = map_of(nk, slot_values(self.slots@));
                assert(bk[at as int] == key@);
                lemma_sorted_index(bk, at as int);
                assert forall|k: Seq<char>| result.contains_key(k) <==> target.contains_key(
                    k,
                ) by {
                    if result.contains_key(k) {
                        let i = nk.index_of(k);
                        let bi = if i < at { i } else { i + 1 };
                        assert(bk[bi] == k);
                        lemma_sorted_index(bk, bi);
                    }
                    if target.contains_key(k) {
                        let bi = bk.index_of(k);
                        assert(bi != at);
                        let ni = if bi < at { bi } else { bi - 1 };
                        assert(nk[ni] == k);
                    }
                }
                assert forall|k: Seq<char>| result.contains_key(k) implies result[k] == target[k] by {
                    let i = nk.index_of(k);
                    lemma_sorted_index(nk, i);
                    let bi = if i < at { i } else { i + 1 };
                    assert(bk[bi] == k);
                    lemma_sorted_index(bk, bi);
                }
                assert(result =~= target);
            }
        } else {
            proof {
                assert(self@ =~= self@.remove(key@));
            }
        }
    }
    /// Keeps the keys that `keep` holds too and takes the others out; the
    /// keys taken out are returned in ascending order.
    pub fn retain_keys_of<W>(&mut self, keep: &PathMap<W>) -> (removed: Vec<String>)
        requires
            old(self).wf(),
            keep.wf(),
        ensures
            final(self).wf(),
            final(self)@ == old(self)@.restrict(keep@.dom()),
            strictly_sorted(crate::types::string_views(removed@)),
            forall|p: Seq<char>|
                crate::types::string_views(removed@).contains(p) <==> old(self)@.contains_key(p)
                    && !keep@.contains_key(p),
    {
        let mut taken: Vec<Slot<V>> = Vec::new();
        core::mem::swap(&mut taken, &mut self.slots);
        let ghost before = taken@;
        let ghost bk = slot_keys(before);
        let ghost mut src: Seq<int> = Seq::empty();
        let ghost mut out: Seq<int> = Seq::empty();
        let ghost mut done: int = 0;
        let mut removed: Vec<String> = Vec::new();
        for slot in it: taken
            invariant
                it.seq() == before,
                done == it.index(),
                0 <= done <= before.len(),
                bk == slot_keys(before),
                strictly_sorted(bk),
                keep.wf(),
                src.len() == self.slots@.len(),
                forall|x: int|
                    0 <= x < src.len() ==> 0 <= #[trigger] src[x] < done && before[src[x]]
                        == self.slots@[x] && keep@.contains_key(bk[src[x]]),
                forall|x: int, y: int| 0 <= x < y < src.len() ==> src[x] < src[y],
                forall|j: int| 0 <= j < done && keep@.contains_key(#[trigger] bk[j]) ==> src.contains(j),
                out.len() == removed@.len(),
                forall|x: int|
                    0 <= x < out.len() ==> 0 <= #[trigger] out[x] < done && bk[out[x]]
                        == removed@[x]@ && !keep@.contains_key(bk[out[x]]),
                forall|x: int, y: int| 0 <= x < y < out.len() ==> out[x] < out[y],
                forall|j: int| 0 <= j < done && !keep@.contains_key(#[trigger] bk[j]) ==> out.contains(j),
        {
            let ghost i = done;
            proof {
                assert(bk[i] == slot.key@);
            }
            if keep.contains_key(slot.key.as_str()) {
                let ghost prev_src = src;
                self.slots.push(slot);
                proof {
                    src = src.push(i);
                    assert forall|j: int|
                        0 <= j < i + 1 && keep@.contains_key(#[trigger] bk[j]) implies src.contains(
                        j,
                    ) by {
                        if j < i {
                            assert(prev_src.contains(j));
                            let x = prev_src.index_of(j);
                            assert(src[x] == j);
                        } else {
                            assert(src[src.len() - 1] == j);
                        }
                    }
                }
            } else {
                let ghost prev_out = out;
                removed.push(slot.key);
                proof {
                    out = out.push(i);
                    assert forall|j: int|
                        0 <= j < i + 1 && !keep@.contains_key(#[trigger] bk[j]) implies out.contains(
                        j,
                    ) by {
                        if j < i {
                            assert(prev_out.contains(j));
                            let x = prev_out.index_of(j);
                            assert(out[x] == j);
                        } else {
                            assert(out[out.len() - 1] == j);
                        }
                    }
                }
            }
            proof {
                done = done + 1;
            }
        }
        proof {
            let nk = slot_keys(self.slots@);
            let nv = slot_values(self.slots@);
            assert forall|x: int| 0 <= x < nk.len() implies nk[x] == bk[src[x]] by {
                assert(before[src[x]] == self.slots@[x]);
            }
            assert forall|a: int, b: int| 0 <= a < b < nk.len() implies str_lt(
                #[trigger] nk[a],
                #[trigger] nk[b],
            ) by {
                assert(nk[a] == bk[src[a]]);
                assert(nk[b] == bk[src[b]]);
                assert(src[a] < src[b]);
            }
            let target = map_of(bk, slot_values(before)).restrict(keep@.dom());
            let result = map_of(nk, nv);
            assert forall|k: Seq<char>| result.contains_key(k) <==> target.contains_key(k) by {
                if result.contains_key(k) {
                    let x = nk.index_of(k);
                    assert(nk[x] == bk[src[x]]);
                    assert(bk[src[x]] == k);
                }
                if target.contains_key(k) {
                    let j = bk.index_of(k);
                    assert(bk[j] == k);
                    assert(src.contains(j));
                    let x = src.index_of(j);
                    assert(nk[x] == bk[src[x]]);
                }
            }
            assert forall|k: Seq<char>| result.contains_key(k) implies result[k] == target[k] by {
                let x = nk.index_of(k);
                lemma_sorted_index(nk, x);
                assert(nk[x] == bk[src[x]]);
                lemma_sorted_index(bk, src[x]);
                assert(before[src[x]] == self.slots@[x]);
            }
            assert(result =~= target);
            let names = crate::types::string_views(removed@);
            assert forall|a: int, b: int| 0 <= a < b < names.len() implies str_lt(
                #[trigger] names[a],
                #[trigger] names[b],
            ) by {
                assert(names[a] == bk[out[a]]);
                assert(names[b] == bk[out[b]]);
                assert(out[a] < out[b]);
            }
            assert forall|p: Seq<char>| names.contains(p) <==> map_of(
                bk,
                slot_values(before),
            ).contains_key(p) && !keep@.contains_key(p) by {
                if names.contains(p) {
                    let x = names.index_of(p);
                    assert(names[x] == bk[out[x]]);
                    assert(bk.contains(p));
                }
                if bk.contains(p) && !keep@.contains_key(p) {
                    let j = bk.index_of(p);
                    assert(bk[j] == p);
                    assert(out.contains(j));
                    let x = out.index_of(j);
                    assert(names[x] == p);
                }
            }
        }
        removed
    }
}

} // verus!
