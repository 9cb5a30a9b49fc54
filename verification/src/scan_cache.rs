//! The per-file statistics cache: its entries, the in-memory map from path
//! to entry, the conversion from and to stored rows, and the removal of
//! entries whose path a scan no longer reports.

use vstd::prelude::*;
use crate::path_map::PathMap;
use crate::types::{candidate_views, string_views, Candidate, CandidateView};

verus! {

/// Cached statistics of one file.
#[derive(Debug)]
pub struct CacheEntry {
    pub last_modified: String,
    pub size: u64,
    pub lines: usize,
    pub tokens: usize,
}

/// Mathematical model of a [`CacheEntry`].
pub struct CacheEntryView {
    pub last_modified: Seq<char>,
    pub size: nat,
    pub lines: nat,
    pub tokens: nat,
}

impl View for CacheEntry {
    type V = CacheEntryView;

    open spec fn view(&self) -> CacheEntryView {
        CacheEntryView {
            last_modified: self.last_modified@,
            size: self.size as nat,
            lines: self.lines as nat,
            tokens: self.tokens as nat,
        }
    }
}

impl Clone for CacheEntry {
    fn clone(&self) -> (out: Self)
        ensures
            out == *self,
    {
        CacheEntry {
            last_modified: self.last_modified.clone(),
            size: self.size,
            lines: self.lines,
            tokens: self.tokens,
        }
    }
}

/// One stored row of the cache table: the path and the four columns.
#[derive(Debug)]
pub struct CacheRow {
    pub file_path: String,
    pub last_modified: String,
    pub size: i64,
    pub lines: i64,
    pub tokens: i64,
}

/// The in-memory cache: from absolute path to the entry of that file.
pub type CacheMap = PathMap<CacheEntry>;

/// The entry that a stored row stands for. The three numbers are stored as
/// signed 64-bit integers and read back by their bits.
pub open spec fn entry_of_row(row: CacheRow) -> CacheEntry {
    CacheEntry {
        last_modified: row.last_modified,
        size: row.size as u64,
        lines: row.lines as usize,
        tokens: row.tokens as usize,
    }
}

/// The map that a sequence of rows stands for; where two rows name one path
/// the later one counts.
pub open spec fn rows_map(rows: Seq<CacheRow>) -> Map<Seq<char>, CacheEntry>
    decreases rows.len(),
{
    if rows.len() == 0 {
        Map::empty()
    } else {
        rows_map(rows.drop_last()).insert(rows.last().file_path@, entry_of_row(rows.last()))
    }
}

/// Builds the in-memory cache from the stored rows.
pub fn load_cache_entries(rows: Vec<CacheRow>) -> (map: CacheMap)
    ensures
        map.wf(),
        map@ == rows_map(rows@),
{
    let mut map: CacheMap = PathMap::new();
    let ghost all = rows@;
    let ghost mut done: int = 0;
    for row in it: rows
        invariant
            it.seq() == all,
            done == it.index(),
            0 <= done <= all.len(),
            map.wf(),
            map@ == rows_map(all.take(done)),
    {
        proof {
            assert(all.take(done + 1).drop_last() =~= all.take(done));
            assert(all.take(done + 1).last() == row);
            done = done + 1;
        }
        let entry = CacheEntry {
            last_modified: row.last_modified,
            size: row.size as u64,
            lines: row.lines as usize,
            tokens: row.tokens as usize,
        };
        map.insert(row.file_path, entry);
    }
    proof {
        assert(all.take(all.len() as int) =~= all);
    }
    map
}

/// The row under which `entry` is stored for the file at `file_path`.
pub fn save_cache_entry(file_path: &str, entry: &CacheEntry) -> (row: CacheRow)
    ensures
        row.file_path@ == file_path@,
        row.last_modified == entry.last_modified,
        row.size == entry.size as i64,
        row.lines == entry.lines as i64,
        row.tokens == entry.tokens as i64,
        entry_of_row(row) == *entry,
{
    proof {
        lemma_size_roundtrip(entry.size);
        lemma_count_roundtrip(entry.lines);
        lemma_count_roundtrip(entry.tokens);
    }
    CacheRow {
        file_path: file_path.to_owned(),
        last_modified: entry.last_modified.clone(),
        size: entry.size as i64,
        lines: entry.lines as i64,
        tokens: entry.tokens as i64,
    }
}

/// The paths that a list of candidates names.
pub open spec fn candidate_paths(valid: Seq<CandidateView>) -> Set<Seq<char>> {
    Set::new(|p: Seq<char>| exists|i: int| 0 <= i < valid.len() && #[trigger] valid[i].path == p)
}

/// Takes out of the cache every entry whose path is not among the valid
/// candidates, and returns the paths taken out, in ascending order: the rows
/// to delete from the store.
pub fn cleanup_removed_files(valid_paths: &Vec<Candidate>, cache_map: &mut CacheMap) -> (removed:
    Vec<String>)
    requires
        old(cache_map).wf(),
    ensures
        final(cache_map).wf(),
        final(cache_map)@ == old(cache_map)@.restrict(candidate_paths(candidate_views(valid_paths@))),
        forall|p: Seq<char>|
            string_views(removed@).contains(p) <==> old(cache_map)@.contains_key(p)
                && !candidate_paths(candidate_views(valid_paths@)).contains(p),
        string_views(removed@).no_duplicates(),
{
    let ghost valid = candidate_views(valid_paths@);
    let mut keep: PathMap<bool> = PathMap::new();
    let mut i: usize = 0;
    while i < valid_paths.len()
        invariant
            i <= valid_paths.len(),
            valid == candidate_views(valid_paths@),
            keep.wf(),
            keep@.dom() =~= candidate_paths(valid.take(i as int)),
        decreases valid_paths.len() - i,
    {
        keep.insert(valid_paths[i].path.clone(), true);
        proof {
            let p = valid[i as int].path;
            let next = valid.take(i + 1);
            assert(next[i as int].path == p);
            assert forall|q: Seq<char>| candidate_paths(next).contains(q) <==> (q == p
                || candidate_paths(valid.take(i as int)).contains(q)) by {
                if candidate_paths(next).contains(q) {
                    let j = choose|j: int| 0 <= j < next.len() && #[trigger] next[j].path == q;
                    if j < i {
                        assert(valid.take(i as int)[j].path == q);
                    }
                }
                if candidate_paths(valid.take(i as int)).contains(q) {
                    let j = choose|j: int|
                        0 <= j < i && #[trigger] valid.take(i as int)[j].path == q;
                    assert(next[j].path == q);
                }
            }
        }
        i += 1;
    }
    proof {
        assert(valid.take(valid_paths.len() as int) =~= valid);
    }
    let removed = cache_map.retain_keys_of(&keep);
    proof {
        crate::path_map::lemma_sorted_no_duplicates(string_views(removed@));
    }
    removed
}

/// A stored size read back is the size that was stored.
pub proof fn lemma_size_roundtrip(v: u64)
    ensures
        (v as i64) as u64 == v,
{
    assert((v as i64) as u64 == v) by (bit_vector);
}

/// A stored count read back is the count that was stored.
pub proof fn lemma_count_roundtrip(v: usize)
    ensures
        (v as i64) as usize == v,
{
    assert((v as i64) as usize == v) by (bit_vector);
}

} // verus!
