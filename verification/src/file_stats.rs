//! The per-file stage of a scan: whether a file is skipped, served from
//! the cache or read again, and the cache entry that a read yields.

use vstd::prelude::*;
use crate::scan_cache::{
    candidate_paths, cleanup_removed_files, save_cache_entry, CacheEntry, CacheMap, CacheRow,
};
use crate::text::{count_lines, line_count, string_chars};
use crate::types::{candidate_views, string_views, Candidate, CandidateView};
use crate::utils::{approximate_token_count, token_count_of, Tokenizer};

verus! {

/// Files larger than this many bytes are not read: 5 MiB.
pub const MAX_FILE_SIZE_BYTES: u64 = 5242880;

/// What the file system says of a file.
#[derive(Debug)]
pub struct FileMeta {
    pub size: u64,
    pub last_modified: String,
}

/// What the scan does with a candidate.
#[derive(Debug, Clone, Copy, PartialEq, Eq, Structural)]
pub enum StatDecision {
    /// Neither counted nor cached.
    Skip,
    /// The cached entry stands.
    Reuse,
    /// The file is read and its entry made anew.
    Recompute,
}

/// Whether the cache is out of date for a file: it holds no entry, or one
/// with another modification time or another size.
pub open spec fn is_stale(cached: Option<CacheEntry>, last_modified: Seq<char>, size: u64) -> bool {
    match cached {
        None => true,
        Some(e) => e.last_modified@ != last_modified || e.size != size,
    }
}

/// What the scan does with a candidate: directories, files whose metadata
/// cannot be read, empty files and files over the size limit are skipped;
/// of the others the stale ones are read again.
pub open spec fn decision_for(is_dir: bool, meta: Option<FileMeta>, cached: Option<CacheEntry>) -> StatDecision {
    if is_dir {
        StatDecision::Skip
    } else {
        match meta {
            None => StatDecision::Skip,
            Some(m) => if m.size == 0 || m.size > MAX_FILE_SIZE_BYTES {
                StatDecision::Skip
            } else if is_stale(cached, m.last_modified@, m.size) {
                StatDecision::Recompute
            } else {
                StatDecision::Reuse
            },
        }
    }
}

/// Decides what the scan does with a candidate, from its kind, its
/// metadata where they could be read, and its cache entry where there is
/// one.
pub fn decide(is_dir: bool, meta: Option<&FileMeta>, cached: Option<&CacheEntry>) -> (d: StatDecision)
    ensures
        d == decision_for(
            is_dir,
            match meta {
                Some(m) => Some(*m),
                None => None,
            },
            match cached {
                Some(e) => Some(*e),
                None => None,
            },
        ),
{
    if is_dir {
        return StatDecision::Skip;
    }
    match meta {
        None => StatDecision::Skip,
        Some(m) => {
            if m.size == 0 || m.size > MAX_FILE_SIZE_BYTES {
                StatDecision::Skip
            } else {
                match cached {
                    None => StatDecision::Recompute,
                    Some(e) => {
                        if e.last_modified != m.last_modified || e.size != m.size {
                            StatDecision::Recompute
                        } else {
                            StatDecision::Reuse
                        }
                    },
                }
            }
        },
    }
}

/// Decides what the scan does with the file at `path`, looking its entry
/// up in the cache.
pub fn decide_for_path(path: &str, is_dir: bool, meta: Option<&FileMeta>, cache_map: &CacheMap) -> (d:
    StatDecision)
    requires
        cache_map.wf(),
    ensures
        d == decision_for(
            is_dir,
            match meta {
                Some(m) => Some(*m),
                None => None,
            },
            if cache_map@.contains_key(path@) {
                Some(cache_map@[path@])
            } else {
                None
            },
        ),
{
    decide(is_dir, meta, cache_map.get(path))
}

/// The entry of a file that was read: its metadata, the number of its
/// lines and of its tokens. Where the content could not be read both
/// counts are zero, so that the file is not read again at every scan.
pub open spec fn entry_matches(
    entry: CacheEntry,
    meta: FileMeta,
    content: Option<Seq<char>>,
    tokenizer_available: bool,
) -> bool {
    &&& entry.last_modified@ == meta.last_modified@
    &&& entry.size == meta.size
    &&& match content {
        Some(text) => entry.lines == line_count(text) && entry.tokens == token_count_of(
            tokenizer_available,
            text,
        ),
        None => entry.lines == 0 && entry.tokens == 0,
    }
}

/// Makes the entry of a file that was read, or could not be read.
pub fn fresh_entry(meta: FileMeta, content: Option<&str>, tokenizer: &Tokenizer) -> (entry: CacheEntry)
    ensures
        entry_matches(
            entry,
            meta,
            match content {
                Some(text) => Some(text@),
                None => None,
            },
            tokenizer.available(),
        ),
{
    match content {
        Some(text) => {
            let chars = string_chars(text);
            let lines = count_lines(&chars);
            let tokens = approximate_token_count(tokenizer, text);
            CacheEntry { last_modified: meta.last_modified, size: meta.size, lines, tokens }
        },
        None => CacheEntry { last_modified: meta.last_modified, size: meta.size, lines: 0, tokens: 0 },
    }
}

/// The entry that the cache holds for a candidate after the per-file stage:
/// the fresh entry where the file was read, else what it held before.
pub open spec fn entry_after(decision: StatDecision, cached: Option<CacheEntry>, fresh: CacheEntry) -> Option<
    CacheEntry,
> {
    if decision == StatDecision::Recompute {
        Some(fresh)
    } else {
        cached
    }
}

/// At the scan after this one no candidate is read again while its
/// metadata stay the same: what was skipped is skipped again, and what was
/// served from the cache or read is served from the cache.
pub proof fn lemma_unchanged_candidate_is_not_read_again(
    is_dir: bool,
    meta: Option<FileMeta>,
    cached: Option<CacheEntry>,
    fresh: CacheEntry,
    content: Option<Seq<char>>,
    tokenizer_available: bool,
)
    requires
        meta is Some ==> entry_matches(fresh, meta->0, content, tokenizer_available),
    ensures
        decision_for(is_dir, meta, entry_after(decision_for(is_dir, meta, cached), cached, fresh))
            == if decision_for(is_dir, meta, cached) == StatDecision::Skip {
            StatDecision::Skip
        } else {
            StatDecision::Reuse
        },
{
}

/// A changed entry with the path it belongs to.
#[derive(Debug)]
pub struct ChangedEntry {
    pub path: String,
    pub entry: CacheEntry,
}

/// The cache after the changed entries are put into it, in order.
pub open spec fn with_updates(cache: Map<Seq<char>, CacheEntry>, changed: Seq<ChangedEntry>) -> Map<
    Seq<char>,
    CacheEntry,
>
    decreases changed.len(),
{
    if changed.len() == 0 {
        cache
    } else {
        with_updates(cache, changed.drop_last()).insert(
            changed.last().path@,
            changed.last().entry,
        )
    }
}

/// The cache at the end of a scan: what it held for the paths that are
/// still candidates, with the changed entries put in.
pub open spec fn cache_after_scan(
    cache: Map<Seq<char>, CacheEntry>,
    valid: Seq<CandidateView>,
    changed: Seq<ChangedEntry>,
) -> Map<Seq<char>, CacheEntry> {
    with_updates(cache.restrict(candidate_paths(valid)), changed)
}

/// Every changed entry belongs to one of the candidates.
pub open spec fn changed_among(valid: Seq<CandidateView>, changed: Seq<ChangedEntry>) -> bool {
    forall|i: int| 0 <= i < changed.len() ==> candidate_paths(valid).contains((#[trigger] changed[i]).path@)
}

proof fn lemma_updates_domain(cache: Map<Seq<char>, CacheEntry>, changed: Seq<ChangedEntry>, p: Seq<char>)
    requires
        with_updates(cache, changed).contains_key(p),
    ensures
        cache.contains_key(p) || exists|i: int| 0 <= i < changed.len() && (#[trigger] changed[i]).path@ == p,
    decreases changed.len(),
{
    if changed.len() > 0 {
        if changed.last().path@ == p {
            assert(changed[changed.len() - 1].path@ == p);
        } else {
            lemma_updates_domain(cache, changed.drop_last(), p);
            if !cache.contains_key(p) {
                let i = choose|i: int|
                    0 <= i < changed.drop_last().len() && (#[trigger] changed.drop_last()[i]).path@ == p;
                assert(changed[i].path@ == p);
            }
        }
    }
}

/// A scan that finds the same candidates and no changed file leaves the
/// cache as the scan before it left it: nothing is taken out and nothing
/// is put in.
pub proof fn lemma_rescan_keeps_cache(
    cache: Map<Seq<char>, CacheEntry>,
    valid: Seq<CandidateView>,
    changed: Seq<ChangedEntry>,
)
    requires
        changed_among(valid, changed),
    ensures
        cache_after_scan(cache_after_scan(cache, valid, changed), valid, Seq::empty())
            == cache_after_scan(cache, valid, changed),
{
    let first = cache_after_scan(cache, valid, changed);
    assert forall|p: Seq<char>| first.contains_key(p) implies candidate_paths(valid).contains(p) by {
        lemma_updates_domain(cache.restrict(candidate_paths(valid)), changed, p);
    }
    assert(first.restrict(candidate_paths(valid)) =~= first);
}

/// Puts the changed entries into the cache and returns the rows to store,
/// one per changed entry, in the same order.
pub fn apply_updates(cache_map: &mut CacheMap, changed: &Vec<ChangedEntry>) -> (rows: Vec<CacheRow>)
    requires
        old(cache_map).wf(),
    ensures
        final(cache_map).wf(),
        final(cache_map)@ == with_updates(old(cache_map)@, changed@),
        rows@.len() == changed@.len(),
        forall|i: int|
            0 <= i < rows@.len() ==> (#[trigger] rows@[i]).file_path@ == changed@[i].path@
                && crate::scan_cache::entry_of_row(rows@[i]) == changed@[i].entry,
{
    let mut rows: Vec<CacheRow> = Vec::new();
    let mut i: usize = 0;
    while i < changed.len()
        invariant
            i <= changed.len(),
            cache_map.wf(),
            cache_map@ == with_updates(old(cache_map)@, changed@.take(i as int)),
            rows@.len() == i,
            forall|j: int|
                0 <= j < i ==> (#[trigger] rows@[j]).file_path@ == changed@[j].path@
                    && crate::scan_cache::entry_of_row(rows@[j]) == changed@[j].entry,
        decreases changed.len() - i,
    {
        proof {
            assert(changed@.take(i + 1).drop_last() =~= changed@.take(i as int));
            assert(changed@.take(i + 1).last() == changed@[i as int]);
        }
        let c = &changed[i];
        cache_map.insert(c.path.clone(), c.entry.clone());
        rows.push(save_cache_entry(c.path.as_str(), &c.entry));
        i += 1;
    }
    proof {
        assert(changed@.take(changed.len() as int) =~= changed@);
    }
    rows
}

/// No two changed entries belong to the same path.
pub open spec fn changed_paths_differ(changed: Seq<ChangedEntry>) -> bool {
    forall|i: int, j: int|
        0 <= i < j < changed.len() ==> (#[trigger] changed[i]).path@ != (#[trigger] changed[j]).path@
}

/// Whether one of the changed entries belongs to the path.
pub open spec fn is_changed(changed: Seq<ChangedEntry>, p: Seq<char>) -> bool {
    exists|i: int| 0 <= i < changed.len() && (#[trigger] changed[i]).path@ == p
}

proof fn lemma_updates_lookup(cache: Map<Seq<char>, CacheEntry>, changed: Seq<ChangedEntry>, p: Seq<char>)
    requires
        changed_paths_differ(changed),
    ensures
        is_changed(changed, p) ==> with_updates(cache, changed).contains_key(p),
        forall|i: int|
            0 <= i < changed.len() && (#[trigger] changed[i]).path@ == p ==> with_updates(
                cache,
                changed,
            )[p] == changed[i].entry,
        !is_changed(changed, p) ==> with_updates(cache, changed).contains_key(p)
            == cache.contains_key(p),
        !is_changed(changed, p) && cache.contains_key(p) ==> with_updates(cache, changed)[p]
            == cache[p],
    decreases changed.len(),
{
    if changed.len() > 0 {
        let init = changed.drop_last();
        let n = changed.len() - 1;
        assert(changed_paths_differ(init)) by {
            assert forall|i: int, j: int| 0 <= i < j < init.len() implies (#[trigger] init[i]).path@ != (
            #[trigger] init[j]).path@ by {
                assert(init[i] == changed[i] && init[j] == changed[j]);
            }
        }
        lemma_updates_lookup(cache, init, p);
        if changed[n].path@ == p {
            assert forall|i: int| 0 <= i < changed.len() && (#[trigger] changed[i]).path@
                == p implies i == n by {
                if i < n {
                    assert(changed[i].path@ != changed[n].path@);
                }
            }
        } else {
            assert forall|i: int| 0 <= i < changed.len() && (#[trigger] changed[i]).path@
                == p implies with_updates(cache, changed)[p] == changed[i].entry by {
                assert(init[i] == changed[i]);
            }
            if is_changed(changed, p) {
                let i = choose|i: int| 0 <= i < changed.len() && (#[trigger] changed[i]).path@ == p;
                assert(init[i].path@ == p);
            }
            if is_changed(init, p) {
                let i = choose|i: int| 0 <= i < init.len() && (#[trigger] init[i]).path@ == p;
                assert(changed[i].path@ == p);
            }
        }
    }
}

/// The order in which the changed entries come in does not matter, as long
/// as no path has two of them: the cache ends up the same for any two
/// lists that hold the same entries.
pub proof fn lemma_updates_in_any_order(
    cache: Map<Seq<char>, CacheEntry>,
    a: Seq<ChangedEntry>,
    b: Seq<ChangedEntry>,
)
    requires
        changed_paths_differ(a),
        changed_paths_differ(b),
        forall|x: ChangedEntry| a.contains(x) <==> b.contains(x),
    ensures
        with_updates(cache, a) == with_updates(cache, b),
{
    let left = with_updates(cache, a);
    let right = with_updates(cache, b);
    assert forall|p: Seq<char>|
        #![trigger left.dom().contains(p)]
        #![trigger right.dom().contains(p)]
        #![trigger left[p]]
        #![trigger right[p]]
        left.dom().contains(p) == right.dom().contains(p) && (left.dom().contains(p) ==> left[p]
            == right[p]) by {
        lemma_updates_lookup(cache, a, p);
        lemma_updates_lookup(cache, b, p);
        if is_changed(a, p) {
            let i = choose|i: int| 0 <= i < a.len() && (#[trigger] a[i]).path@ == p;
            assert(a.contains(a[i]));
            assert(b.contains(a[i]));
            let j = choose|j: int| 0 <= j < b.len() && b[j] == a[i];
            assert(b[j].path@ == p);
        } else if is_changed(b, p) {
            let j = choose|j: int| 0 <= j < b.len() && (#[trigger] b[j]).path@ == p;
            assert(b.contains(b[j]));
            assert(a.contains(b[j]));
            let i = choose|i: int| 0 <= i < a.len() && a[i] == b[j];
            assert(a[i].path@ == p);
        }
    }
    assert(left =~= right);
}

/// What the store is told at the end of a scan, in one transaction: the
/// paths whose rows are deleted, then the rows that are written.
#[derive(Debug)]
pub struct CommitPlan {
    pub removed: Vec<String>,
    pub rows: Vec<CacheRow>,
}

/// Brings the cache to its state at the end of a scan and says what the
/// store is told: first every entry whose path is no longer a candidate
/// goes, then the changed entries are put in.
pub fn plan_commit(valid_paths: &Vec<Candidate>, cache_map: &mut CacheMap, changed: &Vec<ChangedEntry>) -> (plan:
    CommitPlan)
    requires
        old(cache_map).wf(),
    ensures
        final(cache_map).wf(),
        final(cache_map)@ == cache_after_scan(
            old(cache_map)@,
            candidate_views(valid_paths@),
            changed@,
        ),
        forall|p: Seq<char>|
            string_views(plan.removed@).contains(p) <==> old(cache_map)@.contains_key(p)
                && !candidate_paths(candidate_views(valid_paths@)).contains(p),
        string_views(plan.removed@).no_duplicates(),
        plan.rows@.len() == changed@.len(),
        forall|i: int|
            0 <= i < plan.rows@.len() ==> (#[trigger] plan.rows@[i]).file_path@ == changed@[i].path@
                && crate::scan_cache::entry_of_row(plan.rows@[i]) == changed@[i].entry,
{
    let removed = cleanup_removed_files(valid_paths, cache_map);
    let rows = apply_updates(cache_map, changed);
    CommitPlan { removed, rows }
}

/// Whether a progress update is sent for an item of the per-file stage:
/// where the throttle lets it through, and always for the last item.
pub fn should_emit_progress(throttle_free: bool, processed: usize, total: usize) -> (emit: bool)
    ensures
        emit == (throttle_free || processed == total),
{
    throttle_free || processed == total
}

} // verus!
