use code_context_builder::file_stats::{
    apply_updates, decide, decide_for_path, fresh_entry, plan_commit, should_emit_progress,
    ChangedEntry, FileMeta, StatDecision, MAX_FILE_SIZE_BYTES,
};
use code_context_builder::path_map::PathMap;
use code_context_builder::scan_cache::{
    cleanup_removed_files, load_cache_entries, save_cache_entry, CacheEntry, CacheMap, CacheRow,
};
use code_context_builder::types::Candidate;
use code_context_builder::utils::{
    approximate_token_count, count_from_encoding, get_text_token_count, Tokenizer,
};

fn entry(lm: &str, size: u64, lines: usize, tokens: usize) -> CacheEntry {
    CacheEntry { last_modified: lm.to_string(), size, lines, tokens }
}

fn row(path: &str, lm: &str, size: i64, lines: i64, tokens: i64) -> CacheRow {
    CacheRow { file_path: path.to_string(), last_modified: lm.to_string(), size, lines, tokens }
}

fn meta(size: u64, lm: &str) -> FileMeta {
    FileMeta { size, last_modified: lm.to_string() }
}

fn cand(path: &str, is_dir: bool) -> Candidate {
    Candidate { path: path.to_string(), is_dir }
}

#[test]
fn path_map_insert_get_remove() {
    let mut m: PathMap<u32> = PathMap::new();
    assert_eq!(m.len(), 0);
    assert!(m.get("a").is_none());
    m.insert("b".to_string(), 2);
    m.insert("a".to_string(), 1);
    m.insert("c".to_string(), 3);
    m.insert("b".to_string(), 20);
    assert_eq!(m.len(), 3);
    assert_eq!(m.get("a"), Some(&1));
    assert_eq!(m.get("b"), Some(&20));
    assert_eq!(m.get("c"), Some(&3));
    assert!(m.get("d").is_none());
    assert!(m.contains_key("c"));
    assert!(!m.contains_key(""));
    assert_eq!(m.key_at(0), "a");
    assert_eq!(m.key_at(2), "c");
    assert_eq!(*m.value_at(1), 20);
    m.remove("a");
    m.remove("zzz");
    assert_eq!(m.len(), 2);
    assert!(m.get("a").is_none());
    assert_eq!(m.key_at(0), "b");
}

#[test]
fn path_map_retains_keys_of_another_map() {
    let mut m: PathMap<u32> = PathMap::new();
    for (i, k) in ["d", "a", "c", "b", "e"].iter().enumerate() {
        m.insert(k.to_string(), i as u32);
    }
    let mut keep: PathMap<bool> = PathMap::new();
    keep.insert("b".to_string(), true);
    keep.insert("d".to_string(), true);
    keep.insert("x".to_string(), true);
    let removed = m.retain_keys_of(&keep);
    assert_eq!(removed, vec!["a", "c", "e"]);
    assert_eq!(m.len(), 2);
    assert_eq!(m.get("b"), Some(&3));
    assert_eq!(m.get("d"), Some(&0));
}

#[test]
fn rows_load_into_the_cache() {
    let rows = vec![
        row("/p/b", "20", 2, 3, 4),
        row("/p/a", "10", 1, 1, 1),
        row("/p/b", "21", 5, 6, 7),
    ];
    let cache = load_cache_entries(rows);
    assert_eq!(cache.len(), 2);
    let b = cache.get("/p/b").unwrap();
    assert_eq!(b.last_modified, "21");
    assert_eq!((b.size, b.lines, b.tokens), (5, 6, 7));
    assert_eq!(cache.get("/p/a").unwrap().last_modified, "10");
}

#[test]
fn rows_carry_numbers_by_their_bits() {
    let cache = load_cache_entries(vec![row("/p/a", "1", -1, 7, 0)]);
    assert_eq!(cache.get("/p/a").unwrap().size, u64::MAX);
    let e = entry("9", u64::MAX - 1, 12, 34);
    let r = save_cache_entry("/p/x", &e);
    assert_eq!(r.file_path, "/p/x");
    assert_eq!(r.last_modified, "9");
    assert_eq!(r.size, -2);
    assert_eq!(r.lines, 12);
    assert_eq!(r.tokens, 34);
    let back = load_cache_entries(vec![r]);
    let b = back.get("/p/x").unwrap();
    assert_eq!((b.size, b.lines, b.tokens), (u64::MAX - 1, 12, 34));
    assert_eq!(b.last_modified, "9");
}

#[test]
fn cleanup_removes_entries_of_paths_that_are_gone() {
    let mut cache: CacheMap = PathMap::new();
    cache.insert("/p/keep.rs".to_string(), entry("1", 1, 1, 1));
    cache.insert("/p/gone.rs".to_string(), entry("2", 2, 2, 2));
    cache.insert("/p/also_gone.rs".to_string(), entry("3", 3, 3, 3));
    let valid = vec![cand("/p", true), cand("/p/keep.rs", false), cand("/p/new.rs", false)];
    let removed = cleanup_removed_files(&valid, &mut cache);
    assert_eq!(removed, vec!["/p/also_gone.rs", "/p/gone.rs"]);
    assert_eq!(cache.len(), 1);
    assert!(cache.get("/p/keep.rs").is_some());
    assert!(cache.get("/p/gone.rs").is_none());
    assert!(cache.get("/p/also_gone.rs").is_none());
}

#[test]
fn cleanup_against_no_candidates_empties_the_cache() {
    let mut cache: CacheMap = PathMap::new();
    cache.insert("/p/a".to_string(), entry("1", 1, 1, 1));
    let removed = cleanup_removed_files(&Vec::new(), &mut cache);
    assert_eq!(removed, vec!["/p/a"]);
    assert_eq!(cache.len(), 0);
}

#[test]
fn cleanup_with_all_paths_valid_removes_nothing() {
    let mut cache: CacheMap = PathMap::new();
    cache.insert("/p/a".to_string(), entry("1", 1, 1, 1));
    let removed = cleanup_removed_files(&vec![cand("/p/a", false), cand("/p/a", false)], &mut cache);
    assert!(removed.is_empty());
    assert_eq!(cache.len(), 1);
}

#[test]
fn staleness_decides_between_reuse_and_recompute() {
    let cached = entry("100", 10, 1, 1);
    assert_eq!(decide(false, Some(&meta(10, "100")), Some(&cached)), StatDecision::Reuse);
    assert_eq!(decide(false, Some(&meta(10, "101")), Some(&cached)), StatDecision::Recompute);
    assert_eq!(decide(false, Some(&meta(11, "100")), Some(&cached)), StatDecision::Recompute);
    assert_eq!(decide(false, Some(&meta(10, "100")), None), StatDecision::Recompute);
}

#[test]
fn directories_empty_and_oversized_files_are_skipped() {
    let cached = entry("100", 10, 1, 1);
    assert_eq!(decide(true, Some(&meta(10, "100")), Some(&cached)), StatDecision::Skip);
    assert_eq!(decide(false, None, Some(&cached)), StatDecision::Skip);
    assert_eq!(decide(false, Some(&meta(0, "100")), None), StatDecision::Skip);
    assert_eq!(MAX_FILE_SIZE_BYTES, 5 * 1024 * 1024);
    assert_eq!(decide(false, Some(&meta(MAX_FILE_SIZE_BYTES + 1, "1")), None), StatDecision::Skip);
    assert_eq!(decide(false, Some(&meta(MAX_FILE_SIZE_BYTES, "1")), None), StatDecision::Recompute);
    assert_eq!(decide(false, Some(&meta(1, "1")), None), StatDecision::Recompute);
}

#[test]
fn decision_looks_the_entry_up_by_path() {
    let mut cache: CacheMap = PathMap::new();
    cache.insert("/p/a".to_string(), entry("5", 3, 1, 1));
    assert_eq!(decide_for_path("/p/a", false, Some(&meta(3, "5")), &cache), StatDecision::Reuse);
    assert_eq!(decide_for_path("/p/b", false, Some(&meta(3, "5")), &cache), StatDecision::Recompute);
}

#[test]
fn fresh_entry_counts_lines_and_tokens() {
    let t = Tokenizer::unavailable();
    assert!(!t.is_available());
    let e = fresh_entry(meta(12, "77"), Some("one two\nthree\n"), &t);
    assert_eq!(e.last_modified, "77");
    assert_eq!(e.size, 12);
    assert_eq!(e.lines, 2);
    assert_eq!(e.tokens, 3);
}

#[test]
fn unreadable_file_gets_a_zero_entry() {
    let t = Tokenizer::unavailable();
    let e = fresh_entry(meta(12, "77"), None, &t);
    assert_eq!(e.last_modified, "77");
    assert_eq!((e.size, e.lines, e.tokens), (12, 0, 0));
}

#[test]
fn an_unchanged_file_is_not_read_again() {
    let t = Tokenizer::unavailable();
    let e = fresh_entry(meta(12, "77"), Some("text"), &t);
    assert_eq!(decide(false, Some(&meta(12, "77")), Some(&e)), StatDecision::Reuse);
    let z = fresh_entry(meta(12, "77"), None, &t);
    assert_eq!(decide(false, Some(&meta(12, "77")), Some(&z)), StatDecision::Reuse);
}

#[test]
fn updates_go_into_the_cache_and_into_rows() {
    let mut cache: CacheMap = PathMap::new();
    cache.insert("/p/a".to_string(), entry("1", 1, 1, 1));
    let changed = vec![
        ChangedEntry { path: "/p/b".to_string(), entry: entry("2", 20, 2, 2) },
        ChangedEntry { path: "/p/a".to_string(), entry: entry("3", 30, 3, 3) },
    ];
    let rows = apply_updates(&mut cache, &changed);
    assert_eq!(rows.len(), 2);
    assert_eq!(rows[0].file_path, "/p/b");
    assert_eq!(rows[0].size, 20);
    assert_eq!(rows[1].file_path, "/p/a");
    assert_eq!(rows[1].last_modified, "3");
    assert_eq!(cache.len(), 2);
    assert_eq!(cache.get("/p/a").unwrap().size, 30);
    assert_eq!(cache.get("/p/b").unwrap().lines, 2);
    let none = apply_updates(&mut cache, &Vec::new());
    assert!(none.is_empty());
    assert_eq!(cache.len(), 2);
}

#[test]
fn the_last_progress_update_is_never_dropped() {
    assert!(should_emit_progress(true, 1, 10));
    assert!(!should_emit_progress(false, 1, 10));
    assert!(should_emit_progress(false, 10, 10));
    assert!(should_emit_progress(true, 10, 10));
}

#[test]
fn token_count_falls_back_to_words() {
    let t = Tokenizer::unavailable();
    assert_eq!(approximate_token_count(&t, "alpha beta  gamma"), 3);
    assert_eq!(approximate_token_count(&t, ""), 0);
    assert_eq!(count_from_encoding(None, " a b "), 2);
    assert_eq!(count_from_encoding(Some(vec![9, 8, 7]), " a b "), 3);
    assert_eq!(count_from_encoding(Some(Vec::new()), " a b "), 0);
    assert_eq!(get_text_token_count(&t, "x y".to_string()), Ok(2));
}

#[test]
fn tokenizer_counts_tokens_not_words() {
    let t = Tokenizer::load();
    assert!(t.is_available());
    assert_eq!(approximate_token_count(&t, ""), 0);
    assert_eq!(approximate_token_count(&t, "hello world"), 2);
    // one word, several tokens
    let n = approximate_token_count(&t, "antidisestablishmentarianism");
    assert!(n > 1);
    assert_eq!(approximate_token_count(&t, "a b c d"), 4);
    assert_eq!(approximate_token_count(&t, "<|endoftext|>"), 7);
}

fn cache_rows(cache: &CacheMap) -> Vec<(String, String, u64, usize, usize)> {
    (0..cache.len())
        .map(|i| {
            let e = cache.value_at(i);
            (cache.key_at(i).clone(), e.last_modified.clone(), e.size, e.lines, e.tokens)
        })
        .collect()
}

// one pass of the per-file stage over files with the given metadata and content
fn changed_entries(files: &[(&str, u64, &str, &str)], cache: &CacheMap, t: &Tokenizer) -> Vec<ChangedEntry> {
    let mut changed = Vec::new();
    for (path, size, lm, content) in files {
        let m = meta(*size, lm);
        if decide_for_path(path, false, Some(&m), cache) == StatDecision::Recompute {
            changed.push(ChangedEntry { path: path.to_string(), entry: fresh_entry(m, Some(content), t) });
        }
    }
    changed
}

#[test]
fn commit_cleans_up_first_and_then_stores_the_changes() {
    let mut cache = load_cache_entries(vec![
        row("/p/gone.rs", "1", 4, 1, 1),
        row("/p/kept.rs", "1", 4, 1, 1),
        row("/p/old.rs", "1", 4, 1, 1),
    ]);
    let valid = vec![cand("/p", true), cand("/p/kept.rs", false), cand("/p/old.rs", false), cand("/p/new.rs", false)];
    let changed = vec![
        ChangedEntry { path: "/p/old.rs".to_string(), entry: entry("2", 9, 3, 5) },
        ChangedEntry { path: "/p/new.rs".to_string(), entry: entry("7", 2, 1, 1) },
    ];
    let plan = plan_commit(&valid, &mut cache, &changed);
    assert_eq!(plan.removed, vec!["/p/gone.rs"]);
    let stored: Vec<(&str, i64)> = plan.rows.iter().map(|r| (r.file_path.as_str(), r.size)).collect();
    assert_eq!(stored, vec![("/p/old.rs", 9), ("/p/new.rs", 2)]);
    assert_eq!(
        cache_rows(&cache),
        vec![
            ("/p/kept.rs".to_string(), "1".to_string(), 4, 1, 1),
            ("/p/new.rs".to_string(), "7".to_string(), 2, 1, 1),
            ("/p/old.rs".to_string(), "2".to_string(), 9, 3, 5),
        ]
    );
}

#[test]
fn a_second_scan_of_unchanged_files_changes_nothing() {
    let t = Tokenizer::unavailable();
    let files = [("/p/a.rs", 11u64, "100", "fn a() {}\n\n"), ("/p/b.txt", 3u64, "101", "b b")];
    let valid = vec![cand("/p", true), cand("/p/a.rs", false), cand("/p/b.txt", false), cand("/p/zero", false)];
    let mut cache = load_cache_entries(vec![row("/p/gone", "1", 1, 1, 1), row("/p/b.txt", "99", 3, 1, 1)]);

    let changed = changed_entries(&files, &cache, &t);
    assert_eq!(changed.len(), 2);
    let first = plan_commit(&valid, &mut cache, &changed);
    assert_eq!(first.removed, vec!["/p/gone"]);
    assert_eq!(first.rows.len(), 2);
    let after_first = cache_rows(&cache);

    let changed = changed_entries(&files, &cache, &t);
    assert!(changed.is_empty());
    let second = plan_commit(&valid, &mut cache, &changed);
    assert!(second.removed.is_empty());
    assert!(second.rows.is_empty());
    assert_eq!(cache_rows(&cache), after_first);
    assert_eq!(
        after_first,
        vec![
            ("/p/a.rs".to_string(), "100".to_string(), 11, 2, 3),
            ("/p/b.txt".to_string(), "101".to_string(), 3, 1, 2),
        ]
    );
}

#[test]
fn updates_of_distinct_paths_commute() {
    let make = |order: &[usize]| {
        let all = [("/p/a", entry("1", 1, 1, 1)), ("/p/b", entry("2", 2, 2, 2)), ("/p/c", entry("3", 3, 3, 3))];
        let changed: Vec<ChangedEntry> = order
            .iter()
            .map(|&i| ChangedEntry { path: all[i].0.to_string(), entry: all[i].1.clone() })
            .collect();
        let mut cache = load_cache_entries(vec![row("/p/b", "0", 9, 9, 9), row("/p/z", "0", 8, 8, 8)]);
        apply_updates(&mut cache, &changed);
        cache_rows(&cache)
    };
    let first = make(&[0, 1, 2]);
    assert_eq!(first.len(), 4);
    assert_eq!(make(&[2, 1, 0]), first);
    assert_eq!(make(&[1, 2, 0]), first);
}
