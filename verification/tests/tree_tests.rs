use code_context_builder::path_map::PathMap;
use code_context_builder::scan_cache::{CacheEntry, CacheMap};
use code_context_builder::scan_tree::{
    build_tree_checked, build_tree_from_paths, candidate_totals_fit, finalize_node,
    insert_node_recursive, leaf_node,
};
use code_context_builder::types::{Candidate, FileNode};

fn cand(path: &str, is_dir: bool) -> Candidate {
    Candidate { path: path.to_string(), is_dir }
}

fn entry(lm: &str, size: u64, lines: usize, tokens: usize) -> CacheEntry {
    CacheEntry { last_modified: lm.to_string(), size, lines, tokens }
}

fn node(path: &str, name: &str, is_dir: bool, lines: usize, tokens: usize, size: u64) -> FileNode {
    FileNode {
        path: path.to_string(),
        name: name.to_string(),
        is_dir,
        lines,
        tokens,
        size,
        last_modified: String::new(),
        children: Vec::new(),
    }
}

fn check_sums(n: &FileNode) {
    if n.is_dir {
        let lines: usize = n.children.iter().map(|c| c.lines).sum();
        let tokens: usize = n.children.iter().map(|c| c.tokens).sum();
        let size: u64 = n.children.iter().map(|c| c.size).sum();
        assert_eq!(n.lines, lines);
        assert_eq!(n.tokens, tokens);
        assert_eq!(n.size, size);
        for c in &n.children {
            check_sums(c);
        }
    }
}

fn check_order(n: &FileNode) {
    if n.is_dir {
        for w in n.children.windows(2) {
            let a = (w[0].is_dir, w[0].name.to_lowercase());
            let b = (w[1].is_dir, w[1].name.to_lowercase());
            assert!(a <= b, "{:?} before {:?}", a, b);
        }
        for c in &n.children {
            check_order(c);
        }
    }
}

fn sample_cache() -> CacheMap {
    let mut cache: CacheMap = PathMap::new();
    cache.insert("/p/a.txt".to_string(), entry("10", 100, 5, 20));
    cache.insert("/p/B.txt".to_string(), entry("11", 50, 2, 7));
    cache.insert("/p/src/main.rs".to_string(), entry("12", 300, 30, 90));
    cache.insert("/p/src/lib/util.rs".to_string(), entry("13", 40, 4, 9));
    cache
}

fn sample_candidates() -> Vec<Candidate> {
    vec![
        cand("/p", true),
        cand("/p/src", true),
        cand("/p/src/main.rs", false),
        cand("/p/src/lib", true),
        cand("/p/src/lib/util.rs", false),
        cand("/p/a.txt", false),
        cand("/p/B.txt", false),
        cand("/p/zeta", true),
    ]
}

#[test]
fn build_tree_aggregates_bottom_up() {
    let tree = build_tree_from_paths("/p", &sample_candidates(), &sample_cache());
    assert_eq!(tree.path, "/p");
    assert_eq!(tree.name, "p");
    assert!(tree.is_dir);
    assert_eq!(tree.lines, 41);
    assert_eq!(tree.tokens, 126);
    assert_eq!(tree.size, 490);
    let src = tree.children.iter().find(|c| c.name == "src").unwrap();
    assert_eq!((src.lines, src.tokens, src.size), (34, 99, 340));
    let lib = src.children.iter().find(|c| c.name == "lib").unwrap();
    assert_eq!((lib.lines, lib.tokens, lib.size), (4, 9, 40));
    check_sums(&tree);
}

#[test]
fn build_tree_orders_files_before_directories_ignoring_case() {
    let tree = build_tree_from_paths("/p", &sample_candidates(), &sample_cache());
    let names: Vec<&str> = tree.children.iter().map(|c| c.name.as_str()).collect();
    assert_eq!(names, vec!["a.txt", "B.txt", "src", "zeta"]);
    let src = &tree.children[2];
    let names: Vec<&str> = src.children.iter().map(|c| c.name.as_str()).collect();
    assert_eq!(names, vec!["main.rs", "lib"]);
    check_order(&tree);
}

#[test]
fn build_tree_does_not_depend_on_candidate_order() {
    let mut shuffled = sample_candidates();
    shuffled.reverse();
    let a = build_tree_from_paths("/p", &sample_candidates(), &sample_cache());
    let b = build_tree_from_paths("/p", &shuffled, &sample_cache());
    assert_eq!(format!("{:?}", a), format!("{:?}", b));
}

#[test]
fn build_tree_twice_gives_the_same_tree() {
    let a = build_tree_from_paths("/p", &sample_candidates(), &sample_cache());
    let b = build_tree_from_paths("/p", &sample_candidates(), &sample_cache());
    assert_eq!(format!("{:?}", a), format!("{:?}", b));
}

#[test]
fn build_tree_drops_subtree_of_missing_directory() {
    let cands = vec![
        cand("/p", true),
        cand("/p/hidden/inner.txt", false),
        cand("/p/hidden/deep", true),
        cand("/p/hidden/deep/x.txt", false),
        cand("/p/kept.txt", false),
    ];
    let cache: CacheMap = PathMap::new();
    let tree = build_tree_from_paths("/p", &cands, &cache);
    let names: Vec<&str> = tree.children.iter().map(|c| c.name.as_str()).collect();
    assert_eq!(names, vec!["kept.txt"]);
}

#[test]
fn build_tree_of_no_candidates_is_the_bare_root() {
    let cache: CacheMap = PathMap::new();
    let tree = build_tree_from_paths("/some/root", &Vec::new(), &cache);
    assert_eq!(tree.path, "/some/root");
    assert_eq!(tree.name, "root");
    assert!(tree.is_dir);
    assert!(tree.children.is_empty());
    assert_eq!((tree.lines, tree.tokens, tree.size), (0, 0, 0));
    assert_eq!(tree.last_modified, "");
}

#[test]
fn build_tree_keeps_one_node_per_path() {
    let cands = vec![cand("/p", true), cand("/p/a.txt", false), cand("/p/a.txt", false)];
    let tree = build_tree_from_paths("/p", &cands, &sample_cache());
    assert_eq!(tree.children.len(), 1);
    assert_eq!(tree.lines, 5);
}

#[test]
fn build_tree_skips_paths_outside_the_root() {
    let cands = vec![cand("/p", true), cand("/q/a.txt", false), cand("relative.txt", false)];
    let tree = build_tree_from_paths("/p", &cands, &sample_cache());
    assert!(tree.children.is_empty());
}

#[test]
fn skipped_files_appear_with_zero_counts() {
    // an empty file and a file over the size limit are never cached
    let cands = vec![cand("/p", true), cand("/p/empty.txt", false), cand("/p/huge.bin", false)];
    let cache: CacheMap = PathMap::new();
    let tree = build_tree_from_paths("/p", &cands, &cache);
    assert_eq!(tree.children.len(), 2);
    for c in &tree.children {
        assert_eq!(c.lines, 0);
        assert_eq!(c.tokens, 0);
        assert_eq!(c.size, 0);
        assert!(!c.is_dir);
    }
    let empty = tree.children.iter().find(|c| c.name == "empty.txt").unwrap();
    assert_eq!(empty.size, 0);
}

#[test]
fn directory_candidates_never_take_cache_counts() {
    let mut cache: CacheMap = PathMap::new();
    cache.insert("/p/dir".to_string(), entry("1", 9, 9, 9));
    let leaf = leaf_node(&cand("/p/dir", true), &cache);
    assert!(leaf.is_dir);
    assert_eq!((leaf.lines, leaf.tokens, leaf.size), (0, 0, 0));
    assert_eq!(leaf.last_modified, "");
    let file = leaf_node(&cand("/p/dir", false), &cache);
    assert_eq!((file.lines, file.tokens, file.size), (9, 9, 9));
    assert_eq!(file.last_modified, "1");
    assert_eq!(file.name, "dir");
}

#[test]
fn finalize_sorts_and_sums() {
    let mut root = node("/r", "r", true, 99, 99, 99);
    let mut dir = node("/r/Alpha", "Alpha", true, 1, 1, 1);
    dir.children.push(node("/r/Alpha/z.txt", "z.txt", false, 3, 4, 5));
    dir.children.push(node("/r/Alpha/Y.txt", "Y.txt", false, 1, 1, 1));
    root.children.push(dir);
    root.children.push(node("/r/beta.txt", "beta.txt", false, 10, 20, 30));
    root.children.push(node("/r/Apple.txt", "Apple.txt", false, 1, 2, 3));
    finalize_node(&mut root);
    let names: Vec<&str> = root.children.iter().map(|c| c.name.as_str()).collect();
    assert_eq!(names, vec!["Apple.txt", "beta.txt", "Alpha"]);
    assert_eq!((root.lines, root.tokens, root.size), (15, 27, 39));
    let alpha = &root.children[2];
    let names: Vec<&str> = alpha.children.iter().map(|c| c.name.as_str()).collect();
    assert_eq!(names, vec!["Y.txt", "z.txt"]);
    assert_eq!((alpha.lines, alpha.tokens, alpha.size), (4, 5, 6));
}

#[test]
fn finalize_keeps_order_of_names_that_differ_in_case_only() {
    let mut root = node("/r", "r", true, 0, 0, 0);
    root.children.push(node("/r/readme", "readme", false, 1, 0, 0));
    root.children.push(node("/r/README", "README", false, 2, 0, 0));
    finalize_node(&mut root);
    let names: Vec<&str> = root.children.iter().map(|c| c.name.as_str()).collect();
    assert_eq!(names, vec!["readme", "README"]);
}

#[test]
fn finalize_leaves_a_file_alone() {
    let mut file = node("/r/a", "a", false, 7, 8, 9);
    finalize_node(&mut file);
    assert_eq!((file.lines, file.tokens, file.size), (7, 8, 9));
}

#[test]
fn insert_attaches_at_the_named_place() {
    let mut root = node("/r", "r", true, 0, 0, 0);
    insert_node_recursive(&mut root, &["a".to_string()], node("/r/a", "a", true, 0, 0, 0));
    insert_node_recursive(
        &mut root,
        &["a".to_string(), "b.txt".to_string()],
        node("/r/a/b.txt", "b.txt", false, 1, 1, 1),
    );
    assert_eq!(root.children.len(), 1);
    assert_eq!(root.children[0].children.len(), 1);
    assert_eq!(root.children[0].children[0].path, "/r/a/b.txt");
}

#[test]
fn insert_rejects_wrong_name_duplicate_and_missing_parent() {
    let mut root = node("/r", "r", true, 0, 0, 0);
    insert_node_recursive(&mut root, &["x".to_string()], node("/r/a", "a", false, 0, 0, 0));
    assert!(root.children.is_empty());
    insert_node_recursive(&mut root, &["a".to_string()], node("/r/a", "a", false, 0, 0, 0));
    insert_node_recursive(&mut root, &["a".to_string()], node("/r/a", "a", false, 0, 0, 0));
    assert_eq!(root.children.len(), 1);
    // "a" is a file: nothing goes below it
    insert_node_recursive(
        &mut root,
        &["a".to_string(), "b".to_string()],
        node("/r/a/b", "b", false, 0, 0, 0),
    );
    assert!(root.children[0].children.is_empty());
    insert_node_recursive(
        &mut root,
        &["none".to_string(), "b".to_string()],
        node("/r/none/b", "b", false, 0, 0, 0),
    );
    assert_eq!(root.children.len(), 1);
    insert_node_recursive(&mut root, &[], node("/r/q", "q", false, 0, 0, 0));
    assert_eq!(root.children.len(), 1);
}

#[test]
fn insert_into_a_file_changes_nothing() {
    let mut file = node("/r/f", "f", false, 1, 1, 1);
    insert_node_recursive(&mut file, &["x".to_string()], node("/r/f/x", "x", false, 0, 0, 0));
    assert!(file.children.is_empty());
}

#[test]
fn totals_that_overflow_are_reported() {
    let mut cache: CacheMap = PathMap::new();
    cache.insert("/p/a".to_string(), entry("1", u64::MAX, 1, 1));
    cache.insert("/p/b".to_string(), entry("1", 1, 1, 1));
    let cands = vec![cand("/p", true), cand("/p/a", false), cand("/p/b", false)];
    assert!(!candidate_totals_fit(&cands, &cache));
    assert!(build_tree_checked("/p", &cands, &cache).is_none());
    let fine = vec![cand("/p", true), cand("/p/a", false)];
    assert!(candidate_totals_fit(&fine, &cache));
    let tree = build_tree_checked("/p", &fine, &cache).unwrap();
    assert_eq!(tree.size, u64::MAX);
}
