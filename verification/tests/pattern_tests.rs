use std::path::Path;

use code_context_builder::paths::{path_extension, path_file_name};
use code_context_builder::plain_patterns::path_ignored_by_patterns;

fn pats(list: &[&str]) -> Vec<String> {
    list.iter().map(|s| s.to_string()).collect()
}

// the same rules, written with the platform's path type
fn expected(real_path: &Path, ignore_patterns: &[String]) -> bool {
    let path_lc = real_path.to_string_lossy().to_lowercase();
    for raw_pat in ignore_patterns {
        let pat_trim = raw_pat.trim();
        if pat_trim.is_empty() {
            continue;
        }
        let mut matched = false;
        if pat_trim.starts_with('/') && pat_trim.ends_with('/') && pat_trim.len() > 2 {
            let folder = pat_trim[1..pat_trim.len() - 1].to_lowercase();
            if !folder.is_empty() {
                let segs: Vec<String> = real_path
                    .components()
                    .filter_map(|comp| comp.as_os_str().to_str())
                    .map(|s| s.to_lowercase())
                    .collect();
                if segs.iter().any(|seg| *seg == folder) {
                    matched = true;
                }
            }
        } else if pat_trim.starts_with('"') && pat_trim.ends_with('"') && pat_trim.len() >= 2 {
            let exact = pat_trim[1..pat_trim.len() - 1].to_lowercase();
            if path_lc == exact {
                matched = true;
            }
        } else {
            let pat_lc = pat_trim.to_lowercase();
            if pat_lc.starts_with("*.") {
                let ext = &pat_lc[2..];
                if real_path.extension().map_or(false, |e| e.to_string_lossy().to_lowercase() == ext) {
                    matched = true;
                }
            } else if real_path.file_name().map_or(false, |name| name.to_string_lossy().to_lowercase() == pat_lc) {
                matched = true;
            } else if path_lc.contains(&pat_lc) {
                matched = true;
            }
        }
        if matched {
            return true;
        }
    }
    false
}

#[test]
fn log_files_and_node_modules_are_ignored_at_any_depth() {
    let rules = pats(&["*.log", "/node_modules/"]);
    assert!(path_ignored_by_patterns("/p/app.log", &rules));
    assert!(path_ignored_by_patterns("/p/a/b/c/app.log", &rules));
    assert!(path_ignored_by_patterns("app.log", &rules));
    assert!(path_ignored_by_patterns("/p/APP.LOG", &rules));
    assert!(path_ignored_by_patterns("/p/node_modules", &rules));
    assert!(path_ignored_by_patterns("/p/src/deep/node_modules", &rules));
    assert!(path_ignored_by_patterns("/p/src/node_modules/pkg/index.js", &rules));
    assert!(path_ignored_by_patterns("/p/Node_Modules/pkg", &rules));
    assert!(!path_ignored_by_patterns("/p/src/main.rs", &rules));
    assert!(!path_ignored_by_patterns("/p/node_modules_old/x", &rules));
    assert!(!path_ignored_by_patterns("/p/app.log.txt", &rules));
    assert!(!path_ignored_by_patterns("/p/log", &rules));
}

#[test]
fn quoted_patterns_match_the_whole_path_only() {
    let rules = pats(&["\"/p/Exact File.txt\""]);
    assert!(path_ignored_by_patterns("/p/exact file.txt", &rules));
    assert!(path_ignored_by_patterns("/P/EXACT FILE.TXT", &rules));
    assert!(!path_ignored_by_patterns("/p/exact file.txt.bak", &rules));
    assert!(!path_ignored_by_patterns("/q/p/exact file.txt", &rules));
    assert!(path_ignored_by_patterns("", &pats(&["\"\""])));
    assert!(!path_ignored_by_patterns("a", &pats(&["\"\""])));
}

#[test]
fn names_match_as_file_names_or_anywhere_in_the_path() {
    let rules = pats(&["Cargo.toml", "  dist  "]);
    assert!(path_ignored_by_patterns("/p/cargo.toml", &rules));
    assert!(path_ignored_by_patterns("/p/Cargo.toml/inner", &rules));
    assert!(path_ignored_by_patterns("/p/my-cargo.toml.bak", &rules));
    assert!(path_ignored_by_patterns("/p/dist", &rules));
    assert!(path_ignored_by_patterns("/p/redistribute.rs", &rules));
    assert!(!path_ignored_by_patterns("/p/src/lib.rs", &rules));
}

#[test]
fn blank_patterns_match_nothing() {
    assert!(!path_ignored_by_patterns("/p/a", &pats(&[])));
    assert!(!path_ignored_by_patterns("/p/a", &pats(&["", "   ", "\t\n"])));
    assert!(!path_ignored_by_patterns("", &pats(&["", " "])));
}

#[test]
fn an_extension_pattern_does_not_fall_back_to_a_search() {
    // the pattern text occurs in the path, but the extension is another one
    assert!(!path_ignored_by_patterns("/p/x*.log/readme.md", &pats(&["*.log"])));
    assert!(path_ignored_by_patterns("/p/archive.tar.GZ", &pats(&["*.gz"])));
    assert!(!path_ignored_by_patterns("/p/.gz", &pats(&["*.gz"])));
    assert!(path_ignored_by_patterns("/p/name.", &pats(&["*."])));
    assert!(!path_ignored_by_patterns("/p/name", &pats(&["*."])));
}

#[test]
fn plain_patterns_agree_with_the_platform() {
    let paths = [
        "", "/", ".", "./a", "a", "/p/app.log", "/p/src/main.rs", "/p/node_modules/x.js",
        "/p/a/NODE_MODULES", "p/../q", "/p/.hidden", "/p/file.", "/p//double//slash/", "./././x",
        "/p/ä/Ö.TXT", "/p/a b/c d.e", "/p/\"quoted\"", "..", "/p/x*.y", "/p/a/.", "rel/node_modules",
    ];
    let patterns = [
        "", " ", "*.log", "*.LOG", "/node_modules/", "/Node_Modules/", "//", "/", "///", "/./", "/../",
        "\"", "\"\"", "\"/p/app.log\"", "\"/P/APP.LOG\"", "main.rs", "MAIN", "*.", "*", "*.txt", "ö",
        " /p/ ", "/p/", "x", ".", "..", "*.e", "\"quoted\"", "/a b/", "*.y", "/double/", "/rel/",
    ];
    for path in paths {
        for pat in patterns {
            let list = vec![pat.to_string()];
            assert_eq!(
                path_ignored_by_patterns(path, &list),
                expected(Path::new(path), &list),
                "{:?} against {:?}",
                path,
                pat
            );
        }
        let all: Vec<String> = patterns.iter().map(|p| p.to_string()).collect();
        assert_eq!(path_ignored_by_patterns(path, &all), expected(Path::new(path), &all));
    }
}

#[test]
fn file_names_and_extensions_agree_with_the_platform() {
    for path in [
        "", "/", ".", "..", "a", "a.b", ".a", ".a.b", "a.", "a..b", "/p/a.tar.gz", "/p/dir/", "/p/dir/.",
        "/p/dir/..", "./x.y", "x/.y", "/p/ä.ö",
    ] {
        let name = Path::new(path).file_name().map(|n| n.to_string_lossy().to_string());
        let ext = Path::new(path).extension().map(|e| e.to_string_lossy().to_string());
        assert_eq!(path_file_name(path), name, "{:?}", path);
        assert_eq!(path_extension(path), ext, "{:?}", path);
    }
}
