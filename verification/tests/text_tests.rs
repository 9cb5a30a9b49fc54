use std::path::{Component, Path};

use code_context_builder::paths::{
    path_components, path_display_name, path_is_absolute, path_relative_components,
};
use code_context_builder::text::{
    char_is_whitespace, chars_to_string, count_lines, count_words, rank_strings, string_chars,
    trim_string, Rank,
};

fn lines_of(s: &str) -> usize {
    count_lines(&string_chars(s))
}

fn words_of(s: &str) -> usize {
    count_words(&string_chars(s))
}

#[test]
fn whitespace_is_the_unicode_property() {
    for c in ['\t', '\n', '\u{0B}', '\u{0C}', '\r', ' ', '\u{85}', '\u{A0}', '\u{1680}', '\u{2003}', '\u{2028}', '\u{2029}', '\u{202F}', '\u{205F}', '\u{3000}'] {
        assert!(char_is_whitespace(c), "{:?}", c);
        assert!(c.is_whitespace());
    }
    for c in ['a', '#', '/', '\u{200B}', '\u{0}', '\u{FEFF}'] {
        assert!(!char_is_whitespace(c), "{:?}", c);
        assert!(!c.is_whitespace());
    }
}

#[test]
fn trim_removes_whitespace_at_both_ends_only() {
    assert_eq!(trim_string("  *.log \t\n"), "*.log");
    assert_eq!(trim_string("a b"), "a b");
    assert_eq!(trim_string(" \u{3000} "), "");
    assert_eq!(trim_string(""), "");
    assert_eq!(trim_string("\u{A0}é x\u{2003}"), "é x");
}

#[test]
fn chars_round_trip_through_strings() {
    let chars = string_chars("héllo/wörld");
    assert_eq!(chars.len(), 11);
    assert_eq!(chars_to_string(&chars, 0, chars.len()), "héllo/wörld");
    assert_eq!(chars_to_string(&chars, 6, 11), "wörld");
    assert_eq!(chars_to_string(&chars, 3, 3), "");
}

#[test]
fn line_count_is_that_of_physical_lines() {
    assert_eq!(lines_of(""), 0);
    assert_eq!(lines_of("a"), 1);
    assert_eq!(lines_of("a\n"), 1);
    assert_eq!(lines_of("a\nb"), 2);
    assert_eq!(lines_of("a\r\nb\r\n"), 2);
    assert_eq!(lines_of("\n\n\n"), 3);
    assert_eq!(lines_of("x\n\ny"), 3);
    for s in ["", "a", "a\n", "a\nb", "\n", "a\r\nb", "a\n\n", "é\nü\n"] {
        assert_eq!(lines_of(s), s.lines().count(), "{:?}", s);
    }
}

#[test]
fn word_count_is_that_of_whitespace_separated_words() {
    assert_eq!(words_of(""), 0);
    assert_eq!(words_of("   "), 0);
    assert_eq!(words_of("one"), 1);
    assert_eq!(words_of(" one  two\tthree\n"), 3);
    for s in ["a b c", "  a", "a  ", "\u{3000}x\u{2003}y", "fn main() { }"] {
        assert_eq!(words_of(s), s.split_whitespace().count(), "{:?}", s);
    }
}

#[test]
fn strings_rank_by_their_bytes() {
    assert_eq!(rank_strings("a", "a"), Rank::Same);
    assert_eq!(rank_strings("", ""), Rank::Same);
    assert_eq!(rank_strings("a", "b"), Rank::Before);
    assert_eq!(rank_strings("b", "a"), Rank::After);
    assert_eq!(rank_strings("a", "ab"), Rank::Before);
    assert_eq!(rank_strings("ab", "a"), Rank::After);
    assert_eq!(rank_strings("B", "a"), Rank::Before);
    assert_eq!(rank_strings("/r/a.txt", "/r/a/b"), Rank::Before);
    assert_eq!(rank_strings("é", "z"), Rank::After);
    for (a, b) in [("x", "y"), ("é", "e"), ("", "a"), ("ab", "ab")] {
        let expected = if a < b {
            Rank::Before
        } else if a == b {
            Rank::Same
        } else {
            Rank::After
        };
        assert_eq!(rank_strings(a, b), expected);
    }
}

#[test]
fn components_skip_empty_and_dot_pieces() {
    assert_eq!(path_components("/a/b/c.txt"), vec!["a", "b", "c.txt"]);
    assert_eq!(path_components("a//b/./c/"), vec!["a", "b", "c"]);
    assert_eq!(path_components("/"), Vec::<String>::new());
    assert_eq!(path_components(""), Vec::<String>::new());
    assert_eq!(path_components("../x"), vec!["..", "x"]);
    assert_eq!(path_components("/ä/ö"), vec!["ä", "ö"]);
}

#[test]
fn display_name_is_the_last_component() {
    assert_eq!(path_display_name("/a/b/c.txt"), "c.txt");
    assert_eq!(path_display_name("/a/b/"), "b");
    assert_eq!(path_display_name("/"), "/");
    assert_eq!(path_display_name("/a/.."), "/a/..");
    assert_eq!(path_display_name("name"), "name");
    assert_eq!(path_display_name(""), "");
}

#[test]
fn absolute_paths_start_with_a_slash() {
    assert!(path_is_absolute("/a"));
    assert!(path_is_absolute("/"));
    assert!(!path_is_absolute("a/b"));
    assert!(!path_is_absolute(""));
}

#[test]
fn relative_components_need_the_root_as_prefix() {
    assert_eq!(path_relative_components("/r", "/r/a/b"), Some(vec!["a".to_string(), "b".to_string()]));
    assert_eq!(path_relative_components("/r/", "/r/a"), Some(vec!["a".to_string()]));
    assert_eq!(path_relative_components("/r", "/r"), Some(vec![]));
    assert_eq!(path_relative_components("/r", "/rr/a"), None);
    assert_eq!(path_relative_components("/r/x", "/r"), None);
    assert_eq!(path_relative_components("/r", "r/a"), None);
    assert_eq!(path_relative_components("r", "r/a/../b"), Some(vec!["a".to_string(), "b".to_string()]));
}

#[test]
fn relative_components_agree_with_the_platform() {
    let samples = [
        "", ".", "./", "./a", "a", "a/b", "/", "/a", "/a/b", "//a//b/", "/a/./b", "a/./b", "../a",
        "a/..", "./a/b", ".a", "..", "/a/../b", "./.", ".//a", "a/b/c", "/a/b/c.txt", "./..",
    ];
    for root in samples {
        for path in samples {
            let expected: Option<Vec<String>> = Path::new(path).strip_prefix(Path::new(root)).ok().map(|rel| {
                rel.components()
                    .filter_map(|c| match c {
                        Component::Normal(name) => name.to_str().map(String::from),
                        _ => None,
                    })
                    .collect()
            });
            assert_eq!(path_relative_components(root, path), expected, "{:?} under {:?}", path, root);
        }
    }
}

#[test]
fn display_names_agree_with_the_platform() {
    for path in ["", ".", "./", "a", "a/", "/", "/a/b.txt", "/a/..", "/a/.", "a//", "..", "/a/b/"] {
        let expected = Path::new(path)
            .file_name()
            .map(|os| os.to_string_lossy().to_string())
            .unwrap_or_else(|| path.to_string());
        assert_eq!(path_display_name(path), expected, "{:?}", path);
    }
}
