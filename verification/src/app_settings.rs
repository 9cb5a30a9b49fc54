//! The default ignore patterns: those that a fresh installation starts
//! with, when the stored setting is seeded with them, and what a project
//! that is stored for the first time takes from the setting.

use vstd::prelude::*;
use crate::scanner::{global_patterns_of, merge_patterns, resolve_global_patterns};
use crate::text::{same_text, trim_string, trimmed};
use crate::types::{string_views, Project};

verus! {

/// The number of built-in ignore patterns.
pub const DEFAULT_PATTERN_COUNT: usize = 102;

/// The built-in ignore pattern at position `i`.
pub open spec fn default_pattern(i: usize) -> Seq<char> {
    match i {
        0 => "*-spec.*"@,
        1 => "*-test.*"@,
        2 => "*.a"@,
        3 => "*.bak"@,
        4 => "*.class"@,
        5 => "*.code-workspace"@,
        6 => "*.com"@,
        7 => "*.csv"@,
        8 => "*.dll"@,
        9 => "*.dylib"@,
        10 => "*.ear"@,
        11 => "*.egg-info/"@,
        12 => "*.exe"@,
        13 => "*.iml"@,
        14 => "*.jar"@,
        15 => "*.lcov"@,
        16 => "*.log"@,
        17 => "*.nuget.props"@,
        18 => "*.nupkg"@,
        19 => "*.nupkg.sha512"@,
        20 => "*.nuspec"@,
        21 => "*.o"@,
        22 => "*.pdf"@,
        23 => "*.pyc"@,
        24 => "*.pyd"@,
        25 => "*.pyo"@,
        26 => "*.so"@,
        27 => "*.spec.*"@,
        28 => "*.suo"@,
        29 => "*.svg"@,
        30 => "*.swp"@,
        31 => "*.tar.gz"@,
        32 => "*.temp"@,
        33 => "*.test.*"@,
        34 => "*.tgz"@,
        35 => "*.tmp"@,
        36 => "*.tsv"@,
        37 => "*.user"@,
        38 => "*.war"@,
        39 => "*.xml"@,
        40 => "*.zip"@,
        41 => "*~"@,
        42 => ".#*"@,
        43 => ".DS_Store"@,
        44 => ".Python"@,
        45 => ".cache/"@,
        46 => ".classpath"@,
        47 => ".coverage"@,
        48 => ".devcontainer/"@,
        49 => ".env"@,
        50 => ".env.*.local"@,
        51 => ".env/"@,
        52 => ".git/"@,
        53 => ".gitignore"@,
        54 => ".godot/"@,
        55 => ".history/"@,
        56 => ".idea/"@,
        57 => ".next/"@,
        58 => ".parcel-cache/"@,
        59 => ".project"@,
        60 => ".pytest_cache/"@,
        61 => ".python-version"@,
        62 => ".settings/"@,
        63 => ".svelte-kit/"@,
        64 => ".venv/"@,
        65 => ".vscode/"@,
        66 => "/bin/"@,
        67 => "/build/"@,
        68 => "/dist/"@,
        69 => "/obj/"@,
        70 => "/out/"@,
        71 => "/public/"@,
        72 => "/static/admin/"@,
        73 => "/target/"@,
        74 => "Cargo.lock"@,
        75 => "ENV/"@,
        76 => "Gemfile.lock"@,
        77 => "TEST-*.xml"@,
        78 => "Thumbs.db"@,
        79 => "VENV/"@,
        80 => "__pycache__/"@,
        81 => "composer.lock"@,
        82 => "coverage/"@,
        83 => "desktop.ini"@,
        84 => "env/"@,
        85 => "gen/"@,
        86 => "generated/"@,
        87 => "go.sum"@,
        88 => "htmlcov/"@,
        89 => "icons/"@,
        90 => "junit.xml"@,
        91 => "logs/"@,
        92 => "node_modules/"@,
        93 => "package-lock.json"@,
        94 => "pnpm-lock.yaml"@,
        95 => "poetry.lock"@,
        96 => "pycache/"@,
        97 => "pgsql/"@,
        98 => "test-results/"@,
        99 => "uv.lock"@,
        100 => "venv/"@,
        _ => "yarn.lock"@,
    }
}

/// The built-in ignore patterns: build outputs, caches, lock files, editor
/// and system files, archives and the like.
pub open spec fn default_ignore_patterns() -> Seq<Seq<char>> {
    Seq::new(DEFAULT_PATTERN_COUNT as nat, |i: int| default_pattern(i as usize))
}

fn pattern_literal(i: usize) -> (pattern: &'static str)
    ensures
        pattern@ == default_pattern(i),
{
    match i {
        0 => "*-spec.*",
        1 => "*-test.*",
        2 => "*.a",
        3 => "*.bak",
        4 => "*.class",
        5 => "*.code-workspace",
        6 => "*.com",
        7 => "*.csv",
        8 => "*.dll",
        9 => "*.dylib",
        10 => "*.ear",
        11 => "*.egg-info/",
        12 => "*.exe",
        13 => "*.iml",
        14 => "*.jar",
        15 => "*.lcov",
        16 => "*.log",
        17 => "*.nuget.props",
        18 => "*.nupkg",
        19 => "*.nupkg.sha512",
        20 => "*.nuspec",
        21 => "*.o",
        22 => "*.pdf",
        23 => "*.pyc",
        24 => "*.pyd",
        25 => "*.pyo",
        26 => "*.so",
        27 => "*.spec.*",
        28 => "*.suo",
        29 => "*.svg",
        30 => "*.swp",
        31 => "*.tar.gz",
        32 => "*.temp",
        33 => "*.test.*",
        34 => "*.tgz",
        35 => "*.tmp",
        36 => "*.tsv",
        37 => "*.user",
        38 => "*.war",
        39 => "*.xml",
        40 => "*.zip",
        41 => "*~",
        42 => ".#*",
        43 => ".DS_Store",
        44 => ".Python",
        45 => ".cache/",
        46 => ".classpath",
        47 => ".coverage",
        48 => ".devcontainer/",
        49 => ".env",
        50 => ".env.*.local",
        51 => ".env/",
        52 => ".git/",
        53 => ".gitignore",
        54 => ".godot/",
        55 => ".history/",
        56 => ".idea/",
        57 => ".next/",
        58 => ".parcel-cache/",
        59 => ".project",
        60 => ".pytest_cache/",
        61 => ".python-version",
        62 => ".settings/",
        63 => ".svelte-kit/",
        64 => ".venv/",
        65 => ".vscode/",
        66 => "/bin/",
        67 => "/build/",
        68 => "/dist/",
        69 => "/obj/",
        70 => "/out/",
        71 => "/public/",
        72 => "/static/admin/",
        73 => "/target/",
        74 => "Cargo.lock",
        75 => "ENV/",
        76 => "Gemfile.lock",
        77 => "TEST-*.xml",
        78 => "Thumbs.db",
        79 => "VENV/",
        80 => "__pycache__/",
        81 => "composer.lock",
        82 => "coverage/",
        83 => "desktop.ini",
        84 => "env/",
        85 => "gen/",
        86 => "generated/",
        87 => "go.sum",
        88 => "htmlcov/",
        89 => "icons/",
        90 => "junit.xml",
        91 => "logs/",
        92 => "node_modules/",
        93 => "package-lock.json",
        94 => "pnpm-lock.yaml",
        95 => "poetry.lock",
        96 => "pycache/",
        97 => "pgsql/",
        98 => "test-results/",
        99 => "uv.lock",
        100 => "venv/",
        _ => "yarn.lock",
    }
}

/// The built-in ignore patterns, with which the stored setting is seeded
/// where it is missing or empty.
pub fn get_hardcoded_default_ignore_patterns() -> (patterns: Vec<String>)
    ensures
        string_views(patterns@) == default_ignore_patterns(),
{
    let mut patterns: Vec<String> = Vec::new();
    let mut i: usize = 0;
    while i < DEFAULT_PATTERN_COUNT
        invariant
            i <= DEFAULT_PATTERN_COUNT,
            patterns@.len() == i,
            forall|j: int| 0 <= j < i ==> (#[trigger] patterns@[j])@ == default_pattern(j as usize),
        decreases DEFAULT_PATTERN_COUNT - i,
    {
        patterns.push(pattern_literal(i).to_owned());
        i += 1;
    }
    proof {
        assert(string_views(patterns@) =~= default_ignore_patterns());
    }
    patterns
}

/// Whether the stored default patterns have to be seeded: the setting is
/// missing, blank, or an empty list.
pub open spec fn seeding_needed(stored: Option<Seq<char>>) -> bool {
    match stored {
        None => true,
        Some(value) => trimmed(value).len() == 0 || trimmed(value) == "[]"@,
    }
}

/// Says whether the stored default patterns have to be seeded.
pub fn needs_seeding(stored: Option<&str>) -> (needed: bool)
    ensures
        needed == seeding_needed(
            match stored {
                Some(value) => Some(value@),
                None => None,
            },
        ),
{
    match stored {
        None => true,
        Some(value) => {
            let text = trim_string(value);
            text.as_str().is_empty() || same_text(text.as_str(), "[]")
        },
    }
}

/// The patterns that a project is stored with. A project that is stored
/// for the first time (it has no id yet) and brings no patterns takes the
/// global defaults of the setting; any other keeps its own.
pub open spec fn stored_patterns(id: i32, given: Seq<Seq<char>>, setting: Option<Seq<char>>) -> Seq<
    Seq<char>,
> {
    if id <= 0 && given.len() == 0 {
        global_patterns_of(setting)
    } else {
        given
    }
}

/// The patterns to store a project with, given the stored setting of the
/// default patterns where it could be read.
pub fn patterns_to_store(project: &Project, setting: Option<&str>) -> (patterns: Vec<String>)
    ensures
        string_views(patterns@) == stored_patterns(
            project.id,
            string_views(project.ignore_patterns@),
            match setting {
                Some(json) => Some(json@),
                None => None,
            },
        ),
{
    if project.id <= 0 && project.ignore_patterns.len() == 0 {
        resolve_global_patterns(setting)
    } else {
        let none: Vec<String> = Vec::new();
        proof {
            assert(string_views(none@) + string_views(project.ignore_patterns@) =~= string_views(
                project.ignore_patterns@,
            ));
        }
        merge_patterns(none, &project.ignore_patterns)
    }
}

} // verus!
