//! Ignore rules: an ordered list of gitignore-style patterns, compiled into
//! a matcher that classifies paths below the project root.

use vstd::prelude::*;
use crate::text::{is_whitespace, lemma_trimmed_last, string_chars, trim_string, trimmed};
use crate::types::string_views;

verus! {

/// What the rules say of a path.
#[derive(Debug, Clone, Copy, PartialEq, Eq, Structural)]
pub enum MatchKind {
    /// No rule matches the path.
    NotMatched,
    /// The last rule that matches the path excludes it.
    Ignored,
    /// The last rule that matches the path is a negation: it re-includes the path.
    Whitelisted,
}

/// `ignore::gitignore::Gitignore`, the compiled matcher, carried as an
/// opaque value.
#[verifier::external_type_specification]
#[verifier::external_body]
pub struct ExGitignore(ignore::gitignore::Gitignore);

/// `ignore::gitignore::GitignoreBuilder`, which collects the glob lines of
/// a matcher, carried as an opaque value.
#[verifier::external_type_specification]
#[verifier::external_body]
pub struct ExGitignoreBuilder(ignore::gitignore::GitignoreBuilder);

/// The root that `GitignoreBuilder::new` keeps for the root path it is
/// given: the path as the platform reads it, without a leading `./`.
pub uninterp spec fn gitignore_root(root: Seq<char>) -> Seq<char>;

/// The root that a `GitignoreBuilder` holds.
pub uninterp spec fn builder_root(b: ignore::gitignore::GitignoreBuilder) -> Seq<char>;

/// The glob lines that a `GitignoreBuilder` has taken in, in the order they
/// were added.
pub uninterp spec fn builder_globs(b: ignore::gitignore::GitignoreBuilder) -> Seq<Seq<char>>;

/// The root that a `Gitignore` holds.
pub uninterp spec fn matcher_root(g: ignore::gitignore::Gitignore) -> Seq<char>;

/// The glob lines that a `Gitignore` holds, in order.
pub uninterp spec fn matcher_globs(g: ignore::gitignore::Gitignore) -> Seq<Seq<char>>;

/// Whether `GitignoreBuilder::add_line` takes a rule line as a glob of a
/// gitignore file.
pub uninterp spec fn glob_line_parses(line: Seq<char>) -> bool;

/// Whether `GitignoreBuilder::build` compiles a set of glob lines into a
/// matcher.
pub uninterp spec fn glob_set_builds(globs: Seq<Seq<char>>) -> bool;

/// What `Gitignore::matched` says of a path, for a matcher with the given
/// root and glob lines.
pub uninterp spec fn glob_verdict(
    root: Seq<char>,
    globs: Seq<Seq<char>>,
    path: Seq<char>,
    is_dir: bool,
) -> MatchKind;

/// A line that is handed to the builder as a rule: not empty, not a
/// comment, and without whitespace at its end.
pub open spec fn is_rule_line(line: Seq<char>) -> bool {
    line.len() > 0 && line[0] != '#' && !is_whitespace(line.last())
}

/// `GitignoreBuilder::new`: a builder for the given root that holds no
/// glob yet.
#[verifier::external_body]
fn new_builder(root: &str) -> (b: ignore::gitignore::GitignoreBuilder)
    ensures
        builder_root(b) == gitignore_root(root@),
        builder_globs(b) == Seq::<Seq<char>>::empty(),
{
    ignore::gitignore::GitignoreBuilder::new(root)
}

/// `GitignoreBuilder::add_line`, for a line that is a rule: the line is
/// taken in behind the globs already held if it parses as a glob, and the
/// builder is left as it was if it does not. Whether it parses depends on
/// the line alone.
#[verifier::external_body]
fn add_line(b: &mut ignore::gitignore::GitignoreBuilder, line: &str) -> (ok: bool)
    requires
        is_rule_line(line@),
    ensures
        ok == glob_line_parses(line@),
        builder_root(*final(b)) == builder_root(*old(b)),
        builder_globs(*final(b)) == if ok {
            builder_globs(*old(b)).push(line@)
        } else {
            builder_globs(*old(b))
        },
{
    b.add_line(None, line).is_ok()
}

/// `GitignoreBuilder::build`: a matcher with the root and the globs of the
/// builder, or nothing where the set of globs does not compile. Whether it
/// compiles depends on the globs alone.
#[verifier::external_body]
fn build_matcher(b: &ignore::gitignore::GitignoreBuilder) -> (g: Option<
    ignore::gitignore::Gitignore,
>)
    ensures
        g is Some == glob_set_builds(builder_globs(*b)),
        g is Some ==> matcher_root(g->0) == builder_root(*b) && matcher_globs(g->0)
            == builder_globs(*b),
{
    b.build().ok()
}

/// `Gitignore::empty`: a matcher without globs.
#[verifier::external_body]
fn empty_matcher() -> (g: ignore::gitignore::Gitignore)
    ensures
        matcher_globs(g) == Seq::<Seq<char>>::empty(),
{
    ignore::gitignore::Gitignore::empty()
}

/// `Gitignore::matched`: what the globs of the matcher say of the path,
/// which depends on the root, the globs, the path and the directory flag
/// alone. A matcher without globs matches nothing.
#[verifier::external_body]
fn matched(g: &ignore::gitignore::Gitignore, path: &str, is_dir: bool) -> (m: MatchKind)
    ensures
        m == glob_verdict(matcher_root(*g), matcher_globs(*g), path@, is_dir),
        matcher_globs(*g).len() == 0 ==> m == MatchKind::NotMatched,
{
    match g.matched(path, is_dir) {
        ignore::Match::None => MatchKind::NotMatched,
        ignore::Match::Ignore(_) => MatchKind::Ignored,
        ignore::Match::Whitelist(_) => MatchKind::Whitelisted,
    }
}

/// Whether a pattern line, once trimmed, is offered to the matcher: blank
/// lines and comments are not.
pub open spec fn is_pattern(line: Seq<char>) -> bool {
    trimmed(line).len() > 0 && trimmed(line)[0] != '#'
}

/// The rules that a pattern list yields: each line trimmed, without the
/// blank lines, the comments and the lines that do not parse, in the order
/// of the list.
pub open spec fn accepted_rules(patterns: Seq<Seq<char>>) -> Seq<Seq<char>>
    decreases patterns.len(),
{
    if patterns.len() == 0 {
        Seq::empty()
    } else if is_pattern(patterns.last()) && glob_line_parses(trimmed(patterns.last())) {
        accepted_rules(patterns.drop_last()).push(trimmed(patterns.last()))
    } else {
        accepted_rules(patterns.drop_last())
    }
}

/// The rules that the compiled matcher holds: the accepted rules, or none
/// at all where they do not compile as a set.
pub open spec fn compiled_rules(patterns: Seq<Seq<char>>) -> Seq<Seq<char>> {
    if glob_set_builds(accepted_rules(patterns)) {
        accepted_rules(patterns)
    } else {
        Seq::empty()
    }
}

/// An ordered pattern list, compiled for one project root.
pub struct CompiledIgnorePatterns {
    gitignore: ignore::gitignore::Gitignore,
    project_root: String,
}

impl CompiledIgnorePatterns {
    /// The rules that the matcher holds, in order.
    pub closed spec fn rules(&self) -> Seq<Seq<char>> {
        matcher_globs(self.gitignore)
    }

    /// The root that the matcher takes paths relative to.
    pub closed spec fn matcher_root(&self) -> Seq<char> {
        matcher_root(self.gitignore)
    }

    /// The project root that the matcher was made for.
    pub closed spec fn project_root(&self) -> Seq<char> {
        self.project_root@
    }

    /// What the rules say of a path.
    pub open spec fn verdict(&self, path: Seq<char>, is_dir: bool) -> MatchKind {
        if self.rules().len() == 0 {
            MatchKind::NotMatched
        } else {
            glob_verdict(self.matcher_root(), self.rules(), path, is_dir)
        }
    }

    /// Compiles the patterns for the project root. Blank lines and comments
    /// are skipped, a line that does not parse is left out, and where the
    /// whole set does not compile the matcher holds no rule and ignores
    /// nothing.
    pub fn new(project_root: &str, patterns: &Vec<String>) -> (compiled: Self)
        ensures
            compiled.project_root() == project_root@,
            compiled.rules() == compiled_rules(string_views(patterns@)),
            compiled.rules().len() > 0 ==> compiled.matcher_root() == gitignore_root(
                project_root@,
            ),
    {
        let ghost lines = string_views(patterns@);
        let mut builder = new_builder(project_root);
        let mut i: usize = 0;
        while i < patterns.len()
            invariant
                i <= patterns.len(),
                lines == string_views(patterns@),
                builder_root(builder) == gitignore_root(project_root@),
                builder_globs(builder) == accepted_rules(lines.take(i as int)),
            decreases patterns.len() - i,
        {
            proof {
                assert(lines.take(i + 1).drop_last() =~= lines.take(i as int));
                assert(lines.take(i + 1).last() == patterns@[i as int]@);
                lemma_trimmed_last(patterns@[i as int]@);
            }
            let line = trim_string(patterns[i].as_str());
            let chars = string_chars(line.as_str());
            if chars.len() > 0 && chars[0] != '#' {
                let _ = add_line(&mut builder, line.as_str());
            }
            i += 1;
        }
        proof {
            assert(lines.take(patterns.len() as int) =~= lines);
        }
        let gitignore = match build_matcher(&builder) {
            Some(g) => g,
            None => empty_matcher(),
        };
        CompiledIgnorePatterns { gitignore, project_root: project_root.to_owned() }
    }

    /// Classifies a path: not matched, ignored, or re-included by a
    /// negated rule.
    pub fn classify(&self, absolute_path: &str, is_dir: bool) -> (m: MatchKind)
        ensures
            m == self.verdict(absolute_path@, is_dir),
    {
        matched(&self.gitignore, absolute_path, is_dir)
    }

    /// Whether the rules exclude the path.
    pub fn is_ignored(&self, absolute_path: &str, is_dir: bool) -> (ignored: bool)
        ensures
            ignored == (self.verdict(absolute_path@, is_dir) == MatchKind::Ignored),
    {
        match self.classify(absolute_path, is_dir) {
            MatchKind::Ignored => true,
            _ => false,
        }
    }
}

} // verus!
