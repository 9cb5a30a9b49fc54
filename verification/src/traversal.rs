//! The directory walk: which paths become candidates, in which order the
//! walk visits them, and where it stops. Listing a directory is left to
//! the caller; the walk says which one to list and takes the entries back.

use vstd::prelude::*;
use crate::ignore_handler::{CompiledIgnorePatterns, MatchKind};
use crate::types::{candidate_views, Candidate, CandidateView};

verus! {

/// The deepest level below the root that the walk visits.
pub const MAX_DEPTH: usize = 30;

/// Whether one of `collected` has the path `path`.
pub open spec fn holds_path(collected: Seq<CandidateView>, path: Seq<char>) -> bool {
    exists|i: int| 0 <= i < collected.len() && (#[trigger] collected[i]).path == path
}

/// No path occurs twice among `collected`.
pub open spec fn paths_distinct(collected: Seq<CandidateView>) -> bool {
    forall|i: int, j: int|
        0 <= i < j < collected.len() ==> (#[trigger] collected[i]).path != (#[trigger] collected[j]).path
}

/// Whether the walk takes a path in: not once it is cancelled, not below
/// the depth limit, and not where the rules ignore the path.
pub open spec fn visits(
    rules: CompiledIgnorePatterns,
    path: Seq<char>,
    is_dir: bool,
    depth: int,
    cancelled: bool,
) -> bool {
    !cancelled && depth <= MAX_DEPTH && rules.verdict(path, is_dir) != MatchKind::Ignored
}

/// The candidates after a path is visited: it is appended unless it is
/// there already.
pub open spec fn gathered(collected: Seq<CandidateView>, path: Seq<char>, is_dir: bool) -> Seq<
    CandidateView,
> {
    if holds_path(collected, path) {
        collected
    } else {
        collected.push(CandidateView { path, is_dir })
    }
}

fn contains_path(collected: &Vec<Candidate>, path: &str) -> (r: bool)
    ensures
        r == holds_path(candidate_views(collected@), path@),
{
    let ghost views = candidate_views(collected@);
    let mut i: usize = 0;
    while i < collected.len()
        invariant
            i <= collected.len(),
            views == candidate_views(collected@),
            forall|j: int| 0 <= j < i ==> (#[trigger] views[j]).path != path@,
        decreases collected.len() - i,
    {
        proof {
            assert(views[i as int] == collected@[i as int]@);
        }
        match crate::text::rank_strings(collected[i].path.as_str(), path) {
            crate::text::Rank::Same => {
                return true;
            },
            _ => {},
        }
        i += 1;
    }
    false
}

/// Visits one path of the walk. Where the walk is cancelled, the path lies
/// deeper than [`MAX_DEPTH`], or the rules ignore it, nothing happens.
/// Otherwise the path becomes a candidate, unless it is one already, and
/// the result says whether it is a directory whose entries are to be
/// visited next, one level deeper.
pub fn gather_valid_items(
    path: &str,
    is_dir: bool,
    ignore_patterns: &CompiledIgnorePatterns,
    collected: &mut Vec<Candidate>,
    depth: usize,
    cancelled: bool,
) -> (descend: bool)
    ensures
        candidate_views(final(collected)@) == if visits(
            *ignore_patterns,
            path@,
            is_dir,
            depth as int,
            cancelled,
        ) {
            gathered(candidate_views(old(collected)@), path@, is_dir)
        } else {
            candidate_views(old(collected)@)
        },
        descend == (is_dir && visits(*ignore_patterns, path@, is_dir, depth as int, cancelled)),
        paths_distinct(candidate_views(old(collected)@)) ==> paths_distinct(
            candidate_views(final(collected)@),
        ),
{
    if cancelled {
        return false;
    }
    if depth > MAX_DEPTH {
        return false;
    }
    if ignore_patterns.is_ignored(path, is_dir) {
        return false;
    }
    if !contains_path(collected, path) {
        let ghost before = candidate_views(collected@);
        collected.push(Candidate { path: path.to_owned(), is_dir });
        proof {
            let after = candidate_views(collected@);
            assert(after =~= before.push(CandidateView { path: path@, is_dir }));
            if paths_distinct(before) {
                assert forall|i: int, j: int| 0 <= i < j < after.len() implies (#[trigger] after[i]).path
                    != (#[trigger] after[j]).path by {
                    if j < before.len() {
                        assert(after[i] == before[i] && after[j] == before[j]);
                    } else {
                        assert(after[i] == before[i]);
                    }
                }
            }
        }
    }
    is_dir
}

/// A path that waits to be visited, with its level below the root.
pub struct Pending {
    pub path: String,
    pub is_dir: bool,
    pub depth: usize,
}

/// Mathematical model of a [`Pending`] path.
pub struct PendingView {
    pub path: Seq<char>,
    pub is_dir: bool,
    pub depth: int,
}

impl View for Pending {
    type V = PendingView;

    open spec fn view(&self) -> PendingView {
        PendingView { path: self.path@, is_dir: self.is_dir, depth: self.depth as int }
    }
}

/// The models of a sequence of pending paths.
pub open spec fn pending_views(s: Seq<Pending>) -> Seq<PendingView> {
    Seq::new(s.len(), |i: int| s[i]@)
}

/// What the caller of the walk does next.
#[derive(Debug)]
pub enum WalkStep {
    /// List the entries of this directory and hand them to the walk.
    List(String),
    /// Nothing; ask for the next step.
    Visited,
    /// The walk is through.
    Finished,
    /// The walk was cancelled.
    Cancelled,
}

/// Mathematical model of a [`WalkStep`].
pub enum StepView {
    List(Seq<char>),
    Visited,
    Finished,
    Cancelled,
}

impl View for WalkStep {
    type V = StepView;

    open spec fn view(&self) -> StepView {
        match self {
            WalkStep::List(p) => StepView::List(p@),
            WalkStep::Visited => StepView::Visited,
            WalkStep::Finished => StepView::Finished,
            WalkStep::Cancelled => StepView::Cancelled,
        }
    }
}

/// Mathematical model of a [`Walk`]: the paths that wait, the next one
/// last; the candidates so far; the level of the directory whose entries
/// are awaited, if any; and whether the walk was cancelled.
pub struct WalkView {
    pub stack: Seq<PendingView>,
    pub collected: Seq<CandidateView>,
    pub listing: Option<int>,
    pub stopped: bool,
}

/// A depth-first walk over a directory tree, one step at a time.
pub struct Walk {
    stack: Vec<Pending>,
    collected: Vec<Candidate>,
    listing: Option<usize>,
    stopped: bool,
}

/// The stack after the entries of a directory are put on it, the first
/// entry on top, each one level below the directory.
pub open spec fn with_children(stack: Seq<PendingView>, children: Seq<CandidateView>, depth: int) -> Seq<
    PendingView,
>
    decreases children.len(),
{
    if children.len() == 0 {
        stack
    } else {
        with_children(
            stack.push(
                PendingView { path: children.last().path, is_dir: children.last().is_dir, depth },
            ),
            children.drop_last(),
            depth,
        )
    }
}

/// The walk after one step, and what the caller does next. A cancelled
/// walk drops what waits and stays cancelled. Otherwise the next path is
/// visited: it becomes a candidate unless the depth limit or the rules
/// keep it out, and a directory that became one is listed next.
pub open spec fn step_of(w: WalkView, rules: CompiledIgnorePatterns, cancelled: bool) -> (
    WalkView,
    StepView,
) {
    if w.stopped || cancelled {
        (
            WalkView { stack: Seq::empty(), collected: w.collected, listing: None, stopped: true },
            StepView::Cancelled,
        )
    } else if w.stack.len() == 0 {
        (WalkView { listing: None, ..w }, StepView::Finished)
    } else {
        let p = w.stack.last();
        let rest = w.stack.drop_last();
        if visits(rules, p.path, p.is_dir, p.depth, false) {
            let collected = gathered(w.collected, p.path, p.is_dir);
            if p.is_dir {
                (
                    WalkView { stack: rest, collected, listing: Some(p.depth), stopped: false },
                    StepView::List(p.path),
                )
            } else {
                (
                    WalkView { stack: rest, collected, listing: None, stopped: false },
                    StepView::Visited,
                )
            }
        } else {
            (
                WalkView { stack: rest, collected: w.collected, listing: None, stopped: false },
                StepView::Visited,
            )
        }
    }
}

/// The walk after the entries of the directory it asked for are handed in.
/// Where it asked for none, or was cancelled, they are dropped.
pub open spec fn supplied(w: WalkView, children: Seq<CandidateView>) -> WalkView {
    match w.listing {
        Some(depth) => if w.stopped {
            WalkView { listing: None, ..w }
        } else {
            WalkView { stack: with_children(w.stack, children, depth + 1), listing: None, ..w }
        },
        None => w,
    }
}

impl View for Walk {
    type V = WalkView;

    closed spec fn view(&self) -> WalkView {
        WalkView {
            stack: pending_views(self.stack@),
            collected: candidate_views(self.collected@),
            listing: match self.listing {
                Some(d) => Some(d as int),
                None => None,
            },
            stopped: self.stopped,
        }
    }
}

impl Walk {
    /// The walk is in order: no awaited level lies beyond the depth limit,
    /// and no path is a candidate twice.
    pub closed spec fn wf(&self) -> bool {
        &&& match self.listing {
            Some(d) => d <= MAX_DEPTH,
            None => true,
        }
        &&& paths_distinct(candidate_views(self.collected@))
    }

    /// A walk that starts at the root, with no candidate yet.
    pub fn start(root: &str, root_is_dir: bool) -> (walk: Walk)
        ensures
            walk.wf(),
            walk@ == (WalkView {
                stack: seq![PendingView { path: root@, is_dir: root_is_dir, depth: 0 }],
                collected: Seq::empty(),
                listing: None,
                stopped: false,
            }),
    {
        let mut stack: Vec<Pending> = Vec::new();
        stack.push(Pending { path: root.to_owned(), is_dir: root_is_dir, depth: 0 });
        let walk = Walk { stack, collected: Vec::new(), listing: None, stopped: false };
        proof {
            assert(pending_views(walk.stack@) =~= seq![
                PendingView { path: root@, is_dir: root_is_dir, depth: 0 },
            ]);
            assert(candidate_views(walk.collected@) =~= Seq::<CandidateView>::empty());
        }
        walk
    }

    /// Takes one step. `cancelled` is the state of the cancellation signal
    /// at this moment.
    pub fn step(&mut self, rules: &CompiledIgnorePatterns, cancelled: bool) -> (next: WalkStep)
        requires
            old(self).wf(),
        ensures
            final(self).wf(),
            final(self)@ == step_of(old(self)@, *rules, cancelled).0,
            next@ == step_of(old(self)@, *rules, cancelled).1,
    {
        if self.stopped || cancelled {
            self.stack.clear();
            self.listing = None;
            self.stopped = true;
            proof {
                assert(pending_views(self.stack@) =~= Seq::<PendingView>::empty());
            }
            return WalkStep::Cancelled;
        }
        let ghost before = pending_views(self.stack@);
        match self.stack.pop() {
            None => {
                self.listing = None;
                proof {
                    assert(pending_views(self.stack@) =~= before);
                }
                WalkStep::Finished
            },
            Some(p) => {
                proof {
                    assert(pending_views(self.stack@) =~= before.drop_last());
                    assert(before.last() == p@);
                }
                let descend = gather_valid_items(
                    p.path.as_str(),
                    p.is_dir,
                    rules,
                    &mut self.collected,
                    p.depth,
                    false,
                );
                if descend {
                    self.listing = Some(p.depth);
                    WalkStep::List(p.path)
                } else {
                    self.listing = None;
                    WalkStep::Visited
                }
            },
        }
    }

    /// Hands the entries of the directory that the last step asked for to
    /// the walk, in the order of the listing. A listing that failed is
    /// handed in as no entries.
    pub fn supply_children(&mut self, children: Vec<Candidate>)
        requires
            old(self).wf(),
        ensures
            final(self).wf(),
            final(self)@ == supplied(old(self)@, candidate_views(children@)),
    {
        let listing = self.listing;
        self.listing = None;
        match listing {
            Some(d) => {
                if !self.stopped {
                    let mut rest = children;
                    let ghost target = supplied(old(self)@, candidate_views(children@)).stack;
                    while rest.len() > 0
                        invariant
                            d <= MAX_DEPTH,
                            self.listing is None,
                            !self.stopped,
                            self.collected == old(self).collected,
                            with_children(
                                pending_views(self.stack@),
                                candidate_views(rest@),
                                d + 1,
                            ) == target,
                        decreases rest.len(),
                    {
                        let ghost stack_before = pending_views(self.stack@);
                        let ghost rest_before = candidate_views(rest@);
                        let c = rest.pop();
                        match c {
                            Some(c) => {
                                self.stack.push(
                                    Pending { path: c.path, is_dir: c.is_dir, depth: d + 1 },
                                );
                                proof {
                                    assert(candidate_views(rest@) =~= rest_before.drop_last());
                                    assert(pending_views(self.stack@) =~= stack_before.push(
                                        PendingView {
                                            path: rest_before.last().path,
                                            is_dir: rest_before.last().is_dir,
                                            depth: d + 1,
                                        },
                                    ));
                                }
                            },
                            None => {},
                        }
                    }
                }
            },
            None => {},
        }
    }

    /// Whether the walk was cancelled.
    pub fn was_cancelled(&self) -> (stopped: bool)
        ensures
            stopped == self@.stopped,
    {
        self.stopped
    }

    /// The candidates so far, in the order they were found; no path occurs
    /// twice among them.
    pub fn into_candidates(self) -> (found: Vec<Candidate>)
        requires
            self.wf(),
        ensures
            candidate_views(found@) == self@.collected,
            paths_distinct(candidate_views(found@)),
    {
        self.collected
    }
}

} // verus!
