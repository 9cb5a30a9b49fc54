//! Plain data shared by the scanning stages.

use vstd::prelude::*;

verus! {

/// A project record, as far as a scan reads it: where to scan and which
/// project-specific ignore patterns apply.
#[derive(Debug)]
pub struct Project {
    pub id: i32,
    pub title: String,
    pub root_folder: Option<String>,
    pub ignore_patterns: Vec<String>,
    pub updated_at: Option<String>,
    pub prefix: String,
}

/// A path that survived ignore filtering during traversal.
#[derive(Debug)]
pub struct Candidate {
    pub path: String,
    pub is_dir: bool,
}

impl Clone for Candidate {
    fn clone(&self) -> (out: Self)
        ensures
            out == *self,
    {
        Candidate { path: self.path.clone(), is_dir: self.is_dir }
    }
}

/// Mathematical model of a [`Candidate`].
pub struct CandidateView {
    pub path: Seq<char>,
    pub is_dir: bool,
}

impl View for Candidate {
    type V = CandidateView;

    open spec fn view(&self) -> CandidateView {
        CandidateView { path: self.path@, is_dir: self.is_dir }
    }
}

/// The models of a sequence of candidates, element by element.
pub open spec fn candidate_views(s: Seq<Candidate>) -> Seq<CandidateView> {
    Seq::new(s.len(), |i: int| s[i]@)
}

/// The character sequences of a sequence of strings, element by element.
pub open spec fn string_views(s: Seq<String>) -> Seq<Seq<char>> {
    Seq::new(s.len(), |i: int| s[i]@)
}

/// One node of the scanned tree: a file, or a directory with its children.
#[derive(Debug)]
pub struct FileNode {
    pub path: String,
    pub name: String,
    pub is_dir: bool,
    pub lines: usize,
    pub tokens: usize,
    pub size: u64,
    pub last_modified: String,
    pub children: Vec<FileNode>,
}

/// Mathematical model of a [`FileNode`]. The counters are unbounded here, so
/// that sums over children can be stated without regard to machine limits.
pub struct NodeView {
    pub path: Seq<char>,
    pub name: Seq<char>,
    pub is_dir: bool,
    pub lines: nat,
    pub tokens: nat,
    pub size: nat,
    pub last_modified: Seq<char>,
    pub children: Seq<NodeView>,
}

/// The model of `node`, with the models of its children in their order.
pub open spec fn node_view(node: FileNode) -> NodeView
    decreases node,
{
    NodeView {
        path: node.path@,
        name: node.name@,
        is_dir: node.is_dir,
        lines: node.lines as nat,
        tokens: node.tokens as nat,
        size: node.size as nat,
        last_modified: node.last_modified@,
        children: Seq::new(
            node.children@.len(),
            |i: int|
                if 0 <= i < node.children@.len() {
                    node_view(node.children@[i])
                } else {
                    arbitrary()
                },
        ),
    }
}

impl View for FileNode {
    type V = NodeView;

    open spec fn view(&self) -> NodeView {
        node_view(*self)
    }
}

/// The models of a sequence of nodes, element by element.
pub open spec fn node_views(s: Seq<FileNode>) -> Seq<NodeView> {
    Seq::new(s.len(), |i: int| s[i]@)
}

/// The children of a node's model are the models of its children.
pub proof fn lemma_children_views(node: FileNode)
    ensures
        node@.children == node_views(node.children@),
{
    let kids = node@.children;
    assert(kids.len() == node.children@.len());
    assert forall|i: int| 0 <= i < kids.len() implies kids[i] == node.children@[i]@ by {}
    assert(kids =~= node_views(node.children@));
}

} // verus!
