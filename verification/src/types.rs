//! The engine's public value types: commits as seen by callers, the repo
//! summary, and structured diffs.

use vstd::prelude::*;

verus! {

/// A commit id.  Currently a hex digest rendered as a string.
pub type NodeId = String;

/// One node of the version graph: an immutable commit.
#[derive(Debug, Clone)]
pub struct VersionNode {
    pub id: NodeId,
    pub parents: Vec<NodeId>,
    pub message: String,
    pub created_at_unix_ms: i64,
}

pub struct VersionNodeView {
    pub id: Seq<char>,
    pub parents: Seq<Seq<char>>,
    pub message: Seq<char>,
    pub created_at_unix_ms: int,
}

impl View for VersionNode {
    type V = VersionNodeView;

    open spec fn view(&self) -> VersionNodeView {
        VersionNodeView {
            id: self.id@,
            parents: self.parents@.map_values(|s: String| s@),
            message: self.message@,
            created_at_unix_ms: self.created_at_unix_ms as int,
        }
    }
}

/// A cheap summary of the repository: current head and node count.
#[derive(Debug, Clone)]
pub struct RepoState {
    pub head: Option<NodeId>,
    pub node_count: usize,
}

pub struct RepoStateView {
    pub head: Option<Seq<char>>,
    pub node_count: int,
}

impl View for RepoState {
    type V = RepoStateView;

    open spec fn view(&self) -> RepoStateView {
        RepoStateView {
            head: match self.head {
                Some(ref h) => Some(h@),
                None => None,
            },
            node_count: self.node_count as int,
        }
    }
}

/// How a path changed between two snapshots.
#[derive(Debug, Clone, Copy, PartialEq, Eq, Structural)]
pub enum DiffKind {
    Added,
    Removed,
    Modified,
}

/// The change report for a single path.
#[derive(Debug, Clone)]
pub struct FileDiff {
    pub path: String,
    pub kind: DiffKind,
    pub before_text: Option<String>,
    pub after_text: Option<String>,
    pub unified: Option<String>,
    pub is_binary: bool,
}

pub struct FileDiffView {
    pub path: Seq<char>,
    pub kind: DiffKind,
    pub before_text: Option<Seq<char>>,
    pub after_text: Option<Seq<char>>,
    pub unified: Option<Seq<char>>,
    pub is_binary: bool,
}

impl View for FileDiff {
    type V = FileDiffView;

    open spec fn view(&self) -> FileDiffView {
        FileDiffView {
            path: self.path@,
            kind: self.kind,
            before_text: match self.before_text {
                Some(ref t) => Some(t@),
                None => None,
            },
            after_text: match self.after_text {
                Some(ref t) => Some(t@),
                None => None,
            },
            unified: match self.unified {
                Some(ref t) => Some(t@),
                None => None,
            },
            is_binary: self.is_binary,
        }
    }
}

/// The full diff between two commits.
#[derive(Debug, Clone)]
pub struct NodeDiff {
    pub from: String,
    pub to: String,
    pub files: Vec<FileDiff>,
}

pub struct NodeDiffView {
    pub from: Seq<char>,
    pub to: Seq<char>,
    pub files: Seq<FileDiffView>,
}

impl View for NodeDiff {
    type V = NodeDiffView;

    open spec fn view(&self) -> NodeDiffView {
        NodeDiffView {
            from: self.from@,
            to: self.to@,
            files: self.files@.map_values(|f: FileDiff| f@),
        }
    }
}

} // verus!
