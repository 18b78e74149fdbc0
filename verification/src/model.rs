//! Plain data types shared by both storage backends.
//!
//! Paths are carried as `String`s: for the filesystem backend they are the
//! filesystem paths, for the SQLite backend logical placement paths such as
//! `roots/parent--<id>/children/child--<id>`.
use vstd::prelude::*;

use crate::text::{push_chars, push_str, string_from_str};

verus! {

pub type NodeId = String;

pub type ContextId = String;

#[derive(Debug, Clone, PartialEq, Eq)]
pub enum NodeKind {
    Statement,
    QuestionAnswer,
}

#[derive(Debug, Clone, PartialEq, Eq)]
pub enum NodeContent {
    Statement { body: String },
    QuestionAnswer { question: String, answer: String },
}

#[derive(Debug, Clone, PartialEq, Eq)]
pub struct Node {
    pub id: NodeId,
    pub kind: NodeKind,
    pub title: String,
    pub reviewed: bool,
    pub content: NodeContent,
    pub created_at_unix: u64,
    pub updated_at_unix: u64,
    pub canonical_path: String,
    pub alias_paths: Vec<String>,
}

#[derive(Debug, Clone, PartialEq, Eq)]
pub struct NewNode {
    pub kind: NodeKind,
    pub title: String,
    pub content: NodeContent,
}

#[derive(Debug, Clone, Default, PartialEq, Eq)]
pub struct NodePatch {
    pub title: Option<String>,
    pub content: Option<NodeContent>,
    pub reviewed: Option<bool>,
}

#[derive(Debug, Clone, PartialEq, Eq)]
pub struct NodeSummary {
    pub id: NodeId,
    pub kind: NodeKind,
    pub title: String,
    pub canonical_path: String,
    pub is_alias: bool,
}

#[derive(Debug, Clone, PartialEq, Eq)]
pub struct ContextDocument {
    pub id: ContextId,
    pub title: String,
    pub filename: String,
    pub markdown: String,
    pub created_at_unix: u64,
    pub updated_at_unix: u64,
    pub path: String,
}

#[derive(Debug, Clone, PartialEq, Eq)]
pub struct NewContextDocument {
    pub title: String,
    pub markdown: String,
}

#[derive(Debug, Clone, Default, PartialEq, Eq)]
pub struct ContextDocumentPatch {
    pub title: Option<String>,
    pub markdown: Option<String>,
}

#[derive(Debug, Clone, PartialEq, Eq)]
pub struct ContextSummary {
    pub id: ContextId,
    pub title: String,
    pub filename: String,
    pub path: String,
}

#[derive(Debug, Clone, Copy, PartialEq, Eq)]
pub enum DeleteMode {
    FailIfHasChildren,
    Recursive,
}

#[derive(Debug, Clone, Copy, PartialEq, Eq)]
pub enum OrphanPolicy {
    MoveToRoots,
    DeleteIfNoParents,
    FailIfWouldOrphan,
}

#[derive(Debug, Clone, Copy, Default, PartialEq, Eq)]
pub struct TraversalOptions {
    pub max_depth: Option<usize>,
}

#[derive(Debug, Clone)]
pub struct GraphIndex {
    pub contexts: Vec<ContextSummary>,
    pub nodes: Vec<NodeSummary>,
    pub edges: Vec<GraphEdge>,
    pub problems: Vec<GraphProblem>,
}

#[derive(Debug, Clone, PartialEq, Eq)]
pub struct GraphEdge {
    pub parent_id: NodeId,
    pub child_id: NodeId,
    pub path: String,
    pub is_symlink: bool,
}

#[derive(Debug, Clone, PartialEq, Eq)]
pub enum GraphProblem {
    BrokenSymlink { path: String },
    DuplicateContextDocument { id: ContextId, paths: Vec<String> },
    DuplicateCanonicalNode { id: NodeId, paths: Vec<String> },
    InvalidContextMarkdown { path: String, reason: String },
    MissingNodeMarkdown { path: String },
    MissingChildrenDirectory { path: String },
    InvalidMarkdown { path: String, reason: String },
    CycleDetected { node_id: NodeId },
}

/// Errors of graph operations. `Io` carries the text of the I/O failure.
#[derive(Debug, Clone, PartialEq, Eq)]
pub enum GraphError {
    Io(String),
    Storage(String),
    InvalidGraphRoot(String),
    ContextNotFound(String),
    NodeNotFound(String),
    ParentNotFound(String),
    ChildNotFound(String),
    DuplicateNodeId(String),
    DuplicateContextId(String),
    InvalidNodeId(String),
    InvalidContextId(String),
    InvalidTitle,
    InvalidContextMarkdown { path: String, reason: String },
    InvalidMarkdown { path: String, reason: String },
    MissingNodeMarkdown(String),
    MissingChildrenDirectory(String),
    BrokenSymlink(String),
    SymlinkUnsupported(String),
    CycleDetected,
    NodeHasChildren(String),
    WouldOrphanNode(String),
    PermissionDenied(String),
    AliasConflict(String),
    DuplicateCanonicalNode { id: String, paths: Vec<String> },
    DuplicateContextDocument { id: String, paths: Vec<String> },
}

pub open spec fn kind_of_content(content: NodeContent) -> NodeKind {
    match content {
        NodeContent::Statement { .. } => NodeKind::Statement,
        NodeContent::QuestionAnswer { .. } => NodeKind::QuestionAnswer,
    }
}

/// `paths` rendered as `["a", "b"]`.
pub open spec fn debug_paths(paths: Seq<Seq<char>>) -> Seq<char> {
    "["@ + debug_path_items(paths) + "]"@
}

pub open spec fn debug_path_items(paths: Seq<Seq<char>>) -> Seq<char>
    decreases paths.len(),
{
    if paths.len() == 0 {
        Seq::empty()
    } else if paths.len() == 1 {
        "\""@ + paths[0] + "\""@
    } else {
        debug_path_items(paths.drop_last()) + ", \""@ + paths.last() + "\""@
    }
}

/// The display text of an error.
pub open spec fn error_message(e: GraphError) -> Seq<char> {
    match e {
        GraphError::Io(m) => "io error: "@ + m@,
        GraphError::Storage(m) => "storage error: "@ + m@,
        GraphError::InvalidGraphRoot(m) => "invalid graph root: "@ + m@,
        GraphError::ContextNotFound(m) => "context document not found: "@ + m@,
        GraphError::NodeNotFound(m) => "node not found: "@ + m@,
        GraphError::ParentNotFound(m) => "parent not found: "@ + m@,
        GraphError::ChildNotFound(m) => "child not found: "@ + m@,
        GraphError::DuplicateNodeId(m) => "duplicate node id: "@ + m@,
        GraphError::DuplicateContextId(m) => "duplicate context id: "@ + m@,
        GraphError::InvalidNodeId(m) => "invalid node id: "@ + m@,
        GraphError::InvalidContextId(m) => "invalid context id: "@ + m@,
        GraphError::InvalidTitle => "invalid title"@,
        GraphError::InvalidContextMarkdown { path, reason } => "invalid context markdown at "@
            + path@ + ": "@ + reason@,
        GraphError::InvalidMarkdown { path, reason } => "invalid markdown at "@ + path@ + ": "@
            + reason@,
        GraphError::MissingNodeMarkdown(p) => "missing node.md at "@ + p@,
        GraphError::MissingChildrenDirectory(p) => "missing children directory at "@ + p@,
        GraphError::BrokenSymlink(p) => "broken symlink at "@ + p@,
        GraphError::SymlinkUnsupported(m) => "symlink unsupported: "@ + m@,
        GraphError::CycleDetected => "cycle detected"@,
        GraphError::NodeHasChildren(m) => "node has children: "@ + m@,
        GraphError::WouldOrphanNode(m) => "operation would orphan node: "@ + m@,
        GraphError::PermissionDenied(p) => "permission denied: "@ + p@,
        GraphError::AliasConflict(p) => "alias conflict: "@ + p@,
        GraphError::DuplicateCanonicalNode { id, paths } => "duplicate canonical node "@ + id@
            + ": "@ + debug_paths(paths@.map_values(|p: String| p@)),
        GraphError::DuplicateContextDocument { id, paths } => "duplicate context document "@
            + id@ + ": "@ + debug_paths(paths@.map_values(|p: String| p@)),
    }
}

fn prefixed(prefix: &str, rest: &String) -> (r: String)
    ensures
        r@ == prefix@ + rest@,
{
    let mut s = string_from_str(prefix);
    push_str(&mut s, rest.as_str());
    s
}

fn push_debug_paths(s: &mut String, paths: &Vec<String>)
    ensures
        final(s)@ == old(s)@ + debug_paths(paths@.map_values(|p: String| p@)),
{
    let ghost start = s@;
    let ghost all = paths@.map_values(|p: String| p@);
    push_str(s, "[");
    let mut i: usize = 0;
    while i < paths.len()
        invariant
            i <= paths.len(),
            all == paths@.map_values(|p: String| p@),
            s@ == start + "["@ + debug_path_items(all.take(i as int)),
        decreases paths.len() - i,
    {
        if i > 0 {
            push_str(s, ", \"");
        } else {
            push_str(s, "\"");
        }
        push_str(s, paths[i].as_str());
        push_str(s, "\"");
        proof {
            let t = all.take(i + 1);
            assert(t.drop_last() =~= all.take(i as int));
            assert(t.last() == paths@[i as int]@);
            if i == 0 {
                assert(all.take(0) =~= Seq::<Seq<char>>::empty());
            }
        }
        i += 1;
    }
    push_str(s, "]");
    assert(all.take(paths.len() as int) =~= all);
}

impl GraphError {
    /// The display text of the error.
    pub fn message(&self) -> (r: String)
        ensures
            r@ == error_message(*self),
    {
        match self {
            GraphError::Io(m) => prefixed("io error: ", m),
            GraphError::Storage(m) => prefixed("storage error: ", m),
            GraphError::InvalidGraphRoot(m) => prefixed("invalid graph root: ", m),
            GraphError::ContextNotFound(m) => prefixed("context document not found: ", m),
            GraphError::NodeNotFound(m) => prefixed("node not found: ", m),
            GraphError::ParentNotFound(m) => prefixed("parent not found: ", m),
            GraphError::ChildNotFound(m) => prefixed("child not found: ", m),
            GraphError::DuplicateNodeId(m) => prefixed("duplicate node id: ", m),
            GraphError::DuplicateContextId(m) => prefixed("duplicate context id: ", m),
            GraphError::InvalidNodeId(m) => prefixed("invalid node id: ", m),
            GraphError::InvalidContextId(m) => prefixed("invalid context id: ", m),
            GraphError::InvalidTitle => string_from_str("invalid title"),
            GraphError::InvalidContextMarkdown { path, reason } => {
                let mut s = prefixed("invalid context markdown at ", path);
                push_str(&mut s, ": ");
                push_str(&mut s, reason.as_str());
                s
            },
            GraphError::InvalidMarkdown { path, reason } => {
                let mut s = prefixed("invalid markdown at ", path);
                push_str(&mut s, ": ");
                push_str(&mut s, reason.as_str());
                s
            },
            GraphError::MissingNodeMarkdown(p) => prefixed("missing node.md at ", p),
            GraphError::MissingChildrenDirectory(p) => prefixed("missing children directory at ", p),
            GraphError::BrokenSymlink(p) => prefixed("broken symlink at ", p),
            GraphError::SymlinkUnsupported(m) => prefixed("symlink unsupported: ", m),
            GraphError::CycleDetected => string_from_str("cycle detected"),
            GraphError::NodeHasChildren(m) => prefixed("node has children: ", m),
            GraphError::WouldOrphanNode(m) => prefixed("operation would orphan node: ", m),
            GraphError::PermissionDenied(p) => prefixed("permission denied: ", p),
            GraphError::AliasConflict(p) => prefixed("alias conflict: ", p),
            GraphError::DuplicateCanonicalNode { id, paths } => {
                let mut s = prefixed("duplicate canonical node ", id);
                push_str(&mut s, ": ");
                push_debug_paths(&mut s, paths);
                s
            },
            GraphError::DuplicateContextDocument { id, paths } => {
                let mut s = prefixed("duplicate context document ", id);
                push_str(&mut s, ": ");
                push_debug_paths(&mut s, paths);
                s
            },
        }
    }
}

} // verus!
