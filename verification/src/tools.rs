//! The MCP tools: their names and descriptions, what each call does to the
//! graph, and how its result or error is reported.
use vstd::prelude::*;

use crate::backend::{self, Backend};
use crate::model::{
    ContextDocument, ContextDocumentPatch, ContextSummary, DeleteMode, GraphError, GraphIndex,
    NewContextDocument, NewNode, Node, NodePatch, NodeSummary, OrphanPolicy, TraversalOptions,
};
use crate::scan::{copy_texts, texts};
use crate::text::{push_str, str_eq, string_from_str};

verus! {

/// The tools the server offers.
#[derive(Debug, Clone, Copy, PartialEq, Eq)]
pub enum ToolName {
    AddContextDocument,
    ReadContextDocument,
    UpdateContextDocument,
    DeleteContextDocument,
    ListContextDocuments,
    AddRootNode,
    AddChildNode,
    ReadNode,
    UpdateNode,
    DeleteNode,
    LinkExistingNode,
    UnlinkChild,
    ListRoots,
    ListChildren,
    ListParents,
    ListAncestors,
    ListDescendants,
    RebuildIndex,
}

/// A tool's MCP name.
pub open spec fn tool_name_text(t: ToolName) -> Seq<char> {
    match t {
        ToolName::AddContextDocument => "focal_add_context_document"@,
        ToolName::ReadContextDocument => "focal_read_context_document"@,
        ToolName::UpdateContextDocument => "focal_update_context_document"@,
        ToolName::DeleteContextDocument => "focal_delete_context_document"@,
        ToolName::ListContextDocuments => "focal_list_context_documents"@,
        ToolName::AddRootNode => "focal_add_root_node"@,
        ToolName::AddChildNode => "focal_add_child_node"@,
        ToolName::ReadNode => "focal_read_node"@,
        ToolName::UpdateNode => "focal_update_node"@,
        ToolName::DeleteNode => "focal_delete_node"@,
        ToolName::LinkExistingNode => "focal_link_existing_node"@,
        ToolName::UnlinkChild => "focal_unlink_child"@,
        ToolName::ListRoots => "focal_list_roots"@,
        ToolName::ListChildren => "focal_list_children"@,
        ToolName::ListParents => "focal_list_parents"@,
        ToolName::ListAncestors => "focal_list_ancestors"@,
        ToolName::ListDescendants => "focal_list_descendants"@,
        ToolName::RebuildIndex => "focal_rebuild_index"@,
    }
}

/// The tools in the order they are listed.
pub open spec fn tool_order() -> Seq<ToolName> {
    seq![
        ToolName::AddContextDocument,
        ToolName::ReadContextDocument,
        ToolName::UpdateContextDocument,
        ToolName::DeleteContextDocument,
        ToolName::ListContextDocuments,
        ToolName::AddRootNode,
        ToolName::AddChildNode,
        ToolName::ReadNode,
        ToolName::UpdateNode,
        ToolName::DeleteNode,
        ToolName::LinkExistingNode,
        ToolName::UnlinkChild,
        ToolName::ListRoots,
        ToolName::ListChildren,
        ToolName::ListParents,
        ToolName::ListAncestors,
        ToolName::ListDescendants,
        ToolName::RebuildIndex,
    ]
}

/// The tool named `name`, if there is one.
pub fn tool_named(name: &str) -> (r: Option<ToolName>)
    ensures
        match r {
            Some(t) => tool_name_text(t) == name@,
            None => forall|t: ToolName| tool_name_text(t) != name@,
        },
{
    if str_eq(name, "focal_add_context_document") {
        return Some(ToolName::AddContextDocument);
    }
    if str_eq(name, "focal_read_context_document") {
        return Some(ToolName::ReadContextDocument);
    }
    if str_eq(name, "focal_update_context_document") {
        return Some(ToolName::UpdateContextDocument);
    }
    if str_eq(name, "focal_delete_context_document") {
        return Some(ToolName::DeleteContextDocument);
    }
    if str_eq(name, "focal_list_context_documents") {
        return Some(ToolName::ListContextDocuments);
    }
    if str_eq(name, "focal_add_root_node") {
        return Some(ToolName::AddRootNode);
    }
    if str_eq(name, "focal_add_child_node") {
        return Some(ToolName::AddChildNode);
    }
    if str_eq(name, "focal_read_node") {
        return Some(ToolName::ReadNode);
    }
    if str_eq(name, "focal_update_node") {
        return Some(ToolName::UpdateNode);
    }
    if str_eq(name, "focal_delete_node") {
        return Some(ToolName::DeleteNode);
    }
    if str_eq(name, "focal_link_existing_node") {
        return Some(ToolName::LinkExistingNode);
    }
    if str_eq(name, "focal_unlink_child") {
        return Some(ToolName::UnlinkChild);
    }
    if str_eq(name, "focal_list_roots") {
        return Some(ToolName::ListRoots);
    }
    if str_eq(name, "focal_list_children") {
        return Some(ToolName::ListChildren);
    }
    if str_eq(name, "focal_list_parents") {
        return Some(ToolName::ListParents);
    }
    if str_eq(name, "focal_list_ancestors") {
        return Some(ToolName::ListAncestors);
    }
    if str_eq(name, "focal_list_descendants") {
        return Some(ToolName::ListDescendants);
    }
    if str_eq(name, "focal_rebuild_index") {
        return Some(ToolName::RebuildIndex);
    }
    None
}

/// The names of all tools, in order.
pub fn tool_names() -> (r: Vec<String>)
    ensures
        texts(r) == tool_order().map_values(|t: ToolName| tool_name_text(t)),
{
    let order = all_tools();
    let mut r: Vec<String> = Vec::new();
    let mut i: usize = 0;
    while i < order.len()
        invariant
            i <= order.len(),
            order@ == tool_order(),
            r@.len() == i,
            forall|k: int| 0 <= k < i ==> (#[trigger] r@[k])@ == tool_name_text(order@[k]),
        decreases order.len() - i,
    {
        r.push(name_of(order[i]));
        i += 1;
    }
    assert(texts(r) =~= tool_order().map_values(|t: ToolName| tool_name_text(t)));
    r
}

fn all_tools() -> (r: Vec<ToolName>)
    ensures
        r@ == tool_order(),
{
    let r = vec![
        ToolName::AddContextDocument,
        ToolName::ReadContextDocument,
        ToolName::UpdateContextDocument,
        ToolName::DeleteContextDocument,
        ToolName::ListContextDocuments,
        ToolName::AddRootNode,
        ToolName::AddChildNode,
        ToolName::ReadNode,
        ToolName::UpdateNode,
        ToolName::DeleteNode,
        ToolName::LinkExistingNode,
        ToolName::UnlinkChild,
        ToolName::ListRoots,
        ToolName::ListChildren,
        ToolName::ListParents,
        ToolName::ListAncestors,
        ToolName::ListDescendants,
        ToolName::RebuildIndex,
    ];
    assert(r@ =~= tool_order());
    r
}

fn name_of(t: ToolName) -> (r: String)
    ensures
        r@ == tool_name_text(t),
{
    match t {
        ToolName::AddContextDocument => string_from_str("focal_add_context_document"),
        ToolName::ReadContextDocument => string_from_str("focal_read_context_document"),
        ToolName::UpdateContextDocument => string_from_str("focal_update_context_document"),
        ToolName::DeleteContextDocument => string_from_str("focal_delete_context_document"),
        ToolName::ListContextDocuments => string_from_str("focal_list_context_documents"),
        ToolName::AddRootNode => string_from_str("focal_add_root_node"),
        ToolName::AddChildNode => string_from_str("focal_add_child_node"),
        ToolName::ReadNode => string_from_str("focal_read_node"),
        ToolName::UpdateNode => string_from_str("focal_update_node"),
        ToolName::DeleteNode => string_from_str("focal_delete_node"),
        ToolName::LinkExistingNode => string_from_str("focal_link_existing_node"),
        ToolName::UnlinkChild => string_from_str("focal_unlink_child"),
        ToolName::ListRoots => string_from_str("focal_list_roots"),
        ToolName::ListChildren => string_from_str("focal_list_children"),
        ToolName::ListParents => string_from_str("focal_list_parents"),
        ToolName::ListAncestors => string_from_str("focal_list_ancestors"),
        ToolName::ListDescendants => string_from_str("focal_list_descendants"),
        ToolName::RebuildIndex => string_from_str("focal_rebuild_index"),
    }
}

/// The message for a call of a tool that does not exist.
pub fn unknown_tool_message(name: &str) -> (r: String)
    ensures
        r@ == "unknown Focal tool `"@ + name@ + "`"@,
{
    let mut s = string_from_str("unknown Focal tool `");
    push_str(&mut s, name);
    push_str(&mut s, "`");
    s
}

/// The message for a call whose arguments do not fit its tool.
pub fn invalid_arguments_message(name: &str) -> (r: String)
    ensures
        r@ == "invalid arguments for `"@ + name@ + "`"@,
{
    let mut s = string_from_str("invalid arguments for `");
    push_str(&mut s, name);
    push_str(&mut s, "`");
    s
}

/// The behaviour hints a tool advertises.
#[derive(Debug, Clone, Copy, PartialEq, Eq)]
pub enum ToolHints {
    /// Reads only.
    ReadOnly,
    /// Writes without destroying anything.
    Additive,
    /// Writes and may destroy.
    Destructive,
    /// Writes without destroying anything; repeating it changes nothing more.
    Idempotent,
}

pub open spec fn tool_description(t: ToolName) -> Seq<char> {
    match t {
        ToolName::AddContextDocument => "Add a graph-level context document to the configured Focal graph."@,
        ToolName::ReadContextDocument => "Read one context document from the configured Focal graph."@,
        ToolName::UpdateContextDocument => "Update a context document title or Markdown body."@,
        ToolName::DeleteContextDocument => "Delete one context document from the configured Focal graph."@,
        ToolName::ListContextDocuments => "List context documents in the configured Focal graph."@,
        ToolName::AddRootNode => "Add a root idea node to the configured Focal graph."@,
        ToolName::AddChildNode => "Add a child idea node under an existing parent node."@,
        ToolName::ReadNode => "Read one idea node from the configured Focal graph."@,
        ToolName::UpdateNode => "Update a node title, content, or reviewed state."@,
        ToolName::DeleteNode => "Delete a node from the configured Focal graph."@,
        ToolName::LinkExistingNode => "Link an existing node under an additional parent."@,
        ToolName::UnlinkChild => "Unlink a child node from one parent using an explicit orphan policy."@,
        ToolName::ListRoots => "List root nodes in the configured Focal graph."@,
        ToolName::ListChildren => "List direct child nodes for one node."@,
        ToolName::ListParents => "List direct parent nodes for one node."@,
        ToolName::ListAncestors => "List ancestor nodes breadth-first for one node."@,
        ToolName::ListDescendants => "List descendant nodes breadth-first for one node."@,
        ToolName::RebuildIndex => "Rebuild and return the graph validation index."@,
    }
}

pub open spec fn tool_hints(t: ToolName) -> ToolHints {
    match t {
        ToolName::AddContextDocument => ToolHints::Additive,
        ToolName::ReadContextDocument => ToolHints::ReadOnly,
        ToolName::UpdateContextDocument => ToolHints::Destructive,
        ToolName::DeleteContextDocument => ToolHints::Destructive,
        ToolName::ListContextDocuments => ToolHints::ReadOnly,
        ToolName::AddRootNode => ToolHints::Additive,
        ToolName::AddChildNode => ToolHints::Additive,
        ToolName::ReadNode => ToolHints::ReadOnly,
        ToolName::UpdateNode => ToolHints::Destructive,
        ToolName::DeleteNode => ToolHints::Destructive,
        ToolName::LinkExistingNode => ToolHints::Idempotent,
        ToolName::UnlinkChild => ToolHints::Destructive,
        ToolName::ListRoots => ToolHints::ReadOnly,
        ToolName::ListChildren => ToolHints::ReadOnly,
        ToolName::ListParents => ToolHints::ReadOnly,
        ToolName::ListAncestors => ToolHints::ReadOnly,
        ToolName::ListDescendants => ToolHints::ReadOnly,
        ToolName::RebuildIndex => ToolHints::Additive,
    }
}

/// What the server advertises of a tool (its argument schema comes from the
/// argument type).
#[derive(Debug, Clone)]
pub struct ToolSpec {
    pub name: ToolName,
    pub description: String,
    pub hints: ToolHints,
}

fn tool_spec(t: ToolName) -> (r: ToolSpec)
    ensures
        r.name == t,
        r.description@ == tool_description(t),
        r.hints == tool_hints(t),
{
    let description = match t {
        ToolName::AddContextDocument => string_from_str("Add a graph-level context document to the configured Focal graph."),
        ToolName::ReadContextDocument => string_from_str("Read one context document from the configured Focal graph."),
        ToolName::UpdateContextDocument => string_from_str("Update a context document title or Markdown body."),
        ToolName::DeleteContextDocument => string_from_str("Delete one context document from the configured Focal graph."),
        ToolName::ListContextDocuments => string_from_str("List context documents in the configured Focal graph."),
        ToolName::AddRootNode => string_from_str("Add a root idea node to the configured Focal graph."),
        ToolName::AddChildNode => string_from_str("Add a child idea node under an existing parent node."),
        ToolName::ReadNode => string_from_str("Read one idea node from the configured Focal graph."),
        ToolName::UpdateNode => string_from_str("Update a node title, content, or reviewed state."),
        ToolName::DeleteNode => string_from_str("Delete a node from the configured Focal graph."),
        ToolName::LinkExistingNode => string_from_str("Link an existing node under an additional parent."),
        ToolName::UnlinkChild => string_from_str("Unlink a child node from one parent using an explicit orphan policy."),
        ToolName::ListRoots => string_from_str("List root nodes in the configured Focal graph."),
        ToolName::ListChildren => string_from_str("List direct child nodes for one node."),
        ToolName::ListParents => string_from_str("List direct parent nodes for one node."),
        ToolName::ListAncestors => string_from_str("List ancestor nodes breadth-first for one node."),
        ToolName::ListDescendants => string_from_str("List descendant nodes breadth-first for one node."),
        ToolName::RebuildIndex => string_from_str("Rebuild and return the graph validation index."),
    };
    let hints = match t {
        ToolName::AddContextDocument => ToolHints::Additive,
        ToolName::ReadContextDocument => ToolHints::ReadOnly,
        ToolName::UpdateContextDocument => ToolHints::Destructive,
        ToolName::DeleteContextDocument => ToolHints::Destructive,
        ToolName::ListContextDocuments => ToolHints::ReadOnly,
        ToolName::AddRootNode => ToolHints::Additive,
        ToolName::AddChildNode => ToolHints::Additive,
        ToolName::ReadNode => ToolHints::ReadOnly,
        ToolName::UpdateNode => ToolHints::Destructive,
        ToolName::DeleteNode => ToolHints::Destructive,
        ToolName::LinkExistingNode => ToolHints::Idempotent,
        ToolName::UnlinkChild => ToolHints::Destructive,
        ToolName::ListRoots => ToolHints::ReadOnly,
        ToolName::ListChildren => ToolHints::ReadOnly,
        ToolName::ListParents => ToolHints::ReadOnly,
        ToolName::ListAncestors => ToolHints::ReadOnly,
        ToolName::ListDescendants => ToolHints::ReadOnly,
        ToolName::RebuildIndex => ToolHints::Additive,
    };
    ToolSpec { name: t, description, hints }
}

/// The tools, in order, with their descriptions and hints.
pub fn tool_definitions() -> (r: Vec<ToolSpec>)
    ensures
        r@.len() == tool_order().len(),
        forall|i: int|
            0 <= i < r@.len() ==> (#[trigger] r@[i]).name == tool_order()[i] && r@[i].description@ == tool_description(
                tool_order()[i],
            ) && r@[i].hints == tool_hints(tool_order()[i]),
{
    let order = all_tools();
    let mut r: Vec<ToolSpec> = Vec::new();
    let mut i: usize = 0;
    while i < order.len()
        invariant
            i <= order.len(),
            order@ == tool_order(),
            r@.len() == i,
            forall|k: int|
                0 <= k < i ==> (#[trigger] r@[k]).name == order@[k] && r@[k].description@ == tool_description(order@[k])
                    && r@[k].hints == tool_hints(order@[k]),
        decreases order.len() - i,
    {
        r.push(tool_spec(order[i]));
        i += 1;
    }
    r
}

// ---------------------------------------------------------------------------
// errors as the client sees them
// ---------------------------------------------------------------------------

/// The `error_kind` of a graph error.
pub open spec fn error_kind(e: GraphError) -> Seq<char> {
    match e {
        GraphError::Io(_) => "io"@,
        GraphError::Storage(_) => "storage"@,
        GraphError::InvalidGraphRoot(_) => "invalid_graph_root"@,
        GraphError::ContextNotFound(_) => "context_not_found"@,
        GraphError::NodeNotFound(_) => "node_not_found"@,
        GraphError::ParentNotFound(_) => "parent_not_found"@,
        GraphError::ChildNotFound(_) => "child_not_found"@,
        GraphError::DuplicateNodeId(_) => "duplicate_node_id"@,
        GraphError::DuplicateContextId(_) => "duplicate_context_id"@,
        GraphError::InvalidNodeId(_) => "invalid_node_id"@,
        GraphError::InvalidContextId(_) => "invalid_context_id"@,
        GraphError::InvalidTitle => "invalid_title"@,
        GraphError::InvalidContextMarkdown { .. } => "invalid_context_markdown"@,
        GraphError::InvalidMarkdown { .. } => "invalid_markdown"@,
        GraphError::MissingNodeMarkdown(_) => "missing_node_markdown"@,
        GraphError::MissingChildrenDirectory(_) => "missing_children_directory"@,
        GraphError::BrokenSymlink(_) => "broken_symlink"@,
        GraphError::SymlinkUnsupported(_) => "symlink_unsupported"@,
        GraphError::CycleDetected => "cycle_detected"@,
        GraphError::NodeHasChildren(_) => "node_has_children"@,
        GraphError::WouldOrphanNode(_) => "would_orphan_node"@,
        GraphError::PermissionDenied(_) => "permission_denied"@,
        GraphError::AliasConflict(_) => "alias_conflict"@,
        GraphError::DuplicateCanonicalNode { .. } => "duplicate_canonical_node"@,
        GraphError::DuplicateContextDocument { .. } => "duplicate_context_document"@,
    }
}

pub fn graph_error_kind(error: &GraphError) -> (r: String)
    ensures
        r@ == error_kind(*error),
{
    match error {
        GraphError::Io(_) => string_from_str("io"),
        GraphError::Storage(_) => string_from_str("storage"),
        GraphError::InvalidGraphRoot(_) => string_from_str("invalid_graph_root"),
        GraphError::ContextNotFound(_) => string_from_str("context_not_found"),
        GraphError::NodeNotFound(_) => string_from_str("node_not_found"),
        GraphError::ParentNotFound(_) => string_from_str("parent_not_found"),
        GraphError::ChildNotFound(_) => string_from_str("child_not_found"),
        GraphError::DuplicateNodeId(_) => string_from_str("duplicate_node_id"),
        GraphError::DuplicateContextId(_) => string_from_str("duplicate_context_id"),
        GraphError::InvalidNodeId(_) => string_from_str("invalid_node_id"),
        GraphError::InvalidContextId(_) => string_from_str("invalid_context_id"),
        GraphError::InvalidTitle => string_from_str("invalid_title"),
        GraphError::InvalidContextMarkdown { .. } => string_from_str("invalid_context_markdown"),
        GraphError::InvalidMarkdown { .. } => string_from_str("invalid_markdown"),
        GraphError::MissingNodeMarkdown(_) => string_from_str("missing_node_markdown"),
        GraphError::MissingChildrenDirectory(_) => string_from_str("missing_children_directory"),
        GraphError::BrokenSymlink(_) => string_from_str("broken_symlink"),
        GraphError::SymlinkUnsupported(_) => string_from_str("symlink_unsupported"),
        GraphError::CycleDetected => string_from_str("cycle_detected"),
        GraphError::NodeHasChildren(_) => string_from_str("node_has_children"),
        GraphError::WouldOrphanNode(_) => string_from_str("would_orphan_node"),
        GraphError::PermissionDenied(_) => string_from_str("permission_denied"),
        GraphError::AliasConflict(_) => string_from_str("alias_conflict"),
        GraphError::DuplicateCanonicalNode { .. } => string_from_str("duplicate_canonical_node"),
        GraphError::DuplicateContextDocument { .. } => string_from_str("duplicate_context_document"),
    }
}

/// The node an error names.
pub open spec fn error_node_id(e: GraphError) -> Option<Seq<char>> {
    match e {
        GraphError::NodeNotFound(id) => Some(id@),
        GraphError::ParentNotFound(id) => Some(id@),
        GraphError::ChildNotFound(id) => Some(id@),
        GraphError::DuplicateNodeId(id) => Some(id@),
        GraphError::InvalidNodeId(id) => Some(id@),
        GraphError::NodeHasChildren(id) => Some(id@),
        GraphError::WouldOrphanNode(id) => Some(id@),
        GraphError::DuplicateCanonicalNode { id, .. } => Some(id@),
        _ => None,
    }
}

/// The context document an error names.
pub open spec fn error_context_id(e: GraphError) -> Option<Seq<char>> {
    match e {
        GraphError::ContextNotFound(id) => Some(id@),
        GraphError::InvalidContextId(id) => Some(id@),
        GraphError::DuplicateContextId(id) => Some(id@),
        GraphError::DuplicateContextDocument { id, .. } => Some(id@),
        _ => None,
    }
}

/// The one path an error names.
pub open spec fn error_path(e: GraphError) -> Option<Seq<char>> {
    match e {
        GraphError::InvalidContextMarkdown { path, .. } => Some(path@),
        GraphError::InvalidMarkdown { path, .. } => Some(path@),
        GraphError::MissingNodeMarkdown(p) => Some(p@),
        GraphError::MissingChildrenDirectory(p) => Some(p@),
        GraphError::BrokenSymlink(p) => Some(p@),
        GraphError::PermissionDenied(p) => Some(p@),
        GraphError::AliasConflict(p) => Some(p@),
        _ => None,
    }
}

/// The several paths an error names.
pub open spec fn error_paths(e: GraphError) -> Seq<Seq<char>> {
    match e {
        GraphError::DuplicateCanonicalNode { paths, .. } => texts(paths),
        GraphError::DuplicateContextDocument { paths, .. } => texts(paths),
        _ => Seq::empty(),
    }
}

/// The structured body of a failed tool call.
#[derive(Debug, Clone)]
pub struct CoreErrorBody {
    pub backend: String,
    pub error_kind: String,
    pub message: String,
    pub node_id: Option<String>,
    pub context_id: Option<String>,
    pub path: Option<String>,
    pub paths: Vec<String>,
}

/// Backend, kind, message, node id, context id, path, paths.
pub type BodyView = (
    Seq<char>,
    Seq<char>,
    Seq<char>,
    Option<Seq<char>>,
    Option<Seq<char>>,
    Option<Seq<char>>,
    Seq<Seq<char>>,
);

pub open spec fn opt_text(o: Option<String>) -> Option<Seq<char>> {
    match o {
        Some(s) => Some(s@),
        None => None,
    }
}

pub open spec fn body_view(b: CoreErrorBody) -> BodyView {
    (b.backend@, b.error_kind@, b.message@, opt_text(b.node_id), opt_text(b.context_id), opt_text(b.path), texts(b.paths))
}

pub open spec fn graph_body(backend: Seq<char>, e: GraphError) -> BodyView {
    (
        backend,
        error_kind(e),
        crate::model::error_message(e),
        error_node_id(e),
        error_context_id(e),
        error_path(e),
        error_paths(e),
    )
}

/// The body reporting a backend error.
pub open spec fn core_body(e: backend::Error) -> BodyView {
    match e {
        backend::Error::Fs(g) => graph_body("fs"@, g),
        backend::Error::Sqlite(s) => graph_body("sqlite"@, s.graph_error()),
        backend::Error::DisabledSqlite(d) => (
            "sqlite_disabled"@,
            "sqlite_disabled"@,
            backend::disabled_message(d.graph_name@),
            None,
            None,
            None,
            Seq::empty(),
        ),
    }
}

pub fn graph_error_body(backend: &str, error: &GraphError) -> (r: CoreErrorBody)
    ensures
        body_view(r) == graph_body(backend@, *error),
{
    let mut body = CoreErrorBody {
        backend: string_from_str(backend),
        error_kind: graph_error_kind(error),
        message: error.message(),
        node_id: None,
        context_id: None,
        path: None,
        paths: Vec::new(),
    };
    proof {
        assert(texts(body.paths) =~= Seq::<Seq<char>>::empty());
    }
    match error {
        GraphError::ContextNotFound(id) | GraphError::InvalidContextId(id) | GraphError::DuplicateContextId(id) => {
            body.context_id = Some(id.clone());
        },
        GraphError::NodeNotFound(id)
        | GraphError::ParentNotFound(id)
        | GraphError::ChildNotFound(id)
        | GraphError::DuplicateNodeId(id)
        | GraphError::InvalidNodeId(id)
        | GraphError::NodeHasChildren(id)
        | GraphError::WouldOrphanNode(id) => {
            body.node_id = Some(id.clone());
        },
        GraphError::InvalidContextMarkdown { path, .. }
        | GraphError::InvalidMarkdown { path, .. }
        | GraphError::MissingNodeMarkdown(path)
        | GraphError::MissingChildrenDirectory(path)
        | GraphError::BrokenSymlink(path)
        | GraphError::PermissionDenied(path)
        | GraphError::AliasConflict(path) => {
            body.path = Some(path.clone());
        },
        GraphError::DuplicateCanonicalNode { id, paths } => {
            body.node_id = Some(id.clone());
            body.paths = copy_texts(paths);
        },
        GraphError::DuplicateContextDocument { id, paths } => {
            body.context_id = Some(id.clone());
            body.paths = copy_texts(paths);
        },
        GraphError::Io(_)
        | GraphError::Storage(_)
        | GraphError::InvalidGraphRoot(_)
        | GraphError::InvalidTitle
        | GraphError::SymlinkUnsupported(_)
        | GraphError::CycleDetected => {},
    }
    body
}

pub fn core_error_body(error: &backend::Error) -> (r: CoreErrorBody)
    ensures
        body_view(r) == core_body(*error),
{
    match error {
        backend::Error::Fs(e) => graph_error_body("fs", e),
        backend::Error::Sqlite(e) => graph_error_body("sqlite", e.as_graph_error()),
        backend::Error::DisabledSqlite(d) => {
            let r = CoreErrorBody {
                backend: string_from_str("sqlite_disabled"),
                error_kind: string_from_str("sqlite_disabled"),
                message: d.message(),
                node_id: None,
                context_id: None,
                path: None,
                paths: Vec::new(),
            };
            proof {
                assert(texts(r.paths) =~= Seq::<Seq<char>>::empty());
            }
            r
        },
    }
}

// ---------------------------------------------------------------------------
// calling a tool
// ---------------------------------------------------------------------------

/// A tool call with its arguments.
#[derive(Debug, Clone)]
pub enum ToolCall {
    AddContextDocument { context: NewContextDocument },
    ReadContextDocument { context_id: String },
    UpdateContextDocument { context_id: String, patch: ContextDocumentPatch },
    DeleteContextDocument { context_id: String },
    ListContextDocuments,
    AddRootNode { node: NewNode },
    AddChildNode { parent_id: String, node: NewNode },
    ReadNode { node_id: String },
    UpdateNode { node_id: String, patch: NodePatch },
    DeleteNode { node_id: String, mode: DeleteMode },
    LinkExistingNode { parent_id: String, child_id: String },
    UnlinkChild { parent_id: String, child_id: String, orphan_policy: OrphanPolicy },
    ListRoots,
    ListChildren { node_id: String },
    ListParents { node_id: String },
    ListAncestors { node_id: String, options: TraversalOptions },
    ListDescendants { node_id: String, options: TraversalOptions },
    RebuildIndex,
}

/// The structured value a successful call reports.
#[derive(Debug, Clone)]
pub enum ToolValue {
    /// `{"id": ..}`
    Id(String),
    /// `{"ok": true}`
    Done,
    Node(Node),
    Nodes(Vec<NodeSummary>),
    Index(GraphIndex),
    Context(ContextDocument),
    Contexts(Vec<ContextSummary>),
}

/// A link to the resource a call touched.
#[derive(Debug, Clone)]
pub struct ResourceLink {
    pub uri: String,
    pub name: String,
    pub mime_type: String,
}

/// What a tool call reports: the value with a short text and maybe a link,
/// or the structured body of the graph error.
#[derive(Debug, Clone)]
pub enum ToolOutcome {
    Success { value: ToolValue, text: String, link: Option<ResourceLink> },
    Failure(CoreErrorBody),
}

/// Uri, name, MIME type.
pub type LinkView = (Seq<char>, Seq<char>, Seq<char>);

pub open spec fn link_view(l: Option<ResourceLink>) -> Option<LinkView> {
    match l {
        Some(x) => Some((x.uri@, x.name@, x.mime_type@)),
        None => None,
    }
}

pub open spec fn node_link(id: Seq<char>) -> LinkView {
    ("focal://nodes/"@ + id, "node"@, "application/json"@)
}

pub open spec fn context_link(id: Seq<char>) -> LinkView {
    ("focal://contexts/"@ + id, "context document"@, "application/json"@)
}

/// The link reported with a value: a node or context document read or
/// written.
pub open spec fn value_link(v: ToolValue) -> Option<LinkView> {
    match v {
        ToolValue::Node(n) => Some(node_link(n.id@)),
        ToolValue::Context(c) => Some(context_link(c.id@)),
        _ => None,
    }
}

pub open spec fn succeeded(out: ToolOutcome, v: ToolValue, text: Seq<char>, link: Option<LinkView>) -> bool {
    out matches ToolOutcome::Success { value, text: t, link: l } && value == v && t@ == text && link_view(l) == link
}

pub open spec fn failed(out: ToolOutcome, e: backend::Error) -> bool {
    out matches ToolOutcome::Failure(b) && body_view(b) == core_body(e)
}

/// Which resource a new id names.
#[derive(Debug, Clone, Copy, PartialEq, Eq)]
pub enum LinkKind {
    Node,
    Context,
}

pub open spec fn id_link(kind: LinkKind, id: Seq<char>) -> LinkView {
    match kind {
        LinkKind::Node => node_link(id),
        LinkKind::Context => context_link(id),
    }
}

pub open spec fn id_reported(out: ToolOutcome, r: Result<String, backend::Error>, text: Seq<char>, kind: LinkKind) -> bool {
    match r {
        Ok(id) => succeeded(out, ToolValue::Id(id), text, Some(id_link(kind, id@))),
        Err(e) => failed(out, e),
    }
}

pub open spec fn unit_reported(out: ToolOutcome, r: Result<(), backend::Error>, text: Seq<char>) -> bool {
    match r {
        Ok(()) => succeeded(out, ToolValue::Done, text, None),
        Err(e) => failed(out, e),
    }
}

pub open spec fn value_reported(out: ToolOutcome, r: Result<ToolValue, backend::Error>, text: Seq<char>) -> bool {
    match r {
        Ok(v) => succeeded(out, v, text, value_link(v)),
        Err(e) => failed(out, e),
    }
}

pub open spec fn lifted<T>(r: Result<T, backend::Error>, f: spec_fn(T) -> ToolValue) -> Result<ToolValue, backend::Error> {
    match r {
        Ok(x) => Ok(f(x)),
        Err(e) => Err(e),
    }
}

fn link_to(uri_prefix: &str, id: &str, name: &str) -> (r: ResourceLink)
    ensures
        r.uri@ == uri_prefix@ + id@,
        r.name@ == name@,
        r.mime_type@ == "application/json"@,
{
    let mut uri = string_from_str(uri_prefix);
    push_str(&mut uri, id);
    ResourceLink { uri, name: string_from_str(name), mime_type: string_from_str("application/json") }
}

fn node_resource(id: &str) -> (r: ResourceLink)
    ensures
        link_view(Some(r)) == Some(node_link(id@)),
{
    link_to("focal://nodes/", id, "node")
}

fn context_resource(id: &str) -> (r: ResourceLink)
    ensures
        link_view(Some(r)) == Some(context_link(id@)),
{
    link_to("focal://contexts/", id, "context document")
}

fn id_result(r: Result<String, backend::Error>, text: &str, kind: LinkKind) -> (out: ToolOutcome)
    ensures
        id_reported(out, r, text@, kind),
{
    match r {
        Ok(id) => {
            let link = match kind {
                LinkKind::Node => node_resource(id.as_str()),
                LinkKind::Context => context_resource(id.as_str()),
            };
            ToolOutcome::Success { value: ToolValue::Id(id), text: string_from_str(text), link: Some(link) }
        },
        Err(e) => ToolOutcome::Failure(core_error_body(&e)),
    }
}

fn unit_result(r: Result<(), backend::Error>, text: &str) -> (out: ToolOutcome)
    ensures
        unit_reported(out, r, text@),
{
    match r {
        Ok(()) => ToolOutcome::Success { value: ToolValue::Done, text: string_from_str(text), link: None },
        Err(e) => ToolOutcome::Failure(core_error_body(&e)),
    }
}

fn value_result(r: Result<ToolValue, backend::Error>, text: &str) -> (out: ToolOutcome)
    ensures
        value_reported(out, r, text@),
{
    match r {
        Ok(value) => {
            let link = match &value {
                ToolValue::Node(n) => Some(node_resource(n.id.as_str())),
                ToolValue::Context(c) => Some(context_resource(c.id.as_str())),
                _ => None,
            };
            ToolOutcome::Success { value, text: string_from_str(text), link }
        },
        Err(e) => ToolOutcome::Failure(core_error_body(&e)),
    }
}

pub fn node_value(r: Result<Node, backend::Error>) -> (v: Result<ToolValue, backend::Error>)
    ensures
        v == lifted(r, |n: Node| ToolValue::Node(n)),
{
    match r {
        Ok(n) => Ok(ToolValue::Node(n)),
        Err(e) => Err(e),
    }
}

pub fn nodes_value(r: Result<Vec<NodeSummary>, backend::Error>) -> (v: Result<ToolValue, backend::Error>)
    ensures
        v == lifted(r, |n: Vec<NodeSummary>| ToolValue::Nodes(n)),
{
    match r {
        Ok(n) => Ok(ToolValue::Nodes(n)),
        Err(e) => Err(e),
    }
}

pub fn index_value(r: Result<GraphIndex, backend::Error>) -> (v: Result<ToolValue, backend::Error>)
    ensures
        v == lifted(r, |n: GraphIndex| ToolValue::Index(n)),
{
    match r {
        Ok(n) => Ok(ToolValue::Index(n)),
        Err(e) => Err(e),
    }
}

pub fn context_value(r: Result<ContextDocument, backend::Error>) -> (v: Result<ToolValue, backend::Error>)
    ensures
        v == lifted(r, |n: ContextDocument| ToolValue::Context(n)),
{
    match r {
        Ok(n) => Ok(ToolValue::Context(n)),
        Err(e) => Err(e),
    }
}

pub fn contexts_value(r: Result<Vec<ContextSummary>, backend::Error>) -> (v: Result<ToolValue, backend::Error>)
    ensures
        v == lifted(r, |n: Vec<ContextSummary>| ToolValue::Contexts(n)),
{
    match r {
        Ok(n) => Ok(ToolValue::Contexts(n)),
        Err(e) => Err(e),
    }
}

/// `out` and `later` are what `call` reports and leaves on `prior`: the
/// backend operation the tool names, run on the call's arguments, reported
/// with the tool's text.
pub open spec fn tool_done(prior: Backend, later: Backend, call: ToolCall, out: ToolOutcome) -> bool {
    match call {
        ToolCall::AddContextDocument { context } => exists|r: Result<String, backend::Error>|
            backend::add_context_document_done(prior, later, context, r) && id_reported(
                out,
                r,
                "context document added"@,
                LinkKind::Context,
            ),
        ToolCall::ReadContextDocument { context_id } => later == prior && exists|r: Result<ContextDocument, backend::Error>|
            backend::read_context_document_done(prior, context_id@, r) && value_reported(
                out,
                lifted(r, |n: ContextDocument| ToolValue::Context(n)),
                "context document read"@,
            ),
        ToolCall::UpdateContextDocument { context_id, patch } => exists|r: Result<ContextDocument, backend::Error>|
            backend::update_context_document_done(prior, later, context_id@, patch, r) && value_reported(
                out,
                lifted(r, |n: ContextDocument| ToolValue::Context(n)),
                "context document updated"@,
            ),
        ToolCall::DeleteContextDocument { context_id } => exists|r: Result<(), backend::Error>|
            backend::delete_context_document_done(prior, later, context_id@, r) && unit_reported(
                out,
                r,
                "context document deleted"@,
            ),
        ToolCall::ListContextDocuments => later == prior && exists|r: Result<Vec<ContextSummary>, backend::Error>|
            backend::list_context_documents_done(prior, r) && value_reported(
                out,
                lifted(r, |n: Vec<ContextSummary>| ToolValue::Contexts(n)),
                "context documents listed"@,
            ),
        ToolCall::AddRootNode { node } => exists|r: Result<String, backend::Error>|
            backend::add_root_node_done(prior, later, node, r) && id_reported(out, r, "root node added"@, LinkKind::Node),
        ToolCall::AddChildNode { parent_id, node } => exists|r: Result<String, backend::Error>|
            backend::add_child_node_done(prior, later, parent_id@, node, r) && id_reported(
                out,
                r,
                "child node added"@,
                LinkKind::Node,
            ),
        ToolCall::ReadNode { node_id } => later == prior && exists|r: Result<Node, backend::Error>|
            backend::read_node_done(prior, node_id@, r) && value_reported(
                out,
                lifted(r, |n: Node| ToolValue::Node(n)),
                "node read"@,
            ),
        ToolCall::UpdateNode { node_id, patch } => exists|r: Result<Node, backend::Error>|
            backend::update_node_done(prior, later, node_id@, patch, r) && value_reported(
                out,
                lifted(r, |n: Node| ToolValue::Node(n)),
                "node updated"@,
            ),
        ToolCall::DeleteNode { node_id, mode } => exists|r: Result<(), backend::Error>|
            backend::delete_node_done(prior, later, node_id@, mode, r) && unit_reported(out, r, "node deleted"@),
        ToolCall::LinkExistingNode { parent_id, child_id } => exists|r: Result<(), backend::Error>|
            backend::link_existing_node_done(prior, later, parent_id@, child_id@, r) && unit_reported(
                out,
                r,
                "node linked"@,
            ),
        ToolCall::UnlinkChild { parent_id, child_id, orphan_policy } => exists|r: Result<(), backend::Error>|
            backend::unlink_child_done(prior, later, parent_id@, child_id@, orphan_policy, r) && unit_reported(
                out,
                r,
                "node unlinked"@,
            ),
        ToolCall::ListRoots => later == prior && exists|r: Result<Vec<NodeSummary>, backend::Error>|
            backend::list_roots_done(prior, r) && value_reported(
                out,
                lifted(r, |n: Vec<NodeSummary>| ToolValue::Nodes(n)),
                "root nodes listed"@,
            ),
        ToolCall::ListChildren { node_id } => later == prior && exists|r: Result<Vec<NodeSummary>, backend::Error>|
            backend::list_children_done(prior, node_id@, r) && value_reported(
                out,
                lifted(r, |n: Vec<NodeSummary>| ToolValue::Nodes(n)),
                "child nodes listed"@,
            ),
        ToolCall::ListParents { node_id } => later == prior && exists|r: Result<Vec<NodeSummary>, backend::Error>|
            backend::list_parents_done(prior, node_id@, r) && value_reported(
                out,
                lifted(r, |n: Vec<NodeSummary>| ToolValue::Nodes(n)),
                "parent nodes listed"@,
            ),
        ToolCall::ListAncestors { node_id, options } => later == prior && exists|r: Result<Vec<NodeSummary>, backend::Error>|
            backend::list_ancestors_done(prior, node_id@, options, r) && value_reported(
                out,
                lifted(r, |n: Vec<NodeSummary>| ToolValue::Nodes(n)),
                "ancestor nodes listed"@,
            ),
        ToolCall::ListDescendants { node_id, options } => later == prior && exists|r: Result<Vec<NodeSummary>, backend::Error>|
            backend::list_descendants_done(prior, node_id@, options, r) && value_reported(
                out,
                lifted(r, |n: Vec<NodeSummary>| ToolValue::Nodes(n)),
                "descendant nodes listed"@,
            ),
        ToolCall::RebuildIndex => later == prior && exists|r: Result<GraphIndex, backend::Error>|
            backend::rebuild_index_done(prior, r) && value_reported(
                out,
                lifted(r, |n: GraphIndex| ToolValue::Index(n)),
                "graph index rebuilt"@,
            ),
    }
}

/// Runs a tool call on the graph and reports its result.
pub fn call_tool(backend: &mut Backend, call: ToolCall) -> (out: ToolOutcome)
    ensures
        tool_done(*old(backend), *final(backend), call, out),
{
    match call {
        ToolCall::AddContextDocument { context } => {
            let r = backend::add_context_document(backend, context);
            id_result(r, "context document added", LinkKind::Context)
        },
        ToolCall::ReadContextDocument { context_id } => {
            let r = backend::read_context_document(backend, context_id.as_str());
            value_result(context_value(r), "context document read")
        },
        ToolCall::UpdateContextDocument { context_id, patch } => {
            let r = backend::update_context_document(backend, context_id.as_str(), patch);
            value_result(context_value(r), "context document updated")
        },
        ToolCall::DeleteContextDocument { context_id } => {
            let r = backend::delete_context_document(backend, context_id.as_str());
            unit_result(r, "context document deleted")
        },
        ToolCall::ListContextDocuments => {
            let r = backend::list_context_documents(backend);
            value_result(contexts_value(r), "context documents listed")
        },
        ToolCall::AddRootNode { node } => {
            let r = backend::add_root_node(backend, node);
            id_result(r, "root node added", LinkKind::Node)
        },
        ToolCall::AddChildNode { parent_id, node } => {
            let r = backend::add_child_node(backend, parent_id.as_str(), node);
            id_result(r, "child node added", LinkKind::Node)
        },
        ToolCall::ReadNode { node_id } => {
            let r = backend::read_node(backend, node_id.as_str());
            value_result(node_value(r), "node read")
        },
        ToolCall::UpdateNode { node_id, patch } => {
            let r = backend::update_node(backend, node_id.as_str(), patch);
            value_result(node_value(r), "node updated")
        },
        ToolCall::DeleteNode { node_id, mode } => {
            let r = backend::delete_node(backend, node_id.as_str(), mode);
            unit_result(r, "node deleted")
        },
        ToolCall::LinkExistingNode { parent_id, child_id } => {
            let r = backend::link_existing_node(backend, parent_id.as_str(), child_id.as_str());
            unit_result(r, "node linked")
        },
        ToolCall::UnlinkChild { parent_id, child_id, orphan_policy } => {
            let r = backend::unlink_child(backend, parent_id.as_str(), child_id.as_str(), orphan_policy);
            unit_result(r, "node unlinked")
        },
        ToolCall::ListRoots => {
            let r = backend::list_roots(backend);
            value_result(nodes_value(r), "root nodes listed")
        },
        ToolCall::ListChildren { node_id } => {
            let r = backend::list_children(backend, node_id.as_str());
            value_result(nodes_value(r), "child nodes listed")
        },
        ToolCall::ListParents { node_id } => {
            let r = backend::list_parents(backend, node_id.as_str());
            value_result(nodes_value(r), "parent nodes listed")
        },
        ToolCall::ListAncestors { node_id, options } => {
            let r = backend::list_ancestors(backend, node_id.as_str(), options);
            value_result(nodes_value(r), "ancestor nodes listed")
        },
        ToolCall::ListDescendants { node_id, options } => {
            let r = backend::list_descendants(backend, node_id.as_str(), options);
            value_result(nodes_value(r), "descendant nodes listed")
        },
        ToolCall::RebuildIndex => {
            let r = backend::rebuild_index(backend);
            value_result(index_value(r), "graph index rebuilt")
        },
    }
}

} // verus!
