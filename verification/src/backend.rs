//! One graph interface over the storage backends. A `Backend` is a graph
//! opened on the filesystem or in SQLite; every operation goes to the graph
//! it holds and its errors come back tagged with the backend.
use vstd::prelude::*;

use crate::model::{
    ContextDocument, ContextDocumentPatch, ContextSummary, DeleteMode, GraphError, GraphIndex,
    NewContextDocument, NewNode, Node, NodePatch, NodeSummary, OrphanPolicy, TraversalOptions,
};
use crate::sqlite;
use crate::sqlite::IdeaGraph;
use crate::store::Tables;
use crate::text::{push_str, string_from_str};
use crate::scan::problems_view;

verus! {

/// A graph and the backend that stores it.
pub enum Backend {
    /// A graph of directories and Markdown files: its rows, the problems
    /// its directory tree showed when it was read, and its root directory.
    /// The rows are held under a fixed graph name, so that the root, which
    /// is a path and may hold any character, is not checked as one.
    Fs(IdeaGraph, Vec<crate::model::GraphProblem>, String),
    /// A graph namespace of a SQLite database.
    Sqlite(IdeaGraph),
    /// A SQLite graph in a build without SQLite support.
    DisabledSqlite(EmptySqlite),
}

/// The name of a SQLite graph that cannot be opened in this build.
#[derive(Debug)]
pub struct EmptySqlite {
    pub graph_name: String,
}

impl EmptySqlite {
    pub fn graph_name(&self) -> (r: &str)
        ensures
            r@ == self.graph_name@,
    {
        self.graph_name.as_str()
    }
}

/// The error of every operation on a SQLite graph without SQLite support.
#[derive(Debug, Clone, PartialEq, Eq)]
pub struct DisabledSqliteError {
    pub graph_name: String,
}

pub open spec fn disabled_message(graph_name: Seq<char>) -> Seq<char> {
    "sqlite support is disabled for graph `"@ + graph_name + "`"@
}

impl DisabledSqliteError {
    /// The display text of the error.
    pub fn message(&self) -> (r: String)
        ensures
            r@ == disabled_message(self.graph_name@),
    {
        let mut s = string_from_str("sqlite support is disabled for graph `");
        push_str(&mut s, self.graph_name.as_str());
        push_str(&mut s, "`");
        s
    }
}

/// An error of a backend operation, by backend.
#[derive(Debug)]
pub enum Error {
    Fs(GraphError),
    Sqlite(sqlite::Error),
    DisabledSqlite(DisabledSqliteError),
}

pub open spec fn backend_error_message(e: Error) -> Seq<char> {
    match e {
        Error::Fs(g) => "filesystem backend error: "@ + crate::model::error_message(g),
        Error::Sqlite(s) => "sqlite backend error: "@ + crate::model::error_message(s.graph_error()),
        Error::DisabledSqlite(d) => "sqlite backend error: "@ + disabled_message(d.graph_name@),
    }
}

impl Error {
    /// The display text of the error.
    pub fn message(&self) -> (r: String)
        ensures
            r@ == backend_error_message(*self),
    {
        match self {
            Error::Fs(g) => {
                let mut s = string_from_str("filesystem backend error: ");
                let m = g.message();
                push_str(&mut s, m.as_str());
                s
            },
            Error::Sqlite(e) => {
                let mut s = string_from_str("sqlite backend error: ");
                let m = e.message();
                push_str(&mut s, m.as_str());
                s
            },
            Error::DisabledSqlite(d) => {
                let mut s = string_from_str("sqlite backend error: ");
                let m = d.message();
                push_str(&mut s, m.as_str());
                s
            },
        }
    }
}

impl From<GraphError> for Error {
    fn from(error: GraphError) -> (r: Self) {
        Error::Fs(error)
    }
}

impl vstd::std_specs::convert::FromSpecImpl<GraphError> for Error {
    open spec fn obeys_from_spec() -> bool {
        true
    }

    open spec fn from_spec(v: GraphError) -> Self {
        Error::Fs(v)
    }
}

impl From<sqlite::Error> for Error {
    fn from(error: sqlite::Error) -> (r: Self) {
        Error::Sqlite(error)
    }
}

impl vstd::std_specs::convert::FromSpecImpl<sqlite::Error> for Error {
    open spec fn obeys_from_spec() -> bool {
        true
    }

    open spec fn from_spec(v: sqlite::Error) -> Self {
        Error::Sqlite(v)
    }
}

// ---------------------------------------------------------------------------
// opening
// ---------------------------------------------------------------------------

/// The graph name under which a filesystem graph's rows are held.
pub open spec fn fs_graph_name() -> Seq<char> {
    "filesystem"@
}

pub open spec fn is_fs_graph(r: Result<Backend, Error>, root: Seq<char>, tables: Tables, problems: Seq<crate::model::GraphProblem>) -> bool {
    r matches Ok(Backend::Fs(g, ps, rt)) && rt@ == root && g.graph_name@ == fs_graph_name() && g.tables == tables
        && ps@ == problems
}

pub open spec fn missing_roots_message(root: Seq<char>) -> Seq<char> {
    root + " does not contain roots/"@
}

/// The filesystem graph at `root` (made ready by the caller, its
/// `roots/` directory created), holding the rows read from it.
pub fn init_fs(root: &str, tables: Tables, problems: Vec<crate::model::GraphProblem>) -> (r: Result<Backend, Error>)
    ensures
        is_fs_graph(r, root@, tables, problems@),
{
    Ok(Backend::Fs(IdeaGraph { graph_name: string_from_str("filesystem"), tables }, problems, string_from_str(root)))
}

/// The filesystem graph at `root`, which must hold a `roots/` directory.
pub fn open_fs(root: &str, has_roots_dir: bool, tables: Tables, problems: Vec<crate::model::GraphProblem>) -> (r: Result<Backend, Error>)
    ensures
        has_roots_dir ==> is_fs_graph(r, root@, tables, problems@),
        !has_roots_dir ==> (r matches Err(Error::Fs(GraphError::InvalidGraphRoot(m))) && m@ == missing_roots_message(root@)),
{
    if !has_roots_dir {
        let mut m = string_from_str(root);
        push_str(&mut m, " does not contain roots/");
        return Err(Error::Fs(GraphError::InvalidGraphRoot(m)));
    }
    Ok(Backend::Fs(IdeaGraph { graph_name: string_from_str("filesystem"), tables }, problems, string_from_str(root)))
}

/// A SQLite graph handle for a build without SQLite support.
pub fn disabled_sqlite(graph_name: &str) -> (r: Backend)
    ensures
        r matches Backend::DisabledSqlite(s) && s.graph_name@ == graph_name@,
{
    Backend::DisabledSqlite(EmptySqlite { graph_name: string_from_str(graph_name) })
}

// ---------------------------------------------------------------------------
// dispatch
// ---------------------------------------------------------------------------

/// The graph backend's own result behind `r`, when `r` came from backend `b`.
pub open spec fn graph_result<T>(b: Backend, r: Result<T, Error>) -> Option<Result<T, GraphError>> {
    match r {
        Ok(x) => Some(Ok(x)),
        Err(Error::Fs(e)) => if b is Fs {
            Some(Err(e))
        } else {
            None
        },
        Err(Error::Sqlite(e)) => if b is Sqlite {
            Some(Err(e.graph_error()))
        } else {
            None
        },
        Err(Error::DisabledSqlite(_)) => None,
    }
}

/// `r` is the refusal of a SQLite graph in a build without SQLite.
pub open spec fn refused<T>(s: EmptySqlite, r: Result<T, Error>) -> bool {
    r matches Err(Error::DisabledSqlite(d)) && d.graph_name@ == s.graph_name@
}

fn fs_error<T>(r: Result<T, GraphError>) -> (out: Result<T, Error>)
    ensures
        graph_result(Backend::Fs(arbitrary(), arbitrary(), arbitrary()), out) == Some(r),
{
    match r {
        Ok(x) => Ok(x),
        Err(e) => Err(Error::Fs(e)),
    }
}


/// `r` is the filesystem graph's answer `x` with every path under `root`.
pub open spec fn fs_node_result(root: Seq<char>, r: Result<Node, Error>, x: Result<Node, GraphError>) -> bool {
    match (x, r) {
        (Ok(a), Ok(b)) => crate::graph::node_view(b) == crate::rooted::node_rooted(root, crate::graph::node_view(a)),
        (Err(e), Err(Error::Fs(f))) => f == e,
        _ => false,
    }
}

pub open spec fn fs_summaries_result(root: Seq<char>, r: Result<Vec<NodeSummary>, Error>, x: Result<Vec<NodeSummary>, GraphError>) -> bool {
    match (x, r) {
        (Ok(a), Ok(b)) => crate::graph::summary_views(b@) == crate::rooted::summaries_rooted(root, crate::graph::summary_views(a@)),
        (Err(e), Err(Error::Fs(f))) => f == e,
        _ => false,
    }
}

/// The index of a filesystem graph: the problems of its directory tree
/// come first, then those of its rows.
pub open spec fn fs_index_result(root: Seq<char>, tree: Seq<crate::scan::ProblemView>, r: Result<GraphIndex, Error>, x: Result<GraphIndex, GraphError>) -> bool {
    match (x, r) {
        (Ok(a), Ok(b)) => crate::rooted::index_rooted_with(root, tree, a, b),
        (Err(e), Err(Error::Fs(f))) => f == e,
        _ => false,
    }
}

pub open spec fn fs_context_result(root: Seq<char>, r: Result<ContextDocument, Error>, x: Result<ContextDocument, GraphError>) -> bool {
    match (x, r) {
        (Ok(a), Ok(b)) => sqlite::context_view(b) == crate::rooted::context_rooted(root, sqlite::context_view(a)),
        (Err(e), Err(Error::Fs(f))) => f == e,
        _ => false,
    }
}

pub open spec fn fs_context_summaries_result(root: Seq<char>, r: Result<Vec<ContextSummary>, Error>, x: Result<Vec<ContextSummary>, GraphError>) -> bool {
    match (x, r) {
        (Ok(a), Ok(b)) => crate::graph::context_summary_views(b@) == crate::rooted::context_summaries_rooted(
            root,
            crate::graph::context_summary_views(a@),
        ),
        (Err(e), Err(Error::Fs(f))) => f == e,
        _ => false,
    }
}

/// `update_node` on a filesystem graph: the row outcome, paths under the root.
pub open spec fn fs_node_updated(root: Seq<char>, a: IdeaGraph, b: IdeaGraph, node_id: Seq<char>, patch: NodePatch, r: Result<Node, Error>) -> bool {
    exists|x| #[trigger] sqlite::update_node_outcome(a, b, node_id, patch, x) && fs_node_result(root, r, x)
}

pub open spec fn fs_context_updated(root: Seq<char>, a: IdeaGraph, b: IdeaGraph, context_id: Seq<char>, patch: ContextDocumentPatch, r: Result<ContextDocument, Error>) -> bool {
    exists|x| #[trigger] sqlite::update_context_document_outcome(a, b, context_id, patch, x) && fs_context_result(
        root,
        r,
        x,
    )
}

fn fs_update_node(root: &String, graph: &mut IdeaGraph, node_id: &str, patch: NodePatch) -> (r: Result<Node, Error>)
    ensures
        fs_node_updated(root@, *old(graph), *final(graph), node_id@, patch, r),
{
    let x = sqlite::update_node(graph, node_id, patch);
    let ghost gx = x;
    let r = fs_node(root.as_str(), x);
    proof {
        assert(fs_node_result(root@, r, gx));
    }
    r
}

fn fs_update_context_document(root: &String, graph: &mut IdeaGraph, context_id: &str, patch: ContextDocumentPatch) -> (r: Result<ContextDocument, Error>)
    ensures
        fs_context_updated(root@, *old(graph), *final(graph), context_id@, patch, r),
{
    let x = sqlite::update_context_document(graph, context_id, patch);
    let ghost gx = x;
    let r = fs_context(root.as_str(), x);
    proof {
        assert(fs_context_result(root@, r, gx));
    }
    r
}

fn fs_node(root: &str, x: Result<Node, GraphError>) -> (r: Result<Node, Error>)
    ensures
        fs_node_result(root@, r, x),
{
    match x {
        Ok(n) => Ok(crate::rooted::root_node(root, n)),
        Err(e) => Err(Error::Fs(e)),
    }
}

fn fs_summaries(root: &str, x: Result<Vec<NodeSummary>, GraphError>) -> (r: Result<Vec<NodeSummary>, Error>)
    ensures
        fs_summaries_result(root@, r, x),
{
    match x {
        Ok(v) => Ok(crate::rooted::root_summaries(root, v)),
        Err(e) => Err(Error::Fs(e)),
    }
}

fn fs_index(root: &str, tree: &Vec<crate::model::GraphProblem>, x: Result<GraphIndex, GraphError>) -> (r: Result<GraphIndex, Error>)
    ensures
        fs_index_result(root@, problems_view(tree@), r, x),
{
    match x {
        Ok(v) => Ok(crate::rooted::root_index_with(root, tree, v)),
        Err(e) => Err(Error::Fs(e)),
    }
}

fn fs_context(root: &str, x: Result<ContextDocument, GraphError>) -> (r: Result<ContextDocument, Error>)
    ensures
        fs_context_result(root@, r, x),
{
    match x {
        Ok(v) => Ok(crate::rooted::root_context(root, v)),
        Err(e) => Err(Error::Fs(e)),
    }
}

fn fs_context_summaries(root: &str, x: Result<Vec<ContextSummary>, GraphError>) -> (r: Result<Vec<ContextSummary>, Error>)
    ensures
        fs_context_summaries_result(root@, r, x),
{
    match x {
        Ok(v) => Ok(crate::rooted::root_context_summaries(root, v)),
        Err(e) => Err(Error::Fs(e)),
    }
}

fn sqlite_error<T>(r: Result<T, GraphError>) -> (out: Result<T, Error>)
    ensures
        graph_result(Backend::Sqlite(arbitrary()), out) == Some(r),
{
    match r {
        Ok(x) => Ok(x),
        Err(e) => {
            let w = sqlite::Error::from(e);
            proof {
                sqlite::lemma_error_wraps(e);
            }
            Err(Error::Sqlite(w))
        },
    }
}

fn disabled_sqlite_error<T>(sqlite: &EmptySqlite) -> (out: Result<T, Error>)
    ensures
        refused(*sqlite, out),
{
    Err(Error::DisabledSqlite(DisabledSqliteError { graph_name: sqlite.graph_name.clone() }))
}


/// `r` and `later` are what `add_root_node` gives and leaves on `prior`.
pub open spec fn add_root_node_done(prior: Backend, later: Backend, node: NewNode, r: Result<String, Error>) -> bool {
    match (prior, later) {
        (Backend::Fs(a, pa, ra), Backend::Fs(b, pb, rb)) => problems_view(pb@) == problems_view(pa@) && rb@ == ra@ && (graph_result(prior, r) matches Some(x) && sqlite::add_root_node_outcome(a, b, node, x)),
        (Backend::Sqlite(a), Backend::Sqlite(b)) => graph_result(prior, r) matches Some(x) && sqlite::add_root_node_outcome(a, b, node, x),
        (Backend::DisabledSqlite(a), Backend::DisabledSqlite(b)) => b == a && refused(a, r),
        _ => false,
    }
}

/// Adds a root node; returns its id.
pub fn add_root_node(backend: &mut Backend, node: NewNode) -> (r: Result<String, Error>)
    ensures
        add_root_node_done(*old(backend), *final(backend), node, r),
{
    match backend {
        Backend::Fs(graph, _, _) => fs_error(sqlite::add_root_node(graph, node)),
        Backend::Sqlite(graph) => sqlite_error(sqlite::add_root_node(graph, node)),
        Backend::DisabledSqlite(sqlite) => disabled_sqlite_error(sqlite),
    }
}

/// `r` and `later` are what `add_child_node` gives and leaves on `prior`.
pub open spec fn add_child_node_done(prior: Backend, later: Backend, parent_id: Seq<char>, node: NewNode, r: Result<String, Error>) -> bool {
    match (prior, later) {
        (Backend::Fs(a, pa, ra), Backend::Fs(b, pb, rb)) => problems_view(pb@) == problems_view(pa@) && rb@ == ra@ && if sqlite::child_add_error(a, parent_id, node) is None
            && crate::fs_scan::children_missing(problems_view(pa@), crate::graph::canon(a.tables, parent_id)[0].3) {
            b == a && (r matches Err(Error::Fs(GraphError::MissingChildrenDirectory(q)))
                && q@ == crate::rooted::rooted(ra@, crate::graph::canon(a.tables, parent_id)[0].3))
        } else {
            graph_result(prior, r) matches Some(x) && sqlite::add_child_node_outcome(a, b, parent_id, node, x)
        },
        (Backend::Sqlite(a), Backend::Sqlite(b)) => graph_result(prior, r) matches Some(x) && sqlite::add_child_node_outcome(a, b, parent_id, node, x),
        (Backend::DisabledSqlite(a), Backend::DisabledSqlite(b)) => b == a && refused(a, r),
        _ => false,
    }
}

/// Adds a node under `parent_id`; returns its id.
pub fn add_child_node(backend: &mut Backend, parent_id: &str, node: NewNode) -> (r: Result<String, Error>)
    ensures
        add_child_node_done(*old(backend), *final(backend), parent_id@, node, r),
{
    match backend {
        Backend::Fs(graph, tree, root_dir) => {
            if let Ok(cp) = sqlite::child_parent_path(graph, parent_id, &node) {
                if crate::fs_scan::lacks_children(tree, &cp) {
                    let path = crate::rooted::root_path(root_dir.as_str(), &cp);
                    return Err(Error::Fs(GraphError::MissingChildrenDirectory(path)));
                }
            }
            fs_error(sqlite::add_child_node(graph, parent_id, node))
        },
        Backend::Sqlite(graph) => sqlite_error(sqlite::add_child_node(graph, parent_id, node)),
        Backend::DisabledSqlite(sqlite) => disabled_sqlite_error(sqlite),
    }
}

/// `r` and `later` are what `update_node` gives and leaves on `prior`.
pub open spec fn update_node_done(prior: Backend, later: Backend, node_id: Seq<char>, patch: NodePatch, r: Result<Node, Error>) -> bool {
    match (prior, later) {
        (Backend::Fs(a, pa, ra), Backend::Fs(b, pb, rb)) => problems_view(pb@) == problems_view(pa@) && rb@ == ra@ && fs_node_updated(ra@, a, b, node_id, patch, r),
        (Backend::Sqlite(a), Backend::Sqlite(b)) => graph_result(prior, r) matches Some(x) && sqlite::update_node_outcome(a, b, node_id, patch, x),
        (Backend::DisabledSqlite(a), Backend::DisabledSqlite(b)) => b == a && refused(a, r),
        _ => false,
    }
}

/// Sets a node's title and content; returns the node as it now reads.
pub fn update_node(backend: &mut Backend, node_id: &str, patch: NodePatch) -> (r: Result<Node, Error>)
    ensures
        update_node_done(*old(backend), *final(backend), node_id@, patch, r),
{
    match backend {
        Backend::Fs(graph, _, root) => fs_update_node(root, graph, node_id, patch),
        Backend::Sqlite(graph) => sqlite_error(sqlite::update_node(graph, node_id, patch)),
        Backend::DisabledSqlite(sqlite) => disabled_sqlite_error(sqlite),
    }
}

/// `r` and `later` are what `delete_node` gives and leaves on `prior`.
pub open spec fn delete_node_done(prior: Backend, later: Backend, node_id: Seq<char>, mode: DeleteMode, r: Result<(), Error>) -> bool {
    match (prior, later) {
        (Backend::Fs(a, pa, ra), Backend::Fs(b, pb, rb)) => problems_view(pb@) == problems_view(pa@) && rb@ == ra@ && (graph_result(prior, r) matches Some(x) && sqlite::delete_node_outcome(a, b, node_id, mode, x)),
        (Backend::Sqlite(a), Backend::Sqlite(b)) => graph_result(prior, r) matches Some(x) && sqlite::delete_node_outcome(a, b, node_id, mode, x),
        (Backend::DisabledSqlite(a), Backend::DisabledSqlite(b)) => b == a && refused(a, r),
        _ => false,
    }
}

/// Deletes a node, and with `Recursive` the nodes below it that no other parent keeps.
pub fn delete_node(backend: &mut Backend, node_id: &str, mode: DeleteMode) -> (r: Result<(), Error>)
    ensures
        delete_node_done(*old(backend), *final(backend), node_id@, mode, r),
{
    match backend {
        Backend::Fs(graph, _, _) => fs_error(sqlite::delete_node(graph, node_id, mode)),
        Backend::Sqlite(graph) => sqlite_error(sqlite::delete_node(graph, node_id, mode)),
        Backend::DisabledSqlite(sqlite) => disabled_sqlite_error(sqlite),
    }
}

/// `r` and `later` are what `link_existing_node` gives and leaves on `prior`.
pub open spec fn link_existing_node_done(prior: Backend, later: Backend, parent_id: Seq<char>, child_id: Seq<char>, r: Result<(), Error>) -> bool {
    match (prior, later) {
        (Backend::Fs(a, pa, ra), Backend::Fs(b, pb, rb)) => problems_view(pb@) == problems_view(pa@) && rb@ == ra@ && if sqlite::link_error(a, parent_id, child_id) is None
            && !crate::scan::has_edge(crate::scan::graph_places(a.tables), parent_id, child_id)
            && crate::fs_scan::children_missing(problems_view(pa@), crate::graph::canon(a.tables, parent_id)[0].3) {
            b == a && (r matches Err(Error::Fs(GraphError::MissingChildrenDirectory(q)))
                && q@ == crate::rooted::rooted(ra@, crate::graph::canon(a.tables, parent_id)[0].3))
        } else {
            graph_result(prior, r) matches Some(x) && sqlite::link_existing_node_outcome(a, b, parent_id, child_id, x)
        },
        (Backend::Sqlite(a), Backend::Sqlite(b)) => graph_result(prior, r) matches Some(x) && sqlite::link_existing_node_outcome(a, b, parent_id, child_id, x),
        (Backend::DisabledSqlite(a), Backend::DisabledSqlite(b)) => b == a && refused(a, r),
        _ => false,
    }
}

/// Places an existing node under one more parent.
pub fn link_existing_node(backend: &mut Backend, parent_id: &str, child_id: &str) -> (r: Result<(), Error>)
    ensures
        link_existing_node_done(*old(backend), *final(backend), parent_id@, child_id@, r),
{
    match backend {
        Backend::Fs(graph, tree, root_dir) => {
            if let Some(cp) = sqlite::link_parent_path(graph, parent_id, child_id) {
                if crate::fs_scan::lacks_children(tree, &cp) {
                    let path = crate::rooted::root_path(root_dir.as_str(), &cp);
                    return Err(Error::Fs(GraphError::MissingChildrenDirectory(path)));
                }
            }
            fs_error(sqlite::link_existing_node(graph, parent_id, child_id))
        },
        Backend::Sqlite(graph) => sqlite_error(sqlite::link_existing_node(graph, parent_id, child_id)),
        Backend::DisabledSqlite(sqlite) => disabled_sqlite_error(sqlite),
    }
}

/// `r` and `later` are what `unlink_child` gives and leaves on `prior`.
pub open spec fn unlink_child_done(prior: Backend, later: Backend, parent_id: Seq<char>, child_id: Seq<char>, orphan_policy: OrphanPolicy, r: Result<(), Error>) -> bool {
    match (prior, later) {
        (Backend::Fs(a, pa, ra), Backend::Fs(b, pb, rb)) => problems_view(pb@) == problems_view(pa@) && rb@ == ra@ && (graph_result(prior, r) matches Some(x) && sqlite::unlink_child_outcome(a, b, parent_id, child_id, orphan_policy, x)),
        (Backend::Sqlite(a), Backend::Sqlite(b)) => graph_result(prior, r) matches Some(x) && sqlite::unlink_child_outcome(a, b, parent_id, child_id, orphan_policy, x),
        (Backend::DisabledSqlite(a), Backend::DisabledSqlite(b)) => b == a && refused(a, r),
        _ => false,
    }
}

/// Takes a child from one parent; `orphan_policy` says what becomes of a node left without parents.
pub fn unlink_child(backend: &mut Backend, parent_id: &str, child_id: &str, orphan_policy: OrphanPolicy) -> (r: Result<(), Error>)
    ensures
        unlink_child_done(*old(backend), *final(backend), parent_id@, child_id@, orphan_policy, r),
{
    match backend {
        Backend::Fs(graph, _, _) => fs_error(sqlite::unlink_child(graph, parent_id, child_id, orphan_policy)),
        Backend::Sqlite(graph) => sqlite_error(sqlite::unlink_child(graph, parent_id, child_id, orphan_policy)),
        Backend::DisabledSqlite(sqlite) => disabled_sqlite_error(sqlite),
    }
}

/// `r` and `later` are what `add_context_document` gives and leaves on `prior`.
pub open spec fn add_context_document_done(prior: Backend, later: Backend, context: NewContextDocument, r: Result<String, Error>) -> bool {
    match (prior, later) {
        (Backend::Fs(a, pa, ra), Backend::Fs(b, pb, rb)) => problems_view(pb@) == problems_view(pa@) && rb@ == ra@ && (graph_result(prior, r) matches Some(x) && sqlite::add_context_document_outcome(a, b, context, x)),
        (Backend::Sqlite(a), Backend::Sqlite(b)) => graph_result(prior, r) matches Some(x) && sqlite::add_context_document_outcome(a, b, context, x),
        (Backend::DisabledSqlite(a), Backend::DisabledSqlite(b)) => b == a && refused(a, r),
        _ => false,
    }
}

/// Adds a context document; returns its id.
pub fn add_context_document(backend: &mut Backend, context: NewContextDocument) -> (r: Result<String, Error>)
    ensures
        add_context_document_done(*old(backend), *final(backend), context, r),
{
    match backend {
        Backend::Fs(graph, _, _) => fs_error(sqlite::add_context_document(graph, context)),
        Backend::Sqlite(graph) => sqlite_error(sqlite::add_context_document(graph, context)),
        Backend::DisabledSqlite(sqlite) => disabled_sqlite_error(sqlite),
    }
}

/// `r` and `later` are what `update_context_document` gives and leaves on `prior`.
pub open spec fn update_context_document_done(prior: Backend, later: Backend, context_id: Seq<char>, patch: ContextDocumentPatch, r: Result<ContextDocument, Error>) -> bool {
    match (prior, later) {
        (Backend::Fs(a, pa, ra), Backend::Fs(b, pb, rb)) => problems_view(pb@) == problems_view(pa@) && rb@ == ra@ && fs_context_updated(ra@, a, b, context_id, patch, r),
        (Backend::Sqlite(a), Backend::Sqlite(b)) => graph_result(prior, r) matches Some(x) && sqlite::update_context_document_outcome(a, b, context_id, patch, x),
        (Backend::DisabledSqlite(a), Backend::DisabledSqlite(b)) => b == a && refused(a, r),
        _ => false,
    }
}

/// Sets a context document's title and Markdown; returns it as it now reads.
pub fn update_context_document(backend: &mut Backend, context_id: &str, patch: ContextDocumentPatch) -> (r: Result<ContextDocument, Error>)
    ensures
        update_context_document_done(*old(backend), *final(backend), context_id@, patch, r),
{
    match backend {
        Backend::Fs(graph, _, root) => fs_update_context_document(root, graph, context_id, patch),
        Backend::Sqlite(graph) => sqlite_error(sqlite::update_context_document(graph, context_id, patch)),
        Backend::DisabledSqlite(sqlite) => disabled_sqlite_error(sqlite),
    }
}

/// `r` and `later` are what `delete_context_document` gives and leaves on `prior`.
pub open spec fn delete_context_document_done(prior: Backend, later: Backend, context_id: Seq<char>, r: Result<(), Error>) -> bool {
    match (prior, later) {
        (Backend::Fs(a, pa, ra), Backend::Fs(b, pb, rb)) => problems_view(pb@) == problems_view(pa@) && rb@ == ra@ && (graph_result(prior, r) matches Some(x) && sqlite::delete_context_document_outcome(a, b, context_id, x)),
        (Backend::Sqlite(a), Backend::Sqlite(b)) => graph_result(prior, r) matches Some(x) && sqlite::delete_context_document_outcome(a, b, context_id, x),
        (Backend::DisabledSqlite(a), Backend::DisabledSqlite(b)) => b == a && refused(a, r),
        _ => false,
    }
}

/// Deletes a context document.
pub fn delete_context_document(backend: &mut Backend, context_id: &str) -> (r: Result<(), Error>)
    ensures
        delete_context_document_done(*old(backend), *final(backend), context_id@, r),
{
    match backend {
        Backend::Fs(graph, _, _) => fs_error(sqlite::delete_context_document(graph, context_id)),
        Backend::Sqlite(graph) => sqlite_error(sqlite::delete_context_document(graph, context_id)),
        Backend::DisabledSqlite(sqlite) => disabled_sqlite_error(sqlite),
    }
}

/// `r` is the filesystem graph's answer `x` to reading `node_id`, except that
/// a node that was not found but that a broken symlink of the tree names is
/// reported as that broken symlink.
pub open spec fn fs_read_result(root: Seq<char>, tree: Seq<crate::scan::ProblemView>, node_id: Seq<char>, r: Result<Node, Error>, x: Result<Node, GraphError>) -> bool {
    if x matches Err(GraphError::NodeNotFound(_)) && crate::fs_scan::first_broken_for(tree, node_id) is Some {
        r matches Err(Error::Fs(GraphError::BrokenSymlink(p)))
            && p@ == crate::rooted::rooted(root, crate::fs_scan::first_broken_for(tree, node_id).unwrap())
    } else {
        fs_node_result(root, r, x)
    }
}

/// `r` is what `read_node` gives on `backend`.
pub open spec fn read_node_done(backend: Backend, node_id: Seq<char>, r: Result<Node, Error>) -> bool {
    match backend {
        Backend::Fs(g, ps, rt) => exists|x| #[trigger] sqlite::read_node_outcome(g, node_id, x) && fs_read_result(rt@, problems_view(ps@), node_id, r, x),
        Backend::Sqlite(g) => graph_result(backend, r) matches Some(x) && sqlite::read_node_outcome(g, node_id, x),
        Backend::DisabledSqlite(s) => refused(s, r),
    }
}

/// Reads one node.
pub fn read_node(backend: &Backend, node_id: &str) -> (r: Result<Node, Error>)
    ensures
        read_node_done(*backend, node_id@, r),
{
    match backend {
        Backend::Fs(graph, tree, root_dir) => {
            let root = root_dir.clone();
            let x = sqlite::read_node(graph, node_id);
            let ghost gx = x;
            if let Err(GraphError::NodeNotFound(_)) = &x {
                if let Some(p) = crate::fs_scan::broken_for(tree, node_id) {
                    let path = crate::rooted::root_path(root.as_str(), &p);
                    let r = Err(Error::Fs(GraphError::BrokenSymlink(path)));
                    proof {
                        assert(fs_read_result(root@, problems_view(tree@), node_id@, r, gx));
                    }
                    return r;
                }
            }
            let r = fs_node(root.as_str(), x);
            proof {
                assert(fs_read_result(root@, problems_view(tree@), node_id@, r, gx));
            }
            r
        },
        Backend::Sqlite(graph) => sqlite_error(sqlite::read_node(graph, node_id)),
        Backend::DisabledSqlite(sqlite) => disabled_sqlite_error(sqlite),
    }
}

/// `r` is what `list_roots` gives on `backend`.
pub open spec fn list_roots_done(backend: Backend, r: Result<Vec<NodeSummary>, Error>) -> bool {
    match backend {
        Backend::Fs(g, ps, rt) => exists|x| #[trigger] sqlite::list_roots_outcome(g, x) && fs_summaries_result(rt@, r, x),
        Backend::Sqlite(g) => graph_result(backend, r) matches Some(x) && sqlite::list_roots_outcome(g, x),
        Backend::DisabledSqlite(s) => refused(s, r),
    }
}

/// The root nodes, sorted.
pub fn list_roots(backend: &Backend) -> (r: Result<Vec<NodeSummary>, Error>)
    ensures
        list_roots_done(*backend, r),
{
    match backend {
        Backend::Fs(graph, _, root_dir) => {
            let root = root_dir.clone();
            let x = sqlite::list_roots(graph);
            let ghost gx = x;
            let r = fs_summaries(root.as_str(), x);
            proof {
                assert(fs_summaries_result(root@, r, gx));
            }
            r
        },
        Backend::Sqlite(graph) => sqlite_error(sqlite::list_roots(graph)),
        Backend::DisabledSqlite(sqlite) => disabled_sqlite_error(sqlite),
    }
}

/// The canonical path of the node that `y` read, if it read one.
pub open spec fn start_dirs(y: Result<Node, GraphError>) -> Seq<Seq<char>> {
    match y {
        Ok(n) => seq![n.canonical_path@],
        Err(_) => Seq::empty(),
    }
}

/// `r` is the filesystem graph's listing `x`, except that a broken symlink
/// in the children directory of a node at `cps` (the first, in order) is
/// reported in its place.
pub open spec fn fs_listed_result(root: Seq<char>, tree: Seq<crate::scan::ProblemView>, cps: Seq<Seq<char>>, r: Result<Vec<NodeSummary>, Error>, x: Result<Vec<NodeSummary>, GraphError>) -> bool {
    match crate::fs_scan::first_broken_below(tree, cps) {
        Some(p) => r matches Err(Error::Fs(GraphError::BrokenSymlink(q))) && q@ == crate::rooted::rooted(root, p),
        None => fs_summaries_result(root, r, x),
    }
}

fn fs_listed(root: &str, tree: &Vec<crate::model::GraphProblem>, cps: &Vec<String>, x: Result<Vec<NodeSummary>, GraphError>) -> (r: Result<Vec<NodeSummary>, Error>)
    ensures
        fs_listed_result(root@, problems_view(tree@), cps@.map_values(|c: String| c@), r, x),
{
    match crate::fs_scan::broken_below(tree, cps) {
        Some(p) => Err(Error::Fs(GraphError::BrokenSymlink(crate::rooted::root_path(root, &p)))),
        None => fs_summaries(root, x),
    }
}

fn start_dir(y: &Result<Node, GraphError>) -> (r: Vec<String>)
    ensures
        r@.map_values(|c: String| c@) == start_dirs(*y),
{
    match y {
        Ok(n) => {
            let mut v: Vec<String> = Vec::new();
            v.push(n.canonical_path.clone());
            assert(v@.map_values(|c: String| c@) =~= start_dirs(*y));
            v
        },
        Err(_) => {
            let v: Vec<String> = Vec::new();
            assert(v@.map_values(|c: String| c@) =~= start_dirs(*y));
            v
        },
    }
}

/// `r` is what `list_children` gives on `backend`.
pub open spec fn list_children_done(backend: Backend, node_id: Seq<char>, r: Result<Vec<NodeSummary>, Error>) -> bool {
    match backend {
        Backend::Fs(g, ps, rt) => exists|x, y| #![trigger sqlite::list_children_outcome(g, node_id, x), sqlite::read_node_outcome(g, node_id, y)]
            sqlite::list_children_outcome(g, node_id, x) && sqlite::read_node_outcome(g, node_id, y)
            && fs_listed_result(rt@, problems_view(ps@), start_dirs(y), r, x),
        Backend::Sqlite(g) => graph_result(backend, r) matches Some(x) && sqlite::list_children_outcome(g, node_id, x),
        Backend::DisabledSqlite(s) => refused(s, r),
    }
}

/// The direct children of a node, sorted.
pub fn list_children(backend: &Backend, node_id: &str) -> (r: Result<Vec<NodeSummary>, Error>)
    ensures
        list_children_done(*backend, node_id@, r),
{
    match backend {
        Backend::Fs(graph, tree, root_dir) => {
            let root = root_dir.clone();
            let y = sqlite::read_node(graph, node_id);
            let x = sqlite::list_children(graph, node_id);
            let ghost gx = x;
            let cps = start_dir(&y);
            let r = fs_listed(root.as_str(), tree, &cps, x);
            proof {
                assert(sqlite::list_children_outcome(*graph, node_id@, gx) && sqlite::read_node_outcome(*graph, node_id@, y));
            }
            r
        },
        Backend::Sqlite(graph) => sqlite_error(sqlite::list_children(graph, node_id)),
        Backend::DisabledSqlite(sqlite) => disabled_sqlite_error(sqlite),
    }
}

/// `r` is what `list_parents` gives on `backend`.
pub open spec fn list_parents_done(backend: Backend, node_id: Seq<char>, r: Result<Vec<NodeSummary>, Error>) -> bool {
    match backend {
        Backend::Fs(g, ps, rt) => exists|x| #[trigger] sqlite::list_parents_outcome(g, node_id, x) && fs_summaries_result(rt@, r, x),
        Backend::Sqlite(g) => graph_result(backend, r) matches Some(x) && sqlite::list_parents_outcome(g, node_id, x),
        Backend::DisabledSqlite(s) => refused(s, r),
    }
}

/// The direct parents of a node, sorted.
pub fn list_parents(backend: &Backend, node_id: &str) -> (r: Result<Vec<NodeSummary>, Error>)
    ensures
        list_parents_done(*backend, node_id@, r),
{
    match backend {
        Backend::Fs(graph, _, root_dir) => {
            let root = root_dir.clone();
            let x = sqlite::list_parents(graph, node_id);
            let ghost gx = x;
            let r = fs_summaries(root.as_str(), x);
            proof {
                assert(fs_summaries_result(root@, r, gx));
            }
            r
        },
        Backend::Sqlite(graph) => sqlite_error(sqlite::list_parents(graph, node_id)),
        Backend::DisabledSqlite(sqlite) => disabled_sqlite_error(sqlite),
    }
}

/// `r` is what `list_ancestors` gives on `backend`.
pub open spec fn list_ancestors_done(backend: Backend, node_id: Seq<char>, options: TraversalOptions, r: Result<Vec<NodeSummary>, Error>) -> bool {
    match backend {
        Backend::Fs(g, ps, rt) => exists|x| #[trigger] sqlite::traverse_outcome(g, node_id, options, crate::graph::Direction::Ancestors, x) && fs_summaries_result(rt@, r, x),
        Backend::Sqlite(g) => graph_result(backend, r) matches Some(x) && sqlite::traverse_outcome(g, node_id, options, crate::graph::Direction::Ancestors, x),
        Backend::DisabledSqlite(s) => refused(s, r),
    }
}

/// The nodes above a node, breadth-first.
pub fn list_ancestors(backend: &Backend, node_id: &str, options: TraversalOptions) -> (r: Result<Vec<NodeSummary>, Error>)
    ensures
        list_ancestors_done(*backend, node_id@, options, r),
{
    match backend {
        Backend::Fs(graph, _, root_dir) => {
            let root = root_dir.clone();
            let x = sqlite::list_ancestors(graph, node_id, options);
            let ghost gx = x;
            let r = fs_summaries(root.as_str(), x);
            proof {
                assert(fs_summaries_result(root@, r, gx));
            }
            r
        },
        Backend::Sqlite(graph) => sqlite_error(sqlite::list_ancestors(graph, node_id, options)),
        Backend::DisabledSqlite(sqlite) => disabled_sqlite_error(sqlite),
    }
}

/// The canonical paths of the nodes whose children a descent expands, in
/// the order it expands them: none at depth zero; the start node; and with
/// no depth limit every node it reaches, in the order it reaches them.
pub open spec fn expanded_dirs(options: TraversalOptions, y: Result<Node, GraphError>, x: Result<Vec<NodeSummary>, GraphError>) -> Seq<Seq<char>> {
    if options.max_depth == Some(0usize) {
        Seq::empty()
    } else if options.max_depth is None && x is Ok {
        start_dirs(y) + x.unwrap()@.map_values(|s: NodeSummary| s.canonical_path@)
    } else {
        start_dirs(y)
    }
}

fn expanded_dir(options: TraversalOptions, y: &Result<Node, GraphError>, x: &Result<Vec<NodeSummary>, GraphError>) -> (r: Vec<String>)
    ensures
        r@.map_values(|c: String| c@) == expanded_dirs(options, *y, *x),
{
    let mut v: Vec<String> = Vec::new();
    if let Some(d) = options.max_depth {
        if d == 0 {
            assert(v@.map_values(|c: String| c@) =~= expanded_dirs(options, *y, *x));
            return v;
        }
    }
    v = start_dir(y);
    if options.max_depth.is_none() {
        if let Ok(list) = x {
            let ghost base = v@.map_values(|c: String| c@);
            let mut i: usize = 0;
            while i < list.len()
                invariant
                    i <= list.len(),
                    v@.map_values(|c: String| c@) == base + list@.take(i as int).map_values(|s: NodeSummary| s.canonical_path@),
                decreases list.len() - i,
            {
                let ghost before = v@;
                let c = list[i].canonical_path.clone();
                v.push(c);
                assert(v@.map_values(|c: String| c@) =~= before.map_values(|c: String| c@).push(list@[i as int].canonical_path@));
                assert(list@.take(i + 1).map_values(|s: NodeSummary| s.canonical_path@) =~= list@.take(i as int).map_values(|s: NodeSummary| s.canonical_path@).push(list@[i as int].canonical_path@));
                assert(v@.map_values(|c: String| c@) =~= base + list@.take(i + 1).map_values(|s: NodeSummary| s.canonical_path@));
                i += 1;
            }
            assert(list@.take(i as int) =~= list@);
        }
    }
    assert(v@.map_values(|c: String| c@) =~= expanded_dirs(options, *y, *x));
    v
}

/// `r` is what `list_descendants` gives on `backend`.
pub open spec fn list_descendants_done(backend: Backend, node_id: Seq<char>, options: TraversalOptions, r: Result<Vec<NodeSummary>, Error>) -> bool {
    match backend {
        Backend::Fs(g, ps, rt) => exists|x, y| #![trigger sqlite::traverse_outcome(g, node_id, options, crate::graph::Direction::Descendants, x), sqlite::read_node_outcome(g, node_id, y)]
            sqlite::traverse_outcome(g, node_id, options, crate::graph::Direction::Descendants, x) && sqlite::read_node_outcome(g, node_id, y)
            && fs_listed_result(rt@, problems_view(ps@), expanded_dirs(options, y, x), r, x),
        Backend::Sqlite(g) => graph_result(backend, r) matches Some(x) && sqlite::traverse_outcome(g, node_id, options, crate::graph::Direction::Descendants, x),
        Backend::DisabledSqlite(s) => refused(s, r),
    }
}

/// The nodes below a node, breadth-first.
pub fn list_descendants(backend: &Backend, node_id: &str, options: TraversalOptions) -> (r: Result<Vec<NodeSummary>, Error>)
    ensures
        list_descendants_done(*backend, node_id@, options, r),
{
    match backend {
        Backend::Fs(graph, tree, root_dir) => {
            let root = root_dir.clone();
            let y = sqlite::read_node(graph, node_id);
            let x = sqlite::list_descendants(graph, node_id, options);
            let ghost gx = x;
            let cps = expanded_dir(options, &y, &x);
            let r = fs_listed(root.as_str(), tree, &cps, x);
            proof {
                assert(sqlite::traverse_outcome(*graph, node_id@, options, crate::graph::Direction::Descendants, gx) && sqlite::read_node_outcome(*graph, node_id@, y));
            }
            r
        },
        Backend::Sqlite(graph) => sqlite_error(sqlite::list_descendants(graph, node_id, options)),
        Backend::DisabledSqlite(sqlite) => disabled_sqlite_error(sqlite),
    }
}

/// `r` is what `rebuild_index` gives on `backend`.
pub open spec fn rebuild_index_done(backend: Backend, r: Result<GraphIndex, Error>) -> bool {
    match backend {
        Backend::Fs(g, ps, rt) => exists|x| #[trigger] sqlite::rebuild_index_outcome(g, x) && fs_index_result(rt@, problems_view(ps@), r, x),
        Backend::Sqlite(g) => graph_result(backend, r) matches Some(x) && sqlite::rebuild_index_outcome(g, x),
        Backend::DisabledSqlite(s) => refused(s, r),
    }
}

/// The graph's index: its contexts, nodes, edges and problems.
pub fn rebuild_index(backend: &Backend) -> (r: Result<GraphIndex, Error>)
    ensures
        rebuild_index_done(*backend, r),
{
    match backend {
        Backend::Fs(graph, tree, root_dir) => {
            let root = root_dir.clone();
            let x = sqlite::rebuild_index(graph);
            let ghost gx = x;
            let r = fs_index(root.as_str(), tree, x);
            proof {
                assert(fs_index_result(root@, problems_view(tree@), r, gx));
            }
            r
        },
        Backend::Sqlite(graph) => sqlite_error(sqlite::rebuild_index(graph)),
        Backend::DisabledSqlite(sqlite) => disabled_sqlite_error(sqlite),
    }
}

/// `r` is what `read_context_document` gives on `backend`.
pub open spec fn read_context_document_done(backend: Backend, context_id: Seq<char>, r: Result<ContextDocument, Error>) -> bool {
    match backend {
        Backend::Fs(g, ps, rt) => exists|x| #[trigger] sqlite::read_context_document_outcome(g, context_id, x) && fs_context_result(rt@, r, x),
        Backend::Sqlite(g) => graph_result(backend, r) matches Some(x) && sqlite::read_context_document_outcome(g, context_id, x),
        Backend::DisabledSqlite(s) => refused(s, r),
    }
}

/// Reads one context document.
pub fn read_context_document(backend: &Backend, context_id: &str) -> (r: Result<ContextDocument, Error>)
    ensures
        read_context_document_done(*backend, context_id@, r),
{
    match backend {
        Backend::Fs(graph, _, root_dir) => {
            let root = root_dir.clone();
            let x = sqlite::read_context_document(graph, context_id);
            let ghost gx = x;
            let r = fs_context(root.as_str(), x);
            proof {
                assert(fs_context_result(root@, r, gx));
            }
            r
        },
        Backend::Sqlite(graph) => sqlite_error(sqlite::read_context_document(graph, context_id)),
        Backend::DisabledSqlite(sqlite) => disabled_sqlite_error(sqlite),
    }
}

/// `r` is what `list_context_documents` gives on `backend`.
pub open spec fn list_context_documents_done(backend: Backend, r: Result<Vec<ContextSummary>, Error>) -> bool {
    match backend {
        Backend::Fs(g, ps, rt) => exists|x| #[trigger] sqlite::list_context_documents_outcome(g, x) && fs_context_summaries_result(rt@, r, x),
        Backend::Sqlite(g) => graph_result(backend, r) matches Some(x) && sqlite::list_context_documents_outcome(g, x),
        Backend::DisabledSqlite(s) => refused(s, r),
    }
}

/// The context documents, sorted.
pub fn list_context_documents(backend: &Backend) -> (r: Result<Vec<ContextSummary>, Error>)
    ensures
        list_context_documents_done(*backend, r),
{
    match backend {
        Backend::Fs(graph, _, root_dir) => {
            let root = root_dir.clone();
            let x = sqlite::list_context_documents(graph);
            let ghost gx = x;
            let r = fs_context_summaries(root.as_str(), x);
            proof {
                assert(fs_context_summaries_result(root@, r, gx));
            }
            r
        },
        Backend::Sqlite(graph) => sqlite_error(sqlite::list_context_documents(graph)),
        Backend::DisabledSqlite(sqlite) => disabled_sqlite_error(sqlite),
    }
}

} // verus!
