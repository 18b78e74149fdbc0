//! Questions asked of a scanned graph: node lookup with its errors, edges,
//! reachability, summaries and their order.
use vstd::prelude::*;

use crate::ids::{is_valid_uuid_id, uuid_shape};
use crate::markdown::{content_parts, kind_of};
use crate::model::{ContextSummary, GraphEdge, GraphError, GraphIndex, GraphProblem, Node, NodeContent, NodeKind, NodeSummary};
use crate::order::{
    chars_lt, key_views, lemma_key_views_push, lemma_sorted_unique, permuted, sort_order, sorted_by,
    KeyView, SortKey,
};
use crate::scan::{
    canonical_views, copy_problem, copy_texts, graph_nodes, graph_places, has_edge, is_walk,
    keyed_view, node_problem_list, path_texts, placement_views, problem_view, reaches, scan_of,
    str_same, texts, KeyedProblems, ProblemView, Scan, ScannedNode,
};
use crate::store::{copy_opt, opt_view, PlacementView, ScannedPlacement, Tables};
use crate::text::{chars_of, push_str, string_from_str};

verus! {

/// An error as plain values: its variant, its texts and its list of paths.
pub type ErrorView = (nat, Seq<char>, Seq<char>, Seq<Seq<char>>);

pub open spec fn error_view(e: GraphError) -> ErrorView {
    match e {
        GraphError::Io(m) => (0, m@, Seq::empty(), Seq::empty()),
        GraphError::Storage(m) => (1, m@, Seq::empty(), Seq::empty()),
        GraphError::InvalidGraphRoot(m) => (2, m@, Seq::empty(), Seq::empty()),
        GraphError::ContextNotFound(m) => (3, m@, Seq::empty(), Seq::empty()),
        GraphError::NodeNotFound(m) => (4, m@, Seq::empty(), Seq::empty()),
        GraphError::ParentNotFound(m) => (5, m@, Seq::empty(), Seq::empty()),
        GraphError::ChildNotFound(m) => (6, m@, Seq::empty(), Seq::empty()),
        GraphError::DuplicateNodeId(m) => (7, m@, Seq::empty(), Seq::empty()),
        GraphError::DuplicateContextId(m) => (8, m@, Seq::empty(), Seq::empty()),
        GraphError::InvalidNodeId(m) => (9, m@, Seq::empty(), Seq::empty()),
        GraphError::InvalidContextId(m) => (10, m@, Seq::empty(), Seq::empty()),
        GraphError::InvalidTitle => (11, Seq::empty(), Seq::empty(), Seq::empty()),
        GraphError::InvalidContextMarkdown { path, reason } => (12, path@, reason@, Seq::empty()),
        GraphError::InvalidMarkdown { path, reason } => (13, path@, reason@, Seq::empty()),
        GraphError::MissingNodeMarkdown(p) => (14, p@, Seq::empty(), Seq::empty()),
        GraphError::MissingChildrenDirectory(p) => (15, p@, Seq::empty(), Seq::empty()),
        GraphError::BrokenSymlink(p) => (16, p@, Seq::empty(), Seq::empty()),
        GraphError::SymlinkUnsupported(m) => (17, m@, Seq::empty(), Seq::empty()),
        GraphError::CycleDetected => (18, Seq::empty(), Seq::empty(), Seq::empty()),
        GraphError::NodeHasChildren(m) => (19, m@, Seq::empty(), Seq::empty()),
        GraphError::WouldOrphanNode(m) => (20, m@, Seq::empty(), Seq::empty()),
        GraphError::PermissionDenied(p) => (21, p@, Seq::empty(), Seq::empty()),
        GraphError::AliasConflict(p) => (22, p@, Seq::empty(), Seq::empty()),
        GraphError::DuplicateCanonicalNode { id, paths } => (23, id@, Seq::empty(), texts(paths)),
        GraphError::DuplicateContextDocument { id, paths } => (24, id@, Seq::empty(), texts(paths)),
    }
}

pub open spec fn simple_error(tag: nat, text: Seq<char>) -> ErrorView {
    (tag, text, Seq::empty(), Seq::empty())
}

pub open spec fn no_canonical_error(id: Seq<char>) -> ErrorView {
    (13, "nodes/"@ + id, "node has no canonical placement"@, Seq::empty())
}

/// The error a problem is reported as.
pub open spec fn problem_error(p: ProblemView) -> ErrorView {
    if p.0 == 0 {
        (16, p.1, Seq::empty(), Seq::empty())
    } else if p.0 == 1 {
        (24, p.1, Seq::empty(), p.3)
    } else if p.0 == 2 {
        (23, p.1, Seq::empty(), p.3)
    } else if p.0 == 3 {
        (12, p.1, p.2, Seq::empty())
    } else if p.0 == 4 {
        (14, p.1, Seq::empty(), Seq::empty())
    } else if p.0 == 5 {
        (15, p.1, Seq::empty(), Seq::empty())
    } else if p.0 == 6 {
        (13, p.1, p.2, Seq::empty())
    } else {
        (18, Seq::empty(), Seq::empty(), Seq::empty())
    }
}

pub fn graph_problem_to_error(p: &GraphProblem) -> (e: GraphError)
    ensures
        error_view(e) == problem_error(problem_view(*p)),
{
    match p {
        GraphProblem::BrokenSymlink { path } => GraphError::BrokenSymlink(path.clone()),
        GraphProblem::DuplicateContextDocument { id, paths } => GraphError::DuplicateContextDocument {
            id: id.clone(),
            paths: copy_texts(paths),
        },
        GraphProblem::DuplicateCanonicalNode { id, paths } => GraphError::DuplicateCanonicalNode {
            id: id.clone(),
            paths: copy_texts(paths),
        },
        GraphProblem::InvalidContextMarkdown { path, reason } => GraphError::InvalidContextMarkdown {
            path: path.clone(),
            reason: reason.clone(),
        },
        GraphProblem::MissingNodeMarkdown { path } => GraphError::MissingNodeMarkdown(path.clone()),
        GraphProblem::MissingChildrenDirectory { path } => GraphError::MissingChildrenDirectory(
            path.clone(),
        ),
        GraphProblem::InvalidMarkdown { path, reason } => GraphError::InvalidMarkdown {
            path: path.clone(),
            reason: reason.clone(),
        },
        GraphProblem::CycleDetected { .. } => GraphError::CycleDetected,
    }
}

// ---------------------------------------------------------------------------
// the graph of a table set, as plain values
// ---------------------------------------------------------------------------

/// The graph has a node with this id.
pub open spec fn has_node(t: Tables, id: Seq<char>) -> bool {
    exists|i: int| 0 <= i < graph_nodes(t).len() && (#[trigger] graph_nodes(t)[i]).id@ == id
}

/// The first problem charged to `id`, if any.
pub open spec fn first_problem_in(list: KeyedProblems, id: Seq<char>) -> Option<ProblemView>
    decreases list.len(),
{
    if list.len() == 0 {
        None
    } else if list[0].0 == id {
        Some(list[0].1)
    } else {
        first_problem_in(list.drop_first(), id)
    }
}

pub open spec fn node_problem(t: Tables, id: Seq<char>) -> Option<ProblemView> {
    first_problem_in(node_problem_list(t), id)
}

/// The canonical placements of `id`, by logical path.
pub open spec fn canon(t: Tables, id: Seq<char>) -> Seq<PlacementView> {
    canonical_views(graph_places(t), id)
}

/// Why `id` cannot be read as a node of the graph, if it cannot.
pub open spec fn node_error(t: Tables, id: Seq<char>) -> Option<ErrorView> {
    if !uuid_shape(id) {
        Some(simple_error(9, id))
    } else if !has_node(t, id) {
        match node_problem(t, id) {
            Some(p) => Some(problem_error(p)),
            None => Some(simple_error(4, id)),
        }
    } else if canon(t, id).len() > 1 {
        Some((23, id, Seq::empty(), path_texts(canon(t, id))))
    } else if node_problem(t, id) is Some {
        Some(problem_error(node_problem(t, id)->0))
    } else if canon(t, id).len() == 0 {
        Some(no_canonical_error(id))
    } else {
        None
    }
}

/// The same, a missing node reported as a missing parent.
pub open spec fn parent_error(t: Tables, id: Seq<char>) -> Option<ErrorView> {
    match node_error(t, id) {
        Some(e) => if e.0 == 4 {
            Some(simple_error(5, id))
        } else {
            Some(e)
        },
        None => None,
    }
}

/// The same, a missing node reported as a missing child.
pub open spec fn child_error(t: Tables, id: Seq<char>) -> Option<ErrorView> {
    match node_error(t, id) {
        Some(e) => if e.0 == 4 {
            Some(simple_error(6, id))
        } else {
            Some(e)
        },
        None => None,
    }
}

/// The node row that makes node `id` (ids of the graph are distinct).
pub open spec fn node_index_of(t: Tables, id: Seq<char>) -> int {
    choose|i: int| 0 <= i < graph_nodes(t).len() && (#[trigger] graph_nodes(t)[i]).id@ == id
}

pub proof fn lemma_graph_ids_distinct(t: Tables)
    ensures
        forall|i: int, j: int|
            0 <= i < j < graph_nodes(t).len() ==> (#[trigger] graph_nodes(t)[i]).id@ != (
            #[trigger] graph_nodes(t)[j]).id@,
{
    let rows = crate::scan::query_nodes(t);
    let places = crate::scan::query_places(t);
    lemma_node_phase_distinct(rows, places, rows.len() as int);
}

proof fn lemma_node_phase_distinct(rows: Seq<crate::store::NodeRow>, places: Seq<crate::store::PlacementRow>, n: int)
    requires
        0 <= n <= rows.len(),
    ensures
        forall|i: int, j: int|
            0 <= i < j < crate::scan::node_phase(rows, places, n).0.len() ==> (
            #[trigger] crate::scan::node_phase(rows, places, n).0[i]).id@ != (
            #[trigger] crate::scan::node_phase(rows, places, n).0[j]).id@,
        forall|i: int|
            0 <= i < crate::scan::node_phase(rows, places, n).0.len() ==> exists|k: int|
                0 <= k < n && rows[k] == #[trigger] crate::scan::node_phase(rows, places, n).0[i],
    decreases n,
{
    if n > 0 {
        lemma_node_phase_distinct(rows, places, n - 1);
        let prev = crate::scan::node_phase(rows, places, n - 1).0;
        let cur = crate::scan::node_phase(rows, places, n).0;
        if cur.len() > prev.len() {
            assert(!crate::scan::node_seen_before(rows, n - 1));
            assert forall|i: int| 0 <= i < prev.len() implies prev[i].id@ != rows[n - 1].id@ by {
                let k = choose|k: int| 0 <= k < n - 1 && rows[k] == prev[i];
                assert(rows[k].id@ != rows[n - 1].id@);
            }
        }
    }
}

// ---------------------------------------------------------------------------
// node lookup
// ---------------------------------------------------------------------------

pub fn find_node(scan: &Scan, id: &str, Ghost(t): Ghost<Tables>) -> (r: Option<usize>)
    requires
        scan_of(*scan, t),
    ensures
        match r {
            Some(i) => i < scan.nodes.len() && graph_nodes(t)[i as int].id@ == id@ && has_node(t, id@)
                && node_index_of(t, id@) == i,
            None => !has_node(t, id@),
        },
{
    let v = chars_of(id);
    proof {
        crate::scan::lemma_scan_nodes(*scan, t);
    }
    let mut i: usize = 0;
    while i < scan.nodes.len()
        invariant
            i <= scan.nodes.len(),
            crate::scan::all_assembled(scan.nodes@, graph_nodes(t), graph_places(t)),
            v@ == id@,
            forall|k: int| 0 <= k < i ==> (#[trigger] graph_nodes(t)[k]).id@ != id@,
        decreases scan.nodes.len() - i,
    {
        assert(crate::scan::node_assembled(scan.nodes@[i as int], graph_nodes(t)[i as int], graph_places(t)));
        let w = chars_of(scan.nodes[i].fields.id.as_str());
        if crate::text::chars_eq(w.as_slice(), v.as_slice()) {
            proof {
                lemma_graph_ids_distinct(t);
                let c = node_index_of(t, id@);
                if c != i {
                    if c < i {
                        assert(graph_nodes(t)[c].id@ != id@);
                    } else {
                        assert(graph_nodes(t)[i as int].id@ != graph_nodes(t)[c].id@);
                    }
                }
            }
            return Some(i);
        }
        i += 1;
    }
    None
}

pub fn find_node_problem(scan: &Scan, id: &str, Ghost(t): Ghost<Tables>) -> (r: Option<usize>)
    requires
        scan_of(*scan, t),
    ensures
        match r {
            Some(i) => i < scan.node_problems.len() && node_problem(t, id@) == Some(
                problem_view(scan.node_problems@[i as int].1),
            ),
            None => node_problem(t, id@) is None,
        },
{
    let ghost list = node_problem_list(t);
    proof {
        crate::scan::lemma_scan_node_problems(*scan, t);
    }
    assert(list.skip(0) =~= list);
    let mut i: usize = 0;
    while i < scan.node_problems.len()
        invariant
            i <= scan.node_problems.len(),
            list == node_problem_list(t),
            keyed_view(scan.node_problems@) == list,
            first_problem_in(list, id@) == first_problem_in(list.skip(i as int), id@),
        decreases scan.node_problems.len() - i,
    {
        let ghost rest = list.skip(i as int);
        assert(rest[0] == list[i as int]);
        assert(list[i as int] == (scan.node_problems@[i as int].0@, problem_view(scan.node_problems@[i as int].1)));
        if str_same(&scan.node_problems[i].0, &string_from_str(id)) {
            return Some(i);
        }
        assert(rest.drop_first() =~= list.skip(i + 1));
        i += 1;
    }
    assert(list.skip(i as int).len() == 0);
    None
}

/// The node `id` of the graph, or why it cannot be read.
pub fn canonical_node(scan: &Scan, id: &str, Ghost(t): Ghost<Tables>) -> (r: Result<usize, GraphError>)
    requires
        scan_of(*scan, t),
    ensures
        match r {
            Ok(i) => node_error(t, id@) is None && i < scan.nodes.len() && i == node_index_of(t, id@),
            Err(e) => node_error(t, id@) == Some(error_view(e)),
        },
{
    if !is_valid_uuid_id(id) {
        return Err(GraphError::InvalidNodeId(string_from_str(id)));
    }
    let found = find_node(scan, id, Ghost(t));
    let problem = find_node_problem(scan, id, Ghost(t));
    match found {
        None => match problem {
            Some(k) => Err(graph_problem_to_error(&scan.node_problems[k].1)),
            None => Err(GraphError::NodeNotFound(string_from_str(id))),
        },
        Some(i) => {
            proof {
                crate::scan::lemma_scan_nodes(*scan, t);
                assert(crate::scan::node_assembled(scan.nodes@[i as int], graph_nodes(t)[i as int], graph_places(t)));
            }
            let node = &scan.nodes[i];
            if node.canonical_placements.len() > 1 {
                let paths = crate::scan::placement_paths(&node.canonical_placements);
                return Err(GraphError::DuplicateCanonicalNode { id: string_from_str(id), paths });
            }
            if let Some(k) = problem {
                return Err(graph_problem_to_error(&scan.node_problems[k].1));
            }
            if node.canonical_placements.len() == 0 {
                let mut path = string_from_str("nodes/");
                push_str(&mut path, id);
                return Err(
                    GraphError::InvalidMarkdown {
                        path,
                        reason: string_from_str("node has no canonical placement"),
                    },
                );
            }
            Ok(i)
        },
    }
}

pub fn require_parent_node(scan: &Scan, id: &str, Ghost(t): Ghost<Tables>) -> (r: Result<usize, GraphError>)
    requires
        scan_of(*scan, t),
    ensures
        match r {
            Ok(i) => parent_error(t, id@) is None && i < scan.nodes.len() && i == node_index_of(t, id@),
            Err(e) => parent_error(t, id@) == Some(error_view(e)),
        },
{
    match canonical_node(scan, id, Ghost(t)) {
        Ok(i) => Ok(i),
        Err(GraphError::NodeNotFound(_)) => Err(GraphError::ParentNotFound(string_from_str(id))),
        Err(e) => Err(e),
    }
}

pub fn require_child_node(scan: &Scan, id: &str, Ghost(t): Ghost<Tables>) -> (r: Result<usize, GraphError>)
    requires
        scan_of(*scan, t),
    ensures
        match r {
            Ok(i) => child_error(t, id@) is None && i < scan.nodes.len() && i == node_index_of(t, id@),
            Err(e) => child_error(t, id@) == Some(error_view(e)),
        },
{
    match canonical_node(scan, id, Ghost(t)) {
        Ok(i) => Ok(i),
        Err(GraphError::NodeNotFound(_)) => Err(GraphError::ChildNotFound(string_from_str(id))),
        Err(e) => Err(e),
    }
}

// ---------------------------------------------------------------------------
// edges
// ---------------------------------------------------------------------------

/// The positions of the usable placements under parent `id`, in order.
pub open spec fn is_child_edge(ok: Seq<PlacementView>, id: Seq<char>, i: int) -> bool {
    0 <= i < ok.len() && ok[i].2 == Some(id)
}

/// The positions of the usable placements of node `id` under a parent.
pub open spec fn is_parent_edge(ok: Seq<PlacementView>, id: Seq<char>, i: int) -> bool {
    0 <= i < ok.len() && ok[i].1 == id && ok[i].2 is Some
}

/// `r` lists, in increasing order, exactly the positions that satisfy `f`.
pub open spec fn lists_positions(r: Seq<usize>, n: int, f: spec_fn(int) -> bool) -> bool {
    &&& forall|k: int| 0 <= k < r.len() ==> (#[trigger] r[k] as int) < n && f(r[k] as int)
    &&& forall|k: int, l: int| 0 <= k < l < r.len() ==> r[k] < r[l]
    &&& forall|i: int| 0 <= i < n && #[trigger] f(i) ==> exists|k: int| 0 <= k < r.len() && r[k] == i
}

pub fn child_edges(scan: &Scan, id: &str, Ghost(t): Ghost<Tables>) -> (r: Vec<usize>)
    requires
        scan_of(*scan, t),
    ensures
        lists_positions(r@, graph_places(t).len() as int, |i: int| is_child_edge(graph_places(t), id@, i)),
        forall|k: int| 0 <= k < r@.len() ==> is_child_edge(graph_places(t), id@, #[trigger] r@[k] as int),
        forall|i: int| #[trigger] is_child_edge(graph_places(t), id@, i) ==> exists|k: int| 0 <= k < r@.len() && r@[k] == i,
{
    proof {
        crate::scan::lemma_scan_nodes(*scan, t);
    }
    let ghost gp = graph_places(t);
    let target = Some(string_from_str(id));
    let mut r: Vec<usize> = Vec::new();
    let mut i: usize = 0;
    while i < scan.placements.len()
        invariant
            i <= scan.placements.len(),
            gp == graph_places(t),
            placement_views(scan.placements@) == gp,
            opt_view(target) == Some(id@),
            forall|k: int| 0 <= k < r.len() ==> (#[trigger] r@[k] as int) < i && is_child_edge(gp, id@, r@[k] as int),
            forall|k: int, l: int| 0 <= k < l < r.len() ==> r@[k] < r@[l],
            forall|j: int| 0 <= j < i && is_child_edge(gp, id@, j) ==> exists|k: int| 0 <= k < r.len() && r@[k] == j,
        decreases scan.placements.len() - i,
    {
        assert(gp[i as int] == scan.placements@[i as int].view());
        let ghost old_r = r@;
        if crate::scan::opt_eq(&scan.placements[i].parent_id, &target) {
            r.push(i);
        }
        proof {
            assert forall|j: int| 0 <= j < i + 1 && is_child_edge(gp, id@, j) implies exists|k: int| 0 <= k < r.len() && r@[k] == j by {
                if j < i {
                    let k = choose|k: int| 0 <= k < old_r.len() && old_r[k] == j;
                    assert(r@[k] == j);
                } else {
                    assert(r@[r.len() - 1] == j);
                }
            }
        }
        i += 1;
    }
    r
}

pub fn parent_edges(scan: &Scan, id: &str, Ghost(t): Ghost<Tables>) -> (r: Vec<usize>)
    requires
        scan_of(*scan, t),
    ensures
        lists_positions(r@, graph_places(t).len() as int, |i: int| is_parent_edge(graph_places(t), id@, i)),
        forall|k: int| 0 <= k < r@.len() ==> is_parent_edge(graph_places(t), id@, #[trigger] r@[k] as int),
        forall|i: int| #[trigger] is_parent_edge(graph_places(t), id@, i) ==> exists|k: int| 0 <= k < r@.len() && r@[k] == i,
{
    proof {
        crate::scan::lemma_scan_nodes(*scan, t);
    }
    let ghost gp = graph_places(t);
    let me = string_from_str(id);
    let mut r: Vec<usize> = Vec::new();
    let mut i: usize = 0;
    while i < scan.placements.len()
        invariant
            i <= scan.placements.len(),
            gp == graph_places(t),
            placement_views(scan.placements@) == gp,
            me@ == id@,
            forall|k: int| 0 <= k < r.len() ==> (#[trigger] r@[k] as int) < i && is_parent_edge(gp, id@, r@[k] as int),
            forall|k: int, l: int| 0 <= k < l < r.len() ==> r@[k] < r@[l],
            forall|j: int| 0 <= j < i && is_parent_edge(gp, id@, j) ==> exists|k: int| 0 <= k < r.len() && r@[k] == j,
        decreases scan.placements.len() - i,
    {
        assert(gp[i as int] == scan.placements@[i as int].view());
        let ghost old_r = r@;
        if str_same(&scan.placements[i].node_id, &me) && scan.placements[i].parent_id.is_some() {
            r.push(i);
        }
        proof {
            assert forall|j: int| 0 <= j < i + 1 && is_parent_edge(gp, id@, j) implies exists|k: int| 0 <= k < r.len() && r@[k] == j by {
                if j < i {
                    let k = choose|k: int| 0 <= k < old_r.len() && old_r[k] == j;
                    assert(r@[k] == j);
                } else {
                    assert(r@[r.len() - 1] == j);
                }
            }
        }
        i += 1;
    }
    r
}

/// The first usable placement of `child` under `parent`.
pub fn find_placement(scan: &Scan, parent: &str, child: &str, Ghost(t): Ghost<Tables>) -> (r: Option<usize>)
    requires
        scan_of(*scan, t),
    ensures
        match r {
            Some(i) => i < graph_places(t).len() && graph_places(t)[i as int].2 == Some(parent@)
                && graph_places(t)[i as int].1 == child@ && forall|j: int|
                0 <= j < i ==> !(#[trigger] graph_places(t)[j].2 == Some(parent@) && graph_places(t)[j].1 == child@),
            None => !has_edge(graph_places(t), parent@, child@),
        },
{
    proof {
        crate::scan::lemma_scan_nodes(*scan, t);
    }
    let ghost gp = graph_places(t);
    let p = Some(string_from_str(parent));
    let c = string_from_str(child);
    let mut i: usize = 0;
    while i < scan.placements.len()
        invariant
            i <= scan.placements.len(),
            gp == graph_places(t),
            placement_views(scan.placements@) == gp,
            opt_view(p) == Some(parent@),
            c@ == child@,
            forall|j: int| 0 <= j < i ==> !(#[trigger] gp[j].2 == Some(parent@) && gp[j].1 == child@),
        decreases scan.placements.len() - i,
    {
        assert(gp[i as int] == scan.placements@[i as int].view());
        if crate::scan::opt_eq(&scan.placements[i].parent_id, &p) && str_same(&scan.placements[i].node_id, &c) {
            return Some(i);
        }
        i += 1;
    }
    None
}

// ---------------------------------------------------------------------------
// reachability
// ---------------------------------------------------------------------------

pub open spec fn count_unmarked(m: Seq<bool>) -> nat
    decreases m.len(),
{
    if m.len() == 0 {
        0
    } else {
        count_unmarked(m.drop_last()) + if m.last() {
            0nat
        } else {
            1nat
        }
    }
}

proof fn lemma_count_mark(m: Seq<bool>, i: int)
    requires
        0 <= i < m.len(),
        !m[i],
    ensures
        count_unmarked(m.update(i, true)) + 1 == count_unmarked(m),
    decreases m.len(),
{
    if i < m.len() - 1 {
        lemma_count_mark(m.drop_last(), i);
        assert(m.update(i, true).drop_last() =~= m.drop_last().update(i, true));
    } else {
        assert(m.update(i, true).drop_last() =~= m.drop_last());
    }
}

/// Whether `target` is a proper descendant of `start`.
pub fn reaches_exec(scan: &Scan, start: &str, target: &str, Ghost(t): Ghost<Tables>) -> (r: bool)
    requires
        scan_of(*scan, t),
    ensures
        r == reaches(graph_places(t), start@, target@),
{
    proof {
        crate::scan::lemma_scan_nodes(*scan, t);
    }
    let ghost gp = graph_places(t);
    let n = scan.placements.len();
    let s = Some(string_from_str(start));
    let mut marked: Vec<bool> = Vec::new();
    let mut i: usize = 0;
    while i < n
        invariant
            i <= n,
            n == scan.placements.len(),
            gp == graph_places(t),
            placement_views(scan.placements@) == gp,
            opt_view(s) == Some(start@),
            marked.len() == i,
            forall|k: int| 0 <= k < i ==> (#[trigger] marked@[k] <==> gp[k].2 == Some(start@)),
        decreases n - i,
    {
        assert(gp[i as int] == scan.placements@[i as int].view());
        marked.push(crate::scan::opt_eq(&scan.placements[i].parent_id, &s));
        i += 1;
    }
    // every marked placement leads to a proper descendant of `start`;
    // marks close over edges out of marked nodes
    proof {
        assert forall|k: int| 0 <= k < n && #[trigger] marked@[k] implies reaches(gp, start@, gp[k].1) by {
            let w = seq![start@, gp[k].1];
            assert(has_edge(gp, w[0], w[1]));
            assert(is_walk(gp, w));
        }
    }
    loop
        invariant
            n == scan.placements.len(),
            gp == graph_places(t),
            placement_views(scan.placements@) == gp,
            opt_view(s) == Some(start@),
            marked.len() == n,
            forall|k: int| 0 <= k < n && gp[k].2 == Some(start@) ==> #[trigger] marked@[k],
            forall|k: int| 0 <= k < n && #[trigger] marked@[k] ==> reaches(gp, start@, gp[k].1),
        ensures
            marked.len() == n,
            forall|k: int| 0 <= k < n && gp[k].2 == Some(start@) ==> #[trigger] marked@[k],
            forall|k: int| 0 <= k < n && #[trigger] marked@[k] ==> reaches(gp, start@, gp[k].1),
            forall|a: int, b: int|
                0 <= a < n && 0 <= b < n && #[trigger] marked@[b] && !(#[trigger] marked@[a]) ==> gp[a].2 != Some(gp[b].1),
        decreases count_unmarked(marked@),
    {
        let mut changed = false;
        let mut j: usize = 0;
        let ghost before = count_unmarked(marked@);
        while j < n
            invariant
                j <= n,
                n == scan.placements.len(),
                gp == graph_places(t),
                placement_views(scan.placements@) == gp,
                opt_view(s) == Some(start@),
                marked.len() == n,
                forall|k: int| 0 <= k < n && gp[k].2 == Some(start@) ==> #[trigger] marked@[k],
                forall|k: int| 0 <= k < n && #[trigger] marked@[k] ==> reaches(gp, start@, gp[k].1),
                changed ==> count_unmarked(marked@) < before,
                !changed ==> count_unmarked(marked@) == before,
                !changed ==> forall|a: int, b: int|
                    0 <= a < j && 0 <= b < n && #[trigger] marked@[b] && !(#[trigger] marked@[a]) ==> gp[a].2 != Some(gp[b].1),
            decreases n - j,
        {
            if !marked[j] {
                assert(gp[j as int] == scan.placements@[j as int].view());
                let mut k: usize = 0;
                let mut hit = false;
                while k < n
                    invariant
                        k <= n,
                        j < n,
                        n == scan.placements.len(),
                        gp == graph_places(t),
                        placement_views(scan.placements@) == gp,
                        marked.len() == n,
                        hit ==> exists|b: int| 0 <= b < n && marked@[b] && gp[j as int].2 == Some(gp[b].1),
                        !hit ==> forall|b: int| 0 <= b < k && #[trigger] marked@[b] ==> gp[j as int].2 != Some(gp[b].1),
                    decreases n - k,
                {
                    if !hit && marked[k] {
                        assert(gp[k as int] == scan.placements@[k as int].view());
                        match &scan.placements[j].parent_id {
                            Some(pid) => {
                                if str_same(pid, &scan.placements[k].node_id) {
                                    hit = true;
                                }
                            },
                            None => {},
                        }
                    }
                    k += 1;
                }
                if hit {
                    proof {
                        let b = choose|b: int| 0 <= b < n && marked@[b] && gp[j as int].2 == Some(gp[b].1);
                        let w0 = choose|w: Seq<Seq<char>>| #[trigger] is_walk(gp, w) && w[0] == start@ && w.last() == gp[b].1;
                        let w = w0.push(gp[j as int].1);
                        assert(has_edge(gp, w0.last(), gp[j as int].1)) by {
                            assert(gp[j as int].2 == Some(w0.last()));
                        }
                        assert forall|x: int| 0 <= x < w.len() - 1 implies has_edge(gp, #[trigger] w[x], w[x + 1]) by {
                            if x < w0.len() - 1 {
                                assert(w[x] == w0[x] && w[x + 1] == w0[x + 1]);
                            }
                        }
                        assert(is_walk(gp, w));
                        lemma_count_mark(marked@, j as int);
                    }
                    marked.set(j, true);
                    changed = true;
                }
            }
            j += 1;
        }
        if !changed {
            break;
        }
    }
    // closed: any walk from `start` runs along marked placements
    proof {
        assert forall|w: Seq<Seq<char>>| #[trigger] is_walk(gp, w) && w[0] == start@ implies (forall|x: int|
            1 <= x < w.len() ==> exists|k: int| 0 <= k < n && marked@[k] && gp[k].1 == #[trigger] w[x]) by {
            assert forall|x: int| 1 <= x < w.len() implies exists|k: int| 0 <= k < n && marked@[k] && gp[k].1 == #[trigger] w[x] by {
                lemma_walk_marked(gp, marked@, start@, w, x);
            }
        }
    }
    let tg = string_from_str(target);
    let mut m: usize = 0;
    while m < n
        invariant
            m <= n,
            n == scan.placements.len(),
            gp == graph_places(t),
            placement_views(scan.placements@) == gp,
            tg@ == target@,
            marked.len() == n,
            forall|k: int| 0 <= k < n && #[trigger] marked@[k] ==> reaches(gp, start@, gp[k].1),
            forall|k: int| 0 <= k < m && #[trigger] marked@[k] ==> gp[k].1 != target@,
        decreases n - m,
    {
        assert(gp[m as int] == scan.placements@[m as int].view());
        if marked[m] && str_same(&scan.placements[m].node_id, &tg) {
            return true;
        }
        m += 1;
    }
    proof {
        if reaches(gp, start@, target@) {
            let w = choose|w: Seq<Seq<char>>| #[trigger] is_walk(gp, w) && w[0] == start@ && w.last() == target@;
            assert(w.last() == w[w.len() - 1]);
            assert(exists|k: int| 0 <= k < n && marked@[k] && gp[k].1 == w[w.len() - 1]);
        }
    }
    false
}

proof fn lemma_walk_marked(gp: Seq<PlacementView>, marked: Seq<bool>, start: Seq<char>, w: Seq<Seq<char>>, x: int)
    requires
        marked.len() == gp.len(),
        forall|k: int| 0 <= k < gp.len() && gp[k].2 == Some(start) ==> #[trigger] marked[k],
        forall|a: int, b: int|
            0 <= a < gp.len() && 0 <= b < gp.len() && #[trigger] marked[b] && !(#[trigger] marked[a]) ==> gp[a].2 != Some(gp[b].1),
        is_walk(gp, w),
        w[0] == start,
        1 <= x < w.len(),
    ensures
        exists|k: int| 0 <= k < gp.len() && marked[k] && gp[k].1 == w[x],
    decreases x,
{
    assert(has_edge(gp, w[x - 1], w[x]));
    let e = choose|e: int| 0 <= e < gp.len() && (#[trigger] gp[e]).2 == Some(w[x - 1]) && gp[e].1 == w[x];
    if x == 1 {
        assert(marked[e]);
    } else {
        lemma_walk_marked(gp, marked, start, w, x - 1);
        let b = choose|b: int| 0 <= b < gp.len() && marked[b] && gp[b].1 == w[x - 1];
        if !marked[e] {
            assert(gp[e].2 != Some(gp[b].1));
        }
    }
}

// ---------------------------------------------------------------------------
// summaries
// ---------------------------------------------------------------------------

/// Id, kind, title, canonical path, whether reached through an alias.
pub type SummaryView = (Seq<char>, NodeKind, Seq<char>, Seq<char>, bool);

pub open spec fn summary_view(s: NodeSummary) -> SummaryView {
    (s.id@, s.kind, s.title@, s.canonical_path@, s.is_alias)
}

pub open spec fn summary_views(v: Seq<NodeSummary>) -> Seq<SummaryView> {
    v.map_values(|s: NodeSummary| summary_view(s))
}

/// The summary of node `id` of the graph.
pub open spec fn summary_of(t: Tables, id: Seq<char>, alias: bool) -> SummaryView {
    let row = graph_nodes(t)[node_index_of(t, id)];
    (id, crate::store::row_kind(row), row.title@, canon(t, id)[0].3, alias)
}

/// Summaries are ordered by title, then id, then canonical path.
pub open spec fn summary_key(s: SummaryView) -> KeyView {
    (s.2, s.0, crate::paths::path_order_key(s.3), 0)
}

pub open spec fn summaries_sorted(v: Seq<SummaryView>) -> Seq<SummaryView> {
    permuted(v, sorted_by(v.map_values(|s: SummaryView| summary_key(s))))
}

pub fn copy_kind(k: &NodeKind) -> (r: NodeKind)
    ensures
        r == *k,
{
    match k {
        NodeKind::Statement => NodeKind::Statement,
        NodeKind::QuestionAnswer => NodeKind::QuestionAnswer,
    }
}

pub fn copy_summary(s: &NodeSummary) -> (r: NodeSummary)
    ensures
        summary_view(r) == summary_view(*s),
{
    NodeSummary {
        id: s.id.clone(),
        kind: copy_kind(&s.kind),
        title: s.title.clone(),
        canonical_path: s.canonical_path.clone(),
        is_alias: s.is_alias,
    }
}

/// The summary of the `i`th node of the scan, when it has a canonical path.
pub fn node_summary(scan: &Scan, i: usize, is_alias: bool, Ghost(t): Ghost<Tables>) -> (r: Option<NodeSummary>)
    requires
        scan_of(*scan, t),
        i < scan.nodes.len(),
    ensures
        i < graph_nodes(t).len(),
        has_node(t, graph_nodes(t)[i as int].id@),
        node_index_of(t, graph_nodes(t)[i as int].id@) == i,
        match r {
            Some(s) => canon(t, graph_nodes(t)[i as int].id@).len() > 0 && summary_view(s) == summary_of(
                t,
                graph_nodes(t)[i as int].id@,
                is_alias,
            ),
            None => canon(t, graph_nodes(t)[i as int].id@).len() == 0,
        },
{
    proof {
        crate::scan::lemma_scan_nodes(*scan, t);
        lemma_graph_ids_distinct(t);
        assert(crate::scan::node_assembled(scan.nodes@[i as int], graph_nodes(t)[i as int], graph_places(t)));
        let id = graph_nodes(t)[i as int].id@;
        assert(has_node(t, id));
        let c = node_index_of(t, id);
        if c != i {
            if c < i {
                assert(graph_nodes(t)[c].id@ != graph_nodes(t)[i as int].id@);
            } else {
                assert(graph_nodes(t)[i as int].id@ != graph_nodes(t)[c].id@);
            }
        }
    }
    let node = &scan.nodes[i];
    if node.canonical_placements.len() == 0 {
        return None;
    }
    proof {
        assert(placement_views(node.canonical_placements@)[0] == node.canonical_placements@[0].view());
    }
    Some(
        NodeSummary {
            id: node.fields.id.clone(),
            kind: copy_kind(&node.fields.kind),
            title: node.fields.title.clone(),
            canonical_path: node.canonical_placements[0].logical_path.clone(),
            is_alias,
        },
    )
}

/// Sorts summaries by title, id and canonical path.
pub fn sort_summaries(v: &Vec<NodeSummary>) -> (r: Vec<NodeSummary>)
    ensures
        summary_views(r@) == summaries_sorted(summary_views(v@)),
{
    let ghost sv = summary_views(v@);
    let mut keys: Vec<SortKey> = Vec::new();
    let mut i: usize = 0;
    while i < v.len()
        invariant
            i <= v.len(),
            sv == summary_views(v@),
            key_views(keys@) == sv.take(i as int).map_values(|s: SummaryView| summary_key(s)),
        decreases v.len() - i,
    {
        let k = SortKey {
            a: chars_of(v[i].title.as_str()),
            b: chars_of(v[i].id.as_str()),
            c: crate::paths::path_order_chars(v[i].canonical_path.as_str()),
            n: 0,
        };
        proof {
            assert(k.view() == summary_key(sv[i as int]));
            lemma_key_views_push(keys@, k);
            assert(sv.take(i + 1).map_values(|s: SummaryView| summary_key(s)) =~= sv.take(i as int).map_values(
                |s: SummaryView| summary_key(s),
            ).push(summary_key(sv[i as int])));
        }
        keys.push(k);
        i += 1;
    }
    assert(sv.take(v.len() as int) =~= sv);
    let p = sort_order(&keys);
    proof {
        lemma_sorted_unique(sv.map_values(|s: SummaryView| summary_key(s)), p@);
    }
    let mut out: Vec<NodeSummary> = Vec::new();
    let mut j: usize = 0;
    while j < p.len()
        invariant
            j <= p.len(),
            p.len() == v.len(),
            sv == summary_views(v@),
            forall|k: int| 0 <= k < p.len() ==> (#[trigger] p@[k] as int) < v.len(),
            summary_views(out@) == permuted(sv, p@).take(j as int),
        decreases p.len() - j,
    {
        let c = copy_summary(&v[p[j]]);
        let ghost old_out = out@;
        out.push(c);
        proof {
            assert(summary_views(out@) =~= summary_views(old_out).push(summary_view(c)));
            assert(permuted(sv, p@).take(j + 1) =~= permuted(sv, p@).take(j as int).push(sv[p@[j as int] as int]));
        }
        j += 1;
    }
    assert(permuted(sv, p@).take(p.len() as int) =~= permuted(sv, p@));
    out
}

// ---------------------------------------------------------------------------
// listing
// ---------------------------------------------------------------------------

/// Summaries of the nodes with a root entry, one per node (the first root
/// entry decides whether it is an alias), among the first `n` placements.
pub open spec fn root_summaries(t: Tables, n: int) -> Seq<SummaryView>
    decreases n,
{
    if n <= 0 || n > graph_places(t).len() {
        Seq::empty()
    } else {
        let prev = root_summaries(t, n - 1);
        let p = graph_places(t)[n - 1];
        if p.2 is None && has_node(t, p.1) && canon(t, p.1).len() > 0 && !(exists|k: int|
            0 <= k < prev.len() && (#[trigger] prev[k]).0 == p.1) {
            prev.push(summary_of(t, p.1, !p.4))
        } else {
            prev
        }
    }
}

/// The nodes with a root entry, sorted.
pub fn list_roots_in(scan: &Scan, Ghost(t): Ghost<Tables>) -> (r: Vec<NodeSummary>)
    requires
        scan_of(*scan, t),
    ensures
        summary_views(r@) == summaries_sorted(root_summaries(t, graph_places(t).len() as int)),
{
    proof {
        crate::scan::lemma_scan_nodes(*scan, t);
    }
    let ghost gp = graph_places(t);
    let mut found: Vec<NodeSummary> = Vec::new();
    let mut i: usize = 0;
    while i < scan.placements.len()
        invariant
            i <= scan.placements.len(),
            scan_of(*scan, t),
            gp == graph_places(t),
            placement_views(scan.placements@) == gp,
            summary_views(found@) == root_summaries(t, i as int),
        decreases scan.placements.len() - i,
    {
        let p = &scan.placements[i];
        assert(gp[i as int] == p.view());
        if p.parent_id.is_none() {
            match find_node(scan, p.node_id.as_str(), Ghost(t)) {
                Some(k) => {
                    match node_summary(scan, k, !p.is_canonical, Ghost(t)) {
                        Some(sm) => {
                            let mut dup = false;
                            let mut j: usize = 0;
                            while j < found.len()
                                invariant
                                    j <= found.len(),
                                    !dup ==> forall|x: int| 0 <= x < j ==> (#[trigger] found@[x]).id@ != p.node_id@,
                                    dup ==> exists|x: int| 0 <= x < found.len() && (#[trigger] found@[x]).id@ == p.node_id@,
                                decreases found.len() - j,
                            {
                                if str_same(&found[j].id, &p.node_id) {
                                    dup = true;
                                }
                                j += 1;
                            }
                            let ghost old_found = found@;
                            proof {
                                let prev = root_summaries(t, i as int);
                                assert(prev == summary_views(old_found));
                                if dup {
                                    let x = choose|x: int| 0 <= x < old_found.len() && (#[trigger] old_found[x]).id@ == p.node_id@;
                                    assert(prev[x].0 == p.node_id@);
                                } else {
                                    assert forall|x: int| 0 <= x < prev.len() implies (#[trigger] prev[x]).0 != gp[i as int].1 by {
                                        assert(prev[x] == summary_view(old_found[x]));
                                    }
                                }
                            }
                            if !dup {
                                found.push(sm);
                                proof {
                                    assert(summary_views(found@) =~= summary_views(old_found).push(summary_view(sm)));
                                }
                            }
                        },
                        None => {},
                    }
                },
                None => {},
            }
        }
        i += 1;
    }
    sort_summaries(&found)
}

/// Children of `id` as the summaries of their edges' nodes among the first
/// `n` placements, or the error of the first child that cannot be read.
pub open spec fn child_summaries(t: Tables, id: Seq<char>, n: int) -> Result<Seq<SummaryView>, ErrorView>
    decreases n,
{
    if n <= 0 || n > graph_places(t).len() {
        Ok(Seq::empty())
    } else {
        match child_summaries(t, id, n - 1) {
            Err(e) => Err(e),
            Ok(prev) => {
                let p = graph_places(t)[n - 1];
                if p.2 == Some(id) {
                    match node_error(t, p.1) {
                        Some(e) => Err(e),
                        None => Ok(prev.push(summary_of(t, p.1, !p.4))),
                    }
                } else {
                    Ok(prev)
                }
            },
        }
    }
}

/// What `list_children` answers.
pub open spec fn children_result(t: Tables, id: Seq<char>) -> Result<Seq<SummaryView>, ErrorView> {
    match node_error(t, id) {
        Some(e) => Err(e),
        None => match child_summaries(t, id, graph_places(t).len() as int) {
            Err(e) => Err(e),
            Ok(v) => Ok(summaries_sorted(v)),
        },
    }
}

pub fn list_children_in(scan: &Scan, id: &str, Ghost(t): Ghost<Tables>) -> (r: Result<Vec<NodeSummary>, GraphError>)
    requires
        scan_of(*scan, t),
    ensures
        match r {
            Ok(v) => children_result(t, id@) == Ok::<Seq<SummaryView>, ErrorView>(summary_views(v@)),
            Err(e) => children_result(t, id@) == Err::<Seq<SummaryView>, ErrorView>(error_view(e)),
        },
{
    canonical_node(scan, id, Ghost(t))?;
    proof {
        crate::scan::lemma_scan_nodes(*scan, t);
    }
    let ghost gp = graph_places(t);
    let me = Some(string_from_str(id));
    let mut found: Vec<NodeSummary> = Vec::new();
    assert(summary_views(found@) =~= Seq::<SummaryView>::empty());
    let mut i: usize = 0;
    while i < scan.placements.len()
        invariant
            i <= scan.placements.len(),
            node_error(t, id@) is None,
            scan_of(*scan, t),
            gp == graph_places(t),
            placement_views(scan.placements@) == gp,
            opt_view(me) == Some(id@),
            child_summaries(t, id@, i as int) == Ok::<Seq<SummaryView>, ErrorView>(summary_views(found@)),
        decreases scan.placements.len() - i,
    {
        let p = &scan.placements[i];
        assert(gp[i as int] == p.view());
        if crate::scan::opt_eq(&p.parent_id, &me) {
            let k = match canonical_node(scan, p.node_id.as_str(), Ghost(t)) {
                Ok(k) => k,
                Err(e) => {
                    proof {
                        lemma_child_err_persists(t, id@, i + 1, gp.len() as int);
                    }
                    return Err(e);
                },
            };
            let sm = node_summary(scan, k, !p.is_canonical, Ghost(t));
            match sm {
                Some(sm) => {
                    let ghost old_found = found@;
                    found.push(sm);
                    proof {
                        assert(summary_views(found@) =~= summary_views(old_found).push(summary_view(sm)));
                    }
                },
                None => {
                    proof {
                        assert(false);
                    }
                },
            }
        }
        i += 1;
    }
    Ok(sort_summaries(&found))
}

proof fn lemma_child_err_persists(t: Tables, id: Seq<char>, n: int, m: int)
    requires
        0 < n <= m <= graph_places(t).len(),
        child_summaries(t, id, n) is Err,
    ensures
        child_summaries(t, id, m) == child_summaries(t, id, n),
    decreases m - n,
{
    if m > n {
        lemma_child_err_persists(t, id, n, m - 1);
    }
}

// ---------------------------------------------------------------------------
// problems naming a node
// ---------------------------------------------------------------------------

/// The node a problem is about: the id after `nodes/`, or at the end of a
/// logical path, or the id it carries.
pub open spec fn problem_node_id(p: ProblemView) -> Option<Seq<char>> {
    if p.0 == 0 || p.0 == 4 || p.0 == 5 || p.0 == 6 {
        if crate::text::has_prefix(p.1, "nodes/"@) {
            Some(p.1.subrange(6, p.1.len() as int))
        } else {
            crate::paths::node_id_of_path(p.1)
        }
    } else if p.0 == 2 || p.0 == 7 {
        Some(p.1)
    } else {
        None
    }
}

/// The first problem about node `id`.
pub open spec fn first_naming(ps: Seq<ProblemView>, id: Seq<char>) -> Option<ProblemView>
    decreases ps.len(),
{
    if ps.len() == 0 {
        None
    } else if problem_node_id(ps[0]) == Some(id) {
        Some(ps[0])
    } else {
        first_naming(ps.drop_first(), id)
    }
}

fn problem_names(p: &GraphProblem, id: &Vec<char>) -> (r: bool)
    ensures
        r == (problem_node_id(problem_view(*p)) == Some(id@)),
{
    proof {
        reveal_strlit("nodes/");
    }
    let path = match p {
        GraphProblem::BrokenSymlink { path } => path,
        GraphProblem::MissingNodeMarkdown { path } => path,
        GraphProblem::MissingChildrenDirectory { path } => path,
        GraphProblem::InvalidMarkdown { path, .. } => path,
        GraphProblem::DuplicateCanonicalNode { id: x, .. } => {
            return crate::text::chars_eq(chars_of(x.as_str()).as_slice(), id.as_slice());
        },
        GraphProblem::CycleDetected { node_id } => {
            return crate::text::chars_eq(chars_of(node_id.as_str()).as_slice(), id.as_slice());
        },
        _ => {
            return false;
        },
    };
    let pc = chars_of(path.as_str());
    let prefix = chars_of("nodes/");
    if crate::text::starts_with(pc.as_slice(), prefix.as_slice()) {
        let rest = crate::text::slice_vec(pc.as_slice(), 6, pc.len());
        return crate::text::chars_eq(rest.as_slice(), id.as_slice());
    }
    match crate::paths::node_id_from_logical_path(path.as_str()) {
        Some(x) => crate::text::chars_eq(chars_of(x.as_str()).as_slice(), id.as_slice()),
        None => false,
    }
}

/// The error of the first problem about node `id`, if any.
pub fn entry_problem_error(scan: &Scan, id: &str) -> (r: Option<GraphError>)
    ensures
        match r {
            Some(e) => first_naming(crate::scan::problems_view(scan.problems@), id@) matches Some(p)
                && error_view(e) == problem_error(p),
            None => first_naming(crate::scan::problems_view(scan.problems@), id@) is None,
        },
{
    let ghost ps = crate::scan::problems_view(scan.problems@);
    let me = chars_of(id);
    assert(ps.skip(0) =~= ps);
    let mut i: usize = 0;
    while i < scan.problems.len()
        invariant
            i <= scan.problems.len(),
            ps == crate::scan::problems_view(scan.problems@),
            me@ == id@,
            first_naming(ps, id@) == first_naming(ps.skip(i as int), id@),
        decreases scan.problems.len() - i,
    {
        assert(ps.skip(i as int)[0] == problem_view(scan.problems@[i as int]));
        if problem_names(&scan.problems[i], &me) {
            return Some(graph_problem_to_error(&scan.problems[i]));
        }
        assert(ps.skip(i as int).drop_first() =~= ps.skip(i + 1));
        i += 1;
    }
    assert(ps.skip(i as int).len() == 0);
    None
}

/// Parents of `id` among the first `n` placements, or the error of the
/// first that cannot be read.
pub open spec fn parent_summaries(t: Tables, id: Seq<char>, n: int) -> Result<Seq<SummaryView>, ErrorView>
    decreases n,
{
    if n <= 0 || n > graph_places(t).len() {
        Ok(Seq::empty())
    } else {
        match parent_summaries(t, id, n - 1) {
            Err(e) => Err(e),
            Ok(prev) => {
                let p = graph_places(t)[n - 1];
                if p.1 == id && p.2 is Some {
                    match node_error(t, p.2->0) {
                        Some(e) => Err(e),
                        None => Ok(prev.push(summary_of(t, p.2->0, false))),
                    }
                } else {
                    Ok(prev)
                }
            },
        }
    }
}

/// What `list_parents` answers, `ps` being the graph's problem list.
pub open spec fn parents_result(t: Tables, id: Seq<char>, ps: Seq<ProblemView>) -> Result<Seq<SummaryView>, ErrorView> {
    match node_error(t, id) {
        Some(e) => Err(e),
        None => match first_naming(ps, id) {
            Some(p) => Err(problem_error(p)),
            None => match parent_summaries(t, id, graph_places(t).len() as int) {
                Err(e) => Err(e),
                Ok(v) => Ok(summaries_sorted(v)),
            },
        },
    }
}

proof fn lemma_parent_err_persists(t: Tables, id: Seq<char>, n: int, m: int)
    requires
        0 < n <= m <= graph_places(t).len(),
        parent_summaries(t, id, n) is Err,
    ensures
        parent_summaries(t, id, m) == parent_summaries(t, id, n),
    decreases m - n,
{
    if m > n {
        lemma_parent_err_persists(t, id, n, m - 1);
    }
}

pub fn list_parents_in(scan: &Scan, id: &str, Ghost(t): Ghost<Tables>) -> (r: Result<Vec<NodeSummary>, GraphError>)
    requires
        scan_of(*scan, t),
    ensures
        match r {
            Ok(v) => parents_result(t, id@, crate::scan::problems_view(scan.problems@)) == Ok::<
                Seq<SummaryView>,
                ErrorView,
            >(summary_views(v@)),
            Err(e) => parents_result(t, id@, crate::scan::problems_view(scan.problems@)) == Err::<
                Seq<SummaryView>,
                ErrorView,
            >(error_view(e)),
        },
{
    canonical_node(scan, id, Ghost(t))?;
    if let Some(e) = entry_problem_error(scan, id) {
        return Err(e);
    }
    proof {
        crate::scan::lemma_scan_nodes(*scan, t);
    }
    let ghost gp = graph_places(t);
    let me = string_from_str(id);
    let mut found: Vec<NodeSummary> = Vec::new();
    assert(summary_views(found@) =~= Seq::<SummaryView>::empty());
    let mut i: usize = 0;
    while i < scan.placements.len()
        invariant
            i <= scan.placements.len(),
            scan_of(*scan, t),
            gp == graph_places(t),
            placement_views(scan.placements@) == gp,
            me@ == id@,
            node_error(t, id@) is None,
            first_naming(crate::scan::problems_view(scan.problems@), id@) is None,
            parent_summaries(t, id@, i as int) == Ok::<Seq<SummaryView>, ErrorView>(summary_views(found@)),
        decreases scan.placements.len() - i,
    {
        let p = &scan.placements[i];
        assert(gp[i as int] == p.view());
        if str_same(&p.node_id, &me) {
            match &p.parent_id {
                Some(pid) => {
                    let k = match canonical_node(scan, pid.as_str(), Ghost(t)) {
                        Ok(k) => k,
                        Err(e) => {
                            proof {
                                lemma_parent_err_persists(t, id@, i + 1, gp.len() as int);
                            }
                            return Err(e);
                        },
                    };
                    match node_summary(scan, k, false, Ghost(t)) {
                        Some(sm) => {
                            let ghost old_found = found@;
                            found.push(sm);
                            proof {
                                assert(summary_views(found@) =~= summary_views(old_found).push(summary_view(sm)));
                            }
                        },
                        None => {
                            proof {
                                assert(false);
                            }
                        },
                    }
                },
                None => {},
            }
        }
        i += 1;
    }
    Ok(sort_summaries(&found))
}

// ---------------------------------------------------------------------------
// reading a node
// ---------------------------------------------------------------------------

/// Id, kind, title, content kind and texts, timestamps, canonical path,
/// alias paths.
pub type NodeView = (Seq<char>, NodeKind, Seq<char>, NodeKind, (Seq<char>, Seq<char>), u64, u64, Seq<char>, Seq<Seq<char>>, bool);

pub open spec fn node_view(n: Node) -> NodeView {
    (
        n.id@,
        n.kind,
        n.title@,
        kind_of(n.content),
        content_parts(n.content),
        n.created_at_unix,
        n.updated_at_unix,
        n.canonical_path@,
        texts(n.alias_paths),
        n.reviewed,
    )
}

/// Node `id` of the graph as it is read.
pub open spec fn node_of(t: Tables, id: Seq<char>) -> NodeView {
    let row = graph_nodes(t)[node_index_of(t, id)];
    (
        id,
        crate::store::row_kind(row),
        row.title@,
        crate::store::row_kind(row),
        crate::store::row_parts(row),
        row.created_at_unix as u64,
        row.updated_at_unix as u64,
        canon(t, id)[0].3,
        path_texts(path_sorted_aliases(t, id)),
        row.reviewed == 1,
    )
}

pub open spec fn path_sorted_aliases(t: Tables, id: Seq<char>) -> Seq<PlacementView> {
    crate::scan::path_sorted(crate::scan::places_of(graph_places(t), id, false))
}

pub fn copy_content(c: &NodeContent) -> (r: NodeContent)
    ensures
        kind_of(r) == kind_of(*c),
        content_parts(r) == content_parts(*c),
{
    match c {
        NodeContent::Statement { body } => NodeContent::Statement { body: body.clone() },
        NodeContent::QuestionAnswer { question, answer } => NodeContent::QuestionAnswer {
            question: question.clone(),
            answer: answer.clone(),
        },
    }
}

/// The node at position `i` of the scan, read.
pub fn node_from_scanned(scan: &Scan, i: usize, Ghost(t): Ghost<Tables>) -> (r: Node)
    requires
        scan_of(*scan, t),
        i < scan.nodes.len(),
        canon(t, graph_nodes(t)[i as int].id@).len() > 0,
    ensures
        node_view(r) == node_of(t, graph_nodes(t)[i as int].id@),
{
    proof {
        crate::scan::lemma_scan_nodes(*scan, t);
        lemma_graph_ids_distinct(t);
        assert(crate::scan::node_assembled(scan.nodes@[i as int], graph_nodes(t)[i as int], graph_places(t)));
        let id = graph_nodes(t)[i as int].id@;
        assert(has_node(t, id));
        let c = node_index_of(t, id);
        if c != i {
            if c < i {
                assert(graph_nodes(t)[c].id@ != graph_nodes(t)[i as int].id@);
            } else {
                assert(graph_nodes(t)[i as int].id@ != graph_nodes(t)[c].id@);
            }
        }
    }
    let node = &scan.nodes[i];
    proof {
        assert(placement_views(node.canonical_placements@)[0] == node.canonical_placements@[0].view());
    }
    Node {
        id: node.fields.id.clone(),
        kind: copy_kind(&node.fields.kind),
        title: node.fields.title.clone(),
        reviewed: node.fields.reviewed,
        content: copy_content(&node.fields.content),
        created_at_unix: node.fields.created_at_unix,
        updated_at_unix: node.fields.updated_at_unix,
        canonical_path: node.canonical_placements[0].logical_path.clone(),
        alias_paths: crate::scan::placement_paths(&node.alias_placements),
    }
}

/// What `read_node` answers.
pub open spec fn read_result(t: Tables, id: Seq<char>) -> Result<NodeView, ErrorView> {
    match node_error(t, id) {
        Some(e) => Err(e),
        None => Ok(node_of(t, id)),
    }
}

pub fn read_node_in(scan: &Scan, id: &str, Ghost(t): Ghost<Tables>) -> (r: Result<Node, GraphError>)
    requires
        scan_of(*scan, t),
    ensures
        match r {
            Ok(n) => read_result(t, id@) == Ok::<NodeView, ErrorView>(node_view(n)),
            Err(e) => read_result(t, id@) == Err::<NodeView, ErrorView>(error_view(e)),
        },
{
    let i = canonical_node(scan, id, Ghost(t))?;
    proof {
        crate::scan::lemma_scan_nodes(*scan, t);
        assert(graph_nodes(t)[node_index_of(t, id@)].id@ == id@);
    }
    Ok(node_from_scanned(scan, i, Ghost(t)))
}

// ---------------------------------------------------------------------------
// recursive delete
// ---------------------------------------------------------------------------

pub open spec fn has_root_entry(gp: Seq<PlacementView>, x: Seq<char>) -> bool {
    exists|k: int| 0 <= k < gp.len() && (#[trigger] gp[k]).1 == x && gp[k].2 is None
}

pub open spec fn all_parents_in(gp: Seq<PlacementView>, x: Seq<char>, d: Seq<Seq<char>>) -> bool {
    forall|k: int| 0 <= k < gp.len() && (#[trigger] gp[k]).1 == x && gp[k].2 is Some ==> d.contains(gp[k].2->0)
}

/// Every node of `d` but `target` has a parent, no root entry, and only
/// parents inside `d`: deleting `d` removes no node that is also reached
/// from outside it.
pub open spec fn delete_sound(gp: Seq<PlacementView>, target: Seq<char>, d: Seq<Seq<char>>) -> bool {
    &&& d.contains(target)
    &&& forall|a: int, b: int| 0 <= a < b < d.len() ==> d[a] != d[b]
    &&& forall|a: int|
        0 <= a < d.len() && #[trigger] d[a] != target ==> !has_root_entry(gp, d[a]) && all_parents_in(
            gp,
            d[a],
            d,
        ) && exists|k: int| 0 <= k < gp.len() && (#[trigger] gp[k]).1 == d[a] && gp[k].2 is Some
}

/// No child of `d` outside it is reached only from inside `d`.
pub open spec fn delete_closed(gp: Seq<PlacementView>, d: Seq<Seq<char>>) -> bool {
    forall|k: int|
        0 <= k < gp.len() && (#[trigger] gp[k]).2 is Some && d.contains(gp[k].2->0) && !d.contains(gp[k].1)
            ==> has_root_entry(gp, gp[k].1) || !all_parents_in(gp, gp[k].1, d)
}

fn text_in(d: &Vec<String>, x: &String) -> (r: bool)
    ensures
        r == texts(*d).contains(x@),
{
    let mut i: usize = 0;
    while i < d.len()
        invariant
            i <= d.len(),
            forall|k: int| 0 <= k < i ==> (#[trigger] d@[k])@ != x@,
        decreases d.len() - i,
    {
        if str_same(&d[i], x) {
            assert(texts(*d)[i as int] == x@);
            return true;
        }
        i += 1;
    }
    proof {
        if texts(*d).contains(x@) {
            let k = choose|k: int| 0 <= k < texts(*d).len() && texts(*d)[k] == x@;
            assert(d@[k]@ == x@);
        }
    }
    false
}

fn root_entry_in(scan: &Scan, x: &String, Ghost(gp): Ghost<Seq<PlacementView>>) -> (r: bool)
    requires
        placement_views(scan.placements@) == gp,
    ensures
        r == has_root_entry(gp, x@),
{
    let mut k: usize = 0;
    while k < scan.placements.len()
        invariant
            k <= scan.placements.len(),
            placement_views(scan.placements@) == gp,
            forall|j: int| 0 <= j < k ==> !((#[trigger] gp[j]).1 == x@ && gp[j].2 is None),
        decreases scan.placements.len() - k,
    {
        assert(gp[k as int] == scan.placements@[k as int].view());
        if str_same(&scan.placements[k].node_id, x) && scan.placements[k].parent_id.is_none() {
            return true;
        }
        k += 1;
    }
    false
}

fn parents_inside(scan: &Scan, x: &String, d: &Vec<String>, Ghost(gp): Ghost<Seq<PlacementView>>) -> (r: bool)
    requires
        placement_views(scan.placements@) == gp,
    ensures
        r == all_parents_in(gp, x@, texts(*d)),
{
    let mut k: usize = 0;
    while k < scan.placements.len()
        invariant
            k <= scan.placements.len(),
            placement_views(scan.placements@) == gp,
            forall|j: int| 0 <= j < k && (#[trigger] gp[j]).1 == x@ && gp[j].2 is Some ==> texts(*d).contains(gp[j].2->0),
        decreases scan.placements.len() - k,
    {
        assert(gp[k as int] == scan.placements@[k as int].view());
        if str_same(&scan.placements[k].node_id, x) {
            match &scan.placements[k].parent_id {
                Some(pid) => {
                    if !text_in(d, pid) {
                        return false;
                    }
                },
                None => {},
            }
        }
        k += 1;
    }
    true
}

/// The nodes a recursive delete of `target` removes: `target`, then every
/// node all of whose parents are removed and that has no root entry.
pub fn compute_delete_set(scan: &Scan, target: &str, Ghost(t): Ghost<Tables>) -> (d: Vec<String>)
    requires
        scan_of(*scan, t),
    ensures
        delete_sound(graph_places(t), target@, texts(d)),
        delete_closed(graph_places(t), texts(d)),
{
    proof {
        crate::scan::lemma_scan_nodes(*scan, t);
    }
    let ghost gp = graph_places(t);
    let n = scan.placements.len();
    let mut d: Vec<String> = Vec::new();
    d.push(string_from_str(target));
    let mut inset: Vec<bool> = Vec::new();
    let mut i: usize = 0;
    while i < n
        invariant
            i <= n,
            n == scan.placements.len(),
            placement_views(scan.placements@) == gp,
            inset.len() == i,
            forall|k: int| 0 <= k < i ==> (#[trigger] inset@[k] <==> texts(d).contains(gp[k].1)),
        decreases n - i,
    {
        assert(gp[i as int] == scan.placements@[i as int].view());
        inset.push(text_in(&d, &scan.placements[i].node_id));
        i += 1;
    }
    proof {
        assert(texts(d)[0] == target@);
    }
    loop
        invariant
            n == scan.placements.len(),
            gp == graph_places(t),
            placement_views(scan.placements@) == gp,
            inset.len() == n,
            forall|k: int| 0 <= k < n ==> (#[trigger] inset@[k] <==> texts(d).contains(gp[k].1)),
            delete_sound(gp, target@, texts(d)),
        ensures
            delete_sound(gp, target@, texts(d)),
            delete_closed(gp, texts(d)),
        decreases count_unmarked(inset@),
    {
        let mut changed = false;
        let ghost before = count_unmarked(inset@);
        let ghost d0 = texts(d);
        let mut j: usize = 0;
        while j < n
            invariant
                j <= n,
                n == scan.placements.len(),
                gp == graph_places(t),
                placement_views(scan.placements@) == gp,
                inset.len() == n,
                forall|k: int| 0 <= k < n ==> (#[trigger] inset@[k] <==> texts(d).contains(gp[k].1)),
                delete_sound(gp, target@, texts(d)),
                changed ==> count_unmarked(inset@) < before,
                !changed ==> count_unmarked(inset@) == before && texts(d) == d0,
                !changed ==> forall|k: int|
                    0 <= k < j && (#[trigger] gp[k]).2 is Some && d0.contains(gp[k].2->0) && !d0.contains(gp[k].1)
                        ==> has_root_entry(gp, gp[k].1) || !all_parents_in(gp, gp[k].1, d0),
            decreases n - j,
        {
            assert(gp[j as int] == scan.placements@[j as int].view());
            let p = &scan.placements[j];
            if !inset[j] {
                let parent_in = match &p.parent_id {
                    Some(pid) => text_in(&d, pid),
                    None => false,
                };
                if parent_in && !root_entry_in(scan, &p.node_id, Ghost(gp)) && parents_inside(scan, &p.node_id, &d, Ghost(gp)) {
                    let x = p.node_id.clone();
                    let ghost old_d = texts(d);
                    d.push(x);
                    proof {
                        assert(texts(d) =~= old_d.push(gp[j as int].1));
                        assert(texts(d).drop_last() =~= old_d);
                        assert forall|a: int, b: int| 0 <= a < b < texts(d).len() implies texts(d)[a] != texts(d)[b] by {
                            if b == old_d.len() {
                                assert(old_d[a] == texts(d)[a]);
                                if old_d[a] == gp[j as int].1 {
                                    assert(old_d.contains(gp[j as int].1));
                                }
                            } else {
                                assert(old_d[a] == texts(d)[a] && old_d[b] == texts(d)[b]);
                            }
                        }
                        assert forall|a: int|
                            0 <= a < texts(d).len() && #[trigger] texts(d)[a] != target@ implies !has_root_entry(gp, texts(d)[a])
                                && all_parents_in(gp, texts(d)[a], texts(d)) && exists|k: int|
                                0 <= k < gp.len() && (#[trigger] gp[k]).1 == texts(d)[a] && gp[k].2 is Some by {
                            if a < old_d.len() {
                                assert(old_d[a] == texts(d)[a]);
                                assert forall|k: int| 0 <= k < gp.len() && (#[trigger] gp[k]).1 == texts(d)[a] && gp[k].2 is Some implies texts(d).contains(gp[k].2->0) by {
                                    let c = choose|c: int| 0 <= c < old_d.len() && old_d[c] == gp[k].2->0;
                                    assert(texts(d)[c] == gp[k].2->0);
                                }
                            } else {
                                assert(texts(d)[a] == gp[j as int].1);
                                assert forall|k: int| 0 <= k < gp.len() && (#[trigger] gp[k]).1 == texts(d)[a] && gp[k].2 is Some implies texts(d).contains(gp[k].2->0) by {
                                    let c = choose|c: int| 0 <= c < old_d.len() && old_d[c] == gp[k].2->0;
                                    assert(texts(d)[c] == gp[k].2->0);
                                }
                            }
                        }
                        assert(texts(d).contains(target@)) by {
                            let c = choose|c: int| 0 <= c < old_d.len() && old_d[c] == target@;
                            assert(texts(d)[c] == target@);
                        }
                    }
                    let mut m: usize = 0;
                    let ghost marked_j = false;
                    while m < n
                        invariant
                            m <= n,
                            j < n,
                            n == scan.placements.len(),
                            placement_views(scan.placements@) == gp,
                            inset.len() == n,
                            texts(d).last() == gp[j as int].1,
                            texts(d).len() > 0,
                            forall|k: int| 0 <= k < m ==> (#[trigger] inset@[k] <==> texts(d).contains(gp[k].1)),
                            forall|k: int| m <= k < n ==> (#[trigger] inset@[k] <==> texts(d).drop_last().contains(gp[k].1)),
                            count_unmarked(inset@) <= before,
                            m > j ==> count_unmarked(inset@) < before,
                            !texts(d).drop_last().contains(gp[j as int].1),
                        decreases n - m,
                    {
                        assert(gp[m as int] == scan.placements@[m as int].view());
                        if !inset[m] && str_same(&scan.placements[m].node_id, &d[d.len() - 1]) {
                            proof {
                                lemma_count_mark(inset@, m as int);
                                assert(texts(d)[texts(d).len() - 1] == d@[d.len() - 1]@);
                            }
                            inset.set(m, true);
                        }
                        proof {
                            let td = texts(d);
                            assert(td =~= td.drop_last().push(td.last()));
                            if inset@[m as int] {
                                assert(td.contains(gp[m as int].1)) by {
                                    if td.drop_last().contains(gp[m as int].1) {
                                        let c = choose|c: int| 0 <= c < td.drop_last().len() && td.drop_last()[c] == gp[m as int].1;
                                        assert(td[c] == gp[m as int].1);
                                    } else {
                                        assert(td[td.len() - 1] == gp[m as int].1);
                                    }
                                }
                            } else {
                                assert(gp[m as int].1 != td.last());
                                if td.contains(gp[m as int].1) {
                                    let c = choose|c: int| 0 <= c < td.len() && td[c] == gp[m as int].1;
                                    assert(c < td.len() - 1);
                                    assert(td.drop_last()[c] == gp[m as int].1);
                                }
                            }
                            if m == j {
                                assert(!inset@[m as int] || count_unmarked(inset@) < before);
                            }
                        }
                        m += 1;
                    }
                    changed = true;
                }
            }
            j += 1;
        }
        if !changed {
            break;
        }
    }
    d
}

// ---------------------------------------------------------------------------
// traversal
// ---------------------------------------------------------------------------

/// Which way a traversal walks.
#[derive(Debug, Clone, Copy, PartialEq, Eq)]
pub enum Direction {
    Ancestors,
    Descendants,
}

/// `x` lies beyond `start` in the walking direction.
pub open spec fn related(gp: Seq<PlacementView>, start: Seq<char>, x: Seq<char>, dir: Direction) -> bool {
    match dir {
        Direction::Descendants => reaches(gp, start, x),
        Direction::Ancestors => reaches(gp, x, start),
    }
}

/// `b` is one step from `a` in the walking direction.
pub open spec fn step(gp: Seq<PlacementView>, a: Seq<char>, b: Seq<char>, dir: Direction) -> bool {
    match dir {
        Direction::Descendants => has_edge(gp, a, b),
        Direction::Ancestors => has_edge(gp, b, a),
    }
}

pub proof fn lemma_edge_reaches(gp: Seq<PlacementView>, a: Seq<char>, b: Seq<char>)
    requires
        has_edge(gp, a, b),
    ensures
        reaches(gp, a, b),
{
    let w = seq![a, b];
    assert(is_walk(gp, w));
}

pub proof fn lemma_reaches_then_edge(gp: Seq<PlacementView>, a: Seq<char>, b: Seq<char>, c: Seq<char>)
    requires
        reaches(gp, a, b),
        has_edge(gp, b, c),
    ensures
        reaches(gp, a, c),
{
    let w0 = choose|w: Seq<Seq<char>>| #[trigger] is_walk(gp, w) && w[0] == a && w.last() == b;
    let w = w0.push(c);
    assert forall|x: int| 0 <= x < w.len() - 1 implies has_edge(gp, #[trigger] w[x], w[x + 1]) by {
        if x < w0.len() - 1 {
            assert(w[x] == w0[x] && w[x + 1] == w0[x + 1]);
        }
    }
    assert(is_walk(gp, w));
}

pub proof fn lemma_edge_then_reaches(gp: Seq<PlacementView>, a: Seq<char>, b: Seq<char>, c: Seq<char>)
    requires
        has_edge(gp, a, b),
        reaches(gp, b, c),
    ensures
        reaches(gp, a, c),
{
    let w0 = choose|w: Seq<Seq<char>>| #[trigger] is_walk(gp, w) && w[0] == b && w.last() == c;
    let w = seq![a] + w0;
    assert forall|x: int| 0 <= x < w.len() - 1 implies has_edge(gp, #[trigger] w[x], w[x + 1]) by {
        if x > 0 {
            assert(w[x] == w0[x - 1] && w[x + 1] == w0[x]);
        }
    }
    assert(is_walk(gp, w));
}

proof fn lemma_step_related(gp: Seq<PlacementView>, start: Seq<char>, a: Seq<char>, b: Seq<char>, dir: Direction)
    requires
        a == start || related(gp, start, a, dir),
        step(gp, a, b, dir),
    ensures
        related(gp, start, b, dir),
{
    match dir {
        Direction::Descendants => {
            if a == start {
                lemma_edge_reaches(gp, a, b);
            } else {
                lemma_reaches_then_edge(gp, start, a, b);
            }
        },
        Direction::Ancestors => {
            if a == start {
                lemma_edge_reaches(gp, b, a);
            } else {
                lemma_edge_then_reaches(gp, b, a, start);
            }
        },
    }
}

pub open spec fn good_neighbor(t: Tables, from: Seq<char>, k: int, sm: NodeSummary, dir: Direction) -> bool {
    &&& 0 <= k < graph_nodes(t).len()
    &&& step(graph_places(t), from, graph_nodes(t)[k].id@, dir)
    &&& sm.id@ == graph_nodes(t)[k].id@
}

pub open spec fn same_pair(a: (usize, NodeSummary), b: (usize, NodeSummary)) -> bool {
    a.0 == b.0 && a.1.id@ == b.1.id@
}

/// Every pair of `r` is a pair of `v`.
pub open spec fn pairs_from(r: Seq<(usize, NodeSummary)>, v: Seq<(usize, NodeSummary)>) -> bool {
    forall|x: int| 0 <= x < r.len() ==> pair_in(#[trigger] r[x], v)
}

/// Some pair of `v` has the node and summary id of `a`.
pub open spec fn pair_in(a: (usize, NodeSummary), v: Seq<(usize, NodeSummary)>) -> bool {
    exists|y: int| 0 <= y < v.len() && same_pair(a, #[trigger] v[y])
}

/// A neighbour as a plain value: its node position and its summary.
pub open spec fn pair_view(x: (usize, NodeSummary)) -> (usize, SummaryView) {
    (x.0, summary_view(x.1))
}

pub open spec fn pair_key(x: (usize, NodeSummary)) -> KeyView {
    summary_key(summary_view(x.1))
}

/// Neighbours ordered by the title, id and canonical path of their
/// summaries, equal keys in their given order.
pub open spec fn neighbors_sorted(v: Seq<(usize, NodeSummary)>) -> Seq<(usize, SummaryView)> {
    permuted(v.map_values(|x: (usize, NodeSummary)| pair_view(x)), sorted_by(v.map_values(|x: (usize, NodeSummary)| pair_key(x))))
}

fn sort_neighbors(v: Vec<(usize, NodeSummary)>) -> (r: Vec<(usize, NodeSummary)>)
    ensures
        r@.map_values(|x: (usize, NodeSummary)| pair_view(x)) == neighbors_sorted(v@),
        pairs_from(r@, v@),
        pairs_from(v@, r@),
{
    let ghost kv = v@.map_values(|x: (usize, NodeSummary)| pair_key(x));
    let ghost pv = v@.map_values(|x: (usize, NodeSummary)| pair_view(x));
    let mut keys: Vec<SortKey> = Vec::new();
    let mut i: usize = 0;
    while i < v.len()
        invariant
            i <= v.len(),
            kv == v@.map_values(|x: (usize, NodeSummary)| pair_key(x)),
            key_views(keys@) == kv.take(i as int),
        decreases v.len() - i,
    {
        let k = SortKey {
            a: chars_of(v[i].1.title.as_str()),
            b: chars_of(v[i].1.id.as_str()),
            c: crate::paths::path_order_chars(v[i].1.canonical_path.as_str()),
            n: 0,
        };
        proof {
            assert(k.view() == kv[i as int]);
            lemma_key_views_push(keys@, k);
            assert(kv.take(i + 1) =~= kv.take(i as int).push(kv[i as int]));
        }
        keys.push(k);
        i += 1;
    }
    assert(kv.take(v.len() as int) =~= kv);
    let p = sort_order(&keys);
    proof {
        assert(key_views(keys@).len() == keys@.len());
        lemma_sorted_unique(kv, p@);
    }
    let mut out: Vec<(usize, NodeSummary)> = Vec::new();
    let mut j: usize = 0;
    while j < p.len()
        invariant
            j <= p.len(),
            p.len() == v.len(),
            pv == v@.map_values(|x: (usize, NodeSummary)| pair_view(x)),
            forall|k: int| 0 <= k < p.len() ==> (#[trigger] p@[k] as int) < v.len(),
            out@.len() == j,
            forall|x: int| 0 <= x < j ==> same_pair(#[trigger] out@[x], v@[p@[x] as int]),
            forall|x: int| 0 <= x < j ==> pair_view(#[trigger] out@[x]) == pv[p@[x] as int],
        decreases p.len() - j,
    {
        let src = &v[p[j]];
        let c = copy_summary(&src.1);
        let ghost old_out = out@;
        out.push((src.0, c));
        proof {
            assert forall|x: int| 0 <= x < j + 1 implies same_pair(#[trigger] out@[x], v@[p@[x] as int]) by {
                if x < j {
                    assert(out@[x] == old_out[x]);
                }
            }
            assert forall|x: int| 0 <= x < j + 1 implies pair_view(#[trigger] out@[x]) == pv[p@[x] as int] by {
                if x < j {
                    assert(out@[x] == old_out[x]);
                }
            }
        }
        j += 1;
    }
    proof {
        assert(out@.map_values(|x: (usize, NodeSummary)| pair_view(x)) =~= permuted(pv, p@));
        assert(pairs_from(out@, v@)) by {
            assert forall|x: int| 0 <= x < out@.len() implies pair_in(#[trigger] out@[x], v@) by {
                let y = p@[x] as int;
                assert(same_pair(out@[x], v@[y]));
            }
        }
        assert(pairs_from(v@, out@)) by {
            assert forall|y: int| 0 <= y < v@.len() implies pair_in(#[trigger] v@[y], out@) by {
                crate::order::lemma_sorted_order_covers(key_views(keys@), p@, y);
                let x = choose|x: int| 0 <= x < p@.len() && p@[x] == y;
                assert(same_pair(out@[x], v@[p@[x] as int]));
                assert(same_pair(v@[y], out@[x]));
            }
        }
    }
    out
}

/// Placement `i` is an edge from `a` to `b` in the walking direction.
pub open spec fn edge_at(gp: Seq<PlacementView>, i: int, a: Seq<char>, b: Seq<char>, dir: Direction) -> bool {
    0 <= i < gp.len() && match dir {
        Direction::Descendants => gp[i].2 == Some(a) && gp[i].1 == b,
        Direction::Ancestors => gp[i].1 == a && gp[i].2 == Some(b),
    }
}

/// `b` is one step from `a` in the walking direction, and a node of the
/// graph with a canonical placement (the nodes a walk lists).
pub open spec fn walk_step(t: Tables, a: Seq<char>, b: Seq<char>, dir: Direction) -> bool {
    &&& step(graph_places(t), a, b, dir)
    &&& has_node(t, b)
    &&& canon(t, b).len() > 0
}

/// Some pair of `v` is for node `k`.
pub open spec fn listed(v: Seq<(usize, NodeSummary)>, k: int) -> bool {
    exists|j: int| 0 <= j < v.len() && v[j].0 as int == k
}

proof fn lemma_listed_pairs(r: Seq<(usize, NodeSummary)>, v: Seq<(usize, NodeSummary)>, k: int)
    requires
        listed(v, k),
        pairs_from(v, r),
    ensures
        listed(r, k),
{
    let j = choose|j: int| 0 <= j < v.len() && v[j].0 as int == k;
    assert(pair_in(v[j], r));
    let y = choose|y: int| 0 <= y < r.len() && same_pair(v[j], #[trigger] r[y]);
    assert(r[y].0 as int == k);
}

/// The read error of the first child (from placement `i` on) of `id` that
/// cannot be read.
pub open spec fn first_bad_child(t: Tables, id: Seq<char>, i: int) -> Option<ErrorView>
    decreases graph_places(t).len() - i,
{
    if i < 0 || i >= graph_places(t).len() {
        None
    } else if graph_places(t)[i].2 == Some(id) && node_error(t, graph_places(t)[i].1) is Some {
        node_error(t, graph_places(t)[i].1)
    } else {
        first_bad_child(t, id, i + 1)
    }
}

/// Why the neighbours of `id` cannot be listed, if they cannot: for
/// children, `id` or one of its children cannot be read; for parents, a
/// problem of the scan names `id`.
pub open spec fn neighbors_error(scan: Scan, t: Tables, id: Seq<char>, dir: Direction) -> Option<ErrorView> {
    match dir {
        Direction::Descendants => if node_error(t, id) is Some {
            node_error(t, id)
        } else {
            first_bad_child(t, id, 0)
        },
        Direction::Ancestors => match first_naming(crate::scan::problems_view(scan.problems@), id) {
            Some(p) => Some(problem_error(p)),
            None => None,
        },
    }
}

/// The neighbours of `id` one step away, sorted by title, id and path:
/// every node one step on that a walk lists.
fn sorted_neighbors(scan: &Scan, id: &String, dir: Direction, Ghost(t): Ghost<Tables>) -> (r: Result<Vec<(usize, NodeSummary)>, GraphError>)
    requires
        scan_of(*scan, t),
    ensures
        match r {
            Ok(_) => neighbors_error(*scan, t, id@, dir) is None,
            Err(e) => neighbors_error(*scan, t, id@, dir) == Some(error_view(e)),
        },
        r matches Ok(v) ==> forall|j: int| 0 <= j < v@.len() ==> good_neighbor(t, id@, #[trigger] v@[j].0 as int, v@[j].1, dir),
        r matches Ok(v) ==> forall|k: int|
            0 <= k < graph_nodes(t).len() && #[trigger] walk_step(t, id@, graph_nodes(t)[k].id@, dir) ==> listed(v@, k),
{
    proof {
        crate::scan::lemma_scan_nodes(*scan, t);
        lemma_graph_ids_distinct(t);
    }
    let ghost gp = graph_places(t);
    let ghost gn = graph_nodes(t);
    let mut found: Vec<(usize, NodeSummary)> = Vec::new();
    match dir {
        Direction::Descendants => {
            match canonical_node(scan, id.as_str(), Ghost(t)) {
                Ok(_) => {},
                Err(e) => {
                    return Err(e);
                },
            }
        },
        Direction::Ancestors => {
            if let Some(e) = entry_problem_error(scan, id.as_str()) {
                return Err(e);
            }
        },
    }
    let me = Some(id.clone());
    let mut i: usize = 0;
    while i < scan.placements.len()
        invariant
            i <= scan.placements.len(),
            scan_of(*scan, t),
            gp == graph_places(t),
            gn == graph_nodes(t),
            placement_views(scan.placements@) == gp,
            opt_view(me) == Some(id@),
            forall|j: int| 0 <= j < found@.len() ==> good_neighbor(t, id@, #[trigger] found@[j].0 as int, found@[j].1, dir),
            dir is Descendants ==> node_error(t, id@) is None && first_bad_child(t, id@, 0) == first_bad_child(t, id@, i as int),
            dir is Ancestors ==> neighbors_error(*scan, t, id@, dir) is None,
            forall|a: int, b: int| 0 <= a < b < gn.len() ==> (#[trigger] gn[a]).id@ != (#[trigger] gn[b]).id@,
            forall|k: int, i2: int|
                0 <= k < gn.len() && 0 <= i2 < i && canon(t, gn[k].id@).len() > 0 && #[trigger] edge_at(gp, i2, id@, gn[k].id@, dir)
                    ==> listed(found@, k),
        decreases scan.placements.len() - i,
    {
        let p = &scan.placements[i];
        assert(gp[i as int] == p.view());
        let ghost before = found@;
        match dir {
            Direction::Descendants => {
                if crate::scan::opt_eq(&p.parent_id, &me) {
                    let k = match canonical_node(scan, p.node_id.as_str(), Ghost(t)) {
                        Ok(k) => k,
                        Err(e) => {
                            proof {
                                assert(gp[i as int].2 == Some(id@));
                                assert(first_bad_child(t, id@, i as int) == node_error(t, gp[i as int].1));
                            }
                            return Err(e);
                        },
                    };
                    proof {
                        assert(first_bad_child(t, id@, i as int) == first_bad_child(t, id@, i + 1));
                    }
                    match node_summary(scan, k, !p.is_canonical, Ghost(t)) {
                        Some(sm) => {
                            proof {
                                assert(graph_nodes(t)[k as int].id@ == gp[i as int].1);
                                assert(has_edge(gp, id@, gp[i as int].1));
                            }
                            found.push((k, sm));
                            proof {
                                assert(found@[before.len() as int].0 == k);
                            }
                        },
                        None => {},
                    }
                    proof {
                        assert(gn[k as int].id@ == gp[i as int].1);
                        assert forall|k2: int| 0 <= k2 < gn.len() && gn[k2].id@ == gp[i as int].1 implies k2 == k by {
                            if k2 < k {
                                assert(gn[k2].id@ != gn[k as int].id@);
                            } else if k2 > k {
                                assert(gn[k as int].id@ != gn[k2].id@);
                            }
                        }
                    }
                }
            },
            Direction::Ancestors => {
                if str_same(&p.node_id, id) {
                    match &p.parent_id {
                        Some(pid) => {
                            match find_node(scan, pid.as_str(), Ghost(t)) {
                                Some(k) => {
                                    match node_summary(scan, k, false, Ghost(t)) {
                                        Some(sm) => {
                                            proof {
                                                assert(graph_nodes(t)[k as int].id@ == pid@);
                                                assert(has_edge(gp, pid@, id@));
                                            }
                                            found.push((k, sm));
                                            proof {
                                                assert(found@[before.len() as int].0 == k);
                                            }
                                        },
                                        None => {},
                                    }
                                    proof {
                                        assert forall|k2: int| 0 <= k2 < gn.len() && gn[k2].id@ == pid@ implies k2 == k by {
                                            if k2 < k {
                                                assert(gn[k2].id@ != gn[k as int].id@);
                                            } else if k2 > k {
                                                assert(gn[k as int].id@ != gn[k2].id@);
                                            }
                                        }
                                    }
                                },
                                None => {
                                    proof {
                                        assert forall|k2: int| 0 <= k2 < gn.len() implies gn[k2].id@ != pid@ by {
                                            if gn[k2].id@ == pid@ {
                                                assert(has_node(t, pid@));
                                            }
                                        }
                                    }
                                },
                            }
                        },
                        None => {},
                    }
                }
            },
        }
        proof {
            if dir is Descendants {
                assert(first_bad_child(t, id@, i as int) == first_bad_child(t, id@, i + 1));
            }
            assert forall|k: int, i2: int|
                0 <= k < gn.len() && 0 <= i2 < i + 1 && canon(t, gn[k].id@).len() > 0 && #[trigger] edge_at(gp, i2, id@, gn[k].id@, dir)
                    implies listed(found@, k) by {
                if i2 < i {
                    assert(listed(before, k));
                    let j = choose|j: int| 0 <= j < before.len() && before[j].0 as int == k;
                    assert(found@[j] == before[j]);
                } else {
                    assert(gp[i2] == gp[i as int]);
                    assert(has_node(t, gn[k].id@));
                    assert(node_index_of(t, gn[k].id@) == k) by {
                        let c = node_index_of(t, gn[k].id@);
                        if c != k {
                            if c < k {
                                assert(gn[c].id@ != gn[k].id@);
                            } else {
                                assert(gn[k].id@ != gn[c].id@);
                            }
                        }
                    }
                }
            }
        }
        i += 1;
    }
    let ghost f = found@;
    proof {
        if dir is Descendants {
            assert(first_bad_child(t, id@, i as int) is None);
        }
    }
    let r = sort_neighbors(found);
    proof {
        assert forall|j: int| 0 <= j < r@.len() implies good_neighbor(t, id@, #[trigger] r@[j].0 as int, r@[j].1, dir) by {
            assert(pair_in(r@[j], f));
            let x = choose|x: int| 0 <= x < f.len() && same_pair(r@[j], #[trigger] f[x]);
            assert(good_neighbor(t, id@, f[x].0 as int, f[x].1, dir));
        }
        assert forall|k: int| 0 <= k < gn.len() && #[trigger] walk_step(t, id@, gn[k].id@, dir) implies listed(r@, k) by {
            let i2 = choose|i2: int| 0 <= i2 < gp.len() && match dir {
                Direction::Descendants => (#[trigger] gp[i2]).2 == Some(id@) && gp[i2].1 == gn[k].id@,
                Direction::Ancestors => gp[i2].2 == Some(gn[k].id@) && gp[i2].1 == id@,
            };
            assert(edge_at(gp, i2, id@, gn[k].id@, dir));
            lemma_listed_pairs(r@, f, k);
        }
    }
    Ok(r)
}

proof fn lemma_count_bound(m: Seq<bool>)
    ensures
        count_unmarked(m) <= m.len(),
    decreases m.len(),
{
    if m.len() > 0 {
        lemma_count_bound(m.drop_last());
    }
}

/// `b` is `d` steps from `a` in the walking direction.
pub open spec fn steps_from(gp: Seq<PlacementView>, a: Seq<char>, b: Seq<char>, d: nat, dir: Direction) -> bool
    decreases d,
{
    if d == 0 {
        a == b
    } else {
        exists|c: Seq<char>| steps_from(gp, a, c, (d - 1) as nat, dir) && #[trigger] step(gp, c, b, dir)
    }
}

/// Within the depth limit, if there is one.
pub open spec fn within(d: nat, max_depth: Option<usize>) -> bool {
    match max_depth {
        Some(m) => d <= m,
        None => true,
    }
}

/// `x` is between one step and the depth limit from `a`.
pub open spec fn near(gp: Seq<PlacementView>, a: Seq<char>, x: Seq<char>, max_depth: Option<usize>, dir: Direction) -> bool {
    exists|d: nat| 1 <= d && within(d, max_depth) && #[trigger] steps_from(gp, a, x, d, dir)
}

/// The summaries come level by level: each at the given number of steps
/// from `a`, the numbers never decreasing along the list.
pub open spec fn level_ordered(gp: Seq<PlacementView>, a: Seq<char>, v: Seq<NodeSummary>, ds: Seq<nat>, dir: Direction) -> bool {
    &&& ds.len() == v.len()
    &&& forall|i: int, j: int| 0 <= i < j < ds.len() ==> #[trigger] ds[i] <= #[trigger] ds[j]
    &&& forall|i: int| 0 <= i < v.len() ==> steps_from(gp, a, (#[trigger] v[i]).id@, ds[i], dir)
}

/// Node `k` waits in the queue at or after `head`.
pub open spec fn pending(queue: Seq<(usize, NodeSummary, usize)>, head: int, k: int) -> bool {
    exists|y: int| head <= y < queue.len() && queue[y].0 as int == k
}

/// Every node one walk step from an expanded node is visited or waits in
/// the queue.
pub open spec fn expanded_closed(
    t: Tables,
    visited: Seq<bool>,
    queue: Seq<(usize, NodeSummary, usize)>,
    head: int,
    s: int,
    all: bool,
    dir: Direction,
) -> bool {
    forall|k: int, k2: int|
        0 <= k < visited.len() && 0 <= k2 < visited.len() && visited[k] && (k == s || all) && #[trigger] walk_step(
            t,
            graph_nodes(t)[k].id@,
            graph_nodes(t)[k2].id@,
            dir,
        ) ==> visited[k2] || pending(queue, head, k2)
}

/// `w` is a walk of listed nodes from its first to its last node.
pub open spec fn is_listed_walk(t: Tables, w: Seq<Seq<char>>, dir: Direction) -> bool {
    &&& w.len() >= 1
    &&& forall|i: int| 0 <= i < w.len() - 1 ==> #[trigger] walk_step(t, w[i], w[i + 1], dir)
}

/// `b` is reached from `a` by walk steps.
pub open spec fn walk_reaches(t: Tables, a: Seq<char>, b: Seq<char>, dir: Direction) -> bool {
    exists|w: Seq<Seq<char>>| #[trigger] is_listed_walk(t, w, dir) && w[0] == a && w.last() == b
}

/// Some summary of `v` is for `x`.
pub open spec fn in_summaries(v: Seq<NodeSummary>, x: Seq<char>) -> bool {
    exists|a: int| 0 <= a < v.len() && v[a].id@ == x
}

/// Along a walk from the start, every node is visited when the visited
/// nodes are closed under walk steps.
proof fn lemma_walk_visited(t: Tables, visited: Seq<bool>, s: int, w: Seq<Seq<char>>, dir: Direction, i: int)
    requires
        visited.len() == graph_nodes(t).len(),
        0 <= s < visited.len(),
        visited[s],
        graph_nodes(t)[s].id@ == w[0],
        is_listed_walk(t, w, dir),
        0 <= i < w.len(),
        forall|a: int, b: int| 0 <= a < b < graph_nodes(t).len() ==> (#[trigger] graph_nodes(t)[a]).id@ != (#[trigger] graph_nodes(t)[b]).id@,
        forall|k: int, k2: int|
            0 <= k < visited.len() && 0 <= k2 < visited.len() && visited[k] && #[trigger] walk_step(
                t,
                graph_nodes(t)[k].id@,
                graph_nodes(t)[k2].id@,
                dir,
            ) ==> visited[k2],
    ensures
        exists|k: int| 0 <= k < visited.len() && visited[k] && graph_nodes(t)[k].id@ == w[i],
    decreases i,
{
    if i == 0 {
        assert(graph_nodes(t)[s].id@ == w[0]);
    } else {
        lemma_walk_visited(t, visited, s, w, dir, i - 1);
        let k = choose|k: int| 0 <= k < visited.len() && visited[k] && graph_nodes(t)[k].id@ == w[i - 1];
        let j = i - 1;
        assert(walk_step(t, w[j], w[j + 1], dir));
        let k2 = node_index_of(t, w[i]);
        assert(0 <= k2 < graph_nodes(t).len() && graph_nodes(t)[k2].id@ == w[i]);
        assert(walk_step(t, graph_nodes(t)[k].id@, graph_nodes(t)[k2].id@, dir));
    }
}

/// A node first reached `d` steps out is expanded under the depth limit.
pub open spec fn below(d: int, max_depth: Option<usize>) -> bool {
    match max_depth {
        Some(m) => d < m,
        None => true,
    }
}

/// Node `k` waits in the queue at or after `head`, at most `bound` steps out.
pub open spec fn pending_within(queue: Seq<(usize, NodeSummary, usize)>, head: int, k: int, bound: int) -> bool {
    exists|y: int| head <= y < queue.len() && queue[y].0 as int == k && queue[y].2 <= bound
}

/// Every node one walk step from a visited node that is expanded (first
/// reached `vd[k]` steps out, below the limit) is visited at most one step
/// further out, or waits in the queue at most that far out.
pub open spec fn depth_closed(
    t: Tables,
    visited: Seq<bool>,
    vd: Seq<int>,
    queue: Seq<(usize, NodeSummary, usize)>,
    head: int,
    max_depth: Option<usize>,
    dir: Direction,
) -> bool {
    forall|k: int, k2: int|
        0 <= k < visited.len() && 0 <= k2 < visited.len() && visited[k] && below(vd[k], max_depth) && #[trigger] walk_step(
            t,
            graph_nodes(t)[k].id@,
            graph_nodes(t)[k2].id@,
            dir,
        ) ==> (visited[k2] && vd[k2] <= vd[k] + 1) || pending_within(queue, head, k2, vd[k] + 1)
}

/// The same, for every expanded node but `skip`.
pub open spec fn depth_closed_but(
    t: Tables,
    visited: Seq<bool>,
    vd: Seq<int>,
    queue: Seq<(usize, NodeSummary, usize)>,
    head: int,
    max_depth: Option<usize>,
    dir: Direction,
    skip: int,
) -> bool {
    forall|k: int, k2: int|
        0 <= k < visited.len() && 0 <= k2 < visited.len() && k != skip && visited[k] && below(vd[k], max_depth)
            && #[trigger] walk_step(t, graph_nodes(t)[k].id@, graph_nodes(t)[k2].id@, dir)
            ==> (visited[k2] && vd[k2] <= vd[k] + 1) || pending_within(queue, head, k2, vd[k] + 1)
}

/// Along a walk from the start within the depth limit, the `i`th node is
/// visited at most `i` steps out, when every expanded node's steps lead to
/// visited nodes at most one step further out.
proof fn lemma_walk_depth(
    t: Tables,
    visited: Seq<bool>,
    vd: Seq<int>,
    s: int,
    w: Seq<Seq<char>>,
    max_depth: Option<usize>,
    dir: Direction,
    i: int,
)
    requires
        visited.len() == graph_nodes(t).len(),
        vd.len() == visited.len(),
        0 <= s < visited.len(),
        visited[s],
        vd[s] == 0,
        graph_nodes(t)[s].id@ == w[0],
        is_listed_walk(t, w, dir),
        0 <= i < w.len(),
        within((w.len() - 1) as nat, max_depth),
        forall|k: int, k2: int|
            0 <= k < visited.len() && 0 <= k2 < visited.len() && visited[k] && below(vd[k], max_depth) && #[trigger] walk_step(
                t,
                graph_nodes(t)[k].id@,
                graph_nodes(t)[k2].id@,
                dir,
            ) ==> visited[k2] && vd[k2] <= vd[k] + 1,
    ensures
        exists|k: int| 0 <= k < visited.len() && visited[k] && vd[k] <= i && graph_nodes(t)[k].id@ == w[i],
    decreases i,
{
    if i == 0 {
        assert(graph_nodes(t)[s].id@ == w[0]);
    } else {
        lemma_walk_depth(t, visited, vd, s, w, max_depth, dir, i - 1);
        let k = choose|k: int| 0 <= k < visited.len() && visited[k] && vd[k] <= i - 1 && graph_nodes(t)[k].id@ == w[i - 1];
        let j = i - 1;
        assert(walk_step(t, w[j], w[j + 1], dir));
        let k2 = node_index_of(t, w[i]);
        assert(0 <= k2 < graph_nodes(t).len() && graph_nodes(t)[k2].id@ == w[i]);
        assert(walk_step(t, graph_nodes(t)[k].id@, graph_nodes(t)[k2].id@, dir));
        assert(below(vd[k], max_depth));
    }
}

/// A breadth-first walk from `id`, each node once, up to `max_depth` steps:
/// with no limit, every node that walk steps reach.
pub fn traverse_in(scan: &Scan, id: &str, max_depth: Option<usize>, dir: Direction, Ghost(t): Ghost<Tables>) -> (r: Result<
    Vec<NodeSummary>,
    GraphError,
>)
    requires
        scan_of(*scan, t),
    ensures
        node_error(t, id@) matches Some(e) ==> r matches Err(x) && error_view(x) == e,
        r matches Ok(v) ==> {
            &&& node_error(t, id@) is None
            &&& forall|a: int, b: int| 0 <= a < b < v@.len() ==> (#[trigger] v@[a]).id@ != (#[trigger] v@[b]).id@
            &&& forall|a: int| 0 <= a < v@.len() ==> (#[trigger] v@[a]).id@ != id@
            &&& forall|a: int| 0 <= a < v@.len() ==> related(graph_places(t), id@, (#[trigger] v@[a]).id@, dir)
            &&& max_depth == Some(0usize) ==> v@.len() == 0
            &&& max_depth != Some(0usize) ==> forall|x: Seq<char>|
                #[trigger] walk_step(t, id@, x, dir) && x != id@ ==> in_summaries(v@, x)
            &&& max_depth is None ==> forall|x: Seq<char>|
                #[trigger] walk_reaches(t, id@, x, dir) && x != id@ ==> in_summaries(v@, x)
            &&& forall|w: Seq<Seq<char>>|
                #[trigger] is_listed_walk(t, w, dir) && w[0] == id@ && w.last() != id@ && within((w.len() - 1) as nat, max_depth)
                    ==> in_summaries(v@, w.last())
            &&& forall|a: int| 0 <= a < v@.len() ==> near(graph_places(t), id@, (#[trigger] v@[a]).id@, max_depth, dir)
            &&& exists|ds: Seq<nat>| level_ordered(graph_places(t), id@, v@, ds, dir)
        },
{
    let s = canonical_node(scan, id, Ghost(t))?;
    if let Some(m) = max_depth {
        if m == 0 {
            let none: Vec<NodeSummary> = Vec::new();
            proof {
                assert(level_ordered(graph_places(t), id@, none@, Seq::<nat>::empty(), dir));
            }
            return Ok(none);
        }
    }
    proof {
        crate::scan::lemma_scan_nodes(*scan, t);
        lemma_graph_ids_distinct(t);
        assert(graph_nodes(t)[s as int].id@ == id@);
    }
    let ghost gp = graph_places(t);
    let ghost all = max_depth is None;
    let n = scan.nodes.len();
    let mut visited: Vec<bool> = Vec::new();
    let mut i: usize = 0;
    while i < n
        invariant
            i <= n,
            visited.len() == i,
            forall|k: int| 0 <= k < i ==> !visited@[k],
        decreases n - i,
    {
        visited.push(false);
        i += 1;
    }
    proof {
        lemma_count_bound(visited@);
        lemma_count_mark(visited@, s as int);
    }
    visited.set(s, true);
    let first = sorted_neighbors(scan, &scan.nodes[s].fields.id, dir, Ghost(t))?;
    proof {
        assert(crate::scan::node_assembled(scan.nodes@[s as int], graph_nodes(t)[s as int], gp));
    }
    let mut queue: Vec<(usize, NodeSummary, usize)> = Vec::new();
    let mut q: usize = 0;
    while q < first.len()
        invariant
            q <= first.len(),
            n == scan.nodes.len(),
            n == graph_nodes(t).len(),
            visited.len() == n,
            count_unmarked(visited@) + 1 <= n,
            queue@.len() == q,
            forall|x: int| 0 <= x < first@.len() ==> good_neighbor(t, id@, #[trigger] first@[x].0 as int, first@[x].1, dir),
            forall|x: int| 0 <= x < queue@.len() ==> (#[trigger] queue@[x]).0 < n && queue@[x].2 == 1
                && related(gp, id@, graph_nodes(t)[queue@[x].0 as int].id@, dir)
                && queue@[x].1.id@ == graph_nodes(t)[queue@[x].0 as int].id@
                && steps_from(gp, id@, graph_nodes(t)[queue@[x].0 as int].id@, 1, dir),
            forall|x: int| 0 <= x < q ==> (#[trigger] queue@[x]).0 == first@[x].0,
            max_depth != Some(0usize),
            gp == graph_places(t),
            s < n,
            forall|k: int| 0 <= k < n && #[trigger] visited@[k] ==> k == s,
        decreases first.len() - q,
    {
        proof {
            assert(good_neighbor(t, id@, first@[q as int].0 as int, first@[q as int].1, dir));
            lemma_step_related(gp, id@, id@, graph_nodes(t)[first@[q as int].0 as int].id@, dir);
            assert(steps_from(gp, id@, id@, 0, dir));
            assert(steps_from(gp, id@, graph_nodes(t)[first@[q as int].0 as int].id@, 1, dir));
        }
        queue.push((first[q].0, copy_summary(&first[q].1), 1));
        q += 1;
    }
    proof {
        assert forall|k: int, k2: int|
            0 <= k < visited@.len() && 0 <= k2 < visited@.len() && visited@[k] && (k == s || all) && #[trigger] walk_step(
                t,
                graph_nodes(t)[k].id@,
                graph_nodes(t)[k2].id@,
                dir,
            ) implies visited@[k2] || pending(queue@, 0, k2) by {
            if k == s && !visited@[k2] {
                assert(listed(first@, k2));
                let j = choose|j: int| 0 <= j < first@.len() && first@[j].0 as int == k2;
                assert(queue@[j].0 == first@[j].0);
            }
        }
    }
    let ghost mut vd: Seq<int> = Seq::new(n as nat, |i: int| 0int);
    proof {
        assert forall|k: int, k2: int|
            0 <= k < visited@.len() && 0 <= k2 < visited@.len() && visited@[k] && below(vd[k], max_depth) && #[trigger] walk_step(
                t,
                graph_nodes(t)[k].id@,
                graph_nodes(t)[k2].id@,
                dir,
            ) implies (visited@[k2] && vd[k2] <= vd[k] + 1) || pending_within(queue@, 0, k2, vd[k] + 1) by {
            assert(k == s);
            if !visited@[k2] {
                assert(listed(first@, k2));
                let j = choose|j: int| 0 <= j < first@.len() && first@[j].0 as int == k2;
                assert(queue@[j].0 == first@[j].0);
                assert(queue@[j].2 == 1);
            }
        }
    }
    let mut results: Vec<NodeSummary> = Vec::new();
    let ghost mut ridx: Seq<int> = Seq::empty();
    let ghost mut ds: Seq<nat> = Seq::empty();
    let ghost mut cur: nat = 0;
    let mut head: usize = 0;
    loop
        invariant
            n == scan.nodes.len(),
            n == graph_nodes(t).len(),
            scan_of(*scan, t),
            gp == graph_places(t),
            all == (max_depth is None),
            s < n,
            graph_nodes(t)[s as int].id@ == id@,
            visited.len() == n,
            visited@[s as int],
            count_unmarked(visited@) < n,
            head <= queue@.len(),
            node_error(t, id@) is None,
            forall|i: int, j: int| 0 <= i < j < n ==> (#[trigger] graph_nodes(t)[i]).id@ != (#[trigger] graph_nodes(t)[j]).id@,
            forall|x: int| 0 <= x < queue@.len() ==> (#[trigger] queue@[x]).0 < n && 1 <= queue@[x].2
                && queue@[x].2 <= n - count_unmarked(visited@)
                && related(gp, id@, graph_nodes(t)[queue@[x].0 as int].id@, dir)
                && queue@[x].1.id@ == graph_nodes(t)[queue@[x].0 as int].id@
                && within(queue@[x].2 as nat, max_depth)
                && steps_from(gp, id@, graph_nodes(t)[queue@[x].0 as int].id@, queue@[x].2 as nat, dir),
            ridx.len() == results@.len(),
            forall|a: int| 0 <= a < ridx.len() ==> 0 <= #[trigger] ridx[a] < n && ridx[a] != s && visited@[ridx[a]]
                && results@[a].id@ == graph_nodes(t)[ridx[a]].id@
                && related(gp, id@, graph_nodes(t)[ridx[a]].id@, dir)
                && near(gp, id@, graph_nodes(t)[ridx[a]].id@, max_depth, dir),
            forall|a: int, b: int| 0 <= a < b < ridx.len() ==> ridx[a] != ridx[b],
            forall|k: int| 0 <= k < n && visited@[k] && k != s ==> exists|a: int| 0 <= a < ridx.len() && ridx[a] == k,
            expanded_closed(t, visited@, queue@, head as int, s as int, all, dir),
            max_depth != Some(0usize),
            forall|x: int| head <= x < queue@.len() ==> cur <= (#[trigger] queue@[x]).2 <= cur + 1,
            forall|x: int, y: int| head <= x < y < queue@.len() ==> (#[trigger] queue@[x]).2 <= (#[trigger] queue@[y]).2,
            level_ordered(gp, id@, results@, ds, dir),
            forall|i: int| 0 <= i < ds.len() ==> #[trigger] ds[i] <= cur,
            vd.len() == n,
            vd[s as int] == 0,
            forall|k: int| 0 <= k < n && #[trigger] visited@[k] ==> 0 <= vd[k] <= cur,
            depth_closed(t, visited@, vd, queue@, head as int, max_depth, dir),
        ensures
            vd.len() == n,
            vd[s as int] == 0,
            depth_closed(t, visited@, vd, queue@, head as int, max_depth, dir),
            node_error(t, id@) is None,
            gp == graph_places(t),
            all == (max_depth is None),
            n == graph_nodes(t).len(),
            s < n,
            graph_nodes(t)[s as int].id@ == id@,
            visited.len() == n,
            visited@[s as int],
            max_depth != Some(0usize),
            forall|i: int, j: int| 0 <= i < j < n ==> (#[trigger] graph_nodes(t)[i]).id@ != (#[trigger] graph_nodes(t)[j]).id@,
            ridx.len() == results@.len(),
            forall|a: int| 0 <= a < ridx.len() ==> 0 <= #[trigger] ridx[a] < n && ridx[a] != s
                && results@[a].id@ == graph_nodes(t)[ridx[a]].id@
                && related(gp, id@, graph_nodes(t)[ridx[a]].id@, dir)
                && near(gp, id@, graph_nodes(t)[ridx[a]].id@, max_depth, dir),
            forall|a: int, b: int| 0 <= a < b < ridx.len() ==> ridx[a] != ridx[b],
            forall|k: int| 0 <= k < n && visited@[k] && k != s ==> exists|a: int| 0 <= a < ridx.len() && ridx[a] == k,
            head >= queue@.len(),
            expanded_closed(t, visited@, queue@, head as int, s as int, all, dir),
            level_ordered(gp, id@, results@, ds, dir),
        decreases count_unmarked(visited@), queue@.len() - head,
    {
        if head >= queue.len() {
            break;
        }
        let k = queue[head].0;
        let depth = queue[head].2;
        let hd = head;
        head += 1;
        proof {
            let old_cur = cur;
            assert(old_cur <= queue@[hd as int].2);
            cur = depth as nat;
            assert forall|x: int| head <= x < queue@.len() implies cur <= (#[trigger] queue@[x]).2 <= cur + 1 by {
                assert(queue@[hd as int].2 <= queue@[x].2);
            }
            assert forall|i: int| 0 <= i < ds.len() implies #[trigger] ds[i] <= cur by {
                assert(ds[i] <= old_cur);
            }
        }
        proof {
            // the closure keeps: what waited at the old head is now visited or
            // was visited already
            assert forall|kk: int, k2: int|
                0 <= kk < visited@.len() && 0 <= k2 < visited@.len() && visited@[kk] && (kk == s || all)
                    && #[trigger] walk_step(t, graph_nodes(t)[kk].id@, graph_nodes(t)[k2].id@, dir)
                    && !visited@[k2] && k2 != k implies pending(queue@, head as int, k2) by {
                assert(pending(queue@, hd as int, k2));
                let y = choose|y: int| hd <= y < queue@.len() && queue@[y].0 as int == k2;
                assert(y != hd);
            }
        }
        proof {
            assert forall|kk: int, k2: int|
                0 <= kk < visited@.len() && 0 <= k2 < visited@.len() && visited@[kk] && below(vd[kk], max_depth)
                    && #[trigger] walk_step(t, graph_nodes(t)[kk].id@, graph_nodes(t)[k2].id@, dir)
                    implies (visited@[k2] && vd[k2] <= vd[kk] + 1) || pending_within(queue@, head as int, k2, vd[kk] + 1)
                    || (k2 == k && depth <= vd[kk] + 1) by {
                if !(visited@[k2] && vd[k2] <= vd[kk] + 1) {
                    assert(pending_within(queue@, hd as int, k2, vd[kk] + 1));
                    let y = choose|y: int| hd <= y < queue@.len() && queue@[y].0 as int == k2 && queue@[y].2 <= vd[kk] + 1;
                    if y == hd {
                        assert(k2 == k);
                    } else {
                        assert(head <= y);
                    }
                }
            }
        }
        if visited[k] {
            proof {
                assert(0 <= vd[k as int] <= cur);
            }
            continue;
        }
        let ghost vis_before = visited@;
        let ghost vd_before = vd;
        proof {
            lemma_count_mark(visited@, k as int);
            assert forall|a: int| 0 <= a < ridx.len() implies ridx[a] != k by {
                assert(visited@[ridx[a]]);
            }
        }
        visited.set(k, true);
        results.push(copy_summary(&queue[hd].1));
        let ghost ridx_old = ridx;
        proof {
            vd = vd.update(k as int, depth as int);
            assert forall|kk: int, k2: int|
                0 <= kk < visited@.len() && 0 <= k2 < visited@.len() && kk != k && visited@[kk] && below(vd[kk], max_depth)
                    && #[trigger] walk_step(t, graph_nodes(t)[kk].id@, graph_nodes(t)[k2].id@, dir)
                    implies (visited@[k2] && vd[k2] <= vd[kk] + 1) || pending_within(queue@, head as int, k2, vd[kk] + 1) by {
                assert(vis_before[kk]);
                assert(vd_before[kk] == vd[kk]);
                assert((vis_before[k2] && vd_before[k2] <= vd_before[kk] + 1) || pending_within(queue@, head as int, k2, vd_before[kk] + 1)
                    || (k2 == k && depth <= vd_before[kk] + 1));
                if k2 != k && vis_before[k2] {
                    assert(vd[k2] == vd_before[k2]);
                }
            }
            assert(depth_closed_but(t, visited@, vd, queue@, head as int, max_depth, dir, k as int));
            assert forall|kk: int| 0 <= kk < n && #[trigger] visited@[kk] implies 0 <= vd[kk] <= cur by {
                if kk != k {
                    assert(vis_before[kk]);
                }
            }
        }
        proof {
            assert(steps_from(gp, id@, graph_nodes(t)[k as int].id@, depth as nat, dir));
            assert(near(gp, id@, graph_nodes(t)[k as int].id@, max_depth, dir));
            ridx = ridx.push(k as int);
            let ds_old = ds;
            ds = ds.push(depth as nat);
            assert forall|i: int| 0 <= i < results@.len() implies steps_from(gp, id@, (#[trigger] results@[i]).id@, ds[i], dir) by {
                if i < ds_old.len() {
                    assert(ds[i] == ds_old[i]);
                }
            }
            assert forall|kk: int| 0 <= kk < n && visited@[kk] && kk != s implies exists|a: int| 0 <= a < ridx.len() && ridx[a] == kk by {
                if kk == k {
                    assert(ridx[ridx.len() - 1] == kk);
                } else {
                    assert(vis_before[kk]);
                    let a = choose|a: int| 0 <= a < ridx_old.len() && ridx_old[a] == kk;
                    assert(ridx[a] == ridx_old[a]);
                }
            }
        }
        if let Some(m) = max_depth {
            if depth >= m {
                proof {
                    assert(k != s);
                    assert forall|kk: int, k2: int|
                        0 <= kk < visited@.len() && 0 <= k2 < visited@.len() && visited@[kk] && (kk == s || all)
                            && #[trigger] walk_step(t, graph_nodes(t)[kk].id@, graph_nodes(t)[k2].id@, dir)
                            implies visited@[k2] || pending(queue@, head as int, k2) by {
                        assert(kk != k);
                        assert(vis_before[kk]);
                        if !visited@[k2] {
                            assert(!vis_before[k2]);
                        }
                    }
                    assert(!below(vd[k as int], max_depth));
                    assert(depth_closed(t, visited@, vd, queue@, head as int, max_depth, dir));
                }
                continue;
            }
        }
        proof {
            crate::scan::lemma_scan_nodes(*scan, t);
            assert(crate::scan::node_assembled(scan.nodes@[k as int], graph_nodes(t)[k as int], gp));
        }
        let nb = sorted_neighbors(scan, &scan.nodes[k].fields.id, dir, Ghost(t))?;
        let ghost queue_before = queue@;
        let mut x: usize = 0;
        while x < nb.len()
            invariant
                x <= nb.len(),
                n == scan.nodes.len(),
                n == graph_nodes(t).len(),
                visited.len() == n,
                k < n,
                visited@[k as int],
                1 <= depth,
                depth + 1 <= n - count_unmarked(visited@),
                related(gp, id@, graph_nodes(t)[k as int].id@, dir),
                gp == graph_places(t),
                forall|y: int| 0 <= y < nb@.len() ==> good_neighbor(t, graph_nodes(t)[k as int].id@, #[trigger] nb@[y].0 as int, nb@[y].1, dir),
                forall|y: int| 0 <= y < queue@.len() ==> (#[trigger] queue@[y]).0 < n && 1 <= queue@[y].2
                    && queue@[y].2 <= n - count_unmarked(visited@)
                    && related(gp, id@, graph_nodes(t)[queue@[y].0 as int].id@, dir)
                    && queue@[y].1.id@ == graph_nodes(t)[queue@[y].0 as int].id@
                    && within(queue@[y].2 as nat, max_depth)
                    && steps_from(gp, id@, graph_nodes(t)[queue@[y].0 as int].id@, queue@[y].2 as nat, dir),
                steps_from(gp, id@, graph_nodes(t)[k as int].id@, depth as nat, dir),
                within(depth as nat + 1, max_depth),
                head <= queue@.len(),
                queue@.len() >= queue_before.len(),
                forall|y: int| 0 <= y < queue_before.len() ==> (#[trigger] queue@[y]) == queue_before[y],
                forall|y: int| 0 <= y < x ==> visited@[#[trigger] nb@[y].0 as int] || pending(queue@, head as int, nb@[y].0 as int),
                cur == depth as nat,
                forall|y: int| head <= y < queue@.len() ==> cur <= (#[trigger] queue@[y]).2 <= cur + 1,
                forall|y: int, z: int| head <= y < z < queue@.len() ==> (#[trigger] queue@[y]).2 <= (#[trigger] queue@[z]).2,
                vd.len() == n,
                vd[k as int] == depth,
                forall|kk: int| 0 <= kk < n && #[trigger] visited@[kk] ==> 0 <= vd[kk] <= cur,
                depth_closed_but(t, visited@, vd, queue@, head as int, max_depth, dir, k as int),
                forall|y: int|
                    0 <= y < x ==> (visited@[#[trigger] nb@[y].0 as int] && vd[nb@[y].0 as int] <= depth + 1) || pending_within(
                        queue@,
                        head as int,
                        nb@[y].0 as int,
                        depth + 1,
                    ),
            decreases nb.len() - x,
        {
            let k2 = nb[x].0;
            let ghost q_old = queue@;
            proof {
                assert(good_neighbor(t, graph_nodes(t)[k as int].id@, nb@[x as int].0 as int, nb@[x as int].1, dir));
                lemma_step_related(gp, id@, graph_nodes(t)[k as int].id@, graph_nodes(t)[k2 as int].id@, dir);
                assert(steps_from(gp, id@, graph_nodes(t)[k2 as int].id@, (depth + 1) as nat, dir));
            }
            if !visited[k2] {
                queue.push((k2, copy_summary(&nb[x].1), depth + 1));
                proof {
                    assert forall|kk: int, k3: int|
                        0 <= kk < visited@.len() && 0 <= k3 < visited@.len() && kk != k && visited@[kk] && below(vd[kk], max_depth)
                            && #[trigger] walk_step(t, graph_nodes(t)[kk].id@, graph_nodes(t)[k3].id@, dir)
                            implies (visited@[k3] && vd[k3] <= vd[kk] + 1) || pending_within(queue@, head as int, k3, vd[kk] + 1) by {
                        if !(visited@[k3] && vd[k3] <= vd[kk] + 1) {
                            assert(pending_within(q_old, head as int, k3, vd[kk] + 1));
                            let z = choose|z: int| head <= z < q_old.len() && q_old[z].0 as int == k3 && q_old[z].2 <= vd[kk] + 1;
                            assert(queue@[z] == q_old[z]);
                        }
                    }
                    assert forall|y: int|
                        0 <= y < x implies (visited@[#[trigger] nb@[y].0 as int] && vd[nb@[y].0 as int] <= depth + 1) || pending_within(
                            queue@,
                            head as int,
                            nb@[y].0 as int,
                            depth + 1,
                        ) by {
                        if !(visited@[nb@[y].0 as int] && vd[nb@[y].0 as int] <= depth + 1) {
                            let z = choose|z: int| head <= z < q_old.len() && q_old[z].0 as int == nb@[y].0 as int && q_old[z].2 <= depth + 1;
                            assert(queue@[z] == q_old[z]);
                        }
                    }
                    assert(queue@[q_old.len() as int].2 == depth + 1);
                    assert(queue@[q_old.len() as int].0 == k2);
                    assert forall|y: int| head <= y < queue@.len() implies cur <= (#[trigger] queue@[y]).2 <= cur + 1 by {
                        if y < q_old.len() {
                            assert(queue@[y] == q_old[y]);
                        }
                    }
                    assert forall|y: int, z: int| head <= y < z < queue@.len() implies (#[trigger] queue@[y]).2 <= (#[trigger] queue@[z]).2 by {
                        assert(queue@[y] == q_old[y]);
                        if z < q_old.len() {
                            assert(queue@[z] == q_old[z]);
                        }
                    }
                }
            }
            proof {
                assert forall|y: int| 0 <= y < x + 1 implies visited@[#[trigger] nb@[y].0 as int] || pending(queue@, head as int, nb@[y].0 as int) by {
                    if y < x && !visited@[nb@[y].0 as int] {
                        let z = choose|z: int| head <= z < q_old.len() && q_old[z].0 as int == nb@[y].0 as int;
                        assert(queue@[z] == q_old[z]);
                    }
                }
            }
            x += 1;
        }
        proof {
            assert forall|kk: int, k2: int|
                0 <= kk < visited@.len() && 0 <= k2 < visited@.len() && visited@[kk] && (kk == s || all)
                    && #[trigger] walk_step(t, graph_nodes(t)[kk].id@, graph_nodes(t)[k2].id@, dir)
                    implies visited@[k2] || pending(queue@, head as int, k2) by {
                if kk == k {
                    assert(listed(nb@, k2));
                    let y = choose|y: int| 0 <= y < nb@.len() && nb@[y].0 as int == k2;
                    assert(visited@[nb@[y].0 as int] || pending(queue@, head as int, nb@[y].0 as int));
                } else {
                    assert(vis_before[kk]);
                    if !visited@[k2] {
                        assert(!vis_before[k2]);
                        assert(k2 != k);
                        assert(pending(queue_before, head as int, k2));
                        let z = choose|z: int| head <= z < queue_before.len() && queue_before[z].0 as int == k2;
                        assert(queue@[z] == queue_before[z]);
                    }
                }
            }
        }
    }
    proof {
        assert forall|a: int, b: int| 0 <= a < b < results@.len() implies (#[trigger] results@[a]).id@ != (#[trigger] results@[b]).id@ by {
            if ridx[a] < ridx[b] {
                assert(graph_nodes(t)[ridx[a]].id@ != graph_nodes(t)[ridx[b]].id@);
            } else {
                assert(graph_nodes(t)[ridx[b]].id@ != graph_nodes(t)[ridx[a]].id@);
            }
        }
        assert forall|a: int| 0 <= a < results@.len() implies (#[trigger] results@[a]).id@ != id@ by {
            if ridx[a] < s {
                assert(graph_nodes(t)[ridx[a]].id@ != graph_nodes(t)[s as int].id@);
            } else {
                assert(graph_nodes(t)[s as int].id@ != graph_nodes(t)[ridx[a]].id@);
            }
        }
        // a visited node other than the start is listed
        assert forall|k2: int| 0 <= k2 < n && visited@[k2] && k2 != s implies in_summaries(results@, graph_nodes(t)[k2].id@) by {
            let a = choose|a: int| 0 <= a < ridx.len() && ridx[a] == k2;
            assert(results@[a].id@ == graph_nodes(t)[k2].id@);
        }
        assert forall|x: Seq<char>| #[trigger] walk_step(t, id@, x, dir) && x != id@ implies in_summaries(results@, x) by {
            let k2 = node_index_of(t, x);
            assert(0 <= k2 < n && graph_nodes(t)[k2].id@ == x);
            assert(walk_step(t, graph_nodes(t)[s as int].id@, graph_nodes(t)[k2].id@, dir));
            assert(!pending(queue@, head as int, k2));
            assert(visited@[k2]);
        }
        if all {
            assert forall|k: int, k2: int|
                0 <= k < visited@.len() && 0 <= k2 < visited@.len() && visited@[k] && #[trigger] walk_step(
                    t,
                    graph_nodes(t)[k].id@,
                    graph_nodes(t)[k2].id@,
                    dir,
                ) implies visited@[k2] by {
                assert(!pending(queue@, head as int, k2));
            }
            assert forall|x: Seq<char>| #[trigger] walk_reaches(t, id@, x, dir) && x != id@ implies in_summaries(results@, x) by {
                let w = choose|w: Seq<Seq<char>>| #[trigger] is_listed_walk(t, w, dir) && w[0] == id@ && w.last() == x;
                lemma_walk_visited(t, visited@, s as int, w, dir, w.len() - 1);
                let k2 = choose|k2: int| 0 <= k2 < visited@.len() && visited@[k2] && graph_nodes(t)[k2].id@ == w[w.len() - 1];
                if k2 == s {
                    assert(x == id@);
                }
            }
        }
    }
    assert forall|a: int| 0 <= a < results@.len() implies related(graph_places(t), id@, (#[trigger] results@[a]).id@, dir)
        && near(graph_places(t), id@, results@[a].id@, max_depth, dir) by {
        assert(0 <= ridx[a] < n);
    }
    proof {
        // every node within the limit is reached
        assert forall|k: int, k2: int|
            0 <= k < visited@.len() && 0 <= k2 < visited@.len() && visited@[k] && below(vd[k], max_depth) && #[trigger] walk_step(
                t,
                graph_nodes(t)[k].id@,
                graph_nodes(t)[k2].id@,
                dir,
            ) implies visited@[k2] && vd[k2] <= vd[k] + 1 by {
            assert(!pending_within(queue@, head as int, k2, vd[k] + 1));
        }
        assert forall|w: Seq<Seq<char>>|
            #[trigger] is_listed_walk(t, w, dir) && w[0] == id@ && w.last() != id@ && within((w.len() - 1) as nat, max_depth)
            implies in_summaries(results@, w.last()) by {
            lemma_walk_depth(t, visited@, vd, s as int, w, max_depth, dir, w.len() - 1);
            let k2 = choose|k2: int|
                0 <= k2 < visited@.len() && visited@[k2] && vd[k2] <= w.len() - 1 && graph_nodes(t)[k2].id@ == w[w.len() - 1];
            assert(k2 != s);
            let a = choose|a: int| 0 <= a < ridx.len() && ridx[a] == k2;
            assert(results@[a].id@ == graph_nodes(t)[k2].id@);
        }
    }
    Ok(results)
}

// ---------------------------------------------------------------------------
// the index of a graph
// ---------------------------------------------------------------------------

/// Id, title, file name, path.
pub type ContextSummaryView = (Seq<char>, Seq<char>, Seq<char>, Seq<char>);

pub open spec fn context_summary_view(c: ContextSummary) -> ContextSummaryView {
    (c.id@, c.title@, c.filename@, c.path@)
}

pub open spec fn context_summary_views(v: Seq<ContextSummary>) -> Seq<ContextSummaryView> {
    v.map_values(|c: ContextSummary| context_summary_view(c))
}

pub open spec fn context_row_summary(r: crate::store::ContextRow) -> ContextSummaryView {
    (r.id@, r.title@, r.filename@, crate::paths::context_path(r.filename@))
}

/// Context summaries are ordered by title, id, then path.
pub open spec fn context_summary_key(c: ContextSummaryView) -> KeyView {
    (c.1, c.0, crate::paths::path_order_key(c.3), 0)
}

pub open spec fn context_summaries_sorted(v: Seq<ContextSummaryView>) -> Seq<ContextSummaryView> {
    permuted(v, sorted_by(v.map_values(|c: ContextSummaryView| context_summary_key(c))))
}

/// Parent id, child id, path, whether it is an alias entry.
pub type EdgeView = (Seq<char>, Seq<char>, Seq<char>, bool);

pub open spec fn edge_view(e: GraphEdge) -> EdgeView {
    (e.parent_id@, e.child_id@, e.path@, e.is_symlink)
}

pub open spec fn edge_views(v: Seq<GraphEdge>) -> Seq<EdgeView> {
    v.map_values(|e: GraphEdge| edge_view(e))
}

/// Edges are ordered by parent id, child id, then path.
pub open spec fn edge_key(e: EdgeView) -> KeyView {
    (e.0, e.1, crate::paths::path_order_key(e.2), 0)
}

pub open spec fn edges_sorted(v: Seq<EdgeView>) -> Seq<EdgeView> {
    permuted(v, sorted_by(v.map_values(|e: EdgeView| edge_key(e))))
}

/// The edges among the first `n` placements: those with a parent.
pub open spec fn edges_of(gp: Seq<PlacementView>, n: int) -> Seq<EdgeView>
    decreases n,
{
    if n <= 0 || n > gp.len() {
        Seq::empty()
    } else {
        let prev = edges_of(gp, n - 1);
        let p = gp[n - 1];
        match p.2 {
            Some(pid) => prev.push((pid, p.1, p.3, !p.4)),
            None => prev,
        }
    }
}

/// Summaries of the first `n` nodes that have a canonical path.
pub open spec fn node_summaries(t: Tables, n: int) -> Seq<SummaryView>
    decreases n,
{
    if n <= 0 || n > graph_nodes(t).len() {
        Seq::empty()
    } else {
        let prev = node_summaries(t, n - 1);
        let id = graph_nodes(t)[n - 1].id@;
        if canon(t, id).len() > 0 {
            prev.push(summary_of(t, id, false))
        } else {
            prev
        }
    }
}

fn sort_context_summaries(v: &Vec<ContextSummary>) -> (r: Vec<ContextSummary>)
    ensures
        context_summary_views(r@) == context_summaries_sorted(context_summary_views(v@)),
{
    let ghost sv = context_summary_views(v@);
    let mut keys: Vec<SortKey> = Vec::new();
    let mut i: usize = 0;
    while i < v.len()
        invariant
            i <= v.len(),
            sv == context_summary_views(v@),
            key_views(keys@) == sv.take(i as int).map_values(|c: ContextSummaryView| context_summary_key(c)),
        decreases v.len() - i,
    {
        let k = SortKey {
            a: chars_of(v[i].title.as_str()),
            b: chars_of(v[i].id.as_str()),
            c: crate::paths::path_order_chars(v[i].path.as_str()),
            n: 0,
        };
        proof {
            assert(k.view() == context_summary_key(sv[i as int]));
            lemma_key_views_push(keys@, k);
            assert(sv.take(i + 1).map_values(|c: ContextSummaryView| context_summary_key(c)) =~= sv.take(
                i as int,
            ).map_values(|c: ContextSummaryView| context_summary_key(c)).push(context_summary_key(sv[i as int])));
        }
        keys.push(k);
        i += 1;
    }
    assert(sv.take(v.len() as int) =~= sv);
    let p = sort_order(&keys);
    proof {
        lemma_sorted_unique(sv.map_values(|c: ContextSummaryView| context_summary_key(c)), p@);
    }
    let mut out: Vec<ContextSummary> = Vec::new();
    let mut j: usize = 0;
    while j < p.len()
        invariant
            j <= p.len(),
            p.len() == v.len(),
            sv == context_summary_views(v@),
            forall|k: int| 0 <= k < p.len() ==> (#[trigger] p@[k] as int) < v.len(),
            context_summary_views(out@) == permuted(sv, p@).take(j as int),
        decreases p.len() - j,
    {
        let src = &v[p[j]];
        let c = ContextSummary {
            id: src.id.clone(),
            title: src.title.clone(),
            filename: src.filename.clone(),
            path: src.path.clone(),
        };
        let ghost old_out = out@;
        out.push(c);
        proof {
            assert(context_summary_views(out@) =~= context_summary_views(old_out).push(context_summary_view(c)));
            assert(permuted(sv, p@).take(j + 1) =~= permuted(sv, p@).take(j as int).push(sv[p@[j as int] as int]));
        }
        j += 1;
    }
    assert(permuted(sv, p@).take(p.len() as int) =~= permuted(sv, p@));
    out
}

fn sort_edges(v: &Vec<GraphEdge>) -> (r: Vec<GraphEdge>)
    ensures
        edge_views(r@) == edges_sorted(edge_views(v@)),
{
    let ghost sv = edge_views(v@);
    let mut keys: Vec<SortKey> = Vec::new();
    let mut i: usize = 0;
    while i < v.len()
        invariant
            i <= v.len(),
            sv == edge_views(v@),
            key_views(keys@) == sv.take(i as int).map_values(|e: EdgeView| edge_key(e)),
        decreases v.len() - i,
    {
        let k = SortKey {
            a: chars_of(v[i].parent_id.as_str()),
            b: chars_of(v[i].child_id.as_str()),
            c: crate::paths::path_order_chars(v[i].path.as_str()),
            n: 0,
        };
        proof {
            assert(k.view() == edge_key(sv[i as int]));
            lemma_key_views_push(keys@, k);
            assert(sv.take(i + 1).map_values(|e: EdgeView| edge_key(e)) =~= sv.take(i as int).map_values(
                |e: EdgeView| edge_key(e),
            ).push(edge_key(sv[i as int])));
        }
        keys.push(k);
        i += 1;
    }
    assert(sv.take(v.len() as int) =~= sv);
    let p = sort_order(&keys);
    proof {
        lemma_sorted_unique(sv.map_values(|e: EdgeView| edge_key(e)), p@);
    }
    let mut out: Vec<GraphEdge> = Vec::new();
    let mut j: usize = 0;
    while j < p.len()
        invariant
            j <= p.len(),
            p.len() == v.len(),
            sv == edge_views(v@),
            forall|k: int| 0 <= k < p.len() ==> (#[trigger] p@[k] as int) < v.len(),
            edge_views(out@) == permuted(sv, p@).take(j as int),
        decreases p.len() - j,
    {
        let src = &v[p[j]];
        let c = GraphEdge {
            parent_id: src.parent_id.clone(),
            child_id: src.child_id.clone(),
            path: src.path.clone(),
            is_symlink: src.is_symlink,
        };
        let ghost old_out = out@;
        out.push(c);
        proof {
            assert(edge_views(out@) =~= edge_views(old_out).push(edge_view(c)));
            assert(permuted(sv, p@).take(j + 1) =~= permuted(sv, p@).take(j as int).push(sv[p@[j as int] as int]));
        }
        j += 1;
    }
    assert(permuted(sv, p@).take(p.len() as int) =~= permuted(sv, p@));
    out
}

/// The index of the graph: its context documents, its nodes, its edges
/// (each sorted) and its problems.
#[verifier::rlimit(50)]
pub fn graph_index(scan: &Scan, Ghost(t): Ghost<Tables>) -> (r: GraphIndex)
    requires
        scan_of(*scan, t),
    ensures
        context_summary_views(r.contexts@) == context_summaries_sorted(
            crate::scan::graph_contexts(t).map_values(|c: crate::store::ContextRow| context_row_summary(c)),
        ),
        summary_views(r.nodes@) == summaries_sorted(node_summaries(t, graph_nodes(t).len() as int)),
        edge_views(r.edges@) == edges_sorted(edges_of(graph_places(t), graph_places(t).len() as int)),
        crate::scan::problems_view(r.problems@) == crate::scan::problems_view(scan.problems@),
{
    proof {
        crate::scan::lemma_scan_nodes(*scan, t);
        crate::scan::lemma_scan_contexts(*scan, t);
    }
    let ghost gc = crate::scan::graph_contexts(t).map_values(|c: crate::store::ContextRow| context_row_summary(c));
    let mut contexts: Vec<ContextSummary> = Vec::new();
    let mut i: usize = 0;
    while i < scan.contexts.len()
        invariant
            i <= scan.contexts.len(),
            crate::scan::all_contexts_match(scan.contexts@, crate::scan::graph_contexts(t)),
            gc == crate::scan::graph_contexts(t).map_values(|c: crate::store::ContextRow| context_row_summary(c)),
            context_summary_views(contexts@) == gc.take(i as int),
        decreases scan.contexts.len() - i,
    {
        let c = &scan.contexts[i];
        assert(crate::store::context_matches_row(scan.contexts@[i as int], crate::scan::graph_contexts(t)[i as int]));
        let cs = ContextSummary {
            id: c.id.clone(),
            title: c.title.clone(),
            filename: c.filename.clone(),
            path: c.path.clone(),
        };
        let ghost old = contexts@;
        contexts.push(cs);
        proof {
            assert(context_summary_views(contexts@) =~= context_summary_views(old).push(context_summary_view(cs)));
            assert(gc.take(i + 1) =~= gc.take(i as int).push(gc[i as int]));
        }
        i += 1;
    }
    assert(gc.take(scan.contexts.len() as int) =~= gc);
    let mut nodes: Vec<NodeSummary> = Vec::new();
    let mut k: usize = 0;
    while k < scan.nodes.len()
        invariant
            k <= scan.nodes.len(),
            scan_of(*scan, t),
            crate::scan::all_assembled(scan.nodes@, graph_nodes(t), graph_places(t)),
            summary_views(nodes@) == node_summaries(t, k as int),
        decreases scan.nodes.len() - k,
    {
        let ghost old = nodes@;
        match node_summary(scan, k, false, Ghost(t)) {
            Some(sm) => {
                nodes.push(sm);
                proof {
                    assert(summary_views(nodes@) =~= summary_views(old).push(summary_view(sm)));
                }
            },
            None => {},
        }
        k += 1;
    }
    let ghost gp = graph_places(t);
    let mut edges: Vec<GraphEdge> = Vec::new();
    let mut j: usize = 0;
    while j < scan.placements.len()
        invariant
            j <= scan.placements.len(),
            gp == graph_places(t),
            placement_views(scan.placements@) == gp,
            edge_views(edges@) == edges_of(gp, j as int),
        decreases scan.placements.len() - j,
    {
        let p = &scan.placements[j];
        assert(gp[j as int] == p.view());
        match &p.parent_id {
            Some(pid) => {
                let e = GraphEdge {
                    parent_id: pid.clone(),
                    child_id: p.node_id.clone(),
                    path: p.logical_path.clone(),
                    is_symlink: !p.is_canonical,
                };
                let ghost old = edges@;
                edges.push(e);
                proof {
                    assert(edge_views(edges@) =~= edge_views(old).push(edge_view(e)));
                }
            },
            None => {},
        }
        j += 1;
    }
    let mut problems: Vec<GraphProblem> = Vec::new();
    let mut m: usize = 0;
    while m < scan.problems.len()
        invariant
            m <= scan.problems.len(),
            crate::scan::problems_view(problems@) == crate::scan::problems_view(scan.problems@).take(m as int),
        decreases scan.problems.len() - m,
    {
        let c = copy_problem(&scan.problems[m]);
        let ghost old = problems@;
        problems.push(c);
        proof {
            assert(crate::scan::problems_view(problems@) =~= crate::scan::problems_view(old).push(problem_view(c)));
            assert(crate::scan::problems_view(scan.problems@).take(m + 1) =~= crate::scan::problems_view(
                scan.problems@,
            ).take(m as int).push(problem_view(scan.problems@[m as int])));
        }
        m += 1;
    }
    assert(crate::scan::problems_view(scan.problems@).take(scan.problems.len() as int) =~= crate::scan::problems_view(
        scan.problems@,
    ));
    GraphIndex {
        contexts: sort_context_summaries(&contexts),
        nodes: sort_summaries(&nodes),
        edges: sort_edges(&edges),
        problems,
    }
}

} // verus!
