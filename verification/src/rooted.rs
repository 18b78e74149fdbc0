//! Paths of a filesystem graph as the files are found: each logical path
//! (`roots/...`, `context/...`) under the graph's root directory.
use vstd::prelude::*;

use crate::graph::{
    context_summary_view, context_summary_views, edge_view, edge_views, node_view, summary_view,
    summary_views, ContextSummaryView, EdgeView, NodeView, SummaryView,
};
use crate::model::{ContextDocument, ContextSummary, GraphEdge, GraphIndex, GraphProblem, Node, NodeSummary};
use crate::scan::{problem_view, problems_view, texts, ProblemView};
use crate::sqlite::{context_view, ContextView};
use crate::text::{push_str, string_from_str};

verus! {

/// Logical path `p` under the root directory `root`.
pub open spec fn rooted(root: Seq<char>, p: Seq<char>) -> Seq<char> {
    root + "/"@ + p
}

pub open spec fn rooted_all(root: Seq<char>, ps: Seq<Seq<char>>) -> Seq<Seq<char>> {
    ps.map_values(|p: Seq<char>| rooted(root, p))
}

pub open spec fn node_rooted(root: Seq<char>, v: NodeView) -> NodeView {
    (v.0, v.1, v.2, v.3, v.4, v.5, v.6, rooted(root, v.7), rooted_all(root, v.8), v.9)
}

pub open spec fn summary_rooted(root: Seq<char>, v: SummaryView) -> SummaryView {
    (v.0, v.1, v.2, rooted(root, v.3), v.4)
}

pub open spec fn summaries_rooted(root: Seq<char>, v: Seq<SummaryView>) -> Seq<SummaryView> {
    v.map_values(|s: SummaryView| summary_rooted(root, s))
}

pub open spec fn context_rooted(root: Seq<char>, v: ContextView) -> ContextView {
    (v.0, v.1, v.2, v.3, v.4, v.5, rooted(root, v.6))
}

pub open spec fn context_summary_rooted(root: Seq<char>, v: ContextSummaryView) -> ContextSummaryView {
    (v.0, v.1, v.2, rooted(root, v.3))
}

pub open spec fn context_summaries_rooted(root: Seq<char>, v: Seq<ContextSummaryView>) -> Seq<ContextSummaryView> {
    v.map_values(|s: ContextSummaryView| context_summary_rooted(root, s))
}

pub open spec fn edge_rooted(root: Seq<char>, v: EdgeView) -> EdgeView {
    (v.0, v.1, rooted(root, v.2), v.3)
}

/// A problem with its paths under the root (a cycle names no path).
pub open spec fn problem_rooted(root: Seq<char>, v: ProblemView) -> ProblemView {
    if v.0 == 1 || v.0 == 2 {
        (v.0, v.1, v.2, rooted_all(root, v.3))
    } else if v.0 == 7 {
        v
    } else {
        (v.0, rooted(root, v.1), v.2, v.3)
    }
}

/// `b` is index `a` with every path under `root`.
pub open spec fn index_rooted(root: Seq<char>, a: GraphIndex, b: GraphIndex) -> bool {
    &&& context_summary_views(b.contexts@) == context_summaries_rooted(root, context_summary_views(a.contexts@))
    &&& summary_views(b.nodes@) == summaries_rooted(root, summary_views(a.nodes@))
    &&& edge_views(b.edges@) == edge_views(a.edges@).map_values(|e: EdgeView| edge_rooted(root, e))
    &&& problems_view(b.problems@) == problems_view(a.problems@).map_values(|p: ProblemView| problem_rooted(root, p))
}

/// `b` is index `a` with the problems `tree` before its own, every path
/// under `root`.
pub open spec fn index_rooted_with(root: Seq<char>, tree: Seq<ProblemView>, a: GraphIndex, b: GraphIndex) -> bool {
    &&& context_summary_views(b.contexts@) == context_summaries_rooted(root, context_summary_views(a.contexts@))
    &&& summary_views(b.nodes@) == summaries_rooted(root, summary_views(a.nodes@))
    &&& edge_views(b.edges@) == edge_views(a.edges@).map_values(|e: EdgeView| edge_rooted(root, e))
    &&& problems_view(b.problems@) == (tree + problems_view(a.problems@)).map_values(
        |p: ProblemView| problem_rooted(root, p),
    )
}

/// Index `ix` with the problems `tree` put before its own.
pub fn root_index_with(root: &str, tree: &Vec<GraphProblem>, ix: GraphIndex) -> (r: GraphIndex)
    ensures
        index_rooted_with(root@, problems_view(tree@), ix, r),
{
    let mut problems: Vec<GraphProblem> = Vec::new();
    let mut i: usize = 0;
    while i < tree.len()
        invariant
            i <= tree.len(),
            problems_view(problems@) == problems_view(tree@).take(i as int),
        decreases tree.len() - i,
    {
        let c = crate::scan::copy_problem(&tree[i]);
        let ghost before = problems@;
        problems.push(c);
        proof {
            assert(problems_view(problems@) =~= problems_view(before).push(problem_view(c)));
            assert(problems_view(tree@).take(i + 1) =~= problems_view(tree@).take(i as int).push(problem_view(tree@[i as int])));
        }
        i += 1;
    }
    assert(problems_view(tree@).take(tree.len() as int) =~= problems_view(tree@));
    let mut own = ix.problems;
    let ghost a = problems_view(problems@);
    let ghost b = problems_view(own@);
    problems.append(&mut own);
    assert(problems_view(problems@) =~= a + b);
    let joined = GraphIndex { contexts: ix.contexts, nodes: ix.nodes, edges: ix.edges, problems };
    root_index(root, joined)
}

pub fn root_path(root: &str, p: &String) -> (r: String)
    ensures
        r@ == rooted(root@, p@),
{
    let mut s = string_from_str(root);
    push_str(&mut s, "/");
    push_str(&mut s, p.as_str());
    s
}

pub fn root_paths(root: &str, v: &Vec<String>) -> (r: Vec<String>)
    ensures
        texts(r) == rooted_all(root@, texts(*v)),
{
    let mut out: Vec<String> = Vec::new();
    let mut i: usize = 0;
    while i < v.len()
        invariant
            i <= v.len(),
            out@.len() == i,
            forall|k: int| 0 <= k < i ==> (#[trigger] out@[k])@ == rooted(root@, v@[k]@),
        decreases v.len() - i,
    {
        let p = root_path(root, &v[i]);
        let ghost before = out@;
        out.push(p);
        proof {
            assert forall|k: int| 0 <= k < i + 1 implies (#[trigger] out@[k])@ == rooted(root@, v@[k]@) by {
                if k < i {
                    assert(out@[k] == before[k]);
                }
            }
        }
        i += 1;
    }
    assert(texts(out) =~= rooted_all(root@, texts(*v)));
    out
}

pub fn root_node(root: &str, n: Node) -> (r: Node)
    ensures
        node_view(r) == node_rooted(root@, node_view(n)),
{
    let canonical_path = root_path(root, &n.canonical_path);
    let alias_paths = root_paths(root, &n.alias_paths);
    Node {
        id: n.id,
        kind: n.kind,
        title: n.title,
        reviewed: n.reviewed,
        content: n.content,
        created_at_unix: n.created_at_unix,
        updated_at_unix: n.updated_at_unix,
        canonical_path,
        alias_paths,
    }
}

pub fn root_summaries(root: &str, v: Vec<NodeSummary>) -> (r: Vec<NodeSummary>)
    ensures
        summary_views(r@) == summaries_rooted(root@, summary_views(v@)),
{
    let ghost target = summaries_rooted(root@, summary_views(v@));
    let mut out: Vec<NodeSummary> = Vec::new();
    let mut i: usize = 0;
    while i < v.len()
        invariant
            i <= v.len(),
            target == summaries_rooted(root@, summary_views(v@)),
            out@.len() == i,
            forall|k: int| 0 <= k < i ==> summary_view(#[trigger] out@[k]) == target[k],
        decreases v.len() - i,
    {
        let s = &v[i];
        let c = NodeSummary {
            id: s.id.clone(),
            kind: crate::graph::copy_kind(&s.kind),
            title: s.title.clone(),
            canonical_path: root_path(root, &s.canonical_path),
            is_alias: s.is_alias,
        };
        let ghost before = out@;
        out.push(c);
        proof {
            assert(summary_views(v@)[i as int] == summary_view(v@[i as int]));
            assert forall|k: int| 0 <= k < i + 1 implies summary_view(#[trigger] out@[k]) == target[k] by {
                if k < i {
                    assert(out@[k] == before[k]);
                }
            }
        }
        i += 1;
    }
    assert(summary_views(out@) =~= target);
    out
}

pub fn root_context(root: &str, c: ContextDocument) -> (r: ContextDocument)
    ensures
        context_view(r) == context_rooted(root@, context_view(c)),
{
    let path = root_path(root, &c.path);
    ContextDocument {
        id: c.id,
        title: c.title,
        filename: c.filename,
        markdown: c.markdown,
        created_at_unix: c.created_at_unix,
        updated_at_unix: c.updated_at_unix,
        path,
    }
}

pub fn root_context_summaries(root: &str, v: Vec<ContextSummary>) -> (r: Vec<ContextSummary>)
    ensures
        context_summary_views(r@) == context_summaries_rooted(root@, context_summary_views(v@)),
{
    let ghost target = context_summaries_rooted(root@, context_summary_views(v@));
    let mut out: Vec<ContextSummary> = Vec::new();
    let mut i: usize = 0;
    while i < v.len()
        invariant
            i <= v.len(),
            target == context_summaries_rooted(root@, context_summary_views(v@)),
            out@.len() == i,
            forall|k: int| 0 <= k < i ==> context_summary_view(#[trigger] out@[k]) == target[k],
        decreases v.len() - i,
    {
        let s = &v[i];
        let c = ContextSummary {
            id: s.id.clone(),
            title: s.title.clone(),
            filename: s.filename.clone(),
            path: root_path(root, &s.path),
        };
        let ghost before = out@;
        out.push(c);
        proof {
            assert(context_summary_views(v@)[i as int] == context_summary_view(v@[i as int]));
            assert forall|k: int| 0 <= k < i + 1 implies context_summary_view(#[trigger] out@[k]) == target[k] by {
                if k < i {
                    assert(out@[k] == before[k]);
                }
            }
        }
        i += 1;
    }
    assert(context_summary_views(out@) =~= target);
    out
}

fn root_problem(root: &str, p: &GraphProblem) -> (r: GraphProblem)
    ensures
        problem_view(r) == problem_rooted(root@, problem_view(*p)),
{
    match p {
        GraphProblem::BrokenSymlink { path } => GraphProblem::BrokenSymlink { path: root_path(root, path) },
        GraphProblem::DuplicateContextDocument { id, paths } => GraphProblem::DuplicateContextDocument {
            id: id.clone(),
            paths: root_paths(root, paths),
        },
        GraphProblem::DuplicateCanonicalNode { id, paths } => GraphProblem::DuplicateCanonicalNode {
            id: id.clone(),
            paths: root_paths(root, paths),
        },
        GraphProblem::InvalidContextMarkdown { path, reason } => GraphProblem::InvalidContextMarkdown {
            path: root_path(root, path),
            reason: reason.clone(),
        },
        GraphProblem::MissingNodeMarkdown { path } => GraphProblem::MissingNodeMarkdown { path: root_path(root, path) },
        GraphProblem::MissingChildrenDirectory { path } => GraphProblem::MissingChildrenDirectory {
            path: root_path(root, path),
        },
        GraphProblem::InvalidMarkdown { path, reason } => GraphProblem::InvalidMarkdown {
            path: root_path(root, path),
            reason: reason.clone(),
        },
        GraphProblem::CycleDetected { node_id } => GraphProblem::CycleDetected { node_id: node_id.clone() },
    }
}

pub fn root_index(root: &str, ix: GraphIndex) -> (r: GraphIndex)
    ensures
        index_rooted(root@, ix, r),
{
    let contexts = root_context_summaries(root, ix.contexts);
    let nodes = root_summaries(root, ix.nodes);
    let ghost ev = edge_views(ix.edges@);
    let mut edges: Vec<GraphEdge> = Vec::new();
    let mut i: usize = 0;
    while i < ix.edges.len()
        invariant
            i <= ix.edges.len(),
            ev == edge_views(ix.edges@),
            edges@.len() == i,
            forall|k: int| 0 <= k < i ==> edge_view(#[trigger] edges@[k]) == edge_rooted(root@, ev[k]),
        decreases ix.edges.len() - i,
    {
        let e = &ix.edges[i];
        let c = GraphEdge {
            parent_id: e.parent_id.clone(),
            child_id: e.child_id.clone(),
            path: root_path(root, &e.path),
            is_symlink: e.is_symlink,
        };
        let ghost before = edges@;
        edges.push(c);
        proof {
            assert(ev[i as int] == edge_view(ix.edges@[i as int]));
            assert forall|k: int| 0 <= k < i + 1 implies edge_view(#[trigger] edges@[k]) == edge_rooted(root@, ev[k]) by {
                if k < i {
                    assert(edges@[k] == before[k]);
                }
            }
        }
        i += 1;
    }
    assert(edge_views(edges@) =~= ev.map_values(|e: EdgeView| edge_rooted(root@, e)));
    let ghost pv = problems_view(ix.problems@);
    let mut problems: Vec<GraphProblem> = Vec::new();
    let mut j: usize = 0;
    while j < ix.problems.len()
        invariant
            j <= ix.problems.len(),
            pv == problems_view(ix.problems@),
            problems@.len() == j,
            forall|k: int| 0 <= k < j ==> problem_view(#[trigger] problems@[k]) == problem_rooted(root@, pv[k]),
        decreases ix.problems.len() - j,
    {
        let c = root_problem(root, &ix.problems[j]);
        let ghost before = problems@;
        problems.push(c);
        proof {
            assert(pv[j as int] == problem_view(ix.problems@[j as int]));
            assert forall|k: int| 0 <= k < j + 1 implies problem_view(#[trigger] problems@[k]) == problem_rooted(root@, pv[k]) by {
                if k < j {
                    assert(problems@[k] == before[k]);
                }
            }
        }
        j += 1;
    }
    assert(problems_view(problems@) =~= pv.map_values(|p: ProblemView| problem_rooted(root@, p)));
    GraphIndex { contexts, nodes, edges, problems }
}

} // verus!
