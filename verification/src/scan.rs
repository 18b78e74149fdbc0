//! Reading a graph's rows: which nodes, placements and context documents
//! are usable, and the problems of the others, in the order the rows are
//! queried (nodes by id, placements by logical path, contexts by title).
use vstd::prelude::*;

use crate::order::{
    lemma_key_views_push, chars_less, chars_lt, key_views, lemma_lt_total, lemma_sorted_unique, permuted, sort_order,
    sorted_by, KeyView, SortKey,
};
use crate::store::{
    copy_opt, copy_placement, node_reason, opt_view, placement_of_row, placement_reason,
    row_ids, scanned_node_from_raw, scanned_placement_from_raw, ContextRow, NodeFields, NodeRow,
    PlacementRow, PlacementView, ScannedPlacement, Tables, fields_match_row, invalid_markdown,
};
use crate::model::{GraphProblem, NodeContent, NodeKind};
use crate::text::{chars_eq, chars_of, push_str, string_from_str, string_of};

verus! {

/// A problem as plain values: its variant, its first and second texts (id or
/// path, reason), and its list of paths.
pub type ProblemView = (nat, Seq<char>, Seq<char>, Seq<Seq<char>>);

pub open spec fn texts(v: Vec<String>) -> Seq<Seq<char>> {
    v@.map_values(|s: String| s@)
}

pub open spec fn problem_view(p: GraphProblem) -> ProblemView {
    match p {
        GraphProblem::BrokenSymlink { path } => (0, path@, Seq::empty(), Seq::empty()),
        GraphProblem::DuplicateContextDocument { id, paths } => (1, id@, Seq::empty(), texts(paths)),
        GraphProblem::DuplicateCanonicalNode { id, paths } => (2, id@, Seq::empty(), texts(paths)),
        GraphProblem::InvalidContextMarkdown { path, reason } => (3, path@, reason@, Seq::empty()),
        GraphProblem::MissingNodeMarkdown { path } => (4, path@, Seq::empty(), Seq::empty()),
        GraphProblem::MissingChildrenDirectory { path } => (5, path@, Seq::empty(), Seq::empty()),
        GraphProblem::InvalidMarkdown { path, reason } => (6, path@, reason@, Seq::empty()),
        GraphProblem::CycleDetected { node_id } => (7, node_id@, Seq::empty(), Seq::empty()),
    }
}

pub open spec fn markdown_problem(path: Seq<char>, reason: Seq<char>) -> ProblemView {
    (6, path, reason, Seq::empty())
}

pub open spec fn problems_view(v: Seq<GraphProblem>) -> Seq<ProblemView> {
    v.map_values(|p: GraphProblem| problem_view(p))
}

/// Problems charged to a node (or context) id.
pub type KeyedProblems = Seq<(Seq<char>, ProblemView)>;

pub open spec fn keyed_view(v: Seq<(String, GraphProblem)>) -> KeyedProblems {
    v.map_values(|e: (String, GraphProblem)| (e.0@, problem_view(e.1)))
}

pub open spec fn unkeyed(v: KeyedProblems) -> Seq<ProblemView> {
    v.map_values(|e: (Seq<char>, ProblemView)| e.1)
}

pub fn copy_problem(p: &GraphProblem) -> (r: GraphProblem)
    ensures
        problem_view(r) == problem_view(*p),
{
    match p {
        GraphProblem::BrokenSymlink { path } => GraphProblem::BrokenSymlink { path: path.clone() },
        GraphProblem::DuplicateContextDocument { id, paths } => {
            let ps = copy_texts(paths);
            GraphProblem::DuplicateContextDocument { id: id.clone(), paths: ps }
        },
        GraphProblem::DuplicateCanonicalNode { id, paths } => {
            let ps = copy_texts(paths);
            GraphProblem::DuplicateCanonicalNode { id: id.clone(), paths: ps }
        },
        GraphProblem::InvalidContextMarkdown { path, reason } => GraphProblem::InvalidContextMarkdown {
            path: path.clone(),
            reason: reason.clone(),
        },
        GraphProblem::MissingNodeMarkdown { path } => GraphProblem::MissingNodeMarkdown {
            path: path.clone(),
        },
        GraphProblem::MissingChildrenDirectory { path } => GraphProblem::MissingChildrenDirectory {
            path: path.clone(),
        },
        GraphProblem::InvalidMarkdown { path, reason } => GraphProblem::InvalidMarkdown {
            path: path.clone(),
            reason: reason.clone(),
        },
        GraphProblem::CycleDetected { node_id } => GraphProblem::CycleDetected {
            node_id: node_id.clone(),
        },
    }
}

pub fn copy_texts(v: &Vec<String>) -> (r: Vec<String>)
    ensures
        texts(*v) == texts(r),
        r@ == v@,
{
    let mut r: Vec<String> = Vec::new();
    let mut i: usize = 0;
    while i < v.len()
        invariant
            i <= v.len(),
            r@ == v@.take(i as int),
        decreases v.len() - i,
    {
        r.push(v[i].clone());
        i += 1;
        assert(r@ =~= v@.take(i as int));
    }
    assert(v@.take(v.len() as int) =~= v@);
    r
}

// ---------------------------------------------------------------------------
// rows in query order
// ---------------------------------------------------------------------------

pub open spec fn node_row_key(r: NodeRow) -> KeyView {
    (r.id@, Seq::empty(), Seq::empty(), 0)
}

pub open spec fn placement_row_key(r: PlacementRow) -> KeyView {
    (r.logical_path@, Seq::empty(), Seq::empty(), r.row_id as int)
}

pub open spec fn context_row_key(r: ContextRow) -> KeyView {
    (r.title@, r.id@, r.filename@, 0)
}

/// Node rows by id (`ORDER BY id`), equal ids in stored order.
pub open spec fn sorted_node_rows(rows: Seq<NodeRow>) -> Seq<NodeRow> {
    permuted(rows, sorted_by(rows.map_values(|r: NodeRow| node_row_key(r))))
}

/// Placement rows by logical path, then row id (`ORDER BY logical_path, id`).
pub open spec fn sorted_placement_rows(rows: Seq<PlacementRow>) -> Seq<PlacementRow> {
    permuted(rows, sorted_by(rows.map_values(|r: PlacementRow| placement_row_key(r))))
}

/// Context rows by title, id and file name (`ORDER BY title, id, filename`).
pub open spec fn sorted_context_rows(rows: Seq<ContextRow>) -> Seq<ContextRow> {
    permuted(rows, sorted_by(rows.map_values(|r: ContextRow| context_row_key(r))))
}

pub fn copy_node_row(r: &NodeRow) -> (c: NodeRow)
    ensures
        c == *r,
{
    NodeRow {
        id: r.id.clone(),
        kind: r.kind.clone(),
        title: r.title.clone(),
        reviewed: r.reviewed,
        statement_body: match &r.statement_body {
            Some(s) => Some(s.clone()),
            None => None,
        },
        qa_question: match &r.qa_question {
            Some(s) => Some(s.clone()),
            None => None,
        },
        qa_answer: match &r.qa_answer {
            Some(s) => Some(s.clone()),
            None => None,
        },
        created_at_unix: r.created_at_unix,
        updated_at_unix: r.updated_at_unix,
    }
}

pub fn copy_placement_row(r: &PlacementRow) -> (c: PlacementRow)
    ensures
        c == *r,
{
    PlacementRow {
        row_id: r.row_id,
        node_id: r.node_id.clone(),
        parent_id: match &r.parent_id {
            Some(s) => Some(s.clone()),
            None => None,
        },
        slug: r.slug.clone(),
        logical_path: r.logical_path.clone(),
        is_canonical: r.is_canonical,
    }
}

pub fn copy_context_row(r: &ContextRow) -> (c: ContextRow)
    ensures
        c == *r,
{
    ContextRow {
        id: r.id.clone(),
        slug: r.slug.clone(),
        filename: r.filename.clone(),
        title: r.title.clone(),
        markdown: r.markdown.clone(),
        created_at_unix: r.created_at_unix,
        updated_at_unix: r.updated_at_unix,
    }
}

fn empty_chars() -> (v: Vec<char>)
    ensures
        v@ == Seq::<char>::empty(),
{
    Vec::new()
}

pub fn copy_placements(v: &Vec<PlacementRow>) -> (r: Vec<PlacementRow>)
    ensures
        r@ == v@,
{
    let mut out: Vec<PlacementRow> = Vec::new();
    let mut i: usize = 0;
    while i < v.len()
        invariant
            i <= v.len(),
            out@ == v@.take(i as int),
        decreases v.len() - i,
    {
        out.push(copy_placement_row(&v[i]));
        i += 1;
        assert(out@ =~= v@.take(i as int));
    }
    assert(v@.take(v.len() as int) =~= v@);
    out
}

pub fn sort_node_rows(rows: &Vec<NodeRow>) -> (r: Vec<NodeRow>)
    ensures
        r@ == sorted_node_rows(rows@),
{
    let mut keys: Vec<SortKey> = Vec::new();
    let mut i: usize = 0;
    while i < rows.len()
        invariant
            i <= rows.len(),
            key_views(keys@) == rows@.take(i as int).map_values(|r: NodeRow| node_row_key(r)),
        decreases rows.len() - i,
    {
        let k = SortKey { a: chars_of(rows[i].id.as_str()), b: empty_chars(), c: empty_chars(), n: 0 };
        assert(k.view() == node_row_key(rows@[i as int]));
        proof {
            lemma_key_views_push(keys@, k);
            assert(rows@.take(i + 1).map_values(|r: NodeRow| node_row_key(r)) =~= rows@.take(i as int).map_values(
                |r: NodeRow| node_row_key(r),
            ).push(node_row_key(rows@[i as int])));
        }
        keys.push(k);
        i += 1;
    }
    assert(rows@.take(rows.len() as int) =~= rows@);
    let p = sort_order(&keys);
    proof {
        lemma_sorted_unique(rows@.map_values(|r: NodeRow| node_row_key(r)), p@);
    }
    let mut out: Vec<NodeRow> = Vec::new();
    let mut j: usize = 0;
    while j < p.len()
        invariant
            j <= p.len(),
            p.len() == rows.len(),
            forall|k: int| 0 <= k < p.len() ==> (#[trigger] p@[k] as int) < rows.len(),
            out@ == permuted(rows@, p@).take(j as int),
        decreases p.len() - j,
    {
        out.push(copy_node_row(&rows[p[j]]));
        j += 1;
        assert(out@ =~= permuted(rows@, p@).take(j as int));
    }
    assert(permuted(rows@, p@).take(p.len() as int) =~= permuted(rows@, p@));
    out
}

pub fn sort_placement_rows(rows: &Vec<PlacementRow>) -> (r: Vec<PlacementRow>)
    ensures
        r@ == sorted_placement_rows(rows@),
{
    let mut keys: Vec<SortKey> = Vec::new();
    let mut i: usize = 0;
    while i < rows.len()
        invariant
            i <= rows.len(),
            key_views(keys@) == rows@.take(i as int).map_values(|r: PlacementRow| placement_row_key(r)),
        decreases rows.len() - i,
    {
        let k = SortKey {
            a: chars_of(rows[i].logical_path.as_str()),
            b: empty_chars(),
            c: empty_chars(),
            n: rows[i].row_id,
        };
        assert(k.view() == placement_row_key(rows@[i as int]));
        proof {
            lemma_key_views_push(keys@, k);
            assert(rows@.take(i + 1).map_values(|r: PlacementRow| placement_row_key(r)) =~= rows@.take(i as int).map_values(
                |r: PlacementRow| placement_row_key(r),
            ).push(placement_row_key(rows@[i as int])));
        }
        keys.push(k);
        i += 1;
    }
    assert(rows@.take(rows.len() as int) =~= rows@);
    let p = sort_order(&keys);
    proof {
        lemma_sorted_unique(rows@.map_values(|r: PlacementRow| placement_row_key(r)), p@);
    }
    let mut out: Vec<PlacementRow> = Vec::new();
    let mut j: usize = 0;
    while j < p.len()
        invariant
            j <= p.len(),
            p.len() == rows.len(),
            forall|k: int| 0 <= k < p.len() ==> (#[trigger] p@[k] as int) < rows.len(),
            out@ == permuted(rows@, p@).take(j as int),
        decreases p.len() - j,
    {
        out.push(copy_placement_row(&rows[p[j]]));
        j += 1;
        assert(out@ =~= permuted(rows@, p@).take(j as int));
    }
    assert(permuted(rows@, p@).take(p.len() as int) =~= permuted(rows@, p@));
    out
}

pub fn sort_context_rows(rows: &Vec<ContextRow>) -> (r: Vec<ContextRow>)
    ensures
        r@ == sorted_context_rows(rows@),
{
    let mut keys: Vec<SortKey> = Vec::new();
    let mut i: usize = 0;
    while i < rows.len()
        invariant
            i <= rows.len(),
            key_views(keys@) == rows@.take(i as int).map_values(|r: ContextRow| context_row_key(r)),
        decreases rows.len() - i,
    {
        let k = SortKey {
            a: chars_of(rows[i].title.as_str()),
            b: chars_of(rows[i].id.as_str()),
            c: chars_of(rows[i].filename.as_str()),
            n: 0,
        };
        assert(k.view() == context_row_key(rows@[i as int]));
        proof {
            lemma_key_views_push(keys@, k);
            assert(rows@.take(i + 1).map_values(|r: ContextRow| context_row_key(r)) =~= rows@.take(i as int).map_values(
                |r: ContextRow| context_row_key(r),
            ).push(context_row_key(rows@[i as int])));
        }
        keys.push(k);
        i += 1;
    }
    assert(rows@.take(rows.len() as int) =~= rows@);
    let p = sort_order(&keys);
    proof {
        lemma_sorted_unique(rows@.map_values(|r: ContextRow| context_row_key(r)), p@);
    }
    let mut out: Vec<ContextRow> = Vec::new();
    let mut j: usize = 0;
    while j < p.len()
        invariant
            j <= p.len(),
            p.len() == rows.len(),
            forall|k: int| 0 <= k < p.len() ==> (#[trigger] p@[k] as int) < rows.len(),
            out@ == permuted(rows@, p@).take(j as int),
        decreases p.len() - j,
    {
        out.push(copy_context_row(&rows[p[j]]));
        j += 1;
        assert(out@ =~= permuted(rows@, p@).take(j as int));
    }
    assert(permuted(rows@, p@).take(p.len() as int) =~= permuted(rows@, p@));
    out
}

// ---------------------------------------------------------------------------
// the path a node's problems are reported at
// ---------------------------------------------------------------------------

pub open spec fn has_row_for(places: Seq<PlacementRow>, id: Seq<char>) -> bool {
    exists|i: int| 0 <= i < places.len() && (#[trigger] places[i]).node_id@ == id
}

pub open spec fn least_row_for(places: Seq<PlacementRow>, id: Seq<char>, i: int) -> bool {
    &&& 0 <= i < places.len()
    &&& places[i].node_id@ == id
    &&& forall|j: int|
        0 <= j < places.len() && (#[trigger] places[j]).node_id@ == id ==> !chars_lt(
            places[j].logical_path@,
            places[i].logical_path@,
        )
}

/// The least logical path of the node's placement rows, or `nodes/<id>`.
pub open spec fn diagnostic_path(places: Seq<PlacementRow>, id: Seq<char>) -> Seq<char> {
    if has_row_for(places, id) {
        places[choose|i: int| least_row_for(places, id, i)].logical_path@
    } else {
        "nodes/"@ + id
    }
}

pub fn diagnostic_path_for_node(places: &Vec<PlacementRow>, id: &String) -> (r: String)
    ensures
        r@ == diagnostic_path(places@, id@),
{
    let target = chars_of(id.as_str());
    let mut best: Option<usize> = None;
    let mut i: usize = 0;
    while i < places.len()
        invariant
            i <= places.len(),
            target@ == id@,
            match best {
                Some(b) => b < i && places@[b as int].node_id@ == id@ && forall|j: int|
                    0 <= j < i && (#[trigger] places@[j]).node_id@ == id@ ==> !chars_lt(
                        places@[j].logical_path@,
                        places@[b as int].logical_path@,
                    ),
                None => forall|j: int| 0 <= j < i ==> (#[trigger] places@[j]).node_id@ != id@,
            },
        decreases places.len() - i,
    {
        let n = chars_of(places[i].node_id.as_str());
        if chars_eq(n.as_slice(), target.as_slice()) {
            match best {
                None => {
                    proof {
                        crate::order::lemma_lt_irreflexive(places@[i as int].logical_path@);
                    }
                    best = Some(i);
                },
                Some(b) => {
                    let pi = chars_of(places[i].logical_path.as_str());
                    let pb = chars_of(places[b].logical_path.as_str());
                    if chars_less(pi.as_slice(), pb.as_slice()) {
                        proof {
                            assert forall|j: int|
                                0 <= j < i && (#[trigger] places@[j]).node_id@ == id@ implies !chars_lt(
                                places@[j].logical_path@,
                                places@[i as int].logical_path@,
                            ) by {
                                crate::order::lemma_lt_total(
                                    places@[j].logical_path@,
                                    places@[b as int].logical_path@,
                                );
                                if chars_lt(places@[j].logical_path@, places@[i as int].logical_path@) {
                                    crate::order::lemma_lt_transitive(
                                        places@[j].logical_path@,
                                        places@[i as int].logical_path@,
                                        places@[b as int].logical_path@,
                                    );
                                }
                            }
                            crate::order::lemma_lt_asymmetric(
                                places@[i as int].logical_path@,
                                places@[b as int].logical_path@,
                            );
                            crate::order::lemma_lt_irreflexive(places@[i as int].logical_path@);
                        }
                        best = Some(i);
                    }
                },
            }
        }
        i += 1;
    }
    match best {
        Some(b) => {
            proof {
                let c = choose|k: int| least_row_for(places@, id@, k);
                assert(least_row_for(places@, id@, b as int));
                lemma_lt_total(places@[c].logical_path@, places@[b as int].logical_path@);
            }
            places[b].logical_path.clone()
        },
        None => {
            let mut s = string_from_str("nodes/");
            push_str(&mut s, id.as_str());
            s
        },
    }
}

// ---------------------------------------------------------------------------
// node rows
// ---------------------------------------------------------------------------

pub open spec fn duplicate_node_reason(id: Seq<char>) -> Seq<char> {
    "duplicate node id `"@ + id + "`"@
}

/// An earlier row has the same id.
pub open spec fn node_seen_before(rows: Seq<NodeRow>, i: int) -> bool {
    exists|j: int| 0 <= j < i && (#[trigger] rows[j]).id@ == rows[i].id@
}

/// The first `n` node rows: those that enter the graph (the first row of
/// each id, when it is valid), and the problems of the others.
pub open spec fn node_phase(rows: Seq<NodeRow>, places: Seq<PlacementRow>, n: int) -> (
    Seq<NodeRow>,
    KeyedProblems,
)
    decreases n,
{
    if n <= 0 || n > rows.len() {
        (Seq::empty(), Seq::empty())
    } else {
        let prev = node_phase(rows, places, n - 1);
        let r = rows[n - 1];
        let path = diagnostic_path(places, r.id@);
        if node_seen_before(rows, n - 1) {
            (prev.0, prev.1.push((r.id@, markdown_problem(path, duplicate_node_reason(r.id@)))))
        } else {
            match node_reason(r) {
                None => (prev.0.push(r), prev.1),
                Some(m) => (prev.0, prev.1.push((r.id@, markdown_problem(path, m)))),
            }
        }
    }
}

fn node_seen(rows: &Vec<NodeRow>, i: usize) -> (r: bool)
    requires
        i < rows.len(),
    ensures
        r == node_seen_before(rows@, i as int),
{
    let id = chars_of(rows[i].id.as_str());
    let mut j: usize = 0;
    while j < i
        invariant
            j <= i < rows.len(),
            id@ == rows@[i as int].id@,
            forall|k: int| 0 <= k < j ==> (#[trigger] rows@[k]).id@ != rows@[i as int].id@,
        decreases i - j,
    {
        let other = chars_of(rows[j].id.as_str());
        if chars_eq(other.as_slice(), id.as_slice()) {
            return true;
        }
        j += 1;
    }
    false
}

fn text_with(prefix: &str, x: &String, suffix: &str) -> (r: String)
    ensures
        r@ == prefix@ + x@ + suffix@,
{
    let mut s = string_from_str(prefix);
    push_str(&mut s, x.as_str());
    push_str(&mut s, suffix);
    s
}

pub open spec fn all_fields_match(f: Seq<NodeFields>, rows: Seq<NodeRow>) -> bool {
    f.len() == rows.len() && forall|i: int| 0 <= i < f.len() ==> fields_match_row(#[trigger] f[i], rows[i])
}

/// Reads the node rows (in query order).
pub fn scan_node_rows(rows: &Vec<NodeRow>, places: &Vec<PlacementRow>) -> (r: (
    Vec<NodeFields>,
    Vec<(String, GraphProblem)>,
))
    ensures
        all_fields_match(r.0@, node_phase(rows@, places@, rows.len() as int).0),
        keyed_view(r.1@) == node_phase(rows@, places@, rows.len() as int).1,
{
    let mut ok: Vec<NodeFields> = Vec::new();
    let mut probs: Vec<(String, GraphProblem)> = Vec::new();
    let mut i: usize = 0;
    while i < rows.len()
        invariant
            i <= rows.len(),
            all_fields_match(ok@, node_phase(rows@, places@, i as int).0),
            keyed_view(probs@) == node_phase(rows@, places@, i as int).1,
        decreases rows.len() - i,
    {
        let row = &rows[i];
        let path = diagnostic_path_for_node(places, &row.id);
        let ghost before = probs@;
        if node_seen(rows, i) {
            let reason = text_with("duplicate node id `", &row.id, "`");
            probs.push((row.id.clone(), GraphProblem::InvalidMarkdown { path, reason }));
            proof {
                assert(keyed_view(probs@) =~= keyed_view(before).push(
                    (rows@[i as int].id@, markdown_problem(
                        diagnostic_path(places@, rows@[i as int].id@),
                        duplicate_node_reason(rows@[i as int].id@),
                    )),
                ));
            }
        } else {
            let no_answers: Vec<String> = Vec::new();
            assert(no_answers@.map_values(|a: String| a@) =~= Seq::<Seq<char>>::empty());
            match scanned_node_from_raw(row, &no_answers, &path) {
                Ok(f) => {
                    let ghost old_ok = ok@;
                    ok.push(f);
                    proof {
                        assert forall|k: int| 0 <= k < ok@.len() implies fields_match_row(
                            #[trigger] ok@[k],
                            node_phase(rows@, places@, i + 1).0[k],
                        ) by {
                            if k < old_ok.len() {
                                assert(ok@[k] == old_ok[k]);
                            }
                        }
                    }
                },
                Err(p) => {
                    let ghost pv = problem_view(p);
                    probs.push((row.id.clone(), p));
                    proof {
                        assert(keyed_view(probs@) =~= keyed_view(before).push((rows@[i as int].id@, pv)));
                    }
                },
            }
        }
        i += 1;
    }
    (ok, probs)
}

// ---------------------------------------------------------------------------
// placement rows
// ---------------------------------------------------------------------------

pub open spec fn placement_views(v: Seq<ScannedPlacement>) -> Seq<PlacementView> {
    v.map_values(|p: ScannedPlacement| p.view())
}

/// An earlier usable placement has the same parent and node.
pub open spec fn edge_seen(ok: Seq<PlacementView>, v: PlacementView) -> bool {
    exists|k: int| 0 <= k < ok.len() && (#[trigger] ok[k]).2 == v.2 && ok[k].1 == v.1
}

/// The first `n` placement rows: the usable placements, and the problems of
/// the others (a second placement of the same edge is kept but reported).
pub open spec fn placement_phase(rows: Seq<PlacementRow>, ids: Set<Seq<char>>, n: int) -> (
    Seq<PlacementView>,
    KeyedProblems,
)
    decreases n,
{
    if n <= 0 || n > rows.len() {
        (Seq::empty(), Seq::empty())
    } else {
        let prev = placement_phase(rows, ids, n - 1);
        let r = rows[n - 1];
        match placement_reason(r, ids) {
            Some(m) => (prev.0, prev.1.push((r.node_id@, markdown_problem(r.logical_path@, m)))),
            None => {
                let v = placement_of_row(r);
                (
                    prev.0.push(v),
                    if edge_seen(prev.0, v) {
                        prev.1.push(
                            (
                                r.node_id@,
                                markdown_problem(
                                    r.logical_path@,
                                    "duplicate placement for parent-child edge"@,
                                ),
                            ),
                        )
                    } else {
                        prev.1
                    },
                )
            },
        }
    }
}

pub fn opt_eq(a: &Option<String>, b: &Option<String>) -> (r: bool)
    ensures
        r == (opt_view(*a) == opt_view(*b)),
{
    match (a, b) {
        (Some(x), Some(y)) => {
            let xv = chars_of(x.as_str());
            let yv = chars_of(y.as_str());
            chars_eq(xv.as_slice(), yv.as_slice())
        },
        (None, None) => true,
        _ => false,
    }
}

pub fn str_same(a: &String, b: &String) -> (r: bool)
    ensures
        r == (a@ == b@),
{
    let x = chars_of(a.as_str());
    let y = chars_of(b.as_str());
    chars_eq(x.as_slice(), y.as_slice())
}

fn edge_in(ok: &Vec<ScannedPlacement>, p: &ScannedPlacement) -> (r: bool)
    ensures
        r == edge_seen(placement_views(ok@), p.view()),
{
    let mut k: usize = 0;
    while k < ok.len()
        invariant
            k <= ok.len(),
            forall|j: int| 0 <= j < k ==> !((#[trigger] ok@[j]).view().2 == p.view().2 && ok@[j].view().1 == p.view().1),
        decreases ok.len() - k,
    {
        if opt_eq(&ok[k].parent_id, &p.parent_id) && str_same(&ok[k].node_id, &p.node_id) {
            assert(placement_views(ok@)[k as int] == ok@[k as int].view());
            return true;
        }
        k += 1;
    }
    proof {
        assert forall|j: int| 0 <= j < placement_views(ok@).len() implies !((#[trigger] placement_views(ok@)[j]).2 == p.view().2 && placement_views(ok@)[j].1 == p.view().1) by {
            assert(placement_views(ok@)[j] == ok@[j].view());
        }
    }
    false
}

/// Reads the placement rows (in query order); `nodes` are all node rows.
#[verifier::rlimit(40)]
pub fn scan_placement_rows(rows: &Vec<PlacementRow>, nodes: &Vec<NodeRow>) -> (r: (
    Vec<ScannedPlacement>,
    Vec<(String, GraphProblem)>,
))
    ensures
        placement_views(r.0@) == placement_phase(rows@, row_ids(nodes@), rows.len() as int).0,
        keyed_view(r.1@) == placement_phase(rows@, row_ids(nodes@), rows.len() as int).1,
{
    let ghost ids = row_ids(nodes@);
    let mut ok: Vec<ScannedPlacement> = Vec::new();
    let mut probs: Vec<(String, GraphProblem)> = Vec::new();
    let mut i: usize = 0;
    while i < rows.len()
        invariant
            i <= rows.len(),
            ids == row_ids(nodes@),
            placement_views(ok@) == placement_phase(rows@, ids, i as int).0,
            keyed_view(probs@) == placement_phase(rows@, ids, i as int).1,
        decreases rows.len() - i,
    {
        let ghost before = probs@;
        let ghost before_ok = ok@;
        match scanned_placement_from_raw(&rows[i], nodes) {
            Err((id, p)) => {
                let ghost pv = problem_view(p);
                probs.push((id, p));
                proof {
                    assert(keyed_view(probs@) =~= keyed_view(before).push((rows@[i as int].node_id@, pv)));
                }
            },
            Ok(p) => {
                if edge_in(&ok, &p) {
                    let reason = string_from_str("duplicate placement for parent-child edge");
                    let prob = GraphProblem::InvalidMarkdown { path: p.logical_path.clone(), reason };
                    let ghost pv = problem_view(prob);
                    probs.push((p.node_id.clone(), prob));
                    proof {
                        assert(keyed_view(probs@) =~= keyed_view(before).push((rows@[i as int].node_id@, pv)));
                    }
                }
                ok.push(p);
                proof {
                    assert(placement_views(ok@) =~= placement_views(before_ok).push(p.view()));
                }
            },
        }
        i += 1;
    }
    (ok, probs)
}

// ---------------------------------------------------------------------------
// nodes with their placements
// ---------------------------------------------------------------------------

/// The usable placements of a node that are (or are not) canonical, in
/// query order.
pub open spec fn places_of(ok: Seq<PlacementView>, id: Seq<char>, canonical: bool) -> Seq<PlacementView>
    decreases ok.len(),
{
    if ok.len() == 0 {
        Seq::empty()
    } else {
        let prev = places_of(ok.drop_last(), id, canonical);
        if ok.last().1 == id && ok.last().4 == canonical {
            prev.push(ok.last())
        } else {
            prev
        }
    }
}

pub open spec fn place_key(p: PlacementView) -> KeyView {
    (crate::paths::path_order_key(p.3), Seq::empty(), Seq::empty(), 0)
}

/// Placements by logical path, equal paths in their given order.
pub open spec fn path_sorted(ps: Seq<PlacementView>) -> Seq<PlacementView> {
    permuted(ps, sorted_by(ps.map_values(|p: PlacementView| place_key(p))))
}

pub fn sort_by_path(v: &Vec<ScannedPlacement>) -> (r: Vec<ScannedPlacement>)
    ensures
        placement_views(r@) == path_sorted(placement_views(v@)),
{
    let ghost pv = placement_views(v@);
    let mut keys: Vec<SortKey> = Vec::new();
    let mut i: usize = 0;
    while i < v.len()
        invariant
            i <= v.len(),
            pv == placement_views(v@),
            key_views(keys@) == pv.take(i as int).map_values(|p: PlacementView| place_key(p)),
        decreases v.len() - i,
    {
        let k = SortKey { a: crate::paths::path_order_chars(v[i].logical_path.as_str()), b: empty_chars(), c: empty_chars(), n: 0 };
        proof {
            assert(k.view() == place_key(pv[i as int]));
            lemma_key_views_push(keys@, k);
            assert(pv.take(i + 1).map_values(|p: PlacementView| place_key(p)) =~= pv.take(i as int).map_values(
                |p: PlacementView| place_key(p),
            ).push(place_key(pv[i as int])));
        }
        keys.push(k);
        i += 1;
    }
    assert(pv.take(v.len() as int) =~= pv);
    let p = sort_order(&keys);
    proof {
        lemma_sorted_unique(pv.map_values(|p: PlacementView| place_key(p)), p@);
    }
    let mut out: Vec<ScannedPlacement> = Vec::new();
    let mut j: usize = 0;
    while j < p.len()
        invariant
            j <= p.len(),
            p.len() == v.len(),
            pv == placement_views(v@),
            forall|k: int| 0 <= k < p.len() ==> (#[trigger] p@[k] as int) < v.len(),
            placement_views(out@) == permuted(pv, p@).take(j as int),
        decreases p.len() - j,
    {
        let c = copy_placement(&v[p[j]]);
        let ghost old_out = out@;
        out.push(c);
        proof {
            assert(placement_views(out@) =~= placement_views(old_out).push(c.view()));
            assert(permuted(pv, p@).take(j + 1) =~= permuted(pv, p@).take(j as int).push(pv[p@[j as int] as int]));
        }
        j += 1;
    }
    assert(permuted(pv, p@).take(p.len() as int) =~= permuted(pv, p@));
    out
}

/// A node's placements that are (or are not) canonical, by logical path.
pub fn placements_of(ok: &Vec<ScannedPlacement>, id: &String, canonical: bool) -> (r: Vec<ScannedPlacement>)
    ensures
        placement_views(r@) == path_sorted(places_of(placement_views(ok@), id@, canonical)),
{
    let ghost all = placement_views(ok@);
    let mut picked: Vec<ScannedPlacement> = Vec::new();
    let mut i: usize = 0;
    while i < ok.len()
        invariant
            i <= ok.len(),
            all == placement_views(ok@),
            placement_views(picked@) == places_of(all.take(i as int), id@, canonical),
        decreases ok.len() - i,
    {
        let ghost old_picked = picked@;
        proof {
            assert(all.take(i + 1).drop_last() =~= all.take(i as int));
            assert(all.take(i + 1).last() == ok@[i as int].view());
        }
        if str_same(&ok[i].node_id, id) && ok[i].is_canonical == canonical {
            let c = copy_placement(&ok[i]);
            picked.push(c);
            proof {
                assert(placement_views(picked@) =~= placement_views(old_picked).push(c.view()));
            }
        }
        i += 1;
    }
    assert(all.take(ok.len() as int) =~= all);
    sort_by_path(&picked)
}

/// A node of the graph with its placements.
#[derive(Debug, Clone, PartialEq, Eq)]
pub struct ScannedNode {
    pub fields: NodeFields,
    pub canonical_placements: Vec<ScannedPlacement>,
    pub alias_placements: Vec<ScannedPlacement>,
}

/// `n` is the node of `row`, with the usable placements `ok` that name it.
pub open spec fn node_assembled(n: ScannedNode, row: NodeRow, ok: Seq<PlacementView>) -> bool {
    &&& fields_match_row(n.fields, row)
    &&& placement_views(n.canonical_placements@) == path_sorted(places_of(ok, row.id@, true))
    &&& placement_views(n.alias_placements@) == path_sorted(places_of(ok, row.id@, false))
}

pub open spec fn all_assembled(nodes: Seq<ScannedNode>, rows: Seq<NodeRow>, ok: Seq<PlacementView>) -> bool {
    nodes.len() == rows.len() && forall|i: int| 0 <= i < nodes.len() ==> node_assembled(#[trigger] nodes[i], rows[i], ok)
}

pub fn assemble_nodes(fields: Vec<NodeFields>, ok: &Vec<ScannedPlacement>, Ghost(rows): Ghost<Seq<NodeRow>>) -> (r: Vec<ScannedNode>)
    requires
        all_fields_match(fields@, rows),
    ensures
        all_assembled(r@, rows, placement_views(ok@)),
{
    let mut out: Vec<ScannedNode> = Vec::new();
    let mut i: usize = 0;
    while i < fields.len()
        invariant
            i <= fields.len(),
            all_fields_match(fields@, rows),
            out.len() == i,
            forall|k: int| 0 <= k < i ==> node_assembled(#[trigger] out@[k], rows[k], placement_views(ok@)),
        decreases fields.len() - i,
    {
        let f = &fields[i];
        let canon = placements_of(ok, &f.id, true);
        let alias = placements_of(ok, &f.id, false);
        let node = ScannedNode {
            fields: NodeFields {
                id: f.id.clone(),
                kind: match f.kind {
                    NodeKind::Statement => NodeKind::Statement,
                    NodeKind::QuestionAnswer => NodeKind::QuestionAnswer,
                },
                title: f.title.clone(),
                reviewed: f.reviewed,
                content: match &f.content {
                    NodeContent::Statement { body } => NodeContent::Statement { body: body.clone() },
                    NodeContent::QuestionAnswer { question, answer } => NodeContent::QuestionAnswer {
                        question: question.clone(),
                        answer: answer.clone(),
                    },
                },
                created_at_unix: f.created_at_unix,
                updated_at_unix: f.updated_at_unix,
            },
            canonical_placements: canon,
            alias_placements: alias,
        };
        assert(fields_match_row(fields@[i as int], rows[i as int]));
        out.push(node);
        i += 1;
    }
    out
}

// ---------------------------------------------------------------------------
// canonical placements and placement paths
// ---------------------------------------------------------------------------

pub open spec fn canonical_views(ok: Seq<PlacementView>, id: Seq<char>) -> Seq<PlacementView> {
    path_sorted(places_of(ok, id, true))
}

pub open spec fn path_texts(ps: Seq<PlacementView>) -> Seq<Seq<char>> {
    ps.map_values(|p: PlacementView| p.3)
}

/// Nodes (in order) with more than one canonical placement, or none.
pub open spec fn canonical_phase(rows: Seq<NodeRow>, ok: Seq<PlacementView>, n: int) -> KeyedProblems
    decreases n,
{
    if n <= 0 || n > rows.len() {
        Seq::empty()
    } else {
        let prev = canonical_phase(rows, ok, n - 1);
        let id = rows[n - 1].id@;
        let c = canonical_views(ok, id);
        if c.len() > 1 {
            prev.push((id, (2, id, Seq::empty(), path_texts(c))))
        } else if c.len() == 0 {
            prev.push((id, markdown_problem("nodes/"@ + id, "node has no canonical placement"@)))
        } else {
            prev
        }
    }
}

pub fn placement_paths(v: &Vec<ScannedPlacement>) -> (r: Vec<String>)
    ensures
        texts(r) == path_texts(placement_views(v@)),
{
    let mut out: Vec<String> = Vec::new();
    let mut i: usize = 0;
    while i < v.len()
        invariant
            i <= v.len(),
            out@.len() == i,
            forall|j: int| 0 <= j < i ==> (#[trigger] out@[j])@ == v@[j].logical_path@,
        decreases v.len() - i,
    {
        out.push(v[i].logical_path.clone());
        i += 1;
    }
    assert(texts(out) =~= path_texts(placement_views(v@)));
    out
}

pub fn canonical_problems(nodes: &Vec<ScannedNode>, Ghost(rows): Ghost<Seq<NodeRow>>, Ghost(ok): Ghost<Seq<PlacementView>>) -> (r: Vec<(String, GraphProblem)>)
    requires
        all_assembled(nodes@, rows, ok),
    ensures
        keyed_view(r@) == canonical_phase(rows, ok, rows.len() as int),
{
    let mut out: Vec<(String, GraphProblem)> = Vec::new();
    let mut i: usize = 0;
    while i < nodes.len()
        invariant
            i <= nodes.len(),
            all_assembled(nodes@, rows, ok),
            keyed_view(out@) == canonical_phase(rows, ok, i as int),
        decreases nodes.len() - i,
    {
        let n = &nodes[i];
        let ghost before = out@;
        proof {
            assert(node_assembled(nodes@[i as int], rows[i as int], ok));
        }
        let c = n.canonical_placements.len();
        if c > 1 {
            let paths = placement_paths(&n.canonical_placements);
            let prob = GraphProblem::DuplicateCanonicalNode { id: n.fields.id.clone(), paths };
            let ghost pv = problem_view(prob);
            out.push((n.fields.id.clone(), prob));
            proof {
                assert(keyed_view(out@) =~= keyed_view(before).push((rows[i as int].id@, pv)));
            }
        } else if c == 0 {
            let path = text_with("nodes/", &n.fields.id, "");
            let prob = GraphProblem::InvalidMarkdown {
                path,
                reason: string_from_str("node has no canonical placement"),
            };
            let ghost pv = problem_view(prob);
            out.push((n.fields.id.clone(), prob));
            proof {
                reveal_strlit("");
                assert(keyed_view(out@) =~= keyed_view(before).push((rows[i as int].id@, pv)));
            }
        }
        i += 1;
    }
    out
}

/// The canonical path of the node `id` of the graph, when it has one.
pub open spec fn canonical_path_of(rows: Seq<NodeRow>, ok: Seq<PlacementView>, id: Seq<char>) -> Option<Seq<char>> {
    if (exists|i: int| 0 <= i < rows.len() && (#[trigger] rows[i]).id@ == id) && canonical_views(ok, id).len() > 0 {
        Some(canonical_views(ok, id)[0].3)
    } else {
        None
    }
}

/// Placements whose path does not sit in their parent's `children`
/// directory (or directly under `roots` for a root entry).
pub open spec fn child_path_phase(rows: Seq<NodeRow>, ok: Seq<PlacementView>, n: int) -> KeyedProblems
    decreases n,
{
    if n <= 0 || n > ok.len() {
        Seq::empty()
    } else {
        let prev = child_path_phase(rows, ok, n - 1);
        let p = ok[n - 1];
        match p.2 {
            Some(pid) => match canonical_path_of(rows, ok, pid) {
                Some(pp) => if crate::paths::parent_path(p.3) != pp + "/children"@ {
                    prev.push(
                        (
                            p.1,
                            markdown_problem(p.3, "placement path does not match parent canonical path"@),
                        ),
                    )
                } else {
                    prev
                },
                None => prev,
            },
            None => if crate::paths::parent_path(p.3) != "roots"@ {
                prev.push(
                    (p.1, markdown_problem(p.3, "root placement path must be directly under roots"@)),
                )
            } else {
                prev
            },
        }
    }
}

fn canonical_path_in(nodes: &Vec<ScannedNode>, id: &String, Ghost(rows): Ghost<Seq<NodeRow>>, Ghost(ok): Ghost<Seq<PlacementView>>) -> (r: Option<String>)
    requires
        all_assembled(nodes@, rows, ok),
    ensures
        opt_view(r) == canonical_path_of(rows, ok, id@),
{
    let mut i: usize = 0;
    while i < nodes.len()
        invariant
            i <= nodes.len(),
            all_assembled(nodes@, rows, ok),
            forall|k: int| 0 <= k < i ==> (#[trigger] rows[k]).id@ != id@,
        decreases nodes.len() - i,
    {
        proof {
            assert(node_assembled(nodes@[i as int], rows[i as int], ok));
        }
        if str_same(&nodes[i].fields.id, id) {
            if nodes[i].canonical_placements.len() > 0 {
                proof {
                    assert(placement_views(nodes@[i as int].canonical_placements@)[0]
                        == nodes@[i as int].canonical_placements@[0].view());
                }
                return Some(nodes[i].canonical_placements[0].logical_path.clone());
            }
            return None;
        }
        i += 1;
    }
    None
}

pub fn child_path_problems(nodes: &Vec<ScannedNode>, ok: &Vec<ScannedPlacement>, Ghost(rows): Ghost<Seq<NodeRow>>) -> (r: Vec<(String, GraphProblem)>)
    requires
        all_assembled(nodes@, rows, placement_views(ok@)),
    ensures
        keyed_view(r@) == child_path_phase(rows, placement_views(ok@), ok.len() as int),
{
    let ghost pv = placement_views(ok@);
    let mut out: Vec<(String, GraphProblem)> = Vec::new();
    let mut i: usize = 0;
    while i < ok.len()
        invariant
            i <= ok.len(),
            pv == placement_views(ok@),
            all_assembled(nodes@, rows, pv),
            keyed_view(out@) == child_path_phase(rows, pv, i as int),
        decreases ok.len() - i,
    {
        let p = &ok[i];
        let ghost before = out@;
        assert(pv[i as int] == p.view());
        let parent = crate::paths::parent_chars(chars_of(p.logical_path.as_str()).as_slice());
        match &p.parent_id {
            Some(pid) => {
                match canonical_path_in(nodes, pid, Ghost(rows), Ghost(pv)) {
                    Some(pp) => {
                        let expected = text_with("", &pp, "/children");
                        proof {
                            reveal_strlit("");
                            assert(expected@ =~= pp@ + "/children"@);
                        }
                        if !chars_eq(parent.as_slice(), chars_of(expected.as_str()).as_slice()) {
                            let prob = GraphProblem::InvalidMarkdown {
                                path: p.logical_path.clone(),
                                reason: string_from_str("placement path does not match parent canonical path"),
                            };
                            let ghost v = problem_view(prob);
                            out.push((p.node_id.clone(), prob));
                            proof {
                                assert(keyed_view(out@) =~= keyed_view(before).push((pv[i as int].1, v)));
                            }
                        }
                    },
                    None => {},
                }
            },
            None => {
                let roots = chars_of("roots");
                if !chars_eq(parent.as_slice(), roots.as_slice()) {
                    let prob = GraphProblem::InvalidMarkdown {
                        path: p.logical_path.clone(),
                        reason: string_from_str("root placement path must be directly under roots"),
                    };
                    let ghost v = problem_view(prob);
                    out.push((p.node_id.clone(), prob));
                    proof {
                        assert(keyed_view(out@) =~= keyed_view(before).push((pv[i as int].1, v)));
                    }
                }
            },
        }
        i += 1;
    }
    out
}

// ---------------------------------------------------------------------------
// context rows
// ---------------------------------------------------------------------------

/// The paths of all context rows with this id, in row order.
pub open spec fn context_paths_of(rows: Seq<ContextRow>, id: Seq<char>) -> Seq<Seq<char>>
    decreases rows.len(),
{
    if rows.len() == 0 {
        Seq::empty()
    } else {
        let prev = context_paths_of(rows.drop_last(), id);
        if rows.last().id@ == id {
            prev.push(crate::paths::context_path(rows.last().filename@))
        } else {
            prev
        }
    }
}

/// A text as a sort key: as it is, or as a path (`/` before every other
/// character, so that paths go component by component).
pub open spec fn text_key(t: Seq<char>, as_paths: bool) -> KeyView {
    (if as_paths { crate::paths::path_order_key(t) } else { t }, Seq::empty(), Seq::empty(), 0)
}

/// Texts in code point order, or paths in component order.
pub open spec fn texts_sorted(ts: Seq<Seq<char>>, as_paths: bool) -> Seq<Seq<char>> {
    permuted(ts, sorted_by(ts.map_values(|t: Seq<char>| text_key(t, as_paths))))
}

pub fn sort_texts(v: &Vec<String>, as_paths: bool) -> (r: Vec<String>)
    ensures
        texts(r) == texts_sorted(texts(*v), as_paths),
        forall|k: int| 0 <= k < r@.len() ==> texts(*v).contains((#[trigger] r@[k])@),
{
    let ghost tv = texts(*v);
    let mut keys: Vec<SortKey> = Vec::new();
    let mut i: usize = 0;
    while i < v.len()
        invariant
            i <= v.len(),
            tv == texts(*v),
            key_views(keys@) == tv.take(i as int).map_values(|t: Seq<char>| text_key(t, as_paths)),
        decreases v.len() - i,
    {
        let a = if as_paths {
            crate::paths::path_order_chars(v[i].as_str())
        } else {
            chars_of(v[i].as_str())
        };
        let k = SortKey { a, b: empty_chars(), c: empty_chars(), n: 0 };
        proof {
            assert(k.view() == text_key(tv[i as int], as_paths));
            lemma_key_views_push(keys@, k);
            assert(tv.take(i + 1).map_values(|t: Seq<char>| text_key(t, as_paths)) =~= tv.take(i as int).map_values(
                |t: Seq<char>| text_key(t, as_paths),
            ).push(text_key(tv[i as int], as_paths)));
        }
        keys.push(k);
        i += 1;
    }
    assert(tv.take(v.len() as int) =~= tv);
    let p = sort_order(&keys);
    proof {
        lemma_sorted_unique(tv.map_values(|t: Seq<char>| text_key(t, as_paths)), p@);
    }
    let mut out: Vec<String> = Vec::new();
    let mut j: usize = 0;
    while j < p.len()
        invariant
            j <= p.len(),
            p.len() == v.len(),
            tv == texts(*v),
            forall|k: int| 0 <= k < p.len() ==> (#[trigger] p@[k] as int) < v.len(),
            out@.len() == j,
            forall|k: int| 0 <= k < j ==> (#[trigger] out@[k])@ == permuted(tv, p@)[k],
        decreases p.len() - j,
    {
        out.push(v[p[j]].clone());
        j += 1;
    }
    assert(texts(out) =~= permuted(tv, p@));
    assert forall|k: int| 0 <= k < out@.len() implies texts(*v).contains((#[trigger] out@[k])@) by {
        assert(out@[k]@ == tv[p@[k] as int]);
    }
    out
}

pub open spec fn context_seen_before(rows: Seq<ContextRow>, i: int) -> bool {
    exists|j: int| 0 <= j < i && (#[trigger] rows[j]).id@ == rows[i].id@
}

/// The first `n` context rows: the readable documents (the first row of
/// each id, when valid), and the problems of the others.
pub open spec fn context_phase(rows: Seq<ContextRow>, n: int) -> (Seq<ContextRow>, KeyedProblems)
    decreases n,
{
    if n <= 0 || n > rows.len() {
        (Seq::empty(), Seq::empty())
    } else {
        let prev = context_phase(rows, n - 1);
        let r = rows[n - 1];
        if context_seen_before(rows, n - 1) {
            (
                prev.0,
                prev.1.push(
                    (r.id@, (1, r.id@, Seq::empty(), texts_sorted(context_paths_of(rows, r.id@), true))),
                ),
            )
        } else {
            match crate::store::context_reason(r) {
                None => (prev.0.push(r), prev.1),
                Some(m) => (
                    prev.0,
                    prev.1.push(
                        (r.id@, (3, crate::paths::context_path(r.filename@), m, Seq::empty())),
                    ),
                ),
            }
        }
    }
}

fn context_seen(rows: &Vec<ContextRow>, i: usize) -> (r: bool)
    requires
        i < rows.len(),
    ensures
        r == context_seen_before(rows@, i as int),
{
    let mut j: usize = 0;
    while j < i
        invariant
            j <= i < rows.len(),
            forall|k: int| 0 <= k < j ==> (#[trigger] rows@[k]).id@ != rows@[i as int].id@,
        decreases i - j,
    {
        if str_same(&rows[j].id, &rows[i].id) {
            return true;
        }
        j += 1;
    }
    false
}

fn context_paths(rows: &Vec<ContextRow>, id: &String) -> (r: Vec<String>)
    ensures
        texts(r) == context_paths_of(rows@, id@),
{
    let mut out: Vec<String> = Vec::new();
    let mut i: usize = 0;
    while i < rows.len()
        invariant
            i <= rows.len(),
            texts(out) == context_paths_of(rows@.take(i as int), id@),
        decreases rows.len() - i,
    {
        proof {
            assert(rows@.take(i + 1).drop_last() =~= rows@.take(i as int));
        }
        if str_same(&rows[i].id, id) {
            let ghost old_out = out;
            let p = crate::paths::logical_context_path(rows[i].filename.as_str());
            out.push(p);
            proof {
                assert(texts(out) =~= texts(old_out).push(p@));
            }
        }
        i += 1;
    }
    assert(rows@.take(rows.len() as int) =~= rows@);
    out
}

pub open spec fn all_contexts_match(c: Seq<crate::store::ScannedContext>, rows: Seq<ContextRow>) -> bool {
    c.len() == rows.len() && forall|i: int|
        0 <= i < c.len() ==> crate::store::context_matches_row(#[trigger] c[i], rows[i])
}

/// Reads the context rows (in query order).
pub fn scan_context_rows(rows: &Vec<ContextRow>) -> (r: (
    Vec<crate::store::ScannedContext>,
    Vec<(String, GraphProblem)>,
))
    ensures
        all_contexts_match(r.0@, context_phase(rows@, rows.len() as int).0),
        keyed_view(r.1@) == context_phase(rows@, rows.len() as int).1,
{
    let mut ok: Vec<crate::store::ScannedContext> = Vec::new();
    let mut probs: Vec<(String, GraphProblem)> = Vec::new();
    let mut i: usize = 0;
    while i < rows.len()
        invariant
            i <= rows.len(),
            all_contexts_match(ok@, context_phase(rows@, i as int).0),
            keyed_view(probs@) == context_phase(rows@, i as int).1,
        decreases rows.len() - i,
    {
        let ghost before = probs@;
        if context_seen(rows, i) {
            let paths = sort_texts(&context_paths(rows, &rows[i].id), true);
            let prob = GraphProblem::DuplicateContextDocument { id: rows[i].id.clone(), paths };
            let ghost pv = problem_view(prob);
            probs.push((rows[i].id.clone(), prob));
            proof {
                assert(keyed_view(probs@) =~= keyed_view(before).push((rows@[i as int].id@, pv)));
            }
        } else {
            match crate::store::scanned_context_from_raw(&rows[i]) {
                Ok(c) => {
                    let ghost old_ok = ok@;
                    ok.push(c);
                    proof {
                        assert forall|k: int| 0 <= k < ok@.len() implies crate::store::context_matches_row(
                            #[trigger] ok@[k],
                            context_phase(rows@, i + 1).0[k],
                        ) by {
                            if k < old_ok.len() {
                                assert(ok@[k] == old_ok[k]);
                            }
                        }
                    }
                },
                Err(p) => {
                    let ghost pv = problem_view(p);
                    probs.push((rows[i].id.clone(), p));
                    proof {
                        assert(keyed_view(probs@) =~= keyed_view(before).push((rows@[i as int].id@, pv)));
                    }
                },
            }
        }
        i += 1;
    }
    (ok, probs)
}

// ---------------------------------------------------------------------------
// edges and cycles
// ---------------------------------------------------------------------------

/// A parent → child edge among the usable placements.
pub open spec fn has_edge(ok: Seq<PlacementView>, a: Seq<char>, b: Seq<char>) -> bool {
    exists|i: int| 0 <= i < ok.len() && (#[trigger] ok[i]).2 == Some(a) && ok[i].1 == b
}

/// A walk along parent → child edges.
pub open spec fn is_walk(ok: Seq<PlacementView>, w: Seq<Seq<char>>) -> bool {
    &&& w.len() >= 2
    &&& forall|i: int| 0 <= i < w.len() - 1 ==> has_edge(ok, #[trigger] w[i], w[i + 1])
}

/// `b` is a proper descendant of `a`.
pub open spec fn reaches(ok: Seq<PlacementView>, a: Seq<char>, b: Seq<char>) -> bool {
    exists|w: Seq<Seq<char>>| #[trigger] is_walk(ok, w) && w[0] == a && w.last() == b
}

pub open spec fn strictly_increasing(v: Seq<Seq<char>>) -> bool {
    forall|i: int, j: int| 0 <= i < j < v.len() ==> chars_lt(#[trigger] v[i], #[trigger] v[j])
}

pub open spec fn char_texts(v: Seq<Vec<char>>) -> Seq<Seq<char>> {
    v.map_values(|c: Vec<char>| c@)
}

fn copy_chars(v: &Vec<char>) -> (r: Vec<char>)
    ensures
        r@ == v@,
{
    let r = crate::text::slice_vec(v.as_slice(), 0, v.len());
    assert(v@.subrange(0, v.len() as int) =~= v@);
    r
}

fn contains_text(v: &Vec<Vec<char>>, x: &Vec<char>) -> (r: bool)
    ensures
        r == char_texts(v@).contains(x@),
{
    let mut i: usize = 0;
    while i < v.len()
        invariant
            i <= v.len(),
            forall|k: int| 0 <= k < i ==> (#[trigger] v@[k])@ != x@,
        decreases v.len() - i,
    {
        if chars_eq(v[i].as_slice(), x.as_slice()) {
            assert(char_texts(v@)[i as int] == x@);
            return true;
        }
        i += 1;
    }
    proof {
        if char_texts(v@).contains(x@) {
            let k = choose|k: int| 0 <= k < char_texts(v@).len() && char_texts(v@)[k] == x@;
            assert(v@[k]@ == x@);
        }
    }
    false
}

/// Adds `x` to a strictly increasing list, unless it is there.
fn insert_sorted(v: &mut Vec<Vec<char>>, x: Vec<char>)
    requires
        strictly_increasing(char_texts(old(v)@)),
    ensures
        strictly_increasing(char_texts(final(v)@)),
        forall|i: int| 0 <= i < final(v)@.len() ==> (#[trigger] final(v)@[i])@ == x@ || char_texts(old(v)@).contains(final(v)@[i]@),
        char_texts(final(v)@).contains(x@),
{
    let mut k: usize = 0;
    while k < v.len() && chars_less(v[k].as_slice(), x.as_slice())
        invariant
            k <= v.len(),
            strictly_increasing(char_texts(v@)),
            forall|j: int| 0 <= j < k ==> chars_lt((#[trigger] v@[j])@, x@),
        decreases v.len() - k,
    {
        k += 1;
    }
    if k < v.len() && chars_eq(v[k].as_slice(), x.as_slice()) {
        proof {
            assert(char_texts(v@)[k as int] == x@);
            assert forall|i: int| 0 <= i < v@.len() implies (#[trigger] v@[i])@ == x@ || char_texts(v@).contains(v@[i]@) by {
                assert(char_texts(v@)[i] == v@[i]@);
            }
        }
        return;
    }
    let ghost old_v = char_texts(v@);
    proof {
        if k < v.len() {
            crate::order::lemma_lt_total(v@[k as int]@, x@);
            assert(old_v[k as int] == v@[k as int]@);
        }
        assert forall|m: int| k <= m < old_v.len() implies chars_lt(x@, #[trigger] old_v[m]) by {
            if m > k {
                crate::order::lemma_lt_transitive(x@, old_v[k as int], old_v[m]);
            }
        }
    }
    let ghost xv = x@;
    v.insert(k, x);
    proof {
        let nv = char_texts(v@);
        assert(nv[k as int] == xv);
        assert forall|i: int| 0 <= i < v@.len() implies (#[trigger] v@[i])@ == xv || old_v.contains(v@[i]@) by {
            if i < k {
                assert(nv[i] == old_v[i]);
            } else if i > k {
                assert(nv[i] == old_v[i - 1]);
            }
        }
        assert forall|i: int, j: int| 0 <= i < j < nv.len() implies chars_lt(#[trigger] nv[i], #[trigger] nv[j]) by {
            if j < k {
                assert(nv[i] == old_v[i] && nv[j] == old_v[j]);
            } else if j == k {
                assert(nv[i] == old_v[i]);
            } else if i == k {
                assert(nv[j] == old_v[j - 1]);
                assert(chars_lt(x@, old_v[j - 1]));
            } else if i < k {
                assert(nv[i] == old_v[i] && nv[j] == old_v[j - 1]);
                assert(chars_lt(x@, old_v[j - 1]));
                crate::order::lemma_lt_transitive(nv[i], x@, nv[j]);
            } else {
                assert(nv[i] == old_v[i - 1] && nv[j] == old_v[j - 1]);
            }
        }
    }
}

/// The children of `id` along usable placements, in placement order.
pub open spec fn child_ids(gp: Seq<PlacementView>, id: Seq<char>) -> Seq<Seq<char>>
    decreases gp.len(),
{
    if gp.len() == 0 {
        Seq::empty()
    } else {
        let prev = child_ids(gp.drop_last(), id);
        if gp.last().2 == Some(id) {
            prev.push(gp.last().1)
        } else {
            prev
        }
    }
}

/// The children of `id` along usable placements, by id.
fn children_of(ok: &Vec<ScannedPlacement>, id: &Vec<char>) -> (r: Vec<Vec<char>>)
    ensures
        char_texts(r@) == texts_sorted(child_ids(placement_views(ok@), id@), false),
        forall|k: int| 0 <= k < r@.len() ==> has_edge(placement_views(ok@), id@, (#[trigger] r@[k])@),
        forall|b: Seq<char>| #[trigger] has_edge(placement_views(ok@), id@, b) ==> char_texts(r@).contains(b),
{
    let ghost gp = placement_views(ok@);
    let mut found: Vec<String> = Vec::new();
    let mut i: usize = 0;
    while i < ok.len()
        invariant
            i <= ok.len(),
            gp == placement_views(ok@),
            texts(found) == child_ids(gp.take(i as int), id@),
            forall|k: int| 0 <= k < found@.len() ==> has_edge(gp, id@, (#[trigger] found@[k])@),
        decreases ok.len() - i,
    {
        assert(gp[i as int] == ok@[i as int].view());
        assert(gp.take(i + 1).drop_last() =~= gp.take(i as int));
        assert(gp.take(i + 1).last() == gp[i as int]);
        let ghost before = texts(found);
        match &ok[i].parent_id {
            Some(pid) => {
                if chars_eq(chars_of(pid.as_str()).as_slice(), id.as_slice()) {
                    found.push(ok[i].node_id.clone());
                    proof {
                        assert(gp[i as int].2 == Some(id@) && gp[i as int].1 == ok@[i as int].node_id@);
                        assert(texts(found) =~= before.push(ok@[i as int].node_id@));
                    }
                } else {
                    assert(gp[i as int].2 != Some(id@));
                }
            },
            None => {},
        }
        i += 1;
    }
    assert(gp.take(ok.len() as int) =~= gp);
    let sorted = sort_texts(&found, false);
    let mut out: Vec<Vec<char>> = Vec::new();
    let mut j: usize = 0;
    while j < sorted.len()
        invariant
            j <= sorted.len(),
            out@.len() == j,
            forall|k: int| 0 <= k < sorted@.len() ==> texts(found).contains((#[trigger] sorted@[k])@),
            forall|k: int| 0 <= k < found@.len() ==> has_edge(gp, id@, (#[trigger] found@[k])@),
            forall|k: int| 0 <= k < j ==> (#[trigger] out@[k])@ == sorted@[k]@,
        decreases sorted.len() - j,
    {
        out.push(chars_of(sorted[j].as_str()));
        j += 1;
    }
    assert(char_texts(out@) =~= texts(sorted)) by {
        assert forall|k: int| 0 <= k < out@.len() implies char_texts(out@)[k] == texts(sorted)[k] by {
            assert(texts(sorted)[k] == sorted@[k]@);
        }
    }
    assert forall|k: int| 0 <= k < out@.len() implies has_edge(gp, id@, (#[trigger] out@[k])@) by {
        assert(texts(found).contains(sorted@[k]@));
        let m = choose|m: int| 0 <= m < texts(found).len() && texts(found)[m] == sorted@[k]@;
        assert(texts(found)[m] == found@[m]@);
    }
    assert forall|b: Seq<char>| #[trigger] has_edge(gp, id@, b) implies char_texts(out@).contains(b) by {
        let ts = texts(found);
        lemma_child_ids_has(gp, id@, b);
        let m = choose|m: int| 0 <= m < ts.len() && ts[m] == b;
        assert(ts.len() == found.len());
        let keys = ts.map_values(|t: Seq<char>| text_key(t, false));
        let sp = sorted_by(keys);
        let pm = permuted(ts, sp);
        crate::order::lemma_permuted_once(ts, keys, m);
        let j = choose|j: int| 0 <= j < sp.len() && sp[j] as int == m && #[trigger] pm[j] == ts[m];
        assert(pm == texts_sorted(ts, false));
        assert(char_texts(out@)[j] == b);
    }
    out
}

/// Every child along an edge from `id` is listed.
proof fn lemma_child_ids_has(gp: Seq<PlacementView>, id: Seq<char>, b: Seq<char>)
    requires
        has_edge(gp, id, b),
    ensures
        child_ids(gp, id).contains(b),
    decreases gp.len(),
{
    let i = choose|i: int| 0 <= i < gp.len() && (#[trigger] gp[i]).2 == Some(id) && gp[i].1 == b;
    if i == gp.len() - 1 {
        assert(child_ids(gp, id).last() == b);
    } else {
        assert(gp.drop_last()[i] == gp[i]);
        lemma_child_ids_has(gp.drop_last(), id, b);
        let m = choose|m: int| 0 <= m < child_ids(gp.drop_last(), id).len() && child_ids(gp.drop_last(), id)[m] == b;
        assert(child_ids(gp, id)[m] == b);
    }
}

/// `w` closes a cycle through `x`: a walk from `x` back to `x`.
proof fn lemma_stack_cycle(gp: Seq<PlacementView>, ids: Seq<Seq<char>>, p: int, x: Seq<char>)
    requires
        0 <= p < ids.len(),
        ids[p] == x,
        forall|k: int| 0 <= k < ids.len() - 1 ==> has_edge(gp, #[trigger] ids[k], ids[k + 1]),
        has_edge(gp, ids.last(), x),
    ensures
        reaches(gp, x, x),
{
    let w = ids.subrange(p, ids.len() as int).push(x);
    assert forall|i: int| 0 <= i < w.len() - 1 implies has_edge(gp, #[trigger] w[i], w[i + 1]) by {
        if i < w.len() - 2 {
            assert(w[i] == ids[p + i] && w[i + 1] == ids[p + i + 1]);
        } else {
            assert(w[i] == ids.last());
        }
    }
    assert(is_walk(gp, w));
    assert(w[0] == x && w.last() == x);
}

/// Each listed id has its children earlier in the list.
pub open spec fn closed_ranked(gp: Seq<PlacementView>, vt: Seq<Seq<char>>) -> bool {
    forall|i: int, b: Seq<char>|
        0 <= i < vt.len() && #[trigger] has_edge(gp, vt[i], b) ==> exists|j: int| 0 <= j < i && vt[j] == b
}

/// The ids a walk can meet: those of the placements and of the nodes.
pub open spec fn all_ids(gp: Seq<PlacementView>, nodes: Seq<ScannedNode>) -> Seq<Seq<char>> {
    gp.map_values(|p: PlacementView| p.1) + nodes.map_values(|n: ScannedNode| n.fields.id@)
}

/// How many ids of `u` are neither done nor on the walk.
pub open spec fn unseen(u: Set<Seq<char>>, done: Seq<Seq<char>>, walk: Seq<Seq<char>>) -> nat {
    u.difference(done.to_set()).difference(walk.to_set()).len()
}

proof fn lemma_unseen_push(u: Set<Seq<char>>, done: Seq<Seq<char>>, walk: Seq<Seq<char>>, x: Seq<char>)
    requires
        u.finite(),
        u.contains(x),
        !done.contains(x),
        !walk.contains(x),
    ensures
        unseen(u, done, walk.push(x)) < unseen(u, done, walk),
{
    broadcast use vstd::set::group_set_axioms, vstd::seq_lib::group_seq_properties;

    let a = u.difference(done.to_set());
    let d0 = a.difference(walk.to_set());
    assert(a.difference(walk.push(x).to_set()) =~= d0.remove(x));
    assert(d0.contains(x));
}

proof fn lemma_unseen_pop(u: Set<Seq<char>>, done: Seq<Seq<char>>, walk: Seq<Seq<char>>)
    requires
        walk.len() > 0,
    ensures
        unseen(u, done.push(walk.last()), walk.drop_last()) == unseen(u, done, walk),
{
    broadcast use vstd::set::group_set_axioms, vstd::seq_lib::group_seq_properties;

    assert(walk =~= walk.drop_last().push(walk.last()));
    assert(u.difference(done.push(walk.last()).to_set()).difference(walk.drop_last().to_set()) =~= u.difference(
        done.to_set(),
    ).difference(walk.to_set()));
}

/// A walk from a listed id ends at an id listed before it.
proof fn lemma_ranked_walk(gp: Seq<PlacementView>, vt: Seq<Seq<char>>, w: Seq<Seq<char>>, i: int)
    requires
        closed_ranked(gp, vt),
        is_walk(gp, w),
        0 <= i < vt.len(),
        w[0] == vt[i],
    ensures
        exists|j: int| 0 <= j < i && vt[j] == w.last(),
    decreases w.len(),
{
    if w.len() == 2 {
        assert(has_edge(gp, w[0], w[1]));
        assert(has_edge(gp, vt[i], w[1]));
    } else {
        let w2 = w.drop_last();
        assert forall|k: int| 0 <= k < w2.len() - 1 implies has_edge(gp, #[trigger] w2[k], w2[k + 1]) by {
            assert(w2[k] == w[k] && w2[k + 1] == w[k + 1]);
        }
        lemma_ranked_walk(gp, vt, w2, i);
        let j1 = choose|j1: int| 0 <= j1 < i && vt[j1] == w2.last();
        assert(has_edge(gp, w[w.len() - 2], w[w.len() - 1]));
        assert(has_edge(gp, vt[j1], w.last()));
    }
}

/// No listed id lies on a cycle.
proof fn lemma_ranked_acyclic(gp: Seq<PlacementView>, vt: Seq<Seq<char>>, j: int)
    requires
        closed_ranked(gp, vt),
        0 <= j < vt.len(),
    ensures
        !reaches(gp, vt[j], vt[j]),
    decreases j,
{
    if reaches(gp, vt[j], vt[j]) {
        let w = choose|w: Seq<Seq<char>>| #[trigger] is_walk(gp, w) && w[0] == vt[j] && w.last() == vt[j];
        lemma_ranked_walk(gp, vt, w, j);
        let j2 = choose|j2: int| 0 <= j2 < j && vt[j2] == w.last();
        lemma_ranked_acyclic(gp, vt, j2);
    }
}

/// Cycles found by a depth-first walk from each node in id order, children
/// in id order: the ids met again while still on the walk, each once, by id.
/// Each lies on a cycle of parent → child edges, and where some node
/// reaches a cycle at least one is found.
pub fn detect_cycles(nodes: &Vec<ScannedNode>, ok: &Vec<ScannedPlacement>) -> (r: Vec<GraphProblem>)
    ensures
        forall|i: int| 0 <= i < r@.len() ==> (#[trigger] r@[i]) is CycleDetected,
        strictly_increasing(
            r@.map_values(|p: GraphProblem| problem_view(p).1),
        ),
        forall|i: int| 0 <= i < r@.len() ==> reaches(placement_views(ok@), problem_view(#[trigger] r@[i]).1, problem_view(r@[i]).1),
        (exists|m: int, x: Seq<char>|
            0 <= m < nodes@.len() && #[trigger] reaches(placement_views(ok@), nodes@[m].fields.id@, x) && reaches(
                placement_views(ok@),
                x,
                x,
            )) ==> r@.len() > 0,
{
    let ghost gp = placement_views(ok@);
    let ghost u = all_ids(gp, nodes@).to_set();
    proof {
        vstd::seq_lib::seq_to_set_is_finite(all_ids(gp, nodes@));
    }
    let mut visited: Vec<Vec<char>> = Vec::new();
    let mut cycles: Vec<Vec<char>> = Vec::new();
    let mut n: usize = 0;
    while n < nodes.len()
        invariant
            n <= nodes.len(),
            gp == placement_views(ok@),
            u == all_ids(gp, nodes@).to_set(),
            u.finite(),
            strictly_increasing(char_texts(cycles@)),
            forall|c: int| 0 <= c < cycles@.len() ==> reaches(gp, (#[trigger] cycles@[c])@, cycles@[c]@),
            forall|m: int| 0 <= m < n ==> char_texts(visited@).contains((#[trigger] nodes@[m]).fields.id@),
            cycles@.len() == 0 ==> closed_ranked(gp, char_texts(visited@)),
        decreases nodes.len() - n,
    {
        let root = chars_of(nodes[n].fields.id.as_str());
        let ghost rv = root@;
        proof {
            assert(all_ids(gp, nodes@)[gp.len() + n] == rv);
        }
        if !contains_text(&visited, &root) {
            let mut ids: Vec<Vec<char>> = Vec::new();
            let mut kids: Vec<Vec<Vec<char>>> = Vec::new();
            let mut next: Vec<usize> = Vec::new();
            kids.push(children_of(ok, &root));
            ids.push(root);
            next.push(0);
            while ids.len() > 0
                invariant
                    ids.len() == kids.len(),
                    kids.len() == next.len(),
                    gp == placement_views(ok@),
                    u == all_ids(gp, nodes@).to_set(),
                    u.finite(),
                    forall|k: int| 0 <= k < next.len() ==> #[trigger] next@[k] <= kids@[k].len(),
                    strictly_increasing(char_texts(cycles@)),
                    forall|c: int| 0 <= c < cycles@.len() ==> reaches(gp, (#[trigger] cycles@[c])@, cycles@[c]@),
                    forall|k: int| 0 <= k < ids@.len() - 1 ==> has_edge(gp, (#[trigger] ids@[k])@, ids@[k + 1]@),
                    forall|k: int, c: int|
                        0 <= k < kids@.len() && 0 <= c < kids@[k].len() ==> has_edge(gp, ids@[k]@, (#[trigger] kids@[k][c])@),
                    forall|k: int, b: Seq<char>|
                        0 <= k < ids.len() && #[trigger] has_edge(gp, ids@[k]@, b) ==> char_texts(kids@[k]@).contains(b),
                    forall|k: int| 0 <= k < ids.len() ==> u.contains((#[trigger] ids@[k])@),
                    forall|k: int|
                        0 <= k < ids.len() - 1 ==> #[trigger] next@[k] >= 1 && kids@[k][next@[k] - 1]@ == ids@[k + 1]@,
                    ids.len() > 0 ==> ids@[0]@ == rv,
                    ids.len() == 0 ==> char_texts(visited@).contains(rv),
                    forall|m: int| 0 <= m < n ==> char_texts(visited@).contains((#[trigger] nodes@[m]).fields.id@),
                    cycles@.len() == 0 ==> closed_ranked(gp, char_texts(visited@)),
                    cycles@.len() == 0 ==> forall|k: int, c: int|
                        0 <= k < ids.len() && 0 <= c < next@[k] ==> char_texts(visited@).contains((#[trigger] kids@[k][c])@) || (
                        k + 1 < ids.len() && c == next@[k] - 1),
                decreases
                    unseen(u, char_texts(visited@), char_texts(ids@)),
                    ids.len(),
                    (if ids.len() > 0 {
                        kids@[ids.len() - 1].len() - next@[ids.len() - 1]
                    } else {
                        0
                    }),
            {
                let top = ids.len() - 1;
                if next[top] < kids[top].len() {
                    let child = copy_chars(&kids[top][next[top]]);
                    let step = next[top] + 1;
                    let ghost kids_now = kids@;
                    let ghost old_next = next@;
                    next.set(top, step);
                    proof {
                        assert(has_edge(gp, ids@[top as int]@, child@));
                    }
                    if contains_text(&visited, &child) {
                        proof {
                            assert(kids@[top as int][old_next[top as int] as int]@ == child@);
                        }
                    } else if contains_text(&ids, &child) {
                        proof {
                            let tx = char_texts(ids@);
                            let p = choose|p: int| 0 <= p < tx.len() && tx[p] == child@;
                            assert forall|k: int| 0 <= k < tx.len() - 1 implies has_edge(gp, #[trigger] tx[k], tx[k + 1]) by {
                                assert(tx[k] == ids@[k]@ && tx[k + 1] == ids@[k + 1]@);
                            }
                            assert(tx.last() == ids@[top as int]@);
                            lemma_stack_cycle(gp, tx, p, child@);
                        }
                        let ghost cyc_old = cycles@;
                        let ghost cv = child@;
                        insert_sorted(&mut cycles, child);
                        proof {
                            assert forall|c: int| 0 <= c < cycles@.len() implies reaches(gp, (#[trigger] cycles@[c])@, cycles@[c]@) by {
                                if cycles@[c]@ != cv {
                                    let m = choose|m: int| 0 <= m < char_texts(cyc_old).len() && char_texts(cyc_old)[m] == cycles@[c]@;
                                    assert(cyc_old[m]@ == cycles@[c]@);
                                }
                            }
                        }
                    } else {
                        let ghost ids_old = ids@;
                        let ghost kids_old = kids@;
                        let ghost next_old = next@;
                        let ghost cv = child@;
                        proof {
                            let i0 = choose|i0: int| 0 <= i0 < gp.len() && (#[trigger] gp[i0]).2 == Some(ids@[top as int]@) && gp[i0].1 == cv;
                            assert(all_ids(gp, nodes@)[i0] == cv);
                            lemma_unseen_push(u, char_texts(visited@), char_texts(ids@), cv);
                            assert(char_texts(ids@.push(child)) =~= char_texts(ids@).push(cv));
                        }
                        kids.push(children_of(ok, &child));
                        ids.push(child);
                        next.push(0);
                        proof {
                            assert forall|k: int| 0 <= k < ids@.len() - 1 implies has_edge(gp, (#[trigger] ids@[k])@, ids@[k + 1]@) by {
                                if k < ids_old.len() - 1 {
                                    assert(ids@[k] == ids_old[k] && ids@[k + 1] == ids_old[k + 1]);
                                } else {
                                    assert(ids@[k] == ids_old[top as int]);
                                    assert(ids@[k + 1]@ == cv);
                                }
                            }
                            assert forall|k: int, c: int|
                                0 <= k < kids@.len() && 0 <= c < kids@[k].len() implies has_edge(gp, ids@[k]@, (#[trigger] kids@[k][c])@) by {
                                if k < kids_old.len() {
                                    assert(kids@[k] == kids_old[k] && ids@[k] == ids_old[k]);
                                }
                            }
                            assert forall|k: int, b: Seq<char>|
                                0 <= k < ids.len() && #[trigger] has_edge(gp, ids@[k]@, b) implies char_texts(kids@[k]@).contains(b) by {
                                if k < ids_old.len() {
                                    assert(kids@[k] == kids_old[k] && ids@[k] == ids_old[k]);
                                }
                            }
                            assert forall|k: int| 0 <= k < ids.len() implies u.contains((#[trigger] ids@[k])@) by {
                                if k < ids_old.len() {
                                    assert(ids@[k] == ids_old[k]);
                                }
                            }
                            assert forall|k: int| 0 <= k < ids.len() - 1 implies #[trigger] next@[k] >= 1 && kids@[k][next@[k] - 1]@ == ids@[k + 1]@ by {
                                assert(next@[k] == next_old[k] && kids@[k] == kids_old[k] && ids@[k] == ids_old[k]);
                                if k < top {
                                    assert(ids@[k + 1] == ids_old[k + 1]);
                                } else {
                                    assert(kids_old[k][next_old[k] - 1]@ == cv);
                                }
                            }
                            assert forall|k: int| 0 <= k < next.len() implies #[trigger] next@[k] <= kids@[k].len() by {
                                if k < next_old.len() {
                                    assert(next@[k] == next_old[k] && kids@[k] == kids_old[k]);
                                }
                            }
                            if cycles@.len() == 0 {
                                assert forall|k: int, c: int| 0 <= k < ids.len() && 0 <= c < next@[k] implies char_texts(visited@).contains(
                                    (#[trigger] kids@[k][c])@,
                                ) || (k + 1 < ids.len() && c == next@[k] - 1) by {
                                    if k < ids_old.len() {
                                        assert(next@[k] == next_old[k] && kids@[k] == kids_old[k]);
                                    }
                                }
                            }
                        }
                    }
                    proof {
                        if cycles@.len() == 0 {
                            assert forall|k: int, c: int| 0 <= k < ids.len() && 0 <= c < next@[k] implies char_texts(visited@).contains(
                                (#[trigger] kids@[k][c])@,
                            ) || (k + 1 < ids.len() && c == next@[k] - 1) by {
                                if k == top && c == old_next[k] && ids.len() == top + 1 {
                                    assert(kids@[k][c]@ == child@);
                                } else if k < top + 1 {
                                    assert(kids@[k] == kids_now[k]);
                                }
                            }
                        }
                    }
                } else {
                    let ghost ids_old = ids@;
                    let ghost kids_old = kids@;
                    let ghost next_old = next@;
                    let ghost vis_old = char_texts(visited@);
                    let ghost v = ids@[top as int]@;
                    proof {
                        lemma_unseen_pop(u, vis_old, char_texts(ids_old));
                        assert(char_texts(ids_old).last() == v);
                        assert(char_texts(ids_old).drop_last() =~= char_texts(ids_old.drop_last()));
                    }
                    kids.pop();
                    next.pop();
                    match ids.pop() {
                        Some(done) => visited.push(done),
                        None => {},
                    }
                    proof {
                        assert(ids@ == ids_old.drop_last());
                        assert(char_texts(visited@) =~= vis_old.push(v));
                        assert forall|k: int| 0 <= k < ids@.len() - 1 implies has_edge(gp, (#[trigger] ids@[k])@, ids@[k + 1]@) by {
                            assert(ids@[k] == ids_old[k] && ids@[k + 1] == ids_old[k + 1]);
                        }
                        assert forall|k: int, c: int|
                            0 <= k < kids@.len() && 0 <= c < kids@[k].len() implies has_edge(gp, ids@[k]@, (#[trigger] kids@[k][c])@) by {
                            assert(kids@[k] == kids_old[k] && ids@[k] == ids_old[k]);
                        }
                        assert forall|k: int, b: Seq<char>|
                            0 <= k < ids.len() && #[trigger] has_edge(gp, ids@[k]@, b) implies char_texts(kids@[k]@).contains(b) by {
                            assert(kids@[k] == kids_old[k] && ids@[k] == ids_old[k]);
                        }
                        assert forall|k: int| 0 <= k < ids.len() implies u.contains((#[trigger] ids@[k])@) by {
                            assert(ids@[k] == ids_old[k]);
                        }
                        assert forall|k: int| 0 <= k < ids.len() - 1 implies #[trigger] next@[k] >= 1 && kids@[k][next@[k] - 1]@ == ids@[k + 1]@ by {
                            assert(next@[k] == next_old[k] && kids@[k] == kids_old[k] && ids@[k] == ids_old[k] && ids@[k + 1] == ids_old[k + 1]);
                        }
                        assert forall|k: int| 0 <= k < next.len() implies #[trigger] next@[k] <= kids@[k].len() by {
                            assert(next@[k] == next_old[k] && kids@[k] == kids_old[k]);
                        }
                        assert forall|m: int| 0 <= m < n implies char_texts(visited@).contains((#[trigger] nodes@[m]).fields.id@) by {
                            let z = choose|z: int| 0 <= z < vis_old.len() && vis_old[z] == nodes@[m].fields.id@;
                            assert(char_texts(visited@)[z] == vis_old[z]);
                        }
                        if ids.len() == 0 {
                            assert(char_texts(visited@)[vis_old.len() as int] == rv);
                        }
                        if cycles@.len() == 0 {
                            let vt = char_texts(visited@);
                            assert forall|i: int, b: Seq<char>| 0 <= i < vt.len() && #[trigger] has_edge(gp, vt[i], b)
                                implies exists|j: int| 0 <= j < i && vt[j] == b by {
                                if i < vis_old.len() {
                                    assert(vt[i] == vis_old[i]);
                                    assert(has_edge(gp, vis_old[i], b));
                                    let j = choose|j: int| 0 <= j < i && vis_old[j] == b;
                                    assert(vt[j] == vis_old[j]);
                                } else {
                                    assert(vt[i] == v);
                                    assert(has_edge(gp, ids_old[top as int]@, b));
                                    let c = choose|c: int| 0 <= c < char_texts(kids_old[top as int]@).len() && char_texts(kids_old[top as int]@)[c] == b;
                                    assert(kids_old[top as int]@[c]@ == b);
                                    assert(vis_old.contains(kids_old[top as int][c]@));
                                    let j = choose|j: int| 0 <= j < vis_old.len() && vis_old[j] == b;
                                    assert(vt[j] == vis_old[j]);
                                }
                            }
                            assert forall|k: int, c: int| 0 <= k < ids.len() && 0 <= c < next@[k] implies vt.contains(
                                (#[trigger] kids@[k][c])@,
                            ) || (k + 1 < ids.len() && c == next@[k] - 1) by {
                                assert(next@[k] == next_old[k] && kids@[k] == kids_old[k]);
                                if c == next@[k] - 1 {
                                    if k + 1 == ids.len() {
                                        assert(kids_old[k][next_old[k] - 1]@ == ids_old[k + 1]@);
                                        assert(vt[vis_old.len() as int] == v);
                                    }
                                } else {
                                    let bb = kids_old[k][c]@;
                                    assert(vis_old.contains(bb));
                                    let z = choose|z: int| 0 <= z < vis_old.len() && vis_old[z] == bb;
                                    assert(vt[z] == vis_old[z]);
                                }
                            }
                        }
                    }
                }
            }
        }
        n += 1;
    }
    let mut out: Vec<GraphProblem> = Vec::new();
    let mut j: usize = 0;
    while j < cycles.len()
        invariant
            j <= cycles.len(),
            out@.len() == j,
            strictly_increasing(char_texts(cycles@)),
            forall|k: int| 0 <= k < j ==> (#[trigger] out@[k]) is CycleDetected && problem_view(out@[k]).1
                == cycles@[k]@,
            forall|c: int| 0 <= c < cycles@.len() ==> reaches(gp, (#[trigger] cycles@[c])@, cycles@[c]@),
            gp == placement_views(ok@),
        decreases cycles.len() - j,
    {
        out.push(GraphProblem::CycleDetected { node_id: string_of(cycles[j].as_slice()) });
        j += 1;
    }
    proof {
        let ids = out@.map_values(|p: GraphProblem| problem_view(p).1);
        assert(ids =~= char_texts(cycles@));
        assert forall|i: int| 0 <= i < out@.len() implies reaches(gp, problem_view(#[trigger] out@[i]).1, problem_view(out@[i]).1) by {
            assert(problem_view(out@[i]).1 == cycles@[i]@);
        }
        if cycles@.len() == 0 {
            let vt = char_texts(visited@);
            assert forall|m: int, x: Seq<char>|
                0 <= m < nodes@.len() && #[trigger] reaches(gp, nodes@[m].fields.id@, x) implies !reaches(gp, x, x) by {
                let i = choose|i: int| 0 <= i < vt.len() && vt[i] == nodes@[m].fields.id@;
                let w = choose|w: Seq<Seq<char>>| #[trigger] is_walk(gp, w) && w[0] == nodes@[m].fields.id@ && w.last() == x;
                lemma_ranked_walk(gp, vt, w, i);
                let j2 = choose|j2: int| 0 <= j2 < i && vt[j2] == w.last();
                lemma_ranked_acyclic(gp, vt, j2);
            }
        }
    }
    out
}

// ---------------------------------------------------------------------------
// the whole scan
// ---------------------------------------------------------------------------

/// What the scan found in a graph's rows.
#[derive(Debug, Clone)]
pub struct Scan {
    pub contexts: Vec<crate::store::ScannedContext>,
    pub context_problems: Vec<(String, GraphProblem)>,
    pub nodes: Vec<ScannedNode>,
    pub placements: Vec<ScannedPlacement>,
    pub problems: Vec<GraphProblem>,
    pub node_problems: Vec<(String, GraphProblem)>,
    /// The kept alternative answers, grouped by node.
    pub answers: Vec<(String, Vec<String>)>,
    /// One problem, with its node, for each refused alternative-answer row.
    pub answer_problems: Vec<(String, GraphProblem)>,
}

pub open spec fn query_nodes(t: Tables) -> Seq<NodeRow> {
    sorted_node_rows(t.nodes@)
}

pub open spec fn query_places(t: Tables) -> Seq<PlacementRow> {
    sorted_placement_rows(t.placements@)
}

pub open spec fn query_contexts(t: Tables) -> Seq<ContextRow> {
    sorted_context_rows(t.contexts@)
}

/// The node rows that make the graph's nodes, by id.
pub open spec fn graph_nodes(t: Tables) -> Seq<NodeRow> {
    node_phase(query_nodes(t), query_places(t), query_nodes(t).len() as int).0
}

/// The usable placements, by logical path.
pub open spec fn graph_places(t: Tables) -> Seq<PlacementView> {
    placement_phase(query_places(t), row_ids(t.nodes@), query_places(t).len() as int).0
}

/// The context rows that make the graph's context documents.
pub open spec fn graph_contexts(t: Tables) -> Seq<ContextRow> {
    context_phase(query_contexts(t), query_contexts(t).len() as int).0
}

/// The problems charged to context ids, in the order found.
pub open spec fn context_problem_list(t: Tables) -> KeyedProblems {
    context_phase(query_contexts(t), query_contexts(t).len() as int).1
}

/// The problems charged to node ids, in the order found: node rows,
/// placement rows, canonical placements, placement paths.
pub open spec fn node_problem_list(t: Tables) -> KeyedProblems {
    node_phase(query_nodes(t), query_places(t), query_nodes(t).len() as int).1 + placement_phase(
        query_places(t),
        row_ids(t.nodes@),
        query_places(t).len() as int,
    ).1 + canonical_phase(graph_nodes(t), graph_places(t), graph_nodes(t).len() as int)
        + child_path_phase(graph_nodes(t), graph_places(t), graph_places(t).len() as int)
}

/// `s` is the scan of `t`.
/// Some node of the graph reaches a cycle of parent → child edges.
pub open spec fn cycle_reachable(t: Tables) -> bool {
    exists|m: int, x: Seq<char>|
        0 <= m < graph_nodes(t).len() && #[trigger] reaches(graph_places(t), graph_nodes(t)[m].id@, x) && reaches(
            graph_places(t),
            x,
            x,
        )
}

/// The problems after `head` name nodes on cycles, in strictly increasing
/// id order, and there is one where some node reaches a cycle.
pub open spec fn cycle_problems(t: Tables, ps: Seq<ProblemView>, head: int) -> bool {
    &&& forall|i: int| head <= i < ps.len() ==> (#[trigger] ps[i]).0 == 7 && reaches(graph_places(t), ps[i].1, ps[i].1)
    &&& forall|i: int, j: int| head <= i < j < ps.len() ==> chars_lt((#[trigger] ps[i]).1, (#[trigger] ps[j]).1)
    &&& cycle_reachable(t) ==> ps.len() > head
}

#[verifier::opaque]
pub open spec fn scan_of(s: Scan, t: Tables) -> bool {
    &&& all_contexts_match(s.contexts@, graph_contexts(t))
    &&& keyed_view(s.context_problems@) == context_problem_list(t)
    &&& all_assembled(s.nodes@, graph_nodes(t), graph_places(t))
    &&& placement_views(s.placements@) == graph_places(t)
    &&& keyed_view(s.node_problems@) == node_problem_list(t)
    &&& problems_view(s.problems@).len() >= row_problems(t).len()
    &&& problems_view(s.problems@).take(row_problems(t).len() as int) == row_problems(t)
    &&& forall|i: int|
        row_problems(t).len() <= i < s.problems@.len()
            ==> (#[trigger] s.problems@[i]) is CycleDetected && reaches(
            graph_places(t),
            problem_view(s.problems@[i]).1,
            problem_view(s.problems@[i]).1,
        )
    &&& cycle_problems(t, problems_view(s.problems@), row_problems(t).len() as int)
    &&& crate::answers::groups_view(s.answers@) == crate::answers::grouped_answers(t.answers@, t.nodes@)
    &&& keyed_view(s.answer_problems@) == answer_problem_list(t)
}

/// One problem, with its node, for each refused alternative-answer row.
pub open spec fn answer_problem_list(t: Tables) -> KeyedProblems {
    crate::answers::answer_problems(t.answers@, t.nodes@, t.placements@, t.answers@.len() as int)
}

/// The problems of a graph's rows, in the order they are found: those of
/// context documents, of alternative answers, then of nodes and placements.
pub open spec fn row_problems(t: Tables) -> Seq<ProblemView> {
    unkeyed(context_problem_list(t)) + unkeyed(answer_problem_list(t)) + unkeyed(node_problem_list(t))
}

fn push_unkeyed(dst: &mut Vec<GraphProblem>, src: &Vec<(String, GraphProblem)>)
    ensures
        problems_view(final(dst)@) == problems_view(old(dst)@) + unkeyed(keyed_view(src@)),
{
    let ghost first = problems_view(dst@);
    let mut j: usize = 0;
    while j < src.len()
        invariant
            j <= src.len(),
            problems_view(dst@) == first + unkeyed(keyed_view(src@)).take(j as int),
        decreases src.len() - j,
    {
        let ghost old_p = dst@;
        let c = copy_problem(&src[j].1);
        dst.push(c);
        proof {
            assert(problems_view(dst@) =~= problems_view(old_p).push(problem_view(c)));
            assert(unkeyed(keyed_view(src@)).take(j + 1) =~= unkeyed(keyed_view(src@)).take(j as int).push(problem_view(src@[j as int].1)));
        }
        j += 1;
    }
    assert(unkeyed(keyed_view(src@)).take(src.len() as int) =~= unkeyed(keyed_view(src@)));
}

fn append_keyed(dst: &mut Vec<(String, GraphProblem)>, src: Vec<(String, GraphProblem)>)
    ensures
        keyed_view(final(dst)@) == keyed_view(old(dst)@) + keyed_view(src@),
{
    let mut src = src;
    let ghost s0 = keyed_view(src@);
    let ghost d0 = keyed_view(dst@);
    dst.append(&mut src);
    assert(keyed_view(dst@) =~= d0 + s0);
}

/// Reads a graph's rows.
#[verifier::rlimit(30)]
pub fn load_scan(t: &Tables) -> (s: Scan)
    ensures
        scan_of(s, *t),
{
    let contexts = sort_context_rows(&t.contexts);
    let nodes = sort_node_rows(&t.nodes);
    let places = sort_placement_rows(&t.placements);
    let (ctx, ctx_probs) = scan_context_rows(&contexts);
    let (fields, mut node_probs) = scan_node_rows(&nodes, &places);
    let (ok, place_probs) = scan_placement_rows(&places, &t.nodes);
    let ghost gn = graph_nodes(*t);
    let ghost gp = graph_places(*t);
    let scanned = assemble_nodes(fields, &ok, Ghost(gn));
    let canon_probs = canonical_problems(&scanned, Ghost(gn), Ghost(gp));
    let path_probs = child_path_problems(&scanned, &ok, Ghost(gn));
    append_keyed(&mut node_probs, place_probs);
    append_keyed(&mut node_probs, canon_probs);
    append_keyed(&mut node_probs, path_probs);
    let (answers, answer_problems) = crate::answers::group_alternative_answers(&t.answers, &t.nodes, &t.placements);
    proof {
        assert(keyed_view(answer_problems@) =~= crate::answers::node_problems_view(answer_problems@));
    }
    let mut problems: Vec<GraphProblem> = Vec::new();
    push_unkeyed(&mut problems, &ctx_probs);
    push_unkeyed(&mut problems, &answer_problems);
    push_unkeyed(&mut problems, &node_probs);
    let ghost head = problems@;
    let mut cycles = detect_cycles(&scanned, &ok);
    let ghost cyc = cycles@;
    problems.append(&mut cycles);
    proof {
        assert(keyed_view(ctx_probs@) == context_problem_list(*t));
        assert(keyed_view(node_probs@) =~= node_problem_list(*t));
        assert(problems_view(problems@).take(head.len() as int) =~= problems_view(head));
        assert forall|k: int| head.len() <= k < problems@.len() implies (#[trigger] problems@[k]) is CycleDetected
            && reaches(graph_places(*t), problem_view(problems@[k]).1, problem_view(problems@[k]).1) by {
            assert(problems@[k] == cyc[k - head.len()]);
        }
        let pv = problems_view(problems@);
        let h = head.len() as int;
        assert(problems_view(head) =~= row_problems(*t));
        assert(h == row_problems(*t).len());
        let cv = cyc.map_values(|p: GraphProblem| problem_view(p).1);
        assert forall|i: int| h <= i < pv.len() implies (#[trigger] pv[i]).0 == 7 && reaches(gp, pv[i].1, pv[i].1) by {
            assert(pv[i] == problem_view(problems@[i]));
            assert(problems@[i] == cyc[i - h]);
        }
        assert forall|i: int, j: int| h <= i < j < pv.len() implies chars_lt((#[trigger] pv[i]).1, (#[trigger] pv[j]).1) by {
            assert(pv[i] == problem_view(problems@[i]) && pv[j] == problem_view(problems@[j]));
            assert(problems@[i] == cyc[i - h] && problems@[j] == cyc[j - h]);
            assert(cv[i - h] == problem_view(cyc[i - h]).1 && cv[j - h] == problem_view(cyc[j - h]).1);
        }
        if cycle_reachable(*t) {
            let (m, x) = choose|m: int, x: Seq<char>|
                0 <= m < graph_nodes(*t).len() && #[trigger] reaches(graph_places(*t), graph_nodes(*t)[m].id@, x) && reaches(
                    graph_places(*t),
                    x,
                    x,
                );
            assert(node_assembled(scanned@[m], gn[m], placement_views(ok@)));
            assert(reaches(placement_views(ok@), scanned@[m].fields.id@, x));
            assert(cyc.len() > 0);
        }
        assert(cycle_problems(*t, pv, h));
    }
    let s = Scan {
        contexts: ctx,
        context_problems: ctx_probs,
        nodes: scanned,
        placements: ok,
        problems,
        node_problems: node_probs,
        answers,
        answer_problems,
    };
    proof {
        reveal(scan_of);
    }
    s
}

pub proof fn lemma_scan_nodes(s: Scan, t: Tables)
    requires
        scan_of(s, t),
    ensures
        all_assembled(s.nodes@, graph_nodes(t), graph_places(t)),
        placement_views(s.placements@) == graph_places(t),
{
    reveal(scan_of);
}

pub proof fn lemma_scan_node_problems(s: Scan, t: Tables)
    requires
        scan_of(s, t),
    ensures
        keyed_view(s.node_problems@) == node_problem_list(t),
{
    reveal(scan_of);
}

pub proof fn lemma_scan_contexts(s: Scan, t: Tables)
    requires
        scan_of(s, t),
    ensures
        all_contexts_match(s.contexts@, graph_contexts(t)),
        keyed_view(s.context_problems@) == context_problem_list(t),
{
    reveal(scan_of);
}

pub proof fn lemma_scan_problems(s: Scan, t: Tables)
    requires
        scan_of(s, t),
    ensures
        problems_view(s.problems@).len() >= row_problems(t).len(),
        problems_view(s.problems@).take(row_problems(t).len() as int) == row_problems(t),
        forall|i: int|
            row_problems(t).len() <= i < s.problems@.len()
                ==> (#[trigger] s.problems@[i]) is CycleDetected && reaches(
                graph_places(t),
                problem_view(s.problems@[i]).1,
                problem_view(s.problems@[i]).1,
            ),
        cycle_problems(t, problems_view(s.problems@), row_problems(t).len() as int),
{
    reveal(scan_of);
}

} // verus!
