//! The SQLite backend's graph: the rows of one graph namespace, read and
//! changed as the backend's transactions do. The caller loads the rows of
//! a namespace, calls an operation, and stores the rows back.
use vstd::prelude::*;

use crate::decimal::{decimal, decimal_chars};
use crate::graph::{
    canon, child_error, error_view, has_node, node_error, node_index_of, parent_error,
    simple_error, ErrorView,
};
use crate::ids::{new_uuid_v4, uuid_shape, valid_title, validate_graph_name, validate_title};
use crate::markdown::{content_parts, kind_of};
use crate::model::{GraphError, NewNode, NodeContent, NodeKind};
use crate::paths::{moved_path, path_after_subtree_move};
use crate::scan::{graph_nodes, graph_places, placement_views, scan_of, str_same, Scan};
use crate::slug::{slug_of, slugify};
use crate::store::{copy_opt, opt_view, ContextRow, NodeRow, PlacementRow, Tables};
use crate::text::{chars_of, is_blank, push_chars, push_str, string_from_str, string_of};

verus! {

/// A graph namespace: its name and its rows.
#[derive(Debug, Clone)]
pub struct IdeaGraph {
    pub graph_name: String,
    pub tables: Tables,
}

/// An error of the SQLite backend: the graph error it carries.
#[derive(Debug)]
pub struct Error {
    source: GraphError,
}

impl Error {
    /// The graph error carried.
    pub closed spec fn graph_error(&self) -> GraphError {
        self.source
    }

    pub fn as_graph_error(&self) -> (r: &GraphError)
        ensures
            *r == self.graph_error(),
    {
        &self.source
    }

    pub fn into_graph_error(self) -> (r: GraphError)
        ensures
            r == self.graph_error(),
    {
        self.source
    }

    /// The display text: that of the graph error.
    pub fn message(&self) -> (r: String)
        ensures
            r@ == crate::model::error_message(self.graph_error()),
    {
        self.source.message()
    }
}

impl From<GraphError> for Error {
    fn from(source: GraphError) -> (r: Self) {
        Error { source }
    }
}

impl vstd::std_specs::convert::FromSpecImpl<GraphError> for Error {
    open spec fn obeys_from_spec() -> bool {
        true
    }

    closed spec fn from_spec(v: GraphError) -> Self {
        Error { source: v }
    }
}

/// Wrapping a graph error and taking it out again gives it back.
pub broadcast proof fn lemma_error_wraps(e: GraphError)
    ensures
        #[trigger] <Error as vstd::std_specs::convert::FromSpec<GraphError>>::from_spec(e).graph_error() == e,
{
}

// ---------------------------------------------------------------------------
// rows as plain values
// ---------------------------------------------------------------------------

/// Row id, node id, parent id, slug, logical path, canonical flag.
pub type PlacementRowView = (i64, Seq<char>, Option<Seq<char>>, Seq<char>, Seq<char>, i64);

pub open spec fn prow(r: PlacementRow) -> PlacementRowView {
    (r.row_id, r.node_id@, opt_view(r.parent_id), r.slug@, r.logical_path@, r.is_canonical)
}

pub open spec fn prows(v: Seq<PlacementRow>) -> Seq<PlacementRowView> {
    v.map_values(|r: PlacementRow| prow(r))
}

/// Id, kind, title, statement body, question, answer, created, updated,
/// reviewed flag.
pub type NodeRowView = (Seq<char>, Seq<char>, Seq<char>, Option<Seq<char>>, Option<Seq<char>>, Option<Seq<char>>, i64, i64, i64);

pub open spec fn nrow(r: NodeRow) -> NodeRowView {
    (
        r.id@,
        r.kind@,
        r.title@,
        opt_view(r.statement_body),
        opt_view(r.qa_question),
        opt_view(r.qa_answer),
        r.created_at_unix,
        r.updated_at_unix,
        r.reviewed,
    )
}

pub open spec fn nrows(v: Seq<NodeRow>) -> Seq<NodeRowView> {
    v.map_values(|r: NodeRow| nrow(r))
}

/// Id, slug, file name, title, Markdown, created, updated.
pub type ContextRowView = (Seq<char>, Seq<char>, Seq<char>, Seq<char>, Seq<char>, i64, i64);

pub open spec fn crow(r: ContextRow) -> ContextRowView {
    (r.id@, r.slug@, r.filename@, r.title@, r.markdown@, r.created_at_unix, r.updated_at_unix)
}

pub open spec fn crows(v: Seq<ContextRow>) -> Seq<ContextRowView> {
    v.map_values(|r: ContextRow| crow(r))
}

/// The rows of `a` and `b` are the same values.
pub open spec fn same_rows(a: Tables, b: Tables) -> bool {
    &&& nrows(a.nodes@) == nrows(b.nodes@)
    &&& prows(a.placements@) == prows(b.placements@)
    &&& crows(a.contexts@) == crows(b.contexts@)
}

// ---------------------------------------------------------------------------
// placement rows
// ---------------------------------------------------------------------------

/// A row id above every stored one.
pub open spec fn fresh_row_id(ps: Seq<PlacementRow>, n: i64) -> bool {
    forall|i: int| 0 <= i < ps.len() ==> (#[trigger] ps[i]).row_id < n
}

/// Some placement row already has the largest row id there is.
pub open spec fn row_ids_exhausted(ps: Seq<PlacementRow>) -> bool {
    exists|i: int| 0 <= i < ps.len() && (#[trigger] ps[i]).row_id == i64::MAX
}

pub open spec fn row_id_error() -> ErrorView {
    simple_error(1, "placement row ids are exhausted"@)
}

/// The next row id: one above the largest, or 1.
pub fn next_row_id(ps: &Vec<PlacementRow>) -> (r: Result<i64, GraphError>)
    ensures
        match r {
            Ok(n) => fresh_row_id(ps@, n) && n >= 1 && !row_ids_exhausted(ps@) && (n == 1 || exists|i: int|
                0 <= i < ps@.len() && (#[trigger] ps@[i]).row_id == n - 1),
            Err(e) => row_ids_exhausted(ps@) && error_view(e) == row_id_error(),
        },
{
    let mut max: i64 = 0;
    let mut at: Option<usize> = None;
    let mut i: usize = 0;
    while i < ps.len()
        invariant
            i <= ps.len(),
            max >= 0,
            forall|k: int| 0 <= k < i ==> (#[trigger] ps@[k]).row_id <= max,
            match at {
                Some(a) => a < i && ps@[a as int].row_id == max,
                None => max == 0,
            },
        decreases ps.len() - i,
    {
        if ps[i].row_id > max {
            max = ps[i].row_id;
            at = Some(i);
        }
        i += 1;
    }
    if max == i64::MAX {
        proof {
            let a = at->0;
            assert(ps@[a as int].row_id == i64::MAX);
        }
        return Err(GraphError::Storage(string_from_str("placement row ids are exhausted")));
    }
    proof {
        reveal_strlit("placement row ids are exhausted");
        if let Some(a) = at {
            assert(ps@[a as int].row_id == (max + 1) - 1);
        }
    }
    Ok(max + 1)
}

/// Path `p` is held by a placement row or is reserved.
pub open spec fn path_taken(ps: Seq<PlacementRow>, res: Seq<String>, p: Seq<char>) -> bool {
    ||| exists|i: int| 0 <= i < ps.len() && (#[trigger] ps[i]).logical_path@ == p
    ||| exists|i: int| 0 <= i < res.len() && (#[trigger] res[i])@ == p
}

/// The slug with the `k`th suffix (none for the first).
pub open spec fn suffixed_slug(base: Seq<char>, k: nat) -> Seq<char> {
    if k == 1 {
        base
    } else {
        base + seq!['-'] + decimal(k)
    }
}

/// The logical path of a node entry in `container`.
pub open spec fn entry_path(container: Seq<char>, slug: Seq<char>, id: Seq<char>) -> Seq<char> {
    container + seq!['/'] + slug + "--"@ + id
}

/// `k` is the first suffix whose path is free.
pub open spec fn first_free(ps: Seq<PlacementRow>, res: Seq<String>, container: Seq<char>, base: Seq<char>, id: Seq<char>, k: nat) -> bool {
    &&& k >= 1
    &&& !path_taken(ps, res, entry_path(container, suffixed_slug(base, k), id))
    &&& forall|j: nat| 1 <= j < k ==> #[trigger] path_taken(ps, res, entry_path(container, suffixed_slug(base, j), id))
}

fn taken(ps: &Vec<PlacementRow>, res: &Vec<String>, p: &String) -> (r: bool)
    ensures
        r == path_taken(ps@, res@, p@),
{
    let mut i: usize = 0;
    while i < ps.len()
        invariant
            i <= ps.len(),
            forall|k: int| 0 <= k < i ==> (#[trigger] ps@[k]).logical_path@ != p@,
        decreases ps.len() - i,
    {
        if str_same(&ps[i].logical_path, p) {
            return true;
        }
        i += 1;
    }
    let mut j: usize = 0;
    while j < res.len()
        invariant
            j <= res.len(),
            forall|k: int| 0 <= k < ps.len() ==> (#[trigger] ps@[k]).logical_path@ != p@,
            forall|k: int| 0 <= k < j ==> (#[trigger] res@[k])@ != p@,
        decreases res.len() - j,
    {
        if str_same(&res[j], p) {
            return true;
        }
        j += 1;
    }
    false
}

/// Every suffix a path can take for node `id` in `container` is in use.
pub open spec fn all_suffixes_taken(ps: Seq<PlacementRow>, res: Seq<String>, container: Seq<char>, base: Seq<char>, id: Seq<char>) -> bool {
    forall|j: nat| 1 <= j <= usize::MAX ==> #[trigger] path_taken(ps, res, entry_path(container, suffixed_slug(base, j), id))
}

/// Why a new entry for node `id` titled `title` in `container` cannot be
/// stored, if it cannot.
pub open spec fn entry_error(ps: Seq<PlacementRow>, res: Seq<String>, container: Seq<char>, title: Seq<char>, id: Seq<char>) -> Option<ErrorView> {
    if all_suffixes_taken(ps, res, container, slug_of(title), id) {
        Some(simple_error(22, container))
    } else if row_ids_exhausted(ps) {
        Some(row_id_error())
    } else {
        None
    }
}

/// A free slug and logical path for node `id` in `container`, from `title`.
pub fn unique_path(ps: &Vec<PlacementRow>, res: &Vec<String>, container: &String, title: &str, id: &str) -> (r: Result<
    (String, String),
    GraphError,
>)
    ensures
        match r {
            Ok((slug, path)) => exists|k: nat|
                k <= usize::MAX && first_free(ps@, res@, container@, slug_of(title@), id@, k) && slug@ == suffixed_slug(
                    slug_of(title@),
                    k,
                ) && path@ == entry_path(container@, slug@, id@),
            Err(e) => error_view(e) == simple_error(22, container@) && all_suffixes_taken(
                ps@,
                res@,
                container@,
                slug_of(title@),
                id@,
            ),
        },
        r is Ok <==> !all_suffixes_taken(ps@, res@, container@, slug_of(title@), id@),
{
    let base = slugify(title);
    let mut suffix: usize = 1;
    loop
        invariant
            1 <= suffix,
            base@ == slug_of(title@),
            forall|j: nat| 1 <= j < suffix ==> #[trigger] path_taken(
                ps@,
                res@,
                entry_path(container@, suffixed_slug(base@, j), id@),
            ),
        decreases usize::MAX - suffix,
    {
        let mut slug = base.clone();
        if suffix != 1 {
            push_str(&mut slug, "-");
            let d = decimal_chars(suffix as u64);
            push_chars(&mut slug, d.as_slice());
        }
        proof {
            reveal_strlit("-");
            assert(slug@ =~= suffixed_slug(base@, suffix as nat));
        }
        let mut path = container.clone();
        push_str(&mut path, "/");
        push_str(&mut path, slug.as_str());
        push_str(&mut path, "--");
        push_str(&mut path, id);
        proof {
            reveal_strlit("/");
            assert(path@ =~= entry_path(container@, slug@, id@));
        }
        if !taken(ps, res, &path) {
            proof {
                assert(first_free(ps@, res@, container@, slug_of(title@), id@, suffix as nat));
                assert(!path_taken(ps@, res@, entry_path(container@, suffixed_slug(base@, suffix as nat), id@)));
            }
            return Ok((slug, path));
        }
        if suffix == usize::MAX {
            return Err(GraphError::AliasConflict(container.clone()));
        }
        suffix += 1;
    }
}

pub open spec fn same_but_path(a: PlacementRow, b: PlacementRow) -> bool {
    &&& a.row_id == b.row_id
    &&& a.node_id@ == b.node_id@
    &&& opt_view(a.parent_id) == opt_view(b.parent_id)
    &&& a.slug@ == b.slug@
    &&& a.is_canonical == b.is_canonical
}

/// `after` is `before` with the subtree at `old` moved to `new`, the row
/// `skip` left as it was.
pub open spec fn subtree_moved(
    before: Seq<PlacementRow>,
    after: Seq<PlacementRow>,
    old: Seq<char>,
    new: Seq<char>,
    skip: Option<i64>,
) -> bool {
    &&& after.len() == before.len()
    &&& forall|i: int|
        0 <= i < before.len() ==> same_but_path(#[trigger] after[i], before[i]) && after[i].logical_path@ == (
        if skip == Some(before[i].row_id) {
            before[i].logical_path@
        } else {
            moved_path(before[i].logical_path@, old, new)
        })
}

pub fn copy_row_with_path(r: &PlacementRow, path: String) -> (c: PlacementRow)
    ensures
        same_but_path(c, *r),
        c.logical_path == path,
{
    PlacementRow {
        row_id: r.row_id,
        node_id: r.node_id.clone(),
        parent_id: copy_opt(&r.parent_id),
        slug: r.slug.clone(),
        logical_path: path,
        is_canonical: r.is_canonical,
    }
}

/// Moves the logical paths at and below `old` to `new`.
pub fn rewrite_subtree_paths(ps: &mut Vec<PlacementRow>, from: &String, to: &String, skip: Option<i64>)
    ensures
        subtree_moved(old(ps)@, final(ps)@, from@, to@, skip),
{
    let mut out: Vec<PlacementRow> = Vec::new();
    let mut i: usize = 0;
    while i < ps.len()
        invariant
            i <= ps.len(),
            out.len() == i,
            forall|k: int|
                0 <= k < i ==> same_but_path(#[trigger] out@[k], ps@[k]) && out@[k].logical_path@ == (
                if skip == Some(ps@[k].row_id) {
                    ps@[k].logical_path@
                } else {
                    moved_path(ps@[k].logical_path@, from@, to@)
                }),
        decreases ps.len() - i,
    {
        let row = &ps[i];
        let keep = match skip {
            Some(s) => s == row.row_id,
            None => false,
        };
        let path = if keep {
            row.logical_path.clone()
        } else {
            path_after_subtree_move(row.logical_path.as_str(), from.as_str(), to.as_str())
        };
        out.push(copy_row_with_path(row, path));
        i += 1;
    }
    *ps = out;
}

/// The rows other than those of row id `row_id`, in order.
pub open spec fn drop_row(v: Seq<PlacementRowView>, row_id: i64) -> Seq<PlacementRowView>
    decreases v.len(),
{
    if v.len() == 0 {
        Seq::empty()
    } else {
        let prev = drop_row(v.drop_last(), row_id);
        if v.last().0 != row_id {
            prev.push(v.last())
        } else {
            prev
        }
    }
}

/// What survives of a row: its id, node, parent and slug (a promotion or a
/// move changes only its path and canonical flag).
pub open spec fn row_core(r: PlacementRow) -> (i64, Seq<char>, Option<Seq<char>>, Seq<char>) {
    (r.row_id, r.node_id@, opt_view(r.parent_id), r.slug@)
}

pub open spec fn core_in(ps: Seq<PlacementRow>, c: (i64, Seq<char>, Option<Seq<char>>, Seq<char>)) -> bool {
    exists|x: int| 0 <= x < ps.len() && row_core(ps[x]) == c
}

/// The row names a node of `d`, as node or as parent.
pub open spec fn touches(r: PlacementRow, d: Seq<Seq<char>>) -> bool {
    d.contains(r.node_id@) || (r.parent_id matches Some(p) && d.contains(p@))
}

/// No other row has the row id of row `i`.
pub open spec fn unique_row_id(ps: Seq<PlacementRow>, i: int) -> bool {
    forall|j: int| 0 <= j < ps.len() && j != i ==> (#[trigger] ps[j]).row_id != ps[i].row_id
}

pub(crate) proof fn lemma_drop_row_members(v: Seq<PlacementRowView>, rid: i64)
    ensures
        forall|z: int| 0 <= z < drop_row(v, rid).len() ==> v.contains(#[trigger] drop_row(v, rid)[z]),
        forall|y: int| 0 <= y < v.len() && (#[trigger] v[y]).0 != rid ==> drop_row(v, rid).contains(v[y]),
        forall|z: int| 0 <= z < drop_row(v, rid).len() ==> (#[trigger] drop_row(v, rid)[z]).0 != rid,
    decreases v.len(),
{
    if v.len() > 0 {
        let d = v.drop_last();
        lemma_drop_row_members(d, rid);
        let prev = drop_row(d, rid);
        let cur = drop_row(v, rid);
        assert forall|z: int| 0 <= z < cur.len() implies (#[trigger] cur[z]).0 != rid by {
            if z < prev.len() {
                assert(cur[z] == prev[z]);
            }
        }
        assert forall|z: int| 0 <= z < cur.len() implies v.contains(#[trigger] cur[z]) by {
            if z < prev.len() {
                assert(cur[z] == prev[z]);
                let w = choose|w: int| 0 <= w < d.len() && d[w] == prev[z];
                assert(v[w] == d[w]);
            } else {
                assert(cur[z] == v.last());
                assert(v[v.len() - 1] == v.last());
            }
        }
        assert forall|y: int| 0 <= y < v.len() && (#[trigger] v[y]).0 != rid implies cur.contains(v[y]) by {
            if y < v.len() - 1 {
                assert(d[y] == v[y]);
                let w = choose|w: int| 0 <= w < prev.len() && prev[w] == d[y];
                assert(cur[w] == prev[w]);
            } else {
                assert(cur[prev.len() as int] == v.last());
            }
        }
    }
}

/// A promotion keeps every row but the canonical row it replaces, up to
/// path and flag, and adds none.
proof fn lemma_promoted_cores(b: Seq<PlacementRow>, a: Seq<PlacementRow>, crid: i64, arid: i64, op: Seq<char>, np: Seq<char>)
    requires
        promoted(b, a, crid, arid, op, np),
    ensures
        forall|x: int| 0 <= x < a.len() ==> core_in(b, row_core(#[trigger] a[x])),
        forall|y: int| 0 <= y < b.len() && (#[trigger] b[y]).row_id != crid ==> core_in(a, row_core(b[y])),
{
    let (m1, m2) = choose|m1: Seq<PlacementRow>, m2: Seq<PlacementRow>|
        prows(m1) == drop_row(prows(b), crid) && flagged(m1, m2, arid) && subtree_moved(m2, a, op, np, Some(crid));
    lemma_drop_row_members(prows(b), crid);
    assert(prows(m1).len() == m1.len());
    assert forall|x: int| 0 <= x < a.len() implies core_in(b, row_core(#[trigger] a[x])) by {
        assert(same_but_path(a[x], m2[x]));
        assert(prows(m1)[x] == prow(m1[x]));
        assert(prows(b).contains(prow(m1[x])));
        let w = choose|w: int| 0 <= w < prows(b).len() && prows(b)[w] == prow(m1[x]);
        assert(prows(b)[w] == prow(b[w]));
        assert(row_core(b[w]) == row_core(a[x]));
    }
    assert forall|y: int| 0 <= y < b.len() && (#[trigger] b[y]).row_id != crid implies core_in(a, row_core(b[y])) by {
        assert(prows(b)[y] == prow(b[y]));
        let v = prows(b);
        assert(v[y].0 != crid);
        assert(drop_row(v, crid).contains(v[y]));
        let w = choose|w: int| 0 <= w < prows(m1).len() && prows(m1)[w] == v[y];
        assert(prows(m1)[w] == prow(m1[w]));
        assert(same_but_path(a[w], m2[w]));
        assert(row_core(a[w]) == row_core(b[y]));
    }
}

pub fn delete_placement(ps: &mut Vec<PlacementRow>, row_id: i64)
    ensures
        prows(final(ps)@) == drop_row(prows(old(ps)@), row_id),
{
    let mut out: Vec<PlacementRow> = Vec::new();
    let mut i: usize = 0;
    while i < ps.len()
        invariant
            i <= ps.len(),
            prows(out@) == drop_row(prows(ps@).take(i as int), row_id),
        decreases ps.len() - i,
    {
        proof {
            assert(prows(ps@).take(i + 1).drop_last() =~= prows(ps@).take(i as int));
            assert(prows(ps@).take(i + 1).last() == prow(ps@[i as int]));
        }
        let ghost old_out = out@;
        if ps[i].row_id != row_id {
            let c = crate::scan::copy_placement_row(&ps[i]);
            out.push(c);
            proof {
                assert(prows(out@) =~= prows(old_out).push(prow(c)));
            }
        }
        i += 1;
    }
    assert(prows(ps@).take(ps.len() as int) =~= prows(ps@));
    *ps = out;
}

// ---------------------------------------------------------------------------
// ids, time, checks
// ---------------------------------------------------------------------------

#[verifier::external_type_specification]
#[verifier::external_body]
pub struct ExSystemTime(std::time::SystemTime);

#[verifier::external_type_specification]
#[verifier::external_body]
pub struct ExSystemTimeError(std::time::SystemTimeError);

/// `std::time::SystemTime::now()`: the machine's clock. Nothing is stated
/// of the value.
#[verifier::external_body]
fn system_now() -> (r: std::time::SystemTime) {
    std::time::SystemTime::now()
}

/// `t.duration_since(std::time::UNIX_EPOCH)`: the time since the epoch, or
/// an error for a time before it. Nothing is stated of either.
#[verifier::external_body]
fn since_epoch(t: &std::time::SystemTime) -> (r: Result<std::time::Duration, std::time::SystemTimeError>) {
    t.duration_since(std::time::UNIX_EPOCH)
}

/// `d.as_secs()`: the whole seconds of a duration. Nothing is stated of the
/// value, as nothing is of the duration.
#[verifier::external_body]
fn whole_seconds(d: &std::time::Duration) -> (r: u64) {
    d.as_secs()
}

/// Seconds since the Unix epoch by the system clock (0 before the epoch).
pub(crate) fn now_unix() -> (r: u64) {
    match since_epoch(&system_now()) {
        Ok(d) => whole_seconds(&d),
        Err(_) => 0,
    }
}

pub open spec fn timestamp_error() -> ErrorView {
    simple_error(1, "unix timestamp does not fit in SQLite INTEGER"@)
}

/// A timestamp as an SQLite integer.
pub fn unix_to_i64(value: u64) -> (r: Result<i64, GraphError>)
    ensures
        match r {
            Ok(n) => value <= i64::MAX && n == value,
            Err(e) => value > i64::MAX && error_view(e) == timestamp_error(),
        },
{
    if value > 0x7fff_ffff_ffff_ffffu64 {
        return Err(GraphError::Storage(string_from_str("unix timestamp does not fit in SQLite INTEGER")));
    }
    Ok(value as i64)
}

pub open spec fn node_id_taken(nodes: Seq<NodeRow>, id: Seq<char>) -> bool {
    exists|i: int| 0 <= i < nodes.len() && (#[trigger] nodes[i]).id@ == id
}

/// A fresh random node id that no node row has.
pub fn generate_unique_node_id(nodes: &Vec<NodeRow>) -> (r: Result<String, GraphError>)
    ensures
        match r {
            Ok(id) => uuid_shape(id@) && !node_id_taken(nodes@, id@),
            Err(e) => error_view(e) == node_ids_exhausted_error(),
        },
{
    let mut tries: u64 = 0;
    while tries < u64::MAX
        decreases u64::MAX - tries,
    {
        let id = new_uuid_v4();
        let mut seen = false;
        let mut i: usize = 0;
        while i < nodes.len()
            invariant
                i <= nodes.len(),
                !seen ==> forall|k: int| 0 <= k < i ==> (#[trigger] nodes@[k]).id@ != id@,
            decreases nodes.len() - i,
        {
            if str_same(&nodes[i].id, &id) {
                seen = true;
            }
            i += 1;
        }
        if !seen {
            return Ok(id);
        }
        tries += 1;
    }
    proof {
        reveal_strlit("no unused node id was generated");
    }
    Err(GraphError::Storage(string_from_str("no unused node id was generated")))
}

/// What a run of random ids that all collide is reported as.
pub open spec fn node_ids_exhausted_error() -> ErrorView {
    simple_error(1, "no unused node id was generated"@)
}

/// Why a new node cannot be added (`path` names the container in the
/// error), if it cannot.
pub open spec fn new_node_error(node: NewNode, path: Seq<char>) -> Option<ErrorView> {
    if !valid_title(node.title@) {
        Some(simple_error(11, Seq::empty()))
    } else if kind_of(node.content) != node.kind {
        Some((13, path, "node kind does not match node content"@, Seq::empty()))
    } else if node.content is QuestionAnswer && is_blank(content_parts(node.content).0) {
        Some((13, path, "question must not be empty"@, Seq::empty()))
    } else {
        None
    }
}

pub fn validate_content_matches(kind: &NodeKind, content: &NodeContent, path: &str) -> (r: Result<(), GraphError>)
    ensures
        match r {
            Ok(()) => kind_of(*content) == *kind,
            Err(e) => kind_of(*content) != *kind && error_view(e) == (
                13nat,
                path@,
                "node kind does not match node content"@,
                Seq::<Seq<char>>::empty(),
            ),
        },
{
    match (kind, content) {
        (NodeKind::Statement, NodeContent::Statement { .. }) => Ok(()),
        (NodeKind::QuestionAnswer, NodeContent::QuestionAnswer { .. }) => Ok(()),
        _ => Err(
            GraphError::InvalidMarkdown {
                path: string_from_str(path),
                reason: string_from_str("node kind does not match node content"),
            },
        ),
    }
}

pub fn validate_content_values(content: &NodeContent, path: &str) -> (r: Result<(), GraphError>)
    ensures
        match r {
            Ok(()) => !(content is QuestionAnswer && is_blank(content_parts(*content).0)),
            Err(e) => content is QuestionAnswer && is_blank(content_parts(*content).0) && error_view(e) == (
                13nat,
                path@,
                "question must not be empty"@,
                Seq::<Seq<char>>::empty(),
            ),
        },
{
    match content {
        NodeContent::Statement { .. } => Ok(()),
        NodeContent::QuestionAnswer { question, .. } => {
            let q = chars_of(question.as_str());
            if crate::text::blank(q.as_slice()) {
                Err(
                    GraphError::InvalidMarkdown {
                        path: string_from_str(path),
                        reason: string_from_str("question must not be empty"),
                    },
                )
            } else {
                Ok(())
            }
        },
    }
}

pub fn validate_new_node(node: &NewNode, path: &str) -> (r: Result<(), GraphError>)
    ensures
        match r {
            Ok(()) => new_node_error(*node, path@) is None,
            Err(e) => new_node_error(*node, path@) == Some(error_view(e)),
        },
{
    validate_title(node.title.as_str())?;
    validate_content_matches(&node.kind, &node.content, path)?;
    validate_content_values(&node.content, path)
}

/// The node row stored for a new node.
pub open spec fn new_row_view(id: Seq<char>, node: NewNode, created: i64, updated: i64) -> NodeRowView {
    match node.content {
        NodeContent::Statement { body } => (id, "statement"@, node.title@, Some(body@), None, None, created, updated, 0),
        NodeContent::QuestionAnswer { question, answer } => (
            id,
            "qa"@,
            node.title@,
            None,
            Some(question@),
            Some(answer@),
            created,
            updated,
            0,
        ),
    }
}

fn node_row_of(id: &String, node: &NewNode, created: i64, updated: i64) -> (r: NodeRow)
    ensures
        nrow(r) == new_row_view(id@, *node, created, updated),
{
    match &node.content {
        NodeContent::Statement { body } => NodeRow {
            id: id.clone(),
            kind: string_from_str("statement"),
            title: node.title.clone(),
            reviewed: 0,
            statement_body: Some(body.clone()),
            qa_question: None,
            qa_answer: None,
            created_at_unix: created,
            updated_at_unix: updated,
        },
        NodeContent::QuestionAnswer { question, answer } => NodeRow {
            id: id.clone(),
            kind: string_from_str("qa"),
            title: node.title.clone(),
            reviewed: 0,
            statement_body: None,
            qa_question: Some(question.clone()),
            qa_answer: Some(answer.clone()),
            created_at_unix: created,
            updated_at_unix: updated,
        },
    }
}

// ---------------------------------------------------------------------------
// adding nodes
// ---------------------------------------------------------------------------

/// The rows after adding node `id` (row `row`) with one canonical entry in
/// `container`, everything else kept.
pub open spec fn node_added(before: IdeaGraph, after: IdeaGraph, id: Seq<char>, node: NewNode, parent: Option<Seq<char>>, container: Seq<char>) -> bool {
    exists|now: i64, rid: i64, k: nat|
        #![trigger first_free(before.tables.placements@, before.tables.reserved@, container, slug_of(node.title@), id, k), fresh_row_id(before.tables.placements@, rid), new_row_view(id, node, now, now)]
        {
            &&& now >= 0
            &&& rid >= 1
            &&& fresh_row_id(before.tables.placements@, rid)
            &&& first_free(before.tables.placements@, before.tables.reserved@, container, slug_of(node.title@), id, k)
            &&& nrows(after.tables.nodes@) == nrows(before.tables.nodes@).push(new_row_view(id, node, now, now))
            &&& prows(after.tables.placements@) == prows(before.tables.placements@).push(
                (
                    rid,
                    id,
                    parent,
                    suffixed_slug(slug_of(node.title@), k),
                    entry_path(container, suffixed_slug(slug_of(node.title@), k), id),
                    1,
                ),
            )
            &&& crows(after.tables.contexts@) == crows(before.tables.contexts@)
            &&& after.graph_name@ == before.graph_name@
            &&& after.tables.reserved@ == before.tables.reserved@
        }
}

/// Why node `id`, drawn at time `now`, cannot be stored in `container`, if
/// it cannot.
pub open spec fn insert_error(t: Tables, node: NewNode, container: Seq<char>, id: Seq<char>, now: u64) -> Option<ErrorView> {
    if now > i64::MAX {
        Some(timestamp_error())
    } else {
        entry_error(t.placements@, t.reserved@, container, node.title@, id)
    }
}

/// An add fails with `e`: every random id drawn was taken, or a fresh id
/// and a time for which the rows cannot take the node give `e`.
pub open spec fn add_failure(t: Tables, node: NewNode, container: Seq<char>, e: ErrorView) -> bool {
    ||| e == node_ids_exhausted_error()
    ||| exists|id: Seq<char>, now: u64|
        uuid_shape(id) && !node_id_taken(t.nodes@, id) && #[trigger] insert_error(t, node, container, id, now) == Some(e)
}

/// Stores node `id`, added at time `now`, with one canonical entry in
/// `container`.
pub fn insert_node_rows(graph: &mut IdeaGraph, node: &NewNode, parent: Option<String>, container: &String, id: &String, now: u64) -> (r: Result<(), GraphError>)
    ensures
        match r {
            Ok(()) => insert_error(old(graph).tables, *node, container@, id@, now) is None && node_added(
                *old(graph),
                *final(graph),
                id@,
                *node,
                opt_view(parent),
                container@,
            ) && nrows(final(graph).tables.nodes@) == nrows(old(graph).tables.nodes@).push(
                new_row_view(id@, *node, now as i64, now as i64),
            ),
            Err(e) => *final(graph) == *old(graph) && insert_error(old(graph).tables, *node, container@, id@, now)
                == Some(error_view(e)),
        },
{
    let created = unix_to_i64(now)?;
    let (slug, path) = unique_path(&graph.tables.placements, &graph.tables.reserved, container, node.title.as_str(), id.as_str())?;
    let rid = next_row_id(&graph.tables.placements)?;
    let row = node_row_of(id, node, created, created);
    let place = PlacementRow {
        row_id: rid,
        node_id: id.clone(),
        parent_id: parent,
        slug,
        logical_path: path,
        is_canonical: 1,
    };
    let ghost old_nodes = graph.tables.nodes@;
    let ghost old_places = graph.tables.placements@;
    graph.tables.nodes.push(row);
    graph.tables.placements.push(place);
    proof {
        assert(nrows(graph.tables.nodes@) =~= nrows(old_nodes).push(nrow(row)));
        assert(prows(graph.tables.placements@) =~= prows(old_places).push(prow(place)));
        let k = choose|k: nat| k <= usize::MAX && first_free(old_places, old(graph).tables.reserved@, container@, slug_of(node.title@), id@, k)
            && place.slug@ == suffixed_slug(slug_of(node.title@), k) && place.logical_path@ == entry_path(
            container@,
            place.slug@,
            id@,
        );
        assert(first_free(old(graph).tables.placements@, old(graph).tables.reserved@, container@, slug_of(node.title@), id@, k));
        assert(fresh_row_id(old(graph).tables.placements@, rid));
        assert(new_row_view(id@, *node, created, created) == nrow(row));
    }
    Ok(())
}

fn add_node_rows(graph: &mut IdeaGraph, node: &NewNode, parent: Option<String>, container: &String) -> (r: Result<String, GraphError>)
    ensures
        match r {
            Ok(id) => uuid_shape(id@) && !node_id_taken(old(graph).tables.nodes@, id@) && node_added(
                *old(graph),
                *final(graph),
                id@,
                *node,
                opt_view(parent),
                container@,
            ),
            Err(e) => *final(graph) == *old(graph) && add_failure(old(graph).tables, *node, container@, error_view(e)),
        },
{
    let id = generate_unique_node_id(&graph.tables.nodes)?;
    let now = now_unix();
    match insert_node_rows(graph, node, parent, container, &id, now) {
        Ok(()) => Ok(id),
        Err(e) => {
            proof {
                assert(insert_error(old(graph).tables, *node, container@, id@, now) == Some(error_view(e)));
            }
            Err(e)
        },
    }
}

pub open spec fn graph_name_error(name: Seq<char>) -> Option<ErrorView> {
    if !valid_title(name) {
        Some(simple_error(2, crate::ids::graph_name_message()))
    } else {
        None
    }
}

/// Why a root node cannot be added, if it cannot.
pub open spec fn root_add_error(g: IdeaGraph, node: NewNode) -> Option<ErrorView> {
    match graph_name_error(g.graph_name@) {
        Some(e) => Some(e),
        None => new_node_error(node, "roots"@),
    }
}

/// What `add_root_node` returns and leaves, by its arguments.
pub open spec fn add_root_node_outcome(prior: IdeaGraph, later: IdeaGraph, node: NewNode, r: Result<String, GraphError>) -> bool {
    match r {
        Ok(id) => root_add_error(prior, node) is None && uuid_shape(id@) && !node_id_taken(
            prior.tables.nodes@,
            id@,
        ) && node_added(prior, later, id@, node, None, "roots"@),
        Err(e) => later == prior && match root_add_error(prior, node) {
            Some(x) => error_view(e) == x,
            None => add_failure(prior.tables, node, "roots"@, error_view(e)),
        },
    }
}

/// Adds a root node; returns its new id.
pub fn add_root_node(graph: &mut IdeaGraph, node: NewNode) -> (r: Result<String, GraphError>)
    ensures
        add_root_node_outcome(*old(graph), *final(graph), node, r),
{
    validate_graph_name(graph.graph_name.as_str())?;
    validate_new_node(&node, "roots")?;
    let container = string_from_str("roots");
    add_node_rows(graph, &node, None, &container)
}

/// Why a child node cannot be added under `parent`, if it cannot.
pub open spec fn child_add_error(g: IdeaGraph, parent: Seq<char>, node: NewNode) -> Option<ErrorView> {
    if !uuid_shape(parent) {
        Some(simple_error(9, parent))
    } else if new_node_error(node, parent) is Some {
        new_node_error(node, parent)
    } else if graph_name_error(g.graph_name@) is Some {
        graph_name_error(g.graph_name@)
    } else {
        parent_error(g.tables, parent)
    }
}

/// What `add_child_node` returns and leaves, by its arguments.
pub open spec fn add_child_node_outcome(prior: IdeaGraph, later: IdeaGraph, parent_id: Seq<char>, node: NewNode, r: Result<String, GraphError>) -> bool {
    match r {
        Ok(id) => child_add_error(prior, parent_id, node) is None && uuid_shape(id@)
            && !node_id_taken(prior.tables.nodes@, id@) && node_added(
            prior,
            later,
            id@,
            node,
            Some(parent_id),
            canon(prior.tables, parent_id)[0].3 + "/children"@,
        ),
        Err(e) => later == prior && match child_add_error(prior, parent_id, node) {
            Some(x) => error_view(e) == x,
            None => add_failure(prior.tables, node, canon(prior.tables, parent_id)[0].3 + "/children"@, error_view(e)),
        },
    }
}

/// The canonical path of the parent that a child would be added under, or
/// the error that refuses the addition before anything is written.
pub fn child_parent_path(graph: &IdeaGraph, parent_id: &str, node: &NewNode) -> (r: Result<String, GraphError>)
    ensures
        match r {
            Ok(cp) => child_add_error(*graph, parent_id@, *node) is None && cp@ == canon(graph.tables, parent_id@)[0].3,
            Err(e) => child_add_error(*graph, parent_id@, *node) == Some(error_view(e)),
        },
{
    crate::ids::validate_node_id(parent_id)?;
    validate_new_node(node, parent_id)?;
    validate_graph_name(graph.graph_name.as_str())?;
    let scan = crate::scan::load_scan(&graph.tables);
    let k = crate::graph::require_parent_node(&scan, parent_id, Ghost(graph.tables))?;
    proof {
        crate::scan::lemma_scan_nodes(scan, graph.tables);
        assert(crate::scan::node_assembled(scan.nodes@[k as int], graph_nodes(graph.tables)[k as int], graph_places(graph.tables)));
        assert(graph_nodes(graph.tables)[node_index_of(graph.tables, parent_id@)].id@ == parent_id@);
        assert(crate::scan::placement_views(scan.nodes@[k as int].canonical_placements@)[0]
            == scan.nodes@[k as int].canonical_placements@[0].view());
    }
    Ok(scan.nodes[k].canonical_placements[0].logical_path.clone())
}

/// Adds a node under `parent_id`; returns its new id.
pub fn add_child_node(graph: &mut IdeaGraph, parent_id: &str, node: NewNode) -> (r: Result<String, GraphError>)
    ensures
        add_child_node_outcome(*old(graph), *final(graph), parent_id@, node, r),
{
    let mut container = child_parent_path(graph, parent_id, &node)?;
    push_str(&mut container, "/children");
    add_node_rows(graph, &node, Some(string_from_str(parent_id)), &container)
}

// ---------------------------------------------------------------------------
// reading
// ---------------------------------------------------------------------------

/// What `read_node` returns and leaves, by its arguments.
pub open spec fn read_node_outcome(graph: IdeaGraph, node_id: Seq<char>, r: Result<crate::model::Node, GraphError>) -> bool {
    match r {
        Ok(n) => !(!uuid_shape(node_id)) && graph_name_error(graph.graph_name@) is None
            && crate::graph::read_result(graph.tables, node_id) == Ok::<crate::graph::NodeView, ErrorView>(
            crate::graph::node_view(n),
        ),
        Err(e) => if !uuid_shape(node_id) {
            error_view(e) == simple_error(9, node_id)
        } else if graph_name_error(graph.graph_name@) is Some {
            Some(error_view(e)) == graph_name_error(graph.graph_name@)
        } else {
            crate::graph::read_result(graph.tables, node_id) == Err::<crate::graph::NodeView, ErrorView>(
                error_view(e),
            )
        },
    }
}

pub fn read_node(graph: &IdeaGraph, node_id: &str) -> (r: Result<crate::model::Node, GraphError>)
    ensures
        read_node_outcome(*graph, node_id@, r),
{
    crate::ids::validate_node_id(node_id)?;
    validate_graph_name(graph.graph_name.as_str())?;
    let scan = crate::scan::load_scan(&graph.tables);
    crate::graph::read_node_in(&scan, node_id, Ghost(graph.tables))
}

/// What `list_roots` returns and leaves, by its arguments.
pub open spec fn list_roots_outcome(graph: IdeaGraph, r: Result<Vec<crate::model::NodeSummary>, GraphError>) -> bool {
    match r {
        Ok(v) => graph_name_error(graph.graph_name@) is None && crate::graph::summary_views(v@)
            == crate::graph::summaries_sorted(
            crate::graph::root_summaries(graph.tables, graph_places(graph.tables).len() as int),
        ),
        Err(e) => Some(error_view(e)) == graph_name_error(graph.graph_name@),
    }
}

pub fn list_roots(graph: &IdeaGraph) -> (r: Result<Vec<crate::model::NodeSummary>, GraphError>)
    ensures
        list_roots_outcome(*graph, r),
{
    validate_graph_name(graph.graph_name.as_str())?;
    let scan = crate::scan::load_scan(&graph.tables);
    Ok(crate::graph::list_roots_in(&scan, Ghost(graph.tables)))
}

/// What `list_children` returns and leaves, by its arguments.
pub open spec fn list_children_outcome(graph: IdeaGraph, node_id: Seq<char>, r: Result<Vec<crate::model::NodeSummary>, GraphError>) -> bool {
    match r {
        Ok(v) => uuid_shape(node_id) && graph_name_error(graph.graph_name@) is None
            && crate::graph::children_result(graph.tables, node_id) == Ok::<
            Seq<crate::graph::SummaryView>,
            ErrorView,
        >(crate::graph::summary_views(v@)),
        Err(e) => if !uuid_shape(node_id) {
            error_view(e) == simple_error(9, node_id)
        } else if graph_name_error(graph.graph_name@) is Some {
            Some(error_view(e)) == graph_name_error(graph.graph_name@)
        } else {
            crate::graph::children_result(graph.tables, node_id) == Err::<
                Seq<crate::graph::SummaryView>,
                ErrorView,
            >(error_view(e))
        },
    }
}

pub fn list_children(graph: &IdeaGraph, node_id: &str) -> (r: Result<Vec<crate::model::NodeSummary>, GraphError>)
    ensures
        list_children_outcome(*graph, node_id@, r),
{
    crate::ids::validate_node_id(node_id)?;
    validate_graph_name(graph.graph_name.as_str())?;
    let scan = crate::scan::load_scan(&graph.tables);
    crate::graph::list_children_in(&scan, node_id, Ghost(graph.tables))
}

/// The graph's problems after the scan: those of its rows in the order
/// found (context documents, alternative answers, nodes and placements),
/// then cycles (a walk's ids met again, by id).
pub open spec fn problems_of(t: Tables, ps: Seq<crate::scan::ProblemView>) -> bool {
    let head = crate::scan::row_problems(t);
    &&& ps.len() >= head.len()
    &&& ps.take(head.len() as int) == head
    &&& crate::scan::cycle_problems(t, ps, head.len() as int)
}

/// What `list_parents` returns and leaves, by its arguments.
pub open spec fn list_parents_outcome(graph: IdeaGraph, node_id: Seq<char>, r: Result<Vec<crate::model::NodeSummary>, GraphError>) -> bool {
    &&& (uuid_shape(node_id) && graph_name_error(graph.graph_name@) is None ==> exists|ps: Seq<crate::scan::ProblemView>|
        problems_of(graph.tables, ps) && match r {
            Ok(v) => crate::graph::parents_result(graph.tables, node_id, ps) == Ok::<
                Seq<crate::graph::SummaryView>,
                ErrorView,
            >(crate::graph::summary_views(v@)),
            Err(e) => crate::graph::parents_result(graph.tables, node_id, ps) == Err::<
                Seq<crate::graph::SummaryView>,
                ErrorView,
            >(error_view(e)),
        })
&&& (!uuid_shape(node_id) ==> (r matches Err(e) && error_view(e) == simple_error(9, node_id)))
&&& (uuid_shape(node_id) && graph_name_error(graph.graph_name@) is Some ==> (r matches Err(e) && Some(
        error_view(e),
    ) == graph_name_error(graph.graph_name@)))
}

pub fn list_parents(graph: &IdeaGraph, node_id: &str) -> (r: Result<Vec<crate::model::NodeSummary>, GraphError>)
    ensures
        list_parents_outcome(*graph, node_id@, r),
{
    crate::ids::validate_node_id(node_id)?;
    validate_graph_name(graph.graph_name.as_str())?;
    let scan = crate::scan::load_scan(&graph.tables);
    let r = crate::graph::list_parents_in(&scan, node_id, Ghost(graph.tables));
    proof {
        crate::scan::lemma_scan_problems(scan, graph.tables);
        let ps = crate::scan::problems_view(scan.problems@);
        assert forall|i: int| crate::scan::row_problems(graph.tables).len() <= i < ps.len() implies (#[trigger] ps[i]).0 == 7
            && crate::scan::reaches(graph_places(graph.tables), ps[i].1, ps[i].1) by {
            assert(scan.problems@[i] is CycleDetected);
        }
        assert(problems_of(graph.tables, ps));
    }
    r
}

/// What `rebuild_index` returns and leaves, by its arguments.
pub open spec fn rebuild_index_outcome(graph: IdeaGraph, r: Result<crate::model::GraphIndex, GraphError>) -> bool {
    match r {
        Ok(ix) => graph_name_error(graph.graph_name@) is None && crate::graph::context_summary_views(ix.contexts@)
            == crate::graph::context_summaries_sorted(
            crate::scan::graph_contexts(graph.tables).map_values(
                |c: ContextRow| crate::graph::context_row_summary(c),
            ),
        ) && crate::graph::summary_views(ix.nodes@) == crate::graph::summaries_sorted(
            crate::graph::node_summaries(graph.tables, graph_nodes(graph.tables).len() as int),
        ) && crate::graph::edge_views(ix.edges@) == crate::graph::edges_sorted(
            crate::graph::edges_of(graph_places(graph.tables), graph_places(graph.tables).len() as int),
        ) && problems_of(graph.tables, crate::scan::problems_view(ix.problems@)),
        Err(e) => Some(error_view(e)) == graph_name_error(graph.graph_name@),
    }
}

pub fn rebuild_index(graph: &IdeaGraph) -> (r: Result<crate::model::GraphIndex, GraphError>)
    ensures
        rebuild_index_outcome(*graph, r),
{
    validate_graph_name(graph.graph_name.as_str())?;
    let scan = crate::scan::load_scan(&graph.tables);
    let ix = crate::graph::graph_index(&scan, Ghost(graph.tables));
    proof {
        crate::scan::lemma_scan_problems(scan, graph.tables);
        let ps = crate::scan::problems_view(scan.problems@);
        assert forall|i: int| crate::scan::row_problems(graph.tables).len() <= i < ps.len() implies (#[trigger] ps[i]).0 == 7
            && crate::scan::reaches(graph_places(graph.tables), ps[i].1, ps[i].1) by {
            assert(scan.problems@[i] is CycleDetected);
        }
    }
    Ok(ix)
}

/// What `traverse` returns and leaves, by its arguments.
pub open spec fn traverse_outcome(graph: IdeaGraph, node_id: Seq<char>, options: crate::model::TraversalOptions, dir: crate::graph::Direction, r: Result<
    Vec<crate::model::NodeSummary>,
    GraphError,
>) -> bool {
    &&& (!uuid_shape(node_id) ==> (r matches Err(e) && error_view(e) == simple_error(9, node_id)))
&&& (uuid_shape(node_id) && graph_name_error(graph.graph_name@) is Some ==> (r matches Err(e) && Some(
        error_view(e),
    ) == graph_name_error(graph.graph_name@)))
&&& (uuid_shape(node_id) && graph_name_error(graph.graph_name@) is None ==> (node_error(graph.tables, node_id) matches Some(x)
        ==> (r matches Err(e) && error_view(e) == x)))
&&& (r matches Ok(v) ==> {
        &&& node_error(graph.tables, node_id) is None
        &&& forall|a: int, b: int| 0 <= a < b < v@.len() ==> (#[trigger] v@[a]).id@ != (#[trigger] v@[b]).id@
        &&& forall|a: int| 0 <= a < v@.len() ==> (#[trigger] v@[a]).id@ != node_id
        &&& forall|a: int|
            0 <= a < v@.len() ==> crate::graph::related(graph_places(graph.tables), node_id, (#[trigger] v@[a]).id@, dir)
        &&& options.max_depth == Some(0usize) ==> v@.len() == 0
        &&& options.max_depth != Some(0usize) ==> forall|x: Seq<char>|
            #[trigger] crate::graph::walk_step(graph.tables, node_id, x, dir) && x != node_id ==> crate::graph::in_summaries(v@, x)
        &&& options.max_depth is None ==> forall|x: Seq<char>|
            #[trigger] crate::graph::walk_reaches(graph.tables, node_id, x, dir) && x != node_id ==> crate::graph::in_summaries(v@, x)
        &&& forall|w: Seq<Seq<char>>|
            #[trigger] crate::graph::is_listed_walk(graph.tables, w, dir) && w[0] == node_id && w.last() != node_id
                && crate::graph::within((w.len() - 1) as nat, options.max_depth) ==> crate::graph::in_summaries(v@, w.last())
        &&& forall|a: int|
            0 <= a < v@.len() ==> crate::graph::near(graph_places(graph.tables), node_id, (#[trigger] v@[a]).id@, options.max_depth, dir)
        &&& exists|ds: Seq<nat>| crate::graph::level_ordered(graph_places(graph.tables), node_id, v@, ds, dir)
    })
}

/// A breadth-first walk from `node_id` (each node once, up to
/// `max_depth` steps).
pub fn traverse(graph: &IdeaGraph, node_id: &str, options: crate::model::TraversalOptions, dir: crate::graph::Direction) -> (r: Result<
    Vec<crate::model::NodeSummary>,
    GraphError,
>)
    ensures
        traverse_outcome(*graph, node_id@, options, dir, r),
{
    crate::ids::validate_node_id(node_id)?;
    validate_graph_name(graph.graph_name.as_str())?;
    let scan = crate::scan::load_scan(&graph.tables);
    crate::graph::traverse_in(&scan, node_id, options.max_depth, dir, Ghost(graph.tables))
}

/// The nodes above `node_id`, nearest first.
pub fn list_ancestors(graph: &IdeaGraph, node_id: &str, options: crate::model::TraversalOptions) -> (r: Result<
    Vec<crate::model::NodeSummary>,
    GraphError,
>)
    ensures
        traverse_outcome(*graph, node_id@, options, crate::graph::Direction::Ancestors, r),
{
    traverse(graph, node_id, options, crate::graph::Direction::Ancestors)
}

/// The nodes below `node_id`, nearest first.
pub fn list_descendants(graph: &IdeaGraph, node_id: &str, options: crate::model::TraversalOptions) -> (r: Result<
    Vec<crate::model::NodeSummary>,
    GraphError,
>)
    ensures
        traverse_outcome(*graph, node_id@, options, crate::graph::Direction::Descendants, r),
{
    traverse(graph, node_id, options, crate::graph::Direction::Descendants)
}

// ---------------------------------------------------------------------------
// updating a node
// ---------------------------------------------------------------------------

/// The content columns of a node row: statement body, question, answer.
pub open spec fn content_columns(c: NodeContent) -> (Option<Seq<char>>, Option<Seq<char>>, Option<Seq<char>>) {
    match c {
        NodeContent::Statement { body } => (Some(body@), None, None),
        NodeContent::QuestionAnswer { question, answer } => (None, Some(question@), Some(answer@)),
    }
}

/// Node rows after the rows of `id` got a new title, content and update time.
pub open spec fn rows_updated(before: Seq<NodeRowView>, after: Seq<NodeRowView>, id: Seq<char>, title: Seq<char>, content: NodeContent, updated: i64, reviewed: i64) -> bool {
    &&& after.len() == before.len()
    &&& forall|i: int|
        0 <= i < before.len() ==> #[trigger] after[i] == (if before[i].0 == id {
            (
                before[i].0,
                before[i].1,
                title,
                content_columns(content).0,
                content_columns(content).1,
                content_columns(content).2,
                before[i].6,
                updated,
                reviewed,
            )
        } else {
            before[i]
        })
}

fn update_rows(nodes: &mut Vec<NodeRow>, id: &String, title: &String, content: &NodeContent, updated: i64, reviewed: i64)
    ensures
        rows_updated(nrows(old(nodes)@), nrows(final(nodes)@), id@, title@, *content, updated, reviewed),
{
    let mut out: Vec<NodeRow> = Vec::new();
    let mut i: usize = 0;
    while i < nodes.len()
        invariant
            i <= nodes.len(),
            out.len() == i,
            forall|k: int|
                0 <= k < i ==> nrow(#[trigger] out@[k]) == (if nodes@[k].id@ == id@ {
                    (
                        nodes@[k].id@,
                        nodes@[k].kind@,
                        title@,
                        content_columns(*content).0,
                        content_columns(*content).1,
                        content_columns(*content).2,
                        nodes@[k].created_at_unix,
                        updated,
                        reviewed,
                    )
                } else {
                    nrow(nodes@[k])
                }),
        decreases nodes.len() - i,
    {
        let r = &nodes[i];
        if str_same(&r.id, id) {
            let (b, q, a) = match content {
                NodeContent::Statement { body } => (Some(body.clone()), None, None),
                NodeContent::QuestionAnswer { question, answer } => (None, Some(question.clone()), Some(answer.clone())),
            };
            out.push(
                NodeRow {
                    id: r.id.clone(),
                    kind: r.kind.clone(),
                    title: title.clone(),
                    reviewed,
                    statement_body: b,
                    qa_question: q,
                    qa_answer: a,
                    created_at_unix: r.created_at_unix,
                    updated_at_unix: updated,
                },
            );
        } else {
            out.push(crate::scan::copy_node_row(r));
        }
        i += 1;
    }
    proof {
        assert forall|k: int| 0 <= k < nodes@.len() implies #[trigger] nrows(out@)[k] == (if nrows(nodes@)[k].0 == id@ {
            (
                nrows(nodes@)[k].0,
                nrows(nodes@)[k].1,
                title@,
                content_columns(*content).0,
                content_columns(*content).1,
                content_columns(*content).2,
                nrows(nodes@)[k].6,
                updated,
                reviewed,
            )
        } else {
            nrows(nodes@)[k]
        }) by {
            assert(nrows(out@)[k] == nrow(out@[k]));
            assert(nrows(nodes@)[k] == nrow(nodes@[k]));
        }
    }
    *nodes = out;
}

/// Why a node cannot be updated with `patch`, when that is decided before
/// any row is written.
pub open spec fn update_error(g: IdeaGraph, id: Seq<char>, patch: crate::model::NodePatch) -> Option<ErrorView> {
    if !uuid_shape(id) {
        Some(simple_error(9, id))
    } else if graph_name_error(g.graph_name@) is Some {
        graph_name_error(g.graph_name@)
    } else if node_error(g.tables, id) is Some {
        node_error(g.tables, id)
    } else if patch.title matches Some(t) && !valid_title(t@) {
        Some(simple_error(11, Seq::empty()))
    } else if patch.content matches Some(c) && kind_of(c) != crate::store::row_kind(
        graph_nodes(g.tables)[node_index_of(g.tables, id)],
    ) {
        Some((13, canon(g.tables, id)[0].3, "node kind does not match node content"@, Seq::empty()))
    } else if patch.content matches Some(c) && c is QuestionAnswer && is_blank(content_parts(c).0) {
        Some((13, canon(g.tables, id)[0].3, "question must not be empty"@, Seq::empty()))
    } else {
        None
    }
}

/// `u + 1`, or `u` at the top of the range.
pub open spec fn next_time(u: u64) -> u64 {
    if u == u64::MAX {
        u
    } else {
        (u + 1) as u64
    }
}

/// What `update_node` returns and leaves, by its arguments.
pub open spec fn update_node_outcome(prior: IdeaGraph, later: IdeaGraph, node_id: Seq<char>, patch: crate::model::NodePatch, r: Result<crate::model::Node, GraphError>) -> bool {
    match r {
        Ok(n) => {
            let t = prior.tables;
            let before = crate::graph::node_of(t, node_id);
            let title = match patch.title {
                Some(x) => x@,
                None => before.2,
            };
            let reviewed = match patch.reviewed {
                Some(b) => b,
                None => before.9,
            };
            &&& update_error(prior, node_id, patch) is None
            &&& n.reviewed == reviewed
            &&& n.id@ == node_id
            &&& n.kind == before.1
            &&& n.title@ == title
            &&& (match patch.content {
                Some(c) => kind_of(n.content) == kind_of(c) && content_parts(n.content) == content_parts(c),
                None => kind_of(n.content) == before.3 && content_parts(n.content) == before.4,
            })
            &&& n.created_at_unix == before.5
            &&& n.updated_at_unix >= next_time(before.6)
            &&& n.updated_at_unix <= i64::MAX
            &&& n.canonical_path@ == before.7
            &&& crate::scan::texts(n.alias_paths) == before.8
            &&& rows_updated(
                nrows(t.nodes@),
                nrows(later.tables.nodes@),
                node_id,
                title,
                n.content,
                n.updated_at_unix as i64,
                if reviewed {
                    1
                } else {
                    0
                },
            )
            &&& prows(later.tables.placements@) == prows(t.placements@)
            &&& crows(later.tables.contexts@) == crows(t.contexts@)
            &&& later.graph_name@ == prior.graph_name@
            &&& later.tables.reserved@ == prior.tables.reserved@
        },
        Err(e) => later == prior && match update_error(prior, node_id, patch) {
            Some(x) => error_view(e) == x,
            None => error_view(e) == timestamp_error(),
        },
    }
}

/// Sets a node's title and content; returns the node as it now reads. The
/// node keeps its id, kind, creation time and placements.
pub fn update_node(graph: &mut IdeaGraph, node_id: &str, patch: crate::model::NodePatch) -> (r: Result<crate::model::Node, GraphError>)
    ensures
        update_node_outcome(*old(graph), *final(graph), node_id@, patch, r),
{
    update_node_at(graph, node_id, patch, now_unix())
}

/// The time an update made at clock time `now` stamps on a row last
/// updated at `last`: `now`, or one second after `last` when that is later.
pub open spec fn update_stamp(now: u64, last: u64) -> u64 {
    if now > next_time(last) {
        now
    } else {
        next_time(last)
    }
}

/// Updates a node at clock time `now`: it succeeds exactly when the update's
/// checks pass and its time stamp fits in an SQLite integer, and the node
/// then carries that stamp.
pub fn update_node_at(graph: &mut IdeaGraph, node_id: &str, patch: crate::model::NodePatch, now: u64) -> (r: Result<crate::model::Node, GraphError>)
    ensures
        update_node_outcome(*old(graph), *final(graph), node_id@, patch, r),
        r matches Ok(n) ==> n.updated_at_unix == update_stamp(now, crate::graph::node_of(old(graph).tables, node_id@).6),
        r is Err && update_error(*old(graph), node_id@, patch) is None ==> update_stamp(
            now,
            crate::graph::node_of(old(graph).tables, node_id@).6,
        ) > i64::MAX,
{
    crate::ids::validate_node_id(node_id)?;
    validate_graph_name(graph.graph_name.as_str())?;
    let scan = crate::scan::load_scan(&graph.tables);
    let ghost t = graph.tables;
    let k = crate::graph::canonical_node(&scan, node_id, Ghost(graph.tables))?;
    let before = crate::graph::node_from_scanned(&scan, k, Ghost(graph.tables));
    proof {
        crate::scan::lemma_scan_nodes(scan, t);
        assert(graph_nodes(t)[node_index_of(t, node_id@)].id@ == node_id@);
        assert(crate::scan::node_assembled(scan.nodes@[k as int], graph_nodes(t)[k as int], graph_places(t)));
    }
    let title = match patch.title {
        Some(x) => {
            validate_title(x.as_str())?;
            x
        },
        None => before.title.clone(),
    };
    let content = match patch.content {
        Some(c) => {
            validate_content_matches(&before.kind, &c, before.canonical_path.as_str())?;
            validate_content_values(&c, before.canonical_path.as_str())?;
            c
        },
        None => crate::graph::copy_content(&before.content),
    };
    let next = before.updated_at_unix.saturating_add(1);
    let updated = if now > next {
        now
    } else {
        next
    };
    let stored = unix_to_i64(updated)?;
    let reviewed = match patch.reviewed {
        Some(b) => b,
        None => before.reviewed,
    };
    let id = string_from_str(node_id);
    update_rows(&mut graph.tables.nodes, &id, &title, &content, stored, if reviewed {
        1
    } else {
        0
    });
    Ok(
        crate::model::Node {
            id,
            kind: before.kind,
            title,
            reviewed,
            content,
            created_at_unix: before.created_at_unix,
            updated_at_unix: updated,
            canonical_path: before.canonical_path,
            alias_paths: before.alias_paths,
        },
    )
}

// ---------------------------------------------------------------------------
// linking
// ---------------------------------------------------------------------------

/// Why `child` cannot be linked under `parent`, when the rows decide it.
pub open spec fn link_error(g: IdeaGraph, parent: Seq<char>, child: Seq<char>) -> Option<ErrorView> {
    if !uuid_shape(parent) {
        Some(simple_error(9, parent))
    } else if !uuid_shape(child) {
        Some(simple_error(9, child))
    } else if parent == child {
        Some(simple_error(18, Seq::empty()))
    } else if graph_name_error(g.graph_name@) is Some {
        graph_name_error(g.graph_name@)
    } else if parent_error(g.tables, parent) is Some {
        parent_error(g.tables, parent)
    } else if child_error(g.tables, child) is Some {
        child_error(g.tables, child)
    } else if crate::scan::has_edge(graph_places(g.tables), parent, child) {
        None
    } else if crate::scan::reaches(graph_places(g.tables), child, parent) {
        Some(simple_error(18, Seq::empty()))
    } else {
        None
    }
}

/// The child's only entry is its canonical root entry: linking moves it.
pub open spec fn link_moves(t: Tables, child: Seq<char>) -> bool {
    &&& !(exists|k: int| crate::graph::is_parent_edge(graph_places(t), child, k))
    &&& canon(t, child)[0].2 is None
}

/// The rows after the canonical row `rid` moved under `parent` with a new
/// slug and path, its subtree following.
pub open spec fn entry_moved(before: Seq<PlacementRow>, after: Seq<PlacementRow>, rid: i64, parent: Option<Seq<char>>, slug: Seq<char>, old_path: Seq<char>, new_path: Seq<char>) -> bool {
    &&& after.len() == before.len()
    &&& forall|i: int|
        0 <= i < before.len() ==> {
            let b = #[trigger] before[i];
            let a = after[i];
            &&& a.row_id == b.row_id
            &&& a.node_id@ == b.node_id@
            &&& a.is_canonical == b.is_canonical
            &&& a.logical_path@ == moved_path(b.logical_path@, old_path, new_path)
            &&& if b.row_id == rid {
                opt_view(a.parent_id) == parent && a.slug@ == slug
            } else {
                opt_view(a.parent_id) == opt_view(b.parent_id) && a.slug@ == b.slug@
            }
        }
}

fn set_parent_and_slug(ps: &mut Vec<PlacementRow>, rid: i64, parent: Option<String>, slug: &String)
    ensures
        final(ps)@.len() == old(ps)@.len(),
        forall|i: int|
            0 <= i < old(ps)@.len() ==> {
                let b = #[trigger] old(ps)@[i];
                let a = final(ps)@[i];
                &&& a.row_id == b.row_id
                &&& a.node_id@ == b.node_id@
                &&& a.is_canonical == b.is_canonical
                &&& a.logical_path@ == b.logical_path@
                &&& if b.row_id == rid {
                    opt_view(a.parent_id) == opt_view(parent) && a.slug@ == slug@
                } else {
                    opt_view(a.parent_id) == opt_view(b.parent_id) && a.slug@ == b.slug@
                }
            },
{
    let mut out: Vec<PlacementRow> = Vec::new();
    let mut i: usize = 0;
    while i < ps.len()
        invariant
            i <= ps.len(),
            out.len() == i,
            forall|k: int|
                0 <= k < i ==> {
                    let b = #[trigger] ps@[k];
                    let a = out@[k];
                    &&& a.row_id == b.row_id
                    &&& a.node_id@ == b.node_id@
                    &&& a.is_canonical == b.is_canonical
                    &&& a.logical_path@ == b.logical_path@
                    &&& if b.row_id == rid {
                        opt_view(a.parent_id) == opt_view(parent) && a.slug@ == slug@
                    } else {
                        opt_view(a.parent_id) == opt_view(b.parent_id) && a.slug@ == b.slug@
                    }
                },
        decreases ps.len() - i,
    {
        let r = &ps[i];
        if r.row_id == rid {
            out.push(
                PlacementRow {
                    row_id: r.row_id,
                    node_id: r.node_id.clone(),
                    parent_id: copy_opt(&parent),
                    slug: slug.clone(),
                    logical_path: r.logical_path.clone(),
                    is_canonical: r.is_canonical,
                },
            );
        } else {
            out.push(crate::scan::copy_placement_row(r));
        }
        i += 1;
    }
    *ps = out;
}

/// Moves the canonical entry `rid` (at `old_path`) under `parent` into
/// `container`, with its subtree.
fn move_entry(ps: &mut Vec<PlacementRow>, res: &Vec<String>, rid: i64, parent: Option<String>, old_path: &String, container: &String, title: &str, id: &str) -> (r: Result<(), GraphError>)
    ensures
        match r {
            Ok(()) => exists|k: nat|
                first_free(old(ps)@, res@, container@, slug_of(title@), id@, k) && entry_moved(
                    old(ps)@,
                    final(ps)@,
                    rid,
                    opt_view(parent),
                    suffixed_slug(slug_of(title@), k),
                    old_path@,
                    entry_path(container@, suffixed_slug(slug_of(title@), k), id@),
                ),
            Err(e) => *final(ps) == *old(ps) && error_view(e) == simple_error(22, container@) && all_suffixes_taken(
                old(ps)@,
                res@,
                container@,
                slug_of(title@),
                id@,
            ),
        },
        r is Ok <==> !all_suffixes_taken(old(ps)@, res@, container@, slug_of(title@), id@),
{
    let (slug, new_path) = unique_path(ps, res, container, title, id)?;
    let ghost before = ps@;
    set_parent_and_slug(ps, rid, parent, &slug);
    let ghost mid = ps@;
    rewrite_subtree_paths(ps, old_path, &new_path, None);
    proof {
        let k = choose|k: nat| first_free(before, res@, container@, slug_of(title@), id@, k) && slug@ == suffixed_slug(
            slug_of(title@),
            k,
        ) && new_path@ == entry_path(container@, slug@, id@);
        assert(entry_moved(before, ps@, rid, opt_view(parent), slug@, old_path@, new_path@)) by {
            assert forall|i: int| 0 <= i < before.len() implies {
                let b = #[trigger] before[i];
                let a = ps@[i];
                &&& a.row_id == b.row_id
                &&& a.node_id@ == b.node_id@
                &&& a.is_canonical == b.is_canonical
                &&& a.logical_path@ == moved_path(b.logical_path@, old_path@, new_path@)
                &&& if b.row_id == rid {
                    opt_view(a.parent_id) == opt_view(parent) && a.slug@ == slug@
                } else {
                    opt_view(a.parent_id) == opt_view(b.parent_id) && a.slug@ == b.slug@
                }
            } by {
                assert(same_but_path(ps@[i], mid[i]));
            }
        }
    }
    Ok(())
}

/// The rows after adding an alias entry of `child` under `parent`.
pub open spec fn alias_added(before: Tables, after: Tables, parent: Seq<char>, child: Seq<char>, container: Seq<char>, title: Seq<char>) -> bool {
    exists|rid: i64, k: nat|
        #![trigger first_free(before.placements@, before.reserved@, container, slug_of(title), child, k), fresh_row_id(before.placements@, rid)]
        {
            &&& rid >= 1
            &&& fresh_row_id(before.placements@, rid)
            &&& first_free(before.placements@, before.reserved@, container, slug_of(title), child, k)
            &&& prows(after.placements@) == prows(before.placements@).push(
                (
                    rid,
                    child,
                    Some(parent),
                    suffixed_slug(slug_of(title), k),
                    entry_path(container, suffixed_slug(slug_of(title), k), child),
                    0,
                ),
            )
        }
}

/// What `link_existing_node` returns and leaves, by its arguments.
pub open spec fn link_existing_node_outcome(prior: IdeaGraph, later: IdeaGraph, parent_id: Seq<char>, child_id: Seq<char>, r: Result<(), GraphError>) -> bool {
    ({
        let t = prior.tables;
        let child_title = graph_nodes(t)[node_index_of(t, child_id)].title@;
        let container = canon(t, parent_id)[0].3 + "/children"@;
        match r {
            Ok(()) => {
                &&& link_error(prior, parent_id, child_id) is None
                &&& nrows(later.tables.nodes@) == nrows(t.nodes@)
                &&& crows(later.tables.contexts@) == crows(t.contexts@)
                &&& later.graph_name@ == prior.graph_name@
                &&& later.tables.reserved@ == prior.tables.reserved@
            &&& later.tables.reserved@ == prior.tables.reserved@
                &&& if crate::scan::has_edge(graph_places(t), parent_id, child_id) {
                    later == prior
                } else if link_moves(t, child_id) {
                    !all_suffixes_taken(t.placements@, t.reserved@, container, slug_of(child_title), child_id) && exists|k: nat|
                        first_free(t.placements@, t.reserved@, container, slug_of(child_title), child_id, k) && entry_moved(
                            t.placements@,
                            later.tables.placements@,
                            canon(t, child_id)[0].0,
                            Some(parent_id),
                            suffixed_slug(slug_of(child_title), k),
                            canon(t, child_id)[0].3,
                            entry_path(container, suffixed_slug(slug_of(child_title), k), child_id),
                        )
                } else {
                    entry_error(t.placements@, t.reserved@, container, child_title, child_id) is None && alias_added(
                        t,
                        later.tables,
                        parent_id,
                        child_id,
                        container,
                        child_title,
                    )
                }
            },
            Err(e) => later == prior && match link_error(prior, parent_id, child_id) {
                Some(x) => error_view(e) == x,
                None => !crate::scan::has_edge(graph_places(t), parent_id, child_id) && if link_moves(t, child_id) {
                    all_suffixes_taken(t.placements@, t.reserved@, container, slug_of(child_title), child_id) && error_view(e)
                        == simple_error(22, container)
                } else {
                    entry_error(t.placements@, t.reserved@, container, child_title, child_id) == Some(error_view(e))
                },
            },
        }
    })
}

/// The canonical path of the parent a link would put the child under, when
/// the link's checks pass and the edge is not there yet.
pub fn link_parent_path(graph: &IdeaGraph, parent_id: &str, child_id: &str) -> (r: Option<String>)
    ensures
        match r {
            Some(cp) => link_error(*graph, parent_id@, child_id@) is None && !crate::scan::has_edge(
                graph_places(graph.tables),
                parent_id@,
                child_id@,
            ) && cp@ == canon(graph.tables, parent_id@)[0].3,
            None => link_error(*graph, parent_id@, child_id@) is Some || crate::scan::has_edge(
                graph_places(graph.tables),
                parent_id@,
                child_id@,
            ),
        },
{
    if crate::ids::validate_node_id(parent_id).is_err() || crate::ids::validate_node_id(child_id).is_err() {
        return None;
    }
    if crate::text::str_eq(parent_id, child_id) {
        return None;
    }
    if validate_graph_name(graph.graph_name.as_str()).is_err() {
        return None;
    }
    let ghost t = graph.tables;
    let scan = crate::scan::load_scan(&graph.tables);
    let pk = match crate::graph::require_parent_node(&scan, parent_id, Ghost(graph.tables)) {
        Ok(k) => k,
        Err(_) => {
            return None;
        },
    };
    if crate::graph::require_child_node(&scan, child_id, Ghost(graph.tables)).is_err() {
        return None;
    }
    proof {
        crate::scan::lemma_scan_nodes(scan, t);
        assert(crate::scan::node_assembled(scan.nodes@[pk as int], graph_nodes(t)[pk as int], graph_places(t)));
        assert(graph_nodes(t)[node_index_of(t, parent_id@)].id@ == parent_id@);
        assert(crate::scan::placement_views(scan.nodes@[pk as int].canonical_placements@)[0]
            == scan.nodes@[pk as int].canonical_placements@[0].view());
    }
    if crate::graph::find_placement(&scan, parent_id, child_id, Ghost(graph.tables)).is_some() {
        return None;
    }
    if crate::graph::reaches_exec(&scan, child_id, parent_id, Ghost(graph.tables)) {
        return None;
    }
    Some(scan.nodes[pk].canonical_placements[0].logical_path.clone())
}

/// Links an existing node under another parent. An edge that exists is
/// left as it is; a root node with no parent moves under the parent; any
/// other node gets an alias entry there. A link that would close a cycle
/// is refused.
#[verifier::rlimit(60)]
pub fn link_existing_node(graph: &mut IdeaGraph, parent_id: &str, child_id: &str) -> (r: Result<(), GraphError>)
    ensures
        link_existing_node_outcome(*old(graph), *final(graph), parent_id@, child_id@, r),
{
    crate::ids::validate_node_id(parent_id)?;
    crate::ids::validate_node_id(child_id)?;
    if crate::text::str_eq(parent_id, child_id) {
        return Err(GraphError::CycleDetected);
    }
    validate_graph_name(graph.graph_name.as_str())?;
    let ghost t = graph.tables;
    let scan = crate::scan::load_scan(&graph.tables);
    let pk = crate::graph::require_parent_node(&scan, parent_id, Ghost(graph.tables))?;
    let ck = crate::graph::require_child_node(&scan, child_id, Ghost(graph.tables))?;
    proof {
        crate::scan::lemma_scan_nodes(scan, t);
        assert(crate::scan::node_assembled(scan.nodes@[pk as int], graph_nodes(t)[pk as int], graph_places(t)));
        assert(crate::scan::node_assembled(scan.nodes@[ck as int], graph_nodes(t)[ck as int], graph_places(t)));
        assert(graph_nodes(t)[node_index_of(t, parent_id@)].id@ == parent_id@);
        assert(graph_nodes(t)[node_index_of(t, child_id@)].id@ == child_id@);
        assert(crate::scan::placement_views(scan.nodes@[pk as int].canonical_placements@)[0]
            == scan.nodes@[pk as int].canonical_placements@[0].view());
        assert(crate::scan::placement_views(scan.nodes@[ck as int].canonical_placements@)[0]
            == scan.nodes@[ck as int].canonical_placements@[0].view());
    }
    if crate::graph::find_placement(&scan, parent_id, child_id, Ghost(graph.tables)).is_some() {
        return Ok(());
    }
    if crate::graph::reaches_exec(&scan, child_id, parent_id, Ghost(graph.tables)) {
        return Err(GraphError::CycleDetected);
    }
    let mut container = scan.nodes[pk].canonical_placements[0].logical_path.clone();
    push_str(&mut container, "/children");
    let child = &scan.nodes[ck];
    let parents = crate::graph::parent_edges(&scan, child_id, Ghost(graph.tables));
    let canonical = &child.canonical_placements[0];
    if parents.len() == 0 && canonical.parent_id.is_none() {
        proof {
            assert(link_moves(t, child_id@)) by {
                if exists|k: int| crate::graph::is_parent_edge(graph_places(t), child_id@, k) {
                    let k = choose|k: int| crate::graph::is_parent_edge(graph_places(t), child_id@, k);
                    assert(crate::graph::is_parent_edge(graph_places(t), child_id@, k));
                }
            }
        }
        proof {
            assert(canonical.view() == canon(t, child_id@)[0]);
            assert(child.fields.title@ == graph_nodes(t)[node_index_of(t, child_id@)].title@);
            assert(container@ == canon(t, parent_id@)[0].3 + "/children"@);
        }
        let res = move_entry(
            &mut graph.tables.placements,
            &graph.tables.reserved,
            canonical.row_id,
            Some(string_from_str(parent_id)),
            &canonical.logical_path,
            &container,
            child.fields.title.as_str(),
            child_id,
        );
        proof {
            assert(nrows(graph.tables.nodes@) == nrows(t.nodes@));
            assert(crows(graph.tables.contexts@) == crows(t.contexts@));
            assert(!crate::scan::has_edge(graph_places(t), parent_id@, child_id@));
        }
        res
    } else {
        proof {
            assert(!link_moves(t, child_id@)) by {
                if parents.len() > 0 {
                    assert(crate::graph::is_parent_edge(graph_places(t), child_id@, parents@[0] as int));
                }
            }
        }
        proof {
            assert(child.fields.title@ == graph_nodes(t)[node_index_of(t, child_id@)].title@);
            assert(container@ == canon(t, parent_id@)[0].3 + "/children"@);
            assert(!crate::scan::has_edge(graph_places(t), parent_id@, child_id@));
        }
        add_alias_entry(&mut graph.tables, parent_id, child_id, &container, child.fields.title.as_str())
    }
}

fn add_alias_entry(t: &mut Tables, parent_id: &str, child_id: &str, container: &String, title: &str) -> (r: Result<(), GraphError>)
    ensures
        match r {
            Ok(()) => alias_added(*old(t), *final(t), parent_id@, child_id@, container@, title@) && nrows(final(t).nodes@)
                == nrows(old(t).nodes@) && crows(final(t).contexts@) == crows(old(t).contexts@)
                && final(t).reserved@ == old(t).reserved@,
            Err(e) => *final(t) == *old(t) && entry_error(old(t).placements@, old(t).reserved@, container@, title@, child_id@) == Some(
                error_view(e),
            ),
        },
        r is Ok <==> entry_error(old(t).placements@, old(t).reserved@, container@, title@, child_id@) is None,
{
    let (slug, path) = unique_path(&t.placements, &t.reserved, container, title, child_id)?;
    let rid = next_row_id(&t.placements)?;
    let place = PlacementRow {
        row_id: rid,
        node_id: string_from_str(child_id),
        parent_id: Some(string_from_str(parent_id)),
        slug,
        logical_path: path,
        is_canonical: 0,
    };
    let ghost before = t.placements@;
    t.placements.push(place);
    proof {
        assert(prows(t.placements@) =~= prows(before).push(prow(place)));
        let k = choose|k: nat| first_free(before, t.reserved@, container@, slug_of(title@), child_id@, k)
            && place.slug@ == suffixed_slug(slug_of(title@), k) && place.logical_path@ == entry_path(
            container@,
            place.slug@,
            child_id@,
        );
        assert(first_free(old(t).placements@, old(t).reserved@, container@, slug_of(title@), child_id@, k));
        assert(fresh_row_id(old(t).placements@, rid));
    }
    Ok(())
}

// ---------------------------------------------------------------------------
// promotion and deletion
// ---------------------------------------------------------------------------

/// `after` is `before` with row `rid` made canonical.
pub open spec fn flagged(before: Seq<PlacementRow>, after: Seq<PlacementRow>, rid: i64) -> bool {
    &&& after.len() == before.len()
    &&& forall|i: int|
        0 <= i < before.len() ==> {
            let b = #[trigger] before[i];
            let a = after[i];
            &&& a.row_id == b.row_id
            &&& a.node_id@ == b.node_id@
            &&& opt_view(a.parent_id) == opt_view(b.parent_id)
            &&& a.slug@ == b.slug@
            &&& a.logical_path@ == b.logical_path@
            &&& a.is_canonical == if b.row_id == rid {
                1i64
            } else {
                b.is_canonical
            }
        }
}

fn set_canonical(ps: &mut Vec<PlacementRow>, rid: i64)
    ensures
        flagged(old(ps)@, final(ps)@, rid),
{
    let mut out: Vec<PlacementRow> = Vec::new();
    let mut i: usize = 0;
    while i < ps.len()
        invariant
            i <= ps.len(),
            out.len() == i,
            forall|k: int|
                0 <= k < i ==> {
                    let b = #[trigger] ps@[k];
                    let a = out@[k];
                    &&& a.row_id == b.row_id
                    &&& a.node_id@ == b.node_id@
                    &&& opt_view(a.parent_id) == opt_view(b.parent_id)
                    &&& a.slug@ == b.slug@
                    &&& a.logical_path@ == b.logical_path@
                    &&& a.is_canonical == if b.row_id == rid {
                        1i64
                    } else {
                        b.is_canonical
                    }
                },
        decreases ps.len() - i,
    {
        let r = &ps[i];
        let flag = if r.row_id == rid {
            1
        } else {
            r.is_canonical
        };
        out.push(
            PlacementRow {
                row_id: r.row_id,
                node_id: r.node_id.clone(),
                parent_id: copy_opt(&r.parent_id),
                slug: r.slug.clone(),
                logical_path: r.logical_path.clone(),
                is_canonical: flag,
            },
        );
        i += 1;
    }
    *ps = out;
}

/// The canonical row `crid` (at `old_path`) is dropped, the alias row
/// `arid` (at `new_path`) becomes canonical, and the subtree follows it.
pub open spec fn promoted(before: Seq<PlacementRow>, after: Seq<PlacementRow>, crid: i64, arid: i64, old_path: Seq<char>, new_path: Seq<char>) -> bool {
    exists|m1: Seq<PlacementRow>, m2: Seq<PlacementRow>|
        prows(m1) == drop_row(prows(before), crid) && flagged(m1, m2, arid) && subtree_moved(
            m2,
            after,
            old_path,
            new_path,
            Some(crid),
        )
}

fn promote_to_alias(ps: &mut Vec<PlacementRow>, canonical: &crate::store::ScannedPlacement, alias: &crate::store::ScannedPlacement)
    ensures
        promoted(old(ps)@, final(ps)@, canonical.row_id, alias.row_id, canonical.logical_path@, alias.logical_path@),
{
    delete_placement(ps, canonical.row_id);
    let ghost m1 = ps@;
    set_canonical(ps, alias.row_id);
    let ghost m2 = ps@;
    rewrite_subtree_paths(ps, &canonical.logical_path, &alias.logical_path, Some(canonical.row_id));
    assert(prows(m1) == drop_row(prows(old(ps)@), canonical.row_id) && flagged(m1, m2, alias.row_id)
        && subtree_moved(m2, ps@, canonical.logical_path@, alias.logical_path@, Some(canonical.row_id)));
}

/// Node rows other than those of ids in `d`, in order.
pub open spec fn drop_nodes(v: Seq<NodeRowView>, d: Seq<Seq<char>>) -> Seq<NodeRowView>
    decreases v.len(),
{
    if v.len() == 0 {
        Seq::empty()
    } else {
        let prev = drop_nodes(v.drop_last(), d);
        if d.contains(v.last().0) {
            prev
        } else {
            prev.push(v.last())
        }
    }
}

/// No row names a node of `d`, as node or as parent.
pub open spec fn untouched_by(ps: Seq<PlacementRow>, d: Seq<Seq<char>>) -> bool {
    forall|i: int|
        0 <= i < ps.len() ==> !d.contains((#[trigger] ps[i]).node_id@) && !(ps[i].parent_id matches Some(p)
            && d.contains(p@))
}

fn drop_node_rows(nodes: &mut Vec<NodeRow>, d: &Vec<String>)
    ensures
        nrows(final(nodes)@) == drop_nodes(nrows(old(nodes)@), crate::scan::texts(*d)),
{
    let ghost dv = crate::scan::texts(*d);
    let mut out: Vec<NodeRow> = Vec::new();
    let mut i: usize = 0;
    while i < nodes.len()
        invariant
            i <= nodes.len(),
            dv == crate::scan::texts(*d),
            nrows(out@) == drop_nodes(nrows(nodes@).take(i as int), dv),
        decreases nodes.len() - i,
    {
        proof {
            assert(nrows(nodes@).take(i + 1).drop_last() =~= nrows(nodes@).take(i as int));
            assert(nrows(nodes@).take(i + 1).last() == nrow(nodes@[i as int]));
        }
        let ghost old_out = out@;
        if !text_listed(d, &nodes[i].id) {
            let c = crate::scan::copy_node_row(&nodes[i]);
            out.push(c);
            proof {
                assert(nrows(out@) =~= nrows(old_out).push(nrow(c)));
            }
        }
        i += 1;
    }
    assert(nrows(nodes@).take(nodes.len() as int) =~= nrows(nodes@));
    *nodes = out;
}

fn text_listed(d: &Vec<String>, x: &String) -> (r: bool)
    ensures
        r == crate::scan::texts(*d).contains(x@),
{
    let mut i: usize = 0;
    while i < d.len()
        invariant
            i <= d.len(),
            forall|k: int| 0 <= k < i ==> (#[trigger] d@[k])@ != x@,
        decreases d.len() - i,
    {
        if str_same(&d[i], x) {
            assert(crate::scan::texts(*d)[i as int] == x@);
            return true;
        }
        i += 1;
    }
    proof {
        if crate::scan::texts(*d).contains(x@) {
            let k = choose|k: int| 0 <= k < crate::scan::texts(*d).len() && crate::scan::texts(*d)[k] == x@;
            assert(d@[k]@ == x@);
        }
    }
    false
}

/// Every row of `after` is a row of `before`.
pub open spec fn rows_from(after: Seq<PlacementRow>, before: Seq<PlacementRow>) -> bool {
    forall|x: int| 0 <= x < after.len() ==> exists|y: int| 0 <= y < before.len() && prow(#[trigger] after[x]) == prow(before[y])
}

fn drop_touching_rows(ps: &mut Vec<PlacementRow>, d: &Vec<String>)
    ensures
        untouched_by(final(ps)@, crate::scan::texts(*d)),
        rows_from(final(ps)@, old(ps)@),
        forall|y: int|
            0 <= y < old(ps)@.len() && !touches(#[trigger] old(ps)@[y], crate::scan::texts(*d)) ==> core_in(
                final(ps)@,
                row_core(old(ps)@[y]),
            ),
{
    let ghost dv = crate::scan::texts(*d);
    let mut out: Vec<PlacementRow> = Vec::new();
    let mut i: usize = 0;
    while i < ps.len()
        invariant
            i <= ps.len(),
            *ps == *old(ps),
            dv == crate::scan::texts(*d),
            untouched_by(out@, dv),
            rows_from(out@, ps@),
            forall|y: int| 0 <= y < i && !touches(#[trigger] ps@[y], dv) ==> core_in(out@, row_core(ps@[y])),
        decreases ps.len() - i,
    {
        let r = &ps[i];
        let touched = text_listed(d, &r.node_id) || match &r.parent_id {
            Some(p) => text_listed(d, p),
            None => false,
        };
        let ghost before_out = out@;
        if !touched {
            let c = crate::scan::copy_placement_row(r);
            let ghost old_out = out@;
            out.push(c);
            proof {
                assert(row_core(out@[old_out.len() as int]) == row_core(ps@[i as int]));
                assert forall|x: int| 0 <= x < out@.len() implies exists|y: int| 0 <= y < ps@.len() && prow(#[trigger] out@[x]) == prow(ps@[y]) by {
                    if x < old_out.len() {
                        assert(out@[x] == old_out[x]);
                    } else {
                        assert(prow(out@[x]) == prow(ps@[i as int]));
                    }
                }
            }
        }
        proof {
            assert forall|y: int| 0 <= y < i + 1 && !touches(#[trigger] ps@[y], dv) implies core_in(out@, row_core(ps@[y])) by {
                if y < i {
                    let x = choose|x: int| 0 <= x < before_out.len() && row_core(before_out[x]) == row_core(ps@[y]);
                    assert(out@[x] == before_out[x]);
                }
            }
        }
        i += 1;
    }
    *ps = out;
}

/// The canonical paths of the nodes of `d` (the first `n`) that have one,
/// in the order of `d`.
pub open spec fn deleted_paths(t: Tables, d: Seq<Seq<char>>, n: int) -> Seq<Seq<char>>
    decreases n,
{
    if n <= 0 {
        Seq::empty()
    } else if crate::graph::has_node(t, d[n - 1]) && canon(t, d[n - 1]).len() > 0 {
        deleted_paths(t, d, n - 1).push(canon(t, d[n - 1])[0].3)
    } else {
        deleted_paths(t, d, n - 1)
    }
}

/// Node `id`, outside `d` and under a node of `d`, has its canonical entry
/// inside a deleted directory and an alias outside them all: a delete of
/// `d` promotes it.
pub open spec fn promoted_by_delete(t: Tables, d: Seq<Seq<char>>, id: Seq<char>) -> bool {
    let gp = graph_places(t);
    let dp = deleted_paths(t, d, d.len() as int);
    let aliases = crate::scan::path_sorted(crate::scan::places_of(gp, id, false));
    &&& crate::graph::has_node(t, id)
    &&& !d.contains(id)
    &&& exists|i: int| 0 <= i < gp.len() && (#[trigger] gp[i]).1 == id && gp[i].2 is Some && d.contains(gp[i].2->0)
    &&& canon(t, id).len() > 0
    &&& crate::paths::within_any(canon(t, id)[0].3, dp)
    &&& exists|a: int| 0 <= a < aliases.len() && !crate::paths::within_any((#[trigger] aliases[a]).3, dp)
}

/// A delete of `d` cannot go on: a node it would promote cannot be read,
/// for the error `e`.
pub open spec fn delete_blocked(t: Tables, d: Seq<Seq<char>>, e: ErrorView) -> bool {
    exists|id: Seq<char>| #[trigger] promoted_by_delete(t, d, id) && node_error(t, id) == Some(e)
}

proof fn lemma_candidate_promoted(scan: Scan, t: Tables, d: Seq<Seq<char>>, dp: Seq<Seq<char>>, k: int)
    requires
        scan_of(scan, t),
        dp == deleted_paths(t, d, d.len() as int),
        promotion_candidate(scan, d, dp, k),
    ensures
        0 <= k < graph_nodes(t).len(),
        promoted_by_delete(t, d, graph_nodes(t)[k].id@),
{
    crate::scan::lemma_scan_nodes(scan, t);
    reveal(crate::scan::scan_of);
    let i = choose|i: int| #[trigger] promotes_at(scan, d, dp, i, k);
    let gp = graph_places(t);
    let id = graph_nodes(t)[k].id@;
    assert(crate::scan::node_assembled(scan.nodes@[k], graph_nodes(t)[k], gp));
    assert(scan.nodes@[k].fields.id@ == id);
    assert(gp[i] == scan.placements@[i].view());
    assert(canon(t, id) == crate::scan::placement_views(scan.nodes@[k].canonical_placements@));
    assert(canon(t, id)[0] == scan.nodes@[k].canonical_placements@[0].view());
    let aliases = crate::scan::path_sorted(crate::scan::places_of(gp, id, false));
    assert(aliases == crate::scan::placement_views(scan.nodes@[k].alias_placements@));
    let a = choose|a: int|
        0 <= a < scan.nodes@[k].alias_placements@.len() && !crate::paths::within_any(
            (#[trigger] scan.nodes@[k].alias_placements@[a]).logical_path@,
            dp,
        );
    assert(aliases[a] == scan.nodes@[k].alias_placements@[a].view());
    assert(crate::graph::has_node(t, id));
}

/// A node the delete promotes is a candidate of the scan.
proof fn lemma_promoted_candidate(scan: Scan, t: Tables, d: Seq<Seq<char>>, dp: Seq<Seq<char>>, x: Seq<char>) -> (k: int)
    requires
        scan_of(scan, t),
        dp == deleted_paths(t, d, d.len() as int),
        promoted_by_delete(t, d, x),
    ensures
        0 <= k < scan.nodes@.len(),
        promotion_candidate(scan, d, dp, k),
        first_canonical_path(scan, k) == canon(t, x)[0].3,
{
    crate::scan::lemma_scan_nodes(scan, t);
    let gp = graph_places(t);
    let k = choose|k: int| 0 <= k < graph_nodes(t).len() && (#[trigger] graph_nodes(t)[k]).id@ == x;
    assert(crate::scan::node_assembled(scan.nodes@[k], graph_nodes(t)[k], gp));
    assert(scan.nodes@[k].fields.id@ == x);
    let i = choose|i: int| 0 <= i < gp.len() && (#[trigger] gp[i]).1 == x && gp[i].2 is Some && d.contains(gp[i].2->0);
    assert(gp[i] == scan.placements@[i].view());
    assert(canon(t, x) == crate::scan::placement_views(scan.nodes@[k].canonical_placements@));
    assert(canon(t, x)[0] == scan.nodes@[k].canonical_placements@[0].view());
    let aliases = crate::scan::path_sorted(crate::scan::places_of(gp, x, false));
    assert(aliases == crate::scan::placement_views(scan.nodes@[k].alias_placements@));
    let a = choose|a: int| 0 <= a < aliases.len() && !crate::paths::within_any((#[trigger] aliases[a]).3, dp);
    assert(aliases[a] == scan.nodes@[k].alias_placements@[a].view());
    assert(!crate::paths::within_any(scan.nodes@[k].alias_placements@[a].logical_path@, dp));
    assert(promotes_at(scan, d, dp, i, k));
    k
}

proof fn lemma_places_of_bounded(ok: Seq<crate::store::PlacementView>, id: Seq<char>, c: bool)
    ensures
        crate::scan::places_of(ok, id, c).len() <= ok.len(),
    decreases ok.len(),
{
    if ok.len() > 0 {
        lemma_places_of_bounded(ok.drop_last(), id, c);
    }
}

proof fn lemma_places_of_has(ok: Seq<crate::store::PlacementView>, id: Seq<char>, c: bool, i: int)
    requires
        0 <= i < ok.len(),
        ok[i].1 == id,
        ok[i].4 == c,
    ensures
        crate::scan::places_of(ok, id, c).len() >= 1,
    decreases ok.len(),
{
    if i < ok.len() - 1 {
        assert(ok.drop_last()[i] == ok[i]);
        lemma_places_of_has(ok.drop_last(), id, c, i);
    }
}

/// Two placements of one node with the same canonical flag give that node
/// two such places.
proof fn lemma_places_of_two(ok: Seq<crate::store::PlacementView>, id: Seq<char>, c: bool, i: int, j: int)
    requires
        0 <= i < j < ok.len(),
        ok[i].1 == id && ok[i].4 == c,
        ok[j].1 == id && ok[j].4 == c,
    ensures
        crate::scan::places_of(ok, id, c).len() >= 2,
    decreases ok.len(),
{
    assert(ok.drop_last()[i] == ok[i]);
    if j == ok.len() - 1 {
        lemma_places_of_has(ok.drop_last(), id, c, i);
    } else {
        assert(ok.drop_last()[j] == ok[j]);
        lemma_places_of_two(ok.drop_last(), id, c, i, j);
    }
}

/// A node with two canonical placements has two canonical entries.
proof fn lemma_two_canonical(t: Tables, id: Seq<char>, i: int, j: int)
    requires
        0 <= i < graph_places(t).len(),
        0 <= j < graph_places(t).len(),
        i != j,
        graph_places(t)[i].1 == id && graph_places(t)[i].4,
        graph_places(t)[j].1 == id && graph_places(t)[j].4,
        graph_places(t).len() <= usize::MAX,
    ensures
        canon(t, id).len() >= 2,
{
    let gp = graph_places(t);
    if i < j {
        lemma_places_of_two(gp, id, true, i, j);
    } else {
        lemma_places_of_two(gp, id, true, j, i);
    }
    let ps = crate::scan::places_of(gp, id, true);
    lemma_places_of_bounded(gp, id, true);
    let keys = ps.map_values(|p: crate::store::PlacementView| crate::scan::place_key(p));
    crate::order::lemma_sorted_order_exists(keys);
}

/// How deep a promoted node lies: the `/`s in its canonical path (capped,
/// as an SQLite integer), so that an outer subtree's node sorts first.
pub open spec fn promotion_depth(scan: Scan, k: int) -> int {
    if scan.nodes@[k].canonical_placements@.len() > 0 {
        let n = crate::paths::slash_count(first_canonical_path(scan, k));
        if n < 0x7fff_ffff_ffff_fffe {
            n as int
        } else {
            0x7fff_ffff_ffff_fffe
        }
    } else {
        0x7fff_ffff_ffff_ffff
    }
}

/// The path of the first canonical placement of node `k` of the scan.
pub open spec fn first_canonical_path(scan: Scan, k: int) -> Seq<char> {
    scan.nodes@[k].canonical_placements@[0].logical_path@
}

/// Alias `b` of node `k` lies outside the paths `dp`, and no alias of `k`
/// outside them has a lesser path.
pub open spec fn least_alias_outside(scan: Scan, k: int, dp: Seq<Seq<char>>, b: int) -> bool {
    let al = scan.nodes@[k].alias_placements@;
    &&& 0 <= b < al.len()
    &&& !crate::paths::within_any(al[b].logical_path@, dp)
    &&& forall|a: int|
        0 <= a < al.len() && !crate::paths::within_any(#[trigger] al[a].logical_path@, dp) ==> !crate::order::chars_lt(
            al[a].logical_path@,
            al[b].logical_path@,
        )
}

/// Placement `i` puts node `k`, which is not in `d`, under a node of `d`;
/// the canonical path of `k` lies inside the paths `dp` and some alias of
/// `k` lies outside them.
pub open spec fn promotes_at(scan: Scan, d: Seq<Seq<char>>, dp: Seq<Seq<char>>, i: int, k: int) -> bool {
    &&& 0 <= i < scan.placements@.len()
    &&& 0 <= k < scan.nodes@.len()
    &&& scan.placements@[i].node_id@ == scan.nodes@[k].fields.id@
    &&& scan.placements@[i].parent_id matches Some(pid) && d.contains(pid@)
    &&& !d.contains(scan.nodes@[k].fields.id@)
    &&& scan.nodes@[k].canonical_placements@.len() > 0
    &&& crate::paths::within_any(first_canonical_path(scan, k), dp)
    &&& exists|a: int|
        0 <= a < scan.nodes@[k].alias_placements@.len() && !crate::paths::within_any(
            (#[trigger] scan.nodes@[k].alias_placements@[a]).logical_path@,
            dp,
        )
}

/// Node `k` loses its canonical entry to a delete of `d` and has an alias
/// to take over.
pub open spec fn promotion_candidate(scan: Scan, d: Seq<Seq<char>>, dp: Seq<Seq<char>>, k: int) -> bool {
    exists|i: int| #[trigger] promotes_at(scan, d, dp, i, k)
}

/// `a` is the least alias outside `dp` of the candidate `k`.
pub open spec fn promotion_pair(scan: Scan, d: Seq<Seq<char>>, dp: Seq<Seq<char>>, k: int, a: crate::store::PlacementView) -> bool {
    &&& promotion_candidate(scan, d, dp, k)
    &&& exists|b: int| #[trigger] least_alias_outside(scan, k, dp, b) && a == scan.nodes@[k].alias_placements@[b].view()
}

/// Some target's canonical path holds `p`.
pub open spec fn covered_by(scan: Scan, sel: Seq<(usize, crate::store::ScannedPlacement)>, p: Seq<char>) -> bool {
    exists|s: int| 0 <= s < sel.len() && crate::paths::path_within(p, first_canonical_path(scan, (#[trigger] sel[s]).0 as int))
}

pub open spec fn path_views(v: Seq<String>) -> Seq<Seq<char>> {
    v.map_values(|c: String| c@)
}

/// The nodes whose canonical entries a delete of `d` would remove but that
/// keep an alias outside the deleted paths, each with the alias (the least
/// path) that takes over; an outer subtree's node comes before its inner
/// ones, and a node under a listed one is left out.
#[verifier::rlimit(50)]
fn promotion_targets_for_delete(scan: &Scan, d: &Vec<String>, delete_paths: &Vec<String>, Ghost(t): Ghost<Tables>) -> (r: Vec<(usize, crate::store::ScannedPlacement)>)
    requires
        scan_of(*scan, t),
    ensures
        forall|k: int|
            0 <= k < r@.len() ==> (#[trigger] r@[k]).0 < scan.nodes@.len() && !crate::scan::texts(*d).contains(
                scan.nodes@[r@[k].0 as int].fields.id@,
            ),
        forall|k: int|
            0 <= k < r@.len() ==> promotion_pair(
                *scan,
                crate::scan::texts(*d),
                path_views(delete_paths@),
                (#[trigger] r@[k]).0 as int,
                r@[k].1.view(),
            ),
        forall|j1: int, j2: int|
            0 <= j1 < j2 < r@.len() ==> !crate::paths::path_within(
                first_canonical_path(*scan, (#[trigger] r@[j2]).0 as int),
                first_canonical_path(*scan, (#[trigger] r@[j1]).0 as int),
            ),
        forall|j1: int, j2: int|
            0 <= j1 < j2 < r@.len() ==> promotion_depth(*scan, (#[trigger] r@[j1]).0 as int) <= promotion_depth(
                *scan,
                (#[trigger] r@[j2]).0 as int,
            ),
        forall|k: int|
            #[trigger] promotion_candidate(*scan, crate::scan::texts(*d), path_views(delete_paths@), k) ==> covered_by(
                *scan,
                r@,
                first_canonical_path(*scan, k),
            ),
{
    proof {
        crate::scan::lemma_scan_nodes(*scan, t);
        crate::graph::lemma_graph_ids_distinct(t);
    }
    let ghost dd = crate::scan::texts(*d);
    let ghost dp = path_views(delete_paths@);
    let mut cand_nodes: Vec<usize> = Vec::new();
    let mut cand_alias: Vec<crate::store::ScannedPlacement> = Vec::new();
    let mut i: usize = 0;
    while i < scan.placements.len()
        invariant
            i <= scan.placements.len(),
            scan_of(*scan, t),
            dd == crate::scan::texts(*d),
            dp == path_views(delete_paths@),
            crate::scan::all_assembled(scan.nodes@, graph_nodes(t), graph_places(t)),
            forall|a: int, b: int|
                0 <= a < b < graph_nodes(t).len() ==> (#[trigger] graph_nodes(t)[a]).id@ != (#[trigger] graph_nodes(t)[b]).id@,
            cand_nodes.len() == cand_alias.len(),
            forall|k: int|
                0 <= k < cand_nodes@.len() ==> (#[trigger] cand_nodes@[k]) < scan.nodes@.len() && !dd.contains(
                    scan.nodes@[cand_nodes@[k] as int].fields.id@,
                ) && promotion_pair(*scan, dd, dp, cand_nodes@[k] as int, cand_alias@[k].view()),
            forall|k: int, i2: int|
                0 <= i2 < i && #[trigger] promotes_at(*scan, dd, dp, i2, k) ==> lists_index(cand_nodes@, k),
        decreases scan.placements.len() - i,
    {
        let p = &scan.placements[i];
        let ghost before_nodes = cand_nodes@;
        match &p.parent_id {
            Some(pid) => {
                if text_listed(d, pid) && !text_listed(d, &p.node_id) {
                    match crate::graph::find_node(scan, p.node_id.as_str(), Ghost(t)) {
                        Some(k) => {
                            let node = &scan.nodes[k];
                            proof {
                                assert(crate::scan::node_assembled(scan.nodes@[k as int], graph_nodes(t)[k as int], graph_places(t)));
                                assert(node.fields.id@ == p.node_id@);
                            }
                            if node.canonical_placements.len() > 0 && crate::paths::is_path_inside_any(
                                node.canonical_placements[0].logical_path.as_str(),
                                delete_paths,
                            ) {
                                // the first least alias outside the deleted paths
                                let ghost al = node.alias_placements@;
                                let mut best: Option<usize> = None;
                                let mut a: usize = 0;
                                while a < node.alias_placements.len()
                                    invariant
                                        a <= node.alias_placements.len(),
                                        al == node.alias_placements@,
                                        dp == path_views(delete_paths@),
                                        best is None ==> forall|a2: int|
                                            0 <= a2 < a ==> crate::paths::within_any((#[trigger] al[a2]).logical_path@, dp),
                                        best matches Some(b) ==> b < a && !crate::paths::within_any(al[b as int].logical_path@, dp)
                                            && forall|a2: int|
                                            0 <= a2 < a && !crate::paths::within_any((#[trigger] al[a2]).logical_path@, dp)
                                                ==> !crate::order::chars_lt(al[a2].logical_path@, al[b as int].logical_path@),
                                    decreases node.alias_placements.len() - a,
                                {
                                    let cand = &node.alias_placements[a];
                                    if !crate::paths::is_path_inside_any(cand.logical_path.as_str(), delete_paths) {
                                        match best {
                                            None => {
                                                best = Some(a);
                                                proof {
                                                    crate::order::lemma_lt_irreflexive(al[a as int].logical_path@);
                                                }
                                            },
                                            Some(b) => {
                                                let pa = chars_of(cand.logical_path.as_str());
                                                let pb = chars_of(node.alias_placements[b].logical_path.as_str());
                                                if crate::order::chars_less(pa.as_slice(), pb.as_slice()) {
                                                    best = Some(a);
                                                    proof {
                                                        crate::order::lemma_lt_irreflexive(al[a as int].logical_path@);
                                                        assert forall|a2: int|
                                                            0 <= a2 < a + 1 && !crate::paths::within_any((#[trigger] al[a2]).logical_path@, dp)
                                                            implies !crate::order::chars_lt(al[a2].logical_path@, al[a as int].logical_path@) by {
                                                            if a2 < a && crate::order::chars_lt(al[a2].logical_path@, al[a as int].logical_path@) {
                                                                crate::order::lemma_lt_transitive(
                                                                    al[a2].logical_path@,
                                                                    al[a as int].logical_path@,
                                                                    al[b as int].logical_path@,
                                                                );
                                                            }
                                                        }
                                                    }
                                                }
                                            },
                                        }
                                    }
                                    a += 1;
                                }
                                if let Some(b) = best {
                                    let mut seen = false;
                                    let mut c: usize = 0;
                                    while c < cand_nodes.len()
                                        invariant
                                            c <= cand_nodes.len(),
                                            seen ==> lists_index(cand_nodes@, k as int),
                                            !seen ==> forall|c2: int| 0 <= c2 < c ==> cand_nodes@[c2] != k,
                                        decreases cand_nodes.len() - c,
                                    {
                                        if cand_nodes[c] == k {
                                            seen = true;
                                            proof {
                                                assert(cand_nodes@[c as int] == k);
                                            }
                                        }
                                        c += 1;
                                    }
                                    if !seen {
                                        proof {
                                            assert(graph_nodes(t)[k as int].id@ == p.node_id@);
                                            assert(promotes_at(*scan, dd, dp, i as int, k as int));
                                            assert(least_alias_outside(*scan, k as int, dp, b as int));
                                        }
                                        let ghost old_alias = cand_alias@;
                                        cand_nodes.push(k);
                                        cand_alias.push(crate::store::copy_placement(&node.alias_placements[b]));
                                        proof {
                                            assert(cand_nodes@[before_nodes.len() as int] == k);
                                            assert forall|k2: int| 0 <= k2 < cand_nodes@.len() implies (#[trigger] cand_nodes@[k2]) < scan.nodes@.len()
                                                && !dd.contains(scan.nodes@[cand_nodes@[k2] as int].fields.id@)
                                                && promotion_pair(*scan, dd, dp, cand_nodes@[k2] as int, cand_alias@[k2].view()) by {
                                                if k2 < before_nodes.len() {
                                                    assert(cand_nodes@[k2] == before_nodes[k2]);
                                                    assert(cand_alias@[k2] == old_alias[k2]);
                                                }
                                            }
                                        }
                                    }
                                }
                            }
                        },
                        None => {},
                    }
                }
            },
            None => {},
        }
        proof {
            assert forall|k: int, i2: int| 0 <= i2 < i + 1 && #[trigger] promotes_at(*scan, dd, dp, i2, k)
                implies lists_index(cand_nodes@, k) by {
                if i2 < i {
                    assert(lists_index(before_nodes, k));
                    let c = choose|c: int| 0 <= c < before_nodes.len() && before_nodes[c] == k;
                    assert(cand_nodes@[c] == before_nodes[c]);
                } else {
                    assert(crate::scan::node_assembled(scan.nodes@[k], graph_nodes(t)[k], graph_places(t)));
                    assert(graph_nodes(t)[k].id@ == p.node_id@);
                    assert(crate::graph::has_node(t, p.node_id@));
                }
            }
        }
        i += 1;
    }
    // candidates by node id, then outer subtrees first (fewer path components)
    let mut keys: Vec<crate::order::SortKey> = Vec::new();
    let mut j: usize = 0;
    while j < cand_nodes.len()
        invariant
            j <= cand_nodes.len(),
            keys.len() == j,
            forall|k: int|
                0 <= k < cand_nodes@.len() ==> (#[trigger] cand_nodes@[k]) < scan.nodes@.len(),
            forall|k: int| 0 <= k < j ==> (#[trigger] keys@[k]).n as int == promotion_depth(*scan, cand_nodes@[k] as int),
        decreases cand_nodes.len() - j,
    {
        let node = &scan.nodes[cand_nodes[j]];
        let depth: i64 = if node.canonical_placements.len() > 0 {
            let n = crate::paths::slashes_in(node.canonical_placements[0].logical_path.as_str()) as u64;
            if n < 0x7fff_ffff_ffff_fffeu64 {
                n as i64
            } else {
                0x7fff_ffff_ffff_fffe
            }
        } else {
            0x7fff_ffff_ffff_ffff
        };
        keys.push(
            crate::order::SortKey {
                a: Vec::new(),
                b: Vec::new(),
                c: Vec::new(),
                n: depth,
            },
        );
        j += 1;
    }
    let by_id = sort_candidates_by_id(scan, &cand_nodes);
    let mut keyed: Vec<crate::order::SortKey> = Vec::new();
    let mut m: usize = 0;
    while m < by_id.len()
        invariant
            m <= by_id.len(),
            keyed.len() == m,
            keys.len() == cand_nodes.len(),
            forall|k: int| 0 <= k < by_id@.len() ==> (#[trigger] by_id@[k]) < cand_nodes.len(),
            forall|k: int| 0 <= k < cand_nodes@.len() ==> (#[trigger] keys@[k]).n as int == promotion_depth(*scan, cand_nodes@[k] as int),
            forall|k: int| 0 <= k < m ==> (#[trigger] keyed@[k]).n as int == promotion_depth(*scan, cand_nodes@[by_id@[k] as int] as int)
                && keyed@[k].a@.len() == 0 && keyed@[k].b@.len() == 0 && keyed@[k].c@.len() == 0,
        decreases by_id.len() - m,
    {
        let src = &keys[by_id[m]];
        keyed.push(crate::order::SortKey { a: Vec::new(), b: Vec::new(), c: Vec::new(), n: src.n });
        m += 1;
    }
    let order = crate::order::sort_order(&keyed);
    proof {
        assert(crate::order::key_views(keyed@).len() == keyed@.len());
    }
    let mut selected: Vec<(usize, crate::store::ScannedPlacement)> = Vec::new();
    let mut selected_paths: Vec<String> = Vec::new();
    let mut q: usize = 0;
    while q < order.len()
        invariant
            q <= order.len(),
            order.len() == keyed.len(),
            keyed.len() == by_id.len(),
            dd == crate::scan::texts(*d),
            dp == path_views(delete_paths@),
            forall|k: int| 0 <= k < order@.len() ==> (#[trigger] order@[k] as int) < keyed.len(),
            forall|k: int| 0 <= k < by_id@.len() ==> (#[trigger] by_id@[k]) < cand_nodes.len(),
            cand_nodes.len() == cand_alias.len(),
            forall|k: int|
                0 <= k < cand_nodes@.len() ==> (#[trigger] cand_nodes@[k]) < scan.nodes@.len() && !dd.contains(
                    scan.nodes@[cand_nodes@[k] as int].fields.id@,
                ) && promotion_pair(*scan, dd, dp, cand_nodes@[k] as int, cand_alias@[k].view()),
            selected_paths@.len() == selected@.len(),
            forall|k: int|
                0 <= k < selected@.len() ==> (#[trigger] selected@[k]).0 < scan.nodes@.len() && !dd.contains(
                    scan.nodes@[selected@[k].0 as int].fields.id@,
                ) && promotion_pair(*scan, dd, dp, selected@[k].0 as int, selected@[k].1.view())
                    && selected_paths@[k]@ == first_canonical_path(*scan, selected@[k].0 as int),
            forall|j1: int, j2: int|
                0 <= j1 < j2 < selected@.len() ==> !crate::paths::path_within(
                    first_canonical_path(*scan, (#[trigger] selected@[j2]).0 as int),
                    first_canonical_path(*scan, (#[trigger] selected@[j1]).0 as int),
                ),
            crate::order::is_sorted_order(crate::order::key_views(keyed@), order@),
            forall|k: int| 0 <= k < keyed@.len() ==> (#[trigger] keyed@[k]).n as int == promotion_depth(*scan, cand_nodes@[by_id@[k] as int] as int)
                && keyed@[k].a@.len() == 0 && keyed@[k].b@.len() == 0 && keyed@[k].c@.len() == 0,
            forall|j1: int, j2: int|
                0 <= j1 < j2 < selected@.len() ==> promotion_depth(*scan, (#[trigger] selected@[j1]).0 as int) <= promotion_depth(
                    *scan,
                    (#[trigger] selected@[j2]).0 as int,
                ),
            q < order.len() ==> forall|k: int|
                0 <= k < selected@.len() ==> promotion_depth(*scan, (#[trigger] selected@[k]).0 as int) <= keyed@[order@[q as int] as int].n,
            forall|q2: int|
                0 <= q2 < q ==> covered_by(
                    *scan,
                    selected@,
                    first_canonical_path(*scan, cand_nodes@[by_id@[#[trigger] order@[q2] as int] as int] as int),
                ),
        decreases order.len() - q,
    {
        let ci = by_id[order[q]];
        let k = cand_nodes[ci];
        let node = &scan.nodes[k];
        let ghost before = selected@;
        if node.canonical_placements.len() > 0 {
            let cp = &node.canonical_placements[0].logical_path;
            let cpc = chars_of(cp.as_str());
            let mut inside = false;
            let mut z: usize = 0;
            while z < selected_paths.len()
                invariant
                    z <= selected_paths.len(),
                    cpc@ == cp@,
                    inside ==> exists|z2: int| 0 <= z2 < z && crate::paths::path_within(cp@, (#[trigger] selected_paths@[z2])@),
                    !inside ==> forall|z2: int| 0 <= z2 < z ==> !crate::paths::path_within(cp@, (#[trigger] selected_paths@[z2])@),
                decreases selected_paths.len() - z,
            {
                let sp = chars_of(selected_paths[z].as_str());
                if crate::paths::is_within(cpc.as_slice(), sp.as_slice()) {
                    inside = true;
                }
                z += 1;
            }
            if !inside {
                let ghost old_paths = selected_paths@;
                selected_paths.push(cp.clone());
                selected.push((k, crate::store::copy_placement(&cand_alias[ci])));
                proof {
                    let n = before.len() as int;
                    assert(selected@[n].0 == k);
                    assert(selected_paths@[n]@ == cp@);
                    assert forall|k2: int| 0 <= k2 < selected@.len() implies (#[trigger] selected@[k2]).0 < scan.nodes@.len()
                        && !dd.contains(scan.nodes@[selected@[k2].0 as int].fields.id@)
                        && promotion_pair(*scan, dd, dp, selected@[k2].0 as int, selected@[k2].1.view())
                        && selected_paths@[k2]@ == first_canonical_path(*scan, selected@[k2].0 as int) by {
                        if k2 < n {
                            assert(selected@[k2] == before[k2]);
                            assert(selected_paths@[k2] == old_paths[k2]);
                        }
                    }
                    assert forall|j1: int, j2: int| 0 <= j1 < j2 < selected@.len() implies !crate::paths::path_within(
                        first_canonical_path(*scan, (#[trigger] selected@[j2]).0 as int),
                        first_canonical_path(*scan, (#[trigger] selected@[j1]).0 as int),
                    ) by {
                        assert(selected@[j1] == before[j1]);
                        if j2 < n {
                            assert(selected@[j2] == before[j2]);
                        } else {
                            assert(selected_paths@[j1] == old_paths[j1]);
                        }
                    }
                }
            }
        }
        proof {
            assert forall|q2: int| 0 <= q2 < q + 1 implies covered_by(
                *scan,
                selected@,
                first_canonical_path(*scan, cand_nodes@[by_id@[#[trigger] order@[q2] as int] as int] as int),
            ) by {
                let p2 = first_canonical_path(*scan, cand_nodes@[by_id@[order@[q2] as int] as int] as int);
                if q2 < q {
                    assert(covered_by(*scan, before, p2));
                    let s = choose|s: int| 0 <= s < before.len() && crate::paths::path_within(p2, first_canonical_path(*scan, (#[trigger] before[s]).0 as int));
                    assert(selected@[s] == before[s]);
                } else if selected@.len() == before.len() {
                    let z2 = choose|z2: int| 0 <= z2 < selected_paths@.len() && crate::paths::path_within(node.canonical_placements@[0].logical_path@, (#[trigger] selected_paths@[z2])@);
                    assert(crate::paths::path_within(p2, first_canonical_path(*scan, selected@[z2].0 as int)));
                } else {
                    let n = before.len() as int;
                    assert(crate::paths::path_within(p2, first_canonical_path(*scan, selected@[n].0 as int)));
                }
            }
        }
        q += 1;
    }
    proof {
        assert forall|k: int| #[trigger] promotion_candidate(*scan, dd, dp, k) implies covered_by(*scan, selected@, first_canonical_path(*scan, k)) by {
            let i0 = choose|i0: int| #[trigger] promotes_at(*scan, dd, dp, i0, k);
            assert(lists_index(cand_nodes@, k));
            let c = choose|c: int| 0 <= c < cand_nodes@.len() && cand_nodes@[c] == k;
            assert(lists_index(by_id@, c));
            let j = choose|j: int| 0 <= j < by_id@.len() && by_id@[j] == c;
            crate::order::lemma_sorted_order_covers(crate::order::key_views(keyed@), order@, j);
            let q2 = choose|q2: int| 0 <= q2 < order@.len() && order@[q2] == j;
            assert(0 <= k < scan.nodes@.len());
            assert(order@[q2] as int == j);
            assert(by_id@[order@[q2] as int] as int == c);
            assert(cand_nodes@[by_id@[order@[q2] as int] as int] as int == k);
            assert(covered_by(*scan, selected@, first_canonical_path(*scan, cand_nodes@[by_id@[order@[q2] as int] as int] as int)));
        }
    }
    selected
}

/// Position `c` occurs in `r`.
pub open spec fn lists_index(r: Seq<usize>, c: int) -> bool {
    exists|j: int| 0 <= j < r.len() && r[j] == c
}

/// The candidate positions in node id order (the scan's nodes are in id
/// order, so by node position).
fn sort_candidates_by_id(scan: &Scan, cand: &Vec<usize>) -> (r: Vec<usize>)
    ensures
        r@.len() == cand@.len(),
        forall|k: int| 0 <= k < r@.len() ==> (#[trigger] r@[k]) < cand@.len(),
        forall|c: int| 0 <= c < cand@.len() ==> #[trigger] lists_index(r@, c),
{
    let mut keys: Vec<crate::order::SortKey> = Vec::new();
    let mut i: usize = 0;
    while i < cand.len()
        invariant
            i <= cand.len(),
            keys.len() == i,
        decreases cand.len() - i,
    {
        let c = cand[i] as u64;
        let n: i64 = if c < 0x7fff_ffff_ffff_ffffu64 {
            c as i64
        } else {
            0x7fff_ffff_ffff_ffff
        };
        keys.push(crate::order::SortKey { a: Vec::new(), b: Vec::new(), c: Vec::new(), n });
        i += 1;
    }
    let p = crate::order::sort_order(&keys);
    proof {
        assert(crate::order::key_views(keys@).len() == keys@.len());
        assert forall|c: int| 0 <= c < cand@.len() implies #[trigger] lists_index(p@, c) by {
            crate::order::lemma_sorted_order_covers(crate::order::key_views(keys@), p@, c);
        }
    }
    p
}

/// Removes the nodes of `d`: aliases of their surviving descendants take
/// over the canonical entries first, each with its subtree moved to the
/// alias path, then every entry of or under a node of `d` and the node rows
/// go. It fails, changing nothing, when a node to promote cannot be read.
#[verifier::rlimit(50)]
fn perform_delete_set(t: &mut Tables, scan: &Scan, d: &Vec<String>, Ghost(gt): Ghost<Tables>) -> (r: Result<(), GraphError>)
    requires
        scan_of(*scan, gt),
        *old(t) == gt,
    ensures
        match r {
            Ok(()) => nrows(final(t).nodes@) == drop_nodes(nrows(old(t).nodes@), crate::scan::texts(*d))
                && untouched_by(final(t).placements@, crate::scan::texts(*d)) && crows(final(t).contexts@)
                == crows(old(t).contexts@) && rows_kept(old(t).placements@, final(t).placements@, crate::scan::texts(*d))
                && final(t).reserved@ == old(t).reserved@ && (exists|m: Seq<(Seq<char>, Seq<char>)>, f: Seq<i64>|
                #[trigger] promotions_made(gt, crate::scan::texts(*d), m, f) && rows_traced(
                old(t).placements@,
                final(t).placements@,
                m,
                f,
            ) && flags_set(final(t).placements@, f) && rows_survive(
                old(t).placements@,
                final(t).placements@,
                crate::scan::texts(*d),
                m,
            )),
            Err(_) => *final(t) == *old(t),
        },
        r matches Err(e) ==> delete_blocked(gt, crate::scan::texts(*d), error_view(e)),
{
    proof {
        crate::scan::lemma_scan_nodes(*scan, gt);
    }
    let ghost dd = crate::scan::texts(*d);
    let mut delete_paths: Vec<String> = Vec::new();
    let mut i: usize = 0;
    while i < d.len()
        invariant
            i <= d.len(),
            scan_of(*scan, gt),
            dd == crate::scan::texts(*d),
            crate::scan::all_assembled(scan.nodes@, graph_nodes(gt), graph_places(gt)),
            path_views(delete_paths@) == deleted_paths(gt, dd, i as int),
        decreases d.len() - i,
    {
        let ghost before = delete_paths@;
        assert(dd[i as int] == d@[i as int]@);
        match crate::graph::find_node(scan, d[i].as_str(), Ghost(gt)) {
            Some(k) => {
                proof {
                    assert(crate::scan::node_assembled(scan.nodes@[k as int], graph_nodes(gt)[k as int], graph_places(gt)));
                    assert(canon(gt, dd[i as int]) == crate::scan::placement_views(scan.nodes@[k as int].canonical_placements@));
                }
                if scan.nodes[k].canonical_placements.len() > 0 {
                    proof {
                        assert(canon(gt, dd[i as int])[0] == scan.nodes@[k as int].canonical_placements@[0].view());
                    }
                    delete_paths.push(scan.nodes[k].canonical_placements[0].logical_path.clone());
                    assert(path_views(delete_paths@) =~= path_views(before).push(canon(gt, dd[i as int])[0].3));
                }
            },
            None => {},
        }
        i += 1;
    }
    assert(dd.len() == d.len());
    let targets = promotion_targets_for_delete(scan, d, &delete_paths, Ghost(gt));
    let mut ps = crate::scan::copy_placements(&t.placements);
    let ghost orig = gt.placements@;
    proof {
        assert forall|x: int| 0 <= x < ps@.len() implies core_in(orig, row_core(#[trigger] ps@[x])) by {
            assert(orig[x] == ps@[x]);
        }
        assert forall|y: int| 0 <= y < orig.len() && (#[trigger] orig[y]).is_canonical != 1 && unique_row_id(orig, y)
            implies core_in(ps@, row_core(orig[y])) by {
            assert(orig[y] == ps@[y]);
        }
    }
    // the moves made so far, and the alias rows made canonical
    let ghost mut mv: Seq<(Seq<char>, Seq<char>)> = Seq::empty();
    let ghost mut fl: Seq<i64> = Seq::empty();
    proof {
        assert forall|y: int| 0 <= y < orig.len() && unique_row_id(orig, y) && !replaced_by_move(#[trigger] orig[y], mv)
            implies core_in(ps@, row_core(orig[y])) by {
            assert(orig[y] == ps@[y]);
        }
        assert forall|x: int| 0 <= x < ps@.len() implies #[trigger] traced_in(orig, ps@[x], mv, fl) by {
            assert(orig[x] == ps@[x]);
            assert(traced_from(ps@[x], orig[x], mv, fl));
        }
    }
    let mut j: usize = 0;
    while j < targets.len()
        invariant
            j <= targets.len(),
            scan_of(*scan, gt),
            *t == gt,
            orig == gt.placements@,
            dd == crate::scan::texts(*d),
            path_views(delete_paths@) == deleted_paths(gt, dd, dd.len() as int),
            forall|k: int|
                0 <= k < targets@.len() ==> promotion_pair(
                    *scan,
                    dd,
                    path_views(delete_paths@),
                    (#[trigger] targets@[k]).0 as int,
                    targets@[k].1.view(),
                ),
            forall|k: int|
                0 <= k < targets@.len() ==> (#[trigger] targets@[k]).0 < scan.nodes@.len() && !crate::scan::texts(*d).contains(
                    scan.nodes@[targets@[k].0 as int].fields.id@,
                ),
            forall|x: int| 0 <= x < ps@.len() ==> core_in(orig, row_core(#[trigger] ps@[x])),
            forall|y: int|
                0 <= y < orig.len() && (#[trigger] orig[y]).is_canonical != 1 && unique_row_id(orig, y) ==> core_in(
                    ps@,
                    row_core(orig[y]),
                ),
            mv.len() == j,
            fl.len() == j,
            rows_traced(orig, ps@, mv, fl),
            flags_set(ps@, fl),
            forall|y: int|
                0 <= y < orig.len() && unique_row_id(orig, y) && !replaced_by_move(#[trigger] orig[y], mv) ==> core_in(
                    ps@,
                    row_core(orig[y]),
                ),
            forall|k: int|
                #[trigger] promotion_candidate(*scan, crate::scan::texts(*d), path_views(delete_paths@), k) ==> covered_by(
                    *scan,
                    targets@,
                    first_canonical_path(*scan, k),
                ),
            forall|i: int| 0 <= i < j ==> promotion_made(gt, dd, path_views(delete_paths@), #[trigger] mv[i], fl[i]),
            forall|i: int|
                0 <= i < j ==> scan.nodes@[targets@[i].0 as int].canonical_placements@.len() > 0 && (#[trigger] mv[i]).0
                    == first_canonical_path(*scan, targets@[i].0 as int),
            forall|j1: int, j2: int|
                0 <= j1 < j2 < targets@.len() ==> !crate::paths::path_within(
                    first_canonical_path(*scan, (#[trigger] targets@[j2]).0 as int),
                    first_canonical_path(*scan, (#[trigger] targets@[j1]).0 as int),
                ),
            forall|j1: int, j2: int|
                0 <= j1 < j2 < targets@.len() ==> promotion_depth(*scan, (#[trigger] targets@[j1]).0 as int) <= promotion_depth(
                    *scan,
                    (#[trigger] targets@[j2]).0 as int,
                ),
        decreases targets.len() - j,
    {
        let k = targets[j].0;
        let id = &scan.nodes[k].fields.id;
        proof {
            crate::scan::lemma_scan_nodes(*scan, gt);
            assert(crate::scan::node_assembled(scan.nodes@[k as int], graph_nodes(gt)[k as int], graph_places(gt)));
            assert(graph_nodes(gt)[k as int].id@ == id@);
        }
        let ck = match crate::graph::canonical_node(scan, id.as_str(), Ghost(gt)) {
            Ok(ck) => ck,
            Err(e) => {
                proof {
                    assert(node_error(gt, graph_nodes(gt)[k as int].id@) == Some(error_view(e)));
                    assert(promotion_pair(*scan, dd, path_views(delete_paths@), k as int, targets@[j as int].1.view()));
                    lemma_candidate_promoted(*scan, gt, dd, path_views(delete_paths@), k as int);
                    assert(promoted_by_delete(gt, dd, graph_nodes(gt)[k as int].id@));
                }
                return Err(e);
            },
        };
        proof {
            assert(crate::scan::node_assembled(scan.nodes@[ck as int], graph_nodes(gt)[ck as int], graph_places(gt)));
            assert(graph_nodes(gt)[node_index_of(gt, id@)].id@ == id@);
            crate::graph_laws::lemma_canonical_path_checks(gt, id@);
            assert(scan.nodes@[ck as int].canonical_placements@.len() > 0);
        }
        if scan.nodes[ck].canonical_placements.len() == 0 {
            return Err(GraphError::NodeNotFound(id.clone()));
        }
        let canonical = &scan.nodes[ck].canonical_placements[0];
        proof {
            // the replaced row is a canonical row of the table
            crate::scan::lemma_scan_nodes(*scan, gt);
            let gp = graph_places(gt);
            assert(crate::scan::node_assembled(scan.nodes@[ck as int], graph_nodes(gt)[ck as int], gp));
            assert(graph_nodes(gt)[node_index_of(gt, id@)].id@ == id@);
            assert(crate::scan::placement_views(scan.nodes@[ck as int].canonical_placements@)[0] == canonical.view());
            assert(canonical.view() == canon(gt, id@)[0]);
            crate::graph_laws::lemma_canonical_path_checks(gt, id@);
            crate::graph_laws::lemma_query_places_rows(gt);
            let qp = crate::scan::query_places(gt);
            let i = choose|i: int|
                0 <= i < qp.len() && crate::store::placement_reason(qp[i], crate::store::row_ids(gt.nodes@)) is None
                    && #[trigger] crate::store::placement_of_row(qp[i]) == canon(gt, id@)[0] && qp[i].is_canonical == 1;
            assert(crate::graph_laws::row_in(orig, qp[i]));
            let w = choose|w: int| 0 <= w < orig.len() && orig[w] == qp[i];
            assert(orig[w].row_id == canonical.row_id && orig[w].is_canonical == 1);
            assert(orig[w].logical_path@ == canonical.logical_path@);
            assert(exists|w2: int|
                0 <= w2 < orig.len() && #[trigger] orig[w2].row_id == canonical.row_id && orig[w2].is_canonical == 1
                    && orig[w2].logical_path@ == canonical.logical_path@);
            assert forall|y: int| 0 <= y < orig.len() && (#[trigger] orig[y]).is_canonical != 1 && unique_row_id(orig, y)
                implies orig[y].row_id != canonical.row_id by {
                assert(w != y);
            }
        }
        let ghost before = ps@;
        promote_to_alias(&mut ps, canonical, &targets[j].1);
        proof {
            lemma_promoted_cores(before, ps@, canonical.row_id, targets@[j as int].1.row_id, canonical.logical_path@, targets@[j as int].1.logical_path@);
            assert forall|x: int| 0 <= x < ps@.len() implies core_in(orig, row_core(#[trigger] ps@[x])) by {
                assert(core_in(before, row_core(ps@[x])));
                let z = choose|z: int| 0 <= z < before.len() && row_core(before[z]) == row_core(ps@[x]);
                assert(core_in(orig, row_core(before[z])));
            }
            assert forall|y: int| 0 <= y < orig.len() && (#[trigger] orig[y]).is_canonical != 1 && unique_row_id(orig, y)
                implies core_in(ps@, row_core(orig[y])) by {
                let z = choose|z: int| 0 <= z < before.len() && row_core(before[z]) == row_core(orig[y]);
                assert(before[z].row_id != canonical.row_id);
                assert(core_in(ps@, row_core(before[z])));
            }
            let op = canonical.logical_path@;
            let ap = targets@[j as int].1.logical_path@;
            let arid = targets@[j as int].1.row_id;
            crate::subtree_moves::lemma_promoted_traced(orig, before, ps@, mv, fl, canonical.row_id, arid, op, ap);
            crate::subtree_moves::lemma_promoted_flags(before, ps@, fl, canonical.row_id, arid, op, ap);
            let dp = path_views(delete_paths@);
            let kk = k as int;
            assert(promotion_pair(*scan, dd, dp, kk, targets@[j as int].1.view()));
            let b = choose|b: int| #[trigger] least_alias_outside(*scan, kk, dp, b) && targets@[j as int].1.view()
                == scan.nodes@[kk].alias_placements@[b].view();
            let gp = graph_places(gt);
            assert(crate::scan::node_assembled(scan.nodes@[kk], graph_nodes(gt)[kk], gp));
            assert(placement_views(scan.nodes@[kk].alias_placements@)[b] == scan.nodes@[kk].alias_placements@[b].view());
            crate::graph_laws::lemma_sorted_place_row(gt, id@, false, b);
            let w = choose|w: int|
                0 <= w < gt.placements@.len() && #[trigger] crate::store::placement_of_row(gt.placements@[w])
                    == crate::scan::path_sorted(crate::scan::places_of(gp, id@, false))[b];
            lemma_candidate_promoted(*scan, gt, dd, dp, kk);
            assert(promoted_by_delete(gt, dd, id@));
            assert(gt.placements@[w].row_id == arid);
            assert(promotion_made(gt, dd, dp, (op, ap), arid));
            let c = choose|c: int| #[trigger] promotes_at(*scan, dd, dp, c, kk);
            assert(scan.nodes@[kk].canonical_placements@.len() > 0);
            assert(placement_views(scan.nodes@[kk].canonical_placements@)[0] == scan.nodes@[kk].canonical_placements@[0].view());
            assert(op == first_canonical_path(*scan, kk));
            let mv2 = mv.push((op, ap));
            let fl2 = fl.push(arid);
            assert forall|i: int| 0 <= i < j + 1 implies promotion_made(gt, dd, dp, #[trigger] mv2[i], fl2[i]) by {
                if i < j {
                    assert(mv2[i] == mv[i] && fl2[i] == fl[i]);
                }
            }
            assert forall|i: int|
                0 <= i < j + 1 implies scan.nodes@[targets@[i].0 as int].canonical_placements@.len() > 0 && (#[trigger] mv2[i]).0
                    == first_canonical_path(*scan, targets@[i].0 as int) by {
                if i < j {
                    assert(mv2[i] == mv[i]);
                }
            }
            let w = choose|w2: int|
                0 <= w2 < orig.len() && #[trigger] orig[w2].row_id == canonical.row_id && orig[w2].is_canonical == 1
                    && orig[w2].logical_path@ == canonical.logical_path@;
            assert forall|y: int| 0 <= y < orig.len() && unique_row_id(orig, y) && !replaced_by_move(#[trigger] orig[y], mv2)
                implies core_in(ps@, row_core(orig[y])) by {
                if replaced_by_move(orig[y], mv) {
                    let i = choose|i: int| 0 <= i < mv.len() && (#[trigger] mv[i]).0 == orig[y].logical_path@;
                    assert(mv2[i] == mv[i]);
                }
                let z = choose|z: int| 0 <= z < before.len() && row_core(before[z]) == row_core(orig[y]);
                if before[z].row_id == canonical.row_id {
                    if y == w {
                        assert(mv2[j as int].0 == orig[y].logical_path@);
                    } else {
                        assert(orig[w].row_id == orig[y].row_id);
                    }
                }
                assert(core_in(ps@, row_core(before[z])));
            }
            mv = mv2;
            fl = fl2;
        }
        j += 1;
    }
    proof {
        let dp = path_views(delete_paths@);
        assert forall|i: int, k: int| 0 <= i < k < mv.len() implies !crate::paths::path_within((#[trigger] mv[k]).0, (#[trigger] mv[i]).0)
            && capped_depth(mv[i].0) <= capped_depth(mv[k].0) by {
            assert(mv[k].0 == first_canonical_path(*scan, targets@[k].0 as int));
            assert(mv[i].0 == first_canonical_path(*scan, targets@[i].0 as int));
            assert(promotion_depth(*scan, targets@[i].0 as int) <= promotion_depth(*scan, targets@[k].0 as int));
        }
        assert forall|x: Seq<char>| #[trigger] promoted_by_delete(gt, dd, x) implies exists|i: int|
            0 <= i < mv.len() && crate::paths::path_within(canon(gt, x)[0].3, #[trigger] mv[i].0) by {
            let k = lemma_promoted_candidate(*scan, gt, dd, dp, x);
            assert(covered_by(*scan, targets@, first_canonical_path(*scan, k)));
            let c = choose|c: int| 0 <= c < targets@.len() && crate::paths::path_within(
                first_canonical_path(*scan, k),
                first_canonical_path(*scan, (#[trigger] targets@[c]).0 as int),
            );
            assert(mv[c].0 == first_canonical_path(*scan, targets@[c].0 as int));
        }
        assert(promotions_made(gt, dd, mv, fl));
    }
    let ghost before_drop = ps@;
    drop_touching_rows(&mut ps, d);
    proof {
        crate::subtree_moves::lemma_rows_from_traced(orig, before_drop, ps@, mv, fl);
        crate::subtree_moves::lemma_rows_from_flags(before_drop, ps@, fl);
        let dv = crate::scan::texts(*d);
        assert forall|x: int| 0 <= x < ps@.len() implies core_in(orig, row_core(#[trigger] ps@[x])) by {
            let z = choose|z: int| 0 <= z < before_drop.len() && prow(ps@[x]) == prow(before_drop[z]);
            assert(row_core(ps@[x]) == row_core(before_drop[z]));
            assert(core_in(orig, row_core(before_drop[z])));
        }
        assert forall|y: int|
            0 <= y < orig.len() && (#[trigger] orig[y]).is_canonical != 1 && !touches(orig[y], dv) && unique_row_id(orig, y)
            implies core_in(ps@, row_core(orig[y])) by {
            let z = choose|z: int| 0 <= z < before_drop.len() && row_core(before_drop[z]) == row_core(orig[y]);
            assert(touches(before_drop[z], dv) == touches(orig[y], dv));
            assert(core_in(ps@, row_core(before_drop[z])));
        }
        assert forall|y: int|
            0 <= y < orig.len() && !touches(#[trigger] orig[y], dv) && unique_row_id(orig, y) && !replaced_by_move(orig[y], mv)
            implies core_in(ps@, row_core(orig[y])) by {
            let z = choose|z: int| 0 <= z < before_drop.len() && row_core(before_drop[z]) == row_core(orig[y]);
            assert(touches(before_drop[z], dv) == touches(orig[y], dv));
            assert(core_in(ps@, row_core(before_drop[z])));
        }
    }
    let ghost old_t = *t;
    t.placements = ps;
    drop_node_rows(&mut t.nodes, d);
    Ok(())
}

// ---------------------------------------------------------------------------
// deleting and unlinking
// ---------------------------------------------------------------------------

pub open spec fn has_child_edge(t: Tables, id: Seq<char>) -> bool {
    exists|k: int| crate::graph::is_child_edge(graph_places(t), id, k)
}

/// Why a node cannot be deleted, when the rows decide it.
pub open spec fn delete_error(g: IdeaGraph, id: Seq<char>, mode: crate::model::DeleteMode) -> Option<ErrorView> {
    if !uuid_shape(id) {
        Some(simple_error(9, id))
    } else if graph_name_error(g.graph_name@) is Some {
        graph_name_error(g.graph_name@)
    } else if node_error(g.tables, id) is Some {
        node_error(g.tables, id)
    } else if mode == crate::model::DeleteMode::FailIfHasChildren && has_child_edge(g.tables, id) {
        Some(simple_error(19, id))
    } else {
        None
    }
}

/// Every placement row left was there before (up to its path and canonical
/// flag), and every alias row with its own row id that names no node of
/// `d` is left.
pub open spec fn rows_kept(before: Seq<PlacementRow>, after: Seq<PlacementRow>, d: Seq<Seq<char>>) -> bool {
    &&& forall|x: int| 0 <= x < after.len() ==> core_in(before, row_core(#[trigger] after[x]))
    &&& forall|y: int|
        0 <= y < before.len() && (#[trigger] before[y]).is_canonical != 1 && !touches(before[y], d) && unique_row_id(
            before,
            y,
        ) ==> core_in(after, row_core(before[y]))
}

/// A path after the subtree moves `m[0]`, ..., `m[n - 1]`, one after the
/// other (each from its first path to its second).
pub open spec fn apply_moves(p: Seq<char>, m: Seq<(Seq<char>, Seq<char>)>, n: int) -> Seq<char>
    decreases n,
{
    if n <= 0 {
        p
    } else {
        moved_path(apply_moves(p, m, n - 1), m[n - 1].0, m[n - 1].1)
    }
}

/// Row `a` is row `b` with its path carried through the moves `m`, and its
/// canonical flag kept unless its row id is one of `flagged_ids`.
pub open spec fn traced_from(a: PlacementRow, b: PlacementRow, m: Seq<(Seq<char>, Seq<char>)>, flagged_ids: Seq<i64>) -> bool {
    &&& row_core(a) == row_core(b)
    &&& a.logical_path@ == apply_moves(b.logical_path@, m, m.len() as int)
    &&& (a.is_canonical == b.is_canonical || flagged_ids.contains(a.row_id))
}

/// Row `a` is traced from some row of `before`.
pub open spec fn traced_in(before: Seq<PlacementRow>, a: PlacementRow, m: Seq<(Seq<char>, Seq<char>)>, flagged_ids: Seq<i64>) -> bool {
    exists|y: int| #![trigger before[y]] 0 <= y < before.len() && traced_from(a, before[y], m, flagged_ids)
}

/// Every row of `after` is traced from a row of `before`.
pub open spec fn rows_traced(before: Seq<PlacementRow>, after: Seq<PlacementRow>, m: Seq<(Seq<char>, Seq<char>)>, flagged_ids: Seq<i64>) -> bool {
    forall|x: int| 0 <= x < after.len() ==> #[trigger] traced_in(before, after[x], m, flagged_ids)
}

/// The number of `/` in a path, capped as the order of promotions caps it.
pub open spec fn capped_depth(p: Seq<char>) -> int {
    if crate::paths::slash_count(p) < 0x7fff_ffff_ffff_fffe {
        crate::paths::slash_count(p) as int
    } else {
        0x7fff_ffff_ffff_fffe
    }
}

/// The move `mv` promotes a node `x` that the delete of `d` promotes: it
/// goes from the canonical path of `x` to the path of the alias row `rid`
/// of `x`, which lies outside the deleted paths `dp`.
pub open spec fn promotion_made(t: Tables, d: Seq<Seq<char>>, dp: Seq<Seq<char>>, mv: (Seq<char>, Seq<char>), rid: i64) -> bool {
    exists|x: Seq<char>, y: int|
        {
            &&& #[trigger] promoted_by_delete(t, d, x)
            &&& mv.0 == canon(t, x)[0].3
            &&& 0 <= y < t.placements@.len()
            &&& #[trigger] t.placements@[y].row_id == rid
            &&& t.placements@[y].node_id@ == x
            &&& t.placements@[y].logical_path@ == mv.1
            &&& t.placements@[y].is_canonical != 1
            &&& !crate::paths::within_any(mv.1, dp)
        }
}

/// A canonical row at a path that one of the moves `m` moved from (a
/// promotion replaces it).
pub open spec fn replaced_by_move(r: PlacementRow, m: Seq<(Seq<char>, Seq<char>)>) -> bool {
    r.is_canonical == 1 && exists|i: int| 0 <= i < m.len() && (#[trigger] m[i]).0 == r.logical_path@
}

/// Every row with its own row id that names no node of `d` is left (up to
/// its path and canonical flag), but the canonical rows the moves `m`
/// replace.
pub open spec fn rows_survive(before: Seq<PlacementRow>, after: Seq<PlacementRow>, d: Seq<Seq<char>>, m: Seq<(Seq<char>, Seq<char>)>) -> bool {
    forall|y: int|
        0 <= y < before.len() && !touches(#[trigger] before[y], d) && unique_row_id(before, y) && !replaced_by_move(
            before[y],
            m,
        ) ==> core_in(after, row_core(before[y]))
}

/// Every row whose row id is one of `ids` is canonical.
pub open spec fn flags_set(rows: Seq<PlacementRow>, ids: Seq<i64>) -> bool {
    forall|x: int| 0 <= x < rows.len() && ids.contains((#[trigger] rows[x]).row_id) ==> rows[x].is_canonical == 1
}

/// The moves `m` are the promotions of a delete of `d`, made with the alias
/// rows `flagged_ids`: every node the delete promotes has its canonical
/// path within a path moved, no canonical path moved lies within one moved
/// before it, and the paths moved are ordered by depth.
pub open spec fn promotions_made(t: Tables, d: Seq<Seq<char>>, m: Seq<(Seq<char>, Seq<char>)>, flagged_ids: Seq<i64>) -> bool {
    &&& m.len() == flagged_ids.len()
    &&& forall|x: Seq<char>|
        #[trigger] promoted_by_delete(t, d, x) ==> exists|i: int|
            0 <= i < m.len() && crate::paths::path_within(canon(t, x)[0].3, #[trigger] m[i].0)
    &&& forall|i: int|
        0 <= i < m.len() ==> promotion_made(t, d, deleted_paths(t, d, d.len() as int), m[i], #[trigger] flagged_ids[i])
    &&& forall|i: int, k: int|
        0 <= i < k < m.len() ==> !crate::paths::path_within((#[trigger] m[k]).0, (#[trigger] m[i]).0) && capped_depth(m[i].0)
            <= capped_depth(m[k].0)
}

/// The rows after removing the nodes `d` (whose surviving descendants keep
/// their aliases as canonical entries, each with its subtree moved to the
/// alias path).
pub open spec fn nodes_removed(before: Tables, after: Tables, d: Seq<Seq<char>>) -> bool {
    &&& nrows(after.nodes@) == drop_nodes(nrows(before.nodes@), d)
    &&& untouched_by(after.placements@, d)
    &&& rows_kept(before.placements@, after.placements@, d)
    &&& crows(after.contexts@) == crows(before.contexts@)
    &&& exists|m: Seq<(Seq<char>, Seq<char>)>, flagged_ids: Seq<i64>|
        #[trigger] promotions_made(before, d, m, flagged_ids) && rows_traced(before.placements@, after.placements@, m, flagged_ids)
            && flags_set(after.placements@, flagged_ids) && rows_survive(before.placements@, after.placements@, d, m)
}

/// What `delete_node` returns and leaves, by its arguments.
pub open spec fn delete_node_outcome(prior: IdeaGraph, later: IdeaGraph, node_id: Seq<char>, mode: crate::model::DeleteMode, r: Result<(), GraphError>) -> bool {
    match r {
        Ok(()) => delete_error(prior, node_id, mode) is None && exists|d: Seq<Seq<char>>|
            #![trigger nodes_removed(prior.tables, later.tables, d)]
            {
                &&& nodes_removed(prior.tables, later.tables, d)
                &&& mode == crate::model::DeleteMode::FailIfHasChildren ==> d == seq![node_id]
                &&& mode == crate::model::DeleteMode::Recursive ==> crate::graph::delete_sound(
                    graph_places(prior.tables),
                    node_id,
                    d,
                ) && crate::graph::delete_closed(graph_places(prior.tables), d)
            } && later.graph_name@ == prior.graph_name@ && later.tables.reserved@ == prior.tables.reserved@,
        Err(e) => later == prior && match delete_error(prior, node_id, mode) {
            Some(x) => error_view(e) == x,
            None => exists|d: Seq<Seq<char>>|
                #![trigger delete_set_for(prior.tables, node_id, mode, d)]
                delete_set_for(prior.tables, node_id, mode, d) && delete_blocked(prior.tables, d, error_view(e)),
        },
    }
}

/// `d` is the set a delete of `id` in `mode` removes: the node alone, or
/// the node with every descendant reached only through it.
pub open spec fn delete_set_for(t: Tables, id: Seq<char>, mode: crate::model::DeleteMode, d: Seq<Seq<char>>) -> bool {
    match mode {
        crate::model::DeleteMode::FailIfHasChildren => d == seq![id],
        crate::model::DeleteMode::Recursive => crate::graph::delete_sound(graph_places(t), id, d)
            && crate::graph::delete_closed(graph_places(t), d),
    }
}

/// Deletes a node: alone when it has no children (`FailIfHasChildren`), or
/// with every descendant reached only through it (`Recursive`); a shared
/// descendant keeps its other parents and loses only the edges from the
/// deleted nodes.
pub fn delete_node(graph: &mut IdeaGraph, node_id: &str, mode: crate::model::DeleteMode) -> (r: Result<(), GraphError>)
    ensures
        delete_node_outcome(*old(graph), *final(graph), node_id@, mode, r),
{
    crate::ids::validate_node_id(node_id)?;
    validate_graph_name(graph.graph_name.as_str())?;
    let ghost t = graph.tables;
    let scan = crate::scan::load_scan(&graph.tables);
    crate::graph::canonical_node(&scan, node_id, Ghost(graph.tables))?;
    let edges = crate::graph::child_edges(&scan, node_id, Ghost(graph.tables));
    let fail = match mode {
        crate::model::DeleteMode::FailIfHasChildren => true,
        crate::model::DeleteMode::Recursive => false,
    };
    if fail && edges.len() > 0 {
        proof {
            assert(crate::graph::is_child_edge(graph_places(t), node_id@, edges@[0] as int));
        }
        return Err(GraphError::NodeHasChildren(string_from_str(node_id)));
    }
    proof {
        if fail && has_child_edge(t, node_id@) {
            let k = choose|k: int| crate::graph::is_child_edge(graph_places(t), node_id@, k);
            assert(crate::graph::is_child_edge(graph_places(t), node_id@, k));
        }
    }
    let d = if fail {
        let mut d: Vec<String> = Vec::new();
        d.push(string_from_str(node_id));
        assert(crate::scan::texts(d) =~= seq![node_id@]);
        d
    } else {
        crate::graph::compute_delete_set(&scan, node_id, Ghost(graph.tables))
    };
    let res = perform_delete_set(&mut graph.tables, &scan, &d, Ghost(t));
    proof {
        if res is Ok {
            assert(nodes_removed(t, graph.tables, crate::scan::texts(d)));
        }
        assert(delete_set_for(t, node_id@, mode, crate::scan::texts(d)));
    }
    res
}

pub open spec fn first_edge(gp: Seq<crate::store::PlacementView>, p: Seq<char>, c: Seq<char>, e: int) -> bool {
    &&& 0 <= e < gp.len()
    &&& gp[e].2 == Some(p)
    &&& gp[e].1 == c
    &&& forall|j: int| 0 <= j < e ==> !(#[trigger] gp[j].2 == Some(p) && gp[j].1 == c)
}

/// The child keeps another parent entry besides row `rid`.
pub open spec fn other_parent(gp: Seq<crate::store::PlacementView>, c: Seq<char>, rid: i64) -> bool {
    exists|k: int| #[trigger] crate::graph::is_parent_edge(gp, c, k) && gp[k].0 != rid
}

/// Removing the entry `rid` leaves the child with no parent and no root
/// entry.
pub open spec fn orphaning(t: Tables, c: Seq<char>, rid: i64) -> bool {
    &&& !other_parent(graph_places(t), c, rid)
    &&& !(canon(t, c)[0].2 is None && canon(t, c)[0].0 != rid)
}

/// The alias entry that takes over: the first with the least path among the
/// child's other alias parent entries.
pub open spec fn best_alias(gp: Seq<crate::store::PlacementView>, c: Seq<char>, rid: i64, k: int) -> bool {
    &&& crate::graph::is_parent_edge(gp, c, k)
    &&& gp[k].0 != rid
    &&& !gp[k].4
    &&& forall|j: int|
        #[trigger] crate::graph::is_parent_edge(gp, c, j) && gp[j].0 != rid && !gp[j].4 ==> !crate::order::chars_lt(gp[j].3, gp[k].3) && (j < k ==> gp[j].3 != gp[k].3)
}

/// Why an edge cannot be unlinked, when the rows decide it.
pub open spec fn unlink_error(g: IdeaGraph, p: Seq<char>, c: Seq<char>, policy: crate::model::OrphanPolicy) -> Option<ErrorView> {
    let gp = graph_places(g.tables);
    if !uuid_shape(p) {
        Some(simple_error(9, p))
    } else if !uuid_shape(c) {
        Some(simple_error(9, c))
    } else if graph_name_error(g.graph_name@) is Some {
        graph_name_error(g.graph_name@)
    } else if parent_error(g.tables, p) is Some {
        parent_error(g.tables, p)
    } else if child_error(g.tables, c) is Some {
        child_error(g.tables, c)
    } else if !crate::scan::has_edge(gp, p, c) {
        Some(simple_error(6, c))
    } else if policy == crate::model::OrphanPolicy::FailIfWouldOrphan && orphaning(
        g.tables,
        c,
        gp[choose|e: int| first_edge(gp, p, c, e)].0,
    ) {
        Some(simple_error(20, c))
    } else {
        None
    }
}

/// What `unlink_child` returns and leaves, by its arguments.
pub open spec fn unlink_child_outcome(prior: IdeaGraph, later: IdeaGraph, parent_id: Seq<char>, child_id: Seq<char>, orphan_policy: crate::model::OrphanPolicy, r: Result<(), GraphError>) -> bool {
    match r {
        Ok(()) => {
            let t = prior.tables;
            let gp = graph_places(t);
            let e = choose|e: int| first_edge(gp, parent_id, child_id, e);
            &&& unlink_error(prior, parent_id, child_id, orphan_policy) is None
            &&& first_edge(gp, parent_id, child_id, e)
            &&& later.graph_name@ == prior.graph_name@
            &&& later.tables.reserved@ == prior.tables.reserved@
            &&& if orphaning(t, child_id, gp[e].0) && orphan_policy == crate::model::OrphanPolicy::DeleteIfNoParents {
                exists|d: Seq<Seq<char>>|
                    #![trigger nodes_removed(t, later.tables, d)]
                    nodes_removed(t, later.tables, d) && crate::graph::delete_sound(gp, child_id, d)
                        && crate::graph::delete_closed(gp, d)
            } else if !gp[e].4 {
                &&& prows(later.tables.placements@) == drop_row(prows(t.placements@), gp[e].0)
                &&& nrows(later.tables.nodes@) == nrows(t.nodes@)
                &&& crows(later.tables.contexts@) == crows(t.contexts@)
            } else if other_parent(gp, child_id, gp[e].0) {
                &&& exists|k: int|
                    #![trigger best_alias(gp, child_id, gp[e].0, k)]
                    best_alias(gp, child_id, gp[e].0, k) && promoted(
                        t.placements@,
                        later.tables.placements@,
                        canon(t, child_id)[0].0,
                        gp[k].0,
                        canon(t, child_id)[0].3,
                        gp[k].3,
                    )
                &&& nrows(later.tables.nodes@) == nrows(t.nodes@)
                &&& crows(later.tables.contexts@) == crows(t.contexts@)
            } else {
                &&& nrows(later.tables.nodes@) == nrows(t.nodes@)
                &&& crows(later.tables.contexts@) == crows(t.contexts@)
                &&& if orphan_policy == crate::model::OrphanPolicy::MoveToRoots {
                    let title = graph_nodes(t)[node_index_of(t, child_id)].title@;
                    if canon(t, child_id)[0].2 is Some {
                        exists|k: nat|
                            first_free(t.placements@, t.reserved@, "roots"@, slug_of(title), child_id, k) && entry_moved(
                                t.placements@,
                                later.tables.placements@,
                                canon(t, child_id)[0].0,
                                None,
                                suffixed_slug(slug_of(title), k),
                                canon(t, child_id)[0].3,
                                entry_path("roots"@, suffixed_slug(slug_of(title), k), child_id),
                            )
                    } else {
                        prows(later.tables.placements@) == prows(t.placements@)
                    }
                } else {
                    prows(later.tables.placements@) == drop_row(prows(t.placements@), gp[e].0)
                }
            }
        },
        Err(e) => later == prior && match unlink_error(prior, parent_id, child_id, orphan_policy) {
            Some(x) => error_view(e) == x,
            None => unlink_failure(prior.tables, parent_id, child_id, orphan_policy, error_view(e)),
        },
    }
}

/// An unlink that its checks allow fails with `e`: deleting the orphaned
/// child is blocked by a node it would promote, or moving the child to the
/// roots finds every name there taken.
pub open spec fn unlink_failure(t: Tables, parent_id: Seq<char>, child_id: Seq<char>, orphan_policy: crate::model::OrphanPolicy, e: ErrorView) -> bool {
    let gp = graph_places(t);
    let k = choose|k: int| first_edge(gp, parent_id, child_id, k);
    if orphaning(t, child_id, gp[k].0) && orphan_policy == crate::model::OrphanPolicy::DeleteIfNoParents {
        exists|d: Seq<Seq<char>>|
            #![trigger delete_set_for(t, child_id, crate::model::DeleteMode::Recursive, d)]
            delete_set_for(t, child_id, crate::model::DeleteMode::Recursive, d) && delete_blocked(t, d, e)
    } else {
        &&& gp[k].4
        &&& !other_parent(gp, child_id, gp[k].0)
        &&& orphan_policy == crate::model::OrphanPolicy::MoveToRoots
        &&& canon(t, child_id)[0].2 is Some
        &&& all_suffixes_taken(
            t.placements@,
            t.reserved@,
            "roots"@,
            slug_of(graph_nodes(t)[node_index_of(t, child_id)].title@),
            child_id,
        )
        &&& e == simple_error(22, "roots"@)
    }
}

/// Removes the edge `parent` → `child`. An alias edge goes alone; a
/// canonical edge hands the canonical entry to the child's least other
/// alias; a child left without parents is moved to the roots, deleted, or
/// kept, by `orphan_policy`.
#[verifier::rlimit(40)]
pub fn unlink_child(graph: &mut IdeaGraph, parent_id: &str, child_id: &str, orphan_policy: crate::model::OrphanPolicy) -> (r: Result<(), GraphError>)
    ensures
        unlink_child_outcome(*old(graph), *final(graph), parent_id@, child_id@, orphan_policy, r),
{
    crate::ids::validate_node_id(parent_id)?;
    crate::ids::validate_node_id(child_id)?;
    validate_graph_name(graph.graph_name.as_str())?;
    let ghost t = graph.tables;
    let ghost gp = graph_places(t);
    let scan = crate::scan::load_scan(&graph.tables);
    proof {
        crate::scan::lemma_scan_nodes(scan, t);
    }
    crate::graph::require_parent_node(&scan, parent_id, Ghost(graph.tables))?;
    let ck = crate::graph::require_child_node(&scan, child_id, Ghost(graph.tables))?;
    let e = match crate::graph::find_placement(&scan, parent_id, child_id, Ghost(graph.tables)) {
        Some(e) => e,
        None => {
            return Err(GraphError::ChildNotFound(string_from_str(child_id)));
        },
    };
    proof {
        assert(first_edge(gp, parent_id@, child_id@, e as int));
        let c = choose|x: int| first_edge(gp, parent_id@, child_id@, x);
        if c != e {
            if c < e {
                assert(!(gp[c].2 == Some(parent_id@) && gp[c].1 == child_id@));
            } else {
                assert(!(gp[e as int].2 == Some(parent_id@) && gp[e as int].1 == child_id@));
            }
        }
        assert(crate::scan::node_assembled(scan.nodes@[ck as int], graph_nodes(t)[ck as int], gp));
        assert(graph_nodes(t)[node_index_of(t, child_id@)].id@ == child_id@);
        assert(crate::scan::placement_views(scan.nodes@[ck as int].canonical_placements@)[0]
            == scan.nodes@[ck as int].canonical_placements@[0].view());
        assert(gp[e as int] == scan.placements@[e as int].view());
    }
    let edge = &scan.placements[e];
    let child = &scan.nodes[ck];
    let canonical = &child.canonical_placements[0];
    let parents = crate::graph::parent_edges(&scan, child_id, Ghost(graph.tables));
    let mut has_other = false;
    let mut x: usize = 0;
    while x < parents.len()
        invariant
            x <= parents.len(),
            placement_views(scan.placements@) == gp,
            forall|k: int| 0 <= k < parents@.len() ==> crate::graph::is_parent_edge(gp, child_id@, #[trigger] parents@[k] as int),
            has_other ==> other_parent(gp, child_id@, gp[e as int].0),
            !has_other ==> forall|k: int| 0 <= k < x ==> gp[#[trigger] parents@[k] as int].0 == gp[e as int].0,
            e < scan.placements.len(),
            gp[e as int].0 == scan.placements@[e as int].row_id,
            *edge == scan.placements@[e as int],
        decreases parents.len() - x,
    {
        assert(gp[parents@[x as int] as int] == scan.placements@[parents@[x as int] as int].view());
        if scan.placements[parents[x]].row_id != edge.row_id {
            proof {
                assert(crate::graph::is_parent_edge(gp, child_id@, parents@[x as int] as int));
            }
            has_other = true;
        }
        x += 1;
    }
    proof {
        if !has_other && other_parent(gp, child_id@, gp[e as int].0) {
            let k = choose|k: int| #[trigger] crate::graph::is_parent_edge(gp, child_id@, k) && gp[k].0 != gp[e as int].0;
            let j = choose|j: int| 0 <= j < parents@.len() && parents@[j] == k;
            assert(gp[parents@[j] as int].0 == gp[e as int].0);
        }
    }
    let canonical_is_root = canonical.parent_id.is_none() && canonical.row_id != edge.row_id;
    let would_orphan = !has_other && !canonical_is_root;
    let policy_fail = match orphan_policy {
        crate::model::OrphanPolicy::FailIfWouldOrphan => true,
        _ => false,
    };
    let policy_delete = match orphan_policy {
        crate::model::OrphanPolicy::DeleteIfNoParents => true,
        _ => false,
    };
    let policy_move = match orphan_policy {
        crate::model::OrphanPolicy::MoveToRoots => true,
        _ => false,
    };
    if would_orphan && policy_fail {
        return Err(GraphError::WouldOrphanNode(string_from_str(child_id)));
    }
    if would_orphan && policy_delete {
        let d = crate::graph::compute_delete_set(&scan, child_id, Ghost(graph.tables));
        let res = perform_delete_set(&mut graph.tables, &scan, &d, Ghost(t));
        proof {
            if res is Ok {
                assert(nodes_removed(t, graph.tables, crate::scan::texts(d)));
            }
            assert(delete_set_for(t, child_id@, crate::model::DeleteMode::Recursive, crate::scan::texts(d)));
        }
        return res;
    }
    if !edge.is_canonical {
        delete_placement(&mut graph.tables.placements, edge.row_id);
        return Ok(());
    }
    if has_other {
        let mut best: Option<usize> = None;
        let mut y: usize = 0;
        while y < parents.len()
            invariant
                y <= parents.len(),
                placement_views(scan.placements@) == gp,
                forall|k: int| 0 <= k < parents@.len() ==> crate::graph::is_parent_edge(gp, child_id@, #[trigger] parents@[k] as int),
                forall|k: int, l: int| 0 <= k < l < parents@.len() ==> parents@[k] < parents@[l],
                forall|i: int| #[trigger] crate::graph::is_parent_edge(gp, child_id@, i) ==> exists|k: int| 0 <= k < parents@.len() && parents@[k] == i,
                e < scan.placements.len(),
                gp[e as int].0 == scan.placements@[e as int].row_id,
                *edge == scan.placements@[e as int],
                match best {
                    Some(b) => b < y && {
                        let kb = parents@[b as int] as int;
                        &&& gp[kb].0 != gp[e as int].0
                        &&& !gp[kb].4
                        &&& forall|z: int|
                            0 <= z < y && gp[#[trigger] parents@[z] as int].0 != gp[e as int].0 && !gp[parents@[z] as int].4
                                ==> !crate::order::chars_lt(gp[parents@[z] as int].3, gp[kb].3) && (z < b ==> gp[parents@[z] as int].3 != gp[kb].3)
                    },
                    None => forall|z: int| 0 <= z < y ==> !(gp[#[trigger] parents@[z] as int].0 != gp[e as int].0 && !gp[parents@[z] as int].4),
                },
            decreases parents.len() - y,
        {
            let k = parents[y];
            assert(gp[k as int] == scan.placements@[k as int].view());
            let cand = &scan.placements[k];
            if cand.row_id != edge.row_id && !cand.is_canonical {
                match best {
                    None => {
                        proof {
                            crate::order::lemma_lt_irreflexive(gp[k as int].3);
                        }
                        best = Some(y);
                    },
                    Some(b) => {
                        let kb = parents[b];
                        assert(gp[kb as int] == scan.placements@[kb as int].view());
                        let pa = chars_of(cand.logical_path.as_str());
                        let pb = chars_of(scan.placements[kb].logical_path.as_str());
                        if crate::order::chars_less(pa.as_slice(), pb.as_slice()) {
                            proof {
                                assert forall|z: int|
                                    0 <= z < y + 1 && gp[#[trigger] parents@[z] as int].0 != gp[e as int].0 && !gp[parents@[z] as int].4
                                        implies !crate::order::chars_lt(gp[parents@[z] as int].3, gp[k as int].3) && (z < y ==> gp[parents@[z] as int].3 != gp[k as int].3) by {
                                    if z < y {
                                        crate::order::lemma_lt_total(gp[parents@[z] as int].3, gp[kb as int].3);
                                        if crate::order::chars_lt(gp[parents@[z] as int].3, gp[k as int].3) {
                                            crate::order::lemma_lt_transitive(gp[parents@[z] as int].3, gp[k as int].3, gp[kb as int].3);
                                        }
                                        if gp[parents@[z] as int].3 == gp[k as int].3 {
                                            crate::order::lemma_lt_irreflexive(gp[k as int].3);
                                        }
                                    } else {
                                        crate::order::lemma_lt_irreflexive(gp[k as int].3);
                                    }
                                }
                            }
                            best = Some(y);
                        } else {
                            proof {
                                crate::order::lemma_lt_total(gp[k as int].3, gp[kb as int].3);
                            }
                        }
                    },
                }
            }
            y += 1;
        }
        match best {
            Some(b) => {
                let kb = parents[b];
                proof {
                    assert(gp[kb as int] == scan.placements@[kb as int].view());
                    assert(best_alias(gp, child_id@, gp[e as int].0, kb as int)) by {
                        assert forall|j: int|
                            #[trigger] crate::graph::is_parent_edge(gp, child_id@, j) && gp[j].0 != gp[e as int].0 && !gp[j].4
                                implies !crate::order::chars_lt(gp[j].3, gp[kb as int].3) && (j < kb ==> gp[j].3 != gp[kb as int].3) by {
                            let z = choose|z: int| 0 <= z < parents@.len() && parents@[z] == j;
                            if j < kb {
                                assert(z < b);
                            }
                        }
                    }
                    assert(canonical.view() == canon(t, child_id@)[0]);
                }
                promote_to_alias(&mut graph.tables.placements, canonical, &scan.placements[kb]);
                return Ok(());
            },
            None => {
                proof {
                    let k = choose|k: int| #[trigger] crate::graph::is_parent_edge(gp, child_id@, k) && gp[k].0 != gp[e as int].0;
                    let z = choose|z: int| 0 <= z < parents@.len() && parents@[z] == k;
                    assert(gp[e as int] == scan.placements@[e as int].view());
                    assert(gp[k].4);
                    assert(k != e);
                    lemma_two_canonical(t, child_id@, k, e as int);
                    assert(false);
                }
                return Err(GraphError::AliasConflict(edge.logical_path.clone()));
            },
        }
    }
    if policy_move {
        if canonical.parent_id.is_some() {
            let roots = string_from_str("roots");
            move_entry(
                &mut graph.tables.placements,
                &graph.tables.reserved,
                canonical.row_id,
                None,
                &canonical.logical_path,
                &roots,
                child.fields.title.as_str(),
                child_id,
            )?;
        }
        return Ok(());
    }
    delete_placement(&mut graph.tables.placements, edge.row_id);
    Ok(())
}

// ---------------------------------------------------------------------------
// context documents
// ---------------------------------------------------------------------------

pub open spec fn has_context(t: Tables, id: Seq<char>) -> bool {
    exists|i: int|
        0 <= i < crate::scan::graph_contexts(t).len() && (#[trigger] crate::scan::graph_contexts(t)[i]).id@ == id
}

/// Why context document `id` cannot be read, if it cannot.
pub open spec fn context_error(t: Tables, id: Seq<char>) -> Option<ErrorView> {
    if !uuid_shape(id) {
        Some(simple_error(10, id))
    } else {
        match crate::graph::first_problem_in(crate::scan::context_problem_list(t), id) {
            Some(p) => Some(crate::graph::problem_error(p)),
            None => if has_context(t, id) {
                None
            } else {
                Some(simple_error(3, id))
            },
        }
    }
}

/// Id, title, file name, Markdown, created, updated, path.
pub type ContextView = (Seq<char>, Seq<char>, Seq<char>, Seq<char>, u64, u64, Seq<char>);

pub open spec fn context_view(c: crate::model::ContextDocument) -> ContextView {
    (c.id@, c.title@, c.filename@, c.markdown@, c.created_at_unix, c.updated_at_unix, c.path@)
}

pub open spec fn context_row_view(r: ContextRow) -> ContextView {
    (
        r.id@,
        r.title@,
        r.filename@,
        r.markdown@,
        r.created_at_unix as u64,
        r.updated_at_unix as u64,
        crate::paths::context_path(r.filename@),
    )
}

/// Some context row of the graph with this id (there is one).
pub open spec fn context_of(t: Tables, id: Seq<char>) -> ContextView {
    context_row_view(
        crate::scan::graph_contexts(t)[choose|i: int|
            0 <= i < crate::scan::graph_contexts(t).len() && (#[trigger] crate::scan::graph_contexts(t)[i]).id@
                == id],
    )
}

proof fn lemma_context_ids_distinct(t: Tables)
    ensures
        forall|i: int, j: int|
            0 <= i < j < crate::scan::graph_contexts(t).len() ==> (#[trigger] crate::scan::graph_contexts(t)[i]).id@
                != (#[trigger] crate::scan::graph_contexts(t)[j]).id@,
{
    let rows = crate::scan::query_contexts(t);
    lemma_context_phase_distinct(rows, rows.len() as int);
}

proof fn lemma_context_phase_distinct(rows: Seq<ContextRow>, n: int)
    requires
        0 <= n <= rows.len(),
    ensures
        forall|i: int, j: int|
            0 <= i < j < crate::scan::context_phase(rows, n).0.len() ==> (
            #[trigger] crate::scan::context_phase(rows, n).0[i]).id@ != (
            #[trigger] crate::scan::context_phase(rows, n).0[j]).id@,
        forall|i: int|
            0 <= i < crate::scan::context_phase(rows, n).0.len() ==> exists|k: int|
                0 <= k < n && rows[k] == #[trigger] crate::scan::context_phase(rows, n).0[i],
    decreases n,
{
    if n > 0 {
        lemma_context_phase_distinct(rows, n - 1);
        let prev = crate::scan::context_phase(rows, n - 1).0;
        let cur = crate::scan::context_phase(rows, n).0;
        if cur.len() > prev.len() {
            assert(!crate::scan::context_seen_before(rows, n - 1));
            assert forall|i: int| 0 <= i < prev.len() implies prev[i].id@ != rows[n - 1].id@ by {
                let k = choose|k: int| 0 <= k < n - 1 && rows[k] == prev[i];
                assert(rows[k].id@ != rows[n - 1].id@);
            }
        }
    }
}

fn require_context(scan: &Scan, id: &str, Ghost(t): Ghost<Tables>) -> (r: Result<usize, GraphError>)
    requires
        scan_of(*scan, t),
    ensures
        match r {
            Ok(i) => context_error(t, id@) is None && i < scan.contexts.len() && crate::scan::graph_contexts(t)[i as int].id@
                == id@ && context_of(t, id@) == context_row_view(crate::scan::graph_contexts(t)[i as int]),
            Err(e) => context_error(t, id@) == Some(error_view(e)),
        },
{
    crate::ids::validate_context_id(id)?;
    proof {
        crate::scan::lemma_scan_contexts(*scan, t);
    }
    let ghost list = crate::scan::context_problem_list(t);
    assert(list.skip(0) =~= list);
    let me = string_from_str(id);
    let mut k: usize = 0;
    while k < scan.context_problems.len()
        invariant
            k <= scan.context_problems.len(),
            list == crate::scan::context_problem_list(t),
            crate::scan::keyed_view(scan.context_problems@) == list,
            me@ == id@,
            uuid_shape(id@),
            crate::graph::first_problem_in(list, id@) == crate::graph::first_problem_in(list.skip(k as int), id@),
        decreases scan.context_problems.len() - k,
    {
        assert(list.skip(k as int)[0] == list[k as int]);
        assert(list[k as int] == (scan.context_problems@[k as int].0@, crate::scan::problem_view(scan.context_problems@[k as int].1)));
        if str_same(&scan.context_problems[k].0, &me) {
            return Err(crate::graph::graph_problem_to_error(&scan.context_problems[k].1));
        }
        assert(list.skip(k as int).drop_first() =~= list.skip(k + 1));
        k += 1;
    }
    assert(list.skip(k as int).len() == 0);
    let mut i: usize = 0;
    while i < scan.contexts.len()
        invariant
            i <= scan.contexts.len(),
            me@ == id@,
            uuid_shape(id@),
            crate::graph::first_problem_in(crate::scan::context_problem_list(t), id@) is None,
            crate::scan::all_contexts_match(scan.contexts@, crate::scan::graph_contexts(t)),
            forall|j: int| 0 <= j < i ==> (#[trigger] crate::scan::graph_contexts(t)[j]).id@ != id@,
        decreases scan.contexts.len() - i,
    {
        assert(crate::store::context_matches_row(scan.contexts@[i as int], crate::scan::graph_contexts(t)[i as int]));
        if str_same(&scan.contexts[i].id, &me) {
            proof {
                lemma_context_ids_distinct(t);
                let c = choose|x: int|
                    0 <= x < crate::scan::graph_contexts(t).len() && (#[trigger] crate::scan::graph_contexts(t)[x]).id@ == id@;
                if c != i {
                    if c < i {
                        assert(crate::scan::graph_contexts(t)[c].id@ != id@);
                    } else {
                        assert(crate::scan::graph_contexts(t)[i as int].id@ != crate::scan::graph_contexts(t)[c].id@);
                    }
                }
            }
            return Ok(i);
        }
        i += 1;
    }
    Err(GraphError::ContextNotFound(me))
}

fn context_document_from_scanned(c: &crate::store::ScannedContext) -> (r: crate::model::ContextDocument)
    ensures
        context_view(r) == (c.id@, c.title@, c.filename@, c.markdown@, c.created_at_unix, c.updated_at_unix, c.path@),
{
    crate::model::ContextDocument {
        id: c.id.clone(),
        title: c.title.clone(),
        filename: c.filename.clone(),
        markdown: c.markdown.clone(),
        created_at_unix: c.created_at_unix,
        updated_at_unix: c.updated_at_unix,
        path: c.path.clone(),
    }
}

/// What `read_context_document` returns and leaves, by its arguments.
pub open spec fn read_context_document_outcome(graph: IdeaGraph, context_id: Seq<char>, r: Result<crate::model::ContextDocument, GraphError>) -> bool {
    match r {
        Ok(c) => uuid_shape(context_id) && graph_name_error(graph.graph_name@) is None && context_error(
            graph.tables,
            context_id,
        ) is None && context_view(c) == context_of(graph.tables, context_id),
        Err(e) => if !uuid_shape(context_id) {
            error_view(e) == simple_error(10, context_id)
        } else if graph_name_error(graph.graph_name@) is Some {
            Some(error_view(e)) == graph_name_error(graph.graph_name@)
        } else {
            context_error(graph.tables, context_id) == Some(error_view(e))
        },
    }
}

pub fn read_context_document(graph: &IdeaGraph, context_id: &str) -> (r: Result<crate::model::ContextDocument, GraphError>)
    ensures
        read_context_document_outcome(*graph, context_id@, r),
{
    crate::ids::validate_context_id(context_id)?;
    validate_graph_name(graph.graph_name.as_str())?;
    let scan = crate::scan::load_scan(&graph.tables);
    let i = require_context(&scan, context_id, Ghost(graph.tables))?;
    proof {
        crate::scan::lemma_scan_contexts(scan, graph.tables);
        assert(crate::store::context_matches_row(scan.contexts@[i as int], crate::scan::graph_contexts(graph.tables)[i as int]));
    }
    Ok(context_document_from_scanned(&scan.contexts[i]))
}

/// The context rows after the rows of `id` got a new title, Markdown and
/// update time.
pub open spec fn contexts_updated(before: Seq<ContextRowView>, after: Seq<ContextRowView>, id: Seq<char>, title: Seq<char>, markdown: Seq<char>, updated: i64) -> bool {
    &&& after.len() == before.len()
    &&& forall|i: int|
        0 <= i < before.len() ==> #[trigger] after[i] == (if before[i].0 == id {
            (before[i].0, before[i].1, before[i].2, title, markdown, before[i].5, updated)
        } else {
            before[i]
        })
}

fn update_context_rows(rows: &mut Vec<ContextRow>, id: &String, title: &String, markdown: &String, updated: i64)
    ensures
        contexts_updated(crows(old(rows)@), crows(final(rows)@), id@, title@, markdown@, updated),
{
    let mut out: Vec<ContextRow> = Vec::new();
    let mut i: usize = 0;
    while i < rows.len()
        invariant
            i <= rows.len(),
            out.len() == i,
            forall|k: int|
                0 <= k < i ==> crow(#[trigger] out@[k]) == (if rows@[k].id@ == id@ {
                    (rows@[k].id@, rows@[k].slug@, rows@[k].filename@, title@, markdown@, rows@[k].created_at_unix, updated)
                } else {
                    crow(rows@[k])
                }),
        decreases rows.len() - i,
    {
        let r = &rows[i];
        if str_same(&r.id, id) {
            out.push(
                ContextRow {
                    id: r.id.clone(),
                    slug: r.slug.clone(),
                    filename: r.filename.clone(),
                    title: title.clone(),
                    markdown: markdown.clone(),
                    created_at_unix: r.created_at_unix,
                    updated_at_unix: updated,
                },
            );
        } else {
            out.push(crate::scan::copy_context_row(r));
        }
        i += 1;
    }
    proof {
        assert forall|k: int| 0 <= k < rows@.len() implies #[trigger] crows(out@)[k] == (if crows(rows@)[k].0 == id@ {
            (crows(rows@)[k].0, crows(rows@)[k].1, crows(rows@)[k].2, title@, markdown@, crows(rows@)[k].5, updated)
        } else {
            crows(rows@)[k]
        }) by {
            assert(crows(out@)[k] == crow(out@[k]));
            assert(crows(rows@)[k] == crow(rows@[k]));
        }
    }
    *rows = out;
}

/// What `update_context_document` returns and leaves, by its arguments.
pub open spec fn update_context_document_outcome(prior: IdeaGraph, later: IdeaGraph, context_id: Seq<char>, patch: crate::model::ContextDocumentPatch, r: Result<crate::model::ContextDocument, GraphError>) -> bool {
    match r {
        Ok(c) => {
            let t = prior.tables;
            let before = context_of(t, context_id);
            let title = match patch.title {
                Some(x) => x@,
                None => before.1,
            };
            let markdown = match patch.markdown {
                Some(x) => x@,
                None => before.3,
            };
            &&& uuid_shape(context_id) && graph_name_error(prior.graph_name@) is None
            &&& context_error(t, context_id) is None
            &&& (patch.title matches Some(x) ==> valid_title(x@))
            &&& context_view(c) == (before.0, title, before.2, markdown, before.4, c.updated_at_unix, before.6)
            &&& c.updated_at_unix >= next_time(before.5)
            &&& c.updated_at_unix <= i64::MAX
            &&& contexts_updated(crows(t.contexts@), crows(later.tables.contexts@), context_id, title, markdown, c.updated_at_unix as i64)
            &&& nrows(later.tables.nodes@) == nrows(t.nodes@)
            &&& prows(later.tables.placements@) == prows(t.placements@)
            &&& later.graph_name@ == prior.graph_name@
            &&& later.tables.reserved@ == prior.tables.reserved@
        },
        Err(e) => later == prior && if !uuid_shape(context_id) {
            error_view(e) == simple_error(10, context_id)
        } else if graph_name_error(prior.graph_name@) is Some {
            Some(error_view(e)) == graph_name_error(prior.graph_name@)
        } else if context_error(prior.tables, context_id) is Some {
            context_error(prior.tables, context_id) == Some(error_view(e))
        } else if patch.title matches Some(x) && !valid_title(x@) {
            error_view(e) == simple_error(11, Seq::empty())
        } else {
            error_view(e) == timestamp_error()
        },
    }
}

/// Sets a context document's title and Markdown; returns it as it now reads.
pub fn update_context_document(graph: &mut IdeaGraph, context_id: &str, patch: crate::model::ContextDocumentPatch) -> (r: Result<crate::model::ContextDocument, GraphError>)
    ensures
        update_context_document_outcome(*old(graph), *final(graph), context_id@, patch, r),
{
    update_context_document_at(graph, context_id, patch, now_unix())
}

/// Updates a context document at clock time `now`: it succeeds exactly when
/// the update's checks pass and its time stamp fits in an SQLite integer,
/// and the document then carries that stamp.
pub fn update_context_document_at(graph: &mut IdeaGraph, context_id: &str, patch: crate::model::ContextDocumentPatch, now: u64) -> (r: Result<crate::model::ContextDocument, GraphError>)
    ensures
        update_context_document_outcome(*old(graph), *final(graph), context_id@, patch, r),
        r matches Ok(c) ==> c.updated_at_unix == update_stamp(now, context_of(old(graph).tables, context_id@).5),
        r is Err && uuid_shape(context_id@) && graph_name_error(old(graph).graph_name@) is None
            && context_error(old(graph).tables, context_id@) is None && !(patch.title matches Some(x) && !valid_title(x@))
            ==> update_stamp(now, context_of(old(graph).tables, context_id@).5) > i64::MAX,
{
    crate::ids::validate_context_id(context_id)?;
    validate_graph_name(graph.graph_name.as_str())?;
    let scan = crate::scan::load_scan(&graph.tables);
    let i = require_context(&scan, context_id, Ghost(graph.tables))?;
    proof {
        crate::scan::lemma_scan_contexts(scan, graph.tables);
        assert(crate::store::context_matches_row(scan.contexts@[i as int], crate::scan::graph_contexts(graph.tables)[i as int]));
    }
    let c = &scan.contexts[i];
    let title = match patch.title {
        Some(x) => {
            validate_title(x.as_str())?;
            x
        },
        None => c.title.clone(),
    };
    let markdown = match patch.markdown {
        Some(x) => x,
        None => c.markdown.clone(),
    };
    let next = c.updated_at_unix.saturating_add(1);
    let updated = if now > next {
        now
    } else {
        next
    };
    let stored = unix_to_i64(updated)?;
    let id = string_from_str(context_id);
    update_context_rows(&mut graph.tables.contexts, &id, &title, &markdown, stored);
    Ok(
        crate::model::ContextDocument {
            id,
            title,
            filename: c.filename.clone(),
            markdown,
            created_at_unix: c.created_at_unix,
            updated_at_unix: updated,
            path: c.path.clone(),
        },
    )
}

fn drop_context_rows(rows: &mut Vec<ContextRow>, id: &String)
    ensures
        forall|i: int| 0 <= i < final(rows)@.len() ==> (#[trigger] final(rows)@[i]).id@ != id@,
        forall|i: int|
            0 <= i < old(rows)@.len() && (#[trigger] old(rows)@[i]).id@ != id@ ==> crows(final(rows)@).contains(
                crow(old(rows)@[i]),
            ),
        forall|i: int| 0 <= i < final(rows)@.len() ==> crows(old(rows)@).contains(crow(#[trigger] final(rows)@[i])),
{
    let mut out: Vec<ContextRow> = Vec::new();
    let mut i: usize = 0;
    while i < rows.len()
        invariant
            i <= rows.len(),
            forall|k: int| 0 <= k < out@.len() ==> (#[trigger] out@[k]).id@ != id@,
            forall|k: int| 0 <= k < i && (#[trigger] rows@[k]).id@ != id@ ==> crows(out@).contains(crow(rows@[k])),
            forall|k: int| 0 <= k < out@.len() ==> crows(rows@).contains(crow(#[trigger] out@[k])),
        decreases rows.len() - i,
    {
        if !str_same(&rows[i].id, id) {
            let ghost old_out = out@;
            let c = crate::scan::copy_context_row(&rows[i]);
            out.push(c);
            proof {
                assert(crows(out@)[out@.len() - 1] == crow(rows@[i as int]));
                assert forall|k: int| 0 <= k < i + 1 && (#[trigger] rows@[k]).id@ != id@ implies crows(out@).contains(crow(rows@[k])) by {
                    if k < i {
                        let x = choose|x: int| 0 <= x < crows(old_out).len() && crows(old_out)[x] == crow(rows@[k]);
                        assert(crows(out@)[x] == crows(old_out)[x]);
                    }
                }
                assert forall|k: int| 0 <= k < out@.len() implies crows(rows@).contains(crow(#[trigger] out@[k])) by {
                    if k < old_out.len() {
                        assert(out@[k] == old_out[k]);
                    } else {
                        assert(crows(rows@)[i as int] == crow(out@[k]));
                    }
                }
            }
        }
        i += 1;
    }
    *rows = out;
}

/// What `delete_context_document` returns and leaves, by its arguments.
pub open spec fn delete_context_document_outcome(prior: IdeaGraph, later: IdeaGraph, context_id: Seq<char>, r: Result<(), GraphError>) -> bool {
    match r {
        Ok(()) => {
            let t = prior.tables;
            &&& uuid_shape(context_id) && graph_name_error(prior.graph_name@) is None
            &&& context_error(t, context_id) is None
            &&& forall|i: int| 0 <= i < later.tables.contexts@.len() ==> (#[trigger] later.tables.contexts@[i]).id@ != context_id
            &&& forall|i: int| 0 <= i < t.contexts@.len() && (#[trigger] t.contexts@[i]).id@ != context_id ==> crows(later.tables.contexts@).contains(crow(t.contexts@[i]))
            &&& forall|i: int| 0 <= i < later.tables.contexts@.len() ==> crows(t.contexts@).contains(crow(#[trigger] later.tables.contexts@[i]))
            &&& nrows(later.tables.nodes@) == nrows(t.nodes@)
            &&& prows(later.tables.placements@) == prows(t.placements@)
            &&& later.graph_name@ == prior.graph_name@
            &&& later.tables.reserved@ == prior.tables.reserved@
        },
        Err(e) => later == prior && if !uuid_shape(context_id) {
            error_view(e) == simple_error(10, context_id)
        } else if graph_name_error(prior.graph_name@) is Some {
            Some(error_view(e)) == graph_name_error(prior.graph_name@)
        } else {
            context_error(prior.tables, context_id) == Some(error_view(e))
        },
    }
}

pub fn delete_context_document(graph: &mut IdeaGraph, context_id: &str) -> (r: Result<(), GraphError>)
    ensures
        delete_context_document_outcome(*old(graph), *final(graph), context_id@, r),
{
    crate::ids::validate_context_id(context_id)?;
    validate_graph_name(graph.graph_name.as_str())?;
    let scan = crate::scan::load_scan(&graph.tables);
    require_context(&scan, context_id, Ghost(graph.tables))?;
    let id = string_from_str(context_id);
    drop_context_rows(&mut graph.tables.contexts, &id);
    Ok(())
}

/// What `list_context_documents` returns and leaves, by its arguments.
pub open spec fn list_context_documents_outcome(graph: IdeaGraph, r: Result<Vec<crate::model::ContextSummary>, GraphError>) -> bool {
    match r {
        Ok(v) => graph_name_error(graph.graph_name@) is None && crate::scan::context_problem_list(graph.tables).len() == 0
            && crate::graph::context_summary_views(v@) == crate::graph::context_summaries_sorted(
            crate::scan::graph_contexts(graph.tables).map_values(|c: ContextRow| crate::graph::context_row_summary(c)),
        ),
        Err(e) => if graph_name_error(graph.graph_name@) is Some {
            Some(error_view(e)) == graph_name_error(graph.graph_name@)
        } else {
            crate::scan::context_problem_list(graph.tables).len() > 0 && error_view(e) == crate::graph::problem_error(
                crate::scan::context_problem_list(graph.tables)[0].1,
            )
        },
    }
}

/// The context documents, sorted by title, id and path; fails on the
/// first context problem.
pub fn list_context_documents(graph: &IdeaGraph) -> (r: Result<Vec<crate::model::ContextSummary>, GraphError>)
    ensures
        list_context_documents_outcome(*graph, r),
{
    validate_graph_name(graph.graph_name.as_str())?;
    let scan = crate::scan::load_scan(&graph.tables);
    proof {
        crate::scan::lemma_scan_contexts(scan, graph.tables);
    }
    if scan.context_problems.len() > 0 {
        proof {
            assert(crate::scan::keyed_view(scan.context_problems@)[0] == (scan.context_problems@[0].0@, crate::scan::problem_view(scan.context_problems@[0].1)));
        }
        return Err(crate::graph::graph_problem_to_error(&scan.context_problems[0].1));
    }
    let ix = crate::graph::graph_index(&scan, Ghost(graph.tables));
    Ok(ix.contexts)
}

pub open spec fn context_filename(slug: Seq<char>, id: Seq<char>) -> Seq<char> {
    slug + "--"@ + id + ".md"@
}

pub open spec fn filename_taken(rows: Seq<ContextRow>, f: Seq<char>) -> bool {
    exists|i: int| 0 <= i < rows.len() && (#[trigger] rows[i]).filename@ == f
}

/// Suffix `k` gives the first file name for context `id` with slug base
/// `base` that no row has.
pub open spec fn first_free_filename(rows: Seq<ContextRow>, base: Seq<char>, id: Seq<char>, k: nat) -> bool {
    &&& k >= 1
    &&& !filename_taken(rows, context_filename(suffixed_slug(base, k), id))
    &&& forall|j: nat| 1 <= j < k ==> #[trigger] filename_taken(rows, context_filename(suffixed_slug(base, j), id))
}

pub open spec fn context_id_taken(rows: Seq<ContextRow>, id: Seq<char>) -> bool {
    exists|i: int| 0 <= i < rows.len() && (#[trigger] rows[i]).id@ == id
}

/// A fresh random context id that no context row has.
pub fn generate_unique_context_id(rows: &Vec<ContextRow>) -> (r: Result<String, GraphError>)
    ensures
        match r {
            Ok(id) => uuid_shape(id@) && !context_id_taken(rows@, id@),
            Err(e) => error_view(e) == context_ids_exhausted_error(),
        },
{
    let mut tries: u64 = 0;
    while tries < u64::MAX
        decreases u64::MAX - tries,
    {
        let id = new_uuid_v4();
        let mut seen = false;
        let mut i: usize = 0;
        while i < rows.len()
            invariant
                i <= rows.len(),
                !seen ==> forall|k: int| 0 <= k < i ==> (#[trigger] rows@[k]).id@ != id@,
            decreases rows.len() - i,
        {
            if str_same(&rows[i].id, &id) {
                seen = true;
            }
            i += 1;
        }
        if !seen {
            return Ok(id);
        }
        tries += 1;
    }
    proof {
        reveal_strlit("no unused context id was generated");
    }
    Err(GraphError::Storage(string_from_str("no unused context id was generated")))
}

pub open spec fn context_ids_exhausted_error() -> ErrorView {
    simple_error(1, "no unused context id was generated"@)
}

/// Every file name context `id` can take is in use.
pub open spec fn all_filenames_taken(rows: Seq<ContextRow>, base: Seq<char>, id: Seq<char>) -> bool {
    forall|j: nat| 1 <= j <= usize::MAX ==> #[trigger] filename_taken(rows, context_filename(suffixed_slug(base, j), id))
}

fn filename_in_use(rows: &Vec<ContextRow>, f: &String) -> (r: bool)
    ensures
        r == filename_taken(rows@, f@),
{
    let mut i: usize = 0;
    while i < rows.len()
        invariant
            i <= rows.len(),
            forall|k: int| 0 <= k < i ==> (#[trigger] rows@[k]).filename@ != f@,
        decreases rows.len() - i,
    {
        if str_same(&rows[i].filename, f) {
            return true;
        }
        i += 1;
    }
    false
}

/// The first free slug and file name for context `id` titled `title`.
pub fn unique_context_filename(rows: &Vec<ContextRow>, title: &str, id: &String) -> (r: Result<(String, String), GraphError>)
    ensures
        match r {
            Ok((slug, filename)) => exists|k: nat|
                first_free_filename(rows@, slug_of(title@), id@, k) && slug@ == suffixed_slug(slug_of(title@), k)
                    && filename@ == context_filename(slug@, id@),
            Err(e) => error_view(e) == simple_error(22, "context"@) && all_filenames_taken(rows@, slug_of(title@), id@),
        },
        r is Ok <==> !all_filenames_taken(rows@, slug_of(title@), id@),
{
    let base = slugify(title);
    let mut suffix: usize = 1;
    loop
        invariant
            1 <= suffix,
            base@ == slug_of(title@),
            forall|j: nat| 1 <= j < suffix ==> #[trigger] filename_taken(rows@, context_filename(suffixed_slug(base@, j), id@)),
        decreases usize::MAX - suffix,
    {
        let mut slug = base.clone();
        if suffix != 1 {
            push_str(&mut slug, "-");
            let d = decimal_chars(suffix as u64);
            push_chars(&mut slug, d.as_slice());
        }
        proof {
            reveal_strlit("-");
            assert(slug@ =~= suffixed_slug(base@, suffix as nat));
        }
        let mut filename = slug.clone();
        push_str(&mut filename, "--");
        push_str(&mut filename, id.as_str());
        push_str(&mut filename, ".md");
        proof {
            reveal_strlit("--");
            reveal_strlit(".md");
            assert(filename@ =~= context_filename(slug@, id@));
        }
        if !filename_in_use(rows, &filename) {
            proof {
                assert(first_free_filename(rows@, slug_of(title@), id@, suffix as nat));
                assert(!filename_taken(rows@, context_filename(suffixed_slug(base@, suffix as nat), id@)));
            }
            return Ok((slug, filename));
        }
        if suffix == usize::MAX {
            proof {
                reveal_strlit("context");
            }
            return Err(GraphError::AliasConflict(string_from_str("context")));
        }
        suffix += 1;
    }
}

/// A context document as stored: the new row, with a free file name.
pub open spec fn context_added(before: Tables, after: Tables, id: Seq<char>, doc: crate::model::NewContextDocument) -> bool {
    let now = crows(after.contexts@)[crows(before.contexts@).len() as int].5;
    exists|k: nat|
        #![trigger suffixed_slug(slug_of(doc.title@), k)]
        {
            &&& now >= 0
            &&& first_free_filename(before.contexts@, slug_of(doc.title@), id, k)
            &&& crows(after.contexts@) == crows(before.contexts@).push(
                (
                    id,
                    suffixed_slug(slug_of(doc.title@), k),
                    context_filename(suffixed_slug(slug_of(doc.title@), k), id),
                    doc.title@,
                    doc.markdown@,
                    now,
                    now,
                ),
            )
            &&& nrows(after.nodes@) == nrows(before.nodes@)
            &&& prows(after.placements@) == prows(before.placements@)
        }
}

/// What `add_context_document` returns and leaves, by its arguments.
pub open spec fn add_context_document_outcome(prior: IdeaGraph, later: IdeaGraph, context: crate::model::NewContextDocument, r: Result<String, GraphError>) -> bool {
    match r {
        Ok(id) => graph_name_error(prior.graph_name@) is None && valid_title(context.title@) && uuid_shape(id@)
            && !context_id_taken(prior.tables.contexts@, id@)
            && context_added(prior.tables, later.tables, id@, context) && later.graph_name@ == prior.graph_name@
                && later.tables.reserved@ == prior.tables.reserved@,
        Err(e) => later == prior && if graph_name_error(prior.graph_name@) is Some {
            Some(error_view(e)) == graph_name_error(prior.graph_name@)
        } else if !valid_title(context.title@) {
            error_view(e) == simple_error(11, Seq::empty())
        } else {
            context_add_failure(prior.tables, context, error_view(e))
        },
    }
}

/// Why context `id`, added at time `now`, cannot be stored, if it cannot.
pub open spec fn context_insert_error(t: Tables, context: crate::model::NewContextDocument, id: Seq<char>, now: u64) -> Option<ErrorView> {
    if all_filenames_taken(t.contexts@, slug_of(context.title@), id) {
        Some(simple_error(22, "context"@))
    } else if now > i64::MAX {
        Some(timestamp_error())
    } else {
        None
    }
}

/// Adding a context fails with `e`: every random id drawn was taken, or a
/// fresh id and a time for which the rows cannot take it give `e`.
pub open spec fn context_add_failure(t: Tables, context: crate::model::NewContextDocument, e: ErrorView) -> bool {
    ||| e == context_ids_exhausted_error()
    ||| exists|id: Seq<char>, now: u64|
        uuid_shape(id) && !context_id_taken(t.contexts@, id) && #[trigger] context_insert_error(t, context, id, now) == Some(e)
}

/// Stores context `id`, added at time `now`.
pub fn insert_context_row(graph: &mut IdeaGraph, context: &crate::model::NewContextDocument, id: &String, now: u64) -> (r: Result<(), GraphError>)
    ensures
        match r {
            Ok(()) => context_insert_error(old(graph).tables, *context, id@, now) is None && context_added(
                old(graph).tables,
                final(graph).tables,
                id@,
                *context,
            ) && crows(final(graph).tables.contexts@)[crows(old(graph).tables.contexts@).len() as int].5 == now
                && final(graph).graph_name@ == old(graph).graph_name@
                && final(graph).tables.reserved@ == old(graph).tables.reserved@,
            Err(e) => *final(graph) == *old(graph) && context_insert_error(old(graph).tables, *context, id@, now)
                == Some(error_view(e)),
        },
{
    let (slug, filename) = unique_context_filename(&graph.tables.contexts, context.title.as_str(), id)?;
    let stamp = unix_to_i64(now)?;
    let row = ContextRow {
        id: id.clone(),
        slug,
        filename,
        title: context.title.clone(),
        markdown: context.markdown.clone(),
        created_at_unix: stamp,
        updated_at_unix: stamp,
    };
    let ghost before = graph.tables.contexts@;
    graph.tables.contexts.push(row);
    proof {
        assert(crows(graph.tables.contexts@) =~= crows(before).push(crow(row)));
        assert(crows(graph.tables.contexts@)[crows(before).len() as int].5 == stamp);
    }
    Ok(())
}

/// Adds a context document; returns its new id.
pub fn add_context_document(graph: &mut IdeaGraph, context: crate::model::NewContextDocument) -> (r: Result<String, GraphError>)
    ensures
        add_context_document_outcome(*old(graph), *final(graph), context, r),
{
    validate_graph_name(graph.graph_name.as_str())?;
    validate_title(context.title.as_str())?;
    let id = generate_unique_context_id(&graph.tables.contexts)?;
    let now = now_unix();
    match insert_context_row(graph, &context, &id, now) {
        Ok(()) => Ok(id),
        Err(e) => {
            proof {
                assert(context_insert_error(old(graph).tables, context, id@, now) == Some(error_view(e)));
            }
            Err(e)
        },
    }
}

} // verus!
