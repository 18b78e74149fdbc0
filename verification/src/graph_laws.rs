//! Laws of the graph operations: what a read gives back after a write,
//! and what a link leaves.
use vstd::prelude::*;

use crate::decimal::lemma_decimal;
use crate::graph::{
    canon, first_problem_in, has_node, node_error, node_index_of, node_of, node_view, path_sorted_aliases,
    read_result, simple_error, ErrorView, NodeView,
};
use crate::ids::{uuid_shape, valid_title};
use crate::markdown::{content_parts, kind_of};
use crate::model::{
    ContextDocument, ContextDocumentPatch, DeleteMode, GraphError, NewContextDocument, NewNode, Node,
    NodeContent, NodePatch,
};
use crate::order::{lemma_permuted_once, lemma_sorted_order_exists, permuted, sorted_by, KeyView};
use crate::paths::{
    component_end, components_from, context_filename_check, context_path, good_component, has_char,
    has_control_char, last_component, last_index_of, lemma_component_end, lemma_last_index_of,
    logical_path_check, moved_path, node_id_of_path, parent_path,
};
use crate::scan::{
    canonical_phase, canonical_views, child_path_phase, context_phase, context_problem_list,
    context_seen_before, edge_seen, graph_contexts, graph_nodes, graph_places, has_edge, node_phase,
    node_problem_list, node_seen_before, path_sorted, path_texts, place_key, placement_phase, places_of,
    query_contexts, query_nodes, query_places, KeyedProblems,
};
use crate::slug::{lemma_slug_shape, slug_char, slug_of};
use crate::sqlite::{
    add_child_node_outcome, add_context_document_outcome, add_root_node_outcome, context_error,
    context_filename, context_of, context_row_view, context_view, crow, crows, delete_node_outcome,
    drop_nodes, entry_moved, entry_path, first_free, first_free_filename, fresh_row_id,
    graph_name_error, has_context, link_error, link_existing_node_outcome, link_moves, new_node_error,
    new_row_view, node_id_taken, nodes_removed, nrow, nrows, prow, prows, root_add_error, rows_updated,
    suffixed_slug, update_context_document_outcome, update_error, update_node_outcome, IdeaGraph,
};
use crate::store::{
    context_reason, node_reason, placement_of_row, placement_reason, row_ids, row_kind, row_parts,
    ContextRow, NodeRow, PlacementRow, PlacementView, Tables,
};
use crate::text::{dashes_at, is_blank, is_control, is_ws, last_dashes, rsplit_dashes};

verus! {

// ---------------------------------------------------------------------------
// the path of a new entry
// ---------------------------------------------------------------------------

proof fn lemma_suffixed_slug(base: Seq<char>, k: nat)
    requires
        base.len() > 0,
        forall|i: int| 0 <= i < base.len() ==> slug_char(#[trigger] base[i]),
    ensures
        suffixed_slug(base, k).len() > 0,
        forall|i: int| 0 <= i < suffixed_slug(base, k).len() ==> slug_char(#[trigger] suffixed_slug(base, k)[i]),
{
    if k != 1 {
        lemma_decimal(k);
        let s = suffixed_slug(base, k);
        assert forall|i: int| 0 <= i < s.len() implies slug_char(#[trigger] s[i]) by {
            if i < base.len() {
                assert(s[i] == base[i]);
            } else if i == base.len() {
                assert(s[i] == '-');
            } else {
                assert(s[i] == crate::decimal::decimal(k)[i - base.len() - 1]);
            }
        }
    }
}

/// A slug character is neither whitespace, a control character, `/` nor
/// `\`.
proof fn lemma_slug_char_plain(c: char)
    requires
        slug_char(c),
    ensures
        !is_ws(c),
        !is_control(c),
        c != '/',
        c != '\\',
{
}

proof fn lemma_uuid_chars(x: Seq<char>)
    requires
        uuid_shape(x),
    ensures
        forall|i: int| 0 <= i < x.len() ==> slug_char(#[trigger] x[i]),
        forall|j: int| !dashes_at(x, j),
        x[0] != '-',
{
    assert forall|i: int| 0 <= i < x.len() implies slug_char(#[trigger] x[i]) by {
        assert(i == 8 || i == 13 || i == 18 || i == 23 ==> x[i] == '-');
    }
    assert forall|j: int| !dashes_at(x, j) by {
        if dashes_at(x, j) {
            assert(x[j] == '-' && x[j + 1] == '-');
            assert(j == 8 || j == 13 || j == 18 || j == 23);
            assert(!(j + 1 == 8 || j + 1 == 13 || j + 1 == 18 || j + 1 == 23));
            assert(crate::text::is_lower_hex(x[j + 1]));
        }
    }
}

/// `slug--id` splits at its last `--` into the slug and the id.
proof fn lemma_dashes_split(slug: Seq<char>, id: Seq<char>)
    requires
        slug.len() > 0,
        forall|i: int| 0 <= i < slug.len() ==> slug_char(#[trigger] slug[i]),
        uuid_shape(id),
    ensures
        rsplit_dashes(slug + "--"@ + id) == Some((slug, id)),
{
    reveal_strlit("--");
    let name = slug + "--"@ + id;
    lemma_uuid_chars(id);
    let s = slug.len() as int;
    assert(name[s] == '-' && name[s + 1] == '-');
    assert(dashes_at(name, s));
    assert forall|j: int| dashes_at(name, j) implies j <= s by {
        if j > s {
            if j == s + 1 {
                assert(name[j + 1] == id[0]);
            } else {
                assert(name[j] == id[j - s - 2] && name[j + 1] == id[j - s - 1]);
                assert(dashes_at(id, j - s - 2));
            }
        }
    }
    let i = choose|i: int| dashes_at(name, i) && forall|j: int| dashes_at(name, j) ==> j <= i;
    assert(last_dashes(name) == Some(i));
    assert(i == s);
    assert(name.subrange(0, s) =~= slug);
    assert(name.subrange(s + 2, name.len() as int) =~= id);
}

/// The path of an entry `slug--id` in `container`, its last component and
/// its id.
proof fn lemma_entry_name(container: Seq<char>, slug: Seq<char>, id: Seq<char>)
    requires
        slug.len() > 0,
        forall|i: int| 0 <= i < slug.len() ==> slug_char(#[trigger] slug[i]),
        uuid_shape(id),
    ensures
        ({
            let path = entry_path(container, slug, id);
            let name = slug + "--"@ + id;
            &&& path == container + seq!['/'] + name
            &&& last_index_of(path, '/', path.len() as int) == Some(container.len() as int)
            &&& last_component(path) == name
            &&& parent_path(path) == container
            &&& node_id_of_path(path) == Some(id)
            &&& forall|i: int| 0 <= i < name.len() ==> slug_char(#[trigger] name[i])
        }),
{
    reveal_strlit("--");
    let path = entry_path(container, slug, id);
    let name = slug + "--"@ + id;
    assert(path =~= container + seq!['/'] + name);
    lemma_uuid_chars(id);
    assert forall|i: int| 0 <= i < name.len() implies slug_char(#[trigger] name[i]) by {
        if i < slug.len() {
            assert(name[i] == slug[i]);
        } else if i < slug.len() + 2 {
            assert(name[i] == '-');
        } else {
            assert(name[i] == id[i - slug.len() - 2]);
        }
    }
    let c = container.len() as int;
    lemma_last_index_of(path, '/', path.len() as int);
    assert forall|j: int| c < j < path.len() implies path[j] != '/' by {
        assert(path[j] == name[j - c - 1]);
        lemma_slug_char_plain(name[j - c - 1]);
    }
    assert(path[c] == '/');
    match last_index_of(path, '/', path.len() as int) {
        Some(i) => {
            assert(i == c);
        },
        None => {
            assert(path[c] != '/');
        },
    }
    assert(path.subrange(c + 1, path.len() as int) =~= name);
    assert(path.subrange(0, c) =~= container);
    lemma_dashes_split(slug, id);
}

proof fn lemma_plain_path(path: Seq<char>)
    requires
        path.len() > 0,
        path[0] != '/',
        forall|j: int| 0 <= j < path.len() ==> slug_char(#[trigger] path[j]) || path[j] == '/',
    ensures
        !is_blank(path),
        !((path.len() > 0 && path[0] == '/') || has_char(path, '\\') || has_control_char(path)),
{
    assert(slug_char(path[0]));
    assert(!is_blank(path)) by {
        assert(!is_ws(path[0]));
    }
    assert(!has_char(path, '\\')) by {
        if has_char(path, '\\') {
            let j = choose|j: int| 0 <= j < path.len() && path[j] == '\\';
            assert(slug_char(path[j]) || path[j] == '/');
        }
    }
    assert(!has_control_char(path)) by {
        if has_control_char(path) {
            let j = choose|j: int| 0 <= j < path.len() && is_control(#[trigger] path[j]);
            assert(slug_char(path[j]) || path[j] == '/');
        }
    }
}

proof fn lemma_two_components(path: Seq<char>, first: Seq<char>, name: Seq<char>)
    requires
        path == first + seq!['/'] + name,
        good_component(first),
        good_component(name),
        forall|j: int| 0 <= j < first.len() ==> first[j] != '/',
        forall|j: int| 0 <= j < name.len() ==> name[j] != '/',
    ensures
        components_from(path, 0),
{
    let f = first.len() as int;
    lemma_component_end(path, 0);
    assert(path[f] == '/');
    assert forall|j: int| 0 <= j < f implies path[j] != '/' by {
        assert(path[j] == first[j]);
    }
    if component_end(path, 0) < f {
        assert(path[component_end(path, 0)] == '/');
    }
    assert(component_end(path, 0) == f);
    assert(path.subrange(0, f) =~= first);
    lemma_component_end(path, f + 1);
    if component_end(path, f + 1) < path.len() {
        let e = component_end(path, f + 1);
        assert(path[e] == name[e - f - 1]);
    }
    assert(component_end(path, f + 1) == path.len());
    assert(path.subrange(f + 1, path.len() as int) =~= name);
    assert(components_from(path, f + 1));
}

/// The path check succeeds on a path with the four properties it tests.
proof fn lemma_path_check_ok(path: Seq<char>, id: Seq<char>)
    requires
        !is_blank(path),
        !((path.len() > 0 && path[0] == '/') || has_char(path, '\\') || has_control_char(path)),
        components_from(path, 0),
        node_id_of_path(path) == Some(id),
    ensures
        logical_path_check(path, id) == Ok::<(), Seq<char>>(()),
{
}

/// The characters of `roots/slug--id`: slug characters and one `/`.
proof fn lemma_root_path_chars(slug: Seq<char>, id: Seq<char>)
    requires
        slug.len() > 0,
        forall|i: int| 0 <= i < slug.len() ==> slug_char(#[trigger] slug[i]),
        uuid_shape(id),
    ensures
        components_from(entry_path("roots"@, slug, id), 0),
        !is_blank(entry_path("roots"@, slug, id)),
        !((entry_path("roots"@, slug, id).len() > 0 && entry_path("roots"@, slug, id)[0] == '/')
            || has_char(entry_path("roots"@, slug, id), '\\') || has_control_char(
            entry_path("roots"@, slug, id),
        )),
{
    reveal_strlit("roots");
    reveal_strlit(".");
    reveal_strlit("..");
    reveal_strlit("--");
    let roots = "roots"@;
    let path = entry_path(roots, slug, id);
    let name = slug + "--"@ + id;
    assert(path =~= roots + seq!['/'] + name);
    lemma_uuid_chars(id);
    assert forall|i: int| 0 <= i < name.len() implies slug_char(#[trigger] name[i]) by {
        if i < slug.len() {
            assert(name[i] == slug[i]);
        } else if i < slug.len() + 2 {
            assert(name[i] == '-');
        } else {
            assert(name[i] == id[i - slug.len() - 2]);
        }
    }
    assert(name.len() > 2);
    assert forall|j: int| 0 <= j < name.len() implies name[j] != '/' by {
        lemma_slug_char_plain(name[j]);
    }
    assert forall|j: int| 0 <= j < roots.len() implies roots[j] != '/' by {}
    assert(good_component(roots));
    assert(good_component(name)) by {
        assert(name.len() != 1 && name.len() != 2);
    }
    lemma_two_components(path, roots, name);
    assert forall|j: int| 0 <= j < path.len() implies slug_char(#[trigger] path[j]) || path[j] == '/' by {
        if j < 5 {
            assert(path[j] == roots[j]);
        } else if j > 5 {
            assert(path[j] == name[j - 6]);
        }
    }
    assert(path[0] == 'r');
    lemma_plain_path(path);
}

/// A path `roots/slug--id` passes the placement path check.
proof fn lemma_root_path_checks(slug: Seq<char>, id: Seq<char>)
    requires
        slug.len() > 0,
        forall|i: int| 0 <= i < slug.len() ==> slug_char(#[trigger] slug[i]),
        uuid_shape(id),
    ensures
        logical_path_check(entry_path("roots"@, slug, id), id) == Ok::<(), Seq<char>>(()),
        parent_path(entry_path("roots"@, slug, id)) == "roots"@,
{
    lemma_entry_name("roots"@, slug, id);
    lemma_root_path_chars(slug, id);
    lemma_path_check_ok(entry_path("roots"@, slug, id), id);
}

// ---------------------------------------------------------------------------
// one node among the scanned rows
// ---------------------------------------------------------------------------

/// No problem of the list is charged to `x`.
pub open spec fn clear_of(list: KeyedProblems, x: Seq<char>) -> bool {
    forall|i: int| 0 <= i < list.len() ==> (#[trigger] list[i]).0 != x
}

proof fn lemma_clear_first(list: KeyedProblems, x: Seq<char>)
    requires
        clear_of(list, x),
    ensures
        first_problem_in(list, x) is None,
    decreases list.len(),
{
    if list.len() > 0 {
        assert(list[0].0 != x);
        assert(clear_of(list.drop_first(), x)) by {
            assert forall|i: int| 0 <= i < list.drop_first().len() implies (#[trigger] list.drop_first()[i]).0 != x by {
                assert(list.drop_first()[i] == list[i + 1]);
            }
        }
        lemma_clear_first(list.drop_first(), x);
    }
}

proof fn lemma_clear_concat(a: KeyedProblems, b: KeyedProblems, x: Seq<char>)
    requires
        clear_of(a, x),
        clear_of(b, x),
    ensures
        clear_of(a + b, x),
{
    assert forall|i: int| 0 <= i < (a + b).len() implies (#[trigger] (a + b)[i]).0 != x by {
        if i < a.len() {
            assert((a + b)[i] == a[i]);
        } else {
            assert((a + b)[i] == b[i - a.len()]);
        }
    }
}

/// Every row of `v` with id `x` is `row`.
pub open spec fn sole_row(v: Seq<NodeRow>, x: Seq<char>, row: NodeRow) -> bool {
    forall|i: int| 0 <= i < v.len() && (#[trigger] v[i]).id@ == x ==> v[i] == row
}

pub open spec fn has_row(v: Seq<NodeRow>, x: Seq<char>) -> bool {
    exists|i: int| 0 <= i < v.len() && (#[trigger] v[i]).id@ == x
}

/// When one valid row has id `x`, the node rows take it as their one node
/// `x`, and charge no problem to `x`.
proof fn lemma_node_phase_sole(rows: Seq<NodeRow>, places: Seq<PlacementRow>, x: Seq<char>, j: int, n: int)
    requires
        0 <= j < rows.len(),
        rows[j].id@ == x,
        forall|i: int| 0 <= i < rows.len() && i != j ==> (#[trigger] rows[i]).id@ != x,
        node_reason(rows[j]) is None,
        0 <= n <= rows.len(),
    ensures
        sole_row(node_phase(rows, places, n).0, x, rows[j]),
        n > j ==> has_row(node_phase(rows, places, n).0, x),
        clear_of(node_phase(rows, places, n).1, x),
    decreases n,
{
    if n > 0 {
        lemma_node_phase_sole(rows, places, x, j, n - 1);
        let prev = node_phase(rows, places, n - 1);
        let cur = node_phase(rows, places, n);
        let r = rows[n - 1];
        if node_seen_before(rows, n - 1) {
            if n - 1 == j {
                let k = choose|k: int| 0 <= k < n - 1 && (#[trigger] rows[k]).id@ == rows[n - 1].id@;
                assert(rows[k].id@ != x);
            }
            assert(r.id@ != x);
            assert(cur.0 == prev.0);
            assert forall|i: int| 0 <= i < cur.1.len() implies (#[trigger] cur.1[i]).0 != x by {
                if i < prev.1.len() {
                    assert(cur.1[i] == prev.1[i]);
                }
            }
        } else {
            match node_reason(r) {
                None => {
                    assert(cur.0 == prev.0.push(r));
                    assert forall|i: int| 0 <= i < cur.0.len() && (#[trigger] cur.0[i]).id@ == x implies cur.0[i] == rows[j] by {
                        if i < prev.0.len() {
                            assert(cur.0[i] == prev.0[i]);
                        } else {
                            assert(cur.0[i] == r);
                        }
                    }
                    if n - 1 == j {
                        assert(cur.0[prev.0.len() as int] == r);
                    } else if n > j {
                        let w = choose|i: int| 0 <= i < prev.0.len() && (#[trigger] prev.0[i]).id@ == x;
                        assert(cur.0[w] == prev.0[w]);
                    }
                },
                Some(m) => {
                    assert(n - 1 != j);
                    assert(r.id@ != x);
                    assert forall|i: int| 0 <= i < cur.1.len() implies (#[trigger] cur.1[i]).0 != x by {
                        if i < prev.1.len() {
                            assert(cur.1[i] == prev.1[i]);
                        }
                    }
                },
            }
        }
    }
}

/// Every usable placement of `v` with node `x` is `p`, and there is at
/// most one.
pub open spec fn sole_place(v: Seq<PlacementView>, x: Seq<char>, p: PlacementView) -> bool {
    &&& forall|i: int| 0 <= i < v.len() && (#[trigger] v[i]).1 == x ==> v[i] == p
    &&& forall|i: int, l: int| 0 <= i < l < v.len() && (#[trigger] v[i]).1 == x ==> (#[trigger] v[l]).1 != x
}

pub open spec fn has_place(v: Seq<PlacementView>, x: Seq<char>) -> bool {
    exists|i: int| 0 <= i < v.len() && (#[trigger] v[i]).1 == x
}

/// When one valid placement row has node `x`, the placement rows keep it as
/// the one placement of `x`, and charge no problem to `x`.
proof fn lemma_place_phase_sole(rows: Seq<PlacementRow>, ids: Set<Seq<char>>, x: Seq<char>, j: int, n: int)
    requires
        0 <= j < rows.len(),
        rows[j].node_id@ == x,
        forall|i: int| 0 <= i < rows.len() && i != j ==> (#[trigger] rows[i]).node_id@ != x,
        placement_reason(rows[j], ids) is None,
        0 <= n <= rows.len(),
    ensures
        sole_place(placement_phase(rows, ids, n).0, x, placement_of_row(rows[j])),
        has_place(placement_phase(rows, ids, n).0, x) == (n > j),
        clear_of(placement_phase(rows, ids, n).1, x),
    decreases n,
{
    if n > 0 {
        lemma_place_phase_sole(rows, ids, x, j, n - 1);
        let prev = placement_phase(rows, ids, n - 1);
        let cur = placement_phase(rows, ids, n);
        let r = rows[n - 1];
        match placement_reason(r, ids) {
            Some(m) => {
                assert(n - 1 != j);
                assert(cur.0 == prev.0);
                assert forall|i: int| 0 <= i < cur.1.len() implies (#[trigger] cur.1[i]).0 != x by {
                    if i < prev.1.len() {
                        assert(cur.1[i] == prev.1[i]);
                    }
                }
            },
            None => {
                let v = placement_of_row(r);
                assert(cur.0 == prev.0.push(v));
                if n - 1 == j {
                    assert(!edge_seen(prev.0, v)) by {
                        if edge_seen(prev.0, v) {
                            let k = choose|k: int| 0 <= k < prev.0.len() && (#[trigger] prev.0[k]).2 == v.2 && prev.0[k].1 == v.1;
                            assert(prev.0[k].1 == x);
                        }
                    }
                    assert(cur.1 == prev.1);
                    assert(cur.0[prev.0.len() as int] == v);
                } else {
                    assert(v.1 != x);
                    assert forall|i: int| 0 <= i < cur.1.len() implies (#[trigger] cur.1[i]).0 != x by {
                        if i < prev.1.len() {
                            assert(cur.1[i] == prev.1[i]);
                        }
                    }
                    if n > j {
                        let w = choose|i: int| 0 <= i < prev.0.len() && (#[trigger] prev.0[i]).1 == x;
                        assert(cur.0[w] == prev.0[w]);
                    }
                    if has_place(cur.0, x) {
                        let w = choose|i: int| 0 <= i < cur.0.len() && (#[trigger] cur.0[i]).1 == x;
                        assert(cur.0[w] == prev.0[w]);
                    }
                }
                assert forall|i: int| 0 <= i < cur.0.len() && (#[trigger] cur.0[i]).1 == x implies cur.0[i] == placement_of_row(rows[j]) by {
                    if i < prev.0.len() {
                        assert(cur.0[i] == prev.0[i]);
                    }
                }
                assert forall|i: int, l: int| 0 <= i < l < cur.0.len() && (#[trigger] cur.0[i]).1 == x implies (#[trigger] cur.0[l]).1 != x by {
                    assert(cur.0[i] == prev.0[i]);
                    if l < prev.0.len() {
                        assert(cur.0[l] == prev.0[l]);
                    } else if n - 1 == j {
                        assert(has_place(prev.0, x));
                    }
                }
            },
        }
    }
}

/// The placements of `x` that are (or are not) canonical, when `p` is its
/// one placement.
proof fn lemma_places_of_sole(ok: Seq<PlacementView>, x: Seq<char>, p: PlacementView)
    requires
        sole_place(ok, x, p),
        p.1 == x,
    ensures
        places_of(ok, x, p.4) == (if has_place(ok, x) { seq![p] } else { Seq::<PlacementView>::empty() }),
        places_of(ok, x, !p.4) == Seq::<PlacementView>::empty(),
    decreases ok.len(),
{
    if ok.len() > 0 {
        let d = ok.drop_last();
        assert(sole_place(d, x, p)) by {
            assert forall|i: int| 0 <= i < d.len() && (#[trigger] d[i]).1 == x implies d[i] == p by {
                assert(d[i] == ok[i]);
            }
            assert forall|i: int, l: int| 0 <= i < l < d.len() && (#[trigger] d[i]).1 == x implies (#[trigger] d[l]).1 != x by {
                assert(d[i] == ok[i] && d[l] == ok[l]);
            }
        }
        lemma_places_of_sole(d, x, p);
        let last = ok.len() - 1;
        if ok.last().1 == x {
            assert(ok[last] == p);
            assert(!has_place(d, x)) by {
                if has_place(d, x) {
                    let w = choose|i: int| 0 <= i < d.len() && (#[trigger] d[i]).1 == x;
                    assert(d[w] == ok[w]);
                    assert(ok[w].1 == x && ok[last].1 == x);
                }
            }
            assert(has_place(ok, x));
            assert(Seq::<PlacementView>::empty().push(p) =~= seq![p]);
        } else {
            assert(has_place(ok, x) == has_place(d, x)) by {
                if has_place(ok, x) {
                    let w = choose|i: int| 0 <= i < ok.len() && (#[trigger] ok[i]).1 == x;
                    assert(w < last);
                    assert(d[w] == ok[w]);
                }
                if has_place(d, x) {
                    let w = choose|i: int| 0 <= i < d.len() && (#[trigger] d[i]).1 == x;
                    assert(d[w] == ok[w]);
                }
            }
        }
    }
}

/// Sorting one placement, or none, leaves it as it is.
proof fn lemma_path_sorted_small(ps: Seq<PlacementView>)
    requires
        ps.len() <= 1,
    ensures
        path_sorted(ps) == ps,
{
    let keys = ps.map_values(|p: PlacementView| place_key(p));
    lemma_sorted_order_exists(keys);
    let p = sorted_by(keys);
    if ps.len() == 1 {
        assert((p[0] as int) < 1);
        assert(path_sorted(ps)[0] == ps[0]);
    }
    assert(path_sorted(ps) =~= ps);
}

/// A node with one canonical placement is charged no canonical problem.
proof fn lemma_canonical_phase_clear(rows: Seq<NodeRow>, ok: Seq<PlacementView>, x: Seq<char>, n: int)
    requires
        canonical_views(ok, x).len() == 1,
    ensures
        clear_of(canonical_phase(rows, ok, n), x),
    decreases n,
{
    if n > 0 && n <= rows.len() {
        lemma_canonical_phase_clear(rows, ok, x, n - 1);
        let prev = canonical_phase(rows, ok, n - 1);
        let cur = canonical_phase(rows, ok, n);
        if rows[n - 1].id@ == x {
            assert(cur == prev);
        } else {
            assert forall|i: int| 0 <= i < cur.len() implies (#[trigger] cur[i]).0 != x by {
                if i < prev.len() {
                    assert(cur[i] == prev[i]);
                }
            }
        }
    }
}

/// A root placement right under `roots`, the one placement of `x`, is
/// charged no path problem.
proof fn lemma_child_path_clear(rows: Seq<NodeRow>, ok: Seq<PlacementView>, x: Seq<char>, p: PlacementView, n: int)
    requires
        forall|i: int| 0 <= i < ok.len() && (#[trigger] ok[i]).1 == x ==> ok[i] == p,
        p.2 is None,
        parent_path(p.3) == "roots"@,
    ensures
        clear_of(child_path_phase(rows, ok, n), x),
    decreases n,
{
    if n > 0 && n <= ok.len() {
        lemma_child_path_clear(rows, ok, x, p, n - 1);
        let prev = child_path_phase(rows, ok, n - 1);
        let cur = child_path_phase(rows, ok, n);
        if ok[n - 1].1 == x {
            assert(cur == prev);
        } else {
            assert forall|i: int| 0 <= i < cur.len() implies (#[trigger] cur[i]).0 != x by {
                if i < prev.len() {
                    assert(cur[i] == prev[i]);
                }
            }
        }
    }
}

// ---------------------------------------------------------------------------
// the rows of a new node
// ---------------------------------------------------------------------------

/// The row stored for a new node that passed the checks is a valid node
/// row, read back as the node.
proof fn lemma_new_row_valid(row: NodeRow, x: Seq<char>, node: NewNode, now: i64)
    requires
        nrow(row) == new_row_view(x, node, now, now),
        uuid_shape(x),
        new_node_error(node, "roots"@) is None,
        now >= 0,
    ensures
        node_reason(row) is None,
        row.id@ == x,
        row.title@ == node.title@,
        row_kind(row) == node.kind,
        row_parts(row) == content_parts(node.content),
        row.created_at_unix == now,
        row.updated_at_unix == now,
{
    reveal_strlit("statement");
    reveal_strlit("qa");
    assert("statement"@ != "qa"@) by {
        assert("statement"@.len() != "qa"@.len());
    }
    match node.content {
        NodeContent::Statement { body } => {
            assert(row.statement_body is Some);
        },
        NodeContent::QuestionAnswer { question, answer } => {
            assert(row.qa_question is Some && row.qa_answer is Some);
            assert(row.qa_question->0@ == question@);
        },
    }
}

/// A slug made from a title: slug characters, none of them blank or a
/// control character.
proof fn lemma_slug_plain(title: Seq<char>, k: nat)
    ensures
        suffixed_slug(slug_of(title), k).len() > 0,
        forall|i: int| 0 <= i < suffixed_slug(slug_of(title), k).len() ==> slug_char(#[trigger] suffixed_slug(slug_of(title), k)[i]),
        !is_blank(suffixed_slug(slug_of(title), k)),
        !has_control_char(suffixed_slug(slug_of(title), k)),
{
    lemma_slug_shape(title);
    lemma_suffixed_slug(slug_of(title), k);
    let s = suffixed_slug(slug_of(title), k);
    assert(slug_char(s[0]));
    assert(!is_ws(s[0]));
    if has_control_char(s) {
        let j = choose|j: int| 0 <= j < s.len() && is_control(#[trigger] s[j]);
        assert(slug_char(s[j]));
    }
}

/// The placement stored for a new root node is a valid placement row.
proof fn lemma_new_place_valid(row: PlacementRow, ids: Set<Seq<char>>, x: Seq<char>, title: Seq<char>, k: nat, rid: i64)
    requires
        prow(row) == (rid, x, None::<Seq<char>>, suffixed_slug(slug_of(title), k), entry_path("roots"@, suffixed_slug(slug_of(title), k), x), 1i64),
        uuid_shape(x),
        ids.contains(x),
    ensures
        placement_reason(row, ids) is None,
        placement_of_row(row) == (rid, x, None::<Seq<char>>, entry_path("roots"@, suffixed_slug(slug_of(title), k), x), true),
        parent_path(entry_path("roots"@, suffixed_slug(slug_of(title), k), x)) == "roots"@,
{
    let slug = suffixed_slug(slug_of(title), k);
    lemma_slug_plain(title, k);
    lemma_root_path_checks(slug, x);
    assert(row.parent_id is None);
}

/// After a node row with a new id is appended, the graph has that node,
/// made from that row, and the node rows charge no problem to it.
proof fn lemma_nodes_after_push(b: Tables, t: Tables, x: Seq<char>, node: NewNode, now: i64)
    requires
        nrows(t.nodes@) == nrows(b.nodes@).push(new_row_view(x, node, now, now)),
        !node_id_taken(b.nodes@, x),
        uuid_shape(x),
        new_node_error(node, "roots"@) is None,
        now >= 0,
    ensures
        t.nodes@.len() == b.nodes@.len() + 1,
        nrow(t.nodes@[b.nodes@.len() as int]) == new_row_view(x, node, now, now),
        has_node(t, x),
        graph_nodes(t)[node_index_of(t, x)] == t.nodes@[b.nodes@.len() as int],
        clear_of(node_phase(query_nodes(t), query_places(t), query_nodes(t).len() as int).1, x),
        row_ids(t.nodes@).contains(x),
{
    let l = b.nodes@.len() as int;
    let rows = t.nodes@;
    assert(nrows(rows).len() == l + 1);
    assert(rows.len() == l + 1);
    assert(nrows(rows)[l] == nrow(rows[l]));
    assert forall|i: int| 0 <= i < l implies (#[trigger] rows[i]).id@ != x by {
        assert(nrows(rows)[i] == nrow(rows[i]));
        assert(nrows(b.nodes@)[i] == nrow(b.nodes@[i]));
        assert(nrows(rows)[i] == nrows(b.nodes@)[i]);
    }
    lemma_new_row_valid(rows[l], x, node, now);
    assert(row_ids(rows).contains(x)) by {
        assert(rows[l].id@ == x);
    }
    assert(rows.len() <= usize::MAX) by {
        assert(t.nodes.len() == rows.len());
    }
    let keys = rows.map_values(|r: NodeRow| crate::scan::node_row_key(r));
    lemma_permuted_once(rows, keys, l);
    let pn = sorted_by(keys);
    let q = query_nodes(t);
    assert(q == permuted(rows, pn));
    let j0 = choose|j: int| 0 <= j < pn.len() && pn[j] as int == l && #[trigger] permuted(rows, pn)[j] == rows[l];
    assert forall|i: int| 0 <= i < q.len() && i != j0 implies (#[trigger] q[i]).id@ != x by {
        assert(pn[i] != pn[j0]);
        assert(q[i] == rows[pn[i] as int]);
    }
    lemma_node_phase_sole(q, query_places(t), x, j0, q.len() as int);
    let gn = graph_nodes(t);
    let w = choose|i: int| 0 <= i < gn.len() && (#[trigger] gn[i]).id@ == x;
    assert(has_node(t, x));
    let ni = node_index_of(t, x);
    assert(0 <= ni < gn.len() && gn[ni].id@ == x);
}

/// After a valid placement of a new node is appended, it is the node's one
/// usable placement, and the placement rows charge no problem to it.
proof fn lemma_places_after_push(b: Tables, t: Tables, x: Seq<char>, title: Seq<char>, k: nat, rid: i64)
    requires
        prows(t.placements@) == prows(b.placements@).push(
            (rid, x, None::<Seq<char>>, suffixed_slug(slug_of(title), k), entry_path("roots"@, suffixed_slug(slug_of(title), k), x), 1i64),
        ),
        forall|i: int| 0 <= i < b.placements@.len() ==> (#[trigger] b.placements@[i]).node_id@ != x,
        uuid_shape(x),
        row_ids(t.nodes@).contains(x),
    ensures
        sole_place(graph_places(t), x, (rid, x, None::<Seq<char>>, entry_path("roots"@, suffixed_slug(slug_of(title), k), x), true)),
        has_place(graph_places(t), x),
        clear_of(placement_phase(query_places(t), row_ids(t.nodes@), query_places(t).len() as int).1, x),
        parent_path(entry_path("roots"@, suffixed_slug(slug_of(title), k), x)) == "roots"@,
{
    let l = b.placements@.len() as int;
    let rows = t.placements@;
    assert(prows(rows).len() == l + 1);
    assert(rows.len() == l + 1);
    assert(prows(rows)[l] == prow(rows[l]));
    assert forall|i: int| 0 <= i < l implies (#[trigger] rows[i]).node_id@ != x by {
        assert(prows(rows)[i] == prow(rows[i]));
        assert(prows(b.placements@)[i] == prow(b.placements@[i]));
        assert(prows(rows)[i] == prows(b.placements@)[i]);
    }
    lemma_new_place_valid(rows[l], row_ids(t.nodes@), x, title, k, rid);
    assert(rows.len() <= usize::MAX) by {
        assert(t.placements.len() == rows.len());
    }
    let keys = rows.map_values(|r: PlacementRow| crate::scan::placement_row_key(r));
    lemma_permuted_once(rows, keys, l);
    let pn = sorted_by(keys);
    let q = query_places(t);
    assert(q == permuted(rows, pn));
    let j1 = choose|j: int| 0 <= j < pn.len() && pn[j] as int == l && #[trigger] permuted(rows, pn)[j] == rows[l];
    assert forall|i: int| 0 <= i < q.len() && i != j1 implies (#[trigger] q[i]).node_id@ != x by {
        assert(pn[i] != pn[j1]);
        assert(q[i] == rows[pn[i] as int]);
    }
    lemma_place_phase_sole(q, row_ids(t.nodes@), x, j1, q.len() as int);
}

/// The read of a node just added at the root, by the values it was added
/// with.
proof fn lemma_read_new_root(prior: IdeaGraph, later: IdeaGraph, node: NewNode, x: Seq<char>, now: i64, rid: i64, k: nat)
    requires
        root_add_error(prior, node) is None,
        uuid_shape(x),
        !node_id_taken(prior.tables.nodes@, x),
        forall|i: int| 0 <= i < prior.tables.placements@.len() ==> (#[trigger] prior.tables.placements@[i]).node_id@ != x,
        now >= 0,
        nrows(later.tables.nodes@) == nrows(prior.tables.nodes@).push(new_row_view(x, node, now, now)),
        prows(later.tables.placements@) == prows(prior.tables.placements@).push(
            (
                rid,
                x,
                None::<Seq<char>>,
                suffixed_slug(slug_of(node.title@), k),
                entry_path("roots"@, suffixed_slug(slug_of(node.title@), k), x),
                1i64,
            ),
        ),
    ensures
        read_result(later.tables, x) == Ok::<NodeView, ErrorView>(
            (
                x,
                node.kind,
                node.title@,
                node.kind,
                content_parts(node.content),
                now as u64,
                now as u64,
                entry_path("roots"@, suffixed_slug(slug_of(node.title@), k), x),
                Seq::<Seq<char>>::empty(),
                false,
            ),
        ),
{
    let b = prior.tables;
    let t = later.tables;
    let title = node.title@;
    let path = entry_path("roots"@, suffixed_slug(slug_of(title), k), x);
    assert(new_node_error(node, "roots"@) is None);
    lemma_nodes_after_push(b, t, x, node, now);
    let row = t.nodes@[b.nodes@.len() as int];
    lemma_new_row_valid(row, x, node, now);
    lemma_places_after_push(b, t, x, title, k, rid);
    let gp = graph_places(t);
    let v = (rid, x, None::<Seq<char>>, path, true);
    lemma_places_of_sole(gp, x, v);
    lemma_path_sorted_small(seq![v]);
    lemma_path_sorted_small(Seq::<PlacementView>::empty());
    assert(canon(t, x) == seq![v]);
    assert(path_sorted_aliases(t, x) == Seq::<PlacementView>::empty());
    assert(path_texts(Seq::<PlacementView>::empty()) =~= Seq::<Seq<char>>::empty());
    let gn = graph_nodes(t);
    lemma_canonical_phase_clear(gn, gp, x, gn.len() as int);
    lemma_child_path_clear(gn, gp, x, v, gp.len() as int);
    let a = node_phase(query_nodes(t), query_places(t), query_nodes(t).len() as int).1;
    let c = placement_phase(query_places(t), row_ids(t.nodes@), query_places(t).len() as int).1;
    let d = canonical_phase(gn, gp, gn.len() as int);
    let e = child_path_phase(gn, gp, gp.len() as int);
    lemma_clear_concat(a, c, x);
    lemma_clear_concat(a + c, d, x);
    lemma_clear_concat(a + c + d, e, x);
    assert(node_problem_list(t) == a + c + d + e);
    lemma_clear_first(node_problem_list(t), x);
    assert(node_error(t, x) is None);
    assert(node_of(t, x).7 == path);
}

/// A node added at the root is read back as it was given: its id, kind,
/// title and content, one creation time as both timestamps, a canonical
/// path `roots/<slug>--<id>` (the slug made from the title, with the first
/// free suffix) and no alias paths. This holds of tables whose placement
/// rows each name a stored node, as the schema's foreign key keeps them.
pub proof fn law_read_after_add_root(prior: IdeaGraph, later: IdeaGraph, node: NewNode, id: String)
    requires
        add_root_node_outcome(prior, later, node, Ok::<String, GraphError>(id)),
        forall|i: int| 0 <= i < prior.tables.placements@.len() ==> crate::sqlite::node_id_taken(
            prior.tables.nodes@,
            (#[trigger] prior.tables.placements@[i]).node_id@,
        ),
    ensures
        read_result(later.tables, id@) is Ok,
        ({
            let v = read_result(later.tables, id@)->Ok_0;
            &&& v.0 == id@
            &&& v.1 == node.kind
            &&& v.2 == node.title@
            &&& v.3 == node.kind
            &&& v.4 == content_parts(node.content)
            &&& v.5 == v.6
            &&& v.8 == Seq::<Seq<char>>::empty()
            &&& exists|k: nat| k >= 1 && v.7 == entry_path("roots"@, #[trigger] suffixed_slug(slug_of(node.title@), k), id@)
        }),
{
    let x = id@;
    let container = "roots"@;
    let (now, rid, k) = choose|now: i64, rid: i64, k: nat|
        #![trigger first_free(prior.tables.placements@, prior.tables.reserved@, container, slug_of(node.title@), x, k), fresh_row_id(prior.tables.placements@, rid), new_row_view(x, node, now, now)]
        {
            &&& now >= 0
            &&& rid >= 1
            &&& fresh_row_id(prior.tables.placements@, rid)
            &&& first_free(prior.tables.placements@, prior.tables.reserved@, container, slug_of(node.title@), x, k)
            &&& nrows(later.tables.nodes@) == nrows(prior.tables.nodes@).push(new_row_view(x, node, now, now))
            &&& prows(later.tables.placements@) == prows(prior.tables.placements@).push(
                (
                    rid,
                    x,
                    None::<Seq<char>>,
                    suffixed_slug(slug_of(node.title@), k),
                    entry_path(container, suffixed_slug(slug_of(node.title@), k), x),
                    1i64,
                ),
            )
            &&& crows(later.tables.contexts@) == crows(prior.tables.contexts@)
            &&& later.graph_name@ == prior.graph_name@
        };
    assert forall|i: int| 0 <= i < prior.tables.placements@.len() implies (#[trigger] prior.tables.placements@[i]).node_id@ != id@ by {
        assert(crate::sqlite::node_id_taken(prior.tables.nodes@, prior.tables.placements@[i].node_id@));
    }
    lemma_read_new_root(prior, later, node, x, now, rid, k);
    assert(k >= 1);
}

// ---------------------------------------------------------------------------
// a node whose row is rewritten in place
// ---------------------------------------------------------------------------

proof fn lemma_first_none_clear(list: KeyedProblems, x: Seq<char>)
    requires
        first_problem_in(list, x) is None,
    ensures
        clear_of(list, x),
    decreases list.len(),
{
    if list.len() > 0 {
        lemma_first_none_clear(list.drop_first(), x);
        assert forall|i: int| 0 <= i < list.len() implies (#[trigger] list[i]).0 != x by {
            if i > 0 {
                assert(list[i] == list.drop_first()[i - 1]);
            }
        }
    }
}

proof fn lemma_clear_parts(a: KeyedProblems, b: KeyedProblems, x: Seq<char>)
    requires
        clear_of(a + b, x),
    ensures
        clear_of(a, x),
        clear_of(b, x),
{
    assert forall|i: int| 0 <= i < a.len() implies (#[trigger] a[i]).0 != x by {
        assert((a + b)[i] == a[i]);
    }
    assert forall|i: int| 0 <= i < b.len() implies (#[trigger] b[i]).0 != x by {
        assert((a + b)[i + a.len()] == b[i]);
    }
}

/// When the node rows charge no problem to `x`, at most one row has id
/// `x`, it is valid, and every node taken is one of the rows.
proof fn lemma_node_phase_clear(rows: Seq<NodeRow>, places: Seq<PlacementRow>, x: Seq<char>, n: int)
    requires
        0 <= n <= rows.len(),
        clear_of(node_phase(rows, places, n).1, x),
    ensures
        forall|i: int, l: int| 0 <= i < l < n && (#[trigger] rows[i]).id@ == x ==> (#[trigger] rows[l]).id@ != x,
        forall|i: int| 0 <= i < n && (#[trigger] rows[i]).id@ == x ==> node_reason(rows[i]) is None,
        forall|k: int|
            0 <= k < node_phase(rows, places, n).0.len() ==> exists|i: int|
                0 <= i < n && #[trigger] node_phase(rows, places, n).0[k] == rows[i],
    decreases n,
{
    if n > 0 {
        let prev = node_phase(rows, places, n - 1);
        let cur = node_phase(rows, places, n);
        let r = rows[n - 1];
        assert(clear_of(prev.1, x)) by {
            assert forall|i: int| 0 <= i < prev.1.len() implies (#[trigger] prev.1[i]).0 != x by {
                assert(cur.1[i] == prev.1[i]);
            }
        }
        lemma_node_phase_clear(rows, places, x, n - 1);
        if node_seen_before(rows, n - 1) {
            assert(cur.1[prev.1.len() as int].0 == r.id@);
        } else {
            match node_reason(r) {
                None => {},
                Some(m) => {
                    assert(cur.1[prev.1.len() as int].0 == r.id@);
                },
            }
        }
        if r.id@ == x {
            assert(!node_seen_before(rows, n - 1));
        }
        assert forall|i: int, l: int| 0 <= i < l < n && (#[trigger] rows[i]).id@ == x implies (#[trigger] rows[l]).id@ != x by {
            if l == n - 1 && rows[l].id@ == x {
                assert(node_seen_before(rows, n - 1));
            }
        }
        assert forall|k: int| 0 <= k < cur.0.len() implies exists|i: int| 0 <= i < n && #[trigger] cur.0[k] == rows[i] by {
            if k < prev.0.len() {
                assert(cur.0[k] == prev.0[k]);
                let i = choose|i: int| 0 <= i < n - 1 && #[trigger] prev.0[k] == rows[i];
                assert(cur.0[k] == rows[i]);
            } else {
                assert(cur.0[k] == rows[n - 1]);
            }
        }
    }
}

/// Rows with the same ids, the same values but for the rows of `x`, and
/// those valid on both sides: the nodes taken have the same ids.
proof fn lemma_node_phase_same_ids(
    a: Seq<NodeRow>,
    b: Seq<NodeRow>,
    pa: Seq<PlacementRow>,
    pb: Seq<PlacementRow>,
    x: Seq<char>,
    n: int,
)
    requires
        a.len() == b.len(),
        0 <= n <= a.len(),
        forall|i: int| 0 <= i < a.len() ==> (#[trigger] a[i]).id@ == b[i].id@,
        forall|i: int| 0 <= i < a.len() && (#[trigger] a[i]).id@ != x ==> nrow(a[i]) == nrow(b[i]),
        forall|i: int| 0 <= i < a.len() && (#[trigger] a[i]).id@ == x ==> node_reason(a[i]) is None && node_reason(b[i]) is None,
    ensures
        node_phase(a, pa, n).0.len() == node_phase(b, pb, n).0.len(),
        forall|k: int| 0 <= k < node_phase(a, pa, n).0.len() ==> (#[trigger] node_phase(a, pa, n).0[k]).id@ == node_phase(b, pb, n).0[k].id@,
    decreases n,
{
    if n > 0 {
        lemma_node_phase_same_ids(a, b, pa, pb, x, n - 1);
        let r = a[n - 1];
        let s = b[n - 1];
        assert(node_seen_before(a, n - 1) == node_seen_before(b, n - 1)) by {
            if node_seen_before(a, n - 1) {
                let j = choose|j: int| 0 <= j < n - 1 && (#[trigger] a[j]).id@ == a[n - 1].id@;
                assert(b[j].id@ == b[n - 1].id@);
            }
            if node_seen_before(b, n - 1) {
                let j = choose|j: int| 0 <= j < n - 1 && (#[trigger] b[j]).id@ == b[n - 1].id@;
                assert(a[j].id@ == a[n - 1].id@);
            }
        }
        assert(node_reason(r) is None <==> node_reason(s) is None);
        let pa0 = node_phase(a, pa, n - 1).0;
        let pb0 = node_phase(b, pb, n - 1).0;
        let ca = node_phase(a, pa, n).0;
        let cb = node_phase(b, pb, n).0;
        assert forall|k: int| 0 <= k < ca.len() implies (#[trigger] ca[k]).id@ == cb[k].id@ by {
            if k < pa0.len() {
                assert(ca[k] == pa0[k] && cb[k] == pb0[k]);
            }
        }
    }
}

/// Placement rows of the same values give the same usable placements and
/// problems.
proof fn lemma_place_phase_same(a: Seq<PlacementRow>, b: Seq<PlacementRow>, ids: Set<Seq<char>>, n: int)
    requires
        a.len() == b.len(),
        forall|i: int| 0 <= i < a.len() ==> prow(#[trigger] a[i]) == prow(b[i]),
    ensures
        placement_phase(a, ids, n) == placement_phase(b, ids, n),
    decreases n,
{
    if n > 0 && n <= a.len() {
        lemma_place_phase_same(a, b, ids, n - 1);
        let r = a[n - 1];
        let s = b[n - 1];
        assert(prow(r) == prow(s));
        assert(placement_reason(r, ids) == placement_reason(s, ids));
        assert(placement_of_row(r) == placement_of_row(s));
    }
}

/// The path problems depend on the nodes only through which ids they
/// have.
proof fn lemma_child_path_same(a: Seq<NodeRow>, b: Seq<NodeRow>, ok: Seq<PlacementView>, n: int)
    requires
        forall|id: Seq<char>| has_row(a, id) == #[trigger] has_row(b, id),
    ensures
        child_path_phase(a, ok, n) == child_path_phase(b, ok, n),
    decreases n,
{
    if n > 0 && n <= ok.len() {
        lemma_child_path_same(a, b, ok, n - 1);
        let p = ok[n - 1];
        match p.2 {
            Some(pid) => {
                assert(has_row(a, pid) == has_row(b, pid));
                assert(crate::scan::canonical_path_of(a, ok, pid) == crate::scan::canonical_path_of(b, ok, pid));
            },
            None => {},
        }
    }
}

/// A valid node row given a new title, content and update time, its id,
/// kind and creation time kept, is still valid.
proof fn lemma_updated_row_valid(old: NodeRow, new: NodeRow, title: Seq<char>, content: NodeContent, upd: i64, rev: i64)
    requires
        node_reason(old) is None,
        nrow(new) == (
            old.id@,
            old.kind@,
            title,
            crate::sqlite::content_columns(content).0,
            crate::sqlite::content_columns(content).1,
            crate::sqlite::content_columns(content).2,
            old.created_at_unix,
            upd,
            rev,
        ),
        valid_title(title),
        kind_of(content) == row_kind(old),
        !(content is QuestionAnswer && is_blank(content_parts(content).0)),
        upd >= 0,
        rev == 0 || rev == 1,
    ensures
        node_reason(new) is None,
        new.id@ == old.id@,
        new.title@ == title,
        row_kind(new) == row_kind(old),
        row_parts(new) == content_parts(content),
        new.created_at_unix == old.created_at_unix,
        new.updated_at_unix == upd,
        new.reviewed == rev,
{
    reveal_strlit("statement");
    reveal_strlit("qa");
    assert("statement"@ != "qa"@) by {
        assert("statement"@.len() != "qa"@.len());
    }
    match content {
        NodeContent::Statement { body } => {
            assert(new.statement_body is Some);
        },
        NodeContent::QuestionAnswer { question, answer } => {
            assert(new.qa_question is Some && new.qa_answer is Some);
            assert(new.qa_question->0@ == question@);
        },
    }
}

/// Row `new` is row `old`, rewritten as `update_node` rewrites the rows of
/// `x`.
pub open spec fn row_rewritten(old: NodeRow, new: NodeRow, x: Seq<char>, title: Seq<char>, content: NodeContent, upd: i64, rev: i64) -> bool {
    nrow(new) == (if old.id@ == x {
        (
            old.id@,
            old.kind@,
            title,
            crate::sqlite::content_columns(content).0,
            crate::sqlite::content_columns(content).1,
            crate::sqlite::content_columns(content).2,
            old.created_at_unix,
            upd,
            rev,
        )
    } else {
        nrow(old)
    })
}

/// Rewriting rows keeps their query order.
proof fn lemma_rewritten_order(t: Tables, t2: Tables, x: Seq<char>, title: Seq<char>, content: NodeContent, upd: i64, rev: i64)
    requires
        t.nodes@.len() == t2.nodes@.len(),
        forall|i: int| 0 <= i < t.nodes@.len() ==> row_rewritten(#[trigger] t.nodes@[i], t2.nodes@[i], x, title, content, upd, rev),
    ensures
        query_nodes(t).len() == t.nodes@.len(),
        query_nodes(t2).len() == t.nodes@.len(),
        forall|i: int| 0 <= i < query_nodes(t).len() ==> row_rewritten(#[trigger] query_nodes(t)[i], query_nodes(t2)[i], x, title, content, upd, rev),
{
    let a = t.nodes@;
    let b = t2.nodes@;
    let keys = a.map_values(|r: NodeRow| crate::scan::node_row_key(r));
    let keys2 = b.map_values(|r: NodeRow| crate::scan::node_row_key(r));
    assert(keys2 =~= keys) by {
        assert forall|i: int| 0 <= i < keys.len() implies keys2[i] == keys[i] by {
            assert(row_rewritten(a[i], b[i], x, title, content, upd, rev));
            assert(nrow(b[i]).0 == b[i].id@);
        }
    }
    assert(a.len() <= usize::MAX) by {
        assert(t.nodes.len() == a.len());
    }
    lemma_sorted_order_exists(keys);
    let p = sorted_by(keys);
    assert forall|i: int| 0 <= i < query_nodes(t).len() implies row_rewritten(#[trigger] query_nodes(t)[i], query_nodes(t2)[i], x, title, content, upd, rev) by {
        assert((p[i] as int) < keys.len());
        assert(query_nodes(t)[i] == a[p[i] as int]);
        assert(query_nodes(t2)[i] == b[p[i] as int]);
        assert(row_rewritten(a[p[i] as int], b[p[i] as int], x, title, content, upd, rev));
    }
}

/// The same for placement rows of the same values.
proof fn lemma_same_place_order(t: Tables, t2: Tables)
    requires
        prows(t2.placements@) == prows(t.placements@),
    ensures
        query_places(t).len() == query_places(t2).len(),
        forall|i: int| 0 <= i < query_places(t).len() ==> prow(#[trigger] query_places(t)[i]) == prow(query_places(t2)[i]),
{
    let a = t.placements@;
    let b = t2.placements@;
    assert(prows(a).len() == prows(b).len());
    assert forall|i: int| 0 <= i < a.len() implies prow(#[trigger] a[i]) == prow(b[i]) by {
        assert(prows(a)[i] == prow(a[i]));
        assert(prows(b)[i] == prow(b[i]));
    }
    let keys = a.map_values(|r: PlacementRow| crate::scan::placement_row_key(r));
    let keys2 = b.map_values(|r: PlacementRow| crate::scan::placement_row_key(r));
    assert(keys2 =~= keys) by {
        assert forall|i: int| 0 <= i < keys.len() implies keys2[i] == keys[i] by {
            assert(prow(a[i]) == prow(b[i]));
        }
    }
    assert(a.len() <= usize::MAX) by {
        assert(t.placements.len() == a.len());
    }
    lemma_sorted_order_exists(keys);
    let p = sorted_by(keys);
    assert forall|i: int| 0 <= i < query_places(t).len() implies prow(#[trigger] query_places(t)[i]) == prow(query_places(t2)[i]) by {
        assert((p[i] as int) < keys.len());
        assert(query_places(t)[i] == a[p[i] as int]);
        assert(query_places(t2)[i] == b[p[i] as int]);
    }
}

/// The nodes of the graph after the rows of node `x` are rewritten: the
/// same ids, node `x` made from its rewritten row, and no node-row problem
/// charged to `x`.
#[verifier::rlimit(30)]
proof fn lemma_rewritten_nodes(t: Tables, t2: Tables, x: Seq<char>, title: Seq<char>, content: NodeContent, upd: i64, rev: i64)
    requires
        has_node(t, x),
        clear_of(node_phase(query_nodes(t), query_places(t), query_nodes(t).len() as int).1, x),
        t.nodes@.len() == t2.nodes@.len(),
        forall|i: int| 0 <= i < t.nodes@.len() ==> row_rewritten(#[trigger] t.nodes@[i], t2.nodes@[i], x, title, content, upd, rev),
        valid_title(title),
        kind_of(content) == row_kind(graph_nodes(t)[node_index_of(t, x)]),
        !(content is QuestionAnswer && is_blank(content_parts(content).0)),
        upd >= 0,
        rev == 0 || rev == 1,
    ensures
        has_node(t2, x),
        graph_nodes(t2)[node_index_of(t2, x)].title@ == title,
        row_kind(graph_nodes(t2)[node_index_of(t2, x)]) == row_kind(graph_nodes(t)[node_index_of(t, x)]),
        row_parts(graph_nodes(t2)[node_index_of(t2, x)]) == content_parts(content),
        graph_nodes(t2)[node_index_of(t2, x)].created_at_unix == graph_nodes(t)[node_index_of(t, x)].created_at_unix,
        graph_nodes(t2)[node_index_of(t2, x)].updated_at_unix == upd,
        graph_nodes(t2)[node_index_of(t2, x)].reviewed == rev,
        clear_of(node_phase(query_nodes(t2), query_places(t2), query_nodes(t2).len() as int).1, x),
        forall|id: Seq<char>| has_row(graph_nodes(t), id) == #[trigger] has_row(graph_nodes(t2), id),
{
    let q = query_nodes(t);
    let q2 = query_nodes(t2);
    let qp = query_places(t);
    let qp2 = query_places(t2);
    lemma_rewritten_order(t, t2, x, title, content, upd, rev);
    lemma_node_phase_clear(q, qp, x, q.len() as int);
    let gn = graph_nodes(t);
    let ni = node_index_of(t, x);
    assert(0 <= ni < gn.len() && gn[ni].id@ == x);
    let j = choose|i: int| 0 <= i < q.len() && #[trigger] gn[ni] == q[i];
    assert(q[j].id@ == x);
    assert(row_rewritten(q[j], q2[j], x, title, content, upd, rev));
    lemma_updated_row_valid(q[j], q2[j], title, content, upd, rev);
    assert forall|i: int| 0 <= i < q2.len() && i != j implies (#[trigger] q2[i]).id@ != x by {
        assert(row_rewritten(q[i], q2[i], x, title, content, upd, rev));
        if i < j {
            assert(q[i].id@ != x);
        } else {
            assert(q[i].id@ != x);
        }
    }
    lemma_node_phase_sole(q2, qp2, x, j, q2.len() as int);
    let gn2 = graph_nodes(t2);
    assert(has_row(gn2, x));
    let ni2 = node_index_of(t2, x);
    assert(0 <= ni2 < gn2.len() && gn2[ni2].id@ == x);
    assert(gn2[ni2] == q2[j]);
    assert forall|i: int| 0 <= i < q.len() implies (#[trigger] q[i]).id@ == q2[i].id@ by {
        assert(row_rewritten(q[i], q2[i], x, title, content, upd, rev));
    }
    assert forall|i: int| 0 <= i < q.len() && (#[trigger] q[i]).id@ != x implies nrow(q[i]) == nrow(q2[i]) by {
        assert(row_rewritten(q[i], q2[i], x, title, content, upd, rev));
    }
    assert forall|i: int| 0 <= i < q.len() && (#[trigger] q[i]).id@ == x implies node_reason(q[i]) is None && node_reason(q2[i]) is None by {
        if i != j {
            if i < j {
                assert(q[i].id@ != x || q[j].id@ != x);
            } else {
                assert(q[j].id@ != x || q[i].id@ != x);
            }
        }
    }
    lemma_node_phase_same_ids(q, q2, qp, qp2, x, q.len() as int);
    assert forall|id: Seq<char>| has_row(gn, id) == #[trigger] has_row(gn2, id) by {
        if has_row(gn, id) {
            let k = choose|k: int| 0 <= k < gn.len() && (#[trigger] gn[k]).id@ == id;
            assert(gn2[k].id@ == id);
        }
        if has_row(gn2, id) {
            let k = choose|k: int| 0 <= k < gn2.len() && (#[trigger] gn2[k]).id@ == id;
            assert(gn[k].id@ == id);
        }
    }
}

/// What a node that reads without error tells of the tables: a valid row,
/// one canonical placement, and no problem charged to it anywhere.
proof fn lemma_readable_node(t: Tables, x: Seq<char>)
    requires
        node_error(t, x) is None,
    ensures
        uuid_shape(x),
        has_node(t, x),
        canon(t, x).len() == 1,
        node_reason(graph_nodes(t)[node_index_of(t, x)]) is None,
        clear_of(node_phase(query_nodes(t), query_places(t), query_nodes(t).len() as int).1, x),
        clear_of(placement_phase(query_places(t), row_ids(t.nodes@), query_places(t).len() as int).1, x),
        clear_of(child_path_phase(graph_nodes(t), graph_places(t), graph_places(t).len() as int), x),
{
    let a = node_phase(query_nodes(t), query_places(t), query_nodes(t).len() as int).1;
    let c = placement_phase(query_places(t), row_ids(t.nodes@), query_places(t).len() as int).1;
    let gn = graph_nodes(t);
    let gp = graph_places(t);
    let d = canonical_phase(gn, gp, gn.len() as int);
    let e = child_path_phase(gn, gp, gp.len() as int);
    assert(node_problem_list(t) == a + c + d + e);
    lemma_first_none_clear(node_problem_list(t), x);
    lemma_clear_parts(a + c + d, e, x);
    lemma_clear_parts(a + c, d, x);
    lemma_clear_parts(a, c, x);
    let q = query_nodes(t);
    lemma_node_phase_clear(q, query_places(t), x, q.len() as int);
    let ni = node_index_of(t, x);
    assert(0 <= ni < gn.len() && gn[ni].id@ == x);
    let j = choose|i: int| 0 <= i < q.len() && #[trigger] gn[ni] == q[i];
    assert(q[j].id@ == x);
}

/// A node read after its rows are rewritten as `update_node` rewrites
/// them.
#[verifier::rlimit(30)]
proof fn lemma_read_rewritten(t: Tables, t2: Tables, x: Seq<char>, title: Seq<char>, content: NodeContent, upd: i64, rev: i64)
    requires
        node_error(t, x) is None,
        t.nodes@.len() == t2.nodes@.len(),
        forall|i: int| 0 <= i < t.nodes@.len() ==> row_rewritten(#[trigger] t.nodes@[i], t2.nodes@[i], x, title, content, upd, rev),
        prows(t2.placements@) == prows(t.placements@),
        valid_title(title),
        kind_of(content) == row_kind(graph_nodes(t)[node_index_of(t, x)]),
        !(content is QuestionAnswer && is_blank(content_parts(content).0)),
        upd >= 0,
        rev == 0 || rev == 1,
    ensures
        read_result(t2, x) == Ok::<NodeView, ErrorView>(
            (
                x,
                row_kind(graph_nodes(t)[node_index_of(t, x)]),
                title,
                kind_of(content),
                content_parts(content),
                graph_nodes(t)[node_index_of(t, x)].created_at_unix as u64,
                upd as u64,
                canon(t, x)[0].3,
                path_texts(path_sorted_aliases(t, x)),
                rev == 1,
            ),
        ),
{
    lemma_readable_node(t, x);
    lemma_rewritten_nodes(t, t2, x, title, content, upd, rev);
    // the placements are the same
    assert(row_ids(t2.nodes@) =~= row_ids(t.nodes@)) by {
        assert forall|id: Seq<char>| row_ids(t.nodes@).contains(id) implies row_ids(t2.nodes@).contains(id) by {
            let k = choose|k: int| 0 <= k < t.nodes@.len() && (#[trigger] t.nodes@[k]).id@ == id;
            assert(row_rewritten(t.nodes@[k], t2.nodes@[k], x, title, content, upd, rev));
            assert(t2.nodes@[k].id@ == id);
        }
        assert forall|id: Seq<char>| row_ids(t2.nodes@).contains(id) implies row_ids(t.nodes@).contains(id) by {
            let k = choose|k: int| 0 <= k < t2.nodes@.len() && (#[trigger] t2.nodes@[k]).id@ == id;
            assert(row_rewritten(t.nodes@[k], t2.nodes@[k], x, title, content, upd, rev));
            assert(t.nodes@[k].id@ == id);
        }
    }
    lemma_same_place_order(t, t2);
    let ids = row_ids(t.nodes@);
    let qp = query_places(t);
    let qp2 = query_places(t2);
    lemma_place_phase_same(qp, qp2, ids, qp.len() as int);
    assert(graph_places(t2) == graph_places(t));
    let gp = graph_places(t);
    let gn2 = graph_nodes(t2);
    let gn = graph_nodes(t);
    assert(canon(t2, x) == canon(t, x));
    assert(path_sorted_aliases(t2, x) == path_sorted_aliases(t, x));
    // no problem charged to x
    lemma_canonical_phase_clear(gn2, gp, x, gn2.len() as int);
    lemma_child_path_same(gn, gn2, gp, gp.len() as int);
    let a = node_phase(query_nodes(t2), qp2, query_nodes(t2).len() as int).1;
    let c = placement_phase(qp2, row_ids(t2.nodes@), qp2.len() as int).1;
    let d = canonical_phase(gn2, gp, gn2.len() as int);
    let e = child_path_phase(gn2, gp, gp.len() as int);
    lemma_clear_concat(a, c, x);
    lemma_clear_concat(a + c, d, x);
    lemma_clear_concat(a + c + d, e, x);
    assert(node_problem_list(t2) == a + c + d + e);
    lemma_clear_first(node_problem_list(t2), x);
    assert(node_error(t2, x) is None);
}

/// After `update_node` succeeds, reading the node gives back exactly the
/// node that `update_node` returned.
#[verifier::rlimit(30)]
pub proof fn law_read_after_update(prior: IdeaGraph, later: IdeaGraph, node_id: Seq<char>, patch: NodePatch, node: Node)
    requires
        update_node_outcome(prior, later, node_id, patch, Ok::<Node, GraphError>(node)),
    ensures
        read_result(later.tables, node_id) == Ok::<NodeView, ErrorView>(node_view(node)),
{
    let t = prior.tables;
    let t2 = later.tables;
    let x = node_id;
    let before = node_of(t, x);
    let title = match patch.title {
        Some(s) => s@,
        None => before.2,
    };
    let upd = node.updated_at_unix as i64;
    let reviewed = match patch.reviewed {
        Some(b) => b,
        None => before.9,
    };
    let rev: i64 = if reviewed {
        1
    } else {
        0
    };
    assert(update_error(prior, x, patch) is None);
    assert(node_error(t, x) is None);
    lemma_readable_node(t, x);
    let old = graph_nodes(t)[node_index_of(t, x)];
    reveal_strlit("statement");
    reveal_strlit("qa");
    assert("statement"@ != "qa"@) by {
        assert("statement"@.len() != "qa"@.len());
    }
    // the rows, one by one
    let bv = nrows(t.nodes@);
    let av = nrows(t2.nodes@);
    assert(rows_updated(bv, av, x, title, node.content, upd, rev));
    assert(t2.nodes@.len() == t.nodes@.len()) by {
        assert(av.len() == bv.len());
    }
    assert forall|i: int| 0 <= i < t.nodes@.len() implies row_rewritten(#[trigger] t.nodes@[i], t2.nodes@[i], x, title, node.content, upd, rev) by {
        assert(bv[i] == nrow(t.nodes@[i]));
        assert(av[i] == nrow(t2.nodes@[i]));
    }
    // the new values pass the row checks
    assert(valid_title(title));
    assert(kind_of(node.content) == row_kind(old));
    assert(!(node.content is QuestionAnswer && is_blank(content_parts(node.content).0))) by {
        match patch.content {
            Some(c) => {
                assert(kind_of(node.content) == kind_of(c));
            },
            None => {
                assert(content_parts(node.content) == row_parts(old));
                if node.content is QuestionAnswer {
                    assert(old.kind@ == "qa"@);
                }
            },
        }
    }
    lemma_read_rewritten(t, t2, x, title, node.content, upd, rev);
}

// ---------------------------------------------------------------------------
// a new context document
// ---------------------------------------------------------------------------

/// Every context row of `v` with id `x` is `row`.
pub open spec fn sole_context(v: Seq<ContextRow>, x: Seq<char>, row: ContextRow) -> bool {
    forall|i: int| 0 <= i < v.len() && (#[trigger] v[i]).id@ == x ==> v[i] == row
}

/// When one valid context row has id `x`, the context rows take it as
/// their one document `x`, and charge no problem to `x`.
proof fn lemma_context_phase_sole(rows: Seq<ContextRow>, x: Seq<char>, j: int, n: int)
    requires
        0 <= j < rows.len(),
        rows[j].id@ == x,
        forall|i: int| 0 <= i < rows.len() && i != j ==> (#[trigger] rows[i]).id@ != x,
        context_reason(rows[j]) is None,
        0 <= n <= rows.len(),
    ensures
        sole_context(context_phase(rows, n).0, x, rows[j]),
        n > j ==> exists|i: int| 0 <= i < context_phase(rows, n).0.len() && (#[trigger] context_phase(rows, n).0[i]).id@ == x,
        clear_of(context_phase(rows, n).1, x),
    decreases n,
{
    if n > 0 {
        lemma_context_phase_sole(rows, x, j, n - 1);
        let prev = context_phase(rows, n - 1);
        let cur = context_phase(rows, n);
        let r = rows[n - 1];
        if context_seen_before(rows, n - 1) {
            if n - 1 == j {
                let k = choose|k: int| 0 <= k < n - 1 && (#[trigger] rows[k]).id@ == rows[n - 1].id@;
                assert(rows[k].id@ != x);
            }
            assert(cur.0 == prev.0);
            assert forall|i: int| 0 <= i < cur.1.len() implies (#[trigger] cur.1[i]).0 != x by {
                if i < prev.1.len() {
                    assert(cur.1[i] == prev.1[i]);
                }
            }
        } else {
            match context_reason(r) {
                None => {
                    assert(cur.0 == prev.0.push(r));
                    assert forall|i: int| 0 <= i < cur.0.len() && (#[trigger] cur.0[i]).id@ == x implies cur.0[i] == rows[j] by {
                        if i < prev.0.len() {
                            assert(cur.0[i] == prev.0[i]);
                        }
                    }
                    if n - 1 == j {
                        assert(cur.0[prev.0.len() as int] == r);
                    } else if n > j {
                        let w = choose|i: int| 0 <= i < prev.0.len() && (#[trigger] prev.0[i]).id@ == x;
                        assert(cur.0[w] == prev.0[w]);
                    }
                },
                Some(m) => {
                    assert(n - 1 != j);
                    assert forall|i: int| 0 <= i < cur.1.len() implies (#[trigger] cur.1[i]).0 != x by {
                        if i < prev.1.len() {
                            assert(cur.1[i] == prev.1[i]);
                        }
                    }
                },
            }
        }
    }
}

/// The file name check succeeds on a name with the properties it tests.
proof fn lemma_filename_check_ok(f: Seq<char>, id: Seq<char>)
    requires
        !(is_blank(f) || has_char(f, '/') || has_char(f, '\\') || has_control_char(f)),
        f != "."@ && f != ".."@,
        f.len() >= 3 && f.subrange(f.len() - 3, f.len() as int) == ".md"@,
        rsplit_dashes(f.subrange(0, f.len() - 3)) == Some((f.subrange(0, f.len() - 3).subrange(0, f.len() - 3 - id.len() - 2), id)),
        uuid_shape(id),
    ensures
        context_filename_check(f, id) == Ok::<(), Seq<char>>(()),
{
}

/// The characters of `slug--id.md`: slug characters and dots.
proof fn lemma_context_filename_chars(slug: Seq<char>, id: Seq<char>)
    requires
        slug.len() > 0,
        forall|i: int| 0 <= i < slug.len() ==> slug_char(#[trigger] slug[i]),
        uuid_shape(id),
    ensures
        !(is_blank(context_filename(slug, id)) || has_char(context_filename(slug, id), '/') || has_char(
            context_filename(slug, id),
            '\\',
        ) || has_control_char(context_filename(slug, id))),
        context_filename(slug, id) != "."@ && context_filename(slug, id) != ".."@,
{
    reveal_strlit("--");
    reveal_strlit(".md");
    reveal_strlit(".");
    reveal_strlit("..");
    let stem = slug + "--"@ + id;
    let f = context_filename(slug, id);
    assert(f =~= stem + ".md"@);
    lemma_uuid_chars(id);
    assert forall|i: int| 0 <= i < f.len() implies slug_char(#[trigger] f[i]) || f[i] == '.' by {
        if i < slug.len() {
            assert(f[i] == slug[i]);
        } else if i < slug.len() + 2 {
            assert(f[i] == '-');
        } else if i < stem.len() {
            assert(f[i] == id[i - slug.len() - 2]);
        } else {
            assert(f[i] == ".md"@[i - stem.len()]);
        }
    }
    assert(f.len() > 3);
    assert(!is_blank(f)) by {
        assert(f[0] == slug[0]);
        assert(!is_ws(f[0]));
    }
    assert(!has_char(f, '/')) by {
        if has_char(f, '/') {
            let j = choose|j: int| 0 <= j < f.len() && f[j] == '/';
            assert(slug_char(f[j]) || f[j] == '.');
        }
    }
    assert(!has_char(f, '\\')) by {
        if has_char(f, '\\') {
            let j = choose|j: int| 0 <= j < f.len() && f[j] == '\\';
            assert(slug_char(f[j]) || f[j] == '.');
        }
    }
    assert(!has_control_char(f)) by {
        if has_control_char(f) {
            let j = choose|j: int| 0 <= j < f.len() && is_control(#[trigger] f[j]);
            assert(slug_char(f[j]) || f[j] == '.');
        }
    }
}

/// The file name `slug--id.md` passes the context file name check.
#[verifier::rlimit(30)]
proof fn lemma_context_filename_ok(slug: Seq<char>, id: Seq<char>)
    requires
        slug.len() > 0,
        forall|i: int| 0 <= i < slug.len() ==> slug_char(#[trigger] slug[i]),
        uuid_shape(id),
    ensures
        context_filename_check(context_filename(slug, id), id) == Ok::<(), Seq<char>>(()),
{
    reveal_strlit("--");
    reveal_strlit(".md");
    let stem = slug + "--"@ + id;
    let f = context_filename(slug, id);
    assert(f =~= stem + ".md"@);
    lemma_context_filename_chars(slug, id);
    assert(f.subrange(f.len() - 3, f.len() as int) =~= ".md"@);
    assert(f.subrange(0, f.len() - 3) =~= stem);
    lemma_dashes_split(slug, id);
    assert(stem.subrange(0, f.len() - 3 - id.len() - 2) =~= slug);
    lemma_filename_check_ok(f, id);
}

/// The row stored for a new context document is a valid context row.
proof fn lemma_new_context_valid(row: ContextRow, x: Seq<char>, title: Seq<char>, markdown: Seq<char>, k: nat, now: i64)
    requires
        crow(row) == (
            x,
            suffixed_slug(slug_of(title), k),
            context_filename(suffixed_slug(slug_of(title), k), x),
            title,
            markdown,
            now,
            now,
        ),
        uuid_shape(x),
        valid_title(title),
        now >= 0,
    ensures
        context_reason(row) is None,
{
    lemma_slug_plain(title, k);
    lemma_context_filename_ok(suffixed_slug(slug_of(title), k), x);
}

/// A context document just added is read back as it was given: its id,
/// title and Markdown, a file name `<slug>--<id>.md` (the slug made from the
/// title, with the first free suffix) and its path, and one creation time
/// as both timestamps.
pub proof fn law_read_after_add_context(prior: IdeaGraph, later: IdeaGraph, context: NewContextDocument, id: String)
    requires
        add_context_document_outcome(prior, later, context, Ok::<String, GraphError>(id)),
    ensures
        graph_name_error(later.graph_name@) is None,
        context_error(later.tables, id@) is None,
        context_of(later.tables, id@).0 == id@,
        context_of(later.tables, id@).1 == context.title@,
        context_of(later.tables, id@).3 == context.markdown@,
        context_of(later.tables, id@).4 == context_of(later.tables, id@).5,
        context_of(later.tables, id@).6 == context_path(context_of(later.tables, id@).2),
        exists|k: nat|
            k >= 1 && context_of(later.tables, id@).2 == context_filename(#[trigger] suffixed_slug(slug_of(context.title@), k), id@),
{
    let x = id@;
    let b = prior.tables;
    let t = later.tables;
    let title = context.title@;
    let l = b.contexts@.len() as int;
    let rows = t.contexts@;
    let now = crows(rows)[l].5;
    let k = choose|k: nat|
        #![trigger suffixed_slug(slug_of(title), k)]
        {
            &&& now >= 0
            &&& first_free_filename(b.contexts@, slug_of(title), x, k)
            &&& crows(rows) == crows(b.contexts@).push(
                (
                    x,
                    suffixed_slug(slug_of(title), k),
                    context_filename(suffixed_slug(slug_of(title), k), x),
                    title,
                    context.markdown@,
                    now,
                    now,
                ),
            )
            &&& nrows(t.nodes@) == nrows(b.nodes@)
            &&& prows(t.placements@) == prows(b.placements@)
        };
    assert(crows(rows).len() == l + 1);
    assert(rows.len() == l + 1);
    assert(crows(rows)[l] == crow(rows[l]));
    assert forall|i: int| 0 <= i < l implies (#[trigger] rows[i]).id@ != x by {
        assert(crows(rows)[i] == crow(rows[i]));
        assert(crows(b.contexts@)[i] == crow(b.contexts@[i]));
        assert(crows(rows)[i] == crows(b.contexts@)[i]);
    }
    lemma_new_context_valid(rows[l], x, title, context.markdown@, k, now);
    assert(rows.len() <= usize::MAX) by {
        assert(t.contexts.len() == rows.len());
    }
    let keys = rows.map_values(|r: ContextRow| crate::scan::context_row_key(r));
    lemma_permuted_once(rows, keys, l);
    let p = sorted_by(keys);
    let q = query_contexts(t);
    assert(q == permuted(rows, p));
    let j = choose|j: int| 0 <= j < p.len() && p[j] as int == l && #[trigger] permuted(rows, p)[j] == rows[l];
    assert forall|i: int| 0 <= i < q.len() && i != j implies (#[trigger] q[i]).id@ != x by {
        assert(p[i] != p[j]);
        assert(q[i] == rows[p[i] as int]);
    }
    lemma_context_phase_sole(q, x, j, q.len() as int);
    lemma_clear_first(context_problem_list(t), x);
    let gc = graph_contexts(t);
    assert(has_context(t, x));
    let ci = choose|i: int| 0 <= i < gc.len() && (#[trigger] gc[i]).id@ == x;
    assert(gc[ci] == rows[l]);
    assert(context_of(t, x) == context_row_view(rows[l]));
}

// ---------------------------------------------------------------------------
// a new child node
// ---------------------------------------------------------------------------

/// Appending a node row puts it somewhere in the query order and keeps the
/// order of the others.
proof fn lemma_node_push_order(b: Tables, t: Tables, v: crate::sqlite::NodeRowView) -> (j: int)
    requires
        nrows(t.nodes@) == nrows(b.nodes@).push(v),
    ensures
        0 <= j <= b.nodes@.len(),
        query_nodes(t).len() == b.nodes@.len() + 1,
        query_nodes(b).len() == b.nodes@.len(),
        nrow(query_nodes(t)[j]) == v,
        forall|i: int| 0 <= i < j ==> nrow(#[trigger] query_nodes(t)[i]) == nrow(query_nodes(b)[i]),
        forall|i: int| j < i <= b.nodes@.len() ==> nrow(#[trigger] query_nodes(t)[i]) == nrow(query_nodes(b)[i - 1]),
{
    let l = b.nodes@.len() as int;
    let rt = t.nodes@;
    let rb = b.nodes@;
    assert(nrows(rt).len() == l + 1);
    assert forall|m: int| 0 <= m < l implies nrow(#[trigger] rt[m]) == nrow(rb[m]) by {
        assert(nrows(rt)[m] == nrow(rt[m]));
        assert(nrows(rb)[m] == nrow(rb[m]));
    }
    assert(nrow(rt[l]) == v) by {
        assert(nrows(rt)[l] == nrow(rt[l]));
    }
    let kb = rb.map_values(|r: NodeRow| crate::scan::node_row_key(r));
    let kt = rt.map_values(|r: NodeRow| crate::scan::node_row_key(r));
    let kv: KeyView = (v.0, Seq::empty(), Seq::empty(), 0);
    assert(kt =~= kb.push(kv)) by {
        assert forall|m: int| 0 <= m < l implies kt[m] == kb[m] by {
            assert(nrow(rt[m]) == nrow(rb[m]));
        }
    }
    assert(rt.len() <= usize::MAX) by {
        assert(t.nodes.len() == rt.len());
    }
    let j = crate::order::lemma_sorted_push(kb, kv);
    let p = sorted_by(kb);
    let p2 = sorted_by(kt);
    lemma_sorted_order_exists(kb);
    lemma_sorted_order_exists(kt);
    assert(query_nodes(t)[j] == rt[l]);
    assert forall|i: int| 0 <= i < j implies nrow(#[trigger] query_nodes(t)[i]) == nrow(query_nodes(b)[i]) by {
        assert(query_nodes(t)[i] == rt[p2[i] as int]);
        assert(query_nodes(b)[i] == rb[p[i] as int]);
        assert((p[i] as int) < l);
    }
    assert forall|i: int| j < i <= l implies nrow(#[trigger] query_nodes(t)[i]) == nrow(query_nodes(b)[i - 1]) by {
        assert(query_nodes(t)[i] == rt[p2[i] as int]);
        assert(query_nodes(b)[i - 1] == rb[p[i - 1] as int]);
        assert((p[i - 1] as int) < l);
    }
    j
}

/// The same for placement rows.
proof fn lemma_place_push_order(b: Tables, t: Tables, v: crate::sqlite::PlacementRowView) -> (j: int)
    requires
        prows(t.placements@) == prows(b.placements@).push(v),
    ensures
        0 <= j <= b.placements@.len(),
        query_places(t).len() == b.placements@.len() + 1,
        query_places(b).len() == b.placements@.len(),
        prow(query_places(t)[j]) == v,
        forall|i: int| 0 <= i < j ==> prow(#[trigger] query_places(t)[i]) == prow(query_places(b)[i]),
        forall|i: int| j < i <= b.placements@.len() ==> prow(#[trigger] query_places(t)[i]) == prow(query_places(b)[i - 1]),
{
    let l = b.placements@.len() as int;
    let rt = t.placements@;
    let rb = b.placements@;
    assert(prows(rt).len() == l + 1);
    assert forall|m: int| 0 <= m < l implies prow(#[trigger] rt[m]) == prow(rb[m]) by {
        assert(prows(rt)[m] == prow(rt[m]));
        assert(prows(rb)[m] == prow(rb[m]));
    }
    assert(prow(rt[l]) == v) by {
        assert(prows(rt)[l] == prow(rt[l]));
    }
    let kb = rb.map_values(|r: PlacementRow| crate::scan::placement_row_key(r));
    let kt = rt.map_values(|r: PlacementRow| crate::scan::placement_row_key(r));
    let kv: KeyView = (v.4, Seq::empty(), Seq::empty(), v.0 as int);
    assert(kt =~= kb.push(kv)) by {
        assert forall|m: int| 0 <= m < l implies kt[m] == kb[m] by {
            assert(prow(rt[m]) == prow(rb[m]));
        }
    }
    assert(rt.len() <= usize::MAX) by {
        assert(t.placements.len() == rt.len());
    }
    let j = crate::order::lemma_sorted_push(kb, kv);
    let p = sorted_by(kb);
    let p2 = sorted_by(kt);
    lemma_sorted_order_exists(kb);
    lemma_sorted_order_exists(kt);
    assert(query_places(t)[j] == rt[l]);
    assert forall|i: int| 0 <= i < j implies prow(#[trigger] query_places(t)[i]) == prow(query_places(b)[i]) by {
        assert(query_places(t)[i] == rt[p2[i] as int]);
        assert(query_places(b)[i] == rb[p[i] as int]);
        assert((p[i] as int) < l);
    }
    assert forall|i: int| j < i <= l implies prow(#[trigger] query_places(t)[i]) == prow(query_places(b)[i - 1]) by {
        assert(query_places(t)[i] == rt[p2[i] as int]);
        assert(query_places(b)[i - 1] == rb[p[i - 1] as int]);
        assert((p[i - 1] as int) < l);
    }
    j
}

/// The usable placements of node `x` that are (or are not) canonical,
/// read off the first `n` rows.
pub open spec fn valid_places(rows: Seq<PlacementRow>, ids: Set<Seq<char>>, x: Seq<char>, c: bool, n: int) -> Seq<PlacementView>
    decreases n,
{
    if n <= 0 || n > rows.len() {
        Seq::empty()
    } else {
        let prev = valid_places(rows, ids, x, c, n - 1);
        let r = rows[n - 1];
        if placement_reason(r, ids) is None && r.node_id@ == x && (r.is_canonical == 1) == c {
            prev.push(placement_of_row(r))
        } else {
            prev
        }
    }
}

proof fn lemma_places_of_phase(rows: Seq<PlacementRow>, ids: Set<Seq<char>>, x: Seq<char>, c: bool, n: int)
    requires
        0 <= n <= rows.len(),
    ensures
        places_of(placement_phase(rows, ids, n).0, x, c) == valid_places(rows, ids, x, c, n),
    decreases n,
{
    if n > 0 {
        lemma_places_of_phase(rows, ids, x, c, n - 1);
        let prev = placement_phase(rows, ids, n - 1).0;
        let r = rows[n - 1];
        if placement_reason(r, ids) is None {
            let v = placement_of_row(r);
            assert(prev.push(v).drop_last() =~= prev);
            assert(prev.push(v).last() == v);
        }
    }
}

/// Elements of the usable placements read off the rows come from valid rows.
proof fn lemma_valid_places_rows(rows: Seq<PlacementRow>, ids: Set<Seq<char>>, x: Seq<char>, c: bool, n: int)
    requires
        0 <= n <= rows.len(),
    ensures
        forall|k: int|
            0 <= k < valid_places(rows, ids, x, c, n).len() ==> exists|i: int|
                0 <= i < n && placement_reason(rows[i], ids) is None && #[trigger] valid_places(rows, ids, x, c, n)[k] == placement_of_row(rows[i]),
    decreases n,
{
    if n > 0 {
        lemma_valid_places_rows(rows, ids, x, c, n - 1);
        let prev = valid_places(rows, ids, x, c, n - 1);
        let cur = valid_places(rows, ids, x, c, n);
        assert forall|k: int| 0 <= k < cur.len() implies exists|i: int|
            0 <= i < n && placement_reason(rows[i], ids) is None && #[trigger] cur[k] == placement_of_row(rows[i]) by {
            if k < prev.len() {
                assert(cur[k] == prev[k]);
                let i = choose|i: int| 0 <= i < n - 1 && placement_reason(rows[i], ids) is None && #[trigger] prev[k] == placement_of_row(rows[i]);
                assert(cur[k] == placement_of_row(rows[i]));
            } else {
                assert(cur[k] == placement_of_row(rows[n - 1]));
            }
        }
    }
}

/// A row that names neither as node nor as parent the one new id has the
/// same reason with that id among the node ids.
proof fn lemma_reason_insert(r: PlacementRow, ids: Set<Seq<char>>, x: Seq<char>)
    requires
        r.node_id@ != x,
        r.parent_id is Some ==> r.parent_id->0@ != x,
    ensures
        placement_reason(r, ids.insert(x)) == placement_reason(r, ids),
{
}

/// Inserting a placement row of another node leaves the usable placements
/// of `y` as they are.
proof fn lemma_valid_places_insert(
    a: Seq<PlacementRow>,
    a2: Seq<PlacementRow>,
    ids: Set<Seq<char>>,
    x: Seq<char>,
    y: Seq<char>,
    c: bool,
    j: int,
    n: int,
)
    requires
        a2.len() == a.len() + 1,
        0 <= j <= a.len(),
        forall|i: int| 0 <= i < j ==> prow(#[trigger] a2[i]) == prow(a[i]),
        forall|i: int| j < i <= a.len() ==> prow(#[trigger] a2[i]) == prow(a[i - 1]),
        a2[j].node_id@ == x,
        x != y,
        forall|i: int| 0 <= i < a.len() ==> (#[trigger] a[i]).node_id@ != x && (a[i].parent_id is Some ==> a[i].parent_id->0@ != x),
        0 <= n <= a2.len(),
    ensures
        valid_places(a2, ids.insert(x), y, c, n) == valid_places(a, ids, y, c, if n <= j { n } else { n - 1 }),
    decreases n,
{
    if n > 0 {
        lemma_valid_places_insert(a, a2, ids, x, y, c, j, n - 1);
        if n - 1 != j {
            let m = if n - 1 < j { n - 1 } else { n - 2 };
            assert(prow(a2[n - 1]) == prow(a[m]));
            lemma_reason_insert(a[m], ids, x);
            assert(placement_reason(a2[n - 1], ids.insert(x)) == placement_reason(a[m], ids.insert(x)));
            assert(placement_of_row(a2[n - 1]) == placement_of_row(a[m]));
        }
    }
}

/// Where a component of `a` ends, it ends in `a/...` too.
proof fn lemma_component_end_prefix(a: Seq<char>, s: Seq<char>, i: int)
    requires
        0 <= i <= a.len(),
        a.len() < s.len(),
        s.subrange(0, a.len() as int) == a,
        s[a.len() as int] == '/',
    ensures
        component_end(s, i) == component_end(a, i),
    decreases a.len() - i,
{
    if i < a.len() {
        assert(s[i] == a[i]);
        if a[i] != '/' {
            lemma_component_end_prefix(a, s, i + 1);
        }
    }
}

/// A last component without `/` runs to the end.
proof fn lemma_component_end_last(s: Seq<char>, i: int)
    requires
        0 <= i <= s.len(),
        forall|k: int| i <= k < s.len() ==> s[k] != '/',
    ensures
        component_end(s, i) == s.len(),
{
    lemma_component_end(s, i);
}

/// Appending a usable component to a path of usable components.
proof fn lemma_components_append(a: Seq<char>, c: Seq<char>, i: int)
    requires
        0 <= i <= a.len(),
        components_from(a, i),
        good_component(c),
        forall|k: int| 0 <= k < c.len() ==> c[k] != '/',
    ensures
        components_from(a + seq!['/'] + c, i),
    decreases a.len() - i,
{
    let s = a + seq!['/'] + c;
    assert(s.subrange(0, a.len() as int) =~= a);
    assert(s[a.len() as int] == '/');
    lemma_component_end_prefix(a, s, i);
    lemma_component_end(a, i);
    let e = component_end(a, i);
    assert(s.subrange(i, e) =~= a.subrange(i, e));
    if e < a.len() {
        lemma_components_append(a, c, e + 1);
    } else {
        let f = a.len() + 1int;
        assert forall|k: int| f <= k < s.len() implies s[k] != '/' by {
            assert(s[k] == c[k - f]);
        }
        lemma_component_end_last(s, f);
        assert(s.subrange(f, s.len() as int) =~= c);
        assert(components_from(s, f));
    }
}

/// The name `slug--id` of an entry: slug characters, no `/`, usable.
proof fn lemma_entry_name_chars(slug: Seq<char>, id: Seq<char>)
    requires
        slug.len() > 0,
        forall|i: int| 0 <= i < slug.len() ==> slug_char(#[trigger] slug[i]),
        uuid_shape(id),
    ensures
        forall|i: int| 0 <= i < (slug + "--"@ + id).len() ==> slug_char(#[trigger] (slug + "--"@ + id)[i]),
        forall|k: int| 0 <= k < (slug + "--"@ + id).len() ==> (slug + "--"@ + id)[k] != '/',
        good_component(slug + "--"@ + id),
{
    reveal_strlit("--");
    reveal_strlit(".");
    reveal_strlit("..");
    let name = slug + "--"@ + id;
    lemma_uuid_chars(id);
    assert forall|i: int| 0 <= i < name.len() implies slug_char(#[trigger] name[i]) by {
        if i < slug.len() {
            assert(name[i] == slug[i]);
        } else if i < slug.len() + 2 {
            assert(name[i] == '-');
        } else {
            assert(name[i] == id[i - slug.len() - 2]);
        }
    }
    assert forall|k: int| 0 <= k < name.len() implies name[k] != '/' by {
        lemma_slug_char_plain(name[k]);
    }
    assert(name.len() > 2);
}

/// The components of a child entry path.
proof fn lemma_child_components(pp: Seq<char>, slug: Seq<char>, id: Seq<char>)
    requires
        components_from(pp, 0),
        slug.len() > 0,
        forall|i: int| 0 <= i < slug.len() ==> slug_char(#[trigger] slug[i]),
        uuid_shape(id),
    ensures
        components_from(entry_path(pp + "/children"@, slug, id), 0),
{
    reveal_strlit("/children");
    reveal_strlit("children");
    reveal_strlit(".");
    reveal_strlit("..");
    reveal_strlit("--");
    let kids = "children"@;
    let container = pp + "/children"@;
    assert(container =~= pp + seq!['/'] + kids);
    assert forall|k: int| 0 <= k < kids.len() implies kids[k] != '/' by {}
    assert(good_component(kids));
    lemma_components_append(pp, kids, 0);
    let name = slug + "--"@ + id;
    lemma_entry_name_chars(slug, id);
    lemma_components_append(container, name, 0);
    assert(entry_path(container, slug, id) =~= container + seq!['/'] + name);
}

/// The characters of a child entry path: those of the parent's path,
/// `/children/`, and slug characters.
proof fn lemma_child_plain(pp: Seq<char>, slug: Seq<char>, id: Seq<char>)
    requires
        !is_blank(pp),
        !((pp.len() > 0 && pp[0] == '/') || has_char(pp, '\\') || has_control_char(pp)),
        slug.len() > 0,
        forall|i: int| 0 <= i < slug.len() ==> slug_char(#[trigger] slug[i]),
        uuid_shape(id),
    ensures
        !is_blank(entry_path(pp + "/children"@, slug, id)),
        !((entry_path(pp + "/children"@, slug, id).len() > 0 && entry_path(pp + "/children"@, slug, id)[0] == '/')
            || has_char(entry_path(pp + "/children"@, slug, id), '\\') || has_control_char(
            entry_path(pp + "/children"@, slug, id),
        )),
{
    reveal_strlit("/children");
    reveal_strlit("--");
    let container = pp + "/children"@;
    let name = slug + "--"@ + id;
    lemma_entry_name_chars(slug, id);
    let path = entry_path(container, slug, id);
    assert(path =~= container + seq!['/'] + name);
    let cl = container.len() as int;
    assert(pp.len() > 0) by {
        if pp.len() == 0 {
            assert(is_blank(pp));
        }
    }
    assert(path[0] == pp[0]);
    assert(!is_blank(path)) by {
        assert(path[cl + 1] == name[0]);
        assert(!is_ws(name[0]));
    }
    assert forall|j: int| pp.len() <= j < cl implies path[j] == "/children"@[j - pp.len()] by {}
    assert(!has_char(path, '\\')) by {
        if has_char(path, '\\') {
            let j = choose|j: int| 0 <= j < path.len() && path[j] == '\\';
            if j < pp.len() {
                assert(path[j] == pp[j]);
            } else if j > cl {
                assert(path[j] == name[j - cl - 1]);
                lemma_slug_char_plain(name[j - cl - 1]);
            }
        }
    }
    assert(!has_control_char(path)) by {
        if has_control_char(path) {
            let j = choose|j: int| 0 <= j < path.len() && is_control(#[trigger] path[j]);
            if j < pp.len() {
                assert(path[j] == pp[j]);
            } else if j > cl {
                assert(path[j] == name[j - cl - 1]);
                lemma_slug_char_plain(name[j - cl - 1]);
            }
        }
    }
}

/// The path of a child entry under the `children` of a placement path that
/// passes the check passes it too.
proof fn lemma_child_path_checks(pp: Seq<char>, pid: Seq<char>, slug: Seq<char>, id: Seq<char>)
    requires
        logical_path_check(pp, pid) is Ok,
        slug.len() > 0,
        forall|i: int| 0 <= i < slug.len() ==> slug_char(#[trigger] slug[i]),
        uuid_shape(id),
    ensures
        logical_path_check(entry_path(pp + "/children"@, slug, id), id) == Ok::<(), Seq<char>>(()),
        parent_path(entry_path(pp + "/children"@, slug, id)) == pp + "/children"@,
{
    lemma_child_components(pp, slug, id);
    lemma_child_plain(pp, slug, id);
    lemma_entry_name(pp + "/children"@, slug, id);
    lemma_path_check_ok(entry_path(pp + "/children"@, slug, id), id);
}

pub open spec fn row_in(rows: Seq<PlacementRow>, r: PlacementRow) -> bool {
    exists|m: int| 0 <= m < rows.len() && rows[m] == r
}

/// The rows in query order are rows of the table.
pub(crate) proof fn lemma_query_places_rows(t: Tables)
    ensures
        query_places(t).len() == t.placements@.len(),
        t.placements@.len() <= usize::MAX,
        forall|i: int| 0 <= i < query_places(t).len() ==> row_in(t.placements@, #[trigger] query_places(t)[i]),
{
    let rows = t.placements@;
    let keys = rows.map_values(|r: PlacementRow| crate::scan::placement_row_key(r));
    assert(rows.len() <= usize::MAX) by {
        assert(t.placements.len() == rows.len());
    }
    lemma_sorted_order_exists(keys);
    let p = sorted_by(keys);
    assert forall|i: int| 0 <= i < query_places(t).len() implies row_in(t.placements@, #[trigger] query_places(t)[i]) by {
        assert((p[i] as int) < keys.len());
        assert(query_places(t)[i] == rows[p[i] as int]);
    }
}

/// What the usable placements read off the rows hold: placements of `x`,
/// canonical or not as asked, at most one per row.
proof fn lemma_valid_places_node(rows: Seq<PlacementRow>, ids: Set<Seq<char>>, x: Seq<char>, c: bool, n: int)
    requires
        0 <= n <= rows.len(),
    ensures
        valid_places(rows, ids, x, c, n).len() <= n,
        forall|k: int| 0 <= k < valid_places(rows, ids, x, c, n).len() ==> (#[trigger] valid_places(rows, ids, x, c, n)[k]).1 == x && valid_places(rows, ids, x, c, n)[k].4 == c,
    decreases n,
{
    if n > 0 {
        lemma_valid_places_node(rows, ids, x, c, n - 1);
        let prev = valid_places(rows, ids, x, c, n - 1);
        let cur = valid_places(rows, ids, x, c, n);
        assert forall|k: int| 0 <= k < cur.len() implies (#[trigger] cur[k]).1 == x && cur[k].4 == c by {
            if k < prev.len() {
                assert(cur[k] == prev[k]);
            }
        }
    }
}

/// The canonical path of a readable node passes the placement path check;
/// its canonical placement is a valid canonical row.
pub(crate) proof fn lemma_canonical_path_checks(t: Tables, y: Seq<char>)
    requires
        node_error(t, y) is None,
    ensures
        logical_path_check(canon(t, y)[0].3, y) is Ok,
        row_ids(t.nodes@).contains(y),
        exists|i: int|
            0 <= i < query_places(t).len() && placement_reason(query_places(t)[i], row_ids(t.nodes@)) is None
                && #[trigger] placement_of_row(query_places(t)[i]) == canon(t, y)[0] && query_places(t)[i].is_canonical == 1,
        canon(t, y) == path_sorted(valid_places(query_places(t), row_ids(t.nodes@), y, true, query_places(t).len() as int)),
{
    lemma_readable_node(t, y);
    let qp = query_places(t);
    let ids = row_ids(t.nodes@);
    let n = qp.len() as int;
    lemma_places_of_phase(qp, ids, y, true, n);
    let vp = valid_places(qp, ids, y, true, n);
    lemma_valid_places_rows(qp, ids, y, true, n);
    lemma_valid_places_node(qp, ids, y, true, n);
    lemma_query_places_rows(t);
    let keys = vp.map_values(|p: PlacementView| place_key(p));
    lemma_sorted_order_exists(keys);
    assert(vp.len() == 1);
    lemma_path_sorted_small(vp);
    assert(canon(t, y)[0] == vp[0]);
    let i = choose|i: int| 0 <= i < n && placement_reason(qp[i], ids) is None && #[trigger] vp[0] == placement_of_row(qp[i]);
    assert(vp[0].1 == y);
    assert(vp[0].4);
    assert(placement_of_row(qp[i]) == canon(t, y)[0]);
}

/// Each entry of a node's path-sorted entries is the entry of a row of the
/// table.
pub(crate) proof fn lemma_sorted_place_row(t: Tables, x: Seq<char>, c: bool, b: int)
    requires
        0 <= b < path_sorted(places_of(graph_places(t), x, c)).len(),
    ensures
        exists|w: int|
            0 <= w < t.placements@.len() && #[trigger] placement_of_row(t.placements@[w]) == path_sorted(
                places_of(graph_places(t), x, c),
            )[b],
        path_sorted(places_of(graph_places(t), x, c))[b].1 == x,
        path_sorted(places_of(graph_places(t), x, c))[b].4 == c,
{
    let qp = query_places(t);
    let ids = row_ids(t.nodes@);
    let n = qp.len() as int;
    lemma_query_places_rows(t);
    lemma_places_of_phase(qp, ids, x, c, n);
    lemma_valid_places_rows(qp, ids, x, c, n);
    lemma_valid_places_node(qp, ids, x, c, n);
    let v = places_of(graph_places(t), x, c);
    assert(v == valid_places(qp, ids, x, c, n));
    let keys = v.map_values(|p: PlacementView| place_key(p));
    lemma_sorted_order_exists(keys);
    let p = sorted_by(keys);
    assert(path_sorted(v) == permuted(v, p));
    assert(path_sorted(v)[b] == v[p[b] as int]);
    let i = choose|i: int| 0 <= i < n && placement_reason(qp[i], ids) is None && #[trigger] v[p[b] as int] == placement_of_row(qp[i]);
    assert(row_in(t.placements@, qp[i]));
    let w = choose|w: int| 0 <= w < t.placements@.len() && t.placements@[w] == qp[i];
    assert(placement_of_row(t.placements@[w]) == path_sorted(v)[b]);
}

/// A node of the graph stays one after a node row with another id is
/// appended.
proof fn lemma_node_kept_after_push(b: Tables, t: Tables, v: crate::sqlite::NodeRowView, y: Seq<char>)
    requires
        nrows(t.nodes@) == nrows(b.nodes@).push(v),
        node_error(b, y) is None,
        v.0 != y,
    ensures
        has_row(graph_nodes(t), y),
{
    lemma_readable_node(b, y);
    let qb = query_nodes(b);
    let qt = query_nodes(t);
    let j = lemma_node_push_order(b, t, v);
    lemma_node_phase_clear(qb, query_places(b), y, qb.len() as int);
    let gn = graph_nodes(b);
    let ni = node_index_of(b, y);
    assert(0 <= ni < gn.len() && gn[ni].id@ == y);
    let m = choose|i: int| 0 <= i < qb.len() && #[trigger] gn[ni] == qb[i];
    let m2 = if m < j { m } else { m + 1 };
    assert(nrow(qt[m2]) == nrow(qb[m]));
    assert(qt[m2].id@ == y);
    assert(node_reason(qt[m2]) is None) by {
        assert(node_reason(qb[m]) is None);
    }
    assert forall|i: int| 0 <= i < qt.len() && i != m2 implies (#[trigger] qt[i]).id@ != y by {
        if i < j {
            assert(nrow(qt[i]) == nrow(qb[i]));
            assert(qb[i].id@ != y || qb[m].id@ != y);
        } else if i > j {
            assert(nrow(qt[i]) == nrow(qb[i - 1]));
            assert(qb[i - 1].id@ != y || qb[m].id@ != y);
        } else {
            assert(nrow(qt[i]) == v);
        }
    }
    lemma_node_phase_sole(qt, query_places(t), y, m2, qt.len() as int);
}

/// A child placement right under its parent's canonical path, the one
/// placement of `x`, is charged no path problem.
proof fn lemma_child_path_clear_under(rows: Seq<NodeRow>, ok: Seq<PlacementView>, x: Seq<char>, p: PlacementView, pid: Seq<char>, pp: Seq<char>, n: int)
    requires
        forall|i: int| 0 <= i < ok.len() && (#[trigger] ok[i]).1 == x ==> ok[i] == p,
        p.2 == Some(pid),
        crate::scan::canonical_path_of(rows, ok, pid) == Some(pp),
        parent_path(p.3) == pp + "/children"@,
    ensures
        clear_of(child_path_phase(rows, ok, n), x),
    decreases n,
{
    if n > 0 && n <= ok.len() {
        lemma_child_path_clear_under(rows, ok, x, p, pid, pp, n - 1);
        let prev = child_path_phase(rows, ok, n - 1);
        let cur = child_path_phase(rows, ok, n);
        if ok[n - 1].1 == x {
            assert(cur == prev);
        } else {
            assert forall|i: int| 0 <= i < cur.len() implies (#[trigger] cur[i]).0 != x by {
                if i < prev.len() {
                    assert(cur[i] == prev[i]);
                }
            }
        }
    }
}

/// After the placement of a new child is appended: it is the child's one
/// usable placement, no placement problem is charged to the child, and the
/// parent keeps its canonical placements.
#[verifier::rlimit(30)]
proof fn lemma_child_places(b: Tables, t: Tables, x: Seq<char>, pid: Seq<char>, title: Seq<char>, k: nat, rid: i64, pp: Seq<char>)
    requires
        prows(t.placements@) == prows(b.placements@).push(
            (
                rid,
                x,
                Some(pid),
                suffixed_slug(slug_of(title), k),
                entry_path(pp + "/children"@, suffixed_slug(slug_of(title), k), x),
                1i64,
            ),
        ),
        forall|i: int| 0 <= i < b.placements@.len() ==> (#[trigger] b.placements@[i]).node_id@ != x && (b.placements@[i].parent_id is Some ==> b.placements@[i].parent_id->0@ != x),
        uuid_shape(x),
        uuid_shape(pid),
        x != pid,
        row_ids(t.nodes@) == row_ids(b.nodes@).insert(x),
        row_ids(b.nodes@).contains(pid),
        logical_path_check(pp, pid) is Ok,
    ensures
        sole_place(graph_places(t), x, (rid, x, Some(pid), entry_path(pp + "/children"@, suffixed_slug(slug_of(title), k), x), true)),
        has_place(graph_places(t), x),
        clear_of(placement_phase(query_places(t), row_ids(t.nodes@), query_places(t).len() as int).1, x),
        canonical_views(graph_places(t), pid) == canonical_views(graph_places(b), pid),
        parent_path(entry_path(pp + "/children"@, suffixed_slug(slug_of(title), k), x)) == pp + "/children"@,
{
    let slug = suffixed_slug(slug_of(title), k);
    let path = entry_path(pp + "/children"@, slug, x);
    let vrow = (rid, x, Some(pid), slug, path, 1i64);
    let j1 = lemma_place_push_order(b, t, vrow);
    let qt = query_places(t);
    let qb = query_places(b);
    let ids_b = row_ids(b.nodes@);
    let ids_t = row_ids(t.nodes@);
    lemma_query_places_rows(b);
    assert forall|i: int| 0 <= i < qb.len() implies (#[trigger] qb[i]).node_id@ != x && (qb[i].parent_id is Some ==> qb[i].parent_id->0@ != x) by {
        assert(row_in(b.placements@, qb[i]));
        let m = choose|m: int| 0 <= m < b.placements@.len() && b.placements@[m] == qb[i];
        assert(b.placements@[m].node_id@ != x);
    }
    let r = qt[j1];
    assert(prow(r) == vrow);
    assert(r.parent_id is Some && r.parent_id->0@ == pid);
    lemma_slug_plain(title, k);
    lemma_child_path_checks(pp, pid, slug, x);
    assert(placement_reason(r, ids_t) is None);
    assert forall|i: int| 0 <= i < qt.len() && i != j1 implies (#[trigger] qt[i]).node_id@ != x by {
        if i < j1 {
            assert(prow(qt[i]) == prow(qb[i]));
        } else {
            assert(prow(qt[i]) == prow(qb[i - 1]));
        }
    }
    lemma_place_phase_sole(qt, ids_t, x, j1, qt.len() as int);
    // the parent's canonical placements
    lemma_places_of_phase(qt, ids_t, pid, true, qt.len() as int);
    lemma_places_of_phase(qb, ids_b, pid, true, qb.len() as int);
    lemma_valid_places_insert(qb, qt, ids_b, x, pid, true, j1, qt.len() as int);
    assert(places_of(graph_places(t), pid, true) == places_of(graph_places(b), pid, true));
}

/// The read of a node just added under a parent, by the values it was
/// added with.
#[verifier::rlimit(40)]
proof fn lemma_read_new_child(prior: IdeaGraph, later: IdeaGraph, pid: Seq<char>, node: NewNode, x: Seq<char>, now: i64, rid: i64, k: nat)
    requires
        crate::sqlite::child_add_error(prior, pid, node) is None,
        uuid_shape(x),
        !node_id_taken(prior.tables.nodes@, x),
        forall|i: int| 0 <= i < prior.tables.placements@.len() ==> (#[trigger] prior.tables.placements@[i]).node_id@ != x && (prior.tables.placements@[i].parent_id is Some ==> prior.tables.placements@[i].parent_id->0@ != x),
        now >= 0,
        nrows(later.tables.nodes@) == nrows(prior.tables.nodes@).push(new_row_view(x, node, now, now)),
        prows(later.tables.placements@) == prows(prior.tables.placements@).push(
            (
                rid,
                x,
                Some(pid),
                suffixed_slug(slug_of(node.title@), k),
                entry_path(canon(prior.tables, pid)[0].3 + "/children"@, suffixed_slug(slug_of(node.title@), k), x),
                1i64,
            ),
        ),
    ensures
        read_result(later.tables, x) == Ok::<NodeView, ErrorView>(
            (
                x,
                node.kind,
                node.title@,
                node.kind,
                content_parts(node.content),
                now as u64,
                now as u64,
                entry_path(canon(prior.tables, pid)[0].3 + "/children"@, suffixed_slug(slug_of(node.title@), k), x),
                Seq::<Seq<char>>::empty(),
                false,
            ),
        ),
{
    let b = prior.tables;
    let t = later.tables;
    let title = node.title@;
    let pp = canon(b, pid)[0].3;
    let path = entry_path(pp + "/children"@, suffixed_slug(slug_of(title), k), x);
    assert(node_error(b, pid) is None);
    assert(new_node_error(node, "roots"@) is None);
    lemma_nodes_after_push(b, t, x, node, now);
    let row = t.nodes@[b.nodes@.len() as int];
    lemma_new_row_valid(row, x, node, now);
    lemma_canonical_path_checks(b, pid);
    assert(x != pid) by {
        let m = choose|m: int| 0 <= m < b.nodes@.len() && (#[trigger] b.nodes@[m]).id@ == pid;
    }
    assert(row_ids(t.nodes@) =~= row_ids(b.nodes@).insert(x)) by {
        let l = b.nodes@.len() as int;
        assert forall|m: int| 0 <= m < l implies (#[trigger] t.nodes@[m]).id@ == b.nodes@[m].id@ by {
            assert(nrows(t.nodes@)[m] == nrow(t.nodes@[m]));
            assert(nrows(b.nodes@)[m] == nrow(b.nodes@[m]));
        }
        assert forall|id: Seq<char>| row_ids(t.nodes@).contains(id) implies row_ids(b.nodes@).insert(x).contains(id) by {
            let m = choose|m: int| 0 <= m < t.nodes@.len() && (#[trigger] t.nodes@[m]).id@ == id;
            if m < l {
                assert(b.nodes@[m].id@ == id);
            }
        }
        assert forall|id: Seq<char>| row_ids(b.nodes@).insert(x).contains(id) implies row_ids(t.nodes@).contains(id) by {
            if id != x {
                let m = choose|m: int| 0 <= m < b.nodes@.len() && (#[trigger] b.nodes@[m]).id@ == id;
                assert(t.nodes@[m].id@ == id);
            }
        }
    }
    lemma_child_places(b, t, x, pid, title, k, rid, pp);
    lemma_node_kept_after_push(b, t, new_row_view(x, node, now, now), pid);
    let gp = graph_places(t);
    let gn = graph_nodes(t);
    lemma_readable_node(b, pid);
    assert(canonical_views(gp, pid) == canon(b, pid));
    assert(crate::scan::canonical_path_of(gn, gp, pid) == Some(pp));
    let v = (rid, x, Some(pid), path, true);
    lemma_places_of_sole(gp, x, v);
    lemma_path_sorted_small(seq![v]);
    lemma_path_sorted_small(Seq::<PlacementView>::empty());
    assert(canon(t, x) == seq![v]);
    assert(path_sorted_aliases(t, x) == Seq::<PlacementView>::empty());
    assert(path_texts(Seq::<PlacementView>::empty()) =~= Seq::<Seq<char>>::empty());
    lemma_canonical_phase_clear(gn, gp, x, gn.len() as int);
    lemma_child_path_clear_under(gn, gp, x, v, pid, pp, gp.len() as int);
    let a = node_phase(query_nodes(t), query_places(t), query_nodes(t).len() as int).1;
    let c = placement_phase(query_places(t), row_ids(t.nodes@), query_places(t).len() as int).1;
    let d = canonical_phase(gn, gp, gn.len() as int);
    let e = child_path_phase(gn, gp, gp.len() as int);
    lemma_clear_concat(a, c, x);
    lemma_clear_concat(a + c, d, x);
    lemma_clear_concat(a + c + d, e, x);
    assert(node_problem_list(t) == a + c + d + e);
    lemma_clear_first(node_problem_list(t), x);
    assert(node_error(t, x) is None);
    assert(node_of(t, x).7 == path);
}

/// A node added under a parent is read back as it was given: its id, kind,
/// title and content, one creation time as both timestamps, a canonical
/// path `<parent's canonical path>/children/<slug>--<id>` (the slug made
/// from the title, with the first free suffix) and no alias paths. This
/// holds when no placement row left over from before names the new id.
pub proof fn law_read_after_add_child(prior: IdeaGraph, later: IdeaGraph, parent_id: Seq<char>, node: NewNode, id: String)
    requires
        add_child_node_outcome(prior, later, parent_id, node, Ok::<String, GraphError>(id)),
        forall|i: int|
            0 <= i < prior.tables.placements@.len() ==> (#[trigger] prior.tables.placements@[i]).node_id@ != id@ && (
            prior.tables.placements@[i].parent_id is Some ==> prior.tables.placements@[i].parent_id->0@ != id@),
    ensures
        read_result(later.tables, id@) is Ok,
        ({
            let v = read_result(later.tables, id@)->Ok_0;
            &&& v.0 == id@
            &&& v.1 == node.kind
            &&& v.2 == node.title@
            &&& v.3 == node.kind
            &&& v.4 == content_parts(node.content)
            &&& v.5 == v.6
            &&& v.8 == Seq::<Seq<char>>::empty()
            &&& exists|k: nat|
                k >= 1 && v.7 == entry_path(
                    canon(prior.tables, parent_id)[0].3 + "/children"@,
                    #[trigger] suffixed_slug(slug_of(node.title@), k),
                    id@,
                )
        }),
{
    let x = id@;
    let container = canon(prior.tables, parent_id)[0].3 + "/children"@;
    let (now, rid, k) = choose|now: i64, rid: i64, k: nat|
        #![trigger first_free(prior.tables.placements@, prior.tables.reserved@, container, slug_of(node.title@), x, k), fresh_row_id(prior.tables.placements@, rid), new_row_view(x, node, now, now)]
        {
            &&& now >= 0
            &&& rid >= 1
            &&& fresh_row_id(prior.tables.placements@, rid)
            &&& first_free(prior.tables.placements@, prior.tables.reserved@, container, slug_of(node.title@), x, k)
            &&& nrows(later.tables.nodes@) == nrows(prior.tables.nodes@).push(new_row_view(x, node, now, now))
            &&& prows(later.tables.placements@) == prows(prior.tables.placements@).push(
                (
                    rid,
                    x,
                    Some(parent_id),
                    suffixed_slug(slug_of(node.title@), k),
                    entry_path(container, suffixed_slug(slug_of(node.title@), k), x),
                    1i64,
                ),
            )
            &&& crows(later.tables.contexts@) == crows(prior.tables.contexts@)
            &&& later.graph_name@ == prior.graph_name@
        };
    lemma_read_new_child(prior, later, parent_id, node, x, now, rid, k);
    assert(k >= 1);
}

// ---------------------------------------------------------------------------
// a deleted node
// ---------------------------------------------------------------------------

/// When no row has id `x`, the node rows give no node `x` and charge no
/// problem to `x`.
proof fn lemma_node_phase_none(rows: Seq<NodeRow>, places: Seq<PlacementRow>, x: Seq<char>, n: int)
    requires
        forall|i: int| 0 <= i < rows.len() ==> (#[trigger] rows[i]).id@ != x,
        0 <= n <= rows.len(),
    ensures
        !has_row(node_phase(rows, places, n).0, x),
        clear_of(node_phase(rows, places, n).1, x),
    decreases n,
{
    if n > 0 {
        lemma_node_phase_none(rows, places, x, n - 1);
        let prev = node_phase(rows, places, n - 1);
        let cur = node_phase(rows, places, n);
        assert(rows[n - 1].id@ != x);
        assert forall|i: int| 0 <= i < cur.1.len() implies (#[trigger] cur.1[i]).0 != x by {
            if i < prev.1.len() {
                assert(cur.1[i] == prev.1[i]);
            }
        }
        if has_row(cur.0, x) {
            let w = choose|i: int| 0 <= i < cur.0.len() && (#[trigger] cur.0[i]).id@ == x;
            if w < prev.0.len() {
                assert(cur.0[w] == prev.0[w]);
            }
        }
    }
}

/// When no placement row has node `x`, no usable placement is of `x` and
/// no placement problem is charged to `x`.
proof fn lemma_place_phase_none(rows: Seq<PlacementRow>, ids: Set<Seq<char>>, x: Seq<char>, n: int)
    requires
        forall|i: int| 0 <= i < rows.len() ==> (#[trigger] rows[i]).node_id@ != x,
        0 <= n <= rows.len(),
    ensures
        !has_place(placement_phase(rows, ids, n).0, x),
        clear_of(placement_phase(rows, ids, n).1, x),
    decreases n,
{
    if n > 0 {
        lemma_place_phase_none(rows, ids, x, n - 1);
        let prev = placement_phase(rows, ids, n - 1);
        let cur = placement_phase(rows, ids, n);
        assert(rows[n - 1].node_id@ != x);
        assert forall|i: int| 0 <= i < cur.1.len() implies (#[trigger] cur.1[i]).0 != x by {
            if i < prev.1.len() {
                assert(cur.1[i] == prev.1[i]);
            }
        }
        if has_place(cur.0, x) {
            let w = choose|i: int| 0 <= i < cur.0.len() && (#[trigger] cur.0[i]).1 == x;
            if w < prev.0.len() {
                assert(cur.0[w] == prev.0[w]);
            }
        }
    }
}

/// A node that is not in the graph is charged no canonical problem.
proof fn lemma_canonical_phase_none(rows: Seq<NodeRow>, ok: Seq<PlacementView>, x: Seq<char>, n: int)
    requires
        !has_row(rows, x),
    ensures
        clear_of(canonical_phase(rows, ok, n), x),
    decreases n,
{
    if n > 0 && n <= rows.len() {
        lemma_canonical_phase_none(rows, ok, x, n - 1);
        let prev = canonical_phase(rows, ok, n - 1);
        let cur = canonical_phase(rows, ok, n);
        assert(rows[n - 1].id@ != x);
        assert forall|i: int| 0 <= i < cur.len() implies (#[trigger] cur[i]).0 != x by {
            if i < prev.len() {
                assert(cur[i] == prev[i]);
            }
        }
    }
}

/// A node with no usable placement is charged no path problem.
proof fn lemma_child_path_none(rows: Seq<NodeRow>, ok: Seq<PlacementView>, x: Seq<char>, n: int)
    requires
        !has_place(ok, x),
    ensures
        clear_of(child_path_phase(rows, ok, n), x),
    decreases n,
{
    if n > 0 && n <= ok.len() {
        lemma_child_path_none(rows, ok, x, n - 1);
        let prev = child_path_phase(rows, ok, n - 1);
        let cur = child_path_phase(rows, ok, n);
        assert(ok[n - 1].1 != x);
        assert forall|i: int| 0 <= i < cur.len() implies (#[trigger] cur[i]).0 != x by {
            if i < prev.len() {
                assert(cur[i] == prev[i]);
            }
        }
    }
}

pub open spec fn node_row_in(rows: Seq<NodeRow>, r: NodeRow) -> bool {
    exists|m: int| 0 <= m < rows.len() && rows[m] == r
}

/// The node rows in query order are rows of the table.
proof fn lemma_query_nodes_rows(t: Tables)
    ensures
        query_nodes(t).len() == t.nodes@.len(),
        forall|i: int| 0 <= i < query_nodes(t).len() ==> node_row_in(t.nodes@, #[trigger] query_nodes(t)[i]),
{
    let rows = t.nodes@;
    let keys = rows.map_values(|r: NodeRow| crate::scan::node_row_key(r));
    assert(rows.len() <= usize::MAX) by {
        assert(t.nodes.len() == rows.len());
    }
    lemma_sorted_order_exists(keys);
    let p = sorted_by(keys);
    assert forall|i: int| 0 <= i < query_nodes(t).len() implies node_row_in(t.nodes@, #[trigger] query_nodes(t)[i]) by {
        assert((p[i] as int) < keys.len());
        assert(query_nodes(t)[i] == rows[p[i] as int]);
    }
}

/// Tables with no row of node `x` (as node or as parent) read `x` as not
/// found.
proof fn lemma_read_absent(t: Tables, x: Seq<char>)
    requires
        uuid_shape(x),
        forall|i: int| 0 <= i < t.nodes@.len() ==> (#[trigger] t.nodes@[i]).id@ != x,
        forall|i: int| 0 <= i < t.placements@.len() ==> (#[trigger] t.placements@[i]).node_id@ != x,
    ensures
        read_result(t, x) == Err::<NodeView, ErrorView>(simple_error(4, x)),
{
    let q = query_nodes(t);
    let qp = query_places(t);
    lemma_query_nodes_rows(t);
    lemma_query_places_rows(t);
    assert forall|i: int| 0 <= i < q.len() implies (#[trigger] q[i]).id@ != x by {
        assert(node_row_in(t.nodes@, q[i]));
    }
    assert forall|i: int| 0 <= i < qp.len() implies (#[trigger] qp[i]).node_id@ != x by {
        assert(row_in(t.placements@, qp[i]));
    }
    lemma_node_phase_none(q, qp, x, q.len() as int);
    lemma_place_phase_none(qp, row_ids(t.nodes@), x, qp.len() as int);
    let gn = graph_nodes(t);
    let gp = graph_places(t);
    lemma_canonical_phase_none(gn, gp, x, gn.len() as int);
    lemma_child_path_none(gn, gp, x, gp.len() as int);
    let a = node_phase(q, qp, q.len() as int).1;
    let c = placement_phase(qp, row_ids(t.nodes@), qp.len() as int).1;
    let d = canonical_phase(gn, gp, gn.len() as int);
    let e = child_path_phase(gn, gp, gp.len() as int);
    lemma_clear_concat(a, c, x);
    lemma_clear_concat(a + c, d, x);
    lemma_clear_concat(a + c + d, e, x);
    assert(node_problem_list(t) == a + c + d + e);
    lemma_clear_first(node_problem_list(t), x);
    assert(!has_node(t, x));
}

/// The rows left by dropping the nodes `d` name none of them.
proof fn lemma_drop_nodes_gone(v: Seq<crate::sqlite::NodeRowView>, d: Seq<Seq<char>>)
    ensures
        forall|i: int| 0 <= i < drop_nodes(v, d).len() ==> !d.contains((#[trigger] drop_nodes(v, d)[i]).0),
    decreases v.len(),
{
    if v.len() > 0 {
        lemma_drop_nodes_gone(v.drop_last(), d);
        let prev = drop_nodes(v.drop_last(), d);
        let cur = drop_nodes(v, d);
        assert forall|i: int| 0 <= i < cur.len() implies !d.contains((#[trigger] cur[i]).0) by {
            if i < prev.len() {
                assert(cur[i] == prev[i]);
            }
        }
    }
}

/// After `delete_node` succeeds, reading the deleted node answers that it
/// is not found.
pub proof fn law_read_after_delete(prior: IdeaGraph, later: IdeaGraph, node_id: Seq<char>, mode: DeleteMode)
    requires
        delete_node_outcome(prior, later, node_id, mode, Ok::<(), GraphError>(())),
    ensures
        read_result(later.tables, node_id) == Err::<NodeView, ErrorView>(simple_error(4, node_id)),
{
    let t = later.tables;
    let d = choose|d: Seq<Seq<char>>|
        #![trigger nodes_removed(prior.tables, later.tables, d)]
        {
            &&& nodes_removed(prior.tables, later.tables, d)
            &&& mode == DeleteMode::FailIfHasChildren ==> d == seq![node_id]
            &&& mode == DeleteMode::Recursive ==> crate::graph::delete_sound(
                graph_places(prior.tables),
                node_id,
                d,
            ) && crate::graph::delete_closed(graph_places(prior.tables), d)
        };
    assert(d.contains(node_id)) by {
        match mode {
            DeleteMode::FailIfHasChildren => {
                assert(d[0] == node_id);
            },
            DeleteMode::Recursive => {},
        }
    }
    let v = nrows(t.nodes@);
    lemma_drop_nodes_gone(nrows(prior.tables.nodes@), d);
    assert forall|i: int| 0 <= i < t.nodes@.len() implies (#[trigger] t.nodes@[i]).id@ != node_id by {
        assert(v[i] == nrow(t.nodes@[i]));
    }
    assert forall|i: int| 0 <= i < t.placements@.len() implies (#[trigger] t.placements@[i]).node_id@ != node_id by {
        assert(crate::sqlite::untouched_by(t.placements@, d));
    }
    lemma_read_absent(t, node_id);
}

// ---------------------------------------------------------------------------
// a context document whose row is rewritten in place
// ---------------------------------------------------------------------------

/// When the context rows charge no problem to `x`, at most one row has id
/// `x`, and it is valid.
proof fn lemma_context_phase_clear(rows: Seq<ContextRow>, x: Seq<char>, n: int)
    requires
        0 <= n <= rows.len(),
        clear_of(context_phase(rows, n).1, x),
    ensures
        forall|i: int, l: int| 0 <= i < l < n && (#[trigger] rows[i]).id@ == x ==> (#[trigger] rows[l]).id@ != x,
        forall|i: int| 0 <= i < n && (#[trigger] rows[i]).id@ == x ==> context_reason(rows[i]) is None,
    decreases n,
{
    if n > 0 {
        let prev = context_phase(rows, n - 1);
        let cur = context_phase(rows, n);
        let r = rows[n - 1];
        assert(clear_of(prev.1, x)) by {
            assert forall|i: int| 0 <= i < prev.1.len() implies (#[trigger] prev.1[i]).0 != x by {
                assert(cur.1[i] == prev.1[i]);
            }
        }
        lemma_context_phase_clear(rows, x, n - 1);
        if context_seen_before(rows, n - 1) {
            assert(cur.1[prev.1.len() as int].0 == r.id@);
        } else {
            match context_reason(r) {
                None => {},
                Some(m) => {
                    assert(cur.1[prev.1.len() as int].0 == r.id@);
                },
            }
        }
        assert forall|i: int, l: int| 0 <= i < l < n && (#[trigger] rows[i]).id@ == x implies (#[trigger] rows[l]).id@ != x by {
            if l == n - 1 && rows[l].id@ == x {
                assert(context_seen_before(rows, n - 1));
            }
        }
    }
}

/// A readable context document has exactly one row in the table, a valid
/// one, and is read from it.
proof fn lemma_readable_context(t: Tables, x: Seq<char>) -> (m: int)
    requires
        context_error(t, x) is None,
    ensures
        0 <= m < t.contexts@.len(),
        t.contexts@[m].id@ == x,
        forall|i: int| 0 <= i < t.contexts@.len() && i != m ==> (#[trigger] t.contexts@[i]).id@ != x,
        context_reason(t.contexts@[m]) is None,
        context_of(t, x) == context_row_view(t.contexts@[m]),
{
    let rows = t.contexts@;
    let q = query_contexts(t);
    lemma_first_none_clear(context_problem_list(t), x);
    lemma_context_phase_clear(q, x, q.len() as int);
    assert(rows.len() <= usize::MAX) by {
        assert(t.contexts.len() == rows.len());
    }
    let keys = rows.map_values(|r: ContextRow| crate::scan::context_row_key(r));
    let p = sorted_by(keys);
    lemma_sorted_order_exists(keys);
    assert(q == permuted(rows, p));
    let gc = graph_contexts(t);
    let ci = choose|i: int| 0 <= i < gc.len() && (#[trigger] gc[i]).id@ == x;
    // the row of the document, in query order and in the table
    lemma_context_phase_members(q, q.len() as int);
    let j = choose|i: int| 0 <= i < q.len() && #[trigger] gc[ci] == q[i];
    let m = p[j] as int;
    assert(q[j] == rows[m]);
    assert forall|i: int| 0 <= i < rows.len() && i != m implies (#[trigger] rows[i]).id@ != x by {
        if rows[i].id@ == x {
            lemma_permuted_once(rows, keys, i);
            let j2 = choose|j2: int| 0 <= j2 < p.len() && p[j2] as int == i && #[trigger] permuted(rows, p)[j2] == rows[i];
            assert(j2 != j);
            if j2 < j {
                assert(q[j2].id@ != x || q[j].id@ != x);
            } else {
                assert(q[j].id@ != x || q[j2].id@ != x);
            }
        }
    }
    lemma_context_phase_sole(q, x, j, q.len() as int);
    m
}

/// Every document taken is one of the rows.
proof fn lemma_context_phase_members(rows: Seq<ContextRow>, n: int)
    requires
        0 <= n <= rows.len(),
    ensures
        forall|k: int| 0 <= k < context_phase(rows, n).0.len() ==> exists|i: int| 0 <= i < n && #[trigger] context_phase(rows, n).0[k] == rows[i],
    decreases n,
{
    if n > 0 {
        lemma_context_phase_members(rows, n - 1);
        let prev = context_phase(rows, n - 1).0;
        let cur = context_phase(rows, n).0;
        assert forall|k: int| 0 <= k < cur.len() implies exists|i: int| 0 <= i < n && #[trigger] cur[k] == rows[i] by {
            if k < prev.len() {
                assert(cur[k] == prev[k]);
                let i = choose|i: int| 0 <= i < n - 1 && #[trigger] prev[k] == rows[i];
                assert(cur[k] == rows[i]);
            } else {
                assert(cur[k] == rows[n - 1]);
            }
        }
    }
}

/// A document read when its one row is the only row with its id and a
/// valid row.
proof fn lemma_read_sole_context(t: Tables, x: Seq<char>, m: int)
    requires
        uuid_shape(x),
        0 <= m < t.contexts@.len(),
        t.contexts@[m].id@ == x,
        forall|i: int| 0 <= i < t.contexts@.len() && i != m ==> (#[trigger] t.contexts@[i]).id@ != x,
        context_reason(t.contexts@[m]) is None,
    ensures
        context_error(t, x) is None,
        context_of(t, x) == context_row_view(t.contexts@[m]),
{
    let rows = t.contexts@;
    assert(rows.len() <= usize::MAX) by {
        assert(t.contexts.len() == rows.len());
    }
    let keys = rows.map_values(|r: ContextRow| crate::scan::context_row_key(r));
    lemma_permuted_once(rows, keys, m);
    let p = sorted_by(keys);
    let q = query_contexts(t);
    assert(q == permuted(rows, p));
    let j = choose|j: int| 0 <= j < p.len() && p[j] as int == m && #[trigger] permuted(rows, p)[j] == rows[m];
    assert forall|i: int| 0 <= i < q.len() && i != j implies (#[trigger] q[i]).id@ != x by {
        assert(p[i] != p[j]);
        assert(q[i] == rows[p[i] as int]);
    }
    lemma_context_phase_sole(q, x, j, q.len() as int);
    lemma_clear_first(context_problem_list(t), x);
    let gc = graph_contexts(t);
    assert(has_context(t, x));
    let ci = choose|i: int| 0 <= i < gc.len() && (#[trigger] gc[i]).id@ == x;
    assert(gc[ci] == rows[m]);
}

/// After `update_context_document` succeeds, reading the document gives
/// back exactly the document that `update_context_document` returned.
pub proof fn law_read_after_update_context(prior: IdeaGraph, later: IdeaGraph, context_id: Seq<char>, patch: ContextDocumentPatch, doc: ContextDocument)
    requires
        update_context_document_outcome(prior, later, context_id, patch, Ok::<ContextDocument, GraphError>(doc)),
    ensures
        graph_name_error(later.graph_name@) is None,
        context_error(later.tables, context_id) is None,
        context_of(later.tables, context_id) == context_view(doc),
{
    let t = prior.tables;
    let t2 = later.tables;
    let x = context_id;
    let before = context_of(t, x);
    let title = match patch.title {
        Some(s) => s@,
        None => before.1,
    };
    let markdown = match patch.markdown {
        Some(s) => s@,
        None => before.3,
    };
    let upd = doc.updated_at_unix as i64;
    let m = lemma_readable_context(t, x);
    let old = t.contexts@[m];
    let bv = crows(t.contexts@);
    let av = crows(t2.contexts@);
    assert(crate::sqlite::contexts_updated(bv, av, x, title, markdown, upd));
    assert(t2.contexts@.len() == t.contexts@.len()) by {
        assert(av.len() == bv.len());
    }
    assert forall|i: int| 0 <= i < t2.contexts@.len() && i != m implies (#[trigger] t2.contexts@[i]).id@ != x by {
        assert(bv[i] == crow(t.contexts@[i]));
        assert(av[i] == crow(t2.contexts@[i]));
    }
    let new = t2.contexts@[m];
    assert(crow(new) == (x, old.slug@, old.filename@, title, markdown, old.created_at_unix, upd)) by {
        assert(bv[m] == crow(old));
        assert(av[m] == crow(new));
    }
    assert(valid_title(title));
    assert(context_reason(new) is None) by {
        assert(context_reason(old) is None);
    }
    lemma_read_sole_context(t2, x, m);
}

// ---------------------------------------------------------------------------
// a new edge
// ---------------------------------------------------------------------------

/// A valid placement row is among the usable placements.
#[verifier::rlimit(40)]
proof fn lemma_place_phase_has(rows: Seq<PlacementRow>, ids: Set<Seq<char>>, j: int, n: int)
    requires
        0 <= j < n <= rows.len(),
        placement_reason(rows[j], ids) is None,
    ensures
        exists|k: int| 0 <= k < placement_phase(rows, ids, n).0.len() && #[trigger] placement_phase(rows, ids, n).0[k] == placement_of_row(rows[j]),
    decreases n,
{
    let prev = placement_phase(rows, ids, n - 1).0;
    let cur = placement_phase(rows, ids, n).0;
    if j < n - 1 {
        lemma_place_phase_has(rows, ids, j, n - 1);
        let k = choose|k: int| 0 <= k < prev.len() && #[trigger] prev[k] == placement_of_row(rows[j]);
        assert(cur[k] == prev[k]);
    } else {
        assert(cur[prev.len() as int] == placement_of_row(rows[j]));
    }
}

/// A valid row of the table gives a usable placement.
proof fn lemma_valid_row_placed(t: Tables, m: int)
    requires
        0 <= m < t.placements@.len(),
        placement_reason(t.placements@[m], row_ids(t.nodes@)) is None,
    ensures
        exists|k: int| 0 <= k < graph_places(t).len() && #[trigger] graph_places(t)[k] == placement_of_row(t.placements@[m]),
{
    let rows = t.placements@;
    assert(rows.len() <= usize::MAX) by {
        assert(t.placements.len() == rows.len());
    }
    let keys = rows.map_values(|r: PlacementRow| crate::scan::placement_row_key(r));
    lemma_permuted_once(rows, keys, m);
    let p = sorted_by(keys);
    let q = query_places(t);
    assert(q == permuted(rows, p));
    let j = choose|j: int| 0 <= j < p.len() && p[j] as int == m && #[trigger] permuted(rows, p)[j] == rows[m];
    lemma_place_phase_has(q, row_ids(t.nodes@), j, q.len() as int);
    let ph = placement_phase(q, row_ids(t.nodes@), q.len() as int).0;
    let k = choose|k: int| 0 <= k < ph.len() && #[trigger] ph[k] == placement_of_row(q[j]);
    assert(graph_places(t)[k] == placement_of_row(rows[m]));
}

proof fn lemma_same_row_ids(a: Seq<NodeRow>, b: Seq<NodeRow>)
    requires
        nrows(a) == nrows(b),
    ensures
        row_ids(a) == row_ids(b),
{
    assert(nrows(a).len() == nrows(b).len());
    assert(nrows(a).len() == a.len() && nrows(b).len() == b.len());
    assert forall|i: int| 0 <= i < a.len() implies (#[trigger] a[i]).id@ == b[i].id@ by {
        assert(nrows(a)[i] == nrow(a[i]));
        assert(nrows(b)[i] == nrow(b[i]));
    }
    assert forall|id: Seq<char>| row_ids(a).contains(id) implies row_ids(b).contains(id) by {
        let m = choose|m: int| 0 <= m < a.len() && (#[trigger] a[m]).id@ == id;
        assert(b[m].id@ == id);
    }
    assert forall|id: Seq<char>| row_ids(b).contains(id) implies row_ids(a).contains(id) by {
        let m = choose|m: int| 0 <= m < b.len() && (#[trigger] b[m]).id@ == id;
        assert(a[m].id@ == id);
    }
    assert(row_ids(a) =~= row_ids(b));
}

/// After `link_existing_node` succeeds, the graph has the edge from the
/// parent to the child: it was there, the child's root entry moved under
/// the parent, or the child got an alias entry under the parent.
#[verifier::rlimit(40)]
pub proof fn law_link_makes_edge(prior: IdeaGraph, later: IdeaGraph, parent_id: Seq<char>, child_id: Seq<char>)
    requires
        link_existing_node_outcome(prior, later, parent_id, child_id, Ok::<(), GraphError>(())),
    ensures
        has_edge(graph_places(later.tables), parent_id, child_id),
{
    let t = prior.tables;
    let t2 = later.tables;
    let p = parent_id;
    let c = child_id;
    let child_title = graph_nodes(t)[node_index_of(t, c)].title@;
    let container = canon(t, p)[0].3 + "/children"@;
    assert(link_error(prior, p, c) is None);
    if !has_edge(graph_places(t), p, c) {
        assert(node_error(t, p) is None);
        assert(node_error(t, c) is None);
        lemma_same_row_ids(t2.nodes@, t.nodes@);
        let ids = row_ids(t.nodes@);
        lemma_canonical_path_checks(t, p);
        lemma_canonical_path_checks(t, c);
        let pp = canon(t, p)[0].3;
        if link_moves(t, c) {
            let k = choose|k: nat|
                first_free(t.placements@, t.reserved@, container, slug_of(child_title), c, k) && entry_moved(
                    t.placements@,
                    t2.placements@,
                    canon(t, c)[0].0,
                    Some(p),
                    suffixed_slug(slug_of(child_title), k),
                    canon(t, c)[0].3,
                    entry_path(container, suffixed_slug(slug_of(child_title), k), c),
                );
            let slug = suffixed_slug(slug_of(child_title), k);
            let qp = query_places(t);
            let i = choose|i: int|
                0 <= i < qp.len() && placement_reason(qp[i], ids) is None && #[trigger] placement_of_row(qp[i]) == canon(t, c)[0];
            lemma_query_places_rows(t);
            assert(row_in(t.placements@, qp[i]));
            let m = choose|m: int| 0 <= m < t.placements@.len() && t.placements@[m] == qp[i];
            let b = t.placements@[m];
            let a = t2.placements@[m];
            assert(entry_moved(
                t.placements@,
                t2.placements@,
                canon(t, c)[0].0,
                Some(p),
                slug,
                canon(t, c)[0].3,
                entry_path(container, slug, c),
            ));
            assert(b.row_id == canon(t, c)[0].0);
            assert(a.logical_path@ == moved_path(b.logical_path@, canon(t, c)[0].3, entry_path(container, slug, c)));
            assert(a.logical_path@ == entry_path(container, slug, c));
            lemma_slug_plain(child_title, k);
            lemma_child_path_checks(pp, p, slug, c);
            assert(placement_reason(a, row_ids(t2.nodes@)) is None);
            lemma_valid_row_placed(t2, m);
            let w = choose|w: int| 0 <= w < graph_places(t2).len() && #[trigger] graph_places(t2)[w] == placement_of_row(a);
            assert(graph_places(t2)[w].2 == Some(p) && graph_places(t2)[w].1 == c);
        } else {
            let (rid, k) = choose|rid: i64, k: nat|
                #![trigger first_free(t.placements@, t.reserved@, container, slug_of(child_title), c, k), fresh_row_id(t.placements@, rid)]
                {
                    &&& rid >= 1
                    &&& fresh_row_id(t.placements@, rid)
                    &&& first_free(t.placements@, t.reserved@, container, slug_of(child_title), c, k)
                    &&& prows(t2.placements@) == prows(t.placements@).push(
                        (
                            rid,
                            c,
                            Some(p),
                            suffixed_slug(slug_of(child_title), k),
                            entry_path(container, suffixed_slug(slug_of(child_title), k), c),
                            0,
                        ),
                    )
                };
            let slug = suffixed_slug(slug_of(child_title), k);
            let l = t.placements@.len() as int;
            assert(prows(t2.placements@).len() == l + 1);
            assert(prows(t2.placements@)[l] == prow(t2.placements@[l]));
            let a = t2.placements@[l];
            lemma_slug_plain(child_title, k);
            lemma_child_path_checks(pp, p, slug, c);
            assert(placement_reason(a, row_ids(t2.nodes@)) is None);
            lemma_valid_row_placed(t2, l);
            let w = choose|w: int| 0 <= w < graph_places(t2).len() && #[trigger] graph_places(t2)[w] == placement_of_row(a);
            assert(graph_places(t2)[w].2 == Some(p) && graph_places(t2)[w].1 == c);
        }
    }
}

/// Linking a node under itself, or under a node that it already reaches by
/// child edges, is refused as a cycle and leaves the graph as it was: the
/// parent → child relation stays acyclic.
pub proof fn law_link_refuses_cycles(
    prior: IdeaGraph,
    later: IdeaGraph,
    parent_id: Seq<char>,
    child_id: Seq<char>,
    r: Result<(), GraphError>,
)
    requires
        link_existing_node_outcome(prior, later, parent_id, child_id, r),
        uuid_shape(parent_id),
        uuid_shape(child_id),
        graph_name_error(prior.graph_name@) is None,
        crate::graph::parent_error(prior.tables, parent_id) is None,
        crate::graph::child_error(prior.tables, child_id) is None,
        parent_id == child_id || (!has_edge(graph_places(prior.tables), parent_id, child_id)
            && crate::scan::reaches(graph_places(prior.tables), child_id, parent_id)),
    ensures
        r matches Err(e) && crate::graph::error_view(e) == simple_error(18, Seq::empty()),
        later == prior,
{
    assert(link_error(prior, parent_id, child_id) == Some(simple_error(18, Seq::<char>::empty())));
}

/// A depth-limited walk misses nothing within its limit: every node other
/// than the start that a walk of listed nodes reaches from the start in at
/// most `max_depth` steps (any number of steps when there is no limit) is
/// in the list that `list_descendants` / `list_ancestors` return.
pub proof fn law_traversal_lists_every_node_within_limit(
    graph: IdeaGraph,
    node_id: Seq<char>,
    options: crate::model::TraversalOptions,
    dir: crate::graph::Direction,
    v: Vec<crate::model::NodeSummary>,
    w: Seq<Seq<char>>,
)
    requires
        crate::sqlite::traverse_outcome(graph, node_id, options, dir, Ok(v)),
        crate::graph::is_listed_walk(graph.tables, w, dir),
        w[0] == node_id,
        w.last() != node_id,
        crate::graph::within((w.len() - 1) as nat, options.max_depth),
    ensures
        crate::graph::in_summaries(v@, w.last()),
{
}

/// The move that promoted `x`, and that no other move touches a path within
/// the old canonical path of `x`, before or after it.
proof fn lemma_promotion_move(
    t: Tables,
    after: Seq<PlacementRow>,
    d: Seq<Seq<char>>,
    m: Seq<(Seq<char>, Seq<char>)>,
    f: Seq<i64>,
    x: Seq<char>,
    a: int,
    z: int,
    p: Seq<char>,
) -> (i: int)
    requires
        crate::sqlite::promotions_made(t, d, m, f),
        crate::sqlite::rows_traced(t.placements@, after, m, f),
        crate::subtree_moves::promotion_seen(t, after, x, a, z),
        crate::paths::path_within(p, canon(t, x)[0].3),
    ensures
        0 <= i < m.len(),
        m[i] == (canon(t, x)[0].3, t.placements@[a].logical_path@),
        forall|k: int| 0 <= k < i ==> !crate::paths::path_within(p, #[trigger] m[k].0),
        forall|k: int| i < k < m.len() ==> !crate::paths::path_within(moved_path(p, m[i].0, m[i].1), #[trigger] m[k].0),
{
    let rows = t.placements@;
    let dp = crate::sqlite::deleted_paths(t, d, d.len() as int);
    assert(crate::sqlite::traced_in(rows, after[z], m, f));
    let ya = choose|ya: int| 0 <= ya < rows.len() && crate::sqlite::traced_from(after[z], rows[ya], m, f);
    assert(ya == a) by {
        if ya != a {
            assert(rows[ya].row_id != rows[a].row_id);
        }
    }
    assert(f.contains(after[z].row_id));
    let i = choose|i: int| 0 <= i < f.len() && f[i] == after[z].row_id;
    assert(crate::sqlite::promotion_made(t, d, dp, m[i], f[i]));
    let (x2, y3) = choose|x2: Seq<char>, y3: int|
        {
            &&& #[trigger] crate::sqlite::promoted_by_delete(t, d, x2)
            &&& m[i].0 == canon(t, x2)[0].3
            &&& 0 <= y3 < t.placements@.len()
            &&& #[trigger] t.placements@[y3].row_id == f[i]
            &&& t.placements@[y3].node_id@ == x2
            &&& t.placements@[y3].logical_path@ == m[i].1
            &&& t.placements@[y3].is_canonical != 1
            &&& !crate::paths::within_any(m[i].1, dp)
        };
    assert(y3 == a) by {
        if y3 != a {
            assert(rows[y3].row_id != rows[a].row_id);
        }
    }
    let op = canon(t, x)[0].3;
    let ap = rows[a].logical_path@;
    assert(m[i] == (op, ap));
    // no earlier move holds the path
    assert forall|k: int| 0 <= k < i implies !crate::paths::path_within(p, #[trigger] m[k].0) by {
        if crate::paths::path_within(p, m[k].0) {
            crate::subtree_moves::lemma_within_comparable(p, op, m[k].0);
            assert(!crate::paths::path_within(m[i].0, m[k].0));
            crate::subtree_moves::lemma_slash_below(m[k].0, op);
            assert(crate::sqlite::promotion_made(t, d, dp, m[k], f[k]));
            let xk = choose|xk: Seq<char>, yk: int|
                {
                    &&& #[trigger] crate::sqlite::promoted_by_delete(t, d, xk)
                    &&& m[k].0 == canon(t, xk)[0].3
                    &&& 0 <= yk < t.placements@.len()
                    &&& #[trigger] t.placements@[yk].row_id == f[k]
                    &&& t.placements@[yk].node_id@ == xk
                    &&& t.placements@[yk].logical_path@ == m[k].1
                    &&& t.placements@[yk].is_canonical != 1
                    &&& !crate::paths::within_any(m[k].1, dp)
                };
            assert(canon(t, xk.0).len() > 0);
            assert(crate::sqlite::capped_depth(m[k].0) <= crate::sqlite::capped_depth(m[i].0));
        }
    }
    // no later move holds it once moved
    let q = moved_path(p, op, ap);
    crate::subtree_moves::lemma_moved_within(p, op, ap);
    assert forall|k: int| i < k < m.len() implies !crate::paths::path_within(moved_path(p, m[i].0, m[i].1), #[trigger] m[k].0) by {
        if crate::paths::path_within(q, m[k].0) {
            crate::subtree_moves::lemma_within_comparable(q, ap, m[k].0);
            assert(crate::sqlite::promotion_made(t, d, dp, m[k], f[k]));
            let xk = choose|xk: Seq<char>, yk: int|
                {
                    &&& #[trigger] crate::sqlite::promoted_by_delete(t, d, xk)
                    &&& m[k].0 == canon(t, xk)[0].3
                    &&& 0 <= yk < t.placements@.len()
                    &&& #[trigger] t.placements@[yk].row_id == f[k]
                    &&& t.placements@[yk].node_id@ == xk
                    &&& t.placements@[yk].logical_path@ == m[k].1
                    &&& t.placements@[yk].is_canonical != 1
                    &&& !crate::paths::within_any(m[k].1, dp)
                };
            assert(crate::paths::within_any(m[k].0, dp));
            let jd = choose|jd: int| 0 <= jd < dp.len() && crate::paths::path_within(m[k].0, #[trigger] dp[jd]);
            if crate::paths::path_within(ap, m[k].0) {
                crate::subtree_moves::lemma_within_trans(ap, m[k].0, dp[jd]);
                assert(crate::paths::within_any(ap, dp));
            } else {
                assert(canon(t, xk.0).len() > 0);
            }
        }
    }
    i
}

/// A recursive delete that hands a surviving node's canonical entry to one
/// of its alias entries moves the node's whole subtree with it: every entry
/// that lay at or below the node's old canonical path lies afterwards at the
/// same place below the alias path, the entry otherwise unchanged. (See
/// `promotion_seen` for the premises on the table.)
pub proof fn law_delete_moves_promoted_subtree(
    prior: IdeaGraph,
    later: IdeaGraph,
    node_id: Seq<char>,
    x: Seq<char>,
    a: int,
    z: int,
    y: int,
    y2: int,
)
    requires
        delete_node_outcome(prior, later, node_id, DeleteMode::Recursive, Ok(())),
        crate::subtree_moves::promotion_seen(prior.tables, later.tables.placements@, x, a, z),
        0 <= y < prior.tables.placements@.len(),
        crate::paths::path_within(prior.tables.placements@[y].logical_path@, canon(prior.tables, x)[0].3),
        0 <= y2 < later.tables.placements@.len(),
        later.tables.placements@[y2].row_id == prior.tables.placements@[y].row_id,
    ensures
        later.tables.placements@[y2].logical_path@ == moved_path(
            prior.tables.placements@[y].logical_path@,
            canon(prior.tables, x)[0].3,
            prior.tables.placements@[a].logical_path@,
        ),
        crate::sqlite::row_core(later.tables.placements@[y2]) == crate::sqlite::row_core(prior.tables.placements@[y]),
{
    let t = prior.tables;
    let rows = t.placements@;
    let after = later.tables.placements@;
    let d = choose|d: Seq<Seq<char>>|
        #![trigger nodes_removed(prior.tables, later.tables, d)]
        {
            &&& nodes_removed(prior.tables, later.tables, d)
            &&& DeleteMode::Recursive == DeleteMode::FailIfHasChildren ==> d == seq![node_id]
            &&& DeleteMode::Recursive == DeleteMode::Recursive ==> crate::graph::delete_sound(
                graph_places(prior.tables),
                node_id,
                d,
            ) && crate::graph::delete_closed(graph_places(prior.tables), d)
        };
    assert(nodes_removed(t, later.tables, d));
    let (m, f) = choose|m: Seq<(Seq<char>, Seq<char>)>, f: Seq<i64>|
        #[trigger] crate::sqlite::promotions_made(t, d, m, f) && crate::sqlite::rows_traced(rows, after, m, f);
    let p = rows[y].logical_path@;
    let i = lemma_promotion_move(t, after, d, m, f, x, a, z, p);
    // the entry `y2` comes from the entry `y`
    assert(crate::sqlite::traced_in(rows, after[y2], m, f));
    let yy = choose|yy: int| 0 <= yy < rows.len() && crate::sqlite::traced_from(after[y2], rows[yy], m, f);
    assert(yy == y) by {
        if yy != y {
            assert(rows[yy].row_id != rows[y].row_id);
        }
    }
    crate::subtree_moves::lemma_apply_one_move(p, m, i, m.len() as int);
}

/// A recursive delete keeps the promoted node's subtree: every entry strictly
/// below the node's old canonical path whose node (and parent, if any) is
/// still a node afterwards is still there, at the same place below the alias
/// path, and otherwise unchanged.
pub proof fn law_delete_keeps_promoted_subtree(
    prior: IdeaGraph,
    later: IdeaGraph,
    node_id: Seq<char>,
    x: Seq<char>,
    a: int,
    z: int,
    y: int,
)
    requires
        delete_node_outcome(prior, later, node_id, DeleteMode::Recursive, Ok(())),
        crate::subtree_moves::promotion_seen(prior.tables, later.tables.placements@, x, a, z),
        0 <= y < prior.tables.placements@.len(),
        crate::text::has_prefix(prior.tables.placements@[y].logical_path@, canon(prior.tables, x)[0].3.push('/')),
        exists|k: int|
            0 <= k < later.tables.nodes@.len() && (#[trigger] later.tables.nodes@[k]).id@
                == prior.tables.placements@[y].node_id@,
        prior.tables.placements@[y].parent_id matches Some(pp) ==> exists|k: int|
            0 <= k < later.tables.nodes@.len() && (#[trigger] later.tables.nodes@[k]).id@ == pp@,
    ensures
        exists|y2: int|
            0 <= y2 < later.tables.placements@.len() && #[trigger] crate::sqlite::row_core(later.tables.placements@[y2])
                == crate::sqlite::row_core(prior.tables.placements@[y]) && later.tables.placements@[y2].logical_path@
                == moved_path(
                prior.tables.placements@[y].logical_path@,
                canon(prior.tables, x)[0].3,
                prior.tables.placements@[a].logical_path@,
            ),
{
    let t = prior.tables;
    let rows = t.placements@;
    let after = later.tables.placements@;
    let d = choose|d: Seq<Seq<char>>|
        #![trigger nodes_removed(prior.tables, later.tables, d)]
        {
            &&& nodes_removed(prior.tables, later.tables, d)
            &&& DeleteMode::Recursive == DeleteMode::FailIfHasChildren ==> d == seq![node_id]
            &&& DeleteMode::Recursive == DeleteMode::Recursive ==> crate::graph::delete_sound(
                graph_places(prior.tables),
                node_id,
                d,
            ) && crate::graph::delete_closed(graph_places(prior.tables), d)
        };
    assert(nodes_removed(t, later.tables, d));
    let (m, f) = choose|m: Seq<(Seq<char>, Seq<char>)>, f: Seq<i64>|
        #[trigger] crate::sqlite::promotions_made(t, d, m, f) && crate::sqlite::rows_traced(rows, after, m, f)
            && crate::sqlite::flags_set(after, f) && crate::sqlite::rows_survive(rows, after, d, m);
    let p = rows[y].logical_path@;
    let op = canon(t, x)[0].3;
    let i = lemma_promotion_move(t, after, d, m, f, x, a, z, p);
    // the entry names no deleted node
    let later_rows = nrows(later.tables.nodes@);
    lemma_drop_nodes_gone(nrows(t.nodes@), d);
    let k = choose|k: int| 0 <= k < later.tables.nodes@.len() && (#[trigger] later.tables.nodes@[k]).id@ == rows[y].node_id@;
    assert(later_rows[k].0 == rows[y].node_id@);
    if rows[y].parent_id is Some {
        let pp = rows[y].parent_id->0;
        let k2 = choose|k2: int| 0 <= k2 < later.tables.nodes@.len() && (#[trigger] later.tables.nodes@[k2]).id@ == pp@;
        assert(later_rows[k2].0 == pp@);
    }
    assert(!crate::sqlite::touches(rows[y], d));
    // and is not a canonical row a promotion replaced
    assert(p != op);
    if crate::sqlite::replaced_by_move(rows[y], m) {
        let c = choose|c: int| 0 <= c < m.len() && (#[trigger] m[c]).0 == p;
        if c < i {
            assert(!crate::paths::path_within(p, m[c].0));
        } else if c > i {
            assert(!crate::paths::path_within(m[c].0, m[i].0));
        }
    }
    assert(crate::sqlite::unique_row_id(rows, y));
    assert(crate::sqlite::core_in(after, crate::sqlite::row_core(rows[y])));
    let y2 = choose|y2: int| 0 <= y2 < after.len() && crate::sqlite::row_core(after[y2]) == crate::sqlite::row_core(rows[y]);
    law_delete_moves_promoted_subtree(prior, later, node_id, x, a, z, y, y2);
}

} // verus!
