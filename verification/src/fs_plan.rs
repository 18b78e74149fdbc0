//! What writing a filesystem graph back takes: from the rows that were read
//! and the rows after an operation, the list of directory, file and link
//! changes, in the order they are to be made.
use vstd::prelude::*;

use crate::order::{key_views, permuted, sort_order, sorted_by, KeyView, SortKey};
use crate::paths::{path_order_chars, path_order_key};
use crate::scan::str_same;
use crate::sqlite::{crow, nrow};
use crate::store::{opt_view, ContextRow, NodeRow, PlacementRow, Tables};

verus! {

/// One change to a graph's directory tree. Paths are logical paths under
/// the graph root.
#[derive(Debug)]
pub enum FsAction {
    /// Remove the alias link at the path (only if it is a link).
    RemoveLink(String),
    /// Rename a node directory, with everything in it.
    MoveDir(String, String),
    /// Remove a node directory and everything in it (not following links).
    RemoveDir(String),
    /// Make sure the node directory and its `children/` exist, and write the
    /// node's `node.md` from node row `node` when `changed` (or when it is
    /// missing).
    PlaceNode { dir: String, node: usize, changed: bool },
    /// Make the alias link at `path` lead to the node directory `target`.
    MakeLink { path: String, target: String },
    /// Remove the context file with this name.
    RemoveContext(String),
    /// Write context document row `context`.
    WriteContext(usize),
}

/// An action as plain values: its kind (in the order of the variants), two
/// paths, a row index and a flag.
pub type ActionView = (nat, Seq<char>, Seq<char>, int, bool);

pub open spec fn action_view(a: FsAction) -> ActionView {
    match a {
        FsAction::RemoveLink(p) => (0, p@, Seq::empty(), 0, false),
        FsAction::MoveDir(f, t) => (1, f@, t@, 0, false),
        FsAction::RemoveDir(p) => (2, p@, Seq::empty(), 0, false),
        FsAction::PlaceNode { dir, node, changed } => (3, dir@, Seq::empty(), node as int, changed),
        FsAction::MakeLink { path, target } => (4, path@, target@, 0, false),
        FsAction::RemoveContext(f) => (5, f@, Seq::empty(), 0, false),
        FsAction::WriteContext(i) => (6, Seq::empty(), Seq::empty(), i as int, false),
    }
}

pub open spec fn actions_view(v: Seq<FsAction>) -> Seq<ActionView> {
    v.map_values(|a: FsAction| action_view(a))
}

// ---------------------------------------------------------------------------
// the rows compared
// ---------------------------------------------------------------------------

/// The first of the first `n` rows that is the canonical placement of `id`.
pub open spec fn canonical_index(ps: Seq<PlacementRow>, id: Seq<char>, n: int) -> Option<int>
    decreases n,
{
    if n <= 0 {
        None
    } else {
        match canonical_index(ps, id, n - 1) {
            Some(i) => Some(i),
            None => if ps[n - 1].node_id@ == id && ps[n - 1].is_canonical == 1 {
                Some(n - 1)
            } else {
                None
            },
        }
    }
}

/// The canonical placement of `id` among all the rows.
pub open spec fn canonical_of(ps: Seq<PlacementRow>, id: Seq<char>) -> Option<int> {
    canonical_index(ps, id, ps.len() as int)
}

/// The first node row with id `id`.
pub open spec fn node_index(ns: Seq<NodeRow>, id: Seq<char>, n: int) -> Option<int>
    decreases n,
{
    if n <= 0 {
        None
    } else {
        match node_index(ns, id, n - 1) {
            Some(i) => Some(i),
            None => if ns[n - 1].id@ == id {
                Some(n - 1)
            } else {
                None
            },
        }
    }
}

/// Row `r` of the alias kind is still there, at its path and for its node.
pub open spec fn alias_kept(after: Seq<PlacementRow>, r: PlacementRow) -> bool {
    exists|j: int|
        0 <= j < after.len() && (#[trigger] after[j]).is_canonical != 1 && after[j].logical_path@ == r.logical_path@
            && after[j].node_id@ == r.node_id@
}

/// The canonical row `i` is its node's own (the first canonical row of it).
pub open spec fn own_canonical(ps: Seq<PlacementRow>, i: int) -> bool {
    ps[i].is_canonical == 1 && canonical_of(ps, ps[i].node_id@) == Some(i)
}

// ---------------------------------------------------------------------------
// the plan, part by part
// ---------------------------------------------------------------------------

/// Links of alias rows that are gone, in the order of the old rows.
pub open spec fn link_removals(before: Seq<PlacementRow>, after: Seq<PlacementRow>, n: int) -> Seq<ActionView>
    decreases n,
{
    if n <= 0 {
        Seq::empty()
    } else if before[n - 1].is_canonical != 1 && !alias_kept(after, before[n - 1]) {
        link_removals(before, after, n - 1).push((0, before[n - 1].logical_path@, Seq::empty(), 0, false))
    } else {
        link_removals(before, after, n - 1)
    }
}

/// Node directories whose canonical path changed, old path then new, in the
/// order of the old rows.
pub open spec fn moves(before: Seq<PlacementRow>, after: Seq<PlacementRow>, n: int) -> Seq<(Seq<char>, Seq<char>)>
    decreases n,
{
    if n <= 0 {
        Seq::empty()
    } else if own_canonical(before, n - 1) && canonical_of(after, before[n - 1].node_id@) is Some
        && after[canonical_of(after, before[n - 1].node_id@)->0].logical_path@ != before[n - 1].logical_path@ {
        moves(before, after, n - 1).push(
            (before[n - 1].logical_path@, after[canonical_of(after, before[n - 1].node_id@)->0].logical_path@),
        )
    } else {
        moves(before, after, n - 1)
    }
}

/// A move sorts by its old path, component by component: a directory
/// before anything inside it.
pub open spec fn move_keys(m: Seq<(Seq<char>, Seq<char>)>) -> Seq<KeyView> {
    m.map_values(|x: (Seq<char>, Seq<char>)| (path_order_key(x.0), Seq::<char>::empty(), Seq::<char>::empty(), 0int))
}

pub open spec fn move_actions(m: Seq<(Seq<char>, Seq<char>)>) -> Seq<ActionView> {
    m.map_values(|x: (Seq<char>, Seq<char>)| (1nat, x.0, x.1, 0int, false))
}

/// Directories of nodes that have no canonical entry any more.
pub open spec fn dir_removals(before: Seq<PlacementRow>, after: Seq<PlacementRow>, n: int) -> Seq<ActionView>
    decreases n,
{
    if n <= 0 {
        Seq::empty()
    } else if own_canonical(before, n - 1) && canonical_of(after, before[n - 1].node_id@) is None {
        dir_removals(before, after, n - 1).push((2, before[n - 1].logical_path@, Seq::empty(), 0, false))
    } else {
        dir_removals(before, after, n - 1)
    }
}

/// Node `id` reads as before: an equal row was there, at the same canonical
/// path.
pub open spec fn node_unchanged(before: Tables, row: NodeRow, path: Seq<char>) -> bool {
    &&& exists|k: int| 0 <= k < before.nodes@.len() && nrow(#[trigger] before.nodes@[k]) == nrow(row)
    &&& canonical_of(before.placements@, row.id@) is Some
    &&& before.placements@[canonical_of(before.placements@, row.id@)->0].logical_path@ == path
}

/// The node directories of the new rows, each with its node row.
pub open spec fn node_places(before: Tables, after: Tables, n: int) -> Seq<ActionView>
    decreases n,
{
    let ps = after.placements@;
    if n <= 0 {
        Seq::empty()
    } else if own_canonical(ps, n - 1) && node_index(after.nodes@, ps[n - 1].node_id@, after.nodes@.len() as int) is Some {
        let k = node_index(after.nodes@, ps[n - 1].node_id@, after.nodes@.len() as int)->0;
        node_places(before, after, n - 1).push(
            (3, ps[n - 1].logical_path@, Seq::empty(), k, !node_unchanged(before, after.nodes@[k], ps[n - 1].logical_path@)),
        )
    } else {
        node_places(before, after, n - 1)
    }
}

/// The alias links of the new rows, each to its node's directory.
pub open spec fn links(after: Seq<PlacementRow>, n: int) -> Seq<ActionView>
    decreases n,
{
    if n <= 0 {
        Seq::empty()
    } else if after[n - 1].is_canonical != 1 && canonical_of(after, after[n - 1].node_id@) is Some {
        links(after, n - 1).push(
            (4, after[n - 1].logical_path@, after[canonical_of(after, after[n - 1].node_id@)->0].logical_path@, 0, false),
        )
    } else {
        links(after, n - 1)
    }
}

/// Context files whose name no new row has.
pub open spec fn context_removals(before: Seq<ContextRow>, after: Seq<ContextRow>, n: int) -> Seq<ActionView>
    decreases n,
{
    if n <= 0 {
        Seq::empty()
    } else if !(exists|j: int| 0 <= j < after.len() && (#[trigger] after[j]).filename@ == before[n - 1].filename@) {
        context_removals(before, after, n - 1).push((5, before[n - 1].filename@, Seq::empty(), 0, false))
    } else {
        context_removals(before, after, n - 1)
    }
}

/// Context rows that are new or changed.
pub open spec fn context_writes(before: Seq<ContextRow>, after: Seq<ContextRow>, n: int) -> Seq<ActionView>
    decreases n,
{
    if n <= 0 {
        Seq::empty()
    } else if !(exists|j: int| 0 <= j < before.len() && crow(#[trigger] before[j]) == crow(after[n - 1])) {
        context_writes(before, after, n - 1).push((6, Seq::empty(), Seq::empty(), n - 1, false))
    } else {
        context_writes(before, after, n - 1)
    }
}

/// The whole plan: gone links removed, moved directories renamed (outer
/// first), gone directories removed, node directories placed, links made,
/// context files removed and written.
pub open spec fn write_plan_of(before: Tables, after: Tables) -> Seq<ActionView> {
    let b = before.placements@;
    let a = after.placements@;
    let m = moves(b, a, b.len() as int);
    link_removals(b, a, b.len() as int) + move_actions(permuted(m, sorted_by(move_keys(m)))) + dir_removals(
        b,
        a,
        b.len() as int,
    ) + node_places(before, after, a.len() as int) + links(a, a.len() as int) + context_removals(
        before.contexts@,
        after.contexts@,
        before.contexts@.len() as int,
    ) + context_writes(before.contexts@, after.contexts@, after.contexts@.len() as int)
}

// ---------------------------------------------------------------------------
// computing it
// ---------------------------------------------------------------------------

fn find_canonical(ps: &Vec<PlacementRow>, id: &String) -> (r: Option<usize>)
    ensures
        match r {
            Some(i) => canonical_of(ps@, id@) == Some(i as int) && i < ps.len(),
            None => canonical_of(ps@, id@) is None,
        },
{
    let mut i: usize = 0;
    while i < ps.len()
        invariant
            i <= ps.len(),
            canonical_index(ps@, id@, i as int) is None,
        decreases ps.len() - i,
    {
        if ps[i].is_canonical == 1 && str_same(&ps[i].node_id, id) {
            proof {
                lemma_canonical_found(ps@, id@, i as int, ps@.len() as int);
            }
            return Some(i);
        }
        i += 1;
    }
    None
}

proof fn lemma_canonical_found(ps: Seq<PlacementRow>, id: Seq<char>, i: int, n: int)
    requires
        0 <= i < n <= ps.len(),
        canonical_index(ps, id, i) is None,
        ps[i].node_id@ == id && ps[i].is_canonical == 1,
    ensures
        canonical_index(ps, id, n) == Some(i),
    decreases n,
{
    if n > i + 1 {
        lemma_canonical_found(ps, id, i, n - 1);
    }
}

proof fn lemma_node_found(ns: Seq<NodeRow>, id: Seq<char>, i: int, n: int)
    requires
        0 <= i < n <= ns.len(),
        node_index(ns, id, i) is None,
        ns[i].id@ == id,
    ensures
        node_index(ns, id, n) == Some(i),
    decreases n,
{
    if n > i + 1 {
        lemma_node_found(ns, id, i, n - 1);
    }
}

fn find_node_row(ns: &Vec<NodeRow>, id: &String) -> (r: Option<usize>)
    ensures
        match r {
            Some(i) => node_index(ns@, id@, ns@.len() as int) == Some(i as int) && i < ns.len(),
            None => node_index(ns@, id@, ns@.len() as int) is None,
        },
{
    let mut i: usize = 0;
    while i < ns.len()
        invariant
            i <= ns.len(),
            node_index(ns@, id@, i as int) is None,
        decreases ns.len() - i,
    {
        if str_same(&ns[i].id, id) {
            proof {
                lemma_node_found(ns@, id@, i as int, ns@.len() as int);
            }
            return Some(i);
        }
        i += 1;
    }
    None
}

fn opt_same(a: &Option<String>, b: &Option<String>) -> (r: bool)
    ensures
        r == (opt_view(*a) == opt_view(*b)),
{
    match (a, b) {
        (Some(x), Some(y)) => str_same(x, y),
        (None, None) => true,
        _ => false,
    }
}

fn node_rows_same(a: &NodeRow, b: &NodeRow) -> (r: bool)
    ensures
        r == (nrow(*a) == nrow(*b)),
{
    str_same(&a.id, &b.id) && str_same(&a.kind, &b.kind) && str_same(&a.title, &b.title) && opt_same(
        &a.statement_body,
        &b.statement_body,
    ) && opt_same(&a.qa_question, &b.qa_question) && opt_same(&a.qa_answer, &b.qa_answer) && a.created_at_unix
        == b.created_at_unix && a.updated_at_unix == b.updated_at_unix && a.reviewed == b.reviewed
}

fn context_rows_same(a: &ContextRow, b: &ContextRow) -> (r: bool)
    ensures
        r == (crow(*a) == crow(*b)),
{
    str_same(&a.id, &b.id) && str_same(&a.slug, &b.slug) && str_same(&a.filename, &b.filename) && str_same(
        &a.title,
        &b.title,
    ) && str_same(&a.markdown, &b.markdown) && a.created_at_unix == b.created_at_unix && a.updated_at_unix
        == b.updated_at_unix
}

fn push_action(v: &mut Vec<FsAction>, a: FsAction)
    ensures
        actions_view(final(v)@) == actions_view(old(v)@).push(action_view(a)),
{
    let ghost before = v@;
    v.push(a);
    assert(actions_view(v@) =~= actions_view(before).push(action_view(a)));
}

fn alias_is_kept(after: &Vec<PlacementRow>, r: &PlacementRow) -> (b: bool)
    ensures
        b == alias_kept(after@, *r),
{
    let mut j: usize = 0;
    while j < after.len()
        invariant
            j <= after.len(),
            forall|k: int|
                0 <= k < j ==> !((#[trigger] after@[k]).is_canonical != 1 && after@[k].logical_path@ == r.logical_path@
                    && after@[k].node_id@ == r.node_id@),
        decreases after.len() - j,
    {
        if after[j].is_canonical != 1 && str_same(&after[j].logical_path, &r.logical_path) && str_same(
            &after[j].node_id,
            &r.node_id,
        ) {
            return true;
        }
        j += 1;
    }
    false
}

fn has_equal_node(ns: &Vec<NodeRow>, row: &NodeRow) -> (b: bool)
    ensures
        b == exists|k: int| 0 <= k < ns@.len() && nrow(#[trigger] ns@[k]) == nrow(*row),
{
    let mut j: usize = 0;
    while j < ns.len()
        invariant
            j <= ns.len(),
            forall|k: int| 0 <= k < j ==> nrow(#[trigger] ns@[k]) != nrow(*row),
        decreases ns.len() - j,
    {
        if node_rows_same(&ns[j], row) {
            return true;
        }
        j += 1;
    }
    false
}

fn has_filename(cs: &Vec<ContextRow>, f: &String) -> (b: bool)
    ensures
        b == exists|j: int| 0 <= j < cs@.len() && (#[trigger] cs@[j]).filename@ == f@,
{
    let mut j: usize = 0;
    while j < cs.len()
        invariant
            j <= cs.len(),
            forall|k: int| 0 <= k < j ==> (#[trigger] cs@[k]).filename@ != f@,
        decreases cs.len() - j,
    {
        if str_same(&cs[j].filename, f) {
            return true;
        }
        j += 1;
    }
    false
}

fn has_equal_context(cs: &Vec<ContextRow>, c: &ContextRow) -> (b: bool)
    ensures
        b == exists|j: int| 0 <= j < cs@.len() && crow(#[trigger] cs@[j]) == crow(*c),
{
    let mut j: usize = 0;
    while j < cs.len()
        invariant
            j <= cs.len(),
            forall|k: int| 0 <= k < j ==> crow(#[trigger] cs@[k]) != crow(*c),
        decreases cs.len() - j,
    {
        if context_rows_same(&cs[j], c) {
            return true;
        }
        j += 1;
    }
    false
}

fn is_own_canonical(ps: &Vec<PlacementRow>, i: usize) -> (b: bool)
    requires
        i < ps.len(),
    ensures
        b == own_canonical(ps@, i as int),
{
    if ps[i].is_canonical != 1 {
        return false;
    }
    match find_canonical(ps, &ps[i].node_id) {
        Some(j) => j == i,
        None => false,
    }
}

pub open spec fn pairs_view(v: Seq<(String, String)>) -> Seq<(Seq<char>, Seq<char>)> {
    v.map_values(|x: (String, String)| (x.0@, x.1@))
}

fn moved_dirs(before: &Vec<PlacementRow>, after: &Vec<PlacementRow>) -> (r: Vec<(String, String)>)
    ensures
        pairs_view(r@) == moves(before@, after@, before@.len() as int),
{
    let mut out: Vec<(String, String)> = Vec::new();
    let mut i: usize = 0;
    while i < before.len()
        invariant
            i <= before.len(),
            pairs_view(out@) == moves(before@, after@, i as int),
        decreases before.len() - i,
    {
        if is_own_canonical(before, i) {
            if let Some(j) = find_canonical(after, &before[i].node_id) {
                if !str_same(&after[j].logical_path, &before[i].logical_path) {
                    let ghost old_out = out@;
                    out.push((before[i].logical_path.clone(), after[j].logical_path.clone()));
                    assert(pairs_view(out@) =~= pairs_view(old_out).push(
                        (before@[i as int].logical_path@, after@[j as int].logical_path@),
                    ));
                }
            }
        }
        i += 1;
    }
    out
}

/// What writing `after` over a tree that held `before` takes, in order.
pub fn write_plan(before: &Tables, after: &Tables) -> (r: Vec<FsAction>)
    ensures
        actions_view(r@) == write_plan_of(*before, *after),
{
    let b = &before.placements;
    let a = &after.placements;
    let mut out: Vec<FsAction> = Vec::new();
    // gone links
    let mut i: usize = 0;
    while i < b.len()
        invariant
            i <= b.len(),
            actions_view(out@) == link_removals(b@, a@, i as int),
        decreases b.len() - i,
    {
        if b[i].is_canonical != 1 && !alias_is_kept(a, &b[i]) {
            push_action(&mut out, FsAction::RemoveLink(b[i].logical_path.clone()));
        }
        i += 1;
    }
    let ghost s1 = actions_view(out@);
    // moves, outer directories first
    let mv = moved_dirs(b, a);
    let ghost mvv = pairs_view(mv@);
    let mut keys: Vec<SortKey> = Vec::new();
    let mut k: usize = 0;
    while k < mv.len()
        invariant
            k <= mv.len(),
            mvv == pairs_view(mv@),
            key_views(keys@) == move_keys(mvv).take(k as int),
        decreases mv.len() - k,
    {
        let ghost before_keys = keys@;
        let key = SortKey { a: path_order_chars(mv[k].0.as_str()), b: Vec::new(), c: Vec::new(), n: 0 };
        proof {
            assert(key.b@ =~= Seq::<char>::empty());
            assert(key.c@ =~= Seq::<char>::empty());
        }
        keys.push(key);
        assert(key_views(keys@) =~= key_views(before_keys).push(key.view()));
        assert(move_keys(mvv).take(k + 1) =~= move_keys(mvv).take(k as int).push(key.view()));
        k += 1;
    }
    assert(move_keys(mvv).take(mv.len() as int) =~= move_keys(mvv));
    let p = sort_order(&keys);
    proof {
        crate::order::lemma_sorted_unique(key_views(keys@), p@);
    }
    let ghost sorted = move_actions(permuted(mvv, p@));
    let mut q: usize = 0;
    while q < p.len()
        invariant
            q <= p.len(),
            p.len() == mv.len(),
            mvv == pairs_view(mv@),
            forall|x: int| 0 <= x < p@.len() ==> (#[trigger] p@[x]) < mv@.len(),
            sorted == move_actions(permuted(mvv, p@)),
            actions_view(out@) == s1 + sorted.take(q as int),
        decreases p.len() - q,
    {
        let m = &mv[p[q]];
        let act = FsAction::MoveDir(m.0.clone(), m.1.clone());
        assert(action_view(act) == sorted[q as int]);
        push_action(&mut out, act);
        assert(sorted.take(q + 1) =~= sorted.take(q as int).push(sorted[q as int]));
        q += 1;
    }
    assert(sorted.take(p.len() as int) =~= sorted);
    let ghost s2 = actions_view(out@);
    // gone directories
    let mut i: usize = 0;
    while i < b.len()
        invariant
            i <= b.len(),
            actions_view(out@) == s2 + dir_removals(b@, a@, i as int),
        decreases b.len() - i,
    {
        if is_own_canonical(b, i) && find_canonical(a, &b[i].node_id).is_none() {
            push_action(&mut out, FsAction::RemoveDir(b[i].logical_path.clone()));
        }
        i += 1;
    }
    let ghost s3 = actions_view(out@);
    // node directories
    let mut j: usize = 0;
    while j < a.len()
        invariant
            j <= a.len(),
            actions_view(out@) == s3 + node_places(*before, *after, j as int),
            a@ == after.placements@,
            b@ == before.placements@,
        decreases a.len() - j,
    {
        if is_own_canonical(a, j) {
            if let Some(nk) = find_node_row(&after.nodes, &a[j].node_id) {
                let same_row = has_equal_node(&before.nodes, &after.nodes[nk]);
                let same_place = match find_canonical(b, &after.nodes[nk].id) {
                    Some(bi) => str_same(&b[bi].logical_path, &a[j].logical_path),
                    None => false,
                };
                proof {
                    assert(after.nodes@[nk as int].id@ == a@[j as int].node_id@) by {
                        lemma_node_index_names(after.nodes@, a@[j as int].node_id@, after.nodes@.len() as int);
                    }
                    assert((same_row && same_place) == node_unchanged(*before, after.nodes@[nk as int], a@[j as int].logical_path@));
                    assert(node_places(*before, *after, j + 1) == node_places(*before, *after, j as int).push(
                        (
                            3nat,
                            a@[j as int].logical_path@,
                            Seq::<char>::empty(),
                            nk as int,
                            !node_unchanged(*before, after.nodes@[nk as int], a@[j as int].logical_path@),
                        ),
                    ));
                }
                push_action(
                    &mut out,
                    FsAction::PlaceNode { dir: a[j].logical_path.clone(), node: nk, changed: !(same_row && same_place) },
                );
            }
        }
        j += 1;
    }
    let ghost s4 = actions_view(out@);
    // links
    let mut j: usize = 0;
    while j < a.len()
        invariant
            j <= a.len(),
            actions_view(out@) == s4 + links(a@, j as int),
        decreases a.len() - j,
    {
        if a[j].is_canonical != 1 {
            if let Some(c) = find_canonical(a, &a[j].node_id) {
                push_action(
                    &mut out,
                    FsAction::MakeLink { path: a[j].logical_path.clone(), target: a[c].logical_path.clone() },
                );
            }
        }
        j += 1;
    }
    let ghost s5 = actions_view(out@);
    // context files
    let mut c: usize = 0;
    while c < before.contexts.len()
        invariant
            c <= before.contexts.len(),
            actions_view(out@) == s5 + context_removals(before.contexts@, after.contexts@, c as int),
        decreases before.contexts.len() - c,
    {
        if !has_filename(&after.contexts, &before.contexts[c].filename) {
            push_action(&mut out, FsAction::RemoveContext(before.contexts[c].filename.clone()));
        }
        c += 1;
    }
    let ghost s6 = actions_view(out@);
    let mut c: usize = 0;
    while c < after.contexts.len()
        invariant
            c <= after.contexts.len(),
            actions_view(out@) == s6 + context_writes(before.contexts@, after.contexts@, c as int),
        decreases after.contexts.len() - c,
    {
        if !has_equal_context(&before.contexts, &after.contexts[c]) {
            push_action(&mut out, FsAction::WriteContext(c));
        }
        c += 1;
    }
    out
}

proof fn lemma_node_index_names(ns: Seq<NodeRow>, id: Seq<char>, n: int)
    requires
        0 <= n <= ns.len(),
        node_index(ns, id, n) is Some,
    ensures
        0 <= node_index(ns, id, n)->0 < n,
        ns[node_index(ns, id, n)->0].id@ == id,
    decreases n,
{
    if n > 0 && node_index(ns, id, n - 1) is Some {
        lemma_node_index_names(ns, id, n - 1);
    }
}

} // verus!
