//! How a delete's promotions move paths: each surviving row is carried
//! through the subtree moves in turn, and what that means for one moved
//! subtree.
use vstd::prelude::*;

use crate::graph::canon;
use crate::paths::{moved_path, path_within, slash_count};
use crate::sqlite::{
    apply_moves, drop_row, flagged, flags_set, lemma_drop_row_members, promoted, prow, prows, rows_from, rows_traced,
    same_but_path, subtree_moved, traced_from, traced_in,
};
use crate::store::{PlacementRow, Tables};
use crate::text::has_prefix;

verus! {

/// The premises shared by the laws on promoted subtrees: distinct row ids,
/// canonical paths of fewer than 2^63 - 2 separators, the alias row `a` of
/// `x` made canonical (it is row `z` after), and no node's canonical entry
/// below its path.
pub open spec fn promotion_seen(prior: Tables, after: Seq<PlacementRow>, x: Seq<char>, a: int, z: int) -> bool {
    let rows = prior.placements@;
    &&& forall|i: int, k: int|
        0 <= i < rows.len() && 0 <= k < rows.len() && i != k ==> (#[trigger] rows[i]).row_id != (#[trigger] rows[k]).row_id
    &&& forall|n: Seq<char>|
        #[trigger] canon(prior, n).len() > 0 ==> crate::paths::slash_count(canon(prior, n)[0].3) < 0x7fff_ffff_ffff_fffe
    &&& canon(prior, x).len() > 0
    &&& 0 <= a < rows.len()
    &&& rows[a].node_id@ == x
    &&& rows[a].is_canonical != 1
    &&& forall|n: Seq<char>|
        #[trigger] canon(prior, n).len() > 0 ==> !crate::text::has_prefix(canon(prior, n)[0].3, rows[a].logical_path@.push('/'))
    &&& 0 <= z < after.len()
    &&& after[z].row_id == rows[a].row_id
    &&& after[z].is_canonical == 1
}

/// Moves after the first `n` do not change the path after those `n`.
pub(crate) proof fn lemma_apply_moves_push(p: Seq<char>, m: Seq<(Seq<char>, Seq<char>)>, e: (Seq<char>, Seq<char>), n: int)
    requires
        0 <= n <= m.len(),
    ensures
        apply_moves(p, m.push(e), n) == apply_moves(p, m, n),
    decreases n,
{
    if n > 0 {
        lemma_apply_moves_push(p, m, e, n - 1);
        assert(m.push(e)[n - 1] == m[n - 1]);
    }
}

/// A promotion carries every traced row through its move.
pub(crate) proof fn lemma_promoted_traced(
    orig: Seq<PlacementRow>,
    b: Seq<PlacementRow>,
    a: Seq<PlacementRow>,
    m: Seq<(Seq<char>, Seq<char>)>,
    ids: Seq<i64>,
    crid: i64,
    arid: i64,
    op: Seq<char>,
    np: Seq<char>,
)
    requires
        rows_traced(orig, b, m, ids),
        promoted(b, a, crid, arid, op, np),
    ensures
        rows_traced(orig, a, m.push((op, np)), ids.push(arid)),
{
    assert forall|x: int| 0 <= x < a.len() implies #[trigger] traced_in(orig, a[x], m.push((op, np)), ids.push(arid)) by {
        lemma_promoted_traced_at(orig, b, a, m, ids, crid, arid, op, np, x);
    }
}

proof fn lemma_promoted_traced_at(
    orig: Seq<PlacementRow>,
    b: Seq<PlacementRow>,
    a: Seq<PlacementRow>,
    m: Seq<(Seq<char>, Seq<char>)>,
    ids: Seq<i64>,
    crid: i64,
    arid: i64,
    op: Seq<char>,
    np: Seq<char>,
    x: int,
)
    requires
        rows_traced(orig, b, m, ids),
        promoted(b, a, crid, arid, op, np),
        0 <= x < a.len(),
    ensures
        traced_in(orig, a[x], m.push((op, np)), ids.push(arid)),
{
    let (m1, m2) = choose|m1: Seq<PlacementRow>, m2: Seq<PlacementRow>|
        prows(m1) == drop_row(prows(b), crid) && flagged(m1, m2, arid) && subtree_moved(m2, a, op, np, Some(crid));
    lemma_drop_row_members(prows(b), crid);
    assert(prows(m1).len() == m1.len());
    let m3 = m.push((op, np));
    let ids3 = ids.push(arid);
    assert(same_but_path(a[x], m2[x]));
    assert(prows(m1)[x] == prow(m1[x]));
    assert(prows(m1)[x].0 != crid);
    assert(prows(b).contains(prow(m1[x])));
    let w = choose|w: int| 0 <= w < prows(b).len() && prows(b)[w] == prow(m1[x]);
    assert(prows(b)[w] == prow(b[w]));
    assert(traced_in(orig, b[w], m, ids));
    let y = choose|y: int| 0 <= y < orig.len() && traced_from(b[w], orig[y], m, ids);
    lemma_apply_moves_push(orig[y].logical_path@, m, (op, np), m.len() as int);
    assert(m3[m.len() as int] == (op, np));
    assert(a[x].logical_path@ == moved_path(b[w].logical_path@, op, np));
    if a[x].is_canonical != orig[y].is_canonical {
        if b[w].is_canonical == orig[y].is_canonical {
            assert(a[x].row_id == arid);
            assert(ids3[ids.len() as int] == arid);
        } else {
            let i = choose|i: int| 0 <= i < ids.len() && ids[i] == b[w].row_id;
            assert(ids3[i] == ids[i]);
        }
    }
    assert(traced_from(a[x], orig[y], m3, ids3));
}

/// Keeping some of the rows keeps them traced.
pub(crate) proof fn lemma_rows_from_traced(orig: Seq<PlacementRow>, b: Seq<PlacementRow>, a: Seq<PlacementRow>, m: Seq<(Seq<char>, Seq<char>)>, ids: Seq<i64>)
    requires
        rows_traced(orig, b, m, ids),
        rows_from(a, b),
    ensures
        rows_traced(orig, a, m, ids),
{
    assert forall|x: int| 0 <= x < a.len() implies #[trigger] traced_in(orig, a[x], m, ids) by {
        lemma_row_from_traced_at(orig, b, a, m, ids, x);
    }
}

proof fn lemma_row_from_traced_at(orig: Seq<PlacementRow>, b: Seq<PlacementRow>, a: Seq<PlacementRow>, m: Seq<(Seq<char>, Seq<char>)>, ids: Seq<i64>, x: int)
    requires
        rows_traced(orig, b, m, ids),
        rows_from(a, b),
        0 <= x < a.len(),
    ensures
        traced_in(orig, a[x], m, ids),
{
    let e = a[x];
    assert(exists|z: int| 0 <= z < b.len() && prow(a[x]) == prow(b[z]));
    let z = choose|z: int| 0 <= z < b.len() && prow(a[x]) == prow(b[z]);
    let bz = b[z];
    assert(traced_in(orig, b[z], m, ids));
    let y = choose|y: int| 0 <= y < orig.len() && traced_from(b[z], orig[y], m, ids);
    assert(traced_from(a[x], orig[y], m, ids));
}

/// Two directories that both hold a path lie one within the other.
pub proof fn lemma_within_comparable(q: Seq<char>, a: Seq<char>, b: Seq<char>)
    requires
        path_within(q, a),
        path_within(q, b),
    ensures
        path_within(a, b) || path_within(b, a),
{
    if q != a && q != b {
        if a.len() == b.len() {
            assert(a =~= b) by {
                assert forall|i: int| 0 <= i < a.len() implies a[i] == b[i] by {
                    assert(q.subrange(0, a.len() + 1int)[i] == a.push('/')[i]);
                    assert(q.subrange(0, b.len() + 1int)[i] == b.push('/')[i]);
                }
            }
        } else if a.len() < b.len() {
            assert(b.subrange(0, a.len() + 1int) =~= a.push('/')) by {
                assert forall|i: int| 0 <= i < a.len() + 1 implies b.subrange(0, a.len() + 1int)[i] == a.push('/')[i] by {
                    assert(q.subrange(0, a.len() + 1int)[i] == a.push('/')[i]);
                    assert(q.subrange(0, b.len() + 1int)[i] == b.push('/')[i]);
                }
            }
        } else {
            assert(a.subrange(0, b.len() + 1int) =~= b.push('/')) by {
                assert forall|i: int| 0 <= i < b.len() + 1 implies a.subrange(0, b.len() + 1int)[i] == b.push('/')[i] by {
                    assert(q.subrange(0, a.len() + 1int)[i] == a.push('/')[i]);
                    assert(q.subrange(0, b.len() + 1int)[i] == b.push('/')[i]);
                }
            }
        }
    }
}

/// A path within a directory within another lies within the other.
pub proof fn lemma_within_trans(x: Seq<char>, y: Seq<char>, z: Seq<char>)
    requires
        path_within(x, y),
        path_within(y, z),
    ensures
        path_within(x, z),
{
    if x != y && y != z {
        assert(x.subrange(0, z.len() + 1int) =~= z.push('/')) by {
            assert forall|i: int| 0 <= i < z.len() + 1 implies x.subrange(0, z.len() + 1int)[i] == z.push('/')[i] by {
                assert(x.subrange(0, y.len() + 1int)[i] == y.push('/')[i]);
                assert(y.subrange(0, z.len() + 1int)[i] == z.push('/')[i]);
            }
        }
    }
}

proof fn lemma_slash_take(s: Seq<char>, n: int)
    requires
        0 <= n <= s.len(),
    ensures
        slash_count(s.subrange(0, n)) <= slash_count(s),
    decreases s.len(),
{
    if n < s.len() {
        lemma_slash_take(s.drop_last(), n);
        assert(s.drop_last().subrange(0, n) =~= s.subrange(0, n));
    } else {
        assert(s.subrange(0, n) =~= s);
    }
}

/// A path strictly below a directory has more `/` than it.
pub proof fn lemma_slash_below(a: Seq<char>, b: Seq<char>)
    requires
        has_prefix(a, b.push('/')),
    ensures
        slash_count(a) > slash_count(b),
{
    lemma_slash_take(a, b.len() + 1int);
    assert(b.push('/').drop_last() =~= b);
    assert(slash_count(b.push('/')) == slash_count(b) + 1);
}

/// A path moved from within `op` lies within `np`.
pub proof fn lemma_moved_within(p: Seq<char>, op: Seq<char>, np: Seq<char>)
    requires
        path_within(p, op),
    ensures
        path_within(moved_path(p, op, np), np),
{
    if p != op {
        let q = np.push('/') + p.subrange(op.len() + 1int, p.len() as int);
        assert(q.subrange(0, np.len() + 1int) =~= np.push('/'));
    }
}

/// A path within the first path of move `i` alone, and after that move within
/// none of the later ones, ends where move `i` puts it.
pub proof fn lemma_apply_one_move(p: Seq<char>, m: Seq<(Seq<char>, Seq<char>)>, i: int, n: int)
    requires
        0 <= i < m.len(),
        0 <= n <= m.len(),
        forall|k: int| 0 <= k < i ==> !path_within(p, #[trigger] m[k].0),
        forall|k: int| i < k < m.len() ==> !path_within(moved_path(p, m[i].0, m[i].1), #[trigger] m[k].0),
    ensures
        apply_moves(p, m, n) == if n <= i {
            p
        } else {
            moved_path(p, m[i].0, m[i].1)
        },
    decreases n,
{
    if n > 0 {
        lemma_apply_one_move(p, m, i, n - 1);
        let k = n - 1;
        assert(!path_within(p, m[k].0) ==> moved_path(p, m[k].0, m[k].1) == p);
        let q = moved_path(p, m[i].0, m[i].1);
        assert(!path_within(q, m[k].0) ==> moved_path(q, m[k].0, m[k].1) == q);
    }
}

/// A promotion leaves every flagged row canonical, and its own alias row too.
pub(crate) proof fn lemma_promoted_flags(
    b: Seq<PlacementRow>,
    a: Seq<PlacementRow>,
    ids: Seq<i64>,
    crid: i64,
    arid: i64,
    op: Seq<char>,
    np: Seq<char>,
)
    requires
        flags_set(b, ids),
        promoted(b, a, crid, arid, op, np),
    ensures
        flags_set(a, ids.push(arid)),
{
    let (m1, m2) = choose|m1: Seq<PlacementRow>, m2: Seq<PlacementRow>|
        prows(m1) == drop_row(prows(b), crid) && flagged(m1, m2, arid) && subtree_moved(m2, a, op, np, Some(crid));
    lemma_drop_row_members(prows(b), crid);
    assert(prows(m1).len() == m1.len());
    let ids2 = ids.push(arid);
    assert forall|x: int| 0 <= x < a.len() && ids2.contains((#[trigger] a[x]).row_id) implies a[x].is_canonical == 1 by {
        assert(same_but_path(a[x], m2[x]));
        if a[x].row_id != arid {
            let i = choose|i: int| 0 <= i < ids2.len() && ids2[i] == a[x].row_id;
            assert(ids2[i] == ids[i]);
            assert(prows(m1)[x] == prow(m1[x]));
            assert(prows(b).contains(prow(m1[x])));
            let w = choose|w: int| 0 <= w < prows(b).len() && prows(b)[w] == prow(m1[x]);
            assert(prows(b)[w] == prow(b[w]));
            assert(ids.contains(b[w].row_id));
        }
    }
}

/// Keeping some of the rows keeps their flags.
pub(crate) proof fn lemma_rows_from_flags(b: Seq<PlacementRow>, a: Seq<PlacementRow>, ids: Seq<i64>)
    requires
        flags_set(b, ids),
        rows_from(a, b),
    ensures
        flags_set(a, ids),
{
    assert forall|x: int| 0 <= x < a.len() && ids.contains((#[trigger] a[x]).row_id) implies a[x].is_canonical == 1 by {
        let e = a[x];
        assert(exists|z: int| 0 <= z < b.len() && prow(a[x]) == prow(b[z]));
        let z = choose|z: int| 0 <= z < b.len() && prow(a[x]) == prow(b[z]);
        assert(b[z].row_id == a[x].row_id);
    }
}

} // verus!
