//! The SQLite schema a graph database must have before a graph is opened:
//! its tables, their columns, primary keys and unique keys, checked against
//! what the database reports of itself.
use vstd::prelude::*;

use crate::model::GraphError;
use crate::order::{key_views, permuted, sort_order, sorted_by, KeyView, SortKey};
use crate::scan::str_same;
use crate::text::{push_str, string_from_str};

verus! {

/// What the database reports of one table: each column with its place in
/// the primary key (0 when it is not part of it), and each index as whether
/// it is unique and its columns with their places in the index.
pub struct TableInfo {
    pub name: String,
    pub columns: Vec<(String, i64)>,
    pub indexes: Vec<(bool, Vec<(i64, String)>)>,
}

pub type TableView = (Seq<char>, Seq<(Seq<char>, i64)>, Seq<(bool, Seq<(i64, Seq<char>)>)>);

pub open spec fn placed_view(v: Seq<(i64, String)>) -> Seq<(i64, Seq<char>)> {
    v.map_values(|x: (i64, String)| (x.0, x.1@))
}

pub open spec fn table_view(t: TableInfo) -> TableView {
    (
        t.name@,
        t.columns@.map_values(|c: (String, i64)| (c.0@, c.1)),
        t.indexes@.map_values(|x: (bool, Vec<(i64, String)>)| (x.0, placed_view(x.1@))),
    )
}

pub open spec fn tables_view(ts: Seq<TableInfo>) -> Seq<TableView> {
    ts.map_values(|t: TableInfo| table_view(t))
}

/// The first reported table named `name`.
pub open spec fn find_table(ts: Seq<TableView>, name: Seq<char>) -> Option<TableView>
    decreases ts.len(),
{
    if ts.len() == 0 {
        None
    } else if ts[0].0 == name {
        Some(ts[0])
    } else {
        find_table(ts.drop_first(), name)
    }
}

pub open spec fn place_key(x: (i64, Seq<char>)) -> KeyView {
    (Seq::empty(), Seq::empty(), Seq::empty(), x.0 as int)
}

/// Names ordered by their places, equal places in the given order.
pub open spec fn ordered_view(v: Seq<(i64, Seq<char>)>) -> Seq<Seq<char>> {
    permuted(v.map_values(|x: (i64, Seq<char>)| x.1), sorted_by(v.map_values(|x: (i64, Seq<char>)| place_key(x))))
}

/// The primary-key columns of a table with their places, in column order.
pub open spec fn key_columns(cols: Seq<(Seq<char>, i64)>) -> Seq<(i64, Seq<char>)>
    decreases cols.len(),
{
    if cols.len() == 0 {
        Seq::empty()
    } else if cols.last().1 > 0 {
        key_columns(cols.drop_last()).push((cols.last().1, cols.last().0))
    } else {
        key_columns(cols.drop_last())
    }
}

/// The primary key of a table: its key columns by place.
pub open spec fn primary_key(cols: Seq<(Seq<char>, i64)>) -> Seq<Seq<char>> {
    ordered_view(key_columns(cols))
}

/// One requirement: a table (kind 0), a column (1), the primary key (2)
/// or a unique key (3), of a table, over some columns.
pub type CheckView = (nat, Seq<char>, Seq<Seq<char>>);

/// The table has a column named `name`.
pub open spec fn has_column(tv: TableView, name: Seq<char>) -> bool {
    exists|i: int| 0 <= i < tv.1.len() && (#[trigger] tv.1[i]).0 == name
}

/// The table has a unique index over exactly `cols`, in that order.
pub open spec fn has_unique_key(tv: TableView, cols: Seq<Seq<char>>) -> bool {
    exists|i: int| 0 <= i < tv.2.len() && (#[trigger] tv.2[i]).0 && ordered_view(tv.2[i].1) == cols
}

pub open spec fn check_holds(ts: Seq<TableView>, c: CheckView) -> bool {
    match find_table(ts, c.1) {
        None => false,
        Some(tv) => if c.0 == 0 {
            true
        } else if c.0 == 1 {
            has_column(tv, c.2[0])
        } else if c.0 == 2 {
            primary_key(tv.1) == c.2
        } else {
            has_unique_key(tv, c.2)
        },
    }
}

/// Columns joined by `, `.
pub open spec fn joined(cols: Seq<Seq<char>>) -> Seq<char>
    decreases cols.len(),
{
    if cols.len() == 0 {
        Seq::empty()
    } else if cols.len() == 1 {
        cols[0]
    } else {
        joined(cols.drop_last()) + ", "@ + cols.last()
    }
}

/// The error message of a requirement not met.
pub open spec fn check_message(c: CheckView) -> Seq<char> {
    if c.0 == 0 {
        "missing SQLite schema table `"@ + c.1 + "`"@
    } else if c.0 == 1 {
        "missing SQLite schema column `"@ + c.1 + "."@ + c.2[0] + "`"@
    } else if c.0 == 2 {
        "invalid SQLite schema: `"@ + c.1 + "` primary key must be ("@ + joined(c.2) + ")"@
    } else {
        "invalid SQLite schema: `"@ + c.1 + "` must have a unique key on ("@ + joined(c.2) + ")"@
    }
}

/// The message of the first requirement of `cs` not met, if any.
pub open spec fn first_failure(ts: Seq<TableView>, cs: Seq<CheckView>) -> Option<Seq<char>>
    decreases cs.len(),
{
    if cs.len() == 0 {
        None
    } else if !check_holds(ts, cs[0]) {
        Some(check_message(cs[0]))
    } else {
        first_failure(ts, cs.drop_first())
    }
}

pub open spec fn tbl(kind: nat, table: Seq<char>, cols: Seq<Seq<char>>) -> CheckView {
    (kind, table, cols)
}

/// The requirements in the order they are checked: the five tables, the
/// columns of each, the primary keys, then the two unique keys.
pub open spec fn schema_checks() -> Seq<CheckView> {
    let g = "focal_graphs"@;
    let n = "focal_nodes"@;
    let c = "focal_context_documents"@;
    let a = "focal_qa_alternative_answers"@;
    let p = "focal_placements"@;
    seq![
        tbl(0, g, seq![]),
        tbl(0, n, seq![]),
        tbl(0, c, seq![]),
        tbl(0, a, seq![]),
        tbl(0, p, seq![]),
        tbl(1, g, seq!["id"@]),
        tbl(1, g, seq!["name"@]),
        tbl(1, g, seq!["created_at_unix"@]),
        tbl(1, n, seq!["graph_id"@]),
        tbl(1, n, seq!["id"@]),
        tbl(1, n, seq!["kind"@]),
        tbl(1, n, seq!["title"@]),
        tbl(1, n, seq!["reviewed"@]),
        tbl(1, n, seq!["statement_body"@]),
        tbl(1, n, seq!["qa_question"@]),
        tbl(1, n, seq!["qa_answer"@]),
        tbl(1, n, seq!["created_at_unix"@]),
        tbl(1, n, seq!["updated_at_unix"@]),
        tbl(1, a, seq!["graph_id"@]),
        tbl(1, a, seq!["node_id"@]),
        tbl(1, a, seq!["answer_order"@]),
        tbl(1, a, seq!["answer"@]),
        tbl(1, c, seq!["graph_id"@]),
        tbl(1, c, seq!["id"@]),
        tbl(1, c, seq!["slug"@]),
        tbl(1, c, seq!["filename"@]),
        tbl(1, c, seq!["title"@]),
        tbl(1, c, seq!["markdown"@]),
        tbl(1, c, seq!["created_at_unix"@]),
        tbl(1, c, seq!["updated_at_unix"@]),
        tbl(1, p, seq!["id"@]),
        tbl(1, p, seq!["graph_id"@]),
        tbl(1, p, seq!["node_id"@]),
        tbl(1, p, seq!["parent_id"@]),
        tbl(1, p, seq!["slug"@]),
        tbl(1, p, seq!["logical_path"@]),
        tbl(1, p, seq!["is_canonical"@]),
        tbl(2, g, seq!["id"@]),
        tbl(2, n, seq!["graph_id"@, "id"@]),
        tbl(2, a, seq!["graph_id"@, "node_id"@, "answer_order"@]),
        tbl(2, c, seq!["graph_id"@, "id"@]),
        tbl(2, p, seq!["id"@]),
        tbl(3, g, seq!["name"@]),
        tbl(3, c, seq!["graph_id"@, "filename"@]),
    ]
}

/// Why the reported schema is not a graph database's, if it is not.
pub open spec fn schema_error(ts: Seq<TableView>) -> Option<Seq<char>> {
    first_failure(ts, schema_checks())
}

/// An exec requirement.
pub struct Check {
    pub kind: u8,
    pub table: String,
    pub cols: Vec<String>,
}

pub open spec fn check_view(c: Check) -> CheckView {
    (c.kind as nat, c.table@, c.cols@.map_values(|s: String| s@))
}

fn check(kind: u8, table: &str, cols: Vec<String>) -> (r: Check)
    ensures
        check_view(r) == tbl(kind as nat, table@, cols@.map_values(|s: String| s@)),
{
    Check { kind, table: string_from_str(table), cols }
}

fn cols0() -> (r: Vec<String>)
    ensures
        r@.map_values(|s: String| s@) == Seq::<Seq<char>>::empty(),
{
    let r: Vec<String> = Vec::new();
    assert(r@.map_values(|s: String| s@) =~= Seq::<Seq<char>>::empty());
    r
}

fn cols1(a: &str) -> (r: Vec<String>)
    ensures
        r@.map_values(|s: String| s@) == seq![a@],
{
    let mut r: Vec<String> = Vec::new();
    r.push(string_from_str(a));
    assert(r@.map_values(|s: String| s@) =~= seq![a@]);
    r
}

fn cols2(a: &str, b: &str) -> (r: Vec<String>)
    ensures
        r@.map_values(|s: String| s@) == seq![a@, b@],
{
    let mut r: Vec<String> = Vec::new();
    r.push(string_from_str(a));
    r.push(string_from_str(b));
    assert(r@.map_values(|s: String| s@) =~= seq![a@, b@]);
    r
}

fn cols3(a: &str, b: &str, c: &str) -> (r: Vec<String>)
    ensures
        r@.map_values(|s: String| s@) == seq![a@, b@, c@],
{
    let mut r: Vec<String> = Vec::new();
    r.push(string_from_str(a));
    r.push(string_from_str(b));
    r.push(string_from_str(c));
    assert(r@.map_values(|s: String| s@) =~= seq![a@, b@, c@]);
    r
}

fn all_checks() -> (r: Vec<Check>)
    ensures
        r@.map_values(|c: Check| check_view(c)) == schema_checks(),
{
    let g = "focal_graphs";
    let n = "focal_nodes";
    let c = "focal_context_documents";
    let a = "focal_qa_alternative_answers";
    let p = "focal_placements";
    let mut v: Vec<Check> = Vec::new();
    v.push(check(0, g, cols0()));
    v.push(check(0, n, cols0()));
    v.push(check(0, c, cols0()));
    v.push(check(0, a, cols0()));
    v.push(check(0, p, cols0()));
    v.push(check(1, g, cols1("id")));
    v.push(check(1, g, cols1("name")));
    v.push(check(1, g, cols1("created_at_unix")));
    v.push(check(1, n, cols1("graph_id")));
    v.push(check(1, n, cols1("id")));
    v.push(check(1, n, cols1("kind")));
    v.push(check(1, n, cols1("title")));
    v.push(check(1, n, cols1("reviewed")));
    v.push(check(1, n, cols1("statement_body")));
    v.push(check(1, n, cols1("qa_question")));
    v.push(check(1, n, cols1("qa_answer")));
    v.push(check(1, n, cols1("created_at_unix")));
    v.push(check(1, n, cols1("updated_at_unix")));
    v.push(check(1, a, cols1("graph_id")));
    v.push(check(1, a, cols1("node_id")));
    v.push(check(1, a, cols1("answer_order")));
    v.push(check(1, a, cols1("answer")));
    v.push(check(1, c, cols1("graph_id")));
    v.push(check(1, c, cols1("id")));
    v.push(check(1, c, cols1("slug")));
    v.push(check(1, c, cols1("filename")));
    v.push(check(1, c, cols1("title")));
    v.push(check(1, c, cols1("markdown")));
    v.push(check(1, c, cols1("created_at_unix")));
    v.push(check(1, c, cols1("updated_at_unix")));
    v.push(check(1, p, cols1("id")));
    v.push(check(1, p, cols1("graph_id")));
    v.push(check(1, p, cols1("node_id")));
    v.push(check(1, p, cols1("parent_id")));
    v.push(check(1, p, cols1("slug")));
    v.push(check(1, p, cols1("logical_path")));
    v.push(check(1, p, cols1("is_canonical")));
    v.push(check(2, g, cols1("id")));
    v.push(check(2, n, cols2("graph_id", "id")));
    v.push(check(2, a, cols3("graph_id", "node_id", "answer_order")));
    v.push(check(2, c, cols2("graph_id", "id")));
    v.push(check(2, p, cols1("id")));
    v.push(check(3, g, cols1("name")));
    v.push(check(3, c, cols2("graph_id", "filename")));
    proof {
        let sc = schema_checks();
        let mv = v@.map_values(|c: Check| check_view(c));
        assert(mv.len() == sc.len());
        assert forall|k: int| 0 <= k < mv.len() implies mv[k] == sc[k] by {}
        assert(mv =~= sc);
    }
    v
}

fn find_table_at(ts: &Vec<TableInfo>, name: &String) -> (r: Option<usize>)
    ensures
        match r {
            Some(i) => i < ts@.len() && find_table(tables_view(ts@), name@) == Some(table_view(ts@[i as int])),
            None => find_table(tables_view(ts@), name@) is None,
        },
{
    let ghost tv = tables_view(ts@);
    assert(tv.skip(0) =~= tv);
    let mut i: usize = 0;
    while i < ts.len()
        invariant
            i <= ts.len(),
            tv == tables_view(ts@),
            find_table(tv, name@) == find_table(tv.skip(i as int), name@),
        decreases ts.len() - i,
    {
        assert(tv.skip(i as int)[0] == table_view(ts@[i as int]));
        if str_same(&ts[i].name, name) {
            return Some(i);
        }
        assert(tv.skip(i as int).drop_first() =~= tv.skip(i + 1));
        i += 1;
    }
    assert(tv.skip(i as int).len() == 0);
    None
}

/// The names of `v` ordered by their places (stable).
fn ordered(v: &Vec<(i64, String)>) -> (r: Vec<String>)
    ensures
        r@.map_values(|s: String| s@) == ordered_view(placed_view(v@)),
{
    let ghost pv = placed_view(v@);
    let ghost kv = pv.map_values(|x: (i64, Seq<char>)| place_key(x));
    let mut keys: Vec<SortKey> = Vec::new();
    let mut i: usize = 0;
    while i < v.len()
        invariant
            i <= v.len(),
            pv == placed_view(v@),
            kv == pv.map_values(|x: (i64, Seq<char>)| place_key(x)),
            key_views(keys@) == kv.take(i as int),
        decreases v.len() - i,
    {
        let k = SortKey { a: Vec::new(), b: Vec::new(), c: Vec::new(), n: v[i].0 };
        proof {
            assert(k.view() == kv[i as int]);
            crate::order::lemma_key_views_push(keys@, k);
            assert(kv.take(i + 1) =~= kv.take(i as int).push(kv[i as int]));
        }
        keys.push(k);
        i += 1;
    }
    assert(kv.take(v.len() as int) =~= kv);
    let p = sort_order(&keys);
    proof {
        crate::order::lemma_sorted_unique(kv, p@);
    }
    let ghost names = pv.map_values(|x: (i64, Seq<char>)| x.1);
    let mut out: Vec<String> = Vec::new();
    let mut j: usize = 0;
    while j < p.len()
        invariant
            j <= p.len(),
            p.len() == v.len(),
            names == pv.map_values(|x: (i64, Seq<char>)| x.1),
            pv == placed_view(v@),
            forall|k: int| 0 <= k < p.len() ==> (#[trigger] p@[k] as int) < v.len(),
            out@.map_values(|s: String| s@) == permuted(names, p@).take(j as int),
        decreases p.len() - j,
    {
        let s = v[p[j]].1.clone();
        let ghost before = out@;
        out.push(s);
        proof {
            assert(s@ == names[p@[j as int] as int]);
            assert(out@ == before.push(s));
            assert(before.map_values(|s: String| s@).len() == before.len());
            assert(before.len() == j);
            let a = out@.map_values(|s: String| s@);
            let b = permuted(names, p@).take(j + 1);
            assert forall|k: int| 0 <= k < j + 1 implies a[k] == b[k] by {
                if k < j {
                    assert(out@[k] == before[k]);
                    assert(before.map_values(|s: String| s@)[k] == permuted(names, p@).take(j as int)[k]);
                }
            }
            assert(a =~= b);
        }
        j += 1;
    }
    assert(permuted(names, p@).take(p.len() as int) =~= permuted(names, p@));
    out
}

fn primary_key_of(cols: &Vec<(String, i64)>) -> (r: Vec<String>)
    ensures
        r@.map_values(|s: String| s@) == primary_key(cols@.map_values(|c: (String, i64)| (c.0@, c.1))),
{
    let ghost cv = cols@.map_values(|c: (String, i64)| (c.0@, c.1));
    let mut keyed: Vec<(i64, String)> = Vec::new();
    let mut i: usize = 0;
    while i < cols.len()
        invariant
            i <= cols.len(),
            cv == cols@.map_values(|c: (String, i64)| (c.0@, c.1)),
            placed_view(keyed@) == key_columns(cv.take(i as int)),
        decreases cols.len() - i,
    {
        assert(cv.take(i + 1).drop_last() =~= cv.take(i as int));
        let ghost before = keyed@;
        if cols[i].1 > 0 {
            keyed.push((cols[i].1, cols[i].0.clone()));
            assert(placed_view(keyed@) =~= placed_view(before).push((cols@[i as int].1, cols@[i as int].0@)));
        }
        i += 1;
    }
    assert(cv.take(cols.len() as int) =~= cv);
    ordered(&keyed)
}

fn names_eq(a: &Vec<String>, b: &Vec<String>) -> (r: bool)
    ensures
        r == (a@.map_values(|s: String| s@) == b@.map_values(|s: String| s@)),
{
    let ghost av = a@.map_values(|s: String| s@);
    let ghost bv = b@.map_values(|s: String| s@);
    if a.len() != b.len() {
        assert(av.len() != bv.len());
        return false;
    }
    let mut i: usize = 0;
    while i < a.len()
        invariant
            i <= a.len(),
            a.len() == b.len(),
            av == a@.map_values(|s: String| s@),
            bv == b@.map_values(|s: String| s@),
            forall|k: int| 0 <= k < i ==> av[k] == bv[k],
        decreases a.len() - i,
    {
        if !str_same(&a[i], &b[i]) {
            assert(av[i as int] != bv[i as int]);
            return false;
        }
        i += 1;
    }
    assert(av =~= bv);
    true
}

/// Whether requirement `c` holds of the reported tables.
fn check_passes(ts: &Vec<TableInfo>, c: &Check) -> (r: bool)
    requires
        c.kind == 1 ==> c.cols.len() >= 1,
    ensures
        r == check_holds(tables_view(ts@), check_view(*c)),
{
    let ghost cv = check_view(*c);
    let found = find_table_at(ts, &c.table);
    match found {
        None => false,
        Some(i) => {
            let t = &ts[i];
            let ghost tv = table_view(*t);
            assert(find_table(tables_view(ts@), cv.1) == Some(tv));
            if c.kind == 0 {
                true
            } else if c.kind == 1 {
                let mut k: usize = 0;
                while k < t.columns.len()
                    invariant
                        k <= t.columns.len(),
                        c.cols.len() >= 1,
                        tv == table_view(*t),
                        cv == check_view(*c),
                        cv.0 == 1,
                        find_table(tables_view(ts@), cv.1) == Some(tv),
                        forall|j: int| 0 <= j < k ==> (#[trigger] tv.1[j]).0 != cv.2[0],
                    decreases t.columns.len() - k,
                {
                    assert(tv.1[k as int].0 == t.columns@[k as int].0@);
                    assert(cv.2[0] == c.cols@[0]@);
                    if str_same(&t.columns[k].0, &c.cols[0]) {
                        assert(tv.1.len() == t.columns@.len());
                        assert(tv.1[k as int].0 == cv.2[0]);
                        assert(exists|j: int| 0 <= j < tv.1.len() && (#[trigger] tv.1[j]).0 == cv.2[0]);
                        assert(has_column(tv, cv.2[0]));
                        return true;
                    }
                    k += 1;
                }
                false
            } else if c.kind == 2 {
                let pk = primary_key_of(&t.columns);
                names_eq(&pk, &c.cols)
            } else {
                let mut k: usize = 0;
                while k < t.indexes.len()
                    invariant
                        k <= t.indexes.len(),
                        tv == table_view(*t),
                        cv == check_view(*c),
                        cv.0 != 0 && cv.0 != 1 && cv.0 != 2,
                        find_table(tables_view(ts@), cv.1) == Some(tv),
                        forall|j: int| 0 <= j < k ==> !((#[trigger] tv.2[j]).0 && ordered_view(tv.2[j].1) == cv.2),
                    decreases t.indexes.len() - k,
                {
                    assert(tv.2[k as int] == (t.indexes@[k as int].0, placed_view(t.indexes@[k as int].1@)));
                    if t.indexes[k].0 {
                        let cols = ordered(&t.indexes[k].1);
                        if names_eq(&cols, &c.cols) {
                            assert(tv.2.len() == t.indexes@.len());
                            assert(tv.2[k as int].0 && ordered_view(tv.2[k as int].1) == cv.2);
                            assert(exists|j: int| 0 <= j < tv.2.len() && (#[trigger] tv.2[j]).0 && ordered_view(tv.2[j].1) == cv.2);
                            assert(has_unique_key(tv, cv.2));
                            return true;
                        }
                    }
                    k += 1;
                }
                false
            }
        },
    }
}

fn join_into(s: &mut String, cols: &Vec<String>)
    ensures
        final(s)@ == old(s)@ + joined(cols@.map_values(|c: String| c@)),
{
    let ghost cv = cols@.map_values(|c: String| c@);
    let mut i: usize = 0;
    while i < cols.len()
        invariant
            i <= cols.len(),
            cv == cols@.map_values(|c: String| c@),
            s@ == old(s)@ + joined(cv.take(i as int)),
        decreases cols.len() - i,
    {
        assert(cv.take(i + 1).drop_last() =~= cv.take(i as int));
        assert(cv.take(i + 1).last() == cols@[i as int]@);
        if i > 0 {
            push_str(s, ", ");
        } else {
            assert(cv.take(i as int).len() == 0);
            assert(cv.take(1)[0] == cols@[0]@);
        }
        push_str(s, cols[i].as_str());
        proof {
            if i > 0 {
                assert(s@ =~= old(s)@ + joined(cv.take(i + 1)));
            } else {
                assert(s@ =~= old(s)@ + joined(cv.take(i + 1)));
            }
        }
        i += 1;
    }
    assert(cv.take(cols.len() as int) =~= cv);
}

fn message_of(c: &Check) -> (r: String)
    requires
        c.kind == 1 ==> c.cols.len() >= 1,
    ensures
        r@ == check_message(check_view(*c)),
{
    if c.kind == 0 {
        let mut m = string_from_str("missing SQLite schema table `");
        push_str(&mut m, c.table.as_str());
        push_str(&mut m, "`");
        m
    } else if c.kind == 1 {
        let mut m = string_from_str("missing SQLite schema column `");
        push_str(&mut m, c.table.as_str());
        push_str(&mut m, ".");
        push_str(&mut m, c.cols[0].as_str());
        push_str(&mut m, "`");
        m
    } else if c.kind == 2 {
        let mut m = string_from_str("invalid SQLite schema: `");
        push_str(&mut m, c.table.as_str());
        push_str(&mut m, "` primary key must be (");
        join_into(&mut m, &c.cols);
        push_str(&mut m, ")");
        m
    } else {
        let mut m = string_from_str("invalid SQLite schema: `");
        push_str(&mut m, c.table.as_str());
        push_str(&mut m, "` must have a unique key on (");
        join_into(&mut m, &c.cols);
        push_str(&mut m, ")");
        m
    }
}

/// The schema check made before a SQLite graph is opened: the first
/// missing table, missing column, wrong primary key or missing unique key,
/// in the order of `schema_checks`, as an invalid-root error.
pub fn schema_problem(tables: &Vec<TableInfo>) -> (r: Result<(), GraphError>)
    ensures
        match r {
            Ok(()) => schema_error(tables_view(tables@)) is None,
            Err(e) => e matches GraphError::InvalidGraphRoot(m) && schema_error(tables_view(tables@)) == Some(m@),
        },
{
    let checks = all_checks();
    let ghost cs = schema_checks();
    let ghost tv = tables_view(tables@);
    assert(cs.skip(0) =~= cs);
    let mut i: usize = 0;
    while i < checks.len()
        invariant
            i <= checks.len(),
            checks@.map_values(|c: Check| check_view(c)) == cs,
            cs == schema_checks(),
            tv == tables_view(tables@),
            first_failure(tv, cs) == first_failure(tv, cs.skip(i as int)),
        decreases checks.len() - i,
    {
        let c = &checks[i];
        assert(cs[i as int] == check_view(*c));
        assert(cs.skip(i as int)[0] == cs[i as int]);
        proof {
            if c.kind == 1 {
                assert(check_view(*c).2.len() == c.cols@.len());
            }
        }
        if !check_passes(tables, c) {
            let m = message_of(c);
            return Err(GraphError::InvalidGraphRoot(m));
        }
        assert(cs.skip(i as int).drop_first() =~= cs.skip(i + 1));
        i += 1;
    }
    assert(cs.skip(i as int).len() == 0);
    Ok(())
}

} // verus!
