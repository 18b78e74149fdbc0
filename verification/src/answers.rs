//! Alternative answers of question nodes as the database stores them: which
//! rows are kept, what each refused row is reported as, and the answers of
//! each node in their order.
use vstd::prelude::*;

use crate::decimal::{i64_chars, int_decimal};
use crate::ids::{is_valid_uuid_id, uuid_shape};
use crate::model::GraphProblem;
use crate::order::{key_views, permuted, sort_order, sorted_by, KeyView, SortKey};
use crate::scan::{diagnostic_path, diagnostic_path_for_node, markdown_problem, problem_view, ProblemView};
use crate::store::{NodeRow, PlacementRow};
use crate::text::{blank, chars_of, is_blank, push_chars, push_str, str_eq, string_from_str};

verus! {

/// One stored alternative answer: the node, its place among the node's
/// answers, and its text.
#[derive(Debug, Clone, PartialEq, Eq)]
pub struct AlternativeAnswerRow {
    pub node_id: String,
    pub answer_order: i64,
    pub answer: String,
}

/// Some node row has id `id`.
pub open spec fn node_listed(nodes: Seq<NodeRow>, id: Seq<char>) -> bool {
    exists|j: int| 0 <= j < nodes.len() && (#[trigger] nodes[j]).id@ == id
}

/// An earlier row gives an answer of the same node at the same place.
pub open spec fn order_seen_before(rows: Seq<AlternativeAnswerRow>, i: int) -> bool {
    exists|j: int|
        0 <= j < i && (#[trigger] rows[j]).node_id@ == rows[i].node_id@ && rows[j].answer_order
            == rows[i].answer_order
}

/// Why row `i` is refused, checked in this order; `None` when it is kept.
pub open spec fn answer_reason(rows: Seq<AlternativeAnswerRow>, nodes: Seq<NodeRow>, i: int) -> Option<Seq<char>> {
    let r = rows[i];
    if !uuid_shape(r.node_id@) {
        Some("invalid node id: "@ + r.node_id@)
    } else if !node_listed(nodes, r.node_id@) {
        Some("alternative answer references missing node"@)
    } else if r.answer_order < 0 {
        Some("invalid alternative answer order `"@ + int_decimal(r.answer_order as int) + "`"@)
    } else if order_seen_before(rows, i) {
        Some("duplicate alternative answer order `"@ + int_decimal(r.answer_order as int) + "`"@)
    } else if is_blank(r.answer@) {
        Some("alternative answer must not be empty"@)
    } else {
        None
    }
}

/// The positions of the kept rows among the first `n`, in row order.
pub open spec fn kept_rows(rows: Seq<AlternativeAnswerRow>, nodes: Seq<NodeRow>, n: int) -> Seq<int>
    decreases n,
{
    if n <= 0 {
        Seq::empty()
    } else if answer_reason(rows, nodes, n - 1) is None {
        kept_rows(rows, nodes, n - 1).push(n - 1)
    } else {
        kept_rows(rows, nodes, n - 1)
    }
}

/// One problem for each refused row among the first `n`, in row order:
/// the row's node and an invalid-Markdown problem at the node's path.
pub open spec fn answer_problems(
    rows: Seq<AlternativeAnswerRow>,
    nodes: Seq<NodeRow>,
    places: Seq<PlacementRow>,
    n: int,
) -> Seq<(Seq<char>, ProblemView)>
    decreases n,
{
    if n <= 0 {
        Seq::empty()
    } else {
        match answer_reason(rows, nodes, n - 1) {
            None => answer_problems(rows, nodes, places, n - 1),
            Some(reason) => answer_problems(rows, nodes, places, n - 1).push(
                (
                    rows[n - 1].node_id@,
                    markdown_problem(diagnostic_path(places, rows[n - 1].node_id@), reason),
                ),
            ),
        }
    }
}

/// The sort key of a kept row: its node, then its place.
pub open spec fn answer_keys(rows: Seq<AlternativeAnswerRow>, kept: Seq<int>) -> Seq<KeyView> {
    kept.map_values(|i: int| (rows[i].node_id@, Seq::<char>::empty(), Seq::<char>::empty(), rows[i].answer_order as int))
}

/// The node and text of each kept row.
pub open spec fn answer_pairs(rows: Seq<AlternativeAnswerRow>, kept: Seq<int>) -> Seq<(Seq<char>, Seq<char>)> {
    kept.map_values(|i: int| (rows[i].node_id@, rows[i].answer@))
}

/// Runs of pairs with the same node, each made one entry: the node and its
/// texts in their order.
pub open spec fn group_runs(s: Seq<(Seq<char>, Seq<char>)>) -> Seq<(Seq<char>, Seq<Seq<char>>)>
    decreases s.len(),
{
    if s.len() == 0 {
        Seq::empty()
    } else {
        let g = group_runs(s.drop_last());
        let x = s.last();
        if g.len() > 0 && g.last().0 == x.0 {
            g.update(g.len() - 1, (x.0, g.last().1.push(x.1)))
        } else {
            g.push((x.0, seq![x.1]))
        }
    }
}

/// The kept answers grouped by node: nodes in text order, each node's
/// answers by their place.
pub open spec fn grouped_answers(rows: Seq<AlternativeAnswerRow>, nodes: Seq<NodeRow>) -> Seq<(Seq<char>, Seq<Seq<char>>)> {
    let kept = kept_rows(rows, nodes, rows.len() as int);
    group_runs(permuted(answer_pairs(rows, kept), sorted_by(answer_keys(rows, kept))))
}

pub open spec fn groups_view(v: Seq<(String, Vec<String>)>) -> Seq<(Seq<char>, Seq<Seq<char>>)> {
    v.map_values(|g: (String, Vec<String>)| (g.0@, g.1@.map_values(|s: String| s@)))
}

pub open spec fn node_problems_view(v: Seq<(String, GraphProblem)>) -> Seq<(Seq<char>, ProblemView)> {
    v.map_values(|p: (String, GraphProblem)| (p.0@, problem_view(p.1)))
}

fn has_node(nodes: &Vec<NodeRow>, id: &str) -> (r: bool)
    ensures
        r == node_listed(nodes@, id@),
{
    let mut j: usize = 0;
    while j < nodes.len()
        invariant
            j <= nodes.len(),
            forall|k: int| 0 <= k < j ==> (#[trigger] nodes@[k]).id@ != id@,
        decreases nodes.len() - j,
    {
        if str_eq(nodes[j].id.as_str(), id) {
            return true;
        }
        j += 1;
    }
    false
}

fn seen_before(rows: &Vec<AlternativeAnswerRow>, i: usize) -> (r: bool)
    requires
        i < rows.len(),
    ensures
        r == order_seen_before(rows@, i as int),
{
    let mut j: usize = 0;
    while j < i
        invariant
            i < rows.len(),
            j <= i,
            forall|k: int|
                0 <= k < j ==> !((#[trigger] rows@[k]).node_id@ == rows@[i as int].node_id@
                    && rows@[k].answer_order == rows@[i as int].answer_order),
        decreases i - j,
    {
        if str_eq(rows[j].node_id.as_str(), rows[i].node_id.as_str()) && rows[j].answer_order
            == rows[i].answer_order {
            return true;
        }
        j += 1;
    }
    false
}

fn order_text(prefix: &str, n: i64) -> (r: String)
    ensures
        r@ == prefix@ + int_decimal(n as int) + "`"@,
{
    let d = i64_chars(n);
    let mut m = string_from_str(prefix);
    push_chars(&mut m, d.as_slice());
    push_str(&mut m, "`");
    m
}

fn row_reason(rows: &Vec<AlternativeAnswerRow>, nodes: &Vec<NodeRow>, i: usize) -> (r: Option<String>)
    requires
        i < rows.len(),
    ensures
        crate::store::opt_view(r) == answer_reason(rows@, nodes@, i as int),
{
    let row = &rows[i];
    if !is_valid_uuid_id(row.node_id.as_str()) {
        let mut m = string_from_str("invalid node id: ");
        push_str(&mut m, row.node_id.as_str());
        return Some(m);
    }
    if !has_node(nodes, row.node_id.as_str()) {
        return Some(string_from_str("alternative answer references missing node"));
    }
    if row.answer_order < 0 {
        return Some(order_text("invalid alternative answer order `", row.answer_order));
    }
    if seen_before(rows, i) {
        return Some(order_text("duplicate alternative answer order `", row.answer_order));
    }
    let text = chars_of(row.answer.as_str());
    if blank(text.as_slice()) {
        return Some(string_from_str("alternative answer must not be empty"));
    }
    None
}

/// The kept alternative answers grouped by node, and one problem, with its
/// node, for each refused row.
pub fn group_alternative_answers(
    rows: &Vec<AlternativeAnswerRow>,
    nodes: &Vec<NodeRow>,
    placements: &Vec<PlacementRow>,
) -> (r: (Vec<(String, Vec<String>)>, Vec<(String, GraphProblem)>))
    ensures
        groups_view(r.0@) == grouped_answers(rows@, nodes@),
        node_problems_view(r.1@) == answer_problems(rows@, nodes@, placements@, rows@.len() as int),
{
    let mut kept: Vec<usize> = Vec::new();
    let mut problems: Vec<(String, GraphProblem)> = Vec::new();
    let mut i: usize = 0;
    while i < rows.len()
        invariant
            i <= rows.len(),
            kept@.map_values(|k: usize| k as int) == kept_rows(rows@, nodes@, i as int),
            node_problems_view(problems@) == answer_problems(rows@, nodes@, placements@, i as int),
            forall|k: int| 0 <= k < kept.len() ==> (#[trigger] kept@[k]) < i,
        decreases rows.len() - i,
    {
        match row_reason(rows, nodes, i) {
            None => {
                let ghost before = kept@;
                kept.push(i);
                assert(kept@.map_values(|k: usize| k as int) =~= before.map_values(|k: usize| k as int).push(i as int));
            },
            Some(reason) => {
                let path = diagnostic_path_for_node(placements, &rows[i].node_id);
                let ghost before = problems@;
                let p = GraphProblem::InvalidMarkdown { path, reason };
                problems.push((rows[i].node_id.clone(), p));
                assert(node_problems_view(problems@) =~= node_problems_view(before).push(
                    (rows@[i as int].node_id@, problem_view(p)),
                ));
            },
        }
        i += 1;
    }
    let ghost kept_s = kept_rows(rows@, nodes@, rows@.len() as int);
    assert(kept_s.len() == kept.len());
    // sort the kept rows by node, then place
    let mut keys: Vec<SortKey> = Vec::new();
    let mut t: usize = 0;
    while t < kept.len()
        invariant
            t <= kept.len(),
            kept_s == kept@.map_values(|k: usize| k as int),
            forall|k: int| 0 <= k < kept.len() ==> (#[trigger] kept@[k]) < rows.len(),
            key_views(keys@) == answer_keys(rows@, kept_s.take(t as int)),
        decreases kept.len() - t,
    {
        let row = &rows[kept[t]];
        let ghost before = keys@;
        let b: Vec<char> = Vec::new();
        let c: Vec<char> = Vec::new();
        let key = SortKey { a: chars_of(row.node_id.as_str()), b, c, n: row.answer_order };
        assert(b@ =~= Seq::<char>::empty());
        assert(c@ =~= Seq::<char>::empty());
        let ghost kv = key.view();
        assert(kv == (rows@[kept@[t as int] as int].node_id@, Seq::<char>::empty(), Seq::<char>::empty(), rows@[kept@[t as int] as int].answer_order as int));
        keys.push(key);
        assert(key_views(keys@) =~= key_views(before).push(kv));
        assert(kept_s.take(t + 1) =~= kept_s.take(t as int).push(kept@[t as int] as int));
        assert(answer_keys(rows@, kept_s.take(t + 1)) =~= answer_keys(rows@, kept_s.take(t as int)).push(kv));
        assert(key_views(keys@) =~= answer_keys(rows@, kept_s.take(t + 1)));
        t += 1;
    }
    assert(kept_s.take(kept.len() as int) =~= kept_s);
    let p = sort_order(&keys);
    proof {
        crate::order::lemma_sorted_unique(key_views(keys@), p@);
    }
    let ghost sorted = permuted(answer_pairs(rows@, kept_s), sorted_by(answer_keys(rows@, kept_s)));
    proof {
        assert(key_views(keys@) == answer_keys(rows@, kept_s));
        assert forall|k: int| 0 <= k < p.len() implies #[trigger] sorted[k] == (rows@[kept@[p@[k] as int] as int].node_id@, rows@[kept@[p@[k] as int] as int].answer@) by {
            assert((p@[k] as int) < key_views(keys@).len());
        }
    }
    // walk the sorted rows, one entry per run of a node
    let mut groups: Vec<(String, Vec<String>)> = Vec::new();
    let mut cur: Option<(String, Vec<String>)> = None;
    let mut u: usize = 0;
    while u < p.len()
        invariant
            u <= p.len(),
            p.len() == kept.len(),
            sorted.len() == p.len(),
            kept_s == kept@.map_values(|k: usize| k as int),
            forall|k: int| 0 <= k < kept.len() ==> (#[trigger] kept@[k]) < rows.len(),
            forall|k: int| 0 <= k < p.len() ==> (#[trigger] p@[k]) < kept.len(),
            forall|k: int| 0 <= k < p.len() ==> #[trigger] sorted[k] == (rows@[kept@[p@[k] as int] as int].node_id@, rows@[kept@[p@[k] as int] as int].answer@),
            group_runs(sorted.take(u as int)) == match cur {
                None => groups_view(groups@),
                Some(c) => groups_view(groups@).push((c.0@, c.1@.map_values(|s: String| s@))),
            },
            u > 0 ==> cur is Some,
        decreases p.len() - u,
    {
        let row = &rows[kept[p[u]]];
        assert(sorted.take(u + 1).drop_last() =~= sorted.take(u as int));
        assert(sorted.take(u + 1).last() == sorted[u as int]);
        let ghost gv = groups_view(groups@);
        match cur {
            Some(c) => {
                if str_eq(c.0.as_str(), row.node_id.as_str()) {
                    let mut answers = c.1;
                    let ghost before = answers@;
                    answers.push(row.answer.clone());
                    assert(answers@.map_values(|s: String| s@) =~= before.map_values(|s: String| s@).push(row.answer@));
                    cur = Some((c.0, answers));
                } else {
                    let ghost cv = (c.0@, c.1@.map_values(|s: String| s@));
                    groups.push(c);
                    assert(groups_view(groups@) =~= gv.push(cv));
                    let mut answers: Vec<String> = Vec::new();
                    answers.push(row.answer.clone());
                    assert(answers@.map_values(|s: String| s@) =~= seq![row.answer@]);
                    cur = Some((row.node_id.clone(), answers));
                }
            },
            None => {
                let mut answers: Vec<String> = Vec::new();
                answers.push(row.answer.clone());
                assert(answers@.map_values(|s: String| s@) =~= seq![row.answer@]);
                assert(sorted.take(u as int).len() == 0);
                cur = Some((row.node_id.clone(), answers));
            },
        }
        u += 1;
    }
    if let Some(c) = cur {
        let ghost gv = groups_view(groups@);
        let ghost cv = (c.0@, c.1@.map_values(|s: String| s@));
        groups.push(c);
        assert(groups_view(groups@) =~= gv.push(cv));
    }
    assert(sorted.take(p.len() as int) =~= sorted);
    (groups, problems)
}

} // verus!
