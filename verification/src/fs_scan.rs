//! The rows of a filesystem graph, read from what its directory tree holds:
//! node directories become node rows and canonical entries, symlinks into
//! `roots/` become alias entries, and what cannot be read is reported.
use vstd::prelude::*;

use crate::graph::copy_kind;
use crate::ids::{is_valid_uuid_id, title_is_valid, uuid_shape, valid_title};
use crate::markdown::{parse_node_markdown, parse_node_spec, NodeDoc};
use crate::model::{GraphProblem, NodeContent, NodeKind};
use crate::scan::{problem_view, problems_view, ProblemView};
use crate::sqlite::{nrow, nrows, prow, prows, NodeRowView, PlacementRowView};
use crate::store::{NodeRow, PlacementRow};
use crate::text::{chars_of, find_last_dashes, push_str, rsplit_dashes, str_eq, string_from_str, string_of};

verus! {

/// What an entry of a container directory is.
#[derive(Debug, Clone, Copy, PartialEq, Eq)]
pub enum EntryKind {
    Directory,
    Symlink,
    Other,
}

/// One entry of a container directory (`roots/` or a node's `children/`),
/// as the directory tree shows it. Entries come in the order of a
/// depth-first walk: a directory's children after it, each container's
/// entries by name.
pub struct FsEntry {
    /// The node directory whose `children/` holds the entry; `None` in
    /// `roots/`.
    pub parent_dir: Option<String>,
    pub name: String,
    pub kind: EntryKind,
    /// For a symlink: the logical path and name of the directory it leads
    /// to, when that is an existing directory under `roots/`.
    pub target: Option<(String, String)>,
    /// The text of `node.md` in the directory (the target, for a symlink),
    /// when that is a regular file.
    pub node_md: Option<String>,
    /// The directory's `node.md` (the target's, for a symlink) is itself a
    /// symlink, which is not followed.
    pub node_md_link: bool,
    /// The directory (the target, for a symlink) has a real `children/`.
    pub children_dir: bool,
}

/// The container that holds entries of `parent_dir`.
pub open spec fn container_of(parent_dir: Option<Seq<char>>) -> Seq<char> {
    match parent_dir {
        None => "roots"@,
        Some(d) => d + "/children"@,
    }
}

pub open spec fn entry_path(e: FsEntry) -> Seq<char> {
    container_of(crate::store::opt_view(e.parent_dir)) + "/"@ + e.name@
}

/// The problems a node directory gives, and what its `node.md` says when
/// it can be read as a node.
pub open spec fn dir_check(dir: Seq<char>, name: Seq<char>, node_md_link: bool, node_md: Option<Seq<char>>, children_dir: bool) -> (
    Seq<ProblemView>,
    Option<NodeDoc>,
) {
    let nm = dir + "/node.md"@;
    if node_md_link {
        (seq![(0nat, nm, Seq::empty(), Seq::empty())], None)
    } else {
    match node_md {
        None => (seq![(4nat, dir, Seq::empty(), Seq::empty())], None),
        Some(text) => match parse_node_spec(nm, text) {
            Err(reason) => (seq![(6nat, nm, reason, Seq::empty())], None),
            Ok(doc) => if !uuid_shape(doc.0) {
                (seq![(6nat, nm, "invalid node id: "@ + doc.0, Seq::empty())], None)
            } else if !valid_title(doc.2) {
                (seq![(6nat, nm, "invalid title"@, Seq::empty())], None)
            } else if !(rsplit_dashes(name) matches Some(parts) && parts.1 == doc.0) {
                (seq![(6nat, nm, "node directory id suffix does not match metadata id"@, Seq::empty())], None)
            } else if !children_dir {
                (seq![(5nat, dir, Seq::empty(), Seq::empty())], Some(doc))
            } else {
                (Seq::empty(), Some(doc))
            },
        },
    }
    }
}

/// A timestamp as an SQLite integer, the largest when it does not fit.
pub open spec fn stamp(u: u64) -> i64 {
    if u <= i64::MAX {
        u as i64
    } else {
        i64::MAX
    }
}

/// The node row of a node's Markdown.
pub open spec fn doc_row(doc: NodeDoc) -> NodeRowView {
    if doc.1 == NodeKind::Statement {
        (doc.0, "statement"@, doc.2, Some(doc.3), None, None, stamp(doc.5), stamp(doc.6), 0)
    } else {
        (doc.0, "qa"@, doc.2, None, Some(doc.3), Some(doc.4), stamp(doc.5), stamp(doc.6), 0)
    }
}

/// The slug part of an entry name: what comes before its last `--`.
pub open spec fn name_slug(name: Seq<char>) -> Seq<char> {
    match rsplit_dashes(name) {
        Some(parts) => parts.0,
        None => Seq::empty(),
    }
}

/// The node directories read so far (path and id), the rows, and the
/// problems.
pub type ScanState = (Seq<(Seq<char>, Seq<char>)>, Seq<NodeRowView>, Seq<PlacementRowView>, Seq<ProblemView>);

/// The id of the node read from directory `dir`, if it was read.
pub open spec fn read_dir_id(read: Seq<(Seq<char>, Seq<char>)>, dir: Seq<char>) -> Option<Seq<char>>
    decreases read.len(),
{
    if read.len() == 0 {
        None
    } else if read[0].0 == dir {
        Some(read[0].1)
    } else {
        read_dir_id(read.drop_first(), dir)
    }
}

pub open spec fn has_row_for(nodes: Seq<NodeRowView>, id: Seq<char>) -> bool {
    exists|i: int| 0 <= i < nodes.len() && (#[trigger] nodes[i]).0 == id
}

/// The rows with node `doc` added once.
pub open spec fn with_node(nodes: Seq<NodeRowView>, doc: NodeDoc) -> Seq<NodeRowView> {
    if has_row_for(nodes, doc.0) {
        nodes
    } else {
        nodes.push(doc_row(doc))
    }
}

/// The state after entry `e`. An entry whose parent directory was not
/// read as a node is not looked at: its container is not scanned.
pub open spec fn entry_step(st: ScanState, e: FsEntry) -> ScanState {
    let parent = match crate::store::opt_view(e.parent_dir) {
        None => Some(None::<Seq<char>>),
        Some(d) => match read_dir_id(st.0, d) {
            Some(id) => Some(Some(id)),
            None => None,
        },
    };
    let path = entry_path(e);
    let rid = (st.2.len() + 1) as i64;
    match parent {
        None => st,
        Some(pid) => match e.kind {
            EntryKind::Other => st,
            EntryKind::Directory => {
                let (ps, doc) = dir_check(path, e.name@, e.node_md_link, crate::store::opt_view(e.node_md), e.children_dir);
                match doc {
                    None => (st.0, st.1, st.2, st.3 + ps),
                    Some(d) => (
                        st.0.push((path, d.0)),
                        with_node(st.1, d),
                        st.2.push((rid, d.0, pid, name_slug(e.name@), path, 1)),
                        st.3 + ps,
                    ),
                }
            },
            EntryKind::Symlink => match e.target {
                None => (st.0, st.1, st.2, st.3.push((0nat, path, Seq::empty(), Seq::empty()))),
                Some(t) => {
                    let (ps, doc) = dir_check(t.0@, t.1@, e.node_md_link, crate::store::opt_view(e.node_md), e.children_dir);
                    match doc {
                        None => (st.0, st.1, st.2, st.3 + ps.push((0nat, path, Seq::empty(), Seq::empty()))),
                        Some(d) => (
                            st.0,
                            with_node(st.1, d),
                            st.2.push((rid, d.0, pid, name_slug(e.name@), path, 0)),
                            st.3 + ps,
                        ),
                    }
                },
            },
        },
    }
}

/// The state after the first `n` entries.
pub open spec fn scan_upto(entries: Seq<FsEntry>, n: int) -> ScanState
    decreases n,
{
    if n <= 0 {
        (Seq::empty(), Seq::empty(), Seq::empty(), Seq::empty())
    } else {
        entry_step(scan_upto(entries, n - 1), entries[n - 1])
    }
}

pub open spec fn read_view(v: Seq<(String, String)>) -> Seq<(Seq<char>, Seq<char>)> {
    v.map_values(|x: (String, String)| (x.0@, x.1@))
}

fn problem(tag: u8, path: String, reason: String) -> (p: GraphProblem)
    requires
        tag == 0 || tag == 4 || tag == 5 || tag == 6,
    ensures
        problem_view(p) == (tag as nat, path@, if tag == 6 {
            reason@
        } else {
            Seq::<char>::empty()
        }, Seq::<Seq<char>>::empty()),
{
    if tag == 0 {
        GraphProblem::BrokenSymlink { path }
    } else if tag == 4 {
        GraphProblem::MissingNodeMarkdown { path }
    } else if tag == 5 {
        GraphProblem::MissingChildrenDirectory { path }
    } else {
        GraphProblem::InvalidMarkdown { path, reason }
    }
}

fn suffix_is(name: &String, id: &String) -> (r: bool)
    ensures
        r == (rsplit_dashes(name@) matches Some(parts) && parts.1 == id@),
{
    let n = chars_of(name.as_str());
    match find_last_dashes(n.as_slice()) {
        None => false,
        Some(k) => {
            let tail = crate::text::slice_vec(n.as_slice(), k + 2, n.len());
            let idc = chars_of(id.as_str());
            crate::text::chars_eq(tail.as_slice(), idc.as_slice())
        },
    }
}

fn slug_of_name(name: &String) -> (r: String)
    ensures
        r@ == name_slug(name@),
{
    let n = chars_of(name.as_str());
    match find_last_dashes(n.as_slice()) {
        None => String::new(),
        Some(k) => {
            let head = crate::text::slice_vec(n.as_slice(), 0, k);
            string_of(head.as_slice())
        },
    }
}

/// Reads a node directory: its problems, and its node when it is one.
fn check_dir(dir: &String, name: &String, node_md_link: bool, node_md: &Option<String>, children_dir: bool) -> (r: (
    Vec<GraphProblem>,
    Option<crate::markdown::ParsedNode>,
))
    ensures
        problems_view(r.0@) == dir_check(dir@, name@, node_md_link, crate::store::opt_view(*node_md), children_dir).0,
        match r.1 {
            Some(p) => dir_check(dir@, name@, node_md_link, crate::store::opt_view(*node_md), children_dir).1 == Some(p.doc())
                && p.kind == crate::markdown::kind_of(p.content),
            None => dir_check(dir@, name@, node_md_link, crate::store::opt_view(*node_md), children_dir).1 is None,
        },
{
    let mut nm = dir.clone();
    push_str(&mut nm, "/node.md");
    let mut out: Vec<GraphProblem> = Vec::new();
    if node_md_link {
        out.push(problem(0, nm, String::new()));
        proof {
            assert(problems_view(out@) =~= seq![(0nat, dir@ + "/node.md"@, Seq::<char>::empty(), Seq::<Seq<char>>::empty())]);
        }
        return (out, None);
    }
    match node_md {
        None => {
            out.push(problem(4, dir.clone(), String::new()));
            proof {
                assert(problems_view(out@) =~= seq![(4nat, dir@, Seq::<char>::empty(), Seq::<Seq<char>>::empty())]);
            }
            (out, None)
        },
        Some(text) => match parse_node_markdown(nm.as_str(), text.as_str()) {
            Err(reason) => {
                out.push(problem(6, nm, reason));
                proof {
                    assert(problems_view(out@) =~= seq![(6nat, dir@ + "/node.md"@, problem_view(out@[0]).2, Seq::<Seq<char>>::empty())]);
                }
                (out, None)
            },
            Ok(p) => {
                if !is_valid_uuid_id(p.id.as_str()) {
                    let mut m = string_from_str("invalid node id: ");
                    push_str(&mut m, p.id.as_str());
                    out.push(problem(6, nm, m));
                    proof {
                        assert(problems_view(out@) =~= seq![(6nat, dir@ + "/node.md"@, "invalid node id: "@ + p.id@, Seq::<Seq<char>>::empty())]);
                    }
                    (out, None)
                } else if !title_is_valid(p.title.as_str()) {
                    out.push(problem(6, nm, string_from_str("invalid title")));
                    proof {
                        assert(problems_view(out@) =~= seq![(6nat, dir@ + "/node.md"@, "invalid title"@, Seq::<Seq<char>>::empty())]);
                    }
                    (out, None)
                } else if !suffix_is(name, &p.id) {
                    out.push(problem(6, nm, string_from_str("node directory id suffix does not match metadata id")));
                    proof {
                        assert(problems_view(out@) =~= seq![(6nat, dir@ + "/node.md"@, "node directory id suffix does not match metadata id"@, Seq::<Seq<char>>::empty())]);
                    }
                    (out, None)
                } else if !children_dir {
                    out.push(problem(5, dir.clone(), String::new()));
                    proof {
                        assert(problems_view(out@) =~= seq![(5nat, dir@, Seq::<char>::empty(), Seq::<Seq<char>>::empty())]);
                    }
                    (out, Some(p))
                } else {
                    proof {
                        assert(problems_view(out@) =~= Seq::<ProblemView>::empty());
                    }
                    (out, Some(p))
                }
            },
        },
    }
}

fn stamp_of(u: u64) -> (r: i64)
    ensures
        r == stamp(u),
{
    if u <= 0x7fff_ffff_ffff_ffffu64 {
        u as i64
    } else {
        0x7fff_ffff_ffff_ffff
    }
}

fn row_of_parsed(p: &crate::markdown::ParsedNode) -> (r: NodeRow)
    requires
        p.kind == crate::markdown::kind_of(p.content),
    ensures
        nrow(r) == doc_row(p.doc()),
{
    let created = stamp_of(p.created_at_unix);
    let updated = stamp_of(p.updated_at_unix);
    match &p.content {
        NodeContent::Statement { body } => NodeRow {
            id: p.id.clone(),
            kind: string_from_str("statement"),
            title: p.title.clone(),
            reviewed: 0,
            statement_body: Some(body.clone()),
            qa_question: None,
            qa_answer: None,
            created_at_unix: created,
            updated_at_unix: updated,
        },
        NodeContent::QuestionAnswer { question, answer } => NodeRow {
            id: p.id.clone(),
            kind: string_from_str("qa"),
            title: p.title.clone(),
            reviewed: 0,
            statement_body: None,
            qa_question: Some(question.clone()),
            qa_answer: Some(answer.clone()),
            created_at_unix: created,
            updated_at_unix: updated,
        },
    }
}

fn find_read_dir(read: &Vec<(String, String)>, dir: &String) -> (r: Option<String>)
    ensures
        crate::store::opt_view(r) == read_dir_id(read_view(read@), dir@),
{
    let ghost rv = read_view(read@);
    assert(rv.skip(0) =~= rv);
    let mut i: usize = 0;
    while i < read.len()
        invariant
            i <= read.len(),
            rv == read_view(read@),
            read_dir_id(rv, dir@) == read_dir_id(rv.skip(i as int), dir@),
        decreases read.len() - i,
    {
        assert(rv.skip(i as int)[0] == (read@[i as int].0@, read@[i as int].1@));
        if crate::scan::str_same(&read[i].0, dir) {
            return Some(read[i].1.clone());
        }
        assert(rv.skip(i as int).drop_first() =~= rv.skip(i + 1));
        i += 1;
    }
    assert(rv.skip(i as int).len() == 0);
    None
}

fn has_row_id(nodes: &Vec<NodeRow>, id: &String) -> (r: bool)
    ensures
        r == has_row_for(nrows(nodes@), id@),
{
    let mut i: usize = 0;
    while i < nodes.len()
        invariant
            i <= nodes.len(),
            forall|k: int| 0 <= k < i ==> (#[trigger] nodes@[k]).id@ != id@,
        decreases nodes.len() - i,
    {
        if crate::scan::str_same(&nodes[i].id, id) {
            assert(nrows(nodes@)[i as int].0 == id@);
            return true;
        }
        i += 1;
    }
    assert forall|k: int| 0 <= k < nrows(nodes@).len() implies (#[trigger] nrows(nodes@)[k]).0 != id@ by {
        assert(nrows(nodes@)[k] == nrow(nodes@[k]));
    }
    false
}

fn add_node_once(nodes: &mut Vec<NodeRow>, p: &crate::markdown::ParsedNode)
    requires
        p.kind == crate::markdown::kind_of(p.content),
    ensures
        nrows(final(nodes)@) == with_node(nrows(old(nodes)@), p.doc()),
{
    if !has_row_id(nodes, &p.id) {
        let row = row_of_parsed(p);
        let ghost before = nodes@;
        nodes.push(row);
        assert(nrows(nodes@) =~= nrows(before).push(nrow(row)));
    }
}

fn append_problems(dst: &mut Vec<GraphProblem>, src: Vec<GraphProblem>)
    ensures
        problems_view(final(dst)@) == problems_view(old(dst)@) + problems_view(src@),
{
    let mut src = src;
    let ghost a = problems_view(dst@);
    let ghost b = problems_view(src@);
    dst.append(&mut src);
    assert(problems_view(dst@) =~= a + b);
}

/// The rows of a filesystem graph and the problems of its directory tree,
/// from its entries in depth-first order.
pub fn scan_entries(entries: &Vec<FsEntry>) -> (r: (crate::store::Tables, Vec<GraphProblem>))
    requires
        entries@.len() < 0x7fff_ffff_ffff_ffff,
    ensures
        nrows(r.0.nodes@) == scan_upto(entries@, entries@.len() as int).1,
        prows(r.0.placements@) == scan_upto(entries@, entries@.len() as int).2,
        problems_view(r.1@) == scan_upto(entries@, entries@.len() as int).3,
        r.0.contexts@.len() == 0,
        r.0.reserved@.map_values(|s: String| s@) == unplaced_paths(entries@, r.0.placements@, entries@.len() as int),
{
    let mut read: Vec<(String, String)> = Vec::new();
    let mut nodes: Vec<NodeRow> = Vec::new();
    let mut places: Vec<PlacementRow> = Vec::new();
    let mut problems: Vec<GraphProblem> = Vec::new();
    proof {
        assert(read_view(read@) =~= Seq::<(Seq<char>, Seq<char>)>::empty());
        assert(nrows(nodes@) =~= Seq::<NodeRowView>::empty());
        assert(prows(places@) =~= Seq::<PlacementRowView>::empty());
        assert(problems_view(problems@) =~= Seq::<ProblemView>::empty());
    }
    let mut i: usize = 0;
    while i < entries.len()
        invariant
            i <= entries.len(),
            places@.len() <= i,
            entries@.len() < 0x7fff_ffff_ffff_ffff,
            (read_view(read@), nrows(nodes@), prows(places@), problems_view(problems@)) == scan_upto(entries@, i as int),
        decreases entries.len() - i,
    {
        let e = &entries[i];
        let ghost st = scan_upto(entries@, i as int);
        assert(scan_upto(entries@, i + 1) == entry_step(st, entries@[i as int]));
        let parent: Option<Option<String>> = match &e.parent_dir {
            None => Some(None),
            Some(d) => match find_read_dir(&read, d) {
                Some(id) => Some(Some(id)),
                None => None,
            },
        };
        let mut path = match &e.parent_dir {
            None => string_from_str("roots"),
            Some(d) => {
                let mut c = d.clone();
                push_str(&mut c, "/children");
                c
            },
        };
        push_str(&mut path, "/");
        push_str(&mut path, e.name.as_str());
        proof {
            assert(path@ == entry_path(*e));
        }
        let rid = (places.len() as i64) + 1;
        match parent {
            None => {},
            Some(pid) => {
                let ghost pv = crate::store::opt_view(pid);
                match e.kind {
                    EntryKind::Other => {},
                    EntryKind::Directory => {
                        let (ps, doc) = check_dir(&path, &e.name, e.node_md_link, &e.node_md, e.children_dir);
                        match doc {
                            None => {
                                append_problems(&mut problems, ps);
                            },
                            Some(d) => {
                                let ghost before_read = read@;
                                read.push((path.clone(), d.id.clone()));
                                assert(read_view(read@) =~= read_view(before_read).push((path@, d.id@)));
                                add_node_once(&mut nodes, &d);
                                let row = PlacementRow {
                                    row_id: rid,
                                    node_id: d.id.clone(),
                                    parent_id: pid,
                                    slug: slug_of_name(&e.name),
                                    logical_path: path,
                                    is_canonical: 1,
                                };
                                let ghost before_places = places@;
                                places.push(row);
                                assert(prows(places@) =~= prows(before_places).push(prow(row)));
                                append_problems(&mut problems, ps);
                            },
                        }
                    },
                    EntryKind::Symlink => {
                        match &e.target {
                            None => {
                                let ghost before = problems@;
                                problems.push(problem(0, path, String::new()));
                                assert(problems_view(problems@) =~= problems_view(before).push(
                                    (0nat, entry_path(*e), Seq::<char>::empty(), Seq::<Seq<char>>::empty()),
                                ));
                            },
                            Some(t) => {
                                let (mut ps, doc) = check_dir(&t.0, &t.1, e.node_md_link, &e.node_md, e.children_dir);
                                match doc {
                                    None => {
                                        let ghost before_ps = ps@;
                                        ps.push(problem(0, path, String::new()));
                                        assert(problems_view(ps@) =~= problems_view(before_ps).push(
                                            (0nat, entry_path(*e), Seq::<char>::empty(), Seq::<Seq<char>>::empty()),
                                        ));
                                        append_problems(&mut problems, ps);
                                    },
                                    Some(d) => {
                                        add_node_once(&mut nodes, &d);
                                        let row = PlacementRow {
                                            row_id: rid,
                                            node_id: d.id.clone(),
                                            parent_id: pid,
                                            slug: slug_of_name(&e.name),
                                            logical_path: path,
                                            is_canonical: 0,
                                        };
                                        let ghost before_places = places@;
                                        places.push(row);
                                        assert(prows(places@) =~= prows(before_places).push(prow(row)));
                                        append_problems(&mut problems, ps);
                                    },
                                }
                            },
                        }
                    },
                }
            },
        }
        i += 1;
    }
    let reserved = unplaced(entries, &places);
    (crate::store::Tables { nodes, placements: places, contexts: Vec::new(), reserved, answers: Vec::new() }, problems)
}

/// Some row is at path `p`.
pub open spec fn row_at(ps: Seq<PlacementRow>, p: Seq<char>) -> bool {
    exists|i: int| 0 <= i < ps.len() && (#[trigger] ps[i]).logical_path@ == p
}

/// The paths of the first `n` entries that no row is at, in order.
pub open spec fn unplaced_paths(es: Seq<FsEntry>, ps: Seq<PlacementRow>, n: int) -> Seq<Seq<char>>
    decreases n,
{
    if n <= 0 {
        Seq::empty()
    } else if row_at(ps, entry_path(es[n - 1])) {
        unplaced_paths(es, ps, n - 1)
    } else {
        unplaced_paths(es, ps, n - 1).push(entry_path(es[n - 1]))
    }
}

fn row_is_at(ps: &Vec<PlacementRow>, p: &String) -> (r: bool)
    ensures
        r == row_at(ps@, p@),
{
    let mut i: usize = 0;
    while i < ps.len()
        invariant
            i <= ps.len(),
            forall|k: int| 0 <= k < i ==> (#[trigger] ps@[k]).logical_path@ != p@,
        decreases ps.len() - i,
    {
        if str_eq(ps[i].logical_path.as_str(), p.as_str()) {
            return true;
        }
        i += 1;
    }
    false
}

/// The paths of the entries that gave no row.
fn unplaced(entries: &Vec<FsEntry>, ps: &Vec<PlacementRow>) -> (r: Vec<String>)
    ensures
        r@.map_values(|s: String| s@) == unplaced_paths(entries@, ps@, entries@.len() as int),
{
    let mut out: Vec<String> = Vec::new();
    let mut i: usize = 0;
    while i < entries.len()
        invariant
            i <= entries.len(),
            out@.map_values(|s: String| s@) == unplaced_paths(entries@, ps@, i as int),
        decreases entries.len() - i,
    {
        let e = &entries[i];
        let mut path = match &e.parent_dir {
            None => string_from_str("roots"),
            Some(d) => {
                let mut c = d.clone();
                push_str(&mut c, "/children");
                c
            },
        };
        push_str(&mut path, "/");
        push_str(&mut path, e.name.as_str());
        proof {
            reveal_strlit("roots");
            reveal_strlit("/children");
            reveal_strlit("/");
            assert(path@ == entry_path(*e));
        }
        if !row_is_at(ps, &path) {
            let ghost before = out@;
            out.push(path);
            assert(out@.map_values(|s: String| s@) =~= before.map_values(|s: String| s@).push(entry_path(entries@[i as int])));
        }
        i += 1;
    }
    out
}

/// The node a problem path names: the id its last component ends with,
/// or, for a `node.md`, the id of the directory holding it.
pub open spec fn problem_node_id(path: Seq<char>) -> Option<Seq<char>> {
    match crate::paths::node_id_of_path(path) {
        Some(id) => Some(id),
        None => if crate::paths::last_component(path) == "node.md"@ {
            crate::paths::node_id_of_path(crate::paths::parent_path(path))
        } else {
            None
        },
    }
}

/// The path of the first broken symlink that names node `id`.
pub open spec fn first_broken_for(ps: Seq<ProblemView>, id: Seq<char>) -> Option<Seq<char>>
    decreases ps.len(),
{
    if ps.len() == 0 {
        None
    } else if ps[0].0 == 0 && problem_node_id(ps[0].1) == Some(id) {
        Some(ps[0].1)
    } else {
        first_broken_for(ps.drop_first(), id)
    }
}

/// The path of the first broken symlink directly in directory `dir`.
pub open spec fn first_broken_under(ps: Seq<ProblemView>, dir: Seq<char>) -> Option<Seq<char>>
    decreases ps.len(),
{
    if ps.len() == 0 {
        None
    } else if ps[0].0 == 0 && crate::paths::parent_path(ps[0].1) == dir {
        Some(ps[0].1)
    } else {
        first_broken_under(ps.drop_first(), dir)
    }
}

fn names_node(path: &String, id: &str) -> (r: bool)
    ensures
        r == (problem_node_id(path@) == Some(id@)),
{
    let p = chars_of(path.as_str());
    match crate::paths::node_id_from_logical_path(path.as_str()) {
        Some(n) => str_eq(n.as_str(), id),
        None => {
            let last = crate::paths::last_component_chars(p.as_slice());
            let nm = chars_of("node.md");
            if crate::text::chars_eq(last.as_slice(), nm.as_slice()) {
                let parent = crate::paths::parent_chars(p.as_slice());
                let ps = string_of(parent.as_slice());
                match crate::paths::node_id_from_logical_path(ps.as_str()) {
                    Some(n) => str_eq(n.as_str(), id),
                    None => false,
                }
            } else {
                false
            }
        },
    }
}

/// The first broken symlink among `ps` that names node `id`.
pub fn broken_for(ps: &Vec<GraphProblem>, id: &str) -> (r: Option<String>)
    ensures
        crate::store::opt_view(r) == first_broken_for(problems_view(ps@), id@),
{
    let ghost pv = problems_view(ps@);
    assert(pv.skip(0) =~= pv);
    let mut i: usize = 0;
    while i < ps.len()
        invariant
            i <= ps.len(),
            pv == problems_view(ps@),
            first_broken_for(pv, id@) == first_broken_for(pv.skip(i as int), id@),
        decreases ps.len() - i,
    {
        assert(pv.skip(i as int)[0] == problem_view(ps@[i as int]));
        if let GraphProblem::BrokenSymlink { path } = &ps[i] {
            if names_node(path, id) {
                return Some(path.clone());
            }
        }
        assert(pv.skip(i as int).drop_first() =~= pv.skip(i + 1));
        i += 1;
    }
    assert(pv.skip(i as int).len() == 0);
    None
}

/// The first broken symlink among `ps` directly in directory `dir`.
pub fn broken_under(ps: &Vec<GraphProblem>, dir: &String) -> (r: Option<String>)
    ensures
        crate::store::opt_view(r) == first_broken_under(problems_view(ps@), dir@),
{
    let ghost pv = problems_view(ps@);
    assert(pv.skip(0) =~= pv);
    let mut i: usize = 0;
    while i < ps.len()
        invariant
            i <= ps.len(),
            pv == problems_view(ps@),
            first_broken_under(pv, dir@) == first_broken_under(pv.skip(i as int), dir@),
        decreases ps.len() - i,
    {
        assert(pv.skip(i as int)[0] == problem_view(ps@[i as int]));
        if let GraphProblem::BrokenSymlink { path } = &ps[i] {
            let p = chars_of(path.as_str());
            let parent = crate::paths::parent_chars(p.as_slice());
            let d = chars_of(dir.as_str());
            if crate::text::chars_eq(parent.as_slice(), d.as_slice()) {
                return Some(path.clone());
            }
        }
        assert(pv.skip(i as int).drop_first() =~= pv.skip(i + 1));
        i += 1;
    }
    assert(pv.skip(i as int).len() == 0);
    None
}

/// The directory that holds the children of the node at `cp`.
pub open spec fn children_dir(cp: Seq<char>) -> Seq<char> {
    cp + "/children"@
}

/// The first broken symlink in the children directory of the nodes at
/// `cps`, taken in order.
pub open spec fn first_broken_below(ps: Seq<ProblemView>, cps: Seq<Seq<char>>) -> Option<Seq<char>>
    decreases cps.len(),
{
    if cps.len() == 0 {
        None
    } else if first_broken_under(ps, children_dir(cps[0])) is Some {
        first_broken_under(ps, children_dir(cps[0]))
    } else {
        first_broken_below(ps, cps.drop_first())
    }
}

/// The first broken symlink among `ps` in the children directory of one
/// of the nodes at `cps`, those taken in order.
pub fn broken_below(ps: &Vec<GraphProblem>, cps: &Vec<String>) -> (r: Option<String>)
    ensures
        crate::store::opt_view(r) == first_broken_below(problems_view(ps@), cps@.map_values(|c: String| c@)),
{
    let ghost all = cps@.map_values(|c: String| c@);
    assert(all.skip(0) =~= all);
    let mut i: usize = 0;
    while i < cps.len()
        invariant
            i <= cps.len(),
            all == cps@.map_values(|c: String| c@),
            first_broken_below(problems_view(ps@), all) == first_broken_below(problems_view(ps@), all.skip(i as int)),
        decreases cps.len() - i,
    {
        assert(all.skip(i as int)[0] == cps@[i as int]@);
        let mut dir = cps[i].clone();
        push_str(&mut dir, "/children");
        let found = broken_under(ps, &dir);
        if found.is_some() {
            return found;
        }
        assert(all.skip(i as int).drop_first() =~= all.skip(i + 1));
        i += 1;
    }
    assert(all.skip(i as int).len() == 0);
    None
}

/// The tree reports that the node directory `cp` has no real `children/`.
pub open spec fn children_missing(ps: Seq<ProblemView>, cp: Seq<char>) -> bool {
    exists|i: int| 0 <= i < ps.len() && (#[trigger] ps[i]).0 == 5 && ps[i].1 == cp
}

/// Whether `ps` reports that the node directory `cp` has no real
/// `children/`.
pub fn lacks_children(ps: &Vec<GraphProblem>, cp: &String) -> (r: bool)
    ensures
        r == children_missing(problems_view(ps@), cp@),
{
    let ghost pv = problems_view(ps@);
    let mut i: usize = 0;
    while i < ps.len()
        invariant
            i <= ps.len(),
            pv == problems_view(ps@),
            forall|j: int| 0 <= j < i ==> !((#[trigger] pv[j]).0 == 5 && pv[j].1 == cp@),
        decreases ps.len() - i,
    {
        assert(pv[i as int] == problem_view(ps@[i as int]));
        if let GraphProblem::MissingChildrenDirectory { path } = &ps[i] {
            if str_eq(path.as_str(), cp.as_str()) {
                return true;
            }
        }
        i += 1;
    }
    false
}

} // verus!
