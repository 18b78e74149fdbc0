//! The stored rows of one graph namespace, as the SQLite tables hold them,
//! and the checks each row must pass to enter the graph.
use vstd::prelude::*;

use crate::decimal::{i64_chars, int_decimal};
use crate::ids::{is_valid_uuid_id, title_is_valid, uuid_shape, valid_title};
use crate::markdown::{content_parts, kind_of};
use crate::model::{error_message, GraphError, GraphProblem, NodeContent, NodeKind};
use crate::paths::{
    context_filename_check, context_path, has_control_char, logical_context_path,
    logical_path_check, validate_context_filename, validate_logical_path,
};
use crate::text::{blank, chars_eq, chars_of, has_control, is_blank, push_chars, push_str, str_eq, string_from_str};

verus! {

/// A row of `focal_nodes`.
#[derive(Debug, Clone, PartialEq, Eq)]
pub struct NodeRow {
    pub id: String,
    pub kind: String,
    pub title: String,
    pub reviewed: i64,
    pub statement_body: Option<String>,
    pub qa_question: Option<String>,
    pub qa_answer: Option<String>,
    pub created_at_unix: i64,
    pub updated_at_unix: i64,
}

/// A row of `focal_placements`: one entry of a node under a parent, or
/// under `roots` when `parent_id` is `None`.
#[derive(Debug, Clone, PartialEq, Eq)]
pub struct PlacementRow {
    pub row_id: i64,
    pub node_id: String,
    pub parent_id: Option<String>,
    pub slug: String,
    pub logical_path: String,
    pub is_canonical: i64,
}

/// A row of `focal_context_documents`.
#[derive(Debug, Clone, PartialEq, Eq)]
pub struct ContextRow {
    pub id: String,
    pub slug: String,
    pub filename: String,
    pub title: String,
    pub markdown: String,
    pub created_at_unix: i64,
    pub updated_at_unix: i64,
}

/// The rows of one graph: node rows in id order, placement rows in
/// logical-path order, context rows in title order.
#[derive(Debug, Clone, PartialEq, Eq)]
pub struct Tables {
    pub nodes: Vec<NodeRow>,
    pub placements: Vec<PlacementRow>,
    pub contexts: Vec<ContextRow>,
    /// Logical paths that entries on disk hold without being placement
    /// rows (a broken link, a directory that is not a node): no new entry
    /// is given one of them.
    pub reserved: Vec<String>,
    /// The stored alternative answers of question nodes, in the order the
    /// store gives them (by node, then by place).
    pub answers: Vec<crate::answers::AlternativeAnswerRow>,
}

pub open spec fn opt_view(o: Option<String>) -> Option<Seq<char>> {
    match o {
        Some(s) => Some(s@),
        None => None,
    }
}

pub fn copy_opt(o: &Option<String>) -> (r: Option<String>)
    ensures
        opt_view(r) == opt_view(*o),
{
    match o {
        Some(s) => Some(s.clone()),
        None => None,
    }
}

// ---------------------------------------------------------------------------
// node rows
// ---------------------------------------------------------------------------

/// Why a node row cannot enter the graph, if it cannot.
pub open spec fn node_reason(row: NodeRow) -> Option<Seq<char>> {
    if !uuid_shape(row.id@) {
        Some(error_message(GraphError::InvalidNodeId(row.id)))
    } else if !valid_title(row.title@) {
        Some("invalid title"@)
    } else if row.kind@ != "statement"@ && row.kind@ != "qa"@ {
        Some("unsupported kind `"@ + row.kind@ + "`"@)
    } else if row.created_at_unix < 0 {
        Some("created_at_unix must not be negative"@)
    } else if row.updated_at_unix < 0 {
        Some("updated_at_unix must not be negative"@)
    } else if row.reviewed != 0 && row.reviewed != 1 {
        Some("invalid reviewed value `"@ + int_decimal(row.reviewed as int) + "`"@)
    } else if row.kind@ == "statement"@ {
        if row.statement_body is Some && row.qa_question is None && row.qa_answer is None {
            None
        } else {
            Some("statement node content fields are inconsistent"@)
        }
    } else if row.statement_body is None && row.qa_question is Some && row.qa_answer is Some {
        if is_blank(row.qa_question->0@) {
            Some("question must not be empty"@)
        } else {
            None
        }
    } else {
        Some("question-answer node content fields are inconsistent"@)
    }
}

/// The kind a valid node row has.
pub open spec fn row_kind(row: NodeRow) -> NodeKind {
    if row.kind@ == "statement"@ {
        NodeKind::Statement
    } else {
        NodeKind::QuestionAnswer
    }
}

/// The content texts of a valid node row (body and nothing, or question
/// and answer).
pub open spec fn row_parts(row: NodeRow) -> (Seq<char>, Seq<char>) {
    if row.kind@ == "statement"@ {
        (row.statement_body->0@, Seq::empty())
    } else {
        (row.qa_question->0@, row.qa_answer->0@)
    }
}

/// A node as the scan reads it, before its placements are attached.
#[derive(Debug, Clone, PartialEq, Eq)]
pub struct NodeFields {
    pub id: String,
    pub kind: NodeKind,
    pub title: String,
    pub reviewed: bool,
    pub content: NodeContent,
    pub created_at_unix: u64,
    pub updated_at_unix: u64,
}

pub open spec fn fields_match_row(f: NodeFields, row: NodeRow) -> bool {
    &&& f.id@ == row.id@
    &&& f.reviewed == (row.reviewed == 1)
    &&& f.kind == row_kind(row)
    &&& kind_of(f.content) == row_kind(row)
    &&& f.title@ == row.title@
    &&& content_parts(f.content) == row_parts(row)
    &&& f.created_at_unix as int == row.created_at_unix as int
    &&& f.updated_at_unix as int == row.updated_at_unix as int
}

pub open spec fn invalid_markdown(p: GraphProblem, path: Seq<char>, reason: Seq<char>) -> bool {
    p matches GraphProblem::InvalidMarkdown { path: pp, reason: rr } && pp@ == path && rr@ == reason
}

pub open spec fn invalid_context(p: GraphProblem, path: Seq<char>, reason: Seq<char>) -> bool {
    p matches GraphProblem::InvalidContextMarkdown { path: pp, reason: rr } && pp@ == path && rr@
        == reason
}

fn problem_at(path: &String, reason: String) -> (p: GraphProblem)
    ensures
        invalid_markdown(p, path@, reason@),
{
    GraphProblem::InvalidMarkdown { path: path.clone(), reason }
}

fn quoted_text(prefix: &str, x: &String, suffix: &str) -> (r: String)
    ensures
        r@ == prefix@ + x@ + suffix@,
{
    let mut s = string_from_str(prefix);
    push_str(&mut s, x.as_str());
    push_str(&mut s, suffix);
    s
}

/// Why a node row with these alternative answers is invalid: the row's own
/// reason, or, for a statement, that it has alternative answers at all.
pub open spec fn node_reason_with(row: NodeRow, alternative_answers: Seq<Seq<char>>) -> Option<Seq<char>> {
    if node_reason(row) is None && row.kind@ == "statement"@ && alternative_answers.len() > 0 {
        Some("statement node content fields are inconsistent"@)
    } else {
        node_reason(row)
    }
}

/// Reads a node row that has the given alternative answers, or says why it
/// is invalid (the problem carries `path`).
pub fn scanned_node_from_raw(row: &NodeRow, alternative_answers: &Vec<String>, path: &String) -> (r: Result<NodeFields, GraphProblem>)
    ensures
        match r {
            Ok(f) => node_reason_with(*row, alternative_answers@.map_values(|a: String| a@)) is None && fields_match_row(f, *row),
            Err(p) => node_reason_with(*row, alternative_answers@.map_values(|a: String| a@)) is Some
                && invalid_markdown(p, path@, node_reason_with(*row, alternative_answers@.map_values(|a: String| a@))->0),
        },
{
    let f = node_fields_from_row(row, path)?;
    if alternative_answers.len() > 0 && str_eq(row.kind.as_str(), "statement") {
        proof {
            reveal_strlit("statement");
        }
        return Err(problem_at(path, string_from_str("statement node content fields are inconsistent")));
    }
    proof {
        reveal_strlit("statement");
    }
    Ok(f)
}

fn node_fields_from_row(row: &NodeRow, path: &String) -> (r: Result<NodeFields, GraphProblem>)
    ensures
        match r {
            Ok(f) => node_reason(*row) is None && fields_match_row(f, *row),
            Err(p) => node_reason(*row) is Some && invalid_markdown(p, path@, node_reason(*row)->0),
        },
{
    proof {
        reveal_strlit("statement");
        reveal_strlit("qa");
    }
    if !is_valid_uuid_id(row.id.as_str()) {
        let e = GraphError::InvalidNodeId(row.id.clone());
        return Err(problem_at(path, e.message()));
    }
    if !title_is_valid(row.title.as_str()) {
        return Err(problem_at(path, string_from_str("invalid title")));
    }
    let k = chars_of(row.kind.as_str());
    let st = chars_of("statement");
    let qa = chars_of("qa");
    let is_statement = chars_eq(k.as_slice(), st.as_slice());
    let is_qa = chars_eq(k.as_slice(), qa.as_slice());
    if !is_statement && !is_qa {
        return Err(problem_at(path, quoted_text("unsupported kind `", &row.kind, "`")));
    }
    if row.created_at_unix < 0 {
        return Err(problem_at(path, string_from_str("created_at_unix must not be negative")));
    }
    if row.updated_at_unix < 0 {
        return Err(problem_at(path, string_from_str("updated_at_unix must not be negative")));
    }
    if row.reviewed != 0 && row.reviewed != 1 {
        let d = i64_chars(row.reviewed);
        let mut m = string_from_str("invalid reviewed value `");
        crate::text::push_chars(&mut m, d.as_slice());
        push_str(&mut m, "`");
        return Err(problem_at(path, m));
    }
    let reviewed = row.reviewed == 1;
    let created = row.created_at_unix as u64;
    let updated = row.updated_at_unix as u64;
    if is_statement {
        match (&row.statement_body, &row.qa_question, &row.qa_answer) {
            (Some(body), None, None) => Ok(
                NodeFields {
                    id: row.id.clone(),
                    kind: NodeKind::Statement,
                    title: row.title.clone(),
                    reviewed,
                    content: NodeContent::Statement { body: body.clone() },
                    created_at_unix: created,
                    updated_at_unix: updated,
                },
            ),
            _ => Err(
                problem_at(path, string_from_str("statement node content fields are inconsistent")),
            ),
        }
    } else {
        match (&row.statement_body, &row.qa_question, &row.qa_answer) {
            (None, Some(question), Some(answer)) => {
                let q = chars_of(question.as_str());
                if blank(q.as_slice()) {
                    Err(problem_at(path, string_from_str("question must not be empty")))
                } else {
                    Ok(
                        NodeFields {
                            id: row.id.clone(),
                            kind: NodeKind::QuestionAnswer,
                            title: row.title.clone(),
                            reviewed,
                            content: NodeContent::QuestionAnswer {
                                question: question.clone(),
                                answer: answer.clone(),
                            },
                            created_at_unix: created,
                            updated_at_unix: updated,
                        },
                    )
                }
            },
            _ => Err(
                problem_at(
                    path,
                    string_from_str("question-answer node content fields are inconsistent"),
                ),
            ),
        }
    }
}

// ---------------------------------------------------------------------------
// placement rows
// ---------------------------------------------------------------------------

/// The ids of all node rows, valid or not.
pub open spec fn row_ids(nodes: Seq<NodeRow>) -> Set<Seq<char>> {
    Set::new(|id: Seq<char>| exists|i: int| 0 <= i < nodes.len() && (#[trigger] nodes[i]).id@ == id)
}

pub fn has_node_row(nodes: &Vec<NodeRow>, id: &str) -> (r: bool)
    ensures
        r == row_ids(nodes@).contains(id@),
{
    let v = chars_of(id);
    let mut i: usize = 0;
    while i < nodes.len()
        invariant
            i <= nodes.len(),
            v@ == id@,
            forall|j: int| 0 <= j < i ==> (#[trigger] nodes@[j]).id@ != id@,
        decreases nodes.len() - i,
    {
        let w = chars_of(nodes[i].id.as_str());
        if chars_eq(w.as_slice(), v.as_slice()) {
            assert(nodes@[i as int].id@ == id@);
            return true;
        }
        i += 1;
    }
    false
}

/// Why a placement row cannot enter the graph, if it cannot; `ids` are the
/// ids of the node rows.
pub open spec fn placement_reason(row: PlacementRow, ids: Set<Seq<char>>) -> Option<Seq<char>> {
    if !uuid_shape(row.node_id@) {
        Some(error_message(GraphError::InvalidNodeId(row.node_id)))
    } else if !ids.contains(row.node_id@) {
        Some("placement references missing node `"@ + row.node_id@ + "`"@)
    } else if row.parent_id is Some && !uuid_shape(row.parent_id->0@) {
        Some(error_message(GraphError::InvalidNodeId(row.parent_id->0)))
    } else if row.parent_id is Some && !ids.contains(row.parent_id->0@) {
        Some("placement references missing parent `"@ + row.parent_id->0@ + "`"@)
    } else if is_blank(row.slug@) || has_control_char(row.slug@) {
        Some("placement slug must not be empty or contain control characters"@)
    } else if row.is_canonical != 0 && row.is_canonical != 1 {
        Some("invalid canonical flag `"@ + int_decimal(row.is_canonical as int) + "`"@)
    } else {
        match logical_path_check(row.logical_path@, row.node_id@) {
            Err(m) => Some(m),
            Ok(()) => None,
        }
    }
}

/// A placement as the scan keeps it.
#[derive(Debug, Clone, PartialEq, Eq)]
pub struct ScannedPlacement {
    pub row_id: i64,
    pub node_id: String,
    pub parent_id: Option<String>,
    pub logical_path: String,
    pub is_canonical: bool,
}

/// Row id, node id, parent id, logical path, canonical flag.
pub type PlacementView = (i64, Seq<char>, Option<Seq<char>>, Seq<char>, bool);

impl ScannedPlacement {
    pub open spec fn view(&self) -> PlacementView {
        (self.row_id, self.node_id@, opt_view(self.parent_id), self.logical_path@, self.is_canonical)
    }
}

pub open spec fn placement_of_row(row: PlacementRow) -> PlacementView {
    (row.row_id, row.node_id@, opt_view(row.parent_id), row.logical_path@, row.is_canonical == 1)
}

pub fn copy_placement(p: &ScannedPlacement) -> (r: ScannedPlacement)
    ensures
        r.view() == p.view(),
{
    ScannedPlacement {
        row_id: p.row_id,
        node_id: p.node_id.clone(),
        parent_id: copy_opt(&p.parent_id),
        logical_path: p.logical_path.clone(),
        is_canonical: p.is_canonical,
    }
}

/// Reads a placement row, or says why it is invalid: the node id it is
/// charged to and the problem.
pub fn scanned_placement_from_raw(row: &PlacementRow, nodes: &Vec<NodeRow>) -> (r: Result<
    ScannedPlacement,
    (String, GraphProblem),
>)
    ensures
        match r {
            Ok(p) => placement_reason(*row, row_ids(nodes@)) is None && p.view() == placement_of_row(
                *row,
            ),
            Err((id, p)) => placement_reason(*row, row_ids(nodes@)) is Some && id@ == row.node_id@
                && invalid_markdown(p, row.logical_path@, placement_reason(*row, row_ids(nodes@))->0),
        },
{
    let path = &row.logical_path;
    if !is_valid_uuid_id(row.node_id.as_str()) {
        let e = GraphError::InvalidNodeId(row.node_id.clone());
        return Err((row.node_id.clone(), problem_at(path, e.message())));
    }
    if !has_node_row(nodes, row.node_id.as_str()) {
        return Err(
            (
                row.node_id.clone(),
                problem_at(
                    path,
                    quoted_text("placement references missing node `", &row.node_id, "`"),
                ),
            ),
        );
    }
    if let Some(parent_id) = &row.parent_id {
        if !is_valid_uuid_id(parent_id.as_str()) {
            let e = GraphError::InvalidNodeId(parent_id.clone());
            return Err((row.node_id.clone(), problem_at(path, e.message())));
        }
        if !has_node_row(nodes, parent_id.as_str()) {
            return Err(
                (
                    row.node_id.clone(),
                    problem_at(
                        path,
                        quoted_text("placement references missing parent `", parent_id, "`"),
                    ),
                ),
            );
        }
    }
    let slug = chars_of(row.slug.as_str());
    if blank(slug.as_slice()) || has_control(slug.as_slice()) {
        return Err(
            (
                row.node_id.clone(),
                problem_at(
                    path,
                    string_from_str("placement slug must not be empty or contain control characters"),
                ),
            ),
        );
    }
    if row.is_canonical != 0 && row.is_canonical != 1 {
        let mut m = string_from_str("invalid canonical flag `");
        let d = i64_chars(row.is_canonical);
        push_chars(&mut m, d.as_slice());
        push_str(&mut m, "`");
        return Err((row.node_id.clone(), problem_at(path, m)));
    }
    match validate_logical_path(row.logical_path.as_str(), row.node_id.as_str()) {
        Err(m) => Err((row.node_id.clone(), problem_at(path, m))),
        Ok(()) => Ok(
            ScannedPlacement {
                row_id: row.row_id,
                node_id: row.node_id.clone(),
                parent_id: copy_opt(&row.parent_id),
                logical_path: row.logical_path.clone(),
                is_canonical: row.is_canonical == 1,
            },
        ),
    }
}

// ---------------------------------------------------------------------------
// context rows
// ---------------------------------------------------------------------------

/// Why a context row cannot enter the graph, if it cannot.
pub open spec fn context_reason(row: ContextRow) -> Option<Seq<char>> {
    if !uuid_shape(row.id@) {
        Some(error_message(GraphError::InvalidContextId(row.id)))
    } else if is_blank(row.slug@) || has_control_char(row.slug@) {
        Some("context slug must not be empty or contain control characters"@)
    } else if context_filename_check(row.filename@, row.id@) is Err {
        Some(context_filename_check(row.filename@, row.id@)->Err_0)
    } else if !valid_title(row.title@) {
        Some("invalid title"@)
    } else if row.created_at_unix < 0 {
        Some("created_at_unix must not be negative"@)
    } else if row.updated_at_unix < 0 {
        Some("updated_at_unix must not be negative"@)
    } else {
        None
    }
}

/// A context document as the scan keeps it.
#[derive(Debug, Clone, PartialEq, Eq)]
pub struct ScannedContext {
    pub id: String,
    pub title: String,
    pub filename: String,
    pub markdown: String,
    pub created_at_unix: u64,
    pub updated_at_unix: u64,
    pub path: String,
}

pub open spec fn context_matches_row(c: ScannedContext, row: ContextRow) -> bool {
    &&& c.id@ == row.id@
    &&& c.title@ == row.title@
    &&& c.filename@ == row.filename@
    &&& c.markdown@ == row.markdown@
    &&& c.created_at_unix as int == row.created_at_unix as int
    &&& c.updated_at_unix as int == row.updated_at_unix as int
    &&& c.path@ == context_path(row.filename@)
}

fn context_problem(path: &String, reason: String) -> (p: GraphProblem)
    ensures
        invalid_context(p, path@, reason@),
{
    GraphProblem::InvalidContextMarkdown { path: path.clone(), reason }
}

/// Reads a context row, or says why it is invalid.
pub fn scanned_context_from_raw(row: &ContextRow) -> (r: Result<ScannedContext, GraphProblem>)
    ensures
        match r {
            Ok(c) => context_reason(*row) is None && context_matches_row(c, *row),
            Err(p) => context_reason(*row) is Some && invalid_context(
                p,
                context_path(row.filename@),
                context_reason(*row)->0,
            ),
        },
{
    let path = logical_context_path(row.filename.as_str());
    if !is_valid_uuid_id(row.id.as_str()) {
        let e = GraphError::InvalidContextId(row.id.clone());
        return Err(context_problem(&path, e.message()));
    }
    let slug = chars_of(row.slug.as_str());
    if blank(slug.as_slice()) || has_control(slug.as_slice()) {
        return Err(
            context_problem(
                &path,
                string_from_str("context slug must not be empty or contain control characters"),
            ),
        );
    }
    if let Err(m) = validate_context_filename(row.filename.as_str(), row.id.as_str()) {
        return Err(context_problem(&path, m));
    }
    if !title_is_valid(row.title.as_str()) {
        return Err(context_problem(&path, string_from_str("invalid title")));
    }
    if row.created_at_unix < 0 {
        return Err(context_problem(&path, string_from_str("created_at_unix must not be negative")));
    }
    if row.updated_at_unix < 0 {
        return Err(context_problem(&path, string_from_str("updated_at_unix must not be negative")));
    }
    Ok(
        ScannedContext {
            id: row.id.clone(),
            title: row.title.clone(),
            filename: row.filename.clone(),
            markdown: row.markdown.clone(),
            created_at_unix: row.created_at_unix as u64,
            updated_at_unix: row.updated_at_unix as u64,
            path,
        },
    )
}

} // verus!
