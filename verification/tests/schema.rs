use focal::model::GraphError;
use focal::schema::{schema_problem, TableInfo};

fn table(name: &str, columns: &[(&str, i64)], uniques: &[&[&str]]) -> TableInfo {
    TableInfo {
        name: name.to_string(),
        columns: columns.iter().map(|(c, k)| (c.to_string(), *k)).collect(),
        indexes: uniques
            .iter()
            .map(|cols| {
                (
                    true,
                    cols.iter()
                        .enumerate()
                        .map(|(i, c)| (i as i64, c.to_string()))
                        .collect::<Vec<_>>(),
                )
            })
            .collect(),
    }
}

fn full_schema() -> Vec<TableInfo> {
    vec![
        table("focal_graphs", &[("id", 1), ("name", 0), ("created_at_unix", 0)], &[&["name"]]),
        table(
            "focal_nodes",
            &[
                ("graph_id", 1),
                ("id", 2),
                ("kind", 0),
                ("title", 0),
                ("reviewed", 0),
                ("statement_body", 0),
                ("qa_question", 0),
                ("qa_answer", 0),
                ("created_at_unix", 0),
                ("updated_at_unix", 0),
            ],
            &[],
        ),
        table(
            "focal_qa_alternative_answers",
            &[("graph_id", 1), ("node_id", 2), ("answer_order", 3), ("answer", 0)],
            &[],
        ),
        table(
            "focal_context_documents",
            &[
                ("graph_id", 1),
                ("id", 2),
                ("slug", 0),
                ("filename", 0),
                ("title", 0),
                ("markdown", 0),
                ("created_at_unix", 0),
                ("updated_at_unix", 0),
            ],
            &[&["graph_id", "filename"]],
        ),
        table(
            "focal_placements",
            &[
                ("id", 1),
                ("graph_id", 0),
                ("node_id", 0),
                ("parent_id", 0),
                ("slug", 0),
                ("logical_path", 0),
                ("is_canonical", 0),
            ],
            &[],
        ),
    ]
}

fn invalid_root(message: &str) -> Result<(), GraphError> {
    Err(GraphError::InvalidGraphRoot(message.to_string()))
}

#[test]
fn a_complete_schema_is_accepted() {
    assert_eq!(schema_problem(&full_schema()), Ok(()));
}

#[test]
fn an_empty_database_lacks_the_graphs_table() {
    assert_eq!(schema_problem(&Vec::new()), invalid_root("missing SQLite schema table `focal_graphs`"));
}

#[test]
fn a_missing_table_is_named() {
    let mut tables = full_schema();
    tables.retain(|t| t.name != "focal_qa_alternative_answers");
    assert_eq!(
        schema_problem(&tables),
        invalid_root("missing SQLite schema table `focal_qa_alternative_answers`")
    );
}

#[test]
fn a_missing_column_is_named() {
    let mut tables = full_schema();
    tables[1].columns.retain(|(c, _)| c != "reviewed");
    assert_eq!(
        schema_problem(&tables),
        invalid_root("missing SQLite schema column `focal_nodes.reviewed`")
    );
}

#[test]
fn a_wrong_primary_key_is_reported() {
    let mut tables = full_schema();
    tables[1].columns[1].1 = 0;
    assert_eq!(
        schema_problem(&tables),
        invalid_root("invalid SQLite schema: `focal_nodes` primary key must be (graph_id, id)")
    );
}

#[test]
fn primary_key_columns_are_read_by_their_places() {
    let mut tables = full_schema();
    tables[2].columns = vec![
        ("answer_order".to_string(), 3),
        ("graph_id".to_string(), 1),
        ("answer".to_string(), 0),
        ("node_id".to_string(), 2),
    ];
    assert_eq!(schema_problem(&tables), Ok(()));
}

#[test]
fn a_missing_unique_key_is_reported() {
    let mut tables = full_schema();
    tables[3].indexes[0].0 = false;
    assert_eq!(
        schema_problem(&tables),
        invalid_root("invalid SQLite schema: `focal_context_documents` must have a unique key on (graph_id, filename)")
    );
}
