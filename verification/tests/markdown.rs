use focal::markdown::{
    parse_context_markdown, parse_node_markdown, render_context_markdown, render_node_markdown,
};
use focal::model::{NodeContent, NodeKind};

fn metadata(id: &str, kind: &str, title: &str) -> String {
    format!(
        "---\nid: {id}\nkind: {kind}\ntitle: {title}\ncreated_at_unix: 1\nupdated_at_unix: 2\n---\n\n"
    )
}

#[test]
fn spec_08_statement_markdown_round_trips_without_heading_management() {
    let id = "550e8400-e29b-41d4-a716-446655440000";
    let content = NodeContent::Statement {
        body: "# Human heading\n\nBody text\n".to_string(),
    };

    let rendered = render_node_markdown(id, &NodeKind::Statement, "A Title", 10, 11, &content);

    assert!(rendered.starts_with(
        "---\nid: 550e8400-e29b-41d4-a716-446655440000\nkind: statement\ntitle: A Title\ncreated_at_unix: 10\nupdated_at_unix: 11\n---\n\n"
    ));
    assert!(rendered.contains("# Human heading"));

    let parsed = parse_node_markdown("node.md", &rendered).unwrap();
    assert_eq!(parsed.id, id);
    assert_eq!(parsed.kind, NodeKind::Statement);
    assert_eq!(parsed.title, "A Title");
    assert_eq!(parsed.content, content);
}

#[test]
fn spec_08_question_answer_markdown_requires_managed_sections() {
    let id = "7d9f2e5c-0f22-4c18-a0be-9f23e772a0bc";
    let rendered = render_node_markdown(
        id,
        &NodeKind::QuestionAnswer,
        "Why",
        1,
        1,
        &NodeContent::QuestionAnswer {
            question: "Why use symlinks?".to_string(),
            answer: String::new(),
        },
    );

    let parsed = parse_node_markdown("qa.md", &rendered).unwrap();
    assert_eq!(
        parsed.content,
        NodeContent::QuestionAnswer {
            question: "Why use symlinks?".to_string(),
            answer: String::new(),
        }
    );

    let missing_answer = format!("{}## Question\n\nWhy?", metadata(id, "qa", "Missing answer"));
    assert!(parse_node_markdown("qa.md", &missing_answer)
        .unwrap_err()
        .contains("missing `## Answer`"));

    let empty_question = format!(
        "{}## Question\n\n\n## Answer\n\nLater",
        metadata(id, "qa", "Empty")
    );
    assert_eq!(
        parse_node_markdown("qa.md", &empty_question).unwrap_err(),
        "question must not be empty"
    );
}

#[test]
fn spec_08_markdown_parser_rejects_invalid_metadata_blocks() {
    let id = "550e8400-e29b-41d4-a716-446655440000";
    let duplicate = format!(
        "---\nid: {id}\nkind: statement\nkind: statement\ntitle: Duplicate\ncreated_at_unix: 1\nupdated_at_unix: 1\n---\n\nBody"
    );
    assert_eq!(
        parse_node_markdown("node.md", &duplicate).unwrap_err(),
        "duplicate metadata field `kind`"
    );

    let invalid_timestamp = format!(
        "---\nid: {id}\nkind: statement\ntitle: Bad time\ncreated_at_unix: now\nupdated_at_unix: 1\n---\n\nBody"
    );
    assert_eq!(
        parse_node_markdown("node.md", &invalid_timestamp).unwrap_err(),
        "invalid unix timestamp `now`"
    );
}

#[test]
fn spec_08_context_markdown_round_trips_without_heading_management() {
    let id = "7a736f79-bf3f-4d1e-8bd8-71fd9b94a2d4";
    let markdown = "# Human heading\n\nRaw notes\n";

    let rendered = render_context_markdown(id, "Raw planning notes", 10, 11, markdown);

    assert!(rendered.starts_with(
        "---\nid: 7a736f79-bf3f-4d1e-8bd8-71fd9b94a2d4\ntitle: Raw planning notes\ncreated_at_unix: 10\nupdated_at_unix: 11\n---\n\n"
    ));
    assert!(rendered.contains("# Human heading"));

    let parsed = parse_context_markdown(&rendered).unwrap();
    assert_eq!(parsed.id, id);
    assert_eq!(parsed.title, "Raw planning notes");
    assert_eq!(parsed.markdown, markdown);
    assert_eq!(parsed.created_at_unix, 10);
    assert_eq!(parsed.updated_at_unix, 11);
}

#[test]
fn spec_08_context_markdown_allows_empty_body_and_requires_metadata() {
    let id = "7a736f79-bf3f-4d1e-8bd8-71fd9b94a2d4";
    let rendered = render_context_markdown(id, "Empty", 1, 1, "");

    let parsed = parse_context_markdown(&rendered).unwrap();
    assert_eq!(parsed.markdown, "");
    assert_eq!(
        parse_context_markdown("---\nid: bad\ncreated_at_unix: 1\nupdated_at_unix: 1\n---\n")
            .unwrap_err(),
        "missing metadata field `title`"
    );
}

#[test]
fn rendered_statement_reads_back_exactly() {
    let id = "550e8400-e29b-41d4-a716-446655440000";
    let content = NodeContent::Statement {
        body: "line one\nline two".to_string(),
    };
    let rendered = render_node_markdown(id, &NodeKind::Statement, "Keep me", 3, 4, &content);
    assert_eq!(
        rendered,
        "---\nid: 550e8400-e29b-41d4-a716-446655440000\nkind: statement\ntitle: Keep me\ncreated_at_unix: 3\nupdated_at_unix: 4\n---\n\nline one\nline two"
    );
    let parsed = parse_node_markdown("node.md", &rendered).unwrap();
    assert_eq!(parsed.created_at_unix, 3);
    assert_eq!(parsed.updated_at_unix, 4);
    assert_eq!(parsed.content, content);
}

#[test]
fn question_answer_render_reads_back() {
    let id = "7d9f2e5c-0f22-4c18-a0be-9f23e772a0bc";
    let content = NodeContent::QuestionAnswer {
        question: "What is it?".to_string(),
        answer: "A graph.".to_string(),
    };
    let rendered = render_node_markdown(id, &NodeKind::QuestionAnswer, "Q", 1, 2, &content);
    assert!(rendered.ends_with("## Question\n\nWhat is it?\n\n## Answer\n\nA graph."));
    let parsed = parse_node_markdown("qa.md", &rendered).unwrap();
    assert_eq!(parsed.kind, NodeKind::QuestionAnswer);
    assert_eq!(parsed.content, content);
}

#[test]
fn markdown_without_front_matter_is_rejected() {
    assert!(parse_node_markdown("node.md", "no metadata here").is_err());
    assert!(parse_context_markdown("plain text").is_err());
}

#[test]
fn unsupported_kind_is_named() {
    let id = "550e8400-e29b-41d4-a716-446655440000";
    let source = format!("{}Body", metadata(id, "essay", "Odd"));
    let err = parse_node_markdown("node.md", &source).unwrap_err();
    assert!(err.contains("essay"));
}
