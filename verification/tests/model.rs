use focal::model::{
    ContextDocument, ContextDocumentPatch, ContextId, ContextSummary, DeleteMode, GraphEdge,
    GraphError, GraphIndex, GraphProblem, NewContextDocument, NewNode, Node, NodeContent, NodeKind,
    NodePatch, NodeSummary, OrphanPolicy, TraversalOptions,
};

#[test]
fn spec_09_model_types_are_plain_constructible_values() {
    let id = "550e8400-e29b-41d4-a716-446655440000".to_string();
    let content = NodeContent::Statement {
        body: "Body".to_string(),
    };
    let node = Node {
        id: id.clone(),
        kind: NodeKind::Statement,
        title: "Title".to_string(),
        reviewed: false,
        content: content.clone(),
        created_at_unix: 1,
        updated_at_unix: 2,
        canonical_path: "roots/title--id".to_string(),
        alias_paths: vec!["roots/alias--id".to_string()],
    };
    let new_node = NewNode {
        kind: NodeKind::Statement,
        title: node.title.clone(),
        content: content.clone(),
    };
    let patch = NodePatch {
        title: Some("New title".to_string()),
        content: Some(content.clone()),
        reviewed: None,
    };
    let summary = NodeSummary {
        id,
        kind: NodeKind::Statement,
        title: node.title.clone(),
        canonical_path: node.canonical_path.clone(),
        is_alias: false,
    };

    assert_eq!(node.content, content);
    assert_eq!(new_node.kind, NodeKind::Statement);
    assert_eq!(patch.title.as_deref(), Some("New title"));
    assert_eq!(summary.title, "Title");
}

#[test]
fn spec_11_delete_and_orphan_modes_are_copyable_contract_values() {
    let delete_mode = DeleteMode::Recursive;
    let copied_delete_mode = delete_mode;
    let orphan_policy = OrphanPolicy::FailIfWouldOrphan;
    let copied_orphan_policy = orphan_policy;

    assert_eq!(delete_mode, copied_delete_mode);
    assert_eq!(orphan_policy, copied_orphan_policy);
    assert_ne!(DeleteMode::FailIfHasChildren, DeleteMode::Recursive);
    assert_ne!(OrphanPolicy::MoveToRoots, OrphanPolicy::DeleteIfNoParents);
}

#[test]
fn spec_14_traversal_options_default_has_no_depth_limit() {
    assert_eq!(TraversalOptions::default(), TraversalOptions { max_depth: None });
}

#[test]
fn spec_19_index_edge_and_problem_types_are_constructible() {
    let edge = GraphEdge {
        parent_id: "parent".to_string(),
        child_id: "child".to_string(),
        path: "roots/parent/children/child".to_string(),
        is_symlink: true,
    };
    let problem = GraphProblem::BrokenSymlink {
        path: "roots/parent/children/missing".to_string(),
    };
    let index = GraphIndex {
        contexts: Vec::new(),
        nodes: Vec::new(),
        edges: vec![edge.clone()],
        problems: vec![problem.clone()],
    };

    assert_eq!(index.edges, vec![edge]);
    assert_eq!(index.problems, vec![problem]);
}

#[test]
fn spec_20_path_errors_include_repair_context() {
    let path = "/tmp/ideas/roots/broken/node.md".to_string();
    let error = GraphError::InvalidMarkdown {
        path: path.clone(),
        reason: "missing metadata block".to_string(),
    };

    assert!(error.message().contains(path.as_str()));
    assert!(error.message().contains("missing metadata block"));
}

#[test]
fn context_models_are_plain_constructible_values() {
    let id: ContextId = "550e8400-e29b-41d4-a716-446655440000".to_string();
    let document = ContextDocument {
        id: id.clone(),
        title: "Raw notes".to_string(),
        filename: format!("raw-notes--{id}.md"),
        markdown: "Body".to_string(),
        created_at_unix: 1,
        updated_at_unix: 2,
        path: format!("context/raw-notes--{id}.md"),
    };
    let summary = ContextSummary {
        id: id.clone(),
        title: document.title.clone(),
        filename: document.filename.clone(),
        path: document.path.clone(),
    };

    assert_eq!(document.id, id);
    assert_eq!(summary.filename, document.filename);
    assert_eq!(
        NewContextDocument {
            title: "Raw notes".to_string(),
            markdown: String::new(),
        }
        .markdown,
        ""
    );
    assert_eq!(ContextDocumentPatch::default().title, None);
}

#[test]
fn graph_index_and_errors_include_context_variants() {
    let id = "550e8400-e29b-41d4-a716-446655440000".to_string();
    let path = format!("context/raw--{id}.md");
    let index = GraphIndex {
        contexts: vec![ContextSummary {
            id: id.clone(),
            title: "Raw".to_string(),
            filename: format!("raw--{id}.md"),
            path: path.clone(),
        }],
        nodes: Vec::new(),
        edges: Vec::new(),
        problems: vec![
            GraphProblem::DuplicateContextDocument {
                id: id.clone(),
                paths: vec![path.clone()],
            },
            GraphProblem::InvalidContextMarkdown {
                path: path.clone(),
                reason: "missing metadata".to_string(),
            },
        ],
    };

    assert_eq!(index.contexts[0].id, id);
    assert!(matches!(
        GraphError::ContextNotFound("missing".to_string()),
        GraphError::ContextNotFound(_)
    ));
    assert!(matches!(
        GraphError::InvalidContextId("bad".to_string()),
        GraphError::InvalidContextId(_)
    ));
    assert!(matches!(
        GraphError::DuplicateContextDocument {
            id: "dup".to_string(),
            paths: Vec::new()
        },
        GraphError::DuplicateContextDocument { .. }
    ));
    assert!(matches!(
        GraphError::InvalidContextMarkdown {
            path: "context/bad.md".to_string(),
            reason: "bad".to_string()
        },
        GraphError::InvalidContextMarkdown { .. }
    ));
    assert!(matches!(
        GraphError::DuplicateContextId("dup".to_string()),
        GraphError::DuplicateContextId(_)
    ));
}

#[test]
fn error_messages_name_what_failed() {
    assert_eq!(GraphError::InvalidTitle.message(), "invalid title");
    assert_eq!(GraphError::CycleDetected.message(), "cycle detected");
    assert_eq!(
        GraphError::NodeNotFound("x".to_string()).message(),
        "node not found: x"
    );
    assert_eq!(
        GraphError::DuplicateCanonicalNode {
            id: "n".to_string(),
            paths: vec!["a".to_string(), "b".to_string()]
        }
        .message(),
        "duplicate canonical node n: [\"a\", \"b\"]"
    );
}
