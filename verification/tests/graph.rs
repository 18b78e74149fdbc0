use focal::backend::{self as dispatch, Backend, Error};
use focal::model::{
    ContextDocumentPatch, DeleteMode, GraphError, GraphIndex, GraphProblem, NewContextDocument,
    NewNode, Node, NodeContent, NodeKind, NodePatch, NodeSummary, OrphanPolicy, TraversalOptions,
};
use focal::sqlite::{
    add_child_node, add_context_document, add_root_node, delete_context_document, delete_node,
    link_existing_node, list_ancestors, list_children, list_context_documents, list_descendants,
    list_parents, list_roots, read_context_document, read_node, rebuild_index, unlink_child,
    update_context_document, update_node, IdeaGraph,
};
use focal::fs_plan::{write_plan, FsAction};
use focal::fs_scan::{scan_entries, EntryKind};
use focal::store::{PlacementRow, Tables};

fn statement(title: &str, body: &str) -> NewNode {
    NewNode {
        kind: NodeKind::Statement,
        title: title.to_string(),
        content: NodeContent::Statement {
            body: body.to_string(),
        },
    }
}

fn qa(title: &str, question: &str, answer: &str) -> NewNode {
    NewNode {
        kind: NodeKind::QuestionAnswer,
        title: title.to_string(),
        content: NodeContent::QuestionAnswer {
            question: question.to_string(),
            answer: answer.to_string(),
        },
    }
}

fn empty_tables() -> Tables {
    Tables {
        nodes: Vec::new(),
        placements: Vec::new(),
        contexts: Vec::new(),
        reserved: Vec::new(),
        answers: Vec::new(),
    }
}

fn new_graph() -> IdeaGraph {
    IdeaGraph {
        graph_name: "main".to_string(),
        tables: empty_tables(),
    }
}

fn assert_uuid_shape(id: &str) {
    assert_eq!(id.len(), 36);
    assert_eq!(&id[8..9], "-");
    assert_eq!(&id[13..14], "-");
    assert_eq!(&id[18..19], "-");
    assert_eq!(&id[23..24], "-");
    assert!(id.chars().all(|ch| ch.is_ascii_hexdigit() || ch == '-'));
    assert!(id.chars().all(|ch| !ch.is_ascii_uppercase()));
}

#[test]
fn graph_names_must_be_readable() {
    let mut graph = IdeaGraph {
        graph_name: " \n".to_string(),
        tables: empty_tables(),
    };
    assert!(matches!(
        add_root_node(&mut graph, statement("Root", "")),
        Err(GraphError::InvalidGraphRoot(_))
    ));
    let mut graph = new_graph();
    let id = add_root_node(&mut graph, statement("Main Root", "main")).unwrap();
    assert_uuid_shape(&id);
    assert_eq!(list_roots(&graph).unwrap()[0].title, "Main Root");
}

#[test]
fn add_read_update_and_path_stability() {
    let mut graph = new_graph();
    let root = add_root_node(&mut graph, statement("Rust keeps local tools simple", "Body")).unwrap();
    let child = add_child_node(&mut graph, &root, qa("Why", "Why SQLite?", "")).unwrap();

    let root_node = read_node(&graph, &root).unwrap();
    assert_eq!(root_node.title, "Rust keeps local tools simple");
    assert!(root_node
        .canonical_path
        .ends_with(&format!("rust-keeps-local-tools-simple--{root}")));
    assert_eq!(
        read_node(&graph, &child).unwrap().content,
        NodeContent::QuestionAnswer {
            question: "Why SQLite?".to_string(),
            answer: String::new(),
        }
    );

    let original_path = root_node.canonical_path.clone();
    let updated = update_node(
        &mut graph,
        &root,
        NodePatch {
            title: Some("A better title".to_string()),
            content: Some(NodeContent::Statement {
                body: "Updated body".to_string(),
            }),
            reviewed: None,
        },
    )
    .unwrap();

    assert_eq!(updated.id, root);
    assert_eq!(updated.title, "A better title");
    assert_eq!(updated.canonical_path, original_path);
    assert!(updated.updated_at_unix > root_node.updated_at_unix);
    assert_eq!(
        list_children(&graph, &root)
            .unwrap()
            .into_iter()
            .map(|node| node.id)
            .collect::<Vec<_>>(),
        vec![child]
    );
}

#[test]
fn linking_is_idempotent_and_rejects_cycles() {
    let mut graph = new_graph();
    let parent = add_root_node(&mut graph, statement("Parent", "")).unwrap();
    let other_parent = add_root_node(&mut graph, statement("Other Parent", "")).unwrap();
    let child = add_child_node(&mut graph, &parent, statement("Child", "")).unwrap();

    link_existing_node(&mut graph, &other_parent, &child).unwrap();
    link_existing_node(&mut graph, &other_parent, &child).unwrap();

    assert_eq!(list_parents(&graph, &child).unwrap().len(), 2);
    let child_node = read_node(&graph, &child).unwrap();
    assert_eq!(child_node.alias_paths.len(), 1);

    let index = rebuild_index(&graph).unwrap();
    assert!(index
        .edges
        .iter()
        .any(|edge| { edge.parent_id == other_parent && edge.child_id == child && edge.is_symlink }));
    assert!(matches!(
        link_existing_node(&mut graph, &child, &parent),
        Err(GraphError::CycleDetected)
    ));
}

#[test]
fn root_linking_and_orphan_move_rewrite_logical_paths() {
    let mut graph = new_graph();
    let parent = add_root_node(&mut graph, statement("Parent", "")).unwrap();
    let child = add_root_node(&mut graph, statement("Child", "")).unwrap();

    link_existing_node(&mut graph, &parent, &child).unwrap();
    assert!(!list_roots(&graph).unwrap().iter().any(|node| node.id == child));
    assert_eq!(list_parents(&graph, &child).unwrap()[0].id, parent);

    unlink_child(&mut graph, &parent, &child, OrphanPolicy::MoveToRoots).unwrap();
    let child_node = read_node(&graph, &child).unwrap();
    assert!(child_node.canonical_path.starts_with("roots"));
    assert!(list_roots(&graph).unwrap().iter().any(|node| node.id == child));
}

#[test]
fn unlinking_canonical_parent_promotes_alias_and_preserves_subtree() {
    let mut graph = new_graph();
    let old_parent = add_root_node(&mut graph, statement("Old Parent", "")).unwrap();
    let new_parent = add_root_node(&mut graph, statement("New Parent", "")).unwrap();
    let child = add_child_node(&mut graph, &old_parent, statement("Child", "content")).unwrap();
    let grandchild = add_child_node(&mut graph, &child, statement("Grandchild", "")).unwrap();

    link_existing_node(&mut graph, &new_parent, &child).unwrap();
    let alias_path = read_node(&graph, &child).unwrap().alias_paths[0].clone();

    unlink_child(&mut graph, &old_parent, &child, OrphanPolicy::MoveToRoots).unwrap();

    let after = read_node(&graph, &child).unwrap();
    assert_eq!(after.canonical_path, alias_path);
    assert!(after.alias_paths.is_empty());
    assert_eq!(list_children(&graph, &new_parent).unwrap()[0].id, child);
    assert_eq!(list_children(&graph, &child).unwrap()[0].id, grandchild);
}

#[test]
fn unlink_orphan_policies_fail_and_delete() {
    let mut graph = new_graph();
    let parent = add_root_node(&mut graph, statement("Parent", "")).unwrap();
    let child = add_child_node(&mut graph, &parent, statement("Child", "")).unwrap();

    assert!(matches!(
        unlink_child(&mut graph, &parent, &child, OrphanPolicy::FailIfWouldOrphan),
        Err(GraphError::WouldOrphanNode(id)) if id == child
    ));
    assert_eq!(list_children(&graph, &parent).unwrap().len(), 1);

    unlink_child(&mut graph, &parent, &child, OrphanPolicy::DeleteIfNoParents).unwrap();
    assert!(matches!(read_node(&graph, &child), Err(GraphError::NodeNotFound(_))));
}

#[test]
fn recursive_delete_preserves_shared_descendants_by_promotion() {
    let mut graph = new_graph();
    let deleting_root = add_root_node(&mut graph, statement("Deleting Root", "")).unwrap();
    let outside_root = add_root_node(&mut graph, statement("Outside Root", "")).unwrap();
    let shared = add_child_node(&mut graph, &deleting_root, statement("Shared", "")).unwrap();

    link_existing_node(&mut graph, &outside_root, &shared).unwrap();
    let alias_path = read_node(&graph, &shared).unwrap().alias_paths[0].clone();

    delete_node(&mut graph, &deleting_root, DeleteMode::Recursive).unwrap();

    assert!(matches!(
        read_node(&graph, &deleting_root),
        Err(GraphError::NodeNotFound(_))
    ));
    let shared_node = read_node(&graph, &shared).unwrap();
    assert_eq!(shared_node.canonical_path, alias_path);
    assert_eq!(list_parents(&graph, &shared).unwrap()[0].id, outside_root);
}

#[test]
fn delete_modes_and_deterministic_traversal() {
    let mut graph = new_graph();
    let root = add_root_node(&mut graph, statement("Root", "")).unwrap();
    let beta = add_child_node(&mut graph, &root, statement("Beta", "")).unwrap();
    let alpha = add_child_node(&mut graph, &root, statement("Alpha", "")).unwrap();
    let gamma = add_child_node(&mut graph, &alpha, statement("Gamma", "")).unwrap();
    link_existing_node(&mut graph, &beta, &gamma).unwrap();

    assert!(matches!(
        delete_node(&mut graph, &root, DeleteMode::FailIfHasChildren),
        Err(GraphError::NodeHasChildren(id)) if id == root
    ));
    assert_eq!(
        list_descendants(&graph, &root, TraversalOptions::default())
            .unwrap()
            .into_iter()
            .map(|node| node.title)
            .collect::<Vec<_>>(),
        vec!["Alpha", "Beta", "Gamma"]
    );
    assert_eq!(
        list_descendants(&graph, &root, TraversalOptions { max_depth: Some(1) })
            .unwrap()
            .into_iter()
            .map(|node| node.id)
            .collect::<Vec<_>>(),
        vec![alpha.clone(), beta]
    );
    assert_eq!(
        list_ancestors(&graph, &gamma, TraversalOptions::default())
            .unwrap()
            .into_iter()
            .map(|node| node.title)
            .collect::<Vec<_>>(),
        vec!["Alpha", "Beta", "Root"]
    );
}

#[test]
fn rebuild_index_reports_sorted_nodes_edges_and_alias_edges() {
    let mut graph = new_graph();
    let root = add_root_node(&mut graph, statement("Root", "")).unwrap();
    let other = add_root_node(&mut graph, statement("Other", "")).unwrap();
    let child = add_child_node(&mut graph, &root, statement("Child", "")).unwrap();
    link_existing_node(&mut graph, &other, &child).unwrap();

    let index = rebuild_index(&graph).unwrap();
    assert!(index.problems.is_empty());
    assert_eq!(
        index.nodes.iter().map(|node| node.title.as_str()).collect::<Vec<_>>(),
        vec!["Child", "Other", "Root"]
    );
    assert!(index
        .edges
        .iter()
        .any(|edge| { edge.parent_id == root && edge.child_id == child && !edge.is_symlink }));
    assert!(index
        .edges
        .iter()
        .any(|edge| { edge.parent_id == other && edge.child_id == child && edge.is_symlink }));
}

#[test]
fn rejects_invalid_inputs_and_ids() {
    let mut graph = new_graph();
    let root = add_root_node(&mut graph, statement("Root", "")).unwrap();
    assert!(matches!(
        add_root_node(&mut graph, statement("bad\ntitle", "")),
        Err(GraphError::InvalidTitle)
    ));
    match add_child_node(&mut graph, &root, qa("Unanswered", "", "")) {
        Err(GraphError::InvalidMarkdown { reason, .. }) => assert_eq!(reason, "question must not be empty"),
        other => panic!("expected invalid markdown, got {other:?}"),
    }
    let mismatch = NewNode {
        kind: NodeKind::Statement,
        title: "Mismatch".to_string(),
        content: NodeContent::QuestionAnswer {
            question: "Why?".to_string(),
            answer: String::new(),
        },
    };
    match add_child_node(&mut graph, &root, mismatch) {
        Err(GraphError::InvalidMarkdown { reason, .. }) => {
            assert_eq!(reason, "node kind does not match node content")
        }
        other => panic!("expected invalid markdown, got {other:?}"),
    }
    assert!(matches!(
        read_node(&graph, "../not-an-id"),
        Err(GraphError::InvalidNodeId(id)) if id == "../not-an-id"
    ));
}

#[test]
fn duplicate_canonical_placements_are_reported() {
    let mut graph = new_graph();
    let parent = add_root_node(&mut graph, statement("Parent", "")).unwrap();
    let child = add_child_node(&mut graph, &parent, statement("Child", "")).unwrap();
    let next_id = graph.tables.placements.iter().map(|p| p.row_id).max().unwrap() + 1;
    graph.tables.placements.push(PlacementRow {
        row_id: next_id,
        node_id: child.clone(),
        parent_id: None,
        slug: "second-canonical".to_string(),
        logical_path: format!("roots/second-canonical--{child}"),
        is_canonical: 1,
    });
    let index = rebuild_index(&graph).unwrap();
    assert!(index
        .problems
        .iter()
        .any(|p| matches!(p, GraphProblem::DuplicateCanonicalNode { id, .. } if id == &child)));
    assert!(matches!(
        read_node(&graph, &child),
        Err(GraphError::DuplicateCanonicalNode { id, .. }) if id == child
    ));
}

#[test]
fn context_documents_add_read_update_and_delete() {
    let mut graph = new_graph();
    let id = add_context_document(
        &mut graph,
        NewContextDocument {
            title: "Raw notes".to_string(),
            markdown: "Body".to_string(),
        },
    )
    .unwrap();
    let doc = read_context_document(&graph, &id).unwrap();
    assert_eq!(doc.filename, format!("raw-notes--{id}.md"));
    assert_eq!(doc.path, format!("context/raw-notes--{id}.md"));
    assert_eq!(doc.markdown, "Body");

    let updated = update_context_document(
        &mut graph,
        &id,
        ContextDocumentPatch {
            title: Some("Renamed".to_string()),
            markdown: None,
        },
    )
    .unwrap();
    assert_eq!(updated.title, "Renamed");
    assert_eq!(updated.markdown, "Body");
    assert_eq!(updated.filename, doc.filename);
    assert!(updated.updated_at_unix > doc.updated_at_unix);
    assert_eq!(list_context_documents(&graph).unwrap().len(), 1);

    delete_context_document(&mut graph, &id).unwrap();
    assert!(matches!(
        read_context_document(&graph, &id),
        Err(GraphError::ContextNotFound(missing)) if missing == id
    ));
    assert!(matches!(
        read_context_document(&graph, "bad"),
        Err(GraphError::InvalidContextId(_))
    ));
}

fn disabled<T: std::fmt::Debug>(r: Result<T, Error>) {
    match r {
        Err(Error::DisabledSqlite(e)) => {
            assert_eq!(e.graph_name, "main");
            assert_eq!(e.message(), "sqlite support is disabled for graph `main`");
        }
        other => panic!("expected disabled sqlite error, got {other:?}"),
    }
}

const PARENT_ID: &str = "550e8400-e29b-41d4-a716-446655440000";
const CHILD_ID: &str = "7d9f2e5c-0f22-4c18-a0be-9f23e772a0bc";

#[test]
fn disabled_sqlite_backend_returns_disabled_error_for_every_operation() {
    let mut backend = dispatch::disabled_sqlite("main");
    match &backend {
        Backend::DisabledSqlite(s) => assert_eq!(s.graph_name(), "main"),
        _ => panic!("expected a disabled backend"),
    }

    disabled::<String>(dispatch::add_root_node(&mut backend, statement("Root", "")));
    disabled::<String>(dispatch::add_child_node(&mut backend, PARENT_ID, statement("Child", "")));
    disabled::<Node>(dispatch::read_node(&backend, CHILD_ID));
    disabled::<Node>(dispatch::update_node(&mut backend, CHILD_ID, NodePatch::default()));
    disabled::<()>(dispatch::delete_node(&mut backend, CHILD_ID, DeleteMode::FailIfHasChildren));
    disabled::<()>(dispatch::link_existing_node(&mut backend, PARENT_ID, CHILD_ID));
    disabled::<()>(dispatch::unlink_child(
        &mut backend,
        PARENT_ID,
        CHILD_ID,
        OrphanPolicy::FailIfWouldOrphan,
    ));
    disabled::<Vec<NodeSummary>>(dispatch::list_roots(&backend));
    disabled::<Vec<NodeSummary>>(dispatch::list_children(&backend, PARENT_ID));
    disabled::<Vec<NodeSummary>>(dispatch::list_parents(&backend, CHILD_ID));
    disabled::<Vec<NodeSummary>>(dispatch::list_ancestors(&backend, CHILD_ID, TraversalOptions::default()));
    disabled::<Vec<NodeSummary>>(dispatch::list_descendants(&backend, PARENT_ID, TraversalOptions::default()));
    disabled::<GraphIndex>(dispatch::rebuild_index(&backend));
}

#[test]
fn sqlite_backend_dispatches_shared_operations() {
    let mut backend = Backend::Sqlite(new_graph());

    let root = dispatch::add_root_node(&mut backend, statement("Root", "root")).unwrap();
    let child = dispatch::add_child_node(&mut backend, &root, statement("Child", "child")).unwrap();
    let other_parent = dispatch::add_root_node(&mut backend, statement("Other Parent", "")).unwrap();

    dispatch::link_existing_node(&mut backend, &other_parent, &child).unwrap();
    dispatch::link_existing_node(&mut backend, &other_parent, &child).unwrap();

    assert_eq!(dispatch::list_roots(&backend).unwrap().len(), 2);
    assert_eq!(dispatch::list_parents(&backend, &child).unwrap().len(), 2);
    assert_eq!(dispatch::list_children(&backend, &root).unwrap()[0].id, child);
    assert_eq!(
        dispatch::list_descendants(&backend, &root, TraversalOptions { max_depth: Some(1) })
            .unwrap()
            .len(),
        1
    );
    assert_eq!(
        dispatch::list_ancestors(&backend, &child, TraversalOptions::default())
            .unwrap()
            .len(),
        2
    );

    let before = dispatch::read_node(&backend, &child).unwrap();
    let updated = dispatch::update_node(
        &mut backend,
        &child,
        NodePatch {
            title: Some("Updated Child".to_string()),
            content: Some(NodeContent::Statement {
                body: "updated".to_string(),
            }),
            reviewed: None,
        },
    )
    .unwrap();
    assert_eq!(updated.id, before.id);
    assert_eq!(updated.canonical_path, before.canonical_path);

    let index = dispatch::rebuild_index(&backend).unwrap();
    assert!(index
        .edges
        .iter()
        .any(|edge| edge.parent_id == other_parent && edge.child_id == child));

    dispatch::unlink_child(&mut backend, &other_parent, &child, OrphanPolicy::MoveToRoots).unwrap();
    assert_eq!(dispatch::list_parents(&backend, &child).unwrap().len(), 1);
    dispatch::delete_node(&mut backend, &root, DeleteMode::Recursive).unwrap();
    assert!(matches!(
        dispatch::read_node(&backend, &root),
        Err(Error::Sqlite(error)) if matches!(error.as_graph_error(), GraphError::NodeNotFound(_))
    ));
}

#[test]
fn sqlite_backend_dispatches_context_operations() {
    let mut backend = Backend::Sqlite(new_graph());

    let id = dispatch::add_context_document(
        &mut backend,
        NewContextDocument {
            title: "Raw notes".to_string(),
            markdown: "Body".to_string(),
        },
    )
    .unwrap();
    let before = dispatch::read_context_document(&backend, &id).unwrap();
    let updated = dispatch::update_context_document(
        &mut backend,
        &id,
        ContextDocumentPatch {
            title: Some("Renamed".to_string()),
            markdown: Some(String::new()),
        },
    )
    .unwrap();

    assert_eq!(updated.id, id);
    assert_eq!(updated.filename, before.filename);
    assert_eq!(dispatch::list_context_documents(&backend).unwrap().len(), 1);
    assert_eq!(dispatch::rebuild_index(&backend).unwrap().contexts.len(), 1);

    dispatch::delete_context_document(&mut backend, &id).unwrap();
    assert!(matches!(
        dispatch::read_context_document(&backend, &id),
        Err(Error::Sqlite(error))
            if matches!(error.as_graph_error(), GraphError::ContextNotFound(missing) if missing == &id)
    ));
}

#[test]
fn sqlite_backend_errors_are_typed_core_errors() {
    let backend = Backend::Sqlite(new_graph());
    let missing = "550e8400-e29b-41d4-a716-446655440000";

    match dispatch::read_node(&backend, missing) {
        Err(Error::Sqlite(error)) => {
            assert!(matches!(
                error.as_graph_error(),
                GraphError::NodeNotFound(id) if id == missing
            ));
        }
        other => panic!("expected typed sqlite error, got {other:?}"),
    }
}

#[test]
fn sqlite_backend_error_wrapper_converts_with_from() {
    let backend_error = focal::sqlite::Error::from(GraphError::NodeNotFound("missing".to_string()));
    let core_error = Error::from(backend_error);

    assert!(matches!(
        core_error,
        Error::Sqlite(error)
            if matches!(error.as_graph_error(), GraphError::NodeNotFound(id) if id == "missing")
    ));
}

#[test]
fn fs_backend_dispatches_shared_operations() {
    let mut backend = dispatch::init_fs("/tmp/ideas", empty_tables(), Vec::new()).unwrap();

    let root = dispatch::add_root_node(&mut backend, statement("Root", "root")).unwrap();
    let child = dispatch::add_child_node(&mut backend, &root, statement("Child", "child")).unwrap();
    let other_parent = dispatch::add_root_node(&mut backend, statement("Other Parent", "")).unwrap();
    dispatch::link_existing_node(&mut backend, &other_parent, &child).unwrap();
    assert_eq!(dispatch::list_parents(&backend, &child).unwrap().len(), 2);
    let updated = dispatch::update_node(
        &mut backend,
        &child,
        NodePatch {
            title: Some("Updated Child".to_string()),
            content: Some(NodeContent::Statement {
                body: "updated".to_string(),
            }),
            reviewed: None,
        },
    )
    .unwrap();
    assert_eq!(updated.title, "Updated Child");
    dispatch::unlink_child(&mut backend, &other_parent, &child, OrphanPolicy::MoveToRoots).unwrap();
    dispatch::delete_node(&mut backend, &root, DeleteMode::Recursive).unwrap();
    assert!(matches!(
        dispatch::read_node(&backend, &root),
        Err(Error::Fs(GraphError::NodeNotFound(_)))
    ));
}

#[test]
fn fs_backend_errors_are_typed_core_errors() {
    let backend = dispatch::init_fs("/tmp/ideas", empty_tables(), Vec::new()).unwrap();
    match dispatch::read_node(&backend, "550e8400-e29b-41d4-a716-446655440000") {
        Err(Error::Fs(GraphError::NodeNotFound(id))) => {
            assert_eq!(id, "550e8400-e29b-41d4-a716-446655440000")
        }
        other => panic!("expected typed filesystem error, got {other:?}"),
    }
    match dispatch::open_fs("/tmp/missing", false, empty_tables(), Vec::new()) {
        Err(e) => assert_eq!(
            e.message(),
            "filesystem backend error: invalid graph root: /tmp/missing does not contain roots/"
        ),
        Ok(_) => panic!("expected an invalid root"),
    }
}

#[test]
fn fs_backend_error_wrapper_converts_with_from() {
    let core_error = Error::from(GraphError::NodeNotFound("missing".to_string()));
    assert!(matches!(core_error, Error::Fs(GraphError::NodeNotFound(id)) if id == "missing"));
}

#[test]
fn read_after_add_root_gives_the_node_back() {
    let mut graph = new_graph();
    let id = add_root_node(&mut graph, qa("Open Question", "What next?", "")).unwrap();
    let node = read_node(&graph, &id).unwrap();
    assert_eq!(node.id, id);
    assert_eq!(node.kind, NodeKind::QuestionAnswer);
    assert_eq!(node.title, "Open Question");
    assert_eq!(
        node.content,
        NodeContent::QuestionAnswer {
            question: "What next?".to_string(),
            answer: String::new(),
        }
    );
    assert_eq!(node.created_at_unix, node.updated_at_unix);
    assert_eq!(node.canonical_path, format!("roots/open-question--{id}"));
    assert!(node.alias_paths.is_empty());
}

#[test]
fn read_after_add_child_places_it_under_the_parent() {
    let mut graph = new_graph();
    let root = add_root_node(&mut graph, statement("Root", "")).unwrap();
    let first = add_child_node(&mut graph, &root, statement("Same Title", "a")).unwrap();
    let second = add_child_node(&mut graph, &root, statement("Same Title", "b")).unwrap();
    let parent_path = read_node(&graph, &root).unwrap().canonical_path;
    let child = read_node(&graph, &second).unwrap();
    assert_eq!(child.id, second);
    assert_eq!(child.title, "Same Title");
    assert_eq!(
        child.content,
        NodeContent::Statement {
            body: "b".to_string()
        }
    );
    assert_eq!(child.created_at_unix, child.updated_at_unix);
    assert_eq!(
        read_node(&graph, &first).unwrap().canonical_path,
        format!("{parent_path}/children/same-title--{first}")
    );
    assert_eq!(
        child.canonical_path,
        format!("{parent_path}/children/same-title--{second}")
    );
    assert!(child.alias_paths.is_empty());
}

#[test]
fn read_after_update_gives_the_returned_node() {
    let mut graph = new_graph();
    let root = add_root_node(&mut graph, statement("Root", "old")).unwrap();
    let child = add_child_node(&mut graph, &root, qa("Child", "Q?", "A")).unwrap();
    let updated = update_node(
        &mut graph,
        &child,
        NodePatch {
            title: Some("Renamed child".to_string()),
            content: None,
            reviewed: None,
        },
    )
    .unwrap();
    assert_eq!(read_node(&graph, &child).unwrap(), updated);
    let updated_root = update_node(
        &mut graph,
        &root,
        NodePatch {
            title: None,
            content: Some(NodeContent::Statement {
                body: "new".to_string(),
            }),
            reviewed: None,
        },
    )
    .unwrap();
    assert_eq!(read_node(&graph, &root).unwrap(), updated_root);
    assert_eq!(updated_root.title, "Root");
}

#[test]
fn read_after_delete_answers_not_found() {
    let mut graph = new_graph();
    let root = add_root_node(&mut graph, statement("Root", "")).unwrap();
    let leaf = add_child_node(&mut graph, &root, statement("Leaf", "")).unwrap();
    delete_node(&mut graph, &leaf, DeleteMode::FailIfHasChildren).unwrap();
    assert!(matches!(
        read_node(&graph, &leaf),
        Err(GraphError::NodeNotFound(id)) if id == leaf
    ));
    delete_node(&mut graph, &root, DeleteMode::Recursive).unwrap();
    assert!(matches!(
        read_node(&graph, &root),
        Err(GraphError::NodeNotFound(id)) if id == root
    ));
}

#[test]
fn read_after_add_context_gives_the_document_back() {
    let mut graph = new_graph();
    let id = add_context_document(
        &mut graph,
        NewContextDocument {
            title: "Raw Notes".to_string(),
            markdown: "line one\n\nline two\n".to_string(),
        },
    )
    .unwrap();
    let doc = read_context_document(&graph, &id).unwrap();
    assert_eq!(doc.id, id);
    assert_eq!(doc.title, "Raw Notes");
    assert_eq!(doc.markdown, "line one\n\nline two\n");
    assert_eq!(doc.filename, format!("raw-notes--{id}.md"));
    assert_eq!(doc.path, format!("context/raw-notes--{id}.md"));
    assert_eq!(doc.created_at_unix, doc.updated_at_unix);
}

#[test]
fn read_after_update_context_gives_the_returned_document() {
    let mut graph = new_graph();
    let id = add_context_document(
        &mut graph,
        NewContextDocument {
            title: "Zeta".to_string(),
            markdown: "first".to_string(),
        },
    )
    .unwrap();
    add_context_document(
        &mut graph,
        NewContextDocument {
            title: "Middle".to_string(),
            markdown: "other".to_string(),
        },
    )
    .unwrap();
    let updated = update_context_document(
        &mut graph,
        &id,
        ContextDocumentPatch {
            title: Some("Alpha".to_string()),
            markdown: None,
        },
    )
    .unwrap();
    assert_eq!(updated.title, "Alpha");
    assert_eq!(updated.markdown, "first");
    assert_eq!(updated.filename, format!("zeta--{id}.md"));
    assert_eq!(read_context_document(&graph, &id).unwrap(), updated);
}

#[test]
fn link_makes_the_edge_by_alias_or_by_move() {
    let mut graph = new_graph();
    let left = add_root_node(&mut graph, statement("Left", "")).unwrap();
    let right = add_root_node(&mut graph, statement("Right", "")).unwrap();
    let shared = add_child_node(&mut graph, &left, statement("Shared", "")).unwrap();
    let loose = add_root_node(&mut graph, statement("Loose", "")).unwrap();

    link_existing_node(&mut graph, &right, &shared).unwrap();
    let child_ids = |graph: &IdeaGraph, parent: &str| {
        list_children(graph, parent)
            .unwrap()
            .into_iter()
            .map(|node| node.id)
            .collect::<Vec<_>>()
    };
    assert_eq!(child_ids(&graph, &right), vec![shared.clone()]);
    let right_path = read_node(&graph, &right).unwrap().canonical_path;
    assert_eq!(
        read_node(&graph, &shared).unwrap().alias_paths,
        vec![format!("{right_path}/children/shared--{shared}")]
    );

    link_existing_node(&mut graph, &right, &loose).unwrap();
    assert!(child_ids(&graph, &right).contains(&loose));
    assert_eq!(
        read_node(&graph, &loose).unwrap().canonical_path,
        format!("{right_path}/children/loose--{loose}")
    );
}

#[test]
fn manual_cycles_are_reported_at_a_node_on_the_cycle() {
    let mut graph = new_graph();
    let top = add_root_node(&mut graph, statement("Top", "")).unwrap();
    let below = add_child_node(&mut graph, &top, statement("Below", "")).unwrap();
    let below_path = read_node(&graph, &below).unwrap().canonical_path;
    graph.tables.placements.push(PlacementRow {
        row_id: 99,
        node_id: top.clone(),
        parent_id: Some(below.clone()),
        slug: "top".to_string(),
        logical_path: format!("{below_path}/children/top--{top}"),
        is_canonical: 0,
    });
    let index = rebuild_index(&graph).unwrap();
    let cycles = index
        .problems
        .iter()
        .filter_map(|problem| match problem {
            GraphProblem::CycleDetected { node_id } => Some(node_id.clone()),
            _ => None,
        })
        .collect::<Vec<_>>();
    assert_eq!(cycles.len(), 1);
    assert!(cycles[0] == top || cycles[0] == below);
    assert!(
        list_descendants(&graph, &top, TraversalOptions::default())
            .unwrap()
            .iter()
            .all(|node| node.id != top)
    );
}

#[test]
fn alias_paths_are_ordered_component_by_component() {
    let mut graph = new_graph();
    let child = add_root_node(&mut graph, statement("Child", "")).unwrap();
    let first = add_root_node(&mut graph, statement("A", "")).unwrap();
    let second = add_root_node(&mut graph, statement("A B", "")).unwrap();
    let anchor = add_root_node(&mut graph, statement("Anchor", "")).unwrap();
    link_existing_node(&mut graph, &anchor, &child).unwrap();
    link_existing_node(&mut graph, &first, &child).unwrap();
    link_existing_node(&mut graph, &second, &child).unwrap();
    let node = read_node(&graph, &child).unwrap();
    let first_path = read_node(&graph, &first).unwrap().canonical_path;
    let second_path = read_node(&graph, &second).unwrap().canonical_path;
    assert!(node
        .alias_paths
        .iter()
        .position(|path| path.starts_with(&format!("{first_path}/")))
        .is_some());
    assert!(node
        .alias_paths
        .iter()
        .position(|path| path.starts_with(&format!("{second_path}/")))
        .is_some());
    let mut expected = node.alias_paths.clone();
    expected.sort_by(|left, right| std::path::Path::new(left).cmp(std::path::Path::new(right)));
    assert_eq!(node.alias_paths, expected);
}

fn scanned_node(id: &str) -> focal::scan::ScannedNode {
    focal::scan::ScannedNode {
        fields: focal::store::NodeFields {
            id: id.to_string(),
            kind: NodeKind::Statement,
            title: "t".to_string(),
            reviewed: false,
            content: NodeContent::Statement {
                body: String::new(),
            },
            created_at_unix: 0,
            updated_at_unix: 0,
        },
        canonical_placements: Vec::new(),
        alias_placements: Vec::new(),
    }
}

fn placed(row_id: i64, node: &str, parent: Option<&str>) -> focal::store::ScannedPlacement {
    focal::store::ScannedPlacement {
        row_id,
        node_id: node.to_string(),
        parent_id: parent.map(|p| p.to_string()),
        logical_path: format!("nodes/{node}"),
        is_canonical: true,
    }
}

#[test]
fn detect_cycles_reports_a_cycle_reached_from_a_node() {
    let nodes = vec![scanned_node("a"), scanned_node("b"), scanned_node("c")];
    let ok = vec![
        placed(1, "b", Some("a")),
        placed(2, "a", Some("b")),
        placed(3, "c", Some("a")),
    ];
    let found = focal::scan::detect_cycles(&nodes, &ok);
    assert_eq!(
        found,
        vec![GraphProblem::CycleDetected {
            node_id: "a".to_string()
        }]
    );
}

#[test]
fn detect_cycles_finds_nothing_in_a_tree() {
    let nodes = vec![scanned_node("a"), scanned_node("b"), scanned_node("c")];
    let ok = vec![placed(1, "b", Some("a")), placed(2, "c", Some("b")), placed(3, "c", Some("a"))];
    assert!(focal::scan::detect_cycles(&nodes, &ok).is_empty());
}

fn node_row(id: &str, reviewed: i64) -> focal::store::NodeRow {
    focal::store::NodeRow {
        id: id.to_string(),
        kind: "statement".to_string(),
        title: "T".to_string(),
        reviewed,
        statement_body: Some("b".to_string()),
        qa_question: None,
        qa_answer: None,
        created_at_unix: 1,
        updated_at_unix: 1,
    }
}

#[test]
fn node_rows_with_an_invalid_reviewed_value_are_rejected() {
    let path = "nodes/x".to_string();
    let row = node_row("550e8400-e29b-41d4-a716-446655440000", 2);
    assert_eq!(
        focal::store::scanned_node_from_raw(&row, &Vec::new(), &path),
        Err(GraphProblem::InvalidMarkdown {
            path: "nodes/x".to_string(),
            reason: "invalid reviewed value `2`".to_string(),
        })
    );
    let ok = focal::store::scanned_node_from_raw(&node_row("550e8400-e29b-41d4-a716-446655440000", 1), &Vec::new(), &path)
        .unwrap();
    assert!(ok.reviewed);
}

#[test]
fn the_reviewed_state_is_updated_and_read_back() {
    let mut graph = new_graph();
    let id = add_root_node(&mut graph, statement("Root", "body")).unwrap();
    assert!(!read_node(&graph, &id).unwrap().reviewed);
    let updated = update_node(
        &mut graph,
        &id,
        NodePatch {
            title: None,
            content: None,
            reviewed: Some(true),
        },
    )
    .unwrap();
    assert!(updated.reviewed);
    assert_eq!(read_node(&graph, &id).unwrap(), updated);
    let kept = update_node(
        &mut graph,
        &id,
        NodePatch {
            title: Some("Renamed".to_string()),
            content: None,
            reviewed: None,
        },
    )
    .unwrap();
    assert!(kept.reviewed);
}

#[test]
fn row_ids_run_out_at_the_largest_integer() {
    let row = PlacementRow {
        row_id: i64::MAX,
        node_id: "550e8400-e29b-41d4-a716-446655440000".to_string(),
        parent_id: None,
        slug: "x".to_string(),
        logical_path: "roots/x--550e8400-e29b-41d4-a716-446655440000".to_string(),
        is_canonical: 1,
    };
    assert_eq!(
        focal::sqlite::next_row_id(&vec![row]),
        Err(GraphError::Storage("placement row ids are exhausted".to_string()))
    );
    assert_eq!(focal::sqlite::next_row_id(&Vec::new()), Ok(1));
}

#[test]
fn a_node_is_stored_with_the_time_it_is_given() {
    let mut graph = new_graph();
    let id = "550e8400-e29b-41d4-a716-446655440000".to_string();
    focal::sqlite::insert_node_rows(&mut graph, &statement("Root", "b"), None, &"roots".to_string(), &id, 7).unwrap();
    let node = read_node(&graph, &id).unwrap();
    assert_eq!(node.created_at_unix, 7);
    assert_eq!(node.canonical_path, format!("roots/root--{id}"));
    let too_late = focal::sqlite::insert_node_rows(
        &mut graph,
        &statement("Other", "b"),
        None,
        &"roots".to_string(),
        &"650e8400-e29b-41d4-a716-446655440000".to_string(),
        u64::MAX,
    );
    assert_eq!(
        too_late,
        Err(GraphError::Storage("unix timestamp does not fit in SQLite INTEGER".to_string()))
    );
}

#[test]
fn filesystem_paths_are_under_the_graph_root() {
    let mut backend = dispatch::init_fs("/tmp/ideas", empty_tables(), Vec::new()).unwrap();
    let root = dispatch::add_root_node(&mut backend, statement("Root", "root")).unwrap();
    let node = dispatch::read_node(&backend, &root).unwrap();
    assert_eq!(node.canonical_path, format!("/tmp/ideas/roots/root--{root}"));
    let roots = dispatch::list_roots(&backend).unwrap();
    assert_eq!(roots[0].canonical_path, node.canonical_path);
}

#[test]
fn alias_links_reach_their_target_by_a_relative_path() {
    assert_eq!(
        focal::paths::alias_link_target("/g/roots/a--1", "/g/roots/b--2/children"),
        "../../a--1"
    );
    assert_eq!(focal::paths::alias_link_target("roots/a--1", "/g/roots"), "roots/a--1");
}

fn fs_entry(parent: Option<&str>, name: &str, kind: focal::fs_scan::EntryKind, node_md: Option<String>, children: bool) -> focal::fs_scan::FsEntry {
    focal::fs_scan::FsEntry {
        parent_dir: parent.map(str::to_string),
        name: name.to_string(),
        kind,
        target: None,
        node_md,
        node_md_link: false,
        children_dir: children,
    }
}

fn node_md_text(id: &str, title: &str) -> String {
    focal::markdown::render_node_markdown(
        id,
        &NodeKind::Statement,
        title,
        1,
        1,
        &NodeContent::Statement { body: "body".to_string() },
    )
}

#[test]
fn directory_trees_are_read_into_rows_and_problems() {
    let a = "550e8400-e29b-41d4-a716-446655440000";
    let b = "650e8400-e29b-41d4-a716-446655440000";
    let a_dir = format!("roots/a--{a}");
    let entries = vec![
        fs_entry(None, &format!("a--{a}"), EntryKind::Directory, Some(node_md_text(a, "A")), true),
        fs_entry(Some(&a_dir), &format!("b--{b}"), EntryKind::Directory, Some(node_md_text(b, "B")), false),
        fs_entry(Some(&a_dir), "empty--750e8400-e29b-41d4-a716-446655440000", EntryKind::Directory, None, true),
        fs_entry(None, "bad--850e8400-e29b-41d4-a716-446655440000", EntryKind::Directory, Some("not front matter".to_string()), true),
        fs_entry(Some(&a_dir), "link--950e8400-e29b-41d4-a716-446655440000", EntryKind::Symlink, None, false),
    ];
    let (tables, problems) = scan_entries(&entries);
    assert_eq!(tables.nodes.len(), 2);
    assert_eq!(tables.placements.len(), 2);
    assert_eq!(tables.placements[1].logical_path, format!("{a_dir}/children/b--{b}"));
    assert_eq!(tables.placements[1].parent_id, Some(a.to_string()));
    assert_eq!(problems[0], GraphProblem::MissingChildrenDirectory { path: format!("{a_dir}/children/b--{b}") });
    assert_eq!(
        problems[1],
        GraphProblem::MissingNodeMarkdown {
            path: format!("{a_dir}/children/empty--750e8400-e29b-41d4-a716-446655440000")
        }
    );
    assert!(matches!(&problems[2], GraphProblem::InvalidMarkdown { path, .. } if path.ends_with("/node.md")));
    assert_eq!(
        problems[3],
        GraphProblem::BrokenSymlink {
            path: format!("{a_dir}/children/link--950e8400-e29b-41d4-a716-446655440000")
        }
    );
    assert_eq!(problems.len(), 4);
}

#[test]
fn filesystem_problems_come_first_in_the_index() {
    let problem = GraphProblem::BrokenSymlink { path: "roots/x".to_string() };
    let backend = dispatch::init_fs("/tmp/ideas", empty_tables(), vec![problem]).unwrap();
    let index = dispatch::rebuild_index(&backend).unwrap();
    assert_eq!(index.problems, vec![GraphProblem::BrokenSymlink { path: "/tmp/ideas/roots/x".to_string() }]);
}

#[test]
fn a_symlinked_node_markdown_is_reported_not_read() {
    let a = "550e8400-e29b-41d4-a716-446655440000";
    let mut entry = fs_entry(None, &format!("root--{a}"), EntryKind::Directory, None, true);
    entry.node_md_link = true;
    let (tables, problems) = scan_entries(&vec![entry]);
    let link = format!("roots/root--{a}/node.md");
    assert_eq!(problems, vec![GraphProblem::BrokenSymlink { path: link.clone() }]);
    let backend = dispatch::init_fs("/tmp/ideas", tables, problems).unwrap();
    match dispatch::read_node(&backend, a) {
        Err(Error::Fs(GraphError::BrokenSymlink(path))) => assert_eq!(path, format!("/tmp/ideas/{link}")),
        other => panic!("expected a broken symlink, got {other:?}"),
    }
    let index = dispatch::rebuild_index(&backend).unwrap();
    assert!(index.problems.contains(&GraphProblem::BrokenSymlink { path: format!("/tmp/ideas/{link}") }));
}

#[test]
fn links_out_of_the_graph_stop_listing_and_descent() {
    let a = "550e8400-e29b-41d4-a716-446655440000";
    let a_dir = format!("roots/root--{a}");
    let outside = "outside--650e8400-e29b-41d4-a716-446655440000";
    let entries = vec![
        fs_entry(None, &format!("root--{a}"), EntryKind::Directory, Some(node_md_text(a, "Root")), true),
        fs_entry(Some(&a_dir), outside, EntryKind::Symlink, None, false),
    ];
    let (tables, problems) = scan_entries(&entries);
    let backend = dispatch::init_fs("/tmp/ideas", tables, problems).unwrap();
    let expected = format!("/tmp/ideas/{a_dir}/children/{outside}");
    match dispatch::list_children(&backend, a) {
        Err(Error::Fs(GraphError::BrokenSymlink(path))) => assert_eq!(path, expected),
        other => panic!("expected a broken symlink, got {other:?}"),
    }
    match dispatch::list_descendants(&backend, a, TraversalOptions::default()) {
        Err(Error::Fs(GraphError::BrokenSymlink(path))) => assert_eq!(path, expected),
        other => panic!("expected a broken symlink, got {other:?}"),
    }
    assert_eq!(dispatch::list_descendants(&backend, a, TraversalOptions { max_depth: Some(0) }).unwrap().len(), 0);
    assert_eq!(dispatch::read_node(&backend, a).unwrap().title, "Root");
}

#[test]
fn a_child_is_not_added_where_children_is_not_a_directory() {
    let a = "550e8400-e29b-41d4-a716-446655440000";
    let entries = vec![fs_entry(None, &format!("root--{a}"), EntryKind::Directory, Some(node_md_text(a, "Root")), false)];
    let (tables, problems) = scan_entries(&entries);
    let mut backend = dispatch::init_fs("/tmp/ideas", tables, problems).unwrap();
    match dispatch::add_child_node(&mut backend, a, statement("Child", "")) {
        Err(Error::Fs(GraphError::MissingChildrenDirectory(path))) => {
            assert_eq!(path, format!("/tmp/ideas/roots/root--{a}"))
        }
        other => panic!("expected a missing children directory, got {other:?}"),
    }
    assert!(dispatch::list_children(&backend, a).unwrap().is_empty());
    match dispatch::add_child_node(&mut backend, a, statement("", "")) {
        Err(Error::Fs(GraphError::InvalidTitle)) => {}
        other => panic!("expected an invalid title, got {other:?}"),
    }
}

fn answer_row(node: &str, order: i64, answer: &str) -> focal::answers::AlternativeAnswerRow {
    focal::answers::AlternativeAnswerRow { node_id: node.to_string(), answer_order: order, answer: answer.to_string() }
}

#[test]
fn alternative_answers_are_grouped_by_node_in_order() {
    let a = "550e8400-e29b-41d4-a716-446655440000";
    let b = "450e8400-e29b-41d4-a716-446655440000";
    let missing = "650e8400-e29b-41d4-a716-446655440000";
    let nodes = vec![node_row(a, 0), node_row(b, 0)];
    let placements = vec![PlacementRow {
        row_id: 1,
        node_id: a.to_string(),
        parent_id: None,
        logical_path: format!("roots/a--{a}"),
        slug: "a".to_string(),
        is_canonical: 1,
    }];
    let rows = vec![
        answer_row(a, 2, "second"),
        answer_row(a, 0, "first"),
        answer_row(b, 5, "only"),
        answer_row("bad", 0, "x"),
        answer_row(missing, 0, "x"),
        answer_row(a, -1, "x"),
        answer_row(a, 2, "again"),
        answer_row(b, 1, "  "),
    ];
    let (groups, problems) = focal::answers::group_alternative_answers(&rows, &nodes, &placements);
    assert_eq!(
        groups,
        vec![
            (b.to_string(), vec!["only".to_string()]),
            (a.to_string(), vec!["first".to_string(), "second".to_string()]),
        ]
    );
    let reasons: Vec<(String, GraphProblem)> = vec![
        ("bad".to_string(), GraphProblem::InvalidMarkdown { path: "nodes/bad".to_string(), reason: "invalid node id: bad".to_string() }),
        (missing.to_string(), GraphProblem::InvalidMarkdown { path: format!("nodes/{missing}"), reason: "alternative answer references missing node".to_string() }),
        (a.to_string(), GraphProblem::InvalidMarkdown { path: format!("roots/a--{a}"), reason: "invalid alternative answer order `-1`".to_string() }),
        (a.to_string(), GraphProblem::InvalidMarkdown { path: format!("roots/a--{a}"), reason: "duplicate alternative answer order `2`".to_string() }),
        (b.to_string(), GraphProblem::InvalidMarkdown { path: format!("nodes/{b}"), reason: "alternative answer must not be empty".to_string() }),
    ];
    assert_eq!(problems, reasons);
}

#[test]
fn a_statement_row_with_alternative_answers_is_rejected() {
    let path = "nodes/x".to_string();
    let row = node_row("550e8400-e29b-41d4-a716-446655440000", 0);
    assert_eq!(
        focal::store::scanned_node_from_raw(&row, &vec!["other".to_string()], &path),
        Err(GraphProblem::InvalidMarkdown {
            path: "nodes/x".to_string(),
            reason: "statement node content fields are inconsistent".to_string(),
        })
    );
}

#[test]
fn only_the_hex_forms_of_a_uuid_are_valid_ids() {
    assert!(focal::ids::is_valid_uuid_id("550e8400-e29b-41d4-a716-446655440000"));
    assert!(!focal::ids::is_valid_uuid_id("550E8400-E29B-41D4-A716-446655440000"));
    assert!(!focal::ids::is_valid_uuid_id("550e8400e29b41d4a716446655440000"));
    assert!(!focal::ids::is_valid_uuid_id("550e8400-e29b-41d4-a716-44665544000g"));
}

#[test]
fn broken_symlink_name_is_not_reused_for_new_link() {
    let parent = "550e8400-e29b-41d4-a716-446655440000";
    let other = "650e8400-e29b-41d4-a716-446655440000";
    let child = "750e8400-e29b-41d4-a716-446655440000";
    let parent_dir = format!("roots/parent--{parent}");
    let other_dir = format!("roots/other-parent--{other}");
    let entries = vec![
        fs_entry(None, &format!("other-parent--{other}"), EntryKind::Directory, Some(node_md_text(other, "Other Parent")), true),
        fs_entry(Some(&other_dir), &format!("child--{child}"), EntryKind::Symlink, None, false),
        fs_entry(None, &format!("parent--{parent}"), EntryKind::Directory, Some(node_md_text(parent, "Parent")), true),
        fs_entry(Some(&parent_dir), &format!("child--{child}"), EntryKind::Directory, Some(node_md_text(child, "Child")), true),
    ];
    let (tables, problems) = scan_entries(&entries);
    assert_eq!(tables.reserved, vec![format!("{other_dir}/children/child--{child}")]);
    let mut backend = dispatch::init_fs("/tmp/ideas", tables, problems).unwrap();
    dispatch::link_existing_node(&mut backend, other, child).unwrap();
    let node = dispatch::read_node(&backend, child).unwrap();
    assert_eq!(node.alias_paths, vec![format!("/tmp/ideas/{other_dir}/children/child-2--{child}")]);
}

#[test]
fn new_entries_skip_reserved_names() {
    let mut graph = new_graph();
    let id = "550e8400-e29b-41d4-a716-446655440000".to_string();
    graph.tables.reserved.push(format!("roots/root--{id}"));
    focal::sqlite::insert_node_rows(&mut graph, &statement("Root", "b"), None, &"roots".to_string(), &id, 7).unwrap();
    let node = read_node(&graph, &id).unwrap();
    assert_eq!(node.canonical_path, format!("roots/root-2--{id}"));
}

#[test]
fn the_scan_groups_stored_alternative_answers() {
    let a = "550e8400-e29b-41d4-a716-446655440000";
    let mut tables = empty_tables();
    tables.nodes.push(node_row(a, 0));
    tables.answers = vec![answer_row(a, 0, "first"), answer_row(a, 1, ""), answer_row(a, 3, "third")];
    let scan = focal::scan::load_scan(&tables);
    let index = rebuild_index(&IdeaGraph { graph_name: "main".to_string(), tables: tables.clone() }).unwrap();
    assert_eq!(
        index.problems[0],
        GraphProblem::InvalidMarkdown {
            path: format!("nodes/{a}"),
            reason: "alternative answer must not be empty".to_string(),
        }
    );
    assert_eq!(
        index.problems[1],
        GraphProblem::InvalidMarkdown {
            path: format!("nodes/{a}"),
            reason: "node has no canonical placement".to_string(),
        }
    );
    assert_eq!(scan.answers, vec![(a.to_string(), vec!["first".to_string(), "third".to_string()])]);
    assert_eq!(
        scan.answer_problems,
        vec![(
            a.to_string(),
            GraphProblem::InvalidMarkdown {
                path: format!("nodes/{a}"),
                reason: "alternative answer must not be empty".to_string(),
            }
        )]
    );
}

#[test]
fn a_filesystem_root_is_not_checked_as_a_graph_name() {
    let mut backend = dispatch::init_fs("/tmp/odd\u{1}root", empty_tables(), Vec::new()).unwrap();
    let id = dispatch::add_root_node(&mut backend, statement("Root", "body")).unwrap();
    let node = dispatch::read_node(&backend, &id).unwrap();
    assert_eq!(node.canonical_path, format!("/tmp/odd\u{1}root/roots/root--{id}"));
}

#[test]
fn an_update_is_stamped_with_the_clock_or_one_second_later() {
    let mut graph = new_graph();
    let id = "550e8400-e29b-41d4-a716-446655440000".to_string();
    focal::sqlite::insert_node_rows(&mut graph, &statement("Root", "b"), None, &"roots".to_string(), &id, 7).unwrap();
    let patch = NodePatch { title: Some("Renamed".to_string()), content: None, reviewed: None };
    let n = focal::sqlite::update_node_at(&mut graph, &id, patch.clone(), 100).unwrap();
    assert_eq!(n.updated_at_unix, 100);
    assert_eq!(n.title, "Renamed");
    let n = focal::sqlite::update_node_at(&mut graph, &id, patch.clone(), 50).unwrap();
    assert_eq!(n.updated_at_unix, 101);
    assert_eq!(n.created_at_unix, 7);
    match focal::sqlite::update_node_at(&mut graph, &id, patch, u64::MAX) {
        Err(GraphError::Storage(m)) => assert_eq!(m, "unix timestamp does not fit in SQLite INTEGER"),
        other => panic!("expected a timestamp error, got {other:?}"),
    }
    assert_eq!(read_node(&graph, &id).unwrap().updated_at_unix, 101);
}

#[test]
fn a_context_update_is_stamped_with_the_clock() {
    let mut graph = new_graph();
    let id = add_context_document(
        &mut graph,
        NewContextDocument { title: "Raw notes".to_string(), markdown: "Body".to_string() },
    )
    .unwrap();
    let patch = ContextDocumentPatch { title: None, markdown: Some("New".to_string()) };
    let c = focal::sqlite::update_context_document_at(&mut graph, &id, patch.clone(), u64::MAX - 1);
    assert!(matches!(c, Err(GraphError::Storage(_))));
    let later = read_context_document(&graph, &id).unwrap().updated_at_unix + 1000;
    let c = focal::sqlite::update_context_document_at(&mut graph, &id, patch, later).unwrap();
    assert_eq!(c.updated_at_unix, later);
    assert_eq!(c.markdown, "New");
}

#[test]
fn a_link_is_refused_where_children_is_not_a_directory() {
    let p = "550e8400-e29b-41d4-a716-446655440000";
    let c = "650e8400-e29b-41d4-a716-446655440000";
    let q = "750e8400-e29b-41d4-a716-446655440000";
    let p_dir = format!("roots/p--{p}");
    let entries = vec![
        fs_entry(None, &format!("p--{p}"), EntryKind::Directory, Some(node_md_text(p, "P")), true),
        fs_entry(Some(&p_dir), &format!("c--{c}"), EntryKind::Directory, Some(node_md_text(c, "C")), true),
        fs_entry(None, &format!("q--{q}"), EntryKind::Directory, Some(node_md_text(q, "Q")), false),
    ];
    let (tables, problems) = scan_entries(&entries);
    let mut backend = dispatch::init_fs("/tmp/ideas", tables, problems).unwrap();
    match dispatch::link_existing_node(&mut backend, q, c) {
        Err(Error::Fs(GraphError::MissingChildrenDirectory(path))) => assert_eq!(path, format!("/tmp/ideas/roots/q--{q}")),
        other => panic!("expected a missing children directory, got {other:?}"),
    }
    assert_eq!(dispatch::list_parents(&backend, c).unwrap().len(), 1);
}

fn placement(row_id: i64, node: &str, parent: Option<&str>, path: &str, canonical: bool) -> PlacementRow {
    PlacementRow {
        row_id,
        node_id: node.to_string(),
        parent_id: parent.map(str::to_string),
        slug: "x".to_string(),
        logical_path: path.to_string(),
        is_canonical: if canonical { 1 } else { 0 },
    }
}

#[test]
fn the_write_plan_moves_removes_and_places_in_order() {
    let a = "550e8400-e29b-41d4-a716-446655440000";
    let b = "650e8400-e29b-41d4-a716-446655440000";
    let mut before = empty_tables();
    before.nodes = vec![node_row(a, 0), node_row(b, 0)];
    before.placements = vec![
        placement(1, a, None, &format!("roots/a--{a}"), true),
        placement(2, b, Some(a), &format!("roots/a--{a}/children/b--{b}"), true),
        placement(3, a, Some(b), &format!("roots/a--{a}/children/b--{b}/children/a--{a}"), false),
    ];
    let mut after = empty_tables();
    after.nodes = vec![node_row(b, 0)];
    after.placements = vec![placement(2, b, None, &format!("roots/b--{b}"), true)];
    let plan = write_plan(&before, &after);
    assert_eq!(plan.len(), 4);
    assert!(matches!(&plan[0], FsAction::RemoveLink(p) if *p == format!("roots/a--{a}/children/b--{b}/children/a--{a}")));
    assert!(matches!(&plan[1], FsAction::MoveDir(f, t) if *f == format!("roots/a--{a}/children/b--{b}") && *t == format!("roots/b--{b}")));
    assert!(matches!(&plan[2], FsAction::RemoveDir(p) if *p == format!("roots/a--{a}")));
    assert!(matches!(&plan[3], FsAction::PlaceNode { dir, node: 0, changed: true } if *dir == format!("roots/b--{b}")));
}
