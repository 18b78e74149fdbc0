use focal::backend::{self, Backend};
use focal::model::{GraphError, NewContextDocument, NewNode, NodeContent, NodeKind, TraversalOptions};
use focal::resources::{
    list_resource_templates, list_resources, parse_max_depth, parse_resource, parse_usize,
    read_resource, resource_from_parts, FocalResource, IntParseError, ResourceBody,
    ResourceError, UrlParts,
};
use focal::sqlite::IdeaGraph;
use focal::store::Tables;
use focal::tools::{
    call_tool, core_error_body, graph_error_body, graph_error_kind, tool_definitions, tool_named,
    tool_names, unknown_tool_message, ToolCall, ToolHints, ToolName, ToolOutcome, ToolValue,
};

fn fs_backend() -> Backend {
    backend::init_fs(
        "/tmp/ideas",
        Tables {
            nodes: Vec::new(),
            placements: Vec::new(),
            contexts: Vec::new(),
            reserved: Vec::new(),
            answers: Vec::new(),
        },
        Vec::new(),
    )
    .unwrap()
}

fn added_id(outcome: ToolOutcome) -> String {
    match outcome {
        ToolOutcome::Success {
            value: ToolValue::Id(id),
            ..
        } => id,
        _ => panic!("expected an id"),
    }
}

#[test]
fn capabilities_tools_and_resource_templates_are_advertised() {
    let names = tool_names();
    for required in [
        "focal_add_context_document",
        "focal_read_context_document",
        "focal_update_context_document",
        "focal_delete_context_document",
        "focal_list_context_documents",
        "focal_add_root_node",
        "focal_add_child_node",
        "focal_read_node",
        "focal_update_node",
        "focal_delete_node",
        "focal_link_existing_node",
        "focal_unlink_child",
        "focal_list_roots",
        "focal_list_children",
        "focal_list_parents",
        "focal_list_ancestors",
        "focal_list_descendants",
        "focal_rebuild_index",
    ] {
        assert!(names.iter().any(|n| n == required), "missing tool {required}");
    }
    let tools = tool_definitions();
    assert_eq!(tools.len(), 18);
    let read_node = tools.iter().find(|t| t.name == ToolName::ReadNode).unwrap();
    assert_eq!(read_node.hints, ToolHints::ReadOnly);
    let link = tools
        .iter()
        .find(|t| t.name == ToolName::LinkExistingNode)
        .unwrap();
    assert_eq!(link.hints, ToolHints::Idempotent);
    assert_eq!(link.description, "Link an existing node under an additional parent.");

    let templates = list_resource_templates();
    assert!(templates
        .iter()
        .any(|t| t.uri == "focal://nodes/{node_id}/descendants{?max_depth}"));
    assert!(templates
        .iter()
        .any(|t| t.uri == "focal://contexts/{context_id}/markdown" && t.mime_type == "text/markdown"));
    assert_eq!(list_resources().len(), 3);
}

#[test]
fn tool_names_resolve_and_unknown_tools_are_named() {
    assert_eq!(tool_named("focal_read_node"), Some(ToolName::ReadNode));
    assert_eq!(tool_named("focal_nothing"), None);
    assert_eq!(unknown_tool_message("focal_nothing"), "unknown Focal tool `focal_nothing`");
}

#[test]
fn resources_return_core_data_and_markdown_views() {
    let mut b = fs_backend();
    let context_id = added_id(call_tool(
        &mut b,
        ToolCall::AddContextDocument {
            context: NewContextDocument {
                title: "Raw notes".to_string(),
                markdown: "Markdown body".to_string(),
            },
        },
    ));
    let node_id = added_id(call_tool(
        &mut b,
        ToolCall::AddRootNode {
            node: NewNode {
                kind: NodeKind::Statement,
                title: "Root".to_string(),
                content: NodeContent::Statement {
                    body: "Body".to_string(),
                },
            },
        },
    ));

    match read_resource(&b, &format!("focal://nodes/{node_id}")) {
        Ok(ResourceBody::Json(ToolValue::Node(node))) => {
            assert_eq!(node.id, node_id);
            assert_eq!(
                node.content,
                NodeContent::Statement {
                    body: "Body".to_string()
                }
            );
        }
        other => panic!("expected a node, got {other:?}"),
    }
    match read_resource(&b, &format!("focal://contexts/{context_id}/markdown")) {
        Ok(ResourceBody::Markdown(m)) => assert_eq!(m, "Markdown body"),
        other => panic!("expected markdown, got {other:?}"),
    }
    match read_resource(&b, "focal://roots") {
        Ok(ResourceBody::Json(ToolValue::Nodes(roots))) => {
            assert!(roots.iter().any(|n| n.id == node_id))
        }
        other => panic!("expected roots, got {other:?}"),
    }
}

#[test]
fn tool_and_resource_errors_are_structured_and_do_not_panic() {
    let mut b = fs_backend();
    match call_tool(
        &mut b,
        ToolCall::ReadNode {
            node_id: "not-a-uuid".to_string(),
        },
    ) {
        ToolOutcome::Failure(body) => {
            assert_eq!(body.backend, "fs");
            assert_eq!(body.error_kind, "invalid_node_id");
            assert_eq!(body.node_id, Some("not-a-uuid".to_string()));
        }
        _ => panic!("expected a structured error"),
    }
    match read_resource(&b, "focal://nodes/550E8400-e29b-41d4-a716-446655440000") {
        Err(ResourceError::InvalidIdentifier { field, value, .. }) => {
            assert_eq!(field, "node_id");
            assert_eq!(value, "550E8400-e29b-41d4-a716-446655440000");
        }
        other => panic!("expected an invalid identifier, got {other:?}"),
    }
}

#[test]
fn tool_results_carry_text_and_links() {
    let mut b = fs_backend();
    let out = call_tool(
        &mut b,
        ToolCall::AddRootNode {
            node: NewNode {
                kind: NodeKind::Statement,
                title: "Root".to_string(),
                content: NodeContent::Statement {
                    body: String::new(),
                },
            },
        },
    );
    match out {
        ToolOutcome::Success {
            value: ToolValue::Id(id),
            text,
            link: Some(link),
        } => {
            assert_eq!(text, "root node added");
            assert_eq!(link.uri, format!("focal://nodes/{id}"));
            assert_eq!(link.name, "node");
            assert_eq!(link.mime_type, "application/json");
        }
        _ => panic!("expected an id with a link"),
    }
    match call_tool(&mut b, ToolCall::ListRoots) {
        ToolOutcome::Success {
            value: ToolValue::Nodes(v),
            text,
            link: None,
        } => {
            assert_eq!(v.len(), 1);
            assert_eq!(text, "root nodes listed");
        }
        _ => panic!("expected the roots"),
    }
    match call_tool(
        &mut b,
        ToolCall::ListDescendants {
            node_id: "550e8400-e29b-41d4-a716-446655440000".to_string(),
            options: TraversalOptions::default(),
        },
    ) {
        ToolOutcome::Failure(body) => {
            assert_eq!(body.error_kind, "node_not_found");
            assert_eq!(body.message, "node not found: 550e8400-e29b-41d4-a716-446655440000");
        }
        _ => panic!("expected a structured error"),
    }
}

#[test]
fn sqlite_tools_use_the_sqlite_backend_tag() {
    let mut b = Backend::Sqlite(IdeaGraph {
        graph_name: "main".to_string(),
        tables: Tables {
            nodes: Vec::new(),
            placements: Vec::new(),
            contexts: Vec::new(),
            reserved: Vec::new(),
            answers: Vec::new(),
        },
    });
    match call_tool(
        &mut b,
        ToolCall::DeleteContextDocument {
            context_id: "550e8400-e29b-41d4-a716-446655440000".to_string(),
        },
    ) {
        ToolOutcome::Failure(body) => {
            assert_eq!(body.backend, "sqlite");
            assert_eq!(body.error_kind, "context_not_found");
            assert_eq!(body.context_id, Some("550e8400-e29b-41d4-a716-446655440000".to_string()));
        }
        _ => panic!("expected a structured error"),
    }
    let mut d = backend::disabled_sqlite("main");
    match call_tool(&mut d, ToolCall::RebuildIndex) {
        ToolOutcome::Failure(body) => {
            assert_eq!(body.backend, "sqlite_disabled");
            assert_eq!(body.error_kind, "sqlite_disabled");
            assert_eq!(body.message, "sqlite support is disabled for graph `main`");
        }
        _ => panic!("expected a structured error"),
    }
}

#[test]
fn error_bodies_name_ids_and_paths() {
    assert_eq!(graph_error_kind(&GraphError::AliasConflict("p".to_string())), "alias_conflict");
    let body = graph_error_body(
        "fs",
        &GraphError::DuplicateCanonicalNode {
            id: "n".to_string(),
            paths: vec!["a".to_string(), "b".to_string()],
        },
    );
    assert_eq!(body.node_id, Some("n".to_string()));
    assert_eq!(body.paths, vec!["a".to_string(), "b".to_string()]);
    assert_eq!(body.error_kind, "duplicate_canonical_node");
    let body = graph_error_body("fs", &GraphError::BrokenSymlink("x/y".to_string()));
    assert_eq!(body.path, Some("x/y".to_string()));
    assert!(body.node_id.is_none() && body.context_id.is_none() && body.paths.is_empty());
    let body = core_error_body(&backend::Error::Fs(GraphError::CycleDetected));
    assert_eq!(body.message, "cycle detected");
}

fn parts(scheme: &str, host: Option<&str>, segments: &[&str], query: Option<&str>, pairs: &[(&str, &str)]) -> UrlParts {
    UrlParts {
        scheme: scheme.to_string(),
        username: String::new(),
        has_password: false,
        has_port: false,
        host: host.map(|h| h.to_string()),
        segments: Some(segments.iter().map(|s| s.to_string()).collect()),
        query: query.map(|q| q.to_string()),
        pairs: pairs.iter().map(|(k, v)| (k.to_string(), v.to_string())).collect(),
    }
}

#[test]
fn resource_uris_route_to_resources() {
    let id = "550e8400-e29b-41d4-a716-446655440000";
    assert!(matches!(
        resource_from_parts("u", &parts("focal", Some("graph"), &["index"], None, &[])),
        Ok(FocalResource::GraphIndex)
    ));
    assert!(matches!(
        resource_from_parts("u", &parts("focal", Some("contexts"), &[""], None, &[])),
        Ok(FocalResource::Contexts)
    ));
    assert!(matches!(
        resource_from_parts("u", &parts("focal", Some("nodes"), &[id, "children"], None, &[])),
        Ok(FocalResource::Children { node_id }) if node_id == id
    ));
    assert!(matches!(
        resource_from_parts("u", &parts("focal", Some("nodes"), &[id, "descendants"], Some("max_depth=2"), &[("max_depth", "2")])),
        Ok(FocalResource::Descendants { max_depth: Some(2), .. })
    ));
    assert!(matches!(
        resource_from_parts("u", &parts("http", Some("nodes"), &[id], None, &[])),
        Err(ResourceError::InvalidUri { message, .. }) if message == "resource URI scheme must be focal"
    ));
    assert!(matches!(
        resource_from_parts("u", &parts("focal", Some("nodes"), &[".."], None, &[])),
        Err(ResourceError::InvalidUri { message, .. }) if message == "resource URI path traversal is not allowed"
    ));
    assert!(matches!(
        resource_from_parts("u", &parts("focal", Some("roots"), &[], Some("x=1"), &[("x", "1")])),
        Err(ResourceError::InvalidUri { message, .. }) if message == "resource URI does not accept query parameters"
    ));
    assert!(matches!(
        resource_from_parts("u", &parts("focal", Some("elsewhere"), &[], None, &[])),
        Err(ResourceError::UnknownResource { .. })
    ));
}

#[test]
fn max_depth_queries_are_checked() {
    let p = parts("focal", Some("nodes"), &[], None, &[("max_depth", "3"), ("max_depth", "4")]);
    assert!(matches!(
        parse_max_depth(&p, "u"),
        Err(ResourceError::InvalidUri { message, .. }) if message == "duplicate max_depth query parameter"
    ));
    let p = parts("focal", Some("nodes"), &[], None, &[("depth", "3")]);
    assert!(matches!(
        parse_max_depth(&p, "u"),
        Err(ResourceError::InvalidUri { message, .. }) if message == "unknown resource URI query parameter"
    ));
    let p = parts("focal", Some("nodes"), &[], None, &[("max_depth", "")]);
    assert!(matches!(
        parse_max_depth(&p, "u"),
        Err(ResourceError::InvalidUri { message, .. }) if message == "max_depth must not be empty"
    ));
    let p = parts("focal", Some("nodes"), &[], None, &[("max_depth", "x1")]);
    assert!(matches!(
        parse_max_depth(&p, "u"),
        Err(ResourceError::InvalidMaxDepth { detail, .. }) if detail == "invalid digit found in string"
    ));
    let p = parts("focal", Some("nodes"), &[], None, &[]);
    assert!(matches!(parse_max_depth(&p, "u"), Ok(None)));
}

#[test]
fn numbers_parse_as_std_does() {
    assert_eq!(parse_usize(&['4', '2']), Ok(42));
    assert_eq!(parse_usize(&['+', '7']), Ok(7));
    assert_eq!(parse_usize(&['+']), Err(IntParseError::InvalidDigit));
    assert_eq!(parse_usize(&[]), Err(IntParseError::Empty));
    assert_eq!(parse_usize(&['-', '1']), Err(IntParseError::InvalidDigit));
    let big: Vec<char> = "99999999999999999999999".chars().collect();
    assert_eq!(parse_usize(&big), Err(IntParseError::Overflow));
}

#[test]
fn the_url_parser_feeds_the_router() {
    let id = "550e8400-e29b-41d4-a716-446655440000";
    assert!(matches!(
        parse_resource(&format!("focal://nodes/{id}/ancestors?max_depth=1")),
        Ok(FocalResource::Ancestors { max_depth: Some(1), .. })
    ));
    assert!(matches!(
        parse_resource("not a uri"),
        Err(ResourceError::UnparsableUri { .. })
    ));
    assert!(matches!(
        parse_resource("focal://user@nodes/x"),
        Err(ResourceError::InvalidUri { message, .. }) if message == "focal resource URI must not contain user info or a port"
    ));
}
