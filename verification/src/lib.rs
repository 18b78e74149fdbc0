//! Focal idea graph: shared model, Markdown format, graph engine and backends.
pub mod answers;
pub mod backend;
pub mod config;
pub mod decimal;
pub mod format_laws;
pub mod fs_plan;
pub mod fs_scan;
pub mod graph;
pub mod graph_laws;
pub mod ids;
pub mod markdown;
pub mod model;
pub mod order;
pub mod paths;
pub mod resources;
pub mod rooted;
pub mod scan;
pub mod schema;
pub mod server;
pub mod setup;
pub mod slug;
pub mod sqlite;
pub mod store;
pub mod subtree_moves;
pub mod text;
pub mod tools;
