# focal

Focal keeps ideas as a local graph: statement and question-answer nodes
placed under roots or under other nodes, shared between parents through alias
entries, plus graph-level context documents. The graph can be read, linked,
unlinked, traversed, indexed and served to MCP clients.

The library in `src/` is written in Verus. Every operation carries a contract
over plain mathematical values (sequences, sets, tuples of texts and
integers), and the laws of the library are proof functions that Verus checks.

## Layout

- `src/model.rs`: the graph types and errors.
- `src/text.rs`, `src/decimal.rs`, `src/order.rs`, `src/slug.rs`,
  `src/ids.rs`, `src/paths.rs`: text, numbers, the sort order, slugs, ids and
  path rules.
- `src/markdown.rs`: parsing and rendering of node and context Markdown;
  `src/format_laws.rs` proves that rendering and parsing round-trip.
- `src/store.rs`, `src/scan.rs`: the stored rows and how a graph is read from
  them (valid rows, problems, canonical placements, cycles).
- `src/graph.rs`: reading, listing, traversal, deletion sets and the index.
- `src/sqlite.rs`: the graph operations on the rows (add, update, link,
  unlink, delete, context documents); `src/graph_laws.rs` proves what a read
  gives back after each write and that a link leaves the edge.
- `src/backend.rs`: one interface over the filesystem, SQLite and disabled
  SQLite back ends.
- `src/config.rs`, `src/setup.rs`, `src/server.rs`, `src/tools.rs`,
  `src/resources.rs`: configuration, the interactive setup as a state machine,
  and the MCP tools and resources.
- `app/`: the program around the library: command line, configuration files,
  reading and writing graphs on disk and in SQLite, and the MCP server loop.
- `tests/`: tests of the library through its public interface.
