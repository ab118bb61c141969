# codeatlas

A code knowledge graph builder for TypeScript/JavaScript, Go and Ruby
repositories. It extracts symbols, imports, calls and intra-function data
flows with tree-sitter, resolves them into a graph of `CALLS`,
`CALLS_UNRESOLVED`, `CALLS_EXTERNAL`, `IMPORTS`, `EXTENDS`, `IMPLEMENTS` and
`CONTAINS` edges, detects communities and execution flows, stores everything
in SQLite and answers search, context, impact and subgraph queries.

The library is written in Verus: its functions carry `requires`/`ensures`
contracts over mathematical models (`Seq`, `Map`, spec functions) and are
proved by the verifier.

## Layout

- `src/` — the verified library.
  - `parser/` — tree-sitter parsing into a plain syntax tree (`ts` holds
    the tree-sitter calls, each with its contract over the language, the
    source and a node's path; `sitter` copies the tree; `syntax` models it)
    and the extraction of symbols, calls, imports and data flows per
    language.
  - `analyzer/` — the symbol index, call/import/inheritance resolution,
    the relationship graph with external pseudo-symbols, community detection
    and execution-flow detection.
  - `scanner`, `storage`, `indexing` — what a repository walk keeps, the
    incremental-indexing decisions and the rows written to the index.
  - `query`, `eval`, `cli` — traversals (reachability, impact), grouping and
    ranking of search hits, search-quality metrics, the read-only SQL guard,
    registry naming and batch selection.
  - `text`, `sorting`, `paths` — string helpers, sorting with its laws, and
    path handling through `std::path`.
- `app/` — the command-line program around the library: argument parsing,
  the SQLite database, the file-system walk, parallel parsing, progress
  display and output formatting.
- `tests/` — tests of the library against concrete inputs.

The public `law_*` proof functions state properties that hold across calls,
for example that registering a repository again only refreshes its time
stamp, that every external call edge ends at a pseudo-symbol, and that
subgraphs never exceed their node and edge limits.

Vector search, hybrid search, the `embed` command and the vector and
hybrid evaluation modes need an embedding model, which this build does
not include: they report that no model is available. Full-text and
grouped search, and their evaluation, work as usual.
