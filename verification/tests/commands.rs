use codeatlas::cli::{
    kind_filter, register_repo, require_batch_input, resolve_unique_name, truncate, validate_keyword, BatchCollector,
    BatchError, RegistryEntry,
};
use codeatlas::analyzer::resolver::Confidence;
use codeatlas::query::{
    assemble_subgraph, parse_direction, select_subgraph_nodes, validate_edge_types, EdgeEntry, QueryError,
    Reachability, SymbolInfo, TraversalDirection,
};

fn entry(name: &str, path: &str) -> RegistryEntry {
    RegistryEntry { name: name.to_string(), path: path.to_string(), indexed_at: "1".to_string() }
}

fn symbol(name: &str, kind: &str, file: &str, line: i64) -> SymbolInfo {
    SymbolInfo {
        uid: format!("{}:{}:{}:{}", kind, file, name, line),
        name: name.to_string(),
        kind: kind.to_string(),
        file_path: file.to_string(),
        start_line: line,
        end_line: line + 1,
        is_exported: false,
        parent_name: None,
    }
}

// ---- read-only guard ----

#[test]
fn keyword_guard_admits_select_and_with() {
    assert!(validate_keyword("SELECT * FROM symbols").is_ok());
    assert!(validate_keyword("  select 1").is_ok());
    assert!(validate_keyword("\nWITH x AS (SELECT 1) SELECT * FROM x").is_ok());
}

#[test]
fn keyword_guard_rejects_writes_with_preview() {
    assert_eq!(validate_keyword("INSERT INTO symbols VALUES (1)"), Err("INSERT INTO symbols VALUES (1)".to_string()));
    let long = "DROP TABLE symbols; DROP TABLE relationships; DROP TABLE files";
    assert_eq!(validate_keyword(long), Err(long.chars().take(30).collect::<String>()));
}

// ---- report columns ----

#[test]
fn truncate_pads_short_text() {
    assert_eq!(truncate("abc", 6), "abc   ");
    assert_eq!(truncate("abcdef", 6), "abcdef");
}

#[test]
fn truncate_cuts_long_text() {
    assert_eq!(truncate("abcdefgh", 6), "abcde");
    assert_eq!(truncate("ééé", 4), "ééé");
    assert_eq!(truncate("éééé", 4).chars().count(), 3);
}

// ---- registry ----

#[test]
fn unique_name_adds_numeric_suffix() {
    let entries = vec![entry("app", "/x/app"), entry("app-2", "/y/app")];
    assert_eq!(resolve_unique_name(&entries, "lib"), "lib");
    assert_eq!(resolve_unique_name(&entries, "app"), "app-3");
    let one = vec![entry("app", "/x/app")];
    assert_eq!(resolve_unique_name(&one, "app"), "app-2");
}

#[test]
fn registry_name_conflict_gets_suffix_scenario() {
    let mut entries: Vec<RegistryEntry> = Vec::new();
    register_repo(&mut entries, "/work/one/MyApp", "100".to_string());
    register_repo(&mut entries, "/work/two/myapp", "200".to_string());
    assert_eq!(entries.len(), 2);
    assert_eq!(entries[0].name, "myapp");
    assert_eq!(entries[1].name, "myapp-2");
}

#[test]
fn reindex_updates_timestamp_and_keeps_name() {
    let mut entries: Vec<RegistryEntry> = Vec::new();
    register_repo(&mut entries, "/work/svc", "100".to_string());
    entries[0].name = "renamed".to_string();
    register_repo(&mut entries, "/work/svc", "200".to_string());
    assert_eq!(entries.len(), 1);
    assert_eq!(entries[0].name, "renamed");
    assert_eq!(entries[0].indexed_at, "200");
}

// ---- batch impact ----

#[test]
fn batch_requires_symbols_or_ranges() {
    assert_eq!(require_batch_input(false, false), Err(BatchError::MissingInput));
    assert_eq!(
        BatchError::MissingInput.message(),
        "at least one of --symbols or --ranges must be provided"
    );
    assert!(require_batch_input(true, false).is_ok());
    assert!(require_batch_input(false, true).is_ok());
}

#[test]
fn batch_kind_filter() {
    assert_eq!(kind_filter(true, None), Ok(None));
    assert_eq!(kind_filter(false, None), Ok(Some(vec!["Function".to_string(), "Method".to_string()])));
    assert_eq!(kind_filter(false, Some(vec![])), Ok(None));
    assert_eq!(kind_filter(false, Some(vec!["Class".to_string()])), Ok(Some(vec!["Class".to_string()])));
    let err = kind_filter(false, Some(vec!["Class".to_string(), "Widget".to_string()])).unwrap_err();
    assert_eq!(err, BatchError::InvalidKind("Widget".to_string()));
    assert_eq!(
        err.message(),
        "invalid symbol kind: 'Widget'. Valid kinds: Function, Method, Class, Interface, Type, Enum, Struct, Field, Property, Variable, Constant, Constructor, Module, External"
    );
}

#[test]
fn batch_collector_keeps_each_id_once_and_sorts() {
    let mut c = BatchCollector::new(Some(vec!["Function".to_string()]));
    assert!(c.offer("b.ts".to_string(), 7, symbol("g", "Function", "b.ts", 3)));
    assert!(c.offer("a.ts".to_string(), 9, symbol("f", "Function", "a.ts", 10)));
    assert!(!c.offer("a.ts".to_string(), 9, symbol("f", "Function", "a.ts", 10)));
    assert!(!c.offer("a.ts".to_string(), 11, symbol("K", "Class", "a.ts", 1)));
    assert!(c.offer("a.ts".to_string(), 5, symbol("h", "Function", "a.ts", 2)));
    assert_eq!(c.seen, vec![7, 9, 5]);
    let sel = c.finish(2);
    assert_eq!(sel.total, 3);
    assert!(sel.truncated);
    let ids: Vec<i64> = sel.items.iter().map(|i| i.id).collect();
    assert_eq!(ids, vec![5, 9]);
}

// ---- query validation ----

#[test]
fn direction_parsing() {
    assert_eq!(parse_direction("outgoing"), Ok(TraversalDirection::Outgoing));
    assert_eq!(parse_direction("incoming"), Ok(TraversalDirection::Incoming));
    assert_eq!(parse_direction("both"), Ok(TraversalDirection::Both));
    let e = parse_direction("sideways").unwrap_err();
    assert_eq!(e, QueryError::InvalidDirection("sideways".to_string()));
    assert_eq!(e.message(), "invalid direction 'sideways': must be 'outgoing', 'incoming', or 'both'");
}

#[test]
fn edge_type_validation() {
    let ok = vec!["CALLS".to_string(), "IMPORTS".to_string()];
    assert_eq!(validate_edge_types(&ok), Ok(ok.clone()));
    let bad = vec!["CALLS".to_string(), "USES".to_string()];
    let e = validate_edge_types(&bad).unwrap_err();
    assert_eq!(e, QueryError::InvalidEdgeType("USES".to_string()));
    assert_eq!(e.message(), "invalid edge type: USES");
    assert_eq!(QueryError::MissingSymbol.message(), "symbol_name required when id/uid not given");
}

// ---- reachability over an in-memory graph ----

fn graph(extra: &str) -> rusqlite::Connection {
    let conn = rusqlite::Connection::open_in_memory().unwrap();
    conn.execute_batch(&format!(
        "CREATE TABLE relationships(source_id INT, target_id INT, kind TEXT, confidence REAL, reason TEXT);
         INSERT INTO relationships VALUES(1,2,'CALLS',1.0,'');
         INSERT INTO relationships VALUES(2,3,'CALLS',1.0,'');
         {}",
        extra
    ))
    .unwrap();
    conn
}

fn expand(conn: &rusqlite::Connection, frontier: &[i64], visited: &[i64], outgoing: bool) -> Vec<i64> {
    let list = |v: &[i64]| v.iter().map(|i| i.to_string()).collect::<Vec<_>>().join(",");
    let (src, tgt) = if outgoing { ("source_id", "target_id") } else { ("target_id", "source_id") };
    let sql = format!(
        "SELECT DISTINCT r.{tgt} FROM relationships r WHERE r.{src} IN ({}) AND r.{tgt} NOT IN ({})",
        list(frontier),
        list(visited),
        tgt = tgt,
        src = src
    );
    let mut stmt = conn.prepare(&sql).unwrap();
    let ids: Vec<i64> = stmt.query_map([], |row| row.get(0)).unwrap().map(|r| r.unwrap()).collect();
    ids
}

fn bfs(conn: &rusqlite::Connection, start: i64, outgoing: bool, max_depth: u32, capacity: usize) -> (Vec<(i64, u32)>, bool) {
    let mut walk = Reachability::new(start, max_depth, capacity);
    while walk.wants_expansion() {
        let next = expand(conn, walk.frontier(), walk.visited(), outgoing);
        walk.expand(&next);
    }
    walk.finish()
}

#[test]
fn subgraph_cte_matches_bfs() {
    let conn = graph("INSERT INTO relationships VALUES(1,3,'CALLS',1.0,'');");
    let cte_sql = "
        WITH RECURSIVE reachable(id) AS (
            SELECT 1
            UNION
            SELECT r.target_id FROM relationships r
            JOIN reachable c ON c.id = r.source_id
        )
        SELECT id FROM reachable WHERE id != 1 ORDER BY id
    ";
    let cte = |conn: &rusqlite::Connection| -> Vec<i64> {
        let mut stmt = conn.prepare(cte_sql).unwrap();
        let ids: Vec<i64> = stmt.query_map([], |row| row.get(0)).unwrap().map(|r| r.unwrap()).collect();
        ids
    };
    let (nodes, _capped) = bfs(&conn, 1, true, 10, usize::MAX);
    let mut ids: Vec<i64> = nodes.iter().map(|(id, _)| *id).collect();
    ids.sort();
    assert_eq!(cte(&conn), ids);

    conn.execute("INSERT INTO relationships VALUES(3,1,'CALLS',1.0,'')", []).unwrap();
    let (nodes, _) = bfs(&conn, 1, true, 10, usize::MAX);
    let mut ids: Vec<i64> = nodes.iter().map(|(id, _)| *id).collect();
    ids.sort();
    assert_eq!(cte(&conn), ids);
}

#[test]
fn subgraph_terminates_on_cycle() {
    let conn = graph("INSERT INTO relationships VALUES(3,1,'CALLS',1.0,'');");
    let max_nodes = 100;
    let (out, out_capped) = bfs(&conn, 1, true, 10, max_nodes - 1);
    let (inc, inc_capped) = bfs(&conn, 1, false, 10, max_nodes - 1);
    let (nodes, truncated, _) =
        select_subgraph_nodes(1, TraversalDirection::Outgoing, &out, out_capped, &inc, inc_capped, max_nodes);
    assert_eq!(nodes.len(), 3, "should reach all 3 nodes in the cycle");
    assert!(!truncated);
    let (both, _, _) = select_subgraph_nodes(1, TraversalDirection::Both, &out, out_capped, &inc, inc_capped, max_nodes);
    assert_eq!(both.len(), 3, "direction=both should also reach all 3 nodes");
}

#[test]
fn reachability_respects_depth_and_capacity() {
    let conn = graph("INSERT INTO relationships VALUES(3,4,'CALLS',1.0,''); INSERT INTO relationships VALUES(1,5,'CALLS',1.0,'');");
    let (nodes, capped) = bfs(&conn, 1, true, 1, 10);
    let mut ids: Vec<i64> = nodes.iter().map(|(id, _)| *id).collect();
    ids.sort();
    assert_eq!(ids, vec![2, 5]);
    assert!(nodes.iter().all(|(_, d)| *d == 1));
    assert!(!capped);
    let (nodes, capped) = bfs(&conn, 1, true, 10, 1);
    assert_eq!(nodes.len(), 1);
    assert!(capped);
    let (nodes, _) = bfs(&conn, 1, true, 10, 10);
    let depth_of = |id: i64| nodes.iter().find(|(n, _)| *n == id).map(|(_, d)| *d);
    assert_eq!(depth_of(3), Some(2));
    assert_eq!(depth_of(4), Some(3));
}

#[test]
fn subgraph_node_cut_reports_reason() {
    let out = vec![(2, 1), (3, 1), (4, 2)];
    let (nodes, truncated, reason) = select_subgraph_nodes(1, TraversalDirection::Outgoing, &out, false, &[], false, 2);
    assert_eq!(nodes, vec![(1, 0), (2, 1)]);
    assert!(truncated);
    assert_eq!(reason.as_deref(), Some("node limit (2) reached"));
}

#[test]
fn subgraph_truncation_on_max_nodes() {
    let mut walk = Reachability::new(1, 3, 0);
    assert!(!walk.wants_expansion());
    let (found, capped) = walk.finish();
    assert!(found.is_empty());
    assert!(capped);
    let (nodes, truncated, reason) =
        select_subgraph_nodes(1, TraversalDirection::Outgoing, &found, capped, &[], false, 1);
    assert_eq!(nodes, vec![(1, 0)]);
    assert!(truncated);
    assert_eq!(reason.as_deref(), Some("node limit (1) reached"));
}

#[test]
fn graph_query_rejects_insert() {
    assert!(validate_keyword("INSERT INTO symbols(uid,name,kind,file_path) VALUES('x','y','z','w')").is_err());
}

#[test]
fn graph_query_rejects_drop() {
    assert!(validate_keyword("DROP TABLE symbols").is_err());
}

#[test]
fn registry_created_after_index() {
    let mut entries: Vec<RegistryEntry> = Vec::new();
    register_repo(&mut entries, "/tmp/work/go-cli", "2024-01-01T00:00:00Z".to_string());
    assert_eq!(entries.len(), 1);
    assert_eq!(entries[0].name, "go-cli");
    assert_eq!(entries[0].path, "/tmp/work/go-cli");
    assert_eq!(entries[0].indexed_at, "2024-01-01T00:00:00Z");
}

#[test]
fn registry_reindex_preserves_name_updates_indexed_at() {
    let mut entries: Vec<RegistryEntry> = Vec::new();
    register_repo(&mut entries, "/tmp/work/go-cli", "t1".to_string());
    let name1 = entries[0].name.clone();
    register_repo(&mut entries, "/tmp/work/go-cli", "t2".to_string());
    assert_eq!(entries.len(), 1);
    assert_eq!(entries[0].name, name1);
    assert_ne!(entries[0].indexed_at, "t1");
}

#[test]
fn registry_name_conflict_gets_suffix() {
    let mut entries: Vec<RegistryEntry> = Vec::new();
    register_repo(&mut entries, "/tmp/a/go-cli", "t1".to_string());
    register_repo(&mut entries, "/tmp/b/go-cli", "t2".to_string());
    assert_eq!(entries.len(), 2);
    let names: Vec<&str> = entries.iter().map(|e| e.name.as_str()).collect();
    assert!(names.contains(&"go-cli"));
    assert!(names.contains(&"go-cli-2"));
}

#[test]
fn subgraph_both_directions_lists_each_node_once() {
    let out = vec![(2, 1), (3, 2)];
    let inc = vec![(3, 1), (4, 1)];
    let (nodes, truncated, reason) = select_subgraph_nodes(1, TraversalDirection::Both, &out, false, &inc, false, 10);
    assert_eq!(nodes, vec![(1, 0), (2, 1), (3, 1), (4, 1)]);
    assert!(!truncated);
    assert!(reason.is_none());
    let (cut, truncated, reason) = select_subgraph_nodes(1, TraversalDirection::Both, &out, false, &inc, false, 2);
    assert_eq!(cut, vec![(1, 0), (2, 1)]);
    assert!(truncated);
    assert_eq!(reason.as_deref(), Some("node limit (2) reached"));
}

fn edge(source_id: i64, target_id: i64, kind: &str) -> EdgeEntry {
    EdgeEntry {
        source_id,
        target_id,
        kind: kind.to_string(),
        confidence: Confidence { num: 1, den: 1 },
        reason: String::new(),
    }
}

#[test]
fn subgraph_assembly_counts_and_cuts_edges() {
    let reached = vec![(1, 0), (2, 1), (3, 1)];
    let symbols = vec![Some(symbol("a", "Function", "a.ts", 1)), None, Some(symbol("c", "Function", "c.ts", 3))];
    let edges = vec![edge(3, 1, "CALLS"), edge(1, 3, "IMPORTS"), edge(1, 3, "CALLS")];
    let r = assemble_subgraph(1, &reached, &symbols, &edges, 2, false, None);
    assert_eq!(r.start_id, 1);
    assert_eq!(r.node_count, 2);
    assert_eq!(r.nodes.iter().map(|n| n.id).collect::<Vec<_>>(), vec![1, 3]);
    assert_eq!(r.nodes[1].symbol.name, "c");
    assert_eq!(r.edge_count, 2);
    let order: Vec<(i64, i64, &str)> = r.edges.iter().map(|e| (e.source_id, e.target_id, e.kind.as_str())).collect();
    assert_eq!(order, vec![(1, 3, "CALLS"), (1, 3, "IMPORTS")]);
    assert!(r.truncated);
    assert_eq!(r.truncated_reason.as_deref(), Some("edge limit (2) reached"));
    let whole = assemble_subgraph(1, &reached, &symbols, &edges, 10, false, None);
    assert_eq!(whole.edge_count, 3);
    assert!(!whole.truncated);
    assert!(whole.truncated_reason.is_none());
}
