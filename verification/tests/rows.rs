use codeatlas::parser::{parse_file, Language};
use codeatlas::scanner::FileInfo;
use codeatlas::storage::{file_index_rows, flow_rows, symbol_rows};

fn file(rel: &str, hash: u64) -> FileInfo {
    FileInfo {
        path: format!("/repo/{}", rel),
        relative_path: rel.to_string(),
        language: Language::TypeScript,
        content_hash: hash,
        size_bytes: 42,
    }
}

#[test]
fn one_folder_node_per_directory() {
    let files = vec![file("src/a/x.ts", 1), file("src/a/y.ts", 2), file("src/b.ts", 3)];
    let rows = symbol_rows(&[], &files);
    let uids: Vec<&str> = rows.iter().map(|r| r.uid.as_str()).collect();
    assert_eq!(
        uids,
        vec!["File:src/a/x.ts", "Folder:src/a", "Folder:src", "File:src/a/y.ts", "File:src/b.ts"]
    );
    let folder = rows.iter().find(|r| r.uid == "Folder:src/a").unwrap();
    assert_eq!(folder.name, "a");
    assert_eq!(folder.kind, "Folder");
    let file_row = rows.iter().find(|r| r.uid == "File:src/b.ts").unwrap();
    assert_eq!(file_row.content_hash, 3);
    assert_eq!(file_row.kind, "File");
}

#[test]
fn symbol_rows_come_first() {
    let analysis = parse_file("src/a.ts", Language::TypeScript, b"export function f() {}\n").unwrap();
    let files = vec![file("src/a.ts", 9)];
    let rows = symbol_rows(&analysis.symbols, &files);
    assert_eq!(rows[0].uid, "Function:src/a.ts:f:1");
    assert_eq!(rows[0].kind, "Function");
    assert!(rows[0].is_exported);
    assert_eq!(rows[1].uid, "File:src/a.ts");
    assert_eq!(rows[2].uid, "Folder:src");
}

#[test]
fn file_index_rows_record_each_file() {
    let files = vec![file("a.ts", 7)];
    let rows = file_index_rows(&files);
    assert_eq!(rows.len(), 1);
    assert_eq!(rows[0].path, "a.ts");
    assert_eq!(rows[0].content_hash, 7);
    assert_eq!(rows[0].language, "typescript");
    assert_eq!(rows[0].size_bytes, 42);
}

#[test]
fn flows_are_stored_under_their_function() {
    let src = "export function handle(input: string) {\n  const data = JSON.parse(input);\n  return data;\n}\n";
    let analysis = parse_file("src/h.ts", Language::TypeScript, src.as_bytes()).unwrap();
    let rows = flow_rows(&[analysis]);
    assert!(!rows.is_empty());
    for r in &rows {
        assert_eq!(r.function_uid.as_deref(), Some("Function:src/h.ts:handle:1"));
    }
    assert!(rows.iter().any(|r| r.flow_kind == "Assignment" && r.sink_expr == "data" && r.sink_line == 2));
    assert!(rows.iter().any(|r| r.flow_kind == "Return"));
}
