use codeatlas::parser::sitter::{parse_source, source_text};
use codeatlas::parser::Language;

#[test]
fn source_text_slices_within_bounds() {
    let src = "héllo world".as_bytes();
    assert_eq!(source_text(src, 0, 6), "héllo");
    assert_eq!(source_text(src, 7, 12), "world");
    assert_eq!(source_text(src, 7, 13), "");
    assert_eq!(source_text(src, 5, 3), "");
    // the middle of a two-byte character is not valid UTF-8
    assert_eq!(source_text(src, 0, 2), "");
}

#[test]
fn parsed_root_holds_the_source() {
    let src = "package main\n\nfunc Main() {}\n";
    let tree = parse_source(Language::Go, src.as_bytes()).unwrap();
    let root = &tree.nodes[0];
    assert_eq!(root.kind, "source_file");
    assert_eq!(root.parent, None);
    assert_eq!(root.field, None);
    assert_eq!(root.text, src);
    assert_eq!(root.start_row, 0);
    assert!(tree.nodes.iter().any(|n| n.kind == "function_declaration" && n.text == "func Main() {}"));
    let ts = parse_source(Language::TypeScript, b"function f() {}\n").unwrap();
    assert_eq!(ts.nodes[0].kind, "program");
}
