use codeatlas::parser::extract_imports::{extract_imports, trim_chars};
use codeatlas::parser::imports::RawImport;
use codeatlas::parser::sitter::parse_source;
use codeatlas::parser::Language;

fn imports_of(language: Language, source: &str) -> Vec<RawImport> {
    let tree = parse_source(language, source.as_bytes()).unwrap();
    extract_imports(language, &tree)
}

// ---- Go ----

#[test]
fn go_single_import() {
    let src = "package main\nimport \"fmt\"";
    let imports = imports_of(Language::Go, src);
    assert_eq!(imports.len(), 1);
    assert_eq!(imports[0].source_path, "fmt");
}

#[test]
fn go_grouped_import() {
    let src = "package main\nimport (\n\t\"fmt\"\n\t\"net/http\"\n)";
    let imports = imports_of(Language::Go, src);
    assert_eq!(imports.len(), 2);
    let paths: Vec<&str> = imports.iter().map(|i| i.source_path.as_str()).collect();
    assert!(paths.contains(&"fmt"));
    assert!(paths.contains(&"net/http"));
}

#[test]
fn go_aliased_import() {
    let src = "package main\nimport (\n\tpb \"google/protobuf\"\n)";
    let imports = imports_of(Language::Go, src);
    assert_eq!(imports.len(), 1);
    assert_eq!(imports[0].source_path, "google/protobuf");
    assert!(imports[0].imported_names.contains(&"pb".to_string()));
}

// ---- TypeScript ----

#[test]
fn ts_named_import() {
    let src = r#"import { UserService, Config } from "./services";"#;
    let imports = imports_of(Language::TypeScript, src);
    assert_eq!(imports.len(), 1);
    assert_eq!(imports[0].source_path, "./services");
    assert!(imports[0].imported_names.contains(&"UserService".to_string()));
    assert!(imports[0].imported_names.contains(&"Config".to_string()));
}

#[test]
fn ts_default_import() {
    let src = r#"import express from "express";"#;
    let imports = imports_of(Language::TypeScript, src);
    assert_eq!(imports.len(), 1);
    assert_eq!(imports[0].source_path, "express");
    assert!(imports[0].imported_names.contains(&"express".to_string()));
}

#[test]
fn ts_namespace_import() {
    let src = r#"import * as path from "path";"#;
    let imports = imports_of(Language::TypeScript, src);
    assert_eq!(imports.len(), 1);
    assert_eq!(imports[0].source_path, "path");
}

#[test]
fn ts_require_import() {
    let src = r#"const fs = require("fs");"#;
    let imports = imports_of(Language::TypeScript, src);
    assert_eq!(imports.len(), 1);
    assert_eq!(imports[0].source_path, "fs");
    assert!(imports[0].imported_names.contains(&"fs".to_string()));
}

// ---- Ruby ----

#[test]
fn ruby_require() {
    let src = "require \"json\"";
    let imports = imports_of(Language::Ruby, src);
    assert_eq!(imports.len(), 1);
    assert_eq!(imports[0].source_path, "json");
}

#[test]
fn ruby_require_relative() {
    let src = "require_relative \"../models/user\"";
    let imports = imports_of(Language::Ruby, src);
    assert_eq!(imports.len(), 1);
    assert_eq!(imports[0].source_path, "../models/user");
}

#[test]
fn ruby_multiple_requires() {
    let src = "require \"json\"\nrequire \"net/http\"\nrequire_relative \"helper\"";
    let imports = imports_of(Language::Ruby, src);
    assert_eq!(imports.len(), 3);
}

// ---- own scenarios ----

#[test]
fn ts_aliased_specifier_uses_local_name() {
    let src = "import { Foo as Bar } from './foo';";
    let imports = imports_of(Language::TypeScript, src);
    assert_eq!(imports.len(), 1);
    assert_eq!(imports[0].source_path, "./foo");
    assert_eq!(imports[0].imported_names, vec!["Bar"]);
    assert_eq!(imports[0].line, 1);
}

#[test]
fn trim_chars_strips_both_ends() {
    assert_eq!(trim_chars("'\"abc\"'", '\'', '"'), "abc");
    assert_eq!(trim_chars("''", '\'', '"'), "");
    assert_eq!(trim_chars("a'b", '\'', '"'), "a'b");
}
