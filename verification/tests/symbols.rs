use codeatlas::parser::extract::{Symbol, SymbolKind};
use codeatlas::parser::sitter::parse_source;
use codeatlas::parser::{extract_symbols, Language};

fn symbols_of(language: Language, source: &str) -> Vec<Symbol> {
    let tree = parse_source(language, source.as_bytes()).unwrap();
    extract_symbols(language, &tree)
}

fn ts(source: &str) -> Vec<Symbol> {
    symbols_of(Language::TypeScript, source)
}

fn rb(source: &str) -> Vec<Symbol> {
    symbols_of(Language::Ruby, source)
}

fn go(source: &str) -> Vec<Symbol> {
    symbols_of(Language::Go, source)
}

fn names_of_kind(symbols: &[Symbol], kind: SymbolKind) -> Vec<String> {
    symbols.iter().filter(|s| s.kind == kind).map(|s| s.name.clone()).collect()
}

// ---- TypeScript ----

#[test]
fn function_declaration() {
    let src = r#"export function greet(name: string): string { return name; }"#;
    let symbols = ts(src);
    let fns = names_of_kind(&symbols, SymbolKind::Function);
    assert_eq!(fns, vec!["greet"]);
    assert!(symbols.iter().find(|s| s.name == "greet").unwrap().is_exported);
}

#[test]
fn arrow_function() {
    let src = r#"export const add = (a: number, b: number) => a + b;"#;
    let symbols = ts(src);
    let fns = names_of_kind(&symbols, SymbolKind::Function);
    assert_eq!(fns, vec!["add"]);
}

#[test]
fn class_with_heritage() {
    let src = "export class Admin extends User implements Serializable {\n  constructor(private name: string) {}\n  greet(): string { return this.name; }\n}";
    let symbols = ts(src);
    let classes = names_of_kind(&symbols, SymbolKind::Class);
    assert_eq!(classes, vec!["Admin"]);
    let admin = symbols.iter().find(|s| s.name == "Admin").unwrap();
    assert_eq!(admin.superclass.as_deref(), Some("User"));
    assert_eq!(admin.interfaces, vec!["Serializable"]);

    let methods = names_of_kind(&symbols, SymbolKind::Method);
    assert!(methods.contains(&"greet".to_string()));

    let ctors = names_of_kind(&symbols, SymbolKind::Constructor);
    assert_eq!(ctors, vec!["constructor"]);
}

#[test]
fn interface_and_type() {
    let src = "export interface Repository<T> {\n  findById(id: string): T;\n  save(entity: T): T;\n}\nexport type UserId = string;\nexport enum Role { Admin, User }";
    let symbols = ts(src);
    assert!(names_of_kind(&symbols, SymbolKind::Interface).contains(&"Repository".to_string()));
    assert!(names_of_kind(&symbols, SymbolKind::Type).contains(&"UserId".to_string()));
    assert!(names_of_kind(&symbols, SymbolKind::Enum).contains(&"Role".to_string()));
    let iface_methods: Vec<_> = symbols
        .iter()
        .filter(|s| s.kind == SymbolKind::Method && s.parent_name.as_deref() == Some("Repository"))
        .map(|s| s.name.clone())
        .collect();
    assert!(iface_methods.contains(&"findById".to_string()), "interface methods: {:?}", iface_methods);
    assert!(iface_methods.contains(&"save".to_string()));
}

#[test]
fn interface_method_with_generics() {
    let src = r#"export interface Entity {
  id: string;
}

export interface Repository<T extends Entity> {
  findById(id: string): Promise<T | null>;
  findAll(): Promise<T[]>;
  save(entity: T): Promise<T>;
  delete(id: string): Promise<void>;
}

export interface Response {
  status(code: number): Response;
  json(data: unknown): void;
}"#;
    let symbols = ts(src);
    let all: Vec<_> = symbols
        .iter()
        .map(|s| format!("{}:{}(parent={:?})", s.kind.as_str(), s.name, s.parent_name))
        .collect();
    let repo_methods: Vec<_> = symbols
        .iter()
        .filter(|s| s.kind == SymbolKind::Method && s.parent_name.as_deref() == Some("Repository"))
        .map(|s| s.name.clone())
        .collect();
    assert!(repo_methods.contains(&"findById".to_string()), "repo methods: {:?}, all: {:?}", repo_methods, all);
    assert!(repo_methods.contains(&"save".to_string()));
    let resp_methods: Vec<_> = symbols
        .iter()
        .filter(|s| s.kind == SymbolKind::Method && s.parent_name.as_deref() == Some("Response"))
        .map(|s| s.name.clone())
        .collect();
    assert!(resp_methods.contains(&"status".to_string()), "response methods: {:?}", resp_methods);
}

#[test]
fn not_exported() {
    let src = r#"function helper() {} class Internal {}"#;
    let symbols = ts(src);
    assert!(!symbols.iter().find(|s| s.name == "helper").unwrap().is_exported);
    assert!(!symbols.iter().find(|s| s.name == "Internal").unwrap().is_exported);
}

// ---- Ruby ----

#[test]
fn class_with_superclass() {
    let src = "class User < Base\n  def full_name\n    name\n  end\nend";
    let symbols = rb(src);
    let classes = names_of_kind(&symbols, SymbolKind::Class);
    assert_eq!(classes, vec!["User"]);
    let user = symbols.iter().find(|s| s.name == "User").unwrap();
    assert_eq!(user.superclass.as_deref(), Some("Base"));
    let methods = names_of_kind(&symbols, SymbolKind::Method);
    assert_eq!(methods, vec!["full_name"]);
    assert_eq!(
        symbols.iter().find(|s| s.name == "full_name").unwrap().parent_name.as_deref(),
        Some("User")
    );
}

#[test]
fn module_and_singleton_method() {
    let src = "module Auth\n  def self.verify(token)\n    true\n  end\n  def check\n    false\n  end\nend";
    let symbols = rb(src);
    assert!(names_of_kind(&symbols, SymbolKind::Module).contains(&"Auth".to_string()));
    let methods = names_of_kind(&symbols, SymbolKind::Method);
    assert!(methods.contains(&"verify".to_string()));
    assert!(methods.contains(&"check".to_string()));
}

#[test]
fn attr_accessor() {
    let src = "class User\n  attr_reader :name, :email\n  attr_accessor :role\nend";
    let symbols = rb(src);
    let props = names_of_kind(&symbols, SymbolKind::Property);
    assert!(props.contains(&"name".to_string()));
    assert!(props.contains(&"email".to_string()));
    assert!(props.contains(&"role".to_string()));
}

#[test]
fn include_populates_interfaces() {
    let src = "class User\n  include Concerns::Validatable\n  extend Concerns::Trackable\nend";
    let symbols = rb(src);
    let user = symbols.iter().find(|s| s.name == "User" && s.kind == SymbolKind::Class).unwrap();
    assert!(user.interfaces.contains(&"Concerns::Validatable".to_string()));
    assert!(user.interfaces.contains(&"Concerns::Trackable".to_string()));
}

#[test]
fn scope_resolution_not_duplicated() {
    let src = "module Services\n  class Checkout\n    STEPS = [Services::CreateOrder, Services::SendReceipt]\n    include Concerns::Trackable\n  end\nend";
    let symbols = rb(src);
    let constants = names_of_kind(&symbols, SymbolKind::Constant);
    assert!(constants.contains(&"STEPS".to_string()));
    assert!(constants.contains(&"Services::CreateOrder".to_string()));
    assert!(constants.contains(&"Services::SendReceipt".to_string()));
    assert!(constants.contains(&"Concerns::Trackable".to_string()));
    assert!(!constants.iter().any(|c| c == "CreateOrder"));
    assert!(!constants.iter().any(|c| c == "SendReceipt"));
}

#[test]
fn constructor() {
    let src = "class User\n  def initialize(name)\n    @name = name\n  end\nend";
    let symbols = rb(src);
    let ctors = names_of_kind(&symbols, SymbolKind::Constructor);
    assert_eq!(ctors, vec!["initialize"]);
}

// ---- Go ----

#[test]
fn function_and_method() {
    let src = "package main\nfunc HandleHealth() {}\nfunc (s *Server) Start() {}";
    let symbols = go(src);
    let fns = names_of_kind(&symbols, SymbolKind::Function);
    assert_eq!(fns, vec!["HandleHealth"]);
    let methods = names_of_kind(&symbols, SymbolKind::Method);
    assert_eq!(methods, vec!["Start"]);
    let start = symbols.iter().find(|s| s.name == "Start").unwrap();
    assert_eq!(start.parent_name.as_deref(), Some("Server"));
}

#[test]
fn struct_with_fields() {
    let src = "package main\ntype Config struct {\n\tTimeout int\n\tverbose bool\n}";
    let symbols = go(src);
    let structs = names_of_kind(&symbols, SymbolKind::Struct);
    assert_eq!(structs, vec!["Config"]);
    let props = names_of_kind(&symbols, SymbolKind::Property);
    assert!(props.contains(&"Timeout".to_string()));
    assert!(props.contains(&"verbose".to_string()));
    assert!(symbols.iter().find(|s| s.name == "Timeout").unwrap().is_exported);
    assert!(!symbols.iter().find(|s| s.name == "verbose").unwrap().is_exported);
}

#[test]
fn interface() {
    let src = "package main\ntype Runner interface {\n\tRun(target string) error\n\tStatus() string\n}";
    let symbols = go(src);
    let ifaces = names_of_kind(&symbols, SymbolKind::Interface);
    assert_eq!(ifaces, vec!["Runner"]);
    let methods: Vec<_> = symbols
        .iter()
        .filter(|s| s.kind == SymbolKind::Method && s.parent_name.as_deref() == Some("Runner"))
        .map(|s| s.name.clone())
        .collect();
    assert!(methods.contains(&"Run".to_string()));
    assert!(methods.contains(&"Status".to_string()));
}

#[test]
fn exported_detection() {
    let src = "package main\nfunc Public() {}\nfunc private() {}";
    let symbols = go(src);
    assert!(symbols.iter().find(|s| s.name == "Public").unwrap().is_exported);
    assert!(!symbols.iter().find(|s| s.name == "private").unwrap().is_exported);
}

// ---- own scenarios ----

#[test]
fn symbol_lines_are_one_based() {
    let src = "package main\n\nfunc First() {}\n\nfunc Second() {\n}\n";
    let symbols = go(src);
    let first = symbols.iter().find(|s| s.name == "First").unwrap();
    assert_eq!((first.start_line, first.end_line), (3, 3));
    let second = symbols.iter().find(|s| s.name == "Second").unwrap();
    assert_eq!((second.start_line, second.end_line), (5, 6));
}

#[test]
fn go_param_counts_group_names() {
    let src = "package main\nfunc (s *Server) Serve(a, b int, c string, rest ...int) {}";
    let symbols = go(src);
    let serve = symbols.iter().find(|s| s.name == "Serve").unwrap();
    assert_eq!(serve.param_count, Some(4));
}

#[test]
fn symbol_uid_format() {
    let src = "package main\nfunc Run() {}";
    let symbols = go(src);
    let run = symbols.iter().find(|s| s.name == "Run").unwrap();
    assert_eq!(run.kind.as_str(), "Function");
    assert_eq!(run.uid(), format!("Function:{}:Run:2", run.file_path));
}
