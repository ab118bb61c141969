use codeatlas::analyzer::graph::resolve_relationships;
use codeatlas::analyzer::resolver::{Confidence, RelationKind, Relationship};
use codeatlas::analyzer::FileAnalysis;
use codeatlas::indexing::{call_pairs, detect_structure, graph_symbols, uid_names};
use codeatlas::parser::extract::{Symbol, SymbolKind};
use codeatlas::parser::{parse_file, Language};

fn analyze(files: &[(&str, Language, &str)]) -> Vec<FileAnalysis> {
    files
        .iter()
        .map(|(path, lang, src)| parse_file(path, *lang, src.as_bytes()).unwrap())
        .collect()
}

fn find<'a>(analyses: &'a [FileAnalysis], name: &str, parent: Option<&str>) -> &'a Symbol {
    analyses
        .iter()
        .flat_map(|a| a.symbols.iter())
        .find(|s| s.name == name && s.parent_name.as_deref() == parent)
        .unwrap_or_else(|| panic!("symbol {} not found", name))
}

fn edges<'a>(rels: &'a [Relationship], from: &str, to: &str, kind: RelationKind) -> Vec<&'a Relationship> {
    rels.iter().filter(|r| r.source_uid == from && r.target_uid == to && r.kind == kind).collect()
}

#[test]
fn ruby_send_creates_calls_edges() {
    let src = "class Dispatcher\n  def run\n    send(:process)\n    public_send(:notify)\n  end\n\n  def process\n  end\n\n  def notify\n  end\nend\n";
    let analyses = analyze(&[("app/dispatcher.rb", Language::Ruby, src)]);
    let (rels, _) = resolve_relationships(&analyses);
    let run = find(&analyses, "run", Some("Dispatcher")).uid();
    let process = find(&analyses, "process", Some("Dispatcher")).uid();
    let notify = find(&analyses, "notify", Some("Dispatcher")).uid();
    assert!(!edges(&rels, &run, &process, RelationKind::Calls).is_empty());
    assert!(!edges(&rels, &run, &notify, RelationKind::Calls).is_empty());
    assert!(rels.iter().all(|r| !r.target_uid.contains(":send:")));
}

#[test]
fn go_interface_impl_requires_param_count_match() {
    let src = "package main\n\ntype Runner interface {\n\tRun(x int) error\n}\n\ntype CorrectRunner struct{}\n\nfunc (c *CorrectRunner) Run(x int) error { return nil }\n\ntype WrongRunner struct{}\n\nfunc (w *WrongRunner) Run() error { return nil }\n";
    let analyses = analyze(&[("runner.go", Language::Go, src)]);
    let (rels, _) = resolve_relationships(&analyses);
    let runner = find(&analyses, "Runner", None).uid();
    let correct = find(&analyses, "CorrectRunner", None).uid();
    let wrong = find(&analyses, "WrongRunner", None).uid();
    assert_eq!(edges(&rels, &correct, &runner, RelationKind::Implements).len(), 1);
    assert!(edges(&rels, &wrong, &runner, RelationKind::Implements).is_empty());
}

#[test]
fn ruby_method_missing_fallback_creates_calls_edge() {
    let src = "class DynamicProxy\n  def wrap\n    find_user(1)\n    known_helper()\n  end\n\n  def known_helper\n  end\n\n  def method_missing(name, *args)\n  end\nend\n";
    let analyses = analyze(&[("lib/proxy.rb", Language::Ruby, src)]);
    let (rels, _) = resolve_relationships(&analyses);
    let wrap = find(&analyses, "wrap", Some("DynamicProxy")).uid();
    let helper = find(&analyses, "known_helper", Some("DynamicProxy")).uid();
    let mm = find(&analyses, "method_missing", Some("DynamicProxy")).uid();
    let fallback = edges(&rels, &wrap, &mm, RelationKind::Calls);
    assert!(!fallback.is_empty());
    assert!(fallback.iter().all(|r| r.confidence == Confidence { num: 3, den: 10 }));
    assert!(!edges(&rels, &wrap, &helper, RelationKind::Calls).is_empty());
    assert!(edges(&rels, &helper, &mm, RelationKind::Calls).is_empty());
}

#[test]
fn external_symbols_exist_in_graph() {
    let src = "class User < ActiveRecord::Base\n  def save_all\n    ActiveRecord::Base.transaction\n    helper.run\n  end\nend\n";
    let analyses = analyze(&[("app/models/user.rb", Language::Ruby, src)]);
    let (rels, externals) = resolve_relationships(&analyses);
    let ext: Vec<&Relationship> = rels
        .iter()
        .filter(|r| r.kind == RelationKind::CallsExternal || r.kind == RelationKind::CallsUnresolved)
        .collect();
    assert!(!ext.is_empty());
    for r in &ext {
        assert!(externals.iter().any(|s| s.uid() == r.target_uid), "missing pseudo-symbol for {}", r.target_uid);
    }
    assert!(externals.iter().all(|s| s.kind == SymbolKind::External));
    assert!(rels.iter().any(|r| r.kind == RelationKind::CallsExternal));
    for r in rels.iter().filter(|r| r.kind == RelationKind::CallsExternal) {
        assert!(r.target_uid.contains("::"));
    }
    let uids: Vec<String> = externals.iter().map(|s| s.uid()).collect();
    let mut sorted = uids.clone();
    sorted.sort();
    assert_eq!(uids, sorted);
}

#[test]
fn ts_imports_and_calls_across_files() {
    let service = "export class UserService {\n  save(): void {}\n}\n";
    let controller = "import { UserService } from './user_service';\n\nexport function handle() {\n  const s = new UserService();\n  s.save();\n}\n";
    let analyses = analyze(&[
        ("src/user_service.ts", Language::TypeScript, service),
        ("src/controller.ts", Language::TypeScript, controller),
    ]);
    let (rels, _) = resolve_relationships(&analyses);
    let handle = find(&analyses, "handle", None).uid();
    let class = find(&analyses, "UserService", None).uid();
    assert!(!edges(&rels, &handle, &class, RelationKind::Calls).is_empty());
    assert!(rels.iter().any(|r| r.kind == RelationKind::Imports));
    assert!(rels.iter().any(|r| r.kind == RelationKind::Contains));
}

#[test]
fn structure_detection_over_a_small_graph() {
    let src = "package main\n\nfunc Main() { Alpha() }\nfunc Alpha() { Beta() }\nfunc Beta() { Gamma() }\nfunc Gamma() {}\n";
    let analyses = analyze(&[("cmd/main.go", Language::Go, src)]);
    let (rels, externals) = resolve_relationships(&analyses);
    let symbols = graph_symbols(&analyses, &externals);
    let pairs = call_pairs(&rels);
    assert!(pairs.len() >= 3);
    let names = uid_names(&symbols);
    assert!(names.iter().any(|(_, n)| n == "Alpha"));
    let (communities, processes) = detect_structure(&symbols, &rels);
    for c in &communities {
        assert!(c.members.len() >= 2);
    }
    for p in &processes {
        assert!(p.steps.len() >= 2);
    }
}

#[test]
fn ts_constructor_field_type_resolves_calls() {
    let service = "export class UserService {\n  save(): void {}\n}\n";
    let controller = "import { UserService } from './user_service';\n\nexport class Controller {\n  constructor(private service: UserService) {}\n  create() {\n    this.service.save();\n  }\n}\n";
    let analyses = analyze(&[
        ("src/user_service.ts", Language::TypeScript, service),
        ("src/controller.ts", Language::TypeScript, controller),
    ]);
    let (rels, _) = resolve_relationships(&analyses);
    let create = find(&analyses, "create", Some("Controller")).uid();
    let save = find(&analyses, "save", Some("UserService")).uid();
    let hits = edges(&rels, &create, &save, RelationKind::Calls);
    assert_eq!(hits.len(), 1);
    assert_eq!(hits[0].reason, "field-type-annotation");
}

#[test]
fn kept_traces_are_not_subsumed() {
    let src = "package main\n\nfunc Main() { Alpha(); Beta() }\nfunc Alpha() { Beta(); Delta() }\nfunc Beta() { Gamma() }\nfunc Gamma() {}\nfunc Delta() { Gamma() }\nfunc HandleX() { Alpha() }\n";
    let analyses = analyze(&[("cmd/main.go", Language::Go, src)]);
    let (rels, externals) = resolve_relationships(&analyses);
    let symbols = graph_symbols(&analyses, &externals);
    let (_, processes) = detect_structure(&symbols, &rels);
    assert!(!processes.is_empty());
    for a in &processes {
        for b in &processes {
            if a.id != b.id && b.steps.len() < a.steps.len() {
                assert!(b.steps.iter().any(|s| !a.steps.contains(s)), "trace {:?} lies on {:?}", b.steps, a.steps);
            }
        }
    }
}

#[test]
fn calls_external_only_for_namespace() {
    let src = "class User < ActiveRecord::Base\n  def save_all\n    ActiveRecord::Base.transaction\n    helper.run\n    Logger.info\n  end\nend\n";
    let analyses = analyze(&[("app/models/user.rb", Language::Ruby, src)]);
    let (rels, _) = resolve_relationships(&analyses);
    for r in rels.iter().filter(|r| r.kind == RelationKind::CallsExternal) {
        assert!(r.target_uid.contains("::"), "{}", r.target_uid);
    }
    assert!(rels.iter().any(|r| r.kind == RelationKind::CallsExternal));
    assert!(rels.iter().any(|r| r.kind == RelationKind::CallsUnresolved));
}
