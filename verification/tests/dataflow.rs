use codeatlas::parser::dataflow::{FlowKind, RawFlow};
use codeatlas::parser::extract_flows::{extract_dataflows, extract_go_dataflows, extract_ruby_dataflows, extract_ts_dataflows};
use codeatlas::parser::sitter::parse_source;
use codeatlas::parser::Language;

fn extract(lang: Language, source: &str) -> Vec<RawFlow> {
    let tree = parse_source(lang, source.as_bytes()).unwrap();
    extract_dataflows(lang, &tree)
}

fn has_flow(flows: &[RawFlow], kind: FlowKind, source: &str, sink: &str) -> bool {
    flows.iter().any(|f| f.flow_kind == kind && f.source_expr == source && f.sink_expr == sink)
}

fn has_flow_kind(flows: &[RawFlow], kind: FlowKind) -> bool {
    flows.iter().any(|f| f.flow_kind == kind)
}

// ---- TypeScript ----

#[test]
fn ts_assignment() {
    let flows = extract(Language::TypeScript, r#"
function handle(input: string) {
    const data = JSON.parse(input);
}
"#);
    assert!(has_flow(&flows, FlowKind::Assignment, "JSON.parse(input)", "data"));
}

#[test]
fn ts_argument() {
    let flows = extract(Language::TypeScript, r#"
function handle(input: string) {
    console.log(input);
}
"#);
    assert!(has_flow_kind(&flows, FlowKind::Argument));
}

#[test]
fn ts_string_interp() {
    let flows = extract(Language::TypeScript, r#"
function greet(name: string) {
    const msg = `Hello, ${name}!`;
}
"#);
    assert!(has_flow_kind(&flows, FlowKind::StringInterp));
}

#[test]
fn ts_return() {
    let flows = extract(Language::TypeScript, r#"
function get(): number {
    const x = 42;
    return x;
}
"#);
    assert!(has_flow_kind(&flows, FlowKind::Return));
}

#[test]
fn ts_field_access() {
    let flows = extract(Language::TypeScript, r#"
function process(obj: any) {
    const val = obj.data.name;
}
"#);
    assert!(has_flow_kind(&flows, FlowKind::FieldAccess));
}

// ---- Ruby ----

#[test]
fn ruby_assignment() {
    let flows = extract(Language::Ruby, r#"
def handle(input)
  data = JSON.parse(input)
end
"#);
    assert!(has_flow_kind(&flows, FlowKind::Assignment));
}

#[test]
fn ruby_argument() {
    let flows = extract(Language::Ruby, r#"
def handle(input)
  puts(input)
end
"#);
    assert!(has_flow_kind(&flows, FlowKind::Argument));
}

#[test]
fn ruby_string_interp() {
    let flows = extract(Language::Ruby, r#"
def greet(name)
  msg = "Hello, #{name}!"
end
"#);
    assert!(has_flow_kind(&flows, FlowKind::StringInterp));
}

#[test]
fn ruby_return() {
    let flows = extract(Language::Ruby, r#"
def get
  x = 42
  return x
end
"#);
    assert!(has_flow_kind(&flows, FlowKind::Return));
}

#[test]
fn ruby_field_access() {
    let flows = extract(Language::Ruby, r#"
def process(obj)
  val = obj.data.name
end
"#);
    assert!(has_flow_kind(&flows, FlowKind::FieldAccess));
}

// ---- Go ----

#[test]
fn go_assignment() {
    let flows = extract(Language::Go, r#"
package main

func handle(input string) {
    data := parse(input)
    _ = data
}
"#);
    assert!(has_flow_kind(&flows, FlowKind::Assignment));
}

#[test]
fn go_argument() {
    let flows = extract(Language::Go, r#"
package main

import "fmt"

func handle(input string) {
    fmt.Println(input)
}
"#);
    assert!(has_flow_kind(&flows, FlowKind::Argument));
}

#[test]
fn go_return() {
    let flows = extract(Language::Go, r#"
package main

func get() int {
    x := 42
    return x
}
"#);
    assert!(has_flow_kind(&flows, FlowKind::Return));
}

#[test]
fn go_field_access() {
    let flows = extract(Language::Go, r#"
package main

type Obj struct {
    Data struct {
        Name string
    }
}

func process(obj Obj) {
    val := obj.Data.Name
    _ = val
}
"#);
    assert!(has_flow_kind(&flows, FlowKind::FieldAccess));
}

// ---- own scenarios ----

#[test]
fn ts_flow_records_enclosing_function_and_lines() {
    let flows = extract(Language::TypeScript, "function handle(input: string) {\n    const data = JSON.parse(input);\n}\n");
    let f = flows
        .iter()
        .find(|f| f.flow_kind == FlowKind::Assignment && f.sink_expr == "data")
        .unwrap();
    assert_eq!(f.enclosing_function.as_deref(), Some("handle"));
    assert_eq!(f.sink_line, 2);
    assert_eq!(f.source_line, 2);
    assert_eq!(f.enclosing_start_line, 1);
    assert_eq!(f.flow_kind.as_str(), "Assignment");
}

#[test]
fn per_language_extraction_appends() {
    let ts = parse_source(Language::TypeScript, b"function f(a: string) { g(a); }\n").unwrap();
    let mut flows = Vec::new();
    extract_ts_dataflows(&ts, &mut flows);
    let n = flows.len();
    assert!(n > 0);
    extract_ts_dataflows(&ts, &mut flows);
    assert_eq!(flows.len(), 2 * n);
    let go = parse_source(Language::Go, b"package main\nfunc f(a int) int {\n\tx := a\n\treturn x\n}\n").unwrap();
    let before = flows.len();
    extract_go_dataflows(&go, &mut flows);
    assert!(flows[before..].iter().any(|f| f.flow_kind == FlowKind::Return));
    let rb = parse_source(Language::Ruby, b"def f(a)\n  puts(a)\nend\n").unwrap();
    let before = flows.len();
    extract_ruby_dataflows(&rb, &mut flows);
    assert!(flows[before..].iter().any(|f| f.flow_kind == FlowKind::Argument));
}

#[test]
fn flow_lines_are_one_based() {
    let cases = [
        (Language::TypeScript, "const a = b;\nfunction f(x: number) {\n  return `${x} ${a.y}`;\n}\n"),
        (Language::Go, "package main\nfunc f(a int) int {\n\tb := a.c\n\tg(b)\n\treturn b\n}\n"),
        (Language::Ruby, "x = y\ndef f(a)\n  puts(\"#{a.b}\")\n  return a\nend\n"),
    ];
    for (lang, source) in cases {
        let flows = extract(lang, source);
        assert!(!flows.is_empty());
        for f in &flows {
            assert!(f.source_line >= 1 && f.sink_line >= 1);
        }
    }
    let first = extract(Language::TypeScript, "const a = b;\n");
    assert_eq!(first[0].sink_line, 1);
}

fn kinds_in(flows: &[RawFlow], function: &str) -> Vec<String> {
    flows
        .iter()
        .filter(|f| f.enclosing_function.as_deref() == Some(function))
        .map(|f| f.flow_kind.as_str().to_string())
        .collect()
}

#[test]
fn dataflow_returns_flows_for_ts_function() {
    let src = "function handleRequest(req: any) {\n  const id = req.params.id;\n  const msg = `user ${id}`;\n  return msg;\n}\n";
    let kinds = kinds_in(&extract(Language::TypeScript, src), "handleRequest");
    assert!(!kinds.is_empty());
    assert!(kinds.iter().any(|k| k == "Assignment"));
    assert!(kinds.iter().any(|k| k == "StringInterp"));
    assert!(kinds.iter().any(|k| k == "Return"));
}

#[test]
fn dataflow_ruby_flows_detected() {
    let src = "class Processor\n  def process(input)\n    result = transform(input)\n    return result\n  end\nend\n";
    let kinds = kinds_in(&extract(Language::Ruby, src), "process");
    assert!(!kinds.is_empty());
    assert!(kinds.iter().any(|k| k == "Assignment"));
    assert!(kinds.iter().any(|k| k == "Return"));
}

#[test]
fn dataflow_go_flows_detected() {
    let src = "package main\n\nfunc serve(addr string) {\n\tport := addr\n\tlisten(port)\n}\n";
    let kinds = kinds_in(&extract(Language::Go, src), "serve");
    assert!(!kinds.is_empty());
    assert!(kinds.iter().any(|k| k == "Assignment"));
}
