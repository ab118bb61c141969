use codeatlas::parser::calls::RawCall;
use codeatlas::parser::extract_calls::extract_calls;
use codeatlas::parser::sitter::parse_source;
use codeatlas::parser::Language;

fn calls_of(language: Language, source: &str) -> Vec<RawCall> {
    let tree = parse_source(language, source.as_bytes()).unwrap();
    extract_calls(language, &tree)
}

// ---- Go ----

#[test]
fn go_function_call() {
    let src = "package main\nfunc main() { fmt.Println(\"hello\") }";
    let calls = calls_of(Language::Go, src);
    assert!(calls
        .iter()
        .any(|c| c.callee_name == "Println" && c.receiver.as_deref() == Some("fmt")));
}

#[test]
fn go_method_call() {
    let src = "package main\nfunc (h *Handler) Serve() { h.service.Run(\"task\") }";
    let calls = calls_of(Language::Go, src);
    let run_call = calls.iter().find(|c| c.callee_name == "Run").unwrap();
    assert!(run_call.receiver.is_some());
    assert_eq!(run_call.caller_name.as_deref(), Some("Serve"));
}

#[test]
fn go_plain_call() {
    let src = "package main\nfunc main() { Execute(args) }";
    let calls = calls_of(Language::Go, src);
    assert!(calls
        .iter()
        .any(|c| c.callee_name == "Execute" && c.receiver.is_none()));
}

// ---- TypeScript ----

#[test]
fn ts_simple_call() {
    let src = "function main() { greet('hello'); }";
    let calls = calls_of(Language::TypeScript, src);
    assert!(calls
        .iter()
        .any(|c| c.callee_name == "greet" && c.receiver.is_none()));
}

#[test]
fn ts_method_call() {
    let src = "function main() { this.service.findById('1'); }";
    let calls = calls_of(Language::TypeScript, src);
    assert!(calls
        .iter()
        .any(|c| c.callee_name == "findById" && c.receiver.is_some()));
}

#[test]
fn ts_new_expression() {
    let src = "function main() { const svc = new UserService(); }";
    let calls = calls_of(Language::TypeScript, src);
    assert!(calls.iter().any(|c| c.callee_name == "UserService"));
}

#[test]
fn ts_require_skipped() {
    let src = r#"const fs = require("fs");"#;
    let calls = calls_of(Language::TypeScript, src);
    assert!(calls.iter().all(|c| c.callee_name != "require"));
}

#[test]
fn ts_caller_context() {
    let src = "class UserController {\n  create() { this.service.save(); }\n}";
    let calls = calls_of(Language::TypeScript, src);
    let save_call = calls.iter().find(|c| c.callee_name == "save").unwrap();
    assert_eq!(save_call.caller_name.as_deref(), Some("create"));
    assert_eq!(save_call.caller_parent.as_deref(), Some("UserController"));
}

// ---- Ruby ----

#[test]
fn ruby_method_call() {
    let src = "class App\n  def run\n    @service.create(\"user\")\n  end\nend";
    let calls = calls_of(Language::Ruby, src);
    assert!(calls.iter().any(|c| c.callee_name == "create"));
}

#[test]
fn ruby_require_skipped() {
    let src = "require \"json\"\nrequire_relative \"helper\"";
    let calls = calls_of(Language::Ruby, src);
    assert!(calls
        .iter()
        .all(|c| c.callee_name != "require" && c.callee_name != "require_relative"));
}

#[test]
fn ruby_caller_context() {
    let src = "class Order\n  def process\n    validate\n    save\n  end\nend";
    let calls = calls_of(Language::Ruby, src);
    for call in &calls {
        assert_eq!(call.caller_name.as_deref(), Some("process"));
    }
}

// ---- own scenarios ----

#[test]
fn ts_this_member_receiver_is_the_property() {
    let src = "class A {\n  run() { this.repository.findById(1); }\n}";
    let calls = calls_of(Language::TypeScript, src);
    let call = calls.iter().find(|c| c.callee_name == "findById").unwrap();
    assert_eq!(call.receiver.as_deref(), Some("repository"));
    assert_eq!(call.line, 2);
}

#[test]
fn ruby_send_uses_symbol_argument() {
    let src = "class Job\n  def perform\n    worker.send(:execute, 1)\n    worker.public_send(\"finish\")\n  end\nend";
    let calls = calls_of(Language::Ruby, src);
    assert!(calls.iter().any(|c| c.callee_name == "execute" && c.receiver.as_deref() == Some("worker")));
    assert!(calls.iter().any(|c| c.callee_name == "finish"));
    assert!(calls.iter().all(|c| c.callee_name != "send" && c.callee_name != "public_send"));
}

#[test]
fn ruby_constant_array_refs_become_calls() {
    let src = "class Checkout\n  STEPS = [Services::CreateOrder, Notify]\nend";
    let calls = calls_of(Language::Ruby, src);
    let create = calls.iter().find(|c| c.callee_name == "CreateOrder").unwrap();
    assert_eq!(create.receiver.as_deref(), Some("Services"));
    let notify = calls.iter().find(|c| c.callee_name == "Notify").unwrap();
    assert!(notify.receiver.is_none());
}
