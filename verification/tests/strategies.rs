use codeatlas::analyzer::build_symbol_index;
use codeatlas::analyzer::resolver::calls::{resolve_callee, ResolvedTarget};
use codeatlas::analyzer::resolver::{Confidence, RelationKind};
use codeatlas::analyzer::FileAnalysis;
use codeatlas::parser::calls::RawCall;
use codeatlas::parser::{parse_file, Language};
use codeatlas::query::Reachability;

fn analyze(files: &[(&str, Language, &str)]) -> Vec<FileAnalysis> {
    files
        .iter()
        .map(|(path, lang, src)| parse_file(path, *lang, src.as_bytes()).unwrap())
        .collect()
}

fn call(callee: &str, receiver: Option<&str>, caller: Option<&str>, parent: Option<&str>) -> RawCall {
    RawCall {
        callee_name: callee.to_string(),
        receiver: receiver.map(|r| r.to_string()),
        caller_name: caller.map(|c| c.to_string()),
        caller_parent: parent.map(|p| p.to_string()),
        line: 1,
    }
}

fn resolve(analyses: &[FileAnalysis], file: usize, c: &RawCall) -> Vec<ResolvedTarget> {
    let index = build_symbol_index(analyses);
    let a = &analyses[file];
    resolve_callee(&a.file_path, c, &a.symbols, &index, &[])
}

fn same(c: Confidence, num: u32, den: u32) -> bool {
    c.num == num && c.den == den
}

#[test]
fn strategies_in_priority_order() {
    let analyses = analyze(&[
        ("src/a.ts", Language::TypeScript, "export function helper() {}\nfunction main() { helper(); shared(); }\n"),
        ("src/b.ts", Language::TypeScript, "export function helper() {}\nexport function shared() {}\n"),
        ("src/c.ts", Language::TypeScript, "export function twice() {}\n"),
        ("src/d.ts", Language::TypeScript, "export function twice() {}\n"),
    ]);
    // same-file match wins over the global one
    let r = resolve(&analyses, 0, &call("helper", None, Some("main"), None));
    assert_eq!(r.len(), 1);
    assert_eq!(r[0].target_uid, "Function:src/a.ts:helper:1");
    assert!(same(r[0].confidence, 9, 10));
    assert_eq!(r[0].reason, "same-file-match");
    assert_eq!(r[0].kind, RelationKind::Calls);
    // one exported symbol elsewhere: unique global match
    let r = resolve(&analyses, 0, &call("shared", None, Some("main"), None));
    assert_eq!(r.len(), 1);
    assert_eq!(r[0].target_uid, "Function:src/b.ts:shared:2");
    assert!(same(r[0].confidence, 4, 5));
    assert_eq!(r[0].reason, "unique-global-match");
    // two exported symbols: 1/4 each
    let r = resolve(&analyses, 0, &call("twice", None, Some("main"), None));
    assert_eq!(r.len(), 2);
    for t in &r {
        assert!(same(t.confidence, 1, 4));
        assert_eq!(t.reason, "ambiguous-global-match");
    }
    // nothing anywhere: the External pseudo-symbol
    let r = resolve(&analyses, 0, &call("nowhere", None, Some("main"), None));
    assert_eq!(r.len(), 1);
    assert_eq!(r[0].target_uid, "External:<external>:nowhere:0");
    assert!(same(r[0].confidence, 0, 1));
    assert_eq!(r[0].reason, "unresolved");
    assert_eq!(r[0].kind, RelationKind::CallsUnresolved);
    let r = resolve(&analyses, 0, &call("get", Some("Net::HTTP"), Some("main"), None));
    assert_eq!(r[0].target_uid, "External:<external>:Net::HTTP.get:0");
    assert_eq!(r[0].kind, RelationKind::CallsExternal);
}

#[test]
fn ruby_method_missing_fallback_strategy() {
    let analyses = analyze(&[(
        "app/proxy.rb",
        Language::Ruby,
        "class Proxy\n  def method_missing(name, *args)\n  end\n\n  def go\n    ghost_call(1)\n  end\nend\n",
    )]);
    let r = resolve(&analyses, 0, &call("ghost_call", None, Some("go"), Some("Proxy")));
    assert_eq!(r.len(), 1);
    assert!(r[0].target_uid.contains("method_missing"));
    assert!(same(r[0].confidence, 3, 10));
    assert_eq!(r[0].reason, "method-missing-fallback");
}

fn run_reach(edges: &[(i64, i64)], start: i64, max_depth: u32, capacity: usize) -> Vec<(i64, u32)> {
    let mut walk = Reachability::new(start, max_depth, capacity);
    while walk.wants_expansion() {
        let visited = walk.visited().clone();
        let mut next: Vec<i64> = Vec::new();
        for f in walk.frontier().iter() {
            for (a, b) in edges {
                if a == f && !visited.contains(b) && !next.contains(b) {
                    next.push(*b);
                }
            }
        }
        walk.expand(&next);
    }
    walk.finish().0
}

#[test]
fn deeper_limit_finds_a_superset() {
    let edges = [(1, 2), (2, 3), (3, 4), (1, 5), (5, 6), (6, 1)];
    let mut last: Vec<(i64, u32)> = Vec::new();
    for d in 0..5 {
        let found = run_reach(&edges, 1, d, 100);
        assert!(found.len() >= last.len());
        assert_eq!(&found[..last.len()], &last[..]);
        last = found;
    }
    assert_eq!(last.len(), 5);
}

#[test]
fn reachability_records_shortest_distances() {
    // 3 is reached directly and through 2; 4 through 3 and through 5
    let edges = [(1, 2), (2, 3), (1, 3), (3, 4), (4, 1), (2, 5), (5, 4)];
    let found = run_reach(&edges, 1, 3, 100);
    assert_eq!(found, vec![(2, 1), (3, 1), (5, 2), (4, 2)]);
    let shallow = run_reach(&edges, 1, 1, 100);
    assert_eq!(shallow, vec![(2, 1), (3, 1)]);
    assert!(found.iter().all(|(id, _)| *id != 1));
    let cut = run_reach(&edges, 1, 3, 3);
    assert_eq!(cut, vec![(2, 1), (3, 1), (5, 2)]);
}
