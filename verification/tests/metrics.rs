use codeatlas::analyzer::community::detect_communities;
use codeatlas::embedding::Embedder;
use codeatlas::eval::{compute_routing_metrics, is_hit, recall_at_k, reciprocal_rank, Fraction, RelevantSymbol};
use codeatlas::query::{rrf_score, GroupedHits, Hit, ProcessGroup, ProcessedSymbol, RrfScore, SymbolInfo};

fn value(f: Fraction) -> f64 {
    if f.den == 0 {
        0.0
    } else {
        f.num as f64 / f.den as f64
    }
}

fn rrf_value(s: RrfScore) -> f64 {
    s.num as f64 / s.den as f64
}

fn make_symbol(name: &str, file_path: &str, kind: &str) -> SymbolInfo {
    SymbolInfo {
        uid: format!("{}:{}:{}:1", kind, file_path, name),
        name: name.to_string(),
        kind: kind.to_string(),
        file_path: file_path.to_string(),
        start_line: 1,
        end_line: 10,
        is_exported: true,
        parent_name: None,
    }
}

fn make_result(name: &str, file_path: &str, kind: &str) -> SymbolInfo {
    make_symbol(name, file_path, kind)
}

fn make_relevant(name: &str, file_path: &str, kind: &str) -> RelevantSymbol {
    RelevantSymbol {
        name: name.to_string(),
        file_path: file_path.to_string(),
        kind: kind.to_string(),
        in_process: None,
    }
}

#[test]
fn recall_all_hits() {
    let results = vec![make_result("Foo", "a.ts", "Class"), make_result("Bar", "b.ts", "Function")];
    let relevant = vec![make_relevant("Foo", "a.ts", "Class"), make_relevant("Bar", "b.ts", "Function")];
    let r = recall_at_k(&results, &relevant, 5);
    assert!((value(r) - 1.0).abs() < 1e-9);
}

#[test]
fn recall_partial_hits() {
    let results = vec![make_result("Foo", "a.ts", "Class"), make_result("Baz", "c.ts", "Method")];
    let relevant = vec![make_relevant("Foo", "a.ts", "Class"), make_relevant("Bar", "b.ts", "Function")];
    let r = recall_at_k(&results, &relevant, 5);
    assert!((value(r) - 0.5).abs() < 1e-9);
}

#[test]
fn recall_no_hits() {
    let results = vec![make_result("Baz", "c.ts", "Method")];
    let relevant = vec![make_relevant("Foo", "a.ts", "Class")];
    let r = recall_at_k(&results, &relevant, 5);
    assert!(value(r).abs() < 1e-9);
}

#[test]
fn rr_first_position() {
    let results = vec![make_result("Foo", "a.ts", "Class")];
    let relevant = vec![make_relevant("Foo", "a.ts", "Class")];
    let rr = reciprocal_rank(&results, &relevant, 5);
    assert!((value(rr) - 1.0).abs() < 1e-9);
}

#[test]
fn rr_second_position() {
    let results = vec![make_result("Other", "x.ts", "Method"), make_result("Foo", "a.ts", "Class")];
    let relevant = vec![make_relevant("Foo", "a.ts", "Class")];
    let rr = reciprocal_rank(&results, &relevant, 5);
    assert!((value(rr) - 0.5).abs() < 1e-9);
}

#[test]
fn rr_no_hit() {
    let results = vec![make_result("Other", "x.ts", "Method")];
    let relevant = vec![make_relevant("Foo", "a.ts", "Class")];
    let rr = reciprocal_rank(&results, &relevant, 5);
    assert!(value(rr).abs() < 1e-9);
}

#[test]
fn hit_requires_all_three_fields() {
    let result = make_result("Foo", "other/a.ts", "Class");
    let relevant = vec![make_relevant("Foo", "a.ts", "Class")];
    assert!(!is_hit(&result, &relevant));
}

fn make_grouped(process_names: &[(&str, &str, &str)], definition_names: &[(&str, &str, &str)]) -> GroupedHits {
    let matched_symbols = process_names
        .iter()
        .map(|(name, file, kind)| ProcessedSymbol {
            symbol: make_symbol(name, file, kind),
            score_key: 1,
            step_index: 0,
        })
        .collect();
    let definitions = definition_names
        .iter()
        .enumerate()
        .map(|(i, (name, file, kind))| Hit {
            id: i as i64 + 100,
            symbol: make_result(name, file, kind),
            score_key: 1,
        })
        .collect();
    GroupedHits {
        processes: vec![ProcessGroup {
            id: 1,
            label: "test".to_string(),
            process_type: "execution".to_string(),
            matched_symbols,
        }],
        definitions,
        total: process_names.len() + definition_names.len(),
    }
}

#[test]
fn routing_accuracy_absent_false_entry_is_wrong() {
    let grouped = make_grouped(&[("Foo", "a.ts", "Function")], &[]);
    let relevant = vec![
        RelevantSymbol { name: "Foo".into(), file_path: "a.ts".into(), kind: "Function".into(), in_process: Some(true) },
        RelevantSymbol { name: "Bar".into(), file_path: "b.ts".into(), kind: "Function".into(), in_process: Some(false) },
    ];
    let (_process_recall, routing_accuracy) = compute_routing_metrics(&grouped, &relevant);
    assert!(
        (value(routing_accuracy.unwrap()) - 0.5).abs() < 1e-9,
        "absent in_process=false should be wrong, got {:?}",
        routing_accuracy
    );
}

#[test]
fn routing_accuracy_false_entry_in_definitions_is_correct() {
    let grouped = make_grouped(&[("Foo", "a.ts", "Function")], &[("Bar", "b.ts", "Function")]);
    let relevant = vec![
        RelevantSymbol { name: "Foo".into(), file_path: "a.ts".into(), kind: "Function".into(), in_process: Some(true) },
        RelevantSymbol { name: "Bar".into(), file_path: "b.ts".into(), kind: "Function".into(), in_process: Some(false) },
    ];
    let (_process_recall, routing_accuracy) = compute_routing_metrics(&grouped, &relevant);
    assert!(
        (value(routing_accuracy.unwrap()) - 1.0).abs() < 1e-9,
        "both correctly routed, got {:?}",
        routing_accuracy
    );
}

#[test]
fn routing_accuracy_no_annotations_returns_none() {
    let grouped = make_grouped(&[], &[]);
    let relevant = vec![make_relevant("Foo", "a.ts", "Function")];
    let (process_recall, routing_accuracy) = compute_routing_metrics(&grouped, &relevant);
    assert!(process_recall.is_none());
    assert!(routing_accuracy.is_none());
}

#[test]
fn rrf_both_rank() {
    let score = rrf_score(Some(0), Some(0), 60);
    let expected = 2.0 / 61.0;
    assert!((rrf_value(score) - expected).abs() < 1e-9);
}

#[test]
fn rrf_one_only() {
    let score = rrf_score(None, Some(0), 60);
    let expected = 1.0 / 61.0;
    assert!((rrf_value(score) - expected).abs() < 1e-9);
}

#[test]
fn rrf_exact_fractions() {
    assert_eq!(rrf_score(None, None, 60), RrfScore { num: 0, den: 1 });
    assert_eq!(rrf_score(Some(2), None, 60), RrfScore { num: 1, den: 63 });
    assert_eq!(rrf_score(Some(0), Some(1), 60), RrfScore { num: 61 + 62, den: 61 * 62 });
}

#[test]
fn make_text_with_parent() {
    let text = Embedder::make_text("parse", "Method", "src/parser.rs", Some("Parser"));
    assert_eq!(text, "Method Parser.parse in src/parser.rs");
}

#[test]
fn make_text_without_parent() {
    let text = Embedder::make_text("main", "Function", "src/main.rs", None);
    assert_eq!(text, "Function main in src/main.rs");
}

#[test]
fn detect_communities_is_deterministic() {
    let edges = vec![
        ("a::foo".to_string(), "a::bar".to_string()),
        ("a::bar".to_string(), "a::baz".to_string()),
        ("a::foo".to_string(), "a::baz".to_string()),
        ("b::alpha".to_string(), "b::beta".to_string()),
        ("b::beta".to_string(), "b::gamma".to_string()),
        ("b::alpha".to_string(), "b::gamma".to_string()),
    ];
    let names: Vec<(String, String)> = [
        ("a::foo", "fooHandler"),
        ("a::bar", "barService"),
        ("a::baz", "bazRepo"),
        ("b::alpha", "alphaController"),
        ("b::beta", "betaHelper"),
        ("b::gamma", "gammaUtil"),
    ]
    .into_iter()
    .map(|(k, v)| (k.to_string(), v.to_string()))
    .collect();

    let run1 = detect_communities(&edges, &names);
    let run2 = detect_communities(&edges, &names);
    let run3 = detect_communities(&edges, &names);

    assert_eq!(run1.len(), run2.len());
    assert_eq!(run1.len(), run3.len());
    for i in 0..run1.len() {
        assert_eq!(run1[i].label, run2[i].label, "label mismatch at {}", i);
        assert_eq!(run1[i].label, run3[i].label, "label mismatch at {}", i);
        assert_eq!(run1[i].members, run2[i].members, "members mismatch at {}", i);
        assert_eq!(run1[i].members, run3[i].members, "members mismatch at {}", i);
    }
}

#[test]
fn communities_have_at_least_two_members_largest_first() {
    let edges = vec![
        ("a".to_string(), "b".to_string()),
        ("b".to_string(), "c".to_string()),
        ("a".to_string(), "c".to_string()),
        ("x".to_string(), "y".to_string()),
    ];
    let names: Vec<(String, String)> = vec![];
    let communities = detect_communities(&edges, &names);
    assert!(!communities.is_empty());
    for c in &communities {
        assert!(c.members.len() >= 2);
    }
    for w in communities.windows(2) {
        assert!(w[0].members.len() >= w[1].members.len());
    }
}

#[test]
fn communities_partition_the_graph() {
    let pairs = [("a", "b"), ("b", "c"), ("a", "c"), ("x", "y"), ("y", "z"), ("x", "z"), ("c", "x"), ("p", "q")];
    let edges: Vec<(String, String)> = pairs.iter().map(|(s, t)| (s.to_string(), t.to_string())).collect();
    let names: Vec<(String, String)> = Vec::new();
    let communities = detect_communities(&edges, &names);
    assert!(!communities.is_empty());
    let mut seen: Vec<String> = Vec::new();
    for c in &communities {
        for m in &c.members {
            assert!(pairs.iter().any(|(s, t)| s == m || t == m), "{} is no node", m);
            assert!(!seen.contains(m), "{} is in two communities", m);
            seen.push(m.clone());
        }
        assert_eq!(c.possible_edges, (c.members.len() * (c.members.len() - 1) / 2) as u128);
    }
}
