use codeatlas::analyzer::community::{capitalize, generate_label, is_stop_word, split_identifier};
use codeatlas::analyzer::resolver::imports::{normalize_path, resolve_import_path};
use codeatlas::analyzer::resolver::Confidence;
use codeatlas::eval::{flatten_grouped, next_grouped_limit, score_query, Fraction, RelevantSymbol};
use codeatlas::query::{
    single_by_name_file, QueryError,
    build_impact_summary, choose_dataflow_symbol, decide_by_name, decide_by_name_file, group_hits, plan_hybrid,
    uid_not_found_message, ContextDecision, GroupedHits, Hit, HybridPlan, ImpactWalk, Neighbor, ProcessGroup,
    ProcessedSymbol, RrfScore, StepRow, SymbolInfo,
};

fn sym(name: &str, kind: &str, file: &str, exported: bool) -> SymbolInfo {
    SymbolInfo {
        uid: format!("{}:{}:{}:1", kind, file, name),
        name: name.to_string(),
        kind: kind.to_string(),
        file_path: file.to_string(),
        start_line: 1,
        end_line: 2,
        is_exported: exported,
        parent_name: None,
    }
}

// ---- impact ----

#[test]
fn impact_summary_wording() {
    assert_eq!(
        build_impact_summary("Execute", "upstream", 3, 1, "medium", 2, 1),
        "Changing Execute (upstream) affects 3 symbol(s) (1 direct) in 2 module(s) and 1 process(es). Risk: medium."
    );
    assert_eq!(
        build_impact_summary("f", "downstream", 0, 0, "low", 0, 0),
        "Changing f (downstream) affects 0 symbol(s) (0 direct). Risk: low."
    );
    assert_eq!(
        build_impact_summary("g", "upstream", 12, 4, "high", 0, 3),
        "Changing g (upstream) affects 12 symbol(s) (4 direct) in 3 process(es). Risk: high."
    );
    assert_eq!(
        build_impact_summary("h", "upstream", 2, 2, "medium", 1, 0),
        "Changing h (upstream) affects 2 symbol(s) (2 direct) in 1 module(s). Risk: medium."
    );
}

#[test]
fn impact_walk_by_depth() {
    let one = Confidence { num: 1, den: 1 };
    let mut walk = ImpactWalk::new(1, 2);
    assert_eq!(walk.next_node(), Some((1, 0)));
    walk.visit(
        0,
        &[
            Neighbor { id: 2, confidence: one, reason: "call".to_string(), symbol: Some(sym("b", "Function", "x.ts", true)) },
            Neighbor { id: 3, confidence: one, reason: "gone".to_string(), symbol: None },
            Neighbor { id: 1, confidence: one, reason: "self".to_string(), symbol: Some(sym("a", "Function", "x.ts", false)) },
        ],
    );
    assert_eq!(walk.next_node(), Some((2, 1)));
    walk.visit(1, &[Neighbor { id: 4, confidence: one, reason: "call".to_string(), symbol: Some(sym("d", "Method", "y.ts", false)) }]);
    assert_eq!(walk.next_node(), None);
    let f = walk.finish();
    let found: Vec<(u32, &str)> = f.entries.iter().map(|(d, e)| (*d, e.symbol.name.as_str())).collect();
    assert_eq!(found, vec![(1, "b"), (2, "d")]);
    assert_eq!(f.total_affected, 2);
    assert_eq!(f.affected_ids, vec![2, 3, 4]);
    assert_eq!(f.depth_1_count, 1);
    assert!(f.has_exported_at_d1);
    assert_eq!(f.risk, "high");
}

// ---- context decisions ----

#[test]
fn context_decisions_by_name() {
    match decide_by_name("x", vec![]) {
        ContextDecision::NotFound(m) => assert_eq!(m, "Symbol 'x' not found"),
        _ => panic!("expected not found"),
    }
    match decide_by_name("x", vec![sym("x", "Function", "a.ts", true)]) {
        ContextDecision::Unique(s) => assert_eq!(s.file_path, "a.ts"),
        _ => panic!("expected unique"),
    }
    match decide_by_name("x", vec![sym("x", "Function", "a.ts", true), sym("x", "Method", "b.ts", false)]) {
        ContextDecision::Ambiguous(m, c) => {
            assert_eq!(m, "Multiple symbols match 'x'. Use uid for exact lookup.");
            assert_eq!(c.len(), 2);
        }
        _ => panic!("expected ambiguous"),
    }
    let many: Vec<SymbolInfo> = (0..51).map(|i| sym("x", "Function", &format!("f{}.ts", i), false)).collect();
    match decide_by_name("x", many) {
        ContextDecision::Ambiguous(m, c) => {
            assert_eq!(
                m,
                "Symbol 'x' matches more than 50 entries (showing first 50). Use --uid or --file for zero-ambiguity lookup."
            );
            assert_eq!(c.len(), 50);
        }
        _ => panic!("expected ambiguous"),
    }
}

#[test]
fn context_decisions_by_name_and_file() {
    match decide_by_name_file("x", "a.ts", vec![]) {
        ContextDecision::NotFound(m) => assert_eq!(m, "Symbol 'x' not found in 'a.ts'"),
        _ => panic!("expected not found"),
    }
    match decide_by_name_file("x", "a.ts", vec![sym("x", "Function", "a.ts", true), sym("x", "Method", "a.ts", true)]) {
        ContextDecision::Ambiguous(m, _) => assert_eq!(
            m,
            "Symbol 'x' in 'a.ts' matches 2 entries. Use context --uid \"<uid>\" to select a specific symbol."
        ),
        _ => panic!("expected ambiguous"),
    }
    assert_eq!(uid_not_found_message("U:1"), "No symbol found with uid 'U:1'");
}

#[test]
fn dataflow_symbol_choice() {
    assert_eq!(choose_dataflow_symbol("x", &vec![]).unwrap_err(), "symbol not found: x");
    let c = vec![sym("x", "Class", "a.ts", true), sym("x", "Function", "b.ts", false)];
    assert_eq!(choose_dataflow_symbol("x", &c).unwrap().file_path, "b.ts");
    let d = vec![sym("x", "Function", "a.ts", true), sym("x", "Method", "b.ts", false)];
    assert_eq!(
        choose_dataflow_symbol("x", &d).unwrap_err(),
        "ambiguous symbol 'x' (2 matches). Use --file or --uid to disambiguate."
    );
}

// ---- search ----

#[test]
fn hybrid_plan_fuses_ranks() {
    assert!(matches!(plan_hybrid(&[], &[], 10), HybridPlan::Empty));
    assert!(matches!(plan_hybrid(&[], &[4], 10), HybridPlan::VectorOnly));
    match plan_hybrid(&[1, 2], &[2, 3], 10) {
        HybridPlan::Fused(v) => {
            let ids: Vec<i64> = v.iter().map(|(id, _)| *id).collect();
            assert_eq!(ids, vec![2, 1, 3]);
            assert_eq!(v[0].1, RrfScore { num: 62 + 61, den: 62 * 61 });
            assert_eq!(v[1].1, RrfScore { num: 1, den: 61 });
        }
        _ => panic!("expected a fused ranking"),
    }
    match plan_hybrid(&[1, 2], &[2, 3], 1) {
        HybridPlan::Fused(v) => assert_eq!(v.len(), 1),
        _ => panic!("expected a fused ranking"),
    }
}

#[test]
fn grouped_hits_split_processes_and_definitions() {
    let hits = vec![
        Hit { id: 10, symbol: sym("a", "Function", "a.ts", true), score_key: 5 },
        Hit { id: 12, symbol: sym("c", "Function", "c.ts", true), score_key: 7 },
        Hit { id: 11, symbol: sym("b", "Function", "b.ts", true), score_key: 7 },
    ];
    let rows = vec![StepRow {
        symbol_id: 10,
        process_id: 1,
        label: "Flow".to_string(),
        process_type: "intra_community".to_string(),
        step_index: 0,
    }];
    let g = group_hits(&hits, &rows);
    assert_eq!(g.total, 3);
    assert_eq!(g.processes.len(), 1);
    assert_eq!(g.processes[0].label, "Flow");
    assert_eq!(g.processes[0].matched_symbols.len(), 1);
    assert_eq!(g.processes[0].matched_symbols[0].symbol.name, "a");
    let defs: Vec<i64> = g.definitions.iter().map(|h| h.id).collect();
    assert_eq!(defs, vec![11, 12]);
}

// ---- evaluation ----

#[test]
fn query_score_exact_fractions() {
    let results = vec![sym("x", "Function", "x.ts", true), sym("a", "Class", "a.ts", true), sym("b", "Function", "b.ts", true)];
    let relevant = vec![
        RelevantSymbol { name: "a".into(), file_path: "a.ts".into(), kind: "Class".into(), in_process: None },
        RelevantSymbol { name: "b".into(), file_path: "b.ts".into(), kind: "Function".into(), in_process: None },
        RelevantSymbol { name: "z".into(), file_path: "z.ts".into(), kind: "Function".into(), in_process: None },
    ];
    let s = score_query(&results, &relevant, 2);
    assert_eq!(s.relevant_count, 3);
    assert_eq!(s.hit_count, 1);
    assert_eq!(s.first_relevant_rank, Some(2));
    assert_eq!(s.recall, Fraction { num: 1, den: 3 });
    assert_eq!(s.reciprocal_rank, Fraction { num: 1, den: 2 });
}

#[test]
fn grouped_limit_doubles_up_to_cap() {
    assert_eq!(next_grouped_limit(15, 3, 5), Some(30));
    assert_eq!(next_grouped_limit(600, 0, 5), Some(1000));
    assert_eq!(next_grouped_limit(1000, 0, 5), None);
    assert_eq!(next_grouped_limit(15, 5, 5), None);
}

#[test]
fn flatten_keeps_first_of_each_symbol() {
    let g = GroupedHits {
        processes: vec![ProcessGroup {
            id: 1,
            label: "p".into(),
            process_type: "intra_community".into(),
            matched_symbols: vec![
                ProcessedSymbol { symbol: sym("a", "Function", "a.ts", true), score_key: 3, step_index: 0 },
                ProcessedSymbol { symbol: sym("a", "Function", "a.ts", true), score_key: 3, step_index: 2 },
            ],
        }],
        definitions: vec![
            Hit { id: 5, symbol: sym("a", "Function", "a.ts", true), score_key: 3 },
            Hit { id: 6, symbol: sym("b", "Function", "b.ts", true), score_key: 2 },
        ],
        total: 3,
    };
    let flat = flatten_grouped(&g);
    let names: Vec<&str> = flat.iter().map(|(s, _)| s.name.as_str()).collect();
    assert_eq!(names, vec!["a", "b"]);
    assert_eq!(flat[1].1, 2);
}

// ---- community labels ----

#[test]
fn identifier_words_and_labels() {
    assert_eq!(split_identifier("getUserName_byId"), vec!["get", "User", "Name", "by", "Id"]);
    assert_eq!(split_identifier("__a--b"), vec!["a", "b"]);
    assert_eq!(capitalize("user"), "User");
    assert_eq!(capitalize(""), "");
    assert!(is_stop_word("get"));
    assert!(!is_stop_word("user"));
    let members = vec!["u1".to_string(), "u2".to_string(), "u3".to_string()];
    let names = vec![
        ("u1".to_string(), "fetchUser".to_string()),
        ("u2".to_string(), "saveUser".to_string()),
        ("u3".to_string(), "getId".to_string()),
    ];
    assert_eq!(generate_label(&members, &names), "UserFetch");
    assert_eq!(generate_label(&["zz".to_string()], &names), "Unnamed");
}

// ---- import paths ----

#[test]
fn import_path_resolution() {
    assert_eq!(normalize_path("src/./a/../b.ts"), "src/b.ts");
    assert_eq!(normalize_path("/x//y/"), "x/y");
    let known = vec!["src/models/user.ts".to_string(), "src/index.ts".to_string(), "lib/util/index.js".to_string()];
    assert_eq!(resolve_import_path("src/app.ts", "./models/user", &known), Some("src/models/user.ts".to_string()));
    assert_eq!(resolve_import_path("src/models/user.ts", "../index.js", &known), Some("src/index.ts".to_string()));
    assert_eq!(resolve_import_path("src/app.ts", "../lib/util", &known), Some("lib/util/index.js".to_string()));
    assert_eq!(resolve_import_path("src/app.ts", "./missing", &known), None);
    let go = vec!["internal/server/b.go".to_string(), "internal/server/a.go".to_string()];
    assert_eq!(
        resolve_import_path("cmd/main.go", "github.com/acme/app/internal/server", &go),
        Some("internal/server/a.go".to_string())
    );
}

/// Runs an impact traversal to the end over a listing of edges
/// `(from, to, is_call)`; every id below 10 names a symbol.
fn run_impact(edges: &[(i64, i64, bool)], calls_only: bool, start: i64, max_depth: u32) -> usize {
    let one = Confidence::of(1, 1);
    let mut walk = ImpactWalk::new(start, max_depth);
    while let Some((id, depth)) = walk.next_node() {
        let neighbors: Vec<Neighbor> = edges
            .iter()
            .filter(|(from, _, is_call)| *from == id && (*is_call || !calls_only))
            .map(|(_, to, _)| Neighbor {
                id: *to,
                confidence: one,
                reason: "edge".to_string(),
                symbol: if *to < 10 { Some(sym(&format!("s{}", to), "Function", "x.ts", false)) } else { None },
            })
            .collect();
        walk.visit(depth, &neighbors);
    }
    walk.finish().total_affected
}

#[test]
fn narrower_listing_never_widens_impact() {
    // 1 -call-> 2 -call-> 3, 1 -import-> 4 -call-> 5, 2 -import-> 6, 1 -call-> 11 (no symbol)
    let edges = [(1, 2, true), (2, 3, true), (1, 4, false), (4, 5, true), (2, 6, false), (1, 11, true), (3, 1, true)];
    for depth in 0..4 {
        let calls = run_impact(&edges, true, 1, depth);
        let all = run_impact(&edges, false, 1, depth);
        assert!(calls <= all, "depth {}: {} > {}", depth, calls, all);
    }
    assert_eq!(run_impact(&edges, true, 1, 3), 2);
    assert_eq!(run_impact(&edges, false, 1, 3), 5);
    assert_eq!(run_impact(&edges, false, 1, 1), 2);
}

#[test]
fn ambiguous_context_name_uses_documented_message() {
    let a = sym("initialize", "Constructor", "src/app.rb", false);
    let b = sym("initialize", "Constructor", "src/user.rb", false);
    match decide_by_name("initialize", vec![a, b]) {
        ContextDecision::Ambiguous(m, c) => {
            assert_eq!(m, "Multiple symbols match 'initialize'. Use uid for exact lookup.");
            assert_eq!(c.len(), 2);
            assert_eq!(c[0].file_path, "src/app.rb");
        }
        _ => panic!("expected ambiguous"),
    }
}

#[test]
fn grouped_definitions_best_first_each_once() {
    let hit = |id: i64, name: &str, score: u64| Hit { id, symbol: sym(name, "Function", "x.ts", false), score_key: score };
    let hits = vec![hit(5, "e", 10), hit(2, "b", 30), hit(9, "i", 30), hit(2, "b", 30), hit(7, "g", 50)];
    let rows = vec![StepRow {
        symbol_id: 7,
        process_id: 1,
        label: "Flow".to_string(),
        process_type: "intra_community".to_string(),
        step_index: 0,
    }];
    let g = group_hits(&hits, &rows);
    let defs: Vec<(i64, u64)> = g.definitions.iter().map(|h| (h.id, h.score_key)).collect();
    assert_eq!(defs, vec![(2, 30), (9, 30), (5, 10)]);
    assert_eq!(g.processes[0].matched_symbols.len(), 1);
}

#[test]
fn resolved_imports_are_known_files() {
    let known: Vec<String> = ["src/app.ts", "src/models/user.ts", "lib/util.rb", "pkg/http/client.go", "src/ui/index.tsx"]
        .iter()
        .map(|s| s.to_string())
        .collect();
    let sources = ["./models/user", "./missing", "util", "example.com/pkg/http", "react", "../app", "./ui/index"];
    for from in ["src/app.ts", "src/models/user.ts", "main.ts"] {
        for src in sources {
            if let Some(p) = resolve_import_path(from, src, &known) {
                assert!(known.contains(&p), "{} from {} resolved to unknown {}", src, from, p);
            }
        }
    }
    assert_eq!(resolve_import_path("src/app.ts", "./missing", &known), None);
}

#[test]
fn grouped_fetch_loop_ends_and_flatten_lists_each_symbol_once() {
    for k in 1..20usize {
        let mut limit = 3 * k;
        let mut rounds = 0;
        while let Some(next) = next_grouped_limit(limit, 0, k) {
            assert!(limit < next && next <= 1000);
            limit = next;
            rounds += 1;
        }
        assert_eq!(limit, 1000);
        assert!(rounds <= 10);
    }
    let hit = |id: i64, name: &str, score: u64| Hit { id, symbol: sym(name, "Function", "x.ts", false), score_key: score };
    let hits = vec![hit(1, "a", 10), hit(2, "b", 9), hit(3, "c", 8)];
    let rows = vec![
        StepRow { symbol_id: 1, process_id: 7, label: "P".to_string(), process_type: "intra_community".to_string(), step_index: 0 },
        StepRow { symbol_id: 2, process_id: 7, label: "P".to_string(), process_type: "intra_community".to_string(), step_index: 1 },
        StepRow { symbol_id: 1, process_id: 8, label: "Q".to_string(), process_type: "intra_community".to_string(), step_index: 0 },
    ];
    let flat = flatten_grouped(&group_hits(&hits, &rows));
    let names: Vec<&str> = flat.iter().map(|(s, _)| s.name.as_str()).collect();
    assert_eq!(names, vec!["a", "b", "c"]);
}

#[test]
fn single_symbol_by_name_and_file() {
    assert!(matches!(single_by_name_file("run", "a.go", vec![]), Ok(None)));
    let one = single_by_name_file("run", "a.go", vec![(4, sym("run", "Function", "a.go", true))]).unwrap().unwrap();
    assert_eq!(one.0, 4);
    assert_eq!(one.1.name, "run");
    let two = vec![(4, sym("run", "Function", "a.go", true)), (9, sym("run", "Method", "a.go", false))];
    let e = single_by_name_file("run", "a.go", two).unwrap_err();
    assert_eq!(e, QueryError::AmbiguousSymbol("run".to_string(), "a.go".to_string()));
    assert_eq!(e.message(), "ambiguous symbol: 'run' in 'a.go' matches multiple entries");
}
