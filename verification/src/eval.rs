//! Search-quality evaluation: hit tests, Recall@k and reciprocal rank as
//! exact fractions, flattening of grouped results, routing metrics.

use vstd::prelude::*;
use crate::query::{GroupedHits, SymbolInfo, SymbolInfoV};
use crate::text::{owned, str_eq};

verus! {

// ─── Modes and categories ──────────────────────────────────────────

/// How an evaluation searches.
#[derive(Debug, Clone, Copy, PartialEq, Eq, Structural)]
pub enum EvalMode {
    Bm25,
    Vector,
    Hybrid,
    Grouped,
}

/// Display label of a mode.
pub open spec fn mode_label(m: EvalMode) -> Seq<char> {
    match m {
        EvalMode::Bm25 => "BM25"@,
        EvalMode::Vector => "Vector"@,
        EvalMode::Hybrid => "Hybrid"@,
        EvalMode::Grouped => "Grouped"@,
    }
}

impl EvalMode {
    /// Display label (`BM25`, `Vector`, `Hybrid`, `Grouped`).
    pub fn label(&self) -> (r: &'static str)
        ensures
            r@ == mode_label(*self),
    {
        match self {
            EvalMode::Bm25 => "BM25",
            EvalMode::Vector => "Vector",
            EvalMode::Hybrid => "Hybrid",
            EvalMode::Grouped => "Grouped",
        }
    }
}

/// Search mode chosen on the command line.
#[derive(Debug, Clone, Copy, PartialEq, Eq, Structural)]
pub enum SearchMode {
    Bm25,
    Vector,
    Hybrid,
}

/// The evaluation mode of a command-line search mode.
pub fn cli_to_eval_mode(m: SearchMode) -> (r: EvalMode)
    ensures
        r == match m {
            SearchMode::Bm25 => EvalMode::Bm25,
            SearchMode::Vector => EvalMode::Vector,
            SearchMode::Hybrid => EvalMode::Hybrid,
        },
{
    match m {
        SearchMode::Bm25 => EvalMode::Bm25,
        SearchMode::Vector => EvalMode::Vector,
        SearchMode::Hybrid => EvalMode::Hybrid,
    }
}

/// Category of an evaluation query.
#[derive(Debug, Clone, Copy, PartialEq, Eq, Structural)]
pub enum QueryCategory {
    Exact,
    Semantic,
    Mixed,
}

/// Lower-case label of a category.
pub open spec fn category_label(c: QueryCategory) -> Seq<char> {
    match c {
        QueryCategory::Exact => "exact"@,
        QueryCategory::Semantic => "semantic"@,
        QueryCategory::Mixed => "mixed"@,
    }
}

impl QueryCategory {
    /// Lower-case label (`exact`, `semantic`, `mixed`).
    pub fn label(&self) -> (r: &'static str)
        ensures
            r@ == category_label(*self),
    {
        match self {
            QueryCategory::Exact => "exact",
            QueryCategory::Semantic => "semantic",
            QueryCategory::Mixed => "mixed",
        }
    }
}

// ─── Fixture ────────────────────────────────────────────────────────

/// A symbol that a query should find.
#[derive(Debug)]
pub struct RelevantSymbol {
    pub name: String,
    pub file_path: String,
    pub kind: String,
    /// Whether grouped search should place it in a process (when annotated).
    pub in_process: Option<bool>,
}

/// Mathematical view of a [`RelevantSymbol`].
pub struct RelevantSymbolV {
    pub name: Seq<char>,
    pub file_path: Seq<char>,
    pub kind: Seq<char>,
    pub in_process: Option<bool>,
}

impl View for RelevantSymbol {
    type V = RelevantSymbolV;

    open spec fn view(&self) -> RelevantSymbolV {
        RelevantSymbolV {
            name: self.name@,
            file_path: self.file_path@,
            kind: self.kind@,
            in_process: self.in_process,
        }
    }
}

impl DeepView for RelevantSymbol {
    type V = RelevantSymbolV;

    open spec fn deep_view(&self) -> RelevantSymbolV {
        self@
    }
}

/// One evaluation query.
#[derive(Debug)]
pub struct EvalQuery {
    pub id: String,
    pub query: String,
    pub category: QueryCategory,
    pub relevant: Vec<RelevantSymbol>,
    pub notes: Option<String>,
}

/// An evaluation fixture: a repository and its queries.
#[derive(Debug)]
pub struct EvalFixture {
    pub fixture: String,
    pub fixture_dir: String,
    pub description: String,
    pub queries: Vec<EvalQuery>,
}

// ─── Metrics ────────────────────────────────────────────────────────

/// An exact metric value `num / den`.
#[derive(Debug, Clone, Copy, PartialEq, Eq, Structural)]
pub struct Fraction {
    pub num: usize,
    pub den: usize,
}

/// The symbol matches the relevant symbol by name, file and kind.
pub open spec fn matches_relevant(s: SymbolInfoV, r: RelevantSymbolV) -> bool {
    s.name == r.name && s.file_path == r.file_path && s.kind == r.kind
}

/// The symbol matches some relevant symbol.
pub open spec fn hit(s: SymbolInfoV, relevant: Seq<RelevantSymbolV>) -> bool {
    exists|i: int| 0 <= i < relevant.len() && matches_relevant(s, #[trigger] relevant[i])
}

/// Whether a result is one of the relevant symbols (name, file and kind all equal).
pub fn is_hit(symbol: &SymbolInfo, relevant: &[RelevantSymbol]) -> (r: bool)
    ensures
        r == hit(symbol@, relevant.deep_view()),
{
    let ghost rv = relevant.deep_view();
    let mut i: usize = 0;
    while i < relevant.len()
        invariant
            i <= rv.len(),
            rv == relevant.deep_view(),
            forall|j: int| 0 <= j < i ==> !matches_relevant(symbol@, #[trigger] rv[j]),
        decreases rv.len() - i,
    {
        proof {
            assert(rv[i as int] == relevant@[i as int]@);
        }
        let r = &relevant[i];
        if str_eq(symbol.name.as_str(), r.name.as_str()) && str_eq(symbol.file_path.as_str(), r.file_path.as_str())
            && str_eq(symbol.kind.as_str(), r.kind.as_str()) {
            return true;
        }
        i = i + 1;
    }
    false
}

/// The first `k` results (all when fewer).
pub open spec fn top_k(results: Seq<SymbolInfoV>, k: usize) -> Seq<SymbolInfoV> {
    if results.len() > k {
        results.take(k as int)
    } else {
        results
    }
}

/// Number of hits among the results.
pub open spec fn hit_count(results: Seq<SymbolInfoV>, relevant: Seq<RelevantSymbolV>) -> nat
    decreases results.len(),
{
    if results.len() == 0 {
        0
    } else {
        hit_count(results.drop_last(), relevant) + if hit(results.last(), relevant) {
            1nat
        } else {
            0nat
        }
    }
}

/// 1-based rank of the first hit, if any.
pub open spec fn first_hit_rank(results: Seq<SymbolInfoV>, relevant: Seq<RelevantSymbolV>) -> Option<nat>
    decreases results.len(),
{
    if results.len() == 0 {
        None
    } else if hit(results[0], relevant) {
        Some(1)
    } else {
        match first_hit_rank(results.drop_first(), relevant) {
            Some(r) => Some(r + 1),
            None => None,
        }
    }
}

/// Recall@k: hits in the top k over the number of relevant symbols (0 when
/// there are none).
pub open spec fn recall(results: Seq<SymbolInfoV>, relevant: Seq<RelevantSymbolV>, k: usize) -> Fraction {
    if relevant.len() == 0 {
        Fraction { num: 0, den: 1 }
    } else {
        Fraction { num: hit_count(top_k(results, k), relevant) as usize, den: relevant.len() as usize }
    }
}

/// Reciprocal rank: 1 over the rank of the first hit in the top k, 0 without one.
pub open spec fn rr(results: Seq<SymbolInfoV>, relevant: Seq<RelevantSymbolV>, k: usize) -> Fraction {
    match first_hit_rank(top_k(results, k), relevant) {
        Some(r) => Fraction { num: 1, den: r as usize },
        None => Fraction { num: 0, den: 1 },
    }
}

/// What one query scored.
#[derive(Debug, Clone, Copy, PartialEq, Eq, Structural)]
pub struct QueryScore {
    pub relevant_count: usize,
    pub hit_count: usize,
    pub first_relevant_rank: Option<usize>,
    pub recall: Fraction,
    pub reciprocal_rank: Fraction,
}

/// The score of one query's results.
pub open spec fn query_score(results: Seq<SymbolInfoV>, relevant: Seq<RelevantSymbolV>, k: usize) -> QueryScore {
    QueryScore {
        relevant_count: relevant.len() as usize,
        hit_count: hit_count(top_k(results, k), relevant) as usize,
        first_relevant_rank: match first_hit_rank(top_k(results, k), relevant) {
            Some(r) => Some(r as usize),
            None => None,
        },
        recall: recall(results, relevant, k),
        reciprocal_rank: rr(results, relevant, k),
    }
}

/// Hit count, first hit rank, Recall@k and reciprocal rank of one query.
pub fn score_query(results: &[SymbolInfo], relevant: &[RelevantSymbol], k: usize) -> (r: QueryScore)
    ensures
        r == query_score(results.deep_view(), relevant.deep_view(), k),
{
    let ghost sv = results.deep_view();
    let ghost rv = relevant.deep_view();
    let n = if results.len() > k {
        k
    } else {
        results.len()
    };
    let ghost tk = top_k(sv, k);
    proof {
        assert(tk =~= sv.take(n as int));
    }
    let mut hits: usize = 0;
    let mut first: Option<usize> = None;
    let mut i: usize = 0;
    while i < n
        invariant
            i <= n <= sv.len(),
            sv == results.deep_view(),
            rv == relevant.deep_view(),
            hits == hit_count(sv.take(i as int), rv),
            hits <= i,
            first == (match first_hit_rank(sv.take(i as int), rv) {
                Some(x) => Some(x as usize),
                None => None,
            }),
            first matches Some(x) ==> x <= i,
        decreases n - i,
    {
        proof {
            assert(sv.take(i + 1).drop_last() =~= sv.take(i as int));
            assert(sv.take(i + 1).last() == sv[i as int]);
            assert(sv[i as int] == results@[i as int]@);
            lemma_first_hit_rank_prefix(sv, rv, i as int);
        }
        let h = is_hit(&results[i], relevant);
        if h {
            hits = hits + 1;
            if first.is_none() {
                first = Some(i + 1);
            }
        }
        i = i + 1;
    }
    let recall = if relevant.len() == 0 {
        Fraction { num: 0, den: 1 }
    } else {
        Fraction { num: hits, den: relevant.len() }
    };
    let rr = match first {
        Some(x) => Fraction { num: 1, den: x },
        None => Fraction { num: 0, den: 1 },
    };
    QueryScore { relevant_count: relevant.len(), hit_count: hits, first_relevant_rank: first, recall, reciprocal_rank: rr }
}

proof fn lemma_first_hit_rank_prefix(s: Seq<SymbolInfoV>, relevant: Seq<RelevantSymbolV>, i: int)
    requires
        0 <= i < s.len(),
    ensures
        first_hit_rank(s.take(i), relevant) matches Some(x) ==> first_hit_rank(s.take(i + 1), relevant) == Some(x),
        first_hit_rank(s.take(i), relevant) is None ==> first_hit_rank(s.take(i + 1), relevant) == if hit(
            s[i],
            relevant,
        ) {
            Some((i + 1) as nat)
        } else {
            None::<nat>
        },
        first_hit_rank(s.take(i), relevant) matches Some(x) ==> x <= i,
    decreases i,
{
    if i > 0 {
        let t = s.drop_first();
        assert(s.take(i).drop_first() =~= t.take(i - 1));
        assert(s.take(i + 1).drop_first() =~= t.take(i));
        assert(s.take(i)[0] == s[0]);
        assert(s.take(i + 1)[0] == s[0]);
        assert(t[i - 1] == s[i]);
        lemma_first_hit_rank_prefix(t, relevant, i - 1);
    } else {
        assert(s.take(0) =~= Seq::<SymbolInfoV>::empty());
        assert(s.take(1).drop_first() =~= Seq::<SymbolInfoV>::empty());
        assert(s.take(1)[0] == s[0]);
    }
}

/// Recall@k = hits in the top k / number of relevant symbols.
pub fn recall_at_k(results: &[SymbolInfo], relevant: &[RelevantSymbol], k: usize) -> (r: Fraction)
    ensures
        r == recall(results.deep_view(), relevant.deep_view(), k),
{
    score_query(results, relevant, k).recall
}

/// Reciprocal rank = 1 / rank of the first hit in the top k, else 0.
pub fn reciprocal_rank(results: &[SymbolInfo], relevant: &[RelevantSymbol], k: usize) -> (r: Fraction)
    ensures
        r == rr(results.deep_view(), relevant.deep_view(), k),
{
    score_query(results, relevant, k).reciprocal_rank
}

// ─── Grouped evaluation ─────────────────────────────────────────────

/// Largest result limit a grouped evaluation asks for.
pub const MAX_GROUPED_LIMIT: usize = 1000;

/// The limit the next grouped search uses, or `None` when `found` unique
/// results suffice (at least `k`) or the limit is at its cap: doubling,
/// capped at 1000.
pub open spec fn next_limit(limit: usize, found: usize, k: usize) -> Option<usize> {
    if found >= k || limit >= MAX_GROUPED_LIMIT {
        None
    } else if limit * 2 < MAX_GROUPED_LIMIT {
        Some((limit * 2) as usize)
    } else {
        Some(MAX_GROUPED_LIMIT)
    }
}

/// The next limit of a grouped evaluation's fetch loop (first limit: `3k`).
pub fn next_grouped_limit(limit: usize, found: usize, k: usize) -> (r: Option<usize>)
    ensures
        r == next_limit(limit, found, k),
{
    if found >= k || limit >= MAX_GROUPED_LIMIT {
        None
    } else if limit * 2 < MAX_GROUPED_LIMIT {
        Some(limit * 2)
    } else {
        Some(MAX_GROUPED_LIMIT)
    }
}

/// The (name, file, kind) identity of a symbol.
pub open spec fn identity(s: SymbolInfoV) -> (Seq<char>, Seq<char>, Seq<char>) {
    (s.name, s.file_path, s.kind)
}

/// Symbols of the processes (in order), then the definitions, each
/// identity once (first occurrence), with their score keys.
pub open spec fn flatten(items: Seq<(SymbolInfoV, u64)>) -> Seq<(SymbolInfoV, u64)>
    decreases items.len(),
{
    if items.len() == 0 {
        Seq::empty()
    } else {
        let r = flatten(items.drop_last());
        let x = items.last();
        if exists|j: int| 0 <= j < r.len() && identity(#[trigger] r[j].0) == identity(x.0) {
            r
        } else {
            r.push(x)
        }
    }
}

/// The matched symbols of the process groups, group after group, with
/// their score keys.
pub open spec fn group_symbols(ps: Seq<crate::query::ProcessGroupV>) -> Seq<(SymbolInfoV, u64)>
    decreases ps.len(),
{
    if ps.len() == 0 {
        Seq::empty()
    } else {
        group_symbols(ps.drop_last()) + ps.last().matched_symbols.map_values(|m: (SymbolInfoV, u64, i64)| (m.0, m.1))
    }
}

/// Symbols of a grouped result, processes first, with their score keys.
pub open spec fn grouped_items(g: crate::query::GroupedHitsV) -> Seq<(SymbolInfoV, u64)> {
    group_symbols(g.processes) + g.definitions.map_values(|h: crate::query::HitV| (h.symbol, h.score_key))
}

/// Whether two symbols have the same identity.
fn same_identity(a: &SymbolInfo, b: &SymbolInfo) -> (r: bool)
    ensures
        r == (identity(a@) == identity(b@)),
{
    str_eq(a.name.as_str(), b.name.as_str()) && str_eq(a.file_path.as_str(), b.file_path.as_str()) && str_eq(
        a.kind.as_str(),
        b.kind.as_str(),
    )
}

/// Appends `x` unless a symbol of the same identity is already listed.
fn push_unique(flat: &mut Vec<(SymbolInfo, u64)>, x: (SymbolInfo, u64))
    ensures
        final(flat)@.map_values(|p: (SymbolInfo, u64)| (p.0@, p.1)) == if exists|j: int|
            0 <= j < old(flat)@.len() && identity(#[trigger] old(flat)@[j].0@) == identity(x.0@) {
            old(flat)@.map_values(|p: (SymbolInfo, u64)| (p.0@, p.1))
        } else {
            old(flat)@.map_values(|p: (SymbolInfo, u64)| (p.0@, p.1)).push((x.0@, x.1))
        },
{
    let mut j: usize = 0;
    while j < flat.len()
        invariant
            j <= flat@.len(),
            flat@ == old(flat)@,
            forall|q: int| 0 <= q < j ==> identity(#[trigger] flat@[q].0@) != identity(x.0@),
        decreases flat@.len() - j,
    {
        if same_identity(&flat[j].0, &x.0) {
            return;
        }
        j = j + 1;
    }
    let ghost before = flat@;
    let ghost xv = (x.0@, x.1);
    flat.push(x);
    proof {
        assert(flat@.map_values(|p: (SymbolInfo, u64)| (p.0@, p.1)) =~= before.map_values(
            |p: (SymbolInfo, u64)| (p.0@, p.1),
        ).push(xv));
    }
}

/// Flatten a grouped result: process symbols, then definitions, each
/// (name, file, kind) once.
pub fn flatten_grouped(grouped: &GroupedHits) -> (r: Vec<(SymbolInfo, u64)>)
    ensures
        r@.map_values(|p: (SymbolInfo, u64)| (p.0@, p.1)) == flatten(grouped_items(grouped@)),
{
    let ghost gv = grouped@;
    let ghost pv = gv.processes;
    let ghost msym = |m: (SymbolInfoV, u64, i64)| (m.0, m.1);
    let ghost vw = |p: (SymbolInfo, u64)| (p.0@, p.1);
    let mut items: Vec<(SymbolInfo, u64)> = Vec::new();
    let mut p: usize = 0;
    while p < grouped.processes.len()
        invariant
            p <= pv.len(),
            gv == grouped@,
            pv == gv.processes,
            pv.len() == grouped.processes@.len(),
            vw == (|p: (SymbolInfo, u64)| (p.0@, p.1)),
            msym == (|m: (SymbolInfoV, u64, i64)| (m.0, m.1)),
            items@.map_values(vw) == group_symbols(pv.take(p as int)),
        decreases pv.len() - p,
    {
        let ms = &grouped.processes[p].matched_symbols;
        let ghost mv = pv[p as int].matched_symbols;
        let ghost base = items@.map_values(vw);
        proof {
            assert(pv[p as int] == grouped.processes@[p as int]@);
        }
        let mut q: usize = 0;
        while q < ms.len()
            invariant
                q <= ms@.len(),
                mv == ms@.map_values(|m: crate::query::ProcessedSymbol| (m.symbol@, m.score_key, m.step_index)),
                vw == (|p: (SymbolInfo, u64)| (p.0@, p.1)),
                msym == (|m: (SymbolInfoV, u64, i64)| (m.0, m.1)),
                items@.map_values(vw) == base + mv.take(q as int).map_values(msym),
            decreases ms@.len() - q,
        {
            let ghost before = items@.map_values(vw);
            items.push((ms[q].symbol.duplicate(), ms[q].score_key));
            proof {
                assert(items@.map_values(vw) =~= before.push((ms@[q as int].symbol@, ms@[q as int].score_key)));
                assert(mv.take(q + 1) =~= mv.take(q as int).push(mv[q as int]));
                assert(items@.map_values(vw) =~= base + mv.take(q + 1).map_values(msym));
            }
            q = q + 1;
        }
        proof {
            assert(mv.take(mv.len() as int) =~= mv);
            assert(pv.take(p + 1).drop_last() =~= pv.take(p as int));
            assert(pv.take(p + 1).last() == pv[p as int]);
        }
        p = p + 1;
    }
    proof {
        assert(pv.take(pv.len() as int) =~= pv);
    }
    let ghost dv = gv.definitions;
    let ghost hsym = |h: crate::query::HitV| (h.symbol, h.score_key);
    let ghost base = items@.map_values(vw);
    let mut d: usize = 0;
    while d < grouped.definitions.len()
        invariant
            d <= dv.len(),
            gv == grouped@,
            dv == gv.definitions,
            dv.len() == grouped.definitions@.len(),
            vw == (|p: (SymbolInfo, u64)| (p.0@, p.1)),
            hsym == (|h: crate::query::HitV| (h.symbol, h.score_key)),
            items@.map_values(vw) == base + dv.take(d as int).map_values(hsym),
        decreases dv.len() - d,
    {
        let h = &grouped.definitions[d];
        proof {
            assert(dv[d as int] == h@);
        }
        let ghost before = items@.map_values(vw);
        items.push((h.symbol.duplicate(), h.score_key));
        proof {
            assert(items@.map_values(vw) =~= before.push((h.symbol@, h.score_key)));
            assert(dv.take(d + 1) =~= dv.take(d as int).push(dv[d as int]));
            assert(items@.map_values(vw) =~= base + dv.take(d + 1).map_values(hsym));
        }
        d = d + 1;
    }
    proof {
        assert(dv.take(dv.len() as int) =~= dv);
        assert(items@.map_values(vw) =~= grouped_items(gv));
    }
    let ghost iv = items@.map_values(vw);
    let mut flat: Vec<(SymbolInfo, u64)> = Vec::new();
    let mut i: usize = 0;
    while i < items.len()
        invariant
            i <= items@.len(),
            vw == (|p: (SymbolInfo, u64)| (p.0@, p.1)),
            iv == items@.map_values(vw),
            flat@.map_values(vw) == flatten(iv.take(i as int)),
        decreases items@.len() - i,
    {
        proof {
            assert(iv.take(i + 1).drop_last() =~= iv.take(i as int));
            assert(iv.take(i + 1).last() == (items@[i as int].0@, items@[i as int].1));
        }
        let ghost fb = flat@;
        push_unique(&mut flat, (items[i].0.duplicate(), items[i].1));
        proof {
            let fv = fb.map_values(vw);
            assert forall|j: int| 0 <= j < fb.len() implies identity(#[trigger] fb[j].0@) == identity(fv[j].0) by {
                assert(fv[j] == (fb[j].0@, fb[j].1));
            }
            if exists|j: int| 0 <= j < fv.len() && identity(#[trigger] fv[j].0) == identity(items@[i as int].0@) {
                let j = choose|j: int| 0 <= j < fv.len() && identity(#[trigger] fv[j].0) == identity(items@[i as int].0@);
                assert(identity(fb[j].0@) == identity(items@[i as int].0@));
            }
            if exists|j: int| 0 <= j < fb.len() && identity(#[trigger] fb[j].0@) == identity(items@[i as int].0@) {
                let j = choose|j: int| 0 <= j < fb.len() && identity(#[trigger] fb[j].0@) == identity(items@[i as int].0@);
                assert(identity(fv[j].0) == identity(items@[i as int].0@));
            }
        }
        i = i + 1;
    }
    proof {
        assert(iv.take(iv.len() as int) =~= iv);
    }
    flat
}

/// The identity occurs among the given symbols.
pub open spec fn listed(items: Seq<(SymbolInfoV, u64)>, r: RelevantSymbolV) -> bool {
    exists|j: int| 0 <= j < items.len() && identity(#[trigger] items[j].0) == (r.name, r.file_path, r.kind)
}

/// Routing counts over the relevant symbols: (annotated, annotated in a
/// process, of those found in a process, correctly routed).
pub open spec fn routing_counts(
    relevant: Seq<RelevantSymbolV>,
    in_procs: Seq<(SymbolInfoV, u64)>,
    defs: Seq<(SymbolInfoV, u64)>,
) -> (nat, nat, nat, nat)
    decreases relevant.len(),
{
    if relevant.len() == 0 {
        (0, 0, 0, 0)
    } else {
        let c = routing_counts(relevant.drop_last(), in_procs, defs);
        let r = relevant.last();
        match r.in_process {
            None => c,
            Some(true) => (
                c.0 + 1,
                c.1 + 1,
                c.2 + if listed(in_procs, r) { 1nat } else { 0nat },
                c.3 + if listed(in_procs, r) { 1nat } else { 0nat },
            ),
            Some(false) => (c.0 + 1, c.1, c.2, c.3 + if listed(defs, r) { 1nat } else { 0nat }),
        }
    }
}

/// Process recall and routing accuracy of a grouped result, over the
/// relevant symbols annotated with `in_process`: recall of those expected in
/// a process among the process symbols, and the share routed where
/// expected (a symbol expected outside processes must be a definition).
pub open spec fn routing(g: crate::query::GroupedHitsV, relevant: Seq<RelevantSymbolV>) -> (Option<Fraction>, Option<Fraction>) {
    let c = routing_counts(
        relevant,
        group_symbols(g.processes),
        g.definitions.map_values(|h: crate::query::HitV| (h.symbol, h.score_key)),
    );
    if c.0 == 0 {
        (None, None)
    } else {
        (
            if c.1 == 0 {
                None
            } else {
                Some(Fraction { num: c.2 as usize, den: c.1 as usize })
            },
            Some(Fraction { num: c.3 as usize, den: c.0 as usize }),
        )
    }
}

/// Whether `r` is among `items`.
fn is_listed(items: &Vec<(SymbolInfo, u64)>, r: &RelevantSymbol) -> (b: bool)
    ensures
        b == listed(items@.map_values(|p: (SymbolInfo, u64)| (p.0@, p.1)), r@),
{
    let ghost iv = items@.map_values(|p: (SymbolInfo, u64)| (p.0@, p.1));
    let mut j: usize = 0;
    while j < items.len()
        invariant
            j <= items@.len(),
            iv == items@.map_values(|p: (SymbolInfo, u64)| (p.0@, p.1)),
            forall|q: int| 0 <= q < j ==> identity(#[trigger] iv[q].0) != (r@.name, r@.file_path, r@.kind),
        decreases items@.len() - j,
    {
        proof {
            assert(iv[j as int] == (items@[j as int].0@, items@[j as int].1));
        }
        let s = &items[j].0;
        if str_eq(s.name.as_str(), r.name.as_str()) && str_eq(s.file_path.as_str(), r.file_path.as_str()) && str_eq(
            s.kind.as_str(),
            r.kind.as_str(),
        ) {
            proof {
                assert(identity(iv[j as int].0) == (r@.name, r@.file_path, r@.kind));
            }
            return true;
        }
        j = j + 1;
    }
    false
}

/// Process recall and routing accuracy of a grouped result.
pub fn compute_routing_metrics(grouped: &GroupedHits, relevant: &[RelevantSymbol]) -> (r: (Option<Fraction>, Option<Fraction>))
    ensures
        r == routing(grouped@, relevant.deep_view()),
{
    let ghost gv = grouped@;
    let ghost vw = |p: (SymbolInfo, u64)| (p.0@, p.1);
    let ghost hsym = |h: crate::query::HitV| (h.symbol, h.score_key);
    // Symbols of the processes and of the definitions.
    let mut in_procs: Vec<(SymbolInfo, u64)> = Vec::new();
    let mut p: usize = 0;
    while p < grouped.processes.len()
        invariant
            p <= gv.processes.len(),
            gv == grouped@,
            gv.processes.len() == grouped.processes@.len(),
            vw == (|p: (SymbolInfo, u64)| (p.0@, p.1)),
            in_procs@.map_values(vw) == group_symbols(gv.processes.take(p as int)),
        decreases gv.processes.len() - p,
    {
        let ms = &grouped.processes[p].matched_symbols;
        let ghost mv = gv.processes[p as int].matched_symbols;
        let ghost base = in_procs@.map_values(vw);
        proof {
            assert(gv.processes[p as int] == grouped.processes@[p as int]@);
        }
        let mut q: usize = 0;
        while q < ms.len()
            invariant
                q <= ms@.len(),
                mv == ms@.map_values(|m: crate::query::ProcessedSymbol| (m.symbol@, m.score_key, m.step_index)),
                vw == (|p: (SymbolInfo, u64)| (p.0@, p.1)),
                in_procs@.map_values(vw) == base + mv.take(q as int).map_values(|m: (SymbolInfoV, u64, i64)| (m.0, m.1)),
            decreases ms@.len() - q,
        {
            let ghost before = in_procs@.map_values(vw);
            in_procs.push((ms[q].symbol.duplicate(), ms[q].score_key));
            proof {
                assert(in_procs@.map_values(vw) =~= before.push((ms@[q as int].symbol@, ms@[q as int].score_key)));
                assert(mv.take(q + 1) =~= mv.take(q as int).push(mv[q as int]));
                assert(in_procs@.map_values(vw) =~= base + mv.take(q + 1).map_values(|m: (SymbolInfoV, u64, i64)| (m.0, m.1)));
            }
            q = q + 1;
        }
        proof {
            assert(mv.take(mv.len() as int) =~= mv);
            assert(gv.processes.take(p + 1).drop_last() =~= gv.processes.take(p as int));
            assert(gv.processes.take(p + 1).last() == gv.processes[p as int]);
        }
        p = p + 1;
    }
    proof {
        assert(gv.processes.take(gv.processes.len() as int) =~= gv.processes);
    }
    let mut defs: Vec<(SymbolInfo, u64)> = Vec::new();
    let mut d: usize = 0;
    while d < grouped.definitions.len()
        invariant
            d <= gv.definitions.len(),
            gv == grouped@,
            gv.definitions.len() == grouped.definitions@.len(),
            vw == (|p: (SymbolInfo, u64)| (p.0@, p.1)),
            hsym == (|h: crate::query::HitV| (h.symbol, h.score_key)),
            defs@.map_values(vw) == gv.definitions.take(d as int).map_values(hsym),
        decreases gv.definitions.len() - d,
    {
        let h = &grouped.definitions[d];
        let ghost before = defs@.map_values(vw);
        proof {
            assert(gv.definitions[d as int] == h@);
        }
        defs.push((h.symbol.duplicate(), h.score_key));
        proof {
            assert(defs@.map_values(vw) =~= before.push((h.symbol@, h.score_key)));
            assert(gv.definitions.take(d + 1) =~= gv.definitions.take(d as int).push(gv.definitions[d as int]));
            assert(defs@.map_values(vw) =~= gv.definitions.take(d + 1).map_values(hsym));
        }
        d = d + 1;
    }
    proof {
        assert(gv.definitions.take(gv.definitions.len() as int) =~= gv.definitions);
    }
    // Counts.
    let ghost rv = relevant.deep_view();
    let ghost pvw = in_procs@.map_values(vw);
    let ghost dvw = defs@.map_values(vw);
    let mut annotated: usize = 0;
    let mut in_proc: usize = 0;
    let mut found: usize = 0;
    let mut correct: usize = 0;
    let mut i: usize = 0;
    while i < relevant.len()
        invariant
            i <= rv.len(),
            rv == relevant.deep_view(),
            vw == (|p: (SymbolInfo, u64)| (p.0@, p.1)),
            pvw == in_procs@.map_values(vw),
            dvw == defs@.map_values(vw),
            (annotated as nat, in_proc as nat, found as nat, correct as nat) == routing_counts(rv.take(i as int), pvw, dvw),
            annotated <= i,
            in_proc <= i,
            found <= i,
            correct <= i,
        decreases rv.len() - i,
    {
        let r = &relevant[i];
        proof {
            assert(rv.take(i + 1).drop_last() =~= rv.take(i as int));
            assert(rv.take(i + 1).last() == r@);
            assert(rv[i as int] == r@);
        }
        match r.in_process {
            None => {},
            Some(true) => {
                annotated = annotated + 1;
                in_proc = in_proc + 1;
                if is_listed(&in_procs, r) {
                    found = found + 1;
                    correct = correct + 1;
                }
            },
            Some(false) => {
                annotated = annotated + 1;
                if is_listed(&defs, r) {
                    correct = correct + 1;
                }
            },
        }
        i = i + 1;
    }
    proof {
        assert(rv.take(rv.len() as int) =~= rv);
    }
    if annotated == 0 {
        return (None, None);
    }
    let recall = if in_proc == 0 {
        None
    } else {
        Some(Fraction { num: found, den: in_proc })
    };
    (recall, Some(Fraction { num: correct, den: annotated }))
}

// ─── Laws ───────────────────────────────────────────────────────────

proof fn lemma_first_hit_rank_bound(results: Seq<SymbolInfoV>, relevant: Seq<RelevantSymbolV>)
    ensures
        first_hit_rank(results, relevant) matches Some(r) ==> 1 <= r <= results.len(),
    decreases results.len(),
{
    if results.len() > 0 && !hit(results[0], relevant) {
        lemma_first_hit_rank_bound(results.drop_first(), relevant);
    }
}

proof fn lemma_hit_count_bound(results: Seq<SymbolInfoV>, relevant: Seq<RelevantSymbolV>)
    ensures
        hit_count(results, relevant) <= results.len(),
    decreases results.len(),
{
    if results.len() > 0 {
        lemma_hit_count_bound(results.drop_last(), relevant);
    }
}

/// The reciprocal rank lies between 0 and 1: it is `1/r` for the rank `r`
/// (from 1, within the top `k`) of the first hit, or 0.
pub proof fn law_reciprocal_rank_in_unit_interval(
    results: Seq<SymbolInfoV>,
    relevant: Seq<RelevantSymbolV>,
    k: usize,
)
    ensures
        rr(results, relevant, k).den >= 1,
        rr(results, relevant, k).num <= rr(results, relevant, k).den,
        rr(results, relevant, k).num == 1 ==> rr(results, relevant, k).den <= k,
{
    lemma_first_hit_rank_bound(top_k(results, k), relevant);
}

/// Recall@k counts hits among the top `k` results only: its numerator is at
/// most `k` and at most the number of results.
pub proof fn law_recall_counts_top_k(results: Seq<SymbolInfoV>, relevant: Seq<RelevantSymbolV>, k: usize)
    requires
        relevant.len() <= usize::MAX,
    ensures
        recall(results, relevant, k).num <= k,
        recall(results, relevant, k).num <= results.len(),
        recall(results, relevant, k).den >= 1,
{
    lemma_hit_count_bound(top_k(results, k), relevant);
}


// ─── Grouped evaluation ─────────────────────────────────────────────

/// The grouped evaluation's fetch loop stops once enough unique results
/// came or the cap is reached, and otherwise fetches again with a larger
/// limit, never past the cap: from a positive limit it ends.
pub proof fn law_grouped_fetch_limits(limit: usize, found: usize, k: usize)
    requires
        limit > 0,
    ensures
        next_limit(limit, found, k) is None <==> (found >= k || limit >= MAX_GROUPED_LIMIT),
        next_limit(limit, found, k) matches Some(n) ==> limit < n <= MAX_GROUPED_LIMIT,
{
}

/// Flattening a grouped result lists each symbol identity (name, file,
/// kind) once, every identity that the processes or definitions hold, and
/// nothing else.
pub proof fn law_flatten_each_identity_once(items: Seq<(SymbolInfoV, u64)>)
    ensures
        forall|a: int, b: int|
            0 <= a < b < flatten(items).len() ==> identity((#[trigger] flatten(items)[a]).0) != identity(
                (#[trigger] flatten(items)[b]).0,
            ),
        forall|i: int|
            0 <= i < items.len() ==> exists|j: int|
                0 <= j < flatten(items).len() && identity(flatten(items)[j].0) == identity((#[trigger] items[i]).0),
        forall|j: int| 0 <= j < flatten(items).len() ==> items.contains(#[trigger] flatten(items)[j]),
    decreases items.len(),
{
    if items.len() > 0 {
        let t = items.drop_last();
        law_flatten_each_identity_once(t);
        let r = flatten(t);
        let x = items.last();
        let f = flatten(items);
        assert(items[items.len() - 1] == x);
        if exists|j: int| 0 <= j < r.len() && identity(#[trigger] r[j].0) == identity(x.0) {
            assert(f == r);
            assert forall|i: int| 0 <= i < items.len() implies exists|j: int|
                0 <= j < f.len() && identity(f[j].0) == identity((#[trigger] items[i]).0) by {
                if i < t.len() {
                    assert(items[i] == t[i]);
                }
            }
            assert forall|j: int| 0 <= j < f.len() implies items.contains(#[trigger] f[j]) by {
                let m = choose|m: int| 0 <= m < t.len() && t[m] == f[j];
                assert(items[m] == t[m]);
            }
        } else {
            assert(f == r.push(x));
            assert forall|a: int, b: int| 0 <= a < b < f.len() implies identity((#[trigger] f[a]).0) != identity(
                (#[trigger] f[b]).0,
            ) by {
                if b == r.len() {
                    assert(f[a] == r[a]);
                } else {
                    assert(f[a] == r[a] && f[b] == r[b]);
                }
            }
            assert forall|i: int| 0 <= i < items.len() implies exists|j: int|
                0 <= j < f.len() && identity(f[j].0) == identity((#[trigger] items[i]).0) by {
                if i < t.len() {
                    assert(items[i] == t[i]);
                    let j = choose|j: int| 0 <= j < r.len() && identity(r[j].0) == identity(t[i].0);
                    assert(f[j] == r[j]);
                } else {
                    assert(f[r.len() as int] == x);
                }
            }
            assert forall|j: int| 0 <= j < f.len() implies items.contains(#[trigger] f[j]) by {
                if j < r.len() {
                    assert(f[j] == r[j]);
                    let m = choose|m: int| 0 <= m < t.len() && t[m] == r[j];
                    assert(items[m] == t[m]);
                }
            }
        }
    }
}


} // verus!
