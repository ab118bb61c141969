//! Query-side logic over the stored graph: impact risk and summaries,
//! edge-type validation, reachability and impact traversals (driven by the
//! caller, which answers each step from the database), subgraph assembly,
//! and grouping of search results.

use vstd::prelude::*;
use crate::analyzer::resolver::Confidence;
use crate::text::{decimal, lex_lt, owned, push_decimal, str_eq, str_less};

verus! {

// ─── Data types ─────────────────────────────────────────────────────

/// Valid symbol kind strings stored in the DB.
pub open spec fn valid_symbol_kinds() -> Seq<Seq<char>> {
    seq![
        "Function"@,
        "Method"@,
        "Class"@,
        "Interface"@,
        "Type"@,
        "Enum"@,
        "Struct"@,
        "Field"@,
        "Property"@,
        "Variable"@,
        "Constant"@,
        "Constructor"@,
        "Module"@,
        "External"@,
    ]
}

/// A stored symbol.
#[derive(Debug)]
pub struct SymbolInfo {
    pub uid: String,
    pub name: String,
    pub kind: String,
    pub file_path: String,
    pub start_line: i64,
    pub end_line: i64,
    pub is_exported: bool,
    pub parent_name: Option<String>,
}

/// Mathematical view of a [`SymbolInfo`].
pub struct SymbolInfoV {
    pub uid: Seq<char>,
    pub name: Seq<char>,
    pub kind: Seq<char>,
    pub file_path: Seq<char>,
    pub start_line: i64,
    pub end_line: i64,
    pub is_exported: bool,
    pub parent_name: Option<Seq<char>>,
}

impl View for SymbolInfo {
    type V = SymbolInfoV;

    open spec fn view(&self) -> SymbolInfoV {
        SymbolInfoV {
            uid: self.uid@,
            name: self.name@,
            kind: self.kind@,
            file_path: self.file_path@,
            start_line: self.start_line,
            end_line: self.end_line,
            is_exported: self.is_exported,
            parent_name: self.parent_name.deep_view(),
        }
    }
}

impl DeepView for SymbolInfo {
    type V = SymbolInfoV;

    open spec fn deep_view(&self) -> SymbolInfoV {
        self@
    }
}

impl SymbolInfo {
    /// A copy of the record.
    pub fn duplicate(&self) -> (r: SymbolInfo)
        ensures
            r@ == self@,
    {
        SymbolInfo {
            uid: self.uid.clone(),
            name: self.name.clone(),
            kind: self.kind.clone(),
            file_path: self.file_path.clone(),
            start_line: self.start_line,
            end_line: self.end_line,
            is_exported: self.is_exported,
            parent_name: crate::parser::extract::clone_opt(&self.parent_name),
        }
    }
}

/// A node of a subgraph: a symbol with its row id.
#[derive(Debug)]
pub struct SubgraphNode {
    pub id: i64,
    pub symbol: SymbolInfo,
}

/// Mathematical view of a [`SubgraphNode`].
pub struct SubgraphNodeV {
    pub id: i64,
    pub symbol: SymbolInfoV,
}

impl View for SubgraphNode {
    type V = SubgraphNodeV;

    open spec fn view(&self) -> SubgraphNodeV {
        SubgraphNodeV { id: self.id, symbol: self.symbol@ }
    }
}

impl DeepView for SubgraphNode {
    type V = SubgraphNodeV;

    open spec fn deep_view(&self) -> SubgraphNodeV {
        self@
    }
}

/// The subgraph around a start node: its nodes and the edges among them,
/// with their counts, and whether (and why) a limit cut it.
#[derive(Debug)]
pub struct SubgraphResult {
    pub start_id: i64,
    pub nodes: Vec<SubgraphNode>,
    pub edges: Vec<EdgeEntry>,
    pub node_count: usize,
    pub edge_count: usize,
    pub truncated: bool,
    pub truncated_reason: Option<String>,
}

/// An edge of a subgraph.
#[derive(Debug)]
pub struct EdgeEntry {
    pub source_id: i64,
    pub target_id: i64,
    pub kind: String,
    pub confidence: Confidence,
    pub reason: String,
}

/// A process that an impact reaches.
#[derive(Debug)]
pub struct AffectedProcess {
    pub id: i64,
    pub label: String,
    pub process_type: String,
}

/// A community (module) that an impact reaches.
#[derive(Debug)]
pub struct AffectedModule {
    pub id: i64,
    pub label: String,
}

/// One recorded data flow of a function.
#[derive(Debug)]
pub struct DataflowEntry {
    pub source_expr: String,
    pub sink_expr: String,
    pub flow_kind: String,
    pub source_line: i64,
    pub sink_line: i64,
}

/// The data flows of one function.
#[derive(Debug)]
pub struct DataflowResult {
    pub symbol: SymbolInfo,
    pub flows: Vec<DataflowEntry>,
}

/// Why a query was refused.
#[derive(Debug, Clone, PartialEq, Eq)]
pub enum QueryError {
    /// An edge type outside the stored relation kinds.
    InvalidEdgeType(String),
    /// A traversal direction other than `outgoing`, `incoming` or `both`.
    InvalidDirection(String),
    /// Neither a symbol id, a UID nor a name was given.
    MissingSymbol,
    /// More than one symbol has this name in this file.
    AmbiguousSymbol(String, String),
}

/// Message of a query error.
pub open spec fn query_error_message(e: QueryError) -> Seq<char> {
    match e {
        QueryError::InvalidEdgeType(t) => "invalid edge type: "@ + t@,
        QueryError::InvalidDirection(d) => "invalid direction '"@ + d@ + "': must be 'outgoing', 'incoming', or 'both'"@,
        QueryError::MissingSymbol => "symbol_name required when id/uid not given"@,
        QueryError::AmbiguousSymbol(n, f) => "ambiguous symbol: '"@ + n@ + "' in '"@ + f@
            + "' matches multiple entries"@,
    }
}

impl QueryError {
    /// The error message shown to the user.
    pub fn message(&self) -> (r: String)
        ensures
            r@ == query_error_message(*self),
    {
        match self {
            QueryError::InvalidEdgeType(t) => crate::text::concat("invalid edge type: ", t.as_str()),
            QueryError::InvalidDirection(d) => crate::text::concat3(
                "invalid direction '",
                d.as_str(),
                "': must be 'outgoing', 'incoming', or 'both'",
            ),
            QueryError::MissingSymbol => owned("symbol_name required when id/uid not given"),
            QueryError::AmbiguousSymbol(n, f) => {
                let mut m = crate::text::concat3("ambiguous symbol: '", n.as_str(), "' in '");
                m.append(f.as_str());
                m.append("' matches multiple entries");
                m
            },
        }
    }
}

// ─── Risk, summary, validation ─────────────────────────────────────

/// Risk of an impact: `high` when a depth-1 symbol is exported or ten or
/// more symbols are affected, else `medium` when any symbol is affected
/// directly, else `low`.
pub open spec fn risk_level(has_exported_at_d1: bool, total_affected: usize, depth_1_count: usize) -> Seq<char> {
    if has_exported_at_d1 || total_affected >= 10 {
        "high"@
    } else if depth_1_count > 0 {
        "medium"@
    } else {
        "low"@
    }
}

/// Risk level of a change from its impact.
pub fn compute_risk(has_exported_at_d1: bool, total_affected: usize, depth_1_count: usize) -> (r: String)
    ensures
        r@ == risk_level(has_exported_at_d1, total_affected, depth_1_count),
{
    if has_exported_at_d1 || total_affected >= 10 {
        owned("high")
    } else if depth_1_count > 0 {
        owned("medium")
    } else {
        owned("low")
    }
}

/// Where the affected symbols lie, as a sentence ending.
pub open spec fn scope_phrase(mod_count: usize, proc_count: usize) -> Seq<char> {
    if mod_count > 0 && proc_count > 0 {
        " in "@ + decimal(mod_count as nat) + " module(s) and "@ + decimal(proc_count as nat) + " process(es)."@
    } else if mod_count > 0 {
        " in "@ + decimal(mod_count as nat) + " module(s)."@
    } else if proc_count > 0 {
        " in "@ + decimal(proc_count as nat) + " process(es)."@
    } else {
        "."@
    }
}

/// One-line summary of an impact analysis.
pub open spec fn impact_summary(
    name: Seq<char>,
    direction: Seq<char>,
    total: usize,
    depth1: usize,
    risk: Seq<char>,
    mod_count: usize,
    proc_count: usize,
) -> Seq<char> {
    "Changing "@ + name + " ("@ + direction + ") affects "@ + decimal(total as nat) + " symbol(s) ("@ + decimal(
        depth1 as nat,
    ) + " direct)"@ + scope_phrase(mod_count, proc_count) + " Risk: "@ + risk + "."@
}

/// Appends `t` to `s`.
fn append(s: &mut String, t: &str)
    ensures
        final(s)@ == old(s)@ + t@,
{
    s.append(t);
}

/// One-line summary of an impact analysis.
pub fn build_impact_summary(
    name: &str,
    direction: &str,
    total: usize,
    depth1: usize,
    risk: &str,
    mod_count: usize,
    proc_count: usize,
) -> (r: String)
    ensures
        r@ == impact_summary(name@, direction@, total, depth1, risk@, mod_count, proc_count),
{
    let mut s = owned("Changing ");
    append(&mut s, name);
    append(&mut s, " (");
    append(&mut s, direction);
    append(&mut s, ") affects ");
    push_decimal(&mut s, total);
    append(&mut s, " symbol(s) (");
    push_decimal(&mut s, depth1);
    append(&mut s, " direct)");
    let ghost head = s@;
    if mod_count > 0 && proc_count > 0 {
        append(&mut s, " in ");
        push_decimal(&mut s, mod_count);
        append(&mut s, " module(s) and ");
        push_decimal(&mut s, proc_count);
        append(&mut s, " process(es).");
    } else if mod_count > 0 {
        append(&mut s, " in ");
        push_decimal(&mut s, mod_count);
        append(&mut s, " module(s).");
    } else if proc_count > 0 {
        append(&mut s, " in ");
        push_decimal(&mut s, proc_count);
        append(&mut s, " process(es).");
    } else {
        append(&mut s, ".");
    }
    proof {
        assert(s@ =~= head + scope_phrase(mod_count, proc_count));
    }
    append(&mut s, " Risk: ");
    append(&mut s, risk);
    append(&mut s, ".");
    proof {
        assert(s@ =~= impact_summary(name@, direction@, total, depth1, risk@, mod_count, proc_count));
    }
    s
}

/// Stored names of the relation kinds.
pub open spec fn valid_edge_kinds() -> Seq<Seq<char>> {
    seq![
        "CALLS"@,
        "CALLS_UNRESOLVED"@,
        "CALLS_EXTERNAL"@,
        "IMPORTS"@,
        "EXTENDS"@,
        "IMPLEMENTS"@,
        "DEFINES"@,
        "CONTAINS"@,
    ]
}

/// Index of the first type that is not a stored relation kind, if any.
pub open spec fn first_invalid(types: Seq<Seq<char>>) -> Option<int>
    decreases types.len(),
{
    if types.len() == 0 {
        None
    } else {
        match first_invalid(types.drop_last()) {
            Some(i) => Some(i),
            None => if valid_edge_kinds().contains(types.last()) {
                None
            } else {
                Some(types.len() - 1)
            },
        }
    }
}

/// Whether `t` is a stored relation kind.
fn is_edge_kind(t: &str) -> (r: bool)
    ensures
        r == valid_edge_kinds().contains(t@),
{
    let kinds: [&str; 8] = [
        "CALLS",
        "CALLS_UNRESOLVED",
        "CALLS_EXTERNAL",
        "IMPORTS",
        "EXTENDS",
        "IMPLEMENTS",
        "DEFINES",
        "CONTAINS",
    ];
    proof {
        assert(kinds@.map_values(|k: &str| k@) =~= valid_edge_kinds());
    }
    let mut i: usize = 0;
    while i < 8
        invariant
            i <= 8,
            kinds@.map_values(|k: &str| k@) == valid_edge_kinds(),
            forall|j: int| 0 <= j < i ==> valid_edge_kinds()[j] != t@,
        decreases 8 - i,
    {
        proof {
            assert(valid_edge_kinds()[i as int] == kinds@[i as int]@);
        }
        if str_eq(kinds[i], t) {
            proof {
                assert(valid_edge_kinds()[i as int] == t@);
            }
            return true;
        }
        i = i + 1;
    }
    false
}

/// The edge types unchanged when each is a stored relation kind; else the
/// first one that is not.
pub fn validate_edge_types(types: &[String]) -> (r: Result<Vec<String>, QueryError>)
    ensures
        match first_invalid(types.deep_view()) {
            None => r is Ok && r->Ok_0.deep_view() == types.deep_view(),
            Some(i) => r is Err && r->Err_0 is InvalidEdgeType && r->Err_0->InvalidEdgeType_0@ == types@[i]@,
        },
{
    let ghost tv = types.deep_view();
    let mut i: usize = 0;
    while i < types.len()
        invariant
            i <= tv.len(),
            tv == types.deep_view(),
            first_invalid(tv.take(i as int)) is None,
        decreases tv.len() - i,
    {
        proof {
            assert(tv.take(i + 1).drop_last() =~= tv.take(i as int));
            assert(tv[i as int] == types@[i as int]@);
        }
        if !is_edge_kind(types[i].as_str()) {
            proof {
                lemma_first_invalid_prefix(tv, i as int);
            }
            return Err(QueryError::InvalidEdgeType(types[i].clone()));
        }
        i = i + 1;
    }
    proof {
        assert(tv.take(tv.len() as int) =~= tv);
    }
    let mut r: Vec<String> = Vec::new();
    let mut j: usize = 0;
    while j < types.len()
        invariant
            j <= types@.len(),
            r@.len() == j,
            forall|q: int| 0 <= q < j ==> r@[q]@ == types@[q]@,
        decreases types@.len() - j,
    {
        r.push(types[j].clone());
        j = j + 1;
    }
    proof {
        assert(r.deep_view() =~= types.deep_view());
    }
    Ok(r)
}

proof fn lemma_first_invalid_prefix(tv: Seq<Seq<char>>, i: int)
    requires
        0 <= i < tv.len(),
        first_invalid(tv.take(i)) is None,
        !valid_edge_kinds().contains(tv[i]),
    ensures
        first_invalid(tv) == Some(i),
    decreases tv.len(),
{
    if tv.len() - 1 == i {
        assert(tv.drop_last() =~= tv.take(i));
    } else {
        assert(tv.drop_last().take(i) =~= tv.take(i));
        assert(tv.drop_last()[i] == tv[i]);
        lemma_first_invalid_prefix(tv.drop_last(), i);
    }
}

// ─── Reachability traversal ─────────────────────────────────────────

/// State of a depth-limited breadth-first reachability traversal.
pub struct ReachStateV {
    pub visited: Seq<i64>,
    pub frontier: Seq<i64>,
    pub result: Seq<(i64, u32)>,
    pub capped: bool,
    pub depth: nat,
    pub done: bool,
}

/// Depth-limited BFS from a start node, one hop per request: the caller
/// asks [`Reachability::wants_expansion`], answers with the new neighbours of
/// the frontier (not yet visited), and repeats until no expansion is wanted.
pub struct Reachability {
    max_depth: u32,
    capacity: usize,
    visited: Vec<i64>,
    frontier: Vec<i64>,
    result: Vec<(i64, u32)>,
    capped: bool,
    depth: u64,
    done: bool,
}

impl View for Reachability {
    type V = ReachStateV;

    closed spec fn view(&self) -> ReachStateV {
        ReachStateV {
            visited: self.visited@,
            frontier: self.frontier@,
            result: self.result@,
            capped: self.capped,
            depth: self.depth as nat,
            done: self.done,
        }
    }
}

/// The loop head of the traversal at depth `s.depth`: it stops when past
/// the depth limit, when the frontier is empty, or (capped) when `capacity`
/// nodes were found.
pub open spec fn reach_head(s: ReachStateV, max_depth: u32, capacity: usize) -> ReachStateV {
    if s.done || s.depth > max_depth || s.frontier.len() == 0 {
        ReachStateV { done: true, ..s }
    } else if s.result.len() >= capacity {
        ReachStateV { capped: true, done: true, ..s }
    } else {
        s
    }
}

/// One expansion with the new neighbours `next`: the frontier becomes
/// `next`, cut to the remaining capacity (capped when cut); its nodes are
/// visited and recorded at the current depth.
pub open spec fn reach_step(s: ReachStateV, next: Seq<i64>, capacity: usize) -> ReachStateV {
    if next.len() == 0 {
        ReachStateV { frontier: Seq::empty(), depth: s.depth + 1, ..s }
    } else {
        let remaining = capacity - s.result.len();
        let f = if next.len() > remaining {
            next.take(remaining)
        } else {
            next
        };
        ReachStateV {
            visited: s.visited + f,
            frontier: f,
            result: s.result + f.map_values(|id: i64| (id, s.depth as u32)),
            capped: s.capped || next.len() > remaining,
            depth: s.depth + 1,
            done: s.done,
        }
    }
}

impl Reachability {
    /// The limits of the traversal.
    pub closed spec fn limits(&self) -> (u32, usize) {
        (self.max_depth, self.capacity)
    }

    /// Start a traversal from `start_id` (visited, depth 0, not recorded).
    pub fn new(start_id: i64, max_depth: u32, capacity: usize) -> (r: Reachability)
        ensures
            r@ == (ReachStateV {
                visited: seq![start_id],
                frontier: seq![start_id],
                result: Seq::empty(),
                capped: false,
                depth: 1,
                done: false,
            }),
            r.limits() == (max_depth, capacity),
    {
        let mut visited: Vec<i64> = Vec::new();
        visited.push(start_id);
        let mut frontier: Vec<i64> = Vec::new();
        frontier.push(start_id);
        Reachability {
            max_depth,
            capacity,
            visited,
            frontier,
            result: Vec::new(),
            capped: false,
            depth: 1,
            done: false,
        }
    }

    /// Whether another expansion is due; stops the traversal otherwise.
    pub fn wants_expansion(&mut self) -> (r: bool)
        requires
            old(self)@.depth <= old(self).limits().0 as nat + 1,
        ensures
            final(self)@ == reach_head(old(self)@, old(self).limits().0, old(self).limits().1),
            final(self).limits() == old(self).limits(),
            r == !final(self)@.done,
            final(self)@.depth <= final(self).limits().0 as nat + 1,
    {
        if self.done || self.depth > self.max_depth as u64 || self.frontier.len() == 0 {
            self.done = true;
            return false;
        }
        if self.result.len() >= self.capacity {
            self.capped = true;
            self.done = true;
            return false;
        }
        true
    }

    /// The nodes to expand next.
    pub fn frontier(&self) -> (r: &Vec<i64>)
        ensures
            r@ == self@.frontier,
    {
        &self.frontier
    }

    /// The nodes visited so far (the start included).
    pub fn visited(&self) -> (r: &Vec<i64>)
        ensures
            r@ == self@.visited,
    {
        &self.visited
    }

    /// Record the new neighbours of the frontier.
    pub fn expand(&mut self, next: &[i64])
        requires
            !old(self)@.done,
            old(self)@.depth <= old(self).limits().0 as nat,
            old(self)@.result.len() < old(self).limits().1,
        ensures
            final(self)@ == reach_step(old(self)@, next@, old(self).limits().1),
            final(self).limits() == old(self).limits(),
            final(self)@.depth <= final(self).limits().0 as nat + 1,
    {
        let d = self.depth as u32;
        if next.len() == 0 {
            self.frontier = Vec::new();
            self.depth = self.depth + 1;
            return;
        }
        let remaining = self.capacity - self.result.len();
        let cut = next.len() > remaining;
        let n = if cut {
            remaining
        } else {
            next.len()
        };
        let ghost v0 = self.visited@;
        let ghost r0 = self.result@;
        let mut visited: Vec<i64> = Vec::new();
        std::mem::swap(&mut visited, &mut self.visited);
        let mut result: Vec<(i64, u32)> = Vec::new();
        std::mem::swap(&mut result, &mut self.result);
        let mut f: Vec<i64> = Vec::new();
        let mut i: usize = 0;
        while i < n
            invariant
                i <= n <= next@.len(),
                f@ == next@.take(i as int),
                visited@ == v0 + f@,
                result@ == r0 + f@.map_values(|id: i64| (id, d)),
            decreases n - i,
        {
            f.push(next[i]);
            visited.push(next[i]);
            result.push((next[i], d));
            i = i + 1;
            proof {
                assert(f@ =~= next@.take(i as int));
                assert(visited@ =~= v0 + f@);
                assert(result@ =~= r0 + f@.map_values(|id: i64| (id, d)));
            }
        }
        proof {
            if !cut {
                assert(next@.take(n as int) =~= next@);
            }
        }
        self.visited = visited;
        self.result = result;
        self.frontier = f;
        self.capped = self.capped || cut;
        self.depth = self.depth + 1;
    }

    /// The nodes found, with their depths, and whether the capacity cut the
    /// traversal short.
    pub fn finish(self) -> (r: (Vec<(i64, u32)>, bool))
        ensures
            r.0@ == self@.result,
            r.1 == self@.capped,
    {
        (self.result, self.capped)
    }
}

// ─── Subgraph assembly ──────────────────────────────────────────────

/// Direction of a subgraph traversal.
#[derive(Debug, Clone, Copy, PartialEq, Eq, Structural)]
pub enum TraversalDirection {
    Outgoing,
    Incoming,
    Both,
}

/// The direction named by `s`, if it names one.
pub open spec fn direction_named(s: Seq<char>) -> Option<TraversalDirection> {
    if s == "outgoing"@ {
        Some(TraversalDirection::Outgoing)
    } else if s == "incoming"@ {
        Some(TraversalDirection::Incoming)
    } else if s == "both"@ {
        Some(TraversalDirection::Both)
    } else {
        None
    }
}

/// Parse `outgoing`, `incoming` or `both`.
pub fn parse_direction(s: &str) -> (r: Result<TraversalDirection, QueryError>)
    ensures
        match direction_named(s@) {
            Some(d) => r == Ok::<TraversalDirection, QueryError>(d),
            None => r is Err && r->Err_0 is InvalidDirection && r->Err_0->InvalidDirection_0@ == s@,
        },
{
    if str_eq(s, "outgoing") {
        Ok(TraversalDirection::Outgoing)
    } else if str_eq(s, "incoming") {
        Ok(TraversalDirection::Incoming)
    } else if str_eq(s, "both") {
        Ok(TraversalDirection::Both)
    } else {
        Err(QueryError::InvalidDirection(owned(s)))
    }
}

/// Position of the record of node `id`, or the length.
pub open spec fn node_pos(m: Seq<(i64, u32)>, id: i64) -> int
    decreases m.len(),
{
    if m.len() == 0 {
        0
    } else if m[0].0 == id {
        0
    } else {
        1 + node_pos(m.drop_first(), id)
    }
}

/// Each node once, with the smallest depth it was found at (first-found order).
pub open spec fn merge_min_depth(pairs: Seq<(i64, u32)>) -> Seq<(i64, u32)>
    decreases pairs.len(),
{
    if pairs.len() == 0 {
        Seq::empty()
    } else {
        let m = merge_min_depth(pairs.drop_last());
        let x = pairs.last();
        let k = node_pos(m, x.0);
        if k < m.len() {
            if x.1 < m[k].1 {
                m.update(k, x)
            } else {
                m
            }
        } else {
            m.push(x)
        }
    }
}

/// The start node at depth 0, then the nodes found in the chosen direction(s).
pub open spec fn reached_nodes(
    start_id: i64,
    dir: TraversalDirection,
    outgoing: Seq<(i64, u32)>,
    incoming: Seq<(i64, u32)>,
) -> Seq<(i64, u32)> {
    seq![(start_id, 0u32)] + match dir {
        TraversalDirection::Outgoing => outgoing,
        TraversalDirection::Incoming => incoming,
        TraversalDirection::Both => merge_min_depth(outgoing + incoming),
    }
}

/// `a` comes before `b`: smaller depth, then smaller id.
pub open spec fn node_before(a: (i64, u32), b: (i64, u32)) -> bool {
    a.1 < b.1 || (a.1 == b.1 && a.0 < b.0)
}

/// `x` placed before the first node it comes before.
pub open spec fn insert_node(s: Seq<(i64, u32)>, x: (i64, u32)) -> Seq<(i64, u32)>
    decreases s.len(),
{
    if s.len() == 0 {
        seq![x]
    } else if node_before(x, s[0]) {
        seq![x] + s
    } else {
        seq![s[0]] + insert_node(s.drop_first(), x)
    }
}

/// Nodes by depth, then id (stable).
pub open spec fn sort_nodes(s: Seq<(i64, u32)>) -> Seq<(i64, u32)>
    decreases s.len(),
{
    if s.len() == 0 {
        s
    } else {
        insert_node(sort_nodes(s.drop_last()), s.last())
    }
}

/// `node limit (n) reached`.
pub open spec fn node_limit_message(n: usize) -> Seq<char> {
    "node limit ("@ + decimal(n as nat) + ") reached"@
}

/// `edge limit (n) reached`.
pub open spec fn edge_limit_message(n: usize) -> Seq<char> {
    "edge limit ("@ + decimal(n as nat) + ") reached"@
}

/// The nodes of a subgraph, sorted and cut to `max_nodes`, whether it was
/// truncated (cut here, or a traversal hit its capacity), and why.
pub open spec fn subgraph_nodes(
    start_id: i64,
    dir: TraversalDirection,
    outgoing: Seq<(i64, u32)>,
    out_capped: bool,
    incoming: Seq<(i64, u32)>,
    inc_capped: bool,
    max_nodes: usize,
) -> (Seq<(i64, u32)>, bool, Option<Seq<char>>) {
    let r = sort_nodes(reached_nodes(start_id, dir, outgoing, incoming));
    let capped = match dir {
        TraversalDirection::Outgoing => out_capped,
        TraversalDirection::Incoming => inc_capped,
        TraversalDirection::Both => out_capped || inc_capped,
    };
    if r.len() > max_nodes {
        (r.take(max_nodes as int), true, Some(node_limit_message(max_nodes)))
    } else if capped {
        (r, true, Some(node_limit_message(max_nodes)))
    } else {
        (r, false, None)
    }
}

proof fn lemma_insert_node_at(s: Seq<(i64, u32)>, x: (i64, u32), k: int)
    requires
        0 <= k <= s.len(),
        forall|j: int| 0 <= j < k ==> !node_before(x, #[trigger] s[j]),
        k < s.len() ==> node_before(x, s[k]),
    ensures
        insert_node(s, x) == s.insert(k, x),
    decreases k,
{
    if k == 0 {
        if s.len() == 0 {
            assert(s.insert(0, x) =~= seq![x]);
        } else {
            assert(s.insert(0, x) =~= seq![x] + s);
        }
    } else {
        let t = s.drop_first();
        assert forall|j: int| 0 <= j < k - 1 implies !node_before(x, #[trigger] t[j]) by {
            assert(t[j] == s[j + 1]);
        }
        if k < s.len() {
            assert(t[k - 1] == s[k]);
        }
        lemma_insert_node_at(t, x, k - 1);
        assert(s.insert(k, x) =~= seq![s[0]] + t.insert(k - 1, x));
    }
}

/// A copy of a list of (node, depth) pairs.
fn copy_pairs(s: &[(i64, u32)]) -> (r: Vec<(i64, u32)>)
    ensures
        r@ == s@,
{
    let mut r: Vec<(i64, u32)> = Vec::new();
    let mut i: usize = 0;
    while i < s.len()
        invariant
            i <= s@.len(),
            r@ == s@.take(i as int),
        decreases s@.len() - i,
    {
        r.push(s[i]);
        i = i + 1;
        proof {
            assert(r@ =~= s@.take(i as int));
        }
    }
    proof {
        assert(s@.take(s@.len() as int) =~= s@);
    }
    r
}

/// Each node once, with its smallest depth.
fn merge_depths(pairs: &Vec<(i64, u32)>) -> (r: Vec<(i64, u32)>)
    ensures
        r@ == merge_min_depth(pairs@),
{
    let mut m: Vec<(i64, u32)> = Vec::new();
    let mut i: usize = 0;
    while i < pairs.len()
        invariant
            i <= pairs@.len(),
            m@ == merge_min_depth(pairs@.take(i as int)),
        decreases pairs@.len() - i,
    {
        let x = pairs[i];
        proof {
            assert(pairs@.take(i + 1).drop_last() =~= pairs@.take(i as int));
            assert(pairs@.take(i + 1).last() == x);
        }
        let ghost mv = m@;
        let mut k: usize = 0;
        proof {
            assert(mv.skip(0) =~= mv);
        }
        while k < m.len() && m[k].0 != x.0
            invariant
                k <= mv.len(),
                mv == m@,
                node_pos(mv, x.0) == k + node_pos(mv.skip(k as int), x.0),
            decreases mv.len() - k,
        {
            proof {
                assert(mv.skip(k as int).drop_first() =~= mv.skip(k + 1));
            }
            k = k + 1;
        }
        proof {
            if k == mv.len() {
                assert(mv.skip(k as int) =~= Seq::<(i64, u32)>::empty());
            }
        }
        if k < m.len() {
            if x.1 < m[k].1 {
                m.set(k, x);
            }
        } else {
            m.push(x);
        }
        i = i + 1;
    }
    proof {
        assert(pairs@.take(pairs@.len() as int) =~= pairs@);
    }
    m
}

/// The nodes of a subgraph, sorted by depth then id and cut to
/// `max_nodes`; whether the subgraph is truncated, and why.
pub fn select_subgraph_nodes(
    start_id: i64,
    direction: TraversalDirection,
    outgoing: &[(i64, u32)],
    out_capped: bool,
    incoming: &[(i64, u32)],
    inc_capped: bool,
    max_nodes: usize,
) -> (r: (Vec<(i64, u32)>, bool, Option<String>))
    ensures
        (r.0@, r.1, r.2.deep_view()) == subgraph_nodes(
            start_id,
            direction,
            outgoing@,
            out_capped,
            incoming@,
            inc_capped,
            max_nodes,
        ),
{
    let mut reached: Vec<(i64, u32)> = Vec::new();
    reached.push((start_id, 0));
    let found: Vec<(i64, u32)> = match direction {
        TraversalDirection::Outgoing => copy_pairs(outgoing),
        TraversalDirection::Incoming => copy_pairs(incoming),
        TraversalDirection::Both => {
            let mut all: Vec<(i64, u32)> = copy_pairs(outgoing);
            let mut j: usize = 0;
            while j < incoming.len()
                invariant
                    j <= incoming@.len(),
                    all@ == outgoing@ + incoming@.take(j as int),
                decreases incoming@.len() - j,
            {
                all.push(incoming[j]);
                j = j + 1;
                proof {
                    assert(all@ =~= outgoing@ + incoming@.take(j as int));
                }
            }
            proof {
                assert(incoming@.take(incoming@.len() as int) =~= incoming@);
            }
            merge_depths(&all)
        },
    };
    let mut j: usize = 0;
    while j < found.len()
        invariant
            j <= found@.len(),
            reached@ == seq![(start_id, 0u32)] + found@.take(j as int),
        decreases found@.len() - j,
    {
        reached.push(found[j]);
        j = j + 1;
        proof {
            assert(reached@ =~= seq![(start_id, 0u32)] + found@.take(j as int));
        }
    }
    proof {
        assert(found@.take(found@.len() as int) =~= found@);
        assert(reached@ == reached_nodes(start_id, direction, outgoing@, incoming@));
    }
    // Sort by depth, then id.
    let ghost rv = reached@;
    let mut sorted: Vec<(i64, u32)> = Vec::new();
    let mut i: usize = 0;
    while i < reached.len()
        invariant
            i <= rv.len(),
            rv == reached@,
            sorted@ == sort_nodes(rv.take(i as int)),
        decreases rv.len() - i,
    {
        let x = reached[i];
        let ghost sv = sorted@;
        let mut k: usize = 0;
        while k < sorted.len() && !(x.1 < sorted[k].1 || (x.1 == sorted[k].1 && x.0 < sorted[k].0))
            invariant
                k <= sv.len(),
                sv == sorted@,
                forall|q: int| 0 <= q < k ==> !node_before(x, #[trigger] sv[q]),
            decreases sv.len() - k,
        {
            k = k + 1;
        }
        proof {
            lemma_insert_node_at(sv, x, k as int);
            assert(rv.take(i + 1).drop_last() =~= rv.take(i as int));
        }
        sorted.insert(k, x);
        i = i + 1;
    }
    proof {
        assert(rv.take(rv.len() as int) =~= rv);
    }
    let capped = match direction {
        TraversalDirection::Outgoing => out_capped,
        TraversalDirection::Incoming => inc_capped,
        TraversalDirection::Both => out_capped || inc_capped,
    };
    if sorted.len() > max_nodes {
        sorted.truncate(max_nodes);
        (sorted, true, Some(limit_message("node limit (", max_nodes)))
    } else if capped {
        (sorted, true, Some(limit_message("node limit (", max_nodes)))
    } else {
        (sorted, false, None)
    }
}

/// `<what>n) reached`.
fn limit_message(what: &str, n: usize) -> (r: String)
    ensures
        r@ == what@ + decimal(n as nat) + ") reached"@,
{
    let mut s = owned(what);
    push_decimal(&mut s, n);
    append(&mut s, ") reached");
    s
}

/// Mathematical view of an [`EdgeEntry`].
pub struct EdgeEntryV {
    pub source_id: i64,
    pub target_id: i64,
    pub kind: Seq<char>,
    pub confidence: Confidence,
    pub reason: Seq<char>,
}

impl View for EdgeEntry {
    type V = EdgeEntryV;

    open spec fn view(&self) -> EdgeEntryV {
        EdgeEntryV {
            source_id: self.source_id,
            target_id: self.target_id,
            kind: self.kind@,
            confidence: self.confidence,
            reason: self.reason@,
        }
    }
}

impl DeepView for EdgeEntry {
    type V = EdgeEntryV;

    open spec fn deep_view(&self) -> EdgeEntryV {
        self@
    }
}

impl EdgeEntry {
    /// A copy of the edge.
    pub fn duplicate(&self) -> (r: EdgeEntry)
        ensures
            r@ == self@,
    {
        EdgeEntry {
            source_id: self.source_id,
            target_id: self.target_id,
            kind: self.kind.clone(),
            confidence: self.confidence,
            reason: self.reason.clone(),
        }
    }
}

/// `a` comes before `b`: by source, then target, then kind.
pub open spec fn edge_before(a: EdgeEntryV, b: EdgeEntryV) -> bool {
    a.source_id < b.source_id || (a.source_id == b.source_id && a.target_id < b.target_id) || (a.source_id
        == b.source_id && a.target_id == b.target_id && lex_lt(a.kind, b.kind))
}

/// `x` placed before the first edge it comes before.
pub open spec fn insert_edge(s: Seq<EdgeEntryV>, x: EdgeEntryV) -> Seq<EdgeEntryV>
    decreases s.len(),
{
    if s.len() == 0 {
        seq![x]
    } else if edge_before(x, s[0]) {
        seq![x] + s
    } else {
        seq![s[0]] + insert_edge(s.drop_first(), x)
    }
}

/// Edges by source, target, kind (stable).
pub open spec fn sort_edges(s: Seq<EdgeEntryV>) -> Seq<EdgeEntryV>
    decreases s.len(),
{
    if s.len() == 0 {
        s
    } else {
        insert_edge(sort_edges(s.drop_last()), s.last())
    }
}

/// The edges of a subgraph, sorted and cut to `max_edges`, with the
/// truncation flag and reason updated.
pub open spec fn subgraph_edges(
    edges: Seq<EdgeEntryV>,
    max_edges: usize,
    truncated: bool,
    reason: Option<Seq<char>>,
) -> (Seq<EdgeEntryV>, bool, Option<Seq<char>>) {
    let s = sort_edges(edges);
    if s.len() > max_edges {
        let e = s.take(max_edges as int);
        if !truncated {
            (e, true, Some(edge_limit_message(max_edges)))
        } else {
            (e, true, match reason {
                Some(r) => Some(r + "; "@ + edge_limit_message(max_edges)),
                None => None,
            })
        }
    } else {
        (s, truncated, reason)
    }
}

proof fn lemma_insert_edge_at(s: Seq<EdgeEntryV>, x: EdgeEntryV, k: int)
    requires
        0 <= k <= s.len(),
        forall|j: int| 0 <= j < k ==> !edge_before(x, #[trigger] s[j]),
        k < s.len() ==> edge_before(x, s[k]),
    ensures
        insert_edge(s, x) == s.insert(k, x),
    decreases k,
{
    if k == 0 {
        if s.len() == 0 {
            assert(s.insert(0, x) =~= seq![x]);
        } else {
            assert(s.insert(0, x) =~= seq![x] + s);
        }
    } else {
        let t = s.drop_first();
        assert forall|j: int| 0 <= j < k - 1 implies !edge_before(x, #[trigger] t[j]) by {
            assert(t[j] == s[j + 1]);
        }
        if k < s.len() {
            assert(t[k - 1] == s[k]);
        }
        lemma_insert_edge_at(t, x, k - 1);
        assert(s.insert(k, x) =~= seq![s[0]] + t.insert(k - 1, x));
    }
}

/// Whether edge `a` comes before edge `b`.
fn edge_first(a: &EdgeEntry, b: &EdgeEntry) -> (r: bool)
    ensures
        r == edge_before(a@, b@),
{
    a.source_id < b.source_id || (a.source_id == b.source_id && a.target_id < b.target_id) || (a.source_id
        == b.source_id && a.target_id == b.target_id && str_less(a.kind.as_str(), b.kind.as_str()))
}

/// The edges of a subgraph sorted by source, target and kind, cut to
/// `max_edges`; the truncation flag and reason, updated.
pub fn select_subgraph_edges(
    edges: &Vec<EdgeEntry>,
    max_edges: usize,
    truncated: bool,
    reason: Option<String>,
) -> (r: (Vec<EdgeEntry>, bool, Option<String>))
    ensures
        (r.0.deep_view(), r.1, r.2.deep_view()) == subgraph_edges(
            edges.deep_view(),
            max_edges,
            truncated,
            reason.deep_view(),
        ),
{
    let ghost ev = edges.deep_view();
    let mut sorted: Vec<EdgeEntry> = Vec::new();
    let mut i: usize = 0;
    while i < edges.len()
        invariant
            i <= ev.len(),
            ev == edges.deep_view(),
            sorted.deep_view() == sort_edges(ev.take(i as int)),
        decreases ev.len() - i,
    {
        let x = edges[i].duplicate();
        let ghost sv = sorted.deep_view();
        let mut k: usize = 0;
        while k < sorted.len() && !edge_first(&x, &sorted[k])
            invariant
                k <= sv.len(),
                sv == sorted.deep_view(),
                forall|q: int| 0 <= q < k ==> !edge_before(x@, #[trigger] sv[q]),
            decreases sv.len() - k,
        {
            proof {
                assert(sv[k as int] == sorted@[k as int]@);
            }
            k = k + 1;
        }
        proof {
            if k < sv.len() {
                assert(sv[k as int] == sorted@[k as int]@);
            }
            lemma_insert_edge_at(sv, x@, k as int);
            assert(ev.take(i + 1).drop_last() =~= ev.take(i as int));
            assert(ev[i as int] == edges@[i as int]@);
        }
        let ghost xv = x@;
        sorted.insert(k, x);
        proof {
            assert(sorted.deep_view() =~= sv.insert(k as int, xv));
        }
        i = i + 1;
    }
    proof {
        assert(ev.take(ev.len() as int) =~= ev);
    }
    if sorted.len() > max_edges {
        let ghost sv = sorted.deep_view();
        sorted.truncate(max_edges);
        proof {
            assert(sorted.deep_view() =~= sv.take(max_edges as int));
        }
        if !truncated {
            (sorted, true, Some(limit_message("edge limit (", max_edges)))
        } else {
            let r = match reason {
                Some(t) => {
                    let mut t = t;
                    append(&mut t, "; ");
                    let m = limit_message("edge limit (", max_edges);
                    append(&mut t, m.as_str());
                    Some(t)
                },
                None => None,
            };
            (sorted, true, r)
        }
    } else {
        (sorted, truncated, reason)
    }
}


/// The selected nodes that have a symbol row, in order, each with its
/// symbol (`symbols[i]` is the row of node `reached[i]`).
pub open spec fn nodes_with_symbols(reached: Seq<(i64, u32)>, symbols: Seq<Option<SymbolInfoV>>) -> Seq<SubgraphNodeV>
    decreases reached.len(),
{
    if reached.len() == 0 || symbols.len() == 0 {
        Seq::empty()
    } else {
        let rest = nodes_with_symbols(reached.drop_last(), symbols.drop_last());
        match symbols.last() {
            Some(sym) => rest.push(SubgraphNodeV { id: reached.last().0, symbol: sym }),
            None => rest,
        }
    }
}

/// The subgraph from its selected nodes and their symbol rows, and the
/// edges collected among them: nodes without a row are left out, the edges
/// sorted and cut to `max_edges`, the counts those of the lists.
pub fn assemble_subgraph(
    start_id: i64,
    reached: &[(i64, u32)],
    symbols: &Vec<Option<SymbolInfo>>,
    edges: &Vec<EdgeEntry>,
    max_edges: usize,
    truncated: bool,
    reason: Option<String>,
) -> (r: SubgraphResult)
    requires
        symbols.len() == reached.len(),
    ensures
        r.start_id == start_id,
        r.nodes.deep_view() == nodes_with_symbols(reached@, symbols.deep_view()),
        r.node_count == r.nodes.len(),
        (r.edges.deep_view(), r.truncated, r.truncated_reason.deep_view()) == subgraph_edges(
            edges.deep_view(),
            max_edges,
            truncated,
            reason.deep_view(),
        ),
        r.edge_count == r.edges.len(),
{
    let ghost sv = symbols.deep_view();
    let mut nodes: Vec<SubgraphNode> = Vec::new();
    let mut i: usize = 0;
    while i < reached.len()
        invariant
            i <= reached@.len(),
            symbols.len() == reached@.len(),
            sv == symbols.deep_view(),
            nodes.deep_view() == nodes_with_symbols(reached@.take(i as int), sv.take(i as int)),
        decreases reached@.len() - i,
    {
        proof {
            assert(reached@.take(i + 1).drop_last() =~= reached@.take(i as int));
            assert(sv.take(i + 1).drop_last() =~= sv.take(i as int));
            assert(reached@.take(i + 1).last() == reached@[i as int]);
            assert(sv.take(i + 1).last() == sv[i as int]);
        }
        match &symbols[i] {
            Some(sym) => {
                nodes.push(SubgraphNode { id: reached[i].0, symbol: sym.duplicate() });
                proof {
                    assert(nodes.deep_view() =~= nodes_with_symbols(reached@.take(i + 1), sv.take(i + 1)));
                }
            },
            None => {},
        }
        i = i + 1;
    }
    proof {
        assert(reached@.take(reached@.len() as int) =~= reached@);
        assert(sv.take(sv.len() as int) =~= sv);
    }
    let (kept, cut, why) = select_subgraph_edges(edges, max_edges, truncated, reason);
    let node_count = nodes.len();
    let edge_count = kept.len();
    SubgraphResult {
        start_id,
        nodes,
        edges: kept,
        node_count,
        edge_count,
        truncated: cut,
        truncated_reason: why,
    }
}

// ─── Impact traversal ───────────────────────────────────────────────

/// A symbol affected by a change.
#[derive(Debug)]
pub struct ImpactEntry {
    pub symbol: SymbolInfo,
    pub confidence: Confidence,
    pub reason: String,
}

/// Mathematical view of an [`ImpactEntry`].
pub struct ImpactEntryV {
    pub symbol: SymbolInfoV,
    pub confidence: Confidence,
    pub reason: Seq<char>,
}

impl View for ImpactEntry {
    type V = ImpactEntryV;

    open spec fn view(&self) -> ImpactEntryV {
        ImpactEntryV { symbol: self.symbol@, confidence: self.confidence, reason: self.reason@ }
    }
}

impl DeepView for ImpactEntry {
    type V = ImpactEntryV;

    open spec fn deep_view(&self) -> ImpactEntryV {
        self@
    }
}

/// One neighbour of a node, as the database lists it: its id, the edge's
/// confidence and reason, and its symbol when the id names one.
#[derive(Debug)]
pub struct Neighbor {
    pub id: i64,
    pub confidence: Confidence,
    pub reason: String,
    pub symbol: Option<SymbolInfo>,
}

/// Mathematical view of a [`Neighbor`].
pub struct NeighborV {
    pub id: i64,
    pub confidence: Confidence,
    pub reason: Seq<char>,
    pub symbol: Option<SymbolInfoV>,
}

impl View for Neighbor {
    type V = NeighborV;

    open spec fn view(&self) -> NeighborV {
        NeighborV {
            id: self.id,
            confidence: self.confidence,
            reason: self.reason@,
            symbol: match self.symbol {
                Some(s) => Some(s@),
                None => None,
            },
        }
    }
}

impl DeepView for Neighbor {
    type V = NeighborV;

    open spec fn deep_view(&self) -> NeighborV {
        self@
    }
}

/// State of an impact traversal: nodes visited, every (node, depth) ever
/// queued in the order queued, the part of that queue still to handle, and
/// the affected symbols found with their depths.
pub struct ImpactStateV {
    pub visited: Seq<i64>,
    pub order: Seq<(i64, u32)>,
    pub queue: Seq<(i64, u32)>,
    pub found: Seq<(u32, ImpactEntryV)>,
}

/// Breadth-first impact traversal from a symbol, driven by the caller: it
/// takes the node that [`ImpactWalk::next_node`] hands out, looks up its
/// neighbours (callers or callees) and hands them to [`ImpactWalk::visit`].
pub struct ImpactWalk {
    start_id: i64,
    max_depth: u32,
    visited: Vec<i64>,
    queue: Vec<(i64, u32)>,
    head: usize,
    found: Vec<(u32, ImpactEntry)>,
}

impl View for ImpactWalk {
    type V = ImpactStateV;

    closed spec fn view(&self) -> ImpactStateV {
        ImpactStateV {
            visited: self.visited@,
            order: self.queue@,
            queue: self.queue@.skip(self.head as int),
            found: self.found@.map_values(|f: (u32, ImpactEntry)| (f.0, f.1@)),
        }
    }
}

/// Drop queued nodes at or beyond the depth limit; the first one below it,
/// if any, is handed out.
pub open spec fn impact_next(s: ImpactStateV, max_depth: u32) -> (ImpactStateV, Option<(i64, u32)>)
    decreases s.queue.len(),
{
    if s.queue.len() == 0 {
        (s, None)
    } else {
        let x = s.queue[0];
        let rest = ImpactStateV { queue: s.queue.drop_first(), ..s };
        if x.1 >= max_depth {
            impact_next(rest, max_depth)
        } else {
            (rest, Some(x))
        }
    }
}

/// Visit the neighbours of a node at `depth`, in order: each one not yet
/// visited becomes visited; when it names a symbol, it is found at
/// `depth + 1` and queued.
pub open spec fn impact_visit(s: ImpactStateV, depth: u32, nbs: Seq<NeighborV>) -> ImpactStateV
    decreases nbs.len(),
{
    if nbs.len() == 0 {
        s
    } else {
        let t = impact_visit(s, depth, nbs.drop_last());
        let n = nbs.last();
        if t.visited.contains(n.id) {
            t
        } else {
            match n.symbol {
                Some(sym) => ImpactStateV {
                    visited: t.visited.push(n.id),
                    order: t.order.push((n.id, (depth + 1) as u32)),
                    queue: t.queue.push((n.id, (depth + 1) as u32)),
                    found: t.found.push(
                        ((depth + 1) as u32, ImpactEntryV { symbol: sym, confidence: n.confidence, reason: n.reason }),
                    ),
                },
                None => ImpactStateV { visited: t.visited.push(n.id), ..t },
            }
        }
    }
}

impl ImpactWalk {
    /// The queue position never passes the end of the queue.
    pub closed spec fn wf(&self) -> bool {
        self.head <= self.queue@.len()
    }

    /// The start node and the depth limit.
    pub closed spec fn limits(&self) -> (i64, u32) {
        (self.start_id, self.max_depth)
    }

    /// Start from `start_id`, at depth 0.
    pub fn new(start_id: i64, max_depth: u32) -> (r: ImpactWalk)
        ensures
            r@ == (ImpactStateV {
                visited: seq![start_id],
                order: seq![(start_id, 0u32)],
                queue: seq![(start_id, 0u32)],
                found: Seq::empty(),
            }),
            r.limits() == (start_id, max_depth),
            r.wf(),
    {
        let mut visited: Vec<i64> = Vec::new();
        visited.push(start_id);
        let mut queue: Vec<(i64, u32)> = Vec::new();
        queue.push((start_id, 0));
        let r = ImpactWalk { start_id, max_depth, visited, queue, head: 0, found: Vec::new() };
        proof {
            assert(r.queue@.skip(0) =~= seq![(start_id, 0u32)]);
            assert(r.queue@ =~= seq![(start_id, 0u32)]);
            assert(r@.found =~= Seq::<(u32, ImpactEntryV)>::empty());
        }
        r
    }

    /// The next node to expand (below the depth limit), if any.
    pub fn next_node(&mut self) -> (r: Option<(i64, u32)>)
        requires
            old(self).wf(),
        ensures
            final(self).wf(),
            (final(self)@, r) == impact_next(old(self)@, old(self).limits().1),
            final(self).limits() == old(self).limits(),
            r matches Some(x) ==> x.1 < final(self).limits().1,
    {
        loop
            invariant
                self.limits() == old(self).limits(),
                impact_next(old(self)@, old(self).limits().1) == impact_next(self@, self.limits().1),
                self.head <= self.queue@.len(),
            decreases self.queue@.len() - self.head,
        {
            if self.head >= self.queue.len() {
                proof {
                    assert(self@.queue =~= Seq::<(i64, u32)>::empty());
                }
                return None;
            }
            let x = self.queue[self.head];
            let ghost before = self@;
            proof {
                assert(before.queue[0] == x);
                assert(before.queue.drop_first() =~= self.queue@.skip(self.head + 1));
            }
            self.head = self.head + 1;
            proof {
                assert(self@ == ImpactStateV { queue: before.queue.drop_first(), ..before });
            }
            if x.1 < self.max_depth {
                return Some(x);
            }
        }
    }

    /// Visit the neighbours of a node found at `depth`.
    pub fn visit(&mut self, depth: u32, neighbors: &[Neighbor])
        requires
            depth < old(self).limits().1,
            old(self).wf(),
        ensures
            final(self).wf(),
            final(self)@ == impact_visit(old(self)@, depth, neighbors.deep_view()),
            final(self).limits() == old(self).limits(),
    {
        let ghost nv = neighbors.deep_view();
        let ghost s0 = self@;
        let mut i: usize = 0;
        while i < neighbors.len()
            invariant
                i <= nv.len(),
                nv == neighbors.deep_view(),
                depth < self.limits().1,
                self.limits() == old(self).limits(),
                s0 == old(self)@,
                self.head <= self.queue@.len(),
                self@ == impact_visit(s0, depth, nv.take(i as int)),
            decreases nv.len() - i,
        {
            let n = &neighbors[i];
            proof {
                assert(nv.take(i + 1).drop_last() =~= nv.take(i as int));
                assert(nv.take(i + 1).last() == n@);
                assert(nv[i as int] == n@);
            }
            let mut seen = false;
            let mut k: usize = 0;
            while k < self.visited.len()
                invariant
                    k <= self.visited@.len(),
                    seen == (exists|q: int| 0 <= q < k && self.visited@[q] == n.id),
                decreases self.visited@.len() - k,
            {
                if self.visited[k] == n.id {
                    seen = true;
                }
                k = k + 1;
            }
            if !seen {
                let ghost before = self@;
                self.visited.push(n.id);
                match &n.symbol {
                    Some(sym) => {
                        let d = depth + 1;
                        self.queue.push((n.id, d));
                        let e = ImpactEntry { symbol: sym.duplicate(), confidence: n.confidence, reason: n.reason.clone() };
                        self.found.push((d, e));
                        proof {
                            assert(self.queue@.skip(self.head as int) =~= before.queue.push((n.id, d)));
                            assert(self@.found =~= before.found.push((d, ImpactEntryV { symbol: sym@, confidence: n.confidence, reason: n.reason@ })));
                        }
                    },
                    None => {
                        proof {
                            assert(self@.found =~= before.found);
                        }
                    },
                }
            }
            i = i + 1;
        }
        proof {
            assert(nv.take(nv.len() as int) =~= nv);
        }
    }
}

/// What an impact traversal found.
#[derive(Debug)]
pub struct ImpactFindings {
    /// Affected symbols with their depths, in discovery order.
    pub entries: Vec<(u32, ImpactEntry)>,
    pub total_affected: usize,
    /// Ids of all visited nodes but the start, ascending.
    pub affected_ids: Vec<i64>,
    pub depth_1_count: usize,
    pub has_exported_at_d1: bool,
    pub risk: String,
}

/// `x` placed before the first larger id.
pub open spec fn insert_id(s: Seq<i64>, x: i64) -> Seq<i64>
    decreases s.len(),
{
    if s.len() == 0 {
        seq![x]
    } else if x < s[0] {
        seq![x] + s
    } else {
        seq![s[0]] + insert_id(s.drop_first(), x)
    }
}

/// Ids in ascending order.
pub open spec fn sort_ids(s: Seq<i64>) -> Seq<i64>
    decreases s.len(),
{
    if s.len() == 0 {
        s
    } else {
        insert_id(sort_ids(s.drop_last()), s.last())
    }
}

/// Every id but `x`.
pub open spec fn other_than(x: i64) -> spec_fn(i64) -> bool {
    |id: i64| id != x
}

/// Number of findings at depth 1.
pub open spec fn depth_one_count(found: Seq<(u32, ImpactEntryV)>) -> nat
    decreases found.len(),
{
    if found.len() == 0 {
        0
    } else {
        depth_one_count(found.drop_last()) + if found.last().0 == 1 {
            1nat
        } else {
            0nat
        }
    }
}

/// Some finding at depth 1 is exported.
pub open spec fn exported_at_depth_one(found: Seq<(u32, ImpactEntryV)>) -> bool {
    exists|i: int| 0 <= i < found.len() && (#[trigger] found[i]).0 == 1 && found[i].1.symbol.is_exported
}

proof fn lemma_insert_id_at(s: Seq<i64>, x: i64, k: int)
    requires
        0 <= k <= s.len(),
        forall|j: int| 0 <= j < k ==> !(x < #[trigger] s[j]),
        k < s.len() ==> x < s[k],
    ensures
        insert_id(s, x) == s.insert(k, x),
    decreases k,
{
    if k == 0 {
        if s.len() == 0 {
            assert(s.insert(0, x) =~= seq![x]);
        } else {
            assert(s.insert(0, x) =~= seq![x] + s);
        }
    } else {
        let t = s.drop_first();
        assert forall|j: int| 0 <= j < k - 1 implies !(x < #[trigger] t[j]) by {
            assert(t[j] == s[j + 1]);
        }
        if k < s.len() {
            assert(t[k - 1] == s[k]);
        }
        lemma_insert_id_at(t, x, k - 1);
        assert(s.insert(k, x) =~= seq![s[0]] + t.insert(k - 1, x));
    }
}

/// The ids in ascending order.
fn sorted_ids(v: &Vec<i64>) -> (r: Vec<i64>)
    ensures
        r@ == sort_ids(v@),
{
    let mut r: Vec<i64> = Vec::new();
    let mut i: usize = 0;
    while i < v.len()
        invariant
            i <= v@.len(),
            r@ == sort_ids(v@.take(i as int)),
        decreases v@.len() - i,
    {
        let x = v[i];
        let ghost rv = r@;
        let mut k: usize = 0;
        while k < r.len() && !(x < r[k])
            invariant
                k <= rv.len(),
                rv == r@,
                forall|q: int| 0 <= q < k ==> !(x < #[trigger] rv[q]),
            decreases rv.len() - k,
        {
            k = k + 1;
        }
        proof {
            lemma_insert_id_at(rv, x, k as int);
            assert(v@.take(i + 1).drop_last() =~= v@.take(i as int));
        }
        r.insert(k, x);
        i = i + 1;
    }
    proof {
        assert(v@.take(v@.len() as int) =~= v@);
    }
    r
}

impl ImpactWalk {
    /// The findings of the traversal.
    pub fn finish(self) -> (r: ImpactFindings)
        ensures
            r.entries@.map_values(|f: (u32, ImpactEntry)| (f.0, f.1@)) == self@.found,
            r.total_affected == self@.found.len(),
            r.affected_ids@ == sort_ids(self@.visited.filter(other_than(self.limits().0))),
            r.depth_1_count == depth_one_count(self@.found),
            r.has_exported_at_d1 == exported_at_depth_one(self@.found),
            r.risk@ == risk_level(r.has_exported_at_d1, r.total_affected, r.depth_1_count),
    {
        let ghost fv = self@.found;
        let ghost start = self.start_id;
        let mut d1: usize = 0;
        let mut exported = false;
        let mut i: usize = 0;
        while i < self.found.len()
            invariant
                i <= self.found@.len(),
                fv == self.found@.map_values(|f: (u32, ImpactEntry)| (f.0, f.1@)),
                d1 == depth_one_count(fv.take(i as int)),
                d1 <= i,
                exported == exported_at_depth_one(fv.take(i as int)),
            decreases self.found@.len() - i,
        {
            proof {
                assert(fv.take(i + 1).drop_last() =~= fv.take(i as int));
                assert(fv[i as int] == (self.found@[i as int].0, self.found@[i as int].1@));
            }
            if self.found[i].0 == 1 {
                d1 = d1 + 1;
                if self.found[i].1.symbol.is_exported {
                    exported = true;
                    proof {
                        assert(fv.take(i + 1)[i as int] == fv[i as int]);
                    }
                }
            }
            proof {
                let t = fv.take(i as int);
                let t1 = fv.take(i + 1);
                if exported_at_depth_one(t1) {
                    let q = choose|q: int| 0 <= q < t1.len() && (#[trigger] t1[q]).0 == 1 && t1[q].1.symbol.is_exported;
                    if q < i {
                        assert(t[q] == t1[q]);
                    }
                }
                if exported_at_depth_one(t) {
                    let q = choose|q: int| 0 <= q < t.len() && (#[trigger] t[q]).0 == 1 && t[q].1.symbol.is_exported;
                    assert(t1[q] == t[q]);
                }
            }
            i = i + 1;
        }
        proof {
            assert(fv.take(fv.len() as int) =~= fv);
        }
        let mut others: Vec<i64> = Vec::new();
        let ghost vv = self.visited@;
        let mut k: usize = 0;
        while k < self.visited.len()
            invariant
                k <= vv.len(),
                vv == self.visited@,
                start == self.start_id,
                others@ == vv.take(k as int).filter(other_than(start)),
            decreases vv.len() - k,
        {
            let x = self.visited[k];
            proof {
                assert(vv.take(k + 1) =~= vv.take(k as int).push(x));
                vv.take(k as int).lemma_filter_push(x, other_than(start));
            }
            if x != self.start_id {
                others.push(x);
            }
            k = k + 1;
        }
        proof {
            assert(vv.take(vv.len() as int) =~= vv);
        }
        let affected_ids = sorted_ids(&others);
        let total = self.found.len();
        let risk = compute_risk(exported, total, d1);
        ImpactFindings {
            entries: self.found,
            total_affected: total,
            affected_ids,
            depth_1_count: d1,
            has_exported_at_d1: exported,
            risk,
        }
    }
}

// ─── Subgraph edges ─────────────────────────────────────────────────

/// Edges in order: none comes before one listed ahead of it.
pub open spec fn edges_in_order(s: Seq<EdgeEntryV>) -> bool {
    forall|i: int, j: int| 0 <= i < j < s.len() ==> !edge_before(#[trigger] s[j], #[trigger] s[i])
}

proof fn lemma_edge_before_transitive(a: EdgeEntryV, b: EdgeEntryV, c: EdgeEntryV)
    requires
        edge_before(a, b),
        edge_before(b, c),
    ensures
        edge_before(a, c),
{
    if a.source_id == b.source_id && b.source_id == c.source_id && a.target_id == b.target_id && b.target_id
        == c.target_id {
        crate::text::lemma_lex_transitive(a.kind, b.kind, c.kind);
    }
}

proof fn lemma_insert_edge_props(s: Seq<EdgeEntryV>, x: EdgeEntryV)
    requires
        edges_in_order(s),
    ensures
        edges_in_order(insert_edge(s, x)),
        forall|y: EdgeEntryV| #[trigger] insert_edge(s, x).contains(y) ==> (y == x || s.contains(y)),
    decreases s.len(),
{
    let r = insert_edge(s, x);
    if s.len() == 0 {
        assert(r == seq![x]);
    } else if edge_before(x, s[0]) {
        assert(r == seq![x] + s);
        assert forall|a: int, b: int| 0 <= a < b < r.len() implies !edge_before(#[trigger] r[b], #[trigger] r[a]) by {
            if a == 0 {
                assert(r[b] == s[b - 1]);
                if edge_before(s[b - 1], x) {
                    lemma_edge_before_transitive(s[b - 1], x, s[0]);
                    if b - 1 == 0 {
                        crate::text::lemma_lex_irreflexive(s[0].kind);
                    }
                }
            } else {
                assert(r[a] == s[a - 1] && r[b] == s[b - 1]);
            }
        }
        assert forall|y: EdgeEntryV| #[trigger] r.contains(y) implies (y == x || s.contains(y)) by {
            let k = choose|k: int| 0 <= k < r.len() && r[k] == y;
            if k > 0 {
                assert(s[k - 1] == y);
            }
        }
    } else {
        let t = s.drop_first();
        assert(edges_in_order(t)) by {
            assert forall|a: int, b: int| 0 <= a < b < t.len() implies !edge_before(#[trigger] t[b], #[trigger] t[a]) by {
                assert(t[a] == s[a + 1] && t[b] == s[b + 1]);
            }
        }
        lemma_insert_edge_props(t, x);
        let rt = insert_edge(t, x);
        assert(r == seq![s[0]] + rt);
        assert forall|a: int, b: int| 0 <= a < b < r.len() implies !edge_before(#[trigger] r[b], #[trigger] r[a]) by {
            if a == 0 {
                assert(r[b] == rt[b - 1]);
                assert(rt.contains(rt[b - 1]));
                if rt[b - 1] != x {
                    let k = choose|k: int| 0 <= k < t.len() && t[k] == rt[b - 1];
                    assert(s[k + 1] == t[k]);
                }
            } else {
                assert(r[a] == rt[a - 1] && r[b] == rt[b - 1]);
            }
        }
        assert forall|y: EdgeEntryV| #[trigger] r.contains(y) implies (y == x || s.contains(y)) by {
            let k = choose|k: int| 0 <= k < r.len() && r[k] == y;
            if k == 0 {
                assert(s[0] == y);
            } else {
                assert(rt[k - 1] == y);
                assert(rt.contains(y));
                if y != x {
                    let m = choose|m: int| 0 <= m < t.len() && t[m] == y;
                    assert(s[m + 1] == y);
                }
            }
        }
    }
}

proof fn lemma_sort_edges_props(s: Seq<EdgeEntryV>)
    ensures
        edges_in_order(sort_edges(s)),
        forall|y: EdgeEntryV| #[trigger] sort_edges(s).contains(y) ==> s.contains(y),
    decreases s.len(),
{
    if s.len() > 0 {
        let t = s.drop_last();
        lemma_sort_edges_props(t);
        lemma_insert_edge_props(sort_edges(t), s.last());
        assert(s[s.len() - 1] == s.last());
        assert forall|y: EdgeEntryV| #[trigger] sort_edges(s).contains(y) implies s.contains(y) by {
            if y != s.last() {
                assert(sort_edges(t).contains(y));
                let k = choose|k: int| 0 <= k < t.len() && t[k] == y;
                assert(s[k] == y);
            }
        }
    }
}

/// A subgraph's edges are edges it was given (those that the node filter
/// let through), each once as given, in order of source, target and kind.
pub proof fn law_subgraph_edges_from_input(
    edges: Seq<EdgeEntryV>,
    max_edges: usize,
    truncated: bool,
    reason: Option<Seq<char>>,
)
    ensures
        edges_in_order(subgraph_edges(edges, max_edges, truncated, reason).0),
        forall|i: int|
            0 <= i < subgraph_edges(edges, max_edges, truncated, reason).0.len() ==> edges.contains(
                #[trigger] subgraph_edges(edges, max_edges, truncated, reason).0[i],
            ),
{
    lemma_sort_edges_props(edges);
    let s = sort_edges(edges);
    let r = subgraph_edges(edges, max_edges, truncated, reason).0;
    assert forall|i: int| 0 <= i < r.len() implies edges.contains(#[trigger] r[i]) by {
        assert(r[i] == s[i]);
        assert(s.contains(s[i]));
    }
    assert forall|a: int, b: int| 0 <= a < b < r.len() implies !edge_before(#[trigger] r[b], #[trigger] r[a]) by {
        assert(r[a] == s[a] && r[b] == s[b]);
    }
}

// ─── Grouped search ─────────────────────────────────────────────────

/// A search hit: symbol row id, symbol, and its score as an order key
/// (larger key, better score).
#[derive(Debug)]
pub struct Hit {
    pub id: i64,
    pub symbol: SymbolInfo,
    pub score_key: u64,
}

/// Mathematical view of a [`Hit`].
pub struct HitV {
    pub id: i64,
    pub symbol: SymbolInfoV,
    pub score_key: u64,
}

impl View for Hit {
    type V = HitV;

    open spec fn view(&self) -> HitV {
        HitV { id: self.id, symbol: self.symbol@, score_key: self.score_key }
    }
}

impl DeepView for Hit {
    type V = HitV;

    open spec fn deep_view(&self) -> HitV {
        self@
    }
}

impl Hit {
    /// A copy of the hit.
    pub fn duplicate(&self) -> (r: Hit)
        ensures
            r@ == self@,
    {
        Hit { id: self.id, symbol: self.symbol.duplicate(), score_key: self.score_key }
    }
}

/// One step row of a process containing a hit: symbol id, process id,
/// process label and type, and the step's index.
#[derive(Debug)]
pub struct StepRow {
    pub symbol_id: i64,
    pub process_id: i64,
    pub label: String,
    pub process_type: String,
    pub step_index: i64,
}

/// Mathematical view of a [`StepRow`].
pub struct StepRowV {
    pub symbol_id: i64,
    pub process_id: i64,
    pub label: Seq<char>,
    pub process_type: Seq<char>,
    pub step_index: i64,
}

impl View for StepRow {
    type V = StepRowV;

    open spec fn view(&self) -> StepRowV {
        StepRowV {
            symbol_id: self.symbol_id,
            process_id: self.process_id,
            label: self.label@,
            process_type: self.process_type@,
            step_index: self.step_index,
        }
    }
}

impl DeepView for StepRow {
    type V = StepRowV;

    open spec fn deep_view(&self) -> StepRowV {
        self@
    }
}

/// A hit inside a process, with the step it occupies.
#[derive(Debug)]
pub struct ProcessedSymbol {
    pub symbol: SymbolInfo,
    pub score_key: u64,
    pub step_index: i64,
}

/// Hits grouped under one process.
#[derive(Debug)]
pub struct ProcessGroup {
    pub id: i64,
    pub label: String,
    pub process_type: String,
    pub matched_symbols: Vec<ProcessedSymbol>,
}

/// Mathematical view of a [`ProcessGroup`].
pub struct ProcessGroupV {
    pub id: i64,
    pub label: Seq<char>,
    pub process_type: Seq<char>,
    pub matched_symbols: Seq<(SymbolInfoV, u64, i64)>,
}

impl View for ProcessGroup {
    type V = ProcessGroupV;

    open spec fn view(&self) -> ProcessGroupV {
        ProcessGroupV {
            id: self.id,
            label: self.label@,
            process_type: self.process_type@,
            matched_symbols: self.matched_symbols@.map_values(
                |m: ProcessedSymbol| (m.symbol@, m.score_key, m.step_index),
            ),
        }
    }
}

impl DeepView for ProcessGroup {
    type V = ProcessGroupV;

    open spec fn deep_view(&self) -> ProcessGroupV {
        self@
    }
}

/// Search hits grouped by execution process.
#[derive(Debug)]
pub struct GroupedHits {
    pub processes: Vec<ProcessGroup>,
    /// Hits in no process, best score first (then smaller id).
    pub definitions: Vec<Hit>,
    pub total: usize,
}

/// Mathematical view of [`GroupedHits`].
pub struct GroupedHitsV {
    pub processes: Seq<ProcessGroupV>,
    pub definitions: Seq<HitV>,
    pub total: usize,
}

impl View for GroupedHits {
    type V = GroupedHitsV;

    open spec fn view(&self) -> GroupedHitsV {
        GroupedHitsV {
            processes: self.processes.deep_view(),
            definitions: self.definitions.deep_view(),
            total: self.total,
        }
    }
}

/// The last hit with row id `id` (a later hit replaces an earlier one).
pub open spec fn hit_for(hits: Seq<HitV>, id: i64) -> Option<HitV>
    decreases hits.len(),
{
    if hits.len() == 0 {
        None
    } else if hits.last().id == id {
        Some(hits.last())
    } else {
        hit_for(hits.drop_last(), id)
    }
}

/// Position of the group of process `pid`, or the length.
pub open spec fn group_pos(gs: Seq<ProcessGroupV>, pid: i64) -> int
    decreases gs.len(),
{
    if gs.len() == 0 {
        0
    } else if gs[0].id == pid {
        0
    } else {
        1 + group_pos(gs.drop_first(), pid)
    }
}

/// Groups after the step rows, in order: a process gets a group at its
/// first row (label and type from that row); a row whose symbol is a hit
/// adds that hit to its process's group.
pub open spec fn group_rows(hits: Seq<HitV>, rows: Seq<StepRowV>) -> Seq<ProcessGroupV>
    decreases rows.len(),
{
    if rows.len() == 0 {
        Seq::empty()
    } else {
        let gs = group_rows(hits, rows.drop_last());
        let row = rows.last();
        let p = group_pos(gs, row.process_id);
        let gs1 = if p < gs.len() {
            gs
        } else {
            gs.push(ProcessGroupV { id: row.process_id, label: row.label, process_type: row.process_type, matched_symbols: Seq::empty() })
        };
        let p1 = group_pos(gs1, row.process_id);
        match hit_for(hits, row.symbol_id) {
            Some(h) => gs1.update(
                p1,
                ProcessGroupV { matched_symbols: gs1[p1].matched_symbols.push((h.symbol, h.score_key, row.step_index)), ..gs1[p1] },
            ),
            None => gs1,
        }
    }
}

/// Some row places symbol `id` in a process.
pub open spec fn in_some_process(rows: Seq<StepRowV>, id: i64) -> bool {
    exists|i: int| 0 <= i < rows.len() && (#[trigger] rows[i]).symbol_id == id
}

/// Hits in no process, one per row id (the last hit of that id), in order
/// of first occurrence.
pub open spec fn unplaced_hits(hits: Seq<HitV>, rows: Seq<StepRowV>, upto: nat) -> Seq<HitV>
    decreases upto,
{
    if upto == 0 {
        Seq::empty()
    } else {
        let r = unplaced_hits(hits, rows, (upto - 1) as nat);
        let id = hits[upto - 1].id;
        if !in_some_process(rows, id) && !r.map_values(|h: HitV| h.id).contains(id) {
            r.push(hit_for(hits, id)->0)
        } else {
            r
        }
    }
}

/// `a` comes before `b`: higher score, then smaller id.
pub open spec fn hit_before(a: HitV, b: HitV) -> bool {
    a.score_key > b.score_key || (a.score_key == b.score_key && a.id < b.id)
}

/// `x` placed before the first hit it comes before.
pub open spec fn insert_hit(s: Seq<HitV>, x: HitV) -> Seq<HitV>
    decreases s.len(),
{
    if s.len() == 0 {
        seq![x]
    } else if hit_before(x, s[0]) {
        seq![x] + s
    } else {
        seq![s[0]] + insert_hit(s.drop_first(), x)
    }
}

/// Hits by score (best first), then id (stable).
pub open spec fn sort_hits(s: Seq<HitV>) -> Seq<HitV>
    decreases s.len(),
{
    if s.len() == 0 {
        s
    } else {
        insert_hit(sort_hits(s.drop_last()), s.last())
    }
}

proof fn lemma_insert_hit_at(s: Seq<HitV>, x: HitV, k: int)
    requires
        0 <= k <= s.len(),
        forall|j: int| 0 <= j < k ==> !hit_before(x, #[trigger] s[j]),
        k < s.len() ==> hit_before(x, s[k]),
    ensures
        insert_hit(s, x) == s.insert(k, x),
    decreases k,
{
    if k == 0 {
        if s.len() == 0 {
            assert(s.insert(0, x) =~= seq![x]);
        } else {
            assert(s.insert(0, x) =~= seq![x] + s);
        }
    } else {
        let t = s.drop_first();
        assert forall|j: int| 0 <= j < k - 1 implies !hit_before(x, #[trigger] t[j]) by {
            assert(t[j] == s[j + 1]);
        }
        if k < s.len() {
            assert(t[k - 1] == s[k]);
        }
        lemma_insert_hit_at(t, x, k - 1);
        assert(s.insert(k, x) =~= seq![s[0]] + t.insert(k - 1, x));
    }
}

/// Position of the last hit with row id `id`.
fn last_hit(hits: &[Hit], id: i64) -> (r: Option<usize>)
    ensures
        match r {
            Some(k) => k < hits@.len() && hit_for(hits.deep_view(), id) == Some(hits@[k as int]@),
            None => hit_for(hits.deep_view(), id) is None,
        },
{
    let ghost hv = hits.deep_view();
    let mut j: usize = hits.len();
    proof {
        assert(hv.take(hv.len() as int) =~= hv);
    }
    while j > 0
        invariant
            j <= hv.len(),
            hv == hits.deep_view(),
            hit_for(hv, id) == hit_for(hv.take(j as int), id),
        decreases j,
    {
        proof {
            assert(hv.take(j as int).drop_last() =~= hv.take(j - 1));
            assert(hv.take(j as int).last() == hits@[j - 1]@);
        }
        if hits[j - 1].id == id {
            return Some(j - 1);
        }
        j = j - 1;
    }
    proof {
        assert(hv.take(0) =~= Seq::<HitV>::empty());
    }
    None
}

/// BM25 hits grouped by execution process: hits that are steps of a
/// process appear under that process (processes in row order); the others
/// are listed as definitions, best score first.
pub fn group_hits(hits: &[Hit], rows: &[StepRow]) -> (r: GroupedHits)
    ensures
        r.processes.deep_view() == group_rows(hits.deep_view(), rows.deep_view()),
        r.definitions.deep_view() == sort_hits(unplaced_hits(hits.deep_view(), rows.deep_view(), hits@.len() as nat)),
        r.total == hits@.len(),
{
    let ghost hv = hits.deep_view();
    let ghost rv = rows.deep_view();
    // Groups.
    let mut groups: Vec<ProcessGroup> = Vec::new();
    let mut i: usize = 0;
    while i < rows.len()
        invariant
            i <= rv.len(),
            hv == hits.deep_view(),
            rv == rows.deep_view(),
            groups.deep_view() == group_rows(hv, rv.take(i as int)),
        decreases rv.len() - i,
    {
        let row = &rows[i];
        proof {
            assert(rv.take(i + 1).drop_last() =~= rv.take(i as int));
            assert(rv.take(i + 1).last() == row@);
        }
        let ghost g0 = groups.deep_view();
        let mut p: usize = 0;
        proof {
            assert(g0.skip(0) =~= g0);
        }
        while p < groups.len() && groups[p].id != row.process_id
            invariant
                p <= g0.len(),
                g0 == groups.deep_view(),
                group_pos(g0, row.process_id) == p + group_pos(g0.skip(p as int), row.process_id),
            decreases g0.len() - p,
        {
            proof {
                assert(g0.skip(p as int).drop_first() =~= g0.skip(p + 1));
                assert(g0[p as int] == groups@[p as int]@);
            }
            p = p + 1;
        }
        proof {
            if p == g0.len() {
                assert(g0.skip(p as int) =~= Seq::<ProcessGroupV>::empty());
            } else {
                assert(g0[p as int] == groups@[p as int]@);
                assert(g0.skip(p as int)[0] == g0[p as int]);
            }
            assert(group_pos(g0, row.process_id) == p);
        }
        if p == groups.len() {
            let g = ProcessGroup {
                id: row.process_id,
                label: row.label.clone(),
                process_type: row.process_type.clone(),
                matched_symbols: Vec::new(),
            };
            let ghost gv = g@;
            groups.push(g);
            proof {
                assert(gv.matched_symbols =~= Seq::<(SymbolInfoV, u64, i64)>::empty());
                assert(groups.deep_view() =~= g0.push(gv));
                lemma_group_pos_last(g0, row.process_id);
            }
        }
        let ghost g1 = groups.deep_view();
        match last_hit(hits, row.symbol_id) {
            Some(k) => {
                let ps = ProcessedSymbol {
                    symbol: hits[k].symbol.duplicate(),
                    score_key: hits[k].score_key,
                    step_index: row.step_index,
                };
                let ghost gp = groups@[p as int]@;
                let ghost psv = (ps.symbol@, ps.score_key, ps.step_index);
                groups[p].matched_symbols.push(ps);
                proof {
                    assert(groups@[p as int]@.matched_symbols =~= gp.matched_symbols.push(psv));
                    assert(groups@[p as int]@ == ProcessGroupV { matched_symbols: gp.matched_symbols.push(psv), ..gp });
                    assert(groups.deep_view() =~= g1.update(p as int, groups@[p as int]@));
                    let gs = group_rows(hv, rv.take(i as int));
                    assert(gs == g0);
                    assert(group_pos(g1, row.process_id) == p);
                    assert(g1[p as int] == gp);
                    assert(hit_for(hv, row.symbol_id) == Some(hits@[k as int]@));
                    assert(groups.deep_view() =~= group_rows(hv, rv.take(i + 1)));
                }
            },
            None => {
                proof {
                    assert(group_pos(g1, row.process_id) == p);
                    assert(groups.deep_view() =~= group_rows(hv, rv.take(i + 1)));
                }
            },
        }
        i = i + 1;
    }
    proof {
        assert(rv.take(rv.len() as int) =~= rv);
    }
    // Definitions.
    let mut defs: Vec<Hit> = Vec::new();
    let mut j: usize = 0;
    while j < hits.len()
        invariant
            j <= hv.len(),
            hv == hits.deep_view(),
            rv == rows.deep_view(),
            defs.deep_view() == unplaced_hits(hv, rv, j as nat),
        decreases hv.len() - j,
    {
        let id = hits[j].id;
        proof {
            assert(hv[j as int].id == id);
        }
        let mut placed = false;
        let mut q: usize = 0;
        while q < rows.len()
            invariant
                q <= rv.len(),
                rv == rows.deep_view(),
                placed == (exists|x: int| 0 <= x < q && (#[trigger] rv[x]).symbol_id == id),
            decreases rv.len() - q,
        {
            proof {
                assert(rv[q as int] == rows@[q as int]@);
            }
            if rows[q].symbol_id == id {
                placed = true;
            }
            q = q + 1;
        }
        let mut listed = false;
        let mut q: usize = 0;
        while q < defs.len()
            invariant
                q <= defs@.len(),
                listed == (exists|x: int| 0 <= x < q && (#[trigger] defs@[x]).id == id),
            decreases defs@.len() - q,
        {
            if defs[q].id == id {
                listed = true;
            }
            q = q + 1;
        }
        proof {
            let ids = defs.deep_view().map_values(|h: HitV| h.id);
            if listed {
                let x = choose|x: int| 0 <= x < defs@.len() && (#[trigger] defs@[x]).id == id;
                assert(ids[x] == id);
            }
            if ids.contains(id) {
                let x = choose|x: int| 0 <= x < ids.len() && ids[x] == id;
                assert(defs@[x].id == id);
            }
        }
        if !placed && !listed {
            match last_hit(hits, id) {
                Some(k) => {
                    let ghost before = defs.deep_view();
                    let h = hits[k].duplicate();
                    let ghost h_v = h@;
                    defs.push(h);
                    proof {
                        assert(defs.deep_view() =~= before.push(h_v));
                    }
                },
                None => {
                    proof {
                        lemma_hit_for_present(hv, j as int);
                    }
                },
            }
        }
        j = j + 1;
    }
    // Sort definitions.
    let ghost dv = defs.deep_view();
    let mut sorted: Vec<Hit> = Vec::new();
    let mut i: usize = 0;
    while i < defs.len()
        invariant
            i <= dv.len(),
            dv == defs.deep_view(),
            sorted.deep_view() == sort_hits(dv.take(i as int)),
        decreases dv.len() - i,
    {
        let x = defs[i].duplicate();
        let ghost sv = sorted.deep_view();
        let mut k: usize = 0;
        while k < sorted.len() && !(x.score_key > sorted[k].score_key || (x.score_key == sorted[k].score_key
            && x.id < sorted[k].id))
            invariant
                k <= sv.len(),
                sv == sorted.deep_view(),
                forall|q: int| 0 <= q < k ==> !hit_before(x@, #[trigger] sv[q]),
            decreases sv.len() - k,
        {
            proof {
                assert(sv[k as int] == sorted@[k as int]@);
            }
            k = k + 1;
        }
        proof {
            if k < sv.len() {
                assert(sv[k as int] == sorted@[k as int]@);
            }
            lemma_insert_hit_at(sv, x@, k as int);
            assert(dv.take(i + 1).drop_last() =~= dv.take(i as int));
            assert(dv[i as int] == defs@[i as int]@);
        }
        let ghost xv = x@;
        sorted.insert(k, x);
        proof {
            assert(sorted.deep_view() =~= sv.insert(k as int, xv));
        }
        i = i + 1;
    }
    proof {
        assert(dv.take(dv.len() as int) =~= dv);
    }
    GroupedHits { processes: groups, definitions: sorted, total: hits.len() }
}

proof fn lemma_group_pos_last(gs: Seq<ProcessGroupV>, pid: i64)
    requires
        group_pos(gs, pid) == gs.len(),
    ensures
        forall|g: ProcessGroupV| g.id == pid ==> #[trigger] group_pos(gs.push(g), pid) == gs.len(),
    decreases gs.len(),
{
    if gs.len() > 0 {
        assert(gs[0].id != pid);
        lemma_group_pos_last(gs.drop_first(), pid);
        assert forall|g: ProcessGroupV| g.id == pid implies #[trigger] group_pos(gs.push(g), pid) == gs.len() by {
            assert(gs.push(g)[0] == gs[0]);
            assert(gs.push(g).drop_first() =~= gs.drop_first().push(g));
            assert(group_pos(gs.drop_first().push(g), pid) == gs.len() - 1);
        }
    } else {
        assert forall|g: ProcessGroupV| g.id == pid implies #[trigger] group_pos(gs.push(g), pid) == gs.len() by {
            assert(gs.push(g)[0] == g);
        }
    }
}

proof fn lemma_hit_for_present(hv: Seq<HitV>, j: int)
    requires
        0 <= j < hv.len(),
    ensures
        hit_for(hv, hv[j].id) is Some,
    decreases hv.len(),
{
    if hv.last().id != hv[j].id {
        assert(j < hv.len() - 1);
        assert(hv.drop_last()[j] == hv[j]);
        lemma_hit_for_present(hv.drop_last(), j);
    }
}

// ─── Context and data-flow symbol resolution ───────────────────────

/// Outcome of resolving a symbol for a context query.
#[derive(Debug)]
pub enum ContextDecision {
    NotFound(String),
    Unique(SymbolInfo),
    Ambiguous(String, Vec<SymbolInfo>),
}

/// Mathematical view of a [`ContextDecision`].
pub enum ContextDecisionV {
    NotFound(Seq<char>),
    Unique(SymbolInfoV),
    Ambiguous(Seq<char>, Seq<SymbolInfoV>),
}

impl View for ContextDecision {
    type V = ContextDecisionV;

    open spec fn view(&self) -> ContextDecisionV {
        match self {
            ContextDecision::NotFound(m) => ContextDecisionV::NotFound(m@),
            ContextDecision::Unique(s) => ContextDecisionV::Unique(s@),
            ContextDecision::Ambiguous(m, c) => ContextDecisionV::Ambiguous(m@, c.deep_view()),
        }
    }
}

/// Most candidates listed for an ambiguous name.
pub const CONTEXT_LIMIT: usize = 50;

/// The decision for the symbols named `name` in `file`.
pub open spec fn name_file_decision(name: Seq<char>, file: Seq<char>, c: Seq<SymbolInfoV>) -> ContextDecisionV {
    if c.len() == 0 {
        ContextDecisionV::NotFound("Symbol '"@ + name + "' not found in '"@ + file + "'"@)
    } else if c.len() == 1 {
        ContextDecisionV::Unique(c[0])
    } else {
        ContextDecisionV::Ambiguous(
            "Symbol '"@ + name + "' in '"@ + file + "' matches "@ + decimal(c.len()) + " entries. Use context --uid \"<uid>\" to select a specific symbol."@,
            c,
        )
    }
}

/// The decision for the symbols named `name` (fetched up to one more than
/// the limit, to tell whether there are more).
pub open spec fn name_decision(name: Seq<char>, fetched: Seq<SymbolInfoV>) -> ContextDecisionV {
    let truncated = fetched.len() > CONTEXT_LIMIT;
    let c = if truncated {
        fetched.take(CONTEXT_LIMIT as int)
    } else {
        fetched
    };
    if c.len() == 0 {
        ContextDecisionV::NotFound("Symbol '"@ + name + "' not found"@)
    } else if c.len() == 1 {
        ContextDecisionV::Unique(c[0])
    } else if truncated {
        ContextDecisionV::Ambiguous(
            "Symbol '"@ + name + "' matches more than 50 entries (showing first 50). Use --uid or --file for zero-ambiguity lookup."@,
            c,
        )
    } else {
        ContextDecisionV::Ambiguous("Multiple symbols match '"@ + name + "'. Use uid for exact lookup."@, c)
    }
}

/// Decide on the symbols named `name` in `file`.
pub fn decide_by_name_file(name: &str, file: &str, candidates: Vec<SymbolInfo>) -> (r: ContextDecision)
    ensures
        r@ == name_file_decision(name@, file@, candidates.deep_view()),
{
    let n = candidates.len();
    if n == 0 {
        let mut m = owned("Symbol '");
        append(&mut m, name);
        append(&mut m, "' not found in '");
        append(&mut m, file);
        append(&mut m, "'");
        ContextDecision::NotFound(m)
    } else if n == 1 {
        let c = candidates[0].duplicate();
        ContextDecision::Unique(c)
    } else {
        let mut m = owned("Symbol '");
        append(&mut m, name);
        append(&mut m, "' in '");
        append(&mut m, file);
        append(&mut m, "' matches ");
        push_decimal(&mut m, n);
        append(&mut m, " entries. Use context --uid \"<uid>\" to select a specific symbol.");
        ContextDecision::Ambiguous(m, candidates)
    }
}

/// The symbol named `name` in `file`, among those fetched for it (by id, two
/// at most): none, the only one, or an error when more than one is.
pub fn single_by_name_file(name: &str, file: &str, found: Vec<(i64, SymbolInfo)>) -> (r: Result<
    Option<(i64, SymbolInfo)>,
    QueryError,
>)
    ensures
        found@.len() == 0 ==> r matches Ok(None),
        found@.len() == 1 ==> (r matches Ok(Some(x)) && x.0 == found@[0].0 && x.1@ == found@[0].1@),
        found@.len() >= 2 ==> (r matches Err(QueryError::AmbiguousSymbol(n, f)) && n@ == name@ && f@ == file@),
{
    if found.len() >= 2 {
        return Err(QueryError::AmbiguousSymbol(owned(name), owned(file)));
    }
    if found.len() == 1 {
        let mut f = found;
        let x = f.pop().unwrap();
        return Ok(Some(x));
    }
    Ok(None)
}

/// Decide on the symbols named `name`, fetched up to one more than the limit.
pub fn decide_by_name(name: &str, fetched: Vec<SymbolInfo>) -> (r: ContextDecision)
    ensures
        r@ == name_decision(name@, fetched.deep_view()),
{
    let ghost fv = fetched.deep_view();
    let truncated = fetched.len() > CONTEXT_LIMIT;
    let mut c = fetched;
    if truncated {
        c.truncate(CONTEXT_LIMIT);
        proof {
            assert(c.deep_view() =~= fv.take(CONTEXT_LIMIT as int));
        }
    }
    let n = c.len();
    if n == 0 {
        let mut m = owned("Symbol '");
        append(&mut m, name);
        append(&mut m, "' not found");
        ContextDecision::NotFound(m)
    } else if n == 1 {
        let s = c[0].duplicate();
        ContextDecision::Unique(s)
    } else if truncated {
        let mut m = owned("Symbol '");
        append(&mut m, name);
        append(&mut m, "' matches more than 50 entries (showing first 50). Use --uid or --file for zero-ambiguity lookup.");
        ContextDecision::Ambiguous(m, c)
    } else {
        let mut m = owned("Multiple symbols match '");
        append(&mut m, name);
        append(&mut m, "'. Use uid for exact lookup.");
        ContextDecision::Ambiguous(m, c)
    }
}

/// Message for a UID that names no symbol.
pub fn uid_not_found_message(uid: &str) -> (r: String)
    ensures
        r@ == "No symbol found with uid '"@ + uid@ + "'"@,
{
    let mut m = owned("No symbol found with uid '");
    append(&mut m, uid);
    append(&mut m, "'");
    m
}

/// Candidates of a function or method kind.
pub open spec fn callable_candidates(c: Seq<SymbolInfoV>) -> Seq<SymbolInfoV> {
    c.filter(|s: SymbolInfoV| s.kind == "Function"@ || s.kind == "Method"@)
}

/// The symbol whose data flows are asked for, among the (up to ten)
/// symbols of that name: the only one; else the only function or method
/// among them; else an error message.
pub open spec fn dataflow_choice(name: Seq<char>, c: Seq<SymbolInfoV>) -> Result<SymbolInfoV, Seq<char>> {
    if c.len() == 0 {
        Err("symbol not found: "@ + name)
    } else if c.len() == 1 {
        Ok(c[0])
    } else if callable_candidates(c).len() == 1 {
        Ok(callable_candidates(c)[0])
    } else {
        Err(
            "ambiguous symbol '"@ + name + "' ("@ + decimal(c.len()) + " matches). Use --file or --uid to disambiguate."@,
        )
    }
}

/// Choose the symbol for a data-flow query among the symbols named `name`.
pub fn choose_dataflow_symbol(name: &str, candidates: &Vec<SymbolInfo>) -> (r: Result<SymbolInfo, String>)
    ensures
        match dataflow_choice(name@, candidates.deep_view()) {
            Ok(s) => r is Ok && r->Ok_0@ == s,
            Err(m) => r is Err && r->Err_0@ == m,
        },
{
    let ghost cv = candidates.deep_view();
    let n = candidates.len();
    if n == 0 {
        let mut m = owned("symbol not found: ");
        append(&mut m, name);
        return Err(m);
    }
    if n == 1 {
        return Ok(candidates[0].duplicate());
    }
    let ghost pred = |s: SymbolInfoV| s.kind == "Function"@ || s.kind == "Method"@;
    let mut funcs: Vec<usize> = Vec::new();
    let mut i: usize = 0;
    while i < n
        invariant
            i <= n,
            n == cv.len(),
            cv == candidates.deep_view(),
            pred == (|s: SymbolInfoV| s.kind == "Function"@ || s.kind == "Method"@),
            funcs@.len() == cv.take(i as int).filter(pred).len(),
            forall|q: int| 0 <= q < funcs@.len() ==> (#[trigger] funcs@[q]) < i,
            funcs@.len() > 0 ==> cv[funcs@[0] as int] == cv.take(i as int).filter(pred)[0],
        decreases n - i,
    {
        proof {
            assert(cv.take(i + 1) =~= cv.take(i as int).push(cv[i as int]));
            cv.take(i as int).lemma_filter_push(cv[i as int], pred);
            assert(cv[i as int] == candidates@[i as int]@);
        }
        let k = &candidates[i].kind;
        if str_eq(k.as_str(), "Function") || str_eq(k.as_str(), "Method") {
            funcs.push(i);
        }
        i = i + 1;
    }
    proof {
        assert(cv.take(n as int) =~= cv);
    }
    if funcs.len() == 1 {
        proof {
            assert(cv[funcs@[0] as int] == candidates@[funcs@[0] as int]@);
        }
        Ok(candidates[funcs[0]].duplicate())
    } else {
        let mut m = owned("ambiguous symbol '");
        append(&mut m, name);
        append(&mut m, "' (");
        push_decimal(&mut m, n);
        append(&mut m, " matches). Use --file or --uid to disambiguate.");
        Err(m)
    }
}

// ─── Hybrid search fusion ───────────────────────────────────────────

/// A reciprocal-rank-fusion score, the exact fraction `num / den`.
#[derive(Debug, Clone, Copy, PartialEq, Eq, Structural)]
pub struct RrfScore {
    pub num: u128,
    pub den: u128,
}

/// Reciprocal rank fusion: `1/(k + r + 1)` for each list the item is
/// ranked in (0-based rank `r`), summed.
pub open spec fn rrf(bm25_rank: Option<usize>, vec_rank: Option<usize>, k: usize) -> RrfScore {
    match (bm25_rank, vec_rank) {
        (None, None) => RrfScore { num: 0, den: 1 },
        (Some(r), None) => RrfScore { num: 1, den: (k + r + 1) as u128 },
        (None, Some(r)) => RrfScore { num: 1, den: (k + r + 1) as u128 },
        (Some(a), Some(b)) => RrfScore {
            num: ((k + a + 1) + (k + b + 1)) as u128,
            den: ((k + a + 1) * (k + b + 1)) as u128,
        },
    }
}

/// The fused score of an item from its ranks.
pub fn rrf_score(bm25_rank: Option<usize>, vec_rank: Option<usize>, k: usize) -> (r: RrfScore)
    requires
        bm25_rank matches Some(a) ==> k + a + 1 <= usize::MAX,
        vec_rank matches Some(b) ==> k + b + 1 <= usize::MAX,
    ensures
        r == rrf(bm25_rank, vec_rank, k),
{
    match (bm25_rank, vec_rank) {
        (None, None) => RrfScore { num: 0, den: 1 },
        (Some(r), None) => RrfScore { num: 1, den: (k + r + 1) as u128 },
        (None, Some(r)) => RrfScore { num: 1, den: (k + r + 1) as u128 },
        (Some(a), Some(b)) => {
            let x = (k + a + 1) as u128;
            let y = (k + b + 1) as u128;
            proof {
                assert(x * y <= 0xFFFF_FFFF_FFFF_FFFFu128 * 0xFFFF_FFFF_FFFF_FFFFu128) by (nonlinear_arith)
                    requires
                        x <= 0xFFFF_FFFF_FFFF_FFFFu128,
                        y <= 0xFFFF_FFFF_FFFF_FFFFu128,
                ;
            }
            RrfScore { num: x + y, den: x * y }
        },
    }
}

/// Rank (position of the last occurrence) of `id` in a result list.
pub open spec fn rank_of(ids: Seq<i64>, id: i64) -> Option<usize>
    decreases ids.len(),
{
    if ids.len() == 0 {
        None
    } else if ids.last() == id {
        Some((ids.len() - 1) as usize)
    } else {
        rank_of(ids.drop_last(), id)
    }
}

/// The BM25 ids, then the vector ids that BM25 did not find.
pub open spec fn fused_ids(bm25: Seq<i64>, vecs: Seq<i64>) -> Seq<i64> {
    bm25 + vecs.filter(|id: i64| !bm25.contains(id))
}

/// `a` ranks before `b`: larger fused score, then smaller id.
pub open spec fn fused_before(a: (i64, RrfScore), b: (i64, RrfScore)) -> bool {
    a.1.num * b.1.den > b.1.num * a.1.den || (a.1.num * b.1.den == b.1.num * a.1.den && a.0 < b.0)
}

/// `x` placed before the first item it ranks before.
pub open spec fn insert_fused(s: Seq<(i64, RrfScore)>, x: (i64, RrfScore)) -> Seq<(i64, RrfScore)>
    decreases s.len(),
{
    if s.len() == 0 {
        seq![x]
    } else if fused_before(x, s[0]) {
        seq![x] + s
    } else {
        seq![s[0]] + insert_fused(s.drop_first(), x)
    }
}

/// Items by fused score (stable).
pub open spec fn sort_fused(s: Seq<(i64, RrfScore)>) -> Seq<(i64, RrfScore)>
    decreases s.len(),
{
    if s.len() == 0 {
        s
    } else {
        insert_fused(sort_fused(s.drop_last()), s.last())
    }
}

/// How a hybrid search combines its two result lists.
#[derive(Debug)]
pub enum HybridPlan {
    /// Neither search found anything.
    Empty,
    /// BM25 found nothing: the vector results are the answer.
    VectorOnly,
    /// Fused ranking: ids with their fused scores, best first.
    Fused(Vec<(i64, RrfScore)>),
}

/// The fused ranking of the two result lists, cut to `limit` (`k` = 60).
pub open spec fn fused_ranking(bm25: Seq<i64>, vecs: Seq<i64>, limit: usize) -> Seq<(i64, RrfScore)> {
    let all = fused_ids(bm25, vecs);
    let scored = all.map_values(|id: i64| (id, rrf(rank_of(bm25, id), rank_of(vecs, id), 60)));
    let sorted = sort_fused(scored);
    if sorted.len() > limit {
        sorted.take(limit as int)
    } else {
        sorted
    }
}

proof fn lemma_insert_fused_at(s: Seq<(i64, RrfScore)>, x: (i64, RrfScore), k: int)
    requires
        0 <= k <= s.len(),
        forall|j: int| 0 <= j < k ==> !fused_before(x, #[trigger] s[j]),
        k < s.len() ==> fused_before(x, s[k]),
    ensures
        insert_fused(s, x) == s.insert(k, x),
    decreases k,
{
    if k == 0 {
        if s.len() == 0 {
            assert(s.insert(0, x) =~= seq![x]);
        } else {
            assert(s.insert(0, x) =~= seq![x] + s);
        }
    } else {
        let t = s.drop_first();
        assert forall|j: int| 0 <= j < k - 1 implies !fused_before(x, #[trigger] t[j]) by {
            assert(t[j] == s[j + 1]);
        }
        if k < s.len() {
            assert(t[k - 1] == s[k]);
        }
        lemma_insert_fused_at(t, x, k - 1);
        assert(s.insert(k, x) =~= seq![s[0]] + t.insert(k - 1, x));
    }
}

/// Rank of `id` in `ids` (last occurrence).
fn find_rank(ids: &[i64], id: i64) -> (r: Option<usize>)
    ensures
        r == rank_of(ids@, id),
        r matches Some(x) ==> x < ids@.len(),
{
    let mut j: usize = ids.len();
    proof {
        assert(ids@.take(ids@.len() as int) =~= ids@);
    }
    while j > 0
        invariant
            j <= ids@.len(),
            rank_of(ids@, id) == rank_of(ids@.take(j as int), id),
        decreases j,
    {
        proof {
            assert(ids@.take(j as int).drop_last() =~= ids@.take(j - 1));
        }
        if ids[j - 1] == id {
            return Some(j - 1);
        }
        j = j - 1;
    }
    None
}

/// Whether score pair `a` ranks before `b`.
fn fused_first(a: (i64, RrfScore), b: (i64, RrfScore)) -> (r: bool)
    requires
        a.1.num <= 0x1_0000, a.1.den <= 0x1_0000_0000,
        b.1.num <= 0x1_0000, b.1.den <= 0x1_0000_0000,
    ensures
        r == fused_before(a, b),
{
    proof {
        assert(a.1.num * b.1.den <= 0x1_0000 * 0x1_0000_0000) by (nonlinear_arith)
            requires
                a.1.num <= 0x1_0000,
                b.1.den <= 0x1_0000_0000,
        ;
        assert(b.1.num * a.1.den <= 0x1_0000 * 0x1_0000_0000) by (nonlinear_arith)
            requires
                b.1.num <= 0x1_0000,
                a.1.den <= 0x1_0000_0000,
        ;
    }
    let x = a.1.num * b.1.den;
    let y = b.1.num * a.1.den;
    x > y || (x == y && a.0 < b.0)
}

/// The plan of a hybrid search over the BM25 top ids and the vector top ids
/// (each search's top 50), cut to `limit`.
pub fn plan_hybrid(bm25_ids: &[i64], vec_ids: &[i64], limit: usize) -> (r: HybridPlan)
    requires
        bm25_ids@.len() <= 50,
        vec_ids@.len() <= 50,
    ensures
        bm25_ids@.len() == 0 && vec_ids@.len() == 0 ==> r is Empty,
        bm25_ids@.len() == 0 && vec_ids@.len() > 0 ==> r is VectorOnly,
        bm25_ids@.len() > 0 ==> r is Fused && r->Fused_0@ == fused_ranking(bm25_ids@, vec_ids@, limit),
{
    if bm25_ids.len() == 0 && vec_ids.len() == 0 {
        return HybridPlan::Empty;
    }
    if bm25_ids.len() == 0 {
        return HybridPlan::VectorOnly;
    }
    let ghost bv = bm25_ids@;
    let ghost vv = vec_ids@;
    let ghost notb = |id: i64| !bv.contains(id);
    // All ids: BM25 ids, then vector ids BM25 did not find.
    let mut all: Vec<i64> = Vec::new();
    let mut i: usize = 0;
    while i < bm25_ids.len()
        invariant
            i <= bv.len(),
            bv == bm25_ids@,
            all@ == bv.take(i as int),
        decreases bv.len() - i,
    {
        all.push(bm25_ids[i]);
        i = i + 1;
        proof {
            assert(all@ =~= bv.take(i as int));
        }
    }
    proof {
        assert(bv.take(bv.len() as int) =~= bv);
    }
    let mut j: usize = 0;
    while j < vec_ids.len()
        invariant
            j <= vv.len(),
            bv == bm25_ids@,
            vv == vec_ids@,
            notb == (|id: i64| !bv.contains(id)),
            all@ == bv + vv.take(j as int).filter(notb),
            all@.len() <= bv.len() + j,
        decreases vv.len() - j,
    {
        let x = vec_ids[j];
        proof {
            assert(vv.take(j + 1) =~= vv.take(j as int).push(x));
            vv.take(j as int).lemma_filter_push(x, notb);
        }
        let found = find_rank(bm25_ids, x);
        proof {
            lemma_rank_contains(bv, x);
        }
        if found.is_none() {
            all.push(x);
            proof {
                assert(all@ =~= bv + vv.take(j + 1).filter(notb));
            }
        } else {
            proof {
                assert(all@ =~= bv + vv.take(j + 1).filter(notb));
            }
        }
        j = j + 1;
    }
    proof {
        assert(vv.take(vv.len() as int) =~= vv);
        assert(all@ == fused_ids(bv, vv));
    }
    // Scores.
    let ghost av = all@;
    let ghost score_of = |id: i64| (id, rrf(rank_of(bv, id), rank_of(vv, id), 60));
    let mut scored: Vec<(i64, RrfScore)> = Vec::new();
    let mut q: usize = 0;
    while q < all.len()
        invariant
            q <= av.len(),
            av == all@,
            av.len() <= 100,
            bv == bm25_ids@,
            vv == vec_ids@,
            bv.len() <= 50,
            vv.len() <= 50,
            score_of == (|id: i64| (id, rrf(rank_of(bv, id), rank_of(vv, id), 60))),
            scored@ == av.take(q as int).map_values(score_of),
            forall|t: int| 0 <= t < scored@.len() ==> (#[trigger] scored@[t]).1.num <= 0x1_0000 && scored@[t].1.den <= 0x1_0000_0000,
        decreases av.len() - q,
    {
        let id = all[q];
        let rb = find_rank(bm25_ids, id);
        let rv = find_rank(vec_ids, id);
        let sc = rrf_score(rb, rv, 60);
        proof {
            match (rb, rv) {
                (Some(a), Some(b)) => {
                    assert((60 + a + 1) * (60 + b + 1) <= 111 * 111) by (nonlinear_arith)
                        requires
                            a < 50,
                            b < 50,
                    ;
                },
                _ => {},
            }
        }
        scored.push((id, sc));
        q = q + 1;
        proof {
            assert(av.take(q as int) =~= av.take(q - 1).push(id));
            assert(scored@ =~= av.take(q as int).map_values(score_of));
        }
    }
    proof {
        assert(av.take(av.len() as int) =~= av);
    }
    // Sort.
    let ghost sv0 = scored@;
    let mut sorted: Vec<(i64, RrfScore)> = Vec::new();
    let mut i: usize = 0;
    while i < scored.len()
        invariant
            i <= sv0.len(),
            sv0 == scored@,
            sorted@ == sort_fused(sv0.take(i as int)),
            forall|t: int| 0 <= t < sv0.len() ==> (#[trigger] sv0[t]).1.num <= 0x1_0000 && sv0[t].1.den <= 0x1_0000_0000,
            forall|t: int| 0 <= t < sorted@.len() ==> (#[trigger] sorted@[t]).1.num <= 0x1_0000 && sorted@[t].1.den <= 0x1_0000_0000,
        decreases sv0.len() - i,
    {
        let x = scored[i];
        let ghost sv = sorted@;
        let mut k: usize = 0;
        while k < sorted.len() && !fused_first(x, sorted[k])
            invariant
                k <= sv.len(),
                sv == sorted@,
                x.1.num <= 0x1_0000 && x.1.den <= 0x1_0000_0000,
                forall|t: int| 0 <= t < sorted@.len() ==> (#[trigger] sorted@[t]).1.num <= 0x1_0000 && sorted@[t].1.den <= 0x1_0000_0000,
                forall|t: int| 0 <= t < k ==> !fused_before(x, #[trigger] sv[t]),
            decreases sv.len() - k,
        {
            k = k + 1;
        }
        proof {
            lemma_insert_fused_at(sv, x, k as int);
            assert(sv0.take(i + 1).drop_last() =~= sv0.take(i as int));
        }
        sorted.insert(k, x);
        proof {
            assert forall|t: int| 0 <= t < sorted@.len() implies (#[trigger] sorted@[t]).1.num <= 0x1_0000 && sorted@[t].1.den <= 0x1_0000_0000 by {
                if t < k {
                    assert(sorted@[t] == sv[t]);
                } else if t > k {
                    assert(sorted@[t] == sv[t - 1]);
                }
            }
        }
        i = i + 1;
    }
    proof {
        assert(sv0.take(sv0.len() as int) =~= sv0);
    }
    if sorted.len() > limit {
        sorted.truncate(limit);
    }
    HybridPlan::Fused(sorted)
}

proof fn lemma_rank_contains(ids: Seq<i64>, id: i64)
    ensures
        (rank_of(ids, id) is Some) == ids.contains(id),
        rank_of(ids, id) matches Some(x) ==> x < ids.len(),
    decreases ids.len(),
{
    if ids.len() > 0 {
        lemma_rank_contains(ids.drop_last(), id);
        if ids.last() != id {
            if ids.contains(id) {
                let x = choose|x: int| 0 <= x < ids.len() && ids[x] == id;
                assert(ids.drop_last()[x] == id);
            }
            if ids.drop_last().contains(id) {
                let x = choose|x: int| 0 <= x < ids.drop_last().len() && ids.drop_last()[x] == id;
                assert(ids[x] == id);
            }
        } else {
            assert(ids[ids.len() - 1] == id);
        }
    }
}

// ─── Laws ───────────────────────────────────────────────────────────

proof fn lemma_insert_node_len(s: Seq<(i64, u32)>, x: (i64, u32))
    ensures
        insert_node(s, x).len() == s.len() + 1,
    decreases s.len(),
{
    if s.len() > 0 && !node_before(x, s[0]) {
        lemma_insert_node_len(s.drop_first(), x);
    }
}

proof fn lemma_sort_nodes_len(s: Seq<(i64, u32)>)
    ensures
        sort_nodes(s).len() == s.len(),
    decreases s.len(),
{
    if s.len() > 0 {
        lemma_sort_nodes_len(s.drop_last());
        lemma_insert_node_len(sort_nodes(s.drop_last()), s.last());
    }
}

proof fn lemma_insert_edge_len(s: Seq<EdgeEntryV>, x: EdgeEntryV)
    ensures
        insert_edge(s, x).len() == s.len() + 1,
    decreases s.len(),
{
    if s.len() > 0 && !edge_before(x, s[0]) {
        lemma_insert_edge_len(s.drop_first(), x);
    }
}

proof fn lemma_sort_edges_len(s: Seq<EdgeEntryV>)
    ensures
        sort_edges(s).len() == s.len(),
    decreases s.len(),
{
    if s.len() > 0 {
        lemma_sort_edges_len(s.drop_last());
        lemma_insert_edge_len(sort_edges(s.drop_last()), s.last());
    }
}

/// A subgraph never holds more than `max_nodes` nodes; when it is not
/// flagged as truncated it holds every node reached, the start node
/// included.
pub proof fn law_subgraph_nodes_within_limit(
    start_id: i64,
    dir: TraversalDirection,
    outgoing: Seq<(i64, u32)>,
    out_capped: bool,
    incoming: Seq<(i64, u32)>,
    inc_capped: bool,
    max_nodes: usize,
)
    ensures
        subgraph_nodes(start_id, dir, outgoing, out_capped, incoming, inc_capped, max_nodes).0.len() <= max_nodes,
        !subgraph_nodes(start_id, dir, outgoing, out_capped, incoming, inc_capped, max_nodes).1 ==> subgraph_nodes(
            start_id,
            dir,
            outgoing,
            out_capped,
            incoming,
            inc_capped,
            max_nodes,
        ).0.len() == reached_nodes(start_id, dir, outgoing, incoming).len(),
{
    lemma_sort_nodes_len(reached_nodes(start_id, dir, outgoing, incoming));
}

/// A subgraph never holds more than `max_edges` edges; when the edge list
/// is not cut, every collected edge is kept.
pub proof fn law_subgraph_edges_within_limit(
    edges: Seq<EdgeEntryV>,
    max_edges: usize,
    truncated: bool,
    reason: Option<Seq<char>>,
)
    ensures
        subgraph_edges(edges, max_edges, truncated, reason).0.len() <= max_edges,
        edges.len() <= max_edges ==> subgraph_edges(edges, max_edges, truncated, reason).0.len() == edges.len(),
        edges.len() > max_edges ==> subgraph_edges(edges, max_edges, truncated, reason).1,
{
    lemma_sort_edges_len(edges);
}

/// No node id occurs twice in `s`.
pub open spec fn node_ids_distinct(s: Seq<(i64, u32)>) -> bool {
    forall|a: int, b: int| 0 <= a < b < s.len() ==> (#[trigger] s[a]).0 != (#[trigger] s[b]).0
}

/// Node `id` occurs in `s`.
pub open spec fn has_node(s: Seq<(i64, u32)>, id: i64) -> bool {
    exists|j: int| 0 <= j < s.len() && (#[trigger] s[j]).0 == id
}

proof fn lemma_node_pos(m: Seq<(i64, u32)>, id: i64)
    ensures
        0 <= node_pos(m, id) <= m.len(),
        node_pos(m, id) < m.len() ==> m[node_pos(m, id)].0 == id,
        node_pos(m, id) == m.len() ==> !has_node(m, id),
    decreases m.len(),
{
    if m.len() > 0 && m[0].0 != id {
        let t = m.drop_first();
        lemma_node_pos(t, id);
        if node_pos(m, id) == m.len() && has_node(m, id) {
            let j = choose|j: int| 0 <= j < m.len() && (#[trigger] m[j]).0 == id;
            assert(t[j - 1] == m[j]);
        }
    }
}

proof fn lemma_merge_distinct(pairs: Seq<(i64, u32)>)
    ensures
        node_ids_distinct(merge_min_depth(pairs)),
        forall|id: i64| has_node(merge_min_depth(pairs), id) <==> has_node(pairs, id),
    decreases pairs.len(),
{
    if pairs.len() > 0 {
        let p = pairs.drop_last();
        lemma_merge_distinct(p);
        let m = merge_min_depth(p);
        let x = pairs.last();
        lemma_node_pos(m, x.0);
        let k = node_pos(m, x.0);
        let r = merge_min_depth(pairs);
        assert forall|id: i64| has_node(r, id) <==> has_node(pairs, id) by {
            if has_node(r, id) {
                let j = choose|j: int| 0 <= j < r.len() && (#[trigger] r[j]).0 == id;
                if j < m.len() && r[j].0 == m[j].0 {
                    assert(has_node(m, id));
                    assert(has_node(p, id));
                    let i = choose|i: int| 0 <= i < p.len() && (#[trigger] p[i]).0 == id;
                    assert(pairs[i] == p[i]);
                } else {
                    assert(pairs[pairs.len() - 1] == x);
                }
            }
            if has_node(pairs, id) {
                let i = choose|i: int| 0 <= i < pairs.len() && (#[trigger] pairs[i]).0 == id;
                if i < p.len() {
                    assert(p[i] == pairs[i]);
                    assert(has_node(p, id));
                    let j = choose|j: int| 0 <= j < m.len() && (#[trigger] m[j]).0 == id;
                    if k < m.len() && j == k {
                        assert(r[k].0 == id);
                    } else {
                        assert(r[j] == m[j]);
                    }
                } else {
                    if k < m.len() {
                        assert(r[k].0 == x.0);
                    } else {
                        assert(r[m.len() as int] == x);
                    }
                }
            }
        }
        assert forall|a: int, b: int| 0 <= a < b < r.len() implies (#[trigger] r[a]).0 != (#[trigger] r[b]).0 by {
            if b < m.len() {
                if a == k {
                    assert(r[a].0 == m[a].0);
                }
                if b == k {
                    assert(r[b].0 == m[b].0);
                }
                assert(r[a].0 == m[a].0 && r[b].0 == m[b].0);
            } else {
                assert(r[a] == m[a]);
                assert(r[b] == x);
                assert(!has_node(m, x.0));
            }
        }
    }
}

proof fn lemma_insert_node_distinct(s: Seq<(i64, u32)>, x: (i64, u32))
    requires
        node_ids_distinct(s),
        !has_node(s, x.0),
    ensures
        node_ids_distinct(insert_node(s, x)),
        forall|id: i64| has_node(insert_node(s, x), id) <==> (has_node(s, id) || id == x.0),
    decreases s.len(),
{
    let r = insert_node(s, x);
    if s.len() == 0 {
        assert(r =~= seq![x]);
        assert forall|id: i64| has_node(r, id) <==> (has_node(s, id) || id == x.0) by {
            if id == x.0 {
                assert(r[0].0 == id);
            }
        }
    } else if node_before(x, s[0]) {
        assert(r =~= seq![x] + s);
        assert forall|id: i64| has_node(r, id) <==> (has_node(s, id) || id == x.0) by {
            if has_node(s, id) {
                let j = choose|j: int| 0 <= j < s.len() && (#[trigger] s[j]).0 == id;
                assert(r[j + 1] == s[j]);
            }
            if id == x.0 {
                assert(r[0].0 == id);
            }
            if has_node(r, id) {
                let j = choose|j: int| 0 <= j < r.len() && (#[trigger] r[j]).0 == id;
                if j > 0 {
                    assert(s[j - 1] == r[j]);
                }
            }
        }
        assert forall|a: int, b: int| 0 <= a < b < r.len() implies (#[trigger] r[a]).0 != (#[trigger] r[b]).0 by {
            assert(r[b] == s[b - 1]);
            if a > 0 {
                assert(r[a] == s[a - 1]);
            } else {
                assert(s[b - 1].0 != x.0);
            }
        }
    } else {
        let t = s.drop_first();
        assert forall|a: int, b: int| 0 <= a < b < t.len() implies (#[trigger] t[a]).0 != (#[trigger] t[b]).0 by {
            assert(t[a] == s[a + 1] && t[b] == s[b + 1]);
        }
        if has_node(t, x.0) {
            let j = choose|j: int| 0 <= j < t.len() && (#[trigger] t[j]).0 == x.0;
            assert(s[j + 1] == t[j]);
        }
        lemma_insert_node_distinct(t, x);
        let u = insert_node(t, x);
        assert(r =~= seq![s[0]] + u);
        assert forall|id: i64| has_node(r, id) <==> (has_node(s, id) || id == x.0) by {
            if has_node(s, id) {
                let j = choose|j: int| 0 <= j < s.len() && (#[trigger] s[j]).0 == id;
                if j == 0 {
                    assert(r[0] == s[0]);
                } else {
                    assert(t[j - 1] == s[j]);
                    assert(has_node(t, id));
                    let i = choose|i: int| 0 <= i < u.len() && (#[trigger] u[i]).0 == id;
                    assert(r[i + 1] == u[i]);
                }
            }
            if id == x.0 {
                assert(has_node(u, id));
                let i = choose|i: int| 0 <= i < u.len() && (#[trigger] u[i]).0 == id;
                assert(r[i + 1] == u[i]);
            }
            if has_node(r, id) {
                let j = choose|j: int| 0 <= j < r.len() && (#[trigger] r[j]).0 == id;
                if j == 0 {
                    assert(s[0] == r[0]);
                } else {
                    assert(u[j - 1] == r[j]);
                    assert(has_node(u, id));
                    if has_node(t, id) {
                        let i = choose|i: int| 0 <= i < t.len() && (#[trigger] t[i]).0 == id;
                        assert(s[i + 1] == t[i]);
                    }
                }
            }
        }
        assert forall|a: int, b: int| 0 <= a < b < r.len() implies (#[trigger] r[a]).0 != (#[trigger] r[b]).0 by {
            assert(r[b] == u[b - 1]);
            if a > 0 {
                assert(r[a] == u[a - 1]);
            } else {
                assert(r[0] == s[0]);
                if u[b - 1].0 == s[0].0 {
                    assert(has_node(u, s[0].0));
                    if has_node(t, s[0].0) {
                        let i = choose|i: int| 0 <= i < t.len() && (#[trigger] t[i]).0 == s[0].0;
                        assert(s[i + 1] == t[i]);
                    } else {
                        assert(s[0].0 == x.0);
                        assert(has_node(s, x.0));
                    }
                }
            }
        }
    }
}

proof fn lemma_sort_nodes_distinct(s: Seq<(i64, u32)>)
    requires
        node_ids_distinct(s),
    ensures
        node_ids_distinct(sort_nodes(s)),
        forall|id: i64| has_node(sort_nodes(s), id) <==> has_node(s, id),
    decreases s.len(),
{
    if s.len() > 0 {
        let p = s.drop_last();
        assert forall|a: int, b: int| 0 <= a < b < p.len() implies (#[trigger] p[a]).0 != (#[trigger] p[b]).0 by {
            assert(p[a] == s[a] && p[b] == s[b]);
        }
        lemma_sort_nodes_distinct(p);
        let x = s.last();
        if has_node(p, x.0) {
            let j = choose|j: int| 0 <= j < p.len() && (#[trigger] p[j]).0 == x.0;
            assert(s[j] == p[j]);
        }
        lemma_insert_node_distinct(sort_nodes(p), x);
        assert forall|id: i64| has_node(sort_nodes(s), id) <==> has_node(s, id) by {
            if has_node(p, id) {
                let j = choose|j: int| 0 <= j < p.len() && (#[trigger] p[j]).0 == id;
                assert(s[j] == p[j]);
            }
            if id == x.0 {
                assert(s[s.len() - 1] == x);
            }
            if has_node(s, id) {
                let j = choose|j: int| 0 <= j < s.len() && (#[trigger] s[j]).0 == id;
                if j < p.len() {
                    assert(p[j] == s[j]);
                }
            }
        }
    }
}

/// A subgraph lists each node once, and it carries a truncation reason
/// exactly when it is flagged as truncated, after the edge limit as well,
/// given traversal results that list each node once, the start never among
/// them (as a reachability traversal gives them).
pub proof fn law_subgraph_nodes_once(
    start_id: i64,
    dir: TraversalDirection,
    outgoing: Seq<(i64, u32)>,
    out_capped: bool,
    incoming: Seq<(i64, u32)>,
    inc_capped: bool,
    max_nodes: usize,
    edges: Seq<EdgeEntryV>,
    max_edges: usize,
)
    requires
        node_ids_distinct(outgoing),
        node_ids_distinct(incoming),
        !has_node(outgoing, start_id),
        !has_node(incoming, start_id),
    ensures
        ({
            let n = subgraph_nodes(start_id, dir, outgoing, out_capped, incoming, inc_capped, max_nodes);
            let e = subgraph_edges(edges, max_edges, n.1, n.2);
            &&& node_ids_distinct(n.0)
            &&& n.2.is_some() == n.1
            &&& e.2.is_some() == e.1
        }),
{
    let rest = match dir {
        TraversalDirection::Outgoing => outgoing,
        TraversalDirection::Incoming => incoming,
        TraversalDirection::Both => merge_min_depth(outgoing + incoming),
    };
    if dir == TraversalDirection::Both {
        lemma_merge_distinct(outgoing + incoming);
        if has_node(outgoing + incoming, start_id) {
            let j = choose|j: int| 0 <= j < (outgoing + incoming).len() && (#[trigger] (outgoing + incoming)[j]).0
                == start_id;
            if j < outgoing.len() {
                assert(outgoing[j] == (outgoing + incoming)[j]);
            } else {
                assert(incoming[j - outgoing.len()] == (outgoing + incoming)[j]);
            }
        }
    }
    let all = reached_nodes(start_id, dir, outgoing, incoming);
    assert(all == seq![(start_id, 0u32)] + rest);
    assert forall|a: int, b: int| 0 <= a < b < all.len() implies (#[trigger] all[a]).0 != (#[trigger] all[b]).0 by {
        assert(all[b] == rest[b - 1]);
        if a > 0 {
            assert(all[a] == rest[a - 1]);
        } else {
            assert(!has_node(rest, start_id));
        }
    }
    lemma_sort_nodes_distinct(all);
    let n = subgraph_nodes(start_id, dir, outgoing, out_capped, incoming, inc_capped, max_nodes);
    let sorted = sort_nodes(all);
    assert forall|a: int, b: int| 0 <= a < b < n.0.len() implies (#[trigger] n.0[a]).0 != (#[trigger] n.0[b]).0 by {
        assert(n.0[a] == sorted[a] && n.0[b] == sorted[b]);
    }
}

proof fn lemma_nodes_with_symbols(reached: Seq<(i64, u32)>, symbols: Seq<Option<SymbolInfoV>>)
    requires
        node_ids_distinct(reached),
    ensures
        nodes_with_symbols(reached, symbols).len() <= reached.len(),
        forall|k: int|
            0 <= k < nodes_with_symbols(reached, symbols).len() ==> has_node(
                reached,
                (#[trigger] nodes_with_symbols(reached, symbols)[k]).id,
            ),
        forall|a: int, b: int|
            0 <= a < b < nodes_with_symbols(reached, symbols).len() ==> (#[trigger] nodes_with_symbols(
                reached,
                symbols,
            )[a]).id != (#[trigger] nodes_with_symbols(reached, symbols)[b]).id,
    decreases reached.len(),
{
    if reached.len() > 0 && symbols.len() > 0 {
        let p = reached.drop_last();
        assert forall|a: int, b: int| 0 <= a < b < p.len() implies (#[trigger] p[a]).0 != (#[trigger] p[b]).0 by {
            assert(p[a] == reached[a] && p[b] == reached[b]);
        }
        lemma_nodes_with_symbols(p, symbols.drop_last());
        let rest = nodes_with_symbols(p, symbols.drop_last());
        let r = nodes_with_symbols(reached, symbols);
        let x = reached.last();
        assert forall|k: int| 0 <= k < r.len() implies has_node(reached, (#[trigger] r[k]).id) by {
            if k < rest.len() {
                assert(r[k] == rest[k]);
                assert(has_node(p, rest[k].id));
                let j = choose|j: int| 0 <= j < p.len() && (#[trigger] p[j]).0 == rest[k].id;
                assert(reached[j] == p[j]);
            } else {
                assert(reached[reached.len() - 1] == x);
            }
        }
        assert forall|a: int, b: int| 0 <= a < b < r.len() implies (#[trigger] r[a]).id != (#[trigger] r[b]).id by {
            if b < rest.len() {
                assert(r[a] == rest[a] && r[b] == rest[b]);
            } else {
                assert(r[a] == rest[a]);
                assert(r[b].id == x.0);
                assert(has_node(p, rest[a].id));
                let j = choose|j: int| 0 <= j < p.len() && (#[trigger] p[j]).0 == rest[a].id;
                assert(reached[j] == p[j]);
            }
        }
    }
}

/// The subgraph that the node selection, the symbol rows and the collected
/// edges assemble holds at most `max_nodes` nodes, each once, and at most
/// `max_edges` edges, in order of source, target and kind, each one it was
/// given; it names a truncation reason exactly when it is truncated. (Given
/// traversal results that list each node once, the start never among them,
/// as a reachability traversal gives them.)
pub proof fn law_subgraph_result(
    start_id: i64,
    dir: TraversalDirection,
    outgoing: Seq<(i64, u32)>,
    out_capped: bool,
    incoming: Seq<(i64, u32)>,
    inc_capped: bool,
    max_nodes: usize,
    symbols: Seq<Option<SymbolInfoV>>,
    edges: Seq<EdgeEntryV>,
    max_edges: usize,
)
    requires
        node_ids_distinct(outgoing),
        node_ids_distinct(incoming),
        !has_node(outgoing, start_id),
        !has_node(incoming, start_id),
    ensures
        ({
            let n = subgraph_nodes(start_id, dir, outgoing, out_capped, incoming, inc_capped, max_nodes);
            let ns = nodes_with_symbols(n.0, symbols);
            let e = subgraph_edges(edges, max_edges, n.1, n.2);
            &&& ns.len() <= max_nodes
            &&& forall|a: int, b: int| 0 <= a < b < ns.len() ==> (#[trigger] ns[a]).id != (#[trigger] ns[b]).id
            &&& e.0.len() <= max_edges
            &&& edges_in_order(e.0)
            &&& forall|i: int| 0 <= i < e.0.len() ==> edges.contains(#[trigger] e.0[i])
            &&& e.2.is_some() == e.1
        }),
{
    law_subgraph_nodes_once(start_id, dir, outgoing, out_capped, incoming, inc_capped, max_nodes, edges, max_edges);
    law_subgraph_nodes_within_limit(start_id, dir, outgoing, out_capped, incoming, inc_capped, max_nodes);
    let n = subgraph_nodes(start_id, dir, outgoing, out_capped, incoming, inc_capped, max_nodes);
    lemma_nodes_with_symbols(n.0, symbols);
    law_subgraph_edges_within_limit(edges, max_edges, n.1, n.2);
    law_subgraph_edges_from_input(edges, max_edges, n.1, n.2);
}


/// The impact traversal's bookkeeping: no node is visited twice, every
/// affected symbol stands for a distinct visited node other than the start,
/// and each was found at a depth between 1 and the limit.
pub open spec fn impact_walk_ok(s: ImpactStateV, max_depth: u32) -> bool {
    &&& s.visited.no_duplicates()
    &&& s.found.len() < s.visited.len()
    &&& forall|i: int| 0 <= i < s.found.len() ==> 1 <= (#[trigger] s.found[i]).0 <= max_depth
}

proof fn lemma_impact_next_keeps(s: ImpactStateV, max_depth: u32)
    ensures
        impact_next(s, max_depth).0.visited == s.visited,
        impact_next(s, max_depth).0.found == s.found,
    decreases s.queue.len(),
{
    if s.queue.len() > 0 {
        let rest = ImpactStateV { queue: s.queue.drop_first(), ..s };
        lemma_impact_next_keeps(rest, max_depth);
    }
}

proof fn lemma_impact_visit_ok(s: ImpactStateV, max_depth: u32, depth: u32, nbs: Seq<NeighborV>)
    requires
        impact_walk_ok(s, max_depth),
        depth < max_depth,
    ensures
        impact_walk_ok(impact_visit(s, depth, nbs), max_depth),
    decreases nbs.len(),
{
    if nbs.len() > 0 {
        lemma_impact_visit_ok(s, max_depth, depth, nbs.drop_last());
        let t = impact_visit(s, depth, nbs.drop_last());
        let n = nbs.last();
        if !t.visited.contains(n.id) {
            let v2 = t.visited.push(n.id);
            assert(v2.no_duplicates()) by {
                assert forall|a: int, b: int| 0 <= a < v2.len() && 0 <= b < v2.len() && a != b implies v2[a] != v2[b] by {
                    if a == t.visited.len() {
                        assert(t.visited[b] != n.id);
                    } else if b == t.visited.len() {
                        assert(t.visited[a] != n.id);
                    }
                }
            }
            let r = impact_visit(s, depth, nbs);
            match n.symbol {
                Some(sym) => {
                    assert forall|i: int| 0 <= i < r.found.len() implies 1 <= (#[trigger] r.found[i]).0 <= max_depth by {
                        if i < t.found.len() {
                            assert(r.found[i] == t.found[i]);
                        }
                    }
                },
                None => {},
            }
        }
    }
}

/// What every step of an impact traversal keeps: starting from the start
/// node alone, handing out nodes and visiting neighbours below the depth
/// limit never visits a node twice, never reports more affected symbols
/// than visited nodes besides the start, and reports each at a depth from 1
/// to the limit.
pub proof fn law_impact_walk_bookkeeping(s: ImpactStateV, start: i64, max_depth: u32, depth: u32, nbs: Seq<NeighborV>)
    ensures
        impact_walk_ok(
            ImpactStateV {
                visited: seq![start],
                order: seq![(start, 0u32)],
                queue: seq![(start, 0u32)],
                found: Seq::empty(),
            },
            max_depth,
        ),
        impact_walk_ok(s, max_depth) ==> impact_walk_ok(impact_next(s, max_depth).0, max_depth),
        impact_walk_ok(s, max_depth) && depth < max_depth ==> impact_walk_ok(impact_visit(s, depth, nbs), max_depth),
{
    lemma_impact_next_keeps(s, max_depth);
    if impact_walk_ok(s, max_depth) && depth < max_depth {
        lemma_impact_visit_ok(s, max_depth, depth, nbs);
    }
}


/// The reachability traversal's bookkeeping: never more than `capacity`
/// nodes found, each at a depth from 1 to the limit and below the current
/// depth.
pub open spec fn reach_ok(s: ReachStateV, max_depth: u32, capacity: usize) -> bool {
    &&& s.result.len() <= capacity
    &&& s.depth >= 1
    &&& forall|i: int|
        0 <= i < s.result.len() ==> 1 <= (#[trigger] s.result[i]).1 <= max_depth && s.result[i].1 < s.depth
}

/// What every step of a reachability traversal keeps: from the start state,
/// loop heads and expansions (at most at the depth limit, while below
/// capacity) never find more than `capacity` nodes, and find each at a depth
/// from 1 to the limit.
pub proof fn law_reach_bookkeeping(s: ReachStateV, start: i64, next: Seq<i64>, max_depth: u32, capacity: usize)
    ensures
        reach_ok(
            ReachStateV {
                visited: seq![start],
                frontier: seq![start],
                result: Seq::empty(),
                capped: false,
                depth: 1,
                done: false,
            },
            max_depth,
            capacity,
        ),
        reach_ok(s, max_depth, capacity) ==> reach_ok(reach_head(s, max_depth, capacity), max_depth, capacity),
        reach_ok(s, max_depth, capacity) && s.depth <= max_depth && s.result.len() < capacity ==> reach_ok(
            reach_step(s, next, capacity),
            max_depth,
            capacity,
        ),
{
    if reach_ok(s, max_depth, capacity) && s.depth <= max_depth && s.result.len() < capacity && next.len() > 0 {
        let r = reach_step(s, next, capacity);
        let remaining = capacity - s.result.len();
        let f = if next.len() > remaining {
            next.take(remaining)
        } else {
            next
        };
        assert(r.result == s.result + f.map_values(|id: i64| (id, s.depth as u32)));
        assert forall|i: int| 0 <= i < r.result.len() implies 1 <= (#[trigger] r.result[i]).1 <= max_depth
            && r.result[i].1 < r.depth by {
            if i >= s.result.len() {
                assert(r.result[i] == (f[i - s.result.len()], s.depth as u32));
            } else {
                assert(r.result[i] == s.result[i]);
            }
        }
    }
}


// ─── Narrower listings, narrower impact ─────────────────────────────

/// The ids of a list of neighbours.
pub open spec fn neighbor_ids(ns: Seq<NeighborV>) -> Seq<i64> {
    ns.map_values(|n: NeighborV| n.id)
}

/// A neighbour listing (what the database gives for each node) in which a
/// neighbour carries a symbol exactly when its id names one.
pub open spec fn listing_ok(g: spec_fn(i64) -> Seq<NeighborV>, named: spec_fn(i64) -> bool) -> bool {
    forall|u: i64, i: int| 0 <= i < g(u).len() ==> ((#[trigger] g(u)[i]).symbol is Some <==> named(g(u)[i].id))
}

/// Every neighbour that listing `h` gives is given by listing `g` too.
pub open spec fn listing_within(h: spec_fn(i64) -> Seq<NeighborV>, g: spec_fn(i64) -> Seq<NeighborV>) -> bool {
    forall|u: i64, i: int| 0 <= i < h(u).len() ==> neighbor_ids(g(u)).contains((#[trigger] h(u)[i]).id)
}

/// Step `i` of `path` follows a listed neighbour, from the start or from
/// a node that names a symbol.
pub open spec fn walk_step(
    g: spec_fn(i64) -> Seq<NeighborV>,
    named: spec_fn(i64) -> bool,
    path: Seq<i64>,
    i: int,
) -> bool {
    (i == 0 || named(path[i])) && neighbor_ids(g(path[i])).contains(path[i + 1])
}

/// A walk from `start` along listed neighbours.
pub open spec fn is_walk(g: spec_fn(i64) -> Seq<NeighborV>, named: spec_fn(i64) -> bool, start: i64, path: Seq<i64>) -> bool {
    &&& path.len() >= 1
    &&& path[0] == start
    &&& forall|i: int| 0 <= i < path.len() - 1 ==> #[trigger] walk_step(g, named, path, i)
}

/// `v` is reached from `start` in at most `k` steps along listed
/// neighbours, passing only through nodes that name a symbol.
pub open spec fn reachable_within(
    g: spec_fn(i64) -> Seq<NeighborV>,
    named: spec_fn(i64) -> bool,
    start: i64,
    v: i64,
    k: nat,
) -> bool {
    exists|path: Seq<i64>| #[trigger] is_walk(g, named, start, path) && path.len() <= k + 1 && path.last() == v
}

/// The state in which an impact traversal from `start` begins.
pub open spec fn impact_start(start: i64) -> ImpactStateV {
    ImpactStateV {
        visited: seq![start],
        order: seq![(start, 0u32)],
        queue: seq![(start, 0u32)],
        found: Seq::empty(),
    }
}

/// An impact traversal driven by listing `g` for up to `fuel` expansions:
/// take the next node, visit the neighbours that `g` lists for it, repeat.
pub open spec fn impact_run(g: spec_fn(i64) -> Seq<NeighborV>, s: ImpactStateV, max_depth: u32, fuel: nat) -> ImpactStateV
    decreases fuel,
{
    if fuel == 0 {
        s
    } else {
        let (s2, x) = impact_next(s, max_depth);
        match x {
            None => s2,
            Some(x) => impact_run(g, impact_visit(s2, x.1, g(x.0)), max_depth, (fuel - 1) as nat),
        }
    }
}

/// How far along its queue a traversal is.
spec fn queue_pos(s: ImpactStateV) -> int {
    s.order.len() - s.queue.len()
}

/// The breadth-first structure of a traversal state: the queue is the tail
/// of the discovery order, depths never decrease along it, ids are
/// distinct, every queued node other than the start names a symbol, every
/// visited node that names a symbol was queued, and each queued node is
/// reachable within its depth.
spec fn walk_core(
    g: spec_fn(i64) -> Seq<NeighborV>,
    named: spec_fn(i64) -> bool,
    start: i64,
    max_depth: u32,
    s: ImpactStateV,
) -> bool {
    let o = s.order;
    &&& o.len() >= 1
    &&& o[0] == (start, 0u32)
    &&& s.found.len() + 1 == o.len()
    &&& s.queue.len() <= o.len()
    &&& s.queue =~= o.skip(o.len() - s.queue.len())
    &&& forall|i: int, j: int| 0 <= i <= j < o.len() ==> (#[trigger] o[i]).1 <= (#[trigger] o[j]).1
    &&& forall|i: int, j: int| 0 <= i < j < o.len() ==> (#[trigger] o[i]).0 != (#[trigger] o[j]).0
    &&& forall|j: int| 0 <= j < o.len() ==> s.visited.contains((#[trigger] o[j]).0)
    &&& forall|j: int| 1 <= j < o.len() ==> named((#[trigger] o[j]).0)
    &&& forall|x: i64|
        #![trigger s.visited.contains(x), named(x)]
        s.visited.contains(x) && named(x) ==> exists|j: int| 0 <= j < o.len() && (#[trigger] o[j]).0 == x
    &&& forall|j: int|
        0 <= j < o.len() ==> (#[trigger] o[j]).1 <= max_depth && reachable_within(g, named, start, o[j].0, o[j].1 as nat)
}

/// The first `q` queued nodes below the depth limit have been expanded:
/// each neighbour that `g` lists for them is visited and, when it names a
/// symbol, queued at most one level deeper.
spec fn walk_expanded(
    g: spec_fn(i64) -> Seq<NeighborV>,
    named: spec_fn(i64) -> bool,
    max_depth: u32,
    s: ImpactStateV,
    q: int,
) -> bool {
    let o = s.order;
    forall|i: int, m: int|
        0 <= i < q && i < o.len() && o[i].1 < max_depth && 0 <= m < g(o[i].0).len() ==> {
            &&& s.visited.contains((#[trigger] g(o[i].0)[m]).id)
            &&& named(g(o[i].0)[m].id) ==> exists|j: int|
                0 <= j < o.len() && (#[trigger] o[j]).0 == g(o[i].0)[m].id && o[j].1 <= o[i].1 + 1
        }
}

/// No queued depth exceeds the depth at position `c` by more than one.
spec fn walk_layered(s: ImpactStateV, c: int) -> bool {
    forall|j: int| 0 <= j < s.order.len() ==> (#[trigger] s.order[j]).1 <= s.order[c].1 + 1
}

spec fn walk_inv(
    g: spec_fn(i64) -> Seq<NeighborV>,
    named: spec_fn(i64) -> bool,
    start: i64,
    max_depth: u32,
    s: ImpactStateV,
) -> bool {
    &&& walk_core(g, named, start, max_depth, s)
    &&& walk_expanded(g, named, max_depth, s, queue_pos(s))
    &&& queue_pos(s) < s.order.len() ==> walk_layered(s, queue_pos(s))
}

proof fn lemma_walk_start(g: spec_fn(i64) -> Seq<NeighborV>, named: spec_fn(i64) -> bool, start: i64, max_depth: u32)
    ensures
        walk_inv(g, named, start, max_depth, impact_start(start)),
{
    let s = impact_start(start);
    assert(s.order.skip(0) =~= s.queue);
    assert(s.order[0] == (start, 0u32));
    assert(s.visited[0] == start);
    assert(is_walk(g, named, start, seq![start]));
    assert forall|x: i64| #![trigger s.visited.contains(x), named(x)] s.visited.contains(x) && named(x) implies exists|j: int|
        0 <= j < s.order.len() && (#[trigger] s.order[j]).0 == x by {
        assert(s.order[0].0 == x);
    }
}

proof fn lemma_walk_next(
    g: spec_fn(i64) -> Seq<NeighborV>,
    named: spec_fn(i64) -> bool,
    start: i64,
    max_depth: u32,
    s: ImpactStateV,
)
    requires
        walk_inv(g, named, start, max_depth, s),
    ensures
        impact_next(s, max_depth).0.order == s.order,
        impact_next(s, max_depth).0.visited == s.visited,
        impact_next(s, max_depth).0.found == s.found,
        walk_core(g, named, start, max_depth, impact_next(s, max_depth).0),
        impact_next(s, max_depth).1 is None ==> impact_next(s, max_depth).0.queue.len() == 0 && walk_expanded(
            g,
            named,
            max_depth,
            impact_next(s, max_depth).0,
            s.order.len() as int,
        ),
        impact_next(s, max_depth).1 matches Some(x) ==> {
            let c = queue_pos(impact_next(s, max_depth).0) - 1;
            &&& 0 <= c < s.order.len()
            &&& x == s.order[c]
            &&& x.1 < max_depth
            &&& walk_expanded(g, named, max_depth, impact_next(s, max_depth).0, c)
            &&& walk_layered(impact_next(s, max_depth).0, c)
        },
    decreases s.queue.len(),
{
    if s.queue.len() > 0 {
        let o = s.order;
        let p = queue_pos(s);
        let x = s.queue[0];
        assert(x == o[p]);
        let rest = ImpactStateV { queue: s.queue.drop_first(), ..s };
        assert(rest.queue =~= o.skip(p + 1));
        if x.1 >= max_depth {
            assert(walk_expanded(g, named, max_depth, rest, p + 1)) by {
                assert forall|i: int, m: int|
                    0 <= i < p + 1 && i < o.len() && o[i].1 < max_depth && 0 <= m < g(o[i].0).len() implies {
                    &&& rest.visited.contains((#[trigger] g(o[i].0)[m]).id)
                    &&& named(g(o[i].0)[m].id) ==> exists|j: int|
                        0 <= j < o.len() && (#[trigger] o[j]).0 == g(o[i].0)[m].id && o[j].1 <= o[i].1 + 1
                } by {
                    assert(i < p);
                }
            }
            if p + 1 < o.len() {
                assert forall|j: int| 0 <= j < o.len() implies (#[trigger] o[j]).1 <= o[p + 1].1 + 1 by {
                    assert(o[j].1 <= o[p].1 + 1);
                    assert(o[p].1 <= o[p + 1].1);
                }
            }
            lemma_walk_next(g, named, start, max_depth, rest);
        }
    }
}

proof fn lemma_walk_visit(
    g: spec_fn(i64) -> Seq<NeighborV>,
    named: spec_fn(i64) -> bool,
    start: i64,
    max_depth: u32,
    s: ImpactStateV,
    c: int,
    nbs: Seq<NeighborV>,
)
    requires
        walk_core(g, named, start, max_depth, s),
        0 <= c < queue_pos(s),
        walk_expanded(g, named, max_depth, s, c),
        walk_layered(s, c),
        s.order[c].1 < max_depth,
        forall|i: int|
            0 <= i < nbs.len() ==> neighbor_ids(g(s.order[c].0)).contains((#[trigger] nbs[i]).id) && (nbs[i].symbol is Some
                <==> named(nbs[i].id)),
    ensures
        ({
            let r = impact_visit(s, s.order[c].1, nbs);
            &&& walk_core(g, named, start, max_depth, r)
            &&& queue_pos(r) == queue_pos(s)
            &&& r.order.len() >= s.order.len()
            &&& r.order.take(s.order.len() as int) == s.order
            &&& forall|x: i64| s.visited.contains(x) ==> #[trigger] r.visited.contains(x)
            &&& walk_expanded(g, named, max_depth, r, c)
            &&& walk_layered(r, c)
            &&& forall|i: int|
                0 <= i < nbs.len() ==> {
                    &&& r.visited.contains((#[trigger] nbs[i]).id)
                    &&& named(nbs[i].id) ==> exists|j: int|
                        0 <= j < r.order.len() && (#[trigger] r.order[j]).0 == nbs[i].id && r.order[j].1 <= s.order[c].1 + 1
                }
        }),
    decreases nbs.len(),
{
    broadcast use vstd::seq_lib::lemma_seq_contains_after_push;

    let o = s.order;
    let d = o[c].1;
    if nbs.len() == 0 {
        assert(o.take(o.len() as int) =~= o);
    } else {
        let nbs0 = nbs.drop_last();
        assert forall|i: int| 0 <= i < nbs0.len() implies neighbor_ids(g(o[c].0)).contains((#[trigger] nbs0[i]).id) && (
        nbs0[i].symbol is Some <==> named(nbs0[i].id)) by {
            assert(nbs0[i] == nbs[i]);
        }
        lemma_walk_visit(g, named, start, max_depth, s, c, nbs0);
        let t = impact_visit(s, d, nbs0);
        let n = nbs.last();
        let r = impact_visit(s, d, nbs);
        let ot = t.order;
        assert(ot.take(o.len() as int) == o);
        assert forall|j: int| 0 <= j < o.len() implies ot[j] == #[trigger] o[j] by {
            assert(ot.take(o.len() as int)[j] == ot[j]);
        }
        assert(nbs[nbs.len() - 1] == n);
        assert(neighbor_ids(g(o[c].0)).contains(n.id) && (n.symbol is Some <==> named(n.id)));
        if t.visited.contains(n.id) {
            assert(r == t);
            assert forall|i: int| 0 <= i < nbs.len() implies {
                &&& r.visited.contains((#[trigger] nbs[i]).id)
                &&& named(nbs[i].id) ==> exists|j: int|
                    0 <= j < r.order.len() && (#[trigger] r.order[j]).0 == nbs[i].id && r.order[j].1 <= d + 1
            } by {
                if i < nbs0.len() {
                    assert(nbs0[i] == nbs[i]);
                } else {
                    assert(nbs[i] == n);
                    if named(n.id) {
                        assert(t.visited.contains(n.id) && named(n.id));
                        let j = choose|j: int| 0 <= j < ot.len() && (#[trigger] ot[j]).0 == n.id;
                        assert(ot[j].1 <= o[c].1 + 1);
                    }
                }
            }
        } else {
            match n.symbol {
                Some(sym) => {
                    let e = (n.id, (d + 1) as u32);
                    assert(r.order == ot.push(e));
                    assert(r.queue == t.queue.push(e));
                    let ro = r.order;
                    // the new node is reachable one step past the expanded one
                    assert(reachable_within(g, named, start, o[c].0, o[c].1 as nat));
                    assert(o[c].0 == start || named(o[c].0)) by {
                        if c >= 1 {
                            assert(named(o[c].0));
                        }
                    }
                    assert(reachable_within(g, named, start, n.id, (d + 1) as nat)) by {
                        let path = choose|path: Seq<i64>|
                            #[trigger] is_walk(g, named, start, path) && path.len() <= d + 1 && path.last() == o[c].0;
                        if c == 0 {
                            assert(path.len() == 1);
                        }
                        lemma_walk_extend(g, named, start, path, n.id);
                        assert(path.push(n.id).last() == n.id);
                    }
                    assert(ro.skip(ro.len() - r.queue.len()) =~= r.queue) by {
                        assert(t.queue =~= ot.skip(ot.len() - t.queue.len()));
                    }
                    assert forall|i: int, j: int| 0 <= i <= j < ro.len() implies (#[trigger] ro[i]).1 <= (#[trigger] ro[j]).1 by {
                        if j == ot.len() {
                            if i < ot.len() {
                                assert(ot[i].1 <= o[c].1 + 1) by {
                                    assert(walk_layered(t, c));
                                }
                            }
                        } else {
                            assert(ro[i] == ot[i] && ro[j] == ot[j]);
                        }
                    }
                    assert forall|i: int, j: int| 0 <= i < j < ro.len() implies (#[trigger] ro[i]).0 != (#[trigger] ro[j]).0 by {
                        if j == ot.len() {
                            assert(t.visited.contains(ot[i].0));
                        } else {
                            assert(ro[i] == ot[i] && ro[j] == ot[j]);
                        }
                    }
                    assert forall|j: int| 0 <= j < ro.len() implies r.visited.contains((#[trigger] ro[j]).0) by {
                        if j < ot.len() {
                            assert(ro[j] == ot[j]);
                            assert(t.visited.contains(ot[j].0));
                        }
                    }
                    assert forall|j: int| 1 <= j < ro.len() implies named((#[trigger] ro[j]).0) by {
                        if j < ot.len() {
                            assert(ro[j] == ot[j]);
                        }
                    }
                    assert forall|x: i64| #![trigger r.visited.contains(x), named(x)] r.visited.contains(x) && named(x) implies exists|j: int|
                        0 <= j < ro.len() && (#[trigger] ro[j]).0 == x by {
                        if x == n.id {
                            assert(ro[ot.len() as int].0 == x);
                        } else {
                            assert(t.visited.contains(x));
                            let j = choose|j: int| 0 <= j < ot.len() && (#[trigger] ot[j]).0 == x;
                            assert(ro[j] == ot[j]);
                        }
                    }
                    assert forall|j: int| 0 <= j < ro.len() implies (#[trigger] ro[j]).1 <= max_depth && reachable_within(
                        g,
                        named,
                        start,
                        ro[j].0,
                        ro[j].1 as nat,
                    ) by {
                        if j < ot.len() {
                            assert(ro[j] == ot[j]);
                        }
                    }
                    assert(ro.take(o.len() as int) =~= o) by {
                        assert forall|j: int| 0 <= j < o.len() implies ro.take(o.len() as int)[j] == o[j] by {
                            assert(ro[j] == ot[j]);
                        }
                    }
                    assert forall|x: i64| s.visited.contains(x) implies #[trigger] r.visited.contains(x) by {
                        assert(t.visited.contains(x));
                    }
                    assert(walk_expanded(g, named, max_depth, r, c)) by {
                        assert forall|i: int, m: int|
                            0 <= i < c && i < ro.len() && ro[i].1 < max_depth && 0 <= m < g(ro[i].0).len() implies {
                            &&& r.visited.contains((#[trigger] g(ro[i].0)[m]).id)
                            &&& named(g(ro[i].0)[m].id) ==> exists|j: int|
                                0 <= j < ro.len() && (#[trigger] ro[j]).0 == g(ro[i].0)[m].id && ro[j].1 <= ro[i].1 + 1
                        } by {
                            assert(ro[i] == ot[i]);
                            assert(t.visited.contains(g(ot[i].0)[m].id));
                            if named(g(ot[i].0)[m].id) {
                                let j = choose|j: int|
                                    0 <= j < ot.len() && (#[trigger] ot[j]).0 == g(ot[i].0)[m].id && ot[j].1 <= ot[i].1 + 1;
                                assert(ro[j] == ot[j]);
                            }
                        }
                    }
                    assert(walk_layered(r, c)) by {
                        assert forall|j: int| 0 <= j < ro.len() implies (#[trigger] ro[j]).1 <= ro[c].1 + 1 by {
                            assert(ro[c] == o[c]);
                            if j < ot.len() {
                                assert(ro[j] == ot[j]);
                                assert(walk_layered(t, c));
                            }
                        }
                    }
                    assert forall|i: int| 0 <= i < nbs.len() implies {
                        &&& r.visited.contains((#[trigger] nbs[i]).id)
                        &&& named(nbs[i].id) ==> exists|j: int|
                            0 <= j < ro.len() && (#[trigger] ro[j]).0 == nbs[i].id && ro[j].1 <= d + 1
                    } by {
                        if i < nbs0.len() {
                            assert(nbs0[i] == nbs[i]);
                            assert(t.visited.contains(nbs0[i].id));
                            if named(nbs[i].id) {
                                let j = choose|j: int| 0 <= j < ot.len() && (#[trigger] ot[j]).0 == nbs0[i].id && ot[j].1 <= d + 1;
                                assert(ro[j] == ot[j]);
                            }
                        } else {
                            assert(nbs[i] == n);
                            assert(ro[ot.len() as int] == e);
                        }
                    }
                },
                None => {
                    assert(!named(n.id));
                    assert(r.order == ot && r.queue == t.queue && r.found == t.found);
                    assert(r.visited == t.visited.push(n.id));
                    assert forall|j: int| 0 <= j < ot.len() implies r.visited.contains((#[trigger] ot[j]).0) by {
                        assert(t.visited.contains(ot[j].0));
                    }
                    assert forall|x: i64| #![trigger r.visited.contains(x), named(x)] r.visited.contains(x) && named(x) implies exists|j: int|
                        0 <= j < ot.len() && (#[trigger] ot[j]).0 == x by {
                        assert(t.visited.contains(x));
                    }
                    assert forall|x: i64| s.visited.contains(x) implies #[trigger] r.visited.contains(x) by {
                        assert(t.visited.contains(x));
                    }
                    assert(walk_expanded(g, named, max_depth, r, c)) by {
                        assert forall|i: int, m: int|
                            0 <= i < c && i < ot.len() && ot[i].1 < max_depth && 0 <= m < g(ot[i].0).len() implies {
                            &&& r.visited.contains((#[trigger] g(ot[i].0)[m]).id)
                            &&& named(g(ot[i].0)[m].id) ==> exists|j: int|
                                0 <= j < ot.len() && (#[trigger] ot[j]).0 == g(ot[i].0)[m].id && ot[j].1 <= ot[i].1 + 1
                        } by {
                            assert(t.visited.contains(g(ot[i].0)[m].id));
                        }
                    }
                    assert forall|i: int| 0 <= i < nbs.len() implies {
                        &&& r.visited.contains((#[trigger] nbs[i]).id)
                        &&& named(nbs[i].id) ==> exists|j: int|
                            0 <= j < ot.len() && (#[trigger] ot[j]).0 == nbs[i].id && ot[j].1 <= d + 1
                    } by {
                        if i < nbs0.len() {
                            assert(nbs0[i] == nbs[i]);
                            assert(t.visited.contains(nbs0[i].id));
                        } else {
                            assert(nbs[i] == n);
                        }
                    }
                },
            }
        }
    }
}

proof fn lemma_walk_run(
    g: spec_fn(i64) -> Seq<NeighborV>,
    named: spec_fn(i64) -> bool,
    start: i64,
    max_depth: u32,
    s: ImpactStateV,
    fuel: nat,
)
    requires
        listing_ok(g, named),
        walk_inv(g, named, start, max_depth, s),
    ensures
        walk_inv(g, named, start, max_depth, impact_run(g, s, max_depth, fuel)),
    decreases fuel,
{
    if fuel > 0 {
        lemma_walk_next(g, named, start, max_depth, s);
        let (s2, x) = impact_next(s, max_depth);
        match x {
            None => {},
            Some(x) => {
                let c = queue_pos(s2) - 1;
                let nbs = g(x.0);
                assert forall|i: int| 0 <= i < nbs.len() implies neighbor_ids(g(s2.order[c].0)).contains((#[trigger] nbs[i]).id)
                    && (nbs[i].symbol is Some <==> named(nbs[i].id)) by {
                    assert(neighbor_ids(nbs)[i] == nbs[i].id);
                    assert(g(x.0)[i] == nbs[i]);
                }
                lemma_walk_visit(g, named, start, max_depth, s2, c, nbs);
                let s3 = impact_visit(s2, x.1, nbs);
                let o3 = s3.order;
                assert(queue_pos(s3) == c + 1);
                assert(walk_expanded(g, named, max_depth, s3, c + 1)) by {
                    assert forall|i: int, m: int|
                        0 <= i < c + 1 && i < o3.len() && o3[i].1 < max_depth && 0 <= m < g(o3[i].0).len() implies {
                        &&& s3.visited.contains((#[trigger] g(o3[i].0)[m]).id)
                        &&& named(g(o3[i].0)[m].id) ==> exists|j: int|
                            0 <= j < o3.len() && (#[trigger] o3[j]).0 == g(o3[i].0)[m].id && o3[j].1 <= o3[i].1 + 1
                    } by {
                        if i == c {
                            assert(o3.take(s2.order.len() as int)[c] == o3[c]);
                            assert(o3[c] == x);
                            assert(g(o3[i].0)[m] == nbs[m]);
                        }
                    }
                }
                if c + 1 < o3.len() {
                    assert forall|j: int| 0 <= j < o3.len() implies (#[trigger] o3[j]).1 <= o3[c + 1].1 + 1 by {
                        assert(o3[c].1 <= o3[c + 1].1);
                    }
                }
                lemma_walk_run(g, named, start, max_depth, s3, (fuel - 1) as nat);
            },
        }
    }
}

proof fn lemma_walk_extend(
    g: spec_fn(i64) -> Seq<NeighborV>,
    named: spec_fn(i64) -> bool,
    start: i64,
    path: Seq<i64>,
    v: i64,
)
    requires
        is_walk(g, named, start, path),
        path.len() == 1 || named(path.last()),
        neighbor_ids(g(path.last())).contains(v),
    ensures
        is_walk(g, named, start, path.push(v)),
{
    let q = path.push(v);
    assert forall|i: int| 0 <= i < q.len() - 1 implies #[trigger] walk_step(g, named, q, i) by {
        assert(q[i] == path[i]);
        if i < path.len() - 1 {
            assert(walk_step(g, named, path, i));
            assert(q[i + 1] == path[i + 1]);
        } else {
            assert(q[i + 1] == v);
        }
    }
}

/// In a finished traversal every node reached by a walk within the depth
/// limit that is the start or names a symbol was queued, no deeper than the
/// walk is long.
proof fn lemma_walk_complete(
    g: spec_fn(i64) -> Seq<NeighborV>,
    named: spec_fn(i64) -> bool,
    start: i64,
    max_depth: u32,
    s: ImpactStateV,
    path: Seq<i64>,
)
    requires
        walk_core(g, named, start, max_depth, s),
        walk_expanded(g, named, max_depth, s, s.order.len() as int),
        is_walk(g, named, start, path),
        path.len() <= max_depth + 1,
        path.last() == start || named(path.last()),
    ensures
        exists|j: int| 0 <= j < s.order.len() && (#[trigger] s.order[j]).0 == path.last() && s.order[j].1 + 1 <= path.len(),
    decreases path.len(),
{
    let o = s.order;
    let v = path.last();
    if path.len() == 1 {
        assert(o[0].0 == v);
    } else {
        let p2 = path.drop_last();
        assert forall|i: int| 0 <= i < p2.len() - 1 implies #[trigger] walk_step(g, named, p2, i) by {
            assert(walk_step(g, named, path, i));
            assert(p2[i] == path[i] && p2[i + 1] == path[i + 1]);
        }
        let l = path.len() - 2;
        assert(walk_step(g, named, path, l));
        let u = p2.last();
        assert(u == path[l]);
        lemma_walk_complete(g, named, start, max_depth, s, p2);
        let ju = choose|j: int| 0 <= j < o.len() && (#[trigger] o[j]).0 == u && o[j].1 + 1 <= p2.len();
        assert(neighbor_ids(g(u)).contains(v));
        let m = choose|m: int| 0 <= m < neighbor_ids(g(u)).len() && #[trigger] neighbor_ids(g(u))[m] == v;
        assert(g(o[ju].0)[m].id == v);
        if named(v) {
            let j = choose|j: int| 0 <= j < o.len() && (#[trigger] o[j]).0 == g(o[ju].0)[m].id && o[j].1 <= o[ju].1 + 1;
            assert(o[j].0 == v);
        } else {
            assert(o[0].0 == v);
        }
    }
}

proof fn lemma_walk_narrower(
    g: spec_fn(i64) -> Seq<NeighborV>,
    h: spec_fn(i64) -> Seq<NeighborV>,
    named: spec_fn(i64) -> bool,
    start: i64,
    path: Seq<i64>,
)
    requires
        listing_within(h, g),
        is_walk(h, named, start, path),
    ensures
        is_walk(g, named, start, path),
{
    assert forall|i: int| 0 <= i < path.len() - 1 implies #[trigger] walk_step(g, named, path, i) by {
        assert(walk_step(h, named, path, i));
        let u = path[i];
        let m = choose|m: int| 0 <= m < neighbor_ids(h(u)).len() && #[trigger] neighbor_ids(h(u))[m] == path[i + 1];
        assert(h(u)[m].id == path[i + 1]);
    }
}

/// A narrower listing never widens an impact. When every neighbour that
/// listing `h` gives (calls only, say) is also given by listing `g` (every
/// relationship), both marking symbols as `named` says, then a traversal from
/// the same start under the same depth limit that follows `h`, however far
/// it named run, named queued only nodes that the finished traversal following
/// `g` queued, and so reports no more affected symbols.
pub proof fn law_narrower_listing_narrower_impact(
    g: spec_fn(i64) -> Seq<NeighborV>,
    h: spec_fn(i64) -> Seq<NeighborV>,
    named: spec_fn(i64) -> bool,
    start: i64,
    max_depth: u32,
    fuel_g: nat,
    fuel_h: nat,
)
    requires
        listing_ok(g, named),
        listing_ok(h, named),
        listing_within(h, g),
        impact_next(impact_run(g, impact_start(start), max_depth, fuel_g), max_depth).1 is None,
    ensures
        forall|j: int|
            0 <= j < impact_run(h, impact_start(start), max_depth, fuel_h).order.len() ==> exists|k: int|
                0 <= k < impact_run(g, impact_start(start), max_depth, fuel_g).order.len()
                    && impact_run(g, impact_start(start), max_depth, fuel_g).order[k].0 == (#[trigger] impact_run(
                    h,
                    impact_start(start),
                    max_depth,
                    fuel_h,
                ).order[j]).0,
        impact_run(h, impact_start(start), max_depth, fuel_h).found.len() <= impact_run(
            g,
            impact_start(start),
            max_depth,
            fuel_g,
        ).found.len(),
{
    let sg = impact_run(g, impact_start(start), max_depth, fuel_g);
    let sh = impact_run(h, impact_start(start), max_depth, fuel_h);
    lemma_walk_start(g, named, start, max_depth);
    lemma_walk_start(h, named, start, max_depth);
    lemma_walk_run(g, named, start, max_depth, impact_start(start), fuel_g);
    lemma_walk_run(h, named, start, max_depth, impact_start(start), fuel_h);
    lemma_walk_next(g, named, start, max_depth, sg);
    let fin = impact_next(sg, max_depth).0;
    let og = sg.order;
    let oh = sh.order;
    assert forall|j: int| 0 <= j < oh.len() implies exists|k: int| 0 <= k < og.len() && og[k].0 == (#[trigger] oh[j]).0 by {
        assert(reachable_within(h, named, start, oh[j].0, oh[j].1 as nat));
        let path = choose|path: Seq<i64>|
            #[trigger] is_walk(h, named, start, path) && path.len() <= oh[j].1 + 1 && path.last() == oh[j].0;
        lemma_walk_narrower(g, h, named, start, path);
        if j >= 1 {
            assert(named(oh[j].0));
        } else {
            assert(oh[0].0 == start);
        }
        lemma_walk_complete(g, named, start, max_depth, fin, path);
    }
    // distinct ids, contained in distinct ids: no more of them
    let ih = oh.map_values(|e: (i64, u32)| e.0);
    let ig = og.map_values(|e: (i64, u32)| e.0);
    assert(ih.no_duplicates()) by {
        assert forall|a: int, b: int| 0 <= a < ih.len() && 0 <= b < ih.len() && a != b implies ih[a] != ih[b] by {
            if a < b {
                assert(oh[a].0 != oh[b].0);
            } else {
                assert(oh[b].0 != oh[a].0);
            }
        }
    }
    assert(ig.no_duplicates()) by {
        assert forall|a: int, b: int| 0 <= a < ig.len() && 0 <= b < ig.len() && a != b implies ig[a] != ig[b] by {
            if a < b {
                assert(og[a].0 != og[b].0);
            } else {
                assert(og[b].0 != og[a].0);
            }
        }
    }
    assert(ih.to_set().subset_of(ig.to_set())) by {
        assert forall|x: i64| ih.to_set().contains(x) implies ig.to_set().contains(x) by {
            assert(ih.contains(x));
            let j = choose|j: int| 0 <= j < ih.len() && ih[j] == x;
            assert(oh[j].0 == x);
            let k = choose|k: int| 0 <= k < og.len() && og[k].0 == oh[j].0;
            assert(ig[k] == x);
            assert(ig.contains(x));
        }
    }
    ih.unique_seq_to_set();
    ig.unique_seq_to_set();
    vstd::seq_lib::seq_to_set_is_finite(ig);
    vstd::set_lib::lemma_len_subset(ih.to_set(), ig.to_set());
}


/// A finished impact traversal records each node at its distance: every
/// queued node is reached within its depth and within no fewer steps, and
/// every node reached within the depth limit that is the start or names a
/// symbol was queued, no deeper than that.
pub proof fn law_impact_depth_is_distance(
    g: spec_fn(i64) -> Seq<NeighborV>,
    named: spec_fn(i64) -> bool,
    start: i64,
    max_depth: u32,
    fuel: nat,
)
    requires
        listing_ok(g, named),
        impact_next(impact_run(g, impact_start(start), max_depth, fuel), max_depth).1 is None,
    ensures
        forall|j: int|
            0 <= j < impact_run(g, impact_start(start), max_depth, fuel).order.len() ==> {
                let e = #[trigger] impact_run(g, impact_start(start), max_depth, fuel).order[j];
                &&& reachable_within(g, named, start, e.0, e.1 as nat)
                &&& forall|k: nat| k < e.1 ==> !#[trigger] reachable_within(g, named, start, e.0, k)
            },
        forall|v: i64, k: nat|
            k <= max_depth && #[trigger] reachable_within(g, named, start, v, k) && (v == start || named(v)) ==> exists|
                j: int,
            |
                0 <= j < impact_run(g, impact_start(start), max_depth, fuel).order.len() && (#[trigger] impact_run(
                    g,
                    impact_start(start),
                    max_depth,
                    fuel,
                ).order[j]).0 == v && impact_run(g, impact_start(start), max_depth, fuel).order[j].1 <= k,
{
    let sg = impact_run(g, impact_start(start), max_depth, fuel);
    lemma_walk_start(g, named, start, max_depth);
    lemma_walk_run(g, named, start, max_depth, impact_start(start), fuel);
    lemma_walk_next(g, named, start, max_depth, sg);
    let fin = impact_next(sg, max_depth).0;
    let o = sg.order;
    assert forall|v: i64, k: nat|
        k <= max_depth && #[trigger] reachable_within(g, named, start, v, k) && (v == start || named(v)) implies exists|j: int|
        0 <= j < o.len() && (#[trigger] o[j]).0 == v && o[j].1 <= k by {
        let path = choose|path: Seq<i64>| #[trigger] is_walk(g, named, start, path) && path.len() <= k + 1 && path.last() == v;
        lemma_walk_complete(g, named, start, max_depth, fin, path);
    }
    assert forall|j: int| 0 <= j < o.len() implies {
        let e = #[trigger] o[j];
        &&& reachable_within(g, named, start, e.0, e.1 as nat)
        &&& forall|k: nat| k < e.1 ==> !#[trigger] reachable_within(g, named, start, e.0, k)
    } by {
        let e = o[j];
        assert forall|k: nat| k < e.1 implies !#[trigger] reachable_within(g, named, start, e.0, k) by {
            if reachable_within(g, named, start, e.0, k) {
                if j >= 1 {
                    assert(named(o[j].0));
                } else {
                    assert(o[0].0 == start);
                }
                let path = choose|path: Seq<i64>|
                    #[trigger] is_walk(g, named, start, path) && path.len() <= k + 1 && path.last() == e.0;
                lemma_walk_complete(g, named, start, max_depth, fin, path);
                let j2 = choose|j2: int| 0 <= j2 < o.len() && (#[trigger] o[j2]).0 == e.0 && o[j2].1 + 1 <= path.len();
                if j2 != j {
                    if j2 < j {
                        assert(o[j2].0 != o[j].0);
                    } else {
                        assert(o[j].0 != o[j2].0);
                    }
                }
            }
        }
    }
}

// ─── Grouped search ─────────────────────────────────────────────────

/// Best hit first: no hit comes before one listed ahead of it.
pub open spec fn best_first(s: Seq<HitV>) -> bool {
    forall|i: int, j: int| 0 <= i < j < s.len() ==> !hit_before(#[trigger] s[j], #[trigger] s[i])
}

/// No two hits share an id.
pub open spec fn hit_ids_distinct(s: Seq<HitV>) -> bool {
    forall|i: int, j: int| 0 <= i < j < s.len() ==> (#[trigger] s[i]).id != (#[trigger] s[j]).id
}

proof fn lemma_insert_hit_props(s: Seq<HitV>, x: HitV)
    requires
        best_first(s),
    ensures
        best_first(insert_hit(s, x)),
        insert_hit(s, x).len() == s.len() + 1,
        forall|y: HitV| #[trigger] insert_hit(s, x).contains(y) <==> (y == x || s.contains(y)),
        hit_ids_distinct(s) && (forall|k: int| 0 <= k < s.len() ==> (#[trigger] s[k]).id != x.id) ==> hit_ids_distinct(
            insert_hit(s, x),
        ),
    decreases s.len(),
{
    let r = insert_hit(s, x);
    if s.len() == 0 {
        assert(r == seq![x]);
        assert forall|y: HitV| #[trigger] r.contains(y) <==> (y == x || s.contains(y)) by {
            if y == x {
                assert(r[0] == x);
            }
        }
    } else if hit_before(x, s[0]) {
        assert(r == seq![x] + s);
        assert forall|a: int, b: int| 0 <= a < b < r.len() implies !hit_before(#[trigger] r[b], #[trigger] r[a]) by {
            if a == 0 {
                assert(r[b] == s[b - 1]);
                if b - 1 > 0 {
                    assert(!hit_before(s[b - 1], s[0]));
                }
            } else {
                assert(r[a] == s[a - 1] && r[b] == s[b - 1]);
            }
        }
        assert forall|y: HitV| #[trigger] r.contains(y) <==> (y == x || s.contains(y)) by {
            if y == x {
                assert(r[0] == x);
            }
            if s.contains(y) {
                let k = choose|k: int| 0 <= k < s.len() && s[k] == y;
                assert(r[k + 1] == y);
            }
            if r.contains(y) {
                let k = choose|k: int| 0 <= k < r.len() && r[k] == y;
                if k > 0 {
                    assert(s[k - 1] == y);
                }
            }
        }
        if hit_ids_distinct(s) && (forall|k: int| 0 <= k < s.len() ==> (#[trigger] s[k]).id != x.id) {
            assert forall|a: int, b: int| 0 <= a < b < r.len() implies (#[trigger] r[a]).id != (#[trigger] r[b]).id by {
                if a == 0 {
                    assert(r[b] == s[b - 1]);
                } else {
                    assert(r[a] == s[a - 1] && r[b] == s[b - 1]);
                }
            }
        }
    } else {
        let t = s.drop_first();
        assert(best_first(t)) by {
            assert forall|a: int, b: int| 0 <= a < b < t.len() implies !hit_before(#[trigger] t[b], #[trigger] t[a]) by {
                assert(t[a] == s[a + 1] && t[b] == s[b + 1]);
            }
        }
        lemma_insert_hit_props(t, x);
        let rt = insert_hit(t, x);
        assert(r == seq![s[0]] + rt);
        assert forall|a: int, b: int| 0 <= a < b < r.len() implies !hit_before(#[trigger] r[b], #[trigger] r[a]) by {
            if a == 0 {
                assert(r[b] == rt[b - 1]);
                assert(rt.contains(rt[b - 1]));
                if rt[b - 1] != x {
                    let k = choose|k: int| 0 <= k < t.len() && t[k] == rt[b - 1];
                    assert(s[k + 1] == t[k]);
                }
            } else {
                assert(r[a] == rt[a - 1] && r[b] == rt[b - 1]);
            }
        }
        assert forall|y: HitV| #[trigger] r.contains(y) <==> (y == x || s.contains(y)) by {
            if r.contains(y) {
                let k = choose|k: int| 0 <= k < r.len() && r[k] == y;
                if k == 0 {
                    assert(s[0] == y);
                } else {
                    assert(rt[k - 1] == y);
                    assert(rt.contains(y));
                    if y != x {
                        let m = choose|m: int| 0 <= m < t.len() && t[m] == y;
                        assert(s[m + 1] == y);
                    }
                }
            }
            if y == x || s.contains(y) {
                if y == s[0] {
                    assert(r[0] == y);
                } else {
                    if y != x {
                        let k = choose|k: int| 0 <= k < s.len() && s[k] == y;
                        assert(t[k - 1] == y);
                        assert(t.contains(y));
                    }
                    assert(rt.contains(y));
                    let m = choose|m: int| 0 <= m < rt.len() && rt[m] == y;
                    assert(r[m + 1] == y);
                }
            }
        }
        if hit_ids_distinct(s) && (forall|k: int| 0 <= k < s.len() ==> (#[trigger] s[k]).id != x.id) {
            assert(hit_ids_distinct(t)) by {
                assert forall|a: int, b: int| 0 <= a < b < t.len() implies (#[trigger] t[a]).id != (#[trigger] t[b]).id by {
                    assert(t[a] == s[a + 1] && t[b] == s[b + 1]);
                }
            }
            assert forall|k: int| 0 <= k < t.len() implies (#[trigger] t[k]).id != x.id by {
                assert(t[k] == s[k + 1]);
            }
            assert forall|a: int, b: int| 0 <= a < b < r.len() implies (#[trigger] r[a]).id != (#[trigger] r[b]).id by {
                if a == 0 {
                    assert(r[b] == rt[b - 1]);
                    assert(rt.contains(rt[b - 1]));
                    if rt[b - 1] != x {
                        let k = choose|k: int| 0 <= k < t.len() && t[k] == rt[b - 1];
                        assert(s[k + 1] == t[k]);
                    }
                } else {
                    assert(r[a] == rt[a - 1] && r[b] == rt[b - 1]);
                }
            }
        }
    }
}

proof fn lemma_sort_hits_props(s: Seq<HitV>)
    ensures
        best_first(sort_hits(s)),
        forall|y: HitV| #[trigger] sort_hits(s).contains(y) <==> s.contains(y),
        hit_ids_distinct(s) ==> hit_ids_distinct(sort_hits(s)),
    decreases s.len(),
{
    if s.len() > 0 {
        let t = s.drop_last();
        let x = s.last();
        lemma_sort_hits_props(t);
        let b = sort_hits(t);
        lemma_insert_hit_props(b, x);
        assert(s[s.len() - 1] == x);
        assert forall|y: HitV| #[trigger] sort_hits(s).contains(y) <==> s.contains(y) by {
            if s.contains(y) && y != x {
                let k = choose|k: int| 0 <= k < s.len() && s[k] == y;
                assert(t[k] == y);
                assert(t.contains(y));
            }
            if t.contains(y) {
                let k = choose|k: int| 0 <= k < t.len() && t[k] == y;
                assert(s[k] == y);
            }
        }
        if hit_ids_distinct(s) {
            assert(hit_ids_distinct(t)) by {
                assert forall|a: int, c: int| 0 <= a < c < t.len() implies (#[trigger] t[a]).id != (#[trigger] t[c]).id by {
                    assert(t[a] == s[a] && t[c] == s[c]);
                }
            }
            assert forall|k: int| 0 <= k < b.len() implies (#[trigger] b[k]).id != x.id by {
                assert(b.contains(b[k]));
                let m = choose|m: int| 0 <= m < t.len() && t[m] == b[k];
                assert(s[m] == t[m]);
            }
        }
    }
}

proof fn lemma_hit_for(hits: Seq<HitV>, id: i64)
    ensures
        hit_for(hits, id) matches Some(h) ==> h.id == id,
        (exists|k: int| 0 <= k < hits.len() && (#[trigger] hits[k]).id == id) ==> hit_for(hits, id) is Some,
    decreases hits.len(),
{
    if hits.len() > 0 {
        lemma_hit_for(hits.drop_last(), id);
        if hits.last().id != id {
            if exists|k: int| 0 <= k < hits.len() && (#[trigger] hits[k]).id == id {
                let k = choose|k: int| 0 <= k < hits.len() && (#[trigger] hits[k]).id == id;
                assert(hits.drop_last()[k] == hits[k]);
            }
        }
    }
}

proof fn lemma_unplaced_props(hits: Seq<HitV>, rows: Seq<StepRowV>, upto: nat)
    requires
        upto <= hits.len(),
    ensures
        hit_ids_distinct(unplaced_hits(hits, rows, upto)),
        forall|i: int|
            0 <= i < unplaced_hits(hits, rows, upto).len() ==> !in_some_process(
                rows,
                (#[trigger] unplaced_hits(hits, rows, upto)[i]).id,
            ),
        forall|k: int|
            0 <= k < upto && !in_some_process(rows, (#[trigger] hits[k]).id) ==> exists|i: int|
                0 <= i < unplaced_hits(hits, rows, upto).len() && unplaced_hits(hits, rows, upto)[i].id == hits[k].id,
    decreases upto,
{
    if upto > 0 {
        lemma_unplaced_props(hits, rows, (upto - 1) as nat);
        let r = unplaced_hits(hits, rows, (upto - 1) as nat);
        let u = unplaced_hits(hits, rows, upto);
        let id = hits[upto - 1].id;
        let ids = r.map_values(|h: HitV| h.id);
        if !in_some_process(rows, id) && !ids.contains(id) {
            lemma_hit_for(hits, id);
            assert(hits[upto - 1].id == id);
            let h = hit_for(hits, id)->0;
            assert(u == r.push(h));
            assert forall|a: int, b: int| 0 <= a < b < u.len() implies (#[trigger] u[a]).id != (#[trigger] u[b]).id by {
                if b == r.len() {
                    assert(u[a] == r[a]);
                    assert(ids[a] == r[a].id);
                } else {
                    assert(u[a] == r[a] && u[b] == r[b]);
                }
            }
            assert forall|i: int| 0 <= i < u.len() implies !in_some_process(rows, (#[trigger] u[i]).id) by {
                if i < r.len() {
                    assert(u[i] == r[i]);
                }
            }
            assert forall|k: int| 0 <= k < upto && !in_some_process(rows, (#[trigger] hits[k]).id) implies exists|i: int|
                0 <= i < u.len() && u[i].id == hits[k].id by {
                if k < upto - 1 {
                    let i = choose|i: int| 0 <= i < r.len() && r[i].id == hits[k].id;
                    assert(u[i] == r[i]);
                } else {
                    assert(u[r.len() as int].id == id);
                }
            }
        } else {
            assert(u == r);
            assert forall|k: int| 0 <= k < upto && !in_some_process(rows, (#[trigger] hits[k]).id) implies exists|i: int|
                0 <= i < u.len() && u[i].id == hits[k].id by {
                if k == upto - 1 {
                    let i = choose|i: int| 0 <= i < ids.len() && ids[i] == id;
                    assert(ids[i] == r[i].id);
                }
            }
        }
    }
}

/// Grouped search lists as definitions the hits that no process shows:
/// best score first (ties by smaller id), each id once, none that a
/// process shows, and every hit that no process shows.
pub proof fn law_grouped_definitions(hits: Seq<HitV>, rows: Seq<StepRowV>)
    ensures
        best_first(sort_hits(unplaced_hits(hits, rows, hits.len()))),
        hit_ids_distinct(sort_hits(unplaced_hits(hits, rows, hits.len()))),
        forall|i: int|
            0 <= i < sort_hits(unplaced_hits(hits, rows, hits.len())).len() ==> !in_some_process(
                rows,
                (#[trigger] sort_hits(unplaced_hits(hits, rows, hits.len()))[i]).id,
            ),
        forall|k: int|
            0 <= k < hits.len() && !in_some_process(rows, (#[trigger] hits[k]).id) ==> exists|i: int|
                0 <= i < sort_hits(unplaced_hits(hits, rows, hits.len())).len() && sort_hits(
                    unplaced_hits(hits, rows, hits.len()),
                )[i].id == hits[k].id,
{
    let u = unplaced_hits(hits, rows, hits.len());
    let d = sort_hits(u);
    lemma_unplaced_props(hits, rows, hits.len());
    lemma_sort_hits_props(u);
    assert forall|i: int| 0 <= i < d.len() implies !in_some_process(rows, (#[trigger] d[i]).id) by {
        assert(d.contains(d[i]));
        let m = choose|m: int| 0 <= m < u.len() && u[m] == d[i];
    }
    assert forall|k: int| 0 <= k < hits.len() && !in_some_process(rows, (#[trigger] hits[k]).id) implies exists|i: int|
        0 <= i < d.len() && d[i].id == hits[k].id by {
        let i = choose|i: int| 0 <= i < u.len() && u[i].id == hits[k].id;
        assert(u.contains(u[i]));
        assert(d.contains(u[i]));
        let j = choose|j: int| 0 <= j < d.len() && d[j] == u[i];
        assert(d[j].id == hits[k].id);
    }
}

// ─── Deeper limits, more nodes ──────────────────────────────────────

/// The state in which a reachability traversal from `start` begins.
pub open spec fn reach_start(start: i64) -> ReachStateV {
    ReachStateV {
        visited: seq![start],
        frontier: seq![start],
        result: Seq::empty(),
        capped: false,
        depth: 1,
        done: false,
    }
}

/// A reachability traversal driven for up to `fuel` expansions: while an
/// expansion is due, expand with the answer `next` gives for the state (the
/// new neighbours of its frontier).
pub open spec fn reach_run(
    next: spec_fn(ReachStateV) -> Seq<i64>,
    s: ReachStateV,
    max_depth: u32,
    capacity: usize,
    fuel: nat,
) -> ReachStateV
    decreases fuel,
{
    if fuel == 0 {
        s
    } else {
        let h = reach_head(s, max_depth, capacity);
        if h.done {
            h
        } else {
            reach_run(next, reach_step(h, next(h), capacity), max_depth, capacity, (fuel - 1) as nat)
        }
    }
}

proof fn lemma_reach_run_extends(
    next: spec_fn(ReachStateV) -> Seq<i64>,
    s: ReachStateV,
    max_depth: u32,
    capacity: usize,
    fuel: nat,
)
    ensures
        reach_run(next, s, max_depth, capacity, fuel).result.len() >= s.result.len(),
        reach_run(next, s, max_depth, capacity, fuel).result.take(s.result.len() as int) == s.result,
    decreases fuel,
{
    let r = reach_run(next, s, max_depth, capacity, fuel);
    if fuel == 0 || reach_head(s, max_depth, capacity).done {
        assert(r.result.take(s.result.len() as int) =~= s.result);
    } else {
        let h = reach_head(s, max_depth, capacity);
        let t = reach_step(h, next(h), capacity);
        lemma_reach_run_extends(next, t, max_depth, capacity, (fuel - 1) as nat);
        assert(t.result.take(s.result.len() as int) =~= s.result);
        assert(r.result.take(s.result.len() as int) =~= r.result.take(t.result.len() as int).take(s.result.len() as int));
    }
}

proof fn lemma_reach_run_deeper(
    next: spec_fn(ReachStateV) -> Seq<i64>,
    s: ReachStateV,
    d1: u32,
    d2: u32,
    capacity: usize,
    fuel: nat,
)
    requires
        d1 <= d2,
    ensures
        reach_run(next, s, d1, capacity, fuel).result.len() <= reach_run(next, s, d2, capacity, fuel).result.len(),
        reach_run(next, s, d2, capacity, fuel).result.take(reach_run(next, s, d1, capacity, fuel).result.len() as int)
            == reach_run(next, s, d1, capacity, fuel).result,
    decreases fuel,
{
    if fuel > 0 {
        let h1 = reach_head(s, d1, capacity);
        let h2 = reach_head(s, d2, capacity);
        if h1.done {
            lemma_reach_run_extends(next, s, d2, capacity, fuel);
            assert(h1.result == s.result);
        } else {
            assert(h2 == h1);
            lemma_reach_run_deeper(next, reach_step(h1, next(h1), capacity), d1, d2, capacity, (fuel - 1) as nat);
        }
    }
}

/// A deeper limit never finds fewer nodes: driven by the same answers
/// for the same number of expansions, a traversal with depth limit `d1`
/// finds a prefix of what one with a limit `d2 >= d1` finds.
pub proof fn law_reach_deeper_finds_more(
    next: spec_fn(ReachStateV) -> Seq<i64>,
    start: i64,
    d1: u32,
    d2: u32,
    capacity: usize,
    fuel: nat,
)
    requires
        d1 <= d2,
    ensures
        reach_run(next, reach_start(start), d1, capacity, fuel).result.len() <= reach_run(
            next,
            reach_start(start),
            d2,
            capacity,
            fuel,
        ).result.len(),
        reach_run(next, reach_start(start), d2, capacity, fuel).result.take(
            reach_run(next, reach_start(start), d1, capacity, fuel).result.len() as int,
        ) == reach_run(next, reach_start(start), d1, capacity, fuel).result,
{
    lemma_reach_run_deeper(next, reach_start(start), d1, d2, capacity, fuel);
}


/// A subgraph limited to one node holds only its start: traversals run with
/// the remaining capacity (none) find nothing and stop capped, so the start
/// node alone is kept, flagged as truncated by the node limit.
pub proof fn law_subgraph_of_one_node(
    next_out: spec_fn(ReachStateV) -> Seq<i64>,
    next_in: spec_fn(ReachStateV) -> Seq<i64>,
    start: i64,
    dir: TraversalDirection,
    max_depth: u32,
    fuel: nat,
)
    requires
        max_depth >= 1,
        fuel >= 1,
    ensures
        ({
            let o = reach_run(next_out, reach_start(start), max_depth, 0, fuel);
            let i = reach_run(next_in, reach_start(start), max_depth, 0, fuel);
            &&& o.result.len() == 0 && o.capped
            &&& i.result.len() == 0 && i.capped
            &&& subgraph_nodes(start, dir, o.result, o.capped, i.result, i.capped, 1) == (
                seq![(start, 0u32)],
                true,
                Some(node_limit_message(1)),
            )
        }),
{
    let o = reach_run(next_out, reach_start(start), max_depth, 0, fuel);
    let i = reach_run(next_in, reach_start(start), max_depth, 0, fuel);
    assert(reach_start(start).frontier.len() == 1);
    let e = Seq::<(i64, u32)>::empty();
    assert(o.result =~= e);
    assert(i.result =~= e);
    assert(merge_min_depth(e + e) =~= e) by {
        assert(e + e =~= e);
    }
    let r = reached_nodes(start, dir, o.result, i.result);
    assert(r =~= seq![(start, 0u32)]);
    assert(sort_nodes(r) =~= seq![(start, 0u32)]) by {
        let z = Seq::<(i64, u32)>::empty();
        assert(r.drop_last() =~= z);
        assert(sort_nodes(z) == z);
        assert(r.last() == (start, 0u32));
        assert(insert_node(z, (start, 0u32)) == seq![(start, 0u32)]);
    }
}

/// An impact's summary begins `Changing <name> (<direction>) affects <n>
/// symbol(s) (<d> direct)` and ends ` Risk: <risk>.`, and the risk is one
/// of `low`, `medium` and `high`.
pub proof fn law_impact_summary_shape(
    name: Seq<char>,
    direction: Seq<char>,
    total: usize,
    depth1: usize,
    has_exported_at_d1: bool,
    mod_count: usize,
    proc_count: usize,
)
    ensures
        ({
            let risk = risk_level(has_exported_at_d1, total, depth1);
            let s = impact_summary(name, direction, total, depth1, risk, mod_count, proc_count);
            let head = "Changing "@ + name + " ("@ + direction + ") affects "@ + decimal(total as nat) + " symbol(s) ("@
                + decimal(depth1 as nat) + " direct)"@;
            let tail = " Risk: "@ + risk + "."@;
            &&& risk == "low"@ || risk == "medium"@ || risk == "high"@
            &&& s.len() >= head.len() + tail.len()
            &&& s.take(head.len() as int) == head
            &&& s.skip(s.len() - tail.len()) == tail
        }),
{
    let risk = risk_level(has_exported_at_d1, total, depth1);
    let head = "Changing "@ + name + " ("@ + direction + ") affects "@ + decimal(total as nat) + " symbol(s) ("@
        + decimal(depth1 as nat) + " direct)"@;
    let tail = " Risk: "@ + risk + "."@;
    let mid = scope_phrase(mod_count, proc_count);
    let s = impact_summary(name, direction, total, depth1, risk, mod_count, proc_count);
    assert(s =~= head + mid + tail);
    assert(s.take(head.len() as int) =~= head);
    assert(s.skip(s.len() - tail.len()) =~= tail);
}

// ─── Reachability distances ─────────────────────────────────────────

/// Step `i` of `path` follows a listed neighbour.
pub open spec fn adj_step(adj: spec_fn(i64) -> Seq<i64>, path: Seq<i64>, i: int) -> bool {
    adj(path[i]).contains(path[i + 1])
}

/// A walk from `start` along the neighbours `adj` lists.
pub open spec fn reach_walk(adj: spec_fn(i64) -> Seq<i64>, start: i64, path: Seq<i64>) -> bool {
    &&& path.len() >= 1
    &&& path[0] == start
    &&& forall|i: int| 0 <= i < path.len() - 1 ==> #[trigger] adj_step(adj, path, i)
}

/// `v` is reached from `start` in at most `k` steps.
pub open spec fn within(adj: spec_fn(i64) -> Seq<i64>, start: i64, v: i64, k: nat) -> bool {
    exists|p: Seq<i64>| #[trigger] reach_walk(adj, start, p) && p.len() <= k + 1 && p.last() == v
}

/// `v` lies exactly `k` steps from `start`.
pub open spec fn at_distance(adj: spec_fn(i64) -> Seq<i64>, start: i64, v: i64, k: nat) -> bool {
    within(adj, start, v, k) && (k == 0 || !within(adj, start, v, (k - 1) as nat))
}

/// The answers a reachability traversal is driven with are, for every
/// state, the neighbours of its frontier not yet visited, each once.
pub open spec fn fresh_answers(next: spec_fn(ReachStateV) -> Seq<i64>, adj: spec_fn(i64) -> Seq<i64>) -> bool {
    forall|h: ReachStateV|
        #![trigger next(h)]
        next(h).no_duplicates() && forall|w: i64|
            #[trigger] next(h).contains(w) <==> (!h.visited.contains(w) && exists|f: i64|
                h.frontier.contains(f) && #[trigger] adj(f).contains(w))
}

/// The breadth-first state: visited are the nodes within `depth - 1`
/// steps, the frontier those exactly `depth - 1` away, every found node
/// recorded at its distance and visited, and every node within `depth - 1`
/// steps other than the start found.
pub open spec fn reach_layers(adj: spec_fn(i64) -> Seq<i64>, start: i64, s: ReachStateV) -> bool {
    &&& s.depth >= 1
    &&& forall|v: i64| #[trigger] s.visited.contains(v) <==> within(adj, start, v, (s.depth - 1) as nat)
    &&& forall|v: i64| #[trigger] s.frontier.contains(v) <==> at_distance(adj, start, v, (s.depth - 1) as nat)
    &&& forall|j: int|
        0 <= j < s.result.len() ==> 1 <= (#[trigger] s.result[j]).1 <= s.depth - 1 && at_distance(
            adj,
            start,
            s.result[j].0,
            s.result[j].1 as nat,
        ) && s.visited.contains(s.result[j].0)
    &&& forall|a: int, b: int| 0 <= a < b < s.result.len() ==> (#[trigger] s.result[a]).0 != (#[trigger] s.result[b]).0
    &&& forall|v: i64|
        v != start && #[trigger] within(adj, start, v, (s.depth - 1) as nat) ==> exists|j: int|
            0 <= j < s.result.len() && s.result[j].0 == v
}

proof fn lemma_walk_push(adj: spec_fn(i64) -> Seq<i64>, start: i64, p: Seq<i64>, w: i64)
    requires
        reach_walk(adj, start, p),
        adj(p.last()).contains(w),
    ensures
        reach_walk(adj, start, p.push(w)),
{
    let q = p.push(w);
    assert forall|i: int| 0 <= i < q.len() - 1 implies #[trigger] adj_step(adj, q, i) by {
        if i < p.len() - 1 {
            assert(adj_step(adj, p, i));
        }
        assert(q[i] == p[i]);
    }
}

proof fn lemma_within_more(adj: spec_fn(i64) -> Seq<i64>, start: i64, v: i64, k: nat, m: nat)
    requires
        within(adj, start, v, k),
        k <= m,
    ensures
        within(adj, start, v, m),
{
    let p = choose|p: Seq<i64>| #[trigger] reach_walk(adj, start, p) && p.len() <= k + 1 && p.last() == v;
    assert(reach_walk(adj, start, p) && p.len() <= m + 1);
}

/// Reached within `k + 1` steps and not within `k`: one step past a node
/// exactly `k` away.
proof fn lemma_predecessor(adj: spec_fn(i64) -> Seq<i64>, start: i64, v: i64, k: nat)
    requires
        within(adj, start, v, k + 1),
        !within(adj, start, v, k),
    ensures
        exists|u: i64| at_distance(adj, start, u, k) && #[trigger] adj(u).contains(v),
{
    let p = choose|p: Seq<i64>| #[trigger] reach_walk(adj, start, p) && p.len() <= k + 2 && p.last() == v;
    assert(p.len() == k + 2);
    let q = p.drop_last();
    let u = q.last();
    assert(reach_walk(adj, start, q)) by {
        assert forall|i: int| 0 <= i < q.len() - 1 implies #[trigger] adj_step(adj, q, i) by {
            assert(adj_step(adj, p, i));
            assert(q[i] == p[i] && q[i + 1] == p[i + 1]);
        }
    }
    assert(adj_step(adj, p, k as int));
    assert(p[k as int] == u && p[k + 1int] == v);
    assert(within(adj, start, u, k));
    if k > 0 && within(adj, start, u, (k - 1) as nat) {
        let r = choose|r: Seq<i64>| #[trigger] reach_walk(adj, start, r) && r.len() <= k && r.last() == u;
        lemma_walk_push(adj, start, r, v);
        assert(r.push(v).last() == v);
    }
    assert(at_distance(adj, start, u, k));
}

/// A node reached within `k` steps lies at some distance up to `k`.
proof fn lemma_has_distance(adj: spec_fn(i64) -> Seq<i64>, start: i64, v: i64, k: nat)
    requires
        within(adj, start, v, k),
    ensures
        exists|e: nat| e <= k && #[trigger] at_distance(adj, start, v, e),
    decreases k,
{
    if k > 0 && within(adj, start, v, (k - 1) as nat) {
        lemma_has_distance(adj, start, v, (k - 1) as nat);
    } else {
        assert(at_distance(adj, start, v, k));
    }
}

/// With no node exactly `l` away, none lies further.
proof fn lemma_empty_layer(adj: spec_fn(i64) -> Seq<i64>, start: i64, l: nat, v: i64, e: nat)
    requires
        forall|u: i64| !#[trigger] at_distance(adj, start, u, l),
        at_distance(adj, start, v, e),
    ensures
        e < l,
    decreases e,
{
    if e >= l {
        if e == l {
            assert(at_distance(adj, start, v, l));
        } else {
            lemma_predecessor(adj, start, v, (e - 1) as nat);
            let u = choose|u: i64| at_distance(adj, start, u, (e - 1) as nat) && #[trigger] adj(u).contains(v);
            lemma_empty_layer(adj, start, l, u, (e - 1) as nat);
        }
    }
}

/// One expansion with the fresh neighbours keeps the layers, unless the
/// capacity cuts it (then it is capped).
proof fn lemma_reach_step_layers(
    adj: spec_fn(i64) -> Seq<i64>,
    next: spec_fn(ReachStateV) -> Seq<i64>,
    start: i64,
    h: ReachStateV,
    max_depth: u32,
    capacity: usize,
)
    requires
        fresh_answers(next, adj),
        reach_layers(adj, start, h),
        h.depth <= max_depth,
        !h.capped,
    ensures
        !reach_step(h, next(h), capacity).capped ==> reach_layers(adj, start, reach_step(h, next(h), capacity)),
{
    let nx = next(h);
    let t = reach_step(h, nx, capacity);
    let d = h.depth;
    let d1 = (d - 1) as nat;
    // the answers are exactly the nodes d steps away
    assert forall|w: i64| #[trigger] nx.contains(w) <==> at_distance(adj, start, w, d) by {
        if nx.contains(w) {
            let f = choose|f: i64| h.frontier.contains(f) && #[trigger] adj(f).contains(w);
            assert(at_distance(adj, start, f, d1));
            let p = choose|p: Seq<i64>| #[trigger] reach_walk(adj, start, p) && p.len() <= d1 + 1 && p.last() == f;
            lemma_walk_push(adj, start, p, w);
            assert(p.push(w).last() == w);
            assert(within(adj, start, w, d));
            assert(!h.visited.contains(w));
        }
        if at_distance(adj, start, w, d) {
            lemma_predecessor(adj, start, w, d1);
            let u = choose|u: i64| at_distance(adj, start, u, d1) && #[trigger] adj(u).contains(w);
            assert(h.frontier.contains(u));
            assert(!h.visited.contains(w));
        }
    }
    if !t.capped {
        if nx.len() == 0 {
            assert forall|v: i64| !#[trigger] at_distance(adj, start, v, d) by {
                if at_distance(adj, start, v, d) {
                    assert(nx.contains(v));
                }
            }
            assert forall|v: i64| #[trigger] t.visited.contains(v) <==> within(adj, start, v, (t.depth - 1) as nat) by {
                if within(adj, start, v, d) && !within(adj, start, v, d1) {
                    assert(at_distance(adj, start, v, d));
                }
                if within(adj, start, v, d1) {
                    lemma_within_more(adj, start, v, d1, d);
                }
            }
            assert forall|v: i64| #[trigger] t.frontier.contains(v) <==> at_distance(adj, start, v, (t.depth - 1) as nat) by {}
            assert forall|v: i64|
                v != start && #[trigger] within(adj, start, v, (t.depth - 1) as nat) implies exists|j: int|
                0 <= j < t.result.len() && t.result[j].0 == v by {
                if within(adj, start, v, d1) {
                    assert(within(adj, start, v, (h.depth - 1) as nat));
                    let j = choose|j: int| 0 <= j < h.result.len() && h.result[j].0 == v;
                    assert(t.result[j] == h.result[j]);
                } else {
                    assert(at_distance(adj, start, v, d));
                    assert(false);
                }
            }
        } else {
            assert(nx.len() <= capacity - h.result.len());
            assert(t.frontier == nx);
            assert(t.visited == h.visited + nx);
            let newr = nx.map_values(|id: i64| (id, h.depth as u32));
            assert(t.result == h.result + newr);
            assert forall|v: i64| #[trigger] t.visited.contains(v) <==> within(adj, start, v, (t.depth - 1) as nat) by {
                if t.visited.contains(v) {
                    let k = choose|k: int| 0 <= k < t.visited.len() && t.visited[k] == v;
                    if k < h.visited.len() {
                        assert(h.visited[k] == v);
                        assert(h.visited.contains(v));
                        lemma_within_more(adj, start, v, d1, d);
                    } else {
                        assert(nx[k - h.visited.len()] == v);
                        assert(nx.contains(v));
                    }
                }
                if within(adj, start, v, d) {
                    if within(adj, start, v, d1) {
                        assert(h.visited.contains(v));
                        let k = choose|k: int| 0 <= k < h.visited.len() && h.visited[k] == v;
                        assert(t.visited[k] == v);
                    } else {
                        assert(at_distance(adj, start, v, d));
                        assert(nx.contains(v));
                        let k = choose|k: int| 0 <= k < nx.len() && nx[k] == v;
                        assert(t.visited[h.visited.len() + k] == v);
                    }
                }
            }
            assert forall|v: i64| #[trigger] t.frontier.contains(v) <==> at_distance(adj, start, v, (t.depth - 1) as nat) by {}
            assert forall|j: int|
                0 <= j < t.result.len() implies 1 <= (#[trigger] t.result[j]).1 <= t.depth - 1 && at_distance(
                adj,
                start,
                t.result[j].0,
                t.result[j].1 as nat,
            ) && t.visited.contains(t.result[j].0) by {
                if j < h.result.len() {
                    assert(t.result[j] == h.result[j]);
                    let v = h.result[j].0;
                    assert(h.visited.contains(v));
                    let k = choose|k: int| 0 <= k < h.visited.len() && h.visited[k] == v;
                    assert(t.visited[k] == v);
                } else {
                    let k = j - h.result.len();
                    assert(t.result[j] == newr[k]);
                    assert(newr[k] == (nx[k], h.depth as u32));
                    assert(nx.contains(nx[k]));
                    assert(t.visited[h.visited.len() + k] == nx[k]);
                }
            }
            assert forall|a: int, b: int| 0 <= a < b < t.result.len() implies (#[trigger] t.result[a]).0 != (
            #[trigger] t.result[b]).0 by {
                if b < h.result.len() {
                    assert(t.result[a] == h.result[a] && t.result[b] == h.result[b]);
                } else if a < h.result.len() {
                    let k = b - h.result.len();
                    assert(t.result[b] == newr[k]);
                    assert(t.result[a] == h.result[a]);
                    assert(nx.contains(nx[k]));
                    assert(h.visited.contains(h.result[a].0));
                } else {
                    let ka = a - h.result.len();
                    let kb = b - h.result.len();
                    assert(t.result[a] == newr[ka] && t.result[b] == newr[kb]);
                }
            }
            assert forall|v: i64|
                v != start && #[trigger] within(adj, start, v, (t.depth - 1) as nat) implies exists|j: int|
                0 <= j < t.result.len() && t.result[j].0 == v by {
                if within(adj, start, v, d1) {
                    let j = choose|j: int| 0 <= j < h.result.len() && h.result[j].0 == v;
                    assert(t.result[j] == h.result[j]);
                } else {
                    assert(at_distance(adj, start, v, d));
                    assert(nx.contains(v));
                    let k = choose|k: int| 0 <= k < nx.len() && nx[k] == v;
                    assert(t.result[h.result.len() + k] == newr[k]);
                }
            }
        }
    }
}

proof fn lemma_reach_run_layers(
    adj: spec_fn(i64) -> Seq<i64>,
    next: spec_fn(ReachStateV) -> Seq<i64>,
    start: i64,
    s: ReachStateV,
    max_depth: u32,
    capacity: usize,
    fuel: nat,
)
    requires
        fresh_answers(next, adj),
        !s.capped ==> reach_layers(adj, start, s),
        s.depth <= max_depth + 1,
    ensures
        reach_run(next, s, max_depth, capacity, fuel).depth <= max_depth + 1,
        s.capped ==> reach_run(next, s, max_depth, capacity, fuel).capped,
        !reach_run(next, s, max_depth, capacity, fuel).capped ==> reach_layers(
            adj,
            start,
            reach_run(next, s, max_depth, capacity, fuel),
        ),
        reach_run(next, s, max_depth, capacity, fuel).done ==> (reach_run(next, s, max_depth, capacity, fuel).depth
            > max_depth || reach_run(next, s, max_depth, capacity, fuel).frontier.len() == 0
            || reach_run(next, s, max_depth, capacity, fuel).capped || s.done),
    decreases fuel,
{
    if fuel > 0 {
        let h = reach_head(s, max_depth, capacity);
        if !h.done {
            if !h.capped {
                lemma_reach_step_layers(adj, next, start, h, max_depth, capacity);
            }
            let t = reach_step(h, next(h), capacity);
            lemma_reach_run_layers(adj, next, start, t, max_depth, capacity, (fuel - 1) as nat);
        }
    }
}

proof fn lemma_reach_run_capacity(
    next: spec_fn(ReachStateV) -> Seq<i64>,
    s: ReachStateV,
    max_depth: u32,
    capacity: usize,
    fuel: nat,
)
    requires
        s.result.len() <= capacity,
        s.capped ==> s.result.len() == capacity,
    ensures
        reach_run(next, s, max_depth, capacity, fuel).result.len() <= capacity,
        reach_run(next, s, max_depth, capacity, fuel).capped ==> reach_run(next, s, max_depth, capacity, fuel).result.len()
            == capacity,
    decreases fuel,
{
    if fuel > 0 {
        let h = reach_head(s, max_depth, capacity);
        if !h.done {
            let t = reach_step(h, next(h), capacity);
            lemma_reach_run_capacity(next, t, max_depth, capacity, (fuel - 1) as nat);
        }
    }
}

/// Reachability finds each node at its distance. Driven with the fresh
/// neighbours of its frontier, a traversal that the capacity did not cut
/// records every node it finds, once, at its shortest distance from the
/// start (from 1 to the depth limit, so never the start itself); and once
/// finished, it has found every node within the depth limit. It never finds
/// more than its capacity, and when cut short it found exactly that many.
pub proof fn law_reach_distances(
    adj: spec_fn(i64) -> Seq<i64>,
    next: spec_fn(ReachStateV) -> Seq<i64>,
    start: i64,
    max_depth: u32,
    capacity: usize,
    fuel: nat,
)
    requires
        fresh_answers(next, adj),
    ensures
        ({
            let fin = reach_run(next, reach_start(start), max_depth, capacity, fuel);
            &&& fin.result.len() <= capacity
            &&& fin.capped ==> fin.result.len() == capacity
            &&& !fin.capped ==> {
                &&& forall|j: int|
                    0 <= j < fin.result.len() ==> 1 <= (#[trigger] fin.result[j]).1 <= max_depth && at_distance(
                        adj,
                        start,
                        fin.result[j].0,
                        fin.result[j].1 as nat,
                    )
                &&& forall|a: int, b: int|
                    0 <= a < b < fin.result.len() ==> (#[trigger] fin.result[a]).0 != (#[trigger] fin.result[b]).0
                &&& fin.done ==> forall|v: i64, k: nat|
                    v != start && k <= max_depth && #[trigger] within(adj, start, v, k) ==> exists|j: int|
                        0 <= j < fin.result.len() && fin.result[j].0 == v
            }
        }),
{
    let s0 = reach_start(start);
    assert(reach_layers(adj, start, s0)) by {
        assert(reach_walk(adj, start, seq![start]));
        assert forall|v: i64| #[trigger] s0.visited.contains(v) <==> within(adj, start, v, 0) by {
            if within(adj, start, v, 0) {
                let p = choose|p: Seq<i64>| #[trigger] reach_walk(adj, start, p) && p.len() <= 1 && p.last() == v;
                assert(p[0] == v);
            }
            if s0.visited.contains(v) {
                assert(s0.visited[0] == start);
                assert(seq![start].last() == start);
            }
        }
        assert forall|v: i64| #[trigger] s0.frontier.contains(v) <==> at_distance(adj, start, v, 0) by {
            assert(s0.visited.contains(v) <==> within(adj, start, v, 0));
        }
        assert forall|v: i64| v != start && #[trigger] within(adj, start, v, 0) implies exists|j: int|
            0 <= j < s0.result.len() && s0.result[j].0 == v by {
            let p = choose|p: Seq<i64>| #[trigger] reach_walk(adj, start, p) && p.len() <= 1 && p.last() == v;
            assert(p[0] == v);
        }
    }
    lemma_reach_run_layers(adj, next, start, s0, max_depth, capacity, fuel);
    lemma_reach_run_capacity(next, s0, max_depth, capacity, fuel);
    let fin = reach_run(next, s0, max_depth, capacity, fuel);
    if !fin.capped {
        assert(fin.depth >= 1);
        assert forall|j: int| 0 <= j < fin.result.len() implies 1 <= (#[trigger] fin.result[j]).1 <= max_depth by {
            assert(at_distance(adj, start, fin.result[j].0, fin.result[j].1 as nat));
        }
        if fin.done {
            assert forall|v: i64, k: nat|
                v != start && k <= max_depth && #[trigger] within(adj, start, v, k) implies exists|j: int|
                0 <= j < fin.result.len() && fin.result[j].0 == v by {
                let l = (fin.depth - 1) as nat;
                if fin.depth > max_depth {
                    lemma_within_more(adj, start, v, k, l);
                } else {
                    assert(fin.frontier.len() == 0);
                    assert forall|u: i64| !#[trigger] at_distance(adj, start, u, l) by {
                        if at_distance(adj, start, u, l) {
                            assert(fin.frontier.contains(u));
                        }
                    }
                    lemma_has_distance(adj, start, v, k);
                    let e = choose|e: nat| e <= k && #[trigger] at_distance(adj, start, v, e);
                    lemma_empty_layer(adj, start, l, v, e);
                    lemma_within_more(adj, start, v, e, l);
                }
            }
        }
    }
}

} // verus!
