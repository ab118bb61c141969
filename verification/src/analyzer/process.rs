//! Execution-flow (process) detection: entry points are scored, forward
//! call paths traced breadth-first, and the traces deduplicated.

use vstd::prelude::*;
use crate::analyzer::community::{graph_nodes, index_edges, index_graph, lookup_name, name_of, strictly_sorted};
use crate::analyzer::resolver::Confidence;
use crate::text::{
    byte_len_at_least, char_is_uppercase, chars_of, concat3, contains, ends_with, is_infix_of, is_prefix_of,
    is_suffix_of, is_uppercase, lex_lt, lowercase, owned, starts_with, str_eq, str_less, to_lowercase, utf8_len,
};

verus! {

// ─── Configuration and results ─────────────────────────────────────

/// Whether a process stays within one community.
#[derive(Debug, Clone, Copy, PartialEq, Eq, Structural)]
pub enum ProcessType {
    IntraCommunity,
    CrossCommunity,
}

/// Stored name of a process type.
pub open spec fn process_type_name(t: ProcessType) -> Seq<char> {
    match t {
        ProcessType::IntraCommunity => "intra_community"@,
        ProcessType::CrossCommunity => "cross_community"@,
    }
}

impl ProcessType {
    /// Stored name (`intra_community` / `cross_community`).
    pub fn as_str(&self) -> (s: &'static str)
        ensures
            s@ == process_type_name(*self),
    {
        match self {
            ProcessType::IntraCommunity => "intra_community",
            ProcessType::CrossCommunity => "cross_community",
        }
    }
}

/// Configuration for process detection.
#[derive(Debug, Clone, Copy, PartialEq, Eq, Structural)]
pub struct ProcessConfig {
    pub max_trace_depth: usize,
    pub max_branching: usize,
    pub max_processes: usize,
    pub min_steps: usize,
    /// Calls below this confidence are not followed.
    pub min_confidence: Confidence,
}

/// The default configuration: depth 10, branching 4, 75 processes, at least
/// 3 steps, confidence at least 1/2.
pub open spec fn default_config() -> ProcessConfig {
    ProcessConfig {
        max_trace_depth: 10,
        max_branching: 4,
        max_processes: 75,
        min_steps: 3,
        min_confidence: Confidence { num: 1, den: 2 },
    }
}

impl Default for ProcessConfig {
    fn default() -> (r: Self)
        ensures
            r == default_config(),
    {
        ProcessConfig {
            max_trace_depth: 10,
            max_branching: 4,
            max_processes: 75,
            min_steps: 3,
            min_confidence: Confidence { num: 1, den: 2 },
        }
    }
}

/// `n / 10`, clamped to `20..=300`.
pub open spec fn processes_for(n: usize) -> usize {
    let t = n / 10;
    if t < 20 {
        20
    } else if t > 300 {
        300
    } else {
        t
    }
}

impl ProcessConfig {
    /// Dynamically size max_processes based on symbol count.
    pub fn for_symbol_count(symbol_count: usize) -> (c: Self)
        ensures
            c == (ProcessConfig { max_processes: processes_for(symbol_count), ..default_config() }),
    {
        let t = symbol_count / 10;
        let max_processes = if t < 20 {
            20
        } else if t > 300 {
            300
        } else {
            t
        };
        ProcessConfig { max_processes, ..ProcessConfig::default() }
    }
}

/// An entry-point score, the exact fraction `num / den`.
#[derive(Debug, Clone, Copy, PartialEq, Eq, Structural)]
pub struct Score {
    pub num: u64,
    pub den: u64,
}

/// `a` is a larger fraction than `b`.
pub open spec fn score_gt(a: Score, b: Score) -> bool {
    a.num * b.den > b.num * a.den
}

/// `a` and `b` are equal fractions.
pub open spec fn score_eq(a: Score, b: Score) -> bool {
    a.num * b.den == b.num * a.den
}

/// Whether `a > b` as fractions.
fn score_greater(a: Score, b: Score) -> (r: bool)
    ensures
        r == score_gt(a, b),
{
    let x = a.num as u128;
    let y = b.den as u128;
    let z = b.num as u128;
    let w = a.den as u128;
    proof {
        assert(x * y <= 0xFFFF_FFFF_FFFF_FFFFu128 * 0xFFFF_FFFF_FFFF_FFFFu128) by (nonlinear_arith)
            requires
                x <= 0xFFFF_FFFF_FFFF_FFFFu128,
                y <= 0xFFFF_FFFF_FFFF_FFFFu128,
        ;
        assert(z * w <= 0xFFFF_FFFF_FFFF_FFFFu128 * 0xFFFF_FFFF_FFFF_FFFFu128) by (nonlinear_arith)
            requires
                z <= 0xFFFF_FFFF_FFFF_FFFFu128,
                w <= 0xFFFF_FFFF_FFFF_FFFFu128,
        ;
    }
    x * y > z * w
}

/// Whether `a == b` as fractions.
fn score_equal(a: Score, b: Score) -> (r: bool)
    ensures
        r == score_eq(a, b),
{
    let x = a.num as u128;
    let y = b.den as u128;
    let z = b.num as u128;
    let w = a.den as u128;
    proof {
        assert(x * y <= 0xFFFF_FFFF_FFFF_FFFFu128 * 0xFFFF_FFFF_FFFF_FFFFu128) by (nonlinear_arith)
            requires
                x <= 0xFFFF_FFFF_FFFF_FFFFu128,
                y <= 0xFFFF_FFFF_FFFF_FFFFu128,
        ;
        assert(z * w <= 0xFFFF_FFFF_FFFF_FFFFu128 * 0xFFFF_FFFF_FFFF_FFFFu128) by (nonlinear_arith)
            requires
                z <= 0xFFFF_FFFF_FFFF_FFFFu128,
                w <= 0xFFFF_FFFF_FFFF_FFFFu128,
        ;
    }
    x * y == z * w
}

/// `a >= b` as fractions (confidences).
pub open spec fn conf_at_least(a: Confidence, b: Confidence) -> bool {
    a.num * b.den >= b.num * a.den
}

/// A detected execution flow (process) through the codebase.
#[derive(Debug)]
pub struct Process {
    pub id: usize,
    pub label: String,
    pub process_type: ProcessType,
    /// Ordered symbol UIDs.
    pub steps: Vec<String>,
    pub entry_point: String,
    pub terminal: String,
    /// Score of the entry point.
    pub priority: Score,
}

/// Mathematical view of a [`Process`].
pub struct ProcessV {
    pub id: usize,
    pub label: Seq<char>,
    pub process_type: ProcessType,
    pub steps: Seq<Seq<char>>,
    pub entry_point: Seq<char>,
    pub terminal: Seq<char>,
    pub priority: Score,
}

impl View for Process {
    type V = ProcessV;

    open spec fn view(&self) -> ProcessV {
        ProcessV {
            id: self.id,
            label: self.label@,
            process_type: self.process_type,
            steps: self.steps.deep_view(),
            entry_point: self.entry_point@,
            terminal: self.terminal@,
            priority: self.priority,
        }
    }
}

impl DeepView for Process {
    type V = ProcessV;

    open spec fn deep_view(&self) -> ProcessV {
        self@
    }
}

// ─── Entry-point scoring ───────────────────────────────────────────

/// Some pattern of `pats` starts `s`.
pub open spec fn starts_with_any(s: Seq<char>, pats: Seq<Seq<char>>) -> bool {
    exists|i: int| 0 <= i < pats.len() && is_prefix_of(#[trigger] pats[i], s)
}

/// Some pattern of `pats` ends `s`.
pub open spec fn ends_with_any(s: Seq<char>, pats: Seq<Seq<char>>) -> bool {
    exists|i: int| 0 <= i < pats.len() && is_suffix_of(#[trigger] pats[i], s)
}

/// Some pattern of `pats` occurs in `s`.
pub open spec fn contains_any(s: Seq<char>, pats: Seq<Seq<char>>) -> bool {
    exists|i: int| 0 <= i < pats.len() && is_infix_of(#[trigger] pats[i], s)
}

pub open spec fn entry_prefixes() -> Seq<Seq<char>> {
    seq!["main"@, "init"@, "bootstrap"@, "start"@, "run"@, "handle"@, "dispatch"@, "execute"@, "process"@]
}

pub open spec fn entry_suffixes() -> Seq<Seq<char>> {
    seq!["controller"@, "handler"@, "action"@, "endpoint"@, "route"@]
}

pub open spec fn verb_prefixes() -> Seq<Seq<char>> {
    seq!["get"@, "post"@, "put"@, "delete"@, "patch"@]
}

pub open spec fn util_prefixes() -> Seq<Seq<char>> {
    seq![
        "get"@,
        "set"@,
        "is"@,
        "has"@,
        "can"@,
        "should"@,
        "will"@,
        "did"@,
        "format"@,
        "parse"@,
        "validate"@,
        "convert"@,
        "transform"@,
        "encode"@,
        "decode"@,
        "serialize"@,
        "deserialize"@,
        "to_"@,
        "from_"@,
    ]
}

pub open spec fn util_suffixes() -> Seq<Seq<char>> {
    seq!["helper"@, "util"@, "utils"@]
}

pub open spec fn test_markers() -> Seq<Seq<char>> {
    seq![".test."@, ".spec."@, "__tests__"@, "/test/"@, "/tests/"@, "_test."@, "_spec."@]
}

/// The fourth character is upper-case (and the name is long enough, in bytes).
pub open spec fn fourth_upper(name: Seq<char>, min_bytes: nat) -> bool {
    utf8_len(name) > min_bytes && name.len() > 3 && char_is_uppercase(name[3])
}

/// Name-based multiplier of an entry-point score, in tenths: 15 for entry
/// patterns, 13 for HTTP-verb handlers, 12 for React hooks, 3 for
/// utilities, 10 otherwise.
pub open spec fn name_mult(name: Seq<char>) -> nat {
    let lower = lowercase(name);
    if starts_with_any(lower, entry_prefixes()) || ends_with_any(lower, entry_suffixes()) {
        15
    } else if starts_with_any(lower, verb_prefixes()) && fourth_upper(name, 4) {
        13
    } else if is_prefix_of("use"@, lower) && fourth_upper(name, 3) {
        12
    } else if starts_with_any(lower, util_prefixes()) || ends_with_any(lower, util_suffixes()) {
        3
    } else {
        10
    }
}

/// Whether the lower-cased UID names a test file.
pub open spec fn test_uid(uid: Seq<char>) -> bool {
    contains_any(lowercase(uid), test_markers())
}

/// Whether `s` starts with one of `pats`.
fn starts_with_one(s: &str, pats: &[&str]) -> (r: bool)
    ensures
        r == starts_with_any(s@, pats@.map_values(|p: &str| p@)),
{
    let ghost pv = pats@.map_values(|p: &str| p@);
    let mut i: usize = 0;
    while i < pats.len()
        invariant
            i <= pats@.len(),
            pv == pats@.map_values(|p: &str| p@),
            forall|j: int| 0 <= j < i ==> !is_prefix_of(#[trigger] pv[j], s@),
        decreases pats@.len() - i,
    {
        if starts_with(s, pats[i]) {
            proof {
                assert(pv[i as int] == pats@[i as int]@);
            }
            return true;
        }
        proof {
            assert(pv[i as int] == pats@[i as int]@);
        }
        i = i + 1;
    }
    false
}

/// Whether `s` ends with one of `pats`.
fn ends_with_one(s: &str, pats: &[&str]) -> (r: bool)
    ensures
        r == ends_with_any(s@, pats@.map_values(|p: &str| p@)),
{
    let ghost pv = pats@.map_values(|p: &str| p@);
    let mut i: usize = 0;
    while i < pats.len()
        invariant
            i <= pats@.len(),
            pv == pats@.map_values(|p: &str| p@),
            forall|j: int| 0 <= j < i ==> !is_suffix_of(#[trigger] pv[j], s@),
        decreases pats@.len() - i,
    {
        if ends_with(s, pats[i]) {
            proof {
                assert(pv[i as int] == pats@[i as int]@);
            }
            return true;
        }
        proof {
            assert(pv[i as int] == pats@[i as int]@);
        }
        i = i + 1;
    }
    false
}

/// Whether one of `pats` occurs in `s`.
fn contains_one(s: &str, pats: &[&str]) -> (r: bool)
    ensures
        r == contains_any(s@, pats@.map_values(|p: &str| p@)),
{
    let ghost pv = pats@.map_values(|p: &str| p@);
    let mut i: usize = 0;
    while i < pats.len()
        invariant
            i <= pats@.len(),
            pv == pats@.map_values(|p: &str| p@),
            forall|j: int| 0 <= j < i ==> !is_infix_of(#[trigger] pv[j], s@),
        decreases pats@.len() - i,
    {
        if contains(s, pats[i]) {
            proof {
                assert(pv[i as int] == pats@[i as int]@);
            }
            return true;
        }
        proof {
            assert(pv[i as int] == pats@[i as int]@);
        }
        i = i + 1;
    }
    false
}

/// Whether the fourth character of `name` is upper-case and the name is
/// longer than `min_bytes` bytes.
fn fourth_is_upper(name: &str, min_bytes: usize) -> (r: bool)
    requires
        min_bytes <= 4,
    ensures
        r == fourth_upper(name@, min_bytes as nat),
{
    let v = chars_of(name);
    if v.len() <= 3 {
        return false;
    }
    byte_len_at_least(name, min_bytes + 1) && is_uppercase(v[3])
}

/// Name pattern matching for entry point detection (multiplier in tenths).
pub fn name_multiplier(name: &str) -> (r: u64)
    ensures
        r == name_mult(name@),
{
    let lower = to_lowercase(name);
    let l = lower.as_str();
    let entry: [&str; 9] = ["main", "init", "bootstrap", "start", "run", "handle", "dispatch", "execute", "process"];
    let suffixes: [&str; 5] = ["controller", "handler", "action", "endpoint", "route"];
    let verbs: [&str; 5] = ["get", "post", "put", "delete", "patch"];
    let utils: [&str; 19] = [
        "get",
        "set",
        "is",
        "has",
        "can",
        "should",
        "will",
        "did",
        "format",
        "parse",
        "validate",
        "convert",
        "transform",
        "encode",
        "decode",
        "serialize",
        "deserialize",
        "to_",
        "from_",
    ];
    let util_sfx: [&str; 3] = ["helper", "util", "utils"];
    proof {
        assert(entry@.map_values(|p: &str| p@) =~= entry_prefixes());
        assert(suffixes@.map_values(|p: &str| p@) =~= entry_suffixes());
        assert(verbs@.map_values(|p: &str| p@) =~= verb_prefixes());
        assert(utils@.map_values(|p: &str| p@) =~= util_prefixes());
        assert(util_sfx@.map_values(|p: &str| p@) =~= util_suffixes());
    }
    if starts_with_one(l, entry.as_slice()) || ends_with_one(l, suffixes.as_slice()) {
        return 15;
    }
    if starts_with_one(l, verbs.as_slice()) && fourth_is_upper(name, 4) {
        return 13;
    }
    if starts_with(l, "use") && fourth_is_upper(name, 3) {
        return 12;
    }
    if starts_with_one(l, utils.as_slice()) || ends_with_one(l, util_sfx.as_slice()) {
        return 3;
    }
    10
}

/// Check if a UID corresponds to a test file.
pub fn is_test_file(uid: &str) -> (r: bool)
    ensures
        r == test_uid(uid@),
{
    let lower = to_lowercase(uid);
    let markers: [&str; 7] = [".test.", ".spec.", "__tests__", "/test/", "/tests/", "_test.", "_spec."];
    proof {
        assert(markers@.map_values(|p: &str| p@) =~= test_markers());
    }
    contains_one(lower.as_str(), markers.as_slice())
}

// ─── Call graph ─────────────────────────────────────────────────────

/// Calls at or above the confidence threshold, as (caller, callee).
pub open spec fn followed_calls(ev: Seq<(Seq<char>, Seq<char>, Confidence)>, min: Confidence) -> Seq<(Seq<char>, Seq<char>)>
    decreases ev.len(),
{
    if ev.len() == 0 {
        Seq::empty()
    } else {
        let r = followed_calls(ev.drop_last(), min);
        let e = ev.last();
        if conf_at_least(e.2, min) {
            r.push((e.0, e.1))
        } else {
            r
        }
    }
}

/// Callees of node `v`, in call order.
pub open spec fn callees(ie: Seq<(usize, usize)>, v: usize) -> Seq<usize>
    decreases ie.len(),
{
    if ie.len() == 0 {
        Seq::empty()
    } else if ie.last().0 == v {
        callees(ie.drop_last(), v).push(ie.last().1)
    } else {
        callees(ie.drop_last(), v)
    }
}

/// Number of calls into node `v`.
pub open spec fn caller_count(ie: Seq<(usize, usize)>, v: usize) -> nat
    decreases ie.len(),
{
    if ie.len() == 0 {
        0
    } else {
        caller_count(ie.drop_last(), v) + if ie.last().1 == v {
            1nat
        } else {
            0nat
        }
    }
}

/// Forward call lists of nodes `0..n`.
pub open spec fn forward_lists(ie: Seq<(usize, usize)>, n: nat) -> Seq<Seq<usize>> {
    Seq::new(n, |v: int| callees(ie, v as usize))
}

/// The name listed for a UID, or the empty name.
pub open spec fn name_or_empty(names: Seq<(Seq<char>, Seq<char>)>, uid: Seq<char>) -> Seq<char> {
    match name_of(names, uid) {
        Some(n) => n,
        None => Seq::empty(),
    }
}

/// Entry-point score of node `v`: callees / (callers + 1), times the name
/// multiplier; zero for file nodes and test files.
pub open spec fn entry_score(nodes: Seq<Seq<char>>, ie: Seq<(usize, usize)>, names: Seq<(Seq<char>, Seq<char>)>, v: usize) -> Score {
    let uid = nodes[v as int];
    let out = callees(ie, v).len();
    let keep = !is_prefix_of("File:"@, uid) && !test_uid(uid);
    Score {
        num: (if keep {
            out * name_mult(name_or_empty(names, uid))
        } else {
            0
        }) as u64,
        den: ((caller_count(ie, v) + 1) * 10) as u64,
    }
}

/// Nodes `0..upto` with a positive score, with their scores.
pub open spec fn candidates(nodes: Seq<Seq<char>>, ie: Seq<(usize, usize)>, names: Seq<(Seq<char>, Seq<char>)>, upto: nat) -> Seq<(usize, Score)>
    decreases upto,
{
    if upto == 0 {
        Seq::empty()
    } else {
        let r = candidates(nodes, ie, names, (upto - 1) as nat);
        let v = (upto - 1) as usize;
        let sc = entry_score(nodes, ie, names, v);
        if sc.num > 0 {
            r.push((v, sc))
        } else {
            r
        }
    }
}

/// `a` ranks before `b`: higher score, or equal score and smaller UID.
pub open spec fn entry_before(nodes: Seq<Seq<char>>, a: (usize, Score), b: (usize, Score)) -> bool {
    score_gt(a.1, b.1) || (score_eq(a.1, b.1) && lex_lt(nodes[a.0 as int], nodes[b.0 as int]))
}

/// `x` placed before the first entry it ranks before.
pub open spec fn insert_entry(nodes: Seq<Seq<char>>, s: Seq<(usize, Score)>, x: (usize, Score)) -> Seq<(usize, Score)>
    decreases s.len(),
{
    if s.len() == 0 {
        seq![x]
    } else if entry_before(nodes, x, s[0]) {
        seq![x] + s
    } else {
        seq![s[0]] + insert_entry(nodes, s.drop_first(), x)
    }
}

/// Entries in rank order.
pub open spec fn ranked(nodes: Seq<Seq<char>>, s: Seq<(usize, Score)>) -> Seq<(usize, Score)>
    decreases s.len(),
{
    if s.len() == 0 {
        s
    } else {
        insert_entry(nodes, ranked(nodes, s.drop_last()), s.last())
    }
}

/// The first `k` elements (all when fewer).
pub open spec fn first_n<A>(s: Seq<A>, k: nat) -> Seq<A> {
    if s.len() > k {
        s.take(k as int)
    } else {
        s
    }
}

proof fn lemma_callees_len(ie: Seq<(usize, usize)>, v: usize)
    ensures
        callees(ie, v).len() <= ie.len(),
        caller_count(ie, v) <= ie.len(),
    decreases ie.len(),
{
    if ie.len() > 0 {
        lemma_callees_len(ie.drop_last(), v);
    }
}

/// Forward call lists and caller counts of nodes `0..n`.
fn build_call_lists(ie: &Vec<(usize, usize)>, n: usize) -> (r: (Vec<Vec<usize>>, Vec<usize>))
    requires
        forall|k: int| 0 <= k < ie@.len() ==> (#[trigger] ie@[k]).0 < n && ie@[k].1 < n,
    ensures
        r.0@.len() == n,
        r.1@.len() == n,
        forall|v: int| 0 <= v < n ==> (#[trigger] r.0@[v])@ == callees(ie@, v as usize),
        forall|v: int| 0 <= v < n ==> (#[trigger] r.1@[v]) == caller_count(ie@, v as usize),
{
    let mut fwd: Vec<Vec<usize>> = Vec::new();
    let mut inc: Vec<usize> = Vec::new();
    let mut v: usize = 0;
    while v < n
        invariant
            v <= n,
            fwd@.len() == v,
            inc@.len() == v,
            forall|u: int| 0 <= u < v ==> (#[trigger] fwd@[u])@ == Seq::<usize>::empty(),
            forall|u: int| 0 <= u < v ==> (#[trigger] inc@[u]) == 0,
        decreases n - v,
    {
        fwd.push(Vec::new());
        inc.push(0);
        v = v + 1;
    }
    let mut k: usize = 0;
    while k < ie.len()
        invariant
            k <= ie@.len(),
            fwd@.len() == n,
            inc@.len() == n,
            forall|q: int| 0 <= q < ie@.len() ==> (#[trigger] ie@[q]).0 < n && ie@[q].1 < n,
            forall|u: int| 0 <= u < n ==> (#[trigger] fwd@[u])@ == callees(ie@.take(k as int), u as usize),
            forall|u: int| 0 <= u < n ==> (#[trigger] inc@[u]) == caller_count(ie@.take(k as int), u as usize),
        decreases ie@.len() - k,
    {
        let (s, t) = ie[k];
        proof {
            assert(ie@.take(k + 1).drop_last() =~= ie@.take(k as int));
            assert(ie@.take(k + 1).last() == (s, t));
            lemma_callees_len(ie@.take(k as int), t);
        }
        let ghost f0 = fwd@;
        fwd[s].push(t);
        let x = inc[t] + 1;
        inc.set(t, x);
        proof {
            assert forall|u: int| 0 <= u < n implies (#[trigger] fwd@[u])@ == callees(ie@.take(k + 1), u as usize) by {
                if u != s {
                    assert(fwd@[u] == f0[u]);
                }
            }
        }
        k = k + 1;
    }
    proof {
        assert(ie@.take(ie@.len() as int) =~= ie@);
    }
    (fwd, inc)
}

/// Score of node `v`.
fn score_of(nodes: &Vec<String>, fwd: &Vec<Vec<usize>>, inc: &Vec<usize>, names: &[(String, String)], v: usize, ghost_ie: Ghost<Seq<(usize, usize)>>) -> (r: Score)
    requires
        v < nodes@.len(),
        fwd@.len() == nodes@.len(),
        inc@.len() == nodes@.len(),
        fwd@[v as int]@ == callees(ghost_ie@, v),
        inc@[v as int] == caller_count(ghost_ie@, v),
        ghost_ie@.len() <= usize::MAX / 32,
    ensures
        r == entry_score(nodes.deep_view(), ghost_ie@, names.deep_view(), v),
{
    proof {
        lemma_callees_len(ghost_ie@, v);
        assert(nodes.deep_view()[v as int] == nodes@[v as int]@);
    }
    let uid = nodes[v].as_str();
    let out = fwd[v].len() as u64;
    let den = (inc[v] as u64 + 1) * 10;
    if starts_with(uid, "File:") || is_test_file(uid) {
        return Score { num: 0, den };
    }
    let mult = match lookup_name(names, uid) {
        Some(k) => name_multiplier(names[k].1.as_str()),
        None => name_multiplier(""),
    };
    proof {
        reveal_strlit("");
        assert(""@ =~= Seq::<char>::empty());
        assert(out * mult <= 0x07FF_FFFF_FFFF_FFFFu64 * 15) by (nonlinear_arith)
            requires
                out <= 0x07FF_FFFF_FFFF_FFFFu64,
                mult <= 15,
        ;
    }
    Score { num: out * mult, den }
}

proof fn lemma_insert_entry_at(nodes: Seq<Seq<char>>, s: Seq<(usize, Score)>, x: (usize, Score), k: int)
    requires
        0 <= k <= s.len(),
        forall|j: int| 0 <= j < k ==> !entry_before(nodes, x, #[trigger] s[j]),
        k < s.len() ==> entry_before(nodes, x, s[k]),
    ensures
        insert_entry(nodes, s, x) == s.insert(k, x),
    decreases k,
{
    if k == 0 {
        if s.len() == 0 {
            assert(s.insert(0, x) =~= seq![x]);
        } else {
            assert(s.insert(0, x) =~= seq![x] + s);
        }
    } else {
        let t = s.drop_first();
        assert forall|j: int| 0 <= j < k - 1 implies !entry_before(nodes, x, #[trigger] t[j]) by {
            assert(t[j] == s[j + 1]);
        }
        if k < s.len() {
            assert(t[k - 1] == s[k]);
        }
        lemma_insert_entry_at(nodes, t, x, k - 1);
        assert(s.insert(k, x) =~= seq![s[0]] + t.insert(k - 1, x));
    }
}

/// Whether entry `a` ranks before entry `b`.
fn ranks_first(nodes: &Vec<String>, a: (usize, Score), b: (usize, Score)) -> (r: bool)
    requires
        a.0 < nodes@.len(),
        b.0 < nodes@.len(),
    ensures
        r == entry_before(nodes.deep_view(), a, b),
{
    proof {
        assert(nodes.deep_view()[a.0 as int] == nodes@[a.0 as int]@);
        assert(nodes.deep_view()[b.0 as int] == nodes@[b.0 as int]@);
    }
    score_greater(a.1, b.1) || (score_equal(a.1, b.1) && str_less(nodes[a.0].as_str(), nodes[b.0].as_str()))
}

/// Entries in rank order.
fn rank_entries(nodes: &Vec<String>, cands: &Vec<(usize, Score)>) -> (r: Vec<(usize, Score)>)
    requires
        forall|k: int| 0 <= k < cands@.len() ==> (#[trigger] cands@[k]).0 < nodes@.len(),
    ensures
        r@ == ranked(nodes.deep_view(), cands@),
        forall|k: int| 0 <= k < r@.len() ==> (#[trigger] r@[k]).0 < nodes@.len(),
{
    let ghost nv = nodes.deep_view();
    let mut r: Vec<(usize, Score)> = Vec::new();
    let mut i: usize = 0;
    while i < cands.len()
        invariant
            i <= cands@.len(),
            nv == nodes.deep_view(),
            forall|k: int| 0 <= k < cands@.len() ==> (#[trigger] cands@[k]).0 < nodes@.len(),
            r@ == ranked(nv, cands@.take(i as int)),
            forall|k: int| 0 <= k < r@.len() ==> (#[trigger] r@[k]).0 < nodes@.len(),
        decreases cands@.len() - i,
    {
        let x = cands[i];
        let ghost rv = r@;
        let mut k: usize = 0;
        while k < r.len() && !ranks_first(nodes, x, r[k])
            invariant
                k <= rv.len(),
                rv == r@,
                x.0 < nodes@.len(),
                nv == nodes.deep_view(),
                forall|q: int| 0 <= q < r@.len() ==> (#[trigger] r@[q]).0 < nodes@.len(),
                forall|j: int| 0 <= j < k ==> !entry_before(nv, x, #[trigger] rv[j]),
            decreases rv.len() - k,
        {
            k = k + 1;
        }
        proof {
            lemma_insert_entry_at(nv, rv, x, k as int);
            assert(cands@.take(i + 1).drop_last() =~= cands@.take(i as int));
        }
        r.insert(k, x);
        proof {
            assert forall|q: int| 0 <= q < r@.len() implies (#[trigger] r@[q]).0 < nodes@.len() by {
                if q < k {
                    assert(r@[q] == rv[q]);
                } else if q > k {
                    assert(r@[q] == rv[q - 1]);
                }
            }
        }
        i = i + 1;
    }
    proof {
        assert(cands@.take(cands@.len() as int) =~= cands@);
    }
    r
}

// ─── Tracing ────────────────────────────────────────────────────────

/// The first `k` neighbours of `nb` that are not yet on path `p`.
pub open spec fn fresh_next(nb: Seq<usize>, p: Seq<usize>, k: nat) -> Seq<usize>
    decreases nb.len(),
{
    if nb.len() == 0 || k == 0 {
        Seq::empty()
    } else if p.contains(nb[0]) {
        fresh_next(nb.drop_first(), p, k)
    } else {
        seq![nb[0]] + fresh_next(nb.drop_first(), p, (k - 1) as nat)
    }
}

/// `p` extended by each of `next`.
pub open spec fn extensions(p: Seq<usize>, next: Seq<usize>) -> Seq<Seq<usize>> {
    next.map_values(|x: usize| p.push(x))
}

/// Breadth-first tracing: the paths at the front of `queue` are handled one
/// at a time, at most `fuel` of them. A path ends (goes to the results) when
/// it is longer than the depth limit, its last node calls nothing, or every
/// callee is already on it; otherwise it is extended by up to
/// `max_branching` fresh callees.
pub open spec fn bfs(
    fwd: Seq<Seq<usize>>,
    queue: Seq<Seq<usize>>,
    results: Seq<Seq<usize>>,
    fuel: nat,
    cfg: ProcessConfig,
) -> Seq<Seq<usize>>
    decreases fuel,
{
    if fuel == 0 || queue.len() == 0 {
        results
    } else {
        let p = queue[0];
        let rest = queue.drop_first();
        if p.len() > cfg.max_trace_depth {
            bfs(fwd, rest, results.push(p), (fuel - 1) as nat, cfg)
        } else {
            let nb = fwd[p.last() as int];
            let valid = fresh_next(nb, p, cfg.max_branching as nat);
            if nb.len() == 0 || valid.len() == 0 {
                bfs(fwd, rest, results.push(p), (fuel - 1) as nat, cfg)
            } else {
                bfs(fwd, rest + extensions(p, valid), results, (fuel - 1) as nat, cfg)
            }
        }
    }
}

/// Paths traced from `entry` (at most ten thousand handled).
pub open spec fn traces_from(fwd: Seq<Seq<usize>>, entry: usize, cfg: ProcessConfig) -> Seq<Seq<usize>> {
    bfs(fwd, seq![seq![entry]], Seq::empty(), 10_000, cfg)
}

/// All nodes of all paths are below `n`.
pub open spec fn paths_within(ps: Seq<Seq<usize>>, n: nat) -> bool {
    forall|i: int, j: int| 0 <= i < ps.len() && 0 <= j < ps[i].len() ==> (#[trigger] ps[i][j]) < n
}

/// Up to `k` callees of `nb` not on `path`.
fn fresh_callees(nb: &Vec<usize>, path: &Vec<usize>, k: usize) -> (r: Vec<usize>)
    ensures
        r@ == fresh_next(nb@, path@, k as nat),
        forall|j: int| 0 <= j < r@.len() ==> nb@.contains(#[trigger] r@[j]),
{
    let mut r: Vec<usize> = Vec::new();
    let mut i: usize = 0;
    proof {
        assert(nb@.skip(0) =~= nb@);
    }
    while i < nb.len() && r.len() < k
        invariant
            i <= nb@.len(),
            r@.len() <= k,
            r@ + fresh_next(nb@.skip(i as int), path@, (k - r@.len()) as nat) == fresh_next(nb@, path@, k as nat),
            forall|j: int| 0 <= j < r@.len() ==> nb@.contains(#[trigger] r@[j]),
        decreases nb@.len() - i,
    {
        let x = nb[i];
        let mut on_path = false;
        let mut q: usize = 0;
        while q < path.len()
            invariant
                q <= path@.len(),
                on_path == (exists|j: int| 0 <= j < q && path@[j] == x),
            decreases path@.len() - q,
        {
            if path[q] == x {
                on_path = true;
            }
            q = q + 1;
        }
        proof {
            let t = nb@.skip(i as int);
            assert(t[0] == x);
            assert(t.drop_first() =~= nb@.skip(i + 1));
            assert(on_path == path@.contains(x));
        }
        if !on_path {
            let ghost before = r@;
            r.push(x);
            proof {
                assert(nb@[i as int] == x);
                assert(r@ + fresh_next(nb@.skip(i + 1), path@, (k - r@.len()) as nat) =~= before + fresh_next(
                    nb@.skip(i as int),
                    path@,
                    (k - before.len()) as nat,
                ));
            }
        }
        i = i + 1;
    }
    proof {
        if i == nb@.len() {
            assert(nb@.skip(i as int) =~= Seq::<usize>::empty());
        }
        assert(r@ =~= r@ + fresh_next(nb@.skip(i as int), path@, (k - r@.len()) as nat));
    }
    r
}

/// Paths traced from `entry`.
fn trace_paths(fwd: &Vec<Vec<usize>>, entry: usize, cfg: &ProcessConfig) -> (r: Vec<Vec<usize>>)
    requires
        entry < fwd@.len(),
        forall|v: int, j: int| 0 <= v < fwd@.len() && 0 <= j < fwd@[v]@.len() ==> (#[trigger] fwd@[v]@[j]) < fwd@.len(),
    ensures
        r.deep_view() == traces_from(fwd.deep_view(), entry, *cfg),
        paths_within(r.deep_view(), fwd@.len()),
        forall|i: int| 0 <= i < r@.len() ==> (#[trigger] r@[i])@.len() > 0,
{
    let ghost fv = fwd.deep_view();
    let ghost n = fwd@.len();
    let ghost target = traces_from(fv, entry, *cfg);
    let mut queue: Vec<Vec<usize>> = Vec::new();
    let mut start: Vec<usize> = Vec::new();
    start.push(entry);
    queue.push(start);
    let mut head: usize = 0;
    let mut results: Vec<Vec<usize>> = Vec::new();
    let mut handled: usize = 0;
    proof {
        assert(queue@[0].deep_view() =~= seq![entry]);
        assert(queue.deep_view().skip(0) =~= seq![seq![entry]]);
        assert(results.deep_view() =~= Seq::<Seq<usize>>::empty());
    }
    while head < queue.len() && handled < 10_000
        invariant
            head <= queue@.len(),
            handled <= 10_000,
            fv == fwd.deep_view(),
            n == fwd@.len(),
            target == traces_from(fv, entry, *cfg),
            forall|v: int, j: int| 0 <= v < fwd@.len() && 0 <= j < fwd@[v]@.len() ==> (#[trigger] fwd@[v]@[j]) < fwd@.len(),
            bfs(fv, queue.deep_view().skip(head as int), results.deep_view(), (10_000 - handled) as nat, *cfg) == target,
            paths_within(queue.deep_view(), n),
            paths_within(results.deep_view(), n),
            forall|i: int| 0 <= i < queue@.len() ==> (#[trigger] queue@[i])@.len() > 0,
            forall|i: int| 0 <= i < results@.len() ==> (#[trigger] results@[i])@.len() > 0,
        decreases 10_000 - handled,
    {
        let ghost qv = queue.deep_view();
        let ghost rv = results.deep_view();
        let path = clone_path(&queue[head]);
        proof {
            assert(qv.skip(head as int)[0] == path@);
            assert(qv.skip(head as int).drop_first() =~= qv.skip(head + 1));
            assert(qv[head as int] == path@);
        }
        head = head + 1;
        handled = handled + 1;
        if path.len() > cfg.max_trace_depth {
            results.push(path);
            proof {
                assert(results.deep_view() =~= rv.push(qv[head - 1]));
            }
            continue;
        }
        let last = path[path.len() - 1];
        proof {
            assert(qv[head - 1][path@.len() - 1] == last);
        }
        let nb = &fwd[last];
        proof {
            assert(fv[last as int] == nb@);
        }
        let valid = fresh_callees(nb, &path, cfg.max_branching);
        if nb.len() == 0 || valid.len() == 0 {
            results.push(path);
            proof {
                assert(results.deep_view() =~= rv.push(qv[head - 1]));
            }
            continue;
        }
        let mut j: usize = 0;
        while j < valid.len()
            invariant
                j <= valid@.len(),
                head <= queue@.len(),
                qv.len() <= queue@.len(),
                forall|i: int| 0 <= i < qv.len() ==> (#[trigger] queue.deep_view()[i]) == qv[i],
                queue.deep_view() == qv + extensions(path@, valid@.take(j as int)),
                forall|q: int| 0 <= q < valid@.len() ==> nb@.contains(#[trigger] valid@[q]),
                forall|q: int| 0 <= q < nb@.len() ==> (#[trigger] nb@[q]) < n,
                paths_within(queue.deep_view(), n),
                forall|q: int| 0 <= q < path@.len() ==> (#[trigger] path@[q]) < n,
                forall|i: int| 0 <= i < queue@.len() ==> (#[trigger] queue@[i])@.len() > 0,
            decreases valid@.len() - j,
        {
            let mut next = clone_path(&path);
            next.push(valid[j]);
            let ghost before = queue.deep_view();
            let ghost nextv = next@;
            proof {
                assert(next.deep_view() =~= next@);
            }
            queue.push(next);
            proof {
                assert(queue.deep_view() =~= before.push(nextv));
                assert(valid@.take(j + 1) =~= valid@.take(j as int).push(valid@[j as int]));
                assert(queue.deep_view() =~= qv + extensions(path@, valid@.take(j + 1)));
                let x = valid@[j as int];
                assert(nb@.contains(x));
                assert(paths_within(queue.deep_view(), n)) by {
                    assert forall|a: int, b: int| 0 <= a < queue.deep_view().len() && 0 <= b < queue.deep_view()[a].len() implies (#[trigger] queue.deep_view()[a][b]) < n by {
                        if a == before.len() {
                            assert(queue.deep_view()[a] == nextv);
                            if b < path@.len() {
                                assert(nextv[b] == path@[b]);
                            }
                        } else {
                            assert(queue.deep_view()[a] == before[a]);
                        }
                    }
                }
            }
            j = j + 1;
        }
        proof {
            assert(valid@.take(valid@.len() as int) =~= valid@);
            let qn = queue.deep_view();
            assert(qn.skip(head as int) =~= qv.skip(head as int) + extensions(path@, valid@));
        }
    }
    proof {
        if head >= queue@.len() {
            assert(queue.deep_view().skip(head as int) =~= Seq::<Seq<usize>>::empty());
        }
    }
    results
}

/// A copy of a path.
fn clone_path(p: &Vec<usize>) -> (r: Vec<usize>)
    ensures
        r@ == p@,
{
    let mut r: Vec<usize> = Vec::new();
    let mut i: usize = 0;
    while i < p.len()
        invariant
            i <= p@.len(),
            r@ == p@.take(i as int),
        decreases p@.len() - i,
    {
        r.push(p[i]);
        i = i + 1;
        proof {
            assert(r@ =~= p@.take(i as int));
        }
    }
    proof {
        assert(p@.take(p@.len() as int) =~= p@);
    }
    r
}

// ─── Deduplication and ordering ────────────────────────────────────

/// Trace `j` is shorter than trace `i` and has no node outside it.
pub open spec fn dominated(ts: Seq<(Seq<usize>, Score)>, j: int, i: int) -> bool {
    ts[j].0.len() < ts[i].0.len() && forall|x: usize| ts[j].0.contains(x) ==> ts[i].0.contains(x)
}

/// Traces still kept after traces `0..i` (each still kept) removed the
/// traces they dominate.
pub open spec fn subset_marks(ts: Seq<(Seq<usize>, Score)>, i: nat) -> Seq<bool>
    decreases i,
{
    if i == 0 {
        Seq::new(ts.len(), |j: int| true)
    } else {
        let k = subset_marks(ts, (i - 1) as nat);
        let a = i - 1;
        if k[a] {
            Seq::new(ts.len(), |j: int| if j != a && k[j] && dominated(ts, j, a) { false } else { k[j] })
        } else {
            k
        }
    }
}

/// Position of the record for an (entry, terminal) pair, or the length.
pub open spec fn pair_pos(best: Seq<((usize, usize), usize, usize)>, key: (usize, usize)) -> int
    decreases best.len(),
{
    if best.len() == 0 {
        0
    } else if best[0].0 == key {
        0
    } else {
        1 + pair_pos(best.drop_first(), key)
    }
}

/// After traces `0..i`: which are kept, and for each (entry, terminal) pair
/// the kept trace (index, length) — only the longest, the first among equals.
pub open spec fn pair_marks(ts: Seq<(Seq<usize>, Score)>, keep0: Seq<bool>, i: nat) -> (Seq<bool>, Seq<((usize, usize), usize, usize)>)
    decreases i,
{
    if i == 0 {
        (keep0, Seq::empty())
    } else {
        let st = pair_marks(ts, keep0, (i - 1) as nat);
        let a = i - 1;
        let t = ts[a].0;
        if !st.0[a] || t.len() == 0 {
            st
        } else {
            let key = (t[0], t.last());
            let p = pair_pos(st.1, key);
            if p < st.1.len() {
                if t.len() <= st.1[p].2 {
                    (st.0.update(a, false), st.1)
                } else {
                    (st.0.update(st.1[p].1 as int, false), st.1.update(p, (key, a as usize, t.len() as usize)))
                }
            } else {
                (st.0, st.1.push((key, a as usize, t.len() as usize)))
            }
        }
    }
}

/// The traces whose mark is set, in order.
pub open spec fn select(ts: Seq<(Seq<usize>, Score)>, keep: Seq<bool>, i: nat) -> Seq<(Seq<usize>, Score)>
    decreases i,
{
    if i == 0 {
        Seq::empty()
    } else if keep[i - 1] {
        select(ts, keep, (i - 1) as nat).push(ts[i - 1])
    } else {
        select(ts, keep, (i - 1) as nat)
    }
}

/// Remove subset traces and keep the longest path per (entry, terminal) pair.
pub open spec fn dedup_traces(ts: Seq<(Seq<usize>, Score)>) -> Seq<(Seq<usize>, Score)> {
    let k1 = subset_marks(ts, ts.len());
    select(ts, pair_marks(ts, k1, ts.len()).0, ts.len())
}

/// `a` comes before `b`: longer, or as long with a higher entry score.
pub open spec fn trace_before(a: (Seq<usize>, Score), b: (Seq<usize>, Score)) -> bool {
    a.0.len() > b.0.len() || (a.0.len() == b.0.len() && score_gt(a.1, b.1))
}

/// `x` placed after every trace it does not come before.
pub open spec fn insert_trace(s: Seq<(Seq<usize>, Score)>, x: (Seq<usize>, Score)) -> Seq<(Seq<usize>, Score)>
    decreases s.len(),
{
    if s.len() == 0 {
        seq![x]
    } else if trace_before(x, s[0]) {
        seq![x] + s
    } else {
        seq![s[0]] + insert_trace(s.drop_first(), x)
    }
}

/// Traces by length (descending), then by entry score; stable.
pub open spec fn order_traces(s: Seq<(Seq<usize>, Score)>) -> Seq<(Seq<usize>, Score)>
    decreases s.len(),
{
    if s.len() == 0 {
        s
    } else {
        insert_trace(order_traces(s.drop_last()), s.last())
    }
}

/// Whether every node of `a` is on `b`.
fn nodes_within(a: &Vec<usize>, b: &Vec<usize>) -> (r: bool)
    ensures
        r == (forall|x: usize| a@.contains(x) ==> b@.contains(x)),
{
    let mut i: usize = 0;
    while i < a.len()
        invariant
            i <= a@.len(),
            forall|q: int| 0 <= q < i ==> b@.contains(#[trigger] a@[q]),
        decreases a@.len() - i,
    {
        let x = a[i];
        let mut found = false;
        let mut j: usize = 0;
        while j < b.len()
            invariant
                j <= b@.len(),
                found == (exists|q: int| 0 <= q < j && b@[q] == x),
            decreases b@.len() - j,
        {
            if b[j] == x {
                found = true;
            }
            j = j + 1;
        }
        if !found {
            proof {
                assert(a@.contains(x));
                assert(!b@.contains(x));
            }
            return false;
        }
        i = i + 1;
    }
    proof {
        assert forall|x: usize| a@.contains(x) implies b@.contains(x) by {
            let q = choose|q: int| 0 <= q < a@.len() && a@[q] == x;
            assert(b@.contains(a@[q]));
        }
    }
    true
}

/// View of a list of traces with their scores.
pub open spec fn traces_view(ts: Seq<(Vec<usize>, Score)>) -> Seq<(Seq<usize>, Score)> {
    ts.map_values(|t: (Vec<usize>, Score)| (t.0@, t.1))
}

/// Every node of every trace is below `n`.
pub open spec fn traces_within(tv: Seq<(Seq<usize>, Score)>, n: nat) -> bool {
    forall|q: int, j: int| 0 <= q < tv.len() && 0 <= j < tv[q].0.len() ==> (#[trigger] tv[q].0[j]) < n
}

/// Remove subset traces and deduplicate paths between same endpoints.
fn deduplicate_traces(traces: &Vec<(Vec<usize>, Score)>, bound: Ghost<nat>) -> (r: Vec<(Vec<usize>, Score)>)
    requires
        traces_within(traces_view(traces@), bound@),
    ensures
        traces_view(r@) == dedup_traces(traces_view(traces@)),
        traces_within(traces_view(r@), bound@),
{
    let ghost tv = traces_view(traces@);
    let n = traces.len();
    let mut keep: Vec<bool> = Vec::new();
    let mut i: usize = 0;
    while i < n
        invariant
            i <= n,
            keep@ == Seq::new(i as nat, |j: int| true),
        decreases n - i,
    {
        keep.push(true);
        i = i + 1;
        proof {
            assert(keep@ =~= Seq::new(i as nat, |j: int| true));
        }
    }
    let mut i: usize = 0;
    proof {
        assert(keep@ =~= subset_marks(tv, 0));
    }
    while i < n
        invariant
            i <= n,
            n == traces@.len(),
            tv == traces_view(traces@),
            keep@ == subset_marks(tv, i as nat),
            keep@.len() == n,
        decreases n - i,
    {
        let ghost k0 = keep@;
        if keep[i] {
            let mut j: usize = 0;
            while j < n
                invariant
                    j <= n,
                    i < n,
                    n == traces@.len(),
                    tv == traces_view(traces@),
                    k0 == subset_marks(tv, i as nat),
                    k0.len() == n,
                    k0[i as int],
                    keep@.len() == n,
                    forall|q: int| 0 <= q < j ==> (#[trigger] keep@[q]) == (if q != i && k0[q] && dominated(tv, q, i as int) { false } else { k0[q] }),
                    forall|q: int| j <= q < n ==> (#[trigger] keep@[q]) == k0[q],
                decreases n - j,
            {
                proof {
                    assert(tv[j as int] == (traces@[j as int].0@, traces@[j as int].1));
                    assert(tv[i as int] == (traces@[i as int].0@, traces@[i as int].1));
                }
                if j != i && keep[j] && traces[j].0.len() < traces[i].0.len() && nodes_within(&traces[j].0, &traces[i].0) {
                    keep.set(j, false);
                }
                j = j + 1;
            }
            proof {
                assert(keep@ =~= subset_marks(tv, (i + 1) as nat));
            }
        }
        proof {
            lemma_subset_marks_len(tv, (i + 1) as nat);
        }
        i = i + 1;
    }
    // Longest trace per (entry, terminal) pair.
    let ghost k1 = keep@;
    proof {
        lemma_subset_marks_len(tv, n as nat);
    }
    let mut best: Vec<((usize, usize), usize, usize)> = Vec::new();
    let mut i: usize = 0;
    while i < n
        invariant
            i <= n,
            n == traces@.len(),
            tv == traces_view(traces@),
            k1 == subset_marks(tv, n as nat),
            k1.len() == n,
            tv.len() == n,
            (keep@, best@) == pair_marks(tv, k1, i as nat),
            keep@.len() == n,
            forall|q: int| 0 <= q < best@.len() ==> (#[trigger] best@[q]).1 < i,
        decreases n - i,
    {
        proof {
            lemma_pair_marks_len(tv, k1, i as nat);
        }
        proof {
            assert(tv[i as int] == (traces@[i as int].0@, traces@[i as int].1));
        }
        let t = &traces[i].0;
        if keep[i] && t.len() > 0 {
            let key = (t[0], t[t.len() - 1]);
            let ghost bv = best@;
            let mut p: usize = 0;
            proof {
                assert(bv.skip(0) =~= bv);
            }
            while p < best.len() && !(best[p].0.0 == key.0 && best[p].0.1 == key.1)
                invariant
                    p <= bv.len(),
                    bv == best@,
                    pair_pos(bv, key) == p + pair_pos(bv.skip(p as int), key),
                decreases bv.len() - p,
            {
                proof {
                    assert(bv.skip(p as int).drop_first() =~= bv.skip(p + 1));
                }
                p = p + 1;
            }
            proof {
                if p == bv.len() {
                    assert(bv.skip(p as int) =~= Seq::<((usize, usize), usize, usize)>::empty());
                }
            }
            if p < best.len() {
                let (_, prev, plen) = best[p];
                if t.len() <= plen {
                    keep.set(i, false);
                } else {
                    keep.set(prev, false);
                    best.set(p, (key, i, t.len()));
                }
            } else {
                best.push((key, i, t.len()));
            }
        }
        i = i + 1;
    }
    // Selected traces.
    let ghost k2 = keep@;
    let mut r: Vec<(Vec<usize>, Score)> = Vec::new();
    let mut i: usize = 0;
    while i < n
        invariant
            i <= n,
            n == traces@.len(),
            tv == traces_view(traces@),
            k2 == keep@,
            keep@.len() == n,
            traces_view(r@) == select(tv, k2, i as nat),
            traces_within(tv, bound@),
            traces_within(traces_view(r@), bound@),
        decreases n - i,
    {
        if keep[i] {
            let ghost before = traces_view(r@);
            r.push((clone_path(&traces[i].0), traces[i].1));
            proof {
                assert(traces_view(r@) =~= before.push(tv[i as int]));
                assert forall|q: int, j: int| 0 <= q < traces_view(r@).len() && 0 <= j < traces_view(r@)[q].0.len() implies (#[trigger] traces_view(r@)[q].0[j]) < bound@ by {
                    if q < before.len() {
                        assert(traces_view(r@)[q] == before[q]);
                        assert(before[q].0[j] < bound@);
                    } else {
                        assert(traces_view(r@)[q] == tv[i as int]);
                        assert(tv[i as int].0[j] < bound@);
                    }
                }
            }
        }
        i = i + 1;
    }
    r
}

proof fn lemma_insert_trace_at(s: Seq<(Seq<usize>, Score)>, x: (Seq<usize>, Score), k: int)
    requires
        0 <= k <= s.len(),
        forall|j: int| 0 <= j < k ==> !trace_before(x, #[trigger] s[j]),
        k < s.len() ==> trace_before(x, s[k]),
    ensures
        insert_trace(s, x) == s.insert(k, x),
    decreases k,
{
    if k == 0 {
        if s.len() == 0 {
            assert(s.insert(0, x) =~= seq![x]);
        } else {
            assert(s.insert(0, x) =~= seq![x] + s);
        }
    } else {
        let t = s.drop_first();
        assert forall|j: int| 0 <= j < k - 1 implies !trace_before(x, #[trigger] t[j]) by {
            assert(t[j] == s[j + 1]);
        }
        if k < s.len() {
            assert(t[k - 1] == s[k]);
        }
        lemma_insert_trace_at(t, x, k - 1);
        assert(s.insert(k, x) =~= seq![s[0]] + t.insert(k - 1, x));
    }
}

/// Traces by length (descending), then by entry score.
fn sort_traces(ts: &Vec<(Vec<usize>, Score)>, bound: Ghost<nat>) -> (r: Vec<(Vec<usize>, Score)>)
    requires
        traces_within(traces_view(ts@), bound@),
    ensures
        traces_view(r@) == order_traces(traces_view(ts@)),
        traces_within(traces_view(r@), bound@),
{
    let ghost tv = traces_view(ts@);
    let mut r: Vec<(Vec<usize>, Score)> = Vec::new();
    let mut i: usize = 0;
    while i < ts.len()
        invariant
            i <= ts@.len(),
            tv == traces_view(ts@),
            traces_view(r@) == order_traces(tv.take(i as int)),
            traces_within(tv, bound@),
            traces_within(traces_view(r@), bound@),
        decreases ts@.len() - i,
    {
        let x = (clone_path(&ts[i].0), ts[i].1);
        let ghost xv = (x.0@, x.1);
        let ghost rv = traces_view(r@);
        proof {
            assert(xv == tv[i as int]);
        }
        let mut k: usize = 0;
        while k < r.len() && !(x.0.len() > r[k].0.len() || (x.0.len() == r[k].0.len() && score_greater(x.1, r[k].1)))
            invariant
                k <= rv.len(),
                rv == traces_view(r@),
                xv == (x.0@, x.1),
                forall|j: int| 0 <= j < k ==> !trace_before(xv, #[trigger] rv[j]),
            decreases rv.len() - k,
        {
            proof {
                assert(rv[k as int] == (r@[k as int].0@, r@[k as int].1));
            }
            k = k + 1;
        }
        proof {
            if k < rv.len() {
                assert(rv[k as int] == (r@[k as int].0@, r@[k as int].1));
            }
            lemma_insert_trace_at(rv, xv, k as int);
            assert(tv.take(i + 1).drop_last() =~= tv.take(i as int));
        }
        r.insert(k, x);
        proof {
            assert(traces_view(r@) =~= rv.insert(k as int, xv));
            let nr = traces_view(r@);
            assert forall|q: int, j: int| 0 <= q < nr.len() && 0 <= j < nr[q].0.len() implies (#[trigger] nr[q].0[j]) < bound@ by {
                if q < k {
                    assert(nr[q] == rv[q]);
                    assert(rv[q].0[j] < bound@);
                } else if q == k {
                    assert(nr[q] == tv[i as int]);
                    assert(tv[i as int].0[j] < bound@);
                } else {
                    assert(nr[q] == rv[q - 1]);
                    assert(rv[q - 1].0[j] < bound@);
                }
            }
        }
        i = i + 1;
    }
    proof {
        assert(tv.take(tv.len() as int) =~= tv);
    }
    r
}

proof fn lemma_subset_marks_len(ts: Seq<(Seq<usize>, Score)>, i: nat)
    ensures
        subset_marks(ts, i).len() == ts.len(),
    decreases i,
{
    if i > 0 {
        lemma_subset_marks_len(ts, (i - 1) as nat);
    }
}

proof fn lemma_pair_pos_range(best: Seq<((usize, usize), usize, usize)>, key: (usize, usize))
    ensures
        0 <= pair_pos(best, key) <= best.len(),
    decreases best.len(),
{
    if best.len() > 0 {
        lemma_pair_pos_range(best.drop_first(), key);
    }
}

proof fn lemma_pair_marks_len(ts: Seq<(Seq<usize>, Score)>, keep0: Seq<bool>, i: nat)
    requires
        i <= ts.len(),
        keep0.len() == ts.len(),
        ts.len() <= usize::MAX,
    ensures
        pair_marks(ts, keep0, i).0.len() == keep0.len(),
        forall|q: int| 0 <= q < pair_marks(ts, keep0, i).1.len() ==> (#[trigger] pair_marks(ts, keep0, i).1[q]).1 < i,
    decreases i,
{
    if i > 0 {
        lemma_pair_marks_len(ts, keep0, (i - 1) as nat);
        let st = pair_marks(ts, keep0, (i - 1) as nat);
        let r = pair_marks(ts, keep0, i);
        let a = i - 1;
        let t = ts[a].0;
        if !st.0[a] || t.len() == 0 {
        } else {
            let key = (t[0], t.last());
            let p = pair_pos(st.1, key);
            lemma_pair_pos_range(st.1, key);
            if p < st.1.len() {
                if t.len() <= st.1[p].2 {
                } else {
                    assert(st.1[p].1 < a);
                    assert forall|q: int| 0 <= q < r.1.len() implies (#[trigger] r.1[q]).1 < i by {
                        if q != p {
                            assert(r.1[q] == st.1[q]);
                        }
                    }
                }
            } else {
                assert forall|q: int| 0 <= q < r.1.len() implies (#[trigger] r.1[q]).1 < i by {
                    if q < st.1.len() {
                        assert(r.1[q] == st.1[q]);
                    }
                }
            }
        }
    }
}

// ─── Processes ──────────────────────────────────────────────────────

/// Community listed for a UID (the first pair with that UID).
pub open spec fn comm_lookup(cmap: Seq<(Seq<char>, usize)>, uid: Seq<char>) -> Option<usize>
    decreases cmap.len(),
{
    if cmap.len() == 0 {
        None
    } else if cmap[0].0 == uid {
        Some(cmap[0].1)
    } else {
        comm_lookup(cmap.drop_first(), uid)
    }
}

/// Communities of the steps that have one, in step order.
pub open spec fn step_communities(steps: Seq<Seq<char>>, cmap: Seq<(Seq<char>, usize)>) -> Seq<usize>
    decreases steps.len(),
{
    if steps.len() == 0 {
        Seq::empty()
    } else {
        step_communities(steps.drop_last(), cmap) + match comm_lookup(cmap, steps.last()) {
            Some(c) => seq![c],
            None => Seq::empty(),
        }
    }
}

/// Two of the communities differ.
pub open spec fn spans_communities(cs: Seq<usize>) -> bool {
    exists|a: int, b: int| 0 <= a < cs.len() && 0 <= b < cs.len() && cs[a] != cs[b]
}

/// The name listed for a UID, or `?`.
pub open spec fn name_or_q(names: Seq<(Seq<char>, Seq<char>)>, uid: Seq<char>) -> Seq<char> {
    match name_of(names, uid) {
        Some(n) => n,
        None => "?"@,
    }
}

/// First element, or the empty string for an empty list.
pub open spec fn first_or_empty(s: Seq<Seq<char>>) -> Seq<char> {
    if s.len() > 0 {
        s[0]
    } else {
        Seq::empty()
    }
}

/// Last element, or the empty string for an empty list.
pub open spec fn last_or_empty(s: Seq<Seq<char>>) -> Seq<char> {
    if s.len() > 0 {
        s.last()
    } else {
        Seq::empty()
    }
}

/// UIDs of the nodes of a path.
pub open spec fn path_uids(nodes: Seq<Seq<char>>, p: Seq<usize>) -> Seq<Seq<char>> {
    p.map_values(|x: usize| nodes[x as int])
}

/// The process built from the `i`-th trace.
pub open spec fn process_view(
    i: int,
    t: (Seq<usize>, Score),
    nodes: Seq<Seq<char>>,
    names: Seq<(Seq<char>, Seq<char>)>,
    cmap: Seq<(Seq<char>, usize)>,
) -> ProcessV {
    let steps = path_uids(nodes, t.0);
    let entry = first_or_empty(steps);
    let term = last_or_empty(steps);
    ProcessV {
        id: i as usize,
        label: name_or_q(names, entry) + " → "@ + name_or_q(names, term),
        process_type: if spans_communities(step_communities(steps, cmap)) {
            ProcessType::CrossCommunity
        } else {
            ProcessType::IntraCommunity
        },
        steps,
        entry_point: entry,
        terminal: term,
        priority: t.1,
    }
}

/// A trace long enough to keep, with its entry score.
pub open spec fn kept_trace(min_steps: usize, sc: Score) -> spec_fn(Seq<usize>) -> Option<(Seq<usize>, Score)> {
    |p: Seq<usize>|
        if p.len() >= min_steps {
            Some((p, sc))
        } else {
            None
        }
}

/// Traces of all entries, entry after entry.
pub open spec fn all_traces(fwd: Seq<Seq<usize>>, entries: Seq<(usize, Score)>, cfg: ProcessConfig) -> Seq<(Seq<usize>, Score)>
    decreases entries.len(),
{
    if entries.len() == 0 {
        Seq::empty()
    } else {
        let e = entries.last();
        all_traces(fwd, entries.drop_last(), cfg) + traces_from(fwd, e.0, cfg).filter_map(
            kept_trace(cfg.min_steps, e.1),
        )
    }
}

/// The processes detected from calls (caller, callee, confidence).
pub open spec fn processes_of(
    ev: Seq<(Seq<char>, Seq<char>, Confidence)>,
    names: Seq<(Seq<char>, Seq<char>)>,
    cmap: Seq<(Seq<char>, usize)>,
    cfg: ProcessConfig,
) -> Seq<ProcessV> {
    let qe = followed_calls(ev, cfg.min_confidence);
    let nodes = graph_nodes(qe);
    let ie = index_edges(qe, nodes);
    let fwd = forward_lists(ie, nodes.len());
    let entries = first_n(ranked(nodes, candidates(nodes, ie, names, nodes.len())), 200);
    let top = first_n(order_traces(dedup_traces(all_traces(fwd, entries, cfg))), cfg.max_processes as nat);
    Seq::new(top.len(), |i: int| process_view(i, top[i], nodes, names, cmap))
}

/// Community listed for a UID.
fn find_community(cmap: &[(String, usize)], uid: &str) -> (r: Option<usize>)
    ensures
        r == comm_lookup(cmap.deep_view(), uid@),
{
    let ghost cv = cmap.deep_view();
    let mut k: usize = 0;
    proof {
        assert(cv.skip(0) =~= cv);
    }
    while k < cmap.len()
        invariant
            k <= cv.len(),
            cv == cmap.deep_view(),
            comm_lookup(cv, uid@) == comm_lookup(cv.skip(k as int), uid@),
        decreases cv.len() - k,
    {
        proof {
            assert(cv.skip(k as int).drop_first() =~= cv.skip(k + 1));
            assert(cv.skip(k as int)[0] == cv[k as int]);
            assert(cv[k as int] == cmap@[k as int].deep_view());
        }
        if str_eq(cmap[k].0.as_str(), uid) {
            return Some(cmap[k].1);
        }
        k = k + 1;
    }
    proof {
        assert(cv.skip(k as int) =~= Seq::<(Seq<char>, usize)>::empty());
    }
    None
}

/// The name listed for a UID, or `?`.
fn display_name(names: &[(String, String)], uid: &str) -> (r: String)
    ensures
        r@ == name_or_q(names.deep_view(), uid@),
{
    match lookup_name(names, uid) {
        Some(k) => names[k].1.clone(),
        None => {
            proof {
                reveal_strlit("?");
            }
            owned("?")
        },
    }
}

/// The process for the `i`-th trace.
fn build_process(
    i: usize,
    p: &Vec<usize>,
    sc: Score,
    nodes: &Vec<String>,
    names: &[(String, String)],
    cmap: &[(String, usize)],
) -> (r: Process)
    requires
        forall|j: int| 0 <= j < p@.len() ==> (#[trigger] p@[j]) < nodes@.len(),
    ensures
        r@ == process_view(i as int, (p@, sc), nodes.deep_view(), names.deep_view(), cmap.deep_view()),
{
    let ghost nv = nodes.deep_view();
    let ghost cv = cmap.deep_view();
    let mut steps: Vec<String> = Vec::new();
    let mut comms: Vec<usize> = Vec::new();
    let mut j: usize = 0;
    while j < p.len()
        invariant
            j <= p@.len(),
            nv == nodes.deep_view(),
            cv == cmap.deep_view(),
            forall|q: int| 0 <= q < p@.len() ==> (#[trigger] p@[q]) < nodes@.len(),
            steps.deep_view() == path_uids(nv, p@.take(j as int)),
            comms@ == step_communities(path_uids(nv, p@.take(j as int)), cv),
        decreases p@.len() - j,
    {
        let u = nodes[p[j]].clone();
        proof {
            assert(nv[p@[j as int] as int] == nodes@[p@[j as int] as int]@);
        }
        let found = find_community(cmap, u.as_str());
        let ghost before = steps.deep_view();
        let ghost cbefore = comms@;
        let ghost uv = u@;
        steps.push(u);
        proof {
            assert(steps.deep_view() =~= before.push(uv));
            assert(p@.take(j + 1) =~= p@.take(j as int).push(p@[j as int]));
            assert(steps.deep_view() =~= path_uids(nv, p@.take(j + 1)));
            assert(path_uids(nv, p@.take(j + 1)).drop_last() =~= path_uids(nv, p@.take(j as int)));
        }
        if let Some(c) = found {
            comms.push(c);
            proof {
                assert(comms@ =~= cbefore + seq![c]);
            }
        } else {
            proof {
                assert(comms@ =~= cbefore + Seq::<usize>::empty());
            }
        }
        j = j + 1;
    }
    proof {
        assert(p@.take(p@.len() as int) =~= p@);
    }
    let entry = if steps.len() > 0 {
        steps[0].clone()
    } else {
        String::new()
    };
    let terminal = if steps.len() > 0 {
        steps[steps.len() - 1].clone()
    } else {
        String::new()
    };
    let mut cross = false;
    let mut k: usize = 0;
    while k < comms.len()
        invariant
            k <= comms@.len(),
            cross == (exists|b: int| 0 <= b < k && #[trigger] comms@[b] != comms@[0]),
        decreases comms@.len() - k,
    {
        if comms[k] != comms[0] {
            cross = true;
        }
        k = k + 1;
    }
    proof {
        if cross {
            let b = choose|b: int| 0 <= b < comms@.len() && #[trigger] comms@[b] != comms@[0];
            assert(spans_communities(comms@));
        } else {
            if spans_communities(comms@) {
                let (a, b) = choose|a: int, b: int| 0 <= a < comms@.len() && 0 <= b < comms@.len() && comms@[a] != comms@[b];
                assert(comms@[a] == comms@[0]);
                assert(comms@[b] == comms@[0]);
            }
        }
    }
    let en = display_name(names, entry.as_str());
    let tn = display_name(names, terminal.as_str());
    let label = concat3(en.as_str(), " → ", tn.as_str());
    Process {
        id: i,
        label,
        process_type: if cross {
            ProcessType::CrossCommunity
        } else {
            ProcessType::IntraCommunity
        },
        steps,
        entry_point: entry,
        terminal,
        priority: sc,
    }
}

proof fn lemma_callees_bound(ie: Seq<(usize, usize)>, v: usize, n: usize)
    requires
        forall|k: int| 0 <= k < ie.len() ==> (#[trigger] ie[k]).0 < n && ie[k].1 < n,
    ensures
        forall|j: int| 0 <= j < callees(ie, v).len() ==> (#[trigger] callees(ie, v)[j]) < n,
    decreases ie.len(),
{
    if ie.len() > 0 {
        let t = ie.drop_last();
        assert forall|k: int| 0 <= k < t.len() implies (#[trigger] t[k]).0 < n && t[k].1 < n by {
            assert(t[k] == ie[k]);
        }
        lemma_callees_bound(t, v, n);
        let c = callees(t, v);
        let r = callees(ie, v);
        assert(ie.last() == ie[ie.len() - 1]);
        assert forall|j: int| 0 <= j < r.len() implies (#[trigger] r[j]) < n by {
            if j < c.len() {
                assert(r[j] == c[j]);
            }
        }
    }
}

/// Detect execution flows by scoring entry points and tracing BFS paths.
///
/// - `call_edges`: (source_uid, target_uid, confidence)
/// - `symbol_names`: (uid, human-readable name)
/// - `community_map`: (uid, community id), for cross-community detection
pub fn detect_processes(
    call_edges: &[(String, String, Confidence)],
    symbol_names: &[(String, String)],
    community_map: &[(String, usize)],
    config: &ProcessConfig,
) -> (r: Vec<Process>)
    requires
        call_edges@.len() <= usize::MAX / 32,
    ensures
        r.deep_view() == processes_of(
            call_edges.deep_view(),
            symbol_names.deep_view(),
            community_map.deep_view(),
            *config,
        ),
{
    let ghost ev = call_edges.deep_view();
    let ghost names = symbol_names.deep_view();
    let ghost cmv = community_map.deep_view();
    let min = config.min_confidence;
    // Calls that are followed.
    let mut qe: Vec<(String, String)> = Vec::new();
    let mut k: usize = 0;
    while k < call_edges.len()
        invariant
            k <= ev.len(),
            ev == call_edges.deep_view(),
            min == config.min_confidence,
            qe.deep_view() == followed_calls(ev.take(k as int), min),
            qe@.len() <= k,
        decreases ev.len() - k,
    {
        proof {
            assert(ev.take(k + 1).drop_last() =~= ev.take(k as int));
            assert(ev[k as int] == call_edges@[k as int].deep_view());
        }
        let e = &call_edges[k];
        if confidence_at_least(e.2, min) {
            let ghost before = qe.deep_view();
            qe.push((e.0.clone(), e.1.clone()));
            proof {
                assert(qe.deep_view() =~= before.push((ev[k as int].0, ev[k as int].1)));
            }
        }
        k = k + 1;
    }
    proof {
        assert(ev.take(ev.len() as int) =~= ev);
    }
    let (nodes, ie) = index_graph(qe.as_slice());
    let ghost nv = nodes.deep_view();
    let n = nodes.len();
    let (fwd, inc) = build_call_lists(&ie, n);
    let ghost fv = fwd.deep_view();
    proof {
        assert(ie@.len() == qe@.len());
        assert forall|v: int, j: int| 0 <= v < fwd@.len() && 0 <= j < fwd@[v]@.len() implies (#[trigger] fwd@[v]@[j]) < fwd@.len() by {
            lemma_callees_bound(ie@, v as usize, n);
        }
        assert(fv =~= forward_lists(ie@, n as nat)) by {
            assert forall|v: int| 0 <= v < n implies #[trigger] fv[v] == forward_lists(ie@, n as nat)[v] by {
                assert(fwd@[v].deep_view() =~= fwd@[v]@);
            }
        }
    }
    // Entry-point candidates, ranked.
    let mut cands: Vec<(usize, Score)> = Vec::new();
    let mut v: usize = 0;
    while v < n
        invariant
            v <= n,
            n == nodes@.len(),
            nv == nodes.deep_view(),
            names == symbol_names.deep_view(),
            fwd@.len() == n,
            inc@.len() == n,
            forall|u: int| 0 <= u < n ==> (#[trigger] fwd@[u])@ == callees(ie@, u as usize),
            forall|u: int| 0 <= u < n ==> (#[trigger] inc@[u]) == caller_count(ie@, u as usize),
            ie@.len() <= usize::MAX / 32,
            cands@ == candidates(nv, ie@, names, v as nat),
            forall|q: int| 0 <= q < cands@.len() ==> (#[trigger] cands@[q]).0 < n,
        decreases n - v,
    {
        let sc = score_of(&nodes, &fwd, &inc, symbol_names, v, Ghost(ie@));
        if sc.num > 0 {
            cands.push((v, sc));
        }
        v = v + 1;
    }
    let mut entries = rank_entries(&nodes, &cands);
    entries.truncate(200);
    let ghost ev2 = entries@;
    proof {
        assert(ev2 == first_n(ranked(nv, cands@), 200));
    }
    // Traces from every entry.
    let mut traces: Vec<(Vec<usize>, Score)> = Vec::new();
    let mut a: usize = 0;
    while a < entries.len()
        invariant
            a <= ev2.len(),
            ev2 == entries@,
            n == fwd@.len(),
            fv == fwd.deep_view(),
            forall|q: int| 0 <= q < entries@.len() ==> (#[trigger] entries@[q]).0 < n,
            forall|u: int, j: int| 0 <= u < fwd@.len() && 0 <= j < fwd@[u]@.len() ==> (#[trigger] fwd@[u]@[j]) < fwd@.len(),
            traces_view(traces@) == all_traces(fv, ev2.take(a as int), *config),
            forall|q: int, j: int| 0 <= q < traces@.len() && 0 <= j < traces@[q].0@.len() ==> (#[trigger] traces@[q].0@[j]) < n,
        decreases ev2.len() - a,
    {
        let (e, sc) = entries[a];
        let ps = trace_paths(&fwd, e, config);
        let ghost pv = ps.deep_view();
        let ghost f = kept_trace(config.min_steps, sc);
        let ghost base = traces_view(traces@);
        proof {
            assert(ev2.take(a + 1).drop_last() =~= ev2.take(a as int));
            assert(ev2.take(a + 1).last() == (e, sc));
        }
        let mut j: usize = 0;
        while j < ps.len()
            invariant
                j <= pv.len(),
                pv == ps.deep_view(),
                f == kept_trace(config.min_steps, sc),
                traces_view(traces@) == base + pv.take(j as int).filter_map(f),
                paths_within(pv, n as nat),
                forall|q: int, i: int| 0 <= q < traces@.len() && 0 <= i < traces@[q].0@.len() ==> (#[trigger] traces@[q].0@[i]) < n,
            decreases pv.len() - j,
        {
            proof {
                pv.lemma_filter_map_take_succ(f, j as int);
                assert(pv[j as int] == ps@[j as int]@);
            }
            if ps[j].len() >= config.min_steps {
                let ghost before = traces_view(traces@);
                let ghost old_t = traces@;
                let c = clone_path(&ps[j]);
                traces.push((c, sc));
                proof {
                    assert(traces_view(traces@) =~= before.push((pv[j as int], sc)));
                    assert forall|q: int, i: int| 0 <= q < traces@.len() && 0 <= i < traces@[q].0@.len() implies (#[trigger] traces@[q].0@[i]) < n by {
                        if q == traces@.len() - 1 {
                            assert(traces@[q].0@ == pv[j as int]);
                            assert(pv[j as int][i] < n);
                        } else {
                            assert(traces@[q] == old_t[q]);
                            assert(old_t[q].0@[i] < n);
                        }
                    }
                }
            }
            j = j + 1;
        }
        proof {
            assert(pv.take(pv.len() as int) =~= pv);
        }
        a = a + 1;
    }
    proof {
        assert(ev2.take(ev2.len() as int) =~= ev2);
    }
    proof {
        assert(traces_within(traces_view(traces@), n as nat)) by {
            assert forall|q: int, j: int| 0 <= q < traces_view(traces@).len() && 0 <= j < traces_view(traces@)[q].0.len() implies (#[trigger] traces_view(traces@)[q].0[j]) < n by {
                assert(traces_view(traces@)[q].0 == traces@[q].0@);
            }
        }
    }
    let kept = deduplicate_traces(&traces, Ghost(n as nat));
    let sorted = sort_traces(&kept, Ghost(n as nat));
    let ghost sv = traces_view(sorted@);
    let mut ordered = sorted;
    ordered.truncate(config.max_processes);
    let ghost top = traces_view(ordered@);
    proof {
        assert(top =~= first_n(sv, config.max_processes as nat));
        assert forall|q: int, j: int| 0 <= q < ordered@.len() && 0 <= j < ordered@[q].0@.len() implies (#[trigger] ordered@[q].0@[j]) < nodes@.len() by {
            assert(top[q] == sv[q]);
            assert(top[q].0 == ordered@[q].0@);
        }
    }
    let mut r: Vec<Process> = Vec::new();
    let mut i: usize = 0;
    while i < ordered.len()
        invariant
            i <= ordered@.len(),
            top == traces_view(ordered@),
            nv == nodes.deep_view(),
            names == symbol_names.deep_view(),
            cmv == community_map.deep_view(),
            forall|q: int, j: int| 0 <= q < ordered@.len() && 0 <= j < ordered@[q].0@.len() ==> (#[trigger] ordered@[q].0@[j]) < nodes@.len(),
            r.deep_view() == Seq::new(i as nat, |q: int| process_view(q, top[q], nv, names, cmv)),
        decreases ordered@.len() - i,
    {
        let pr = build_process(i, &ordered[i].0, ordered[i].1, &nodes, symbol_names, community_map);
        let ghost before = r.deep_view();
        let ghost prv = pr@;
        r.push(pr);
        proof {
            assert(top[i as int] == (ordered@[i as int].0@, ordered@[i as int].1));
            assert(r.deep_view() =~= before.push(prv));
            assert(r.deep_view() =~= Seq::new((i + 1) as nat, |q: int| process_view(q, top[q], nv, names, cmv)));
        }
        i = i + 1;
    }
    r
}

/// Whether confidence `a` is at least `b`, as fractions.
fn confidence_at_least(a: Confidence, b: Confidence) -> (r: bool)
    ensures
        r == conf_at_least(a, b),
{
    let x = a.num as u64;
    let y = b.den as u64;
    let z = b.num as u64;
    let w = a.den as u64;
    proof {
        assert(x * y <= 0xFFFF_FFFFu64 * 0xFFFF_FFFFu64) by (nonlinear_arith)
            requires
                x <= 0xFFFF_FFFFu64,
                y <= 0xFFFF_FFFFu64,
        ;
        assert(z * w <= 0xFFFF_FFFFu64 * 0xFFFF_FFFFu64) by (nonlinear_arith)
            requires
                z <= 0xFFFF_FFFFu64,
                w <= 0xFFFF_FFFFu64,
        ;
    }
    x * y >= z * w
}

// ─── Laws ───────────────────────────────────────────────────────────

/// Every trace has at least `m` steps.
pub open spec fn traces_at_least(ts: Seq<(Seq<usize>, Score)>, m: nat) -> bool {
    forall|i: int| 0 <= i < ts.len() ==> (#[trigger] ts[i]).0.len() >= m
}

/// Longer traces come first.
pub open spec fn traces_longest_first(ts: Seq<(Seq<usize>, Score)>) -> bool {
    forall|i: int, j: int| 0 <= i < j < ts.len() ==> (#[trigger] ts[i]).0.len() >= (#[trigger] ts[j]).0.len()
}

proof fn lemma_kept_traces(ps: Seq<Seq<usize>>, m: usize, sc: Score)
    ensures
        traces_at_least(ps.filter_map(kept_trace(m, sc)), m as nat),
    decreases ps.len(),
{
    if ps.len() > 0 {
        lemma_kept_traces(ps.drop_last(), m, sc);
        let rest = ps.drop_last().filter_map(kept_trace(m, sc));
        let r = ps.filter_map(kept_trace(m, sc));
        assert forall|i: int| 0 <= i < r.len() implies (#[trigger] r[i]).0.len() >= m by {
            if i < rest.len() {
                assert(r[i] == rest[i]);
            }
        }
    }
}

proof fn lemma_all_traces_long(fwd: Seq<Seq<usize>>, entries: Seq<(usize, Score)>, cfg: ProcessConfig)
    ensures
        traces_at_least(all_traces(fwd, entries, cfg), cfg.min_steps as nat),
    decreases entries.len(),
{
    if entries.len() > 0 {
        let e = entries.last();
        lemma_all_traces_long(fwd, entries.drop_last(), cfg);
        let a = all_traces(fwd, entries.drop_last(), cfg);
        let b = traces_from(fwd, e.0, cfg).filter_map(kept_trace(cfg.min_steps, e.1));
        lemma_kept_traces(traces_from(fwd, e.0, cfg), cfg.min_steps, e.1);
        let r = all_traces(fwd, entries, cfg);
        assert forall|i: int| 0 <= i < r.len() implies (#[trigger] r[i]).0.len() >= cfg.min_steps by {
            if i < a.len() {
                assert(r[i] == a[i]);
            } else {
                assert(r[i] == b[i - a.len()]);
            }
        }
    }
}

proof fn lemma_select_long(ts: Seq<(Seq<usize>, Score)>, keep: Seq<bool>, i: nat, m: nat)
    requires
        i <= ts.len(),
        traces_at_least(ts, m),
    ensures
        traces_at_least(select(ts, keep, i), m),
    decreases i,
{
    if i > 0 {
        lemma_select_long(ts, keep, (i - 1) as nat, m);
        let prev = select(ts, keep, (i - 1) as nat);
        let r = select(ts, keep, i);
        assert forall|j: int| 0 <= j < r.len() implies (#[trigger] r[j]).0.len() >= m by {
            if j < prev.len() {
                assert(r[j] == prev[j]);
            }
        }
    }
}

proof fn lemma_insert_trace(s: Seq<(Seq<usize>, Score)>, x: (Seq<usize>, Score), m: nat, hi: nat)
    requires
        traces_at_least(s, m),
        traces_longest_first(s),
        x.0.len() >= m,
        forall|i: int| 0 <= i < s.len() ==> (#[trigger] s[i]).0.len() <= hi,
        x.0.len() <= hi,
    ensures
        traces_at_least(insert_trace(s, x), m),
        traces_longest_first(insert_trace(s, x)),
        forall|i: int| 0 <= i < insert_trace(s, x).len() ==> (#[trigger] insert_trace(s, x)[i]).0.len() <= hi,
    decreases s.len(),
{
    let r = insert_trace(s, x);
    if s.len() == 0 {
    } else if trace_before(x, s[0]) {
        assert(r == seq![x] + s);
        assert forall|i: int, j: int| 0 <= i < j < r.len() implies (#[trigger] r[i]).0.len() >= (
        #[trigger] r[j]).0.len() by {
            assert(r[j] == s[j - 1]);
            if i > 0 {
                assert(r[i] == s[i - 1]);
            } else if j - 1 > 0 {
                assert(s[0].0.len() >= s[j - 1].0.len());
            }
        }
        assert forall|i: int| 0 <= i < r.len() implies (#[trigger] r[i]).0.len() >= m && r[i].0.len() <= hi by {
            if i > 0 {
                assert(r[i] == s[i - 1]);
            }
        }
    } else {
        let t = s.drop_first();
        assert forall|i: int| 0 <= i < t.len() implies (#[trigger] t[i]).0.len() >= m && t[i].0.len() <= s[0].0.len() by {
            assert(t[i] == s[i + 1]);
        }
        assert forall|i: int, j: int| 0 <= i < j < t.len() implies (#[trigger] t[i]).0.len() >= (#[trigger] t[j]).0.len() by {
            assert(t[i] == s[i + 1] && t[j] == s[j + 1]);
        }
        lemma_insert_trace(t, x, m, s[0].0.len());
        let u = insert_trace(t, x);
        assert(r == seq![s[0]] + u);
        assert forall|i: int, j: int| 0 <= i < j < r.len() implies (#[trigger] r[i]).0.len() >= (
        #[trigger] r[j]).0.len() by {
            assert(r[j] == u[j - 1]);
            if i > 0 {
                assert(r[i] == u[i - 1]);
            }
        }
        assert forall|i: int| 0 <= i < r.len() implies (#[trigger] r[i]).0.len() >= m && r[i].0.len() <= hi by {
            if i > 0 {
                assert(r[i] == u[i - 1]);
            }
        }
    }
}

proof fn lemma_order_traces(s: Seq<(Seq<usize>, Score)>, m: nat)
    requires
        traces_at_least(s, m),
    ensures
        traces_at_least(order_traces(s), m),
        traces_longest_first(order_traces(s)),
        order_traces(s).len() == s.len(),
    decreases s.len(),
{
    if s.len() > 0 {
        let t = s.drop_last();
        assert forall|i: int| 0 <= i < t.len() implies (#[trigger] t[i]).0.len() >= m by {
            assert(t[i] == s[i]);
        }
        lemma_order_traces(t, m);
        let o = order_traces(t);
        let mut hi: nat = s.last().0.len();
        assert forall|i: int| 0 <= i < o.len() implies (#[trigger] o[i]).0.len() <= o[0].0.len() by {
            if i > 0 {
                assert(o[0].0.len() >= o[i].0.len());
            }
        }
        let bound: nat = if o.len() > 0 && o[0].0.len() > hi { o[0].0.len() } else { hi };
        lemma_insert_trace(o, s.last(), m, bound);
        lemma_insert_trace_len(o, s.last());
    }
}

proof fn lemma_insert_trace_len(s: Seq<(Seq<usize>, Score)>, x: (Seq<usize>, Score))
    ensures
        insert_trace(s, x).len() == s.len() + 1,
    decreases s.len(),
{
    if s.len() > 0 && !trace_before(x, s[0]) {
        lemma_insert_trace_len(s.drop_first(), x);
    }
}

/// Flow detection reports at most `max_processes` flows, numbered from 0 in
/// order, longest first, each with at least `min_steps` steps.
pub proof fn law_processes_bounded(
    ev: Seq<(Seq<char>, Seq<char>, Confidence)>,
    names: Seq<(Seq<char>, Seq<char>)>,
    cmap: Seq<(Seq<char>, usize)>,
    cfg: ProcessConfig,
)
    ensures
        processes_of(ev, names, cmap, cfg).len() <= cfg.max_processes,
        forall|i: int|
            0 <= i < processes_of(ev, names, cmap, cfg).len() ==> (#[trigger] processes_of(ev, names, cmap, cfg)[i]).id
                == i && processes_of(ev, names, cmap, cfg)[i].steps.len() >= cfg.min_steps,
        forall|i: int, j: int|
            0 <= i < j < processes_of(ev, names, cmap, cfg).len() ==> (#[trigger] processes_of(
                ev,
                names,
                cmap,
                cfg,
            )[i]).steps.len() >= (#[trigger] processes_of(ev, names, cmap, cfg)[j]).steps.len(),
{
    let qe = followed_calls(ev, cfg.min_confidence);
    let nodes = graph_nodes(qe);
    let ie = index_edges(qe, nodes);
    let fwd = forward_lists(ie, nodes.len());
    let entries = first_n(ranked(nodes, candidates(nodes, ie, names, nodes.len())), 200);
    let all = all_traces(fwd, entries, cfg);
    lemma_all_traces_long(fwd, entries, cfg);
    let k1 = subset_marks(all, all.len());
    lemma_select_long(all, pair_marks(all, k1, all.len()).0, all.len(), cfg.min_steps as nat);
    let d = dedup_traces(all);
    lemma_order_traces(d, cfg.min_steps as nat);
    let o = order_traces(d);
    let top = first_n(o, cfg.max_processes as nat);
    let ps = processes_of(ev, names, cmap, cfg);
    assert forall|i: int| 0 <= i < ps.len() implies (#[trigger] ps[i]).id == i && ps[i].steps.len() >= cfg.min_steps by {
        assert(ps[i] == process_view(i, top[i], nodes, names, cmap));
        assert(top[i] == o[i]);
    }
    assert forall|i: int, j: int| 0 <= i < j < ps.len() implies (#[trigger] ps[i]).steps.len() >= (
    #[trigger] ps[j]).steps.len() by {
        assert(ps[i] == process_view(i, top[i], nodes, names, cmap));
        assert(ps[j] == process_view(j, top[j], nodes, names, cmap));
        assert(top[i] == o[i] && top[j] == o[j]);
    }
}


// ─── Deduplicated traces ────────────────────────────────────────────

proof fn lemma_subset_marks(ts: Seq<(Seq<usize>, Score)>, i: nat)
    requires
        i <= ts.len(),
    ensures
        subset_marks(ts, i).len() == ts.len(),
        forall|a: int, j: int|
            0 <= a < i && 0 <= j < ts.len() && j != a && #[trigger] subset_marks(ts, i)[a] && #[trigger] subset_marks(
                ts,
                i,
            )[j] ==> !dominated(ts, j, a),
    decreases i,
{
    if i > 0 {
        lemma_subset_marks(ts, (i - 1) as nat);
        let k = subset_marks(ts, (i - 1) as nat);
        let k1 = subset_marks(ts, i);
        let a0 = i - 1;
        assert forall|a: int, j: int|
            0 <= a < i && 0 <= j < ts.len() && j != a && #[trigger] k1[a] && #[trigger] k1[j] implies !dominated(ts, j, a) by {
            if k[a0] {
                assert(k1[a] ==> k[a]);
                assert(k1[j] ==> k[j]);
            }
        }
    }
}

proof fn lemma_pair_pos_nonneg(best: Seq<((usize, usize), usize, usize)>, key: (usize, usize))
    ensures
        pair_pos(best, key) >= 0,
    decreases best.len(),
{
    if best.len() > 0 && best[0].0 != key {
        lemma_pair_pos_nonneg(best.drop_first(), key);
    }
}

proof fn lemma_pair_marks_fewer(ts: Seq<(Seq<usize>, Score)>, keep0: Seq<bool>, i: nat)
    requires
        i <= ts.len(),
        keep0.len() == ts.len(),
    ensures
        pair_marks(ts, keep0, i).0.len() == ts.len(),
        forall|j: int| 0 <= j < ts.len() && #[trigger] pair_marks(ts, keep0, i).0[j] ==> keep0[j],
        forall|q: int| 0 <= q < pair_marks(ts, keep0, i).1.len() ==> (#[trigger] pair_marks(ts, keep0, i).1[q]).1 < i,
    decreases i,
{
    if i > 0 {
        lemma_pair_marks_fewer(ts, keep0, (i - 1) as nat);
        let st = pair_marks(ts, keep0, (i - 1) as nat);
        let r = pair_marks(ts, keep0, i);
        let a = i - 1;
        let t = ts[a].0;
        if st.0[a] && t.len() > 0 {
            let key = (t[0], t.last());
            let p = pair_pos(st.1, key);
            lemma_pair_pos_nonneg(st.1, key);
            if p < st.1.len() {
                if t.len() > st.1[p].2 {
                    assert(st.1[p].1 < a);
                    assert forall|j: int| 0 <= j < ts.len() && #[trigger] r.0[j] implies keep0[j] by {
                        if j != st.1[p].1 as int {
                            assert(r.0[j] == st.0[j]);
                        }
                    }
                    assert forall|q: int| 0 <= q < r.1.len() implies (#[trigger] r.1[q]).1 < i by {
                        if q != p {
                            assert(r.1[q] == st.1[q]);
                        }
                    }
                } else {
                    assert forall|j: int| 0 <= j < ts.len() && #[trigger] r.0[j] implies keep0[j] by {
                        if j != a {
                            assert(r.0[j] == st.0[j]);
                        }
                    }
                }
            } else {
                assert forall|q: int| 0 <= q < r.1.len() implies (#[trigger] r.1[q]).1 < i by {
                    if q < st.1.len() {
                        assert(r.1[q] == st.1[q]);
                    }
                }
            }
        }
    }
}

/// Positions of the set marks among the first `i`, in order.
spec fn kept_positions(keep: Seq<bool>, i: nat) -> Seq<int>
    decreases i,
{
    if i == 0 {
        Seq::empty()
    } else if keep[i - 1] {
        kept_positions(keep, (i - 1) as nat).push(i - 1)
    } else {
        kept_positions(keep, (i - 1) as nat)
    }
}

proof fn lemma_select(ts: Seq<(Seq<usize>, Score)>, keep: Seq<bool>, i: nat)
    requires
        i <= ts.len(),
        i <= keep.len(),
    ensures
        select(ts, keep, i).len() == kept_positions(keep, i).len(),
        forall|x: int|
            0 <= x < select(ts, keep, i).len() ==> {
                let a = #[trigger] kept_positions(keep, i)[x];
                &&& 0 <= a < i
                &&& keep[a]
                &&& select(ts, keep, i)[x] == ts[a]
            },
        forall|x: int, y: int|
            0 <= x < y < kept_positions(keep, i).len() ==> #[trigger] kept_positions(keep, i)[x] < #[trigger] kept_positions(
                keep,
                i,
            )[y],
    decreases i,
{
    if i > 0 {
        lemma_select(ts, keep, (i - 1) as nat);
    }
}

/// Deduplication keeps no trace whose nodes all lie on a longer kept trace.
pub proof fn law_kept_traces_not_subsumed(ts: Seq<(Seq<usize>, Score)>)
    ensures
        forall|x: int, y: int|
            0 <= x < dedup_traces(ts).len() && 0 <= y < dedup_traces(ts).len() && x != y ==> (
            #[trigger] dedup_traces(ts)[y]).0.len() >= (#[trigger] dedup_traces(ts)[x]).0.len() || exists|n: usize|
                dedup_traces(ts)[y].0.contains(n) && !dedup_traces(ts)[x].0.contains(n),
{
    let n = ts.len();
    let k1 = subset_marks(ts, n);
    lemma_subset_marks(ts, n);
    let keep = pair_marks(ts, k1, n).0;
    lemma_pair_marks_fewer(ts, k1, n);
    lemma_select(ts, keep, n);
    let d = dedup_traces(ts);
    let pos = kept_positions(keep, n);
    assert forall|x: int, y: int| 0 <= x < d.len() && 0 <= y < d.len() && x != y implies (#[trigger] d[y]).0.len() >= (
    #[trigger] d[x]).0.len() || exists|m: usize| d[y].0.contains(m) && !d[x].0.contains(m) by {
        let a = pos[x];
        let b = pos[y];
        if x < y {
            assert(pos[x] < pos[y]);
        } else {
            assert(pos[y] < pos[x]);
        }
        assert(keep[a] && keep[b]);
        assert(k1[a] && k1[b]);
        assert(!dominated(ts, b, a));
        assert(d[x] == ts[a] && d[y] == ts[b]);
    }
}


// ─── Traced paths never revisit a node ──────────────────────────────

/// Every path lists each node at most once.
pub open spec fn paths_simple(ps: Seq<Seq<usize>>) -> bool {
    forall|i: int| 0 <= i < ps.len() ==> (#[trigger] ps[i]).no_duplicates()
}

proof fn lemma_fresh_next_off_path(nb: Seq<usize>, p: Seq<usize>, k: nat)
    ensures
        forall|j: int| 0 <= j < fresh_next(nb, p, k).len() ==> !p.contains(#[trigger] fresh_next(nb, p, k)[j]),
    decreases nb.len(),
{
    if nb.len() > 0 && k > 0 {
        let t = nb.drop_first();
        if p.contains(nb[0]) {
            lemma_fresh_next_off_path(t, p, k);
            assert(fresh_next(nb, p, k) == fresh_next(t, p, k));
        } else {
            lemma_fresh_next_off_path(t, p, (k - 1) as nat);
            let r = fresh_next(nb, p, k);
            let q = fresh_next(t, p, (k - 1) as nat);
            assert(r == seq![nb[0]] + q);
            assert forall|j: int| 0 <= j < r.len() implies !p.contains(#[trigger] r[j]) by {
                if j > 0 {
                    assert(r[j] == q[j - 1]);
                } else {
                    assert(r[0] == nb[0]);
                }
            }
        }
    }
}

proof fn lemma_bfs_simple(
    fwd: Seq<Seq<usize>>,
    queue: Seq<Seq<usize>>,
    results: Seq<Seq<usize>>,
    fuel: nat,
    cfg: ProcessConfig,
)
    requires
        paths_simple(queue),
        paths_simple(results),
    ensures
        paths_simple(bfs(fwd, queue, results, fuel, cfg)),
    decreases fuel,
{
    if fuel > 0 && queue.len() > 0 {
        let p = queue[0];
        let rest = queue.drop_first();
        assert(p.no_duplicates());
        assert(paths_simple(rest)) by {
            assert forall|i: int| 0 <= i < rest.len() implies (#[trigger] rest[i]).no_duplicates() by {
                assert(rest[i] == queue[i + 1]);
            }
        }
        let pushed = results.push(p);
        assert(paths_simple(pushed)) by {
            assert forall|i: int| 0 <= i < pushed.len() implies (#[trigger] pushed[i]).no_duplicates() by {
                if i < results.len() {
                    assert(pushed[i] == results[i]);
                }
            }
        }
        if p.len() > cfg.max_trace_depth {
            lemma_bfs_simple(fwd, rest, pushed, (fuel - 1) as nat, cfg);
        } else {
            let nb = fwd[p.last() as int];
            let valid = fresh_next(nb, p, cfg.max_branching as nat);
            if nb.len() == 0 || valid.len() == 0 {
                lemma_bfs_simple(fwd, rest, pushed, (fuel - 1) as nat, cfg);
            } else {
                lemma_fresh_next_off_path(nb, p, cfg.max_branching as nat);
                let ext = extensions(p, valid);
                let q2 = rest + ext;
                assert(paths_simple(q2)) by {
                    assert forall|i: int| 0 <= i < q2.len() implies (#[trigger] q2[i]).no_duplicates() by {
                        if i < rest.len() {
                            assert(q2[i] == rest[i]);
                        } else {
                            let j = i - rest.len();
                            assert(q2[i] == ext[j]);
                            assert(ext[j] == p.push(valid[j]));
                            let x = valid[j];
                            assert(!p.contains(x));
                            let e = p.push(x);
                            assert forall|a: int, b: int| 0 <= a < b < e.len() implies e[a] != e[b] by {
                                if b < p.len() {
                                    assert(e[a] == p[a] && e[b] == p[b]);
                                } else {
                                    assert(e[a] == p[a]);
                                }
                            }
                        }
                    }
                }
                lemma_bfs_simple(fwd, q2, results, (fuel - 1) as nat, cfg);
            }
        }
    }
}

/// A traced path never visits a node twice: a call whose callee is already
/// on the path does not extend it, so recursion (direct or mutual) ends the
/// trace instead of repeating it.
pub proof fn law_traces_never_revisit(fwd: Seq<Seq<usize>>, entry: usize, cfg: ProcessConfig)
    ensures
        forall|i: int|
            0 <= i < traces_from(fwd, entry, cfg).len() ==> (#[trigger] traces_from(fwd, entry, cfg)[i]).no_duplicates(),
{
    let q = seq![seq![entry]];
    assert(paths_simple(q)) by {
        assert forall|i: int| 0 <= i < q.len() implies (#[trigger] q[i]).no_duplicates() by {
            assert(q[i] == seq![entry]);
        }
    }
    lemma_bfs_simple(fwd, q, Seq::empty(), 10_000, cfg);
}


// ─── Processes never repeat a step ──────────────────────────────────

/// A non-empty path of nodes below `n`, none twice.
pub open spec fn path_ok(p: Seq<usize>, n: nat) -> bool {
    p.len() > 0 && p.no_duplicates() && forall|j: int| 0 <= j < p.len() ==> #[trigger] p[j] < n
}

/// Every path is [`path_ok`].
pub open spec fn paths_ok(ps: Seq<Seq<usize>>, n: nat) -> bool {
    forall|i: int| 0 <= i < ps.len() ==> path_ok(#[trigger] ps[i], n)
}

/// Every trace's path is [`path_ok`].
pub open spec fn traces_ok(ts: Seq<(Seq<usize>, Score)>, n: nat) -> bool {
    forall|i: int| 0 <= i < ts.len() ==> path_ok((#[trigger] ts[i]).0, n)
}

/// Nodes below `n` call only nodes below `n`.
pub open spec fn fwd_within(fwd: Seq<Seq<usize>>, n: nat) -> bool {
    &&& n <= fwd.len()
    &&& forall|v: int, j: int| 0 <= v < n && 0 <= j < fwd[v].len() ==> #[trigger] fwd[v][j] < n
}

proof fn lemma_fresh_next_from(nb: Seq<usize>, p: Seq<usize>, k: nat)
    ensures
        forall|j: int| 0 <= j < fresh_next(nb, p, k).len() ==> nb.contains(#[trigger] fresh_next(nb, p, k)[j]),
    decreases nb.len(),
{
    if nb.len() > 0 && k > 0 {
        let t = nb.drop_first();
        let k2: nat = if p.contains(nb[0]) { k } else { (k - 1) as nat };
        lemma_fresh_next_from(t, p, k2);
        let r = fresh_next(nb, p, k);
        let q = fresh_next(t, p, k2);
        if p.contains(nb[0]) {
            assert(r == q);
        } else {
            assert(r == seq![nb[0]] + q);
        }
        assert forall|j: int| 0 <= j < r.len() implies nb.contains(#[trigger] r[j]) by {
            if !p.contains(nb[0]) && j == 0 {
                assert(r[0] == nb[0]);
            } else {
                let jj = if p.contains(nb[0]) { j } else { j - 1 };
                assert(r[j] == q[jj]);
                let m = choose|m: int| 0 <= m < t.len() && t[m] == q[jj];
                assert(nb[m + 1] == t[m]);
            }
        }
    }
}

proof fn lemma_bfs_ok(
    fwd: Seq<Seq<usize>>,
    queue: Seq<Seq<usize>>,
    results: Seq<Seq<usize>>,
    fuel: nat,
    cfg: ProcessConfig,
    n: nat,
)
    requires
        fwd_within(fwd, n),
        paths_ok(queue, n),
        paths_ok(results, n),
    ensures
        paths_ok(bfs(fwd, queue, results, fuel, cfg), n),
    decreases fuel,
{
    if fuel > 0 && queue.len() > 0 {
        let p = queue[0];
        let rest = queue.drop_first();
        assert(path_ok(p, n));
        assert(paths_ok(rest, n)) by {
            assert forall|i: int| 0 <= i < rest.len() implies path_ok(#[trigger] rest[i], n) by {
                assert(rest[i] == queue[i + 1]);
            }
        }
        let pushed = results.push(p);
        assert(paths_ok(pushed, n)) by {
            assert forall|i: int| 0 <= i < pushed.len() implies path_ok(#[trigger] pushed[i], n) by {
                if i < results.len() {
                    assert(pushed[i] == results[i]);
                }
            }
        }
        if p.len() > cfg.max_trace_depth {
            lemma_bfs_ok(fwd, rest, pushed, (fuel - 1) as nat, cfg, n);
        } else {
            let nb = fwd[p.last() as int];
            let valid = fresh_next(nb, p, cfg.max_branching as nat);
            if nb.len() == 0 || valid.len() == 0 {
                lemma_bfs_ok(fwd, rest, pushed, (fuel - 1) as nat, cfg, n);
            } else {
                lemma_fresh_next_off_path(nb, p, cfg.max_branching as nat);
                lemma_fresh_next_from(nb, p, cfg.max_branching as nat);
                assert(p[p.len() - 1] < n);
                let ext = extensions(p, valid);
                let q2 = rest + ext;
                assert(paths_ok(q2, n)) by {
                    assert forall|i: int| 0 <= i < q2.len() implies path_ok(#[trigger] q2[i], n) by {
                        if i < rest.len() {
                            assert(q2[i] == rest[i]);
                        } else {
                            let j = i - rest.len();
                            assert(q2[i] == ext[j]);
                            assert(ext[j] == p.push(valid[j]));
                            let x = valid[j];
                            assert(!p.contains(x));
                            assert(nb.contains(x));
                            let m = choose|m: int| 0 <= m < nb.len() && nb[m] == x;
                            assert(fwd[p.last() as int][m] < n);
                            let e = p.push(x);
                            assert forall|a: int, b: int| 0 <= a < b < e.len() implies e[a] != e[b] by {
                                if b < p.len() {
                                    assert(e[a] == p[a] && e[b] == p[b]);
                                } else {
                                    assert(e[a] == p[a]);
                                }
                            }
                            assert forall|a: int| 0 <= a < e.len() implies #[trigger] e[a] < n by {
                                if a < p.len() {
                                    assert(e[a] == p[a]);
                                }
                            }
                        }
                    }
                }
                lemma_bfs_ok(fwd, q2, results, (fuel - 1) as nat, cfg, n);
            }
        }
    }
}

proof fn lemma_kept_ok(ps: Seq<Seq<usize>>, m: usize, sc: Score, n: nat)
    requires
        paths_ok(ps, n),
    ensures
        traces_ok(ps.filter_map(kept_trace(m, sc)), n),
    decreases ps.len(),
{
    if ps.len() > 0 {
        let t = ps.drop_last();
        assert(paths_ok(t, n)) by {
            assert forall|i: int| 0 <= i < t.len() implies path_ok(#[trigger] t[i], n) by {
                assert(t[i] == ps[i]);
            }
        }
        lemma_kept_ok(t, m, sc, n);
        let rest = t.filter_map(kept_trace(m, sc));
        let r = ps.filter_map(kept_trace(m, sc));
        assert(ps[ps.len() - 1] == ps.last());
        assert forall|i: int| 0 <= i < r.len() implies path_ok((#[trigger] r[i]).0, n) by {
            if i < rest.len() {
                assert(r[i] == rest[i]);
            }
        }
    }
}

proof fn lemma_all_traces_ok(fwd: Seq<Seq<usize>>, entries: Seq<(usize, Score)>, cfg: ProcessConfig, n: nat)
    requires
        fwd_within(fwd, n),
        forall|q: int| 0 <= q < entries.len() ==> (#[trigger] entries[q]).0 < n,
    ensures
        traces_ok(all_traces(fwd, entries, cfg), n),
    decreases entries.len(),
{
    if entries.len() > 0 {
        let e = entries.last();
        let t = entries.drop_last();
        assert forall|q: int| 0 <= q < t.len() implies (#[trigger] t[q]).0 < n by {
            assert(t[q] == entries[q]);
        }
        lemma_all_traces_ok(fwd, t, cfg, n);
        assert(entries[entries.len() - 1] == e);
        let q0 = seq![seq![e.0]];
        assert(paths_ok(q0, n)) by {
            assert forall|i: int| 0 <= i < q0.len() implies path_ok(#[trigger] q0[i], n) by {
                assert(q0[i] == seq![e.0]);
            }
        }
        lemma_bfs_ok(fwd, q0, Seq::empty(), 10_000, cfg, n);
        lemma_kept_ok(traces_from(fwd, e.0, cfg), cfg.min_steps, e.1, n);
        let a = all_traces(fwd, t, cfg);
        let b = traces_from(fwd, e.0, cfg).filter_map(kept_trace(cfg.min_steps, e.1));
        let r = all_traces(fwd, entries, cfg);
        assert forall|i: int| 0 <= i < r.len() implies path_ok((#[trigger] r[i]).0, n) by {
            if i < a.len() {
                assert(r[i] == a[i]);
            } else {
                assert(r[i] == b[i - a.len()]);
            }
        }
    }
}

proof fn lemma_select_ok(ts: Seq<(Seq<usize>, Score)>, keep: Seq<bool>, i: nat, n: nat)
    requires
        i <= ts.len(),
        traces_ok(ts, n),
    ensures
        traces_ok(select(ts, keep, i), n),
    decreases i,
{
    if i > 0 {
        lemma_select_ok(ts, keep, (i - 1) as nat, n);
        let prev = select(ts, keep, (i - 1) as nat);
        let r = select(ts, keep, i);
        assert forall|j: int| 0 <= j < r.len() implies path_ok((#[trigger] r[j]).0, n) by {
            if j < prev.len() {
                assert(r[j] == prev[j]);
            }
        }
    }
}

proof fn lemma_insert_trace_ok(s: Seq<(Seq<usize>, Score)>, x: (Seq<usize>, Score), n: nat)
    requires
        traces_ok(s, n),
        path_ok(x.0, n),
    ensures
        traces_ok(insert_trace(s, x), n),
    decreases s.len(),
{
    let r = insert_trace(s, x);
    if s.len() == 0 {
        assert(r == seq![x]);
        assert forall|i: int| 0 <= i < r.len() implies path_ok((#[trigger] r[i]).0, n) by {
            assert(r[i] == x);
        }
    } else if trace_before(x, s[0]) {
        assert(r == seq![x] + s);
        assert forall|i: int| 0 <= i < r.len() implies path_ok((#[trigger] r[i]).0, n) by {
            if i > 0 {
                assert(r[i] == s[i - 1]);
            }
        }
    } else {
        let t = s.drop_first();
        assert forall|i: int| 0 <= i < t.len() implies path_ok((#[trigger] t[i]).0, n) by {
            assert(t[i] == s[i + 1]);
        }
        lemma_insert_trace_ok(t, x, n);
        let u = insert_trace(t, x);
        assert(r == seq![s[0]] + u);
        assert forall|i: int| 0 <= i < r.len() implies path_ok((#[trigger] r[i]).0, n) by {
            if i > 0 {
                assert(r[i] == u[i - 1]);
            }
        }
    }
}

proof fn lemma_order_ok(s: Seq<(Seq<usize>, Score)>, n: nat)
    requires
        traces_ok(s, n),
    ensures
        traces_ok(order_traces(s), n),
    decreases s.len(),
{
    if s.len() > 0 {
        let t = s.drop_last();
        assert forall|i: int| 0 <= i < t.len() implies path_ok((#[trigger] t[i]).0, n) by {
            assert(t[i] == s[i]);
        }
        lemma_order_ok(t, n);
        assert(s[s.len() - 1] == s.last());
        lemma_insert_trace_ok(order_traces(t), s.last(), n);
    }
}

proof fn lemma_candidates_below(nodes: Seq<Seq<char>>, ie: Seq<(usize, usize)>, names: Seq<(Seq<char>, Seq<char>)>, upto: nat)
    requires
        upto <= usize::MAX,
    ensures
        forall|q: int|
            0 <= q < candidates(nodes, ie, names, upto).len() ==> (#[trigger] candidates(nodes, ie, names, upto)[q]).0
                < upto,
    decreases upto,
{
    if upto > 0 {
        lemma_candidates_below(nodes, ie, names, (upto - 1) as nat);
        let r = candidates(nodes, ie, names, (upto - 1) as nat);
        let c = candidates(nodes, ie, names, upto);
        assert forall|q: int| 0 <= q < c.len() implies (#[trigger] c[q]).0 < upto by {
            if q < r.len() {
                assert(c[q] == r[q]);
            }
        }
    }
}

proof fn lemma_insert_entry_below(nodes: Seq<Seq<char>>, s: Seq<(usize, Score)>, x: (usize, Score), n: nat)
    requires
        forall|q: int| 0 <= q < s.len() ==> (#[trigger] s[q]).0 < n,
        x.0 < n,
    ensures
        forall|q: int| 0 <= q < insert_entry(nodes, s, x).len() ==> (#[trigger] insert_entry(nodes, s, x)[q]).0 < n,
    decreases s.len(),
{
    let r = insert_entry(nodes, s, x);
    if s.len() == 0 {
        assert(r == seq![x]);
    } else if entry_before(nodes, x, s[0]) {
        assert(r == seq![x] + s);
        assert forall|q: int| 0 <= q < r.len() implies (#[trigger] r[q]).0 < n by {
            if q > 0 {
                assert(r[q] == s[q - 1]);
            }
        }
    } else {
        let t = s.drop_first();
        assert forall|q: int| 0 <= q < t.len() implies (#[trigger] t[q]).0 < n by {
            assert(t[q] == s[q + 1]);
        }
        lemma_insert_entry_below(nodes, t, x, n);
        let u = insert_entry(nodes, t, x);
        assert(r == seq![s[0]] + u);
        assert forall|q: int| 0 <= q < r.len() implies (#[trigger] r[q]).0 < n by {
            if q > 0 {
                assert(r[q] == u[q - 1]);
            }
        }
    }
}

proof fn lemma_ranked_below(nodes: Seq<Seq<char>>, s: Seq<(usize, Score)>, n: nat)
    requires
        forall|q: int| 0 <= q < s.len() ==> (#[trigger] s[q]).0 < n,
    ensures
        forall|q: int| 0 <= q < ranked(nodes, s).len() ==> (#[trigger] ranked(nodes, s)[q]).0 < n,
    decreases s.len(),
{
    if s.len() > 0 {
        let t = s.drop_last();
        assert forall|q: int| 0 <= q < t.len() implies (#[trigger] t[q]).0 < n by {
            assert(t[q] == s[q]);
        }
        lemma_ranked_below(nodes, t, n);
        assert(s[s.len() - 1] == s.last());
        lemma_insert_entry_below(nodes, ranked(nodes, t), s.last(), n);
    }
}

proof fn lemma_followed_len(ev: Seq<(Seq<char>, Seq<char>, Confidence)>, min: Confidence)
    ensures
        followed_calls(ev, min).len() <= ev.len(),
    decreases ev.len(),
{
    if ev.len() > 0 {
        lemma_followed_len(ev.drop_last(), min);
    }
}

/// A detected process never lists a symbol twice among its steps: tracing
/// does not follow a call back to a symbol already on the path. (The calls
/// number at most `usize::MAX / 32`, as for [`detect_processes`].)
pub proof fn law_process_steps_distinct(
    ev: Seq<(Seq<char>, Seq<char>, Confidence)>,
    names: Seq<(Seq<char>, Seq<char>)>,
    cmap: Seq<(Seq<char>, usize)>,
    cfg: ProcessConfig,
)
    requires
        ev.len() <= usize::MAX / 32,
    ensures
        forall|i: int|
            0 <= i < processes_of(ev, names, cmap, cfg).len() ==> (#[trigger] processes_of(
                ev,
                names,
                cmap,
                cfg,
            )[i]).steps.no_duplicates(),
{
    let qe = followed_calls(ev, cfg.min_confidence);
    lemma_followed_len(ev, cfg.min_confidence);
    let nodes = graph_nodes(qe);
    crate::analyzer::community::lemma_endpoints_len(qe);
    crate::sorting::lemma_sort_strs(crate::analyzer::community::endpoints(qe));
    assert(crate::sorting::sort_strs(crate::analyzer::community::endpoints(qe)).len()
        == crate::analyzer::community::endpoints(qe).len()) by {
        broadcast use vstd::seq_lib::group_to_multiset_ensures;

        assert(crate::sorting::sort_strs(crate::analyzer::community::endpoints(qe)).to_multiset().len()
            == crate::analyzer::community::endpoints(qe).to_multiset().len());
    }
    crate::analyzer::community::lemma_dedup_len(crate::sorting::sort_strs(crate::analyzer::community::endpoints(qe)));
    crate::analyzer::community::lemma_graph_nodes_distinct(qe);
    let n = nodes.len();
    assert(n <= usize::MAX);
    let ie = index_edges(qe, nodes);
    assert forall|k: int| 0 <= k < ie.len() implies (#[trigger] ie[k]).0 < n && ie[k].1 < n by {
        crate::analyzer::community::lemma_graph_nodes_cover(qe, k);
        crate::analyzer::community::lemma_pos_found(nodes, qe[k].0);
        crate::analyzer::community::lemma_pos_found(nodes, qe[k].1);
    }
    let fwd = forward_lists(ie, n);
    assert(fwd_within(fwd, n)) by {
        assert forall|v: int, j: int| 0 <= v < n && 0 <= j < fwd[v].len() implies #[trigger] fwd[v][j] < n by {
            assert(fwd[v] == callees(ie, v as usize));
            lemma_callees_bound(ie, v as usize, n as usize);
        }
    }
    let cands = candidates(nodes, ie, names, n);
    lemma_candidates_below(nodes, ie, names, n);
    lemma_ranked_below(nodes, cands, n);
    let rk = ranked(nodes, cands);
    let entries = first_n(rk, 200);
    assert forall|q: int| 0 <= q < entries.len() implies (#[trigger] entries[q]).0 < n by {
        assert(entries[q] == rk[q]);
    }
    let all = all_traces(fwd, entries, cfg);
    lemma_all_traces_ok(fwd, entries, cfg, n);
    let k1 = subset_marks(all, all.len());
    lemma_select_ok(all, pair_marks(all, k1, all.len()).0, all.len(), n);
    let d = dedup_traces(all);
    lemma_order_ok(d, n);
    let o = order_traces(d);
    let top = first_n(o, cfg.max_processes as nat);
    let ps = processes_of(ev, names, cmap, cfg);
    assert forall|i: int| 0 <= i < ps.len() implies (#[trigger] ps[i]).steps.no_duplicates() by {
        assert(ps[i] == process_view(i, top[i], nodes, names, cmap));
        assert(top[i] == o[i]);
        let p = o[i].0;
        assert(path_ok(p, n));
        let st = path_uids(nodes, p);
        assert forall|a: int, b: int| 0 <= a < st.len() && 0 <= b < st.len() && a != b implies st[a] != st[b] by {
            assert(st[a] == nodes[p[a] as int] && st[b] == nodes[p[b] as int]);
            assert(p[a] < n && p[b] < n);
            assert(p[a] != p[b]);
        }
    }
}

} // verus!
