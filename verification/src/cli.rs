//! Command-line level rules: the arguments of the commands, the read-only
//! guard of raw graph queries, registry bookkeeping of indexed repositories,
//! and the selection of symbols for a batch impact analysis.

use vstd::prelude::*;
use crate::paths::{file_name_of, path_file_name};
use crate::query::{valid_symbol_kinds, SymbolInfo, SymbolInfoV};
use crate::text::{
    ascii_upper_seq, chars_of, chars_starts_with, concat3, decimal, decimal_string, digit_char, is_prefix_of, lemma_lex_irreflexive, lemma_lex_transitive, lex_lt, lowercase,
    byte_len_at_least, owned, push_char, str_eq, str_less, string_of, to_ascii_uppercase, to_lowercase, trim, trimmed,
    utf8_len,
};

pub use crate::eval::SearchMode;

verus! {

// ─── Arguments ──────────────────────────────────────────────────────

/// Direction of an impact analysis.
#[derive(Debug, Clone, Copy, PartialEq, Eq, Structural)]
pub enum ImpactDirection {
    Upstream,
    Downstream,
}

impl ImpactDirection {
    /// `upstream` or `downstream`.
    pub fn as_str(&self) -> (s: &'static str)
        ensures
            s@ == (match *self {
                ImpactDirection::Upstream => "upstream"@,
                ImpactDirection::Downstream => "downstream"@,
            }),
    {
        match self {
            ImpactDirection::Upstream => "upstream",
            ImpactDirection::Downstream => "downstream",
        }
    }
}

/// Arguments of `index`.
#[derive(Debug)]
pub struct IndexArgs {
    /// Path to the repository (defaults to current directory)
    pub path: String,
    /// Force full re-index (ignore cache)
    pub force: bool,
    /// Print per-phase timing, failure counts, and memory usage
    pub metrics: bool,
}

/// Arguments of `status`.
#[derive(Debug)]
pub struct StatusArgs {
    /// Path to the repository (defaults to current directory)
    pub path: String,
}

/// Arguments of `query`.
#[derive(Debug)]
pub struct QueryArgs {
    /// Search query
    pub query: String,
    /// Path to the repository
    pub path: String,
    /// Max results
    pub limit: usize,
    /// Search mode: bm25, vector, or hybrid
    pub mode: SearchMode,
    /// Return results grouped by execution process
    pub grouped: bool,
}

/// Arguments of `context`.
#[derive(Debug)]
pub struct ContextArgs {
    /// Symbol name to inspect (required unless a UID is given)
    pub name: Option<String>,
    /// Direct UID lookup
    pub uid: Option<String>,
    /// Narrow down by file path when the name is ambiguous
    pub file: Option<String>,
    /// Path to the repository
    pub path: String,
}

/// Arguments of `embed`.
#[derive(Debug)]
pub struct EmbedArgs {
    /// Path to the repository (defaults to current directory)
    pub path: String,
    /// Force re-generation of all embeddings
    pub force: bool,
}

/// Arguments of `clusters`.
#[derive(Debug)]
pub struct ClustersArgs {
    /// Path to the repository
    pub path: String,
}

/// Arguments of `processes`.
#[derive(Debug)]
pub struct ProcessesArgs {
    /// Path to the repository
    pub path: String,
}

/// Arguments of `subgraph`.
#[derive(Debug)]
pub struct SubgraphArgs {
    /// Symbol name to explore (required unless a UID or id is given)
    pub name: Option<String>,
    /// Direct UID lookup
    pub uid: Option<String>,
    /// Direct integer ID lookup
    pub id: Option<i64>,
    /// Path to the repository
    pub path: String,
    /// Narrow down by file path when the name is ambiguous
    pub file: Option<String>,
    /// Direction: "outgoing", "incoming", or "both"
    pub direction: String,
    /// Max traversal depth
    pub depth: u32,
    /// Edge types to follow (empty = all)
    pub edge_types: Vec<String>,
    /// Max nodes to return
    pub max_nodes: usize,
    /// Max edges to return
    pub max_edges: usize,
}

/// Arguments of `graph-query`.
#[derive(Debug)]
pub struct GraphQueryArgs {
    /// SQL SELECT query to execute (read-only; SELECT and WITH only)
    pub query: String,
    /// Path to the repository
    pub path: String,
    /// Maximum rows to return
    pub limit: usize,
}

/// Timings (in nanoseconds) and counts of one indexing run.
#[derive(Debug)]
pub struct IndexMetrics {
    pub scan_duration: u128,
    pub parse_duration: u128,
    pub resolve_duration: u128,
    pub community_duration: u128,
    pub process_duration: u128,
    pub store_duration: u128,
    pub total_duration: u128,
    pub files_scanned: usize,
    pub files_parsed: usize,
    pub parse_failures: usize,
    pub symbol_count: usize,
    pub relationship_count: usize,
    pub community_count: usize,
    pub process_count: usize,
    pub peak_rss_bytes: Option<u64>,
}

// ─── Read-only guard ────────────────────────────────────────────────

/// A raw query is admitted when, with surrounding white space removed and
/// ASCII letters upper-cased, it starts with `SELECT` or `WITH`.
pub open spec fn keyword_admitted(sql: Seq<char>) -> bool {
    let u = ascii_upper_seq(trimmed(sql));
    is_prefix_of("SELECT"@, u) || is_prefix_of("WITH"@, u)
}

/// The first thirty characters of a refused query.
pub open spec fn query_preview(sql: Seq<char>) -> Seq<char> {
    if sql.len() <= 30 {
        sql
    } else {
        sql.take(30)
    }
}

/// Reject anything that doesn't start with SELECT or WITH; the error holds
/// the first thirty characters of the query. (The write-safety guarantee
/// itself is a read-only connection and a read-only statement check.)
pub fn validate_keyword(sql: &str) -> (r: Result<(), String>)
    ensures
        r is Ok <==> keyword_admitted(sql@),
        r matches Err(p) ==> p@ == query_preview(sql@),
{
    let t = trim(sql);
    let ts = string_of(t.as_slice());
    let upper = to_ascii_uppercase(ts.as_str());
    let select = chars_of("SELECT");
    let with = chars_of("WITH");
    if chars_starts_with(upper.as_slice(), select.as_slice()) || chars_starts_with(
        upper.as_slice(),
        with.as_slice(),
    ) {
        return Ok(());
    }
    let v = chars_of(sql);
    let n: usize = if v.len() <= 30 {
        v.len()
    } else {
        30
    };
    let mut p: Vec<char> = Vec::new();
    let mut i: usize = 0;
    while i < n
        invariant
            n <= v@.len(),
            i <= n,
            p@ == v@.take(i as int),
        decreases n - i,
    {
        p.push(v[i]);
        i = i + 1;
        proof {
            assert(p@ =~= v@.take(i as int));
        }
    }
    proof {
        if v@.len() <= 30 {
            assert(v@.take(n as int) =~= v@);
        }
    }
    Err(string_of(p.as_slice()))
}

// ─── Report columns ─────────────────────────────────────────────────

/// `s` padded with spaces to `width` characters.
pub open spec fn padded(s: Seq<char>, width: nat) -> Seq<char> {
    if s.len() >= width {
        s
    } else {
        s + Seq::new((width - s.len()) as nat, |i: int| ' ')
    }
}

/// A report column of `max`: the text padded to `max` characters when it
/// takes at most `max` bytes, else its first `max - 1` characters.
pub open spec fn column_text(s: Seq<char>, max: usize) -> Seq<char> {
    if utf8_len(s) <= max {
        padded(s, max as nat)
    } else if s.len() <= max - 1 {
        s
    } else {
        s.take(max - 1)
    }
}

proof fn lemma_chars_within_bytes(s: Seq<char>)
    ensures
        s.len() <= utf8_len(s),
    decreases s.len(),
{
    if s.len() > 0 {
        lemma_chars_within_bytes(s.drop_last());
    }
}

/// A column never holds more than `max` characters. Text that fits in `max`
/// bytes is kept whole and padded to exactly `max` characters; longer text
/// is cut to a prefix of at most `max - 1` characters.
pub proof fn law_column_width(s: Seq<char>, max: usize)
    requires
        utf8_len(s) > max ==> max > 0,
    ensures
        column_text(s, max).len() <= max,
        utf8_len(s) <= max ==> column_text(s, max).len() == max && column_text(s, max).take(s.len() as int) == s,
        utf8_len(s) > max ==> column_text(s, max).len() < max && s.take(column_text(s, max).len() as int)
            == column_text(s, max),
{
    lemma_chars_within_bytes(s);
    if utf8_len(s) <= max {
        assert(column_text(s, max).take(s.len() as int) =~= s);
    } else if s.len() <= max - 1 {
        assert(s.take(s.len() as int) =~= s);
    }
}

/// Fits `s` into a report column of width `max`.
pub fn truncate(s: &str, max: usize) -> (r: String)
    requires
        max < usize::MAX,
        utf8_len(s@) > max ==> max > 0,
    ensures
        r@ == column_text(s@, max),
{
    let n = s.unicode_len();
    if !byte_len_at_least(s, max + 1) {
        let mut r = owned(s);
        if n < max {
            let mut k: usize = n;
            while k < max
                invariant
                    n <= k <= max,
                    r@ == s@ + Seq::new((k - n) as nat, |i: int| ' '),
                decreases max - k,
            {
                push_char(&mut r, ' ');
                k = k + 1;
                proof {
                    assert(r@ =~= s@ + Seq::new((k - n) as nat, |i: int| ' '));
                }
            }
        }
        proof {
            if n >= max {
                assert(padded(s@, max as nat) == s@);
            }
        }
        r
    } else {
        let m = max - 1;
        if n <= m {
            owned(s)
        } else {
            let r = s.substring_char(0, m);
            proof {
                assert(r@ =~= s@.take(m as int));
            }
            owned(r)
        }
    }
}

// ─── Repository registry ────────────────────────────────────────────

/// `base-n`.
pub open spec fn numbered_name(base: Seq<char>, n: nat) -> Seq<char> {
    base + seq!['-'] + decimal(n)
}

/// The numeric value of a string of ASCII digits.
pub open spec fn digits_value(s: Seq<char>) -> int
    decreases s.len(),
{
    if s.len() == 0 {
        0
    } else {
        digits_value(s.drop_last()) * 10 + ((s.last() as int) - 48)
    }
}

proof fn lemma_decimal_value(n: nat)
    ensures
        digits_value(decimal(n)) == n,
    decreases n,
{
    let s = decimal(n);
    if n < 10 {
        assert(s =~= seq![digit_char(n)]);
        assert(s.drop_last() =~= Seq::<char>::empty());
        assert(digits_value(s.drop_last()) == 0);
        assert((digit_char(n) as int) == 48 + n);
        assert(s.last() == digit_char(n));
    } else {
        lemma_decimal_value(n / 10);
        let d = n % 10;
        assert(s == decimal(n / 10).push(digit_char(d)));
        assert(s.drop_last() =~= decimal(n / 10));
        assert(s.last() == digit_char(d));
        assert((digit_char(d) as int) == 48 + d);
        assert(n == (n / 10) * 10 + n % 10) by (nonlinear_arith);
        assert(digits_value(s) == digits_value(s.drop_last()) * 10 + ((s.last() as int) - 48));
    }
}

proof fn lemma_numbered_injective(base: Seq<char>, a: nat, b: nat)
    requires
        numbered_name(base, a) == numbered_name(base, b),
    ensures
        a == b,
{
    let k = base.len() + 1;
    assert(numbered_name(base, a).skip(k as int) =~= decimal(a));
    assert(numbered_name(base, b).skip(k as int) =~= decimal(b));
    lemma_decimal_value(a);
    lemma_decimal_value(b);
}

/// The names `base-2` .. `base-(n-1)`.
spec fn numbered_set(base: Seq<char>, n: nat) -> Set<Seq<char>>
    decreases n,
{
    if n <= 2 {
        Set::empty()
    } else {
        numbered_set(base, (n - 1) as nat).insert(numbered_name(base, (n - 1) as nat))
    }
}

proof fn lemma_numbered_set(base: Seq<char>, n: nat)
    requires
        n >= 2,
    ensures
        numbered_set(base, n).finite(),
        numbered_set(base, n).len() == n - 2,
        forall|x: Seq<char>| #[trigger]
            numbered_set(base, n).contains(x) ==> exists|m: nat| 2 <= m < n && x == numbered_name(base, m),
    decreases n,
{
    if n > 2 {
        let p = (n - 1) as nat;
        lemma_numbered_set(base, p);
        let x = numbered_name(base, p);
        if numbered_set(base, p).contains(x) {
            let m = choose|m: nat| 2 <= m < p && x == numbered_name(base, m);
            lemma_numbered_injective(base, m, p);
        }
        assert forall|y: Seq<char>| #[trigger] numbered_set(base, n).contains(y) implies exists|m: nat|
            2 <= m < n && y == numbered_name(base, m) by {
            if y == x {
                assert(2 <= p < n && y == numbered_name(base, p));
            } else {
                assert(numbered_set(base, p).contains(y));
            }
        }
    } else {
        assert(numbered_set(base, n) =~= Set::<Seq<char>>::empty());
    }
}

/// If `base-2` .. `base-(n-1)` are all taken, there are at least `n - 2` names.
proof fn lemma_taken_bound(names: Seq<Seq<char>>, base: Seq<char>, n: nat)
    requires
        n >= 2,
        forall|m: nat| 2 <= m < n ==> names.contains(#[trigger] numbered_name(base, m)),
    ensures
        n - 2 <= names.len(),
{
    broadcast use vstd::seq_lib::seq_to_set_is_finite;

    lemma_numbered_set(base, n);
    assert forall|x: Seq<char>| #[trigger] numbered_set(base, n).contains(x) implies names.to_set().contains(x) by {
        let m = choose|m: nat| 2 <= m < n && x == numbered_name(base, m);
        assert(names.contains(numbered_name(base, m)));
    }
    names.lemma_cardinality_of_set();
    vstd::set_lib::lemma_len_subset(numbered_set(base, n), names.to_set());
}

/// The least `n >= 2` for which `base-n` is not taken.
pub open spec fn first_free_number(names: Seq<Seq<char>>, base: Seq<char>) -> nat {
    choose|n: nat|
        n >= 2 && !names.contains(numbered_name(base, n)) && forall|m: nat|
            2 <= m < n ==> names.contains(#[trigger] numbered_name(base, m))
}

/// `base` when no entry has that name, otherwise `base-n` for the least
/// `n >= 2` that no entry has.
pub open spec fn unique_name(names: Seq<Seq<char>>, base: Seq<char>) -> Seq<char> {
    if !names.contains(base) {
        base
    } else {
        numbered_name(base, first_free_number(names, base))
    }
}

/// An indexed repository in the registry.
#[derive(Debug)]
pub struct RegistryEntry {
    pub name: String,
    pub path: String,
    pub indexed_at: String,
}

/// Mathematical view of a [`RegistryEntry`].
pub struct RegistryEntryV {
    pub name: Seq<char>,
    pub path: Seq<char>,
    pub indexed_at: Seq<char>,
}

impl View for RegistryEntry {
    type V = RegistryEntryV;

    open spec fn view(&self) -> RegistryEntryV {
        RegistryEntryV { name: self.name@, path: self.path@, indexed_at: self.indexed_at@ }
    }
}

impl DeepView for RegistryEntry {
    type V = RegistryEntryV;

    open spec fn deep_view(&self) -> RegistryEntryV {
        self@
    }
}

/// Names of the registry entries.
pub open spec fn entry_names(es: Seq<RegistryEntryV>) -> Seq<Seq<char>> {
    es.map_values(|e: RegistryEntryV| e.name)
}

/// Whether some entry has this name.
fn name_taken(entries: &[RegistryEntry], name: &str) -> (r: bool)
    ensures
        r == entry_names(entries.deep_view()).contains(name@),
{
    let ghost ns = entry_names(entries.deep_view());
    let mut i: usize = 0;
    while i < entries.len()
        invariant
            ns == entry_names(entries.deep_view()),
            i <= entries@.len(),
            forall|j: int| 0 <= j < i ==> ns[j] != name@,
        decreases entries@.len() - i,
    {
        if str_eq(entries[i].name.as_str(), name) {
            proof {
                assert(ns[i as int] == name@);
            }
            return true;
        }
        i = i + 1;
    }
    false
}

/// `base`, or `base-n` with the least `n >= 2` that no entry is named.
pub fn resolve_unique_name(entries: &[RegistryEntry], base: &str) -> (r: String)
    requires
        entries@.len() < usize::MAX - 2,
    ensures
        r@ == unique_name(entry_names(entries.deep_view()), base@),
{
    let ghost ns = entry_names(entries.deep_view());
    if !name_taken(entries, base) {
        return owned(base);
    }
    let mut n: usize = 2;
    loop
        invariant
            ns == entry_names(entries.deep_view()),
            ns.contains(base@),
            entries@.len() < usize::MAX - 2,
            2 <= n <= entries@.len() + 2,
            forall|m: nat| 2 <= m < n ==> ns.contains(#[trigger] numbered_name(base@, m)),
        decreases entries@.len() + 2 - n,
    {
        let d = decimal_string(n);
        let candidate = concat3(base, "-", d.as_str());
        proof {
            reveal_strlit("-");
            assert(candidate@ =~= numbered_name(base@, n as nat));
        }
        if !name_taken(entries, candidate.as_str()) {
            proof {
                let k = n as nat;
                assert(k >= 2 && !ns.contains(numbered_name(base@, k)) && forall|m: nat|
                    2 <= m < k ==> ns.contains(#[trigger] numbered_name(base@, m)));
                assert(exists|j: nat|
                    j >= 2 && !ns.contains(numbered_name(base@, j)) && forall|m: nat|
                        2 <= m < j ==> ns.contains(#[trigger] numbered_name(base@, m)));
                let c = first_free_number(ns, base@);
                assert(c >= 2 && !ns.contains(numbered_name(base@, c)) && forall|m: nat|
                    2 <= m < c ==> ns.contains(#[trigger] numbered_name(base@, m)));
                if c < k {
                    assert(ns.contains(numbered_name(base@, c)));
                } else if c > k {
                    assert(ns.contains(numbered_name(base@, k)));
                }
                assert(c == k);
                assert(ns.contains(base@));
            }
            return candidate;
        }
        proof {
            lemma_taken_bound(ns, base@, (n + 1) as nat);
        }
        n = n + 1;
    }
}

/// The registry name for a repository path: its last component in lower
/// case, `repo` when it has none.
pub open spec fn repo_base_name(path: Seq<char>) -> Seq<char> {
    match path_file_name(path) {
        Some(n) => lowercase(n),
        None => "repo"@,
    }
}

/// Index of the first entry with this path.
pub open spec fn entry_with_path(es: Seq<RegistryEntryV>, path: Seq<char>) -> Option<int> {
    if exists|i: int| 0 <= i < es.len() && es[i].path == path {
        Some(choose|i: int| 0 <= i < es.len() && es[i].path == path && forall|j: int| 0 <= j < i ==> es[j].path != path)
    } else {
        None
    }
}

/// The registry after recording that the repository at `path` was indexed
/// at `at`: its entry gets the new time stamp, or a new entry is added
/// under a name no other entry has.
pub open spec fn registered(es: Seq<RegistryEntryV>, path: Seq<char>, at: Seq<char>) -> Seq<RegistryEntryV> {
    match entry_with_path(es, path) {
        Some(i) => es.update(i, RegistryEntryV { indexed_at: at, ..es[i] }),
        None => es.push(
            RegistryEntryV { name: unique_name(entry_names(es), repo_base_name(path)), path, indexed_at: at },
        ),
    }
}

/// Records that a repository was indexed: refreshes the time stamp of its
/// entry, or adds an entry under a name no other entry has.
pub fn register_repo(entries: &mut Vec<RegistryEntry>, repo_path: &str, indexed_at: String)
    requires
        old(entries)@.len() < usize::MAX - 2,
    ensures
        final(entries).deep_view() == registered(old(entries).deep_view(), repo_path@, indexed_at@),
{
    let ghost ev = entries.deep_view();
    let mut i: usize = 0;
    while i < entries.len()
        invariant
            ev == entries.deep_view(),
            ev == old(entries).deep_view(),
            i <= ev.len(),
            forall|j: int| 0 <= j < i ==> ev[j].path != repo_path@,
        decreases ev.len() - i,
    {
        if str_eq(entries[i].path.as_str(), repo_path) {
            proof {
                assert(ev[i as int].path == repo_path@);
                assert(exists|c: int| 0 <= c < ev.len() && ev[c].path == repo_path@);
                assert(exists|c: int|
                    0 <= c < ev.len() && ev[c].path == repo_path@ && forall|j: int| 0 <= j < c ==> ev[j].path
                        != repo_path@) by {
                    assert(0 <= i < ev.len() && ev[i as int].path == repo_path@ && forall|j: int|
                        0 <= j < i ==> ev[j].path != repo_path@);
                }
                let c = choose|c: int|
                    0 <= c < ev.len() && ev[c].path == repo_path@ && forall|j: int| 0 <= j < c ==> ev[j].path
                        != repo_path@;
                if c < i {
                } else if c > i {
                    assert(ev[i as int].path == repo_path@);
                }
                assert(c == i);
                assert(entry_with_path(ev, repo_path@) == Some(i as int));
            }
            let e = RegistryEntry {
                name: entries[i].name.clone(),
                path: entries[i].path.clone(),
                indexed_at,
            };
            entries.set(i, e);
            proof {
                assert(entries.deep_view() =~= ev.update(
                    i as int,
                    RegistryEntryV { indexed_at: indexed_at@, ..ev[i as int] },
                ));
            }
            return;
        }
        i = i + 1;
    }
    proof {
        reveal_strlit("repo");
        assert(!(exists|c: int| 0 <= c < ev.len() && ev[c].path == repo_path@));
    }
    let base = match file_name_of(repo_path) {
        Some(n) => to_lowercase(n.as_str()),
        None => owned("repo"),
    };
    let name = resolve_unique_name(entries.as_slice(), base.as_str());
    entries.push(RegistryEntry { name, path: owned(repo_path), indexed_at });
    proof {
        assert(entries.deep_view() =~= ev.push(entries@[ev.len() as int]@));
    }
}

// ─── Batch impact selection ─────────────────────────────────────────

/// Why a batch impact analysis was refused.
#[derive(Debug, PartialEq, Eq)]
pub enum BatchError {
    /// Neither symbols nor ranges were given.
    MissingInput,
    /// A requested symbol kind outside the stored kinds.
    InvalidKind(String),
}

/// The stored symbol kinds, comma-separated.
pub open spec fn valid_kinds_list() -> Seq<char> {
    "Function, Method, Class, Interface, Type, Enum, Struct, Field, Property, Variable, Constant, Constructor, Module, External"@
}

/// Message of a batch error.
pub open spec fn batch_error_message(e: BatchError) -> Seq<char> {
    match e {
        BatchError::MissingInput => "at least one of --symbols or --ranges must be provided"@,
        BatchError::InvalidKind(k) => "invalid symbol kind: '"@ + k@ + "'. Valid kinds: "@ + valid_kinds_list(),
    }
}

impl BatchError {
    /// The error message shown to the user.
    pub fn message(&self) -> (r: String)
        ensures
            r@ == batch_error_message(*self),
    {
        match self {
            BatchError::MissingInput => owned("at least one of --symbols or --ranges must be provided"),
            BatchError::InvalidKind(k) => {
                let mut m = concat3("invalid symbol kind: '", k.as_str(), "'. Valid kinds: ");
                m.append(
                    "Function, Method, Class, Interface, Type, Enum, Struct, Field, Property, Variable, Constant, Constructor, Module, External",
                );
                m
            },
        }
    }
}

/// A batch needs symbols or ranges to work on.
pub fn require_batch_input(has_symbols: bool, has_ranges: bool) -> (r: Result<(), BatchError>)
    ensures
        r is Ok <==> (has_symbols || has_ranges),
        r matches Err(e) ==> e == BatchError::MissingInput,
{
    if !has_symbols && !has_ranges {
        Err(BatchError::MissingInput)
    } else {
        Ok(())
    }
}

/// Whether `k` is one of the stored symbol kinds.
#[verifier::opaque]
pub open spec fn stored_kind(k: Seq<char>) -> bool {
    valid_symbol_kinds().contains(k)
}

/// Index of the first kind that is not a stored symbol kind.
pub open spec fn first_unknown_kind(ks: Seq<Seq<char>>) -> Option<int> {
    if exists|i: int| 0 <= i < ks.len() && !stored_kind(ks[i]) {
        Some(
            choose|i: int|
                0 <= i < ks.len() && !stored_kind(ks[i]) && forall|j: int|
                    0 <= j < i ==> stored_kind(ks[j]),
        )
    } else {
        None
    }
}

proof fn lemma_first_unknown_at(ks: Seq<Seq<char>>, i: int)
    requires
        0 <= i < ks.len(),
        !stored_kind(ks[i]),
        forall|j: int| 0 <= j < i ==> stored_kind(ks[j]),
    ensures
        first_unknown_kind(ks) == Some(i),
        kind_filter_of(false, Some(ks)) == Result::<Option<Seq<Seq<char>>>, Seq<char>>::Err(ks[i]),
{
    assert(exists|j: int| 0 <= j < ks.len() && !stored_kind(ks[j]));
    let c = choose|c: int|
        0 <= c < ks.len() && !stored_kind(ks[c]) && forall|j: int|
            0 <= j < c ==> stored_kind(ks[j]);
    assert(0 <= i < ks.len() && !stored_kind(ks[i]) && forall|j: int|
        0 <= j < i ==> stored_kind(ks[j]));
    if c < i {
    } else if c > i {
        assert(stored_kind(ks[i]));
    }
}

/// The kinds a batch keeps: all (`None`) when asked for all kinds or given
/// an empty list, functions and methods when none are given, else the given
/// kinds, which must all be stored kinds.
pub open spec fn kind_filter_of(all_kinds: bool, kinds: Option<Seq<Seq<char>>>) -> Result<
    Option<Seq<Seq<char>>>,
    Seq<char>,
> {
    if all_kinds {
        Ok(None)
    } else {
        match kinds {
            None => Ok(Some(seq!["Function"@, "Method"@])),
            Some(ks) => if ks.len() == 0 {
                Ok(None)
            } else {
                match first_unknown_kind(ks) {
                    Some(i) => Err(ks[i]),
                    None => Ok(Some(ks)),
                }
            },
        }
    }
}

/// Whether `k` is a stored symbol kind.
fn is_valid_kind(k: &str) -> (r: bool)
    ensures
        r == stored_kind(k@),
{
    let known = [
        "Function",
        "Method",
        "Class",
        "Interface",
        "Type",
        "Enum",
        "Struct",
        "Field",
        "Property",
        "Variable",
        "Constant",
        "Constructor",
        "Module",
        "External",
    ];
    let mut i: usize = 0;
    proof {
        reveal_strlit("Function");
        reveal_strlit("Method");
        reveal_strlit("Class");
        reveal_strlit("Interface");
        reveal_strlit("Type");
        reveal_strlit("Enum");
        reveal_strlit("Struct");
        reveal_strlit("Field");
        reveal_strlit("Property");
        reveal_strlit("Variable");
        reveal_strlit("Constant");
        reveal_strlit("Constructor");
        reveal_strlit("Module");
        reveal_strlit("External");
        assert(known@.map_values(|s: &str| s@) =~= valid_symbol_kinds());
    }
    while i < 14
        invariant
            i <= 14,
            known@.len() == 14,
            known@.map_values(|s: &str| s@) == valid_symbol_kinds(),
            forall|j: int| 0 <= j < i ==> valid_symbol_kinds()[j] != k@,
        decreases 14 - i,
    {
        if str_eq(known[i], k) {
            proof {
                reveal(stored_kind);
                assert(valid_symbol_kinds()[i as int] == k@);
            }
            return true;
        }
        i = i + 1;
    }
    proof {
        reveal(stored_kind);
    }
    false
}

/// The symbol-kind filter of a batch impact analysis.
pub fn kind_filter(all_kinds: bool, kinds: Option<Vec<String>>) -> (r: Result<Option<Vec<String>>, BatchError>)
    ensures
        match kind_filter_of(all_kinds, kinds.deep_view()) {
            Ok(f) => r matches Ok(g) && g.deep_view() == f,
            Err(k) => r matches Err(BatchError::InvalidKind(s)) && s@ == k,
        },
{
    if all_kinds {
        return Ok(None);
    }
    let ghost kdv = kinds.deep_view();
    match kinds {
        None => {
            proof {
                reveal_strlit("Function");
                reveal_strlit("Method");
            }
            let mut v: Vec<String> = Vec::new();
            v.push(owned("Function"));
            v.push(owned("Method"));
            proof {
                assert(v.deep_view() =~= seq!["Function"@, "Method"@]);
            }
            Ok(Some(v))
        },
        Some(ks) => {
            if ks.len() == 0 {
                return Ok(None);
            }
            let ghost kv = ks.deep_view();
            let mut i: usize = 0;
            while i < ks.len()
                invariant
                    !all_kinds,
                    kdv == Some(kv),
                    kdv == kinds.deep_view(),
                    kv.len() > 0,
                    kv == ks.deep_view(),
                    i <= kv.len(),
                    forall|j: int| 0 <= j < i ==> stored_kind(kv[j]),
                decreases kv.len() - i,
            {
                if !is_valid_kind(ks[i].as_str()) {
                    proof {
                        lemma_first_unknown_at(kv, i as int);
                    }
                    let bad = ks[i].clone();
                    proof {
                        assert(kv[i as int] == ks@[i as int]@);
                    }
                    return Err(BatchError::InvalidKind(bad));
                }
                i = i + 1;
            }
            proof {
                assert(!(exists|j: int| 0 <= j < kv.len() && !stored_kind(kv[j])));
            }
            Ok(Some(ks))
        },
    }
}

/// A symbol selected for a batch impact analysis, with the file it was
/// requested under and its row id.
#[derive(Debug)]
pub struct BatchItem {
    pub file: String,
    pub id: i64,
    pub symbol: SymbolInfo,
}

/// Mathematical view of a [`BatchItem`].
pub struct BatchItemV {
    pub file: Seq<char>,
    pub id: i64,
    pub symbol: SymbolInfoV,
}

impl View for BatchItem {
    type V = BatchItemV;

    open spec fn view(&self) -> BatchItemV {
        BatchItemV { file: self.file@, id: self.id, symbol: self.symbol@ }
    }
}

impl DeepView for BatchItem {
    type V = BatchItemV;

    open spec fn deep_view(&self) -> BatchItemV {
        self@
    }
}

/// Whether a kind passes a filter (`None` passes every kind).
pub open spec fn kind_passes(filter: Option<Seq<Seq<char>>>, kind: Seq<char>) -> bool {
    match filter {
        None => true,
        Some(ks) => ks.contains(kind),
    }
}

/// Collects the symbols of a batch: each row id at most once, and only
/// symbols whose kind passes the filter.
pub struct BatchCollector {
    pub filter: Option<Vec<String>>,
    pub seen: Vec<i64>,
    pub items: Vec<BatchItem>,
}

/// `a` is listed before `b`: by file, then start line, then row id.
pub open spec fn batch_before(a: BatchItemV, b: BatchItemV) -> bool {
    lex_lt(a.file, b.file) || (a.file == b.file && (a.symbol.start_line < b.symbol.start_line || (
    a.symbol.start_line == b.symbol.start_line && a.id < b.id)))
}

/// `x` placed before the first item that it is listed before.
pub open spec fn insert_item(s: Seq<BatchItemV>, x: BatchItemV) -> Seq<BatchItemV>
    decreases s.len(),
{
    if s.len() == 0 {
        seq![x]
    } else if batch_before(x, s[0]) {
        seq![x] + s
    } else {
        seq![s[0]] + insert_item(s.drop_first(), x)
    }
}

/// Items by file, start line and row id (stable).
pub open spec fn sort_items(s: Seq<BatchItemV>) -> Seq<BatchItemV>
    decreases s.len(),
{
    if s.len() == 0 {
        s
    } else {
        insert_item(sort_items(s.drop_last()), s.last())
    }
}

proof fn lemma_insert_item_at(s: Seq<BatchItemV>, x: BatchItemV, k: int)
    requires
        0 <= k <= s.len(),
        forall|j: int| 0 <= j < k ==> !batch_before(x, #[trigger] s[j]),
        k < s.len() ==> batch_before(x, s[k]),
    ensures
        insert_item(s, x) == s.insert(k, x),
    decreases k,
{
    if k == 0 {
        if s.len() == 0 {
            assert(s.insert(0, x) =~= seq![x]);
        } else {
            assert(s.insert(0, x) =~= seq![x] + s);
        }
    } else {
        let t = s.drop_first();
        assert forall|j: int| 0 <= j < k - 1 implies !batch_before(x, #[trigger] t[j]) by {
            assert(t[j] == s[j + 1]);
        }
        if k < s.len() {
            assert(t[k - 1] == s[k]);
        }
        lemma_insert_item_at(t, x, k - 1);
        assert(s.insert(k, x) =~= seq![s[0]] + t.insert(k - 1, x));
    }
}

/// No item is listed before an earlier one.
pub open spec fn items_sorted(s: Seq<BatchItemV>) -> bool {
    forall|i: int, j: int| 0 <= i < j < s.len() ==> !batch_before(#[trigger] s[j], #[trigger] s[i])
}

proof fn lemma_batch_before_irreflexive(a: BatchItemV)
    ensures
        !batch_before(a, a),
{
    lemma_lex_irreflexive(a.file);
}

proof fn lemma_batch_before_transitive(a: BatchItemV, b: BatchItemV, c: BatchItemV)
    requires
        batch_before(a, b),
        batch_before(b, c),
    ensures
        batch_before(a, c),
{
    if lex_lt(a.file, b.file) && lex_lt(b.file, c.file) {
        lemma_lex_transitive(a.file, b.file, c.file);
    }
}

proof fn lemma_insert_item_props(s: Seq<BatchItemV>, x: BatchItemV)
    requires
        items_sorted(s),
    ensures
        items_sorted(insert_item(s, x)),
        insert_item(s, x).to_multiset() == s.to_multiset().insert(x),
    decreases s.len(),
{
    broadcast use vstd::seq_lib::group_to_multiset_ensures;
    let r = insert_item(s, x);
    if s.len() == 0 {
        assert(s =~= Seq::<BatchItemV>::empty());
    } else if batch_before(x, s[0]) {
        assert(r =~= seq![x] + s);
        assert forall|i: int, j: int| 0 <= i < j < r.len() implies !batch_before(#[trigger] r[j], #[trigger] r[i]) by {
            assert(r[j] == s[j - 1]);
            if i == 0 {
                if batch_before(s[j - 1], x) {
                    lemma_batch_before_transitive(s[j - 1], x, s[0]);
                    if j - 1 == 0 {
                        lemma_batch_before_irreflexive(s[0]);
                    }
                }
            } else {
                assert(r[i] == s[i - 1]);
            }
        }
        vstd::seq_lib::lemma_multiset_commutative(seq![x], s);
    } else {
        let t = s.drop_first();
        assert forall|i: int, j: int| 0 <= i < j < t.len() implies !batch_before(#[trigger] t[j], #[trigger] t[i]) by {
            assert(t[i] == s[i + 1] && t[j] == s[j + 1]);
        }
        lemma_insert_item_props(t, x);
        let u = insert_item(t, x);
        assert(r =~= seq![s[0]] + u);
        assert forall|j: int| 0 <= j < u.len() implies !batch_before(#[trigger] u[j], s[0]) by {
            assert(u.to_multiset().count(u[j]) > 0);
            if u[j] != x {
                assert(t.to_multiset().count(u[j]) > 0);
                assert(t.contains(u[j]));
                let q = choose|q: int| 0 <= q < t.len() && t[q] == u[j];
                assert(s[q + 1] == t[q]);
            }
        }
        assert forall|i: int, j: int| 0 <= i < j < r.len() implies !batch_before(#[trigger] r[j], #[trigger] r[i]) by {
            assert(r[j] == u[j - 1]);
            if i > 0 {
                assert(r[i] == u[i - 1]);
            }
        }
        assert(s =~= seq![s[0]] + t);
        vstd::seq_lib::lemma_multiset_commutative(seq![s[0]], u);
        vstd::seq_lib::lemma_multiset_commutative(seq![s[0]], t);
    }
}

/// Sorting lists the same items, each as often as before, and none before
/// an earlier one.
pub proof fn law_sort_items(s: Seq<BatchItemV>)
    ensures
        items_sorted(sort_items(s)),
        sort_items(s).to_multiset() == s.to_multiset(),
    decreases s.len(),
{
    broadcast use vstd::seq_lib::group_to_multiset_ensures;
    if s.len() > 0 {
        law_sort_items(s.drop_last());
        lemma_insert_item_props(sort_items(s.drop_last()), s.last());
        assert(s =~= s.drop_last().push(s.last()));
    }
}

/// The symbols chosen for a batch: sorted, cut to the maximum, with the
/// number found before the cut.
#[derive(Debug)]
pub struct BatchSelection {
    pub items: Vec<BatchItem>,
    pub total: usize,
    pub truncated: bool,
}

impl BatchCollector {
    /// The kept row ids are those of the kept items, in order, each once.
    pub open spec fn consistent(&self) -> bool {
        &&& self.seen@ == self.items.deep_view().map_values(|it: BatchItemV| it.id)
        &&& self.seen@.no_duplicates()
    }

    /// An empty collection with the given kind filter.
    pub fn new(filter: Option<Vec<String>>) -> (r: BatchCollector)
        ensures
            r.filter.deep_view() == filter.deep_view(),
            r.seen@ == Seq::<i64>::empty(),
            r.items.deep_view() == Seq::<BatchItemV>::empty(),
            r.consistent(),
    {
        let items: Vec<BatchItem> = Vec::new();
        proof {
            assert(items.deep_view() =~= Seq::<BatchItemV>::empty());
        }
        let r = BatchCollector { filter, seen: Vec::new(), items };
        proof {
            assert(r.items.deep_view().map_values(|it: BatchItemV| it.id) =~= Seq::<i64>::empty());
        }
        r
    }

    /// Offers a symbol found under `file`; it is kept when its kind passes
    /// the filter and its row id was not kept before. Returns whether it was
    /// kept.
    pub fn offer(&mut self, file: String, id: i64, symbol: SymbolInfo) -> (added: bool)
        ensures
            final(self).filter.deep_view() == old(self).filter.deep_view(),
            added == (kind_passes(old(self).filter.deep_view(), symbol.kind@) && !old(self).seen@.contains(id)),
            added ==> final(self).seen@ == old(self).seen@.push(id) && final(self).items.deep_view() == old(
                self,
            ).items.deep_view().push(BatchItemV { file: file@, id, symbol: symbol@ }),
            !added ==> final(self).seen@ == old(self).seen@ && final(self).items.deep_view() == old(
                self,
            ).items.deep_view(),
            old(self).consistent() ==> final(self).consistent(),
    {
        let passes = match &self.filter {
            None => true,
            Some(ks) => {
                let ghost kv = ks.deep_view();
                let mut found = false;
                let mut i: usize = 0;
                while i < ks.len()
                    invariant
                        kv == ks.deep_view(),
                        i <= kv.len(),
                        found == (exists|j: int| 0 <= j < i && kv[j] == symbol.kind@),
                    decreases kv.len() - i,
                {
                    if str_eq(ks[i].as_str(), symbol.kind.as_str()) {
                        found = true;
                        proof {
                            assert(kv[i as int] == symbol.kind@);
                        }
                    }
                    proof {
                        assert(kv[i as int] == ks@[i as int]@);
                    }
                    i = i + 1;
                }
                found
            },
        };
        if !passes {
            return false;
        }
        let mut k: usize = 0;
        while k < self.seen.len()
            invariant
                k <= self.seen@.len(),
                forall|j: int| 0 <= j < k ==> self.seen@[j] != id,
            decreases self.seen@.len() - k,
        {
            if self.seen[k] == id {
                return false;
            }
            k = k + 1;
        }
        self.seen.push(id);
        let ghost before = self.items.deep_view();
        let item = BatchItem { file, id, symbol };
        let ghost iv = item@;
        self.items.push(item);
        proof {
            assert(self.items.deep_view() =~= before.push(iv));
            assert(before.push(iv).map_values(|it: BatchItemV| it.id) =~= before.map_values(
                |it: BatchItemV| it.id,
            ).push(id));
        }
        true
    }

    /// The collected symbols by file, start line and row id, at most
    /// `max_symbols` of them.
    pub fn finish(self, max_symbols: usize) -> (r: BatchSelection)
        ensures
            r.total == self.items@.len(),
            r.truncated == (self.items@.len() > max_symbols),
            r.items.deep_view() == (if self.items@.len() > max_symbols {
                sort_items(self.items.deep_view()).take(max_symbols as int)
            } else {
                sort_items(self.items.deep_view())
            }),
            r.items@.len() <= max_symbols,
            items_sorted(r.items.deep_view()),
    {
        let items = self.items;
        let ghost dv = items.deep_view();
        let mut sorted: Vec<BatchItem> = Vec::new();
        let mut src = items;
        // Move the items out (reversed) so that each can be inserted in turn.
        let total = src.len();
        proof {
            assert(dv.len() == total);
        }
        let mut rev: Vec<BatchItem> = Vec::new();
        while src.len() > 0
            invariant
                src@.len() + rev@.len() == dv.len(),
                dv.len() == total,
                forall|j: int| 0 <= j < src@.len() ==> #[trigger] src@[j]@ == dv[j],
                forall|j: int| 0 <= j < rev@.len() ==> #[trigger] rev@[j]@ == dv[dv.len() - 1 - j],
            decreases src@.len(),
        {
            let x = src.pop().unwrap();
            rev.push(x);
        }
        let mut i: usize = 0;
        while rev.len() > 0
            invariant
                rev@.len() + i == dv.len(),
                dv.len() == total,
                sorted@.len() == i,
                forall|j: int| 0 <= j < rev@.len() ==> #[trigger] rev@[j]@ == dv[dv.len() - 1 - j],
                sorted.deep_view() == sort_items(dv.take(i as int)),
            decreases rev@.len(),
        {
            let x = rev.pop().unwrap();
            proof {
                assert(x@ == dv[i as int]);
            }
            let ghost sv = sorted.deep_view();
            let mut k: usize = 0;
            while k < sorted.len() && !self::item_before(&x, &sorted[k])
                invariant
                    k <= sv.len(),
                    sv == sorted.deep_view(),
                    forall|q: int| 0 <= q < k ==> !batch_before(x@, #[trigger] sv[q]),
                decreases sv.len() - k,
            {
                proof {
                    assert(sv[k as int] == sorted@[k as int]@);
                }
                k = k + 1;
            }
            proof {
                if k < sv.len() {
                    assert(sv[k as int] == sorted@[k as int]@);
                }
                lemma_insert_item_at(sv, x@, k as int);
                assert(dv.take(i + 1).drop_last() =~= dv.take(i as int));
            }
            let ghost xv = x@;
            sorted.insert(k, x);
            proof {
                assert(sorted.deep_view() =~= sv.insert(k as int, xv));
            }
            i = i + 1;
        }
        proof {
            assert(dv.take(dv.len() as int) =~= dv);
        }
        let truncated = total > max_symbols;
        if truncated {
            let ghost sv = sorted.deep_view();
            let ghost s0 = sorted@;
            sorted.truncate(max_symbols);
            proof {
                assert forall|j: int| 0 <= j < max_symbols implies sorted.deep_view()[j] == sv.take(
                    max_symbols as int,
                )[j] by {
                    assert(sorted@[j] == s0[j]);
                }
                assert(sorted.deep_view() =~= sv.take(max_symbols as int));
            }
        }
        proof {
            law_sort_items(dv);
            let sv = sort_items(dv);
            let rv = sorted.deep_view();
            assert forall|i: int, j: int| 0 <= i < j < rv.len() implies !batch_before(#[trigger] rv[j], #[trigger] rv[i]) by {
                assert(rv[i] == sv[i] && rv[j] == sv[j]);
            }
        }
        BatchSelection { items: sorted, total, truncated }
    }
}

/// Whether `a` is listed before `b`.
fn item_before(a: &BatchItem, b: &BatchItem) -> (r: bool)
    ensures
        r == batch_before(a@, b@),
{
    if str_less(a.file.as_str(), b.file.as_str()) {
        return true;
    }
    if !str_eq(a.file.as_str(), b.file.as_str()) {
        return false;
    }
    a.symbol.start_line < b.symbol.start_line || (a.symbol.start_line == b.symbol.start_line && a.id < b.id)
}

// ─── Laws ───────────────────────────────────────────────────────────

/// No two registry entries share a name.
pub open spec fn names_distinct(es: Seq<RegistryEntryV>) -> bool {
    forall|i: int, j: int| 0 <= i < j < es.len() ==> es[i].name != es[j].name
}

/// No two registry entries share a path.
pub open spec fn paths_distinct(es: Seq<RegistryEntryV>) -> bool {
    forall|i: int, j: int| 0 <= i < j < es.len() ==> es[i].path != es[j].path
}

/// The least free number exists once `base-2` .. `base-(k-1)` are taken.
proof fn lemma_first_free_exists(names: Seq<Seq<char>>, base: Seq<char>, k: nat)
    requires
        k >= 2,
        forall|m: nat| 2 <= m < k ==> names.contains(#[trigger] numbered_name(base, m)),
    ensures
        exists|n: nat|
            n >= 2 && !names.contains(numbered_name(base, n)) && forall|m: nat|
                2 <= m < n ==> names.contains(#[trigger] numbered_name(base, m)),
    decreases names.len() + 2 - k,
{
    lemma_taken_bound(names, base, k);
    if !names.contains(numbered_name(base, k)) {
        assert(k >= 2 && !names.contains(numbered_name(base, k)) && forall|m: nat|
            2 <= m < k ==> names.contains(#[trigger] numbered_name(base, m)));
    } else {
        assert forall|m: nat| 2 <= m < k + 1 implies names.contains(#[trigger] numbered_name(base, m)) by {
            if m < k {
            }
        }
        lemma_taken_bound(names, base, k + 1);
        lemma_first_free_exists(names, base, k + 1);
    }
}

/// A unique name is not taken.
pub proof fn law_unique_name_is_free(names: Seq<Seq<char>>, base: Seq<char>)
    ensures
        !names.contains(unique_name(names, base)),
{
    if names.contains(base) {
        lemma_first_free_exists(names, base, 2);
    }
}

/// Registering a repository keeps the registry consistent: if no two
/// entries shared a name or a path before, none do after.
pub proof fn law_register_keeps_entries_distinct(es: Seq<RegistryEntryV>, path: Seq<char>, at: Seq<char>)
    requires
        names_distinct(es),
        paths_distinct(es),
    ensures
        names_distinct(registered(es, path, at)),
        paths_distinct(registered(es, path, at)),
        registered(es, path, at).len() == es.len() || registered(es, path, at).len() == es.len() + 1,
{
    let r = registered(es, path, at);
    match entry_with_path(es, path) {
        Some(i) => {
            assert(0 <= i < es.len() && es[i].path == path) by {
                let w = choose|c: int| 0 <= c < es.len() && es[c].path == path;
            }
        },
        None => {
            let ns = entry_names(es);
            law_unique_name_is_free(ns, repo_base_name(path));
            assert forall|i: int, j: int| 0 <= i < j < r.len() implies r[i].name != r[j].name by {
                if j == es.len() {
                    assert(ns[i] == es[i].name);
                }
            }
            assert forall|i: int, j: int| 0 <= i < j < r.len() implies r[i].path != r[j].path by {
                if j == es.len() {
                    assert(!(0 <= i < es.len() && es[i].path == path));
                }
            }
        },
    }
}

/// What the first-entry lookup gives.
proof fn lemma_entry_with_path(es: Seq<RegistryEntryV>, path: Seq<char>)
    ensures
        match entry_with_path(es, path) {
            Some(i) => 0 <= i < es.len() && es[i].path == path,
            None => forall|c: int| 0 <= c < es.len() ==> es[c].path != path,
        },
{
    if exists|i: int| 0 <= i < es.len() && es[i].path == path {
        let w = choose|i: int| 0 <= i < es.len() && es[i].path == path;
        lemma_first_path_exists(es, path, w);
    }
}

proof fn lemma_first_path_exists(es: Seq<RegistryEntryV>, path: Seq<char>, w: int)
    requires
        0 <= w < es.len(),
        es[w].path == path,
    ensures
        exists|c: int| 0 <= c < es.len() && es[c].path == path && forall|j: int| 0 <= j < c ==> es[j].path != path,
    decreases w,
{
    if forall|j: int| 0 <= j < w ==> es[j].path != path {
        assert(0 <= w < es.len() && es[w].path == path && forall|j: int| 0 <= j < w ==> es[j].path != path);
    } else {
        let v = choose|j: int| 0 <= j < w && es[j].path == path;
        lemma_first_path_exists(es, path, v);
    }
}

proof fn lemma_entry_with_path_first(es: Seq<RegistryEntryV>, path: Seq<char>)
    ensures
        entry_with_path(es, path) matches Some(i) ==> 0 <= i < es.len() && es[i].path == path && forall|j: int|
            0 <= j < i ==> es[j].path != path,
{
    if exists|i: int| 0 <= i < es.len() && es[i].path == path {
        let w = choose|i: int| 0 <= i < es.len() && es[i].path == path;
        lemma_first_path_exists(es, path, w);
    }
}

/// Registering a repository again only changes its time stamp: the result
/// is the registry as if it had been registered once, at the later time. In
/// particular the entry keeps its name and no entry is added.
pub proof fn law_register_again_restamps(es: Seq<RegistryEntryV>, path: Seq<char>, at1: Seq<char>, at2: Seq<char>)
    ensures
        registered(registered(es, path, at1), path, at2) == registered(es, path, at2),
{
    let r = registered(es, path, at1);
    lemma_entry_with_path(es, path);
    lemma_entry_with_path(r, path);
    lemma_entry_with_path_first(es, path);
    lemma_entry_with_path_first(r, path);
    match entry_with_path(es, path) {
        Some(i) => {
            assert forall|c: int| 0 <= c < es.len() implies #[trigger] r[c].path == es[c].path by {}
            match entry_with_path(r, path) {
                Some(c) => {
                    if c < i {
                        assert(es[c].path == path);
                    }
                    if i < c {
                        assert(r[i].path == path);
                    }
                    assert(c == i);
                },
                None => {
                    assert(r[i].path == path);
                },
            }
            assert(registered(r, path, at2) =~= registered(es, path, at2));
        },
        None => {
            let n = es.len() as int;
            match entry_with_path(r, path) {
                Some(c) => {
                    if c < n {
                        assert(r[c] == es[c]);
                    }
                    assert(c == n);
                },
                None => {
                    assert(r[n].path == path);
                },
            }
            assert(registered(r, path, at2) =~= registered(es, path, at2));
        },
    }
}

} // verus!
