//! The rows that indexing writes: one per symbol, one per file node and one
//! per directory node (each directory once), the file-index records, and the
//! membership rows of communities and execution flows; plus the plain records
//! that reading the index hands back.

use vstd::prelude::*;
use crate::analyzer::community::{Community, CommunityV};
use crate::analyzer::process::{Process, ProcessV};
use crate::analyzer::resolver::calls::{caller_uid, resolve_caller};
use crate::analyzer::{FileAnalysis, FileAnalysisV};
use crate::parser::calls::{RawCall, RawCallV};
use crate::parser::dataflow::{flow_kind_name, RawFlowV};
use crate::parser::extract::{kind_name, symbol_uid, Symbol, SymbolV};
use crate::parser::language_name;
use crate::paths::{file_name_of, parent_of, path_file_name, path_parent};
use crate::scanner::{FileInfo, FileInfoV};
use crate::text::{concat, owned, position_in};

verus! {

/// Counts shown by `status`.
#[derive(Debug)]
pub struct IndexStats {
    pub symbol_count: usize,
    pub relationship_count: usize,
    pub file_count: usize,
    pub community_count: usize,
    pub process_count: usize,
    pub last_indexed: Option<String>,
}

/// One step of a stored execution flow, as read back.
#[derive(Debug)]
pub struct ProcessStepInfo {
    pub name: String,
    pub kind: String,
    pub file_path: String,
    pub step_index: usize,
}

/// One stored data flow, as read back.
#[derive(Debug)]
pub struct DataFlowInfo {
    pub id: i64,
    pub function_uid: Option<String>,
    pub source_expr: String,
    pub sink_expr: String,
    pub flow_kind: String,
    pub source_line: i64,
    pub sink_line: i64,
}

/// A row of the `symbols` table.
#[derive(Debug)]
pub struct SymbolRow {
    pub uid: String,
    pub name: String,
    pub kind: String,
    pub file_path: String,
    pub start_line: i64,
    pub end_line: i64,
    pub is_exported: bool,
    pub parent_name: Option<String>,
    pub content_hash: i64,
}

/// Mathematical view of a [`SymbolRow`].
pub struct SymbolRowV {
    pub uid: Seq<char>,
    pub name: Seq<char>,
    pub kind: Seq<char>,
    pub file_path: Seq<char>,
    pub start_line: i64,
    pub end_line: i64,
    pub is_exported: bool,
    pub parent_name: Option<Seq<char>>,
    pub content_hash: i64,
}

impl View for SymbolRow {
    type V = SymbolRowV;

    open spec fn view(&self) -> SymbolRowV {
        SymbolRowV {
            uid: self.uid@,
            name: self.name@,
            kind: self.kind@,
            file_path: self.file_path@,
            start_line: self.start_line,
            end_line: self.end_line,
            is_exported: self.is_exported,
            parent_name: self.parent_name.deep_view(),
            content_hash: self.content_hash,
        }
    }
}

impl DeepView for SymbolRow {
    type V = SymbolRowV;

    open spec fn deep_view(&self) -> SymbolRowV {
        self@
    }
}

/// The row of an extracted symbol (its content hash is stored per file).
pub open spec fn symbol_row(s: SymbolV) -> SymbolRowV {
    SymbolRowV {
        uid: symbol_uid(s),
        name: s.name,
        kind: kind_name(s.kind),
        file_path: s.file_path,
        start_line: s.start_line as i64,
        end_line: s.end_line as i64,
        is_exported: s.is_exported,
        parent_name: s.parent_name,
        content_hash: 0,
    }
}

/// The node of a file, `File:<path>`, carrying the file's content hash.
pub open spec fn file_row(f: FileInfoV) -> SymbolRowV {
    SymbolRowV {
        uid: "File:"@ + f.relative_path,
        name: f.relative_path,
        kind: "File"@,
        file_path: f.relative_path,
        start_line: 0,
        end_line: 0,
        is_exported: false,
        parent_name: None,
        content_hash: f.content_hash as i64,
    }
}

/// The node of a directory, `Folder:<path>`, named by its last component.
pub open spec fn folder_row(dir: Seq<char>) -> SymbolRowV {
    SymbolRowV {
        uid: "Folder:"@ + dir,
        name: match path_file_name(dir) {
            Some(n) => n,
            None => dir,
        },
        kind: "Folder"@,
        file_path: dir,
        start_line: 0,
        end_line: 0,
        is_exported: false,
        parent_name: None,
        content_hash: 0,
    }
}

/// Directory nodes from `cur` upwards, stopping at an empty directory or one
/// already seen; at most `fuel` steps (a path has no more ancestors than
/// characters). Returns the rows and the directories seen afterwards.
pub open spec fn folder_rows_from(cur: Option<Seq<char>>, seen: Seq<Seq<char>>, fuel: nat) -> (
    Seq<SymbolRowV>,
    Seq<Seq<char>>,
)
    decreases fuel,
{
    if fuel == 0 {
        (Seq::empty(), seen)
    } else {
        match cur {
            None => (Seq::empty(), seen),
            Some(d) => if d.len() == 0 || seen.contains(d) {
                (Seq::empty(), seen)
            } else {
                let rest = folder_rows_from(path_parent(d), seen.push(d), (fuel - 1) as nat);
                (seq![folder_row(d)] + rest.0, rest.1)
            },
        }
    }
}

/// File and directory nodes for files in order, with the directories seen.
pub open spec fn file_node_rows(files: Seq<FileInfoV>) -> (Seq<SymbolRowV>, Seq<Seq<char>>)
    decreases files.len(),
{
    if files.len() == 0 {
        (Seq::empty(), Seq::empty())
    } else {
        let before = file_node_rows(files.drop_last());
        let f = files.last();
        let chain = folder_rows_from(path_parent(f.relative_path), before.1, f.relative_path.len());
        (before.0 + seq![file_row(f)] + chain.0, chain.1)
    }
}

/// All rows that storing symbols writes: the symbols in order, then per
/// file its node followed by the nodes of its directories not yet written.
pub open spec fn symbol_table_rows(symbols: Seq<SymbolV>, files: Seq<FileInfoV>) -> Seq<SymbolRowV> {
    symbols.map_values(|s: SymbolV| symbol_row(s)) + file_node_rows(files).0
}

/// The row of one extracted symbol.
pub fn row_of_symbol(s: &Symbol) -> (r: SymbolRow)
    ensures
        r@ == symbol_row(s@),
{
    SymbolRow {
        uid: s.uid(),
        name: s.name.clone(),
        kind: owned(s.kind.as_str()),
        file_path: s.file_path.clone(),
        start_line: s.start_line as i64,
        end_line: s.end_line as i64,
        is_exported: s.is_exported,
        parent_name: match &s.parent_name {
            Some(p) => Some(p.clone()),
            None => None,
        },
        content_hash: 0,
    }
}

/// The node of one file.
fn row_of_file(f: &FileInfo) -> (r: SymbolRow)
    ensures
        r@ == file_row(f@),
{
    proof {
        reveal_strlit("File:");
        reveal_strlit("File");
    }
    SymbolRow {
        uid: concat("File:", f.relative_path.as_str()),
        name: f.relative_path.clone(),
        kind: owned("File"),
        file_path: f.relative_path.clone(),
        start_line: 0,
        end_line: 0,
        is_exported: false,
        parent_name: None,
        content_hash: f.content_hash as i64,
    }
}

/// The node of one directory.
fn row_of_folder(dir: &str) -> (r: SymbolRow)
    ensures
        r@ == folder_row(dir@),
{
    proof {
        reveal_strlit("Folder:");
        reveal_strlit("Folder");
    }
    let name = match file_name_of(dir) {
        Some(n) => n,
        None => owned(dir),
    };
    SymbolRow {
        uid: concat("Folder:", dir),
        name,
        kind: owned("Folder"),
        file_path: owned(dir),
        start_line: 0,
        end_line: 0,
        is_exported: false,
        parent_name: None,
        content_hash: 0,
    }
}

/// Appends the directory nodes from `start` upwards.
fn push_folder_rows(start: Option<String>, fuel0: usize, seen: &mut Vec<String>, rows: &mut Vec<SymbolRow>)
    ensures
        final(rows).deep_view() == old(rows).deep_view() + folder_rows_from(
            start.deep_view(),
            old(seen).deep_view(),
            fuel0 as nat,
        ).0,
        final(seen).deep_view() == folder_rows_from(start.deep_view(), old(seen).deep_view(), fuel0 as nat).1,
{
    let ghost target = folder_rows_from(start.deep_view(), seen.deep_view(), fuel0 as nat);
    let ghost base = rows.deep_view();
    let mut current = start;
    let mut fuel = fuel0;
    loop
        invariant
            target == folder_rows_from(start.deep_view(), old(seen).deep_view(), fuel0 as nat),
            base == old(rows).deep_view(),
            rows.deep_view() + folder_rows_from(current.deep_view(), seen.deep_view(), fuel as nat).0 == base
                + target.0,
            folder_rows_from(current.deep_view(), seen.deep_view(), fuel as nat).1 == target.1,
        decreases fuel,
    {
        if fuel == 0 {
            proof {
                assert(rows.deep_view() =~= base + target.0);
            }
            return;
        }
        let dir = match current {
            Some(d) => d,
            None => {
                proof {
                    assert(rows.deep_view() =~= base + target.0);
                }
                return;
            },
        };
        let empty = dir.unicode_len() == 0;
        let fresh = position_in(seen, dir.as_str()).is_none();
        proof {
            if !fresh {
                let k = choose|k: int| 0 <= k < seen@.len() && seen@[k]@ == dir@;
                assert(seen.deep_view()[k] == dir@);
            } else if seen.deep_view().contains(dir@) {
                let k = choose|k: int| 0 <= k < seen.deep_view().len() && seen.deep_view()[k] == dir@;
                assert(seen@[k]@ == seen.deep_view()[k]);
            }
        }
        if empty || !fresh {
            proof {
                assert(rows.deep_view() =~= base + target.0);
            }
            return;
        }
        let ghost old_seen = seen.deep_view();
        let ghost old_rows = rows.deep_view();
        seen.push(dir.clone());
        let row = row_of_folder(dir.as_str());
        let ghost rv = row@;
        rows.push(row);
        proof {
            assert(seen.deep_view() =~= old_seen.push(dir@));
            assert(rows.deep_view() =~= old_rows.push(rv));
            let rest = folder_rows_from(path_parent(dir@), old_seen.push(dir@), (fuel - 1) as nat);
            assert(folder_rows_from(Some(dir@), old_seen, fuel as nat).0 == seq![rv] + rest.0);
            assert(old_rows.push(rv) + rest.0 =~= old_rows + (seq![rv] + rest.0));
        }
        current = parent_of(dir.as_str());
        fuel = fuel - 1;
    }
}

/// Rows for storing symbols: each symbol, then each file node followed by
/// the nodes of its directories (every directory once, nearest first).
pub fn symbol_rows(symbols: &[Symbol], files: &[FileInfo]) -> (r: Vec<SymbolRow>)
    ensures
        r.deep_view() == symbol_table_rows(symbols.deep_view(), files.deep_view()),
{
    let ghost sv = symbols.deep_view();
    let ghost fv = files.deep_view();
    let mut rows: Vec<SymbolRow> = Vec::new();
    let mut i: usize = 0;
    while i < symbols.len()
        invariant
            sv == symbols.deep_view(),
            i <= sv.len(),
            rows.deep_view() == sv.take(i as int).map_values(|s: SymbolV| symbol_row(s)),
        decreases sv.len() - i,
    {
        let ghost before = rows.deep_view();
        let row = row_of_symbol(&symbols[i]);
        let ghost rv = row@;
        rows.push(row);
        proof {
            assert(sv[i as int] == symbols@[i as int]@);
            assert(rows.deep_view() =~= before.push(rv));
            assert(sv.take(i + 1).map_values(|s: SymbolV| symbol_row(s)) =~= sv.take(i as int).map_values(
                |s: SymbolV| symbol_row(s),
            ).push(symbol_row(sv[i as int])));
        }
        i = i + 1;
    }
    let ghost sym_rows = rows.deep_view();
    proof {
        assert(sv.take(sv.len() as int) =~= sv);
    }
    let mut seen: Vec<String> = Vec::new();
    let mut j: usize = 0;
    while j < files.len()
        invariant
            fv == files.deep_view(),
            j <= fv.len(),
            rows.deep_view() == sym_rows + file_node_rows(fv.take(j as int)).0,
            seen.deep_view() == file_node_rows(fv.take(j as int)).1,
        decreases fv.len() - j,
    {
        proof {
            assert(fv.take(j + 1).drop_last() =~= fv.take(j as int));
            assert(fv.take(j + 1).last() == fv[j as int]);
        }
        let f = &files[j];
        let ghost before = rows.deep_view();
        let fr = row_of_file(f);
        let ghost frv = fr@;
        rows.push(fr);
        proof {
            assert(rows.deep_view() =~= before.push(frv));
        }
        let ghost mid = rows.deep_view();
        push_folder_rows(parent_of(f.relative_path.as_str()), f.relative_path.unicode_len(), &mut seen, &mut rows);
        proof {
            let prev = file_node_rows(fv.take(j as int));
            let chain = folder_rows_from(path_parent(f.relative_path@), prev.1, f.relative_path@.len());
            assert(rows.deep_view() == before.push(frv) + chain.0);
            assert(before.push(frv) + chain.0 =~= sym_rows + (prev.0 + seq![frv] + chain.0));
        }
        j = j + 1;
    }
    proof {
        assert(fv.take(fv.len() as int) =~= fv);
    }
    rows
}

// ─── Directory nodes ────────────────────────────────────────────────

/// Whether a row is a directory node.
pub open spec fn is_folder_row(r: SymbolRowV) -> bool {
    r.kind == "Folder"@
}

/// The directories of the directory nodes among `rows`, in order.
pub open spec fn folder_paths(rows: Seq<SymbolRowV>) -> Seq<Seq<char>> {
    rows.filter(|r: SymbolRowV| is_folder_row(r)).map_values(|r: SymbolRowV| r.file_path)
}

proof fn lemma_folder_paths_add(a: Seq<SymbolRowV>, b: Seq<SymbolRowV>)
    ensures
        folder_paths(a + b) == folder_paths(a) + folder_paths(b),
{
    let p = |r: SymbolRowV| is_folder_row(r);
    Seq::filter_distributes_over_add(a, b, p);
    assert((a.filter(p) + b.filter(p)).map_values(|r: SymbolRowV| r.file_path) =~= a.filter(p).map_values(
        |r: SymbolRowV| r.file_path,
    ) + b.filter(p).map_values(|r: SymbolRowV| r.file_path));
}

proof fn lemma_folder_paths_one(r: SymbolRowV)
    ensures
        folder_paths(seq![r]) == (if is_folder_row(r) { seq![r.file_path] } else { Seq::<Seq<char>>::empty() }),
{
    reveal(Seq::filter);
    let p = |x: SymbolRowV| is_folder_row(x);
    assert(seq![r].drop_last() =~= Seq::<SymbolRowV>::empty());
    assert(Seq::<SymbolRowV>::empty().filter(p) =~= Seq::<SymbolRowV>::empty());
    if is_folder_row(r) {
        assert(seq![r].filter(p) =~= seq![r]);
        assert(folder_paths(seq![r]) =~= seq![r.file_path]);
    } else {
        assert(seq![r].filter(p) =~= Seq::<SymbolRowV>::empty());
        assert(folder_paths(seq![r]) =~= Seq::<Seq<char>>::empty());
    }
}

proof fn lemma_folder_rows_from(cur: Option<Seq<char>>, seen: Seq<Seq<char>>, fuel: nat)
    requires
        seen.no_duplicates(),
    ensures
        ({
            let (rows, out) = folder_rows_from(cur, seen, fuel);
            &&& out.no_duplicates()
            &&& out.len() >= seen.len()
            &&& out.take(seen.len() as int) == seen
            &&& folder_paths(rows) == out.skip(seen.len() as int)
        }),
    decreases fuel,
{
    reveal_strlit("Folder");
    let (rows, out) = folder_rows_from(cur, seen, fuel);
    if fuel == 0 || cur is None || cur->0.len() == 0 || seen.contains(cur->0) {
        assert(seen.take(seen.len() as int) =~= seen);
        assert(seen.skip(seen.len() as int) =~= Seq::<Seq<char>>::empty());
        reveal(Seq::filter);
        assert(Seq::<SymbolRowV>::empty().filter(|r: SymbolRowV| is_folder_row(r)) =~= Seq::<SymbolRowV>::empty());
        assert(folder_paths(Seq::<SymbolRowV>::empty()) =~= Seq::<Seq<char>>::empty());
    } else {
        let d = cur->0;
        let s2 = seen.push(d);
        assert(s2.no_duplicates()) by {
            assert forall|i: int, j: int| 0 <= i < s2.len() && 0 <= j < s2.len() && i != j implies s2[i] != s2[j] by {
                if i == seen.len() {
                    assert(!seen.contains(d));
                    assert(seen[j] != d);
                } else if j == seen.len() {
                    assert(seen[i] != d);
                }
            }
        }
        lemma_folder_rows_from(path_parent(d), s2, (fuel - 1) as nat);
        let rest = folder_rows_from(path_parent(d), s2, (fuel - 1) as nat);
        assert(rows == seq![folder_row(d)] + rest.0);
        lemma_folder_paths_add(seq![folder_row(d)], rest.0);
        lemma_folder_paths_one(folder_row(d));
        assert(out == rest.1);
        assert(out.take(s2.len() as int) == s2);
        assert(out.take(seen.len() as int) =~= s2.take(seen.len() as int));
        assert(s2.take(seen.len() as int) =~= seen);
        assert(out[seen.len() as int] == s2[seen.len() as int]);
        assert(out.skip(seen.len() as int) =~= seq![d] + out.skip(s2.len() as int));
    }
}

proof fn lemma_file_node_rows(files: Seq<FileInfoV>)
    ensures
        file_node_rows(files).1.no_duplicates(),
        folder_paths(file_node_rows(files).0) == file_node_rows(files).1,
    decreases files.len(),
{
    reveal_strlit("File");
    reveal_strlit("Folder");
    if files.len() == 0 {
        reveal(Seq::filter);
        assert(Seq::<SymbolRowV>::empty().filter(|r: SymbolRowV| is_folder_row(r)) =~= Seq::<SymbolRowV>::empty());
        assert(folder_paths(Seq::<SymbolRowV>::empty()) =~= Seq::<Seq<char>>::empty());
    } else {
        let before = file_node_rows(files.drop_last());
        let f = files.last();
        lemma_file_node_rows(files.drop_last());
        lemma_folder_rows_from(path_parent(f.relative_path), before.1, f.relative_path.len());
        let chain = folder_rows_from(path_parent(f.relative_path), before.1, f.relative_path.len());
        lemma_folder_paths_add(before.0, seq![file_row(f)]);
        lemma_folder_paths_add(before.0 + seq![file_row(f)], chain.0);
        lemma_folder_paths_one(file_row(f));
        assert(!is_folder_row(file_row(f))) by {
            assert("File"@.len() != "Folder"@.len());
        }
        assert(folder_paths(before.0 + seq![file_row(f)]) =~= before.1);
        assert(chain.1 =~= chain.1.take(before.1.len() as int) + chain.1.skip(before.1.len() as int));
    }
}

/// Each directory gets one node: the directories of the directory nodes
/// written for a set of files are distinct.
pub proof fn law_one_node_per_directory(files: Seq<FileInfoV>)
    ensures
        folder_paths(file_node_rows(files).0).no_duplicates(),
{
    lemma_file_node_rows(files);
}

// ─── Data flows ─────────────────────────────────────────────────────

/// A row of the `data_flows` table.
#[derive(Debug)]
pub struct FlowRow {
    pub function_uid: Option<String>,
    pub source_expr: String,
    pub sink_expr: String,
    pub flow_kind: String,
    pub source_line: i64,
    pub sink_line: i64,
}

/// Mathematical view of a [`FlowRow`].
pub struct FlowRowV {
    pub function_uid: Option<Seq<char>>,
    pub source_expr: Seq<char>,
    pub sink_expr: Seq<char>,
    pub flow_kind: Seq<char>,
    pub source_line: i64,
    pub sink_line: i64,
}

impl View for FlowRow {
    type V = FlowRowV;

    open spec fn view(&self) -> FlowRowV {
        FlowRowV {
            function_uid: self.function_uid.deep_view(),
            source_expr: self.source_expr@,
            sink_expr: self.sink_expr@,
            flow_kind: self.flow_kind@,
            source_line: self.source_line,
            sink_line: self.sink_line,
        }
    }
}

impl DeepView for FlowRow {
    type V = FlowRowV;

    open spec fn deep_view(&self) -> FlowRowV {
        self@
    }
}

/// The function a flow belongs to: the symbol found for its enclosing
/// function and parent as the caller of a call at that place would be.
pub open spec fn flow_owner(fp: Seq<char>, f: RawFlowV, syms: Seq<SymbolV>) -> Option<Seq<char>> {
    caller_uid(
        fp,
        RawCallV {
            callee_name: Seq::empty(),
            receiver: None,
            caller_name: f.enclosing_function,
            caller_parent: f.enclosing_parent,
            line: f.sink_line,
        },
        syms,
    )
}

/// The stored row of a flow of the file `fp`.
pub open spec fn flow_row_of(fp: Seq<char>, syms: Seq<SymbolV>, f: RawFlowV) -> FlowRowV {
    FlowRowV {
        function_uid: flow_owner(fp, f, syms),
        source_expr: f.source_expr,
        sink_expr: f.sink_expr,
        flow_kind: flow_kind_name(f.flow_kind),
        source_line: f.source_line as i64,
        sink_line: f.sink_line as i64,
    }
}

/// The rows of all flows, file after file.
pub open spec fn flow_rows_of(av: Seq<FileAnalysisV>) -> Seq<FlowRowV>
    decreases av.len(),
{
    if av.len() == 0 {
        Seq::empty()
    } else {
        let a = av.last();
        flow_rows_of(av.drop_last()) + a.flows.map_values(|f: RawFlowV| flow_row_of(a.file_path, a.symbols, f))
    }
}

/// The `data_flows` rows of the analyses, each flow under the UID of the
/// function it was found in.
pub fn flow_rows(analyses: &[FileAnalysis]) -> (r: Vec<FlowRow>)
    ensures
        r.deep_view() == flow_rows_of(analyses.deep_view()),
{
    let ghost av = analyses.deep_view();
    let mut r: Vec<FlowRow> = Vec::new();
    let mut i: usize = 0;
    while i < analyses.len()
        invariant
            av == analyses.deep_view(),
            i <= av.len(),
            r.deep_view() == flow_rows_of(av.take(i as int)),
        decreases av.len() - i,
    {
        let a = &analyses[i];
        let ghost base = r.deep_view();
        let ghost afv = a@;
        proof {
            assert(av[i as int] == afv);
        }
        let mut j: usize = 0;
        while j < a.flows.len()
            invariant
                afv == a@,
                j <= afv.flows.len(),
                r.deep_view() == base + afv.flows.take(j as int).map_values(
                    |f: RawFlowV| flow_row_of(afv.file_path, afv.symbols, f),
                ),
            decreases afv.flows.len() - j,
        {
            let f = &a.flows[j];
            proof {
                assert(afv.flows[j as int] == f@);
            }
            let probe = RawCall::new(
                "",
                None,
                match &f.enclosing_function {
                    Some(n) => Some(n.as_str()),
                    None => None,
                },
                match &f.enclosing_parent {
                    Some(p) => Some(p.as_str()),
                    None => None,
                },
                f.sink_line,
            );
            proof {
                reveal_strlit("");
                assert(probe@.callee_name =~= Seq::<char>::empty());
                assert(probe@ == (RawCallV {
                    callee_name: Seq::empty(),
                    receiver: None,
                    caller_name: f@.enclosing_function,
                    caller_parent: f@.enclosing_parent,
                    line: f@.sink_line,
                }));
            }
            let owner = resolve_caller(a.file_path.as_str(), &probe, a.symbols.as_slice());
            let row = FlowRow {
                function_uid: owner,
                source_expr: f.source_expr.clone(),
                sink_expr: f.sink_expr.clone(),
                flow_kind: owned(f.flow_kind.as_str()),
                source_line: f.source_line as i64,
                sink_line: f.sink_line as i64,
            };
            let ghost before = r.deep_view();
            r.push(row);
            proof {
                assert(r.deep_view() =~= before.push(flow_row_of(afv.file_path, afv.symbols, f@)));
                assert(afv.flows.take(j + 1) =~= afv.flows.take(j as int).push(f@));
                assert(afv.flows.take(j + 1).map_values(|g: RawFlowV| flow_row_of(afv.file_path, afv.symbols, g))
                    =~= afv.flows.take(j as int).map_values(|g: RawFlowV| flow_row_of(afv.file_path, afv.symbols, g)).push(
                    flow_row_of(afv.file_path, afv.symbols, f@),
                ));
            }
            j = j + 1;
        }
        proof {
            assert(afv.flows.take(afv.flows.len() as int) =~= afv.flows);
            assert(av.take(i + 1).drop_last() =~= av.take(i as int));
            assert(av.take(i + 1).last() == afv);
        }
        i = i + 1;
    }
    proof {
        assert(av.take(av.len() as int) =~= av);
    }
    r
}

// ─── File index ─────────────────────────────────────────────────────

/// A row of the `file_index` table, without its time stamp.
#[derive(Debug)]
pub struct FileIndexRow {
    pub path: String,
    pub content_hash: i64,
    pub language: String,
    pub size_bytes: i64,
}

/// Mathematical view of a [`FileIndexRow`].
pub struct FileIndexRowV {
    pub path: Seq<char>,
    pub content_hash: i64,
    pub language: Seq<char>,
    pub size_bytes: i64,
}

impl View for FileIndexRow {
    type V = FileIndexRowV;

    open spec fn view(&self) -> FileIndexRowV {
        FileIndexRowV {
            path: self.path@,
            content_hash: self.content_hash,
            language: self.language@,
            size_bytes: self.size_bytes,
        }
    }
}

impl DeepView for FileIndexRow {
    type V = FileIndexRowV;

    open spec fn deep_view(&self) -> FileIndexRowV {
        self@
    }
}

/// The file-index record of a file.
pub open spec fn file_index_row(f: FileInfoV) -> FileIndexRowV {
    FileIndexRowV {
        path: f.relative_path,
        content_hash: f.content_hash as i64,
        language: language_name(f.language),
        size_bytes: f.size_bytes as i64,
    }
}

/// The file-index records of the files, in order.
pub fn file_index_rows(files: &[FileInfo]) -> (r: Vec<FileIndexRow>)
    ensures
        r.deep_view() == files.deep_view().map_values(|f: FileInfoV| file_index_row(f)),
{
    let ghost fv = files.deep_view();
    let mut r: Vec<FileIndexRow> = Vec::new();
    let mut i: usize = 0;
    while i < files.len()
        invariant
            fv == files.deep_view(),
            i <= fv.len(),
            r.deep_view() == fv.take(i as int).map_values(|f: FileInfoV| file_index_row(f)),
        decreases fv.len() - i,
    {
        let f = &files[i];
        let row = FileIndexRow {
            path: f.relative_path.clone(),
            content_hash: f.content_hash as i64,
            language: owned(f.language.as_str()),
            size_bytes: f.size_bytes as i64,
        };
        let ghost before = r.deep_view();
        let ghost rv = row@;
        r.push(row);
        proof {
            assert(fv[i as int] == f@);
            assert(rv == file_index_row(fv[i as int]));
            assert(r.deep_view() =~= before.push(rv));
            assert(fv.take(i + 1).map_values(|f: FileInfoV| file_index_row(f)) =~= fv.take(i as int).map_values(
                |f: FileInfoV| file_index_row(f),
            ).push(file_index_row(fv[i as int])));
        }
        i = i + 1;
    }
    proof {
        assert(fv.take(fv.len() as int) =~= fv);
    }
    r
}

// ─── Community and flow membership ──────────────────────────────────

/// `(community id, member uid)` rows of one community, in member order.
pub open spec fn member_rows_of(c: CommunityV) -> Seq<(i64, Seq<char>)> {
    c.members.map_values(|m: Seq<char>| (c.id as i64, m))
}

/// Membership rows of communities in order.
pub open spec fn community_member_rows(cs: Seq<CommunityV>) -> Seq<(i64, Seq<char>)>
    decreases cs.len(),
{
    if cs.len() == 0 {
        Seq::empty()
    } else {
        community_member_rows(cs.drop_last()) + member_rows_of(cs.last())
    }
}

/// `(community id, member uid)` rows for storing communities.
pub fn member_rows(communities: &[Community]) -> (r: Vec<(i64, String)>)
    ensures
        r.deep_view() == community_member_rows(communities.deep_view()),
{
    let ghost cv = communities.deep_view();
    let mut r: Vec<(i64, String)> = Vec::new();
    let mut i: usize = 0;
    while i < communities.len()
        invariant
            cv == communities.deep_view(),
            i <= cv.len(),
            r.deep_view() == community_member_rows(cv.take(i as int)),
        decreases cv.len() - i,
    {
        proof {
            assert(cv.take(i + 1).drop_last() =~= cv.take(i as int));
            assert(cv.take(i + 1).last() == cv[i as int]);
        }
        let c = &communities[i];
        let id = c.id as i64;
        let ghost base = r.deep_view();
        let ghost mv = c.members.deep_view();
        let mut k: usize = 0;
        while k < c.members.len()
            invariant
                mv == c.members.deep_view(),
                id == c.id as i64,
                k <= mv.len(),
                r.deep_view() == base + mv.take(k as int).map_values(|m: Seq<char>| (id, m)),
            decreases mv.len() - k,
        {
            let ghost before = r.deep_view();
            let m = c.members[k].clone();
            proof {
                assert(mv[k as int] == m@);
            }
            r.push((id, m));
            proof {
                assert(r.deep_view() =~= before.push((id, mv[k as int])));
                assert(mv.take(k + 1).map_values(|m: Seq<char>| (id, m)) =~= mv.take(k as int).map_values(
                    |m: Seq<char>| (id, m),
                ).push((id, mv[k as int])));
            }
            k = k + 1;
        }
        proof {
            assert(mv.take(mv.len() as int) =~= mv);
            assert(cv[i as int] == c.deep_view());
        }
        i = i + 1;
    }
    proof {
        assert(cv.take(cv.len() as int) =~= cv);
    }
    r
}

/// `(process id, step uid, step index)` rows of one flow, in step order.
pub open spec fn step_rows_of(p: ProcessV) -> Seq<(i64, Seq<char>, i64)> {
    Seq::new(p.steps.len(), |k: int| (p.id as i64, p.steps[k], k as i64))
}

/// Step rows of flows in order.
pub open spec fn process_step_rows(ps: Seq<ProcessV>) -> Seq<(i64, Seq<char>, i64)>
    decreases ps.len(),
{
    if ps.len() == 0 {
        Seq::empty()
    } else {
        process_step_rows(ps.drop_last()) + step_rows_of(ps.last())
    }
}

/// `(process id, step uid, step index)` rows for storing execution flows.
pub fn step_rows(processes: &[Process]) -> (r: Vec<(i64, String, i64)>)
    ensures
        r.deep_view() == process_step_rows(processes.deep_view()),
{
    let ghost pv = processes.deep_view();
    let mut r: Vec<(i64, String, i64)> = Vec::new();
    let mut i: usize = 0;
    while i < processes.len()
        invariant
            pv == processes.deep_view(),
            i <= pv.len(),
            r.deep_view() == process_step_rows(pv.take(i as int)),
        decreases pv.len() - i,
    {
        proof {
            assert(pv.take(i + 1).drop_last() =~= pv.take(i as int));
            assert(pv.take(i + 1).last() == pv[i as int]);
        }
        let p = &processes[i];
        let id = p.id as i64;
        let ghost base = r.deep_view();
        let ghost sv = p.steps.deep_view();
        let mut k: usize = 0;
        while k < p.steps.len()
            invariant
                sv == p.steps.deep_view(),
                id == p.id as i64,
                k <= sv.len(),
                r.deep_view() == base + Seq::new(k as nat, |q: int| (id, sv[q], q as i64)),
            decreases sv.len() - k,
        {
            let ghost before = r.deep_view();
            let st = p.steps[k].clone();
            proof {
                assert(sv[k as int] == st@);
            }
            r.push((id, st, k as i64));
            proof {
                assert(r.deep_view() =~= before.push((id, sv[k as int], k as i64)));
                assert(Seq::new((k + 1) as nat, |q: int| (id, sv[q], q as i64)) =~= Seq::new(
                    k as nat,
                    |q: int| (id, sv[q], q as i64),
                ).push((id, sv[k as int], k as i64)));
            }
            k = k + 1;
        }
        proof {
            assert(pv[i as int] == p.deep_view());
            assert(Seq::new(sv.len(), |q: int| (id, sv[q], q as i64)) =~= step_rows_of(pv[i as int]));
        }
        i = i + 1;
    }
    proof {
        assert(pv.take(pv.len() as int) =~= pv);
    }
    r
}

} // verus!
