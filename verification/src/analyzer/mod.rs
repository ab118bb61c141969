//! Cross-file analysis: symbol indexes, relationship resolution,
//! community detection and execution-flow detection.

pub mod community;
pub mod graph;
pub mod process;
pub mod resolver;

pub use graph::{collect_external_symbols, resolve_relationships};

use vstd::prelude::*;
use crate::parser::calls::{RawCall, RawCallV};
use crate::parser::dataflow::{RawFlow, RawFlowV};
use crate::parser::extract::{clone_opt, kind_name, symbol_uid, Symbol, SymbolV};
use crate::parser::imports::{RawImport, RawImportV};
use crate::text::{owned, push_char};

verus! {

/// All extracted data from a single file, ready for analysis.
#[derive(Debug)]
pub struct FileAnalysis {
    pub file_path: String,
    pub symbols: Vec<Symbol>,
    pub imports: Vec<RawImport>,
    pub calls: Vec<RawCall>,
    pub flows: Vec<RawFlow>,
}

/// Mathematical view of a [`FileAnalysis`] (the parts that analysis reads).
pub struct FileAnalysisV {
    pub file_path: Seq<char>,
    pub symbols: Seq<SymbolV>,
    pub imports: Seq<RawImportV>,
    pub calls: Seq<RawCallV>,
    pub flows: Seq<RawFlowV>,
}

impl View for FileAnalysis {
    type V = FileAnalysisV;

    open spec fn view(&self) -> FileAnalysisV {
        FileAnalysisV {
            file_path: self.file_path@,
            symbols: self.symbols.deep_view(),
            imports: self.imports.deep_view(),
            calls: self.calls.deep_view(),
            flows: self.flows.deep_view(),
        }
    }
}

impl DeepView for FileAnalysis {
    type V = FileAnalysisV;

    open spec fn deep_view(&self) -> FileAnalysisV {
        self@
    }
}

/// What the index records of a symbol.
#[derive(Debug)]
pub struct SymbolRef {
    pub uid: String,
    pub file_path: String,
    pub kind: String,
    pub parent_name: Option<String>,
    pub is_exported: bool,
    /// TypeScript: type annotation for Property symbols (used for this.field resolution)
    pub type_annotation: Option<String>,
}

/// Mathematical view of a [`SymbolRef`].
pub struct SymbolRefV {
    pub uid: Seq<char>,
    pub file_path: Seq<char>,
    pub kind: Seq<char>,
    pub parent_name: Option<Seq<char>>,
    pub is_exported: bool,
    pub type_annotation: Option<Seq<char>>,
}

impl View for SymbolRef {
    type V = SymbolRefV;

    open spec fn view(&self) -> SymbolRefV {
        SymbolRefV {
            uid: self.uid@,
            file_path: self.file_path@,
            kind: self.kind@,
            parent_name: self.parent_name.deep_view(),
            is_exported: self.is_exported,
            type_annotation: self.type_annotation.deep_view(),
        }
    }
}

impl DeepView for SymbolRef {
    type V = SymbolRefV;

    open spec fn deep_view(&self) -> SymbolRefV {
        self@
    }
}

impl SymbolRef {
    /// A copy of the reference.
    pub fn duplicate(&self) -> (r: SymbolRef)
        ensures
            r@ == self@,
    {
        SymbolRef {
            uid: self.uid.clone(),
            file_path: self.file_path.clone(),
            kind: self.kind.clone(),
            parent_name: clone_opt(&self.parent_name),
            is_exported: self.is_exported,
            type_annotation: clone_opt(&self.type_annotation),
        }
    }
}

/// The index record of a symbol.
pub open spec fn ref_of(s: SymbolV) -> SymbolRefV {
    SymbolRefV {
        uid: symbol_uid(s),
        file_path: s.file_path,
        kind: kind_name(s.kind),
        parent_name: s.parent_name,
        is_exported: s.is_exported,
        type_annotation: s.type_annotation,
    }
}

/// One (key, symbol) pair of a [`SymbolIndex`].
#[derive(Debug)]
pub struct IndexEntry {
    pub key: String,
    pub sym: SymbolRef,
}

/// Mathematical view of an [`IndexEntry`].
pub struct IndexEntryV {
    pub key: Seq<char>,
    pub sym: SymbolRefV,
}

impl View for IndexEntry {
    type V = IndexEntryV;

    open spec fn view(&self) -> IndexEntryV {
        IndexEntryV { key: self.key@, sym: self.sym@ }
    }
}

impl DeepView for IndexEntry {
    type V = IndexEntryV;

    open spec fn deep_view(&self) -> IndexEntryV {
        self@
    }
}

/// Index: symbol name (and `Parent.name`) → symbols, in insertion order.
#[derive(Debug)]
pub struct SymbolIndex {
    pub entries: Vec<IndexEntry>,
}

impl View for SymbolIndex {
    type V = Seq<IndexEntryV>;

    open spec fn view(&self) -> Seq<IndexEntryV> {
        self.entries.deep_view()
    }
}

/// Selects the entries stored under `key`.
pub open spec fn entry_under(key: Seq<char>) -> spec_fn(IndexEntryV) -> Option<SymbolRefV> {
    |e: IndexEntryV|
        if e.key == key {
            Some(e.sym)
        } else {
            None
        }
}

/// The symbols stored under `key`, in insertion order.
pub open spec fn index_lookup(entries: Seq<IndexEntryV>, key: Seq<char>) -> Seq<SymbolRefV> {
    entries.filter_map(entry_under(key))
}

/// `Parent.name`, the qualified key of a member.
pub open spec fn qualified_key(parent: Seq<char>, name: Seq<char>) -> Seq<char> {
    parent + seq!['.'] + name
}

/// The entries one symbol contributes: under its name, and under
/// `Parent.name` when it has a parent.
pub open spec fn symbol_entries(s: SymbolV) -> Seq<IndexEntryV> {
    match s.parent_name {
        Some(p) => seq![
            IndexEntryV { key: s.name, sym: ref_of(s) },
            IndexEntryV { key: qualified_key(p, s.name), sym: ref_of(s) },
        ],
        None => seq![IndexEntryV { key: s.name, sym: ref_of(s) }],
    }
}

/// The entries of an index over the given symbols, in order.
pub open spec fn index_entries(syms: Seq<SymbolV>) -> Seq<IndexEntryV>
    decreases syms.len(),
{
    if syms.len() == 0 {
        Seq::empty()
    } else {
        index_entries(syms.drop_last()) + symbol_entries(syms.last())
    }
}

/// All symbols of all analyses, file after file.
pub open spec fn all_symbols(analyses: Seq<FileAnalysisV>) -> Seq<SymbolV>
    decreases analyses.len(),
{
    if analyses.len() == 0 {
        Seq::empty()
    } else {
        all_symbols(analyses.drop_last()) + analyses.last().symbols
    }
}

impl SymbolIndex {
    /// The symbols stored under `key`, in insertion order.
    pub fn get(&self, key: &str) -> (r: Vec<SymbolRef>)
        ensures
            r.deep_view() == index_lookup(self@, key@),
    {
        let ghost es = self@;
        let ghost f = entry_under(key@);
        let mut r: Vec<SymbolRef> = Vec::new();
        let mut i: usize = 0;
        while i < self.entries.len()
            invariant
                i <= es.len(),
                es == self@,
                f == entry_under(key@),
                r.deep_view() == es.take(i as int).filter_map(f),
            decreases es.len() - i,
        {
            proof {
                es.lemma_filter_map_take_succ(f, i as int);
            }
            let e = &self.entries[i];
            if crate::text::str_eq(e.key.as_str(), key) {
                let d = e.sym.duplicate();
                let ghost before = r.deep_view();
                r.push(d);
                proof {
                    assert(es[i as int] == e@);
                    assert(r.deep_view() =~= before.push(e.sym@));
                }
            } else {
                proof {
                    assert(es[i as int] == e@);
                }
            }
            i = i + 1;
        }
        proof {
            assert(es.take(es.len() as int) =~= es);
        }
        r
    }

    /// Whether any symbol is stored under `key`.
    pub fn contains_key(&self, key: &str) -> (r: bool)
        ensures
            r == (index_lookup(self@, key@).len() > 0),
    {
        let v = self.get(key);
        v.len() > 0
    }
}

/// The index record of a symbol.
pub fn make_ref(sym: &Symbol) -> (r: SymbolRef)
    ensures
        r@ == ref_of(sym@),
{
    SymbolRef {
        uid: sym.uid(),
        file_path: sym.file_path.clone(),
        kind: owned(sym.kind.as_str()),
        parent_name: clone_opt(&sym.parent_name),
        is_exported: sym.is_exported,
        type_annotation: clone_opt(&sym.type_annotation),
    }
}

proof fn lemma_index_entries_push(s: Seq<SymbolV>, x: SymbolV)
    ensures
        index_entries(s.push(x)) == index_entries(s) + symbol_entries(x),
{
    assert(s.push(x).drop_last() =~= s);
}

/// Build the symbol index over all analyses: every symbol under its name,
/// and members also under `Parent.name`.
pub fn build_symbol_index(analyses: &[FileAnalysis]) -> (idx: SymbolIndex)
    ensures
        idx@ == index_entries(all_symbols(analyses.deep_view())),
{
    let ghost av = analyses.deep_view();
    let mut entries: Vec<IndexEntry> = Vec::new();
    let mut a: usize = 0;
    while a < analyses.len()
        invariant
            a <= av.len(),
            av == analyses.deep_view(),
            entries.deep_view() == index_entries(all_symbols(av.take(a as int))),
        decreases av.len() - a,
    {
        let analysis = &analyses[a];
        let ghost prefix = all_symbols(av.take(a as int));
        let ghost syms = analysis.symbols.deep_view();
        let mut j: usize = 0;
        while j < analysis.symbols.len()
            invariant
                j <= syms.len(),
                syms == analysis.symbols.deep_view(),
                entries.deep_view() == index_entries(prefix + syms.take(j as int)),
            decreases syms.len() - j,
        {
            let sym = &analysis.symbols[j];
            proof {
                assert(prefix + syms.take(j + 1) =~= (prefix + syms.take(j as int)).push(sym@));
                lemma_index_entries_push(prefix + syms.take(j as int), sym@);
            }
            let ghost before = entries.deep_view();
            let r1 = make_ref(sym);
            let e1 = IndexEntry { key: sym.name.clone(), sym: r1 };
            let ghost e1v = e1@;
            entries.push(e1);
            proof {
                assert(e1v == IndexEntryV { key: sym@.name, sym: ref_of(sym@) });
                assert(entries.deep_view() =~= before.push(e1v));
            }
            match &sym.parent_name {
                Some(parent) => {
                    let mut q = parent.clone();
                    push_char(&mut q, '.');
                    q.append(sym.name.as_str());
                    let r2 = make_ref(sym);
                    let e2 = IndexEntry { key: q, sym: r2 };
                    let ghost e2v = e2@;
                    let ghost mid = entries.deep_view();
                    entries.push(e2);
                    proof {
                        assert(sym@.parent_name == Some(parent@));
                        assert(e2v.key =~= qualified_key(parent@, sym@.name));
                        assert(e2v == IndexEntryV { key: qualified_key(parent@, sym@.name), sym: ref_of(sym@) });
                        assert(entries.deep_view() =~= mid.push(e2v));
                        assert(symbol_entries(sym@) =~= seq![e1v, e2v]);
                        assert(entries.deep_view() =~= before + symbol_entries(sym@));
                    }
                },
                None => {
                    proof {
                        assert(entries.deep_view() =~= before + symbol_entries(sym@));
                    }
                },
            }
            j = j + 1;
        }
        proof {
            assert(syms.take(syms.len() as int) =~= syms);
            assert(av.take(a + 1).drop_last() =~= av.take(a as int));
            assert(av.take(a + 1).last() == analysis@);
        }
        a = a + 1;
    }
    proof {
        assert(av.take(av.len() as int) =~= av);
    }
    SymbolIndex { entries }
}

/// The exported names of one file.
#[derive(Debug)]
pub struct FileExport {
    pub file_path: String,
    pub names: Vec<String>,
}

/// Mathematical view of a [`FileExport`].
pub struct FileExportV {
    pub file_path: Seq<char>,
    pub names: Seq<Seq<char>>,
}

impl View for FileExport {
    type V = FileExportV;

    open spec fn view(&self) -> FileExportV {
        FileExportV { file_path: self.file_path@, names: self.names.deep_view() }
    }
}

impl DeepView for FileExport {
    type V = FileExportV;

    open spec fn deep_view(&self) -> FileExportV {
        self@
    }
}

/// Name of a symbol if it is exported.
pub open spec fn exported_name() -> spec_fn(SymbolV) -> Option<Seq<char>> {
    |s: SymbolV|
        if s.is_exported {
            Some(s.name)
        } else {
            None
        }
}

/// The exports record of one analysis.
pub open spec fn export_of(a: FileAnalysisV) -> FileExportV {
    FileExportV { file_path: a.file_path, names: a.symbols.filter_map(exported_name()) }
}

/// The file paths that a list of exports covers, in order.
pub open spec fn known_files(exports: Seq<FileExportV>) -> Seq<Seq<char>> {
    exports.map_values(|e: FileExportV| e.file_path)
}

/// Exported symbol names of each file, in file order.
pub fn build_file_exports(analyses: &[FileAnalysis]) -> (r: Vec<FileExport>)
    ensures
        r.deep_view() == analyses.deep_view().map_values(|a: FileAnalysisV| export_of(a)),
{
    let ghost av = analyses.deep_view();
    let mut r: Vec<FileExport> = Vec::new();
    let mut a: usize = 0;
    while a < analyses.len()
        invariant
            a <= av.len(),
            av == analyses.deep_view(),
            r.deep_view() == av.take(a as int).map_values(|x: FileAnalysisV| export_of(x)),
        decreases av.len() - a,
    {
        let analysis = &analyses[a];
        let ghost syms = analysis.symbols.deep_view();
        let ghost f = exported_name();
        let mut names: Vec<String> = Vec::new();
        let mut j: usize = 0;
        while j < analysis.symbols.len()
            invariant
                j <= syms.len(),
                syms == analysis.symbols.deep_view(),
                f == exported_name(),
                names.deep_view() == syms.take(j as int).filter_map(f),
            decreases syms.len() - j,
        {
            proof {
                syms.lemma_filter_map_take_succ(f, j as int);
            }
            let sym = &analysis.symbols[j];
            if sym.is_exported {
                let ghost before = names.deep_view();
                names.push(sym.name.clone());
                proof {
                    assert(syms[j as int] == sym@);
                    assert(names.deep_view() =~= before.push(sym.name@));
                }
            } else {
                proof {
                    assert(syms[j as int] == sym@);
                }
            }
            j = j + 1;
        }
        proof {
            assert(syms.take(syms.len() as int) =~= syms);
        }
        let ghost before = r.deep_view();
        let fe = FileExport { file_path: analysis.file_path.clone(), names };
        let ghost fev = fe@;
        r.push(fe);
        proof {
            assert(av[a as int] == analysis@);
            assert(fev == export_of(analysis@));
            assert(r.deep_view() =~= before.push(fev));
            assert(r.deep_view() =~= av.take(a + 1).map_values(|x: FileAnalysisV| export_of(x)));
        }
        a = a + 1;
    }
    proof {
        assert(av.take(av.len() as int) =~= av);
    }
    r
}

} // verus!
