//! Source-language model: supported languages and the raw facts that
//! extraction produces for one file (symbols, imports, calls, data flows).

pub mod calls;
pub mod dataflow;
pub mod extract;
pub mod extract_calls;
pub mod extract_flows;
pub mod extract_go;
pub mod extract_imports;
pub mod extract_ruby;
pub mod extract_ts;
pub mod imports;
pub mod sitter;
pub mod ts;
pub mod syntax;

pub use extract::{Symbol, SymbolKind};

use vstd::prelude::*;
use crate::analyzer::{FileAnalysis, FileAnalysisV};
use crate::parser::calls::RawCall;
use crate::parser::dataflow::RawFlow;
use crate::parser::extract::SymbolV;
use crate::parser::extract_calls::{extract_calls, tree_calls};
use crate::parser::extract_flows::{extract_dataflows, tree_flows};
use crate::parser::extract_go::{extract_go, go_symbols};
use crate::parser::extract_imports::{extract_imports, tree_imports};
use crate::parser::extract_ruby::{extract_ruby, rb_symbols};
use crate::parser::extract_ts::{extract_typescript, ts_symbols};
use crate::parser::imports::RawImport;
use crate::parser::sitter::{parse_source, tree_copy_of, tree_fits};
use crate::parser::ts::{grammar_accepted, parses};
use crate::parser::syntax::{tree_wf, SyntaxNodeV, SyntaxTree};
use crate::text::str_eq;

verus! {

/// A supported source language.
#[derive(Debug, Clone, Copy, PartialEq, Eq, Hash, Structural)]
pub enum Language {
    Ruby,
    Go,
    TypeScript,
}

/// The language that a file extension denotes, if any.
pub open spec fn language_of_extension(ext: Seq<char>) -> Option<Language> {
    if ext == "rb"@ {
        Some(Language::Ruby)
    } else if ext == "go"@ {
        Some(Language::Go)
    } else if ext == "ts"@ || ext == "tsx"@ || ext == "js"@ || ext == "jsx"@ {
        Some(Language::TypeScript)
    } else {
        None
    }
}

/// Lower-case name of a language.
pub open spec fn language_name(l: Language) -> Seq<char> {
    match l {
        Language::Ruby => "ruby"@,
        Language::Go => "go"@,
        Language::TypeScript => "typescript"@,
    }
}

impl Language {
    /// Detect language from a file extension. Returns `None` for unsupported extensions.
    pub fn from_extension(ext: &str) -> (r: Option<Language>)
        ensures
            r == language_of_extension(ext@),
    {
        if str_eq(ext, "rb") {
            Some(Language::Ruby)
        } else if str_eq(ext, "go") {
            Some(Language::Go)
        } else if str_eq(ext, "ts") || str_eq(ext, "tsx") || str_eq(ext, "js") || str_eq(ext, "jsx") {
            Some(Language::TypeScript)
        } else {
            None
        }
    }

    /// Lower-case name of the language (`ruby`, `go`, `typescript`).
    pub fn as_str(&self) -> (s: &'static str)
        ensures
            s@ == language_name(*self),
    {
        match self {
            Language::Ruby => "ruby",
            Language::Go => "go",
            Language::TypeScript => "typescript",
        }
    }
}

/// The symbols of a syntax tree of the given language, in walk order.
pub open spec fn tree_symbols(language: Language, t: Seq<SyntaxNodeV>) -> Seq<SymbolV> {
    match language {
        Language::Ruby => rb_symbols(t),
        Language::Go => go_symbols(t),
        Language::TypeScript => ts_symbols(t),
    }
}

/// Extract symbols from a syntax tree based on language.
pub fn extract_symbols(language: Language, tree: &SyntaxTree) -> (r: Vec<Symbol>)
    requires
        tree_wf(tree@),
    ensures
        r.deep_view() == tree_symbols(language, tree@),
{
    match language {
        Language::Ruby => extract_ruby(tree),
        Language::Go => extract_go(tree),
        Language::TypeScript => extract_typescript(tree),
    }
}

/// Full extraction: symbols, imports, calls, and data flows.
pub fn parse_full(language: Language, tree: &SyntaxTree) -> (r: (Vec<Symbol>, Vec<RawImport>, Vec<RawCall>, Vec<RawFlow>))
    requires
        tree_wf(tree@),
    ensures
        r.0.deep_view() == tree_symbols(language, tree@),
        r.1.deep_view() == tree_imports(language, tree@),
        r.2.deep_view() == tree_calls(language, tree@),
        r.3.deep_view() == tree_flows(language, tree@),
{
    (
        extract_symbols(language, tree),
        extract_imports(language, tree),
        extract_calls(language, tree),
        extract_dataflows(language, tree),
    )
}

/// A symbol placed in a file.
pub open spec fn in_file(s: SymbolV, path: Seq<char>) -> SymbolV {
    SymbolV { file_path: path, ..s }
}

/// Everything extracted from one file, with its symbols placed in it.
pub open spec fn file_analysis_of(path: Seq<char>, language: Language, t: Seq<SyntaxNodeV>) -> FileAnalysisV {
    FileAnalysisV {
        file_path: path,
        symbols: tree_symbols(language, t).map_values(|s: SymbolV| in_file(s, path)),
        imports: tree_imports(language, t),
        calls: tree_calls(language, t),
        flows: tree_flows(language, t),
    }
}

/// The analysis of one file: its extracted facts, each symbol placed in
/// the file at `path` (relative to the repository root).
pub fn analyze_file(path: &str, language: Language, tree: &SyntaxTree) -> (r: FileAnalysis)
    requires
        tree_wf(tree@),
    ensures
        r@ == file_analysis_of(path@, language, tree@),
{
    let (symbols, imports, calls, flows) = parse_full(language, tree);
    let ghost sv = symbols.deep_view();
    let mut placed: Vec<Symbol> = Vec::new();
    let mut rest = symbols;
    let mut rev: Vec<Symbol> = Vec::new();
    while rest.len() > 0
        invariant
            rest@.len() + rev@.len() == sv.len(),
            forall|j: int| 0 <= j < rest@.len() ==> #[trigger] rest@[j]@ == sv[j],
            forall|j: int| 0 <= j < rev@.len() ==> #[trigger] rev@[j]@ == sv[sv.len() - 1 - j],
        decreases rest@.len(),
    {
        let s = rest.pop().unwrap();
        rev.push(s);
    }
    let ghost path_v = path@;
    while rev.len() > 0
        invariant
            rev@.len() + placed@.len() == sv.len(),
            path_v == path@,
            forall|j: int| 0 <= j < rev@.len() ==> #[trigger] rev@[j]@ == sv[sv.len() - 1 - j],
            placed.deep_view() == sv.take(placed@.len() as int).map_values(|s: SymbolV| in_file(s, path_v)),
        decreases rev@.len(),
    {
        let ghost k = placed@.len();
        let mut s = rev.pop().unwrap();
        proof {
            assert(s@ == sv[k as int]);
        }
        s.file_path = crate::text::owned(path);
        let ghost before = placed.deep_view();
        let ghost v = s@;
        placed.push(s);
        proof {
            assert(placed.deep_view() =~= before.push(v));
            assert(sv.take(k as int + 1).map_values(|s: SymbolV| in_file(s, path_v)) =~= sv.take(k as int).map_values(
                |s: SymbolV| in_file(s, path_v),
            ).push(in_file(sv[k as int], path_v)));
        }
    }
    proof {
        assert(sv.take(sv.len() as int) =~= sv);
    }
    FileAnalysis { file_path: crate::text::owned(path), symbols: placed, imports, calls, flows }
}

/// Parses and analyzes one source file: the analysis of a copy of the tree
/// that tree-sitter gives for the source. `None` when tree-sitter refuses
/// the grammar or gives no tree; otherwise an analysis always comes back
/// unless the tree does not fit the arena (see [`sitter::tree_fits`]).
pub fn parse_file(path: &str, language: Language, source: &[u8]) -> (r: Option<FileAnalysis>)
    ensures
        r matches Some(fa) ==> exists|t: Seq<SyntaxNodeV>|
            tree_wf(t) && tree_copy_of(language, source@, t) && fa@ == file_analysis_of(path@, language, t),
        r is Some ==> grammar_accepted(language) && parses(language, source@),
        grammar_accepted(language) && parses(language, source@) && tree_fits(language, source@) ==> r is Some,
{
    match parse_source(language, source) {
        Some(tree) => {
            let fa = analyze_file(path, language, &tree);
            proof {
                assert(tree_wf(tree@) && tree_copy_of(language, source@, tree@) && fa@ == file_analysis_of(
                    path@,
                    language,
                    tree@,
                ));
            }
            Some(fa)
        },
        None => None,
    }
}

} // verus!
