//! Relationship records and the per-file resolvers that produce them.

pub mod calls;
pub mod imports;
pub mod inheritance;

pub use calls::resolve_calls;
pub use imports::{resolve_imported_files, resolve_imports};
pub use inheritance::{resolve_go_implicit_implements, resolve_inheritance};

use vstd::prelude::*;
use crate::parser::extract::{symbol_uid, Symbol, SymbolV};
use crate::text::{concat, owned};

verus! {

/// Confidence of a relationship, as the exact fraction `num / den`.
#[derive(Debug, Clone, Copy, PartialEq, Eq, Structural)]
pub struct Confidence {
    pub num: u32,
    pub den: u32,
}

/// The fraction `num / den` as a confidence.
pub open spec fn conf(num: u32, den: u32) -> Confidence {
    Confidence { num, den }
}

impl DeepView for Confidence {
    type V = Confidence;

    open spec fn deep_view(&self) -> Confidence {
        *self
    }
}

impl Confidence {
    /// The fraction `num / den`.
    pub fn of(num: u32, den: u32) -> (c: Confidence)
        ensures
            c == conf(num, den),
    {
        Confidence { num, den }
    }
}

/// Kind of a relationship between two graph nodes.
#[derive(Debug, Clone, Copy, PartialEq, Eq, Structural)]
pub enum RelationKind {
    Imports,
    Calls,
    CallsUnresolved,
    CallsExternal,
    Extends,
    Implements,
    Defines,
    Contains,
}

/// Stored name of a relation kind.
pub open spec fn relation_kind_name(k: RelationKind) -> Seq<char> {
    match k {
        RelationKind::Imports => "IMPORTS"@,
        RelationKind::Calls => "CALLS"@,
        RelationKind::CallsUnresolved => "CALLS_UNRESOLVED"@,
        RelationKind::CallsExternal => "CALLS_EXTERNAL"@,
        RelationKind::Extends => "EXTENDS"@,
        RelationKind::Implements => "IMPLEMENTS"@,
        RelationKind::Defines => "DEFINES"@,
        RelationKind::Contains => "CONTAINS"@,
    }
}

impl RelationKind {
    /// Stored name of the relation kind (`CALLS`, `IMPORTS`, ...).
    pub fn as_str(&self) -> (s: &'static str)
        ensures
            s@ == relation_kind_name(*self),
    {
        match self {
            RelationKind::Imports => "IMPORTS",
            RelationKind::Calls => "CALLS",
            RelationKind::CallsUnresolved => "CALLS_UNRESOLVED",
            RelationKind::CallsExternal => "CALLS_EXTERNAL",
            RelationKind::Extends => "EXTENDS",
            RelationKind::Implements => "IMPLEMENTS",
            RelationKind::Defines => "DEFINES",
            RelationKind::Contains => "CONTAINS",
        }
    }
}

/// A directed, typed edge between two graph nodes identified by UID.
#[derive(Debug)]
pub struct Relationship {
    pub source_uid: String,
    pub target_uid: String,
    pub kind: RelationKind,
    pub confidence: Confidence,
    pub reason: String,
}

/// Mathematical view of a [`Relationship`].
pub struct RelationshipV {
    pub source_uid: Seq<char>,
    pub target_uid: Seq<char>,
    pub kind: RelationKind,
    pub confidence: Confidence,
    pub reason: Seq<char>,
}

impl View for Relationship {
    type V = RelationshipV;

    open spec fn view(&self) -> RelationshipV {
        RelationshipV {
            source_uid: self.source_uid@,
            target_uid: self.target_uid@,
            kind: self.kind,
            confidence: self.confidence,
            reason: self.reason@,
        }
    }
}

impl DeepView for Relationship {
    type V = RelationshipV;

    open spec fn deep_view(&self) -> RelationshipV {
        self@
    }
}

/// Builds an edge view.
pub open spec fn edge(
    source: Seq<char>,
    target: Seq<char>,
    kind: RelationKind,
    confidence: Confidence,
    reason: Seq<char>,
) -> RelationshipV {
    RelationshipV { source_uid: source, target_uid: target, kind, confidence, reason }
}

/// `File:<path>`, the UID of a file node.
pub open spec fn file_uid(path: Seq<char>) -> Seq<char> {
    "File:"@ + path
}

/// The DEFINES edge from a file to a symbol it defines, if the symbol belongs to that file.
pub open spec fn define_edge(file_path: Seq<char>) -> spec_fn(SymbolV) -> Option<RelationshipV> {
    |s: SymbolV|
        if s.file_path == file_path {
            Some(
                edge(
                    file_uid(file_path),
                    symbol_uid(s),
                    RelationKind::Defines,
                    conf(1, 1),
                    "file-defines-symbol"@,
                ),
            )
        } else {
            None
        }
}

/// DEFINES edges: File → each symbol defined in that file, in symbol order.
pub open spec fn defines_edges(file_path: Seq<char>, symbols: Seq<SymbolV>) -> Seq<RelationshipV> {
    symbols.filter_map(define_edge(file_path))
}

/// Generate DEFINES edges: File → each symbol defined in that file.
pub fn resolve_defines(file_path: &str, symbols: &[Symbol], relationships: &mut Vec<Relationship>)
    ensures
        final(relationships).deep_view() == old(relationships).deep_view() + defines_edges(
            file_path@,
            symbols.deep_view(),
        ),
{
    let fuid = concat("File:", file_path);
    let ghost start = old(relationships).deep_view();
    let ghost syms = symbols.deep_view();
    let ghost f = define_edge(file_path@);
    let mut i: usize = 0;
    while i < symbols.len()
        invariant
            i <= symbols@.len(),
            syms == symbols.deep_view(),
            f == define_edge(file_path@),
            fuid@ == file_uid(file_path@),
            relationships.deep_view() == start + syms.take(i as int).filter_map(f),
        decreases symbols@.len() - i,
    {
        proof {
            syms.lemma_filter_map_take_succ(f, i as int);
        }
        let sym = &symbols[i];
        if crate::text::str_eq(sym.file_path.as_str(), file_path) {
            let r = Relationship {
                source_uid: fuid.clone(),
                target_uid: sym.uid(),
                kind: RelationKind::Defines,
                confidence: Confidence::of(1, 1),
                reason: owned("file-defines-symbol"),
            };
            let ghost rv = r@;
            let ghost before = relationships.deep_view();
            relationships.push(r);
            proof {
                assert(syms[i as int] == sym@);
                assert(f(syms[i as int]) == Some(rv));
                assert(relationships.deep_view() =~= before.push(rv));
                assert(relationships.deep_view() =~= start + syms.take(i + 1).filter_map(f));
            }
        } else {
            proof {
                assert(relationships.deep_view() =~= start + syms.take(i + 1).filter_map(f));
            }
        }
        i = i + 1;
    }
    proof {
        assert(syms.take(symbols@.len() as int) =~= syms);
    }
}

} // verus!
