//! Symbols: the named definitions found in a source file.

use vstd::prelude::*;
use crate::text::{decimal, push_char, push_decimal, owned};

verus! {

/// Kind of a definition.
#[derive(Debug, Clone, Copy, PartialEq, Eq, Hash, Structural)]
pub enum SymbolKind {
    Function,
    Method,
    Class,
    Module,
    Interface,
    Struct,
    Enum,
    Constant,
    Type,
    Property,
    Constructor,
    /// Pseudo-symbol standing for an unresolved or external call target.
    External,
}

/// Display name of a symbol kind.
pub open spec fn kind_name(k: SymbolKind) -> Seq<char> {
    match k {
        SymbolKind::Function => "Function"@,
        SymbolKind::Method => "Method"@,
        SymbolKind::Class => "Class"@,
        SymbolKind::Module => "Module"@,
        SymbolKind::Interface => "Interface"@,
        SymbolKind::Struct => "Struct"@,
        SymbolKind::Enum => "Enum"@,
        SymbolKind::Constant => "Constant"@,
        SymbolKind::Type => "Type"@,
        SymbolKind::Property => "Property"@,
        SymbolKind::Constructor => "Constructor"@,
        SymbolKind::External => "External"@,
    }
}

impl SymbolKind {
    /// Display name of the kind (as stored in the index and in UIDs).
    pub fn as_str(&self) -> (s: &'static str)
        ensures
            s@ == kind_name(*self),
    {
        match self {
            SymbolKind::Function => "Function",
            SymbolKind::Method => "Method",
            SymbolKind::Class => "Class",
            SymbolKind::Module => "Module",
            SymbolKind::Interface => "Interface",
            SymbolKind::Struct => "Struct",
            SymbolKind::Enum => "Enum",
            SymbolKind::Constant => "Constant",
            SymbolKind::Type => "Type",
            SymbolKind::Property => "Property",
            SymbolKind::Constructor => "Constructor",
            SymbolKind::External => "External",
        }
    }
}

/// A named definition in a source file.
#[derive(Debug)]
pub struct Symbol {
    pub name: String,
    pub kind: SymbolKind,
    pub file_path: String,
    pub start_line: usize,
    pub end_line: usize,
    pub is_exported: bool,
    pub parent_name: Option<String>,
    /// Superclass name (Ruby: `< Base`, TS: `extends Base`)
    pub superclass: Option<String>,
    /// Implemented interfaces (TS: `implements Foo, Bar`)
    pub interfaces: Vec<String>,
    /// TypeScript: class field / constructor parameter type name e.g. "UserService"
    pub type_annotation: Option<String>,
    /// Go: method parameter count for interface compatibility checks
    pub param_count: Option<usize>,
}

/// Mathematical view of a [`Symbol`].
pub struct SymbolV {
    pub name: Seq<char>,
    pub kind: SymbolKind,
    pub file_path: Seq<char>,
    pub start_line: usize,
    pub end_line: usize,
    pub is_exported: bool,
    pub parent_name: Option<Seq<char>>,
    pub superclass: Option<Seq<char>>,
    pub interfaces: Seq<Seq<char>>,
    pub type_annotation: Option<Seq<char>>,
    pub param_count: Option<usize>,
}

impl View for Symbol {
    type V = SymbolV;

    open spec fn view(&self) -> SymbolV {
        SymbolV {
            name: self.name@,
            kind: self.kind,
            file_path: self.file_path@,
            start_line: self.start_line,
            end_line: self.end_line,
            is_exported: self.is_exported,
            parent_name: self.parent_name.deep_view(),
            superclass: self.superclass.deep_view(),
            interfaces: self.interfaces.deep_view(),
            type_annotation: self.type_annotation.deep_view(),
            param_count: self.param_count,
        }
    }
}

impl DeepView for Symbol {
    type V = SymbolV;

    open spec fn deep_view(&self) -> SymbolV {
        self@
    }
}

/// `Kind:file:name:line`, the unique identifier of a symbol.
pub open spec fn uid_text(kind: SymbolKind, file: Seq<char>, name: Seq<char>, line: nat) -> Seq<
    char,
> {
    kind_name(kind) + seq![':'] + file + seq![':'] + name + seq![':'] + decimal(line)
}

/// UID of a symbol view.
pub open spec fn symbol_uid(s: SymbolV) -> Seq<char> {
    uid_text(s.kind, s.file_path, s.name, s.start_line as nat)
}

/// Owned copy of an optional string.
pub fn clone_opt(o: &Option<String>) -> (r: Option<String>)
    ensures
        r.deep_view() == o.deep_view(),
{
    match o {
        Some(s) => Some(s.clone()),
        None => None,
    }
}

/// Owned copy of a list of strings.
pub fn clone_strings(v: &Vec<String>) -> (r: Vec<String>)
    ensures
        r.deep_view() == v.deep_view(),
{
    let mut r: Vec<String> = Vec::new();
    let mut i: usize = 0;
    while i < v.len()
        invariant
            i <= v@.len(),
            r@.len() == i,
            forall|j: int| 0 <= j < i ==> r@[j]@ == v@[j]@,
        decreases v@.len() - i,
    {
        r.push(v[i].clone());
        i = i + 1;
    }
    proof {
        assert(r.deep_view() =~= v.deep_view());
    }
    r
}

impl Symbol {
    /// `Kind:file:name:line`.
    pub fn uid(&self) -> (r: String)
        ensures
            r@ == symbol_uid(self@),
    {
        let mut s = owned(self.kind.as_str());
        push_char(&mut s, ':');
        s.append(self.file_path.as_str());
        push_char(&mut s, ':');
        s.append(self.name.as_str());
        push_char(&mut s, ':');
        push_decimal(&mut s, self.start_line);
        proof {
            assert(s@ =~= symbol_uid(self@));
        }
        s
    }

    /// A symbol spanning the given (1-based) lines, with no file yet and no
    /// optional attributes.
    pub fn new(
        name: String,
        kind: SymbolKind,
        start_line: usize,
        end_line: usize,
        is_exported: bool,
        parent_name: Option<String>,
    ) -> (r: Symbol)
        ensures
            r.name == name,
            r.kind == kind,
            r.file_path@ == Seq::<char>::empty(),
            r.start_line == start_line,
            r.end_line == end_line,
            r.is_exported == is_exported,
            r.parent_name == parent_name,
            r.superclass.is_none(),
            r.interfaces@.len() == 0,
            r.type_annotation.is_none(),
            r.param_count.is_none(),
    {
        Symbol {
            name,
            kind,
            file_path: String::new(),
            start_line,
            end_line,
            is_exported,
            parent_name,
            superclass: None,
            interfaces: Vec::new(),
            type_annotation: None,
            param_count: None,
        }
    }

    /// A copy of the symbol.
    pub fn duplicate(&self) -> (r: Symbol)
        ensures
            r@ == self@,
    {
        Symbol {
            name: self.name.clone(),
            kind: self.kind,
            file_path: self.file_path.clone(),
            start_line: self.start_line,
            end_line: self.end_line,
            is_exported: self.is_exported,
            parent_name: clone_opt(&self.parent_name),
            superclass: clone_opt(&self.superclass),
            interfaces: clone_strings(&self.interfaces),
            type_annotation: clone_opt(&self.type_annotation),
            param_count: self.param_count,
        }
    }
}

} // verus!
