//! Symbol extraction for TypeScript/JavaScript syntax trees: functions,
//! methods and constructors, classes with their heritage, interfaces with
//! their method signatures, enums, type aliases, properties (including
//! constructor parameter properties) and functions bound to variables.

use vstd::prelude::*;
use crate::parser::extract::{clone_opt, Symbol, SymbolKind, SymbolV};
use crate::parser::syntax::{
    concat_over, field_child, field_kind, field_text, first_of_kinds, lemma_concat_over_all,
    lemma_concat_over_step, node_wf, symbol_at, tree_wf, SyntaxNodeV, SyntaxTree,
};
use crate::text::{owned, str_eq};

verus! {

// ─── Specification ──────────────────────────────────────────────────

/// `identifier` or `type_identifier`.
pub open spec fn is_type_name(k: Seq<char>) -> bool {
    k == "identifier"@ || k == "type_identifier"@
}

/// The simple type name in the `type` field of node `n` (the first
/// identifier inside it, or the type node itself when it is one); `None`
/// for generics, unions and the like.
pub open spec fn ts_type_annotation(t: Seq<SyntaxNodeV>, n: int) -> Option<Seq<char>> {
    match field_child(t, n, "type"@) {
        Some(ty) => match first_of_kinds(t, t[ty as int].children, "type_identifier"@, "identifier"@) {
            Some(x) => Some(t[x as int].text),
            None => if is_type_name(t[ty as int].kind) {
                Some(t[ty as int].text)
            } else {
                None
            },
        },
        None => None,
    }
}

/// Node `n` has an accessibility modifier or `readonly` child.
pub open spec fn has_accessibility_modifier(t: Seq<SyntaxNodeV>, n: int) -> bool {
    first_of_kinds(t, t[n].children, "accessibility_modifier"@, "readonly"@) is Some
}

/// The name of a parameter: its `name` field, else its first identifier.
pub open spec fn param_name(t: Seq<SyntaxNodeV>, q: int) -> Option<Seq<char>> {
    match field_text(t, q, "name"@) {
        Some(n) => Some(n),
        None => match first_of_kinds(t, t[q].children, "identifier"@, "identifier"@) {
            Some(c) => Some(t[c as int].text),
            None => None,
        },
    }
}

/// The property that a constructor parameter declares, if it is one.
pub open spec fn ctor_param(t: Seq<SyntaxNodeV>, q: int, parent: Option<Seq<char>>) -> Seq<SymbolV> {
    if (t[q].kind == "required_parameter"@ || t[q].kind == "optional_parameter"@) && has_accessibility_modifier(
        t,
        q,
    ) {
        match param_name(t, q) {
            Some(n) => seq![
                SymbolV {
                    type_annotation: ts_type_annotation(t, q),
                    ..symbol_at(n, SymbolKind::Property, t[q], false, parent)
                },
            ],
            None => Seq::empty(),
        }
    } else {
        Seq::empty()
    }
}

/// Each node's contribution to the constructor parameter properties.
pub open spec fn ctor_param_fn(t: Seq<SyntaxNodeV>, parent: Option<Seq<char>>) -> spec_fn(usize) -> Seq<SymbolV> {
    |q: usize| ctor_param(t, q as int, parent)
}

/// Properties declared by constructor parameters (`private service: S`).
pub open spec fn ctor_params(t: Seq<SyntaxNodeV>, p: int, parent: Option<Seq<char>>) -> Seq<SymbolV> {
    concat_over(t[p].children, ctor_param_fn(t, parent))
}

/// The text of node `x` if its kind is `a` or `b`.
pub open spec fn text_if_kind(t: Seq<SyntaxNodeV>, x: int, a: Seq<char>, b: Seq<char>) -> Seq<Seq<char>> {
    if t[x].kind == a || t[x].kind == b {
        seq![t[x].text]
    } else {
        Seq::empty()
    }
}

/// Each node's text when its kind is `a` or `b`.
pub open spec fn kind_text_fn(t: Seq<SyntaxNodeV>, a: Seq<char>, b: Seq<char>) -> spec_fn(usize) -> Seq<Seq<char>> {
    |x: usize| text_if_kind(t, x as int, a, b)
}

/// For a node of kind `clause`, the texts of its children of kind `a` or `b`.
pub open spec fn clause_fn(t: Seq<SyntaxNodeV>, clause: Seq<char>, a: Seq<char>, b: Seq<char>) -> spec_fn(usize) -> Seq<
    Seq<char>,
> {
    |e: usize|
        if t[e as int].kind == clause {
            concat_over(t[e as int].children, kind_text_fn(t, a, b))
        } else {
            Seq::empty()
        }
}

/// Names of kind `a` or `b` inside the `clause` children of node `h`.
pub open spec fn clause_texts(t: Seq<SyntaxNodeV>, h: int, clause: Seq<char>, a: Seq<char>, b: Seq<char>) -> Seq<
    Seq<char>,
> {
    concat_over(t[h].children, clause_fn(t, clause, a, b))
}

/// Names in the `extends` clauses of a class heritage node.
pub open spec fn heritage_extends(t: Seq<SyntaxNodeV>, h: int) -> Seq<Seq<char>> {
    clause_texts(t, h, "extends_clause"@, "identifier"@, "type_identifier"@)
}

/// An implemented interface named by node `x`: a type name, or the first
/// child of a generic type.
pub open spec fn implemented_name(t: Seq<SyntaxNodeV>, x: int) -> Seq<Seq<char>> {
    text_if_kind(t, x, "type_identifier"@, "identifier"@) + if t[x].kind == "generic_type"@ && t[x].children.len()
        > 0 {
        seq![t[t[x].children[0] as int].text]
    } else {
        Seq::empty()
    }
}

/// Each node's implemented interface names.
pub open spec fn implemented_fn(t: Seq<SyntaxNodeV>) -> spec_fn(usize) -> Seq<Seq<char>> {
    |x: usize| implemented_name(t, x as int)
}

/// For an `implements` clause, the interfaces it names.
pub open spec fn implements_fn(t: Seq<SyntaxNodeV>) -> spec_fn(usize) -> Seq<Seq<char>> {
    |e: usize|
        if t[e as int].kind == "implements_clause"@ {
            concat_over(t[e as int].children, implemented_fn(t))
        } else {
            Seq::empty()
        }
}

/// Names in the `implements` clauses of a class heritage node.
pub open spec fn heritage_implements(t: Seq<SyntaxNodeV>, h: int) -> Seq<Seq<char>> {
    concat_over(t[h].children, implements_fn(t))
}

/// For a class heritage node, its extended names.
pub open spec fn heritage_extends_fn(t: Seq<SyntaxNodeV>) -> spec_fn(usize) -> Seq<Seq<char>> {
    |h: usize|
        if t[h as int].kind == "class_heritage"@ {
            heritage_extends(t, h as int)
        } else {
            Seq::empty()
        }
}

/// For a class heritage node, its implemented names.
pub open spec fn heritage_implements_fn(t: Seq<SyntaxNodeV>) -> spec_fn(usize) -> Seq<Seq<char>> {
    |h: usize|
        if t[h as int].kind == "class_heritage"@ {
            heritage_implements(t, h as int)
        } else {
            Seq::empty()
        }
}

/// Superclass names of a class, over all of its heritage children.
pub open spec fn class_extends(t: Seq<SyntaxNodeV>, c: int) -> Seq<Seq<char>> {
    concat_over(t[c].children, heritage_extends_fn(t))
}

/// Implemented interfaces of a class, over all of its heritage children.
pub open spec fn class_implements(t: Seq<SyntaxNodeV>, c: int) -> Seq<Seq<char>> {
    concat_over(t[c].children, heritage_implements_fn(t))
}

/// A class symbol with its heritage: the last extended name as superclass,
/// and the implemented interfaces in order.
pub open spec fn class_symbol(t: Seq<SyntaxNodeV>, c: int, s: SymbolV) -> SymbolV {
    let ext = class_extends(t, c);
    SymbolV {
        superclass: if ext.len() > 0 {
            Some(ext.last())
        } else {
            s.superclass
        },
        interfaces: s.interfaces + class_implements(t, c),
        ..s
    }
}

/// Interfaces extended by an interface declaration.
pub open spec fn interface_extends(t: Seq<SyntaxNodeV>, c: int) -> Seq<Seq<char>> {
    clause_texts(t, c, "extends_type_clause"@, "type_identifier"@, "identifier"@)
}

/// The method declared by a signature node of an interface body.
pub open spec fn interface_member(t: Seq<SyntaxNodeV>, m: int, iface: Seq<char>) -> Seq<SymbolV> {
    if t[m].kind == "method_signature"@ {
        match field_text(t, m, "name"@) {
            Some(n) => seq![symbol_at(n, SymbolKind::Method, t[m], false, Some(iface))],
            None => Seq::empty(),
        }
    } else {
        Seq::empty()
    }
}

/// Each node's interface method.
pub open spec fn member_fn(t: Seq<SyntaxNodeV>, iface: Seq<char>) -> spec_fn(usize) -> Seq<SymbolV> {
    |m: usize| interface_member(t, m as int, iface)
}

/// For an interface body (or object type), its method signatures.
pub open spec fn body_fn(t: Seq<SyntaxNodeV>, iface: Seq<char>) -> spec_fn(usize) -> Seq<SymbolV> {
    |b: usize|
        if t[b as int].kind == "interface_body"@ || t[b as int].kind == "object_type"@ {
            concat_over(t[b as int].children, member_fn(t, iface))
        } else {
            Seq::empty()
        }
}

/// Method signatures of an interface declaration, as methods of it.
pub open spec fn interface_methods(t: Seq<SyntaxNodeV>, c: int, iface: Seq<char>) -> Seq<SymbolV> {
    concat_over(t[c].children, body_fn(t, iface))
}

/// A function bound by a variable declarator (`const f = () => ...`).
pub open spec fn declared_function(t: Seq<SyntaxNodeV>, d: int, exported: bool, parent: Option<Seq<char>>) -> Seq<
    SymbolV,
> {
    if t[d].kind == "variable_declarator"@ {
        match field_text(t, d, "name"@) {
            Some(n) => match field_kind(t, d, "value"@) {
                Some(v) => if v == "arrow_function"@ || v == "function_expression"@ {
                    seq![symbol_at(n, SymbolKind::Function, t[d], exported, parent)]
                } else {
                    Seq::empty()
                },
                None => Seq::empty(),
            },
            None => Seq::empty(),
        }
    } else {
        Seq::empty()
    }
}

/// Each declarator's bound function.
pub open spec fn declared_fn(t: Seq<SyntaxNodeV>, exported: bool, parent: Option<Seq<char>>) -> spec_fn(usize) -> Seq<
    SymbolV,
> {
    |d: usize| declared_function(t, d as int, exported, parent)
}

/// Functions bound by the declarators of a variable declaration.
pub open spec fn declared_functions(t: Seq<SyntaxNodeV>, c: int, exported: bool, parent: Option<Seq<char>>) -> Seq<
    SymbolV,
> {
    concat_over(t[c].children, declared_fn(t, exported, parent))
}

/// Whether the walk up from node `p` finds an object type outside any
/// interface body before it finds an interface body.
pub open spec fn inline_from(t: Seq<SyntaxNodeV>, p: int) -> bool
    decreases p,
{
    if p < 0 || p >= t.len() {
        false
    } else if t[p].kind == "interface_body"@ {
        false
    } else if t[p].kind == "object_type"@ {
        match t[p].parent {
            Some(g) => t[g as int].kind != "interface_body"@,
            None => true,
        }
    } else {
        match t[p].parent {
            Some(q) => if q < p {
                inline_from(t, q as int)
            } else {
                false
            },
            None => false,
        }
    }
}

/// A property signature inside an inline object type (a return or
/// parameter type) rather than an interface body.
pub open spec fn inline_type_shape(t: Seq<SyntaxNodeV>, c: int) -> bool {
    match t[c].parent {
        Some(p) => inline_from(t, p as int),
        None => false,
    }
}

/// What child `c` of node `i` contributes on its own, and the parent name
/// under which the walk then descends into it (`None`: no descent).
pub open spec fn ts_own(t: Seq<SyntaxNodeV>, i: int, c: int, parent: Option<Seq<char>>) -> (
    Seq<SymbolV>,
    Option<Option<Seq<char>>>,
) {
    let n = t[c];
    let k = n.kind;
    let exported = t[i].kind == "export_statement"@;
    let name = field_text(t, c, "name"@);
    let bottom: Option<Option<Seq<char>>> = if n.children.len() > 0 && k != "class_declaration"@ {
        Some(parent)
    } else {
        None
    };
    if k == "function_declaration"@ {
        (
            match name {
                Some(nm) => seq![symbol_at(nm, SymbolKind::Function, n, exported, parent)],
                None => Seq::empty(),
            },
            bottom,
        )
    } else if k == "method_definition"@ {
        (
            match name {
                Some(nm) => {
                    let ctor = nm == "constructor"@;
                    let kind = if ctor {
                        SymbolKind::Constructor
                    } else {
                        SymbolKind::Method
                    };
                    seq![symbol_at(nm, kind, n, false, parent)] + if ctor {
                        match field_child(t, c, "parameters"@) {
                            Some(p) => ctor_params(t, p as int, parent),
                            None => Seq::empty(),
                        }
                    } else {
                        Seq::empty()
                    }
                },
                None => Seq::empty(),
            },
            bottom,
        )
    } else if k == "public_field_definition"@ {
        (
            match name {
                Some(nm) => seq![
                    SymbolV {
                        type_annotation: ts_type_annotation(t, c),
                        ..symbol_at(nm, SymbolKind::Property, n, false, parent)
                    },
                ],
                None => Seq::empty(),
            },
            bottom,
        )
    } else if k == "property_signature"@ {
        (
            match name {
                Some(nm) => if !inline_type_shape(t, c) {
                    seq![symbol_at(nm, SymbolKind::Property, n, false, parent)]
                } else {
                    Seq::empty()
                },
                None => Seq::empty(),
            },
            bottom,
        )
    } else if k == "class_declaration"@ {
        match name {
            Some(nm) => (
                seq![class_symbol(t, c, symbol_at(nm, SymbolKind::Class, n, exported, parent))],
                Some(Some(nm)),
            ),
            None => (Seq::empty(), bottom),
        }
    } else if k == "interface_declaration"@ {
        (
            match name {
                Some(nm) => seq![
                    SymbolV {
                        interfaces: interface_extends(t, c),
                        ..symbol_at(nm, SymbolKind::Interface, n, exported, parent)
                    },
                ] + interface_methods(t, c, nm),
                None => Seq::empty(),
            },
            bottom,
        )
    } else if k == "enum_declaration"@ {
        (
            match name {
                Some(nm) => seq![symbol_at(nm, SymbolKind::Enum, n, exported, parent)],
                None => Seq::empty(),
            },
            bottom,
        )
    } else if k == "type_alias_declaration"@ {
        (
            match name {
                Some(nm) => seq![symbol_at(nm, SymbolKind::Type, n, exported, parent)],
                None => Seq::empty(),
            },
            bottom,
        )
    } else if k == "lexical_declaration"@ || k == "variable_declaration"@ {
        (declared_functions(t, c, exported, parent), Some(parent))
    } else if k == "export_statement"@ {
        (Seq::empty(), Some(parent))
    } else {
        (Seq::empty(), bottom)
    }
}

/// Symbols after walking the first `k` children of node `i` (under parent
/// name `parent`), appended to `acc`.
pub open spec fn ts_walk(t: Seq<SyntaxNodeV>, i: int, k: nat, parent: Option<Seq<char>>, acc: Seq<SymbolV>) -> Seq<
    SymbolV,
>
    decreases t.len() - i, k,
{
    if k == 0 || i < 0 || i >= t.len() || k > t[i].children.len() {
        acc
    } else {
        let before = ts_walk(t, i, (k - 1) as nat, parent, acc);
        let c = t[i].children[k - 1] as int;
        if c <= i || c >= t.len() {
            before
        } else {
            let own = ts_own(t, i, c, parent);
            match own.1 {
                Some(p2) => ts_walk(t, c, t[c].children.len(), p2, before + own.0),
                None => before + own.0,
            }
        }
    }
}

/// Symbols of a TypeScript tree, in walk order.
pub open spec fn ts_symbols(t: Seq<SyntaxNodeV>) -> Seq<SymbolV> {
    if t.len() == 0 {
        Seq::empty()
    } else {
        ts_walk(t, 0, t[0].children.len(), None, Seq::empty())
    }
}

} // verus!

verus! {

// ─── Extraction ─────────────────────────────────────────────────────

/// Appends the texts of the children of `x` whose kind is `a` or `b`.
fn push_kind_texts(tree: &SyntaxTree, x: usize, a: &str, b: &str, out: &mut Vec<String>)
    requires
        tree_wf(tree@),
        x < tree@.len(),
    ensures
        final(out).deep_view() == old(out).deep_view() + concat_over(tree@[x as int].children, kind_text_fn(tree@, a@, b@)),
{
    let ghost t = tree@;
    let ghost f = kind_text_fn(t, a@, b@);
    let cs = &tree.node(x).children;
    let ghost base = out.deep_view();
    proof {
        assert(node_wf(t, x as int));
        assert(base + concat_over(cs@.take(0), f) =~= base);
    }
    let mut k: usize = 0;
    while k < cs.len()
        invariant
            t == tree@,
            tree_wf(t),
            x < t.len(),
            node_wf(t, x as int),
            cs@ == t[x as int].children,
            k <= cs@.len(),
            f == kind_text_fn(t, a@, b@),
            out.deep_view() == base + concat_over(cs@.take(k as int), f),
        decreases cs@.len() - k,
    {
        let c = cs[k];
        proof {
            assert(x < cs@[k as int] < t.len());
            lemma_concat_over_step(cs@, f, k as int);
        }
        let ghost before = out.deep_view();
        if tree.kind_is_either(c, a, b) {
            let n = tree.node(c);
            out.push(n.text.clone());
            proof {
                assert(out.deep_view() =~= before + f(c));
            }
        } else {
            proof {
                assert(before + f(c) =~= before);
            }
        }
        proof {
            assert(out.deep_view() =~= base + concat_over(cs@.take(k + 1), f));
        }
        k = k + 1;
    }
    proof {
        lemma_concat_over_all(cs@, f);
    }
}

/// Appends the names of kind `a` or `b` inside the `clause` children of `h`.
fn push_clause_texts(tree: &SyntaxTree, h: usize, clause: &str, a: &str, b: &str, out: &mut Vec<String>)
    requires
        tree_wf(tree@),
        h < tree@.len(),
    ensures
        final(out).deep_view() == old(out).deep_view() + clause_texts(tree@, h as int, clause@, a@, b@),
{
    let ghost t = tree@;
    let ghost f = clause_fn(t, clause@, a@, b@);
    let cs = &tree.node(h).children;
    let ghost base = out.deep_view();
    proof {
        assert(node_wf(t, h as int));
        assert(base + concat_over(cs@.take(0), f) =~= base);
    }
    let mut k: usize = 0;
    while k < cs.len()
        invariant
            t == tree@,
            tree_wf(t),
            h < t.len(),
            node_wf(t, h as int),
            cs@ == t[h as int].children,
            k <= cs@.len(),
            f == clause_fn(t, clause@, a@, b@),
            out.deep_view() == base + concat_over(cs@.take(k as int), f),
        decreases cs@.len() - k,
    {
        let e = cs[k];
        proof {
            assert(h < cs@[k as int] < t.len());
            lemma_concat_over_step(cs@, f, k as int);
        }
        let ghost before = out.deep_view();
        if tree.kind_is(e, clause) {
            push_kind_texts(tree, e, a, b, out);
        } else {
            proof {
                assert(before + f(e) =~= before);
            }
        }
        proof {
            assert(out.deep_view() =~= base + concat_over(cs@.take(k + 1), f));
        }
        k = k + 1;
    }
    proof {
        lemma_concat_over_all(cs@, f);
    }
}

/// Appends the interface names of the children of an `implements` clause.
fn push_implemented_names(tree: &SyntaxTree, e: usize, out: &mut Vec<String>)
    requires
        tree_wf(tree@),
        e < tree@.len(),
    ensures
        final(out).deep_view() == old(out).deep_view() + concat_over(tree@[e as int].children, implemented_fn(tree@)),
{
    let ghost t = tree@;
    let ghost f = implemented_fn(t);
    let cs = &tree.node(e).children;
    let ghost base = out.deep_view();
    proof {
        assert(node_wf(t, e as int));
        assert(base + concat_over(cs@.take(0), f) =~= base);
    }
    let mut k: usize = 0;
    while k < cs.len()
        invariant
            t == tree@,
            tree_wf(t),
            e < t.len(),
            node_wf(t, e as int),
            cs@ == t[e as int].children,
            k <= cs@.len(),
            f == implemented_fn(t),
            out.deep_view() == base + concat_over(cs@.take(k as int), f),
        decreases cs@.len() - k,
    {
        let x = cs[k];
        proof {
            assert(e < cs@[k as int] < t.len());
            lemma_concat_over_step(cs@, f, k as int);
            assert(node_wf(t, x as int));
        }
        let ghost before = out.deep_view();
        let n = tree.node(x);
        if tree.kind_is_either(x, "type_identifier", "identifier") {
            out.push(n.text.clone());
        }
        let ghost mid = out.deep_view();
        if tree.kind_is(x, "generic_type") && n.children.len() > 0 {
            let g = n.children[0];
            proof {
                assert(x < g < t.len());
            }
            out.push(tree.node(g).text.clone());
        }
        proof {
            assert(mid =~= before + text_if_kind(t, x as int, "type_identifier"@, "identifier"@));
            assert(out.deep_view() =~= before + f(x));
            assert(out.deep_view() =~= base + concat_over(cs@.take(k + 1), f));
        }
        k = k + 1;
    }
    proof {
        lemma_concat_over_all(cs@, f);
    }
}

/// Appends the names in the `implements` clauses of a heritage node.
fn push_heritage_implements(tree: &SyntaxTree, h: usize, out: &mut Vec<String>)
    requires
        tree_wf(tree@),
        h < tree@.len(),
    ensures
        final(out).deep_view() == old(out).deep_view() + heritage_implements(tree@, h as int),
{
    let ghost t = tree@;
    let ghost f = implements_fn(t);
    let cs = &tree.node(h).children;
    let ghost base = out.deep_view();
    proof {
        assert(node_wf(t, h as int));
        assert(base + concat_over(cs@.take(0), f) =~= base);
    }
    let mut k: usize = 0;
    while k < cs.len()
        invariant
            t == tree@,
            tree_wf(t),
            h < t.len(),
            node_wf(t, h as int),
            cs@ == t[h as int].children,
            k <= cs@.len(),
            f == implements_fn(t),
            out.deep_view() == base + concat_over(cs@.take(k as int), f),
        decreases cs@.len() - k,
    {
        let e = cs[k];
        proof {
            assert(h < cs@[k as int] < t.len());
            lemma_concat_over_step(cs@, f, k as int);
        }
        let ghost before = out.deep_view();
        if tree.kind_is(e, "implements_clause") {
            push_implemented_names(tree, e, out);
        } else {
            proof {
                assert(before + f(e) =~= before);
            }
        }
        proof {
            assert(out.deep_view() =~= base + concat_over(cs@.take(k + 1), f));
        }
        k = k + 1;
    }
    proof {
        lemma_concat_over_all(cs@, f);
    }
}

/// Appends, per heritage child of class `c`, its extended names (when
/// `extends` is set) or its implemented names.
fn push_class_heritage(tree: &SyntaxTree, c: usize, extends: bool, out: &mut Vec<String>)
    requires
        tree_wf(tree@),
        c < tree@.len(),
    ensures
        final(out).deep_view() == old(out).deep_view() + if extends {
            class_extends(tree@, c as int)
        } else {
            class_implements(tree@, c as int)
        },
{
    let ghost t = tree@;
    let ghost f = if extends {
        heritage_extends_fn(t)
    } else {
        heritage_implements_fn(t)
    };
    let cs = &tree.node(c).children;
    let ghost base = out.deep_view();
    proof {
        assert(node_wf(t, c as int));
        assert(base + concat_over(cs@.take(0), f) =~= base);
    }
    let mut k: usize = 0;
    while k < cs.len()
        invariant
            t == tree@,
            tree_wf(t),
            c < t.len(),
            node_wf(t, c as int),
            cs@ == t[c as int].children,
            k <= cs@.len(),
            f == (if extends {
                heritage_extends_fn(t)
            } else {
                heritage_implements_fn(t)
            }),
            out.deep_view() == base + concat_over(cs@.take(k as int), f),
        decreases cs@.len() - k,
    {
        let h = cs[k];
        proof {
            assert(c < cs@[k as int] < t.len());
            lemma_concat_over_step(cs@, f, k as int);
        }
        let ghost before = out.deep_view();
        if tree.kind_is(h, "class_heritage") {
            if extends {
                push_clause_texts(tree, h, "extends_clause", "identifier", "type_identifier", out);
            } else {
                push_heritage_implements(tree, h, out);
            }
        } else {
            proof {
                assert(before + f(h) =~= before);
            }
        }
        proof {
            assert(out.deep_view() =~= base + concat_over(cs@.take(k + 1), f));
        }
        k = k + 1;
    }
    proof {
        lemma_concat_over_all(cs@, f);
    }
}

/// The simple type name in the `type` field of node `n`.
fn type_annotation(tree: &SyntaxTree, n: usize) -> (r: Option<String>)
    requires
        tree_wf(tree@),
        n < tree@.len(),
    ensures
        r.deep_view() == ts_type_annotation(tree@, n as int),
{
    let ty = match tree.child_by_field(n, "type") {
        Some(ty) => ty,
        None => return None,
    };
    match tree.first_child_of_kinds(ty, "type_identifier", "identifier") {
        Some(x) => Some(tree.node(x).text.clone()),
        None => {
            if tree.kind_is_either(ty, "identifier", "type_identifier") {
                Some(tree.node(ty).text.clone())
            } else {
                None
            }
        },
    }
}

/// The properties declared by the parameters `p` of a constructor.
fn push_ctor_params(tree: &SyntaxTree, p: usize, parent: &Option<String>, out: &mut Vec<Symbol>)
    requires
        tree_wf(tree@),
        p < tree@.len(),
    ensures
        final(out).deep_view() == old(out).deep_view() + ctor_params(tree@, p as int, parent.deep_view()),
{
    let ghost t = tree@;
    let ghost f = ctor_param_fn(t, parent.deep_view());
    let cs = &tree.node(p).children;
    let ghost base = out.deep_view();
    proof {
        assert(node_wf(t, p as int));
        assert(base + concat_over(cs@.take(0), f) =~= base);
    }
    let mut k: usize = 0;
    while k < cs.len()
        invariant
            t == tree@,
            tree_wf(t),
            p < t.len(),
            node_wf(t, p as int),
            cs@ == t[p as int].children,
            k <= cs@.len(),
            f == ctor_param_fn(t, parent.deep_view()),
            out.deep_view() == base + concat_over(cs@.take(k as int), f),
        decreases cs@.len() - k,
    {
        let q = cs[k];
        proof {
            assert(p < cs@[k as int] < t.len());
            lemma_concat_over_step(cs@, f, k as int);
        }
        let ghost before = out.deep_view();
        if tree.kind_is_either(q, "required_parameter", "optional_parameter") && tree.first_child_of_kinds(
            q,
            "accessibility_modifier",
            "readonly",
        ).is_some() {
            let name = match tree.field_text(q, "name") {
                Some(n) => Some(n),
                None => match tree.first_child_of_kinds(q, "identifier", "identifier") {
                    Some(x) => Some(tree.node(x).text.clone()),
                    None => None,
                },
            };
            match name {
                Some(n) => {
                    let mut sym = tree.symbol_at(q, n, SymbolKind::Property, false, clone_opt(parent));
                    sym.type_annotation = type_annotation(tree, q);
                    let ghost sv = sym@;
                    out.push(sym);
                    proof {
                        assert(out.deep_view() =~= before.push(sv));
                        assert(f(q) =~= seq![sv]);
                    }
                },
                None => {
                    proof {
                        assert(before + f(q) =~= before);
                    }
                },
            }
        } else {
            proof {
                assert(before + f(q) =~= before);
            }
        }
        proof {
            assert(out.deep_view() =~= base + concat_over(cs@.take(k + 1), f));
        }
        k = k + 1;
    }
    proof {
        lemma_concat_over_all(cs@, f);
    }
}

/// Appends the method signatures of interface `c` as methods of `iface`.
fn push_interface_methods(tree: &SyntaxTree, c: usize, iface: &String, out: &mut Vec<Symbol>)
    requires
        tree_wf(tree@),
        c < tree@.len(),
    ensures
        final(out).deep_view() == old(out).deep_view() + interface_methods(tree@, c as int, iface@),
{
    let ghost t = tree@;
    let ghost f = body_fn(t, iface@);
    let cs = &tree.node(c).children;
    let ghost base = out.deep_view();
    proof {
        assert(node_wf(t, c as int));
        assert(base + concat_over(cs@.take(0), f) =~= base);
    }
    let mut k: usize = 0;
    while k < cs.len()
        invariant
            t == tree@,
            tree_wf(t),
            c < t.len(),
            node_wf(t, c as int),
            cs@ == t[c as int].children,
            k <= cs@.len(),
            f == body_fn(t, iface@),
            out.deep_view() == base + concat_over(cs@.take(k as int), f),
        decreases cs@.len() - k,
    {
        let b = cs[k];
        proof {
            assert(c < cs@[k as int] < t.len());
            lemma_concat_over_step(cs@, f, k as int);
        }
        let ghost before = out.deep_view();
        if tree.kind_is_either(b, "interface_body", "object_type") {
            let ghost g = member_fn(t, iface@);
            let ms = &tree.node(b).children;
            proof {
                assert(node_wf(t, b as int));
                assert(before + concat_over(ms@.take(0), g) =~= before);
            }
            let mut j: usize = 0;
            while j < ms.len()
                invariant
                    t == tree@,
                    tree_wf(t),
                    b < t.len(),
                    node_wf(t, b as int),
                    ms@ == t[b as int].children,
                    j <= ms@.len(),
                    g == member_fn(t, iface@),
                    out.deep_view() == before + concat_over(ms@.take(j as int), g),
                decreases ms@.len() - j,
            {
                let m = ms[j];
                proof {
                    assert(b < ms@[j as int] < t.len());
                    lemma_concat_over_step(ms@, g, j as int);
                }
                let ghost pre = out.deep_view();
                let mut pushed = false;
                if tree.kind_is(m, "method_signature") {
                    match tree.field_text(m, "name") {
                        Some(n) => {
                            let sym = tree.symbol_at(m, n, SymbolKind::Method, false, Some(iface.clone()));
                            let ghost sv = sym@;
                            out.push(sym);
                            pushed = true;
                            proof {
                                assert(out.deep_view() =~= pre + g(m));
                            }
                        },
                        None => {},
                    }
                }
                if !pushed {
                    proof {
                        assert(pre + g(m) =~= pre);
                    }
                }
                proof {
                    assert(out.deep_view() =~= before + concat_over(ms@.take(j + 1), g));
                }
                j = j + 1;
            }
            proof {
                lemma_concat_over_all(ms@, g);
            }
        } else {
            proof {
                assert(before + f(b) =~= before);
            }
        }
        proof {
            assert(out.deep_view() =~= base + concat_over(cs@.take(k + 1), f));
        }
        k = k + 1;
    }
    proof {
        lemma_concat_over_all(cs@, f);
    }
}

/// Appends the functions bound by the declarators of declaration `c`.
fn push_declared_functions(
    tree: &SyntaxTree,
    c: usize,
    exported: bool,
    parent: &Option<String>,
    out: &mut Vec<Symbol>,
)
    requires
        tree_wf(tree@),
        c < tree@.len(),
    ensures
        final(out).deep_view() == old(out).deep_view() + declared_functions(
            tree@,
            c as int,
            exported,
            parent.deep_view(),
        ),
{
    let ghost t = tree@;
    let ghost f = declared_fn(t, exported, parent.deep_view());
    let cs = &tree.node(c).children;
    let ghost base = out.deep_view();
    proof {
        assert(node_wf(t, c as int));
        assert(base + concat_over(cs@.take(0), f) =~= base);
    }
    let mut k: usize = 0;
    while k < cs.len()
        invariant
            t == tree@,
            tree_wf(t),
            c < t.len(),
            node_wf(t, c as int),
            cs@ == t[c as int].children,
            k <= cs@.len(),
            f == declared_fn(t, exported, parent.deep_view()),
            out.deep_view() == base + concat_over(cs@.take(k as int), f),
        decreases cs@.len() - k,
    {
        let d = cs[k];
        proof {
            assert(c < cs@[k as int] < t.len());
            lemma_concat_over_step(cs@, f, k as int);
        }
        let ghost before = out.deep_view();
        let mut pushed = false;
        if tree.kind_is(d, "variable_declarator") {
            match tree.field_text(d, "name") {
                Some(n) => match tree.child_by_field(d, "value") {
                    Some(v) => {
                        if tree.kind_is_either(v, "arrow_function", "function_expression") {
                            let sym = tree.symbol_at(d, n, SymbolKind::Function, exported, clone_opt(parent));
                            out.push(sym);
                            pushed = true;
                            proof {
                                assert(out.deep_view() =~= before + f(d));
                            }
                        }
                    },
                    None => {},
                },
                None => {},
            }
        }
        if !pushed {
            proof {
                assert(before + f(d) =~= before);
            }
        }
        proof {
            assert(out.deep_view() =~= base + concat_over(cs@.take(k + 1), f));
        }
        k = k + 1;
    }
    proof {
        lemma_concat_over_all(cs@, f);
    }
}

/// Whether a property signature sits in an inline object type.
fn is_inline_type_shape(tree: &SyntaxTree, c: usize) -> (r: bool)
    requires
        tree_wf(tree@),
        c < tree@.len(),
    ensures
        r == inline_type_shape(tree@, c as int),
{
    let ghost t = tree@;
    proof {
        assert(node_wf(t, c as int));
    }
    let mut current = tree.node(c).parent;
    loop
        invariant
            t == tree@,
            tree_wf(t),
            current matches Some(p) ==> p < t.len(),
            inline_type_shape(t, c as int) == match current {
                Some(p) => inline_from(t, p as int),
                None => false,
            },
        decreases match current {
            Some(p) => p + 1,
            None => 0,
        },
    {
        let p = match current {
            Some(p) => p,
            None => return false,
        };
        proof {
            assert(node_wf(t, p as int));
        }
        if tree.kind_is(p, "interface_body") {
            return false;
        }
        if tree.kind_is(p, "object_type") {
            return match tree.node(p).parent {
                Some(g) => {
                    proof {
                        assert(g < p);
                    }
                    !tree.kind_is(g, "interface_body")
                },
                None => true,
            };
        }
        current = tree.node(p).parent;
    }
}

} // verus!

verus! {

/// What child `c` of node `i` contributes on its own, and how the walk
/// descends into it.
fn ts_child(tree: &SyntaxTree, i: usize, c: usize, parent: &Option<String>) -> (r: (Vec<Symbol>, Option<Option<String>>))
    requires
        tree_wf(tree@),
        i < c < tree@.len(),
    ensures
        r.0.deep_view() == ts_own(tree@, i as int, c as int, parent.deep_view()).0,
        r.1.deep_view() == ts_own(tree@, i as int, c as int, parent.deep_view()).1,
{
    let ghost t = tree@;
    let ghost spec = ts_own(t, i as int, c as int, parent.deep_view());
    let exported = tree.kind_is(i, "export_statement");
    let n = tree.node(c);
    let name = tree.field_text(c, "name");
    let bottom: Option<Option<String>> = if n.children.len() > 0 && !tree.kind_is(c, "class_declaration") {
        Some(clone_opt(parent))
    } else {
        None
    };
    let mut own: Vec<Symbol> = Vec::new();
    if tree.kind_is(c, "function_declaration") {
        if let Some(nm) = name {
            own.push(tree.symbol_at(c, nm, SymbolKind::Function, exported, clone_opt(parent)));
        }
        proof {
            assert(own.deep_view() =~= spec.0);
        }
        (own, bottom)
    } else if tree.kind_is(c, "method_definition") {
        if let Some(nm) = name {
            let ctor = str_eq(nm.as_str(), "constructor");
            let kind = if ctor {
                SymbolKind::Constructor
            } else {
                SymbolKind::Method
            };
            own.push(tree.symbol_at(c, nm, kind, false, clone_opt(parent)));
            let ghost first = own.deep_view();
            if ctor {
                match tree.child_by_field(c, "parameters") {
                    Some(p) => push_ctor_params(tree, p, parent, &mut own),
                    None => {},
                }
            }
            proof {
                assert(own.deep_view() =~= spec.0);
            }
        } else {
            proof {
                assert(own.deep_view() =~= spec.0);
            }
        }
        (own, bottom)
    } else if tree.kind_is(c, "public_field_definition") {
        if let Some(nm) = name {
            let mut sym = tree.symbol_at(c, nm, SymbolKind::Property, false, clone_opt(parent));
            sym.type_annotation = type_annotation(tree, c);
            own.push(sym);
        }
        proof {
            assert(own.deep_view() =~= spec.0);
        }
        (own, bottom)
    } else if tree.kind_is(c, "property_signature") {
        if let Some(nm) = name {
            if !is_inline_type_shape(tree, c) {
                own.push(tree.symbol_at(c, nm, SymbolKind::Property, false, clone_opt(parent)));
            }
        }
        proof {
            assert(own.deep_view() =~= spec.0);
        }
        (own, bottom)
    } else if tree.kind_is(c, "class_declaration") {
        match name {
            Some(nm) => {
                let mut sym = tree.symbol_at(c, nm.clone(), SymbolKind::Class, exported, clone_opt(parent));
                let mut ext: Vec<String> = Vec::new();
                push_class_heritage(tree, c, true, &mut ext);
                let mut imp: Vec<String> = Vec::new();
                push_class_heritage(tree, c, false, &mut imp);
                proof {
                    assert(ext.deep_view() =~= class_extends(t, c as int));
                    assert(imp.deep_view() =~= class_implements(t, c as int));
                }
                if ext.len() > 0 {
                    sym.superclass = Some(ext[ext.len() - 1].clone());
                }
                let ghost before = sym.interfaces.deep_view();
                let ghost iv = imp.deep_view();
                sym.interfaces.append(&mut imp);
                proof {
                    assert(sym.interfaces.deep_view() =~= before + iv);
                }
                own.push(sym);
                proof {
                    assert(own.deep_view() =~= spec.0);
                }
                (own, Some(Some(nm)))
            },
            None => {
                proof {
                    assert(own.deep_view() =~= spec.0);
                }
                (own, bottom)
            },
        }
    } else if tree.kind_is(c, "interface_declaration") {
        if let Some(nm) = name {
            let mut sym = tree.symbol_at(c, nm.clone(), SymbolKind::Interface, exported, clone_opt(parent));
            let mut ext: Vec<String> = Vec::new();
            push_clause_texts(tree, c, "extends_type_clause", "type_identifier", "identifier", &mut ext);
            sym.interfaces = ext;
            own.push(sym);
            push_interface_methods(tree, c, &nm, &mut own);
        }
        proof {
            assert(own.deep_view() =~= spec.0);
        }
        (own, bottom)
    } else if tree.kind_is(c, "enum_declaration") {
        if let Some(nm) = name {
            own.push(tree.symbol_at(c, nm, SymbolKind::Enum, exported, clone_opt(parent)));
        }
        proof {
            assert(own.deep_view() =~= spec.0);
        }
        (own, bottom)
    } else if tree.kind_is(c, "type_alias_declaration") {
        if let Some(nm) = name {
            own.push(tree.symbol_at(c, nm, SymbolKind::Type, exported, clone_opt(parent)));
        }
        proof {
            assert(own.deep_view() =~= spec.0);
        }
        (own, bottom)
    } else if tree.kind_is_either(c, "lexical_declaration", "variable_declaration") {
        push_declared_functions(tree, c, exported, parent, &mut own);
        proof {
            assert(own.deep_view() =~= spec.0);
        }
        (own, Some(clone_opt(parent)))
    } else if tree.kind_is(c, "export_statement") {
        proof {
            assert(own.deep_view() =~= spec.0);
        }
        (own, Some(clone_opt(parent)))
    } else {
        proof {
            assert(own.deep_view() =~= spec.0);
        }
        (own, bottom)
    }
}

/// Walks the children of node `i`, appending their symbols.
fn ts_walk_node(tree: &SyntaxTree, i: usize, parent: Option<String>, symbols: &mut Vec<Symbol>)
    requires
        tree_wf(tree@),
        i < tree@.len(),
    ensures
        final(symbols).deep_view() == ts_walk(
            tree@,
            i as int,
            tree@[i as int].children.len(),
            parent.deep_view(),
            old(symbols).deep_view(),
        ),
    decreases tree@.len() - i,
{
    let ghost t = tree@;
    let ghost start = symbols.deep_view();
    let cs = &tree.node(i).children;
    proof {
        assert(node_wf(t, i as int));
    }
    let mut k: usize = 0;
    while k < cs.len()
        invariant
            t == tree@,
            tree_wf(t),
            i < t.len(),
            node_wf(t, i as int),
            cs@ == t[i as int].children,
            k <= cs@.len(),
            symbols.deep_view() == ts_walk(t, i as int, k as nat, parent.deep_view(), start),
        decreases cs@.len() - k,
    {
        let c = cs[k];
        proof {
            assert(i < cs@[k as int] < t.len());
        }
        let (mut own, descent) = ts_child(tree, i, c, &parent);
        let ghost before = symbols.deep_view();
        let ghost ov = own.deep_view();
        symbols.append(&mut own);
        proof {
            assert(symbols.deep_view() =~= before + ov);
        }
        match descent {
            Some(p2) => ts_walk_node(tree, c, p2, symbols),
            None => {},
        }
        k = k + 1;
    }
}

/// Symbols of a TypeScript syntax tree, in walk order.
pub fn extract_typescript(tree: &SyntaxTree) -> (r: Vec<Symbol>)
    requires
        tree_wf(tree@),
    ensures
        r.deep_view() == ts_symbols(tree@),
{
    let mut symbols: Vec<Symbol> = Vec::new();
    if tree.nodes.len() == 0 {
        proof {
            assert(symbols.deep_view() =~= Seq::<SymbolV>::empty());
        }
        return symbols;
    }
    proof {
        assert(symbols.deep_view() =~= Seq::<SymbolV>::empty());
    }
    ts_walk_node(tree, 0, None, &mut symbols);
    symbols
}

} // verus!
