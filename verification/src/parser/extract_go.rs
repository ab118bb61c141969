//! Symbol extraction for Go syntax trees: functions, methods with their
//! receiver type and parameter count, and type declarations (structs with
//! their fields, interfaces with their methods, other named types).
//! Exported means starting with an upper-case letter.

use vstd::prelude::*;
use crate::parser::extract::{Symbol, SymbolKind, SymbolV};
use crate::parser::syntax::{
    concat_over, field_child, field_text, first_is_upper, first_of_kinds, lemma_concat_over_all,
    lemma_concat_over_step, node_wf, starts_upper, strip_leading, symbol_at, trim_start_char, tree_wf,
    SyntaxNodeV, SyntaxTree,
};

verus! {

// ─── Specification ──────────────────────────────────────────────────

/// The sum of `f(c)` over the nodes `cs`.
pub open spec fn sum_over(cs: Seq<usize>, f: spec_fn(usize) -> nat) -> nat
    decreases cs.len(),
{
    if cs.len() == 0 {
        0
    } else {
        sum_over(cs.drop_last(), f) + f(cs.last())
    }
}

proof fn lemma_sum_over_step(cs: Seq<usize>, f: spec_fn(usize) -> nat, k: int)
    requires
        0 <= k < cs.len(),
    ensures
        sum_over(cs.take(k + 1), f) == sum_over(cs.take(k), f) + f(cs[k]),
{
    assert(cs.take(k + 1).drop_last() =~= cs.take(k));
    assert(cs.take(k + 1).last() == cs[k]);
}

/// `n`, or the largest `usize` when `n` exceeds it.
pub open spec fn capped(n: nat) -> usize {
    if n > usize::MAX {
        usize::MAX
    } else {
        n as usize
    }
}

/// One for an identifier node.
pub open spec fn ident_fn(t: Seq<SyntaxNodeV>) -> spec_fn(usize) -> nat {
    |y: usize|
        if t[y as int].kind == "identifier"@ {
            1nat
        } else {
            0nat
        }
}

/// The number of parameters a parameter-list child stands for: the names of
/// a declaration (at least one), one for a variadic declaration.
pub open spec fn param_fn(t: Seq<SyntaxNodeV>) -> spec_fn(usize) -> nat {
    |y: usize|
        if t[y as int].kind == "parameter_declaration"@ {
            let ids = sum_over(t[y as int].children, ident_fn(t));
            if ids > 1 {
                ids
            } else {
                1nat
            }
        } else if t[y as int].kind == "variadic_parameter_declaration"@ {
            1nat
        } else {
            0nat
        }
}

/// The number of parameters of parameter list `p`.
pub open spec fn params_in(t: Seq<SyntaxNodeV>, p: int) -> usize {
    capped(sum_over(t[p].children, param_fn(t)))
}

/// The receiver type of method `m`, without pointer stars.
pub open spec fn go_receiver(t: Seq<SyntaxNodeV>, m: int) -> Option<Seq<char>> {
    match field_child(t, m, "receiver"@) {
        Some(r) => match first_of_kinds(t, t[r as int].children, "parameter_declaration"@, "parameter_declaration"@) {
            Some(p) => match field_text(t, p as int, "type"@) {
                Some(x) => Some(strip_leading(x, '*')),
                None => None,
            },
            None => None,
        },
        None => None,
    }
}

/// The method declared by an element of an interface type.
pub open spec fn go_iface_member(t: Seq<SyntaxNodeV>, x: int, iface: Seq<char>) -> Seq<SymbolV> {
    if t[x].kind == "method_elem"@ && t[x].children.len() > 0 && t[t[x].children[0] as int].kind
        == "field_identifier"@ {
        let name = t[t[x].children[0] as int].text;
        seq![
            SymbolV {
                param_count: match first_of_kinds(t, t[x].children, "parameter_list"@, "parameter_list"@) {
                    Some(pl) => Some(params_in(t, pl as int)),
                    None => None,
                },
                ..symbol_at(name, SymbolKind::Method, t[x], starts_upper(name), Some(iface))
            },
        ]
    } else {
        Seq::empty()
    }
}

/// Each element's interface method.
pub open spec fn go_member_fn(t: Seq<SyntaxNodeV>, iface: Seq<char>) -> spec_fn(usize) -> Seq<SymbolV> {
    |x: usize| go_iface_member(t, x as int, iface)
}

/// The field declared by a node of a field declaration list.
pub open spec fn go_field(t: Seq<SyntaxNodeV>, f: int, sname: Seq<char>) -> Seq<SymbolV> {
    if t[f].kind == "field_declaration"@ {
        match field_text(t, f, "name"@) {
            Some(n) => seq![symbol_at(n, SymbolKind::Property, t[f], starts_upper(n), Some(sname))],
            None => Seq::empty(),
        }
    } else {
        Seq::empty()
    }
}

/// Each node's struct field.
pub open spec fn go_field_fn(t: Seq<SyntaxNodeV>, sname: Seq<char>) -> spec_fn(usize) -> Seq<SymbolV> {
    |f: usize| go_field(t, f as int, sname)
}

/// For a field declaration list, its fields.
pub open spec fn go_field_list_fn(t: Seq<SyntaxNodeV>, sname: Seq<char>) -> spec_fn(usize) -> Seq<SymbolV> {
    |l: usize|
        if t[l as int].kind == "field_declaration_list"@ {
            concat_over(t[l as int].children, go_field_fn(t, sname))
        } else {
            Seq::empty()
        }
}

/// The symbols of a type spec: the named type, then its struct fields or
/// interface methods.
pub open spec fn go_type_spec(t: Seq<SyntaxNodeV>, s: int) -> Seq<SymbolV> {
    if t[s].kind == "type_spec"@ {
        match field_text(t, s, "name"@) {
            Some(nm) => {
                let ty = field_child(t, s, "type"@);
                let kind = match ty {
                    Some(tn) => if t[tn as int].kind == "struct_type"@ {
                        SymbolKind::Struct
                    } else if t[tn as int].kind == "interface_type"@ {
                        SymbolKind::Interface
                    } else {
                        SymbolKind::Type
                    },
                    None => SymbolKind::Type,
                };
                seq![symbol_at(nm, kind, t[s], starts_upper(nm), None)] + match ty {
                    Some(tn) => if t[tn as int].kind == "struct_type"@ {
                        concat_over(t[tn as int].children, go_field_list_fn(t, nm))
                    } else if t[tn as int].kind == "interface_type"@ {
                        concat_over(t[tn as int].children, go_member_fn(t, nm))
                    } else {
                        Seq::empty()
                    },
                    None => Seq::empty(),
                }
            },
            None => Seq::empty(),
        }
    } else {
        Seq::empty()
    }
}

/// Each child's type-spec symbols.
pub open spec fn go_spec_fn(t: Seq<SyntaxNodeV>) -> spec_fn(usize) -> Seq<SymbolV> {
    |s: usize| go_type_spec(t, s as int)
}

/// What child `c` contributes on its own, and whether the walk descends
/// into it.
pub open spec fn go_own(t: Seq<SyntaxNodeV>, c: int) -> (Seq<SymbolV>, bool) {
    let n = t[c];
    let k = n.kind;
    let name = field_text(t, c, "name"@);
    if k == "function_declaration"@ {
        (
            match name {
                Some(nm) => seq![symbol_at(nm, SymbolKind::Function, n, starts_upper(nm), None)],
                None => Seq::empty(),
            },
            false,
        )
    } else if k == "method_declaration"@ {
        (
            match name {
                Some(nm) => seq![
                    SymbolV {
                        param_count: match field_child(t, c, "parameters"@) {
                            Some(p) => Some(params_in(t, p as int)),
                            None => None,
                        },
                        ..symbol_at(nm, SymbolKind::Method, n, starts_upper(nm), go_receiver(t, c))
                    },
                ],
                None => Seq::empty(),
            },
            false,
        )
    } else if k == "type_declaration"@ {
        (concat_over(n.children, go_spec_fn(t)), false)
    } else {
        (Seq::empty(), true)
    }
}

/// Symbols after walking the first `k` children of node `i`, appended to `acc`.
pub open spec fn go_walk(t: Seq<SyntaxNodeV>, i: int, k: nat, acc: Seq<SymbolV>) -> Seq<SymbolV>
    decreases t.len() - i, k,
{
    if k == 0 || i < 0 || i >= t.len() || k > t[i].children.len() {
        acc
    } else {
        let before = go_walk(t, i, (k - 1) as nat, acc);
        let c = t[i].children[k - 1] as int;
        if c <= i || c >= t.len() {
            before
        } else {
            let own = go_own(t, c);
            if own.1 {
                go_walk(t, c, t[c].children.len(), before + own.0)
            } else {
                before + own.0
            }
        }
    }
}

/// Symbols of a Go tree, in walk order.
pub open spec fn go_symbols(t: Seq<SyntaxNodeV>) -> Seq<SymbolV> {
    if t.len() == 0 {
        Seq::empty()
    } else {
        go_walk(t, 0, t[0].children.len(), Seq::empty())
    }
}

// ─── Extraction ─────────────────────────────────────────────────────

/// The number of identifier children of node `y`.
fn count_identifiers(tree: &SyntaxTree, y: usize) -> (r: usize)
    requires
        tree_wf(tree@),
        y < tree@.len(),
    ensures
        r == sum_over(tree@[y as int].children, ident_fn(tree@)),
{
    let ghost t = tree@;
    let ghost f = ident_fn(t);
    let cs = &tree.node(y).children;
    proof {
        assert(node_wf(t, y as int));
        assert(cs@.take(0) =~= Seq::<usize>::empty());
    }
    let mut n: usize = 0;
    let mut k: usize = 0;
    while k < cs.len()
        invariant
            t == tree@,
            tree_wf(t),
            y < t.len(),
            node_wf(t, y as int),
            cs@ == t[y as int].children,
            k <= cs@.len(),
            f == ident_fn(t),
            n == sum_over(cs@.take(k as int), f),
            n <= k,
        decreases cs@.len() - k,
    {
        let x = cs[k];
        proof {
            assert(y < cs@[k as int] < t.len());
            lemma_sum_over_step(cs@, f, k as int);
        }
        if tree.kind_is(x, "identifier") {
            n = n + 1;
        }
        k = k + 1;
    }
    proof {
        assert(cs@.take(cs@.len() as int) =~= cs@);
    }
    n
}

/// The number of parameters of parameter list `p` (`count_actual_params`).
fn count_actual_params(tree: &SyntaxTree, p: usize) -> (r: usize)
    requires
        tree_wf(tree@),
        p < tree@.len(),
    ensures
        r == params_in(tree@, p as int),
{
    let ghost t = tree@;
    let ghost f = param_fn(t);
    let cs = &tree.node(p).children;
    proof {
        assert(node_wf(t, p as int));
        assert(cs@.take(0) =~= Seq::<usize>::empty());
    }
    let mut n: usize = 0;
    let mut k: usize = 0;
    while k < cs.len()
        invariant
            t == tree@,
            tree_wf(t),
            p < t.len(),
            node_wf(t, p as int),
            cs@ == t[p as int].children,
            k <= cs@.len(),
            f == param_fn(t),
            n == capped(sum_over(cs@.take(k as int), f)),
        decreases cs@.len() - k,
    {
        let y = cs[k];
        proof {
            assert(p < cs@[k as int] < t.len());
            lemma_sum_over_step(cs@, f, k as int);
        }
        let add: usize = if tree.kind_is(y, "parameter_declaration") {
            let ids = count_identifiers(tree, y);
            if ids > 1 {
                ids
            } else {
                1
            }
        } else if tree.kind_is(y, "variadic_parameter_declaration") {
            1
        } else {
            0
        };
        proof {
            assert(add == f(y));
        }
        n = n.saturating_add(add);
        k = k + 1;
    }
    proof {
        assert(cs@.take(cs@.len() as int) =~= cs@);
    }
    n
}

/// The receiver type of method `m`, without pointer stars.
fn receiver_of(tree: &SyntaxTree, m: usize) -> (r: Option<String>)
    requires
        tree_wf(tree@),
        m < tree@.len(),
    ensures
        r.deep_view() == go_receiver(tree@, m as int),
{
    let rc = match tree.child_by_field(m, "receiver") {
        Some(rc) => rc,
        None => return None,
    };
    let p = match tree.first_child_of_kinds(rc, "parameter_declaration", "parameter_declaration") {
        Some(p) => p,
        None => return None,
    };
    match tree.field_text(p, "type") {
        Some(x) => Some(trim_start_char(x.as_str(), '*')),
        None => None,
    }
}

/// Appends the methods of interface type `tn`.
fn push_iface_methods(tree: &SyntaxTree, tn: usize, iface: &String, out: &mut Vec<Symbol>)
    requires
        tree_wf(tree@),
        tn < tree@.len(),
    ensures
        final(out).deep_view() == old(out).deep_view() + concat_over(tree@[tn as int].children, go_member_fn(tree@, iface@)),
{
    let ghost t = tree@;
    let ghost f = go_member_fn(t, iface@);
    let cs = &tree.node(tn).children;
    let ghost base = out.deep_view();
    proof {
        assert(node_wf(t, tn as int));
        assert(base + concat_over(cs@.take(0), f) =~= base);
    }
    let mut k: usize = 0;
    while k < cs.len()
        invariant
            t == tree@,
            tree_wf(t),
            tn < t.len(),
            node_wf(t, tn as int),
            cs@ == t[tn as int].children,
            k <= cs@.len(),
            f == go_member_fn(t, iface@),
            out.deep_view() == base + concat_over(cs@.take(k as int), f),
        decreases cs@.len() - k,
    {
        let x = cs[k];
        proof {
            assert(tn < cs@[k as int] < t.len());
            lemma_concat_over_step(cs@, f, k as int);
            assert(node_wf(t, x as int));
        }
        let ghost before = out.deep_view();
        let n = tree.node(x);
        let mut pushed = false;
        if tree.kind_is(x, "method_elem") && n.children.len() > 0 {
            let first = n.children[0];
            proof {
                assert(x < first < t.len());
            }
            if tree.kind_is(first, "field_identifier") {
                let name = tree.node(first).text.clone();
                let exported = first_is_upper(name.as_str());
                let mut sym = tree.symbol_at(x, name, SymbolKind::Method, exported, Some(iface.clone()));
                sym.param_count = match tree.first_child_of_kinds(x, "parameter_list", "parameter_list") {
                    Some(pl) => Some(count_actual_params(tree, pl)),
                    None => None,
                };
                out.push(sym);
                pushed = true;
                proof {
                    assert(out.deep_view() =~= before + f(x));
                }
            }
        }
        if !pushed {
            proof {
                assert(before + f(x) =~= before);
            }
        }
        proof {
            assert(out.deep_view() =~= base + concat_over(cs@.take(k + 1), f));
        }
        k = k + 1;
    }
    proof {
        lemma_concat_over_all(cs@, f);
    }
}

/// Appends the fields of struct type `tn`.
fn push_struct_fields(tree: &SyntaxTree, tn: usize, sname: &String, out: &mut Vec<Symbol>)
    requires
        tree_wf(tree@),
        tn < tree@.len(),
    ensures
        final(out).deep_view() == old(out).deep_view() + concat_over(
            tree@[tn as int].children,
            go_field_list_fn(tree@, sname@),
        ),
{
    let ghost t = tree@;
    let ghost f = go_field_list_fn(t, sname@);
    let cs = &tree.node(tn).children;
    let ghost base = out.deep_view();
    proof {
        assert(node_wf(t, tn as int));
        assert(base + concat_over(cs@.take(0), f) =~= base);
    }
    let mut k: usize = 0;
    while k < cs.len()
        invariant
            t == tree@,
            tree_wf(t),
            tn < t.len(),
            node_wf(t, tn as int),
            cs@ == t[tn as int].children,
            k <= cs@.len(),
            f == go_field_list_fn(t, sname@),
            out.deep_view() == base + concat_over(cs@.take(k as int), f),
        decreases cs@.len() - k,
    {
        let l = cs[k];
        proof {
            assert(tn < cs@[k as int] < t.len());
            lemma_concat_over_step(cs@, f, k as int);
        }
        let ghost before = out.deep_view();
        if tree.kind_is(l, "field_declaration_list") {
            let ghost g = go_field_fn(t, sname@);
            let fs = &tree.node(l).children;
            proof {
                assert(node_wf(t, l as int));
                assert(before + concat_over(fs@.take(0), g) =~= before);
            }
            let mut j: usize = 0;
            while j < fs.len()
                invariant
                    t == tree@,
                    tree_wf(t),
                    l < t.len(),
                    node_wf(t, l as int),
                    fs@ == t[l as int].children,
                    j <= fs@.len(),
                    g == go_field_fn(t, sname@),
                    out.deep_view() == before + concat_over(fs@.take(j as int), g),
                decreases fs@.len() - j,
            {
                let fd = fs[j];
                proof {
                    assert(l < fs@[j as int] < t.len());
                    lemma_concat_over_step(fs@, g, j as int);
                }
                let ghost pre = out.deep_view();
                let mut pushed = false;
                if tree.kind_is(fd, "field_declaration") {
                    match tree.field_text(fd, "name") {
                        Some(n) => {
                            let exported = first_is_upper(n.as_str());
                            out.push(tree.symbol_at(fd, n, SymbolKind::Property, exported, Some(sname.clone())));
                            pushed = true;
                            proof {
                                assert(out.deep_view() =~= pre + g(fd));
                            }
                        },
                        None => {},
                    }
                }
                if !pushed {
                    proof {
                        assert(pre + g(fd) =~= pre);
                    }
                }
                proof {
                    assert(out.deep_view() =~= before + concat_over(fs@.take(j + 1), g));
                }
                j = j + 1;
            }
            proof {
                lemma_concat_over_all(fs@, g);
            }
        } else {
            proof {
                assert(before + f(l) =~= before);
            }
        }
        proof {
            assert(out.deep_view() =~= base + concat_over(cs@.take(k + 1), f));
        }
        k = k + 1;
    }
    proof {
        lemma_concat_over_all(cs@, f);
    }
}

/// Appends the symbols of the type specs of type declaration `c`.
fn push_type_specs(tree: &SyntaxTree, c: usize, out: &mut Vec<Symbol>)
    requires
        tree_wf(tree@),
        c < tree@.len(),
    ensures
        final(out).deep_view() == old(out).deep_view() + concat_over(tree@[c as int].children, go_spec_fn(tree@)),
{
    let ghost t = tree@;
    let ghost f = go_spec_fn(t);
    let cs = &tree.node(c).children;
    let ghost base = out.deep_view();
    proof {
        assert(node_wf(t, c as int));
        assert(base + concat_over(cs@.take(0), f) =~= base);
    }
    let mut k: usize = 0;
    while k < cs.len()
        invariant
            t == tree@,
            tree_wf(t),
            c < t.len(),
            node_wf(t, c as int),
            cs@ == t[c as int].children,
            k <= cs@.len(),
            f == go_spec_fn(t),
            out.deep_view() == base + concat_over(cs@.take(k as int), f),
        decreases cs@.len() - k,
    {
        let s = cs[k];
        proof {
            assert(c < cs@[k as int] < t.len());
            lemma_concat_over_step(cs@, f, k as int);
        }
        let ghost before = out.deep_view();
        let mut pushed = false;
        if tree.kind_is(s, "type_spec") {
            match tree.field_text(s, "name") {
                Some(nm) => {
                    let exported = first_is_upper(nm.as_str());
                    let ty = tree.child_by_field(s, "type");
                    let kind = match ty {
                        Some(tn) => if tree.kind_is(tn, "struct_type") {
                            SymbolKind::Struct
                        } else if tree.kind_is(tn, "interface_type") {
                            SymbolKind::Interface
                        } else {
                            SymbolKind::Type
                        },
                        None => SymbolKind::Type,
                    };
                    let sym = tree.symbol_at(s, nm.clone(), kind, exported, None);
                    let ghost sv = sym@;
                    out.push(sym);
                    let ghost mid = out.deep_view();
                    match ty {
                        Some(tn) => {
                            if tree.kind_is(tn, "struct_type") {
                                push_struct_fields(tree, tn, &nm, out);
                            } else if tree.kind_is(tn, "interface_type") {
                                push_iface_methods(tree, tn, &nm, out);
                            }
                        },
                        None => {},
                    }
                    pushed = true;
                    proof {
                        assert(mid =~= before.push(sv));
                        assert(out.deep_view() =~= before + f(s));
                    }
                },
                None => {},
            }
        }
        if !pushed {
            proof {
                assert(before + f(s) =~= before);
            }
        }
        proof {
            assert(out.deep_view() =~= base + concat_over(cs@.take(k + 1), f));
        }
        k = k + 1;
    }
    proof {
        lemma_concat_over_all(cs@, f);
    }
}

/// What child `c` contributes on its own, and whether the walk descends.
fn go_child(tree: &SyntaxTree, c: usize) -> (r: (Vec<Symbol>, bool))
    requires
        tree_wf(tree@),
        c < tree@.len(),
    ensures
        r.0.deep_view() == go_own(tree@, c as int).0,
        r.1 == go_own(tree@, c as int).1,
{
    let ghost spec = go_own(tree@, c as int);
    let mut own: Vec<Symbol> = Vec::new();
    if tree.kind_is(c, "function_declaration") {
        if let Some(nm) = tree.field_text(c, "name") {
            let exported = first_is_upper(nm.as_str());
            own.push(tree.symbol_at(c, nm, SymbolKind::Function, exported, None));
        }
        proof {
            assert(own.deep_view() =~= spec.0);
        }
        (own, false)
    } else if tree.kind_is(c, "method_declaration") {
        if let Some(nm) = tree.field_text(c, "name") {
            let exported = first_is_upper(nm.as_str());
            let parent = receiver_of(tree, c);
            let mut sym = tree.symbol_at(c, nm, SymbolKind::Method, exported, parent);
            sym.param_count = match tree.child_by_field(c, "parameters") {
                Some(p) => Some(count_actual_params(tree, p)),
                None => None,
            };
            own.push(sym);
        }
        proof {
            assert(own.deep_view() =~= spec.0);
        }
        (own, false)
    } else if tree.kind_is(c, "type_declaration") {
        proof {
            assert(own.deep_view() =~= Seq::<SymbolV>::empty());
        }
        push_type_specs(tree, c, &mut own);
        proof {
            assert(own.deep_view() =~= spec.0);
        }
        (own, false)
    } else {
        proof {
            assert(own.deep_view() =~= spec.0);
        }
        (own, true)
    }
}

/// Walks the children of node `i`, appending their symbols.
fn go_walk_node(tree: &SyntaxTree, i: usize, symbols: &mut Vec<Symbol>)
    requires
        tree_wf(tree@),
        i < tree@.len(),
    ensures
        final(symbols).deep_view() == go_walk(tree@, i as int, tree@[i as int].children.len(), old(symbols).deep_view()),
    decreases tree@.len() - i,
{
    let ghost t = tree@;
    let ghost start = symbols.deep_view();
    let cs = &tree.node(i).children;
    proof {
        assert(node_wf(t, i as int));
    }
    let mut k: usize = 0;
    while k < cs.len()
        invariant
            t == tree@,
            tree_wf(t),
            i < t.len(),
            node_wf(t, i as int),
            cs@ == t[i as int].children,
            k <= cs@.len(),
            symbols.deep_view() == go_walk(t, i as int, k as nat, start),
        decreases cs@.len() - k,
    {
        let c = cs[k];
        proof {
            assert(i < cs@[k as int] < t.len());
        }
        let (mut own, descend) = go_child(tree, c);
        let ghost before = symbols.deep_view();
        let ghost ov = own.deep_view();
        symbols.append(&mut own);
        proof {
            assert(symbols.deep_view() =~= before + ov);
        }
        if descend {
            go_walk_node(tree, c, symbols);
        }
        k = k + 1;
    }
}

/// Symbols of a Go syntax tree, in walk order.
pub fn extract_go(tree: &SyntaxTree) -> (r: Vec<Symbol>)
    requires
        tree_wf(tree@),
    ensures
        r.deep_view() == go_symbols(tree@),
{
    let mut symbols: Vec<Symbol> = Vec::new();
    proof {
        assert(symbols.deep_view() =~= Seq::<SymbolV>::empty());
    }
    if tree.nodes.len() == 0 {
        return symbols;
    }
    go_walk_node(tree, 0, &mut symbols);
    symbols
}

} // verus!
