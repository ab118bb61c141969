//! Symbol extraction for Ruby syntax trees: classes with their superclass,
//! modules, methods and constructors, attribute properties, mixins recorded
//! as implemented interfaces of the enclosing class or module, and constant
//! references and assignments.

use vstd::prelude::*;
use crate::parser::extract::{clone_opt, Symbol, SymbolKind, SymbolV};
use crate::parser::syntax::{
    concat_over, field_text, lemma_concat_over_all, lemma_concat_over_step, node_wf, starts_upper, strip_leading,
    first_is_upper, symbol_at, trim_start_char, tree_wf, SyntaxNodeV, SyntaxTree,
};
use crate::parser::syntax::field_child;
use crate::text::{str_eq, string_of, trim, trimmed};

verus! {

// ─── Specification ──────────────────────────────────────────────────

/// The superclass named by a `superclass` node's text (`< Base`), if any.
pub open spec fn superclass_name(text: Seq<char>) -> Option<Seq<char>> {
    let s = trimmed(strip_leading(text, '<'));
    if s.len() > 0 {
        Some(s)
    } else {
        None
    }
}

/// The superclass of class node `c`.
pub open spec fn class_superclass(t: Seq<SyntaxNodeV>, c: int) -> Option<Seq<char>> {
    match field_text(t, c, "superclass"@) {
        Some(x) => superclass_name(x),
        None => None,
    }
}

/// An attribute declared by argument node `a` (`:name`).
pub open spec fn attr_property(t: Seq<SyntaxNodeV>, a: int, parent: Option<Seq<char>>) -> Seq<SymbolV> {
    let name = strip_leading(t[a].text, ':');
    if t[a].kind == "simple_symbol"@ && name.len() > 0 {
        seq![symbol_at(name, SymbolKind::Property, t[a], true, parent)]
    } else {
        Seq::empty()
    }
}

/// Each argument's attribute property.
pub open spec fn attr_fn(t: Seq<SyntaxNodeV>, parent: Option<Seq<char>>) -> spec_fn(usize) -> Seq<SymbolV> {
    |a: usize| attr_property(t, a as int, parent)
}

/// A mixed-in module named by argument node `a`.
pub open spec fn mixin_name(t: Seq<SyntaxNodeV>, a: int) -> Seq<Seq<char>> {
    if (t[a].kind == "constant"@ || t[a].kind == "scope_resolution"@) && t[a].text.len() > 0 {
        seq![t[a].text]
    } else {
        Seq::empty()
    }
}

/// Each argument's mixed-in module.
pub open spec fn mixin_fn(t: Seq<SyntaxNodeV>) -> spec_fn(usize) -> Seq<Seq<char>> {
    |a: usize| mixin_name(t, a as int)
}

/// The last class or module symbol named `p`.
pub open spec fn last_owner(s: Seq<SymbolV>, p: Seq<char>) -> Option<int>
    decreases s.len(),
{
    if s.len() == 0 {
        None
    } else if s.last().name == p && (s.last().kind == SymbolKind::Class || s.last().kind == SymbolKind::Module) {
        Some(s.len() - 1)
    } else {
        last_owner(s.drop_last(), p)
    }
}

/// `s` with `names` added to the interfaces of the last class or module
/// named `p` (unchanged when there is none).
pub open spec fn add_mixins(s: Seq<SymbolV>, p: Seq<char>, names: Seq<Seq<char>>) -> Seq<SymbolV> {
    match last_owner(s, p) {
        Some(j) => s.update(j, SymbolV { interfaces: s[j].interfaces + names, ..s[j] }),
        None => s,
    }
}

/// A constant named by node `c`'s text when it starts with an upper-case
/// character.
pub open spec fn constant_of(t: Seq<SyntaxNodeV>, c: int, parent: Option<Seq<char>>) -> Seq<SymbolV> {
    if starts_upper(t[c].text) {
        seq![symbol_at(t[c].text, SymbolKind::Constant, t[c], true, parent)]
    } else {
        Seq::empty()
    }
}

/// Effect of child `c` of node `i` on the symbols `acc`, and the parent name
/// under which the walk then descends into it (`None`: no descent).
pub open spec fn rb_step(t: Seq<SyntaxNodeV>, i: int, c: int, parent: Option<Seq<char>>, acc: Seq<SymbolV>) -> (
    Seq<SymbolV>,
    Option<Option<Seq<char>>>,
) {
    let n = t[c];
    let k = n.kind;
    let nk = t[i].kind;
    let name = field_text(t, c, "name"@);
    if k == "class"@ {
        match name {
            Some(nm) => (
                acc.push(
                    SymbolV {
                        superclass: class_superclass(t, c),
                        ..symbol_at(nm, SymbolKind::Class, n, true, parent)
                    },
                ),
                Some(Some(nm)),
            ),
            None => (acc, None),
        }
    } else if k == "module"@ {
        match name {
            Some(nm) => (acc.push(symbol_at(nm, SymbolKind::Module, n, true, parent)), Some(Some(nm))),
            None => (acc, None),
        }
    } else if k == "method"@ || k == "singleton_method"@ {
        match name {
            Some(nm) => {
                let kind = if nm == "initialize"@ {
                    SymbolKind::Constructor
                } else if parent is Some {
                    SymbolKind::Method
                } else {
                    SymbolKind::Function
                };
                (acc.push(symbol_at(nm, kind, n, true, parent)), None)
            },
            None => (acc, None),
        }
    } else if k == "call"@ && parent is Some {
        let method = field_text(t, c, "method"@);
        let args = field_child(t, c, "arguments"@);
        if method == Some("attr_accessor"@) || method == Some("attr_reader"@) || method == Some("attr_writer"@) {
            (
                match args {
                    Some(a) => acc + concat_over(t[a as int].children, attr_fn(t, parent)),
                    None => acc,
                },
                None,
            )
        } else if method == Some("include"@) || method == Some("extend"@) || method == Some("prepend"@) {
            (
                match args {
                    Some(a) => add_mixins(acc, parent->0, concat_over(t[a as int].children, mixin_fn(t))),
                    None => acc,
                },
                Some(parent),
            )
        } else {
            (acc, Some(parent))
        }
    } else if k == "casgn"@ {
        (acc + constant_of(t, c, parent), None)
    } else if k == "constant"@ {
        if nk == "scope_resolution"@ || nk == "class"@ || nk == "module"@ || nk == "superclass"@ {
            (acc, None)
        } else {
            (acc + constant_of(t, c, parent), None)
        }
    } else if k == "scope_resolution"@ {
        if nk == "class"@ || nk == "module"@ || nk == "superclass"@ || n.text.len() == 0 {
            (acc, None)
        } else {
            (acc.push(symbol_at(n.text, SymbolKind::Constant, n, true, parent)), None)
        }
    } else {
        (acc, Some(parent))
    }
}

/// Symbols after walking the first `k` children of node `i` (under parent
/// name `parent`), starting from `acc`.
pub open spec fn rb_walk(t: Seq<SyntaxNodeV>, i: int, k: nat, parent: Option<Seq<char>>, acc: Seq<SymbolV>) -> Seq<
    SymbolV,
>
    decreases t.len() - i, k,
{
    if k == 0 || i < 0 || i >= t.len() || k > t[i].children.len() {
        acc
    } else {
        let before = rb_walk(t, i, (k - 1) as nat, parent, acc);
        let c = t[i].children[k - 1] as int;
        if c <= i || c >= t.len() {
            before
        } else {
            let step = rb_step(t, i, c, parent, before);
            match step.1 {
                Some(p2) => rb_walk(t, c, t[c].children.len(), p2, step.0),
                None => step.0,
            }
        }
    }
}

/// Symbols of a Ruby tree, in walk order.
pub open spec fn rb_symbols(t: Seq<SyntaxNodeV>) -> Seq<SymbolV> {
    if t.len() == 0 {
        Seq::empty()
    } else {
        rb_walk(t, 0, t[0].children.len(), None, Seq::empty())
    }
}

// ─── Extraction ─────────────────────────────────────────────────────

/// The superclass named by a `superclass` node's text.
fn superclass_of(text: &str) -> (r: Option<String>)
    ensures
        r.deep_view() == superclass_name(text@),
{
    let stripped = trim_start_char(text, '<');
    let v = trim(stripped.as_str());
    if v.len() > 0 {
        Some(string_of(v.as_slice()))
    } else {
        None
    }
}

/// Appends the attribute properties among the children of `a`.
fn push_attr_properties(tree: &SyntaxTree, a: usize, parent: &Option<String>, out: &mut Vec<Symbol>)
    requires
        tree_wf(tree@),
        a < tree@.len(),
    ensures
        final(out).deep_view() == old(out).deep_view() + concat_over(tree@[a as int].children, attr_fn(tree@, parent.deep_view())),
{
    let ghost t = tree@;
    let ghost f = attr_fn(t, parent.deep_view());
    let cs = &tree.node(a).children;
    let ghost base = out.deep_view();
    proof {
        assert(node_wf(t, a as int));
        assert(base + concat_over(cs@.take(0), f) =~= base);
    }
    let mut k: usize = 0;
    while k < cs.len()
        invariant
            t == tree@,
            tree_wf(t),
            a < t.len(),
            node_wf(t, a as int),
            cs@ == t[a as int].children,
            k <= cs@.len(),
            f == attr_fn(t, parent.deep_view()),
            out.deep_view() == base + concat_over(cs@.take(k as int), f),
        decreases cs@.len() - k,
    {
        let x = cs[k];
        proof {
            assert(a < cs@[k as int] < t.len());
            lemma_concat_over_step(cs@, f, k as int);
        }
        let ghost before = out.deep_view();
        let name = trim_start_char(tree.node(x).text.as_str(), ':');
        if tree.kind_is(x, "simple_symbol") && name.unicode_len() > 0 {
            out.push(tree.symbol_at(x, name, SymbolKind::Property, true, clone_opt(parent)));
            proof {
                assert(out.deep_view() =~= before + f(x));
            }
        } else {
            proof {
                assert(before + f(x) =~= before);
            }
        }
        proof {
            assert(out.deep_view() =~= base + concat_over(cs@.take(k + 1), f));
        }
        k = k + 1;
    }
    proof {
        lemma_concat_over_all(cs@, f);
    }
}

/// The mixed-in module names among the children of `a`.
fn mixin_names(tree: &SyntaxTree, a: usize) -> (r: Vec<String>)
    requires
        tree_wf(tree@),
        a < tree@.len(),
    ensures
        r.deep_view() == concat_over(tree@[a as int].children, mixin_fn(tree@)),
{
    let ghost t = tree@;
    let ghost f = mixin_fn(t);
    let cs = &tree.node(a).children;
    let mut out: Vec<String> = Vec::new();
    proof {
        assert(node_wf(t, a as int));
        assert(out.deep_view() =~= concat_over(cs@.take(0), f));
    }
    let mut k: usize = 0;
    while k < cs.len()
        invariant
            t == tree@,
            tree_wf(t),
            a < t.len(),
            node_wf(t, a as int),
            cs@ == t[a as int].children,
            k <= cs@.len(),
            f == mixin_fn(t),
            out.deep_view() == concat_over(cs@.take(k as int), f),
        decreases cs@.len() - k,
    {
        let x = cs[k];
        proof {
            assert(a < cs@[k as int] < t.len());
            lemma_concat_over_step(cs@, f, k as int);
        }
        let ghost before = out.deep_view();
        let n = tree.node(x);
        if tree.kind_is_either(x, "constant", "scope_resolution") && n.text.unicode_len() > 0 {
            out.push(n.text.clone());
            proof {
                assert(out.deep_view() =~= before + f(x));
            }
        } else {
            proof {
                assert(before + f(x) =~= before);
            }
        }
        k = k + 1;
    }
    proof {
        lemma_concat_over_all(cs@, f);
    }
    out
}

/// Adds `names` to the interfaces of the last class or module named `p`.
fn add_mixins_to(symbols: &mut Vec<Symbol>, p: &str, names: Vec<String>)
    ensures
        final(symbols).deep_view() == add_mixins(old(symbols).deep_view(), p@, names.deep_view()),
{
    let ghost s = symbols.deep_view();
    let mut j: usize = symbols.len();
    proof {
        assert(s.take(s.len() as int) =~= s);
    }
    while j > 0
        invariant
            s == symbols.deep_view(),
            s == old(symbols).deep_view(),
            j <= s.len(),
            last_owner(s, p@) == last_owner(s.take(j as int), p@),
        decreases j,
    {
        proof {
            assert(s.take(j as int).drop_last() =~= s.take(j - 1));
            assert(s.take(j as int).last() == s[j - 1]);
            assert(s[j - 1] == symbols@[j - 1]@);
        }
        let owner = str_eq(symbols[j - 1].name.as_str(), p) && (symbols[j - 1].kind == SymbolKind::Class
            || symbols[j - 1].kind == SymbolKind::Module);
        if owner {
            proof {
                assert(last_owner(s.take(j as int), p@) == Some(j - 1));
            }
            let mut names = names;
            let ghost nv = names.deep_view();
            let mut sym = symbols.remove(j - 1);
            let ghost old_iv = sym.interfaces.deep_view();
            sym.interfaces.append(&mut names);
            proof {
                assert(sym.interfaces.deep_view() =~= old_iv + nv);
            }
            symbols.insert(j - 1, sym);
            proof {
                assert(symbols.deep_view() =~= s.update(j - 1, SymbolV { interfaces: s[j - 1].interfaces + nv, ..s[j - 1] }));
            }
            return;
        }
        j = j - 1;
    }
    proof {
        assert(s.take(0) =~= Seq::<SymbolV>::empty());
    }
}

/// Applies child `c` of node `i` to the symbols; returns how the walk
/// descends into it.
fn rb_child(tree: &SyntaxTree, i: usize, c: usize, parent: &Option<String>, symbols: &mut Vec<Symbol>) -> (r: Option<
    Option<String>,
>)
    requires
        tree_wf(tree@),
        i < c < tree@.len(),
    ensures
        final(symbols).deep_view() == rb_step(tree@, i as int, c as int, parent.deep_view(), old(symbols).deep_view()).0,
        r.deep_view() == rb_step(tree@, i as int, c as int, parent.deep_view(), old(symbols).deep_view()).1,
{
    let ghost t = tree@;
    let ghost acc = symbols.deep_view();
    let n = tree.node(c);
    let name = tree.field_text(c, "name");
    if tree.kind_is(c, "class") {
        match name {
            Some(nm) => {
                let mut sym = tree.symbol_at(c, nm.clone(), SymbolKind::Class, true, clone_opt(parent));
                sym.superclass = match tree.field_text(c, "superclass") {
                    Some(x) => superclass_of(x.as_str()),
                    None => None,
                };
                symbols.push(sym);
                Some(Some(nm))
            },
            None => None,
        }
    } else if tree.kind_is(c, "module") {
        match name {
            Some(nm) => {
                symbols.push(tree.symbol_at(c, nm.clone(), SymbolKind::Module, true, clone_opt(parent)));
                Some(Some(nm))
            },
            None => None,
        }
    } else if tree.kind_is_either(c, "method", "singleton_method") {
        if let Some(nm) = name {
            let kind = if str_eq(nm.as_str(), "initialize") {
                SymbolKind::Constructor
            } else if parent.is_some() {
                SymbolKind::Method
            } else {
                SymbolKind::Function
            };
            symbols.push(tree.symbol_at(c, nm, kind, true, clone_opt(parent)));
        }
        None
    } else if tree.kind_is(c, "call") && parent.is_some() {
        let method = tree.field_text(c, "method");
        let args = tree.child_by_field(c, "arguments");
        let (attr, mixin) = match &method {
            Some(m) => (
                str_eq(m.as_str(), "attr_accessor") || str_eq(m.as_str(), "attr_reader") || str_eq(
                    m.as_str(),
                    "attr_writer",
                ),
                str_eq(m.as_str(), "include") || str_eq(m.as_str(), "extend") || str_eq(m.as_str(), "prepend"),
            ),
            None => (false, false),
        };
        proof {
            reveal_strlit("attr_accessor");
            reveal_strlit("attr_reader");
            reveal_strlit("attr_writer");
            reveal_strlit("include");
            reveal_strlit("extend");
            reveal_strlit("prepend");
        }
        if attr {
            match args {
                Some(a) => push_attr_properties(tree, a, parent, symbols),
                None => {},
            }
            None
        } else if mixin {
            match args {
                Some(a) => {
                    let names = mixin_names(tree, a);
                    match parent {
                        Some(p) => add_mixins_to(symbols, p.as_str(), names),
                        None => {},
                    }
                },
                None => {},
            }
            Some(clone_opt(parent))
        } else {
            Some(clone_opt(parent))
        }
    } else if tree.kind_is(c, "casgn") {
        if first_is_upper(n.text.as_str()) {
            symbols.push(tree.symbol_at(c, n.text.clone(), SymbolKind::Constant, true, clone_opt(parent)));
            proof {
                assert(symbols.deep_view() =~= acc + constant_of(t, c as int, parent.deep_view()));
            }
        } else {
            proof {
                assert(symbols.deep_view() =~= acc + constant_of(t, c as int, parent.deep_view()));
            }
        }
        None
    } else if tree.kind_is(c, "constant") {
        let dominated = tree.kind_is(i, "scope_resolution") || tree.kind_is(i, "class") || tree.kind_is(i, "module")
            || tree.kind_is(i, "superclass");
        if !dominated {
            if first_is_upper(n.text.as_str()) {
                symbols.push(tree.symbol_at(c, n.text.clone(), SymbolKind::Constant, true, clone_opt(parent)));
                proof {
                    assert(symbols.deep_view() =~= acc + constant_of(t, c as int, parent.deep_view()));
                }
            } else {
                proof {
                    assert(symbols.deep_view() =~= acc + constant_of(t, c as int, parent.deep_view()));
                }
            }
        }
        None
    } else if tree.kind_is(c, "scope_resolution") {
        let named = tree.kind_is(i, "class") || tree.kind_is(i, "module") || tree.kind_is(i, "superclass");
        if !named && n.text.unicode_len() > 0 {
            symbols.push(tree.symbol_at(c, n.text.clone(), SymbolKind::Constant, true, clone_opt(parent)));
        }
        None
    } else {
        Some(clone_opt(parent))
    }
}

/// Walks the children of node `i`, updating the symbols.
fn rb_walk_node(tree: &SyntaxTree, i: usize, parent: Option<String>, symbols: &mut Vec<Symbol>)
    requires
        tree_wf(tree@),
        i < tree@.len(),
    ensures
        final(symbols).deep_view() == rb_walk(
            tree@,
            i as int,
            tree@[i as int].children.len(),
            parent.deep_view(),
            old(symbols).deep_view(),
        ),
    decreases tree@.len() - i,
{
    let ghost t = tree@;
    let ghost start = symbols.deep_view();
    let cs = &tree.node(i).children;
    proof {
        assert(node_wf(t, i as int));
    }
    let mut k: usize = 0;
    while k < cs.len()
        invariant
            t == tree@,
            tree_wf(t),
            i < t.len(),
            node_wf(t, i as int),
            cs@ == t[i as int].children,
            k <= cs@.len(),
            symbols.deep_view() == rb_walk(t, i as int, k as nat, parent.deep_view(), start),
        decreases cs@.len() - k,
    {
        let c = cs[k];
        proof {
            assert(i < cs@[k as int] < t.len());
        }
        let descent = rb_child(tree, i, c, &parent, symbols);
        match descent {
            Some(p2) => rb_walk_node(tree, c, p2, symbols),
            None => {},
        }
        k = k + 1;
    }
}

/// Symbols of a Ruby syntax tree, in walk order.
pub fn extract_ruby(tree: &SyntaxTree) -> (r: Vec<Symbol>)
    requires
        tree_wf(tree@),
    ensures
        r.deep_view() == rb_symbols(tree@),
{
    let mut symbols: Vec<Symbol> = Vec::new();
    proof {
        assert(symbols.deep_view() =~= Seq::<SymbolV>::empty());
    }
    if tree.nodes.len() == 0 {
        return symbols;
    }
    rb_walk_node(tree, 0, None, &mut symbols);
    symbols
}

} // verus!
