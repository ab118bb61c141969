//! Import extraction from syntax trees: TypeScript `import` statements and
//! `require` bindings, Go import declarations (with aliases), and Ruby
//! `require` / `require_relative` calls.

use vstd::prelude::*;
use crate::parser::imports::{RawImport, RawImportV};
use crate::parser::syntax::{
    concat_over, field_child, field_text, lemma_concat_over_all, lemma_concat_over_step, line_of, node_wf,
    tree_wf, SyntaxNodeV, SyntaxTree,
};
use crate::parser::Language;
use crate::text::{chars_of, str_eq, string_of};

verus! {

// ─── Specification ──────────────────────────────────────────────────

/// `s` without leading and trailing characters equal to `a` or `b`
/// (`str::trim_matches`).
pub open spec fn trim_either(s: Seq<char>, a: char, b: char) -> Seq<char>
    decreases s.len(),
{
    if s.len() > 0 && (s[0] == a || s[0] == b) {
        trim_either(s.drop_first(), a, b)
    } else if s.len() > 0 && (s.last() == a || s.last() == b) {
        trim_either(s.drop_last(), a, b)
    } else {
        s
    }
}

/// An import record.
pub open spec fn import_of(path: Seq<char>, names: Seq<Seq<char>>, line: usize) -> RawImportV {
    RawImportV { source_path: path, imported_names: names, line }
}

/// The optional text as a list of at most one name.
pub open spec fn opt_list(o: Option<Seq<char>>) -> Seq<Seq<char>> {
    match o {
        Some(n) => seq![n],
        None => Seq::empty(),
    }
}

/// Local names bound by TypeScript import clause node `x`'s children,
/// through named and namespace imports (first `k` children), after `acc`.
pub open spec fn ts_names_walk(t: Seq<SyntaxNodeV>, x: int, k: nat, acc: Seq<Seq<char>>) -> Seq<Seq<char>>
    decreases t.len() - x, k,
{
    if k == 0 || x < 0 || x >= t.len() || k > t[x].children.len() {
        acc
    } else {
        let before = ts_names_walk(t, x, (k - 1) as nat, acc);
        let c = t[x].children[k - 1] as int;
        if c <= x || c >= t.len() {
            before
        } else {
            let kind = t[c].kind;
            if kind == "identifier"@ {
                before.push(t[c].text)
            } else if kind == "import_specifier"@ {
                match field_text(t, c, "alias"@) {
                    Some(a) => before.push(a),
                    None => before + opt_list(field_text(t, c, "name"@)),
                }
            } else if kind == "named_imports"@ || kind == "namespace_import"@ {
                ts_names_walk(t, c, t[c].children.len(), before)
            } else {
                before
            }
        }
    }
}

/// Names bound by the import clauses of import statement `c`.
pub open spec fn ts_clause_fn(t: Seq<SyntaxNodeV>) -> spec_fn(usize) -> Seq<Seq<char>> {
    |x: usize|
        if t[x as int].kind == "import_clause"@ {
            ts_names_walk(t, x as int, t[x as int].children.len(), Seq::empty())
        } else {
            Seq::empty()
        }
}

/// The import of a TypeScript `import` statement with a non-empty source.
pub open spec fn ts_import_statement(t: Seq<SyntaxNodeV>, c: int) -> Seq<RawImportV> {
    let path = match field_text(t, c, "source"@) {
        Some(s) => trim_either(s, '\'', '"'),
        None => Seq::empty(),
    };
    if path.len() > 0 {
        seq![import_of(path, concat_over(t[c].children, ts_clause_fn(t)), line_of(t, c))]
    } else {
        Seq::empty()
    }
}

/// Imports of the string arguments of a `require` call bound by declarator
/// `d` of declaration `c`.
pub open spec fn require_arg_fn(t: Seq<SyntaxNodeV>, c: int, d: int) -> spec_fn(usize) -> Seq<RawImportV> {
    |a: usize|
        if t[a as int].kind == "string"@ && trim_either(t[a as int].text, '\'', '"').len() > 0 {
            seq![
                import_of(trim_either(t[a as int].text, '\'', '"'), opt_list(field_text(t, d, "name"@)), line_of(t, c)),
            ]
        } else {
            Seq::empty()
        }
}

/// Imports of a declarator bound to a `require(...)` call.
pub open spec fn require_decl_fn(t: Seq<SyntaxNodeV>, c: int) -> spec_fn(usize) -> Seq<RawImportV> {
    |d: usize|
        if t[d as int].kind == "variable_declarator"@ {
            match field_child(t, d as int, "value"@) {
                Some(v) => if t[v as int].kind == "call_expression"@ && field_text(t, v as int, "function"@) == Some(
                    "require"@,
                ) {
                    match field_child(t, v as int, "arguments"@) {
                        Some(args) => concat_over(t[args as int].children, require_arg_fn(t, c, d as int)),
                        None => Seq::empty(),
                    }
                } else {
                    Seq::empty()
                },
                None => Seq::empty(),
            }
        } else {
            Seq::empty()
        }
}

/// Imports of top-level TypeScript node `c`.
pub open spec fn ts_imports_at(t: Seq<SyntaxNodeV>, c: int) -> Seq<RawImportV> {
    if t[c].kind == "import_statement"@ {
        ts_import_statement(t, c)
    } else if t[c].kind == "lexical_declaration"@ || t[c].kind == "variable_declaration"@ {
        concat_over(t[c].children, require_decl_fn(t, c))
    } else {
        Seq::empty()
    }
}

/// The import of a Go import spec `s`.
pub open spec fn go_spec_import(t: Seq<SyntaxNodeV>, s: int) -> Seq<RawImportV> {
    if t[s].kind == "import_spec"@ {
        match field_text(t, s, "path"@) {
            Some(p) => seq![import_of(trim_either(p, '"', '"'), opt_list(field_text(t, s, "name"@)), line_of(t, s))],
            None => Seq::empty(),
        }
    } else {
        Seq::empty()
    }
}

/// Each node's Go import spec.
pub open spec fn go_spec_fn(t: Seq<SyntaxNodeV>) -> spec_fn(usize) -> Seq<RawImportV> {
    |s: usize| go_spec_import(t, s as int)
}

/// Imports of a child of a Go import declaration: a spec, or a list of them.
pub open spec fn go_decl_child_fn(t: Seq<SyntaxNodeV>) -> spec_fn(usize) -> Seq<RawImportV> {
    |s: usize|
        if t[s as int].kind == "import_spec"@ {
            go_spec_import(t, s as int)
        } else if t[s as int].kind == "import_spec_list"@ {
            concat_over(t[s as int].children, go_spec_fn(t))
        } else {
            Seq::empty()
        }
}

/// Imports of top-level Go node `c`.
pub open spec fn go_imports_at(t: Seq<SyntaxNodeV>, c: int) -> Seq<RawImportV> {
    if t[c].kind == "import_declaration"@ {
        concat_over(t[c].children, go_decl_child_fn(t))
    } else {
        Seq::empty()
    }
}

/// Imports of the string arguments of Ruby require call `c`.
pub open spec fn rb_require_arg_fn(t: Seq<SyntaxNodeV>, c: int) -> spec_fn(usize) -> Seq<RawImportV> {
    |a: usize|
        if (t[a as int].kind == "string"@ || t[a as int].kind == "string_content"@) && trim_either(
            t[a as int].text,
            '\'',
            '"',
        ).len() > 0 {
            seq![import_of(trim_either(t[a as int].text, '\'', '"'), Seq::empty(), line_of(t, c))]
        } else {
            Seq::empty()
        }
}

/// Imports of Ruby node `c`.
pub open spec fn rb_imports_at(t: Seq<SyntaxNodeV>, c: int) -> Seq<RawImportV> {
    if t[c].kind == "call"@ && (field_text(t, c, "method"@) == Some("require"@) || field_text(t, c, "method"@)
        == Some("require_relative"@)) {
        match field_child(t, c, "arguments"@) {
            Some(a) => concat_over(t[a as int].children, rb_require_arg_fn(t, c)),
            None => Seq::empty(),
        }
    } else {
        Seq::empty()
    }
}

/// Imports of Ruby nodes below node `i` (first `k` children, each with its
/// subtree), appended to `acc`.
pub open spec fn rb_imports_walk(t: Seq<SyntaxNodeV>, i: int, k: nat, acc: Seq<RawImportV>) -> Seq<RawImportV>
    decreases t.len() - i, k,
{
    if k == 0 || i < 0 || i >= t.len() || k > t[i].children.len() {
        acc
    } else {
        let before = rb_imports_walk(t, i, (k - 1) as nat, acc);
        let c = t[i].children[k - 1] as int;
        if c <= i || c >= t.len() {
            before
        } else {
            let mid = before + rb_imports_at(t, c);
            if t[c].children.len() > 0 {
                rb_imports_walk(t, c, t[c].children.len(), mid)
            } else {
                mid
            }
        }
    }
}

/// Each top-level node's imports in the given language.
pub open spec fn top_imports_fn(lang: Language, t: Seq<SyntaxNodeV>) -> spec_fn(usize) -> Seq<RawImportV> {
    |c: usize|
        match lang {
            Language::TypeScript => ts_imports_at(t, c as int),
            Language::Go => go_imports_at(t, c as int),
            Language::Ruby => Seq::empty(),
        }
}

/// The imports of a tree: TypeScript and Go imports are top-level
/// statements; Ruby requires may appear anywhere.
pub open spec fn tree_imports(lang: Language, t: Seq<SyntaxNodeV>) -> Seq<RawImportV> {
    if t.len() == 0 {
        Seq::empty()
    } else {
        match lang {
            Language::Ruby => rb_imports_walk(t, 0, t[0].children.len(), Seq::empty()),
            _ => concat_over(t[0].children, top_imports_fn(lang, t)),
        }
    }
}

} // verus!

verus! {

// ─── Extraction ─────────────────────────────────────────────────────

/// `s` without leading and trailing characters equal to `a` or `b`.
pub fn trim_chars(s: &str, a: char, b: char) -> (r: String)
    ensures
        r@ == trim_either(s@, a, b),
{
    let v = chars_of(s);
    let n = v.len();
    let mut lo: usize = 0;
    proof {
        assert(v@.subrange(0, n as int) =~= v@);
    }
    while lo < n && (v[lo] == a || v[lo] == b)
        invariant
            v@ == s@,
            n == v@.len(),
            lo <= n,
            trim_either(s@, a, b) == trim_either(v@.subrange(lo as int, n as int), a, b),
        decreases n - lo,
    {
        proof {
            let sub = v@.subrange(lo as int, n as int);
            assert(sub[0] == v@[lo as int]);
            assert(sub.drop_first() =~= v@.subrange(lo + 1, n as int));
        }
        lo = lo + 1;
    }
    let mut hi: usize = n;
    while hi > lo && (v[hi - 1] == a || v[hi - 1] == b)
        invariant
            v@ == s@,
            n == v@.len(),
            lo <= hi <= n,
            lo < n ==> !(v@[lo as int] == a || v@[lo as int] == b),
            trim_either(s@, a, b) == trim_either(v@.subrange(lo as int, hi as int), a, b),
        decreases hi,
    {
        proof {
            let sub = v@.subrange(lo as int, hi as int);
            assert(sub[0] == v@[lo as int]);
            assert(sub.last() == v@[hi - 1]);
            assert(sub.drop_last() =~= v@.subrange(lo as int, hi - 1));
        }
        hi = hi - 1;
    }
    proof {
        let sub = v@.subrange(lo as int, hi as int);
        if sub.len() > 0 {
            assert(sub[0] == v@[lo as int]);
            assert(sub.last() == v@[hi - 1]);
        }
    }
    let mut r: Vec<char> = Vec::new();
    let mut q: usize = lo;
    while q < hi
        invariant
            lo <= q <= hi <= v@.len(),
            r@ == v@.subrange(lo as int, q as int),
        decreases hi - q,
    {
        r.push(v[q]);
        q = q + 1;
        proof {
            assert(r@ =~= v@.subrange(lo as int, q as int));
        }
    }
    string_of(r.as_slice())
}

/// The optional name as a list of at most one.
fn opt_names(o: Option<String>) -> (r: Vec<String>)
    ensures
        r.deep_view() == opt_list(o.deep_view()),
{
    let mut r: Vec<String> = Vec::new();
    match o {
        Some(n) => r.push(n),
        None => {},
    }
    proof {
        assert(r.deep_view() =~= opt_list(o.deep_view()));
    }
    r
}

/// Appends the local names bound under import clause node `x`.
fn push_ts_names(tree: &SyntaxTree, x: usize, names: &mut Vec<String>)
    requires
        tree_wf(tree@),
        x < tree@.len(),
    ensures
        final(names).deep_view() == ts_names_walk(tree@, x as int, tree@[x as int].children.len(), old(names).deep_view()),
    decreases tree@.len() - x,
{
    let ghost t = tree@;
    let ghost start = names.deep_view();
    let cs = &tree.node(x).children;
    proof {
        assert(node_wf(t, x as int));
    }
    let mut k: usize = 0;
    while k < cs.len()
        invariant
            t == tree@,
            tree_wf(t),
            x < t.len(),
            node_wf(t, x as int),
            cs@ == t[x as int].children,
            k <= cs@.len(),
            names.deep_view() == ts_names_walk(t, x as int, k as nat, start),
        decreases cs@.len() - k,
    {
        let c = cs[k];
        proof {
            assert(x < cs@[k as int] < t.len());
        }
        let ghost before = names.deep_view();
        if tree.kind_is(c, "identifier") {
            names.push(tree.node(c).text.clone());
            proof {
                assert(names.deep_view() =~= before.push(t[c as int].text));
            }
        } else if tree.kind_is(c, "import_specifier") {
            match tree.field_text(c, "alias") {
                Some(al) => {
                    names.push(al);
                    proof {
                        assert(names.deep_view() =~= before.push(field_text(t, c as int, "alias"@)->0));
                    }
                },
                None => {
                    let mut more = opt_names(tree.field_text(c, "name"));
                    let ghost mv = more.deep_view();
                    names.append(&mut more);
                    proof {
                        assert(names.deep_view() =~= before + mv);
                    }
                },
            }
        } else if tree.kind_is_either(c, "named_imports", "namespace_import") {
            push_ts_names(tree, c, names);
        }
        k = k + 1;
    }
}

/// Appends the names bound by the import clauses among the children of `c`.
fn push_ts_clause_names(tree: &SyntaxTree, c: usize, names: &mut Vec<String>)
    requires
        tree_wf(tree@),
        c < tree@.len(),
    ensures
        final(names).deep_view() == old(names).deep_view() + concat_over(tree@[c as int].children, ts_clause_fn(tree@)),
{
    let ghost t = tree@;
    let ghost f = ts_clause_fn(t);
    let cs = &tree.node(c).children;
    let ghost base = names.deep_view();
    proof {
        assert(node_wf(t, c as int));
        assert(base + concat_over(cs@.take(0), f) =~= base);
    }
    let mut k: usize = 0;
    while k < cs.len()
        invariant
            t == tree@,
            tree_wf(t),
            c < t.len(),
            node_wf(t, c as int),
            cs@ == t[c as int].children,
            k <= cs@.len(),
            f == ts_clause_fn(t),
            names.deep_view() == base + concat_over(cs@.take(k as int), f),
        decreases cs@.len() - k,
    {
        let x = cs[k];
        proof {
            assert(c < cs@[k as int] < t.len());
            lemma_concat_over_step(cs@, f, k as int);
        }
        let ghost before = names.deep_view();
        if tree.kind_is(x, "import_clause") {
            let mut local: Vec<String> = Vec::new();
            proof {
                assert(local.deep_view() =~= Seq::<Seq<char>>::empty());
            }
            push_ts_names(tree, x, &mut local);
            let ghost lv = local.deep_view();
            names.append(&mut local);
            proof {
                assert(names.deep_view() =~= before + lv);
            }
        } else {
            proof {
                assert(before + f(x) =~= before);
            }
        }
        proof {
            assert(names.deep_view() =~= base + concat_over(cs@.take(k + 1), f));
        }
        k = k + 1;
    }
    proof {
        lemma_concat_over_all(cs@, f);
    }
}

/// Appends the imports of the `require` string arguments `args` bound by
/// declarator `d` of declaration `c`.
fn push_require_args(tree: &SyntaxTree, c: usize, d: usize, args: usize, out: &mut Vec<RawImport>)
    requires
        tree_wf(tree@),
        c < tree@.len(),
        d < tree@.len(),
        args < tree@.len(),
    ensures
        final(out).deep_view() == old(out).deep_view() + concat_over(tree@[args as int].children, require_arg_fn(tree@, c as int, d as int)),
{
    let ghost t = tree@;
    let ghost f = require_arg_fn(t, c as int, d as int);
    let cs = &tree.node(args).children;
    let ghost base = out.deep_view();
    proof {
        assert(node_wf(t, args as int));
        assert(node_wf(t, c as int));
        assert(base + concat_over(cs@.take(0), f) =~= base);
    }
    let mut k: usize = 0;
    while k < cs.len()
        invariant
            t == tree@,
            tree_wf(t),
            c < t.len(),
            d < t.len(),
            args < t.len(),
            node_wf(t, args as int),
            node_wf(t, c as int),
            cs@ == t[args as int].children,
            k <= cs@.len(),
            f == require_arg_fn(t, c as int, d as int),
            out.deep_view() == base + concat_over(cs@.take(k as int), f),
        decreases cs@.len() - k,
    {
        let a = cs[k];
        proof {
            assert(args < cs@[k as int] < t.len());
            lemma_concat_over_step(cs@, f, k as int);
        }
        let ghost before = out.deep_view();
        let text = trim_chars(tree.node(a).text.as_str(), '\'', '"');
        if tree.kind_is(a, "string") && text.unicode_len() > 0 {
            let imp = RawImport {
                source_path: text,
                imported_names: opt_names(tree.field_text(d, "name")),
                line: tree.node(c).start_row + 1,
            };
            out.push(imp);
            proof {
                assert(out.deep_view() =~= before + f(a));
            }
        } else {
            proof {
                assert(before + f(a) =~= before);
            }
        }
        proof {
            assert(out.deep_view() =~= base + concat_over(cs@.take(k + 1), f));
        }
        k = k + 1;
    }
    proof {
        lemma_concat_over_all(cs@, f);
    }
}

/// Appends the imports of top-level TypeScript node `c`.
fn push_ts_imports_at(tree: &SyntaxTree, c: usize, out: &mut Vec<RawImport>)
    requires
        tree_wf(tree@),
        c < tree@.len(),
    ensures
        final(out).deep_view() == old(out).deep_view() + ts_imports_at(tree@, c as int),
{
    let ghost t = tree@;
    let ghost base = out.deep_view();
    if tree.kind_is(c, "import_statement") {
        let path = match tree.field_text(c, "source") {
            Some(s) => trim_chars(s.as_str(), '\'', '"'),
            None => String::new(),
        };
        if path.unicode_len() > 0 {
            let mut names: Vec<String> = Vec::new();
            proof {
                assert(names.deep_view() =~= Seq::<Seq<char>>::empty());
                assert(node_wf(t, c as int));
            }
            push_ts_clause_names(tree, c, &mut names);
            out.push(RawImport { source_path: path, imported_names: names, line: tree.node(c).start_row + 1 });
        }
        proof {
            assert(out.deep_view() =~= base + ts_imports_at(t, c as int));
        }
    } else if tree.kind_is_either(c, "lexical_declaration", "variable_declaration") {
        let ghost f = require_decl_fn(t, c as int);
        let cs = &tree.node(c).children;
        proof {
            assert(node_wf(t, c as int));
            assert(base + concat_over(cs@.take(0), f) =~= base);
        }
        let mut k: usize = 0;
        while k < cs.len()
            invariant
                t == tree@,
                tree_wf(t),
                c < t.len(),
                node_wf(t, c as int),
                cs@ == t[c as int].children,
                k <= cs@.len(),
                f == require_decl_fn(t, c as int),
                out.deep_view() == base + concat_over(cs@.take(k as int), f),
            decreases cs@.len() - k,
        {
            let d = cs[k];
            proof {
                assert(c < cs@[k as int] < t.len());
                lemma_concat_over_step(cs@, f, k as int);
            }
            let ghost before = out.deep_view();
            let mut done = false;
            if tree.kind_is(d, "variable_declarator") {
                match tree.child_by_field(d, "value") {
                    Some(v) => {
                        let is_require = tree.kind_is(v, "call_expression") && match tree.field_text(v, "function") {
                            Some(fx) => str_eq(fx.as_str(), "require"),
                            None => false,
                        };
                        if is_require {
                            match tree.child_by_field(v, "arguments") {
                                Some(args) => {
                                    push_require_args(tree, c, d, args, out);
                                    done = true;
                                },
                                None => {},
                            }
                        }
                    },
                    None => {},
                }
            }
            if !done {
                proof {
                    assert(before + f(d) =~= before);
                }
            }
            proof {
                assert(out.deep_view() =~= base + concat_over(cs@.take(k + 1), f));
            }
            k = k + 1;
        }
        proof {
            lemma_concat_over_all(cs@, f);
        }
    } else {
        proof {
            assert(out.deep_view() =~= base + ts_imports_at(t, c as int));
        }
    }
}

/// Appends the import of Go import spec `s`.
fn push_go_spec(tree: &SyntaxTree, s: usize, out: &mut Vec<RawImport>)
    requires
        tree_wf(tree@),
        s < tree@.len(),
    ensures
        final(out).deep_view() == old(out).deep_view() + go_spec_import(tree@, s as int),
{
    let ghost base = out.deep_view();
    if tree.kind_is(s, "import_spec") {
        match tree.field_text(s, "path") {
            Some(p) => {
                proof {
                    assert(node_wf(tree@, s as int));
                }
                let imp = RawImport {
                    source_path: trim_chars(p.as_str(), '"', '"'),
                    imported_names: opt_names(tree.field_text(s, "name")),
                    line: tree.node(s).start_row + 1,
                };
                out.push(imp);
            },
            None => {},
        }
    }
    proof {
        assert(out.deep_view() =~= base + go_spec_import(tree@, s as int));
    }
}

/// Appends the imports of top-level Go node `c`.
fn push_go_imports_at(tree: &SyntaxTree, c: usize, out: &mut Vec<RawImport>)
    requires
        tree_wf(tree@),
        c < tree@.len(),
    ensures
        final(out).deep_view() == old(out).deep_view() + go_imports_at(tree@, c as int),
{
    let ghost t = tree@;
    let ghost base = out.deep_view();
    if !tree.kind_is(c, "import_declaration") {
        proof {
            assert(out.deep_view() =~= base + go_imports_at(t, c as int));
        }
        return;
    }
    let ghost f = go_decl_child_fn(t);
    let cs = &tree.node(c).children;
    proof {
        assert(node_wf(t, c as int));
        assert(base + concat_over(cs@.take(0), f) =~= base);
    }
    let mut k: usize = 0;
    while k < cs.len()
        invariant
            t == tree@,
            tree_wf(t),
            c < t.len(),
            node_wf(t, c as int),
            cs@ == t[c as int].children,
            k <= cs@.len(),
            f == go_decl_child_fn(t),
            out.deep_view() == base + concat_over(cs@.take(k as int), f),
        decreases cs@.len() - k,
    {
        let s = cs[k];
        proof {
            assert(c < cs@[k as int] < t.len());
            lemma_concat_over_step(cs@, f, k as int);
        }
        let ghost before = out.deep_view();
        if tree.kind_is(s, "import_spec") {
            push_go_spec(tree, s, out);
        } else if tree.kind_is(s, "import_spec_list") {
            let ghost g = go_spec_fn(t);
            let items = &tree.node(s).children;
            proof {
                assert(node_wf(t, s as int));
                assert(before + concat_over(items@.take(0), g) =~= before);
            }
            let mut j: usize = 0;
            while j < items.len()
                invariant
                    t == tree@,
                    tree_wf(t),
                    s < t.len(),
                    node_wf(t, s as int),
                    items@ == t[s as int].children,
                    j <= items@.len(),
                    g == go_spec_fn(t),
                    out.deep_view() == before + concat_over(items@.take(j as int), g),
                decreases items@.len() - j,
            {
                let it = items[j];
                proof {
                    assert(s < items@[j as int] < t.len());
                    lemma_concat_over_step(items@, g, j as int);
                }
                push_go_spec(tree, it, out);
                proof {
                    assert(out.deep_view() =~= before + concat_over(items@.take(j + 1), g));
                }
                j = j + 1;
            }
            proof {
                lemma_concat_over_all(items@, g);
            }
        } else {
            proof {
                assert(before + f(s) =~= before);
            }
        }
        proof {
            assert(out.deep_view() =~= base + concat_over(cs@.take(k + 1), f));
        }
        k = k + 1;
    }
    proof {
        lemma_concat_over_all(cs@, f);
    }
}

/// Appends the imports of Ruby node `c`.
fn push_rb_imports_at(tree: &SyntaxTree, c: usize, out: &mut Vec<RawImport>)
    requires
        tree_wf(tree@),
        c < tree@.len(),
    ensures
        final(out).deep_view() == old(out).deep_view() + rb_imports_at(tree@, c as int),
{
    let ghost t = tree@;
    let ghost base = out.deep_view();
    let is_require = tree.kind_is(c, "call") && match tree.field_text(c, "method") {
        Some(m) => str_eq(m.as_str(), "require") || str_eq(m.as_str(), "require_relative"),
        None => false,
    };
    let a = if is_require {
        tree.child_by_field(c, "arguments")
    } else {
        None
    };
    let a = match a {
        Some(a) => a,
        None => {
            proof {
                assert(out.deep_view() =~= base + rb_imports_at(t, c as int));
            }
            return;
        },
    };
    let ghost f = rb_require_arg_fn(t, c as int);
    let cs = &tree.node(a).children;
    proof {
        assert(node_wf(t, a as int));
        assert(node_wf(t, c as int));
        assert(base + concat_over(cs@.take(0), f) =~= base);
    }
    let mut k: usize = 0;
    while k < cs.len()
        invariant
            t == tree@,
            tree_wf(t),
            c < t.len(),
            a < t.len(),
            node_wf(t, a as int),
            node_wf(t, c as int),
            cs@ == t[a as int].children,
            k <= cs@.len(),
            f == rb_require_arg_fn(t, c as int),
            out.deep_view() == base + concat_over(cs@.take(k as int), f),
        decreases cs@.len() - k,
    {
        let x = cs[k];
        proof {
            assert(a < cs@[k as int] < t.len());
            lemma_concat_over_step(cs@, f, k as int);
        }
        let ghost before = out.deep_view();
        let text = trim_chars(tree.node(x).text.as_str(), '\'', '"');
        if tree.kind_is_either(x, "string", "string_content") && text.unicode_len() > 0 {
            let names: Vec<String> = Vec::new();
            proof {
                assert(names.deep_view() =~= Seq::<Seq<char>>::empty());
            }
            out.push(RawImport { source_path: text, imported_names: names, line: tree.node(c).start_row + 1 });
            proof {
                assert(out.deep_view() =~= before + f(x));
            }
        } else {
            proof {
                assert(before + f(x) =~= before);
            }
        }
        proof {
            assert(out.deep_view() =~= base + concat_over(cs@.take(k + 1), f));
        }
        k = k + 1;
    }
    proof {
        lemma_concat_over_all(cs@, f);
        assert(out.deep_view() =~= base + rb_imports_at(t, c as int));
    }
}

/// Walks the Ruby subtrees below node `i`, appending their imports.
fn rb_imports_node(tree: &SyntaxTree, i: usize, out: &mut Vec<RawImport>)
    requires
        tree_wf(tree@),
        i < tree@.len(),
    ensures
        final(out).deep_view() == rb_imports_walk(tree@, i as int, tree@[i as int].children.len(), old(out).deep_view()),
    decreases tree@.len() - i,
{
    let ghost t = tree@;
    let ghost start = out.deep_view();
    let cs = &tree.node(i).children;
    proof {
        assert(node_wf(t, i as int));
    }
    let mut k: usize = 0;
    while k < cs.len()
        invariant
            t == tree@,
            tree_wf(t),
            i < t.len(),
            node_wf(t, i as int),
            cs@ == t[i as int].children,
            k <= cs@.len(),
            out.deep_view() == rb_imports_walk(t, i as int, k as nat, start),
        decreases cs@.len() - k,
    {
        let c = cs[k];
        proof {
            assert(i < cs@[k as int] < t.len());
        }
        push_rb_imports_at(tree, c, out);
        if tree.node(c).children.len() > 0 {
            rb_imports_node(tree, c, out);
        }
        k = k + 1;
    }
}

/// The imports of a syntax tree.
pub fn extract_imports(language: Language, tree: &SyntaxTree) -> (r: Vec<RawImport>)
    requires
        tree_wf(tree@),
    ensures
        r.deep_view() == tree_imports(language, tree@),
{
    let ghost t = tree@;
    let mut out: Vec<RawImport> = Vec::new();
    proof {
        assert(out.deep_view() =~= Seq::<RawImportV>::empty());
    }
    if tree.nodes.len() == 0 {
        return out;
    }
    match language {
        Language::Ruby => {
            rb_imports_node(tree, 0, &mut out);
            out
        },
        _ => {
            let ghost f = top_imports_fn(language, t);
            let cs = &tree.node(0).children;
            proof {
                assert(node_wf(t, 0));
                assert(out.deep_view() =~= concat_over(cs@.take(0), f));
            }
            let mut k: usize = 0;
            while k < cs.len()
                invariant
                    t == tree@,
                    tree_wf(t),
                    0 < t.len(),
                    node_wf(t, 0),
                    cs@ == t[0].children,
                    k <= cs@.len(),
                    language != Language::Ruby,
                    f == top_imports_fn(language, t),
                    out.deep_view() == concat_over(cs@.take(k as int), f),
                decreases cs@.len() - k,
            {
                let c = cs[k];
                proof {
                    assert(0 < cs@[k as int] < t.len());
                    lemma_concat_over_step(cs@, f, k as int);
                }
                match language {
                    Language::TypeScript => push_ts_imports_at(tree, c, &mut out),
                    _ => push_go_imports_at(tree, c, &mut out),
                }
                k = k + 1;
            }
            proof {
                lemma_concat_over_all(cs@, f);
            }
            out
        },
    }
}

} // verus!
