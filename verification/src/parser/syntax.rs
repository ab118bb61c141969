//! A concrete syntax tree held as plain values: an arena of nodes in
//! pre-order, each with its grammar kind, the field under which it hangs in
//! its parent, its source text, its rows, its parent and its children.

use vstd::prelude::*;
use crate::parser::extract::{Symbol, SymbolKind, SymbolV};
use crate::text::{char_is_uppercase, is_uppercase, owned, str_eq};

verus! {

/// One node of a syntax tree.
#[derive(Debug)]
pub struct SyntaxNode {
    /// Grammar kind (`function_declaration`, `identifier`, `(`, ...).
    pub kind: String,
    /// Field under which the node hangs in its parent, if any.
    pub field: Option<String>,
    /// Source text of the node.
    pub text: String,
    /// Zero-based row of the first character.
    pub start_row: usize,
    /// Zero-based row of the last character.
    pub end_row: usize,
    /// A named node (not an anonymous token such as `(`).
    pub named: bool,
    /// An extra node (such as a comment) that may appear anywhere.
    pub extra: bool,
    /// Index of the parent node; `None` for the root.
    pub parent: Option<usize>,
    /// Indices of the children, in source order.
    pub children: Vec<usize>,
}

/// Mathematical view of a [`SyntaxNode`].
pub struct SyntaxNodeV {
    pub kind: Seq<char>,
    pub field: Option<Seq<char>>,
    pub text: Seq<char>,
    pub start_row: usize,
    pub end_row: usize,
    pub named: bool,
    pub extra: bool,
    pub parent: Option<usize>,
    pub children: Seq<usize>,
}

impl View for SyntaxNode {
    type V = SyntaxNodeV;

    open spec fn view(&self) -> SyntaxNodeV {
        SyntaxNodeV {
            kind: self.kind@,
            field: self.field.deep_view(),
            text: self.text@,
            start_row: self.start_row,
            end_row: self.end_row,
            named: self.named,
            extra: self.extra,
            parent: self.parent,
            children: self.children@,
        }
    }
}

impl DeepView for SyntaxNode {
    type V = SyntaxNodeV;

    open spec fn deep_view(&self) -> SyntaxNodeV {
        self@
    }
}

/// A syntax tree; node 0 is the root.
#[derive(Debug)]
pub struct SyntaxTree {
    pub nodes: Vec<SyntaxNode>,
}

impl View for SyntaxTree {
    type V = Seq<SyntaxNodeV>;

    open spec fn view(&self) -> Seq<SyntaxNodeV> {
        self.nodes.deep_view()
    }
}

/// Node `i` comes before its children and after its parent, and its rows
/// can be numbered from one.
pub open spec fn node_wf(t: Seq<SyntaxNodeV>, i: int) -> bool {
    &&& forall|k: int| 0 <= k < t[i].children.len() ==> i < #[trigger] t[i].children[k] < t.len()
    &&& t[i].parent matches Some(p) ==> p < i
    &&& t[i].start_row < usize::MAX
    &&& t[i].end_row < usize::MAX
}

/// The arena is in pre-order: children after their parent, parents before
/// their children.
pub open spec fn tree_wf(t: Seq<SyntaxNodeV>) -> bool {
    forall|i: int| 0 <= i < t.len() ==> #[trigger] node_wf(t, i)
}

/// The first of the nodes `cs` that hangs under field `f`.
pub open spec fn field_child_in(t: Seq<SyntaxNodeV>, cs: Seq<usize>, f: Seq<char>) -> Option<usize>
    decreases cs.len(),
{
    if cs.len() == 0 {
        None
    } else if t[cs[0] as int].field == Some(f) {
        Some(cs[0])
    } else {
        field_child_in(t, cs.drop_first(), f)
    }
}

/// The first child of node `i` under field `f` (`child_by_field_name`).
pub open spec fn field_child(t: Seq<SyntaxNodeV>, i: int, f: Seq<char>) -> Option<usize> {
    field_child_in(t, t[i].children, f)
}

/// The text of the first child of node `i` under field `f`.
pub open spec fn field_text(t: Seq<SyntaxNodeV>, i: int, f: Seq<char>) -> Option<Seq<char>> {
    match field_child(t, i, f) {
        Some(c) => Some(t[c as int].text),
        None => None,
    }
}

/// The kind of the first child of node `i` under field `f`.
pub open spec fn field_kind(t: Seq<SyntaxNodeV>, i: int, f: Seq<char>) -> Option<Seq<char>> {
    match field_child(t, i, f) {
        Some(c) => Some(t[c as int].kind),
        None => None,
    }
}

/// A string whose first character is upper case.
pub open spec fn starts_upper(s: Seq<char>) -> bool {
    s.len() > 0 && char_is_uppercase(s[0])
}

/// The symbol for a definition spanning node `n` (rows counted from one),
/// with no file yet and no optional attributes.
pub open spec fn symbol_at(
    name: Seq<char>,
    kind: SymbolKind,
    n: SyntaxNodeV,
    is_exported: bool,
    parent: Option<Seq<char>>,
) -> SymbolV {
    SymbolV {
        name,
        kind,
        file_path: Seq::empty(),
        start_line: (n.start_row + 1) as usize,
        end_line: (n.end_row + 1) as usize,
        is_exported,
        parent_name: parent,
        superclass: None,
        interfaces: Seq::empty(),
        type_annotation: None,
        param_count: None,
    }
}

impl SyntaxTree {
    /// Whether the tree is in pre-order (see [`tree_wf`]).
    pub fn well_formed(&self) -> (r: bool)
        ensures
            r == tree_wf(self@),
    {
        let ghost t = self@;
        let n = self.nodes.len();
        let mut i: usize = 0;
        while i < n
            invariant
                t == self@,
                n == t.len(),
                i <= n,
                forall|j: int| 0 <= j < i ==> #[trigger] node_wf(t, j),
            decreases n - i,
        {
            let node = &self.nodes[i];
            proof {
                assert(t[i as int] == node@);
            }
            if node.start_row == usize::MAX || node.end_row == usize::MAX {
                proof {
                    assert(!node_wf(t, i as int));
                }
                return false;
            }
            match node.parent {
                Some(p) => {
                    if p >= i {
                        proof {
                            assert(!node_wf(t, i as int));
                        }
                        return false;
                    }
                },
                None => {},
            }
            let mut k: usize = 0;
            while k < node.children.len()
                invariant
                    t == self@,
                    i < n,
                    t[i as int] == node@,
                    n == t.len(),
                    k <= node.children@.len(),
                    forall|q: int| 0 <= q < k ==> i < #[trigger] node.children@[q] < n,
                decreases node.children@.len() - k,
            {
                let c = node.children[k];
                if c <= i || c >= n {
                    proof {
                        assert(t[i as int].children[k as int] == c);
                        assert(!node_wf(t, i as int));
                    }
                    return false;
                }
                k = k + 1;
            }
            proof {
                assert(node_wf(t, i as int));
            }
            i = i + 1;
        }
        true
    }

    /// The first child of node `i` under field `f`.
    pub fn child_by_field(&self, i: usize, f: &str) -> (r: Option<usize>)
        requires
            tree_wf(self@),
            i < self@.len(),
        ensures
            r == field_child(self@, i as int, f@),
            r matches Some(c) ==> i < c < self@.len(),
    {
        let ghost t = self@;
        let cs = &self.nodes[i].children;
        proof {
            assert(node_wf(t, i as int));
            assert(cs@ == t[i as int].children);
            assert(cs@.skip(0) =~= cs@);
        }
        let mut k: usize = 0;
        while k < cs.len()
            invariant
                t == self@,
                i < t.len(),
                node_wf(t, i as int),
                cs@ == t[i as int].children,
                k <= cs@.len(),
                field_child_in(t, cs@, f@) == field_child_in(t, cs@.skip(k as int), f@),
            decreases cs@.len() - k,
        {
            let c = cs[k];
            proof {
                assert(i < cs@[k as int] < t.len());
                assert(cs@.skip(k as int)[0] == c);
                assert(cs@.skip(k as int).drop_first() =~= cs@.skip(k + 1));
                assert(t[c as int] == self.nodes@[c as int]@);
            }
            let hit = match &self.nodes[c].field {
                Some(g) => str_eq(g.as_str(), f),
                None => false,
            };
            if hit {
                return Some(c);
            }
            k = k + 1;
        }
        None
    }

    /// The text of the first child of node `i` under field `f`.
    pub fn field_text(&self, i: usize, f: &str) -> (r: Option<String>)
        requires
            tree_wf(self@),
            i < self@.len(),
        ensures
            r.deep_view() == field_text(self@, i as int, f@),
    {
        match self.child_by_field(i, f) {
            Some(c) => {
                proof {
                    assert(self@[c as int] == self.nodes@[c as int]@);
                }
                Some(self.nodes[c].text.clone())
            },
            None => None,
        }
    }

    /// The kind of node `i` is `k`.
    pub fn kind_is(&self, i: usize, k: &str) -> (r: bool)
        requires
            i < self@.len(),
        ensures
            r == (self@[i as int].kind == k@),
    {
        proof {
            assert(self@[i as int] == self.nodes@[i as int]@);
        }
        str_eq(self.nodes[i].kind.as_str(), k)
    }

    /// The symbol for a definition spanning node `i`.
    pub fn symbol_at(
        &self,
        i: usize,
        name: String,
        kind: SymbolKind,
        is_exported: bool,
        parent: Option<String>,
    ) -> (r: Symbol)
        requires
            tree_wf(self@),
            i < self@.len(),
        ensures
            r@ == symbol_at(name@, kind, self@[i as int], is_exported, parent.deep_view()),
    {
        proof {
            assert(node_wf(self@, i as int));
            assert(self@[i as int] == self.nodes@[i as int]@);
        }
        let n = &self.nodes[i];
        let r = Symbol::new(name, kind, n.start_row + 1, n.end_row + 1, is_exported, parent);
        proof {
            assert(r.interfaces.deep_view() =~= Seq::<Seq<char>>::empty());
        }
        r
    }
}

// ─── Folds over children ────────────────────────────────────────────

/// The concatenation of `f(c)` over the nodes `cs`, in order.
pub open spec fn concat_over<A>(cs: Seq<usize>, f: spec_fn(usize) -> Seq<A>) -> Seq<A>
    decreases cs.len(),
{
    if cs.len() == 0 {
        Seq::empty()
    } else {
        concat_over(cs.drop_last(), f) + f(cs.last())
    }
}

/// One more element of a fold.
pub proof fn lemma_concat_over_step<A>(cs: Seq<usize>, f: spec_fn(usize) -> Seq<A>, k: int)
    requires
        0 <= k < cs.len(),
    ensures
        concat_over(cs.take(k + 1), f) == concat_over(cs.take(k), f) + f(cs[k]),
{
    assert(cs.take(k + 1).drop_last() =~= cs.take(k));
    assert(cs.take(k + 1).last() == cs[k]);
}

/// A fold over all of `cs`.
pub proof fn lemma_concat_over_all<A>(cs: Seq<usize>, f: spec_fn(usize) -> Seq<A>)
    ensures
        concat_over(cs.take(cs.len() as int), f) == concat_over(cs, f),
{
    assert(cs.take(cs.len() as int) =~= cs);
}

/// The first of the nodes `cs` whose kind is `a` or `b`.
pub open spec fn first_of_kinds(t: Seq<SyntaxNodeV>, cs: Seq<usize>, a: Seq<char>, b: Seq<char>) -> Option<usize>
    decreases cs.len(),
{
    if cs.len() == 0 {
        None
    } else if t[cs[0] as int].kind == a || t[cs[0] as int].kind == b {
        Some(cs[0])
    } else {
        first_of_kinds(t, cs.drop_first(), a, b)
    }
}

impl SyntaxTree {
    /// Node `i`.
    pub fn node(&self, i: usize) -> (r: &SyntaxNode)
        requires
            i < self@.len(),
        ensures
            r@ == self@[i as int],
    {
        &self.nodes[i]
    }

    /// The kind of node `i` is `a` or `b`.
    pub fn kind_is_either(&self, i: usize, a: &str, b: &str) -> (r: bool)
        requires
            i < self@.len(),
        ensures
            r == (self@[i as int].kind == a@ || self@[i as int].kind == b@),
    {
        self.kind_is(i, a) || self.kind_is(i, b)
    }

    /// The first child of node `i` whose kind is `a` or `b`.
    pub fn first_child_of_kinds(&self, i: usize, a: &str, b: &str) -> (r: Option<usize>)
        requires
            tree_wf(self@),
            i < self@.len(),
        ensures
            r == first_of_kinds(self@, self@[i as int].children, a@, b@),
            r matches Some(c) ==> i < c < self@.len(),
    {
        let ghost t = self@;
        let cs = &self.node(i).children;
        proof {
            assert(node_wf(t, i as int));
            assert(cs@.skip(0) =~= cs@);
        }
        let mut k: usize = 0;
        while k < cs.len()
            invariant
                t == self@,
                i < t.len(),
                node_wf(t, i as int),
                cs@ == t[i as int].children,
                k <= cs@.len(),
                first_of_kinds(t, cs@, a@, b@) == first_of_kinds(t, cs@.skip(k as int), a@, b@),
            decreases cs@.len() - k,
        {
            let c = cs[k];
            proof {
                assert(i < cs@[k as int] < t.len());
                assert(cs@.skip(k as int)[0] == c);
                assert(cs@.skip(k as int).drop_first() =~= cs@.skip(k + 1));
            }
            if self.kind_is_either(c, a, b) {
                return Some(c);
            }
            k = k + 1;
        }
        None
    }
}

// ─── Enclosing definitions ──────────────────────────────────────────

/// Kinds of named function-like definitions.
pub open spec fn is_function_like(k: Seq<char>) -> bool {
    k == "function_declaration"@ || k == "method_definition"@ || k == "method"@ || k == "singleton_method"@ || k
        == "method_declaration"@ || k == "func_literal"@
}

/// Kinds of class-like definitions.
pub open spec fn is_class_like(k: Seq<char>) -> bool {
    k == "class_declaration"@ || k == "class"@ || k == "module"@
}

/// The one-based line of node `n`.
pub open spec fn line_of(t: Seq<SyntaxNodeV>, n: int) -> usize {
    (t[n].start_row + 1) as usize
}

/// Enclosing function name, enclosing class name, and the line of the node
/// that named the function: what the walk up from node `p` adds to `acc`.
/// The nearest named function (an anonymous function takes the name of the
/// variable it is assigned to) and the nearest named class win.
pub open spec fn enclosing_from(t: Seq<SyntaxNodeV>, p: int, acc: (Option<Seq<char>>, Option<Seq<char>>, usize)) -> (
    Option<Seq<char>>,
    Option<Seq<char>>,
    usize,
)
    decreases p,
{
    if p < 0 || p >= t.len() {
        acc
    } else {
        let k = t[p].kind;
        let next = if is_function_like(k) && acc.0 is None {
            match field_text(t, p, "name"@) {
                Some(n) => (Some(n), acc.1, line_of(t, p)),
                None => acc,
            }
        } else if (k == "arrow_function"@ || k == "function"@) && acc.0 is None {
            match t[p].parent {
                Some(g) => if 0 <= g < t.len() && t[g as int].kind == "variable_declarator"@ {
                    match field_text(t, g as int, "name"@) {
                        Some(n) => (Some(n), acc.1, line_of(t, g as int)),
                        None => acc,
                    }
                } else {
                    acc
                },
                None => acc,
            }
        } else if is_class_like(k) && acc.1 is None {
            (acc.0, field_text(t, p, "name"@), acc.2)
        } else {
            acc
        };
        match t[p].parent {
            Some(q) => if q < p {
                enclosing_from(t, q as int, next)
            } else {
                next
            },
            None => next,
        }
    }
}

/// Enclosing function, class and function line of node `n` (line 0 when no
/// named function encloses it).
pub open spec fn enclosing(t: Seq<SyntaxNodeV>, n: int) -> (Option<Seq<char>>, Option<Seq<char>>, usize) {
    match t[n].parent {
        Some(p) => enclosing_from(t, p as int, (None, None, 0)),
        None => (None, None, 0),
    }
}

impl SyntaxTree {
    /// The enclosing function name, class name and function line of node `n`.
    pub fn find_enclosing(&self, n: usize) -> (r: (Option<String>, Option<String>, usize))
        requires
            tree_wf(self@),
            n < self@.len(),
        ensures
            (r.0.deep_view(), r.1.deep_view(), r.2) == enclosing(self@, n as int),
    {
        let ghost t = self@;
        proof {
            assert(node_wf(t, n as int));
        }
        let mut func: Option<String> = None;
        let mut class: Option<String> = None;
        let mut line: usize = 0;
        let mut current = self.node(n).parent;
        loop
            invariant
                t == self@,
                tree_wf(t),
                current matches Some(p) ==> p < t.len(),
                enclosing(t, n as int) == match current {
                    Some(p) => enclosing_from(t, p as int, (func.deep_view(), class.deep_view(), line)),
                    None => (func.deep_view(), class.deep_view(), line),
                },
            decreases match current {
                Some(p) => p + 1,
                None => 0,
            },
        {
            let p = match current {
                Some(p) => p,
                None => return (func, class, line),
            };
            proof {
                assert(node_wf(t, p as int));
            }
            let node = self.node(p);
            let function_like = self.kind_is(p, "function_declaration") || self.kind_is(p, "method_definition")
                || self.kind_is(p, "method") || self.kind_is(p, "singleton_method") || self.kind_is(
                p,
                "method_declaration",
            ) || self.kind_is(p, "func_literal");
            if function_like && func.is_none() {
                match self.field_text(p, "name") {
                    Some(nm) => {
                        func = Some(nm);
                        line = node.start_row + 1;
                    },
                    None => {},
                }
            } else if self.kind_is_either(p, "arrow_function", "function") && func.is_none() {
                match node.parent {
                    Some(g) => {
                        proof {
                            assert(g < p);
                        }
                        if self.kind_is(g, "variable_declarator") {
                            match self.field_text(g, "name") {
                                Some(nm) => {
                                    proof {
                                        assert(node_wf(t, g as int));
                                    }
                                    func = Some(nm);
                                    line = self.node(g).start_row + 1;
                                },
                                None => {},
                            }
                        }
                    },
                    None => {},
                }
            } else if (self.kind_is(p, "class_declaration") || self.kind_is(p, "class") || self.kind_is(p, "module"))
                && class.is_none() {
                class = self.field_text(p, "name");
            }
            current = node.parent;
        }
    }
}

/// Whether the first character of `s` is upper case.
pub fn first_is_upper(s: &str) -> (r: bool)
    ensures
        r == starts_upper(s@),
{
    if s.unicode_len() == 0 {
        false
    } else {
        is_uppercase(s.get_char(0))
    }
}

/// `s` without leading occurrences of `c` (`str::trim_start_matches`).
pub open spec fn strip_leading(s: Seq<char>, c: char) -> Seq<char>
    decreases s.len(),
{
    if s.len() > 0 && s[0] == c {
        strip_leading(s.drop_first(), c)
    } else {
        s
    }
}

/// `s` without leading occurrences of `c`.
pub fn trim_start_char(s: &str, c: char) -> (r: String)
    ensures
        r@ == strip_leading(s@, c),
{
    let n = s.unicode_len();
    let mut i: usize = 0;
    proof {
        assert(s@.skip(0) =~= s@);
    }
    while i < n && s.get_char(i) == c
        invariant
            n == s@.len(),
            i <= n,
            strip_leading(s@, c) == strip_leading(s@.skip(i as int), c),
        decreases n - i,
    {
        proof {
            assert(s@.skip(i as int)[0] == c);
            assert(s@.skip(i as int).drop_first() =~= s@.skip(i + 1));
        }
        i = i + 1;
    }
    proof {
        if i < n {
            assert(s@.skip(i as int)[0] == s@[i as int]);
        }
    }
    let r = s.substring_char(i, n);
    proof {
        assert(r@ =~= s@.skip(i as int));
    }
    owned(r)
}

} // verus!
