//! Intra-function data-flow extraction from syntax trees: assignments,
//! call arguments, returned values, string interpolations and field
//! accesses, each with the enclosing function and class.

use vstd::prelude::*;
use crate::parser::dataflow::{FlowKind, RawFlow, RawFlowV};
use crate::parser::extract_calls::field_text_or_empty;
use crate::parser::syntax::{
    concat_over, enclosing, field_child, field_child_in, field_text, lemma_concat_over_all, lemma_concat_over_step, line_of,
    node_wf, tree_wf, SyntaxNodeV, SyntaxTree,
};
use crate::parser::Language;
use crate::text::{concat, contains, decimal, is_infix_of, owned, push_char, push_decimal_wide};

verus! {

// ─── Specification ──────────────────────────────────────────────────

/// A flow recorded in the context of node `ctx` (which fixes the enclosing
/// function and class).
pub open spec fn flow(
    t: Seq<SyntaxNodeV>,
    ctx: int,
    source: Seq<char>,
    sink: Seq<char>,
    kind: FlowKind,
    source_line: usize,
    sink_line: usize,
) -> RawFlowV {
    let e = enclosing(t, ctx);
    RawFlowV {
        source_expr: source,
        sink_expr: sink,
        flow_kind: kind,
        enclosing_function: e.0,
        enclosing_parent: e.1,
        enclosing_start_line: e.2,
        source_line,
        sink_line,
    }
}

/// `callee[argN]`, the sink of the `N`-th argument.
pub open spec fn arg_sink(callee: Seq<char>, idx: nat) -> Seq<char> {
    callee + "[arg"@ + decimal(idx) + "]"@
}

/// Punctuation of an argument list.
pub open spec fn is_punct(k: Seq<char>) -> bool {
    k == "("@ || k == ")"@ || k == ","@
}

/// An assignment flow from field `src` to field `dst` of node `n`, if both exist.
pub open spec fn assignment_flow(t: Seq<SyntaxNodeV>, n: int, dst: Seq<char>, src: Seq<char>) -> Seq<RawFlowV> {
    match (field_child(t, n, dst), field_child(t, n, src)) {
        (Some(l), Some(r)) => seq![
            flow(t, n, t[r as int].text, t[l as int].text, FlowKind::Assignment, line_of(t, r as int), line_of(t, l as int)),
        ],
        _ => Seq::empty(),
    }
}

/// The first child of `n` that is neither the `return` keyword nor an extra.
pub open spec fn first_returned(t: Seq<SyntaxNodeV>, cs: Seq<usize>) -> Option<usize>
    decreases cs.len(),
{
    if cs.len() == 0 {
        None
    } else if t[cs[0] as int].kind != "return"@ && !t[cs[0] as int].extra {
        Some(cs[0])
    } else {
        first_returned(t, cs.drop_first())
    }
}

/// The flow of the first returned value of return node `n`.
pub open spec fn first_return_flow(t: Seq<SyntaxNodeV>, n: int) -> Seq<RawFlowV> {
    match first_returned(t, t[n].children) {
        Some(c) => seq![flow(t, n, t[c as int].text, "return"@, FlowKind::Return, line_of(t, c as int), line_of(t, n))],
        None => Seq::empty(),
    }
}

/// Argument flows of TypeScript arguments `cs` (numbered by position).
pub open spec fn ts_args(t: Seq<SyntaxNodeV>, n: int, callee: Seq<char>, cs: Seq<usize>) -> Seq<RawFlowV>
    decreases cs.len(),
{
    if cs.len() == 0 {
        Seq::empty()
    } else {
        let prev = ts_args(t, n, callee, cs.drop_last());
        let x = cs.last() as int;
        if is_punct(t[x].kind) {
            prev
        } else {
            prev.push(
                flow(t, n, t[x].text, arg_sink(callee, (cs.len() - 1) as nat), FlowKind::Argument, line_of(t, x), line_of(t, n)),
            )
        }
    }
}

/// Argument flows of arguments `cs` numbered from `start` over the
/// non-punctuation ones; with the next number.
pub open spec fn counted_args(t: Seq<SyntaxNodeV>, n: int, callee: Seq<char>, cs: Seq<usize>, start: nat) -> (
    Seq<RawFlowV>,
    nat,
)
    decreases cs.len(),
{
    if cs.len() == 0 {
        (Seq::empty(), start)
    } else {
        let (prev, cnt) = counted_args(t, n, callee, cs.drop_last(), start);
        let x = cs.last() as int;
        if is_punct(t[x].kind) {
            (prev, cnt)
        } else {
            (
                prev.push(flow(t, n, t[x].text, arg_sink(callee, cnt), FlowKind::Argument, line_of(t, x), line_of(t, n))),
                cnt + 1,
            )
        }
    }
}

/// Argument flows of Ruby arguments `cs`: an argument list contributes its
/// own arguments; numbering runs over both levels.
pub open spec fn rb_args(t: Seq<SyntaxNodeV>, n: int, callee: Seq<char>, cs: Seq<usize>) -> (Seq<RawFlowV>, nat)
    decreases cs.len(),
{
    if cs.len() == 0 {
        (Seq::empty(), 0)
    } else {
        let (prev, cnt) = rb_args(t, n, callee, cs.drop_last());
        let x = cs.last() as int;
        if t[x].kind == "argument_list"@ {
            let inner = counted_args(t, n, callee, t[x].children, cnt);
            (prev + inner.0, inner.1)
        } else if is_punct(t[x].kind) {
            (prev, cnt)
        } else {
            (
                prev.push(flow(t, n, t[x].text, arg_sink(callee, cnt), FlowKind::Argument, line_of(t, x), line_of(t, n))),
                cnt + 1,
            )
        }
    }
}

/// Delimiters inside an interpolation: `${` and `}` (TypeScript), or
/// `#{`, `}` and the string delimiters (Ruby).
pub open spec fn is_interp_delim(k: Seq<char>, ruby: bool) -> bool {
    if ruby {
        k == "#{"@ || k == "}"@ || k == "string_begin"@ || k == "string_end"@
    } else {
        k == "${"@ || k == "}"@
    }
}

/// The interpolation flow of node `x` inside an interpolation of string `n`.
pub open spec fn interp_part(t: Seq<SyntaxNodeV>, n: int, x: int, ruby: bool) -> Seq<RawFlowV> {
    if !is_interp_delim(t[x].kind, ruby) {
        seq![flow(t, n, t[x].text, "string_interpolation"@, FlowKind::StringInterp, line_of(t, x), line_of(t, n))]
    } else {
        Seq::empty()
    }
}

/// Each node's interpolation flow.
pub open spec fn interp_part_fn(t: Seq<SyntaxNodeV>, n: int, ruby: bool) -> spec_fn(usize) -> Seq<RawFlowV> {
    |x: usize| interp_part(t, n, x as int, ruby)
}

/// For an interpolation child of string `n`, the expressions inside it.
pub open spec fn interp_fn(t: Seq<SyntaxNodeV>, n: int, ruby: bool) -> spec_fn(usize) -> Seq<RawFlowV> {
    |s: usize|
        if t[s as int].kind == (if ruby {
            "interpolation"@
        } else {
            "template_substitution"@
        }) {
            concat_over(t[s as int].children, interp_part_fn(t, n, ruby))
        } else {
            Seq::empty()
        }
}

/// Interpolation flows of string node `n`.
pub open spec fn interp_flows(t: Seq<SyntaxNodeV>, n: int, ruby: bool) -> Seq<RawFlowV> {
    concat_over(t[n].children, interp_fn(t, n, ruby))
}

/// Position of the first `c` in `s`.
pub open spec fn first_index_of(s: Seq<char>, c: char) -> int
    decreases s.len(),
{
    if s.len() == 0 {
        0
    } else if s[0] == c {
        0
    } else {
        1 + first_index_of(s.drop_first(), c)
    }
}

/// TypeScript field access `a.b.c` in value node `v`: from `a` to the whole.
pub open spec fn ts_member_flow(t: Seq<SyntaxNodeV>, v: int, ctx: int) -> Seq<RawFlowV> {
    let text = t[v].text;
    if t[v].kind == "member_expression"@ && is_infix_of("."@, text) {
        seq![
            flow(
                t,
                ctx,
                text.take(first_index_of(text, '.')),
                text,
                FlowKind::FieldAccess,
                line_of(t, v),
                line_of(t, v),
            ),
        ]
    } else {
        Seq::empty()
    }
}

/// Ruby field access: a call with a receiver whose text holds a dot.
pub open spec fn rb_member_flow(t: Seq<SyntaxNodeV>, v: int, ctx: int) -> Seq<RawFlowV> {
    if t[v].kind == "call"@ && is_infix_of("."@, t[v].text) {
        match field_text(t, v, "receiver"@) {
            Some(r) => seq![flow(t, ctx, r, t[v].text, FlowKind::FieldAccess, line_of(t, v), line_of(t, v))],
            None => Seq::empty(),
        }
    } else {
        Seq::empty()
    }
}

/// Go field access at selector node `x`: from its operand to the whole.
pub open spec fn go_selector_flow(t: Seq<SyntaxNodeV>, x: int, ctx: int) -> Seq<RawFlowV> {
    if t[x].kind == "selector_expression"@ && is_infix_of("."@, t[x].text) {
        match field_text(t, x, "operand"@) {
            Some(o) => seq![flow(t, ctx, o, t[x].text, FlowKind::FieldAccess, line_of(t, x), line_of(t, x))],
            None => Seq::empty(),
        }
    } else {
        Seq::empty()
    }
}

/// Go field accesses below node `x` through nested selectors (first `k`
/// children), appended to `acc`.
pub open spec fn go_chain_walk(t: Seq<SyntaxNodeV>, x: int, k: nat, ctx: int, acc: Seq<RawFlowV>) -> Seq<RawFlowV>
    decreases t.len() - x, k,
{
    if k == 0 || x < 0 || x >= t.len() || k > t[x].children.len() {
        acc
    } else {
        let before = go_chain_walk(t, x, (k - 1) as nat, ctx, acc);
        let c = t[x].children[k - 1] as int;
        if c <= x || c >= t.len() {
            before
        } else if t[c].kind == "selector_expression"@ {
            go_chain_walk(t, c, t[c].children.len(), ctx, before + go_selector_flow(t, c, ctx))
        } else {
            before
        }
    }
}

/// The walk only appends to what it starts from.
pub proof fn lemma_chain_walk_prefix(t: Seq<SyntaxNodeV>, x: int, k: nat, ctx: int, pre: Seq<RawFlowV>, acc: Seq<RawFlowV>)
    ensures
        go_chain_walk(t, x, k, ctx, pre + acc) == pre + go_chain_walk(t, x, k, ctx, acc),
    decreases t.len() - x, k,
{
    if k == 0 || x < 0 || x >= t.len() || k > t[x].children.len() {
    } else {
        lemma_chain_walk_prefix(t, x, (k - 1) as nat, ctx, pre, acc);
        let before = go_chain_walk(t, x, (k - 1) as nat, ctx, acc);
        let c = t[x].children[k - 1] as int;
        if c <= x || c >= t.len() {
        } else if t[c].kind == "selector_expression"@ {
            assert(pre + before + go_selector_flow(t, c, ctx) =~= pre + (before + go_selector_flow(t, c, ctx)));
            lemma_chain_walk_prefix(t, c, t[c].children.len(), ctx, pre, before + go_selector_flow(t, c, ctx));
        }
    }
}

/// Go field accesses of value node `v` and its nested selectors.
pub open spec fn go_chain(t: Seq<SyntaxNodeV>, v: int, ctx: int) -> Seq<RawFlowV> {
    go_chain_walk(t, v, t[v].children.len(), ctx, go_selector_flow(t, v, ctx))
}

/// Go kinds returned as single values.
pub open spec fn is_go_return_value(k: Seq<char>) -> bool {
    k == "identifier"@ || k == "call_expression"@ || k == "selector_expression"@ || k == "int_literal"@ || k
        == "true"@ || k == "false"@ || k == "nil"@
}

/// The return flow of one child of a Go return statement.
pub open spec fn go_return_part(t: Seq<SyntaxNodeV>, n: int, c: int) -> Seq<RawFlowV> {
    if t[c].kind == "expression_list"@ || (t[c].kind != "return"@ && !t[c].extra && is_go_return_value(t[c].kind)) {
        seq![flow(t, n, t[c].text, "return"@, FlowKind::Return, line_of(t, c), line_of(t, n))]
    } else {
        Seq::empty()
    }
}

/// Each child's return flow in a Go return statement `n`.
pub open spec fn go_return_fn(t: Seq<SyntaxNodeV>, n: int) -> spec_fn(usize) -> Seq<RawFlowV> {
    |c: usize| go_return_part(t, n, c as int)
}

/// Flows recorded at TypeScript node `n`.
pub open spec fn ts_node_flows(t: Seq<SyntaxNodeV>, n: int) -> Seq<RawFlowV> {
    let k = t[n].kind;
    if k == "variable_declarator"@ {
        assignment_flow(t, n, "name"@, "value"@) + match (field_child(t, n, "name"@), field_child(t, n, "value"@)) {
            (Some(_), Some(v)) => ts_member_flow(t, v as int, n),
            _ => Seq::empty(),
        }
    } else if k == "assignment_expression"@ {
        assignment_flow(t, n, "left"@, "right"@)
    } else if k == "return_statement"@ {
        first_return_flow(t, n)
    } else if k == "call_expression"@ {
        match field_child(t, n, "arguments"@) {
            Some(a) => ts_args(t, n, field_text_or_empty(t, n, "function"@), t[a as int].children),
            None => Seq::empty(),
        }
    } else if k == "template_string"@ {
        interp_flows(t, n, false)
    } else {
        Seq::empty()
    }
}

/// Flows recorded at Go node `n`.
pub open spec fn go_node_flows(t: Seq<SyntaxNodeV>, n: int) -> Seq<RawFlowV> {
    let k = t[n].kind;
    if k == "short_var_declaration"@ {
        assignment_flow(t, n, "left"@, "right"@) + match (field_child(t, n, "left"@), field_child(t, n, "right"@)) {
            (Some(_), Some(r)) => go_chain(t, r as int, n),
            _ => Seq::empty(),
        }
    } else if k == "assignment_statement"@ {
        assignment_flow(t, n, "left"@, "right"@)
    } else if k == "return_statement"@ {
        concat_over(t[n].children, go_return_fn(t, n))
    } else if k == "call_expression"@ {
        match field_child(t, n, "arguments"@) {
            Some(a) => counted_args(t, n, field_text_or_empty(t, n, "function"@), t[a as int].children, 0).0,
            None => Seq::empty(),
        }
    } else {
        Seq::empty()
    }
}

/// The callee of a Ruby call for argument sinks: `receiver.method`, or the
/// method alone.
pub open spec fn rb_callee(t: Seq<SyntaxNodeV>, n: int) -> Seq<char> {
    let m = field_text_or_empty(t, n, "method"@);
    match field_text(t, n, "receiver"@) {
        Some(r) => r + "."@ + m,
        None => m,
    }
}

/// Flows recorded at Ruby node `n`.
pub open spec fn rb_node_flows(t: Seq<SyntaxNodeV>, n: int) -> Seq<RawFlowV> {
    let k = t[n].kind;
    if k == "assignment"@ {
        assignment_flow(t, n, "left"@, "right"@) + match (field_child(t, n, "left"@), field_child(t, n, "right"@)) {
            (Some(_), Some(r)) => rb_member_flow(t, r as int, n),
            _ => Seq::empty(),
        }
    } else if k == "return"@ {
        first_return_flow(t, n)
    } else if k == "call"@ {
        match field_child(t, n, "arguments"@) {
            Some(a) => rb_args(t, n, rb_callee(t, n), t[a as int].children).0,
            None => Seq::empty(),
        }
    } else if k == "string"@ || k == "string_content"@ {
        interp_flows(t, n, true)
    } else {
        Seq::empty()
    }
}

/// Flows recorded at node `n` in the given language.
pub open spec fn node_flows(lang: Language, t: Seq<SyntaxNodeV>, n: int) -> Seq<RawFlowV> {
    match lang {
        Language::TypeScript => ts_node_flows(t, n),
        Language::Go => go_node_flows(t, n),
        Language::Ruby => rb_node_flows(t, n),
    }
}

/// Flows after visiting the subtrees of the first `k` children of node `i`
/// (pre-order), appended to `acc`.
pub open spec fn flows_walk(lang: Language, t: Seq<SyntaxNodeV>, i: int, k: nat, acc: Seq<RawFlowV>) -> Seq<RawFlowV>
    decreases t.len() - i, k,
{
    if k == 0 || i < 0 || i >= t.len() || k > t[i].children.len() {
        acc
    } else {
        let before = flows_walk(lang, t, i, (k - 1) as nat, acc);
        let c = t[i].children[k - 1] as int;
        if c <= i || c >= t.len() {
            before
        } else {
            flows_walk(lang, t, c, t[c].children.len(), before + node_flows(lang, t, c))
        }
    }
}

/// The data flows of a tree, visiting every node in pre-order.
pub open spec fn tree_flows(lang: Language, t: Seq<SyntaxNodeV>) -> Seq<RawFlowV> {
    if t.len() == 0 {
        Seq::empty()
    } else {
        flows_walk(lang, t, 0, t[0].children.len(), node_flows(lang, t, 0))
    }
}

} // verus!

verus! {

// ─── Extraction ─────────────────────────────────────────────────────

/// A flow recorded in the context of node `ctx`.
fn flow_at(
    tree: &SyntaxTree,
    ctx: usize,
    source: String,
    sink: String,
    kind: FlowKind,
    source_line: usize,
    sink_line: usize,
) -> (r: RawFlow)
    requires
        tree_wf(tree@),
        ctx < tree@.len(),
    ensures
        r@ == flow(tree@, ctx as int, source@, sink@, kind, source_line, sink_line),
{
    let (enclosing_function, enclosing_parent, enclosing_start_line) = tree.find_enclosing(ctx);
    RawFlow {
        source_expr: source,
        sink_expr: sink,
        flow_kind: kind,
        enclosing_function,
        enclosing_parent,
        enclosing_start_line,
        source_line,
        sink_line,
    }
}

/// The one-based line of node `n`.
fn line_at(tree: &SyntaxTree, n: usize) -> (r: usize)
    requires
        tree_wf(tree@),
        n < tree@.len(),
    ensures
        r == line_of(tree@, n as int),
{
    proof {
        assert(node_wf(tree@, n as int));
    }
    tree.node(n).start_row + 1
}

/// `callee[argN]`.
fn arg_sink_of(callee: &str, idx: u128) -> (r: String)
    ensures
        r@ == arg_sink(callee@, idx as nat),
{
    let mut s = concat(callee, "[arg");
    push_decimal_wide(&mut s, idx);
    push_char(&mut s, ']');
    proof {
        reveal_strlit("[arg");
        reveal_strlit("]");
        assert(s@ =~= arg_sink(callee@, idx as nat));
    }
    s
}

/// Whether node `x` is argument-list punctuation.
fn punct(tree: &SyntaxTree, x: usize) -> (r: bool)
    requires
        x < tree@.len(),
    ensures
        r == is_punct(tree@[x as int].kind),
{
    tree.kind_is(x, "(") || tree.kind_is(x, ")") || tree.kind_is(x, ",")
}

/// Appends the assignment flow from field `src` to field `dst` of node `n`.
fn push_assignment(tree: &SyntaxTree, n: usize, dst: &str, src: &str, out: &mut Vec<RawFlow>)
    requires
        tree_wf(tree@),
        n < tree@.len(),
    ensures
        final(out).deep_view() == old(out).deep_view() + assignment_flow(tree@, n as int, dst@, src@),
{
    let ghost base = out.deep_view();
    match (tree.child_by_field(n, dst), tree.child_by_field(n, src)) {
        (Some(l), Some(r)) => {
            let f = flow_at(
                tree,
                n,
                tree.node(r).text.clone(),
                tree.node(l).text.clone(),
                FlowKind::Assignment,
                line_at(tree, r),
                line_at(tree, l),
            );
            out.push(f);
        },
        _ => {},
    }
    proof {
        assert(out.deep_view() =~= base + assignment_flow(tree@, n as int, dst@, src@));
    }
}

/// Appends the flow of the first returned value of return node `n`.
fn push_first_return(tree: &SyntaxTree, n: usize, out: &mut Vec<RawFlow>)
    requires
        tree_wf(tree@),
        n < tree@.len(),
    ensures
        final(out).deep_view() == old(out).deep_view() + first_return_flow(tree@, n as int),
{
    let ghost t = tree@;
    let ghost base = out.deep_view();
    let cs = &tree.node(n).children;
    proof {
        assert(node_wf(t, n as int));
        assert(cs@.skip(0) =~= cs@);
    }
    let mut k: usize = 0;
    while k < cs.len()
        invariant
            t == tree@,
            tree_wf(t),
            n < t.len(),
            node_wf(t, n as int),
            cs@ == t[n as int].children,
            k <= cs@.len(),
            first_returned(t, cs@) == first_returned(t, cs@.skip(k as int)),
            out.deep_view() == base,
            base == old(out).deep_view(),
        decreases cs@.len() - k,
    {
        let c = cs[k];
        proof {
            assert(n < cs@[k as int] < t.len());
            assert(cs@.skip(k as int)[0] == c);
            assert(cs@.skip(k as int).drop_first() =~= cs@.skip(k + 1));
        }
        if !tree.kind_is(c, "return") && !tree.node(c).extra {
            proof {
                assert(first_returned(t, cs@.skip(k as int)) == Some(c));
            }
            let f = flow_at(
                tree,
                n,
                tree.node(c).text.clone(),
                owned("return"),
                FlowKind::Return,
                line_at(tree, c),
                line_at(tree, n),
            );
            out.push(f);
            proof {
                assert(out.deep_view() =~= base + first_return_flow(t, n as int));
            }
            return;
        }
        k = k + 1;
    }
    proof {
        assert(out.deep_view() =~= base + first_return_flow(t, n as int));
    }
}

/// Appends the TypeScript argument flows of argument list `a` of call `n`.
fn push_ts_args(tree: &SyntaxTree, n: usize, a: usize, callee: &String, out: &mut Vec<RawFlow>)
    requires
        tree_wf(tree@),
        n < tree@.len(),
        a < tree@.len(),
    ensures
        final(out).deep_view() == old(out).deep_view() + ts_args(tree@, n as int, callee@, tree@[a as int].children),
{
    let ghost t = tree@;
    let ghost base = out.deep_view();
    let cs = &tree.node(a).children;
    proof {
        assert(node_wf(t, a as int));
        assert(cs@.take(0) =~= Seq::<usize>::empty());
        assert(base + ts_args(t, n as int, callee@, cs@.take(0)) =~= base);
    }
    let mut k: usize = 0;
    while k < cs.len()
        invariant
            t == tree@,
            tree_wf(t),
            n < t.len(),
            a < t.len(),
            node_wf(t, a as int),
            cs@ == t[a as int].children,
            k <= cs@.len(),
            out.deep_view() == base + ts_args(t, n as int, callee@, cs@.take(k as int)),
        decreases cs@.len() - k,
    {
        let x = cs[k];
        proof {
            assert(a < cs@[k as int] < t.len());
            assert(cs@.take(k + 1).drop_last() =~= cs@.take(k as int));
            assert(cs@.take(k + 1).last() == x);
        }
        let ghost before = out.deep_view();
        let ghost prev = ts_args(t, n as int, callee@, cs@.take(k as int));
        if !punct(tree, x) {
            let f = flow_at(
                tree,
                n,
                tree.node(x).text.clone(),
                arg_sink_of(callee.as_str(), k as u128),
                FlowKind::Argument,
                line_at(tree, x),
                line_at(tree, n),
            );
            let ghost fv = f@;
            out.push(f);
            proof {
                assert(fv == flow(t, n as int, t[x as int].text, arg_sink(callee@, k as nat), FlowKind::Argument, line_of(t, x as int), line_of(t, n as int)));
                assert(ts_args(t, n as int, callee@, cs@.take(k + 1)) == prev.push(fv));
                assert(out.deep_view() =~= before.push(fv));
            }
        } else {
            proof {
                assert(ts_args(t, n as int, callee@, cs@.take(k + 1)) == prev);
            }
        }
        proof {
            assert(out.deep_view() =~= base + ts_args(t, n as int, callee@, cs@.take(k + 1)));
        }
        k = k + 1;
    }
    proof {
        assert(cs@.take(cs@.len() as int) =~= cs@);
    }
}

/// Appends the argument flows of list `a` of call `n`, numbered from
/// `start`; returns the next number.
fn push_counted_args(tree: &SyntaxTree, n: usize, a: usize, callee: &String, start: u128, out: &mut Vec<RawFlow>) -> (r:
    u128)
    requires
        tree_wf(tree@),
        n < tree@.len(),
        a < tree@.len(),
        start <= u128::MAX - 0x1_0000_0000_0000_0000,
    ensures
        (final(out).deep_view(), r as nat) == ({
            let res = counted_args(tree@, n as int, callee@, tree@[a as int].children, start as nat);
            (old(out).deep_view() + res.0, res.1)
        }),
        r <= start + tree@[a as int].children.len(),
{
    let ghost t = tree@;
    let ghost base = out.deep_view();
    let cs = &tree.node(a).children;
    proof {
        assert(node_wf(t, a as int));
        assert(cs@.take(0) =~= Seq::<usize>::empty());
        assert(base + counted_args(t, n as int, callee@, cs@.take(0), start as nat).0 =~= base);
    }
    let mut cnt: u128 = start;
    let mut k: usize = 0;
    while k < cs.len()
        invariant
            t == tree@,
            tree_wf(t),
            n < t.len(),
            a < t.len(),
            node_wf(t, a as int),
            cs@ == t[a as int].children,
            k <= cs@.len(),
            start <= u128::MAX - 0x1_0000_0000_0000_0000,
            cnt <= start + k,
            out.deep_view() == base + counted_args(t, n as int, callee@, cs@.take(k as int), start as nat).0,
            cnt as nat == counted_args(t, n as int, callee@, cs@.take(k as int), start as nat).1,
        decreases cs@.len() - k,
    {
        let x = cs[k];
        proof {
            assert(a < cs@[k as int] < t.len());
            assert(cs@.take(k + 1).drop_last() =~= cs@.take(k as int));
            assert(cs@.take(k + 1).last() == x);
        }
        let ghost before = out.deep_view();
        let ghost prev = counted_args(t, n as int, callee@, cs@.take(k as int), start as nat);
        if !punct(tree, x) {
            let f = flow_at(
                tree,
                n,
                tree.node(x).text.clone(),
                arg_sink_of(callee.as_str(), cnt),
                FlowKind::Argument,
                line_at(tree, x),
                line_at(tree, n),
            );
            let ghost fv = f@;
            out.push(f);
            cnt = cnt + 1;
            proof {
                assert(counted_args(t, n as int, callee@, cs@.take(k + 1), start as nat) == (prev.0.push(fv), prev.1 + 1));
                assert(out.deep_view() =~= before.push(fv));
            }
        } else {
            proof {
                assert(counted_args(t, n as int, callee@, cs@.take(k + 1), start as nat) == prev);
            }
        }
        proof {
            assert(out.deep_view() =~= base + counted_args(t, n as int, callee@, cs@.take(k + 1), start as nat).0);
        }
        k = k + 1;
    }
    proof {
        assert(cs@.take(cs@.len() as int) =~= cs@);
    }
    cnt
}

/// Appends the Ruby argument flows of argument node `a` of call `n`.
fn push_rb_args(tree: &SyntaxTree, n: usize, a: usize, callee: &String, out: &mut Vec<RawFlow>)
    requires
        tree_wf(tree@),
        n < tree@.len(),
        a < tree@.len(),
    ensures
        final(out).deep_view() == old(out).deep_view() + rb_args(tree@, n as int, callee@, tree@[a as int].children).0,
{
    let ghost t = tree@;
    let ghost base = out.deep_view();
    let cs = &tree.node(a).children;
    proof {
        assert(node_wf(t, a as int));
        assert(cs@.take(0) =~= Seq::<usize>::empty());
        assert(base + rb_args(t, n as int, callee@, cs@.take(0)).0 =~= base);
    }
    let mut cnt: u128 = 0;
    let mut k: usize = 0;
    while k < cs.len()
        invariant
            t == tree@,
            tree_wf(t),
            n < t.len(),
            a < t.len(),
            node_wf(t, a as int),
            cs@ == t[a as int].children,
            k <= cs@.len(),
            cnt <= k * 0x1_0000_0000_0000_0000,
            out.deep_view() == base + rb_args(t, n as int, callee@, cs@.take(k as int)).0,
            cnt as nat == rb_args(t, n as int, callee@, cs@.take(k as int)).1,
        decreases cs@.len() - k,
    {
        let x = cs[k];
        proof {
            assert(a < cs@[k as int] < t.len());
            assert(cs@.take(k + 1).drop_last() =~= cs@.take(k as int));
            assert(cs@.take(k + 1).last() == x);
            assert(k <= 0xFFFF_FFFF_FFFF_FFFE);
            assert(cnt <= u128::MAX - 0x1_0000_0000_0000_0000) by (nonlinear_arith)
                requires
                    cnt <= k * 0x1_0000_0000_0000_0000,
                    k <= 0xFFFF_FFFF_FFFF_FFFE,
            ;
        }
        let ghost before = out.deep_view();
        let ghost prev = rb_args(t, n as int, callee@, cs@.take(k as int));
        if tree.kind_is(x, "argument_list") {
            proof {
                assert(node_wf(t, x as int));
            }
            let xl = tree.node(x).children.len();
            let next = push_counted_args(tree, n, x, callee, cnt, out);
            proof {
                assert(tree@[x as int].children.len() < 0x1_0000_0000_0000_0000);
                assert(rb_args(t, n as int, callee@, cs@.take(k + 1)) == (prev.0 + counted_args(t, n as int, callee@, t[x as int].children, prev.1).0, counted_args(t, n as int, callee@, t[x as int].children, prev.1).1));
                assert(next <= (k + 1) * 0x1_0000_0000_0000_0000) by (nonlinear_arith)
                    requires
                        next <= cnt + tree@[x as int].children.len(),
                        cnt <= k * 0x1_0000_0000_0000_0000,
                        tree@[x as int].children.len() < 0x1_0000_0000_0000_0000,
                ;
                assert(out.deep_view() =~= base + rb_args(t, n as int, callee@, cs@.take(k + 1)).0);
            }
            cnt = next;
        } else if !punct(tree, x) {
            let f = flow_at(
                tree,
                n,
                tree.node(x).text.clone(),
                arg_sink_of(callee.as_str(), cnt),
                FlowKind::Argument,
                line_at(tree, x),
                line_at(tree, n),
            );
            let ghost fv = f@;
            out.push(f);
            cnt = cnt + 1;
            proof {
                assert(rb_args(t, n as int, callee@, cs@.take(k + 1)) == (prev.0.push(fv), prev.1 + 1));
                assert(out.deep_view() =~= before.push(fv));
                assert(cnt <= (k + 1) * 0x1_0000_0000_0000_0000) by (nonlinear_arith)
                    requires
                        cnt <= k * 0x1_0000_0000_0000_0000 + 1,
                ;
                assert(out.deep_view() =~= base + rb_args(t, n as int, callee@, cs@.take(k + 1)).0);
            }
        } else {
            proof {
                assert(rb_args(t, n as int, callee@, cs@.take(k + 1)) == prev);
                assert(cnt <= (k + 1) * 0x1_0000_0000_0000_0000) by (nonlinear_arith)
                    requires
                        cnt <= k * 0x1_0000_0000_0000_0000,
                ;
                assert(out.deep_view() =~= base + rb_args(t, n as int, callee@, cs@.take(k + 1)).0);
            }
        }
        k = k + 1;
    }
    proof {
        assert(cs@.take(cs@.len() as int) =~= cs@);
    }
}

/// Whether node `x` is an interpolation delimiter.
fn interp_delim(tree: &SyntaxTree, x: usize, ruby: bool) -> (r: bool)
    requires
        x < tree@.len(),
    ensures
        r == is_interp_delim(tree@[x as int].kind, ruby),
{
    if ruby {
        tree.kind_is(x, "#{") || tree.kind_is(x, "}") || tree.kind_is(x, "string_begin") || tree.kind_is(
            x,
            "string_end",
        )
    } else {
        tree.kind_is(x, "${") || tree.kind_is(x, "}")
    }
}

/// Appends the interpolation flows of string node `n`.
fn push_interp_flows(tree: &SyntaxTree, n: usize, ruby: bool, out: &mut Vec<RawFlow>)
    requires
        tree_wf(tree@),
        n < tree@.len(),
    ensures
        final(out).deep_view() == old(out).deep_view() + interp_flows(tree@, n as int, ruby),
{
    let ghost t = tree@;
    let ghost f = interp_fn(t, n as int, ruby);
    let cs = &tree.node(n).children;
    let ghost base = out.deep_view();
    proof {
        assert(node_wf(t, n as int));
        assert(base + concat_over(cs@.take(0), f) =~= base);
    }
    let holder = if ruby {
        "interpolation"
    } else {
        "template_substitution"
    };
    proof {
        assert(holder@ == (if ruby {
            "interpolation"@
        } else {
            "template_substitution"@
        }));
    }
    let mut k: usize = 0;
    while k < cs.len()
        invariant
            t == tree@,
            tree_wf(t),
            n < t.len(),
            node_wf(t, n as int),
            cs@ == t[n as int].children,
            k <= cs@.len(),
            f == interp_fn(t, n as int, ruby),
            holder@ == (if ruby {
                "interpolation"@
            } else {
                "template_substitution"@
            }),
            out.deep_view() == base + concat_over(cs@.take(k as int), f),
        decreases cs@.len() - k,
    {
        let s = cs[k];
        proof {
            assert(n < cs@[k as int] < t.len());
            lemma_concat_over_step(cs@, f, k as int);
        }
        let ghost before = out.deep_view();
        if tree.kind_is(s, holder) {
            let ghost g = interp_part_fn(t, n as int, ruby);
            let xs = &tree.node(s).children;
            proof {
                assert(node_wf(t, s as int));
                assert(before + concat_over(xs@.take(0), g) =~= before);
            }
            let mut j: usize = 0;
            while j < xs.len()
                invariant
                    t == tree@,
                    tree_wf(t),
                    n < t.len(),
                    s < t.len(),
                    node_wf(t, s as int),
                    xs@ == t[s as int].children,
                    j <= xs@.len(),
                    g == interp_part_fn(t, n as int, ruby),
                    out.deep_view() == before + concat_over(xs@.take(j as int), g),
                decreases xs@.len() - j,
            {
                let x = xs[j];
                proof {
                    assert(s < xs@[j as int] < t.len());
                    lemma_concat_over_step(xs@, g, j as int);
                }
                let ghost pre = out.deep_view();
                if !interp_delim(tree, x, ruby) {
                    let fl = flow_at(
                        tree,
                        n,
                        tree.node(x).text.clone(),
                        owned("string_interpolation"),
                        FlowKind::StringInterp,
                        line_at(tree, x),
                        line_at(tree, n),
                    );
                    out.push(fl);
                    proof {
                        assert(out.deep_view() =~= pre + g(x));
                    }
                } else {
                    proof {
                        assert(pre + g(x) =~= pre);
                    }
                }
                proof {
                    assert(out.deep_view() =~= before + concat_over(xs@.take(j + 1), g));
                }
                j = j + 1;
            }
            proof {
                lemma_concat_over_all(xs@, g);
            }
        } else {
            proof {
                assert(before + f(s) =~= before);
            }
        }
        proof {
            assert(out.deep_view() =~= base + concat_over(cs@.take(k + 1), f));
        }
        k = k + 1;
    }
    proof {
        lemma_concat_over_all(cs@, f);
    }
}

/// The text of `s` before its first `.`.
fn before_first_dot(s: &str) -> (r: String)
    ensures
        r@ == s@.take(first_index_of(s@, '.')),
{
    let v = crate::text::chars_of(s);
    let mut i: usize = 0;
    proof {
        assert(v@.skip(0) =~= v@);
    }
    while i < v.len() && v[i] != '.'
        invariant
            v@ == s@,
            i <= v@.len(),
            first_index_of(s@, '.') == i + first_index_of(v@.skip(i as int), '.'),
        decreases v@.len() - i,
    {
        proof {
            assert(v@.skip(i as int)[0] == v@[i as int]);
            assert(v@.skip(i as int).drop_first() =~= v@.skip(i + 1));
        }
        i = i + 1;
    }
    proof {
        if i < v@.len() {
            assert(v@.skip(i as int)[0] == v@[i as int]);
        }
    }
    let mut r: Vec<char> = Vec::new();
    let mut q: usize = 0;
    while q < i
        invariant
            i <= v@.len(),
            q <= i,
            r@ == v@.take(q as int),
        decreases i - q,
    {
        r.push(v[q]);
        q = q + 1;
        proof {
            assert(r@ =~= v@.take(q as int));
        }
    }
    crate::text::string_of(r.as_slice())
}

/// Appends the TypeScript field-access flow of value node `v`.
fn push_ts_member(tree: &SyntaxTree, v: usize, ctx: usize, out: &mut Vec<RawFlow>)
    requires
        tree_wf(tree@),
        v < tree@.len(),
        ctx < tree@.len(),
    ensures
        final(out).deep_view() == old(out).deep_view() + ts_member_flow(tree@, v as int, ctx as int),
{
    let ghost base = out.deep_view();
    let text = &tree.node(v).text;
    if tree.kind_is(v, "member_expression") && contains(text.as_str(), ".") {
        let f = flow_at(
            tree,
            ctx,
            before_first_dot(text.as_str()),
            text.clone(),
            FlowKind::FieldAccess,
            line_at(tree, v),
            line_at(tree, v),
        );
        out.push(f);
    }
    proof {
        assert(out.deep_view() =~= base + ts_member_flow(tree@, v as int, ctx as int));
    }
}

/// Appends the Ruby field-access flow of value node `v`.
fn push_rb_member(tree: &SyntaxTree, v: usize, ctx: usize, out: &mut Vec<RawFlow>)
    requires
        tree_wf(tree@),
        v < tree@.len(),
        ctx < tree@.len(),
    ensures
        final(out).deep_view() == old(out).deep_view() + rb_member_flow(tree@, v as int, ctx as int),
{
    let ghost base = out.deep_view();
    let text = &tree.node(v).text;
    if tree.kind_is(v, "call") && contains(text.as_str(), ".") {
        match tree.field_text(v, "receiver") {
            Some(r) => {
                let f = flow_at(tree, ctx, r, text.clone(), FlowKind::FieldAccess, line_at(tree, v), line_at(tree, v));
                out.push(f);
            },
            None => {},
        }
    }
    proof {
        assert(out.deep_view() =~= base + rb_member_flow(tree@, v as int, ctx as int));
    }
}

/// Appends the Go field-access flow of selector node `x`.
fn push_go_selector(tree: &SyntaxTree, x: usize, ctx: usize, out: &mut Vec<RawFlow>)
    requires
        tree_wf(tree@),
        x < tree@.len(),
        ctx < tree@.len(),
    ensures
        final(out).deep_view() == old(out).deep_view() + go_selector_flow(tree@, x as int, ctx as int),
{
    let ghost base = out.deep_view();
    let text = &tree.node(x).text;
    if tree.kind_is(x, "selector_expression") && contains(text.as_str(), ".") {
        match tree.field_text(x, "operand") {
            Some(o) => {
                let f = flow_at(tree, ctx, o, text.clone(), FlowKind::FieldAccess, line_at(tree, x), line_at(tree, x));
                out.push(f);
            },
            None => {},
        }
    }
    proof {
        assert(out.deep_view() =~= base + go_selector_flow(tree@, x as int, ctx as int));
    }
}

/// Appends the Go field accesses of the nested selectors below node `x`.
fn push_go_chain_below(tree: &SyntaxTree, x: usize, ctx: usize, out: &mut Vec<RawFlow>)
    requires
        tree_wf(tree@),
        x < tree@.len(),
        ctx < tree@.len(),
    ensures
        final(out).deep_view() == go_chain_walk(
            tree@,
            x as int,
            tree@[x as int].children.len(),
            ctx as int,
            old(out).deep_view(),
        ),
    decreases tree@.len() - x,
{
    let ghost t = tree@;
    let ghost start = out.deep_view();
    let cs = &tree.node(x).children;
    proof {
        assert(node_wf(t, x as int));
    }
    let mut k: usize = 0;
    while k < cs.len()
        invariant
            t == tree@,
            tree_wf(t),
            x < t.len(),
            ctx < t.len(),
            node_wf(t, x as int),
            cs@ == t[x as int].children,
            k <= cs@.len(),
            out.deep_view() == go_chain_walk(t, x as int, k as nat, ctx as int, start),
        decreases cs@.len() - k,
    {
        let c = cs[k];
        proof {
            assert(x < cs@[k as int] < t.len());
        }
        if tree.kind_is(c, "selector_expression") {
            push_go_selector(tree, c, ctx, out);
            push_go_chain_below(tree, c, ctx, out);
        }
        k = k + 1;
    }
}

/// Appends the return flows of Go return statement `n`.
fn push_go_returns(tree: &SyntaxTree, n: usize, out: &mut Vec<RawFlow>)
    requires
        tree_wf(tree@),
        n < tree@.len(),
    ensures
        final(out).deep_view() == old(out).deep_view() + concat_over(tree@[n as int].children, go_return_fn(tree@, n as int)),
{
    let ghost t = tree@;
    let ghost f = go_return_fn(t, n as int);
    let cs = &tree.node(n).children;
    let ghost base = out.deep_view();
    proof {
        assert(node_wf(t, n as int));
        assert(base + concat_over(cs@.take(0), f) =~= base);
    }
    let mut k: usize = 0;
    while k < cs.len()
        invariant
            t == tree@,
            tree_wf(t),
            n < t.len(),
            node_wf(t, n as int),
            cs@ == t[n as int].children,
            k <= cs@.len(),
            f == go_return_fn(t, n as int),
            out.deep_view() == base + concat_over(cs@.take(k as int), f),
        decreases cs@.len() - k,
    {
        let c = cs[k];
        proof {
            assert(n < cs@[k as int] < t.len());
            lemma_concat_over_step(cs@, f, k as int);
        }
        let ghost before = out.deep_view();
        let value = tree.kind_is(c, "identifier") || tree.kind_is(c, "call_expression") || tree.kind_is(
            c,
            "selector_expression",
        ) || tree.kind_is(c, "int_literal") || tree.kind_is(c, "true") || tree.kind_is(c, "false") || tree.kind_is(
            c,
            "nil",
        );
        if tree.kind_is(c, "expression_list") || (!tree.kind_is(c, "return") && !tree.node(c).extra && value) {
            let fl = flow_at(
                tree,
                n,
                tree.node(c).text.clone(),
                owned("return"),
                FlowKind::Return,
                line_at(tree, c),
                line_at(tree, n),
            );
            out.push(fl);
            proof {
                assert(out.deep_view() =~= before + f(c));
            }
        } else {
            proof {
                assert(before + f(c) =~= before);
            }
        }
        proof {
            assert(out.deep_view() =~= base + concat_over(cs@.take(k + 1), f));
        }
        k = k + 1;
    }
    proof {
        lemma_concat_over_all(cs@, f);
    }
}

/// Appends the flows recorded at TypeScript node `n`.
fn push_ts_node_flows(tree: &SyntaxTree, n: usize, out: &mut Vec<RawFlow>)
    requires
        tree_wf(tree@),
        n < tree@.len(),
    ensures
        final(out).deep_view() == old(out).deep_view() + ts_node_flows(tree@, n as int),
{
    let ghost t = tree@;
    let ghost base = out.deep_view();
    if tree.kind_is(n, "variable_declarator") {
        push_assignment(tree, n, "name", "value", out);
        let ghost mid = out.deep_view();
        match (tree.child_by_field(n, "name"), tree.child_by_field(n, "value")) {
            (Some(_), Some(v)) => push_ts_member(tree, v, n, out),
            _ => {},
        }
        proof {
            assert(out.deep_view() =~= base + ts_node_flows(t, n as int));
        }
    } else if tree.kind_is(n, "assignment_expression") {
        push_assignment(tree, n, "left", "right", out);
    } else if tree.kind_is(n, "return_statement") {
        push_first_return(tree, n, out);
    } else if tree.kind_is(n, "call_expression") {
        match tree.child_by_field(n, "arguments") {
            Some(a) => {
                let callee = crate::parser::extract_calls::text_or_empty(tree, n, "function");
                push_ts_args(tree, n, a, &callee, out);
            },
            None => {
                proof {
                    assert(out.deep_view() =~= base + ts_node_flows(t, n as int));
                }
            },
        }
    } else if tree.kind_is(n, "template_string") {
        push_interp_flows(tree, n, false, out);
    } else {
        proof {
            assert(out.deep_view() =~= base + ts_node_flows(t, n as int));
        }
    }
}

/// Appends the flows recorded at Go node `n`.
fn push_go_node_flows(tree: &SyntaxTree, n: usize, out: &mut Vec<RawFlow>)
    requires
        tree_wf(tree@),
        n < tree@.len(),
    ensures
        final(out).deep_view() == old(out).deep_view() + go_node_flows(tree@, n as int),
{
    let ghost t = tree@;
    let ghost base = out.deep_view();
    if tree.kind_is(n, "short_var_declaration") {
        push_assignment(tree, n, "left", "right", out);
        let ghost mid = out.deep_view();
        match (tree.child_by_field(n, "left"), tree.child_by_field(n, "right")) {
            (Some(_), Some(r)) => {
                push_go_selector(tree, r, n, out);
                push_go_chain_below(tree, r, n, out);
                proof {
                    assert(out.deep_view() == go_chain_walk(t, r as int, t[r as int].children.len(), n as int, mid + go_selector_flow(t, r as int, n as int)));
                    lemma_chain_walk_prefix(t, r as int, t[r as int].children.len(), n as int, mid, go_selector_flow(t, r as int, n as int));
                }
            },
            _ => {},
        }
        proof {
            assert(out.deep_view() =~= base + go_node_flows(t, n as int));
        }
    } else if tree.kind_is(n, "assignment_statement") {
        push_assignment(tree, n, "left", "right", out);
    } else if tree.kind_is(n, "return_statement") {
        push_go_returns(tree, n, out);
    } else if tree.kind_is(n, "call_expression") {
        let callee = crate::parser::extract_calls::text_or_empty(tree, n, "function");
        match tree.child_by_field(n, "arguments") {
            Some(a) => {
                let _next = push_counted_args(tree, n, a, &callee, 0, out);
            },
            None => {
                proof {
                    assert(out.deep_view() =~= base + go_node_flows(t, n as int));
                }
            },
        }
    } else {
        proof {
            assert(out.deep_view() =~= base + go_node_flows(t, n as int));
        }
    }
}

/// Appends the flows recorded at Ruby node `n`.
fn push_rb_node_flows(tree: &SyntaxTree, n: usize, out: &mut Vec<RawFlow>)
    requires
        tree_wf(tree@),
        n < tree@.len(),
    ensures
        final(out).deep_view() == old(out).deep_view() + rb_node_flows(tree@, n as int),
{
    let ghost t = tree@;
    let ghost base = out.deep_view();
    if tree.kind_is(n, "assignment") {
        push_assignment(tree, n, "left", "right", out);
        let ghost mid = out.deep_view();
        match (tree.child_by_field(n, "left"), tree.child_by_field(n, "right")) {
            (Some(_), Some(r)) => push_rb_member(tree, r, n, out),
            _ => {},
        }
        proof {
            assert(out.deep_view() =~= base + rb_node_flows(t, n as int));
        }
    } else if tree.kind_is(n, "return") {
        push_first_return(tree, n, out);
    } else if tree.kind_is(n, "call") {
        let m = crate::parser::extract_calls::text_or_empty(tree, n, "method");
        let callee = match tree.field_text(n, "receiver") {
            Some(r) => {
                let mut c = concat(r.as_str(), ".");
                c.append(m.as_str());
                c
            },
            None => m,
        };
        proof {
            reveal_strlit(".");
            assert(callee@ =~= rb_callee(t, n as int));
        }
        match tree.child_by_field(n, "arguments") {
            Some(a) => push_rb_args(tree, n, a, &callee, out),
            None => {
                proof {
                    assert(out.deep_view() =~= base + rb_node_flows(t, n as int));
                }
            },
        }
    } else if tree.kind_is_either(n, "string", "string_content") {
        push_interp_flows(tree, n, true, out);
    } else {
        proof {
            assert(out.deep_view() =~= base + rb_node_flows(t, n as int));
        }
    }
}

/// Appends the flows recorded at node `n`.
fn push_node_flows(lang: Language, tree: &SyntaxTree, n: usize, out: &mut Vec<RawFlow>)
    requires
        tree_wf(tree@),
        n < tree@.len(),
    ensures
        final(out).deep_view() == old(out).deep_view() + node_flows(lang, tree@, n as int),
{
    match lang {
        Language::TypeScript => push_ts_node_flows(tree, n, out),
        Language::Go => push_go_node_flows(tree, n, out),
        Language::Ruby => push_rb_node_flows(tree, n, out),
    }
}

/// Visits the subtrees of the children of node `i`, appending their flows.
fn flows_walk_node(lang: Language, tree: &SyntaxTree, i: usize, out: &mut Vec<RawFlow>)
    requires
        tree_wf(tree@),
        i < tree@.len(),
    ensures
        final(out).deep_view() == flows_walk(lang, tree@, i as int, tree@[i as int].children.len(), old(out).deep_view()),
    decreases tree@.len() - i,
{
    let ghost t = tree@;
    let ghost start = out.deep_view();
    let cs = &tree.node(i).children;
    proof {
        assert(node_wf(t, i as int));
    }
    let mut k: usize = 0;
    while k < cs.len()
        invariant
            t == tree@,
            tree_wf(t),
            i < t.len(),
            node_wf(t, i as int),
            cs@ == t[i as int].children,
            k <= cs@.len(),
            out.deep_view() == flows_walk(lang, t, i as int, k as nat, start),
        decreases cs@.len() - k,
    {
        let c = cs[k];
        proof {
            assert(i < cs@[k as int] < t.len());
        }
        push_node_flows(lang, tree, c, out);
        flows_walk_node(lang, tree, c, out);
        k = k + 1;
    }
}

/// The data flows of a syntax tree, visiting every node in pre-order.
pub fn extract_dataflows(language: Language, tree: &SyntaxTree) -> (r: Vec<RawFlow>)
    requires
        tree_wf(tree@),
    ensures
        r.deep_view() == tree_flows(language, tree@),
{
    let mut flows: Vec<RawFlow> = Vec::new();
    proof {
        assert(flows.deep_view() =~= Seq::<RawFlowV>::empty());
    }
    if tree.nodes.len() == 0 {
        return flows;
    }
    push_node_flows(language, tree, 0, &mut flows);
    flows_walk_node(language, tree, 0, &mut flows);
    flows
}


fn append_flows(flows: &mut Vec<RawFlow>, more: Vec<RawFlow>)
    ensures
        final(flows).deep_view() == old(flows).deep_view() + more.deep_view(),
{
    let ghost before = flows.deep_view();
    let mut more = more;
    let ghost mv = more.deep_view();
    flows.append(&mut more);
    proof {
        assert(flows.deep_view() =~= before + mv);
    }
}

/// Appends the data flows of a TypeScript syntax tree.
pub fn extract_ts_dataflows(tree: &SyntaxTree, flows: &mut Vec<RawFlow>)
    requires
        tree_wf(tree@),
    ensures
        final(flows).deep_view() == old(flows).deep_view() + tree_flows(Language::TypeScript, tree@),
{
    append_flows(flows, extract_dataflows(Language::TypeScript, tree));
}

/// Appends the data flows of a Go syntax tree.
pub fn extract_go_dataflows(tree: &SyntaxTree, flows: &mut Vec<RawFlow>)
    requires
        tree_wf(tree@),
    ensures
        final(flows).deep_view() == old(flows).deep_view() + tree_flows(Language::Go, tree@),
{
    append_flows(flows, extract_dataflows(Language::Go, tree));
}

/// Appends the data flows of a Ruby syntax tree.
pub fn extract_ruby_dataflows(tree: &SyntaxTree, flows: &mut Vec<RawFlow>)
    requires
        tree_wf(tree@),
    ensures
        final(flows).deep_view() == old(flows).deep_view() + tree_flows(Language::Ruby, tree@),
{
    append_flows(flows, extract_dataflows(Language::Ruby, tree));
}


// ─── Laws ───────────────────────────────────────────────────────────

/// Every flow's source and sink lines are one-based.
pub open spec fn lines_one_based(fs: Seq<RawFlowV>) -> bool {
    forall|i: int| 0 <= i < fs.len() ==> (#[trigger] fs[i]).source_line >= 1 && fs[i].sink_line >= 1
}

proof fn lemma_lines_add(a: Seq<RawFlowV>, b: Seq<RawFlowV>)
    requires
        lines_one_based(a),
        lines_one_based(b),
    ensures
        lines_one_based(a + b),
{
    assert forall|i: int| 0 <= i < (a + b).len() implies (#[trigger] (a + b)[i]).source_line >= 1 && (a
        + b)[i].sink_line >= 1 by {
        if i < a.len() {
            assert((a + b)[i] == a[i]);
        } else {
            assert((a + b)[i] == b[i - a.len()]);
        }
    }
}

proof fn lemma_line_of(t: Seq<SyntaxNodeV>, x: int)
    requires
        tree_wf(t),
        0 <= x < t.len(),
    ensures
        line_of(t, x) >= 1,
{
    assert(node_wf(t, x));
}

proof fn lemma_field_child_in(t: Seq<SyntaxNodeV>, cs: Seq<usize>, f: Seq<char>)
    ensures
        field_child_in(t, cs, f) matches Some(c) ==> cs.contains(c),
    decreases cs.len(),
{
    if cs.len() > 0 && t[cs[0] as int].field != Some(f) {
        lemma_field_child_in(t, cs.drop_first(), f);
        if let Some(c) = field_child_in(t, cs.drop_first(), f) {
            let k = choose|k: int| 0 <= k < cs.drop_first().len() && cs.drop_first()[k] == c;
            assert(cs[k + 1] == c);
        }
    } else if cs.len() > 0 {
        assert(cs[0] == cs[0]);
    }
}

proof fn lemma_child_in_range(t: Seq<SyntaxNodeV>, n: int, c: usize)
    requires
        tree_wf(t),
        0 <= n < t.len(),
        t[n].children.contains(c),
    ensures
        n < c < t.len(),
{
    assert(node_wf(t, n));
    let k = choose|k: int| 0 <= k < t[n].children.len() && t[n].children[k] == c;
    assert(n < t[n].children[k] < t.len());
}

proof fn lemma_field_child(t: Seq<SyntaxNodeV>, n: int, f: Seq<char>)
    requires
        tree_wf(t),
        0 <= n < t.len(),
    ensures
        field_child(t, n, f) matches Some(c) ==> n < c < t.len(),
{
    lemma_field_child_in(t, t[n].children, f);
    if let Some(c) = field_child(t, n, f) {
        lemma_child_in_range(t, n, c);
    }
}

proof fn lemma_first_returned(t: Seq<SyntaxNodeV>, cs: Seq<usize>)
    ensures
        first_returned(t, cs) matches Some(c) ==> cs.contains(c),
    decreases cs.len(),
{
    if cs.len() > 0 && !(t[cs[0] as int].kind != "return"@ && !t[cs[0] as int].extra) {
        lemma_first_returned(t, cs.drop_first());
        if let Some(c) = first_returned(t, cs.drop_first()) {
            let k = choose|k: int| 0 <= k < cs.drop_first().len() && cs.drop_first()[k] == c;
            assert(cs[k + 1] == c);
        }
    } else if cs.len() > 0 {
        assert(cs[0] == cs[0]);
    }
}

/// Every node of `cs` is in the arena.
pub open spec fn all_in(t: Seq<SyntaxNodeV>, cs: Seq<usize>) -> bool {
    forall|k: int| 0 <= k < cs.len() ==> 0 <= #[trigger] cs[k] < t.len()
}

proof fn lemma_children_in(t: Seq<SyntaxNodeV>, n: int)
    requires
        tree_wf(t),
        0 <= n < t.len(),
    ensures
        all_in(t, t[n].children),
{
    assert(node_wf(t, n));
}

proof fn lemma_ts_args(t: Seq<SyntaxNodeV>, n: int, callee: Seq<char>, cs: Seq<usize>)
    requires
        tree_wf(t),
        0 <= n < t.len(),
        all_in(t, cs),
    ensures
        lines_one_based(ts_args(t, n, callee, cs)),
    decreases cs.len(),
{
    if cs.len() > 0 {
        let x = cs.last() as int;
        assert(cs.drop_last().len() == cs.len() - 1);
        assert(all_in(t, cs.drop_last())) by {
            assert forall|k: int| 0 <= k < cs.drop_last().len() implies 0 <= #[trigger] cs.drop_last()[k] < t.len() by {
                assert(cs.drop_last()[k] == cs[k]);
            }
        }
        lemma_ts_args(t, n, callee, cs.drop_last());
        assert(cs[cs.len() - 1] == cs.last());
        lemma_line_of(t, x);
        lemma_line_of(t, n);
    }
}

proof fn lemma_counted_args(t: Seq<SyntaxNodeV>, n: int, callee: Seq<char>, cs: Seq<usize>, start: nat)
    requires
        tree_wf(t),
        0 <= n < t.len(),
        all_in(t, cs),
    ensures
        lines_one_based(counted_args(t, n, callee, cs, start).0),
    decreases cs.len(),
{
    if cs.len() > 0 {
        let x = cs.last() as int;
        assert(all_in(t, cs.drop_last())) by {
            assert forall|k: int| 0 <= k < cs.drop_last().len() implies 0 <= #[trigger] cs.drop_last()[k] < t.len() by {
                assert(cs.drop_last()[k] == cs[k]);
            }
        }
        lemma_counted_args(t, n, callee, cs.drop_last(), start);
        assert(cs[cs.len() - 1] == cs.last());
        lemma_line_of(t, x);
        lemma_line_of(t, n);
    }
}

proof fn lemma_rb_args(t: Seq<SyntaxNodeV>, n: int, callee: Seq<char>, cs: Seq<usize>)
    requires
        tree_wf(t),
        0 <= n < t.len(),
        all_in(t, cs),
    ensures
        lines_one_based(rb_args(t, n, callee, cs).0),
    decreases cs.len(),
{
    if cs.len() > 0 {
        let x = cs.last() as int;
        assert(all_in(t, cs.drop_last())) by {
            assert forall|k: int| 0 <= k < cs.drop_last().len() implies 0 <= #[trigger] cs.drop_last()[k] < t.len() by {
                assert(cs.drop_last()[k] == cs[k]);
            }
        }
        lemma_rb_args(t, n, callee, cs.drop_last());
        assert(cs[cs.len() - 1] == cs.last());
        lemma_line_of(t, x);
        lemma_line_of(t, n);
        let (prev, cnt) = rb_args(t, n, callee, cs.drop_last());
        if t[x].kind == "argument_list"@ {
            lemma_children_in(t, x);
            lemma_counted_args(t, n, callee, t[x].children, cnt);
            lemma_lines_add(prev, counted_args(t, n, callee, t[x].children, cnt).0);
        }
    }
}

proof fn lemma_concat_lines(cs: Seq<usize>, f: spec_fn(usize) -> Seq<RawFlowV>)
    requires
        forall|k: int| 0 <= k < cs.len() ==> lines_one_based(#[trigger] f(cs[k])),
    ensures
        lines_one_based(concat_over(cs, f)),
    decreases cs.len(),
{
    if cs.len() > 0 {
        assert forall|k: int| 0 <= k < cs.drop_last().len() implies lines_one_based(#[trigger] f(cs.drop_last()[k])) by {
            assert(cs.drop_last()[k] == cs[k]);
        }
        lemma_concat_lines(cs.drop_last(), f);
        assert(lines_one_based(f(cs[cs.len() - 1])));
        lemma_lines_add(concat_over(cs.drop_last(), f), f(cs.last()));
    }
}

proof fn lemma_interp_flows(t: Seq<SyntaxNodeV>, n: int, ruby: bool)
    requires
        tree_wf(t),
        0 <= n < t.len(),
    ensures
        lines_one_based(interp_flows(t, n, ruby)),
{
    lemma_children_in(t, n);
    let cs = t[n].children;
    assert forall|k: int| 0 <= k < cs.len() implies lines_one_based(#[trigger] interp_fn(t, n, ruby)(cs[k])) by {
        let s = cs[k] as int;
        if t[s].kind == (if ruby { "interpolation"@ } else { "template_substitution"@ }) {
            lemma_children_in(t, s);
            let ds = t[s].children;
            assert forall|j: int| 0 <= j < ds.len() implies lines_one_based(#[trigger] interp_part_fn(t, n, ruby)(ds[j])) by {
                lemma_line_of(t, ds[j] as int);
                lemma_line_of(t, n);
            }
            lemma_concat_lines(ds, interp_part_fn(t, n, ruby));
        }
    }
    lemma_concat_lines(cs, interp_fn(t, n, ruby));
}

proof fn lemma_chain_walk_lines(t: Seq<SyntaxNodeV>, x: int, k: nat, ctx: int, acc: Seq<RawFlowV>)
    requires
        tree_wf(t),
        lines_one_based(acc),
    ensures
        lines_one_based(go_chain_walk(t, x, k, ctx, acc)),
    decreases t.len() - x, k,
{
    if k == 0 || x < 0 || x >= t.len() || k > t[x].children.len() {
    } else {
        lemma_chain_walk_lines(t, x, (k - 1) as nat, ctx, acc);
        let before = go_chain_walk(t, x, (k - 1) as nat, ctx, acc);
        let c = t[x].children[k - 1] as int;
        if c <= x || c >= t.len() {
        } else if t[c].kind == "selector_expression"@ {
            lemma_line_of(t, c);
            lemma_lines_add(before, go_selector_flow(t, c, ctx));
            lemma_chain_walk_lines(t, c, t[c].children.len(), ctx, before + go_selector_flow(t, c, ctx));
        }
    }
}

proof fn lemma_node_flows(lang: Language, t: Seq<SyntaxNodeV>, n: int)
    requires
        tree_wf(t),
        0 <= n < t.len(),
    ensures
        lines_one_based(node_flows(lang, t, n)),
{
    lemma_line_of(t, n);
    lemma_field_child(t, n, "name"@);
    lemma_field_child(t, n, "value"@);
    lemma_field_child(t, n, "left"@);
    lemma_field_child(t, n, "right"@);
    lemma_field_child(t, n, "arguments"@);
    lemma_field_child(t, n, "receiver"@);
    if let Some(c) = field_child(t, n, "name"@) {
        lemma_line_of(t, c as int);
    }
    if let Some(c) = field_child(t, n, "value"@) {
        lemma_line_of(t, c as int);
    }
    if let Some(c) = field_child(t, n, "left"@) {
        lemma_line_of(t, c as int);
    }
    if let Some(c) = field_child(t, n, "right"@) {
        lemma_line_of(t, c as int);
        lemma_field_child(t, c as int, "receiver"@);
        lemma_field_child(t, c as int, "operand"@);
        lemma_chain_walk_lines(t, c as int, t[c as int].children.len(), n, go_selector_flow(t, c as int, n));
    }
    lemma_first_returned(t, t[n].children);
    if let Some(c) = first_returned(t, t[n].children) {
        lemma_child_in_range(t, n, c);
        lemma_line_of(t, c as int);
    }
    if let Some(a) = field_child(t, n, "arguments"@) {
        lemma_children_in(t, a as int);
        lemma_ts_args(t, n, field_text_or_empty(t, n, "function"@), t[a as int].children);
        lemma_counted_args(t, n, field_text_or_empty(t, n, "function"@), t[a as int].children, 0);
        lemma_rb_args(t, n, rb_callee(t, n), t[a as int].children);
    }
    lemma_interp_flows(t, n, false);
    lemma_interp_flows(t, n, true);
    lemma_children_in(t, n);
    let cs = t[n].children;
    assert forall|k: int| 0 <= k < cs.len() implies lines_one_based(#[trigger] go_return_fn(t, n)(cs[k])) by {
        lemma_line_of(t, cs[k] as int);
    }
    lemma_concat_lines(cs, go_return_fn(t, n));
    let e = Seq::<RawFlowV>::empty();
    match (field_child(t, n, "name"@), field_child(t, n, "value"@)) {
        (Some(_), Some(v)) => {
            lemma_lines_add(assignment_flow(t, n, "name"@, "value"@), ts_member_flow(t, v as int, n));
        },
        _ => {
            lemma_lines_add(assignment_flow(t, n, "name"@, "value"@), e);
        },
    }
    match (field_child(t, n, "left"@), field_child(t, n, "right"@)) {
        (Some(_), Some(r)) => {
            lemma_lines_add(assignment_flow(t, n, "left"@, "right"@), go_chain(t, r as int, n));
            lemma_lines_add(assignment_flow(t, n, "left"@, "right"@), rb_member_flow(t, r as int, n));
        },
        _ => {
            lemma_lines_add(assignment_flow(t, n, "left"@, "right"@), e);
        },
    }
}

proof fn lemma_flows_walk(lang: Language, t: Seq<SyntaxNodeV>, i: int, k: nat, acc: Seq<RawFlowV>)
    requires
        tree_wf(t),
        lines_one_based(acc),
    ensures
        lines_one_based(flows_walk(lang, t, i, k, acc)),
    decreases t.len() - i, k,
{
    if k == 0 || i < 0 || i >= t.len() || k > t[i].children.len() {
    } else {
        lemma_flows_walk(lang, t, i, (k - 1) as nat, acc);
        let before = flows_walk(lang, t, i, (k - 1) as nat, acc);
        let c = t[i].children[k - 1] as int;
        if c <= i || c >= t.len() {
        } else {
            lemma_node_flows(lang, t, c);
            lemma_lines_add(before, node_flows(lang, t, c));
            lemma_flows_walk(lang, t, c, t[c].children.len(), before + node_flows(lang, t, c));
        }
    }
}

/// Data-flow lines are one-based: every flow found in a well-formed syntax
/// tree has a source line and a sink line of at least 1.
pub proof fn law_flow_lines_one_based(lang: Language, t: Seq<SyntaxNodeV>)
    requires
        tree_wf(t),
    ensures
        lines_one_based(tree_flows(lang, t)),
{
    if t.len() > 0 {
        lemma_node_flows(lang, t, 0);
        lemma_flows_walk(lang, t, 0, t[0].children.len(), node_flows(lang, t, 0));
    }
}

} // verus!
