//! Call-site extraction from syntax trees: the callee and receiver of each
//! call, with the enclosing function and class of the call. TypeScript adds
//! `new` expressions and skips `require`; Ruby adds dynamic `send` calls and
//! constant references listed in constant arrays, and skips `require`.

use vstd::prelude::*;
use crate::parser::calls::{RawCall, RawCallV};
use crate::parser::syntax::{
    concat_over, enclosing, field_child, field_text, first_is_upper, first_of_kinds, lemma_concat_over_all,
    lemma_concat_over_step, line_of, node_wf, starts_upper, strip_leading, trim_start_char, tree_wf,
    SyntaxNodeV, SyntaxTree,
};
use crate::parser::Language;
use crate::text::{
    byte_len_at_least, chars_occur_at, chars_of, contains, is_infix_of, occurs_at, owned, str_eq, string_of,
    utf8_len,
};

verus! {

// ─── Specification ──────────────────────────────────────────────────

/// The call record for a call at node `c`.
pub open spec fn call_record(t: Seq<SyntaxNodeV>, c: int, callee: Seq<char>, receiver: Option<Seq<char>>) -> RawCallV {
    let e = enclosing(t, c);
    RawCallV { callee_name: callee, receiver, caller_name: e.0, caller_parent: e.1, line: line_of(t, c) }
}

/// The text of a field child, or the empty string.
pub open spec fn field_text_or_empty(t: Seq<SyntaxNodeV>, n: int, f: Seq<char>) -> Seq<char> {
    match field_text(t, n, f) {
        Some(x) => x,
        None => Seq::empty(),
    }
}

/// Callee and receiver of a TypeScript call whose function is node `f`: a
/// member access calls its property on its object (`this.x.m()` has
/// receiver `x`); anything else is called by its text.
pub open spec fn ts_callee(t: Seq<SyntaxNodeV>, f: int) -> (Seq<char>, Option<Seq<char>>) {
    if t[f].kind == "member_expression"@ {
        let receiver = match field_child(t, f, "object"@) {
            Some(o) => Some(
                if t[o as int].kind == "member_expression"@ && (field_text(t, o as int, "object"@) == Some("this"@)
                    || field_text(t, o as int, "object"@) == Some("self"@)) {
                    match field_text(t, o as int, "property"@) {
                        Some(p) => p,
                        None => t[o as int].text,
                    }
                } else {
                    t[o as int].text
                },
            ),
            None => None,
        };
        (field_text_or_empty(t, f, "property"@), receiver)
    } else {
        (t[f].text, None)
    }
}

/// Calls recorded at TypeScript node `c`.
pub open spec fn ts_call_records(t: Seq<SyntaxNodeV>, c: int) -> Seq<RawCallV> {
    (if t[c].kind == "call_expression"@ {
        match field_child(t, c, "function"@) {
            Some(f) => {
                let (callee, receiver) = ts_callee(t, f as int);
                if callee.len() > 0 && !(callee == "require"@ && receiver is None) {
                    seq![call_record(t, c, callee, receiver)]
                } else {
                    Seq::empty()
                }
            },
            None => Seq::empty(),
        }
    } else {
        Seq::empty()
    }) + if t[c].kind == "new_expression"@ {
        match field_text(t, c, "constructor"@) {
            Some(n) => if n.len() > 0 {
                seq![call_record(t, c, n, None)]
            } else {
                Seq::empty()
            },
            None => Seq::empty(),
        }
    } else {
        Seq::empty()
    }
}

/// Calls recorded at Go node `c`: a selector calls its field on its operand.
pub open spec fn go_call_records(t: Seq<SyntaxNodeV>, c: int) -> Seq<RawCallV> {
    if t[c].kind == "call_expression"@ {
        match field_child(t, c, "function"@) {
            Some(f) => {
                let (callee, receiver) = if t[f as int].kind == "selector_expression"@ {
                    (field_text_or_empty(t, f as int, "field"@), field_text(t, f as int, "operand"@))
                } else {
                    (t[f as int].text, None)
                };
                if callee.len() > 0 {
                    seq![call_record(t, c, callee, receiver)]
                } else {
                    Seq::empty()
                }
            },
            None => Seq::empty(),
        }
    } else {
        Seq::empty()
    }
}

/// The position of the last occurrence of `p` in `s`.
pub open spec fn last_occurrence(p: Seq<char>, s: Seq<char>) -> Option<int> {
    if exists|i: int| occurs_at(p, s, i) {
        Some(choose|i: int| occurs_at(p, s, i) && forall|j: int| occurs_at(p, s, j) ==> j <= i)
    } else {
        None
    }
}

/// A constant listed in a Ruby constant array (`STEPS = [A::B, C]`), called
/// by its last segment with the namespace as receiver.
pub open spec fn ruby_ref_call(t: Seq<SyntaxNodeV>, a: int, e: int) -> Seq<RawCallV> {
    let text = t[e].text;
    if (t[e].kind == "scope_resolution"@ || t[e].kind == "constant"@) && starts_upper(text) {
        let (short, receiver) = split_constant(text);
        let enc = enclosing(t, a);
        seq![RawCallV { callee_name: short, receiver, caller_name: enc.0, caller_parent: enc.1, line: line_of(t, e) }]
    } else {
        Seq::empty()
    }
}

/// Each array element's constant reference.
pub open spec fn ruby_ref_fn(t: Seq<SyntaxNodeV>, a: int) -> spec_fn(usize) -> Seq<RawCallV> {
    |e: usize| ruby_ref_call(t, a, e as int)
}

/// Constant references of a Ruby assignment of an array to a constant.
pub open spec fn ruby_array_refs(t: Seq<SyntaxNodeV>, a: int) -> Seq<RawCallV> {
    match (field_child(t, a, "left"@), field_child(t, a, "right"@)) {
        (Some(l), Some(r)) => if t[l as int].kind == "constant"@ && t[r as int].kind == "array"@ {
            concat_over(t[r as int].children, ruby_ref_fn(t, a))
        } else {
            Seq::empty()
        },
        _ => Seq::empty(),
    }
}

/// The receiver text of a Ruby call, when it is one line of at most 80 bytes.
pub open spec fn ruby_receiver(t: Seq<SyntaxNodeV>, c: int) -> Option<Seq<char>> {
    match field_text(t, c, "receiver"@) {
        Some(r) => if !is_infix_of("\n"@, r) && utf8_len(r) <= 80 {
            Some(r)
        } else {
            None
        },
        None => None,
    }
}

/// The first named child among the nodes `cs`.
pub open spec fn first_named(t: Seq<SyntaxNodeV>, cs: Seq<usize>) -> Option<usize>
    decreases cs.len(),
{
    if cs.len() == 0 {
        None
    } else if t[cs[0] as int].named {
        Some(cs[0])
    } else {
        first_named(t, cs.drop_first())
    }
}

/// The method named by the first argument of a `send`: a symbol without its
/// colon, or the content of a string.
pub open spec fn sent_method(t: Seq<SyntaxNodeV>, c: int) -> Option<Seq<char>> {
    match field_child(t, c, "arguments"@) {
        Some(a) => match first_named(t, t[a as int].children) {
            Some(x) => if t[x as int].kind == "simple_symbol"@ {
                Some(strip_leading(t[x as int].text, ':'))
            } else if t[x as int].kind == "string"@ {
                match first_of_kinds(t, t[x as int].children, "string_content"@, "string_content"@) {
                    Some(s) => Some(t[s as int].text),
                    None => None,
                }
            } else {
                None
            },
            None => None,
        },
        None => None,
    }
}

/// Calls recorded at Ruby node `c`.
pub open spec fn rb_call_records(t: Seq<SyntaxNodeV>, c: int) -> Seq<RawCallV> {
    (if t[c].kind == "assignment"@ {
        ruby_array_refs(t, c)
    } else {
        Seq::empty()
    }) + if t[c].kind == "call"@ {
        match field_text(t, c, "method"@) {
            Some(name) => if name == "require"@ || name == "require_relative"@ {
                Seq::empty()
            } else if name == "send"@ || name == "public_send"@ {
                match sent_method(t, c) {
                    Some(m) => seq![call_record(t, c, m, ruby_receiver(t, c))],
                    None => Seq::empty(),
                }
            } else {
                seq![call_record(t, c, name, ruby_receiver(t, c))]
            },
            None => Seq::empty(),
        }
    } else {
        Seq::empty()
    }
}

/// Calls recorded at node `c` in the given language.
pub open spec fn call_records(lang: Language, t: Seq<SyntaxNodeV>, c: int) -> Seq<RawCallV> {
    match lang {
        Language::TypeScript => ts_call_records(t, c),
        Language::Go => go_call_records(t, c),
        Language::Ruby => rb_call_records(t, c),
    }
}

/// Calls after walking the first `k` children of node `i` (each child's
/// records, then its subtree), appended to `acc`.
pub open spec fn calls_walk(lang: Language, t: Seq<SyntaxNodeV>, i: int, k: nat, acc: Seq<RawCallV>) -> Seq<RawCallV>
    decreases t.len() - i, k,
{
    if k == 0 || i < 0 || i >= t.len() || k > t[i].children.len() {
        acc
    } else {
        let before = calls_walk(lang, t, i, (k - 1) as nat, acc);
        let c = t[i].children[k - 1] as int;
        if c <= i || c >= t.len() {
            before
        } else {
            let mid = before + call_records(lang, t, c);
            if t[c].children.len() > 0 {
                calls_walk(lang, t, c, t[c].children.len(), mid)
            } else {
                mid
            }
        }
    }
}

/// The calls of a tree, in walk order.
pub open spec fn tree_calls(lang: Language, t: Seq<SyntaxNodeV>) -> Seq<RawCallV> {
    if t.len() == 0 {
        Seq::empty()
    } else {
        calls_walk(lang, t, 0, t[0].children.len(), Seq::empty())
    }
}

// ─── Extraction ─────────────────────────────────────────────────────

/// The call record for a call at node `c`.
fn record_at(tree: &SyntaxTree, c: usize, callee: String, receiver: Option<String>) -> (r: RawCall)
    requires
        tree_wf(tree@),
        c < tree@.len(),
    ensures
        r@ == call_record(tree@, c as int, callee@, receiver.deep_view()),
{
    let (caller_name, caller_parent, _line) = tree.find_enclosing(c);
    proof {
        assert(node_wf(tree@, c as int));
    }
    RawCall { callee_name: callee, receiver, caller_name, caller_parent, line: tree.node(c).start_row + 1 }
}

/// The text of a field child, or the empty string.
pub(crate) fn text_or_empty(tree: &SyntaxTree, n: usize, f: &str) -> (r: String)
    requires
        tree_wf(tree@),
        n < tree@.len(),
    ensures
        r@ == field_text_or_empty(tree@, n as int, f@),
{
    match tree.field_text(n, f) {
        Some(x) => x,
        None => String::new(),
    }
}

/// Callee and receiver of a TypeScript call whose function is node `f`.
fn ts_callee_of(tree: &SyntaxTree, f: usize) -> (r: (String, Option<String>))
    requires
        tree_wf(tree@),
        f < tree@.len(),
    ensures
        (r.0@, r.1.deep_view()) == ts_callee(tree@, f as int),
{
    if tree.kind_is(f, "member_expression") {
        let receiver = match tree.child_by_field(f, "object") {
            Some(o) => {
                let via_self = tree.kind_is(o, "member_expression") && match tree.field_text(o, "object") {
                    Some(x) => str_eq(x.as_str(), "this") || str_eq(x.as_str(), "self"),
                    None => false,
                };
                if via_self {
                    match tree.field_text(o, "property") {
                        Some(p) => Some(p),
                        None => Some(tree.node(o).text.clone()),
                    }
                } else {
                    Some(tree.node(o).text.clone())
                }
            },
            None => None,
        };
        (text_or_empty(tree, f, "property"), receiver)
    } else {
        (tree.node(f).text.clone(), None)
    }
}

/// Appends the calls recorded at TypeScript node `c`.
fn push_ts_calls(tree: &SyntaxTree, c: usize, out: &mut Vec<RawCall>)
    requires
        tree_wf(tree@),
        c < tree@.len(),
    ensures
        final(out).deep_view() == old(out).deep_view() + ts_call_records(tree@, c as int),
{
    let ghost t = tree@;
    let ghost base = out.deep_view();
    if tree.kind_is(c, "call_expression") {
        match tree.child_by_field(c, "function") {
            Some(f) => {
                let (callee, receiver) = ts_callee_of(tree, f);
                let skip = str_eq(callee.as_str(), "require") && receiver.is_none();
                if callee.unicode_len() > 0 && !skip {
                    out.push(record_at(tree, c, callee, receiver));
                }
            },
            None => {},
        }
    }
    let ghost mid = out.deep_view();
    proof {
        assert(mid =~= base + (if t[c as int].kind == "call_expression"@ {
            match field_child(t, c as int, "function"@) {
                Some(f) => {
                    let (callee, receiver) = ts_callee(t, f as int);
                    if callee.len() > 0 && !(callee == "require"@ && receiver is None) {
                        seq![call_record(t, c as int, callee, receiver)]
                    } else {
                        Seq::empty()
                    }
                },
                None => Seq::empty(),
            }
        } else {
            Seq::<RawCallV>::empty()
        }));
    }
    if tree.kind_is(c, "new_expression") {
        match tree.field_text(c, "constructor") {
            Some(n) => {
                if n.unicode_len() > 0 {
                    out.push(record_at(tree, c, n, None));
                }
            },
            None => {},
        }
    }
    proof {
        assert(out.deep_view() =~= base + ts_call_records(t, c as int));
    }
}

/// Appends the calls recorded at Go node `c`.
fn push_go_calls(tree: &SyntaxTree, c: usize, out: &mut Vec<RawCall>)
    requires
        tree_wf(tree@),
        c < tree@.len(),
    ensures
        final(out).deep_view() == old(out).deep_view() + go_call_records(tree@, c as int),
{
    let ghost base = out.deep_view();
    if tree.kind_is(c, "call_expression") {
        match tree.child_by_field(c, "function") {
            Some(f) => {
                let (callee, receiver) = if tree.kind_is(f, "selector_expression") {
                    (text_or_empty(tree, f, "field"), tree.field_text(f, "operand"))
                } else {
                    (tree.node(f).text.clone(), None)
                };
                if callee.unicode_len() > 0 {
                    out.push(record_at(tree, c, callee, receiver));
                }
            },
            None => {},
        }
    }
    proof {
        assert(out.deep_view() =~= base + go_call_records(tree@, c as int));
    }
}

/// The position of the last occurrence of `p` in `s`.
fn rfind(s: &str, p: &str) -> (r: Option<usize>)
    ensures
        match r {
            Some(j) => last_occurrence(p@, s@) == Some(j as int) && occurs_at(p@, s@, j as int),
            None => last_occurrence(p@, s@) is None,
        },
{
    let vs = chars_of(s);
    let vp = chars_of(p);
    if vp.len() > vs.len() {
        proof {
            assert forall|i: int| !occurs_at(p@, s@, i) by {}
        }
        return None;
    }
    let mut i: usize = vs.len() - vp.len();
    loop
        invariant
            vs@ == s@,
            vp@ == p@,
            vp@.len() <= vs@.len(),
            i <= vs@.len() - vp@.len(),
            forall|j: int| i < j ==> !occurs_at(p@, s@, j),
        decreases i,
    {
        if chars_occur_at(vp.as_slice(), vs.as_slice(), i) {
            proof {
                let m = i as int;
                assert(occurs_at(p@, s@, m) && forall|j: int| occurs_at(p@, s@, j) ==> j <= m);
                let c = choose|c: int| occurs_at(p@, s@, c) && forall|j: int| occurs_at(p@, s@, j) ==> j <= c;
                assert(c <= m && m <= c);
            }
            return Some(i);
        }
        if i == 0 {
            proof {
                assert forall|j: int| !occurs_at(p@, s@, j) by {
                    if j < 0 {
                    }
                }
            }
            return None;
        }
        i = i - 1;
    }
}

/// Callee and receiver of a constant reference: the part after the last
/// `::`, and the part before it.
pub open spec fn split_constant(text: Seq<char>) -> (Seq<char>, Option<Seq<char>>) {
    match last_occurrence("::"@, text) {
        Some(j) => (text.skip(j + 2), Some(text.take(j))),
        None => (text, None),
    }
}

/// Splits a constant reference at its last `::`.
fn split_at_last_sep(text: &str) -> (r: (String, Option<String>))
    ensures
        (r.0@, r.1.deep_view()) == split_constant(text@),
{
    match rfind(text, "::") {
        Some(j) => {
            let v = chars_of(text);
            let n = v.len();
            proof {
                reveal_strlit("::");
                assert("::"@.len() == 2);
                assert(j + 2 <= n);
            }
            let mut tail: Vec<char> = Vec::new();
            let mut q: usize = j + 2;
            while q < v.len()
                invariant
                    j + 2 <= q <= v@.len(),
                    tail@ == v@.subrange(j + 2, q as int),
                decreases v@.len() - q,
            {
                tail.push(v[q]);
                q = q + 1;
                proof {
                    assert(tail@ =~= v@.subrange(j + 2, q as int));
                }
            }
            let mut head: Vec<char> = Vec::new();
            let mut q2: usize = 0;
            while q2 < j
                invariant
                    j <= v@.len(),
                    q2 <= j,
                    head@ == v@.subrange(0, q2 as int),
                decreases j - q2,
            {
                head.push(v[q2]);
                q2 = q2 + 1;
                proof {
                    assert(head@ =~= v@.subrange(0, q2 as int));
                }
            }
            proof {
                assert(tail@ =~= text@.skip(j + 2));
                assert(head@ =~= text@.take(j as int));
            }
            (string_of(tail.as_slice()), Some(string_of(head.as_slice())))
        },
        None => (owned(text), None),
    }
}

/// Appends the constant references of a Ruby constant-array assignment `a`.
fn push_ruby_array_refs(tree: &SyntaxTree, a: usize, out: &mut Vec<RawCall>)
    requires
        tree_wf(tree@),
        a < tree@.len(),
    ensures
        final(out).deep_view() == old(out).deep_view() + ruby_array_refs(tree@, a as int),
{
    let ghost t = tree@;
    let ghost base = out.deep_view();
    let l = tree.child_by_field(a, "left");
    let r = tree.child_by_field(a, "right");
    let (l, r) = match (l, r) {
        (Some(l), Some(r)) => (l, r),
        _ => {
            proof {
                assert(base + ruby_array_refs(t, a as int) =~= base);
            }
            return;
        },
    };
    if !(tree.kind_is(l, "constant") && tree.kind_is(r, "array")) {
        proof {
            assert(base + ruby_array_refs(t, a as int) =~= base);
        }
        return;
    }
    let (caller_name, caller_parent, _line) = tree.find_enclosing(a);
    let ghost f = ruby_ref_fn(t, a as int);
    let cs = &tree.node(r).children;
    proof {
        assert(node_wf(t, r as int));
        assert(base + concat_over(cs@.take(0), f) =~= base);
    }
    let mut k: usize = 0;
    while k < cs.len()
        invariant
            t == tree@,
            tree_wf(t),
            a < t.len(),
            r < t.len(),
            node_wf(t, r as int),
            cs@ == t[r as int].children,
            k <= cs@.len(),
            f == ruby_ref_fn(t, a as int),
            (caller_name.deep_view(), caller_parent.deep_view(), _line) == enclosing(t, a as int),
            out.deep_view() == base + concat_over(cs@.take(k as int), f),
        decreases cs@.len() - k,
    {
        let e = cs[k];
        proof {
            assert(r < cs@[k as int] < t.len());
            lemma_concat_over_step(cs@, f, k as int);
            assert(node_wf(t, e as int));
        }
        let ghost before = out.deep_view();
        let text = &tree.node(e).text;
        if tree.kind_is_either(e, "scope_resolution", "constant") && first_is_upper(text.as_str()) {
            let (short, receiver) = split_at_last_sep(text.as_str());
            let call = RawCall {
                callee_name: short,
                receiver,
                caller_name: match &caller_name {
                    Some(x) => Some(x.clone()),
                    None => None,
                },
                caller_parent: match &caller_parent {
                    Some(x) => Some(x.clone()),
                    None => None,
                },
                line: tree.node(e).start_row + 1,
            };
            out.push(call);
            proof {
                assert(out.deep_view() =~= before + f(e));
            }
        } else {
            proof {
                assert(before + f(e) =~= before);
            }
        }
        proof {
            assert(out.deep_view() =~= base + concat_over(cs@.take(k + 1), f));
        }
        k = k + 1;
    }
    proof {
        lemma_concat_over_all(cs@, f);
        assert(out.deep_view() =~= base + ruby_array_refs(t, a as int));
    }
}

/// The receiver text of a Ruby call, when short and on one line.
fn ruby_receiver_of(tree: &SyntaxTree, c: usize) -> (r: Option<String>)
    requires
        tree_wf(tree@),
        c < tree@.len(),
    ensures
        r.deep_view() == ruby_receiver(tree@, c as int),
{
    match tree.field_text(c, "receiver") {
        Some(x) => {
            if !contains(x.as_str(), "\n") && !byte_len_at_least(x.as_str(), 81) {
                Some(x)
            } else {
                None
            }
        },
        None => None,
    }
}

/// The first named child of node `n`.
fn first_named_child(tree: &SyntaxTree, n: usize) -> (r: Option<usize>)
    requires
        tree_wf(tree@),
        n < tree@.len(),
    ensures
        r == first_named(tree@, tree@[n as int].children),
        r matches Some(x) ==> n < x < tree@.len(),
{
    let ghost t = tree@;
    let cs = &tree.node(n).children;
    proof {
        assert(node_wf(t, n as int));
        assert(cs@.skip(0) =~= cs@);
    }
    let mut k: usize = 0;
    while k < cs.len()
        invariant
            t == tree@,
            n < t.len(),
            node_wf(t, n as int),
            cs@ == t[n as int].children,
            k <= cs@.len(),
            first_named(t, cs@) == first_named(t, cs@.skip(k as int)),
        decreases cs@.len() - k,
    {
        let x = cs[k];
        proof {
            assert(n < cs@[k as int] < t.len());
            assert(cs@.skip(k as int)[0] == x);
            assert(cs@.skip(k as int).drop_first() =~= cs@.skip(k + 1));
        }
        if tree.node(x).named {
            return Some(x);
        }
        k = k + 1;
    }
    None
}

/// The method named by the first argument of a `send` call `c`.
fn sent_method_of(tree: &SyntaxTree, c: usize) -> (r: Option<String>)
    requires
        tree_wf(tree@),
        c < tree@.len(),
    ensures
        r.deep_view() == sent_method(tree@, c as int),
{
    let a = match tree.child_by_field(c, "arguments") {
        Some(a) => a,
        None => return None,
    };
    let x = match first_named_child(tree, a) {
        Some(x) => x,
        None => return None,
    };
    if tree.kind_is(x, "simple_symbol") {
        Some(trim_start_char(tree.node(x).text.as_str(), ':'))
    } else if tree.kind_is(x, "string") {
        match tree.first_child_of_kinds(x, "string_content", "string_content") {
            Some(s) => Some(tree.node(s).text.clone()),
            None => None,
        }
    } else {
        None
    }
}

/// Appends the calls recorded at Ruby node `c`.
fn push_ruby_calls(tree: &SyntaxTree, c: usize, out: &mut Vec<RawCall>)
    requires
        tree_wf(tree@),
        c < tree@.len(),
    ensures
        final(out).deep_view() == old(out).deep_view() + rb_call_records(tree@, c as int),
{
    let ghost t = tree@;
    let ghost base = out.deep_view();
    if tree.kind_is(c, "assignment") {
        push_ruby_array_refs(tree, c, out);
    }
    let ghost mid = out.deep_view();
    proof {
        assert(mid =~= base + (if t[c as int].kind == "assignment"@ {
            ruby_array_refs(t, c as int)
        } else {
            Seq::<RawCallV>::empty()
        }));
    }
    let ghost second = if t[c as int].kind == "call"@ {
        match field_text(t, c as int, "method"@) {
            Some(name) => if name == "require"@ || name == "require_relative"@ {
                Seq::empty()
            } else if name == "send"@ || name == "public_send"@ {
                match sent_method(t, c as int) {
                    Some(m) => seq![call_record(t, c as int, m, ruby_receiver(t, c as int))],
                    None => Seq::empty(),
                }
            } else {
                seq![call_record(t, c as int, name, ruby_receiver(t, c as int))]
            },
            None => Seq::empty(),
        }
    } else {
        Seq::<RawCallV>::empty()
    };
    if tree.kind_is(c, "call") {
        match tree.field_text(c, "method") {
            Some(name) => {
                let receiver = ruby_receiver_of(tree, c);
                if str_eq(name.as_str(), "require") || str_eq(name.as_str(), "require_relative") {
                    proof {
                        assert(out.deep_view() =~= mid + second);
                    }
                } else if str_eq(name.as_str(), "send") || str_eq(name.as_str(), "public_send") {
                    match sent_method_of(tree, c) {
                        Some(m) => {
                            out.push(record_at(tree, c, m, receiver));
                            proof {
                                assert(out.deep_view() =~= mid + second);
                            }
                        },
                        None => {
                            proof {
                                assert(out.deep_view() =~= mid + second);
                            }
                        },
                    }
                } else {
                    out.push(record_at(tree, c, name, receiver));
                    proof {
                        assert(out.deep_view() =~= mid + second);
                    }
                }
            },
            None => {
                proof {
                    assert(out.deep_view() =~= mid + second);
                }
            },
        }
    } else {
        proof {
            assert(out.deep_view() =~= mid + second);
        }
    }
    proof {
        assert(out.deep_view() =~= base + rb_call_records(t, c as int));
    }
}

/// Walks the children of node `i`, appending their calls.
fn calls_walk_node(lang: Language, tree: &SyntaxTree, i: usize, out: &mut Vec<RawCall>)
    requires
        tree_wf(tree@),
        i < tree@.len(),
    ensures
        final(out).deep_view() == calls_walk(lang, tree@, i as int, tree@[i as int].children.len(), old(out).deep_view()),
    decreases tree@.len() - i,
{
    let ghost t = tree@;
    let ghost start = out.deep_view();
    let cs = &tree.node(i).children;
    proof {
        assert(node_wf(t, i as int));
    }
    let mut k: usize = 0;
    while k < cs.len()
        invariant
            t == tree@,
            tree_wf(t),
            i < t.len(),
            node_wf(t, i as int),
            cs@ == t[i as int].children,
            k <= cs@.len(),
            out.deep_view() == calls_walk(lang, t, i as int, k as nat, start),
        decreases cs@.len() - k,
    {
        let c = cs[k];
        proof {
            assert(i < cs@[k as int] < t.len());
        }
        match lang {
            Language::TypeScript => push_ts_calls(tree, c, out),
            Language::Go => push_go_calls(tree, c, out),
            Language::Ruby => push_ruby_calls(tree, c, out),
        }
        if tree.node(c).children.len() > 0 {
            calls_walk_node(lang, tree, c, out);
        }
        k = k + 1;
    }
}

/// The function and method calls of a syntax tree, in walk order.
pub fn extract_calls(language: Language, tree: &SyntaxTree) -> (r: Vec<RawCall>)
    requires
        tree_wf(tree@),
    ensures
        r.deep_view() == tree_calls(language, tree@),
{
    let mut calls: Vec<RawCall> = Vec::new();
    proof {
        assert(calls.deep_view() =~= Seq::<RawCallV>::empty());
    }
    if tree.nodes.len() == 0 {
        return calls;
    }
    calls_walk_node(language, tree, 0, &mut calls);
    calls
}

} // verus!
