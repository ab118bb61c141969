//! Parsing source text with tree-sitter, and copying the concrete syntax
//! tree it produces into a [`SyntaxTree`] arena (nodes in pre-order).

use vstd::prelude::*;
use crate::parser::syntax::{node_wf, tree_wf, SyntaxNode, SyntaxNodeV, SyntaxTree};
use crate::parser::ts::{
    child_count_of, child_of, end_byte_of, end_row_of, field_name_of, grammar_accepted, is_extra_of, is_named_of,
    kind_of, new_parser, node_child_count, node_end_byte, node_end_row, node_extra, node_field, node_has_child, node_kind,
    node_named,
    node_start_byte, node_start_row, parse_text, parses, root_of, set_grammar, start_byte_of, start_row_of,
    utf8_or_empty, utf8_text, TsNode,
};
use crate::parser::Language;

verus! {

// ─── What a copy of the tree holds ──────────────────────────────────

/// `path` leads from the root of the tree that tree-sitter gives for
/// `source` to one of its nodes.
pub open spec fn is_path_of(lang: Language, source: Seq<u8>, path: Seq<usize>) -> bool {
    forall|k: int| 0 <= k < path.len() ==> #[trigger] node_has_child(lang, source, path.take(k), path[k])
}

/// Arena node `x` holds what tree-sitter gives for the node at `path`: its
/// kind, rows, named and extra flags, its text, and the field under which it
/// hangs in its parent.
pub open spec fn holds_node(lang: Language, source: Seq<u8>, x: SyntaxNodeV, path: Seq<usize>) -> bool {
    &&& x.kind == node_kind(lang, source, path)
    &&& x.start_row == node_start_row(lang, source, path)
    &&& x.end_row == node_end_row(lang, source, path)
    &&& x.named == node_named(lang, source, path)
    &&& x.extra == node_extra(lang, source, path)
    &&& x.text == range_text(
        source,
        node_start_byte(lang, source, path) as int,
        node_end_byte(lang, source, path) as int,
    )
    &&& x.field == (if path.len() == 0 {
        None
    } else {
        node_field(lang, source, path.drop_last(), path.last())
    })
}

/// Node `i` of arena `t` stands at `paths[i]`: a path of the tree, whose
/// node it holds, one step below the path of its parent (the root, with no
/// parent, at the empty path).
pub open spec fn node_at(lang: Language, source: Seq<u8>, t: Seq<SyntaxNodeV>, paths: Seq<Seq<usize>>, i: int) -> bool {
    &&& is_path_of(lang, source, paths[i])
    &&& holds_node(lang, source, t[i], paths[i])
    &&& match t[i].parent {
        Some(p) => p < i && paths[i].len() > 0 && paths[i] == paths[p as int].push(paths[i].last()),
        None => paths[i].len() == 0,
    }
}

/// Node `i` of arena `t` has as many children as tree-sitter gives the
/// node at `paths[i]`, child `k` standing at that path extended by `k`.
pub open spec fn children_at(lang: Language, source: Seq<u8>, t: Seq<SyntaxNodeV>, paths: Seq<Seq<usize>>, i: int) -> bool {
    &&& t[i].children.len() == node_child_count(lang, source, paths[i])
    &&& forall|k: int|
        0 <= k < t[i].children.len() ==> (#[trigger] t[i].children[k]) < t.len() && paths[t[i].children[k] as int]
            == paths[i].push(k as usize)
}

/// Arena `t` is copied from the tree that tree-sitter gives for `source`:
/// node `i` stands at `paths[i]`, no two at the same path, the root first,
/// and every node has all its children, in order. (So every path of the
/// tree is in the arena.)
pub open spec fn copied_from(lang: Language, source: Seq<u8>, t: Seq<SyntaxNodeV>, paths: Seq<Seq<usize>>) -> bool {
    &&& nodes_copied(lang, source, t, paths)
    &&& forall|i: int| 0 <= i < t.len() ==> #[trigger] children_at(lang, source, t, paths, i)
}

/// The nodes of arena `t` stand at `paths` (see [`copied_from`]), children
/// aside.
pub open spec fn nodes_copied(lang: Language, source: Seq<u8>, t: Seq<SyntaxNodeV>, paths: Seq<Seq<usize>>) -> bool {
    &&& t.len() > 0
    &&& paths.len() == t.len()
    &&& paths[0] == Seq::<usize>::empty()
    &&& paths.no_duplicates()
    &&& forall|i: int| 0 <= i < t.len() ==> #[trigger] node_at(lang, source, t, paths, i)
}

/// Arena `t` is a copy of the tree that tree-sitter gives for `source`.
pub open spec fn tree_copy_of(lang: Language, source: Seq<u8>, t: Seq<SyntaxNodeV>) -> bool {
    exists|paths: Seq<Seq<usize>>| #[trigger] copied_from(lang, source, t, paths)
}

/// Distinct paths of the tree.
pub open spec fn distinct_paths(lang: Language, source: Seq<u8>, ps: Seq<Seq<usize>>) -> bool {
    &&& ps.no_duplicates()
    &&& forall|k: int| 0 <= k < ps.len() ==> #[trigger] is_path_of(lang, source, ps[k])
}

/// The tree fits an arena: every child below a node's child count exists,
/// no row is the largest `usize`, and it has fewer nodes than the largest
/// `usize` less one.
pub open spec fn tree_fits(lang: Language, source: Seq<u8>) -> bool {
    &&& forall|p: Seq<usize>, i: usize|
        #![trigger is_path_of(lang, source, p), node_has_child(lang, source, p, i)]
        is_path_of(lang, source, p) && i < node_child_count(lang, source, p) ==> node_has_child(lang, source, p, i)
    &&& forall|p: Seq<usize>|
        #[trigger] is_path_of(lang, source, p) ==> node_start_row(lang, source, p) < usize::MAX && node_end_row(
            lang,
            source,
            p,
        ) < usize::MAX
    &&& !exists|ps: Seq<Seq<usize>>| #[trigger] distinct_paths(lang, source, ps) && ps.len() >= usize::MAX - 1
}

/// The text of bytes `start..end` of `source`: empty when that range does not
/// lie inside the source or is not valid UTF-8.
pub open spec fn range_text(source: Seq<u8>, start: int, end: int) -> Seq<char> {
    if 0 <= start <= end <= source.len() {
        utf8_text(source.subrange(start, end))
    } else {
        Seq::empty()
    }
}

/// The text of bytes `start..end` of `source` (see [`range_text`]).
pub fn source_text(source: &[u8], start: usize, end: usize) -> (r: String)
    ensures
        r@ == range_text(source@, start as int, end as int),
{
    if start > end || end > source.len() {
        return String::new();
    }
    let mut bytes: Vec<u8> = Vec::new();
    let mut i = start;
    while i < end
        invariant
            start <= i <= end <= source@.len(),
            bytes@ == source@.subrange(start as int, i as int),
        decreases end - i,
    {
        bytes.push(source[i]);
        i = i + 1;
        proof {
            assert(bytes@ =~= source@.subrange(start as int, i as int));
        }
    }
    utf8_or_empty(bytes.as_slice())
}

// ─── Paths ──────────────────────────────────────────────────────────

/// `a` is a proper prefix of `b`.
pub open spec fn strict_prefix(a: Seq<usize>, b: Seq<usize>) -> bool {
    a.len() < b.len() && b.take(a.len() as int) == a
}

proof fn lemma_prefix_of_extension(s: Seq<usize>, c: usize, x: Seq<usize>)
    requires
        strict_prefix(s.push(c), x),
    ensures
        strict_prefix(s, x),
{
    assert(x.take(s.len() as int) =~= x.take(s.len() as int + 1).take(s.len() as int));
    assert(s.push(c).take(s.len() as int) =~= s);
}

proof fn lemma_prefix_of_child(t: Seq<usize>, s: Seq<usize>, c: usize)
    requires
        strict_prefix(t, s.push(c)),
        t != s,
    ensures
        strict_prefix(t, s),
{
    if t.len() == s.len() {
        assert(s.push(c).take(s.len() as int) =~= s);
    }
    assert(s.take(t.len() as int) =~= s.push(c).take(t.len() as int));
}

proof fn lemma_child_path(lang: Language, source: Seq<u8>, s: Seq<usize>, c: usize)
    requires
        is_path_of(lang, source, s),
        node_has_child(lang, source, s, c),
    ensures
        is_path_of(lang, source, s.push(c)),
{
    let q = s.push(c);
    assert forall|k: int| 0 <= k < q.len() implies #[trigger] node_has_child(lang, source, q.take(k), q[k]) by {
        if k < s.len() {
            assert(q.take(k) =~= s.take(k));
            assert(node_has_child(lang, source, s.take(k), s[k]));
        } else {
            assert(q.take(k) =~= s);
        }
    }
}

// ─── Copying ────────────────────────────────────────────────────────

/// The partial arena: node `i` has children after it (and inside the arena)
/// and a parent before it, and rows that can be numbered from one.
spec fn built_wf(nodes: Seq<SyntaxNodeV>, kids: Seq<Seq<usize>>, i: int) -> bool {
    &&& forall|k: int| 0 <= k < kids[i].len() ==> i < #[trigger] kids[i][k] < nodes.len()
    &&& nodes[i].parent matches Some(p) ==> p < i
    &&& nodes[i].start_row < usize::MAX
    &&& nodes[i].end_row < usize::MAX
}

/// A pending node: at a path of the tree, with the field it hangs under, and
/// one step below the path of its parent in the arena (or the root).
spec fn pending_ok<'a>(
    lang: Language,
    source: Seq<u8>,
    e: (TsNode<'a>, Option<usize>, Option<String>),
    paths: Seq<Seq<usize>>,
) -> bool {
    let q = e.0.path();
    &&& e.0.language() == lang
    &&& e.0.source() == source
    &&& is_path_of(lang, source, q)
    &&& e.2.deep_view() == (if q.len() == 0 {
        None
    } else {
        node_field(lang, source, q.drop_last(), q.last())
    })
    &&& match e.1 {
        Some(p) => p < paths.len() && q.len() > 0 && q == paths[p as int].push(q.last()),
        None => q.len() == 0,
    }
}

/// The children recorded for node `i` so far are its first children, in
/// order, and no more than it has.
spec fn kids_ok(lang: Language, source: Seq<u8>, kids: Seq<Seq<usize>>, paths: Seq<Seq<usize>>, i: int) -> bool {
    &&& kids[i].len() <= node_child_count(lang, source, paths[i])
    &&& forall|k: int|
        0 <= k < kids[i].len() ==> (#[trigger] kids[i][k]) < paths.len() && paths[kids[i][k] as int] == paths[i].push(
            k as usize,
        )
}

/// A pending child is one its parent has not recorded yet, and one the
/// parent has.
spec fn slot_ok<'a>(
    lang: Language,
    source: Seq<u8>,
    kids: Seq<Seq<usize>>,
    paths: Seq<Seq<usize>>,
    e: (TsNode<'a>, Option<usize>, Option<String>),
) -> bool {
    e.1 matches Some(p) ==> p < kids.len() && kids[p as int].len() <= e.0.path().last() < node_child_count(
        lang,
        source,
        paths[p as int],
    )
}

/// Child `l` of node `i` is pending.
spec fn pending_child<'a>(st: Seq<(TsNode<'a>, Option<usize>, Option<String>)>, i: int, l: usize) -> bool {
    exists|j: int| 0 <= j < st.len() && (#[trigger] st[j]).1 == Some(i as usize) && st[j].0.path().last() == l
}

/// Children bookkeeping: recorded children are in place, pending ones come
/// in order (the one nearest the top first), and every child of the first
/// `upto` nodes is recorded or pending.
spec fn child_slots<'a>(
    lang: Language,
    source: Seq<u8>,
    kids: Seq<Seq<usize>>,
    paths: Seq<Seq<usize>>,
    st: Seq<(TsNode<'a>, Option<usize>, Option<String>)>,
    upto: int,
) -> bool {
    &&& kids.len() == paths.len()
    &&& 0 <= upto <= kids.len()
    &&& forall|i: int| 0 <= i < kids.len() ==> #[trigger] kids_ok(lang, source, kids, paths, i)
    &&& forall|j: int| 0 <= j < st.len() ==> #[trigger] slot_ok(lang, source, kids, paths, st[j])
    &&& forall|j1: int, j2: int|
        0 <= j1 < j2 < st.len() && (#[trigger] st[j1]).1 is Some && st[j1].1 == (#[trigger] st[j2]).1 ==> st[j1].0.path().last()
            > st[j2].0.path().last()
    &&& forall|i: int, l: usize|
        0 <= i < upto && kids[i].len() <= l < node_child_count(lang, source, paths[i])
            ==> #[trigger] pending_child(st, i, l)
}

/// Popping the top pending node: it is its parent's next child, and once
/// recorded (the new node with no children yet) the bookkeeping holds again
/// for the nodes before it.
proof fn lemma_slots_pop<'a>(
    lang: Language,
    source: Seq<u8>,
    kids: Seq<Seq<usize>>,
    paths: Seq<Seq<usize>>,
    st: Seq<(TsNode<'a>, Option<usize>, Option<String>)>,
)
    requires
        child_slots(lang, source, kids, paths, st, kids.len() as int),
        st.len() > 0,
        kids.len() < usize::MAX,
        forall|j: int| 0 <= j < st.len() ==> #[trigger] pending_ok(lang, source, st[j], paths),
    ensures
        ({
            let e = st.last();
            let n = kids.len();
            let k1 = match e.1 {
                Some(p) => kids.push(Seq::<usize>::empty()).update(p as int, kids[p as int].push(n as usize)),
                None => kids.push(Seq::<usize>::empty()),
            };
            &&& e.1 matches Some(p) ==> e.0.path().last() == kids[p as int].len()
            &&& child_slots(lang, source, k1, paths.push(e.0.path()), st.drop_last(), n as int)
        }),
{
    let top = st.len() - 1;
    let e = st[top];
    assert(st.last() == e);
    let n = kids.len();
    let k1 = match e.1 {
        Some(p) => kids.push(Seq::<usize>::empty()).update(p as int, kids[p as int].push(n as usize)),
        None => kids.push(Seq::<usize>::empty()),
    };
    let p1 = paths.push(e.0.path());
    let st1 = st.drop_last();
    assert(slot_ok(lang, source, kids, paths, st[top]));
    assert(pending_ok(lang, source, st[top], paths));
    if let Some(p) = e.1 {
        let m = kids[p as int].len();
        assert(pending_child(st, p as int, m as usize));
        let j = choose|j: int| 0 <= j < st.len() && (#[trigger] st[j]).1 == Some(p) && st[j].0.path().last() == m as usize;
        if j != top {
            assert(st[j].0.path().last() > st[top].0.path().last());
        }
    }
    assert forall|i: int| 0 <= i < k1.len() implies #[trigger] kids_ok(lang, source, k1, p1, i) by {
        if i < n {
            assert(kids_ok(lang, source, kids, paths, i));
            assert(p1[i] == paths[i]);
            if e.1 == Some(i as usize) {
                assert(k1[i] == kids[i].push(n as usize));
                assert forall|k: int| 0 <= k < k1[i].len() implies (#[trigger] k1[i][k]) < p1.len() && p1[k1[i][k] as int]
                    == p1[i].push(k as usize) by {
                    if k < kids[i].len() {
                        assert(k1[i][k] == kids[i][k]);
                        assert(p1[kids[i][k] as int] == paths[kids[i][k] as int]);
                    } else {
                        assert(k1[i][k] == n);
                        assert(p1[n as int] == e.0.path());
                    }
                }
            } else {
                assert(k1[i] == kids[i]);
                assert forall|k: int| 0 <= k < k1[i].len() implies (#[trigger] k1[i][k]) < p1.len() && p1[k1[i][k] as int]
                    == p1[i].push(k as usize) by {
                    assert(p1[kids[i][k] as int] == paths[kids[i][k] as int]);
                }
            }
        } else {
            assert(k1[i] =~= Seq::<usize>::empty());
        }
    }
    assert forall|j: int| 0 <= j < st1.len() implies #[trigger] slot_ok(lang, source, k1, p1, st1[j]) by {
        assert(st1[j] == st[j]);
        assert(slot_ok(lang, source, kids, paths, st[j]));
        if let Some(q) = st[j].1 {
            assert(p1[q as int] == paths[q as int]);
            if e.1 == Some(q) {
                assert(st[j].0.path().last() > st[top].0.path().last());
            } else {
                assert(k1[q as int] == kids[q as int]);
            }
        }
    }
    assert forall|j1: int, j2: int|
        0 <= j1 < j2 < st1.len() && (#[trigger] st1[j1]).1 is Some && st1[j1].1 == (#[trigger] st1[j2]).1 implies st1[j1].0.path().last()
            > st1[j2].0.path().last() by {
        assert(st1[j1] == st[j1] && st1[j2] == st[j2]);
    }
    assert forall|i: int, l: usize|
        0 <= i < n && k1[i].len() <= l < node_child_count(lang, source, p1[i]) implies #[trigger] pending_child(
        st1,
        i,
        l,
    ) by {
        assert(p1[i] == paths[i]);
        assert(kids[i].len() <= k1[i].len()) by {
            if e.1 == Some(i as usize) {
                assert(k1[i] == kids[i].push(n as usize));
            } else {
                assert(k1[i] == kids[i]);
            }
        }
        assert(pending_child(st, i, l));
        let j = choose|j: int| 0 <= j < st.len() && (#[trigger] st[j]).1 == Some(i as usize) && st[j].0.path().last() == l;
        if j == top {
            assert(k1[i] == kids[i].push(n as usize));
        }
        assert(st1[j] == st[j]);
    }
}

/// Queuing child `c` of node `idx`, below its other queued children.
proof fn lemma_slots_push<'a>(
    lang: Language,
    source: Seq<u8>,
    kids: Seq<Seq<usize>>,
    paths: Seq<Seq<usize>>,
    st: Seq<(TsNode<'a>, Option<usize>, Option<String>)>,
    e: (TsNode<'a>, Option<usize>, Option<String>),
    idx: int,
    base: int,
)
    requires
        child_slots(lang, source, kids, paths, st, idx),
        0 <= idx < usize::MAX,
        kids.len() == idx + 1,
        kids[idx].len() == 0,
        e.1 == Some(idx as usize),
        e.0.path().last() < node_child_count(lang, source, paths[idx]),
        0 <= base <= st.len(),
        forall|j: int| 0 <= j < base ==> (#[trigger] st[j]).1 != Some(idx as usize),
        forall|j: int|
            base <= j < st.len() ==> (#[trigger] st[j]).1 == Some(idx as usize) && st[j].0.path().last()
                > e.0.path().last(),
    ensures
        child_slots(lang, source, kids, paths, st.push(e), idx),
        pending_child(st.push(e), idx, e.0.path().last()),
        forall|l: usize| #[trigger] pending_child(st, idx, l) ==> pending_child(st.push(e), idx, l),
{
    let s1 = st.push(e);
    let k = st.len() as int;
    assert(s1[k] == e);
    assert forall|j: int| 0 <= j < s1.len() implies #[trigger] slot_ok(lang, source, kids, paths, s1[j]) by {
        if j < k {
            assert(s1[j] == st[j]);
        }
    }
    assert forall|j1: int, j2: int|
        0 <= j1 < j2 < s1.len() && (#[trigger] s1[j1]).1 is Some && s1[j1].1 == (#[trigger] s1[j2]).1 implies s1[j1].0.path().last()
            > s1[j2].0.path().last() by {
        assert(s1[j1] == st[j1]);
        if j2 < k {
            assert(s1[j2] == st[j2]);
        }
    }
    assert forall|i: int, l: usize|
        0 <= i < idx && kids[i].len() <= l < node_child_count(lang, source, paths[i]) implies #[trigger] pending_child(
        s1,
        i,
        l,
    ) by {
        assert(pending_child(st, i, l));
        let j = choose|j: int| 0 <= j < st.len() && (#[trigger] st[j]).1 == Some(i as usize) && st[j].0.path().last() == l;
        assert(s1[j] == st[j]);
    }
    assert forall|l: usize| #[trigger] pending_child(st, idx, l) implies pending_child(s1, idx, l) by {
        let j = choose|j: int| 0 <= j < st.len() && (#[trigger] st[j]).1 == Some(idx as usize) && st[j].0.path().last() == l;
        assert(s1[j] == st[j]);
    }
}

/// Every node has all its children recorded.
spec fn all_kids(lang: Language, source: Seq<u8>, kids: Seq<Seq<usize>>, paths: Seq<Seq<usize>>) -> bool {
    forall|i: int|
        0 <= i < kids.len() ==> #[trigger] kids_ok(lang, source, kids, paths, i) && kids[i].len() == node_child_count(
            lang,
            source,
            paths[i],
        )
}

/// Copies the tree under `root` into an arena in pre-order; `None` when a
/// row or the node count reaches the largest `usize`.
fn copy_tree<'a>(root: TsNode<'a>, source: &[u8]) -> (r: Option<SyntaxTree>)
    requires
        root.path() == Seq::<usize>::empty(),
        root.source() == source@,
    ensures
        r matches Some(t) ==> tree_wf(t@) && tree_copy_of(root.language(), source@, t@),
        r is None ==> !tree_fits(root.language(), source@),
{
    let ghost lang = root.language();
    let ghost src = source@;
    let ghost mut paths: Seq<Seq<usize>> = Seq::empty();
    let mut nodes: Vec<SyntaxNode> = Vec::new();
    let mut kids: Vec<Vec<usize>> = Vec::new();
    let mut stack: Vec<(TsNode<'a>, Option<usize>, Option<String>)> = Vec::new();
    stack.push((root, None, None));
    proof {
        assert(is_path_of(lang, src, Seq::<usize>::empty()));
        assert(pending_ok(lang, src, stack@[0], paths));
        assert(slot_ok(lang, src, kids.deep_view(), paths, stack@[0]));
    }
    while stack.len() > 0
        invariant
            child_slots(lang, src, kids.deep_view(), paths, stack@, nodes@.len() as int),
            lang == root.language(),
            src == source@,
            nodes@.len() == kids@.len(),
            paths.len() == nodes@.len(),
            forall|i: int| 0 <= i < nodes@.len() ==> #[trigger] built_wf(nodes.deep_view(), kids.deep_view(), i),
            forall|i: int| 0 <= i < nodes@.len() ==> #[trigger] node_at(lang, src, nodes.deep_view(), paths, i),
            forall|j: int| 0 <= j < stack@.len() ==> #[trigger] pending_ok(lang, src, stack@[j], paths),
            paths.no_duplicates(),
            forall|j1: int, j2: int|
                0 <= j1 < stack@.len() && 0 <= j2 < stack@.len() && j1 != j2 ==> (#[trigger] stack@[j1]).0.path()
                    != (#[trigger] stack@[j2]).0.path() && !strict_prefix(stack@[j1].0.path(), stack@[j2].0.path()),
            forall|i: int, j: int|
                0 <= i < paths.len() && 0 <= j < stack@.len() ==> (#[trigger] paths[i]) != (#[trigger] stack@[j]).0.path()
                    && !strict_prefix(stack@[j].0.path(), paths[i]),
            nodes@.len() == 0 ==> stack@.len() == 1 && stack@[0].0.path() == Seq::<usize>::empty(),
            nodes@.len() > 0 ==> paths[0] == Seq::<usize>::empty(),
        decreases usize::MAX - nodes@.len(),
    {
        if nodes.len() >= usize::MAX - 1 {
            proof {
                assert(distinct_paths(lang, src, paths)) by {
                    assert forall|k: int| 0 <= k < paths.len() implies #[trigger] is_path_of(lang, src, paths[k]) by {
                        assert(node_at(lang, src, nodes.deep_view(), paths, k));
                    }
                }
            }
            return None;
        }
        let ghost st = stack@;
        let ghost top = stack@.len() - 1;
        let (node, parent, field) = stack.pop().unwrap();
        let ghost s = node.path();
        proof {
            assert(st[top] == (node, parent, field));
            assert(pending_ok(lang, src, st[top], paths));
            assert forall|j: int| 0 <= j < stack@.len() implies stack@[j] == #[trigger] st[j] by {}
            assert(stack@ =~= st.drop_last());
            lemma_slots_pop(lang, src, kids.deep_view(), paths, st);
            assert forall|j: int| 0 <= j < stack@.len() implies (#[trigger] stack@[j]).1 matches Some(p) ==> p < nodes@.len() by {
                assert(pending_ok(lang, src, st[j], paths));
            }
        }
        let ghost k_before = kids.deep_view();
        let idx = nodes.len();
        let start_row = start_row_of(&node);
        let end_row = end_row_of(&node);
        if start_row == usize::MAX || end_row == usize::MAX {
            proof {
                assert(is_path_of(lang, src, s));
            }
            return None;
        }
        let ghost old_nodes = nodes.deep_view();
        let ghost old_kids = kids.deep_view();
        let ghost old_paths = paths;
        let sb = start_byte_of(&node);
        let eb = end_byte_of(&node);
        let rec = SyntaxNode {
            kind: kind_of(&node),
            field,
            text: source_text(source, sb, eb),
            start_row,
            end_row,
            named: is_named_of(&node),
            extra: is_extra_of(&node),
            parent,
            children: Vec::new(),
        };
        nodes.push(rec);
        kids.push(Vec::new());
        proof {
            paths = paths.push(s);
        }
        match parent {
            Some(p) => {
                kids[p].push(idx);
            },
            None => {},
        }
        proof {
            let k1 = match parent {
                Some(p) => k_before.push(Seq::<usize>::empty()).update(p as int, k_before[p as int].push(idx)),
                None => k_before.push(Seq::<usize>::empty()),
            };
            assert(kids.deep_view() =~= k1) by {
                assert forall|i: int| 0 <= i < kids@.len() implies #[trigger] kids.deep_view()[i] == k1[i] by {
                    if i == idx {
                        assert(kids.deep_view()[i] =~= Seq::<usize>::empty());
                    }
                }
            }
            let nv = nodes.deep_view();
            assert(nv[idx as int] == rec@);
            assert forall|i: int| 0 <= i < nodes@.len() implies #[trigger] built_wf(nv, kids.deep_view(), i) by {
                if i < idx {
                    assert(nv[i] == old_nodes[i]);
                    assert(built_wf(old_nodes, old_kids, i));
                    if parent == Some(i as usize) {
                        assert(kids.deep_view()[i] == old_kids[i].push(idx));
                    } else {
                        assert(kids.deep_view()[i] == old_kids[i]);
                    }
                } else {
                    assert(kids.deep_view()[i] =~= Seq::<usize>::empty());
                }
            }
            assert forall|i: int| 0 <= i < nodes@.len() implies #[trigger] node_at(lang, src, nv, paths, i) by {
                if i < idx {
                    assert(nv[i] == old_nodes[i]);
                    assert(node_at(lang, src, old_nodes, old_paths, i));
                    assert(paths[i] == old_paths[i]);
                    if let Some(p) = nv[i].parent {
                        assert(paths[p as int] == old_paths[p as int]);
                    }
                } else {
                    assert(paths[i] == s);
                    if let Some(p) = parent {
                        assert(paths[p as int] == old_paths[p as int]);
                    }
                }
            }
            assert(paths.no_duplicates()) by {
                assert forall|a: int, b: int| 0 <= a < paths.len() && 0 <= b < paths.len() && a != b implies paths[a] != paths[b] by {
                    if a == idx {
                        assert(old_paths[b] != st[top].0.path());
                    } else if b == idx {
                        assert(old_paths[a] != st[top].0.path());
                    } else {
                        assert(paths[a] == old_paths[a] && paths[b] == old_paths[b]);
                    }
                }
            }
            assert forall|j: int| 0 <= j < stack@.len() implies #[trigger] pending_ok(lang, src, stack@[j], paths) by {
                assert(pending_ok(lang, src, st[j], old_paths));
                if let Some(p) = st[j].1 {
                    assert(paths[p as int] == old_paths[p as int]);
                }
            }
            assert forall|i: int, j: int| 0 <= i < paths.len() && 0 <= j < stack@.len() implies (#[trigger] paths[i])
                != (#[trigger] stack@[j]).0.path() && !strict_prefix(stack@[j].0.path(), paths[i]) by {
                assert(stack@[j] == st[j]);
                if i == idx {
                    assert(paths[i] == st[top].0.path());
                } else {
                    assert(paths[i] == old_paths[i]);
                }
            }
        }
        let ghost base = stack@.len();
        let count = child_count_of(&node);
        let mut c = count;
        proof {
            assert forall|l: usize| c <= l < count implies #[trigger] pending_child(stack@, idx as int, l) by {}
        }
        while c > 0
            invariant
                child_slots(lang, src, kids.deep_view(), paths, stack@, idx as int),
                idx < usize::MAX - 1,
                kids@.len() == idx + 1,
                kids.deep_view()[idx as int].len() == 0,
                count == node_child_count(lang, src, s),
                forall|j: int| 0 <= j < base ==> (#[trigger] stack@[j]).1 != Some(idx),
                forall|j: int| base <= j < stack@.len() ==> (#[trigger] stack@[j]).1 == Some(idx),
                forall|l: usize| c <= l < count ==> #[trigger] pending_child(stack@, idx as int, l),
                c <= count,
                count <= u32::MAX,
                lang == root.language(),
                src == source@,
                idx < nodes@.len(),
                paths.len() == nodes@.len(),
                paths[idx as int] == s,
                s == node.path(),
                node.language() == lang,
                node.source() == src,
                is_path_of(lang, src, s),
                base <= stack@.len(),
                forall|j: int| 0 <= j < stack@.len() ==> #[trigger] pending_ok(lang, src, stack@[j], paths),
                forall|j: int|
                    base <= j < stack@.len() ==> (#[trigger] stack@[j]).0.path().len() == s.len() + 1
                        && stack@[j].0.path() == s.push(stack@[j].0.path().last()) && c <= stack@[j].0.path().last(),
                forall|j1: int, j2: int|
                    base <= j1 < j2 < stack@.len() ==> (#[trigger] stack@[j1]).0.path().last()
                        > (#[trigger] stack@[j2]).0.path().last(),
                forall|j: int| 0 <= j < base ==> !strict_prefix(s, (#[trigger] stack@[j]).0.path()),
                forall|i: int| 0 <= i < paths.len() ==> !strict_prefix(s, #[trigger] paths[i]),
                forall|j1: int, j2: int|
                    0 <= j1 < stack@.len() && 0 <= j2 < stack@.len() && j1 != j2 ==> (#[trigger] stack@[j1]).0.path()
                        != (#[trigger] stack@[j2]).0.path() && !strict_prefix(stack@[j1].0.path(), stack@[j2].0.path()),
                forall|i: int, j: int|
                    0 <= i < paths.len() && 0 <= j < stack@.len() ==> (#[trigger] paths[i]) != (#[trigger] stack@[
                        j
                    ]).0.path() && !strict_prefix(stack@[j].0.path(), paths[i]),
            decreases c,
        {
            c = c - 1;
            match child_of(&node, c) {
                Some(ch) => {
                    let f = field_name_of(&node, c);
                    let ghost q = ch.path();
                    let ghost sb0 = stack@;
                    proof {
                        assert(q.last() == c) by {
                            assert(q == s.push(c));
                        }
                        lemma_slots_push(lang, src, kids.deep_view(), paths, sb0, (ch, Some(idx), f), idx as int, base as int);
                    }
                    stack.push((ch, Some(idx), f));
                    proof {
                        assert(stack@ == sb0.push((ch, Some(idx), f)));
                        assert forall|l: usize| c <= l < count implies #[trigger] pending_child(stack@, idx as int, l) by {
                            if l != c {
                                assert(pending_child(sb0, idx as int, l));
                            }
                        }
                        lemma_child_path(lang, src, s, c);
                        let k = stack@.len() - 1;
                        assert(stack@[k] == (ch, Some(idx), f));
                        assert(q.drop_last() =~= s);
                        assert(q.last() == c);
                        assert forall|j: int| 0 <= j < k implies stack@[j] == #[trigger] sb0[j] by {}
                        assert(pending_ok(lang, src, stack@[k], paths));
                        // the new path is none of the others, and neither extends nor is extended by one
                        assert forall|j: int| 0 <= j < k implies sb0[j].0.path() != q && !strict_prefix(
                            sb0[j].0.path(),
                            q,
                        ) && !strict_prefix(q, #[trigger] sb0[j].0.path()) by {
                            let t = sb0[j].0.path();
                            if j >= base {
                                assert(t == s.push(t.last()));
                                assert(t.last() > c);
                            } else {
                                if t == q {
                                    assert(q.take(s.len() as int) =~= s);
                                    assert(strict_prefix(s, t));
                                }
                                if strict_prefix(q, t) {
                                    lemma_prefix_of_extension(s, c, t);
                                }
                                if strict_prefix(t, q) {
                                    assert(t != paths[idx as int]);
                                    lemma_prefix_of_child(t, s, c);
                                    assert(!strict_prefix(t, paths[idx as int]));
                                }
                            }
                        }
                        assert forall|i: int| 0 <= i < paths.len() implies paths[i] != q && !strict_prefix(q, #[trigger] paths[i]) by {
                            if paths[i] == q {
                                assert(q.take(s.len() as int) =~= s);
                                assert(strict_prefix(s, paths[i]));
                            }
                            if strict_prefix(q, paths[i]) {
                                lemma_prefix_of_extension(s, c, paths[i]);
                            }
                        }
                        assert forall|j1: int, j2: int|
                            0 <= j1 < stack@.len() && 0 <= j2 < stack@.len() && j1 != j2 implies (#[trigger] stack@[j1]).0.path()
                                != (#[trigger] stack@[j2]).0.path() && !strict_prefix(stack@[j1].0.path(), stack@[j2].0.path()) by {
                            if j1 == k {
                                assert(sb0[j2].0.path() != q);
                            } else if j2 == k {
                                assert(sb0[j1].0.path() != q);
                            }
                        }
                    }
                },
                None => {
                    proof {
                        assert(is_path_of(lang, src, s));
                        assert(!node_has_child(lang, src, s, c));
                    }
                    return None;
                },
            }
        }
        proof {
            assert forall|i: int, l: usize|
                0 <= i < idx + 1 && kids.deep_view()[i].len() <= l < node_child_count(lang, src, paths[i]) implies #[trigger] pending_child(
                stack@,
                i,
                l,
            ) by {
                if i == idx {
                    assert(paths[i] == s);
                }
            }
        }
    }
    proof {
        assert forall|i: int| 0 <= i < kids@.len() implies #[trigger] kids_ok(lang, src, kids.deep_view(), paths, i)
            && kids.deep_view()[i].len() == node_child_count(lang, src, paths[i]) by {
            assert(kids_ok(lang, src, kids.deep_view(), paths, i));
            if kids.deep_view()[i].len() < node_child_count(lang, src, paths[i]) {
                let l = kids.deep_view()[i].len() as usize;
                assert(pending_child(stack@, i, l));
            }
        }
    }
    // Attach each node's children.
    let n = nodes.len();
    let ghost nv = nodes.deep_view();
    let ghost kv = kids.deep_view();
    proof {
        assert(nodes_copied(lang, src, nv, paths));
    }
    let mut rev: Vec<SyntaxNode> = Vec::new();
    while nodes.len() > 0
        invariant
            nodes_copied(lang, src, nv, paths),
            all_kids(lang, src, kv, paths),
            lang == root.language(),
            src == source@,
            nodes@.len() == kids@.len(),
            nodes@.len() + rev@.len() == n,
            n == nv.len(),
            n == kv.len(),
            forall|i: int| 0 <= i < nodes@.len() ==> #[trigger] nodes.deep_view()[i] == nv[i],
            forall|i: int| 0 <= i < kids@.len() ==> #[trigger] kids.deep_view()[i] == kv[i],
            forall|j: int|
                0 <= j < rev@.len() ==> #[trigger] rev.deep_view()[j] == (SyntaxNodeV {
                    children: kv[n - 1 - j],
                    ..nv[n - 1 - j]
                }),
        decreases nodes@.len(),
    {
        let ghost before = rev.deep_view();
        let ghost last = nodes@.len() - 1;
        proof {
            assert(nodes.deep_view()[last] == nv[last]);
            assert(kids.deep_view()[last] == kv[last]);
            assert(kids@[last].deep_view() =~= kids@[last]@);
        }
        let ghost old_nodes = nodes@;
        let ghost old_kids = kids@;
        let ghost old_dv = nodes.deep_view();
        let ghost old_kdv = kids.deep_view();
        let mut rec = nodes.pop().unwrap();
        let ch = kids.pop().unwrap();
        proof {
            assert(rec == old_nodes[last]);
            assert(ch == old_kids[last]);
            assert(rec@ == nv[last]);
            assert(ch@ == kv[last]);
            assert forall|i: int| 0 <= i < nodes@.len() implies #[trigger] nodes.deep_view()[i] == nv[i] by {
                assert(nodes@[i] == old_nodes[i]);
                assert(old_dv[i] == nv[i]);
                assert(old_dv[i] == old_nodes[i].deep_view());
            }
            assert forall|i: int| 0 <= i < kids@.len() implies #[trigger] kids.deep_view()[i] == kv[i] by {
                assert(kids@[i] == old_kids[i]);
                assert(old_kdv[i] == kv[i]);
                assert(old_kdv[i] == old_kids[i].deep_view());
            }
        }
        rec.children = ch;
        rev.push(rec);
        proof {
            assert forall|j: int| 0 <= j < rev@.len() implies #[trigger] rev.deep_view()[j] == (SyntaxNodeV {
                children: kv[n - 1 - j],
                ..nv[n - 1 - j]
            }) by {
                if j < before.len() {
                    assert(rev.deep_view()[j] == before[j]);
                }
            }
        }
    }
    let mut out: Vec<SyntaxNode> = Vec::new();
    while rev.len() > 0
        invariant
            nodes_copied(lang, src, nv, paths),
            all_kids(lang, src, kv, paths),
            lang == root.language(),
            src == source@,
            rev@.len() + out@.len() == n,
            n == nv.len(),
            n == kv.len(),
            forall|j: int|
                0 <= j < rev@.len() ==> #[trigger] rev.deep_view()[j] == (SyntaxNodeV {
                    children: kv[n - 1 - j],
                    ..nv[n - 1 - j]
                }),
            forall|i: int|
                0 <= i < out@.len() ==> #[trigger] out.deep_view()[i] == (SyntaxNodeV { children: kv[i], ..nv[i] }),
        decreases rev@.len(),
    {
        let ghost before = out.deep_view();
        let ghost k = out@.len();
        let ghost old_rev = rev@;
        let ghost old_rdv = rev.deep_view();
        proof {
            assert(rev.deep_view()[rev@.len() - 1] == (SyntaxNodeV { children: kv[k as int], ..nv[k as int] }));
        }
        let rec = rev.pop().unwrap();
        proof {
            assert(rec == old_rev[old_rev.len() - 1]);
            assert(rec@ == (SyntaxNodeV { children: kv[k as int], ..nv[k as int] }));
            assert forall|j: int| 0 <= j < rev@.len() implies #[trigger] rev.deep_view()[j] == (SyntaxNodeV {
                children: kv[n - 1 - j],
                ..nv[n - 1 - j]
            }) by {
                assert(rev@[j] == old_rev[j]);
                assert(old_rdv[j] == old_rev[j].deep_view());
                assert(old_rdv[j] == (SyntaxNodeV { children: kv[n - 1 - j], ..nv[n - 1 - j] }));
            }
        }
        out.push(rec);
        proof {
            assert forall|i: int| 0 <= i < out@.len() implies #[trigger] out.deep_view()[i] == (SyntaxNodeV {
                children: kv[i],
                ..nv[i]
            }) by {
                if i < before.len() {
                    assert(out.deep_view()[i] == before[i]);
                }
            }
        }
    }
    let tree = SyntaxTree { nodes: out };
    proof {
        assert forall|i: int| 0 <= i < tree@.len() implies #[trigger] node_wf(tree@, i) by {
            assert(built_wf(nv, kv, i));
            assert(tree@[i] == (SyntaxNodeV { children: kv[i], ..nv[i] }));
        }
        assert(copied_from(lang, src, tree@, paths)) by {
            assert forall|i: int| 0 <= i < tree@.len() implies #[trigger] node_at(lang, src, tree@, paths, i) by {
                assert(node_at(lang, src, nv, paths, i));
                assert(tree@[i] == (SyntaxNodeV { children: kv[i], ..nv[i] }));
            }
            assert forall|i: int| 0 <= i < tree@.len() implies #[trigger] children_at(lang, src, tree@, paths, i) by {
                assert(tree@[i] == (SyntaxNodeV { children: kv[i], ..nv[i] }));
                assert(kids_ok(lang, src, kv, paths, i));
            }
        }
    }
    Some(tree)
}

/// The syntax tree of `source` in `language`, parsed by tree-sitter: a copy
/// of the tree that tree-sitter gives. `None` when tree-sitter refuses the
/// grammar or gives no tree; otherwise a tree always comes back unless it
/// does not fit the arena (a row or the node count at the largest `usize`).
pub fn parse_source(language: Language, source: &[u8]) -> (r: Option<SyntaxTree>)
    ensures
        r matches Some(t) ==> tree_wf(t@) && tree_copy_of(language, source@, t@),
        r is Some ==> grammar_accepted(language) && parses(language, source@),
        grammar_accepted(language) && parses(language, source@) && tree_fits(language, source@) ==> r is Some,
{
    let mut parser = match set_grammar(new_parser(), language) {
        Some(p) => p,
        None => return None,
    };
    let tree = match parse_text(&mut parser, source) {
        Some(t) => t,
        None => return None,
    };
    let root = root_of(&tree);
    copy_tree(root, source)
}

} // verus!
