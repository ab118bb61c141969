//! Inheritance resolution: EXTENDS / IMPLEMENTS edges, explicit and Go-implicit.

use vstd::prelude::*;
use crate::analyzer::{index_lookup, IndexEntryV, SymbolIndex, SymbolRef, SymbolRefV};
use crate::parser::extract::{symbol_uid, Symbol, SymbolKind, SymbolV};
use crate::text::{chars_of, owned, position_in, str_eq, string_of};
use super::{conf, edge, Confidence, RelationKind, Relationship, RelationshipV};

verus! {

// ─── Explicit inheritance ───────────────────────────────────────────

/// The part after the last `::` (`rsplit("::").next()`), or all of `s`.
pub open spec fn after_last_sep(s: Seq<char>) -> Seq<char>
    decreases s.len(),
{
    if s.len() == 0 {
        s
    } else if s.len() >= 2 && s[s.len() - 2] == ':' && s[s.len() - 1] == ':' {
        Seq::empty()
    } else {
        after_last_sep(s.drop_last()).push(s.last())
    }
}

/// The first record whose kind is one of the two given kinds.
pub open spec fn first_of_kinds(refs: Seq<SymbolRefV>, k1: Seq<char>, k2: Seq<char>) -> Option<SymbolRefV>
    decreases refs.len(),
{
    if refs.len() == 0 {
        None
    } else if refs[0].kind == k1 || refs[0].kind == k2 {
        Some(refs[0])
    } else {
        first_of_kinds(refs.drop_first(), k1, k2)
    }
}

/// The first record, if any.
pub open spec fn first_ref(refs: Seq<SymbolRefV>) -> Option<SymbolRefV> {
    if refs.len() > 0 {
        Some(refs[0])
    } else {
        None
    }
}

/// EXTENDS edge for an explicit superclass: a class or struct of that name if
/// there is one, else the first symbol of that name. The full name is used
/// when indexed, else the part after the last `::`.
pub open spec fn superclass_edges(s: SymbolV, idx: Seq<IndexEntryV>) -> Seq<RelationshipV> {
    match s.superclass {
        None => Seq::empty(),
        Some(sc) => {
            let name = if index_lookup(idx, sc).len() > 0 {
                sc
            } else {
                after_last_sep(sc)
            };
            let targets = index_lookup(idx, name);
            let best = match first_of_kinds(targets, "Class"@, "Struct"@) {
                Some(t) => Some(t),
                None => first_ref(targets),
            };
            match best {
                Some(t) => seq![edge(symbol_uid(s), t.uid, RelationKind::Extends, conf(1, 1), "explicit-extends"@)],
                None => Seq::empty(),
            }
        },
    }
}

/// The target of one listed interface: an interface or module under the full
/// name, then under the short name, then any symbol under either.
pub open spec fn interface_target(iface: Seq<char>, idx: Seq<IndexEntryV>) -> Option<SymbolRefV> {
    let short = after_last_sep(iface);
    let full = index_lookup(idx, iface);
    let shorts = if short != iface {
        index_lookup(idx, short)
    } else {
        Seq::empty()
    };
    match first_of_kinds(full, "Interface"@, "Module"@) {
        Some(t) => Some(t),
        None => match first_of_kinds(shorts, "Interface"@, "Module"@) {
            Some(t) => Some(t),
            None => match first_ref(full) {
                Some(t) => Some(t),
                None => first_ref(shorts),
            },
        },
    }
}

/// IMPLEMENTS edge (EXTENDS when the symbol itself is an interface) for one listed interface.
pub open spec fn interface_edge(s: SymbolV, idx: Seq<IndexEntryV>) -> spec_fn(Seq<char>) -> Option<RelationshipV> {
    |iface: Seq<char>|
        match interface_target(iface, idx) {
            Some(t) => Some(
                if s.kind == SymbolKind::Interface {
                    edge(symbol_uid(s), t.uid, RelationKind::Extends, conf(1, 1), "interface-extends"@)
                } else {
                    edge(symbol_uid(s), t.uid, RelationKind::Implements, conf(1, 1), "explicit-implements"@)
                },
            ),
            None => None,
        }
}

/// Inheritance edges of one symbol.
pub open spec fn symbol_inheritance(s: SymbolV, idx: Seq<IndexEntryV>) -> Seq<RelationshipV> {
    superclass_edges(s, idx) + s.interfaces.filter_map(interface_edge(s, idx))
}

/// Inheritance edges of all symbols, in symbol order.
pub open spec fn inheritance_edges(syms: Seq<SymbolV>, idx: Seq<IndexEntryV>) -> Seq<RelationshipV>
    decreases syms.len(),
{
    if syms.len() == 0 {
        Seq::empty()
    } else {
        inheritance_edges(syms.drop_last(), idx) + symbol_inheritance(syms.last(), idx)
    }
}

/// The part after the last `::`.
fn after_last_separator(s: &str) -> (r: String)
    ensures
        r@ == after_last_sep(s@),
{
    let v = chars_of(s);
    let mut i: usize = v.len();
    proof {
        assert(v@.subrange(0, v@.len() as int) =~= v@);
        assert(v@.subrange(v@.len() as int, v@.len() as int) =~= Seq::<char>::empty());
    }
    while i > 0 && !(i >= 2 && v[i - 2] == ':' && v[i - 1] == ':')
        invariant
            i <= v@.len(),
            v@ == s@,
            after_last_sep(s@) == after_last_sep(v@.subrange(0, i as int)) + v@.subrange(i as int, v@.len() as int),
        decreases i,
    {
        proof {
            let p = v@.subrange(0, i as int);
            assert(p.drop_last() =~= v@.subrange(0, i - 1));
            assert(v@.subrange(i - 1, v@.len() as int) =~= seq![p.last()] + v@.subrange(i as int, v@.len() as int));
        }
        i = i - 1;
    }
    proof {
        let p = v@.subrange(0, i as int);
        if i > 0 {
            assert(after_last_sep(p) =~= Seq::<char>::empty());
        }
    }
    let mut r: Vec<char> = Vec::new();
    let mut k: usize = i;
    while k < v.len()
        invariant
            i <= k <= v@.len(),
            r@ == v@.subrange(i as int, k as int),
        decreases v@.len() - k,
    {
        r.push(v[k]);
        k = k + 1;
        proof {
            assert(r@ =~= v@.subrange(i as int, k as int));
        }
    }
    proof {
        assert(r@ =~= after_last_sep(s@));
    }
    string_of(r.as_slice())
}

proof fn lemma_first_of_kinds_found(refs: Seq<SymbolRefV>, k1: Seq<char>, k2: Seq<char>, i: int)
    requires
        0 <= i < refs.len(),
        refs[i].kind == k1 || refs[i].kind == k2,
        forall|j: int| 0 <= j < i ==> !(refs[j].kind == k1 || refs[j].kind == k2),
    ensures
        first_of_kinds(refs, k1, k2) == Some(refs[i]),
    decreases i,
{
    if i > 0 {
        let t = refs.drop_first();
        assert forall|j: int| 0 <= j < i - 1 implies !(t[j].kind == k1 || t[j].kind == k2) by {
            assert(t[j] == refs[j + 1]);
        }
        lemma_first_of_kinds_found(t, k1, k2, i - 1);
    }
}

proof fn lemma_first_of_kinds_none(refs: Seq<SymbolRefV>, k1: Seq<char>, k2: Seq<char>)
    requires
        forall|j: int| 0 <= j < refs.len() ==> !(refs[j].kind == k1 || refs[j].kind == k2),
    ensures
        first_of_kinds(refs, k1, k2) == None::<SymbolRefV>,
    decreases refs.len(),
{
    if refs.len() > 0 {
        let t = refs.drop_first();
        assert forall|j: int| 0 <= j < t.len() implies !(t[j].kind == k1 || t[j].kind == k2) by {
            assert(t[j] == refs[j + 1]);
        }
        lemma_first_of_kinds_none(t, k1, k2);
    }
}

/// Index of the first record of one of two kinds.
fn find_of_kinds(refs: &Vec<SymbolRef>, k1: &str, k2: &str) -> (r: Option<usize>)
    ensures
        match r {
            Some(i) => i < refs@.len() && first_of_kinds(refs.deep_view(), k1@, k2@) == Some(refs.deep_view()[i as int]),
            None => first_of_kinds(refs.deep_view(), k1@, k2@) == None::<SymbolRefV>,
        },
{
    let ghost rv = refs.deep_view();
    let mut i: usize = 0;
    while i < refs.len()
        invariant
            i <= rv.len(),
            rv == refs.deep_view(),
            forall|j: int| 0 <= j < i ==> !(rv[j].kind == k1@ || rv[j].kind == k2@),
        decreases rv.len() - i,
    {
        proof {
            assert(rv[i as int] == refs@[i as int]@);
        }
        if str_eq(refs[i].kind.as_str(), k1) || str_eq(refs[i].kind.as_str(), k2) {
            proof {
                lemma_first_of_kinds_found(rv, k1@, k2@, i as int);
            }
            return Some(i);
        }
        i = i + 1;
    }
    proof {
        lemma_first_of_kinds_none(rv, k1@, k2@);
    }
    None
}

/// Best target among `refs` for the two preferred kinds, else the first.
fn pick(refs: &Vec<SymbolRef>, k1: &str, k2: &str) -> (r: Option<String>)
    ensures
        r.deep_view() == (match first_of_kinds(refs.deep_view(), k1@, k2@) {
            Some(t) => Some(t.uid),
            None => match first_ref(refs.deep_view()) {
                Some(t) => Some(t.uid),
                None => None,
            },
        }),
{
    match find_of_kinds(refs, k1, k2) {
        Some(i) => Some(refs[i].uid.clone()),
        None => {
            if refs.len() > 0 {
                Some(refs[0].uid.clone())
            } else {
                None
            }
        },
    }
}

/// UID of the target of one listed interface.
fn interface_target_uid(iface: &str, idx: &SymbolIndex) -> (r: Option<String>)
    ensures
        r.deep_view() == (match interface_target(iface@, idx@) {
            Some(t) => Some(t.uid),
            None => None,
        }),
{
    let short = after_last_separator(iface);
    let full = idx.get(iface);
    let shorts = if !str_eq(short.as_str(), iface) {
        idx.get(short.as_str())
    } else {
        Vec::new()
    };
    proof {
        if !(short@ != iface@) {
            assert(shorts.deep_view() =~= Seq::<SymbolRefV>::empty());
        }
    }
    if let Some(i) = find_of_kinds(&full, "Interface", "Module") {
        return Some(full[i].uid.clone());
    }
    if let Some(i) = find_of_kinds(&shorts, "Interface", "Module") {
        return Some(shorts[i].uid.clone());
    }
    if full.len() > 0 {
        return Some(full[0].uid.clone());
    }
    if shorts.len() > 0 {
        return Some(shorts[0].uid.clone());
    }
    None
}

/// Detect inheritance → EXTENDS / IMPLEMENTS edges.
pub fn resolve_inheritance(
    file_path: &str,
    symbols: &[Symbol],
    symbol_index: &SymbolIndex,
    relationships: &mut Vec<Relationship>,
)
    ensures
        final(relationships).deep_view() == old(relationships).deep_view() + inheritance_edges(
            symbols.deep_view(),
            symbol_index@,
        ),
{
    let ghost sv = symbols.deep_view();
    let ghost start = old(relationships).deep_view();
    let mut i: usize = 0;
    while i < symbols.len()
        invariant
            i <= sv.len(),
            sv == symbols.deep_view(),
            relationships.deep_view() == start + inheritance_edges(sv.take(i as int), symbol_index@),
        decreases sv.len() - i,
    {
        let sym = &symbols[i];
        proof {
            assert(sv.take(i + 1).drop_last() =~= sv.take(i as int));
            assert(sv[i as int] == sym@);
        }
        let source_uid = sym.uid();
        let ghost mid = relationships.deep_view();
        if let Some(sc) = &sym.superclass {
            let name = if symbol_index.contains_key(sc.as_str()) {
                sc.clone()
            } else {
                after_last_separator(sc.as_str())
            };
            let targets = symbol_index.get(name.as_str());
            let best = pick(&targets, "Class", "Struct");
            if let Some(t) = best {
                let rel = Relationship {
                    source_uid: source_uid.clone(),
                    target_uid: t,
                    kind: RelationKind::Extends,
                    confidence: Confidence::of(1, 1),
                    reason: owned("explicit-extends"),
                };
                let ghost relv = rel@;
                relationships.push(rel);
                proof {
                    assert(relationships.deep_view() =~= mid.push(relv));
                }
            }
        }
        proof {
            assert(relationships.deep_view() =~= mid + superclass_edges(sym@, symbol_index@));
        }
        let ghost mid2 = relationships.deep_view();
        let ghost iv = sym.interfaces.deep_view();
        let ghost f = interface_edge(sym@, symbol_index@);
        let is_iface = sym.kind == SymbolKind::Interface;
        let mut k: usize = 0;
        while k < sym.interfaces.len()
            invariant
                k <= iv.len(),
                iv == sym.interfaces.deep_view(),
                f == interface_edge(sym@, symbol_index@),
                source_uid@ == symbol_uid(sym@),
                is_iface == (sym@.kind == SymbolKind::Interface),
                relationships.deep_view() == mid2 + iv.take(k as int).filter_map(f),
            decreases iv.len() - k,
        {
            proof {
                iv.lemma_filter_map_take_succ(f, k as int);
                assert(iv[k as int] == sym.interfaces@[k as int]@);
            }
            let target = interface_target_uid(sym.interfaces[k].as_str(), symbol_index);
            if let Some(t) = target {
                let rel = if is_iface {
                    Relationship {
                        source_uid: source_uid.clone(),
                        target_uid: t,
                        kind: RelationKind::Extends,
                        confidence: Confidence::of(1, 1),
                        reason: owned("interface-extends"),
                    }
                } else {
                    Relationship {
                        source_uid: source_uid.clone(),
                        target_uid: t,
                        kind: RelationKind::Implements,
                        confidence: Confidence::of(1, 1),
                        reason: owned("explicit-implements"),
                    }
                };
                let ghost relv = rel@;
                let ghost before = relationships.deep_view();
                relationships.push(rel);
                proof {
                    assert(relationships.deep_view() =~= before.push(relv));
                }
            }
            k = k + 1;
        }
        proof {
            assert(iv.take(iv.len() as int) =~= iv);
            assert(relationships.deep_view() =~= start + inheritance_edges(sv.take(i + 1), symbol_index@));
        }
        i = i + 1;
    }
    proof {
        assert(sv.take(sv.len() as int) =~= sv);
    }
}

// ─── Go implicit interface implementation ──────────────────────────

/// Some interface named `name` occurs in `syms`.
pub open spec fn has_interface(syms: Seq<SymbolV>, name: Seq<char>) -> bool {
    exists|i: int| 0 <= i < syms.len() && syms[i].kind == SymbolKind::Interface && syms[i].name == name
}

/// Methods (name → parameter count, later ones overriding) of type `t`:
/// of an interface when `iface` holds — methods whose parent interface was
/// seen before them — and of a struct otherwise.
pub open spec fn method_table(syms: Seq<SymbolV>, t: Seq<char>, iface: bool) -> Map<Seq<char>, Option<usize>>
    decreases syms.len(),
{
    if syms.len() == 0 {
        Map::empty()
    } else {
        let m = method_table(syms.drop_last(), t, iface);
        let s = syms.last();
        if s.kind == SymbolKind::Method && s.parent_name == Some(t) && has_interface(syms.drop_last(), t) == iface {
            m.insert(s.name, s.param_count)
        } else {
            m
        }
    }
}

/// Parameter counts agree, or one of them is unknown.
pub open spec fn counts_compatible(a: Option<usize>, b: Option<usize>) -> bool {
    match (a, b) {
        (Some(x), Some(y)) => x == y,
        _ => true,
    }
}

/// Struct `s` has every method of interface `i` (by name and parameter count),
/// and the interface has at least one method.
pub open spec fn satisfies(syms: Seq<SymbolV>, s: Seq<char>, i: Seq<char>) -> bool {
    let im = method_table(syms, i, true);
    let sm = method_table(syms, s, false);
    im.dom().len() > 0 && covers(im, sm)
}

/// Every method of `im` is in `sm` with a compatible parameter count.
pub open spec fn covers(im: Map<Seq<char>, Option<usize>>, sm: Map<Seq<char>, Option<usize>>) -> bool {
    forall|n: Seq<char>| #[trigger] im.dom().contains(n) ==> sm.dom().contains(n) && counts_compatible(im[n], sm[n])
}

/// Distinct names of the symbols of a kind, in first-occurrence order.
pub open spec fn names_of_kind(syms: Seq<SymbolV>, k: SymbolKind) -> Seq<Seq<char>>
    decreases syms.len(),
{
    if syms.len() == 0 {
        Seq::empty()
    } else {
        let r = names_of_kind(syms.drop_last(), k);
        let s = syms.last();
        if s.kind == k && !r.contains(s.name) {
            r.push(s.name)
        } else {
            r
        }
    }
}

/// UID of the last symbol of a kind with that name.
pub open spec fn last_uid_of(syms: Seq<SymbolV>, k: SymbolKind, name: Seq<char>) -> Option<Seq<char>>
    decreases syms.len(),
{
    if syms.len() == 0 {
        None
    } else if syms.last().kind == k && syms.last().name == name {
        Some(symbol_uid(syms.last()))
    } else {
        last_uid_of(syms.drop_last(), k, name)
    }
}

/// Edges from struct `s` to every interface it satisfies, interfaces in first-occurrence order.
pub open spec fn struct_implements(syms: Seq<SymbolV>, s: Seq<char>, ifaces: Seq<Seq<char>>) -> Seq<RelationshipV>
    decreases ifaces.len(),
{
    if ifaces.len() == 0 {
        Seq::empty()
    } else {
        let i = ifaces.last();
        struct_implements(syms, s, ifaces.drop_last()) + if satisfies(syms, s, i) {
            seq![edge(
                last_uid_of(syms, SymbolKind::Struct, s)->0,
                last_uid_of(syms, SymbolKind::Interface, i)->0,
                RelationKind::Implements,
                conf(17, 20),
                "go-implicit-implements"@,
            )]
        } else {
            Seq::empty()
        }
    }
}

/// IMPLEMENTS edges for every (struct, interface) pair, structs in first-occurrence order.
pub open spec fn implicit_edges_for(syms: Seq<SymbolV>, structs: Seq<Seq<char>>) -> Seq<RelationshipV>
    decreases structs.len(),
{
    if structs.len() == 0 {
        Seq::empty()
    } else {
        implicit_edges_for(syms, structs.drop_last()) + struct_implements(
            syms,
            structs.last(),
            names_of_kind(syms, SymbolKind::Interface),
        )
    }
}

/// Go implicit IMPLEMENTS edges over all symbols.
pub open spec fn implicit_implements(syms: Seq<SymbolV>) -> Seq<RelationshipV> {
    implicit_edges_for(syms, names_of_kind(syms, SymbolKind::Struct))
}

/// One (method name, parameter count) pair of a method table.
#[derive(Debug)]
pub struct MethodEntry {
    pub name: String,
    pub count: Option<usize>,
}

/// The method table of a type, as a list with distinct names whose map is `m`.
pub open spec fn table_matches(entries: Seq<MethodEntry>, m: Map<Seq<char>, Option<usize>>) -> bool {
    &&& forall|a: int, b: int| 0 <= a < b < entries.len() ==> entries[a].name@ != entries[b].name@
    &&& forall|a: int| 0 <= a < entries.len() ==> #[trigger] m.dom().contains(entries[a].name@) && m[entries[a].name@] == entries[a].count
    &&& forall|n: Seq<char>| #[trigger] m.dom().contains(n) ==> exists|a: int| 0 <= a < entries.len() && entries[a].name@ == n
}

/// Appending an entry of a new name adds that name to the table.
proof fn lemma_table_push(old: Seq<MethodEntry>, m: Map<Seq<char>, Option<usize>>, e: MethodEntry)
    requires
        table_matches(old, m),
        forall|b: int| 0 <= b < old.len() ==> old[b].name@ != e.name@,
    ensures
        table_matches(old.push(e), m.insert(e.name@, e.count)),
{
    let r = old.push(e);
    let m2 = m.insert(e.name@, e.count);
    assert forall|x: int, y: int| 0 <= x < y < r.len() implies r[x].name@ != r[y].name@ by {
        assert(r[x] == old[x]);
        if y < old.len() {
            assert(r[y] == old[y]);
        }
    }
    assert forall|x: int| 0 <= x < r.len() implies #[trigger] m2.dom().contains(r[x].name@) && m2[r[x].name@] == r[x].count by {
        if x < old.len() {
            assert(r[x] == old[x]);
            assert(m.dom().contains(old[x].name@));
        }
    }
    assert forall|n: Seq<char>| #[trigger] m2.dom().contains(n) implies exists|x: int| 0 <= x < r.len() && r[x].name@ == n by {
        if n == e.name@ {
            assert(r[old.len() as int].name@ == n);
        } else {
            let x = choose|x: int| 0 <= x < old.len() && old[x].name@ == n;
            assert(r[x] == old[x]);
        }
    }
}

/// Replacing the entry at `a` by one of the same name updates that name's count.
proof fn lemma_table_set(old: Seq<MethodEntry>, m: Map<Seq<char>, Option<usize>>, a: int, e: MethodEntry)
    requires
        table_matches(old, m),
        0 <= a < old.len(),
        old[a].name@ == e.name@,
    ensures
        table_matches(old.update(a, e), m.insert(e.name@, e.count)),
{
    let r = old.update(a, e);
    let m2 = m.insert(e.name@, e.count);
    assert forall|x: int, y: int| 0 <= x < y < r.len() implies r[x].name@ != r[y].name@ by {
        assert(old[x].name@ != old[y].name@);
    }
    assert forall|x: int| 0 <= x < r.len() implies #[trigger] m2.dom().contains(r[x].name@) && m2[r[x].name@] == r[x].count by {
        if x != a {
            assert(r[x] == old[x]);
            assert(old[x].name@ != old[a].name@);
            assert(m.dom().contains(old[x].name@));
        }
    }
    assert forall|n: Seq<char>| #[trigger] m2.dom().contains(n) implies exists|x: int| 0 <= x < r.len() && r[x].name@ == n by {
        if n == e.name@ {
            assert(r[a].name@ == n);
        } else {
            assert(m.dom().contains(n));
            let x = choose|x: int| 0 <= x < old.len() && old[x].name@ == n;
            if x != a {
                assert(r[x] == old[x]);
            }
        }
    }
}

/// Whether `syms[..j]` holds an interface named like the parent of `syms[j]`.
fn interface_seen_flags(symbols: &[Symbol]) -> (r: Vec<bool>)
    ensures
        r@.len() == symbols@.len(),
        forall|j: int| 0 <= j < r@.len() ==> #[trigger] r@[j] == (symbols@[j].parent_name.is_some() && has_interface(symbols.deep_view().take(j), symbols@[j].parent_name->0@)),
{
    let ghost sv = symbols.deep_view();
    let mut r: Vec<bool> = Vec::new();
    let mut j: usize = 0;
    while j < symbols.len()
        invariant
            j <= sv.len(),
            sv == symbols.deep_view(),
            r@.len() == j,
            forall|q: int| 0 <= q < j ==> #[trigger] r@[q] == (symbols@[q].parent_name.is_some() && has_interface(sv.take(q), symbols@[q].parent_name->0@)),
        decreases sv.len() - j,
    {
        let mut flag = false;
        if let Some(p) = &symbols[j].parent_name {
            let mut i: usize = 0;
            while i < j
                invariant
                    i <= j < sv.len(),
                    sv == symbols.deep_view(),
                    flag == (exists|q: int| 0 <= q < i && sv[q].kind == SymbolKind::Interface && sv[q].name == p@),
                decreases j - i,
            {
                proof {
                    assert(sv[i as int] == symbols@[i as int]@);
                }
                if symbols[i].kind == SymbolKind::Interface && str_eq(symbols[i].name.as_str(), p.as_str()) {
                    flag = true;
                }
                i = i + 1;
            }
            proof {
                let t = sv.take(j as int);
                if flag {
                    let q = choose|q: int| 0 <= q < j && sv[q].kind == SymbolKind::Interface && sv[q].name == p@;
                    assert(t[q] == sv[q]);
                } else {
                    if has_interface(t, p@) {
                        let q = choose|q: int| 0 <= q < t.len() && t[q].kind == SymbolKind::Interface && t[q].name == p@;
                        assert(t[q] == sv[q]);
                    }
                }
            }
        }
        r.push(flag);
        j = j + 1;
    }
    r
}

/// The method table of type `t` (interface role when `iface`).
fn build_method_table(symbols: &[Symbol], seen: &Vec<bool>, t: &str, iface: bool) -> (r: Vec<MethodEntry>)
    requires
        seen@.len() == symbols@.len(),
        forall|j: int| 0 <= j < seen@.len() ==> #[trigger] seen@[j] == (symbols@[j].parent_name.is_some() && has_interface(symbols.deep_view().take(j), symbols@[j].parent_name->0@)),
    ensures
        table_matches(r@, method_table(symbols.deep_view(), t@, iface)),
{
    let ghost sv = symbols.deep_view();
    let mut r: Vec<MethodEntry> = Vec::new();
    let mut j: usize = 0;
    while j < symbols.len()
        invariant
            j <= sv.len(),
            sv == symbols.deep_view(),
            seen@.len() == symbols@.len(),
            forall|q: int| 0 <= q < seen@.len() ==> #[trigger] seen@[q] == (symbols@[q].parent_name.is_some() && has_interface(sv.take(q), symbols@[q].parent_name->0@)),
            table_matches(r@, method_table(sv.take(j as int), t@, iface)),
        decreases sv.len() - j,
    {
        let s = &symbols[j];
        let ghost m = method_table(sv.take(j as int), t@, iface);
        proof {
            assert(sv.take(j + 1).drop_last() =~= sv.take(j as int));
            assert(sv.take(j + 1).last() == s@);
            assert(sv[j as int] == s@);
        }
        let parent_is_t = match &s.parent_name {
            Some(p) => str_eq(p.as_str(), t),
            None => false,
        };
        if s.kind == SymbolKind::Method && parent_is_t && seen[j] == iface {
            proof {
                assert(s@.parent_name == Some(t@));
            }
            let ghost m2 = m.insert(s.name@, s.param_count);
            // Update in place or append.
            match entry_position(&r, s.name.as_str()) {
                Some(a) => {
                    let ghost old_r = r@;
                    let e = MethodEntry { name: r[a].name.clone(), count: s.param_count };
                    r.set(a, e);
                    proof {
                        lemma_table_set(old_r, m, a as int, r@[a as int]);
                    }
                },
                None => {
                    let ghost old_r = r@;
                    r.push(MethodEntry { name: s.name.clone(), count: s.param_count });
                    proof {
                        lemma_table_push(old_r, m, r@.last());
                    }
                },
            }
        } else {
            proof {
                if s@.kind == SymbolKind::Method && s@.parent_name == Some(t@) {
                    assert(seen@[j as int] == has_interface(sv.take(j as int), t@));
                }
            }
        }
        j = j + 1;
    }
    proof {
        assert(sv.take(sv.len() as int) =~= sv);
    }
    r
}

/// Looks `n` up in a method table.
fn table_get(table: &Vec<MethodEntry>, n: &str) -> (r: Option<Option<usize>>)
    requires
        forall|a: int, b: int| 0 <= a < b < table@.len() ==> table@[a].name@ != table@[b].name@,
    ensures
        match r {
            Some(c) => exists|a: int| 0 <= a < table@.len() && table@[a].name@ == n@ && table@[a].count == c,
            None => forall|a: int| 0 <= a < table@.len() ==> table@[a].name@ != n@,
        },
{
    match entry_position(table, n) {
        Some(a) => Some(table[a].count),
        None => None,
    }
}

/// Position of the entry named `n`.
fn entry_position(table: &Vec<MethodEntry>, n: &str) -> (r: Option<usize>)
    ensures
        match r {
            Some(i) => i < table@.len() && table@[i as int].name@ == n@,
            None => forall|b: int| 0 <= b < table@.len() ==> table@[b].name@ != n@,
        },
{
    let mut a: usize = 0;
    while a < table.len()
        invariant
            a <= table@.len(),
            forall|b: int| 0 <= b < a ==> table@[b].name@ != n@,
        decreases table@.len() - a,
    {
        if str_eq(table[a].name.as_str(), n) {
            return Some(a);
        }
        a = a + 1;
    }
    None
}

/// Whether struct table `st` covers interface table `it`.
fn table_satisfies(st: &Vec<MethodEntry>, it: &Vec<MethodEntry>, sm: Ghost<Map<Seq<char>, Option<usize>>>, im: Ghost<Map<Seq<char>, Option<usize>>>) -> (r: bool)
    requires
        table_matches(st@, sm@),
        table_matches(it@, im@),
    ensures
        r == (im@.dom().len() > 0 && covers(im@, sm@)),
{
    let ghost imv = im@;
    let ghost smv = sm@;
    proof {
        lemma_table_dom_len(it@, imv);
    }
    if it.len() == 0 {
        return false;
    }
    let mut a: usize = 0;
    while a < it.len()
        invariant
            a <= it@.len(),
            imv == im@,
            smv == sm@,
            table_matches(st@, smv),
            table_matches(it@, imv),
            forall|b: int| 0 <= b < a ==> smv.dom().contains(it@[b].name@) && counts_compatible(imv[it@[b].name@], smv[it@[b].name@]),
        decreases it@.len() - a,
    {
        let e = &it[a];
        proof {
            assert(imv.dom().contains(it@[a as int].name@));
            assert(imv[e.name@] == e.count);
        }
        let got = table_get(st, e.name.as_str());
        match got {
            None => {
                proof {
                    if smv.dom().contains(e.name@) {
                        let x = choose|x: int| 0 <= x < st@.len() && st@[x].name@ == e.name@;
                        assert(st@[x].name@ != e.name@);
                    }
                    assert(!covers(imv, smv)) by {
                        assert(imv.dom().contains(e.name@));
                    }
                }
                return false;
            },
            Some(c) => {
                proof {
                    let x = choose|x: int| 0 <= x < st@.len() && st@[x].name@ == e.name@ && st@[x].count == c;
                    assert(smv.dom().contains(st@[x].name@));
                    assert(smv[e.name@] == c);
                }
                let ok = match (e.count, c) {
                    (Some(x), Some(y)) => x == y,
                    _ => true,
                };
                if !ok {
                    proof {
                        assert(!covers(imv, smv)) by {
                            assert(imv.dom().contains(e.name@));
                        }
                    }
                    return false;
                }
            },
        }
        a = a + 1;
    }
    proof {
        assert forall|n: Seq<char>| #[trigger] imv.dom().contains(n) implies smv.dom().contains(n) && counts_compatible(imv[n], smv[n]) by {
            let x = choose|x: int| 0 <= x < it@.len() && it@[x].name@ == n;
            assert(smv.dom().contains(it@[x].name@));
        }
        assert(covers(imv, smv));
    }
    true
}

proof fn lemma_table_dom_len(entries: Seq<MethodEntry>, m: Map<Seq<char>, Option<usize>>)
    requires
        table_matches(entries, m),
    ensures
        (m.dom().len() > 0) == (entries.len() > 0),
        m.dom().finite(),
{
    let keys = entries.map_values(|e: MethodEntry| e.name@);
    assert(m.dom() =~= keys.to_set()) by {
        assert forall|n: Seq<char>| m.dom().contains(n) implies keys.to_set().contains(n) by {
            let x = choose|x: int| 0 <= x < entries.len() && entries[x].name@ == n;
            assert(keys[x] == n);
        }
        assert forall|n: Seq<char>| keys.to_set().contains(n) implies m.dom().contains(n) by {
            let x = choose|x: int| 0 <= x < keys.len() && keys[x] == n;
            assert(m.dom().contains(entries[x].name@));
        }
    }
    vstd::seq_lib::seq_to_set_is_finite(keys);
    keys.lemma_cardinality_of_set();
    if entries.len() > 0 {
        assert(keys.to_set().contains(keys[0]));
        vstd::set::axiom_set_contains_len(keys.to_set(), keys[0]);
    } else {
        assert(keys.to_set() =~= Set::<Seq<char>>::empty());
        broadcast use vstd::set::axiom_set_empty_len;
    }
}

/// Distinct names of the symbols of a kind, in first-occurrence order, with
/// the UID of the last symbol of each name.
fn names_and_uids(symbols: &[Symbol], k: SymbolKind) -> (r: (Vec<String>, Vec<String>))
    ensures
        r.0.deep_view() == names_of_kind(symbols.deep_view(), k),
        r.1@.len() == r.0@.len(),
        forall|a: int| 0 <= a < r.0@.len() ==> last_uid_of(symbols.deep_view(), k, r.0@[a]@) == Some(#[trigger] r.1@[a]@),
{
    let ghost sv = symbols.deep_view();
    let mut names: Vec<String> = Vec::new();
    let mut uids: Vec<String> = Vec::new();
    let mut j: usize = 0;
    while j < symbols.len()
        invariant
            j <= sv.len(),
            sv == symbols.deep_view(),
            names.deep_view() == names_of_kind(sv.take(j as int), k),
            uids@.len() == names@.len(),
            forall|x: int, y: int| 0 <= x < y < names@.len() ==> names@[x]@ != names@[y]@,
            forall|a: int| 0 <= a < names@.len() ==> last_uid_of(sv.take(j as int), k, names@[a]@) == Some(#[trigger] uids@[a]@),
        decreases sv.len() - j,
    {
        let s = &symbols[j];
        proof {
            assert(sv.take(j + 1).drop_last() =~= sv.take(j as int));
            assert(sv.take(j + 1).last() == s@);
            assert(sv[j as int] == s@);
        }
        if s.kind == k {
            let pos = position_in(&names, s.name.as_str());
            let u = s.uid();
            match pos {
                Some(a) => {
                    proof {
                        assert(names.deep_view().contains(s.name@)) by {
                            assert(names.deep_view()[a as int] == s.name@);
                        }
                    }
                    let ghost old_u = uids@;
                    uids.set(a, u);
                    proof {
                        assert forall|b: int| 0 <= b < names@.len() implies last_uid_of(sv.take(j + 1), k, names@[b]@) == Some(#[trigger] uids@[b]@) by {
                            if b != a {
                                assert(old_u[b] == uids@[b]);
                                assert(names@[b]@ != names@[a as int]@);
                            } else {
                                assert(names@[b]@ == s.name@);
                                assert(sv.take(j + 1).last().kind == k);
                            }
                        }
                    }
                },
                None => {
                    proof {
                        assert(!names.deep_view().contains(s.name@)) by {
                            if names.deep_view().contains(s.name@) {
                                let b = choose|b: int| 0 <= b < names.deep_view().len() && names.deep_view()[b] == s.name@;
                                assert(names@[b]@ == s.name@);
                            }
                        }
                    }
                    let ghost before = names.deep_view();
                    let ghost old_u = uids@;
                    let ghost old_n = names@;
                    names.push(s.name.clone());
                    uids.push(u);
                    proof {
                        assert(names.deep_view() =~= before.push(s.name@));
                        assert forall|b: int| 0 <= b < names@.len() implies last_uid_of(sv.take(j + 1), k, names@[b]@) == Some(#[trigger] uids@[b]@) by {
                            if b < old_n.len() {
                                assert(old_n[b] == names@[b]);
                                assert(old_u[b] == uids@[b]);
                                assert(old_n[b]@ != s.name@);
                            }
                        }
                        assert forall|x: int, y: int| 0 <= x < y < names@.len() implies names@[x]@ != names@[y]@ by {
                            if y < old_n.len() {
                                assert(old_n[x] == names@[x]);
                                assert(old_n[y] == names@[y]);
                            } else {
                                assert(old_n[x] == names@[x]);
                            }
                        }
                    }
                },
            }
        } else {
            proof {
                assert forall|b: int| 0 <= b < names@.len() implies last_uid_of(sv.take(j + 1), k, names@[b]@) == Some(#[trigger] uids@[b]@) by {}
            }
        }
        j = j + 1;
    }
    proof {
        assert(sv.take(sv.len() as int) =~= sv);
    }
    (names, uids)
}

/// Detect Go implicit interface implementation via structural type matching:
/// a struct that has every method of an interface (name + parameter count)
/// gets an IMPLEMENTS edge to it.
pub fn resolve_go_implicit_implements(all_symbols: &[Symbol], relationships: &mut Vec<Relationship>)
    ensures
        final(relationships).deep_view() == old(relationships).deep_view() + implicit_implements(all_symbols.deep_view()),
{
    let ghost sv = all_symbols.deep_view();
    let ghost start = old(relationships).deep_view();
    let seen = interface_seen_flags(all_symbols);
    let (snames, suids) = names_and_uids(all_symbols, SymbolKind::Struct);
    let (inames, iuids) = names_and_uids(all_symbols, SymbolKind::Interface);
    let ghost sn = snames.deep_view();
    let ghost inv = inames.deep_view();
    let mut a: usize = 0;
    while a < snames.len()
        invariant
            a <= sn.len(),
            sn == snames.deep_view(),
            inv == inames.deep_view(),
            sv == all_symbols.deep_view(),
            sn == names_of_kind(sv, SymbolKind::Struct),
            inv == names_of_kind(sv, SymbolKind::Interface),
            suids@.len() == snames@.len(),
            iuids@.len() == inames@.len(),
            forall|x: int| 0 <= x < snames@.len() ==> last_uid_of(sv, SymbolKind::Struct, snames@[x]@) == Some(#[trigger] suids@[x]@),
            forall|x: int| 0 <= x < inames@.len() ==> last_uid_of(sv, SymbolKind::Interface, inames@[x]@) == Some(#[trigger] iuids@[x]@),
            seen@.len() == all_symbols@.len(),
            forall|j: int| 0 <= j < seen@.len() ==> #[trigger] seen@[j] == (all_symbols@[j].parent_name.is_some() && has_interface(sv.take(j), all_symbols@[j].parent_name->0@)),
            relationships.deep_view() == start + implicit_edges_for(sv, sn.take(a as int)),
        decreases sn.len() - a,
    {
        proof {
            assert(sn.take(a + 1).drop_last() =~= sn.take(a as int));
            assert(sn[a as int] == snames@[a as int]@);
        }
        let st = build_method_table(all_symbols, &seen, snames[a].as_str(), false);
        let ghost mid = relationships.deep_view();
        let mut b: usize = 0;
        while b < inames.len()
            invariant
                a < sn.len(),
                b <= inv.len(),
                sn == snames.deep_view(),
                inv == inames.deep_view(),
                sv == all_symbols.deep_view(),
                inv == names_of_kind(sv, SymbolKind::Interface),
                suids@.len() == snames@.len(),
                iuids@.len() == inames@.len(),
                forall|x: int| 0 <= x < snames@.len() ==> last_uid_of(sv, SymbolKind::Struct, snames@[x]@) == Some(#[trigger] suids@[x]@),
                forall|x: int| 0 <= x < inames@.len() ==> last_uid_of(sv, SymbolKind::Interface, inames@[x]@) == Some(#[trigger] iuids@[x]@),
                seen@.len() == all_symbols@.len(),
                forall|j: int| 0 <= j < seen@.len() ==> #[trigger] seen@[j] == (all_symbols@[j].parent_name.is_some() && has_interface(sv.take(j), all_symbols@[j].parent_name->0@)),
                table_matches(st@, method_table(sv, snames@[a as int]@, false)),
                relationships.deep_view() == mid + struct_implements(sv, snames@[a as int]@, inv.take(b as int)),
            decreases inv.len() - b,
        {
            proof {
                assert(inv.take(b + 1).drop_last() =~= inv.take(b as int));
                assert(inv[b as int] == inames@[b as int]@);
            }
            let it = build_method_table(all_symbols, &seen, inames[b].as_str(), true);
            let ok = table_satisfies(
                &st,
                &it,
                Ghost(method_table(sv, snames@[a as int]@, false)),
                Ghost(method_table(sv, inames@[b as int]@, true)),
            );
            if ok {
                let rel = Relationship {
                    source_uid: suids[a].clone(),
                    target_uid: iuids[b].clone(),
                    kind: RelationKind::Implements,
                    confidence: Confidence::of(17, 20),
                    reason: owned("go-implicit-implements"),
                };
                let ghost relv = rel@;
                let ghost before = relationships.deep_view();
                relationships.push(rel);
                proof {
                    assert(relationships.deep_view() =~= before.push(relv));
                    assert(relationships.deep_view() =~= mid + struct_implements(sv, snames@[a as int]@, inv.take(b + 1)));
                }
            } else {
                proof {
                    assert(relationships.deep_view() =~= mid + struct_implements(sv, snames@[a as int]@, inv.take(b + 1)));
                }
            }
            b = b + 1;
        }
        proof {
            assert(inv.take(inv.len() as int) =~= inv);
            assert(relationships.deep_view() =~= start + implicit_edges_for(sv, sn.take(a + 1)));
        }
        a = a + 1;
    }
    proof {
        assert(sn.take(sn.len() as int) =~= sn);
    }
}

} // verus!
