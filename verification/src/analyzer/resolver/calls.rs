//! Call resolution: raw call sites → CALLS / CALLS_UNRESOLVED / CALLS_EXTERNAL edges.

use vstd::prelude::*;
use crate::analyzer::{index_lookup, qualified_key, IndexEntryV, SymbolIndex, SymbolRef, SymbolRefV};
use crate::analyzer::resolver::imports::{exported_ref, exported_under, parent_components};
use crate::parser::calls::{RawCall, RawCallV};
use crate::parser::extract::{symbol_uid, Symbol, SymbolKind, SymbolV};
use crate::text::{
    char_is_lowercase, char_to_uppercase, char_uppercase, chars_of, concat, contains,
    ends_with, is_infix_of, is_suffix_of, is_lowercase, occurs_at, owned, push_char, str_eq, string_of,
};
use super::{conf, edge, Confidence, RelationKind, Relationship, RelationshipV};

verus! {

/// A resolved callee target with its relationship kind.
#[derive(Debug)]
pub struct ResolvedTarget {
    pub target_uid: String,
    pub confidence: Confidence,
    pub reason: String,
    pub kind: RelationKind,
}

/// Mathematical view of a [`ResolvedTarget`].
pub struct ResolvedTargetV {
    pub target_uid: Seq<char>,
    pub confidence: Confidence,
    pub reason: Seq<char>,
    pub kind: RelationKind,
}

impl View for ResolvedTarget {
    type V = ResolvedTargetV;

    open spec fn view(&self) -> ResolvedTargetV {
        ResolvedTargetV {
            target_uid: self.target_uid@,
            confidence: self.confidence,
            reason: self.reason@,
            kind: self.kind,
        }
    }
}

impl DeepView for ResolvedTarget {
    type V = ResolvedTargetV;

    open spec fn deep_view(&self) -> ResolvedTargetV {
        self@
    }
}

/// A CALLS target.
pub open spec fn calls_target(uid: Seq<char>, c: Confidence, reason: Seq<char>) -> ResolvedTargetV {
    ResolvedTargetV { target_uid: uid, confidence: c, reason, kind: RelationKind::Calls }
}

// ─── Caller ─────────────────────────────────────────────────────────

/// The first symbol satisfying `pred`.
pub open spec fn first_sym(syms: Seq<SymbolV>, pred: spec_fn(SymbolV) -> bool) -> Option<SymbolV>
    decreases syms.len(),
{
    if syms.len() == 0 {
        None
    } else if pred(syms[0]) {
        Some(syms[0])
    } else {
        first_sym(syms.drop_first(), pred)
    }
}

/// Same name, and same parent when the call names one.
pub open spec fn caller_by_name(name: Seq<char>, parent: Option<Seq<char>>) -> spec_fn(SymbolV) -> bool {
    |s: SymbolV| s.name == name && (parent.is_none() || s.parent_name == parent)
}

/// Same name, in the given file.
pub open spec fn caller_in_file(name: Seq<char>, fp: Seq<char>) -> spec_fn(SymbolV) -> bool {
    |s: SymbolV| s.name == name && s.file_path == fp
}

/// The class, module or struct of that name in the given file.
pub open spec fn enclosing_type(name: Seq<char>, fp: Seq<char>) -> spec_fn(SymbolV) -> bool {
    |s: SymbolV|
        s.name == name && s.file_path == fp && (s.kind == SymbolKind::Class || s.kind
            == SymbolKind::Module || s.kind == SymbolKind::Struct)
}

/// UID of the symbol that makes a call: the enclosing function (matched by
/// name and parent, then by name in this file), or else the enclosing
/// class/module/struct for class-level calls.
pub open spec fn caller_uid(fp: Seq<char>, call: RawCallV, syms: Seq<SymbolV>) -> Option<Seq<char>> {
    let by_name = match call.caller_name {
        Some(name) => match first_sym(syms, caller_by_name(name, call.caller_parent)) {
            Some(s) => Some(s),
            None => first_sym(syms, caller_in_file(name, fp)),
        },
        None => None,
    };
    match by_name {
        Some(s) => Some(symbol_uid(s)),
        None => match call.caller_parent {
            Some(p) => match first_sym(syms, enclosing_type(p, fp)) {
                Some(s) => Some(symbol_uid(s)),
                None => None,
            },
            None => None,
        },
    }
}

proof fn lemma_first_sym_found(syms: Seq<SymbolV>, pred: spec_fn(SymbolV) -> bool, i: int)
    requires
        0 <= i < syms.len(),
        pred(syms[i]),
        forall|j: int| 0 <= j < i ==> !pred(syms[j]),
    ensures
        first_sym(syms, pred) == Some(syms[i]),
    decreases i,
{
    if i > 0 {
        let t = syms.drop_first();
        assert forall|j: int| 0 <= j < i - 1 implies !pred(t[j]) by {
            assert(t[j] == syms[j + 1]);
        }
        lemma_first_sym_found(t, pred, i - 1);
    }
}

proof fn lemma_first_sym_none(syms: Seq<SymbolV>, pred: spec_fn(SymbolV) -> bool)
    requires
        forall|j: int| 0 <= j < syms.len() ==> !pred(syms[j]),
    ensures
        first_sym(syms, pred) == None::<SymbolV>,
    decreases syms.len(),
{
    if syms.len() > 0 {
        let t = syms.drop_first();
        assert forall|j: int| 0 <= j < t.len() implies !pred(t[j]) by {
            assert(t[j] == syms[j + 1]);
        }
        lemma_first_sym_none(t, pred);
    }
}

/// Equality of optional strings.
pub fn opt_str_eq(a: &Option<String>, b: &Option<String>) -> (r: bool)
    ensures
        r == (a.deep_view() == b.deep_view()),
{
    match (a, b) {
        (Some(x), Some(y)) => str_eq(x.as_str(), y.as_str()),
        (None, None) => true,
        _ => false,
    }
}

/// Index of the first symbol with the given name whose parent matches the call.
fn find_caller_by_name(syms: &[Symbol], name: &String, parent: &Option<String>) -> (r: Option<usize>)
    ensures
        match r {
            Some(i) => i < syms@.len() && first_sym(syms.deep_view(), caller_by_name(name@, parent.deep_view())) == Some(syms.deep_view()[i as int]),
            None => first_sym(syms.deep_view(), caller_by_name(name@, parent.deep_view())) == None::<SymbolV>,
        },
{
    let ghost sv = syms.deep_view();
    let ghost pred = caller_by_name(name@, parent.deep_view());
    let mut i: usize = 0;
    while i < syms.len()
        invariant
            i <= sv.len(),
            sv == syms.deep_view(),
            pred == caller_by_name(name@, parent.deep_view()),
            forall|j: int| 0 <= j < i ==> !pred(sv[j]),
        decreases sv.len() - i,
    {
        proof {
            assert(sv[i as int] == syms@[i as int]@);
        }
        if str_eq(syms[i].name.as_str(), name.as_str()) && (parent.is_none() || opt_str_eq(&syms[i].parent_name, parent)) {
            proof {
                lemma_first_sym_found(sv, pred, i as int);
            }
            return Some(i);
        }
        i = i + 1;
    }
    proof {
        lemma_first_sym_none(sv, pred);
    }
    None
}

/// Index of the first symbol with the given name in the given file.
fn find_caller_in_file(syms: &[Symbol], name: &String, fp: &str) -> (r: Option<usize>)
    ensures
        match r {
            Some(i) => i < syms@.len() && first_sym(syms.deep_view(), caller_in_file(name@, fp@)) == Some(syms.deep_view()[i as int]),
            None => first_sym(syms.deep_view(), caller_in_file(name@, fp@)) == None::<SymbolV>,
        },
{
    let ghost sv = syms.deep_view();
    let ghost pred = caller_in_file(name@, fp@);
    let mut i: usize = 0;
    while i < syms.len()
        invariant
            i <= sv.len(),
            sv == syms.deep_view(),
            pred == caller_in_file(name@, fp@),
            forall|j: int| 0 <= j < i ==> !pred(sv[j]),
        decreases sv.len() - i,
    {
        proof {
            assert(sv[i as int] == syms@[i as int]@);
        }
        if str_eq(syms[i].name.as_str(), name.as_str()) && str_eq(syms[i].file_path.as_str(), fp) {
            proof {
                lemma_first_sym_found(sv, pred, i as int);
            }
            return Some(i);
        }
        i = i + 1;
    }
    proof {
        lemma_first_sym_none(sv, pred);
    }
    None
}

/// Index of the class/module/struct of the given name in the given file.
fn find_enclosing_type(syms: &[Symbol], name: &String, fp: &str) -> (r: Option<usize>)
    ensures
        match r {
            Some(i) => i < syms@.len() && first_sym(syms.deep_view(), enclosing_type(name@, fp@)) == Some(syms.deep_view()[i as int]),
            None => first_sym(syms.deep_view(), enclosing_type(name@, fp@)) == None::<SymbolV>,
        },
{
    let ghost sv = syms.deep_view();
    let ghost pred = enclosing_type(name@, fp@);
    let mut i: usize = 0;
    while i < syms.len()
        invariant
            i <= sv.len(),
            sv == syms.deep_view(),
            pred == enclosing_type(name@, fp@),
            forall|j: int| 0 <= j < i ==> !pred(sv[j]),
        decreases sv.len() - i,
    {
        proof {
            assert(sv[i as int] == syms@[i as int]@);
        }
        let k = syms[i].kind;
        let is_type = k == SymbolKind::Class || k == SymbolKind::Module || k == SymbolKind::Struct;
        if str_eq(syms[i].name.as_str(), name.as_str()) && str_eq(syms[i].file_path.as_str(), fp) && is_type {
            proof {
                lemma_first_sym_found(sv, pred, i as int);
            }
            return Some(i);
        }
        i = i + 1;
    }
    proof {
        lemma_first_sym_none(sv, pred);
    }
    None
}

/// Find the UID of the calling function.
pub fn resolve_caller(file_path: &str, call: &RawCall, file_symbols: &[Symbol]) -> (r: Option<String>)
    ensures
        r.deep_view() == caller_uid(file_path@, call@, file_symbols.deep_view()),
{
    if let Some(name) = &call.caller_name {
        if let Some(i) = find_caller_by_name(file_symbols, name, &call.caller_parent) {
            return Some(file_symbols[i].uid());
        }
        if let Some(i) = find_caller_in_file(file_symbols, name, file_path) {
            return Some(file_symbols[i].uid());
        }
    }
    if let Some(parent) = &call.caller_parent {
        if let Some(i) = find_enclosing_type(file_symbols, parent, file_path) {
            return Some(file_symbols[i].uid());
        }
    }
    None
}

// ─── Callee ─────────────────────────────────────────────────────────

/// `s` with its first character upper-cased (`char::to_uppercase`).
pub open spec fn capitalized(s: Seq<char>) -> Seq<char> {
    if s.len() == 0 {
        s
    } else {
        char_uppercase(s[0]) + s.drop_first()
    }
}

/// Upper-case the first character of `s`.
pub fn capitalize_first(s: &str) -> (r: String)
    ensures
        r@ == capitalized(s@),
{
    let v = chars_of(s);
    if v.len() == 0 {
        return String::new();
    }
    let mut r = char_to_uppercase(v[0]);
    let mut i: usize = 1;
    while i < v.len()
        invariant
            1 <= i <= v@.len(),
            v@ == s@,
            r@ == char_uppercase(v@[0]) + v@.subrange(1, i as int),
        decreases v@.len() - i,
    {
        push_char(&mut r, v[i]);
        i = i + 1;
        proof {
            assert(r@ =~= char_uppercase(v@[0]) + v@.subrange(1, i as int));
        }
    }
    proof {
        assert(v@.subrange(1, v@.len() as int) =~= s@.drop_first());
    }
    r
}

/// Target in the caller's file is more likely: 0.95 there, 0.90 elsewhere.
pub open spec fn near_target(fp: Seq<char>, reason: Seq<char>) -> spec_fn(SymbolRefV) -> Option<ResolvedTargetV> {
    |r: SymbolRefV|
        Some(calls_target(r.uid, if r.file_path == fp { conf(19, 20) } else { conf(9, 10) }, reason))
}

/// Every target with the same confidence.
pub open spec fn flat_target(c: Confidence, reason: Seq<char>) -> spec_fn(SymbolRefV) -> Option<ResolvedTargetV> {
    |r: SymbolRefV| Some(calls_target(r.uid, c, reason))
}

/// Lower-case first character, and not `this`/`self`: a field receiver.
pub open spec fn is_field_receiver(recv: Seq<char>) -> bool {
    recv.len() > 0 && char_is_lowercase(recv[0]) && recv != "this"@ && recv != "self"@
}

/// Same-file property records.
pub open spec fn same_file_property(fp: Seq<char>) -> spec_fn(SymbolRefV) -> Option<SymbolRefV> {
    |r: SymbolRefV|
        if r.file_path == fp && r.kind == "Property"@ {
            Some(r)
        } else {
            None
        }
}

/// The methods of the first typed property among `cands` whose type has a
/// method of that name.
pub open spec fn field_candidates(cands: Seq<SymbolRefV>, callee: Seq<char>, fp: Seq<char>, idx: Seq<IndexEntryV>) -> Seq<ResolvedTargetV>
    decreases cands.len(),
{
    if cands.len() == 0 {
        Seq::empty()
    } else {
        let c = cands[0];
        if c.kind == "Property"@ && c.type_annotation.is_some() && index_lookup(
            idx,
            qualified_key(c.type_annotation->0, callee),
        ).len() > 0 {
            index_lookup(idx, qualified_key(c.type_annotation->0, callee)).filter_map(
                near_target(fp, "field-type-annotation"@),
            )
        } else {
            field_candidates(cands.drop_first(), callee, fp, idx)
        }
    }
}

/// Strategy 1.0: `this.field.method()` through the declared type of the field.
pub open spec fn field_strategy(fp: Seq<char>, call: RawCallV, idx: Seq<IndexEntryV>) -> Seq<ResolvedTargetV> {
    match (call.receiver, call.caller_parent) {
        (Some(recv), Some(cc)) => if is_field_receiver(recv) {
            let props = index_lookup(idx, qualified_key(cc, recv));
            let same = props.filter_map(same_file_property(fp));
            let cands = if same.len() == 0 {
                props
            } else {
                same
            };
            field_candidates(cands, call.callee_name, fp, idx)
        } else {
            Seq::empty()
        },
        _ => Seq::empty(),
    }
}

/// Last component of the directory of a path (`parent().file_name()`).
pub open spec fn dir_name(f: Seq<char>) -> Option<Seq<char>> {
    let pc = parent_components(f);
    if pc.len() > 0 && pc.last() != seq!['.', '.'] {
        Some(pc.last())
    } else {
        None
    }
}

/// Exported symbols of an imported file whose directory is named like the receiver.
pub open spec fn go_pkg_target(recv: Seq<char>, imported: Seq<Seq<char>>) -> spec_fn(SymbolRefV) -> Option<ResolvedTargetV> {
    |r: SymbolRefV|
        if r.is_exported && exists|i: int|
            0 <= i < imported.len() && dir_name(#[trigger] imported[i]) == Some(recv) && r.file_path
                == imported[i] {
            Some(calls_target(r.uid, conf(9, 10), "go-package-match"@))
        } else {
            None
        }
}

/// Strategy 1: qualified receiver match (direct, capitalised, Go package).
pub open spec fn receiver_strategy(fp: Seq<char>, call: RawCallV, idx: Seq<IndexEntryV>, imported: Seq<Seq<char>>) -> Seq<ResolvedTargetV> {
    match call.receiver {
        None => Seq::empty(),
        Some(receiver) => {
            let eff = if receiver == "this"@ || receiver == "self"@ || receiver == "@"@ {
                call.caller_parent
            } else {
                Some(receiver)
            };
            match eff {
                None => Seq::empty(),
                Some(recv) => {
                    let q = qualified_key(recv, call.callee_name);
                    let a = index_lookup(idx, q);
                    if a.len() > 0 {
                        a.filter_map(near_target(fp, "type-qualified-match"@))
                    } else {
                        let tq = qualified_key(capitalized(recv), call.callee_name);
                        let b = if tq != q {
                            index_lookup(idx, tq)
                        } else {
                            Seq::empty()
                        };
                        if b.len() > 0 {
                            b.filter_map(flat_target(conf(4, 5), "receiver-type-inference"@))
                        } else if imported.len() > 0 {
                            index_lookup(idx, call.callee_name).filter_map(go_pkg_target(recv, imported))
                        } else {
                            Seq::empty()
                        }
                    }
                },
            }
        },
    }
}

/// Symbols of this file named like the callee.
pub open spec fn same_file_target(callee: Seq<char>) -> spec_fn(SymbolV) -> Option<ResolvedTargetV> {
    |s: SymbolV|
        if s.name == callee {
            Some(calls_target(symbol_uid(s), conf(9, 10), "same-file-match"@))
        } else {
            None
        }
}

/// Exported symbols of imported files.
pub open spec fn imported_target(imported: Seq<Seq<char>>) -> spec_fn(SymbolRefV) -> Option<ResolvedTargetV> {
    |r: SymbolRefV|
        if imported.contains(r.file_path) && r.is_exported {
            Some(calls_target(r.uid, conf(9, 10), "imported-file-match"@))
        } else {
            None
        }
}

/// Strategy 4: global match on exported symbols — one match at 0.80,
/// two to five matches at 0.50 shared equally.
pub open spec fn global_strategy(idx: Seq<IndexEntryV>, callee: Seq<char>) -> Seq<ResolvedTargetV> {
    let ex = exported_under(idx, callee);
    if ex.len() == 1 {
        seq![calls_target(ex[0].uid, conf(4, 5), "unique-global-match"@)]
    } else if 2 <= ex.len() <= 5 {
        ex.filter_map(flat_target(conf(1, (2 * ex.len()) as u32), "ambiguous-global-match"@))
    } else {
        Seq::empty()
    }
}

/// Strategy 5: Ruby implicit-self calls fall back to the class's `method_missing`.
pub open spec fn method_missing_strategy(fp: Seq<char>, call: RawCallV, idx: Seq<IndexEntryV>) -> Seq<ResolvedTargetV> {
    if is_suffix_of(".rb"@, fp) && (call.receiver.is_none() || call.receiver == Some("self"@)) && call.caller_parent.is_some() {
        index_lookup(idx, qualified_key(call.caller_parent->0, "method_missing"@)).filter_map(
            flat_target(conf(3, 10), "method-missing-fallback"@),
        )
    } else {
        Seq::empty()
    }
}

/// Display name of an unresolved callee.
pub open spec fn unresolved_name(call: RawCallV) -> Seq<char> {
    match call.receiver {
        Some(r) => qualified_key(r, call.callee_name),
        None => call.callee_name,
    }
}

/// Strategy 6: the External pseudo-target; a receiver with `::` marks an external call.
pub open spec fn unresolved_target(call: RawCallV) -> ResolvedTargetV {
    ResolvedTargetV {
        target_uid: "External:<external>:"@ + unresolved_name(call) + ":0"@,
        confidence: conf(0, 1),
        reason: "unresolved"@,
        kind: if call.receiver.is_some() && is_infix_of("::"@, call.receiver->0) {
            RelationKind::CallsExternal
        } else {
            RelationKind::CallsUnresolved
        },
    }
}

/// The targets of a call: the first strategy that finds any, in priority order.
pub open spec fn callee_targets(fp: Seq<char>, call: RawCallV, syms: Seq<SymbolV>, idx: Seq<IndexEntryV>, imported: Seq<Seq<char>>) -> Seq<ResolvedTargetV> {
    let s10 = field_strategy(fp, call, idx);
    if s10.len() > 0 {
        s10
    } else {
        let s1 = receiver_strategy(fp, call, idx, imported);
        if s1.len() > 0 {
            s1
        } else {
            let s2 = syms.filter_map(same_file_target(call.callee_name));
            if s2.len() > 0 {
                s2
            } else {
                let s3 = if imported.len() > 0 {
                    index_lookup(idx, call.callee_name).filter_map(imported_target(imported))
                } else {
                    Seq::empty()
                };
                if s3.len() > 0 {
                    s3
                } else {
                    let s4 = global_strategy(idx, call.callee_name);
                    let s5 = if s4.len() == 0 {
                        method_missing_strategy(fp, call, idx)
                    } else {
                        s4
                    };
                    if s5.len() > 0 {
                        s5
                    } else {
                        seq![unresolved_target(call)]
                    }
                }
            }
        }
    }
}

// ─── Executable strategies ──────────────────────────────────────────

/// Targets for `refs`, 0.95 in the caller's file and 0.90 elsewhere.
fn near_targets(refs: &Vec<SymbolRef>, fp: &str, reason: &str) -> (r: Vec<ResolvedTarget>)
    ensures
        r.deep_view() == refs.deep_view().filter_map(near_target(fp@, reason@)),
{
    let ghost rv = refs.deep_view();
    let ghost f = near_target(fp@, reason@);
    let mut r: Vec<ResolvedTarget> = Vec::new();
    let mut k: usize = 0;
    while k < refs.len()
        invariant
            k <= rv.len(),
            rv == refs.deep_view(),
            f == near_target(fp@, reason@),
            r.deep_view() == rv.take(k as int).filter_map(f),
        decreases rv.len() - k,
    {
        proof {
            rv.lemma_filter_map_take_succ(f, k as int);
            assert(rv[k as int] == refs@[k as int]@);
        }
        let c = if str_eq(refs[k].file_path.as_str(), fp) {
            Confidence::of(19, 20)
        } else {
            Confidence::of(9, 10)
        };
        let t = ResolvedTarget { target_uid: refs[k].uid.clone(), confidence: c, reason: owned(reason), kind: RelationKind::Calls };
        let ghost tv = t@;
        let ghost before = r.deep_view();
        r.push(t);
        proof {
            assert(r.deep_view() =~= before.push(tv));
        }
        k = k + 1;
    }
    proof {
        assert(rv.take(rv.len() as int) =~= rv);
    }
    r
}

/// Targets for `refs`, all with the same confidence.
fn flat_targets(refs: &Vec<SymbolRef>, c: Confidence, reason: &str) -> (r: Vec<ResolvedTarget>)
    ensures
        r.deep_view() == refs.deep_view().filter_map(flat_target(c, reason@)),
{
    let ghost rv = refs.deep_view();
    let ghost f = flat_target(c, reason@);
    let mut r: Vec<ResolvedTarget> = Vec::new();
    let mut k: usize = 0;
    while k < refs.len()
        invariant
            k <= rv.len(),
            rv == refs.deep_view(),
            f == flat_target(c, reason@),
            r.deep_view() == rv.take(k as int).filter_map(f),
        decreases rv.len() - k,
    {
        proof {
            rv.lemma_filter_map_take_succ(f, k as int);
            assert(rv[k as int] == refs@[k as int]@);
        }
        let t = ResolvedTarget { target_uid: refs[k].uid.clone(), confidence: c, reason: owned(reason), kind: RelationKind::Calls };
        let ghost tv = t@;
        let ghost before = r.deep_view();
        r.push(t);
        proof {
            assert(r.deep_view() =~= before.push(tv));
        }
        k = k + 1;
    }
    proof {
        assert(rv.take(rv.len() as int) =~= rv);
    }
    r
}

/// `parent + "." + name`.
fn qualified(parent: &str, name: &str) -> (r: String)
    ensures
        r@ == qualified_key(parent@, name@),
{
    let mut q = owned(parent);
    push_char(&mut q, '.');
    q.append(name);
    proof {
        assert(q@ =~= qualified_key(parent@, name@));
    }
    q
}

/// Same-file property records among `props`.
fn same_file_properties(props: &Vec<SymbolRef>, fp: &str) -> (r: Vec<SymbolRef>)
    ensures
        r.deep_view() == props.deep_view().filter_map(same_file_property(fp@)),
{
    let ghost rv = props.deep_view();
    let ghost f = same_file_property(fp@);
    let mut r: Vec<SymbolRef> = Vec::new();
    let mut k: usize = 0;
    while k < props.len()
        invariant
            k <= rv.len(),
            rv == props.deep_view(),
            f == same_file_property(fp@),
            r.deep_view() == rv.take(k as int).filter_map(f),
        decreases rv.len() - k,
    {
        proof {
            rv.lemma_filter_map_take_succ(f, k as int);
            assert(rv[k as int] == props@[k as int]@);
        }
        if str_eq(props[k].file_path.as_str(), fp) && str_eq(props[k].kind.as_str(), "Property") {
            let d = props[k].duplicate();
            let ghost dv = d@;
            let ghost before = r.deep_view();
            r.push(d);
            proof {
                assert(r.deep_view() =~= before.push(dv));
            }
        }
        k = k + 1;
    }
    proof {
        assert(rv.take(rv.len() as int) =~= rv);
    }
    r
}

/// Strategy 1.0.
fn field_type_targets(file_path: &str, call: &RawCall, idx: &SymbolIndex) -> (r: Vec<ResolvedTarget>)
    ensures
        r.deep_view() == field_strategy(file_path@, call@, idx@),
{
    let (receiver, cc) = match (&call.receiver, &call.caller_parent) {
        (Some(recv), Some(cc)) => (recv, cc),
        _ => {
            return Vec::new();
        },
    };
    let rv = chars_of(receiver.as_str());
    let is_field = rv.len() > 0 && is_lowercase(rv[0]) && !str_eq(receiver.as_str(), "this") && !str_eq(receiver.as_str(), "self");
    if !is_field {
        return Vec::new();
    }
    let props = idx.get(qualified(cc.as_str(), receiver.as_str()).as_str());
    let same = same_file_properties(&props, file_path);
    let cands = if same.len() == 0 { props } else { same };
    let ghost cv = cands.deep_view();
    let mut i: usize = 0;
    proof {
        assert(cv.subrange(0, cv.len() as int) =~= cv);
    }
    while i < cands.len()
        invariant
            i <= cv.len(),
            cv == cands.deep_view(),
            field_strategy(file_path@, call@, idx@) == field_candidates(cv, call@.callee_name, file_path@, idx@),
            field_candidates(cv, call@.callee_name, file_path@, idx@) == field_candidates(cv.subrange(i as int, cv.len() as int), call@.callee_name, file_path@, idx@),
        decreases cv.len() - i,
    {
        let ghost rest = cv.subrange(i as int, cv.len() as int);
        proof {
            assert(rest[0] == cands@[i as int]@);
            assert(rest.drop_first() =~= cv.subrange(i + 1, cv.len() as int));
        }
        let c = &cands[i];
        if str_eq(c.kind.as_str(), "Property") {
            if let Some(tn) = &c.type_annotation {
                let methods = idx.get(qualified(tn.as_str(), call.callee_name.as_str()).as_str());
                if methods.len() > 0 {
                    return near_targets(&methods, file_path, "field-type-annotation");
                }
            }
        }
        i = i + 1;
    }
    Vec::new()
}

/// Whether some imported file sits in a directory named `recv` and is `fp`.
fn imported_dir_match(imported: &[String], recv: &str, fp: &str) -> (r: bool)
    ensures
        r == exists|i: int| 0 <= i < imported.deep_view().len() && dir_name(#[trigger] imported.deep_view()[i]) == Some(recv@) && fp@ == imported.deep_view()[i],
{
    let ghost iv = imported.deep_view();
    let mut i: usize = 0;
    while i < imported.len()
        invariant
            i <= iv.len(),
            iv == imported.deep_view(),
            forall|j: int| 0 <= j < i ==> !(dir_name(#[trigger] iv[j]) == Some(recv@) && fp@ == iv[j]),
        decreases iv.len() - i,
    {
        let f = &imported[i];
        let dn = dir_name_of(f.as_str());
        let hit = match &dn {
            Some(d) => str_eq(d.as_str(), recv) && str_eq(fp, f.as_str()),
            None => false,
        };
        if hit {
            proof {
                assert(iv[i as int] == f@);
                assert(dir_name(iv[i as int]) == Some(recv@));
            }
            return true;
        }
        i = i + 1;
    }
    false
}

/// `Path::new(f).parent().and_then(|p| p.file_name())`.
fn dir_name_of(f: &str) -> (r: Option<String>)
    ensures
        r.deep_view() == dir_name(f@),
{
    let pc = crate::analyzer::resolver::imports::parent_components_of(f);
    let n = pc.len();
    if n > 0 {
        let last = &pc[n - 1];
        proof {
            crate::text::lemma_chars_deep(*last);
        }
        let is_up = last.len() == 2 && last[0] == '.' && last[1] == '.';
        proof {
            if last@ == seq!['.', '.'] {
                assert(last@[0] == '.' && last@[1] == '.');
            }
            if is_up {
                assert(last@ =~= seq!['.', '.']);
            }
        }
        if !is_up {
            return Some(string_of(last.as_slice()));
        }
    }
    None
}

/// Strategy 1c helper: exported symbols of imported files under a directory named `recv`.
fn go_package_targets(refs: &Vec<SymbolRef>, recv: &str, imported: &[String]) -> (r: Vec<ResolvedTarget>)
    ensures
        r.deep_view() == refs.deep_view().filter_map(go_pkg_target(recv@, imported.deep_view())),
{
    let ghost rv = refs.deep_view();
    let ghost f = go_pkg_target(recv@, imported.deep_view());
    let mut r: Vec<ResolvedTarget> = Vec::new();
    let mut k: usize = 0;
    while k < refs.len()
        invariant
            k <= rv.len(),
            rv == refs.deep_view(),
            f == go_pkg_target(recv@, imported.deep_view()),
            r.deep_view() == rv.take(k as int).filter_map(f),
        decreases rv.len() - k,
    {
        proof {
            rv.lemma_filter_map_take_succ(f, k as int);
            assert(rv[k as int] == refs@[k as int]@);
        }
        if refs[k].is_exported && imported_dir_match(imported, recv, refs[k].file_path.as_str()) {
            let t = ResolvedTarget { target_uid: refs[k].uid.clone(), confidence: Confidence::of(9, 10), reason: owned("go-package-match"), kind: RelationKind::Calls };
            let ghost tv = t@;
            let ghost before = r.deep_view();
            r.push(t);
            proof {
                assert(r.deep_view() =~= before.push(tv));
            }
        }
        k = k + 1;
    }
    proof {
        assert(rv.take(rv.len() as int) =~= rv);
    }
    r
}

/// Strategy 1.
fn receiver_targets(file_path: &str, call: &RawCall, idx: &SymbolIndex, imported: &[String]) -> (r: Vec<ResolvedTarget>)
    ensures
        r.deep_view() == receiver_strategy(file_path@, call@, idx@, imported.deep_view()),
{
    let receiver = match &call.receiver {
        Some(r) => r,
        None => {
            return Vec::new();
        },
    };
    let eff: Option<&String> = if str_eq(receiver.as_str(), "this") || str_eq(receiver.as_str(), "self") || str_eq(receiver.as_str(), "@") {
        match &call.caller_parent {
            Some(p) => Some(p),
            None => None,
        }
    } else {
        Some(receiver)
    };
    let recv = match eff {
        Some(r) => r,
        None => {
            return Vec::new();
        },
    };
    let q = qualified(recv.as_str(), call.callee_name.as_str());
    let a = idx.get(q.as_str());
    if a.len() > 0 {
        return near_targets(&a, file_path, "type-qualified-match");
    }
    let cap = capitalize_first(recv.as_str());
    let tq = qualified(cap.as_str(), call.callee_name.as_str());
    if !str_eq(tq.as_str(), q.as_str()) {
        let b = idx.get(tq.as_str());
        if b.len() > 0 {
            return flat_targets(&b, Confidence::of(4, 5), "receiver-type-inference");
        }
    }
    if imported.len() > 0 {
        let refs = idx.get(call.callee_name.as_str());
        return go_package_targets(&refs, recv.as_str(), imported);
    }
    Vec::new()
}

/// Strategy 2.
fn same_file_targets(file_symbols: &[Symbol], callee: &str) -> (r: Vec<ResolvedTarget>)
    ensures
        r.deep_view() == file_symbols.deep_view().filter_map(same_file_target(callee@)),
{
    let ghost sv = file_symbols.deep_view();
    let ghost f = same_file_target(callee@);
    let mut r: Vec<ResolvedTarget> = Vec::new();
    let mut k: usize = 0;
    while k < file_symbols.len()
        invariant
            k <= sv.len(),
            sv == file_symbols.deep_view(),
            f == same_file_target(callee@),
            r.deep_view() == sv.take(k as int).filter_map(f),
        decreases sv.len() - k,
    {
        proof {
            sv.lemma_filter_map_take_succ(f, k as int);
            assert(sv[k as int] == file_symbols@[k as int]@);
        }
        if str_eq(file_symbols[k].name.as_str(), callee) {
            let t = ResolvedTarget { target_uid: file_symbols[k].uid(), confidence: Confidence::of(9, 10), reason: owned("same-file-match"), kind: RelationKind::Calls };
            let ghost tv = t@;
            let ghost before = r.deep_view();
            r.push(t);
            proof {
                assert(r.deep_view() =~= before.push(tv));
            }
        }
        k = k + 1;
    }
    proof {
        assert(sv.take(sv.len() as int) =~= sv);
    }
    r
}

/// Whether `f` is one of the imported files.
fn imported_contains(imported: &[String], f: &str) -> (r: bool)
    ensures
        r == imported.deep_view().contains(f@),
{
    let ghost iv = imported.deep_view();
    let mut i: usize = 0;
    while i < imported.len()
        invariant
            i <= iv.len(),
            iv == imported.deep_view(),
            forall|j: int| 0 <= j < i ==> iv[j] != f@,
        decreases iv.len() - i,
    {
        if str_eq(imported[i].as_str(), f) {
            proof {
                assert(iv[i as int] == f@);
            }
            return true;
        }
        i = i + 1;
    }
    false
}

/// Strategy 3.
fn imported_file_targets(refs: &Vec<SymbolRef>, imported: &[String]) -> (r: Vec<ResolvedTarget>)
    ensures
        r.deep_view() == refs.deep_view().filter_map(imported_target(imported.deep_view())),
{
    let ghost rv = refs.deep_view();
    let ghost f = imported_target(imported.deep_view());
    let mut r: Vec<ResolvedTarget> = Vec::new();
    let mut k: usize = 0;
    while k < refs.len()
        invariant
            k <= rv.len(),
            rv == refs.deep_view(),
            f == imported_target(imported.deep_view()),
            r.deep_view() == rv.take(k as int).filter_map(f),
        decreases rv.len() - k,
    {
        proof {
            rv.lemma_filter_map_take_succ(f, k as int);
            assert(rv[k as int] == refs@[k as int]@);
        }
        if imported_contains(imported, refs[k].file_path.as_str()) && refs[k].is_exported {
            let t = ResolvedTarget { target_uid: refs[k].uid.clone(), confidence: Confidence::of(9, 10), reason: owned("imported-file-match"), kind: RelationKind::Calls };
            let ghost tv = t@;
            let ghost before = r.deep_view();
            r.push(t);
            proof {
                assert(r.deep_view() =~= before.push(tv));
            }
        }
        k = k + 1;
    }
    proof {
        assert(rv.take(rv.len() as int) =~= rv);
    }
    r
}

/// Strategy 4.
fn global_targets(idx: &SymbolIndex, callee: &str) -> (r: Vec<ResolvedTarget>)
    ensures
        r.deep_view() == global_strategy(idx@, callee@),
{
    let refs = idx.get(callee);
    let ghost rv = refs.deep_view();
    let ex = exported_only_refs(&refs);
    let n = ex.len();
    if n == 1 {
        let t = ResolvedTarget { target_uid: ex[0].uid.clone(), confidence: Confidence::of(4, 5), reason: owned("unique-global-match"), kind: RelationKind::Calls };
        let ghost tv = t@;
        let mut r: Vec<ResolvedTarget> = Vec::new();
        r.push(t);
        proof {
            assert(r.deep_view() =~= seq![tv]);
        }
        r
    } else if n >= 2 && n <= 5 {
        let den: u32 = (2 * n) as u32;
        flat_targets(&ex, Confidence::of(1, den), "ambiguous-global-match")
    } else {
        Vec::new()
    }
}

/// The exported symbols among `refs`.
fn exported_only_refs(refs: &Vec<SymbolRef>) -> (r: Vec<SymbolRef>)
    ensures
        r.deep_view() == refs.deep_view().filter_map(exported_ref()),
{
    let ghost rv = refs.deep_view();
    let ghost f = exported_ref();
    let mut r: Vec<SymbolRef> = Vec::new();
    let mut k: usize = 0;
    while k < refs.len()
        invariant
            k <= rv.len(),
            rv == refs.deep_view(),
            f == exported_ref(),
            r.deep_view() == rv.take(k as int).filter_map(f),
        decreases rv.len() - k,
    {
        proof {
            rv.lemma_filter_map_take_succ(f, k as int);
            assert(rv[k as int] == refs@[k as int]@);
        }
        if refs[k].is_exported {
            let d = refs[k].duplicate();
            let ghost dv = d@;
            let ghost before = r.deep_view();
            r.push(d);
            proof {
                assert(r.deep_view() =~= before.push(dv));
            }
        }
        k = k + 1;
    }
    proof {
        assert(rv.take(rv.len() as int) =~= rv);
    }
    r
}

/// Strategy 5.
fn method_missing_targets(file_path: &str, call: &RawCall, idx: &SymbolIndex) -> (r: Vec<ResolvedTarget>)
    ensures
        r.deep_view() == method_missing_strategy(file_path@, call@, idx@),
{
    let implicit_self = match &call.receiver {
        None => true,
        Some(r) => str_eq(r.as_str(), "self"),
    };
    if ends_with(file_path, ".rb") && implicit_self {
        if let Some(cc) = &call.caller_parent {
            let mm = idx.get(qualified(cc.as_str(), "method_missing").as_str());
            return flat_targets(&mm, Confidence::of(3, 10), "method-missing-fallback");
        }
    }
    Vec::new()
}

/// Strategy 6.
fn unresolved(call: &RawCall) -> (r: ResolvedTarget)
    ensures
        r@ == unresolved_target(call@),
{
    let name = match &call.receiver {
        Some(r) => qualified(r.as_str(), call.callee_name.as_str()),
        None => call.callee_name.clone(),
    };
    let is_external = match &call.receiver {
        Some(r) => contains(r.as_str(), "::"),
        None => false,
    };
    let kind = if is_external {
        RelationKind::CallsExternal
    } else {
        RelationKind::CallsUnresolved
    };
    let mut uid = owned("External:<external>:");
    uid.append(name.as_str());
    uid.append(":0");
    ResolvedTarget { target_uid: uid, confidence: Confidence::of(0, 1), reason: owned("unresolved"), kind }
}

/// Resolve the callee: the targets of the first strategy that finds any.
pub fn resolve_callee(
    file_path: &str,
    call: &RawCall,
    file_symbols: &[Symbol],
    symbol_index: &SymbolIndex,
    imported_files: &[String],
) -> (r: Vec<ResolvedTarget>)
    ensures
        r.deep_view() == callee_targets(file_path@, call@, file_symbols.deep_view(), symbol_index@, imported_files.deep_view()),
{
    let s10 = field_type_targets(file_path, call, symbol_index);
    if s10.len() > 0 {
        return s10;
    }
    let s1 = receiver_targets(file_path, call, symbol_index, imported_files);
    if s1.len() > 0 {
        return s1;
    }
    let s2 = same_file_targets(file_symbols, call.callee_name.as_str());
    if s2.len() > 0 {
        return s2;
    }
    if imported_files.len() > 0 {
        let refs = symbol_index.get(call.callee_name.as_str());
        let s3 = imported_file_targets(&refs, imported_files);
        if s3.len() > 0 {
            return s3;
        }
    }
    let s4 = global_targets(symbol_index, call.callee_name.as_str());
    if s4.len() > 0 {
        return s4;
    }
    let s5 = method_missing_targets(file_path, call, symbol_index);
    if s5.len() > 0 {
        return s5;
    }
    let t = unresolved(call);
    let ghost tv = t@;
    let mut r: Vec<ResolvedTarget> = Vec::new();
    r.push(t);
    proof {
        assert(r.deep_view() =~= seq![tv]);
    }
    r
}

/// Edges from the caller to each target.
pub open spec fn call_edges(fp: Seq<char>, call: RawCallV, syms: Seq<SymbolV>, idx: Seq<IndexEntryV>, imported: Seq<Seq<char>>) -> Seq<RelationshipV> {
    match caller_uid(fp, call, syms) {
        None => Seq::empty(),
        Some(c) => callee_targets(fp, call, syms, idx, imported).map_values(
            |t: ResolvedTargetV| edge(c, t.target_uid, t.kind, t.confidence, t.reason),
        ),
    }
}

/// Edges of all calls of a file, in call order.
pub open spec fn calls_edges(fp: Seq<char>, calls: Seq<RawCallV>, syms: Seq<SymbolV>, idx: Seq<IndexEntryV>, imported: Seq<Seq<char>>) -> Seq<RelationshipV>
    decreases calls.len(),
{
    if calls.len() == 0 {
        Seq::empty()
    } else {
        calls_edges(fp, calls.drop_last(), syms, idx, imported) + call_edges(fp, calls.last(), syms, idx, imported)
    }
}

/// Resolve calls → CALLS edges (with import-aware priority).
pub fn resolve_calls(
    file_path: &str,
    calls: &[RawCall],
    file_symbols: &[Symbol],
    symbol_index: &SymbolIndex,
    imported_files: &[String],
    relationships: &mut Vec<Relationship>,
)
    ensures
        final(relationships).deep_view() == old(relationships).deep_view() + calls_edges(
            file_path@,
            calls.deep_view(),
            file_symbols.deep_view(),
            symbol_index@,
            imported_files.deep_view(),
        ),
{
    let ghost cv = calls.deep_view();
    let ghost start = old(relationships).deep_view();
    let mut i: usize = 0;
    while i < calls.len()
        invariant
            i <= cv.len(),
            cv == calls.deep_view(),
            relationships.deep_view() == start + calls_edges(file_path@, cv.take(i as int), file_symbols.deep_view(), symbol_index@, imported_files.deep_view()),
        decreases cv.len() - i,
    {
        let call = &calls[i];
        proof {
            assert(cv.take(i + 1).drop_last() =~= cv.take(i as int));
            assert(cv[i as int] == call@);
        }
        let ghost mid = relationships.deep_view();
        let caller = resolve_caller(file_path, call, file_symbols);
        match caller {
            None => {
                proof {
                    assert(relationships.deep_view() =~= start + calls_edges(file_path@, cv.take(i + 1), file_symbols.deep_view(), symbol_index@, imported_files.deep_view()));
                }
            },
            Some(caller_uid) => {
                let targets = resolve_callee(file_path, call, file_symbols, symbol_index, imported_files);
                let ghost tv = targets.deep_view();
                let ghost g = |t: ResolvedTargetV| edge(caller_uid@, t.target_uid, t.kind, t.confidence, t.reason);
                let mut k: usize = 0;
                while k < targets.len()
                    invariant
                        k <= tv.len(),
                        tv == targets.deep_view(),
                        g == (|t: ResolvedTargetV| edge(caller_uid@, t.target_uid, t.kind, t.confidence, t.reason)),
                        relationships.deep_view() == mid + tv.take(k as int).map_values(g),
                    decreases tv.len() - k,
                {
                    let t = &targets[k];
                    let rel = Relationship {
                        source_uid: caller_uid.clone(),
                        target_uid: t.target_uid.clone(),
                        kind: t.kind,
                        confidence: t.confidence,
                        reason: t.reason.clone(),
                    };
                    let ghost relv = rel@;
                    let ghost before = relationships.deep_view();
                    relationships.push(rel);
                    proof {
                        assert(tv[k as int] == t@);
                        assert(relationships.deep_view() =~= before.push(relv));
                        assert(tv.take(k + 1).map_values(g) =~= tv.take(k as int).map_values(g).push(g(tv[k as int])));
                    }
                    k = k + 1;
                }
                proof {
                    assert(tv.take(tv.len() as int) =~= tv);
                    assert(relationships.deep_view() =~= start + calls_edges(file_path@, cv.take(i + 1), file_symbols.deep_view(), symbol_index@, imported_files.deep_view()));
                }
            },
        }
        i = i + 1;
    }
    proof {
        assert(cv.take(cv.len() as int) =~= cv);
    }
}


// ─── Laws ───────────────────────────────────────────────────────────

/// Every target is a plain CALLS target.
pub open spec fn all_calls(ts: Seq<ResolvedTargetV>) -> bool {
    forall|k: int| 0 <= k < ts.len() ==> (#[trigger] ts[k]).kind == RelationKind::Calls
}

proof fn lemma_filter_map_calls<A>(s: Seq<A>, f: spec_fn(A) -> Option<ResolvedTargetV>)
    requires
        forall|a: A| (#[trigger] f(a)) matches Some(t) ==> t.kind == RelationKind::Calls,
    ensures
        all_calls(s.filter_map(f)),
    decreases s.len(),
{
    if s.len() > 0 {
        lemma_filter_map_calls(s.drop_last(), f);
        let rest = s.drop_last().filter_map(f);
        let r = s.filter_map(f);
        match f(s.last()) {
            Some(t) => {
                assert forall|k: int| 0 <= k < r.len() implies (#[trigger] r[k]).kind == RelationKind::Calls by {
                    if k < rest.len() {
                        assert(r[k] == rest[k]);
                    } else {
                        assert(r[k] == t);
                    }
                }
            },
            None => {},
        }
    }
}

proof fn lemma_field_candidates_calls(cands: Seq<SymbolRefV>, callee: Seq<char>, fp: Seq<char>, idx: Seq<IndexEntryV>)
    ensures
        all_calls(field_candidates(cands, callee, fp, idx)),
    decreases cands.len(),
{
    if cands.len() > 0 {
        let c = cands[0];
        if c.kind == "Property"@ && c.type_annotation.is_some() && index_lookup(
            idx,
            qualified_key(c.type_annotation->0, callee),
        ).len() > 0 {
            lemma_filter_map_calls(
                index_lookup(idx, qualified_key(c.type_annotation->0, callee)),
                near_target(fp, "field-type-annotation"@),
            );
        } else {
            lemma_field_candidates_calls(cands.drop_first(), callee, fp, idx);
        }
    }
}

proof fn lemma_strategies_calls(fp: Seq<char>, call: RawCallV, syms: Seq<SymbolV>, idx: Seq<IndexEntryV>, imported: Seq<Seq<char>>)
    ensures
        all_calls(field_strategy(fp, call, idx)),
        all_calls(receiver_strategy(fp, call, idx, imported)),
        all_calls(syms.filter_map(same_file_target(call.callee_name))),
        all_calls(index_lookup(idx, call.callee_name).filter_map(imported_target(imported))),
        all_calls(global_strategy(idx, call.callee_name)),
        all_calls(method_missing_strategy(fp, call, idx)),
{
    match (call.receiver, call.caller_parent) {
        (Some(recv), Some(cc)) => {
            if is_field_receiver(recv) {
                let props = index_lookup(idx, qualified_key(cc, recv));
                let same = props.filter_map(same_file_property(fp));
                let cands = if same.len() == 0 {
                    props
                } else {
                    same
                };
                lemma_field_candidates_calls(cands, call.callee_name, fp, idx);
            }
        },
        _ => {},
    }
    match call.receiver {
        None => {},
        Some(receiver) => {
            let eff = if receiver == "this"@ || receiver == "self"@ || receiver == "@"@ {
                call.caller_parent
            } else {
                Some(receiver)
            };
            match eff {
                None => {},
                Some(recv) => {
                    let q = qualified_key(recv, call.callee_name);
                    let tq = qualified_key(capitalized(recv), call.callee_name);
                    lemma_filter_map_calls(index_lookup(idx, q), near_target(fp, "type-qualified-match"@));
                    lemma_filter_map_calls(index_lookup(idx, tq), flat_target(conf(4, 5), "receiver-type-inference"@));
                    lemma_filter_map_calls(index_lookup(idx, call.callee_name), go_pkg_target(recv, imported));
                },
            }
        },
    }
    lemma_filter_map_calls(syms, same_file_target(call.callee_name));
    lemma_filter_map_calls(index_lookup(idx, call.callee_name), imported_target(imported));
    let ex = exported_under(idx, call.callee_name);
    lemma_filter_map_calls(ex, flat_target(conf(1, (2 * ex.len()) as u32), "ambiguous-global-match"@));
    if call.caller_parent.is_some() {
        lemma_filter_map_calls(
            index_lookup(idx, qualified_key(call.caller_parent->0, "method_missing"@)),
            flat_target(conf(3, 10), "method-missing-fallback"@),
        );
    }
}

/// A call target is external only when the call is left unresolved and its
/// receiver is namespaced with `::`.
proof fn lemma_external_targets_namespaced(fp: Seq<char>, call: RawCallV, syms: Seq<SymbolV>, idx: Seq<IndexEntryV>, imported: Seq<Seq<char>>, k: int)
    requires
        0 <= k < callee_targets(fp, call, syms, idx, imported).len(),
        callee_targets(fp, call, syms, idx, imported)[k].kind == RelationKind::CallsExternal,
    ensures
        call.receiver is Some,
        is_infix_of("::"@, call.receiver->0),
        callee_targets(fp, call, syms, idx, imported)[k] == unresolved_target(call),
{
    lemma_strategies_calls(fp, call, syms, idx, imported);
    let ts = callee_targets(fp, call, syms, idx, imported);
    if ts != seq![unresolved_target(call)] {
        assert(all_calls(ts));
        assert(ts[k].kind == RelationKind::Calls);
    }
}

proof fn lemma_infix_in_concat(p: Seq<char>, a: Seq<char>, b: Seq<char>, c: Seq<char>)
    requires
        is_infix_of(p, b),
    ensures
        is_infix_of(p, a + b + c),
{
    let i = choose|i: int| occurs_at(p, b, i);
    let s = a + b + c;
    assert(s.subrange(a.len() + i, a.len() + i + p.len()) =~= b.subrange(i, i + p.len()));
    assert(occurs_at(p, s, a.len() + i));
}

/// CALLS_EXTERNAL edges only point at namespaced callees: the target is the
/// External pseudo-symbol of a name that contains `::`.
pub proof fn law_external_calls_are_namespaced(
    fp: Seq<char>,
    calls: Seq<RawCallV>,
    syms: Seq<SymbolV>,
    idx: Seq<IndexEntryV>,
    imported: Seq<Seq<char>>,
    j: int,
)
    requires
        0 <= j < calls_edges(fp, calls, syms, idx, imported).len(),
        calls_edges(fp, calls, syms, idx, imported)[j].kind == RelationKind::CallsExternal,
    ensures
        exists|n: Seq<char>|
            calls_edges(fp, calls, syms, idx, imported)[j].target_uid == "External:<external>:"@ + n + ":0"@
                && is_infix_of("::"@, n),
    decreases calls.len(),
{
    let es = calls_edges(fp, calls, syms, idx, imported);
    let prev = calls_edges(fp, calls.drop_last(), syms, idx, imported);
    if j < prev.len() {
        assert(es[j] == prev[j]);
        law_external_calls_are_namespaced(fp, calls.drop_last(), syms, idx, imported, j);
    } else {
        let call = calls.last();
        let ce = call_edges(fp, call, syms, idx, imported);
        assert(es[j] == ce[j - prev.len()]);
        let c = caller_uid(fp, call, syms)->0;
        let ts = callee_targets(fp, call, syms, idx, imported);
        let k = j - prev.len();
        assert(ce[k] == edge(c, ts[k].target_uid, ts[k].kind, ts[k].confidence, ts[k].reason));
        lemma_external_targets_namespaced(fp, call, syms, idx, imported, k);
        let recv = call.receiver->0;
        let n = unresolved_name(call);
        assert(n == recv + seq!['.'] + call.callee_name);
        lemma_infix_in_concat("::"@, Seq::<char>::empty(), recv, seq!['.'] + call.callee_name);
        assert(Seq::<char>::empty() + recv + (seq!['.'] + call.callee_name) =~= n);
        assert(es[j].target_uid == "External:<external>:"@ + n + ":0"@);
    }
}


// ─── Resolution strategies ──────────────────────────────────────────

proof fn lemma_flat_targets(s: Seq<SymbolRefV>, c: Confidence, reason: Seq<char>)
    ensures
        s.filter_map(flat_target(c, reason)).len() == s.len(),
        forall|i: int|
            0 <= i < s.len() ==> #[trigger] s.filter_map(flat_target(c, reason))[i] == calls_target(s[i].uid, c, reason),
    decreases s.len(),
{
    if s.len() > 0 {
        let s0 = s.drop_last();
        lemma_flat_targets(s0, c, reason);
        let f = flat_target(c, reason);
        assert(s.filter_map(f) == s0.filter_map(f) + seq![calls_target(s.last().uid, c, reason)]);
        assert forall|i: int| 0 <= i < s.len() implies #[trigger] s.filter_map(f)[i] == calls_target(s[i].uid, c, reason) by {
            if i < s0.len() {
                assert(s0[i] == s[i]);
            }
        }
    }
}

proof fn lemma_nothing_under(idx: Seq<IndexEntryV>, name: Seq<char>, imported: Seq<Seq<char>>)
    requires
        index_lookup(idx, name).len() == 0,
    ensures
        exported_under(idx, name).len() == 0,
        index_lookup(idx, name).filter_map(imported_target(imported)).len() == 0,
{
    assert(index_lookup(idx, name) =~= Seq::<SymbolRefV>::empty());
}

/// A call always resolves to at least one target. When no strategy finds
/// one (no field type, no receiver match, no symbol of that name in the file
/// or in the index, no `method_missing`), the call goes to the External
/// pseudo-symbol of its callee at confidence 0 with reason `unresolved`:
/// `CALLS_EXTERNAL` when the receiver holds `::`, `CALLS_UNRESOLVED`
/// otherwise.
pub proof fn law_unresolved_fallback(
    fp: Seq<char>,
    call: RawCallV,
    syms: Seq<SymbolV>,
    idx: Seq<IndexEntryV>,
    imported: Seq<Seq<char>>,
)
    ensures
        callee_targets(fp, call, syms, idx, imported).len() >= 1,
        field_strategy(fp, call, idx).len() == 0 && receiver_strategy(fp, call, idx, imported).len() == 0
            && syms.filter_map(same_file_target(call.callee_name)).len() == 0 && index_lookup(idx, call.callee_name).len()
            == 0 && method_missing_strategy(fp, call, idx).len() == 0 ==> callee_targets(fp, call, syms, idx, imported)
            == seq![unresolved_target(call)],
{
    if index_lookup(idx, call.callee_name).len() == 0 {
        lemma_nothing_under(idx, call.callee_name, imported);
    }
}

/// Without a receiver, symbols of the caller's own file named like the
/// callee win over imported and global matches: each is a target at 9/10
/// with reason `same-file-match`.
pub proof fn law_same_file_match_wins(
    fp: Seq<char>,
    call: RawCallV,
    syms: Seq<SymbolV>,
    idx: Seq<IndexEntryV>,
    imported: Seq<Seq<char>>,
)
    requires
        call.receiver is None,
        syms.filter_map(same_file_target(call.callee_name)).len() > 0,
    ensures
        callee_targets(fp, call, syms, idx, imported) == syms.filter_map(same_file_target(call.callee_name)),
{
}

/// Without a receiver, a same-file match or an imported file, a callee
/// that one to five exported symbols carry resolves to each of them: at 4/5
/// with reason `unique-global-match` when it is one, at 1/(2n) each with
/// reason `ambiguous-global-match` when it is n of two to five.
pub proof fn law_global_match(
    fp: Seq<char>,
    call: RawCallV,
    syms: Seq<SymbolV>,
    idx: Seq<IndexEntryV>,
    imported: Seq<Seq<char>>,
)
    requires
        call.receiver is None,
        syms.filter_map(same_file_target(call.callee_name)).len() == 0,
        imported.len() == 0,
        1 <= exported_under(idx, call.callee_name).len() <= 5,
    ensures
        ({
            let ex = exported_under(idx, call.callee_name);
            let r = callee_targets(fp, call, syms, idx, imported);
            &&& r.len() == ex.len()
            &&& forall|i: int|
                0 <= i < ex.len() ==> #[trigger] r[i] == (if ex.len() == 1 {
                    calls_target(ex[i].uid, conf(4, 5), "unique-global-match"@)
                } else {
                    calls_target(ex[i].uid, conf(1, (2 * ex.len()) as u32), "ambiguous-global-match"@)
                })
        }),
{
    let ex = exported_under(idx, call.callee_name);
    if ex.len() >= 2 {
        lemma_flat_targets(ex, conf(1, (2 * ex.len()) as u32), "ambiguous-global-match"@);
    }
}

/// A Ruby call without a receiver, from inside class `C`, whose callee no
/// symbol of the file or of the index carries, goes to `C.method_missing`
/// when it exists: each such method is a target at 3/10 with reason
/// `method-missing-fallback`.
pub proof fn law_method_missing_fallback(
    fp: Seq<char>,
    call: RawCallV,
    syms: Seq<SymbolV>,
    idx: Seq<IndexEntryV>,
    imported: Seq<Seq<char>>,
)
    requires
        is_suffix_of(".rb"@, fp),
        call.receiver is None,
        call.caller_parent is Some,
        syms.filter_map(same_file_target(call.callee_name)).len() == 0,
        index_lookup(idx, call.callee_name).len() == 0,
        index_lookup(idx, qualified_key(call.caller_parent->0, "method_missing"@)).len() > 0,
    ensures
        ({
            let mm = index_lookup(idx, qualified_key(call.caller_parent->0, "method_missing"@));
            let r = callee_targets(fp, call, syms, idx, imported);
            &&& r.len() == mm.len()
            &&& forall|i: int|
                0 <= i < mm.len() ==> #[trigger] r[i] == calls_target(mm[i].uid, conf(3, 10), "method-missing-fallback"@)
        }),
{
    lemma_nothing_under(idx, call.callee_name, imported);
    let mm = index_lookup(idx, qualified_key(call.caller_parent->0, "method_missing"@));
    lemma_flat_targets(mm, conf(3, 10), "method-missing-fallback"@);
}


proof fn lemma_near_targets(s: Seq<SymbolRefV>, fp: Seq<char>, reason: Seq<char>)
    ensures
        s.filter_map(near_target(fp, reason)).len() == s.len(),
        forall|i: int|
            0 <= i < s.len() ==> #[trigger] s.filter_map(near_target(fp, reason))[i] == calls_target(
                s[i].uid,
                if s[i].file_path == fp { conf(19, 20) } else { conf(9, 10) },
                reason,
            ),
    decreases s.len(),
{
    if s.len() > 0 {
        let s0 = s.drop_last();
        lemma_near_targets(s0, fp, reason);
        let f = near_target(fp, reason);
        let x = s.last();
        assert(s.filter_map(f) == s0.filter_map(f) + seq![
            calls_target(x.uid, if x.file_path == fp { conf(19, 20) } else { conf(9, 10) }, reason),
        ]);
        assert forall|i: int| 0 <= i < s.len() implies #[trigger] s.filter_map(f)[i] == calls_target(
            s[i].uid,
            if s[i].file_path == fp { conf(19, 20) } else { conf(9, 10) },
            reason,
        ) by {
            if i < s0.len() {
                assert(s0[i] == s[i]);
            }
        }
    }
}

/// A call whose receiver has an effective type `R` (the receiver itself,
/// or the caller's class for `this`, `self` and `@`) such that the index
/// holds `R.callee`, and that no field type resolves, goes to exactly the
/// symbols under `R.callee`, in index order, each with reason
/// `type-qualified-match`: at 19/20 when it lies in the caller's file,
/// 9/10 otherwise. No later strategy (same-file, imported, global) is tried.
pub proof fn law_type_qualified_match(
    fp: Seq<char>,
    call: RawCallV,
    syms: Seq<SymbolV>,
    idx: Seq<IndexEntryV>,
    imported: Seq<Seq<char>>,
    ty: Seq<char>,
)
    requires
        call.receiver is Some,
        (call.receiver == Some("this"@) || call.receiver == Some("self"@) || call.receiver == Some("@"@))
            ==> call.caller_parent == Some(ty),
        !(call.receiver == Some("this"@) || call.receiver == Some("self"@) || call.receiver == Some("@"@))
            ==> call.receiver == Some(ty),
        field_strategy(fp, call, idx).len() == 0,
        index_lookup(idx, qualified_key(ty, call.callee_name)).len() > 0,
    ensures
        ({
            let a = index_lookup(idx, qualified_key(ty, call.callee_name));
            let r = callee_targets(fp, call, syms, idx, imported);
            &&& r.len() == a.len()
            &&& forall|i: int|
                0 <= i < a.len() ==> #[trigger] r[i] == calls_target(
                    a[i].uid,
                    if a[i].file_path == fp { conf(19, 20) } else { conf(9, 10) },
                    "type-qualified-match"@,
                )
        }),
{
    let a = index_lookup(idx, qualified_key(ty, call.callee_name));
    lemma_near_targets(a, fp, "type-qualified-match"@);
}


/// A call whose receiver `R` (not `this`, `self` or `@`) names no indexed
/// `R.callee`, while its capitalised form `C` differs and names `C.callee`,
/// and that no field type resolves, goes to exactly the symbols under
/// `C.callee`, in index order, each at 4/5 with reason
/// `receiver-type-inference`.
pub proof fn law_receiver_type_inference(
    fp: Seq<char>,
    call: RawCallV,
    syms: Seq<SymbolV>,
    idx: Seq<IndexEntryV>,
    imported: Seq<Seq<char>>,
    recv: Seq<char>,
)
    requires
        call.receiver == Some(recv),
        recv != "this"@ && recv != "self"@ && recv != "@"@,
        field_strategy(fp, call, idx).len() == 0,
        index_lookup(idx, qualified_key(recv, call.callee_name)).len() == 0,
        qualified_key(capitalized(recv), call.callee_name) != qualified_key(recv, call.callee_name),
        index_lookup(idx, qualified_key(capitalized(recv), call.callee_name)).len() > 0,
    ensures
        ({
            let b = index_lookup(idx, qualified_key(capitalized(recv), call.callee_name));
            let r = callee_targets(fp, call, syms, idx, imported);
            &&& r.len() == b.len()
            &&& forall|i: int|
                0 <= i < b.len() ==> #[trigger] r[i] == calls_target(b[i].uid, conf(4, 5), "receiver-type-inference"@)
        }),
{
    let b = index_lookup(idx, qualified_key(capitalized(recv), call.callee_name));
    lemma_flat_targets(b, conf(4, 5), "receiver-type-inference"@);
}

/// The exported entries of `s` that lie in one of `files`, in order.
pub open spec fn exported_in(s: Seq<SymbolRefV>, files: Seq<Seq<char>>) -> Seq<SymbolRefV>
    decreases s.len(),
{
    if s.len() == 0 {
        Seq::empty()
    } else {
        let r = exported_in(s.drop_last(), files);
        if files.contains(s.last().file_path) && s.last().is_exported {
            r.push(s.last())
        } else {
            r
        }
    }
}

proof fn lemma_imported_targets(s: Seq<SymbolRefV>, imported: Seq<Seq<char>>)
    ensures
        s.filter_map(imported_target(imported)).len() == exported_in(s, imported).len(),
        forall|i: int|
            0 <= i < exported_in(s, imported).len() ==> #[trigger] s.filter_map(imported_target(imported))[i]
                == calls_target(exported_in(s, imported)[i].uid, conf(9, 10), "imported-file-match"@),
    decreases s.len(),
{
    if s.len() > 0 {
        let t = s.drop_last();
        lemma_imported_targets(t, imported);
        let f = imported_target(imported);
        let x = s.last();
        let e = exported_in(s, imported);
        let et = exported_in(t, imported);
        if imported.contains(x.file_path) && x.is_exported {
            assert(s.filter_map(f) == t.filter_map(f) + seq![calls_target(x.uid, conf(9, 10), "imported-file-match"@)]);
            assert(e == et.push(x));
            assert forall|i: int| 0 <= i < e.len() implies #[trigger] s.filter_map(f)[i] == calls_target(
                e[i].uid,
                conf(9, 10),
                "imported-file-match"@,
            ) by {
                if i < et.len() {
                    assert(e[i] == et[i]);
                }
            }
        } else {
            assert(s.filter_map(f) == t.filter_map(f));
            assert(e == et);
        }
    }
}

/// A call without a receiver, with no same-file symbol of its name, from a
/// file with imports, goes to the exported symbols of that name that lie in
/// the imported files, when there are any: each at 9/10 with reason
/// `imported-file-match`, in index order.
pub proof fn law_imported_file_match(
    fp: Seq<char>,
    call: RawCallV,
    syms: Seq<SymbolV>,
    idx: Seq<IndexEntryV>,
    imported: Seq<Seq<char>>,
)
    requires
        call.receiver is None,
        syms.filter_map(same_file_target(call.callee_name)).len() == 0,
        imported.len() > 0,
        exported_in(index_lookup(idx, call.callee_name), imported).len() > 0,
    ensures
        ({
            let e = exported_in(index_lookup(idx, call.callee_name), imported);
            let r = callee_targets(fp, call, syms, idx, imported);
            &&& r.len() == e.len()
            &&& forall|i: int|
                0 <= i < e.len() ==> #[trigger] r[i] == calls_target(e[i].uid, conf(9, 10), "imported-file-match"@)
        }),
{
    lemma_imported_targets(index_lookup(idx, call.callee_name), imported);
}

} // verus!
