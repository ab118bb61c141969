//! Whole-repository relationship resolution: per-file resolvers, Go implicit
//! interfaces, directory containment, and External pseudo-symbols.

use vstd::prelude::*;
use crate::analyzer::resolver::calls::calls_edges;
use crate::analyzer::resolver::imports::{imported_files, imports_edges};
use crate::analyzer::resolver::inheritance::{implicit_implements, inheritance_edges};
use crate::analyzer::resolver::{
    conf, defines_edges, edge, file_uid, resolve_calls, resolve_defines, resolve_go_implicit_implements,
    resolve_imported_files, resolve_imports, resolve_inheritance, Confidence, RelationKind, Relationship,
    RelationshipV,
};
use crate::analyzer::{
    all_symbols, build_file_exports, build_symbol_index, export_of, index_entries, known_files, FileAnalysis,
    FileAnalysisV, FileExport,
};
use crate::parser::extract::{symbol_uid, Symbol, SymbolKind, SymbolV};
use crate::paths::{parent_of, path_parent};
use crate::sorting::{sort_strings, sort_strs};
use crate::text::{concat, concat3, decimal, is_prefix_of, is_suffix_of, owned, position_in, starts_with, str_eq, substring};

verus! {

// ─── External pseudo-symbols ───────────────────────────────────────

/// Prefix of the UID of every external call target.
pub open spec fn external_prefix() -> Seq<char> {
    "External:<external>:"@
}

/// An unresolved or external call whose target is an external pseudo-symbol.
pub open spec fn is_external_call(r: RelationshipV) -> bool {
    (r.kind == RelationKind::CallsUnresolved || r.kind == RelationKind::CallsExternal) && is_prefix_of(
        external_prefix(),
        r.target_uid,
    )
}

/// Distinct targets of external calls, in first-occurrence order.
pub open spec fn external_targets(rels: Seq<RelationshipV>) -> Seq<Seq<char>>
    decreases rels.len(),
{
    if rels.len() == 0 {
        Seq::empty()
    } else {
        let t = external_targets(rels.drop_last());
        let r = rels.last();
        if is_external_call(r) && !t.contains(r.target_uid) {
            t.push(r.target_uid)
        } else {
            t
        }
    }
}

/// The name inside `External:<external>:{name}:0`; the whole UID when the
/// part after the prefix does not end in `:0`.
pub open spec fn external_name(t: Seq<char>) -> Seq<char> {
    let rest = t.skip(external_prefix().len() as int);
    if is_suffix_of(":0"@, rest) {
        rest.take(rest.len() - 2)
    } else {
        t
    }
}

/// The External pseudo-symbol of a name.
pub open spec fn external_symbol(name: Seq<char>) -> SymbolV {
    SymbolV {
        name,
        kind: SymbolKind::External,
        file_path: "<external>"@,
        start_line: 0,
        end_line: 0,
        is_exported: false,
        parent_name: None,
        superclass: None,
        interfaces: Seq::empty(),
        type_annotation: None,
        param_count: None,
    }
}

/// UID of the External pseudo-symbol of a name.
pub open spec fn external_uid(name: Seq<char>) -> Seq<char> {
    external_prefix() + name + ":0"@
}

/// The name back from an external UID.
pub open spec fn uid_name(u: Seq<char>) -> Seq<char> {
    u.subrange(external_prefix().len() as int, u.len() - 2)
}

/// The External pseudo-symbols of the external call targets, one per
/// distinct target, in ascending UID order.
pub open spec fn external_symbols_of(rels: Seq<RelationshipV>) -> Seq<SymbolV> {
    sort_strs(external_targets(rels).map_values(|t: Seq<char>| external_uid(external_name(t)))).map_values(
        |u: Seq<char>| external_symbol(uid_name(u)),
    )
}

/// The UID of the pseudo-symbol of `name` is its external UID, and the name
/// is recovered from it.
pub proof fn lemma_external_uid(name: Seq<char>)
    ensures
        symbol_uid(external_symbol(name)) == external_uid(name),
        uid_name(external_uid(name)) == name,
{
    reveal_strlit("External:<external>:");
    reveal_strlit("External");
    reveal_strlit("<external>");
    reveal_strlit(":0");
    assert(decimal(0) =~= seq!['0']);
    assert(symbol_uid(external_symbol(name)) =~= external_uid(name));
    assert(uid_name(external_uid(name)) =~= name);
}

proof fn lemma_external_targets_prefixed(rels: Seq<RelationshipV>)
    ensures
        forall|q: int| 0 <= q < external_targets(rels).len() ==> is_prefix_of(external_prefix(), #[trigger] external_targets(rels)[q]),
    decreases rels.len(),
{
    if rels.len() > 0 {
        lemma_external_targets_prefixed(rels.drop_last());
        let t = external_targets(rels.drop_last());
        assert forall|q: int| 0 <= q < external_targets(rels).len() implies is_prefix_of(external_prefix(), #[trigger] external_targets(rels)[q]) by {
            if q < t.len() {
                assert(external_targets(rels)[q] == t[q]);
            }
        }
    }
}

/// The name carried by an external target UID.
fn target_name(t: &str) -> (r: String)
    requires
        is_prefix_of(external_prefix(), t@),
    ensures
        r@ == external_name(t@),
{
    proof {
        reveal_strlit("External:<external>:");
        reveal_strlit(":0");
    }
    let n = t.unicode_len();
    let p: usize = 20;
    let rest = substring(t, p, n);
    if crate::text::ends_with(rest.as_str(), ":0") {
        let m = rest.unicode_len();
        proof {
            assert(t@.skip(20) =~= rest@);
        }
        let r = substring(rest.as_str(), 0, m - 2);
        proof {
            assert(r@ =~= rest@.take(m - 2));
        }
        r
    } else {
        proof {
            assert(t@.skip(20) =~= rest@);
        }
        owned(t)
    }
}

proof fn lemma_external_targets_contains(rels: Seq<RelationshipV>, i: int)
    requires
        0 <= i < rels.len(),
        is_external_call(rels[i]),
    ensures
        external_targets(rels).contains(rels[i].target_uid),
    decreases rels.len(),
{
    let t = external_targets(rels.drop_last());
    if i < rels.len() - 1 {
        lemma_external_targets_contains(rels.drop_last(), i);
        let q = choose|q: int| 0 <= q < t.len() && t[q] == rels[i].target_uid;
        assert(external_targets(rels)[q] == t[q]);
    } else if t.contains(rels[i].target_uid) {
        let q = choose|q: int| 0 <= q < t.len() && t[q] == rels[i].target_uid;
        assert(external_targets(rels)[q] == t[q]);
    } else {
        assert(external_targets(rels).last() == rels[i].target_uid);
    }
}

proof fn lemma_external_name_of_uid(name: Seq<char>)
    ensures
        external_name(external_uid(name)) == name,
{
    reveal_strlit(":0");
    let u = external_uid(name);
    let rest = u.skip(external_prefix().len() as int);
    assert(rest =~= name + ":0"@);
    assert(rest.take(rest.len() - 2) =~= name);
}

/// Every external or unresolved call to `External:<external>:{name}:0` has
/// the External pseudo-symbol of `name` among the collected ones, so every
/// such edge ends at a node of the graph.
pub proof fn law_external_targets_have_symbols(rels: Seq<RelationshipV>, i: int, name: Seq<char>)
    requires
        0 <= i < rels.len(),
        is_external_call(rels[i]),
        rels[i].target_uid == external_uid(name),
    ensures
        external_symbols_of(rels).contains(external_symbol(name)),
        symbol_uid(external_symbol(name)) == rels[i].target_uid,
{
    broadcast use vstd::seq_lib::group_to_multiset_ensures;
    lemma_external_uid(name);
    lemma_external_name_of_uid(name);
    let ts = external_targets(rels);
    lemma_external_targets_contains(rels, i);
    let q = choose|q: int| 0 <= q < ts.len() && ts[q] == rels[i].target_uid;
    let us = ts.map_values(|t: Seq<char>| external_uid(external_name(t)));
    assert(us[q] == external_uid(name));
    assert(us.contains(external_uid(name)));
    crate::sorting::lemma_sort_strs(us);
    let sorted = sort_strs(us);
    assert(sorted.to_multiset().count(external_uid(name)) > 0);
    assert(sorted.contains(external_uid(name)));
    let k = choose|k: int| 0 <= k < sorted.len() && sorted[k] == external_uid(name);
    let syms = external_symbols_of(rels);
    assert(syms[k] == external_symbol(uid_name(sorted[k])));
    assert(syms[k] == external_symbol(name));
}

/// Collect External pseudo-symbols from unresolved/external call relationships.
/// Deduplicates by target UID and sorts by UID for deterministic insertion order.
pub fn collect_external_symbols(relationships: &[Relationship]) -> (r: Vec<Symbol>)
    ensures
        r.deep_view() == external_symbols_of(relationships.deep_view()),
{
    let ghost rv = relationships.deep_view();
    let mut targets: Vec<String> = Vec::new();
    let mut i: usize = 0;
    while i < relationships.len()
        invariant
            i <= rv.len(),
            rv == relationships.deep_view(),
            targets.deep_view() == external_targets(rv.take(i as int)),
        decreases rv.len() - i,
    {
        let rel = &relationships[i];
        proof {
            assert(rv.take(i + 1).drop_last() =~= rv.take(i as int));
            assert(rv[i as int] == rel@);
        }
        let is_call = rel.kind == RelationKind::CallsUnresolved || rel.kind == RelationKind::CallsExternal;
        if is_call && starts_with(rel.target_uid.as_str(), "External:<external>:") {
            match position_in(&targets, rel.target_uid.as_str()) {
                Some(k) => {
                    proof {
                        assert(targets.deep_view()[k as int] == rel.target_uid@);
                    }
                },
                None => {
                    proof {
                        let tv = targets.deep_view();
                        if tv.contains(rel.target_uid@) {
                            let k = choose|k: int| 0 <= k < tv.len() && tv[k] == rel.target_uid@;
                            assert(targets@[k]@ == tv[k]);
                        }
                    }
                    let ghost before = targets.deep_view();
                    targets.push(rel.target_uid.clone());
                    proof {
                        assert(targets.deep_view() =~= before.push(rel.target_uid@));
                    }
                },
            }
        }
        i = i + 1;
    }
    proof {
        assert(rv.take(rv.len() as int) =~= rv);
        lemma_external_targets_prefixed(rv);
    }
    let ghost tv = targets.deep_view();
    let ghost to_uid = |t: Seq<char>| external_uid(external_name(t));
    let mut uids: Vec<String> = Vec::new();
    let mut j: usize = 0;
    while j < targets.len()
        invariant
            j <= tv.len(),
            tv == targets.deep_view(),
            tv == external_targets(rv),
            to_uid == (|t: Seq<char>| external_uid(external_name(t))),
            uids.deep_view() == tv.take(j as int).map_values(to_uid),
            forall|q: int| 0 <= q < tv.len() ==> is_prefix_of(external_prefix(), #[trigger] tv[q]),
        decreases tv.len() - j,
    {
        proof {
            assert(tv[j as int] == targets@[j as int]@);
        }
        let name = target_name(targets[j].as_str());
        let u = concat3("External:<external>:", name.as_str(), ":0");
        let ghost before = uids.deep_view();
        uids.push(u);
        proof {
            reveal_strlit("External:<external>:");
            reveal_strlit(":0");
            assert(uids.deep_view() =~= before.push(to_uid(tv[j as int])));
            assert(tv.take(j + 1) =~= tv.take(j as int).push(tv[j as int]));
            assert(uids.deep_view() =~= tv.take(j + 1).map_values(to_uid));
        }
        j = j + 1;
    }
    proof {
        assert(tv.take(tv.len() as int) =~= tv);
    }
    let sorted = sort_strings(&uids);
    let ghost sv = sorted.deep_view();
    proof {
        broadcast use vstd::seq_lib::group_to_multiset_ensures;
        let uv = uids.deep_view();
        crate::sorting::lemma_sort_strs(uv);
        assert forall|q: int| 0 <= q < sv.len() implies (#[trigger] sv[q]).len() >= 22 by {
            assert(sv.contains(sv[q]));
            assert(sv.to_multiset().count(sv[q]) > 0);
            assert(uv.to_multiset().count(sv[q]) > 0);
            assert(uv.contains(sv[q]));
            let x = choose|x: int| 0 <= x < uv.len() && uv[x] == sv[q];
            assert(uv[x] == to_uid(tv[x]));
            reveal_strlit("External:<external>:");
            reveal_strlit(":0");
        }
    }
    let ghost to_sym = |u: Seq<char>| external_symbol(uid_name(u));
    let mut r: Vec<Symbol> = Vec::new();
    let mut k: usize = 0;
    while k < sorted.len()
        invariant
            k <= sv.len(),
            sv == sorted.deep_view(),
            to_sym == (|u: Seq<char>| external_symbol(uid_name(u))),
            r.deep_view() == sv.take(k as int).map_values(to_sym),
            forall|q: int| 0 <= q < sv.len() ==> (#[trigger] sv[q]).len() >= 22,
        decreases sv.len() - k,
    {
        let u = &sorted[k];
        proof {
            assert(sv[k as int] == u@);
        }
        let m = u.unicode_len();
        let name = substring(u.as_str(), 20, m - 2);
        let sym = Symbol {
            name,
            kind: SymbolKind::External,
            file_path: owned("<external>"),
            start_line: 0,
            end_line: 0,
            is_exported: false,
            parent_name: None,
            superclass: None,
            interfaces: Vec::new(),
            type_annotation: None,
            param_count: None,
        };
        let ghost symv = sym@;
        let ghost before = r.deep_view();
        r.push(sym);
        proof {
            reveal_strlit("External:<external>:");
            reveal_strlit("<external>");
            assert(symv.interfaces =~= Seq::<Seq<char>>::empty());
            assert(symv == to_sym(sv[k as int]));
            assert(r.deep_view() =~= before.push(symv));
            assert(sv.take(k + 1) =~= sv.take(k as int).push(sv[k as int]));
            assert(r.deep_view() =~= sv.take(k + 1).map_values(to_sym));
        }
        k = k + 1;
    }
    proof {
        assert(sv.take(sv.len() as int) =~= sv);
    }
    r
}

// ─── Directory containment ─────────────────────────────────────────

/// `Folder:<path>`, the UID of a directory node.
pub open spec fn folder_uid(path: Seq<char>) -> Seq<char> {
    "Folder:"@ + path
}

/// Folder → Folder edges up the ancestry of directory `cur`, stopping at an
/// empty parent or at a directory already seen; at most `fuel` steps (a path
/// has no more ancestors than characters). Returns the edges and the
/// directories seen afterwards.
pub open spec fn folder_chain(cur: Seq<char>, seen: Seq<Seq<char>>, fuel: nat) -> (Seq<RelationshipV>, Seq<Seq<char>>)
    decreases fuel,
{
    if fuel == 0 {
        (Seq::empty(), seen)
    } else {
        match path_parent(cur) {
            None => (Seq::empty(), seen),
            Some(gp) => if gp.len() == 0 || seen.contains(cur) {
                (Seq::empty(), seen)
            } else {
                let rest = folder_chain(gp, seen.push(cur), (fuel - 1) as nat);
                (
                    seq![edge(folder_uid(gp), folder_uid(cur), RelationKind::Contains, conf(1, 1), "directory-contains-directory"@)]
                        + rest.0,
                    rest.1,
                )
            },
        }
    }
}

/// Containment edges for one file: its folder → the file, then the folder chain.
pub open spec fn file_contains(fp: Seq<char>, seen: Seq<Seq<char>>) -> (Seq<RelationshipV>, Seq<Seq<char>>) {
    match path_parent(fp) {
        Some(p) => if p.len() > 0 {
            let c = folder_chain(p, seen, p.len());
            (seq![edge(folder_uid(p), file_uid(fp), RelationKind::Contains, conf(1, 1), "directory-contains-file"@)] + c.0, c.1)
        } else {
            (Seq::empty(), seen)
        },
        None => (Seq::empty(), seen),
    }
}

/// Containment edges for files processed in the given order, with the
/// directories seen at the end.
pub open spec fn contains_run(paths: Seq<Seq<char>>) -> (Seq<RelationshipV>, Seq<Seq<char>>)
    decreases paths.len(),
{
    if paths.len() == 0 {
        (Seq::empty(), Seq::empty())
    } else {
        let before = contains_run(paths.drop_last());
        let step = file_contains(paths.last(), before.1);
        (before.0 + step.0, step.1)
    }
}

/// The file paths of the analyses, in order.
pub open spec fn analysis_paths(av: Seq<FileAnalysisV>) -> Seq<Seq<char>> {
    av.map_values(|a: FileAnalysisV| a.file_path)
}

/// CONTAINS edges of a repository: files in ascending path order.
pub open spec fn contains_edges(av: Seq<FileAnalysisV>) -> Seq<RelationshipV> {
    contains_run(sort_strs(analysis_paths(av))).0
}

/// Folder → Folder edges for directory `cur` upwards.
fn push_folder_chain(
    cur0: &str,
    seen: &mut Vec<String>,
    relationships: &mut Vec<Relationship>,
)
    ensures
        final(relationships).deep_view() == old(relationships).deep_view() + folder_chain(
            cur0@,
            old(seen).deep_view(),
            cur0@.len(),
        ).0,
        final(seen).deep_view() == folder_chain(cur0@, old(seen).deep_view(), cur0@.len()).1,
{
    let ghost target = folder_chain(cur0@, seen.deep_view(), cur0@.len());
    let ghost start = relationships.deep_view();
    let mut current = owned(cur0);
    let mut fuel: usize = current.unicode_len();
    loop
        invariant
            target == folder_chain(cur0@, old(seen).deep_view(), cur0@.len()),
            start == old(relationships).deep_view(),
            relationships.deep_view() + folder_chain(current@, seen.deep_view(), fuel as nat).0 == start + target.0,
            folder_chain(current@, seen.deep_view(), fuel as nat).1 == target.1,
        decreases fuel,
    {
        if fuel == 0 {
            proof {
                assert(relationships.deep_view() =~= start + target.0);
            }
            return;
        }
        let gp = match parent_of(current.as_str()) {
            Some(g) => g,
            None => {
                proof {
                    assert(relationships.deep_view() =~= start + target.0);
                }
                return;
            },
        };
        let empty = gp.unicode_len() == 0;
        let fresh = position_in(seen, current.as_str()).is_none();
        proof {
            if !fresh {
                let k = choose|k: int| 0 <= k < seen@.len() && seen@[k]@ == current@;
                assert(seen.deep_view()[k] == current@);
            } else {
                if seen.deep_view().contains(current@) {
                    let k = choose|k: int| 0 <= k < seen.deep_view().len() && seen.deep_view()[k] == current@;
                    assert(seen@[k]@ == seen.deep_view()[k]);
                }
            }
        }
        if empty || !fresh {
            proof {
                assert(relationships.deep_view() =~= start + target.0);
            }
            return;
        }
        let ghost old_seen = seen.deep_view();
        let ghost old_rel = relationships.deep_view();
        seen.push(current.clone());
        let rel = Relationship {
            source_uid: concat("Folder:", gp.as_str()),
            target_uid: concat("Folder:", current.as_str()),
            kind: RelationKind::Contains,
            confidence: Confidence::of(1, 1),
            reason: owned("directory-contains-directory"),
        };
        let ghost relv = rel@;
        relationships.push(rel);
        proof {
            reveal_strlit("Folder:");
            assert(seen.deep_view() =~= old_seen.push(current@));
            assert(relationships.deep_view() =~= old_rel.push(relv));
            let rest = folder_chain(gp@, old_seen.push(current@), (fuel - 1) as nat);
            assert(folder_chain(current@, old_seen, fuel as nat).0 == seq![relv] + rest.0);
            assert(old_rel.push(relv) + rest.0 =~= old_rel + (seq![relv] + rest.0));
        }
        current = gp;
        fuel = fuel - 1;
    }
}

/// Build directory hierarchy CONTAINS edges.
pub fn resolve_contains(analyses: &[FileAnalysis], relationships: &mut Vec<Relationship>)
    ensures
        final(relationships).deep_view() == old(relationships).deep_view() + contains_edges(analyses.deep_view()),
{
    let ghost av = analyses.deep_view();
    let ghost start = old(relationships).deep_view();
    let mut paths: Vec<String> = Vec::new();
    let mut i: usize = 0;
    while i < analyses.len()
        invariant
            i <= av.len(),
            av == analyses.deep_view(),
            paths.deep_view() == analysis_paths(av.take(i as int)),
        decreases av.len() - i,
    {
        let ghost before = paths.deep_view();
        paths.push(analyses[i].file_path.clone());
        proof {
            assert(av[i as int] == analyses@[i as int]@);
            assert(paths.deep_view() =~= before.push(av[i as int].file_path));
            assert(av.take(i + 1) =~= av.take(i as int).push(av[i as int]));
            assert(paths.deep_view() =~= analysis_paths(av.take(i + 1)));
        }
        i = i + 1;
    }
    proof {
        assert(av.take(av.len() as int) =~= av);
    }
    let sorted = sort_strings(&paths);
    let ghost sv = sorted.deep_view();
    let mut seen: Vec<String> = Vec::new();
    let mut k: usize = 0;
    while k < sorted.len()
        invariant
            k <= sv.len(),
            sv == sorted.deep_view(),
            sv == sort_strs(analysis_paths(av)),
            relationships.deep_view() == start + contains_run(sv.take(k as int)).0,
            seen.deep_view() == contains_run(sv.take(k as int)).1,
        decreases sv.len() - k,
    {
        let fp = &sorted[k];
        proof {
            assert(sv[k as int] == fp@);
            assert(sv.take(k + 1).drop_last() =~= sv.take(k as int));
        }
        let ghost mid = relationships.deep_view();
        match parent_of(fp.as_str()) {
            Some(parent) => {
                if parent.unicode_len() > 0 {
                    let rel = Relationship {
                        source_uid: concat("Folder:", parent.as_str()),
                        target_uid: concat("File:", fp.as_str()),
                        kind: RelationKind::Contains,
                        confidence: Confidence::of(1, 1),
                        reason: owned("directory-contains-file"),
                    };
                    let ghost relv = rel@;
                    relationships.push(rel);
                    let ghost mid2 = relationships.deep_view();
                    push_folder_chain(parent.as_str(), &mut seen, relationships);
                    proof {
                        reveal_strlit("Folder:");
                        reveal_strlit("File:");
                        assert(mid2 =~= mid.push(relv));
                        assert(relationships.deep_view() =~= start + contains_run(sv.take(k + 1)).0);
                    }
                } else {
                    proof {
                        assert(relationships.deep_view() =~= start + contains_run(sv.take(k + 1)).0);
                    }
                }
            },
            None => {
                proof {
                    assert(relationships.deep_view() =~= start + contains_run(sv.take(k + 1)).0);
                }
            },
        }
        k = k + 1;
    }
    proof {
        assert(sv.take(sv.len() as int) =~= sv);
    }
}

// ─── Whole repository ──────────────────────────────────────────────

/// The files that `path` imports, as resolved for the last analysis of that
/// path (later analyses of a path replace earlier ones).
pub open spec fn imported_for(av: Seq<FileAnalysisV>, path: Seq<char>, known: Seq<Seq<char>>) -> Seq<Seq<char>>
    decreases av.len(),
{
    if av.len() == 0 {
        Seq::empty()
    } else if av.last().file_path == path {
        imported_files(path, av.last().imports, known)
    } else {
        imported_for(av.drop_last(), path, known)
    }
}

/// Known file paths of a repository (every analysed file).
pub open spec fn repo_known(av: Seq<FileAnalysisV>) -> Seq<Seq<char>> {
    known_files(av.map_values(|a: FileAnalysisV| export_of(a)))
}

/// The edges the per-file resolvers produce for one analysis: IMPORTS,
/// CALLS, inheritance, then DEFINES.
pub open spec fn file_edges(a: FileAnalysisV, av: Seq<FileAnalysisV>) -> Seq<RelationshipV> {
    let idx = index_entries(all_symbols(av));
    let known = repo_known(av);
    imports_edges(a.file_path, a.imports, idx, known) + calls_edges(
        a.file_path,
        a.calls,
        a.symbols,
        idx,
        imported_for(av, a.file_path, known),
    ) + inheritance_edges(a.symbols, idx) + defines_edges(a.file_path, a.symbols)
}

/// Per-file edges of the first analyses, in order.
pub open spec fn per_file_edges(done: Seq<FileAnalysisV>, av: Seq<FileAnalysisV>) -> Seq<RelationshipV>
    decreases done.len(),
{
    if done.len() == 0 {
        Seq::empty()
    } else {
        per_file_edges(done.drop_last(), av) + file_edges(done.last(), av)
    }
}

/// All relationships of a repository: per-file edges, Go implicit
/// IMPLEMENTS edges, then CONTAINS edges.
pub open spec fn relationships_of(av: Seq<FileAnalysisV>) -> Seq<RelationshipV> {
    per_file_edges(av, av) + implicit_implements(all_symbols(av)) + contains_edges(av)
}

/// The files imported by `path`, resolved for its last analysis.
fn imported_files_of(analyses: &[FileAnalysis], path: &str, file_exports: &[FileExport]) -> (r: Vec<String>)
    ensures
        r.deep_view() == imported_for(analyses.deep_view(), path@, known_files(file_exports.deep_view())),
{
    let ghost av = analyses.deep_view();
    let ghost known = known_files(file_exports.deep_view());
    let mut j: usize = analyses.len();
    proof {
        assert(av.take(av.len() as int) =~= av);
    }
    while j > 0
        invariant
            j <= av.len(),
            av == analyses.deep_view(),
            known == known_files(file_exports.deep_view()),
            imported_for(av, path@, known) == imported_for(av.take(j as int), path@, known),
        decreases j,
    {
        proof {
            assert(av.take(j as int).drop_last() =~= av.take(j - 1));
            assert(av[j - 1] == analyses@[j - 1]@);
            assert(av.take(j as int).last() == av[j - 1]);
        }
        if str_eq(analyses[j - 1].file_path.as_str(), path) {
            return resolve_imported_files(path, analyses[j - 1].imports.as_slice(), file_exports);
        }
        j = j - 1;
    }
    Vec::new()
}

/// Copies of all symbols of all analyses, file after file.
fn all_symbol_copies(analyses: &[FileAnalysis]) -> (r: Vec<Symbol>)
    ensures
        r.deep_view() == all_symbols(analyses.deep_view()),
{
    let ghost av = analyses.deep_view();
    let mut r: Vec<Symbol> = Vec::new();
    let mut a: usize = 0;
    while a < analyses.len()
        invariant
            a <= av.len(),
            av == analyses.deep_view(),
            r.deep_view() == all_symbols(av.take(a as int)),
        decreases av.len() - a,
    {
        let syms = &analyses[a].symbols;
        let ghost sv = syms.deep_view();
        let ghost base = r.deep_view();
        let mut j: usize = 0;
        while j < syms.len()
            invariant
                j <= sv.len(),
                sv == syms.deep_view(),
                r.deep_view() == base + sv.take(j as int),
            decreases sv.len() - j,
        {
            let ghost before = r.deep_view();
            r.push(syms[j].duplicate());
            proof {
                assert(sv[j as int] == syms@[j as int]@);
                assert(r.deep_view() =~= before.push(sv[j as int]));
                assert(r.deep_view() =~= base + sv.take(j + 1));
            }
            j = j + 1;
        }
        proof {
            assert(av.take(a + 1).drop_last() =~= av.take(a as int));
            assert(av[a as int] == analyses@[a as int]@);
            assert(sv.take(sv.len() as int) =~= sv);
        }
        a = a + 1;
    }
    proof {
        assert(av.take(av.len() as int) =~= av);
    }
    r
}

/// Resolve all cross-file relationships from file analyses.
/// Returns (relationships, external_symbols) — external symbols are pseudo-symbols
/// for unresolved/external call targets, sorted by UID for determinism.
pub fn resolve_relationships(analyses: &[FileAnalysis]) -> (r: (Vec<Relationship>, Vec<Symbol>))
    ensures
        r.0.deep_view() == relationships_of(analyses.deep_view()),
        r.1.deep_view() == external_symbols_of(relationships_of(analyses.deep_view())),
{
    let ghost av = analyses.deep_view();
    let symbol_index = build_symbol_index(analyses);
    let file_exports = build_file_exports(analyses);
    proof {
        assert(known_files(file_exports.deep_view()) == repo_known(av));
    }
    let mut relationships: Vec<Relationship> = Vec::new();
    let mut i: usize = 0;
    while i < analyses.len()
        invariant
            i <= av.len(),
            av == analyses.deep_view(),
            symbol_index@ == index_entries(all_symbols(av)),
            known_files(file_exports.deep_view()) == repo_known(av),
            relationships.deep_view() == per_file_edges(av.take(i as int), av),
        decreases av.len() - i,
    {
        let analysis = &analyses[i];
        proof {
            assert(av.take(i + 1).drop_last() =~= av.take(i as int));
            assert(av[i as int] == analysis@);
        }
        let ghost start = relationships.deep_view();
        resolve_imports(
            analysis.file_path.as_str(),
            analysis.imports.as_slice(),
            file_exports.as_slice(),
            &symbol_index,
            &mut relationships,
        );
        let imported = imported_files_of(analyses, analysis.file_path.as_str(), file_exports.as_slice());
        resolve_calls(
            analysis.file_path.as_str(),
            analysis.calls.as_slice(),
            analysis.symbols.as_slice(),
            &symbol_index,
            imported.as_slice(),
            &mut relationships,
        );
        resolve_inheritance(
            analysis.file_path.as_str(),
            analysis.symbols.as_slice(),
            &symbol_index,
            &mut relationships,
        );
        resolve_defines(analysis.file_path.as_str(), analysis.symbols.as_slice(), &mut relationships);
        proof {
            assert(relationships.deep_view() =~= start + file_edges(analysis@, av));
        }
        i = i + 1;
    }
    proof {
        assert(av.take(av.len() as int) =~= av);
    }
    let all = all_symbol_copies(analyses);
    resolve_go_implicit_implements(all.as_slice(), &mut relationships);
    resolve_contains(analyses, &mut relationships);
    let externals = collect_external_symbols(relationships.as_slice());
    (relationships, externals)
}

} // verus!
