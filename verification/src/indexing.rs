//! The analysis half of indexing a repository: from the per-file analyses
//! to the symbol set, the call graph handed to community and flow
//! detection, and the communities and execution flows themselves.

use vstd::prelude::*;
use crate::analyzer::community::{communities_of, detect_communities, Community, CommunityV};
use crate::analyzer::process::{default_config, detect_processes, processes_for, processes_of, Process, ProcessConfig};
use crate::analyzer::resolver::{Confidence, RelationKind, Relationship, RelationshipV};
use crate::analyzer::{all_symbols, FileAnalysis};
use crate::parser::extract::{symbol_uid, Symbol, SymbolV};

verus! {

/// All symbols of the analyses, file after file, followed by the external
/// pseudo-symbols.
pub fn graph_symbols(analyses: &[FileAnalysis], externals: &[Symbol]) -> (r: Vec<Symbol>)
    ensures
        r.deep_view() == all_symbols(analyses.deep_view()) + externals.deep_view(),
{
    let ghost av = analyses.deep_view();
    let mut r: Vec<Symbol> = Vec::new();
    let mut i: usize = 0;
    while i < analyses.len()
        invariant
            av == analyses.deep_view(),
            i <= av.len(),
            r.deep_view() == all_symbols(av.take(i as int)),
        decreases av.len() - i,
    {
        proof {
            assert(av.take(i + 1).drop_last() =~= av.take(i as int));
            assert(av.take(i + 1).last() == av[i as int]);
        }
        let syms = &analyses[i].symbols;
        let ghost sv = syms.deep_view();
        let ghost base = r.deep_view();
        let mut k: usize = 0;
        while k < syms.len()
            invariant
                sv == syms.deep_view(),
                k <= sv.len(),
                r.deep_view() == base + sv.take(k as int),
            decreases sv.len() - k,
        {
            let ghost before = r.deep_view();
            let s = syms[k].duplicate();
            r.push(s);
            proof {
                assert(sv[k as int] == syms@[k as int]@);
                assert(r.deep_view() =~= before.push(sv[k as int]));
                assert(sv.take(k + 1) =~= sv.take(k as int).push(sv[k as int]));
            }
            k = k + 1;
        }
        proof {
            assert(sv.take(sv.len() as int) =~= sv);
            assert(av[i as int].symbols == sv);
        }
        i = i + 1;
    }
    proof {
        assert(av.take(av.len() as int) =~= av);
    }
    let ghost base = r.deep_view();
    let ghost ev = externals.deep_view();
    let mut j: usize = 0;
    while j < externals.len()
        invariant
            ev == externals.deep_view(),
            j <= ev.len(),
            r.deep_view() == base + ev.take(j as int),
        decreases ev.len() - j,
    {
        let ghost before = r.deep_view();
        r.push(externals[j].duplicate());
        proof {
            assert(ev[j as int] == externals@[j as int]@);
            assert(r.deep_view() =~= before.push(ev[j as int]));
            assert(ev.take(j + 1) =~= ev.take(j as int).push(ev[j as int]));
        }
        j = j + 1;
    }
    proof {
        assert(ev.take(ev.len() as int) =~= ev);
    }
    r
}

/// `(source, target)` of the CALLS relationships, in order.
pub open spec fn call_pairs_of(rels: Seq<RelationshipV>) -> Seq<(Seq<char>, Seq<char>)>
    decreases rels.len(),
{
    if rels.len() == 0 {
        Seq::empty()
    } else {
        let before = call_pairs_of(rels.drop_last());
        let r = rels.last();
        if r.kind == RelationKind::Calls {
            before.push((r.source_uid, r.target_uid))
        } else {
            before
        }
    }
}

/// `(source, target, confidence)` of the CALLS relationships, in order.
pub open spec fn weighted_calls_of(rels: Seq<RelationshipV>) -> Seq<(Seq<char>, Seq<char>, Confidence)>
    decreases rels.len(),
{
    if rels.len() == 0 {
        Seq::empty()
    } else {
        let before = weighted_calls_of(rels.drop_last());
        let r = rels.last();
        if r.kind == RelationKind::Calls {
            before.push((r.source_uid, r.target_uid, r.confidence))
        } else {
            before
        }
    }
}

/// The call edges of a relationship list.
pub fn call_pairs(rels: &[Relationship]) -> (r: Vec<(String, String)>)
    ensures
        r.deep_view() == call_pairs_of(rels.deep_view()),
{
    let ghost rv = rels.deep_view();
    let mut r: Vec<(String, String)> = Vec::new();
    let mut i: usize = 0;
    while i < rels.len()
        invariant
            rv == rels.deep_view(),
            i <= rv.len(),
            r.deep_view() == call_pairs_of(rv.take(i as int)),
        decreases rv.len() - i,
    {
        proof {
            assert(rv.take(i + 1).drop_last() =~= rv.take(i as int));
            assert(rv.take(i + 1).last() == rv[i as int]);
            assert(rv[i as int] == rels@[i as int]@);
        }
        if rels[i].kind == RelationKind::Calls {
            let ghost before = r.deep_view();
            r.push((rels[i].source_uid.clone(), rels[i].target_uid.clone()));
            proof {
                assert(r.deep_view() =~= before.push((rv[i as int].source_uid, rv[i as int].target_uid)));
            }
        }
        i = i + 1;
    }
    proof {
        assert(rv.take(rv.len() as int) =~= rv);
    }
    r
}

/// The call edges of a relationship list, with their confidence.
pub fn weighted_calls(rels: &[Relationship]) -> (r: Vec<(String, String, Confidence)>)
    ensures
        r.deep_view() == weighted_calls_of(rels.deep_view()),
{
    let ghost rv = rels.deep_view();
    let mut r: Vec<(String, String, Confidence)> = Vec::new();
    let mut i: usize = 0;
    while i < rels.len()
        invariant
            rv == rels.deep_view(),
            i <= rv.len(),
            r.deep_view() == weighted_calls_of(rv.take(i as int)),
        decreases rv.len() - i,
    {
        proof {
            assert(rv.take(i + 1).drop_last() =~= rv.take(i as int));
            assert(rv.take(i + 1).last() == rv[i as int]);
            assert(rv[i as int] == rels@[i as int]@);
        }
        if rels[i].kind == RelationKind::Calls {
            let ghost before = r.deep_view();
            r.push((rels[i].source_uid.clone(), rels[i].target_uid.clone(), rels[i].confidence));
            proof {
                assert(r.deep_view() =~= before.push(
                    (rv[i as int].source_uid, rv[i as int].target_uid, rv[i as int].confidence),
                ));
            }
        }
        i = i + 1;
    }
    proof {
        assert(rv.take(rv.len() as int) =~= rv);
    }
    r
}

/// `(uid, name)` of each symbol, in order.
pub open spec fn uid_names_of(syms: Seq<SymbolV>) -> Seq<(Seq<char>, Seq<char>)> {
    syms.map_values(|s: SymbolV| (symbol_uid(s), s.name))
}

/// The name of each symbol under its UID.
pub fn uid_names(symbols: &[Symbol]) -> (r: Vec<(String, String)>)
    ensures
        r.deep_view() == uid_names_of(symbols.deep_view()),
{
    let ghost sv = symbols.deep_view();
    let mut r: Vec<(String, String)> = Vec::new();
    let mut i: usize = 0;
    while i < symbols.len()
        invariant
            sv == symbols.deep_view(),
            i <= sv.len(),
            r.deep_view() == uid_names_of(sv.take(i as int)),
        decreases sv.len() - i,
    {
        let ghost before = r.deep_view();
        r.push((symbols[i].uid(), symbols[i].name.clone()));
        proof {
            assert(sv[i as int] == symbols@[i as int]@);
            assert(r.deep_view() =~= before.push((symbol_uid(sv[i as int]), sv[i as int].name)));
            assert(uid_names_of(sv.take(i + 1)) =~= uid_names_of(sv.take(i as int)).push(
                (symbol_uid(sv[i as int]), sv[i as int].name),
            ));
        }
        i = i + 1;
    }
    proof {
        assert(sv.take(sv.len() as int) =~= sv);
    }
    r
}

/// `(member, community id)` pairs of one community, last member first.
pub open spec fn reversed_members(c: CommunityV) -> Seq<(Seq<char>, usize)> {
    Seq::new(c.members.len(), |k: int| (c.members[c.members.len() - 1 - k], c.id))
}

/// Membership pairs of communities, last community first and, within one,
/// last member first: the first pair for a UID is the last assignment made
/// when the communities are walked in order.
pub open spec fn membership_of(cs: Seq<CommunityV>) -> Seq<(Seq<char>, usize)>
    decreases cs.len(),
{
    if cs.len() == 0 {
        Seq::empty()
    } else {
        reversed_members(cs.last()) + membership_of(cs.drop_last())
    }
}

/// The community of each member UID, as a list in which the first pair for
/// a UID wins.
pub fn membership(communities: &[Community]) -> (r: Vec<(String, usize)>)
    ensures
        r.deep_view() == membership_of(communities.deep_view()),
{
    let ghost cv = communities.deep_view();
    let mut r: Vec<(String, usize)> = Vec::new();
    let mut i: usize = communities.len();
    proof {
        assert(cv.take(cv.len() as int) =~= cv);
        assert(r.deep_view() =~= Seq::<(Seq<char>, usize)>::empty());
    }
    while i > 0
        invariant
            cv == communities.deep_view(),
            i <= cv.len(),
            membership_of(cv) == r.deep_view() + membership_of(cv.take(i as int)),
        decreases i,
    {
        let c = &communities[i - 1];
        let ghost mv = c.members.deep_view();
        let ghost base = r.deep_view();
        proof {
            assert(cv[i - 1] == c.deep_view());
            assert(cv.take(i as int).drop_last() =~= cv.take(i - 1));
            assert(cv.take(i as int).last() == cv[i - 1]);
        }
        let mut k: usize = c.members.len();
        while k > 0
            invariant
                mv == c.members.deep_view(),
                k <= mv.len(),
                r.deep_view() == base + Seq::new(
                    (mv.len() - k) as nat,
                    |q: int| (mv[mv.len() - 1 - q], c.id),
                ),
            decreases k,
        {
            let ghost before = r.deep_view();
            r.push((c.members[k - 1].clone(), c.id));
            proof {
                assert(mv[k - 1] == c.members@[k - 1]@);
                assert(Seq::new((mv.len() - (k - 1)) as nat, |q: int| (mv[mv.len() - 1 - q], c.id)) =~= Seq::new(
                    (mv.len() - k) as nat,
                    |q: int| (mv[mv.len() - 1 - q], c.id),
                ).push((mv[k - 1], c.id)));
                assert(r.deep_view() =~= before.push((mv[k - 1], c.id)));
            }
            k = k - 1;
        }
        proof {
            assert(Seq::new(mv.len(), |q: int| (mv[mv.len() - 1 - q], c.id)) =~= reversed_members(cv[i - 1]));
            assert(r.deep_view() + membership_of(cv.take(i - 1)) =~= base + (reversed_members(cv[i - 1])
                + membership_of(cv.take(i - 1))));
        }
        i = i - 1;
    }
    proof {
        assert(cv.take(0) =~= Seq::<CommunityV>::empty());
        assert(r.deep_view() + Seq::<(Seq<char>, usize)>::empty() =~= r.deep_view());
    }
    r
}

/// Communities of the call graph, and the execution flows traced through it
/// (sized by the number of symbols), from the repository's symbols and
/// resolved relationships.
pub fn detect_structure(symbols: &[Symbol], relationships: &[Relationship]) -> (r: (Vec<Community>, Vec<Process>))
    requires
        relationships@.len() <= usize::MAX / 32,
    ensures
        r.0.deep_view() == communities_of(
            call_pairs_of(relationships.deep_view()),
            uid_names_of(symbols.deep_view()),
        ),
        r.1.deep_view() == processes_of(
            weighted_calls_of(relationships.deep_view()),
            uid_names_of(symbols.deep_view()),
            membership_of(r.0.deep_view()),
            ProcessConfig { max_processes: processes_for(symbols@.len() as usize), ..default_config() },
        ),
{
    let edges = call_pairs(relationships);
    let names = uid_names(symbols);
    proof {
        lemma_call_pairs_len(relationships.deep_view());
    }
    let communities = detect_communities(edges.as_slice(), names.as_slice());
    let cmap = membership(communities.as_slice());
    let weighted = weighted_calls(relationships);
    proof {
        lemma_weighted_calls_len(relationships.deep_view());
    }
    let config = ProcessConfig::for_symbol_count(symbols.len());
    let processes = detect_processes(weighted.as_slice(), names.as_slice(), cmap.as_slice(), &config);
    (communities, processes)
}

proof fn lemma_call_pairs_len(rels: Seq<RelationshipV>)
    ensures
        call_pairs_of(rels).len() <= rels.len(),
    decreases rels.len(),
{
    if rels.len() > 0 {
        lemma_call_pairs_len(rels.drop_last());
    }
}

proof fn lemma_weighted_calls_len(rels: Seq<RelationshipV>)
    ensures
        weighted_calls_of(rels).len() <= rels.len(),
    decreases rels.len(),
{
    if rels.len() > 0 {
        lemma_weighted_calls_len(rels.drop_last());
    }
}

} // verus!
