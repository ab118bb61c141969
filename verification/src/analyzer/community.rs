//! Community detection: a simplified Louvain modularity optimisation over
//! the symbol graph, and heuristic labels from member names.

use vstd::prelude::*;
use crate::sorting::{sort_strings, sort_strs, strs_sorted};
use crate::text::{
    byte_len_at_least, char_is_uppercase, char_to_uppercase, char_uppercase, chars_of, is_uppercase, lowercase,
    lemma_lex_irreflexive, lemma_lex_total, lemma_lex_transitive, lex_lt, owned, push_char, str_eq, str_less, string_of,
    to_lowercase, utf8_len,
};

verus! {

// ─── Labels ─────────────────────────────────────────────────────────

/// Splitting state after a prefix of an identifier: finished words and the
/// word being built.
pub open spec fn split_state(s: Seq<char>) -> (Seq<Seq<char>>, Seq<char>)
    decreases s.len(),
{
    if s.len() == 0 {
        (Seq::empty(), Seq::empty())
    } else {
        let st = split_state(s.drop_last());
        let ch = s.last();
        if ch == '_' || ch == '-' {
            if st.1.len() > 0 {
                (st.0.push(st.1), Seq::empty())
            } else {
                st
            }
        } else if char_is_uppercase(ch) && st.1.len() > 0 {
            (st.0.push(st.1), seq![ch])
        } else {
            (st.0, st.1.push(ch))
        }
    }
}

/// Words of a camelCase / snake_case / kebab-case identifier.
pub open spec fn identifier_words(s: Seq<char>) -> Seq<Seq<char>> {
    let st = split_state(s);
    if st.1.len() > 0 {
        st.0.push(st.1)
    } else {
        st.0
    }
}

/// Split camelCase and snake_case into words.
pub fn split_identifier(name: &str) -> (r: Vec<String>)
    ensures
        r.deep_view() == identifier_words(name@),
{
    let v = chars_of(name);
    let mut words: Vec<String> = Vec::new();
    let mut current: Vec<char> = Vec::new();
    let mut i: usize = 0;
    while i < v.len()
        invariant
            i <= v@.len(),
            v@ == name@,
            (words.deep_view(), current@) == split_state(v@.take(i as int)),
        decreases v@.len() - i,
    {
        let ch = v[i];
        proof {
            assert(v@.take(i + 1).drop_last() =~= v@.take(i as int));
            assert(v@.take(i + 1).last() == ch);
        }
        let ghost before = words.deep_view();
        if ch == '_' || ch == '-' {
            if current.len() > 0 {
                let w = string_of(current.as_slice());
                words.push(w);
                current = Vec::new();
                proof {
                    assert(words.deep_view() =~= before.push(split_state(v@.take(i as int)).1));
                    assert(current@ =~= Seq::<char>::empty());
                }
            }
        } else if is_uppercase(ch) && current.len() > 0 {
            let w = string_of(current.as_slice());
            words.push(w);
            current = Vec::new();
            current.push(ch);
            proof {
                assert(words.deep_view() =~= before.push(split_state(v@.take(i as int)).1));
                assert(current@ =~= seq![ch]);
            }
        } else {
            current.push(ch);
        }
        i = i + 1;
    }
    proof {
        assert(v@.take(v@.len() as int) =~= v@);
    }
    if current.len() > 0 {
        let ghost before = words.deep_view();
        let w = string_of(current.as_slice());
        words.push(w);
        proof {
            assert(words.deep_view() =~= before.push(current@));
        }
    }
    words
}

/// Words too common to name a community.
pub open spec fn stop_word(w: Seq<char>) -> bool {
    w == "get"@ || w == "set"@ || w == "new"@ || w == "the"@ || w == "and"@ || w == "for"@ || w == "with"@
        || w == "from"@ || w == "this"@ || w == "that"@
}

/// Whether a (lower-case) word is too common to name a community.
pub fn is_stop_word(word: &str) -> (r: bool)
    ensures
        r == stop_word(word@),
{
    str_eq(word, "get") || str_eq(word, "set") || str_eq(word, "new") || str_eq(word, "the") || str_eq(word, "and")
        || str_eq(word, "for") || str_eq(word, "with") || str_eq(word, "from") || str_eq(word, "this")
        || str_eq(word, "that")
}

/// First character upper-cased (`char::to_uppercase`), the rest unchanged.
pub open spec fn capitalized(s: Seq<char>) -> Seq<char> {
    if s.len() == 0 {
        s
    } else {
        char_uppercase(s[0]) + s.drop_first()
    }
}

/// Upper-case the first character of a word.
pub fn capitalize(s: &str) -> (r: String)
    ensures
        r@ == capitalized(s@),
{
    let v = chars_of(s);
    if v.len() == 0 {
        return String::new();
    }
    let mut r = char_to_uppercase(v[0]);
    let mut i: usize = 1;
    while i < v.len()
        invariant
            1 <= i <= v@.len(),
            v@ == s@,
            r@ == char_uppercase(v@[0]) + v@.subrange(1, i as int),
        decreases v@.len() - i,
    {
        push_char(&mut r, v[i]);
        i = i + 1;
        proof {
            assert(r@ =~= char_uppercase(v@[0]) + v@.subrange(1, i as int));
        }
    }
    proof {
        assert(v@.subrange(1, v@.len() as int) =~= v@.drop_first());
    }
    r
}

/// The name listed for `uid` (the first pair with that UID).
pub open spec fn name_of(names: Seq<(Seq<char>, Seq<char>)>, uid: Seq<char>) -> Option<Seq<char>>
    decreases names.len(),
{
    if names.len() == 0 {
        None
    } else if names[0].0 == uid {
        Some(names[0].1)
    } else {
        name_of(names.drop_first(), uid)
    }
}

/// A word's lower-case form, when it is long enough (three bytes or more)
/// and not a stop word.
pub open spec fn keyword() -> spec_fn(Seq<char>) -> Option<Seq<char>> {
    |w: Seq<char>|
        {
            let l = lowercase(w);
            if utf8_len(l) >= 3 && !stop_word(l) {
                Some(l)
            } else {
                None
            }
        }
}

/// Keywords of the members' names, member after member.
pub open spec fn member_keywords(members: Seq<Seq<char>>, names: Seq<(Seq<char>, Seq<char>)>) -> Seq<Seq<char>>
    decreases members.len(),
{
    if members.len() == 0 {
        Seq::empty()
    } else {
        member_keywords(members.drop_last(), names) + match name_of(names, members.last()) {
            Some(n) => identifier_words(n).filter_map(keyword()),
            None => Seq::empty(),
        }
    }
}

/// One more occurrence of `w` in a tally of distinct words (first-occurrence order).
pub open spec fn tally_add(t: Seq<(Seq<char>, nat)>, w: Seq<char>) -> Seq<(Seq<char>, nat)>
    decreases t.len(),
{
    if t.len() == 0 {
        seq![(w, 1nat)]
    } else if t[0].0 == w {
        t.update(0, (w, t[0].1 + 1))
    } else {
        seq![t[0]] + tally_add(t.drop_first(), w)
    }
}

/// Distinct words with their numbers of occurrences, in first-occurrence order.
pub open spec fn tally(words: Seq<Seq<char>>) -> Seq<(Seq<char>, nat)>
    decreases words.len(),
{
    if words.len() == 0 {
        Seq::empty()
    } else {
        tally_add(tally(words.drop_last()), words.last())
    }
}

/// `a` ranks before `b`: more frequent, or as frequent and alphabetically first.
pub open spec fn ranks_before(a: (Seq<char>, nat), b: (Seq<char>, nat)) -> bool {
    a.1 > b.1 || (a.1 == b.1 && lex_lt(a.0, b.0))
}

/// Index of the top-ranked entry of a tally.
pub open spec fn top_index(t: Seq<(Seq<char>, nat)>) -> int
    decreases t.len(),
{
    if t.len() <= 1 {
        0
    } else {
        let i = top_index(t.drop_last());
        if ranks_before(t.last(), t[i]) {
            t.len() - 1
        } else {
            i
        }
    }
}

/// Label of a community: the two top-ranked keywords, capitalised and
/// joined, or `Unnamed` when the members' names give no keyword.
pub open spec fn community_label(members: Seq<Seq<char>>, names: Seq<(Seq<char>, Seq<char>)>) -> Seq<char> {
    let t = tally(member_keywords(members, names));
    if t.len() == 0 {
        "Unnamed"@
    } else {
        let b = top_index(t);
        let rest = t.remove(b);
        if rest.len() == 0 {
            capitalized(t[b].0)
        } else {
            capitalized(t[b].0) + capitalized(rest[top_index(rest)].0)
        }
    }
}

proof fn lemma_tally_add_at(t: Seq<(Seq<char>, nat)>, w: Seq<char>, k: int)
    requires
        0 <= k <= t.len(),
        forall|j: int| 0 <= j < k ==> (#[trigger] t[j]).0 != w,
        k < t.len() ==> t[k].0 == w,
    ensures
        tally_add(t, w) == if k < t.len() {
            t.update(k, (w, t[k].1 + 1))
        } else {
            t.push((w, 1nat))
        },
    decreases k,
{
    if k > 0 {
        let u = t.drop_first();
        assert forall|j: int| 0 <= j < k - 1 implies (#[trigger] u[j]).0 != w by {
            assert(u[j] == t[j + 1]);
        }
        if k < t.len() {
            assert(u[k - 1] == t[k]);
        }
        lemma_tally_add_at(u, w, k - 1);
        if k < t.len() {
            assert(t.update(k, (w, t[k].1 + 1)) =~= seq![t[0]] + u.update(k - 1, (w, u[k - 1].1 + 1)));
        } else {
            assert(t.push((w, 1nat)) =~= seq![t[0]] + u.push((w, 1nat)));
        }
    } else if t.len() == 0 {
        assert(t.push((w, 1nat)) =~= seq![(w, 1nat)]);
    }
}

/// Index of the top-ranked of `counts` (words `words`).
fn top_of(words: &Vec<String>, counts: &Vec<usize>) -> (r: usize)
    requires
        words@.len() == counts@.len(),
        words@.len() > 0,
    ensures
        r == top_index(tally_view(words, counts)),
        r < words@.len(),
{
    let ghost t = tally_view(words, counts);
    let mut best: usize = 0;
    let mut i: usize = 1;
    while i < words.len()
        invariant
            1 <= i <= words@.len(),
            words@.len() == counts@.len(),
            t == tally_view(words, counts),
            best < i,
            best == top_index(t.take(i as int)),
        decreases words@.len() - i,
    {
        proof {
            assert(t.take(i + 1).drop_last() =~= t.take(i as int));
            assert(t.take(i + 1).last() == t[i as int]);
            assert(t.take(i + 1)[best as int] == t[best as int]);
        }
        let better = counts[i] > counts[best] || (counts[i] == counts[best] && str_less(
            words[i].as_str(),
            words[best].as_str(),
        ));
        if better {
            best = i;
        }
        i = i + 1;
    }
    proof {
        assert(t.take(t.len() as int) =~= t);
    }
    best
}

/// A tally held as parallel lists of words and counts.
pub open spec fn tally_view(words: &Vec<String>, counts: &Vec<usize>) -> Seq<(Seq<char>, nat)> {
    Seq::new(words@.len(), |j: int| (words@[j]@, counts@[j] as nat))
}

/// Generate a heuristic label for a community based on common keywords in member names.
pub fn generate_label(member_uids: &[String], symbol_names: &[(String, String)]) -> (r: String)
    ensures
        r@ == community_label(member_uids.deep_view(), symbol_names.deep_view()),
{
    let ghost mv = member_uids.deep_view();
    let ghost nv = symbol_names.deep_view();
    // Keywords of all member names, in order.
    let mut keywords: Vec<String> = Vec::new();
    let mut m: usize = 0;
    while m < member_uids.len()
        invariant
            m <= mv.len(),
            mv == member_uids.deep_view(),
            nv == symbol_names.deep_view(),
            keywords.deep_view() == member_keywords(mv.take(m as int), nv),
        decreases mv.len() - m,
    {
        proof {
            assert(mv.take(m + 1).drop_last() =~= mv.take(m as int));
            assert(mv[m as int] == member_uids@[m as int]@);
        }
        let found = lookup_name(symbol_names, member_uids[m].as_str());
        match found {
            Some(k) => {
                let ws = split_identifier(symbol_names[k].1.as_str());
                let ghost wv = ws.deep_view();
                let ghost base = keywords.deep_view();
                let ghost f = keyword();
                let mut j: usize = 0;
                while j < ws.len()
                    invariant
                        j <= wv.len(),
                        wv == ws.deep_view(),
                        f == keyword(),
                        keywords.deep_view() == base + wv.take(j as int).filter_map(f),
                    decreases wv.len() - j,
                {
                    proof {
                        wv.lemma_filter_map_take_succ(f, j as int);
                        assert(wv[j as int] == ws@[j as int]@);
                    }
                    let lower = to_lowercase(ws[j].as_str());
                    if byte_len_at_least(lower.as_str(), 3) && !is_stop_word(lower.as_str()) {
                        let ghost before = keywords.deep_view();
                        keywords.push(lower);
                        proof {
                            assert(keywords.deep_view() =~= before.push(f(wv[j as int])->0));
                            assert(keywords.deep_view() =~= base + wv.take(j + 1).filter_map(f));
                        }
                    } else {
                        proof {
                            assert(keywords.deep_view() =~= base + wv.take(j + 1).filter_map(f));
                        }
                    }
                    j = j + 1;
                }
                proof {
                    assert(wv.take(wv.len() as int) =~= wv);
                }
            },
            None => {
                proof {
                    assert(keywords.deep_view() =~= member_keywords(mv.take(m + 1), nv));
                }
            },
        }
        m = m + 1;
    }
    proof {
        assert(mv.take(mv.len() as int) =~= mv);
    }
    // Tally.
    let ghost kv = keywords.deep_view();
    let mut words: Vec<String> = Vec::new();
    let mut counts: Vec<usize> = Vec::new();
    let mut j: usize = 0;
    while j < keywords.len()
        invariant
            j <= kv.len(),
            kv == keywords.deep_view(),
            words@.len() == counts@.len(),
            tally_view(&words, &counts) == tally(kv.take(j as int)),
            forall|q: int| 0 <= q < counts@.len() ==> counts@[q] <= j,
        decreases kv.len() - j,
    {
        proof {
            assert(kv.take(j + 1).drop_last() =~= kv.take(j as int));
            assert(kv[j as int] == keywords@[j as int]@);
        }
        let ghost t = tally_view(&words, &counts);
        match crate::text::position_in(&words, keywords[j].as_str()) {
            Some(k) => {
                proof {
                    lemma_tally_add_at(t, kv[j as int], k as int);
                }
                let c = counts[k] + 1;
                counts.set(k, c);
                proof {
                    assert(tally_view(&words, &counts) =~= t.update(k as int, (kv[j as int], t[k as int].1 + 1)));
                }
            },
            None => {
                proof {
                    lemma_tally_add_at(t, kv[j as int], t.len() as int);
                }
                words.push(keywords[j].clone());
                counts.push(1);
                proof {
                    assert(tally_view(&words, &counts) =~= t.push((kv[j as int], 1nat)));
                }
            },
        }
        j = j + 1;
    }
    proof {
        assert(kv.take(kv.len() as int) =~= kv);
    }
    let ghost t = tally_view(&words, &counts);
    if words.len() == 0 {
        proof {
            reveal_strlit("Unnamed");
        }
        return owned("Unnamed");
    }
    let b = top_of(&words, &counts);
    let mut label = capitalize(words[b].as_str());
    let ghost first = label@;
    words.remove(b);
    counts.remove(b);
    proof {
        assert(tally_view(&words, &counts) =~= t.remove(b as int));
    }
    if words.len() > 0 {
        let b2 = top_of(&words, &counts);
        let second = capitalize(words[b2].as_str());
        label.append(second.as_str());
    }
    label
}

/// Position of the first pair listed for `uid`.
pub(crate) fn lookup_name(names: &[(String, String)], uid: &str) -> (r: Option<usize>)
    ensures
        match r {
            Some(k) => k < names@.len() && name_of(names.deep_view(), uid@) == Some(names@[k as int].1@),
            None => name_of(names.deep_view(), uid@) == None::<Seq<char>>,
        },
{
    let ghost nv = names.deep_view();
    let mut k: usize = 0;
    proof {
        assert(nv.skip(0) =~= nv);
    }
    while k < names.len()
        invariant
            k <= nv.len(),
            nv == names.deep_view(),
            name_of(nv, uid@) == name_of(nv.skip(k as int), uid@),
        decreases nv.len() - k,
    {
        proof {
            assert(nv.skip(k as int).drop_first() =~= nv.skip(k + 1));
            assert(nv.skip(k as int)[0] == nv[k as int]);
            assert(nv[k as int] == names@[k as int].deep_view());
        }
        if str_eq(names[k].0.as_str(), uid) {
            return Some(k);
        }
        k = k + 1;
    }
    proof {
        assert(nv.skip(k as int) =~= Seq::<(Seq<char>, Seq<char>)>::empty());
    }
    None
}

// ─── Graph of the edges ─────────────────────────────────────────────

/// Both endpoints of every edge, edge after edge.
pub open spec fn endpoints(ev: Seq<(Seq<char>, Seq<char>)>) -> Seq<Seq<char>>
    decreases ev.len(),
{
    if ev.len() == 0 {
        Seq::empty()
    } else {
        endpoints(ev.drop_last()).push(ev.last().0).push(ev.last().1)
    }
}

/// `s` without adjacent repetitions.
pub open spec fn dedup_adjacent(s: Seq<Seq<char>>) -> Seq<Seq<char>>
    decreases s.len(),
{
    if s.len() == 0 {
        s
    } else {
        let r = dedup_adjacent(s.drop_last());
        if r.len() > 0 && r.last() == s.last() {
            r
        } else {
            r.push(s.last())
        }
    }
}

/// The nodes of the graph: distinct endpoints in ascending order.
pub open spec fn graph_nodes(ev: Seq<(Seq<char>, Seq<char>)>) -> Seq<Seq<char>> {
    dedup_adjacent(sort_strs(endpoints(ev)))
}

/// Position of the first occurrence of `x` in `s` (`s.len()` when absent).
pub open spec fn pos_of(s: Seq<Seq<char>>, x: Seq<char>) -> int
    decreases s.len(),
{
    if s.len() == 0 {
        0
    } else if s[0] == x {
        0
    } else {
        1 + pos_of(s.drop_first(), x)
    }
}

/// The edges as pairs of node positions.
pub open spec fn index_edges(ev: Seq<(Seq<char>, Seq<char>)>, nodes: Seq<Seq<char>>) -> Seq<(usize, usize)> {
    ev.map_values(|e: (Seq<char>, Seq<char>)| (pos_of(nodes, e.0) as usize, pos_of(nodes, e.1) as usize))
}

/// Strictly ascending.
pub open spec fn strictly_sorted(s: Seq<Seq<char>>) -> bool {
    forall|i: int, j: int| 0 <= i < j < s.len() ==> lex_lt(#[trigger] s[i], #[trigger] s[j])
}

proof fn lemma_pos_of(s: Seq<Seq<char>>, x: Seq<char>, p: int)
    requires
        0 <= p < s.len(),
        s[p] == x,
        forall|i: int| 0 <= i < p ==> s[i] != x,
    ensures
        pos_of(s, x) == p,
    decreases p,
{
    if p > 0 {
        let t = s.drop_first();
        assert forall|i: int| 0 <= i < p - 1 implies t[i] != x by {
            assert(t[i] == s[i + 1]);
        }
        lemma_pos_of(t, x, p - 1);
    }
}

/// Both endpoints of every edge.
fn collect_endpoints(edges: &[(String, String)]) -> (r: Vec<String>)
    ensures
        r.deep_view() == endpoints(edges.deep_view()),
{
    let ghost ev = edges.deep_view();
    let mut r: Vec<String> = Vec::new();
    let mut k: usize = 0;
    while k < edges.len()
        invariant
            k <= ev.len(),
            ev == edges.deep_view(),
            r.deep_view() == endpoints(ev.take(k as int)),
        decreases ev.len() - k,
    {
        proof {
            assert(ev.take(k + 1).drop_last() =~= ev.take(k as int));
            assert(ev[k as int] == edges@[k as int].deep_view());
        }
        let ghost before = r.deep_view();
        r.push(edges[k].0.clone());
        r.push(edges[k].1.clone());
        proof {
            assert(r.deep_view() =~= before.push(ev[k as int].0).push(ev[k as int].1));
        }
        k = k + 1;
    }
    proof {
        assert(ev.take(ev.len() as int) =~= ev);
    }
    r
}

/// Removes adjacent repetitions from an ascending list: the result is
/// strictly ascending and holds every value of the input.
fn dedup_sorted(s: &Vec<String>) -> (r: Vec<String>)
    requires
        crate::sorting::strs_sorted(s.deep_view()),
    ensures
        r.deep_view() == dedup_adjacent(s.deep_view()),
        strictly_sorted(r.deep_view()),
        forall|q: int| 0 <= q < s@.len() ==> r.deep_view().contains(#[trigger] s.deep_view()[q]),
{
    let ghost sv = s.deep_view();
    let mut r: Vec<String> = Vec::new();
    let mut k: usize = 0;
    while k < s.len()
        invariant
            k <= sv.len(),
            sv == s.deep_view(),
            crate::sorting::strs_sorted(sv),
            r.deep_view() == dedup_adjacent(sv.take(k as int)),
            strictly_sorted(r.deep_view()),
            k > 0 ==> r@.len() > 0 && r.deep_view().last() == sv[k - 1],
            forall|q: int| 0 <= q < k ==> r.deep_view().contains(#[trigger] sv[q]),
        decreases sv.len() - k,
    {
        proof {
            assert(sv.take(k + 1).drop_last() =~= sv.take(k as int));
            assert(sv[k as int] == s@[k as int]@);
        }
        let ghost rv = r.deep_view();
        let same = r.len() > 0 && str_eq(r[r.len() - 1].as_str(), s[k].as_str());
        if !same {
            r.push(s[k].clone());
            proof {
                assert(r.deep_view() =~= rv.push(sv[k as int]));
                if k > 0 {
                    assert(rv.last() == sv[k - 1]);
                    assert(!lex_lt(sv[k as int], sv[k - 1]));
                    crate::text::lemma_lex_total(sv[k - 1], sv[k as int]);
                    assert forall|i: int, j: int| 0 <= i < j < r.deep_view().len() implies lex_lt(#[trigger] r.deep_view()[i], #[trigger] r.deep_view()[j]) by {
                        if j == rv.len() {
                            if i < rv.len() - 1 {
                                crate::text::lemma_lex_transitive(rv[i], rv.last(), sv[k as int]);
                            }
                        }
                    }
                }
                assert forall|q: int| 0 <= q < k + 1 implies r.deep_view().contains(#[trigger] sv[q]) by {
                    if q < k {
                        let x = choose|x: int| 0 <= x < rv.len() && rv[x] == sv[q];
                        assert(r.deep_view()[x] == sv[q]);
                    } else {
                        assert(r.deep_view()[rv.len() as int] == sv[q]);
                    }
                }
            }
        } else {
            proof {
                assert(rv.last() == sv[k as int]);
            }
        }
        k = k + 1;
    }
    proof {
        assert(sv.take(sv.len() as int) =~= sv);
    }
    r
}

/// Position of `x` in a strictly ascending list that holds it.
fn find_node(nodes: &Vec<String>, x: &str) -> (r: usize)
    requires
        strictly_sorted(nodes.deep_view()),
        nodes.deep_view().contains(x@),
    ensures
        r == pos_of(nodes.deep_view(), x@),
        r < nodes@.len(),
        nodes.deep_view()[r as int] == x@,
{
    let ghost nv = nodes.deep_view();
    let mut lo: usize = 0;
    let mut hi: usize = nodes.len();
    while lo < hi
        invariant
            lo <= hi <= nv.len(),
            nv == nodes.deep_view(),
            strictly_sorted(nv),
            forall|i: int| 0 <= i < lo ==> lex_lt(#[trigger] nv[i], x@),
            forall|i: int| hi <= i < nv.len() ==> !lex_lt(#[trigger] nv[i], x@),
        decreases hi - lo,
    {
        let mid = lo + (hi - lo) / 2;
        proof {
            assert(nv[mid as int] == nodes@[mid as int]@);
        }
        if str_less(nodes[mid].as_str(), x) {
            proof {
                assert forall|i: int| 0 <= i < mid + 1 implies lex_lt(#[trigger] nv[i], x@) by {
                    if i < mid {
                        crate::text::lemma_lex_transitive(nv[i], nv[mid as int], x@);
                    }
                }
            }
            lo = mid + 1;
        } else {
            proof {
                assert forall|i: int| mid <= i < nv.len() implies !lex_lt(#[trigger] nv[i], x@) by {
                    if i > mid && lex_lt(nv[i], x@) {
                        crate::text::lemma_lex_transitive(nv[mid as int], nv[i], x@);
                    }
                }
            }
            hi = mid;
        }
    }
    proof {
        let p = choose|p: int| 0 <= p < nv.len() && nv[p] == x@;
        crate::text::lemma_lex_irreflexive(x@);
        if p < lo {
            assert(lex_lt(nv[p], x@));
        }
        if p > lo {
            assert(lex_lt(nv[lo as int], nv[p]));
        }
        assert(p == lo);
        assert forall|i: int| 0 <= i < p implies nv[i] != x@ by {
            assert(lex_lt(nv[i], nv[p]));
        }
        lemma_pos_of(nv, x@, p);
    }
    lo
}

/// The nodes of the graph and its edges as node positions.
pub(crate) fn index_graph(edges: &[(String, String)]) -> (r: (Vec<String>, Vec<(usize, usize)>))
    ensures
        r.0.deep_view() == graph_nodes(edges.deep_view()),
        r.1@ == index_edges(edges.deep_view(), r.0.deep_view()),
        strictly_sorted(r.0.deep_view()),
        forall|k: int| 0 <= k < r.1@.len() ==> (#[trigger] r.1@[k]).0 < r.0@.len() && r.1@[k].1 < r.0@.len(),
        r.0@.len() <= 2 * edges@.len(),
{
    let ghost ev = edges.deep_view();
    let ends = collect_endpoints(edges);
    let sorted = sort_strings(&ends);
    proof {
        crate::sorting::lemma_sort_strs(ends.deep_view());
    }
    let nodes = dedup_sorted(&sorted);
    let ghost nv = nodes.deep_view();
    proof {
        lemma_dedup_len(sorted.deep_view());
        lemma_endpoints_len(ev);
        assert(sorted.deep_view().to_multiset().len() == sorted.deep_view().len()) by {
            broadcast use vstd::seq_lib::group_to_multiset_ensures;
        }
        assert(ends.deep_view().to_multiset().len() == ends.deep_view().len()) by {
            broadcast use vstd::seq_lib::group_to_multiset_ensures;
        }
    }
    proof {
        broadcast use vstd::seq_lib::group_to_multiset_ensures;
        let epv = ends.deep_view();
        let srt = sorted.deep_view();
        assert forall|q: int| 0 <= q < epv.len() implies nv.contains(#[trigger] epv[q]) by {
            assert(epv.to_multiset().count(epv[q]) > 0);
            assert(srt.to_multiset().count(epv[q]) > 0);
            assert(srt.contains(epv[q]));
            let x = choose|x: int| 0 <= x < srt.len() && srt[x] == epv[q];
            assert(nv.contains(srt[x]));
        }
    }
    let mut ie: Vec<(usize, usize)> = Vec::new();
    let mut k: usize = 0;
    while k < edges.len()
        invariant
            k <= ev.len(),
            ev == edges.deep_view(),
            nv == nodes.deep_view(),
            strictly_sorted(nv),
            ends.deep_view() == endpoints(ev),
            forall|q: int| 0 <= q < ends.deep_view().len() ==> nv.contains(#[trigger] ends.deep_view()[q]),
            ie@ == index_edges(ev.take(k as int), nv),
            forall|q: int| 0 <= q < ie@.len() ==> (#[trigger] ie@[q]).0 < nv.len() && ie@[q].1 < nv.len(),
        decreases ev.len() - k,
    {
        proof {
            assert(ev[k as int] == edges@[k as int].deep_view());
            lemma_endpoints_at(ev, k as int);
        }
        let s = find_node(&nodes, edges[k].0.as_str());
        let t = find_node(&nodes, edges[k].1.as_str());
        ie.push((s, t));
        proof {
            assert(ev.take(k + 1) =~= ev.take(k as int).push(ev[k as int]));
            assert(ie@ =~= index_edges(ev.take(k + 1), nv));
        }
        k = k + 1;
    }
    proof {
        assert(ev.take(ev.len() as int) =~= ev);
    }
    (nodes, ie)
}

proof fn lemma_endpoints_at(ev: Seq<(Seq<char>, Seq<char>)>, k: int)
    requires
        0 <= k < ev.len(),
    ensures
        endpoints(ev).len() == 2 * ev.len(),
        endpoints(ev)[2 * k] == ev[k].0,
        endpoints(ev)[2 * k + 1] == ev[k].1,
    decreases ev.len(),
{
    if k < ev.len() - 1 {
        lemma_endpoints_at(ev.drop_last(), k);
    } else if ev.len() > 1 {
        lemma_endpoints_at(ev.drop_last(), 0);
    } else {
        assert(endpoints(ev.drop_last()) =~= Seq::<Seq<char>>::empty());
    }
}

/// Neighbours of node `v`, edge after edge: the target when `v` is the
/// source, then the source when `v` is the target.
pub open spec fn neighbours(ie: Seq<(usize, usize)>, v: usize) -> Seq<usize>
    decreases ie.len(),
{
    if ie.len() == 0 {
        Seq::empty()
    } else {
        let e = ie.last();
        let a = neighbours(ie.drop_last(), v);
        let a1 = if e.0 == v {
            a.push(e.1)
        } else {
            a
        };
        if e.1 == v {
            a1.push(e.0)
        } else {
            a1
        }
    }
}

/// Adjacency lists of nodes `0..n`.
pub open spec fn adjacency(ie: Seq<(usize, usize)>, n: nat) -> Seq<Seq<usize>> {
    Seq::new(n, |v: int| neighbours(ie, v as usize))
}

/// Sum of the degrees of nodes `0..n`.
pub open spec fn total_degree(adj: Seq<Seq<usize>>, n: int) -> nat
    decreases n,
{
    if n <= 0 {
        0
    } else {
        total_degree(adj, n - 1) + adj[n - 1].len()
    }
}

proof fn lemma_total_degree_update(adj: Seq<Seq<usize>>, i: int, x: Seq<usize>, n: int)
    requires
        0 <= i < adj.len(),
        0 <= n <= adj.len(),
    ensures
        total_degree(adj.update(i, x), n) == if i < n {
            total_degree(adj, n) - adj[i].len() + x.len()
        } else {
            total_degree(adj, n) as int
        },
    decreases n,
{
    if n > 0 {
        lemma_total_degree_update(adj, i, x, n - 1);
    }
}

/// Adjacency lists of the index edges over `n` nodes; their lengths add up
/// to twice the number of edges.
fn build_adjacency(ie: &Vec<(usize, usize)>, n: usize) -> (adj: Vec<Vec<usize>>)
    requires
        forall|k: int| 0 <= k < ie@.len() ==> (#[trigger] ie@[k]).0 < n && ie@[k].1 < n,
    ensures
        adj@.len() == n,
        forall|v: int| 0 <= v < n ==> (#[trigger] adj@[v])@ == neighbours(ie@, v as usize),
        total_degree(adj@.map_values(|a: Vec<usize>| a@), n as int) == 2 * ie@.len(),
{
    let mut adj: Vec<Vec<usize>> = Vec::new();
    let mut v: usize = 0;
    while v < n
        invariant
            v <= n,
            adj@.len() == v,
            forall|u: int| 0 <= u < v ==> (#[trigger] adj@[u])@ == Seq::<usize>::empty(),
        decreases n - v,
    {
        adj.push(Vec::new());
        v = v + 1;
    }
    proof {
        let av = adj@.map_values(|a: Vec<usize>| a@);
        assert forall|m: int| 0 <= m <= n implies total_degree(av, m) == 0 by {
            lemma_total_degree_zero(av, m);
        }
    }
    let mut k: usize = 0;
    while k < ie.len()
        invariant
            k <= ie@.len(),
            adj@.len() == n,
            forall|q: int| 0 <= q < ie@.len() ==> (#[trigger] ie@[q]).0 < n && ie@[q].1 < n,
            forall|u: int| 0 <= u < n ==> (#[trigger] adj@[u])@ == neighbours(ie@.take(k as int), u as usize),
            total_degree(adj@.map_values(|a: Vec<usize>| a@), n as int) == 2 * k,
        decreases ie@.len() - k,
    {
        let (s, t) = ie[k];
        let ghost a0 = adj@.map_values(|a: Vec<usize>| a@);
        adj[s].push(t);
        let ghost a1 = adj@.map_values(|a: Vec<usize>| a@);
        proof {
            assert(a1 =~= a0.update(s as int, a0[s as int].push(t)));
            lemma_total_degree_update(a0, s as int, a0[s as int].push(t), n as int);
        }
        adj[t].push(s);
        proof {
            let a2 = adj@.map_values(|a: Vec<usize>| a@);
            assert(a2 =~= a1.update(t as int, a1[t as int].push(s)));
            lemma_total_degree_update(a1, t as int, a1[t as int].push(s), n as int);
            assert(ie@.take(k + 1).drop_last() =~= ie@.take(k as int));
            assert(ie@.take(k + 1).last() == (s, t));
            assert forall|u: int| 0 <= u < n implies (#[trigger] adj@[u])@ == neighbours(ie@.take(k + 1), u as usize) by {
                assert(a2[u] == adj@[u]@);
                assert(a1[u] == a1[u]);
            }
        }
        k = k + 1;
    }
    proof {
        assert(ie@.take(ie@.len() as int) =~= ie@);
    }
    adj
}

proof fn lemma_total_degree_zero(adj: Seq<Seq<usize>>, m: int)
    requires
        0 <= m <= adj.len(),
        forall|u: int| 0 <= u < m ==> (#[trigger] adj[u]).len() == 0,
    ensures
        total_degree(adj, m) == 0,
    decreases m,
{
    if m > 0 {
        lemma_total_degree_zero(adj, m - 1);
    }
}

// ─── Louvain phase one ──────────────────────────────────────────────

/// Number of neighbours (with repetition) that lie in community `c`.
pub open spec fn links_to(nb: Seq<usize>, comm: Seq<usize>, c: usize) -> nat
    decreases nb.len(),
{
    if nb.len() == 0 {
        0
    } else {
        links_to(nb.drop_last(), comm, c) + if comm[nb.last() as int] == c {
            1nat
        } else {
            0nat
        }
    }
}

/// Sum of the degrees of the nodes among `0..n` in community `c`.
pub open spec fn comm_degree(adj: Seq<Seq<usize>>, comm: Seq<usize>, c: usize, n: int) -> nat
    decreases n,
{
    if n <= 0 {
        0
    } else {
        comm_degree(adj, comm, c, n - 1) + if comm[n - 1] == c {
            adj[n - 1].len()
        } else {
            0
        }
    }
}

/// Modularity gain of moving node `v` into community `c`, scaled by the
/// square of `m2` (twice the number of edges):
/// `(k_in(c) - k_in(cur))·m2 + k·(Σ(cur) - Σ(c) - k)`.
pub open spec fn move_gain(adj: Seq<Seq<usize>>, comm: Seq<usize>, v: usize, c: usize, m2: int) -> int {
    let nb = adj[v as int];
    let deg = nb.len() as int;
    let cur = comm[v as int];
    let n = adj.len() as int;
    (links_to(nb, comm, c) - links_to(nb, comm, cur)) * m2 + deg * (comm_degree(adj, comm, cur, n) - comm_degree(
        adj,
        comm,
        c,
        n,
    ) - deg)
}

/// Best community for node `v` among the neighbouring communities below
/// `upto`, with its gain: the largest gain, ties to the smaller community;
/// staying put counts as gain 0.
pub open spec fn best_move(adj: Seq<Seq<usize>>, comm: Seq<usize>, v: usize, m2: int, upto: nat) -> (usize, int)
    decreases upto,
{
    if upto == 0 {
        (comm[v as int], 0)
    } else {
        let b = best_move(adj, comm, v, m2, (upto - 1) as nat);
        let c = (upto - 1) as usize;
        let g = move_gain(adj, comm, v, c, m2);
        if c != comm[v as int] && links_to(adj[v as int], comm, c) > 0 && (g > b.1 || (g == b.1 && c < b.0)) {
            (c, g)
        } else {
            b
        }
    }
}

/// One sweep over nodes `0..upto`, each moved to its best community in
/// turn; also whether any node moved.
pub open spec fn sweep(adj: Seq<Seq<usize>>, comm: Seq<usize>, m2: int, upto: nat) -> (Seq<usize>, bool)
    decreases upto,
{
    if upto == 0 {
        (comm, false)
    } else {
        let p = sweep(adj, comm, m2, (upto - 1) as nat);
        let v = (upto - 1) as usize;
        let b = best_move(adj, p.0, v, m2, adj.len());
        if b.0 != p.0[v as int] {
            (p.0.update(v as int, b.0), true)
        } else {
            p
        }
    }
}

/// Sweeps until one moves no node, at most `rounds` of them.
pub open spec fn louvain(adj: Seq<Seq<usize>>, comm: Seq<usize>, m2: int, rounds: nat) -> Seq<usize>
    decreases rounds,
{
    if rounds == 0 {
        comm
    } else {
        let p = sweep(adj, comm, m2, adj.len());
        if p.1 {
            louvain(adj, p.0, m2, (rounds - 1) as nat)
        } else {
            p.0
        }
    }
}

/// Every node in its own community.
pub open spec fn singletons(n: nat) -> Seq<usize> {
    Seq::new(n, |v: int| v as usize)
}

proof fn lemma_links_bound(nb: Seq<usize>, comm: Seq<usize>, c: usize)
    ensures
        links_to(nb, comm, c) <= nb.len(),
    decreases nb.len(),
{
    if nb.len() > 0 {
        lemma_links_bound(nb.drop_last(), comm, c);
    }
}

proof fn lemma_comm_degree_bound(adj: Seq<Seq<usize>>, comm: Seq<usize>, c: usize, n: int)
    ensures
        comm_degree(adj, comm, c, n) <= total_degree(adj, n),
    decreases n,
{
    if n > 0 {
        lemma_comm_degree_bound(adj, comm, c, n - 1);
    }
}

proof fn lemma_degree_le_total(adj: Seq<Seq<usize>>, v: int, n: int)
    requires
        0 <= v < n,
    ensures
        adj[v].len() <= total_degree(adj, n),
    decreases n,
{
    if v < n - 1 {
        lemma_degree_le_total(adj, v, n - 1);
    }
}

/// `n` zeros.
fn zeros(n: usize) -> (r: Vec<usize>)
    ensures
        r@ == Seq::new(n as nat, |i: int| 0usize),
{
    let mut r: Vec<usize> = Vec::new();
    let mut i: usize = 0;
    while i < n
        invariant
            i <= n,
            r@ == Seq::new(i as nat, |j: int| 0usize),
        decreases n - i,
    {
        r.push(0);
        i = i + 1;
        proof {
            assert(r@ =~= Seq::new(i as nat, |j: int| 0usize));
        }
    }
    r
}

/// The best community for node `v` (its own when no move gains).
fn best_community(adj: &Vec<Vec<usize>>, comm: &Vec<usize>, v: usize, m2: usize) -> (r: usize)
    requires
        v < adj@.len(),
        comm@.len() == adj@.len(),
        forall|u: int| 0 <= u < comm@.len() ==> (#[trigger] comm@[u]) < adj@.len(),
        forall|u: int, j: int| 0 <= u < adj@.len() && 0 <= j < adj@[u]@.len() ==> (#[trigger] adj@[u]@[j]) < adj@.len(),
        total_degree(adj@.map_values(|a: Vec<usize>| a@), adj@.len() as int) == m2,
        m2 <= 0x1000_0000_0000_0000,
    ensures
        r == best_move(adj@.map_values(|a: Vec<usize>| a@), comm@, v, m2 as int, adj@.len()).0,
        r < adj@.len(),
{
    let ghost av = adj@.map_values(|a: Vec<usize>| a@);
    let n = adj.len();
    let nb = &adj[v];
    proof {
        assert(av[v as int] == nb@);
        lemma_degree_le_total(av, v as int, n as int);
    }
    // Links from v to each community.
    let mut ki = zeros(n);
    let mut j: usize = 0;
    while j < nb.len()
        invariant
            j <= nb@.len(),
            ki@.len() == n,
            n == adj@.len(),
            v < n,
            av == adj@.map_values(|a: Vec<usize>| a@),
            nb@ == av[v as int],
            comm@.len() == n,
            forall|u: int| 0 <= u < comm@.len() ==> (#[trigger] comm@[u]) < n,
            forall|q: int| 0 <= q < nb@.len() ==> (#[trigger] nb@[q]) < n,
            forall|c: int| 0 <= c < n ==> (#[trigger] ki@[c]) == links_to(nb@.take(j as int), comm@, c as usize),
            forall|c: int| 0 <= c < n ==> (#[trigger] ki@[c]) <= j,
        decreases nb@.len() - j,
    {
        proof {
            assert(nb@.take(j + 1).drop_last() =~= nb@.take(j as int));
            assert(nb@.take(j + 1).last() == nb@[j as int]);
            assert(av[v as int][j as int] == nb@[j as int]);
        }
        let cc = comm[nb[j]];
        let x = ki[cc] + 1;
        ki.set(cc, x);
        j = j + 1;
    }
    proof {
        assert(nb@.take(nb@.len() as int) =~= nb@);
    }
    // Degree sum of each community.
    let mut sig = zeros(n);
    let mut u: usize = 0;
    while u < n
        invariant
            u <= n,
            n == adj@.len(),
            sig@.len() == n,
            comm@.len() == n,
            av == adj@.map_values(|a: Vec<usize>| a@),
            forall|w: int| 0 <= w < comm@.len() ==> (#[trigger] comm@[w]) < n,
            total_degree(av, n as int) == m2,
            m2 <= 0x1000_0000_0000_0000,
            forall|c: int| 0 <= c < n ==> (#[trigger] sig@[c]) == comm_degree(av, comm@, c as usize, u as int),
        decreases n - u,
    {
        let cc = comm[u];
        proof {
            assert(av[u as int] == adj@[u as int]@);
            lemma_comm_degree_bound(av, comm@, cc, u as int + 1);
            lemma_total_prefix(av, u as int + 1, n as int);
        }
        let x = sig[cc] + adj[u].len();
        sig.set(cc, x);
        u = u + 1;
    }
    // Fold over candidate communities in ascending order.
    let cur = comm[v];
    let deg = nb.len() as i128;
    let m = m2 as i128;
    let mut best = cur;
    let mut best_gain: i128 = 0;
    let mut c: usize = 0;
    proof {
        lemma_comm_degree_bound(av, comm@, cur, n as int);
    }
    while c < n
        invariant
            c <= n,
            n == adj@.len(),
            av == adj@.map_values(|a: Vec<usize>| a@),
            nb@ == av[v as int],
            v < n,
            cur == comm@[v as int],
            ki@.len() == n,
            sig@.len() == n,
            comm@.len() == n,
            deg == nb@.len(),
            m == m2,
            deg <= m2,
            total_degree(av, n as int) == m2,
            m2 <= 0x1000_0000_0000_0000,
            forall|w: int| 0 <= w < comm@.len() ==> (#[trigger] comm@[w]) < n,
            forall|q: int| 0 <= q < n ==> (#[trigger] ki@[q]) == links_to(nb@, comm@, q as usize),
            forall|q: int| 0 <= q < n ==> (#[trigger] ki@[q]) <= nb@.len(),
            forall|q: int| 0 <= q < n ==> (#[trigger] sig@[q]) == comm_degree(av, comm@, q as usize, n as int),
            (best, best_gain as int) == best_move(av, comm@, v, m2 as int, c as nat),
            best < n,
        decreases n - c,
    {
        proof {
            lemma_comm_degree_bound(av, comm@, c, n as int);
        }
        if c != cur && ki[c] > 0 {
            let d1 = ki[c] as i128 - ki[cur] as i128;
            let d2 = sig[cur] as i128 - sig[c] as i128 - deg;
            proof {
                lemma_comm_degree_bound(av, comm@, cur, n as int);
                assert(-0x1000_0000_0000_0000 * 0x1000_0000_0000_0000 <= d1 * m <= 0x1000_0000_0000_0000
                    * 0x1000_0000_0000_0000) by (nonlinear_arith)
                    requires
                        -0x1000_0000_0000_0000 <= d1 <= 0x1000_0000_0000_0000,
                        0 <= m <= 0x1000_0000_0000_0000,
                ;
                assert(-2 * 0x1000_0000_0000_0000 * 0x1000_0000_0000_0000 <= deg * d2 <= 2 * 0x1000_0000_0000_0000
                    * 0x1000_0000_0000_0000) by (nonlinear_arith)
                    requires
                        -2 * 0x1000_0000_0000_0000 <= d2 <= 2 * 0x1000_0000_0000_0000,
                        0 <= deg <= 0x1000_0000_0000_0000,
                ;
            }
            let g = d1 * m + deg * d2;
            proof {
                assert(g == move_gain(av, comm@, v, c, m2 as int));
            }
            if g > best_gain || (g == best_gain && c < best) {
                best = c;
                best_gain = g;
            }
        }
        c = c + 1;
    }
    best
}

proof fn lemma_total_prefix(adj: Seq<Seq<usize>>, a: int, b: int)
    requires
        0 <= a <= b,
    ensures
        total_degree(adj, a) <= total_degree(adj, b),
    decreases b,
{
    if a < b {
        lemma_total_prefix(adj, a, b - 1);
    }
}

/// One sweep: each node in turn moves to its best community.
fn sweep_once(adj: &Vec<Vec<usize>>, comm: &mut Vec<usize>, m2: usize) -> (moved: bool)
    requires
        old(comm)@.len() == adj@.len(),
        forall|u: int| 0 <= u < old(comm)@.len() ==> (#[trigger] old(comm)@[u]) < adj@.len(),
        forall|u: int, j: int| 0 <= u < adj@.len() && 0 <= j < adj@[u]@.len() ==> (#[trigger] adj@[u]@[j]) < adj@.len(),
        total_degree(adj@.map_values(|a: Vec<usize>| a@), adj@.len() as int) == m2,
        m2 <= 0x1000_0000_0000_0000,
    ensures
        (final(comm)@, moved) == sweep(adj@.map_values(|a: Vec<usize>| a@), old(comm)@, m2 as int, adj@.len()),
        final(comm)@.len() == adj@.len(),
        forall|u: int| 0 <= u < final(comm)@.len() ==> (#[trigger] final(comm)@[u]) < adj@.len(),
{
    let ghost av = adj@.map_values(|a: Vec<usize>| a@);
    let ghost c0 = comm@;
    let mut moved = false;
    let mut v: usize = 0;
    while v < adj.len()
        invariant
            v <= adj@.len(),
            av == adj@.map_values(|a: Vec<usize>| a@),
            c0 == old(comm)@,
            comm@.len() == adj@.len(),
            forall|u: int| 0 <= u < comm@.len() ==> (#[trigger] comm@[u]) < adj@.len(),
            forall|u: int, j: int| 0 <= u < adj@.len() && 0 <= j < adj@[u]@.len() ==> (#[trigger] adj@[u]@[j]) < adj@.len(),
            total_degree(av, adj@.len() as int) == m2,
            m2 <= 0x1000_0000_0000_0000,
            (comm@, moved) == sweep(av, c0, m2 as int, v as nat),
        decreases adj@.len() - v,
    {
        let b = best_community(adj, comm, v, m2);
        if b != comm[v] {
            comm.set(v, b);
            moved = true;
        }
        v = v + 1;
    }
    moved
}

/// Community of every node after phase one: sweeps until nothing moves,
/// at most twenty of them.
fn louvain_communities(adj: &Vec<Vec<usize>>, m2: usize) -> (comm: Vec<usize>)
    requires
        forall|u: int, j: int| 0 <= u < adj@.len() && 0 <= j < adj@[u]@.len() ==> (#[trigger] adj@[u]@[j]) < adj@.len(),
        total_degree(adj@.map_values(|a: Vec<usize>| a@), adj@.len() as int) == m2,
        m2 <= 0x1000_0000_0000_0000,
    ensures
        comm@ == louvain(adj@.map_values(|a: Vec<usize>| a@), singletons(adj@.len()), m2 as int, 20),
        forall|u: int| 0 <= u < comm@.len() ==> (#[trigger] comm@[u]) < adj@.len(),
        comm@.len() == adj@.len(),
{
    let ghost av = adj@.map_values(|a: Vec<usize>| a@);
    let ghost target = louvain(av, singletons(adj@.len()), m2 as int, 20);
    let mut comm: Vec<usize> = Vec::new();
    let mut i: usize = 0;
    while i < adj.len()
        invariant
            i <= adj@.len(),
            comm@ == singletons(i as nat),
        decreases adj@.len() - i,
    {
        comm.push(i);
        i = i + 1;
        proof {
            assert(comm@ =~= singletons(i as nat));
        }
    }
    let mut improved = true;
    let mut iterations: usize = 0;
    while improved && iterations < 20
        invariant
            iterations <= 20,
            av == adj@.map_values(|a: Vec<usize>| a@),
            target == louvain(av, singletons(adj@.len()), m2 as int, 20),
            comm@.len() == adj@.len(),
            forall|u: int| 0 <= u < comm@.len() ==> (#[trigger] comm@[u]) < adj@.len(),
            forall|u: int, j: int| 0 <= u < adj@.len() && 0 <= j < adj@[u]@.len() ==> (#[trigger] adj@[u]@[j]) < adj@.len(),
            total_degree(av, adj@.len() as int) == m2,
            m2 <= 0x1000_0000_0000_0000,
            (if improved {
                louvain(av, comm@, m2 as int, (20 - iterations) as nat)
            } else {
                comm@
            }) == target,
        decreases 20 - iterations,
    {
        iterations = iterations + 1;
        improved = sweep_once(adj, &mut comm, m2);
    }
    comm
}

// ─── Communities ────────────────────────────────────────────────────

/// A detected community (cluster) of symbols. Its cohesion is
/// `internal_edges / possible_edges` (0 when no pair is possible).
#[derive(Debug)]
pub struct Community {
    pub id: usize,
    pub label: String,
    /// Symbol UIDs, ascending.
    pub members: Vec<String>,
    /// Edges with both ends in the community.
    pub internal_edges: usize,
    /// Pairs of members, `n·(n-1)/2`.
    pub possible_edges: u128,
}

/// Mathematical view of a [`Community`].
pub struct CommunityV {
    pub id: usize,
    pub label: Seq<char>,
    pub members: Seq<Seq<char>>,
    pub internal_edges: usize,
    pub possible_edges: u128,
}

impl View for Community {
    type V = CommunityV;

    open spec fn view(&self) -> CommunityV {
        CommunityV {
            id: self.id,
            label: self.label@,
            members: self.members.deep_view(),
            internal_edges: self.internal_edges,
            possible_edges: self.possible_edges,
        }
    }
}

impl DeepView for Community {
    type V = CommunityV;

    open spec fn deep_view(&self) -> CommunityV {
        self@
    }
}

impl Community {
    /// A copy of the community.
    pub fn duplicate(&self) -> (r: Community)
        ensures
            r@ == self@,
    {
        Community {
            id: self.id,
            label: self.label.clone(),
            members: crate::parser::extract::clone_strings(&self.members),
            internal_edges: self.internal_edges,
            possible_edges: self.possible_edges,
        }
    }
}

/// Nodes among `0..n` in community `c`, in node order.
pub open spec fn members_of(nodes: Seq<Seq<char>>, comm: Seq<usize>, c: usize, n: int) -> Seq<Seq<char>>
    decreases n,
{
    if n <= 0 {
        Seq::empty()
    } else {
        members_of(nodes, comm, c, n - 1) + if comm[n - 1] == c {
            seq![nodes[n - 1]]
        } else {
            Seq::empty()
        }
    }
}

/// Number of edges with both ends in community `c`.
pub open spec fn internal_count(ie: Seq<(usize, usize)>, comm: Seq<usize>, c: usize) -> nat
    decreases ie.len(),
{
    if ie.len() == 0 {
        0
    } else {
        internal_count(ie.drop_last(), comm, c) + if comm[ie.last().0 as int] == c && comm[ie.last().1 as int] == c {
            1nat
        } else {
            0nat
        }
    }
}

/// Communities `0..upto` with at least two members, numbered in that order.
pub open spec fn numbered_communities(
    nodes: Seq<Seq<char>>,
    comm: Seq<usize>,
    ie: Seq<(usize, usize)>,
    names: Seq<(Seq<char>, Seq<char>)>,
    upto: nat,
) -> Seq<CommunityV>
    decreases upto,
{
    if upto == 0 {
        Seq::empty()
    } else {
        let prev = numbered_communities(nodes, comm, ie, names, (upto - 1) as nat);
        let c = (upto - 1) as usize;
        let ms = members_of(nodes, comm, c, nodes.len() as int);
        if ms.len() >= 2 {
            prev.push(
                CommunityV {
                    id: prev.len() as usize,
                    label: community_label(ms, names),
                    members: ms,
                    internal_edges: internal_count(ie, comm, c) as usize,
                    possible_edges: (ms.len() * (ms.len() - 1) / 2) as u128,
                },
            )
        } else {
            prev
        }
    }
}

/// `x` placed after every community at least as large.
pub open spec fn insert_by_size(s: Seq<CommunityV>, x: CommunityV) -> Seq<CommunityV>
    decreases s.len(),
{
    if s.len() == 0 {
        seq![x]
    } else if s[0].members.len() >= x.members.len() {
        seq![s[0]] + insert_by_size(s.drop_first(), x)
    } else {
        seq![x] + s
    }
}

/// Communities by size, largest first; equal sizes keep their order.
pub open spec fn by_size_desc(s: Seq<CommunityV>) -> Seq<CommunityV>
    decreases s.len(),
{
    if s.len() == 0 {
        s
    } else {
        insert_by_size(by_size_desc(s.drop_last()), s.last())
    }
}

/// The communities detected in a graph given by its edges.
pub open spec fn communities_of(ev: Seq<(Seq<char>, Seq<char>)>, names: Seq<(Seq<char>, Seq<char>)>) -> Seq<
    CommunityV,
> {
    let nodes = graph_nodes(ev);
    let ie = index_edges(ev, nodes);
    let adj = adjacency(ie, nodes.len());
    let comm = louvain(adj, singletons(nodes.len()), 2 * ev.len() as int, 20);
    by_size_desc(numbered_communities(nodes, comm, ie, names, nodes.len()))
}

proof fn lemma_insert_by_size_at(s: Seq<CommunityV>, x: CommunityV, k: int)
    requires
        0 <= k <= s.len(),
        forall|j: int| 0 <= j < k ==> (#[trigger] s[j]).members.len() >= x.members.len(),
        k < s.len() ==> s[k].members.len() < x.members.len(),
    ensures
        insert_by_size(s, x) == s.insert(k, x),
    decreases k,
{
    if k == 0 {
        if s.len() == 0 {
            assert(s.insert(0, x) =~= seq![x]);
        } else {
            assert(s.insert(0, x) =~= seq![x] + s);
        }
    } else {
        let t = s.drop_first();
        assert forall|j: int| 0 <= j < k - 1 implies (#[trigger] t[j]).members.len() >= x.members.len() by {
            assert(t[j] == s[j + 1]);
        }
        if k < s.len() {
            assert(t[k - 1] == s[k]);
        }
        lemma_insert_by_size_at(t, x, k - 1);
        assert(s.insert(k, x) =~= seq![s[0]] + t.insert(k - 1, x));
    }
}

/// Stable sort by number of members, largest first.
fn sort_by_size(v: &Vec<Community>) -> (r: Vec<Community>)
    ensures
        r.deep_view() == by_size_desc(v.deep_view()),
{
    let ghost vv = v.deep_view();
    let mut r: Vec<Community> = Vec::new();
    let mut i: usize = 0;
    while i < v.len()
        invariant
            i <= vv.len(),
            vv == v.deep_view(),
            r.deep_view() == by_size_desc(vv.take(i as int)),
        decreases vv.len() - i,
    {
        let x = v[i].duplicate();
        let ghost rv = r.deep_view();
        let mut k: usize = 0;
        while k < r.len() && r[k].members.len() >= x.members.len()
            invariant
                k <= rv.len(),
                rv == r.deep_view(),
                forall|j: int| 0 <= j < k ==> (#[trigger] rv[j]).members.len() >= x@.members.len(),
            decreases rv.len() - k,
        {
            proof {
                assert(rv[k as int] == r@[k as int]@);
            }
            k = k + 1;
        }
        proof {
            if k < rv.len() {
                assert(rv[k as int] == r@[k as int]@);
            }
            lemma_insert_by_size_at(rv, x@, k as int);
            assert(vv.take(i + 1).drop_last() =~= vv.take(i as int));
            assert(vv[i as int] == v@[i as int]@);
        }
        let ghost xv = x@;
        r.insert(k, x);
        proof {
            assert(r.deep_view() =~= rv.insert(k as int, xv));
        }
        i = i + 1;
    }
    proof {
        assert(vv.take(vv.len() as int) =~= vv);
    }
    r
}

proof fn lemma_neighbours_bound(ie: Seq<(usize, usize)>, v: usize, n: usize)
    requires
        forall|k: int| 0 <= k < ie.len() ==> (#[trigger] ie[k]).0 < n && ie[k].1 < n,
    ensures
        forall|j: int| 0 <= j < neighbours(ie, v).len() ==> (#[trigger] neighbours(ie, v)[j]) < n,
    decreases ie.len(),
{
    if ie.len() > 0 {
        let t = ie.drop_last();
        assert forall|k: int| 0 <= k < t.len() implies (#[trigger] t[k]).0 < n && t[k].1 < n by {
            assert(t[k] == ie[k]);
        }
        lemma_neighbours_bound(t, v, n);
        let e = ie[ie.len() - 1];
        assert(ie.last() == e);
        let a = neighbours(t, v);
        let a1 = if e.0 == v {
            a.push(e.1)
        } else {
            a
        };
        assert forall|j: int| 0 <= j < a1.len() implies a1[j] < n by {
            if j < a.len() {
                assert(a1[j] == a[j]);
            }
        }
        let r = neighbours(ie, v);
        assert forall|j: int| 0 <= j < r.len() implies (#[trigger] r[j]) < n by {
            if j < a1.len() {
                assert(r[j] == a1[j]);
            }
        }
    }
}

/// Run community detection on a graph of symbols connected by edges.
/// Uses a simplified Louvain/Leiden-style modularity optimization.
///
/// Input: list of (source_uid, target_uid) edges, and (uid, name) pairs.
/// Output: communities of at least two members with member UIDs and
/// heuristic labels, largest first.
///
/// The edges number at most `usize::MAX / 32`: a machine limit, as no slice
/// of uid pairs can be longer (each pair takes at least 24 bytes).
pub fn detect_communities(edges: &[(String, String)], symbol_names: &[(String, String)]) -> (r: Vec<Community>)
    requires
        edges@.len() <= usize::MAX / 32,
    ensures
        r.deep_view() == communities_of(edges.deep_view(), symbol_names.deep_view()),
{
    let ghost ev = edges.deep_view();
    let ghost names = symbol_names.deep_view();
    let (nodes, ie) = index_graph(edges);
    let ghost nv = nodes.deep_view();
    let n = nodes.len();
    let adj = build_adjacency(&ie, n);
    let ghost av = adj@.map_values(|a: Vec<usize>| a@);
    proof {
        assert(av =~= adjacency(ie@, n as nat));
        assert forall|u: int, j: int| 0 <= u < adj@.len() && 0 <= j < adj@[u]@.len() implies (#[trigger] adj@[u]@[j]) < adj@.len() by {
            lemma_neighbours_bound(ie@, u as usize, n);
            assert(adj@[u]@ == neighbours(ie@, u as usize));
        }
    }
    let m2 = 2 * edges.len();
    let comm = louvain_communities(&adj, m2);
    let ghost cv = comm@;
    // Members of each community, in node order.
    let mut buckets: Vec<Vec<String>> = Vec::new();
    let mut c: usize = 0;
    while c < n
        invariant
            c <= n,
            buckets@.len() == c,
            forall|q: int| 0 <= q < c ==> (#[trigger] buckets@[q]).deep_view() == Seq::<Seq<char>>::empty(),
        decreases n - c,
    {
        buckets.push(Vec::new());
        c = c + 1;
    }
    let mut v: usize = 0;
    while v < n
        invariant
            v <= n,
            n == nodes@.len(),
            nv == nodes.deep_view(),
            cv == comm@,
            comm@.len() == n,
            forall|u: int| 0 <= u < n ==> (#[trigger] comm@[u]) < n,
            buckets@.len() == n,
            forall|q: int| 0 <= q < n ==> (#[trigger] buckets@[q]).deep_view() == members_of(nv, cv, q as usize, v as int),
        decreases n - v,
    {
        let cc = comm[v];
        let ghost before = buckets@;
        buckets[cc].push(nodes[v].clone());
        proof {
            assert forall|q: int| 0 <= q < n implies (#[trigger] buckets@[q]).deep_view() == members_of(nv, cv, q as usize, v + 1) by {
                if q == cc {
                    assert(buckets@[q].deep_view() =~= before[q].deep_view().push(nv[v as int]));
                } else {
                    assert(buckets@[q] == before[q]);
                }
            }
        }
        v = v + 1;
    }
    // Internal edges of each community.
    let mut internal = zeros(n);
    let mut k: usize = 0;
    while k < ie.len()
        invariant
            k <= ie@.len(),
            ie@.len() == ev.len(),
            ev.len() <= usize::MAX / 32,
            internal@.len() == n,
            cv == comm@,
            comm@.len() == n,
            forall|u: int| 0 <= u < n ==> (#[trigger] comm@[u]) < n,
            forall|q: int| 0 <= q < ie@.len() ==> (#[trigger] ie@[q]).0 < n && ie@[q].1 < n,
            forall|q: int| 0 <= q < n ==> (#[trigger] internal@[q]) == internal_count(ie@.take(k as int), cv, q as usize),
            forall|q: int| 0 <= q < n ==> (#[trigger] internal@[q]) <= k,
        decreases ie@.len() - k,
    {
        let (a, b) = ie[k];
        proof {
            assert(ie@.take(k + 1).drop_last() =~= ie@.take(k as int));
            assert(ie@.take(k + 1).last() == (a, b));
        }
        if comm[a] == comm[b] {
            let x = internal[comm[a]] + 1;
            internal.set(comm[a], x);
        }
        k = k + 1;
    }
    proof {
        assert(ie@.take(ie@.len() as int) =~= ie@);
    }
    // Communities of two or more members, numbered in community order.
    let mut out: Vec<Community> = Vec::new();
    let mut c: usize = 0;
    while c < n
        invariant
            c <= n,
            n == nodes@.len(),
            n <= 2 * ev.len(),
            ev.len() <= usize::MAX / 32,
            nv == nodes.deep_view(),
            cv == comm@,
            names == symbol_names.deep_view(),
            buckets@.len() == n,
            internal@.len() == n,
            forall|q: int| 0 <= q < n ==> (#[trigger] buckets@[q]).deep_view() == members_of(nv, cv, q as usize, n as int),
            forall|q: int| 0 <= q < n ==> (#[trigger] internal@[q]) == internal_count(ie@, cv, q as usize),
            out.deep_view() == numbered_communities(nv, cv, ie@, names, c as nat),
            out@.len() <= c,
        decreases n - c,
    {
        let ms = &buckets[c];
        proof {
            lemma_members_len(nv, cv, c as usize, n as int);
        }
        if ms.len() >= 2 {
            let label = generate_label(ms.as_slice(), symbol_names);
            let m = ms.len() as u128;
            proof {
                assert(m * (m - 1) <= 0x1000_0000_0000_0000 * 0x1000_0000_0000_0000) by (nonlinear_arith)
                    requires
                        2 <= m <= 0x1000_0000_0000_0000,
                ;
            }
            let possible = m * (m - 1) / 2;
            let ghost before = out.deep_view();
            let cm = Community {
                id: out.len(),
                label,
                members: crate::parser::extract::clone_strings(ms),
                internal_edges: internal[c],
                possible_edges: possible,
            };
            let ghost cmv = cm@;
            out.push(cm);
            proof {
                assert(out.deep_view() =~= before.push(cmv));
            }
        }
        c = c + 1;
    }
    proof {
        assert(nv.len() == n);
    }
    sort_by_size(&out)
}

proof fn lemma_members_len(nodes: Seq<Seq<char>>, comm: Seq<usize>, c: usize, n: int)
    ensures
        members_of(nodes, comm, c, n).len() <= if n > 0 { n } else { 0 },
    decreases n,
{
    if n > 0 {
        lemma_members_len(nodes, comm, c, n - 1);
    }
}

pub(crate) proof fn lemma_dedup_len(s: Seq<Seq<char>>)
    ensures
        dedup_adjacent(s).len() <= s.len(),
    decreases s.len(),
{
    if s.len() > 0 {
        lemma_dedup_len(s.drop_last());
    }
}

pub(crate) proof fn lemma_endpoints_len(ev: Seq<(Seq<char>, Seq<char>)>)
    ensures
        endpoints(ev).len() == 2 * ev.len(),
    decreases ev.len(),
{
    if ev.len() > 0 {
        lemma_endpoints_len(ev.drop_last());
    }
}


// ─── Laws ───────────────────────────────────────────────────────────

/// Every community holds between `lo` and `hi` members.
pub open spec fn sizes_within(s: Seq<CommunityV>, lo: nat, hi: nat) -> bool {
    forall|j: int| 0 <= j < s.len() ==> lo <= (#[trigger] s[j]).members.len() <= hi
}

/// Communities come largest first.
pub open spec fn largest_first(s: Seq<CommunityV>) -> bool {
    forall|i: int, j: int| 0 <= i < j < s.len() ==> (#[trigger] s[i]).members.len() >= (#[trigger] s[j]).members.len()
}

proof fn lemma_insert_by_size_within(s: Seq<CommunityV>, x: CommunityV, lo: nat, hi: nat)
    requires
        sizes_within(s, lo, hi),
        lo <= x.members.len() <= hi,
    ensures
        insert_by_size(s, x).len() == s.len() + 1,
        sizes_within(insert_by_size(s, x), lo, hi),
    decreases s.len(),
{
    if s.len() > 0 && s[0].members.len() >= x.members.len() {
        let t = s.drop_first();
        assert forall|j: int| 0 <= j < t.len() implies lo <= (#[trigger] t[j]).members.len() <= hi by {
            assert(t[j] == s[j + 1]);
        }
        lemma_insert_by_size_within(t, x, lo, hi);
        let r = insert_by_size(s, x);
        assert forall|j: int| 0 <= j < r.len() implies lo <= (#[trigger] r[j]).members.len() <= hi by {
            if j > 0 {
                assert(r[j] == insert_by_size(t, x)[j - 1]);
            }
        }
    } else if s.len() > 0 {
        let r = insert_by_size(s, x);
        assert forall|j: int| 0 <= j < r.len() implies lo <= (#[trigger] r[j]).members.len() <= hi by {
            if j > 0 {
                assert(r[j] == s[j - 1]);
            }
        }
    }
}

proof fn lemma_insert_by_size_sorted(s: Seq<CommunityV>, x: CommunityV)
    requires
        largest_first(s),
    ensures
        largest_first(insert_by_size(s, x)),
    decreases s.len(),
{
    if s.len() == 0 {
    } else if s[0].members.len() >= x.members.len() {
        let t = s.drop_first();
        assert forall|i: int, j: int| 0 <= i < j < t.len() implies (#[trigger] t[i]).members.len() >= (
        #[trigger] t[j]).members.len() by {
            assert(t[i] == s[i + 1] && t[j] == s[j + 1]);
        }
        lemma_insert_by_size_sorted(t, x);
        assert forall|j: int| 0 <= j < t.len() implies 0 <= (#[trigger] t[j]).members.len() <= s[0].members.len() by {
            assert(t[j] == s[j + 1]);
        }
        lemma_insert_by_size_within(t, x, 0, s[0].members.len());
        let ins = insert_by_size(t, x);
        let r = insert_by_size(s, x);
        assert(r == seq![s[0]] + ins);
        assert forall|i: int, j: int| 0 <= i < j < r.len() implies (#[trigger] r[i]).members.len() >= (
        #[trigger] r[j]).members.len() by {
            assert(r[j] == ins[j - 1]);
            if i > 0 {
                assert(r[i] == ins[i - 1]);
            }
        }
    } else {
        let r = insert_by_size(s, x);
        assert forall|i: int, j: int| 0 <= i < j < r.len() implies (#[trigger] r[i]).members.len() >= (
        #[trigger] r[j]).members.len() by {
            assert(r[j] == s[j - 1]);
            if i > 0 {
                assert(r[i] == s[i - 1]);
            } else {
                assert(s[0].members.len() >= s[j - 1].members.len() || j - 1 == 0);
            }
        }
    }
}

proof fn lemma_by_size_desc(s: Seq<CommunityV>, lo: nat, hi: nat)
    requires
        sizes_within(s, lo, hi),
    ensures
        by_size_desc(s).len() == s.len(),
        sizes_within(by_size_desc(s), lo, hi),
        largest_first(by_size_desc(s)),
    decreases s.len(),
{
    if s.len() > 0 {
        let t = s.drop_last();
        assert forall|j: int| 0 <= j < t.len() implies lo <= (#[trigger] t[j]).members.len() <= hi by {
            assert(t[j] == s[j]);
        }
        lemma_by_size_desc(t, lo, hi);
        assert(lo <= s[s.len() - 1].members.len() <= hi);
        lemma_insert_by_size_within(by_size_desc(t), s.last(), lo, hi);
        lemma_insert_by_size_sorted(by_size_desc(t), s.last());
    }
}

proof fn lemma_numbered_at_least_two(
    nodes: Seq<Seq<char>>,
    comm: Seq<usize>,
    ie: Seq<(usize, usize)>,
    names: Seq<(Seq<char>, Seq<char>)>,
    upto: nat,
)
    ensures
        sizes_within(numbered_communities(nodes, comm, ie, names, upto), 2, nodes.len()),
    decreases upto,
{
    if upto > 0 {
        lemma_numbered_at_least_two(nodes, comm, ie, names, (upto - 1) as nat);
        lemma_members_len(nodes, comm, (upto - 1) as usize, nodes.len() as int);
    }
}

/// Every detected community has at least two members, and communities come
/// largest first.
pub proof fn law_communities_large_first(ev: Seq<(Seq<char>, Seq<char>)>, names: Seq<(Seq<char>, Seq<char>)>)
    ensures
        forall|i: int|
            0 <= i < communities_of(ev, names).len() ==> (#[trigger] communities_of(ev, names)[i]).members.len()
                >= 2,
        largest_first(communities_of(ev, names)),
{
    let nodes = graph_nodes(ev);
    let ie = index_edges(ev, nodes);
    let adj = adjacency(ie, nodes.len());
    let comm = louvain(adj, singletons(nodes.len()), 2 * ev.len() as int, 20);
    lemma_numbered_at_least_two(nodes, comm, ie, names, nodes.len());
    lemma_by_size_desc(numbered_communities(nodes, comm, ie, names, nodes.len()), 2, nodes.len());
}


// ─── Communities partition the graph's nodes ────────────────────────

/// No member of `a` is a member of `b`.
pub open spec fn disjoint_members(a: CommunityV, b: CommunityV) -> bool {
    forall|x: Seq<char>| a.members.contains(x) ==> !b.members.contains(x)
}

/// Communities with no member in common, each listing distinct members that
/// are all among `nodes`.
pub open spec fn partitioned(s: Seq<CommunityV>, nodes: Seq<Seq<char>>) -> bool {
    &&& forall|i: int, j: int|
        0 <= i < s.len() && 0 <= j < s.len() && i != j ==> disjoint_members(#[trigger] s[i], #[trigger] s[j])
    &&& forall|i: int|
        0 <= i < s.len() ==> (#[trigger] s[i]).members.no_duplicates() && forall|x: Seq<char>|
            s[i].members.contains(x) ==> nodes.contains(x)
}

proof fn lemma_dedup_from(s: Seq<Seq<char>>)
    ensures
        forall|i: int| 0 <= i < dedup_adjacent(s).len() ==> s.contains(#[trigger] dedup_adjacent(s)[i]),
    decreases s.len(),
{
    if s.len() > 0 {
        let t = s.drop_last();
        lemma_dedup_from(t);
        let r = dedup_adjacent(s);
        assert forall|i: int| 0 <= i < r.len() implies s.contains(#[trigger] r[i]) by {
            if i < dedup_adjacent(t).len() {
                assert(r[i] == dedup_adjacent(t)[i]);
                let k = choose|k: int| 0 <= k < t.len() && t[k] == r[i];
                assert(s[k] == t[k]);
            } else {
                assert(r[i] == s.last());
                assert(s[s.len() - 1] == s.last());
            }
        }
    }
}

proof fn lemma_dedup_strict(s: Seq<Seq<char>>)
    requires
        strs_sorted(s),
    ensures
        strictly_sorted(dedup_adjacent(s)),
    decreases s.len(),
{
    if s.len() > 0 {
        let t = s.drop_last();
        assert(strs_sorted(t)) by {
            assert forall|i: int, j: int| 0 <= i < j < t.len() implies !lex_lt(#[trigger] t[j], #[trigger] t[i]) by {
                assert(t[i] == s[i] && t[j] == s[j]);
            }
        }
        lemma_dedup_strict(t);
        lemma_dedup_from(t);
        let r = dedup_adjacent(t);
        let x = s.last();
        if !(r.len() > 0 && r.last() == x) {
            let q = r.push(x);
            // every element of r comes before x
            assert forall|i: int| 0 <= i < r.len() implies lex_lt(#[trigger] r[i], x) by {
                let last = r[r.len() - 1];
                let k = choose|k: int| 0 <= k < t.len() && t[k] == last;
                assert(s[k] == last && s[s.len() - 1] == x);
                assert(!lex_lt(x, last));
                lemma_lex_total(last, x);
                if i < r.len() - 1 {
                    lemma_lex_transitive(r[i], last, x);
                }
            }
            assert forall|i: int, j: int| 0 <= i < j < q.len() implies lex_lt(#[trigger] q[i], #[trigger] q[j]) by {
                if j == r.len() {
                    assert(q[i] == r[i]);
                } else {
                    assert(q[i] == r[i] && q[j] == r[j]);
                }
            }
        }
    }
}

pub(crate) proof fn lemma_graph_nodes_distinct(ev: Seq<(Seq<char>, Seq<char>)>)
    ensures
        graph_nodes(ev).no_duplicates(),
{
    crate::sorting::lemma_sort_strs(endpoints(ev));
    lemma_dedup_strict(sort_strs(endpoints(ev)));
    let g = graph_nodes(ev);
    assert forall|i: int, j: int| 0 <= i < g.len() && 0 <= j < g.len() && i != j implies g[i] != g[j] by {
        if i < j {
            assert(lex_lt(g[i], g[j]));
            lemma_lex_irreflexive(g[i]);
        } else {
            assert(lex_lt(g[j], g[i]));
            lemma_lex_irreflexive(g[j]);
        }
    }
}

proof fn lemma_members_from(nodes: Seq<Seq<char>>, comm: Seq<usize>, c: usize, n: int)
    requires
        0 <= n <= nodes.len(),
        nodes.no_duplicates(),
    ensures
        forall|i: int|
            0 <= i < members_of(nodes, comm, c, n).len() ==> exists|k: int|
                0 <= k < n && nodes[k] == #[trigger] members_of(nodes, comm, c, n)[i] && comm[k] == c,
        members_of(nodes, comm, c, n).no_duplicates(),
    decreases n,
{
    if n > 0 {
        lemma_members_from(nodes, comm, c, n - 1);
        let m0 = members_of(nodes, comm, c, n - 1);
        let m = members_of(nodes, comm, c, n);
        if comm[n - 1] == c {
            assert(m == m0.push(nodes[n - 1]));
            assert forall|i: int| 0 <= i < m.len() implies exists|k: int|
                0 <= k < n && nodes[k] == #[trigger] m[i] && comm[k] == c by {
                if i < m0.len() {
                    assert(m[i] == m0[i]);
                    let k = choose|k: int| 0 <= k < n - 1 && nodes[k] == #[trigger] m0[i] && comm[k] == c;
                } else {
                    assert(m[i] == nodes[n - 1]);
                }
            }
            assert forall|a: int, b: int| 0 <= a < m.len() && 0 <= b < m.len() && a != b implies m[a] != m[b] by {
                if a == m0.len() {
                    let k = choose|k: int| 0 <= k < n - 1 && nodes[k] == #[trigger] m0[b] && comm[k] == c;
                } else if b == m0.len() {
                    let k = choose|k: int| 0 <= k < n - 1 && nodes[k] == #[trigger] m0[a] && comm[k] == c;
                } else {
                    assert(m[a] == m0[a] && m[b] == m0[b]);
                }
            }
        } else {
            assert(m == m0);
        }
    }
}

proof fn lemma_numbered_partitioned(
    nodes: Seq<Seq<char>>,
    comm: Seq<usize>,
    ie: Seq<(usize, usize)>,
    names: Seq<(Seq<char>, Seq<char>)>,
    upto: nat,
)
    requires
        nodes.no_duplicates(),
        upto <= usize::MAX,
    ensures
        partitioned(numbered_communities(nodes, comm, ie, names, upto), nodes),
        forall|i: int|
            0 <= i < numbered_communities(nodes, comm, ie, names, upto).len() ==> exists|c: usize|
                c < upto && (#[trigger] numbered_communities(nodes, comm, ie, names, upto)[i]).members == members_of(
                    nodes,
                    comm,
                    c,
                    nodes.len() as int,
                ),
    decreases upto,
{
    if upto > 0 {
        lemma_numbered_partitioned(nodes, comm, ie, names, (upto - 1) as nat);
        let prev = numbered_communities(nodes, comm, ie, names, (upto - 1) as nat);
        let s = numbered_communities(nodes, comm, ie, names, upto);
        let c = (upto - 1) as usize;
        assert(c as int == upto - 1);
        let n = nodes.len() as int;
        let ms = members_of(nodes, comm, c, n);
        lemma_members_from(nodes, comm, c, n);
        if ms.len() >= 2 {
            let e = s[prev.len() as int];
            assert(s == prev.push(e));
            assert(e.members == ms);
            assert forall|i: int| 0 <= i < prev.len() implies disjoint_members(prev[i], e) && disjoint_members(e, prev[i]) by {
                let c2 = choose|c2: usize| c2 < upto - 1 && (#[trigger] prev[i]).members == members_of(nodes, comm, c2, n);
                lemma_members_from(nodes, comm, c2, n);
                let m2 = members_of(nodes, comm, c2, n);
                assert forall|x: Seq<char>| m2.contains(x) implies !ms.contains(x) by {
                    let a = choose|a: int| 0 <= a < m2.len() && m2[a] == x;
                    let ka = choose|k: int| 0 <= k < n && nodes[k] == #[trigger] m2[a] && comm[k] == c2;
                    if ms.contains(x) {
                        let b = choose|b: int| 0 <= b < ms.len() && ms[b] == x;
                        let kb = choose|k: int| 0 <= k < n && nodes[k] == #[trigger] ms[b] && comm[k] == c;
                        assert(ka == kb);
                    }
                }
            }
            assert forall|i: int, j: int| 0 <= i < s.len() && 0 <= j < s.len() && i != j implies disjoint_members(
                #[trigger] s[i],
                #[trigger] s[j],
            ) by {
                if i == prev.len() {
                    assert(s[j] == prev[j]);
                } else if j == prev.len() {
                    assert(s[i] == prev[i]);
                } else {
                    assert(s[i] == prev[i] && s[j] == prev[j]);
                }
            }
            assert forall|i: int| 0 <= i < s.len() implies (#[trigger] s[i]).members.no_duplicates() && forall|x: Seq<char>|
                s[i].members.contains(x) ==> nodes.contains(x) by {
                if i == prev.len() {
                    assert forall|x: Seq<char>| ms.contains(x) implies nodes.contains(x) by {
                        let b = choose|b: int| 0 <= b < ms.len() && ms[b] == x;
                        let kb = choose|k: int| 0 <= k < n && nodes[k] == #[trigger] ms[b] && comm[k] == c;
                    }
                } else {
                    assert(s[i] == prev[i]);
                }
            }
            assert forall|i: int| 0 <= i < s.len() implies exists|c3: usize|
                c3 < upto && (#[trigger] s[i]).members == members_of(nodes, comm, c3, n) by {
                if i < prev.len() {
                    assert(s[i] == prev[i]);
                    let c2 = choose|c2: usize| c2 < upto - 1 && (#[trigger] prev[i]).members == members_of(nodes, comm, c2, n);
                }
            }
        } else {
            assert(s == prev);
        }
    }
}

proof fn lemma_insert_partitioned(s: Seq<CommunityV>, x: CommunityV, nodes: Seq<Seq<char>>)
    requires
        partitioned(s, nodes),
        forall|i: int| 0 <= i < s.len() ==> disjoint_members(x, #[trigger] s[i]) && disjoint_members(s[i], x),
        x.members.no_duplicates(),
        forall|y: Seq<char>| x.members.contains(y) ==> nodes.contains(y),
    ensures
        partitioned(insert_by_size(s, x), nodes),
        forall|i: int| 0 <= i < insert_by_size(s, x).len() ==> #[trigger] insert_by_size(s, x)[i] == x || s.contains(insert_by_size(s, x)[i]),
    decreases s.len(),
{
    let r = insert_by_size(s, x);
    if s.len() == 0 {
        assert(r == seq![x]);
    } else if s[0].members.len() >= x.members.len() {
        let t = s.drop_first();
        assert(partitioned(t, nodes)) by {
            assert forall|i: int, j: int| 0 <= i < t.len() && 0 <= j < t.len() && i != j implies disjoint_members(
                #[trigger] t[i],
                #[trigger] t[j],
            ) by {
                assert(t[i] == s[i + 1] && t[j] == s[j + 1]);
            }
            assert forall|i: int| 0 <= i < t.len() implies (#[trigger] t[i]).members.no_duplicates() && forall|y: Seq<char>|
                t[i].members.contains(y) ==> nodes.contains(y) by {
                assert(t[i] == s[i + 1]);
            }
        }
        assert forall|i: int| 0 <= i < t.len() implies disjoint_members(x, #[trigger] t[i]) && disjoint_members(t[i], x) by {
            assert(t[i] == s[i + 1]);
        }
        lemma_insert_partitioned(t, x, nodes);
        let rt = insert_by_size(t, x);
        assert(r == seq![s[0]] + rt);
        // an element of the rest is x or one of s after the first
        assert forall|k: int| 0 <= k < rt.len() implies disjoint_members(s[0], #[trigger] rt[k]) && disjoint_members(
            rt[k],
            s[0],
        ) by {
            if rt[k] != x {
                assert(t.contains(rt[k]));
                let m = choose|m: int| 0 <= m < t.len() && t[m] == rt[k];
                assert(t[m] == s[m + 1]);
            }
        }
        assert forall|i: int, j: int| 0 <= i < r.len() && 0 <= j < r.len() && i != j implies disjoint_members(
            #[trigger] r[i],
            #[trigger] r[j],
        ) by {
            if i == 0 {
                assert(r[j] == rt[j - 1]);
            } else if j == 0 {
                assert(r[i] == rt[i - 1]);
            } else {
                assert(r[i] == rt[i - 1] && r[j] == rt[j - 1]);
            }
        }
        assert forall|i: int| 0 <= i < r.len() implies (#[trigger] r[i]).members.no_duplicates() && forall|y: Seq<char>|
            r[i].members.contains(y) ==> nodes.contains(y) by {
            if i > 0 {
                assert(r[i] == rt[i - 1]);
            }
        }
        assert forall|i: int| 0 <= i < r.len() implies #[trigger] r[i] == x || s.contains(r[i]) by {
            if i == 0 {
                assert(s[0] == r[0]);
            } else {
                assert(r[i] == rt[i - 1]);
                if rt[i - 1] != x {
                    let m = choose|m: int| 0 <= m < t.len() && t[m] == rt[i - 1];
                    assert(s[m + 1] == t[m]);
                }
            }
        }
    } else {
        assert(r == seq![x] + s);
        assert forall|i: int, j: int| 0 <= i < r.len() && 0 <= j < r.len() && i != j implies disjoint_members(
            #[trigger] r[i],
            #[trigger] r[j],
        ) by {
            if i == 0 {
                assert(r[j] == s[j - 1]);
            } else if j == 0 {
                assert(r[i] == s[i - 1]);
            } else {
                assert(r[i] == s[i - 1] && r[j] == s[j - 1]);
            }
        }
        assert forall|i: int| 0 <= i < r.len() implies (#[trigger] r[i]).members.no_duplicates() && forall|y: Seq<char>|
            r[i].members.contains(y) ==> nodes.contains(y) by {
            if i > 0 {
                assert(r[i] == s[i - 1]);
            }
        }
        assert forall|i: int| 0 <= i < r.len() implies #[trigger] r[i] == x || s.contains(r[i]) by {
            if i > 0 {
                assert(r[i] == s[i - 1]);
            }
        }
    }
}

proof fn lemma_by_size_partitioned(s: Seq<CommunityV>, nodes: Seq<Seq<char>>)
    requires
        partitioned(s, nodes),
    ensures
        partitioned(by_size_desc(s), nodes),
        forall|i: int| 0 <= i < by_size_desc(s).len() ==> s.contains(#[trigger] by_size_desc(s)[i]),
    decreases s.len(),
{
    if s.len() > 0 {
        let t = s.drop_last();
        let x = s.last();
        assert(partitioned(t, nodes)) by {
            assert forall|i: int, j: int| 0 <= i < t.len() && 0 <= j < t.len() && i != j implies disjoint_members(
                #[trigger] t[i],
                #[trigger] t[j],
            ) by {
                assert(t[i] == s[i] && t[j] == s[j]);
            }
            assert forall|i: int| 0 <= i < t.len() implies (#[trigger] t[i]).members.no_duplicates() && forall|y: Seq<char>|
                t[i].members.contains(y) ==> nodes.contains(y) by {
                assert(t[i] == s[i]);
            }
        }
        lemma_by_size_partitioned(t, nodes);
        let b = by_size_desc(t);
        assert(s[s.len() - 1] == x);
        assert forall|i: int| 0 <= i < b.len() implies disjoint_members(x, #[trigger] b[i]) && disjoint_members(b[i], x) by {
            let m = choose|m: int| 0 <= m < t.len() && t[m] == b[i];
            assert(s[m] == t[m]);
        }
        lemma_insert_partitioned(b, x, nodes);
        let r = by_size_desc(s);
        assert forall|i: int| 0 <= i < r.len() implies s.contains(#[trigger] r[i]) by {
            if r[i] != x {
                let m = choose|m: int| 0 <= m < b.len() && b[m] == r[i];
                let k = choose|k: int| 0 <= k < t.len() && t[k] == b[m];
                assert(s[k] == t[k]);
            }
        }
    }
}

/// Communities partition part of the graph: no symbol belongs to two
/// communities, and each community lists distinct symbols, all nodes of
/// the graph (ends of its edges). (The edges number at most
/// `usize::MAX / 32`, as for [`detect_communities`].)
pub proof fn law_communities_partition(ev: Seq<(Seq<char>, Seq<char>)>, names: Seq<(Seq<char>, Seq<char>)>)
    requires
        ev.len() <= usize::MAX / 32,
    ensures
        partitioned(communities_of(ev, names), graph_nodes(ev)),
{
    let nodes = graph_nodes(ev);
    lemma_endpoints_len(ev);
    crate::sorting::lemma_sort_strs(endpoints(ev));
    assert(sort_strs(endpoints(ev)).len() == endpoints(ev).len()) by {
        broadcast use vstd::seq_lib::group_to_multiset_ensures;

        assert(sort_strs(endpoints(ev)).to_multiset().len() == endpoints(ev).to_multiset().len());
    }
    lemma_dedup_len(sort_strs(endpoints(ev)));
    let ie = index_edges(ev, nodes);
    let adj = adjacency(ie, nodes.len());
    let comm = louvain(adj, singletons(nodes.len()), 2 * ev.len() as int, 20);
    lemma_graph_nodes_distinct(ev);
    lemma_numbered_partitioned(nodes, comm, ie, names, nodes.len());
    lemma_by_size_partitioned(numbered_communities(nodes, comm, ie, names, nodes.len()), nodes);
}


// ─── Internal edges count the edges inside a community ──────────────

/// Number of edges of `ev` whose two ends are both among `ms`.
pub open spec fn edges_within(ev: Seq<(Seq<char>, Seq<char>)>, ms: Seq<Seq<char>>) -> nat
    decreases ev.len(),
{
    if ev.len() == 0 {
        0
    } else {
        edges_within(ev.drop_last(), ms) + if ms.contains(ev.last().0) && ms.contains(ev.last().1) {
            1nat
        } else {
            0nat
        }
    }
}

proof fn lemma_dedup_keeps(s: Seq<Seq<char>>)
    ensures
        forall|i: int| 0 <= i < s.len() ==> dedup_adjacent(s).contains(#[trigger] s[i]),
    decreases s.len(),
{
    if s.len() > 0 {
        let t = s.drop_last();
        lemma_dedup_keeps(t);
        let d = dedup_adjacent(t);
        let r = dedup_adjacent(s);
        assert forall|i: int| 0 <= i < s.len() implies r.contains(#[trigger] s[i]) by {
            if i < t.len() {
                assert(t[i] == s[i]);
                let k = choose|k: int| 0 <= k < d.len() && d[k] == t[i];
                if r.len() > 0 && d.len() > 0 && d.last() == s.last() {
                    assert(r == d);
                } else {
                    assert(r == d.push(s.last()));
                    assert(r[k] == d[k]);
                }
            } else {
                if d.len() > 0 && d.last() == s.last() {
                    assert(r == d);
                    assert(r[d.len() - 1] == s.last());
                } else {
                    assert(r == d.push(s.last()));
                    assert(r[d.len() as int] == s.last());
                }
            }
        }
    }
}

pub(crate) proof fn lemma_graph_nodes_cover(ev: Seq<(Seq<char>, Seq<char>)>, k: int)
    requires
        0 <= k < ev.len(),
    ensures
        graph_nodes(ev).contains(ev[k].0),
        graph_nodes(ev).contains(ev[k].1),
{
    broadcast use vstd::seq_lib::group_to_multiset_ensures;

    let ep = endpoints(ev);
    lemma_endpoints_at(ev, k);
    crate::sorting::lemma_sort_strs(ep);
    let srt = sort_strs(ep);
    lemma_dedup_keeps(srt);
    assert(ep.to_multiset().count(ep[2 * k]) > 0);
    assert(srt.to_multiset().count(ep[2 * k]) > 0);
    assert(srt.contains(ep[2 * k]));
    let x = choose|x: int| 0 <= x < srt.len() && srt[x] == ep[2 * k];
    assert(dedup_adjacent(srt).contains(srt[x]));
    assert(ep.to_multiset().count(ep[2 * k + 1]) > 0);
    assert(srt.to_multiset().count(ep[2 * k + 1]) > 0);
    assert(srt.contains(ep[2 * k + 1]));
    let y = choose|y: int| 0 <= y < srt.len() && srt[y] == ep[2 * k + 1];
    assert(dedup_adjacent(srt).contains(srt[y]));
}

pub(crate) proof fn lemma_pos_found(s: Seq<Seq<char>>, x: Seq<char>)
    requires
        s.contains(x),
    ensures
        0 <= pos_of(s, x) < s.len(),
        s[pos_of(s, x)] == x,
    decreases s.len(),
{
    if s[0] != x {
        let j = choose|j: int| 0 <= j < s.len() && s[j] == x;
        assert(s.drop_first()[j - 1] == x);
        lemma_pos_found(s.drop_first(), x);
    }
}

proof fn lemma_members_has(nodes: Seq<Seq<char>>, comm: Seq<usize>, c: usize, n: int, i: int)
    requires
        0 <= i < n <= nodes.len(),
        comm[i] == c,
    ensures
        members_of(nodes, comm, c, n).contains(nodes[i]),
    decreases n,
{
    let m0 = members_of(nodes, comm, c, n - 1);
    if i < n - 1 {
        lemma_members_has(nodes, comm, c, n - 1, i);
        let k = choose|k: int| 0 <= k < m0.len() && m0[k] == nodes[i];
        if comm[n - 1] == c {
            assert(members_of(nodes, comm, c, n)[k] == m0[k]);
        } else {
            assert(members_of(nodes, comm, c, n) == m0);
        }
    } else {
        assert(members_of(nodes, comm, c, n) == m0.push(nodes[i]));
        assert(members_of(nodes, comm, c, n)[m0.len() as int] == nodes[i]);
    }
}

/// With distinct nodes, node `p` is a member of community `c` exactly when
/// it is assigned to `c`.
proof fn lemma_member_iff(nodes: Seq<Seq<char>>, comm: Seq<usize>, c: usize, p: int)
    requires
        nodes.no_duplicates(),
        0 <= p < nodes.len(),
    ensures
        members_of(nodes, comm, c, nodes.len() as int).contains(nodes[p]) <==> comm[p] == c,
{
    let n = nodes.len() as int;
    let ms = members_of(nodes, comm, c, n);
    lemma_members_from(nodes, comm, c, n);
    if comm[p] == c {
        lemma_members_has(nodes, comm, c, n, p);
    }
    if ms.contains(nodes[p]) {
        let j = choose|j: int| 0 <= j < ms.len() && ms[j] == nodes[p];
        let k = choose|k: int| 0 <= k < n && nodes[k] == #[trigger] ms[j] && comm[k] == c;
        assert(k == p);
    }
}

proof fn lemma_internal_matches(
    ev: Seq<(Seq<char>, Seq<char>)>,
    nodes: Seq<Seq<char>>,
    comm: Seq<usize>,
    c: usize,
    ms: Seq<Seq<char>>,
)
    requires
        forall|k: int|
            0 <= k < ev.len() ==> (ms.contains((#[trigger] ev[k]).0) <==> comm[(pos_of(nodes, ev[k].0) as usize) as int]
                == c) && (ms.contains(ev[k].1) <==> comm[(pos_of(nodes, ev[k].1) as usize) as int] == c),
    ensures
        internal_count(index_edges(ev, nodes), comm, c) == edges_within(ev, ms),
    decreases ev.len(),
{
    if ev.len() > 0 {
        let t = ev.drop_last();
        assert forall|k: int| 0 <= k < t.len() implies (ms.contains((#[trigger] t[k]).0) <==> comm[(pos_of(
            nodes,
            t[k].0,
        ) as usize) as int] == c) && (ms.contains(t[k].1) <==> comm[(pos_of(nodes, t[k].1) as usize) as int] == c) by {
            assert(t[k] == ev[k]);
        }
        lemma_internal_matches(t, nodes, comm, c, ms);
        assert(index_edges(ev, nodes).drop_last() =~= index_edges(t, nodes));
        assert(ev[ev.len() - 1] == ev.last());
    }
}

proof fn lemma_internal_le(ie: Seq<(usize, usize)>, comm: Seq<usize>, c: usize)
    ensures
        internal_count(ie, comm, c) <= ie.len(),
    decreases ie.len(),
{
    if ie.len() > 0 {
        lemma_internal_le(ie.drop_last(), comm, c);
    }
}

proof fn lemma_numbered_internal(
    ev: Seq<(Seq<char>, Seq<char>)>,
    nodes: Seq<Seq<char>>,
    comm: Seq<usize>,
    names: Seq<(Seq<char>, Seq<char>)>,
    upto: nat,
)
    requires
        ev.len() <= usize::MAX,
        upto <= usize::MAX,
        forall|c: usize|
            c < upto ==> #[trigger] internal_count(index_edges(ev, nodes), comm, c) == edges_within(
                ev,
                members_of(nodes, comm, c, nodes.len() as int),
            ),
    ensures
        forall|i: int|
            0 <= i < numbered_communities(nodes, comm, index_edges(ev, nodes), names, upto).len() ==> (
            #[trigger] numbered_communities(nodes, comm, index_edges(ev, nodes), names, upto)[i]).internal_edges
                == edges_within(ev, numbered_communities(nodes, comm, index_edges(ev, nodes), names, upto)[i].members),
    decreases upto,
{
    if upto > 0 {
        let ie = index_edges(ev, nodes);
        lemma_numbered_internal(ev, nodes, comm, names, (upto - 1) as nat);
        let prev = numbered_communities(nodes, comm, ie, names, (upto - 1) as nat);
        let s = numbered_communities(nodes, comm, ie, names, upto);
        let c = (upto - 1) as usize;
        assert(c as int == upto - 1);
        let ms = members_of(nodes, comm, c, nodes.len() as int);
        lemma_internal_le(ie, comm, c);
        assert(internal_count(ie, comm, c) == edges_within(ev, ms));
        assert forall|i: int| 0 <= i < s.len() implies (#[trigger] s[i]).internal_edges == edges_within(ev, s[i].members) by {
            if i < prev.len() {
                assert(s[i] == prev[i]);
            }
        }
    }
}

/// A community's internal edge count is the number of input edges whose
/// two ends are both members of it (each listed edge counted once, the
/// edges between two communities in neither).
pub proof fn law_internal_edges_inside(ev: Seq<(Seq<char>, Seq<char>)>, names: Seq<(Seq<char>, Seq<char>)>)
    requires
        ev.len() <= usize::MAX / 32,
    ensures
        forall|i: int|
            0 <= i < communities_of(ev, names).len() ==> (#[trigger] communities_of(ev, names)[i]).internal_edges
                == edges_within(ev, communities_of(ev, names)[i].members),
{
    let nodes = graph_nodes(ev);
    lemma_endpoints_len(ev);
    crate::sorting::lemma_sort_strs(endpoints(ev));
    assert(sort_strs(endpoints(ev)).len() == endpoints(ev).len()) by {
        broadcast use vstd::seq_lib::group_to_multiset_ensures;

        assert(sort_strs(endpoints(ev)).to_multiset().len() == endpoints(ev).to_multiset().len());
    }
    lemma_dedup_len(sort_strs(endpoints(ev)));
    lemma_graph_nodes_distinct(ev);
    let ie = index_edges(ev, nodes);
    let adj = adjacency(ie, nodes.len());
    let comm = louvain(adj, singletons(nodes.len()), 2 * ev.len() as int, 20);
    assert forall|c: usize| c < nodes.len() implies #[trigger] internal_count(ie, comm, c) == edges_within(
        ev,
        members_of(nodes, comm, c, nodes.len() as int),
    ) by {
        let ms = members_of(nodes, comm, c, nodes.len() as int);
        assert forall|k: int| 0 <= k < ev.len() implies (ms.contains((#[trigger] ev[k]).0) <==> comm[(pos_of(
            nodes,
            ev[k].0,
        ) as usize) as int] == c) && (ms.contains(ev[k].1) <==> comm[(pos_of(nodes, ev[k].1) as usize) as int]
            == c) by {
            lemma_graph_nodes_cover(ev, k);
            lemma_pos_found(nodes, ev[k].0);
            lemma_pos_found(nodes, ev[k].1);
            lemma_member_iff(nodes, comm, c, pos_of(nodes, ev[k].0));
            lemma_member_iff(nodes, comm, c, pos_of(nodes, ev[k].1));
        }
        lemma_internal_matches(ev, nodes, comm, c, ms);
    }
    lemma_numbered_internal(ev, nodes, comm, names, nodes.len());
    lemma_numbered_partitioned(nodes, comm, ie, names, nodes.len());
    let s = numbered_communities(nodes, comm, ie, names, nodes.len());
    lemma_by_size_partitioned(s, nodes);
    let r = communities_of(ev, names);
    assert forall|i: int| 0 <= i < r.len() implies (#[trigger] r[i]).internal_edges == edges_within(ev, r[i].members) by {
        assert(s.contains(r[i]));
        let j = choose|j: int| 0 <= j < s.len() && s[j] == r[i];
    }
}


// ─── Cohesion never exceeds one on a simple graph ───────────────────

/// Edges `a` and `b` join the same two symbols.
pub open spec fn same_pair(a: (Seq<char>, Seq<char>), b: (Seq<char>, Seq<char>)) -> bool {
    (a.0 == b.0 && a.1 == b.1) || (a.0 == b.1 && a.1 == b.0)
}

/// No edge joins a symbol to itself, and no two edges join the same pair.
pub open spec fn simple_edges(ev: Seq<(Seq<char>, Seq<char>)>) -> bool {
    &&& forall|k: int| 0 <= k < ev.len() ==> (#[trigger] ev[k]).0 != ev[k].1
    &&& forall|k: int, l: int| 0 <= k < l < ev.len() ==> !same_pair(#[trigger] ev[k], #[trigger] ev[l])
}

/// Number of unordered pairs of `m` things.
pub open spec fn pair_count(m: nat) -> nat
    decreases m,
{
    if m == 0 {
        0
    } else {
        pair_count((m - 1) as nat) + (m - 1) as nat
    }
}

proof fn lemma_pair_count(m: nat)
    ensures
        2 * pair_count(m) == m * (m - 1),
        pair_count(m) == m * (m - 1) / 2,
    decreases m,
{
    let pm: int = pair_count(m) as int;
    let mi: int = m as int;
    if m > 0 {
        lemma_pair_count((m - 1) as nat);
        let k: int = m - 1;
        let p: int = pair_count((m - 1) as nat) as int;
        assert(pm == p + k);
        assert(2 * pm == mi * (mi - 1)) by (nonlinear_arith)
            requires
                2 * p == k * (k - 1),
                pm == p + k,
                mi == k + 1,
        ;
    } else {
        assert(2 * pm == mi * (mi - 1)) by (nonlinear_arith)
            requires
                pm == 0,
                mi == 0,
        ;
    }
    assert(pm == mi * (mi - 1) / 2) by (nonlinear_arith)
        requires
            2 * pm == mi * (mi - 1),
    ;
}

/// The other ends of the edges joining `x` to a symbol of `ms`.
pub open spec fn partners(ev: Seq<(Seq<char>, Seq<char>)>, x: Seq<char>, ms: Seq<Seq<char>>) -> Seq<Seq<char>>
    decreases ev.len(),
{
    if ev.len() == 0 {
        Seq::empty()
    } else {
        let r = partners(ev.drop_last(), x, ms);
        let e = ev.last();
        if e.0 == x && ms.contains(e.1) {
            r.push(e.1)
        } else if e.1 == x && ms.contains(e.0) {
            r.push(e.0)
        } else {
            r
        }
    }
}

proof fn lemma_within_split(ev: Seq<(Seq<char>, Seq<char>)>, ms: Seq<Seq<char>>, x: Seq<char>)
    requires
        !ms.contains(x),
        forall|k: int| 0 <= k < ev.len() ==> (#[trigger] ev[k]).0 != ev[k].1,
    ensures
        edges_within(ev, ms.push(x)) == edges_within(ev, ms) + partners(ev, x, ms).len(),
    decreases ev.len(),
{
    if ev.len() > 0 {
        let t = ev.drop_last();
        assert forall|k: int| 0 <= k < t.len() implies (#[trigger] t[k]).0 != t[k].1 by {
            assert(t[k] == ev[k]);
        }
        lemma_within_split(t, ms, x);
        let e = ev.last();
        assert(ev[ev.len() - 1] == e);
        let mx = ms.push(x);
        assert forall|y: Seq<char>| mx.contains(y) <==> (ms.contains(y) || y == x) by {
            if mx.contains(y) {
                let j = choose|j: int| 0 <= j < mx.len() && mx[j] == y;
                if j < ms.len() {
                    assert(ms[j] == y);
                }
            }
            if ms.contains(y) {
                let j = choose|j: int| 0 <= j < ms.len() && ms[j] == y;
                assert(mx[j] == y);
            }
            if y == x {
                assert(mx[ms.len() as int] == x);
            }
        }
        assert(mx.contains(e.0) == (ms.contains(e.0) || e.0 == x));
        assert(mx.contains(e.1) == (ms.contains(e.1) || e.1 == x));
    }
}

proof fn lemma_partners(ev: Seq<(Seq<char>, Seq<char>)>, x: Seq<char>, ms: Seq<Seq<char>>)
    requires
        simple_edges(ev),
    ensures
        partners(ev, x, ms).no_duplicates(),
        forall|j: int| 0 <= j < partners(ev, x, ms).len() ==> ms.contains(#[trigger] partners(ev, x, ms)[j]),
        forall|j: int|
            #![trigger partners(ev, x, ms)[j]]
            0 <= j < partners(ev, x, ms).len() ==> exists|k: int|
                0 <= k < ev.len() && same_pair(#[trigger] ev[k], (x, partners(ev, x, ms)[j])),
    decreases ev.len(),
{
    if ev.len() > 0 {
        let t = ev.drop_last();
        assert(simple_edges(t)) by {
            assert forall|k: int| 0 <= k < t.len() implies (#[trigger] t[k]).0 != t[k].1 by {
                assert(t[k] == ev[k]);
            }
            assert forall|k: int, l: int| 0 <= k < l < t.len() implies !same_pair(#[trigger] t[k], #[trigger] t[l]) by {
                assert(t[k] == ev[k] && t[l] == ev[l]);
            }
        }
        lemma_partners(t, x, ms);
        let r = partners(t, x, ms);
        let e = ev.last();
        let last = ev.len() - 1;
        assert(ev[last] == e);
        let p = partners(ev, x, ms);
        if (e.0 == x && ms.contains(e.1)) || (e.1 == x && ms.contains(e.0)) {
            let y = if e.0 == x && ms.contains(e.1) { e.1 } else { e.0 };
            assert(p == r.push(y));
            assert(same_pair(e, (x, y)));
            if r.contains(y) {
                let j = choose|j: int| 0 <= j < r.len() && r[j] == y;
                let k = choose|k: int| 0 <= k < t.len() && same_pair(#[trigger] t[k], (x, r[j]));
                assert(t[k] == ev[k]);
                assert(same_pair(ev[k], ev[last]));
                assert(false);
            }
            assert forall|a: int, b: int| 0 <= a < b < p.len() implies p[a] != p[b] by {
                if b < r.len() {
                    assert(p[a] == r[a] && p[b] == r[b]);
                } else {
                    assert(p[a] == r[a]);
                }
            }
            assert forall|j: int| 0 <= j < p.len() implies ms.contains(#[trigger] p[j]) by {
                if j < r.len() {
                    assert(p[j] == r[j]);
                }
            }
            assert forall|j: int| #![trigger p[j]] 0 <= j < p.len() implies exists|k: int|
                0 <= k < ev.len() && same_pair(#[trigger] ev[k], (x, p[j])) by {
                if j < r.len() {
                    assert(p[j] == r[j]);
                    let k = choose|k: int| 0 <= k < t.len() && same_pair(#[trigger] t[k], (x, r[j]));
                    assert(t[k] == ev[k]);
                } else {
                    assert(same_pair(ev[last], (x, p[j])));
                }
            }
        } else {
            assert(p == r);
            assert forall|j: int| #![trigger p[j]] 0 <= j < p.len() implies exists|k: int|
                0 <= k < ev.len() && same_pair(#[trigger] ev[k], (x, p[j])) by {
                let k = choose|k: int| 0 <= k < t.len() && same_pair(#[trigger] t[k], (x, r[j]));
                assert(t[k] == ev[k]);
            }
        }
    }
}

proof fn lemma_within_empty(ev: Seq<(Seq<char>, Seq<char>)>)
    ensures
        edges_within(ev, Seq::empty()) == 0,
    decreases ev.len(),
{
    if ev.len() > 0 {
        lemma_within_empty(ev.drop_last());
    }
}

proof fn lemma_within_pairs(ev: Seq<(Seq<char>, Seq<char>)>, ms: Seq<Seq<char>>)
    requires
        simple_edges(ev),
        ms.no_duplicates(),
    ensures
        edges_within(ev, ms) <= pair_count(ms.len()),
    decreases ms.len(),
{
    if ms.len() == 0 {
        assert(ms =~= Seq::<Seq<char>>::empty());
        lemma_within_empty(ev);
    } else {
        let m0 = ms.drop_last();
        let x = ms.last();
        assert(m0.no_duplicates());
        assert(!m0.contains(x)) by {
            if m0.contains(x) {
                let j = choose|j: int| 0 <= j < m0.len() && m0[j] == x;
                assert(ms[j] == ms[ms.len() - 1]);
            }
        }
        assert(ms =~= m0.push(x));
        lemma_within_pairs(ev, m0);
        lemma_within_split(ev, m0, x);
        lemma_partners(ev, x, m0);
        let p = partners(ev, x, m0);
        p.unique_seq_to_set();
        m0.unique_seq_to_set();
        assert(p.to_set().subset_of(m0.to_set())) by {
            assert forall|y: Seq<char>| p.to_set().contains(y) implies m0.to_set().contains(y) by {
                let j = choose|j: int| 0 <= j < p.len() && p[j] == y;
                assert(m0.contains(p[j]));
            }
        }
        vstd::set_lib::lemma_len_subset(p.to_set(), m0.to_set());
    }
}

proof fn lemma_numbered_possible(
    nodes: Seq<Seq<char>>,
    comm: Seq<usize>,
    ie: Seq<(usize, usize)>,
    names: Seq<(Seq<char>, Seq<char>)>,
    upto: nat,
)
    requires
        upto <= usize::MAX,
    ensures
        forall|i: int|
            0 <= i < numbered_communities(nodes, comm, ie, names, upto).len() ==> (#[trigger] numbered_communities(
                nodes,
                comm,
                ie,
                names,
                upto,
            )[i]).possible_edges == (numbered_communities(nodes, comm, ie, names, upto)[i].members.len() * (
            numbered_communities(nodes, comm, ie, names, upto)[i].members.len() - 1) / 2) as u128
                && numbered_communities(nodes, comm, ie, names, upto)[i].members.len() <= nodes.len(),
    decreases upto,
{
    if upto > 0 {
        lemma_numbered_possible(nodes, comm, ie, names, (upto - 1) as nat);
        let prev = numbered_communities(nodes, comm, ie, names, (upto - 1) as nat);
        let s = numbered_communities(nodes, comm, ie, names, upto);
        let c = (upto - 1) as usize;
        lemma_members_len(nodes, comm, c, nodes.len() as int);
        assert forall|i: int| 0 <= i < s.len() implies (#[trigger] s[i]).possible_edges == (s[i].members.len() * (
        s[i].members.len() - 1) / 2) as u128 && s[i].members.len() <= nodes.len() by {
            if i < prev.len() {
                assert(s[i] == prev[i]);
            }
        }
    }
}

/// On a graph where no edge joins a symbol to itself and no two edges join
/// the same pair, a community never has more internal edges than pairs of
/// members: its cohesion is at most one. (The edges number at most
/// `usize::MAX / 32`, as for [`detect_communities`].)
pub proof fn law_cohesion_at_most_one(ev: Seq<(Seq<char>, Seq<char>)>, names: Seq<(Seq<char>, Seq<char>)>)
    requires
        ev.len() <= usize::MAX / 32,
        simple_edges(ev),
    ensures
        forall|i: int|
            0 <= i < communities_of(ev, names).len() ==> (#[trigger] communities_of(ev, names)[i]).internal_edges
                <= communities_of(ev, names)[i].possible_edges,
{
    law_internal_edges_inside(ev, names);
    law_communities_partition(ev, names);
    let nodes = graph_nodes(ev);
    lemma_endpoints_len(ev);
    crate::sorting::lemma_sort_strs(endpoints(ev));
    assert(sort_strs(endpoints(ev)).len() == endpoints(ev).len()) by {
        broadcast use vstd::seq_lib::group_to_multiset_ensures;

        assert(sort_strs(endpoints(ev)).to_multiset().len() == endpoints(ev).to_multiset().len());
    }
    lemma_dedup_len(sort_strs(endpoints(ev)));
    lemma_graph_nodes_distinct(ev);
    let ie = index_edges(ev, nodes);
    let adj = adjacency(ie, nodes.len());
    let comm = louvain(adj, singletons(nodes.len()), 2 * ev.len() as int, 20);
    lemma_numbered_possible(nodes, comm, ie, names, nodes.len());
    lemma_numbered_partitioned(nodes, comm, ie, names, nodes.len());
    let s = numbered_communities(nodes, comm, ie, names, nodes.len());
    lemma_by_size_partitioned(s, nodes);
    let r = communities_of(ev, names);
    assert forall|i: int| 0 <= i < r.len() implies (#[trigger] r[i]).internal_edges <= r[i].possible_edges by {
        assert(s.contains(r[i]));
        let j = choose|j: int| 0 <= j < s.len() && s[j] == r[i];
        let m = r[i].members.len();
        assert(r[i].members.no_duplicates());
        lemma_within_pairs(ev, r[i].members);
        lemma_pair_count(m);
        assert(m <= nodes.len());
        assert(m < 0x1_0000_0000_0000_0000);
        assert(m * (m - 1) / 2 < 0x1_0000_0000_0000_0000_0000_0000_0000_0000) by (nonlinear_arith)
            requires
                m < 0x1_0000_0000_0000_0000,
        ;
    }
}

} // verus!
