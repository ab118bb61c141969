//! Ascending lexicographic sorting of strings.

use vstd::prelude::*;
use crate::text::{lemma_lex_irreflexive, lemma_lex_total, lemma_lex_transitive, lex_lt, str_less};

verus! {

/// `x` inserted into `s` before the first element that does not sort before it.
pub open spec fn insert_sorted(s: Seq<Seq<char>>, x: Seq<char>) -> Seq<Seq<char>>
    decreases s.len(),
{
    if s.len() == 0 {
        seq![x]
    } else if lex_lt(s[0], x) {
        seq![s[0]] + insert_sorted(s.drop_first(), x)
    } else {
        seq![x] + s
    }
}

/// The strings of `s` in ascending order.
pub open spec fn sort_strs(s: Seq<Seq<char>>) -> Seq<Seq<char>>
    decreases s.len(),
{
    if s.len() == 0 {
        s
    } else {
        insert_sorted(sort_strs(s.drop_last()), s.last())
    }
}

/// No element sorts before an earlier one.
pub open spec fn strs_sorted(s: Seq<Seq<char>>) -> bool {
    forall|i: int, j: int| 0 <= i < j < s.len() ==> !lex_lt(#[trigger] s[j], #[trigger] s[i])
}

proof fn lemma_insert_at(s: Seq<Seq<char>>, x: Seq<char>, k: int)
    requires
        0 <= k <= s.len(),
        forall|j: int| 0 <= j < k ==> lex_lt(#[trigger] s[j], x),
        k < s.len() ==> !lex_lt(s[k], x),
    ensures
        insert_sorted(s, x) == s.insert(k, x),
    decreases k,
{
    if k == 0 {
        if s.len() == 0 {
            assert(s.insert(0, x) =~= seq![x]);
        } else {
            assert(s.insert(0, x) =~= seq![x] + s);
        }
    } else {
        let t = s.drop_first();
        assert forall|j: int| 0 <= j < k - 1 implies lex_lt(#[trigger] t[j], x) by {
            assert(t[j] == s[j + 1]);
        }
        if k < s.len() {
            assert(t[k - 1] == s[k]);
        }
        lemma_insert_at(t, x, k - 1);
        assert(s.insert(k, x) =~= seq![s[0]] + t.insert(k - 1, x));
    }
}

/// The same strings, in ascending order.
pub fn sort_strings(v: &Vec<String>) -> (r: Vec<String>)
    ensures
        r.deep_view() == sort_strs(v.deep_view()),
{
    let ghost vv = v.deep_view();
    let mut r: Vec<String> = Vec::new();
    let mut i: usize = 0;
    while i < v.len()
        invariant
            i <= vv.len(),
            vv == v.deep_view(),
            r.deep_view() == sort_strs(vv.take(i as int)),
        decreases vv.len() - i,
    {
        let x = v[i].clone();
        let ghost rv = r.deep_view();
        let mut k: usize = 0;
        while k < r.len() && str_less(r[k].as_str(), x.as_str())
            invariant
                k <= rv.len(),
                rv == r.deep_view(),
                forall|j: int| 0 <= j < k ==> lex_lt(#[trigger] rv[j], x@),
            decreases rv.len() - k,
        {
            proof {
                assert(rv[k as int] == r@[k as int]@);
            }
            k = k + 1;
        }
        proof {
            if k < rv.len() {
                assert(rv[k as int] == r@[k as int]@);
            }
            lemma_insert_at(rv, x@, k as int);
            assert(vv.take(i + 1).drop_last() =~= vv.take(i as int));
            assert(vv[i as int] == v@[i as int]@);
        }
        r.insert(k, x);
        proof {
            assert(r.deep_view() =~= rv.insert(k as int, x@));
        }
        i = i + 1;
    }
    proof {
        assert(vv.take(vv.len() as int) =~= vv);
    }
    r
}

proof fn lemma_insert_sorted_props(s: Seq<Seq<char>>, x: Seq<char>)
    requires
        strs_sorted(s),
    ensures
        strs_sorted(insert_sorted(s, x)),
        insert_sorted(s, x).to_multiset() == s.to_multiset().insert(x),
    decreases s.len(),
{
    broadcast use vstd::seq_lib::group_to_multiset_ensures;
    let r = insert_sorted(s, x);
    if s.len() == 0 {
        assert(s =~= Seq::<Seq<char>>::empty());
    } else if lex_lt(s[0], x) {
        let t = s.drop_first();
        assert forall|i: int, j: int| 0 <= i < j < t.len() implies !lex_lt(#[trigger] t[j], #[trigger] t[i]) by {
            assert(t[i] == s[i + 1] && t[j] == s[j + 1]);
        }
        lemma_insert_sorted_props(t, x);
        let u = insert_sorted(t, x);
        assert(r =~= seq![s[0]] + u);
        // every element of u is s[0] or later, or x
        assert forall|j: int| 0 <= j < u.len() implies !lex_lt(#[trigger] u[j], s[0]) by {
            assert(u.to_multiset().contains(u[j]));
            assert(u.to_multiset().count(u[j]) > 0);
            if u[j] == x {
                if lex_lt(x, s[0]) {
                    lemma_lex_transitive(x, s[0], x);
                    lemma_lex_irreflexive(x);
                }
            } else {
                assert(t.to_multiset().count(u[j]) > 0);
                assert(t.contains(u[j]));
                let q = choose|q: int| 0 <= q < t.len() && t[q] == u[j];
                assert(s[q + 1] == t[q]);
                assert(!lex_lt(s[q + 1], s[0]));
            }
        }
        assert forall|i: int, j: int| 0 <= i < j < r.len() implies !lex_lt(#[trigger] r[j], #[trigger] r[i]) by {
            if i == 0 {
                assert(r[j] == u[j - 1]);
            } else {
                assert(r[i] == u[i - 1] && r[j] == u[j - 1]);
            }
        }
        assert(s =~= seq![s[0]] + t);
        vstd::seq_lib::lemma_multiset_commutative(seq![s[0]], u);
        vstd::seq_lib::lemma_multiset_commutative(seq![s[0]], t);
    } else {
        assert(r =~= seq![x] + s);
        assert forall|i: int, j: int| 0 <= i < j < r.len() implies !lex_lt(#[trigger] r[j], #[trigger] r[i]) by {
            if i == 0 {
                assert(r[j] == s[j - 1]);
                if j - 1 > 0 {
                    assert(!lex_lt(s[j - 1], s[0]));
                    if lex_lt(s[j - 1], x) {
                        if s[0] != s[j - 1] {
                            lemma_lex_total(s[0], s[j - 1]);
                        }
                        if lex_lt(s[0], s[j - 1]) {
                            lemma_lex_transitive(s[0], s[j - 1], x);
                        }
                    }
                }
            } else {
                assert(r[i] == s[i - 1] && r[j] == s[j - 1]);
            }
        }
        vstd::seq_lib::lemma_multiset_commutative(seq![x], s);
    }
}

/// Sorting yields an ascending arrangement of the same strings, each as
/// often as before.
pub proof fn lemma_sort_strs(s: Seq<Seq<char>>)
    ensures
        strs_sorted(sort_strs(s)),
        sort_strs(s).to_multiset() == s.to_multiset(),
    decreases s.len(),
{
    broadcast use vstd::seq_lib::group_to_multiset_ensures;
    if s.len() == 0 {
    } else {
        lemma_sort_strs(s.drop_last());
        lemma_insert_sorted_props(sort_strs(s.drop_last()), s.last());
        assert(s =~= s.drop_last().push(s.last()));
    }
}

} // verus!
