//! Import resolution: import paths → files of the repository, and IMPORTS edges.

use vstd::prelude::*;
use crate::analyzer::{entry_under, index_lookup, known_files, FileExport, SymbolIndex, SymbolRefV};
use crate::parser::imports::{RawImport, RawImportV};
use crate::text::{chars_of, chars_occur_at, concat, contains, ends_with, is_infix_of, is_prefix_of, is_suffix_of, join_chars, join_with, lemma_chars_deep, lex_lt, split_chars, split_on, str_eq, str_less, string_of, clone_chars};
use super::{conf, edge, file_uid, Confidence, RelationKind, Relationship, RelationshipV};

verus! {

// ─── Path model ─────────────────────────────────────────────────────

/// Empty and `.` path components carry no information.
pub open spec fn is_ignored_part(p: Seq<char>) -> bool {
    p.len() == 0 || p == seq!['.']
}

/// Left-to-right path normalisation of components: drop empty and `.`
/// components; `..` removes the previous kept component (if any).
pub open spec fn norm_parts(parts: Seq<Seq<char>>) -> Seq<Seq<char>>
    decreases parts.len(),
{
    if parts.len() == 0 {
        Seq::empty()
    } else {
        let r = norm_parts(parts.drop_last());
        let p = parts.last();
        if is_ignored_part(p) {
            r
        } else if p == seq!['.', '.'] {
            if r.len() > 0 {
                r.drop_last()
            } else {
                r
            }
        } else {
            r.push(p)
        }
    }
}

/// Normalised form of a `/`-separated path.
pub open spec fn normalized(path: Seq<char>) -> Seq<char> {
    join_with(norm_parts(split_on(path, '/')), '/')
}

/// Selects the components that carry information.
pub open spec fn plain_part() -> spec_fn(Seq<char>) -> Option<Seq<char>> {
    |c: Seq<char>|
        if is_ignored_part(c) {
            None
        } else {
            Some(c)
        }
}

/// Components of a path, without empty and `.` components.
pub open spec fn plain_components(s: Seq<char>) -> Seq<Seq<char>> {
    split_on(s, '/').filter_map(plain_part())
}

/// Components of the directory that holds `s` (`Path::parent`).
pub open spec fn parent_components(s: Seq<char>) -> Seq<Seq<char>> {
    let c = plain_components(s);
    if c.len() > 0 {
        c.drop_last()
    } else {
        c
    }
}

/// `Path::parent` exists: the path holds some character other than `/`.
pub open spec fn has_parent(s: Seq<char>) -> bool {
    exists|i: int| 0 <= i < s.len() && s[i] != '/'
}

/// `s.trim_end_matches(pat)`.
pub open spec fn trim_end_all(s: Seq<char>, pat: Seq<char>) -> Seq<char>
    decreases s.len(),
{
    if pat.len() > 0 && is_suffix_of(pat, s) {
        trim_end_all(s.subrange(0, s.len() - pat.len()), pat)
    } else {
        s
    }
}

/// `s.trim_start_matches(pat)`.
pub open spec fn trim_start_all(s: Seq<char>, pat: Seq<char>) -> Seq<char>
    decreases s.len(),
{
    if pat.len() > 0 && is_prefix_of(pat, s) {
        trim_start_all(s.subrange(pat.len() as int, s.len() as int), pat)
    } else {
        s
    }
}

/// Import source with script extensions removed.
pub open spec fn clean_source(src: Seq<char>) -> Seq<char> {
    trim_end_all(trim_end_all(trim_end_all(trim_end_all(src, ".js"@), ".jsx"@), ".ts"@), ".tsx"@)
}

/// The normalised path a relative import denotes, seen from `from`.
pub open spec fn import_base(from: Seq<char>, src: Seq<char>) -> Seq<char> {
    join_with(norm_parts(parent_components(from) + split_on(clean_source(src), '/')), '/')
}

/// Candidate files for a relative import, in priority order.
pub open spec fn relative_candidates(base: Seq<char>) -> Seq<Seq<char>> {
    seq![
        base,
        base + ".ts"@,
        base + ".tsx"@,
        base + ".js"@,
        base + ".jsx"@,
        base + ".rb"@,
        base + ".go"@,
        base + "/index.ts"@,
        base + "/index.tsx"@,
        base + "/index.js"@,
    ]
}

/// The first element of `known` satisfying `pred`.
pub open spec fn first_known(known: Seq<Seq<char>>, pred: spec_fn(Seq<char>) -> bool) -> Option<
    Seq<char>,
>
    decreases known.len(),
{
    if known.len() == 0 {
        None
    } else if pred(known[0]) {
        Some(known[0])
    } else {
        first_known(known.drop_first(), pred)
    }
}

/// Holds of the strings that end with `suf`.
pub open spec fn ends_with_pred(suf: Seq<char>) -> spec_fn(Seq<char>) -> bool {
    |k: Seq<char>| is_suffix_of(suf, k)
}

/// Holds of the known files that match the tail of a TypeScript import.
pub open spec fn ts_tail_pred(src: Seq<char>) -> spec_fn(Seq<char>) -> bool {
    |k: Seq<char>| ts_tail_match(k, src)
}

/// The first candidate that is a known file.
pub open spec fn first_candidate(cands: Seq<Seq<char>>, known: Seq<Seq<char>>) -> Option<Seq<char>>
    decreases cands.len(),
{
    if cands.len() == 0 {
        None
    } else if known.contains(cands[0]) {
        Some(cands[0])
    } else {
        first_candidate(cands.drop_first(), known)
    }
}

/// The first known file that ends with one of the suffixes, trying the
/// suffixes in order.
pub open spec fn first_with_suffix(sfx: Seq<Seq<char>>, known: Seq<Seq<char>>) -> Option<Seq<char>>
    decreases sfx.len(),
{
    if sfx.len() == 0 {
        None
    } else {
        match first_known(known, ends_with_pred(sfx[0])) {
            Some(k) => Some(k),
            None => first_with_suffix(sfx.drop_first(), known),
        }
    }
}

/// The least element of a non-empty sequence.
pub open spec fn seq_min(s: Seq<Seq<char>>) -> Seq<char>
    decreases s.len(),
{
    if s.len() <= 1 {
        s[0]
    } else {
        let m = seq_min(s.drop_last());
        if lex_lt(s.last(), m) {
            s.last()
        } else {
            m
        }
    }
}

/// Go files under the directory `dir_prefix` (which ends with `/`).
pub open spec fn go_file_under(dir_prefix: Seq<char>) -> spec_fn(Seq<char>) -> Option<Seq<char>> {
    |k: Seq<char>|
        if is_infix_of(dir_prefix, k) && is_suffix_of(".go"@, k) {
            Some(k)
        } else {
            None
        }
}

/// Directory prefix made of the components `parts[start..]`.
pub open spec fn dir_prefix(parts: Seq<Seq<char>>, start: int) -> Seq<char> {
    join_with(parts.subrange(start, parts.len() as int), '/').push('/')
}

/// Go package match: the least Go file under the longest suffix of the
/// import path that names a directory holding Go files.
pub open spec fn go_package_match(parts: Seq<Seq<char>>, start: int, known: Seq<Seq<char>>) -> Option<
    Seq<char>,
>
    decreases parts.len() - start,
{
    if start < 0 || start >= parts.len() {
        None
    } else {
        let m = known.filter_map(go_file_under(dir_prefix(parts, start)));
        if m.len() > 0 {
            Some(seq_min(m))
        } else {
            go_package_match(parts, start + 1, known)
        }
    }
}

/// Resolution of a non-relative (package) import.
pub open spec fn package_import(src: Seq<char>, known: Seq<Seq<char>>) -> Option<Seq<char>> {
    let sfx = seq![src + ".ts"@, src + ".js"@, src + ".rb"@, src + "/index.ts"@, src + "/index.js"@];
    match first_with_suffix(sfx, known) {
        Some(k) => Some(k),
        None => match go_package_match(split_on(src, '/'), 0, known) {
            Some(k) => Some(k),
            None => first_known(known, ends_with_pred(src + ".rb"@)),
        },
    }
}

/// Known file that ends with `/<src>.ts` or `/<src>.tsx`, `src` without leading `./`.
pub open spec fn ts_tail_match(k: Seq<char>, src: Seq<char>) -> bool {
    let s2 = trim_start_all(src, "./"@);
    is_suffix_of(seq!['/'] + s2 + ".ts"@, k) || is_suffix_of(seq!['/'] + s2 + ".tsx"@, k)
}

/// The file an import refers to, if it is one of the known files.
pub open spec fn import_target(from: Seq<char>, src: Seq<char>, known: Seq<Seq<char>>) -> Option<
    Seq<char>,
> {
    if !(src.len() > 0 && src[0] == '.') {
        package_import(src, known)
    } else if !has_parent(from) {
        None
    } else {
        match first_candidate(relative_candidates(import_base(from, src)), known) {
            Some(c) => Some(c),
            None => first_known(known, ts_tail_pred(src)),
        }
    }
}

// ─── Lemmas ─────────────────────────────────────────────────────────

proof fn lemma_first_known_found(known: Seq<Seq<char>>, pred: spec_fn(Seq<char>) -> bool, i: int)
    requires
        0 <= i < known.len(),
        pred(known[i]),
        forall|j: int| 0 <= j < i ==> !pred(known[j]),
    ensures
        first_known(known, pred) == Some(known[i]),
    decreases i,
{
    if i > 0 {
        let t = known.drop_first();
        assert forall|j: int| 0 <= j < i - 1 implies !pred(t[j]) by {
            assert(t[j] == known[j + 1]);
        }
        lemma_first_known_found(t, pred, i - 1);
    }
}

proof fn lemma_first_known_none(known: Seq<Seq<char>>, pred: spec_fn(Seq<char>) -> bool)
    requires
        forall|j: int| 0 <= j < known.len() ==> !pred(known[j]),
    ensures
        first_known(known, pred) == None::<Seq<char>>,
    decreases known.len(),
{
    if known.len() > 0 {
        let t = known.drop_first();
        assert forall|j: int| 0 <= j < t.len() implies !pred(t[j]) by {
            assert(t[j] == known[j + 1]);
        }
        lemma_first_known_none(t, pred);
    }
}

proof fn lemma_seq_min_push(s: Seq<Seq<char>>, x: Seq<char>)
    requires
        s.len() > 0,
    ensures
        seq_min(s.push(x)) == (if lex_lt(x, seq_min(s)) {
            x
        } else {
            seq_min(s)
        }),
{
    assert(s.push(x).drop_last() =~= s);
}

// ─── Executable path helpers ────────────────────────────────────────

/// `s.trim_end_matches(pat)`.
fn trim_end_matches(s: &[char], pat: &[char]) -> (r: Vec<char>)
    ensures
        r@ == trim_end_all(s@, pat@),
{
    let mut end: usize = s.len();
    proof {
        assert(s@.subrange(0, s@.len() as int) =~= s@);
    }
    while pat.len() > 0 && pat.len() <= end && chars_ends_with_at(s, end, pat)
        invariant
            end <= s@.len(),
            trim_end_all(s@, pat@) == trim_end_all(s@.subrange(0, end as int), pat@),
        decreases end,
    {
        proof {
            let t = s@.subrange(0, end as int);
            assert(t.subrange(0, t.len() - pat@.len()) =~= s@.subrange(0, end - pat@.len()));
        }
        end = end - pat.len();
    }
    proof {
        let t = s@.subrange(0, end as int);
        if pat@.len() > 0 && pat@.len() <= end {
            assert(!is_suffix_of(pat@, t));
        }
    }
    let mut r: Vec<char> = Vec::new();
    let mut i: usize = 0;
    while i < end
        invariant
            i <= end <= s@.len(),
            r@ == s@.subrange(0, i as int),
        decreases end - i,
    {
        r.push(s[i]);
        i = i + 1;
        proof {
            assert(r@ =~= s@.subrange(0, i as int));
        }
    }
    r
}

/// Whether `pat` is a suffix of `s[..end]`.
fn chars_ends_with_at(s: &[char], end: usize, pat: &[char]) -> (r: bool)
    requires
        end <= s@.len(),
    ensures
        r == is_suffix_of(pat@, s@.subrange(0, end as int)),
{
    if pat.len() > end {
        return false;
    }
    let r = chars_occur_at(pat, s, end - pat.len());
    proof {
        let t = s@.subrange(0, end as int);
        assert(t.subrange(t.len() - pat@.len(), t.len() as int) =~= s@.subrange(
            end - pat@.len(),
            end as int,
        ));
    }
    r
}

/// `s.trim_start_matches(pat)`.
fn trim_start_matches(s: &[char], pat: &[char]) -> (r: Vec<char>)
    ensures
        r@ == trim_start_all(s@, pat@),
{
    let mut start: usize = 0;
    proof {
        assert(s@.subrange(0, s@.len() as int) =~= s@);
    }
    while pat.len() > 0 && start <= s.len() && pat.len() <= s.len() - start && chars_occur_at(
        pat,
        s,
        start,
    )
        invariant
            start <= s@.len(),
            trim_start_all(s@, pat@) == trim_start_all(s@.subrange(start as int, s@.len() as int), pat@),
        decreases s@.len() - start,
    {
        proof {
            let t = s@.subrange(start as int, s@.len() as int);
            assert(t.subrange(0, pat@.len() as int) =~= s@.subrange(start as int, start + pat@.len()));
            assert(t.subrange(pat@.len() as int, t.len() as int) =~= s@.subrange(
                start + pat@.len(),
                s@.len() as int,
            ));
        }
        start = start + pat.len();
    }
    proof {
        let t = s@.subrange(start as int, s@.len() as int);
        if pat@.len() > 0 && pat@.len() <= t.len() {
            assert(t.subrange(0, pat@.len() as int) =~= s@.subrange(start as int, start + pat@.len()));
        }
    }
    let mut r: Vec<char> = Vec::new();
    let mut i: usize = start;
    while i < s.len()
        invariant
            start <= i <= s@.len(),
            r@ == s@.subrange(start as int, i as int),
        decreases s@.len() - i,
    {
        r.push(s[i]);
        i = i + 1;
        proof {
            assert(r@ =~= s@.subrange(start as int, i as int));
        }
    }
    r
}

/// Whether a component is empty or `.`.
fn ignored_part(p: &[char]) -> (r: bool)
    ensures
        r == is_ignored_part(p@),
{
    if p.len() == 0 {
        true
    } else if p.len() == 1 && p[0] == '.' {
        proof {
            assert(p@ =~= seq!['.']);
        }
        true
    } else {
        proof {
            if p@.len() == 1 {
                assert(p@[0] != seq!['.'][0]);
            }
        }
        false
    }
}

/// Whether a component is `..`.
fn dot_dot(p: &[char]) -> (r: bool)
    ensures
        r == (p@ == seq!['.', '.']),
{
    if p.len() == 2 && p[0] == '.' && p[1] == '.' {
        proof {
            assert(p@ =~= seq!['.', '.']);
        }
        true
    } else {
        proof {
            if p@.len() == 2 && p@ == seq!['.', '.'] {
                assert(p@[0] == '.' && p@[1] == '.');
            }
        }
        false
    }
}

/// Normalised components.
fn normalize_parts(parts: &Vec<Vec<char>>) -> (r: Vec<Vec<char>>)
    ensures
        r.deep_view() == norm_parts(parts.deep_view()),
{
    let ghost pv = parts.deep_view();
    let mut r: Vec<Vec<char>> = Vec::new();
    let mut i: usize = 0;
    while i < parts.len()
        invariant
            i <= pv.len(),
            pv == parts.deep_view(),
            r.deep_view() == norm_parts(pv.take(i as int)),
        decreases pv.len() - i,
    {
        let p = &parts[i];
        proof {
            lemma_chars_deep(*p);
            assert(pv.take(i + 1).drop_last() =~= pv.take(i as int));
            assert(pv.take(i + 1).last() == p@);
        }
        if ignored_part(p.as_slice()) {
        } else if dot_dot(p.as_slice()) {
            if r.len() > 0 {
                let ghost before = r.deep_view();
                r.pop();
                proof {
                    assert(r.deep_view() =~= before.drop_last());
                }
            }
        } else {
            let ghost before = r.deep_view();
            let c = clone_chars(p);
            r.push(c);
            proof {
                assert(r.deep_view() =~= before.push(p@));
            }
        }
        i = i + 1;
    }
    proof {
        assert(pv.take(pv.len() as int) =~= pv);
    }
    r
}

/// Collapse `.`, `..` and empty components of a `/`-separated path.
pub fn normalize_path(path: &str) -> (r: String)
    ensures
        r@ == normalized(path@),
{
    let v = chars_of(path);
    let parts = split_chars(v.as_slice(), '/');
    let n = normalize_parts(&parts);
    let j = join_chars(&n, '/');
    string_of(j.as_slice())
}

/// Components without empty and `.` components.
fn plain_components_of(s: &[char]) -> (r: Vec<Vec<char>>)
    ensures
        r.deep_view() == plain_components(s@),
{
    let parts = split_chars(s, '/');
    let ghost pv = parts.deep_view();
    let ghost f = plain_part();
    let mut r: Vec<Vec<char>> = Vec::new();
    let mut i: usize = 0;
    while i < parts.len()
        invariant
            i <= pv.len(),
            pv == parts.deep_view(),
            f == plain_part(),
            r.deep_view() == pv.take(i as int).filter_map(f),
        decreases pv.len() - i,
    {
        proof {
            pv.lemma_filter_map_take_succ(f, i as int);
            lemma_chars_deep(parts@[i as int]);
        }
        let p = &parts[i];
        if !ignored_part(p.as_slice()) {
            let ghost before = r.deep_view();
            let c = clone_chars(p);
            r.push(c);
            proof {
                assert(r.deep_view() =~= before.push(p@));
            }
        }
        i = i + 1;
    }
    proof {
        assert(pv.take(pv.len() as int) =~= pv);
    }
    r
}

/// Components of the directory that holds `f`.
pub fn parent_components_of(f: &str) -> (r: Vec<Vec<char>>)
    ensures
        r.deep_view() == parent_components(f@),
{
    let v = chars_of(f);
    let mut pc = plain_components_of(v.as_slice());
    if pc.len() > 0 {
        let ghost before = pc.deep_view();
        pc.pop();
        proof {
            assert(pc.deep_view() =~= before.drop_last());
        }
    }
    pc
}

/// Appends the characters of `b` to `a`.
fn extend_chars(a: &mut Vec<char>, b: &[char])
    ensures
        final(a)@ == old(a)@ + b@,
{
    let mut i: usize = 0;
    while i < b.len()
        invariant
            i <= b@.len(),
            a@ == old(a)@ + b@.subrange(0, i as int),
        decreases b@.len() - i,
    {
        a.push(b[i]);
        i = i + 1;
        proof {
            assert(a@ =~= old(a)@ + b@.subrange(0, i as int));
        }
    }
    proof {
        assert(b@.subrange(0, b@.len() as int) =~= b@);
    }
}

/// `a` followed by the characters of a literal.
fn with_suffix(a: &[char], lit: &str) -> (r: String)
    ensures
        r@ == a@ + lit@,
{
    let mut v: Vec<char> = Vec::new();
    extend_chars(&mut v, a);
    let l = chars_of(lit);
    extend_chars(&mut v, l.as_slice());
    string_of(v.as_slice())
}

/// Whether `c` equals one of the known files.
fn known_contains(known: &[String], c: &str) -> (r: bool)
    ensures
        r == known.deep_view().contains(c@),
{
    let mut i: usize = 0;
    while i < known.len()
        invariant
            i <= known@.len(),
            forall|j: int| 0 <= j < i ==> known.deep_view()[j] != c@,
        decreases known@.len() - i,
    {
        if str_eq(known[i].as_str(), c) {
            proof {
                assert(known.deep_view()[i as int] == c@);
            }
            return true;
        }
        i = i + 1;
    }
    proof {
        if known.deep_view().contains(c@) {
            let j = choose|j: int| 0 <= j < known.deep_view().len() && known.deep_view()[j] == c@;
            assert(known.deep_view()[j] != c@);
        }
    }
    false
}

/// The first known file that ends with `suf`.
fn first_ending_with(known: &[String], suf: &str) -> (r: Option<String>)
    ensures
        r.deep_view() == first_known(known.deep_view(), ends_with_pred(suf@)),
{
    let ghost kv = known.deep_view();
    let ghost pred = ends_with_pred(suf@);
    let mut i: usize = 0;
    while i < known.len()
        invariant
            i <= kv.len(),
            kv == known.deep_view(),
            pred == ends_with_pred(suf@),
            forall|j: int| 0 <= j < i ==> !pred(kv[j]),
        decreases kv.len() - i,
    {
        if ends_with(known[i].as_str(), suf) {
            proof {
                lemma_first_known_found(kv, pred, i as int);
            }
            return Some(known[i].clone());
        }
        i = i + 1;
    }
    proof {
        lemma_first_known_none(kv, pred);
    }
    None
}

/// `parts[start..].join("/") + "/"`.
fn dir_prefix_of(parts: &Vec<Vec<char>>, start: usize) -> (r: String)
    requires
        start <= parts@.len(),
    ensures
        r@ == dir_prefix(parts.deep_view(), start as int),
{
    let mut sub: Vec<Vec<char>> = Vec::new();
    let mut i: usize = start;
    while i < parts.len()
        invariant
            start <= i <= parts@.len(),
            sub.deep_view() == parts.deep_view().subrange(start as int, i as int),
        decreases parts@.len() - i,
    {
        let ghost before = sub.deep_view();
        let c = clone_chars(&parts[i]);
        let ghost cd = c.deep_view();
        proof {
            assert(cd == parts.deep_view()[i as int]);
        }
        sub.push(c);
        proof {
            assert(sub.deep_view() =~= before.push(cd));
        }
        i = i + 1;
        proof {
            assert(sub.deep_view() =~= parts.deep_view().subrange(start as int, i as int));
        }
    }
    let mut j = join_chars(&sub, '/');
    j.push('/');
    string_of(j.as_slice())
}

/// The least Go file under `dir_prefix`, if any.
fn least_go_file_under(known: &[String], prefix: &str) -> (r: Option<String>)
    ensures
        ({
            let m = known.deep_view().filter_map(go_file_under(prefix@));
            &&& m.len() == 0 ==> r.is_none()
            &&& m.len() > 0 ==> r.deep_view() == Some(seq_min(m))
        }),
{
    let ghost kv = known.deep_view();
    let ghost f = go_file_under(prefix@);
    let mut best: Option<String> = None;
    let mut i: usize = 0;
    while i < known.len()
        invariant
            i <= kv.len(),
            kv == known.deep_view(),
            f == go_file_under(prefix@),
            kv.take(i as int).filter_map(f).len() == 0 ==> best.is_none(),
            kv.take(i as int).filter_map(f).len() > 0 ==> best.deep_view() == Some(
                seq_min(kv.take(i as int).filter_map(f)),
            ),
        decreases kv.len() - i,
    {
        proof {
            kv.lemma_filter_map_take_succ(f, i as int);
        }
        let k = &known[i];
        if contains(k.as_str(), prefix) && ends_with(k.as_str(), ".go") {
            let ghost m = kv.take(i as int).filter_map(f);
            proof {
                assert(kv[i as int] == k@);
                assert(f(k@) == Some(k@));
            }
            match &best {
                None => {
                    proof {
                        assert(kv.take(i + 1).filter_map(f) =~= seq![k@]);
                    }
                    best = Some(k.clone());
                },
                Some(b) => {
                    proof {
                        lemma_seq_min_push(m, k@);
                        assert(kv.take(i + 1).filter_map(f) =~= m.push(k@));
                    }
                    if str_less(k.as_str(), b.as_str()) {
                        best = Some(k.clone());
                    }
                },
            }
        } else {
            proof {
                assert(kv[i as int] == k@);
                assert(f(k@) == None::<Seq<char>>);
                assert(kv.take(i + 1).filter_map(f) =~= kv.take(i as int).filter_map(f));
            }
        }
        i = i + 1;
    }
    proof {
        assert(kv.take(kv.len() as int) =~= kv);
    }
    best
}

/// Resolution of a non-relative (package) import.
fn resolve_package_import(src: &str, known: &[String]) -> (r: Option<String>)
    ensures
        r.deep_view() == package_import(src@, known.deep_view()),
{
    let ghost kv = known.deep_view();
    proof {
        reveal_with_fuel(first_with_suffix, 6);
    }
    let s1 = concat(src, ".ts");
    let s2 = concat(src, ".js");
    let s3 = concat(src, ".rb");
    let s4 = concat(src, "/index.ts");
    let s5 = concat(src, "/index.js");
    let ghost sfx = seq![src@ + ".ts"@, src@ + ".js"@, src@ + ".rb"@, src@ + "/index.ts"@, src@ + "/index.js"@];
    proof {
        assert(sfx.drop_first() =~= seq![src@ + ".js"@, src@ + ".rb"@, src@ + "/index.ts"@, src@ + "/index.js"@]);
        assert(sfx.drop_first().drop_first() =~= seq![src@ + ".rb"@, src@ + "/index.ts"@, src@ + "/index.js"@]);
        assert(sfx.drop_first().drop_first().drop_first() =~= seq![src@ + "/index.ts"@, src@ + "/index.js"@]);
        assert(sfx.drop_first().drop_first().drop_first().drop_first() =~= seq![src@ + "/index.js"@]);
        assert(sfx.drop_first().drop_first().drop_first().drop_first().drop_first() =~= Seq::<Seq<char>>::empty());
    }
    if let Some(k) = first_ending_with(known, s1.as_str()) {
        return Some(k);
    }
    if let Some(k) = first_ending_with(known, s2.as_str()) {
        return Some(k);
    }
    if let Some(k) = first_ending_with(known, s3.as_str()) {
        return Some(k);
    }
    if let Some(k) = first_ending_with(known, s4.as_str()) {
        return Some(k);
    }
    if let Some(k) = first_ending_with(known, s5.as_str()) {
        return Some(k);
    }
    proof {
        assert(first_with_suffix(sfx, kv) == None::<Seq<char>>);
    }
    let sv = chars_of(src);
    let parts = split_chars(sv.as_slice(), '/');
    let ghost pv = parts.deep_view();
    proof {
        assert(sfx == seq![src@ + ".ts"@, src@ + ".js"@, src@ + ".rb"@, src@ + "/index.ts"@, src@ + "/index.js"@]);
    }
    let mut start: usize = 0;
    while start < parts.len()
        invariant
            start <= pv.len(),
            pv == parts.deep_view(),
            pv == split_on(src@, '/'),
            kv == known.deep_view(),
            go_package_match(pv, 0, kv) == go_package_match(pv, start as int, kv),
            package_import(src@, kv) == (match go_package_match(pv, 0, kv) {
                Some(k) => Some(k),
                None => first_known(kv, ends_with_pred(src@ + ".rb"@)),
            }),
        decreases pv.len() - start,
    {
        let dp = dir_prefix_of(&parts, start);
        let found = least_go_file_under(known, dp.as_str());
        proof {
            let m = kv.filter_map(go_file_under(dir_prefix(pv, start as int)));
            assert(dp@ == dir_prefix(pv, start as int));
            if m.len() > 0 {
                assert(go_package_match(pv, start as int, kv) == Some(seq_min(m)));
            } else {
                assert(go_package_match(pv, start as int, kv) == go_package_match(pv, start + 1, kv));
            }
        }
        if found.is_some() {
            return found;
        }
        start = start + 1;
    }
    proof {
        assert(go_package_match(pv, start as int, kv) == None::<Seq<char>>);
    }
    first_ending_with(known, s3.as_str())
}

/// Resolve an import path relative to the importing file.
pub fn resolve_import_path(from_file: &str, import_source: &str, known: &[String]) -> (r: Option<
    String,
>)
    ensures
        r.deep_view() == import_target(from_file@, import_source@, known.deep_view()),
{
    let src = chars_of(import_source);
    if !(src.len() > 0 && src[0] == '.') {
        return resolve_package_import(import_source, known);
    }
    let from = chars_of(from_file);
    let mut any: bool = false;
    let mut q: usize = 0;
    while q < from.len()
        invariant
            q <= from@.len(),
            any == (exists|i: int| 0 <= i < q && from@[i] != '/'),
        decreases from@.len() - q,
    {
        if from[q] != '/' {
            any = true;
        }
        q = q + 1;
    }
    if !any {
        return None;
    }
    // Directory components of the importing file, then the cleaned import path.
    let pc = plain_components_of(from.as_slice());
    let mut comps: Vec<Vec<char>> = pc;
    if comps.len() > 0 {
        let ghost before = comps.deep_view();
        comps.pop();
        proof {
            assert(comps.deep_view() =~= before.drop_last());
        }
    }
    let c1 = trim_end_matches(src.as_slice(), chars_of(".js").as_slice());
    let c2 = trim_end_matches(c1.as_slice(), chars_of(".jsx").as_slice());
    let c3 = trim_end_matches(c2.as_slice(), chars_of(".ts").as_slice());
    let c4 = trim_end_matches(c3.as_slice(), chars_of(".tsx").as_slice());
    let tail = split_chars(c4.as_slice(), '/');
    let ghost head = comps.deep_view();
    let mut k: usize = 0;
    while k < tail.len()
        invariant
            k <= tail@.len(),
            comps.deep_view() == head + tail.deep_view().take(k as int),
        decreases tail@.len() - k,
    {
        let ghost before = comps.deep_view();
        let c = clone_chars(&tail[k]);
        let ghost cd = c.deep_view();
        proof {
            assert(cd == tail.deep_view()[k as int]);
        }
        comps.push(c);
        proof {
            assert(comps.deep_view() =~= before.push(cd));
        }
        k = k + 1;
        proof {
            assert(comps.deep_view() =~= head + tail.deep_view().take(k as int));
        }
    }
    proof {
        assert(tail.deep_view().take(tail@.len() as int) =~= tail.deep_view());
    }
    let normed = normalize_parts(&comps);
    let base = join_chars(&normed, '/');
    let ghost bv = base@;
    proof {
        assert(bv == import_base(from_file@, import_source@));
    }
    let cands: Vec<String> = vec![
        string_of(base.as_slice()),
        with_suffix(base.as_slice(), ".ts"),
        with_suffix(base.as_slice(), ".tsx"),
        with_suffix(base.as_slice(), ".js"),
        with_suffix(base.as_slice(), ".jsx"),
        with_suffix(base.as_slice(), ".rb"),
        with_suffix(base.as_slice(), ".go"),
        with_suffix(base.as_slice(), "/index.ts"),
        with_suffix(base.as_slice(), "/index.tsx"),
        with_suffix(base.as_slice(), "/index.js"),
    ];
    let ghost cv = cands.deep_view();
    proof {
        assert(cv =~= relative_candidates(bv));
        assert(cv.subrange(0, cv.len() as int) =~= cv);
    }
    let mut ci: usize = 0;
    while ci < cands.len()
        invariant
            ci <= cv.len(),
            cv == cands.deep_view(),
            first_candidate(cv, known.deep_view()) == first_candidate(cv.subrange(ci as int, cv.len() as int), known.deep_view()),
            import_target(from_file@, import_source@, known.deep_view()) == (match first_candidate(cv, known.deep_view()) {
                Some(c) => Some(c),
                None => first_known(known.deep_view(), ts_tail_pred(import_source@)),
            }),
        decreases cv.len() - ci,
    {
        let ghost rest = cv.subrange(ci as int, cv.len() as int);
        proof {
            assert(rest[0] == cv[ci as int]);
            assert(rest.drop_first() =~= cv.subrange(ci + 1, cv.len() as int));
        }
        if known_contains(known, cands[ci].as_str()) {
            return Some(cands[ci].clone());
        }
        ci = ci + 1;
    }
    proof {
        assert(cv.subrange(ci as int, cv.len() as int) =~= Seq::<Seq<char>>::empty());
    }
    let stripped = trim_start_matches(src.as_slice(), chars_of("./").as_slice());
    let mut ts = vec!['/'];
    extend_chars(&mut ts, stripped.as_slice());
    let suf_ts = with_suffix(ts.as_slice(), ".ts");
    let suf_tsx = with_suffix(ts.as_slice(), ".tsx");
    let ghost kv = known.deep_view();
    let ghost pred = ts_tail_pred(import_source@);
    let mut i: usize = 0;
    while i < known.len()
        invariant
            i <= kv.len(),
            kv == known.deep_view(),
            pred == ts_tail_pred(import_source@),
            src@ == import_source@,
            suf_ts@ == seq!['/'] + trim_start_all(import_source@, "./"@) + ".ts"@,
            suf_tsx@ == seq!['/'] + trim_start_all(import_source@, "./"@) + ".tsx"@,
            forall|j: int| 0 <= j < i ==> !pred(kv[j]),
            import_target(from_file@, import_source@, kv) == first_known(kv, pred),
        decreases kv.len() - i,
    {
        if ends_with(known[i].as_str(), suf_ts.as_str()) || ends_with(known[i].as_str(), suf_tsx.as_str()) {
            proof {
                lemma_first_known_found(kv, pred, i as int);
            }
            return Some(known[i].clone());
        }
        i = i + 1;
    }
    proof {
        lemma_first_known_none(kv, pred);
    }
    None
}

// ─── Imported files and IMPORTS edges ───────────────────────────────

/// The file an import of `from` resolves to.
pub open spec fn import_target_of(from: Seq<char>, known: Seq<Seq<char>>) -> spec_fn(RawImportV) -> Option<Seq<char>> {
    |im: RawImportV| import_target(from, im.source_path, known)
}

/// Files that `from` imports, in import order.
pub open spec fn imported_files(from: Seq<char>, imports: Seq<RawImportV>, known: Seq<Seq<char>>) -> Seq<Seq<char>> {
    imports.filter_map(import_target_of(from, known))
}

/// Edge for a named import that the target file exports.
pub open spec fn named_import_edge(fu: Seq<char>, target: Seq<char>) -> spec_fn(SymbolRefV) -> Option<RelationshipV> {
    |r: SymbolRefV|
        if r.file_path == target && r.is_exported {
            Some(edge(fu, r.uid, RelationKind::Imports, conf(1, 1), "named-import-resolved"@))
        } else {
            None
        }
}

/// Edges for named imports from a resolved target file.
pub open spec fn named_edges(fu: Seq<char>, target: Seq<char>, idx: Seq<crate::analyzer::IndexEntryV>, names: Seq<Seq<char>>) -> Seq<RelationshipV>
    decreases names.len(),
{
    if names.len() == 0 {
        Seq::empty()
    } else {
        named_edges(fu, target, idx, names.drop_last()) + index_lookup(idx, names.last()).filter_map(named_import_edge(fu, target))
    }
}

/// Selects exported symbols.
pub open spec fn exported_ref() -> spec_fn(SymbolRefV) -> Option<SymbolRefV> {
    |r: SymbolRefV|
        if r.is_exported {
            Some(r)
        } else {
            None
        }
}

/// The exported symbols stored under `name`.
pub open spec fn exported_under(idx: Seq<crate::analyzer::IndexEntryV>, name: Seq<char>) -> Seq<SymbolRefV> {
    index_lookup(idx, name).filter_map(exported_ref())
}

/// Edges for names of an unresolved import: a name that exactly one exported
/// symbol carries is linked to it.
pub open spec fn fuzzy_edges(fu: Seq<char>, idx: Seq<crate::analyzer::IndexEntryV>, names: Seq<Seq<char>>) -> Seq<RelationshipV>
    decreases names.len(),
{
    if names.len() == 0 {
        Seq::empty()
    } else {
        let ex = exported_under(idx, names.last());
        fuzzy_edges(fu, idx, names.drop_last()) + if ex.len() == 1 {
            seq![edge(fu, ex[0].uid, RelationKind::Imports, conf(7, 10), "fuzzy-name-match"@)]
        } else {
            Seq::empty()
        }
    }
}

/// IMPORTS edges of one import of file `fp`.
pub open spec fn import_edges(fp: Seq<char>, im: RawImportV, idx: Seq<crate::analyzer::IndexEntryV>, known: Seq<Seq<char>>) -> Seq<RelationshipV> {
    let fu = file_uid(fp);
    match import_target(fp, im.source_path, known) {
        Some(t) => seq![edge(fu, file_uid(t), RelationKind::Imports, conf(1, 1), "import-resolved"@)]
            + named_edges(fu, t, idx, im.imported_names),
        None => fuzzy_edges(fu, idx, im.imported_names),
    }
}

/// IMPORTS edges of all imports of file `fp`, in order.
pub open spec fn imports_edges(fp: Seq<char>, ims: Seq<RawImportV>, idx: Seq<crate::analyzer::IndexEntryV>, known: Seq<Seq<char>>) -> Seq<RelationshipV>
    decreases ims.len(),
{
    if ims.len() == 0 {
        Seq::empty()
    } else {
        imports_edges(fp, ims.drop_last(), idx, known) + import_edges(fp, ims.last(), idx, known)
    }
}

/// The paths of the known files.
pub fn known_file_list(file_exports: &[FileExport]) -> (r: Vec<String>)
    ensures
        r.deep_view() == known_files(file_exports.deep_view()),
{
    let mut r: Vec<String> = Vec::new();
    let mut i: usize = 0;
    while i < file_exports.len()
        invariant
            i <= file_exports@.len(),
            r@.len() == i,
            forall|j: int| 0 <= j < i ==> r@[j]@ == file_exports@[j].file_path@,
        decreases file_exports@.len() - i,
    {
        r.push(file_exports[i].file_path.clone());
        i = i + 1;
    }
    proof {
        assert(r.deep_view() =~= known_files(file_exports.deep_view()));
    }
    r
}

/// Get the list of file paths that a file imports from (for import-aware call resolution).
pub fn resolve_imported_files(file_path: &str, imports: &[RawImport], file_exports: &[FileExport]) -> (r: Vec<String>)
    ensures
        r.deep_view() == imported_files(file_path@, imports.deep_view(), known_files(file_exports.deep_view())),
{
    let known = known_file_list(file_exports);
    let ghost kv = known.deep_view();
    let ghost iv = imports.deep_view();
    let ghost f = import_target_of(file_path@, kv);
    let mut r: Vec<String> = Vec::new();
    let mut i: usize = 0;
    while i < imports.len()
        invariant
            i <= iv.len(),
            iv == imports.deep_view(),
            kv == known.deep_view(),
            f == import_target_of(file_path@, kv),
            r.deep_view() == iv.take(i as int).filter_map(f),
        decreases iv.len() - i,
    {
        proof {
            iv.lemma_filter_map_take_succ(f, i as int);
            assert(iv[i as int] == imports@[i as int]@);
        }
        let target = resolve_import_path(file_path, imports[i].source_path.as_str(), known.as_slice());
        match target {
            Some(t) => {
                let ghost before = r.deep_view();
                let ghost tv = t@;
                r.push(t);
                proof {
                    assert(r.deep_view() =~= before.push(tv));
                }
            },
            None => {},
        }
        i = i + 1;
    }
    proof {
        assert(iv.take(iv.len() as int) =~= iv);
    }
    r
}

/// Appends the edges of named imports from a resolved target file.
fn push_named_edges(
    fuid: &String,
    target: &String,
    names: &Vec<String>,
    symbol_index: &SymbolIndex,
    relationships: &mut Vec<Relationship>,
)
    ensures
        final(relationships).deep_view() == old(relationships).deep_view() + named_edges(fuid@, target@, symbol_index@, names.deep_view()),
{
    let ghost nv = names.deep_view();
    let ghost start = old(relationships).deep_view();
    let mut n: usize = 0;
    while n < names.len()
        invariant
            n <= nv.len(),
            nv == names.deep_view(),
            relationships.deep_view() == start + named_edges(fuid@, target@, symbol_index@, nv.take(n as int)),
        decreases nv.len() - n,
    {
        let refs = symbol_index.get(names[n].as_str());
        let ghost rv = refs.deep_view();
        let ghost f = named_import_edge(fuid@, target@);
        let ghost mid = relationships.deep_view();
        let mut k: usize = 0;
        while k < refs.len()
            invariant
                k <= rv.len(),
                rv == refs.deep_view(),
                f == named_import_edge(fuid@, target@),
                relationships.deep_view() == mid + rv.take(k as int).filter_map(f),
            decreases rv.len() - k,
        {
            proof {
                rv.lemma_filter_map_take_succ(f, k as int);
                assert(rv[k as int] == refs@[k as int]@);
            }
            let sr = &refs[k];
            if str_eq(sr.file_path.as_str(), target.as_str()) && sr.is_exported {
                let rel = Relationship {
                    source_uid: fuid.clone(),
                    target_uid: sr.uid.clone(),
                    kind: RelationKind::Imports,
                    confidence: Confidence::of(1, 1),
                    reason: crate::text::owned("named-import-resolved"),
                };
                let ghost relv = rel@;
                let ghost before = relationships.deep_view();
                relationships.push(rel);
                proof {
                    assert(relationships.deep_view() =~= before.push(relv));
                }
            }
            k = k + 1;
        }
        proof {
            assert(rv.take(rv.len() as int) =~= rv);
            assert(nv.take(n + 1).drop_last() =~= nv.take(n as int));
            assert(nv[n as int] == names@[n as int]@);
        }
        n = n + 1;
    }
    proof {
        assert(nv.take(nv.len() as int) =~= nv);
    }
}

/// The exported symbols among `refs`.
fn exported_only(refs: &Vec<crate::analyzer::SymbolRef>) -> (r: Vec<crate::analyzer::SymbolRef>)
    ensures
        r.deep_view() == refs.deep_view().filter_map(exported_ref()),
{
    let ghost rv = refs.deep_view();
    let ghost f = exported_ref();
    let mut r: Vec<crate::analyzer::SymbolRef> = Vec::new();
    let mut k: usize = 0;
    while k < refs.len()
        invariant
            k <= rv.len(),
            rv == refs.deep_view(),
            f == exported_ref(),
            r.deep_view() == rv.take(k as int).filter_map(f),
        decreases rv.len() - k,
    {
        proof {
            rv.lemma_filter_map_take_succ(f, k as int);
            assert(rv[k as int] == refs@[k as int]@);
        }
        if refs[k].is_exported {
            let d = refs[k].duplicate();
            let ghost dv = d@;
            let ghost before = r.deep_view();
            r.push(d);
            proof {
                assert(r.deep_view() =~= before.push(dv));
            }
        }
        k = k + 1;
    }
    proof {
        assert(rv.take(rv.len() as int) =~= rv);
    }
    r
}

/// Appends the edges for names of an unresolved import.
fn push_fuzzy_edges(
    fuid: &String,
    names: &Vec<String>,
    symbol_index: &SymbolIndex,
    relationships: &mut Vec<Relationship>,
)
    ensures
        final(relationships).deep_view() == old(relationships).deep_view() + fuzzy_edges(fuid@, symbol_index@, names.deep_view()),
{
    let ghost nv = names.deep_view();
    let ghost start = old(relationships).deep_view();
    let mut n: usize = 0;
    while n < names.len()
        invariant
            n <= nv.len(),
            nv == names.deep_view(),
            relationships.deep_view() == start + fuzzy_edges(fuid@, symbol_index@, nv.take(n as int)),
        decreases nv.len() - n,
    {
        let refs = symbol_index.get(names[n].as_str());
        let ex = exported_only(&refs);
        proof {
            assert(nv.take(n + 1).drop_last() =~= nv.take(n as int));
            assert(nv[n as int] == names@[n as int]@);
            assert(ex.deep_view() == exported_under(symbol_index@, nv[n as int]));
        }
        let ghost before = relationships.deep_view();
        if ex.len() == 1 {
            let rel = Relationship {
                source_uid: fuid.clone(),
                target_uid: ex[0].uid.clone(),
                kind: RelationKind::Imports,
                confidence: Confidence::of(7, 10),
                reason: crate::text::owned("fuzzy-name-match"),
            };
            let ghost relv = rel@;
            relationships.push(rel);
            proof {
                assert(relv == edge(fuid@, ex.deep_view()[0].uid, RelationKind::Imports, conf(7, 10), "fuzzy-name-match"@));
                assert(relationships.deep_view() =~= before.push(relv));
                assert(relationships.deep_view() =~= start + fuzzy_edges(fuid@, symbol_index@, nv.take(n + 1)));
            }
        } else {
            proof {
                assert(relationships.deep_view() =~= start + fuzzy_edges(fuid@, symbol_index@, nv.take(n + 1)));
            }
        }
        n = n + 1;
    }
    proof {
        assert(nv.take(nv.len() as int) =~= nv);
    }
}

/// Resolve imports → IMPORTS edges: file-to-file edges for imports that name
/// a known file (plus edges to the named symbols that file exports), and
/// name-based edges for imports that do not.
pub fn resolve_imports(
    file_path: &str,
    imports: &[RawImport],
    file_exports: &[FileExport],
    symbol_index: &SymbolIndex,
    relationships: &mut Vec<Relationship>,
)
    ensures
        final(relationships).deep_view() == old(relationships).deep_view() + imports_edges(
            file_path@,
            imports.deep_view(),
            symbol_index@,
            known_files(file_exports.deep_view()),
        ),
{
    let fuid = concat("File:", file_path);
    let known = known_file_list(file_exports);
    let ghost kv = known.deep_view();
    let ghost iv = imports.deep_view();
    let ghost start = old(relationships).deep_view();
    let mut i: usize = 0;
    while i < imports.len()
        invariant
            i <= iv.len(),
            iv == imports.deep_view(),
            kv == known.deep_view(),
            kv == known_files(file_exports.deep_view()),
            fuid@ == file_uid(file_path@),
            relationships.deep_view() == start + imports_edges(file_path@, iv.take(i as int), symbol_index@, kv),
        decreases iv.len() - i,
    {
        let im = &imports[i];
        proof {
            assert(iv.take(i + 1).drop_last() =~= iv.take(i as int));
            assert(iv[i as int] == im@);
        }
        let ghost before = relationships.deep_view();
        let target = resolve_import_path(file_path, im.source_path.as_str(), known.as_slice());
        match target {
            Some(t) => {
                let rel = Relationship {
                    source_uid: fuid.clone(),
                    target_uid: concat("File:", t.as_str()),
                    kind: RelationKind::Imports,
                    confidence: Confidence::of(1, 1),
                    reason: crate::text::owned("import-resolved"),
                };
                let ghost relv = rel@;
                relationships.push(rel);
                push_named_edges(&fuid, &t, &im.imported_names, symbol_index, relationships);
                proof {
                    assert(relationships.deep_view() =~= before + import_edges(file_path@, im@, symbol_index@, kv));
                }
            },
            None => {
                push_fuzzy_edges(&fuid, &im.imported_names, symbol_index, relationships);
            },
        }
        proof {
            assert(relationships.deep_view() =~= start + imports_edges(file_path@, iv.take(i + 1), symbol_index@, kv));
        }
        i = i + 1;
    }
    proof {
        assert(iv.take(iv.len() as int) =~= iv);
    }
}


// ─── Resolved imports are known files ───────────────────────────────

proof fn lemma_first_known_in(known: Seq<Seq<char>>, pred: spec_fn(Seq<char>) -> bool)
    ensures
        first_known(known, pred) matches Some(k) ==> known.contains(k),
    decreases known.len(),
{
    if known.len() > 0 {
        if pred(known[0]) {
            assert(known.contains(known[0]));
        } else {
            lemma_first_known_in(known.drop_first(), pred);
            if let Some(k) = first_known(known.drop_first(), pred) {
                let i = choose|i: int| 0 <= i < known.drop_first().len() && known.drop_first()[i] == k;
                assert(known[i + 1] == k);
            }
        }
    }
}

proof fn lemma_first_candidate_in(cands: Seq<Seq<char>>, known: Seq<Seq<char>>)
    ensures
        first_candidate(cands, known) matches Some(k) ==> known.contains(k),
    decreases cands.len(),
{
    if cands.len() > 0 && !known.contains(cands[0]) {
        lemma_first_candidate_in(cands.drop_first(), known);
    }
}

proof fn lemma_first_with_suffix_in(sfx: Seq<Seq<char>>, known: Seq<Seq<char>>)
    ensures
        first_with_suffix(sfx, known) matches Some(k) ==> known.contains(k),
    decreases sfx.len(),
{
    if sfx.len() > 0 {
        lemma_first_known_in(known, ends_with_pred(sfx[0]));
        lemma_first_with_suffix_in(sfx.drop_first(), known);
    }
}

proof fn lemma_seq_min_in(s: Seq<Seq<char>>)
    requires
        s.len() > 0,
    ensures
        s.contains(seq_min(s)),
    decreases s.len(),
{
    if s.len() == 1 {
        assert(s[0] == seq_min(s));
    } else {
        lemma_seq_min_in(s.drop_last());
        let m = seq_min(s.drop_last());
        if lex_lt(s.last(), m) {
            assert(s[s.len() - 1] == s.last());
        } else {
            let i = choose|i: int| 0 <= i < s.drop_last().len() && s.drop_last()[i] == m;
            assert(s[i] == m);
        }
    }
}

proof fn lemma_go_files_in(known: Seq<Seq<char>>, d: Seq<char>)
    ensures
        forall|j: int|
            0 <= j < known.filter_map(go_file_under(d)).len() ==> known.contains(
                #[trigger] known.filter_map(go_file_under(d))[j],
            ),
    decreases known.len(),
{
    if known.len() > 0 {
        let t = known.drop_last();
        lemma_go_files_in(t, d);
        let f = go_file_under(d);
        let m = known.filter_map(f);
        let mt = t.filter_map(f);
        assert forall|j: int| 0 <= j < m.len() implies known.contains(#[trigger] m[j]) by {
            if j < mt.len() {
                assert(m[j] == mt[j]);
                let i = choose|i: int| 0 <= i < t.len() && t[i] == mt[j];
                assert(known[i] == t[i]);
            } else {
                assert(m[j] == known.last());
                assert(known[known.len() - 1] == known.last());
            }
        }
    }
}

proof fn lemma_go_package_in(parts: Seq<Seq<char>>, start: int, known: Seq<Seq<char>>)
    ensures
        go_package_match(parts, start, known) matches Some(k) ==> known.contains(k),
    decreases parts.len() - start,
{
    if 0 <= start < parts.len() {
        let m = known.filter_map(go_file_under(dir_prefix(parts, start)));
        if m.len() > 0 {
            lemma_seq_min_in(m);
            lemma_go_files_in(known, dir_prefix(parts, start));
            let j = choose|j: int| 0 <= j < m.len() && m[j] == seq_min(m);
        } else {
            lemma_go_package_in(parts, start + 1, known);
        }
    }
}

/// An import resolves only to one of the known files.
pub proof fn law_import_target_known(from: Seq<char>, src: Seq<char>, known: Seq<Seq<char>>)
    ensures
        import_target(from, src, known) matches Some(p) ==> known.contains(p),
{
    let sfx = seq![src + ".ts"@, src + ".js"@, src + ".rb"@, src + "/index.ts"@, src + "/index.js"@];
    lemma_first_with_suffix_in(sfx, known);
    lemma_go_package_in(split_on(src, '/'), 0, known);
    lemma_first_known_in(known, ends_with_pred(src + ".rb"@));
    if has_parent(from) {
        lemma_first_candidate_in(relative_candidates(import_base(from, src)), known);
        lemma_first_known_in(known, ts_tail_pred(src));
    }
}


proof fn lemma_first_candidate_found(cands: Seq<Seq<char>>, known: Seq<Seq<char>>, i: int)
    requires
        0 <= i < cands.len(),
        known.contains(cands[i]),
        forall|j: int| 0 <= j < i ==> !known.contains(#[trigger] cands[j]),
    ensures
        first_candidate(cands, known) == Some(cands[i]),
    decreases i,
{
    if i > 0 {
        let t = cands.drop_first();
        assert(!known.contains(cands[0]));
        assert forall|j: int| 0 <= j < i - 1 implies !known.contains(#[trigger] t[j]) by {
            assert(t[j] == cands[j + 1]);
        }
        lemma_first_candidate_found(t, known, i - 1);
    }
}

/// A relative import (its source begins with `.`) from a file inside a
/// directory resolves to the first known file among, in this order: its
/// normalised base `B` itself, `B.ts`, `B.tsx`, `B.js`, `B.jsx`, `B.rb`,
/// `B.go`, `B/index.ts`, `B/index.tsx`, `B/index.js`.
pub proof fn law_relative_import_candidates(from: Seq<char>, src: Seq<char>, known: Seq<Seq<char>>, i: int)
    requires
        src.len() > 0 && src[0] == '.',
        has_parent(from),
        0 <= i < 10,
        ({
            let b = import_base(from, src);
            let cs = seq![
                b,
                b + ".ts"@,
                b + ".tsx"@,
                b + ".js"@,
                b + ".jsx"@,
                b + ".rb"@,
                b + ".go"@,
                b + "/index.ts"@,
                b + "/index.tsx"@,
                b + "/index.js"@,
            ];
            known.contains(cs[i]) && forall|j: int| 0 <= j < i ==> !known.contains(#[trigger] cs[j])
        }),
    ensures
        ({
            let b = import_base(from, src);
            let cs = seq![
                b,
                b + ".ts"@,
                b + ".tsx"@,
                b + ".js"@,
                b + ".jsx"@,
                b + ".rb"@,
                b + ".go"@,
                b + "/index.ts"@,
                b + "/index.tsx"@,
                b + "/index.js"@,
            ];
            import_target(from, src, known) == Some(cs[i])
        }),
{
    let b = import_base(from, src);
    let cs = seq![
        b,
        b + ".ts"@,
        b + ".tsx"@,
        b + ".js"@,
        b + ".jsx"@,
        b + ".rb"@,
        b + ".go"@,
        b + "/index.ts"@,
        b + "/index.tsx"@,
        b + "/index.js"@,
    ];
    assert(relative_candidates(b) =~= cs);
    lemma_first_candidate_found(cs, known, i);
}


proof fn lemma_first_candidate_none(cands: Seq<Seq<char>>, known: Seq<Seq<char>>)
    requires
        forall|j: int| 0 <= j < cands.len() ==> !known.contains(#[trigger] cands[j]),
    ensures
        first_candidate(cands, known) is None,
    decreases cands.len(),
{
    if cands.len() > 0 {
        let t = cands.drop_first();
        assert(!known.contains(cands[0]));
        assert forall|j: int| 0 <= j < t.len() implies !known.contains(#[trigger] t[j]) by {
            assert(t[j] == cands[j + 1]);
        }
        lemma_first_candidate_none(t, known);
    }
}

/// A relative import none of whose candidate files (see
/// [`law_relative_import_candidates`]) is known resolves to the first known
/// file that ends with `/S.ts` or `/S.tsx`, `S` being the import source
/// without its leading `./`; to nothing when there is none.
pub proof fn law_relative_import_tail(from: Seq<char>, src: Seq<char>, known: Seq<Seq<char>>)
    requires
        src.len() > 0 && src[0] == '.',
        has_parent(from),
        ({
            let b = import_base(from, src);
            let cs = seq![
                b,
                b + ".ts"@,
                b + ".tsx"@,
                b + ".js"@,
                b + ".jsx"@,
                b + ".rb"@,
                b + ".go"@,
                b + "/index.ts"@,
                b + "/index.tsx"@,
                b + "/index.js"@,
            ];
            forall|j: int| 0 <= j < cs.len() ==> !known.contains(#[trigger] cs[j])
        }),
    ensures
        ({
            let s2 = trim_start_all(src, "./"@);
            let tail = |k: Seq<char>| is_suffix_of(seq!['/'] + s2 + ".ts"@, k) || is_suffix_of(seq!['/'] + s2 + ".tsx"@, k);
            match import_target(from, src, known) {
                Some(k) => exists|i: int|
                    0 <= i < known.len() && known[i] == k && tail(known[i]) && forall|j: int|
                        0 <= j < i ==> !tail(#[trigger] known[j]),
                None => forall|i: int| 0 <= i < known.len() ==> !tail(#[trigger] known[i]),
            }
        }),
{
    let b = import_base(from, src);
    let cs = seq![
        b,
        b + ".ts"@,
        b + ".tsx"@,
        b + ".js"@,
        b + ".jsx"@,
        b + ".rb"@,
        b + ".go"@,
        b + "/index.ts"@,
        b + "/index.tsx"@,
        b + "/index.js"@,
    ];
    assert(relative_candidates(b) =~= cs);
    lemma_first_candidate_none(cs, known);
    let pred = ts_tail_pred(src);
    if exists|i: int| 0 <= i < known.len() && pred(known[i]) {
        let i0 = choose|i: int| 0 <= i < known.len() && pred(known[i]);
        let i = lemma_least_index(known, pred, i0);
        lemma_first_known_found(known, pred, i);
    } else {
        lemma_first_known_none(known, pred);
    }
}

proof fn lemma_least_index(known: Seq<Seq<char>>, pred: spec_fn(Seq<char>) -> bool, i0: int) -> (i: int)
    requires
        0 <= i0 < known.len(),
        pred(known[i0]),
    ensures
        0 <= i <= i0,
        pred(known[i]),
        forall|j: int| 0 <= j < i ==> !pred(known[j]),
    decreases i0,
{
    if exists|j: int| 0 <= j < i0 && pred(known[j]) {
        let j = choose|j: int| 0 <= j < i0 && pred(known[j]);
        lemma_least_index(known, pred, j)
    } else {
        i0
    }
}

} // verus!
