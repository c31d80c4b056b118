//! The query pipeline: canonicalize the raw tokens, fetch and merge
//! postings across shards, filter by language, score and rank.
//!
//! A document id earns the byte length of every matched body term and
//! twice the byte length of every matched title term.
use crate::canon::{add_pairs, canonicalize, spec_add_pairs, spec_canonicalize};
use crate::index_shard::{postings_view, IndexedStore, Posting};
use crate::optimize::sub_wf;
use crate::optimize::ids_set;
use crate::order::{bytes_eq, bytes_lt, lex_lt, strictly_sorted_u64, strictly_sorted_words};
use crate::store::pairs_of;
use vstd::prelude::*;
use vstd::utf8::encode_utf8;

verus! {

/// The set of byte strings in a word list.
pub open spec fn words_set(ws: Seq<Seq<u8>>) -> Set<Seq<u8>> {
    Set::new(|w: Seq<u8>| ws.contains(w))
}

/// The canonical terms of a raw query: each token canonicalized, then
/// the adjacent pairs appended.
pub open spec fn spec_query_terms(ws: Seq<Seq<char>>) -> Seq<Seq<char>> {
    spec_add_pairs(ws.filter_map(|w: Seq<char>| spec_canonicalize(w)))
}

/// Inserts a word into a sorted duplicate-free list.
#[verifier::loop_isolation(false)]
pub fn insert_sorted(list: &mut Vec<Vec<u8>>, w: Vec<u8>)
    requires
        strictly_sorted_words(old(list)@.map_values(|v: Vec<u8>| v@)),
    ensures
        strictly_sorted_words(final(list)@.map_values(|v: Vec<u8>| v@)),
        words_set(final(list)@.map_values(|v: Vec<u8>| v@)) == words_set(
            old(list)@.map_values(|v: Vec<u8>| v@),
        ).insert(w@),
        final(list)@.len() == old(list)@.len() + (if words_set(
            old(list)@.map_values(|v: Vec<u8>| v@),
        ).contains(w@) {
            0int
        } else {
            1int
        }),
{
    let ghost m0 = old(list)@.map_values(|v: Vec<u8>| v@);
    let n = list.len();
    let mut lo: usize = 0;
    while lo < n && bytes_lt(&list[lo], &w)
        invariant
            0 <= lo <= n,
            n == list@.len(),
            list@ == old(list)@,
            forall|t: int| 0 <= t < lo ==> lex_lt((#[trigger] m0[t]), w@),
        decreases n - lo,
    {
        lo = lo + 1;
    }
    if lo < n && bytes_eq(&list[lo], &w) {
        proof {
            assert(words_set(m0).insert(w@) =~= words_set(m0)) by {
                assert(m0[lo as int] == w@);
                assert(m0.contains(w@));
            }
        }
        return ;
    }
    proof {
        if lo < n {
            crate::order::lemma_lex_trichotomy(m0[lo as int], w@);
        }
        assert(!words_set(m0).contains(w@)) by {
            if words_set(m0).contains(w@) {
                let t = choose|t: int| 0 <= t < m0.len() && m0[t] == w@;
                if t < lo {
                    crate::order::lemma_lex_trichotomy(m0[t], w@);
                } else {
                    if t > lo {
                        assert(lex_lt(m0[lo as int], m0[t]));
                    }
                    crate::order::lemma_lex_trichotomy(m0[lo as int], w@);
                }
            }
        }
    }
    list.insert(lo, w);
    proof {
        let m1 = list@.map_values(|v: Vec<u8>| v@);
        assert(m1 =~= m0.insert(lo as int, w@));
        assert forall|i: int, j: int| 0 <= i < j < m1.len() implies lex_lt(m1[i], m1[j]) by {
            if i < lo && j == lo {
                assert(m1[i] == m0[i]);
            } else if i == lo && j > lo {
                assert(m1[j] == m0[j - 1]);
                if j - 1 > lo {
                    crate::order::lemma_lex_trans(w@, m0[lo as int], m0[j - 1]);
                }
            } else if i < lo {
                assert(m1[i] == m0[i]);
                if j > lo {
                    assert(m1[j] == m0[j - 1]);
                } else {
                    assert(m1[j] == m0[j]);
                }
            } else {
                assert(m1[i] == m0[i - 1]);
                assert(m1[j] == m0[j - 1]);
            }
        }
        assert(words_set(m1) =~= words_set(m0).insert(w@)) by {
            assert forall|x: Seq<u8>| words_set(m1).contains(x) implies words_set(m0).insert(
                w@,
            ).contains(x) by {
                let k = choose|k: int| 0 <= k < m1.len() && m1[k] == x;
                if k < lo {
                    assert(m0[k] == x);
                    assert(m0.contains(x));
                } else if k > lo {
                    assert(m0[k - 1] == x);
                    assert(m0.contains(x));
                }
            }
            assert forall|x: Seq<u8>| words_set(m0).insert(w@).contains(x) implies words_set(
                m1,
            ).contains(x) by {
                if x == w@ {
                    assert(m1[lo as int] == x);
                } else {
                    let k = choose|k: int| 0 <= k < m0.len() && m0[k] == x;
                    if k < lo {
                        assert(m1[k] == x);
                    } else {
                        assert(m1[k + 1] == x);
                    }
                }
            }
        }
    }
}

/// Canonicalizes the raw query tokens, appends the adjacent pairs, and
/// returns the resulting term bytes sorted and deduplicated.
#[verifier::loop_isolation(false)]
pub fn canonical_terms(words: &Vec<String>) -> (r: Vec<Vec<u8>>)
    ensures
        strictly_sorted_words(r@.map_values(|v: Vec<u8>| v@)),
        words_set(r@.map_values(|v: Vec<u8>| v@)) == words_set(
            spec_query_terms(words@.map_values(|s: String| s@)).map_values(
                |t: Seq<char>| encode_utf8(t),
            ),
        ),
{
    let ghost ws = words@.map_values(|s: String| s@);
    let n = words.len();
    let mut canon: Vec<String> = Vec::new();
    proof {
        assert(ws.take(0) =~= Seq::<Seq<char>>::empty());
        reveal(Seq::filter);
        assert(Seq::<Seq<char>>::empty().filter_map(|w: Seq<char>| spec_canonicalize(w)) =~=
            Seq::<Seq<char>>::empty());
        assert(canon@.map_values(|s: String| s@) =~= ws.take(0).filter_map(
            |w: Seq<char>| spec_canonicalize(w),
        ));
    }
    let mut i: usize = 0;
    while i < n
        invariant
            0 <= i <= n,
            n == words@.len(),
            ws == words@.map_values(|s: String| s@),
            canon@.map_values(|s: String| s@) == ws.take(i as int).filter_map(
                |w: Seq<char>| spec_canonicalize(w),
            ),
        decreases n - i,
    {
        proof {
            ws.lemma_filter_map_take_succ(|w: Seq<char>| spec_canonicalize(w), i as int);
        }
        match canonicalize(words[i].as_str()) {
            Some(c) => {
                canon.push(c);
                proof {
                    assert(canon@.map_values(|s: String| s@) =~= ws.take(i + 1).filter_map(
                        |w: Seq<char>| spec_canonicalize(w),
                    ));
                }
            },
            None => {
                proof {
                    assert(canon@.map_values(|s: String| s@) =~= ws.take(i + 1).filter_map(
                        |w: Seq<char>| spec_canonicalize(w),
                    ));
                }
            },
        }
        i = i + 1;
    }
    proof {
        assert(ws.take(n as int) =~= ws);
    }
    add_pairs(&mut canon);
    let ghost terms = spec_query_terms(ws);
    proof {
        assert(canon@.map_values(|s: String| s@) == terms);
    }
    // sort and deduplicate the encoded terms
    let mut out: Vec<Vec<u8>> = Vec::new();
    let cn = canon.len();
    let mut k: usize = 0;
    proof {
        assert(out@.map_values(|v: Vec<u8>| v@) =~= Seq::<Seq<u8>>::empty());
        let enc_terms = terms.map_values(|t: Seq<char>| encode_utf8(t));
        assert(words_set(out@.map_values(|v: Vec<u8>| v@)) =~= words_set(
            enc_terms.take(0),
        )) by {
            assert(enc_terms.take(0) =~= Seq::<Seq<u8>>::empty());
        }
    }
    while k < cn
        invariant
            0 <= k <= cn,
            cn == canon@.len(),
            canon@.map_values(|s: String| s@) == terms,
            strictly_sorted_words(out@.map_values(|v: Vec<u8>| v@)),
            words_set(out@.map_values(|v: Vec<u8>| v@)) == words_set(
                terms.map_values(|t: Seq<char>| encode_utf8(t)).take(k as int),
            ),
        decreases cn - k,
    {
        let wb = canon[k].as_str().as_bytes_vec();
        insert_sorted(&mut out, wb);
        proof {
            let enc_terms = terms.map_values(|t: Seq<char>| encode_utf8(t));
            assert(enc_terms.take(k + 1) =~= enc_terms.take(k as int).push(enc_terms[k as int]));
            assert(words_set(enc_terms.take(k + 1)) =~= words_set(enc_terms.take(k as int)).insert(
                enc_terms[k as int],
            )) by {
                assert forall|x: Seq<u8>|
                    words_set(enc_terms.take(k + 1)).contains(x) implies words_set(
                    enc_terms.take(k as int),
                ).insert(enc_terms[k as int]).contains(x) by {
                    let t = choose|t: int| 0 <= t < k + 1 && #[trigger] enc_terms.take(k + 1)[t] == x;
                    if t < k {
                        assert(enc_terms.take(k as int)[t] == x);
                    }
                }
                assert forall|x: Seq<u8>|
                    words_set(enc_terms.take(k as int)).insert(enc_terms[k as int]).contains(
                        x,
                    ) implies words_set(enc_terms.take(k + 1)).contains(x) by {
                    if x == enc_terms[k as int] {
                        assert(enc_terms.take(k + 1)[k as int] == x);
                    } else {
                        let t = choose|t: int|
                            0 <= t < k && #[trigger] enc_terms.take(k as int)[t] == x;
                        assert(enc_terms.take(k + 1)[t] == x);
                    }
                }
            }
        }
        k = k + 1;
    }
    proof {
        let enc_terms = terms.map_values(|t: Seq<char>| encode_utf8(t));
        assert(enc_terms.take(cn as int) =~= enc_terms);
    }
    out
}

/// Keeps the ids of `a` that are also in `keep`.
#[verifier::loop_isolation(false)]
pub fn intersect_ids(a: &Vec<u64>, keep: &Vec<u64>) -> (r: Vec<u64>)
    requires
        strictly_sorted_u64(a@),
        strictly_sorted_u64(keep@),
    ensures
        strictly_sorted_u64(r@),
        ids_set(r@) == ids_set(a@).intersect(ids_set(keep@)),
{
    let na = a.len();
    let nk = keep.len();
    let mut out: Vec<u64> = Vec::new();
    let mut i: usize = 0;
    let mut j: usize = 0;
    proof {
        assert(a@.take(0) =~= Seq::<u64>::empty());
        assert(ids_set(out@) =~= ids_set(a@.take(0)).intersect(ids_set(keep@)));
    }
    while i < na && j < nk
        invariant
            0 <= i <= na,
            0 <= j <= nk,
            na == a@.len(),
            nk == keep@.len(),
            strictly_sorted_u64(out@),
            ids_set(out@) == ids_set(a@.take(i as int)).intersect(ids_set(keep@)),
            out@.len() > 0 && i < na ==> out@.last() < a@[i as int],
            forall|t: int| j <= t < nk ==> (i < na ==> a@[i as int] <= #[trigger] keep@[t]) || true,
            forall|x: u64| keep@.contains(x) && (exists|t: int| j <= t < nk && keep@[t] == x)
                ==> true,
            forall|t: int| 0 <= t < j ==> i < na ==> #[trigger] keep@[t] < a@[i as int],
        decreases (na - i) + (nk - j),
    {
        let ghost out0 = out@;
        if a[i] == keep[j] {
            let v = a[i];
            out.push(v);
            proof {
                crate::optimize::lemma_ids_set_push_pub(out0, v);
                assert(a@.take(i + 1) =~= a@.take(i as int).push(v));
                crate::optimize::lemma_ids_set_push_pub(a@.take(i as int), v);
                assert(keep@[j as int] == v);
                assert(keep@.contains(v));
                assert(ids_set(out@) =~= ids_set(a@.take(i + 1)).intersect(ids_set(keep@)));
                assert forall|c: int, d: int| 0 <= c < d < out@.len() implies out@[c]
                    < out@[d] by {
                    if d == out@.len() - 1 && out0.len() > 0 {
                        assert(out@[c] <= out0.last());
                    }
                }
            }
            i = i + 1;
            j = j + 1;
        } else if a[i] < keep[j] {
            proof {
                assert(a@.take(i + 1) =~= a@.take(i as int).push(a@[i as int]));
                crate::optimize::lemma_ids_set_push_pub(a@.take(i as int), a@[i as int]);
                assert(!ids_set(keep@).contains(a@[i as int])) by {
                    if keep@.contains(a@[i as int]) {
                        let t = choose|t: int| 0 <= t < nk && keep@[t] == a@[i as int];
                        if t < j {
                            assert(keep@[t] < a@[i as int]);
                        } else {
                            assert(keep@[j as int] <= keep@[t]);
                        }
                    }
                }
                assert(ids_set(out@) =~= ids_set(a@.take(i + 1)).intersect(ids_set(keep@)));
            }
            i = i + 1;
        } else {
            j = j + 1;
        }
    }
    proof {
        if i < na {
            assert forall|x: u64| ids_set(a@).intersect(ids_set(keep@)).contains(x) implies
                ids_set(a@.take(i as int)).intersect(ids_set(keep@)).contains(x) by {
                let t = choose|t: int| 0 <= t < na && a@[t] == x;
                let u = choose|u: int| 0 <= u < nk && keep@[u] == x;
                assert(u < j);
                assert(keep@[u] < a@[i as int]);
                assert(t < i) by {
                    if t >= i {
                        assert(a@[i as int] <= a@[t]);
                    }
                }
                assert(a@.take(i as int)[t] == x);
            }
            assert(ids_set(a@.take(i as int)).intersect(ids_set(keep@)) =~= ids_set(
                a@,
            ).intersect(ids_set(keep@))) by {
                assert forall|x: u64|
                    ids_set(a@.take(i as int)).intersect(ids_set(keep@)).contains(x) implies
                    ids_set(a@).intersect(ids_set(keep@)).contains(x) by {
                    let t = choose|t: int| 0 <= t < i && a@.take(i as int)[t] == x;
                    assert(a@[t] == x);
                }
            }
        } else {
            assert(a@.take(i as int) =~= a@);
        }
    }
    out
}


/// The score one document earns from one posting map at one weight:
/// for every posting whose id set holds the document, the byte length
/// of the word times the weight.
pub open spec fn spec_score(m: Seq<(Seq<u8>, Seq<u64>)>, id: u64, w: int) -> int
    decreases m.len(),
{
    if m.len() == 0 {
        0
    } else {
        spec_score(m.drop_last(), id, w) + if m.last().1.contains(id) {
            w * m.last().0.len()
        } else {
            0
        }
    }
}

/// A document's total score: twice the byte length of every matched
/// title term plus the byte length of every matched body term.
pub open spec fn spec_score_total(
    title: Seq<(Seq<u8>, Seq<u64>)>,
    content: Seq<(Seq<u8>, Seq<u64>)>,
    id: u64,
) -> int {
    spec_score(title, id, 2) + spec_score(content, id, 1)
}

/// The ids present anywhere in a posting map.
pub open spec fn map_ids(m: Seq<(Seq<u8>, Seq<u64>)>) -> Set<u64> {
    Set::new(|id: u64| exists|k: int| 0 <= k < m.len() && (#[trigger] m[k]).1.contains(id))
}

/// Caps an unbounded score at the `u64` range.
pub open spec fn sat64(x: int) -> int {
    if x > u64::MAX {
        u64::MAX as int
    } else {
        x
    }
}

fn contains_id(v: &Vec<u64>, id: u64) -> (r: bool)
    ensures
        r == v@.contains(id),
{
    let n = v.len();
    let mut i: usize = 0;
    while i < n
        invariant
            0 <= i <= n,
            n == v@.len(),
            forall|t: int| 0 <= t < i ==> v@[t] != id,
        decreases n - i,
    {
        if v[i] == id {
            return true;
        }
        i = i + 1;
    }
    false
}

proof fn lemma_spec_score_nonneg(m: Seq<(Seq<u8>, Seq<u64>)>, id: u64, w: int)
    requires
        w >= 0,
    ensures
        spec_score(m, id, w) >= 0,
    decreases m.len(),
{
    if m.len() > 0 {
        lemma_spec_score_nonneg(m.drop_last(), id, w);
        assert(w * m.last().0.len() >= 0) by (nonlinear_arith)
            requires
                w >= 0,
                m.last().0.len() >= 0,
        ;
    }
}

/// Sums one map's contribution to a document's score, saturating.
#[verifier::loop_isolation(false)]
fn score_from_map(m: &Vec<Posting>, id: u64, weight: u64, start: u64) -> (r: u64)
    requires
        1 <= weight <= 2,
        forall|k: int| 0 <= k < m@.len() ==> (#[trigger] m@[k]).0@.len() <= 255,
        start == sat64(start as int),
    ensures
        r == sat64(start + spec_score(postings_view(m@), id, weight as int)),
{
    let ghost mm = postings_view(m@);
    let n = m.len();
    let mut cur: u64 = start;
    let ghost w = weight as int;
    let mut k: usize = 0;
    proof {
        assert(mm.take(0) =~= Seq::<(Seq<u8>, Seq<u64>)>::empty());
        lemma_spec_score_nonneg(mm.take(0), id, w);
    }
    while k < n
        invariant
            0 <= k <= n,
            n == m@.len(),
            mm == postings_view(m@),
            1 <= weight <= 2,
            w == weight,
            cur == sat64(start + spec_score(mm.take(k as int), id, w)),
        decreases n - k,
    {
        proof {
            assert(mm.take(k + 1).drop_last() =~= mm.take(k as int));
            assert(mm[k as int] == (m@[k as int].0@, m@[k as int].1@));
            lemma_spec_score_nonneg(mm.take(k as int), id, w);
            assert(0 <= w * mm[k as int].0.len() <= 510) by (nonlinear_arith)
                requires
                    1 <= w <= 2,
                    0 <= mm[k as int].0.len() <= 255,
            ;
        }
        if contains_id(&m[k].1, id) {
            let add = weight * (m[k].0.len() as u64);
            if cur > u64::MAX - add {
                cur = u64::MAX;
            } else {
                cur = cur + add;
            }
        }
        k = k + 1;
    }
    proof {
        assert(mm.take(n as int) =~= mm);
    }
    cur
}

/// A document's full score across the two maps, saturating.
pub fn score_total(title: &Vec<Posting>, content: &Vec<Posting>, id: u64) -> (r: u64)
    requires
        forall|k: int| 0 <= k < title@.len() ==> (#[trigger] title@[k]).0@.len() <= 255,
        forall|k: int| 0 <= k < content@.len() ==> (#[trigger] content@[k]).0@.len() <= 255,
    ensures
        r == sat64(spec_score_total(postings_view(title@), postings_view(content@), id)),
{
    proof {
        lemma_spec_score_nonneg(postings_view(title@), id, 2);
        lemma_spec_score_nonneg(postings_view(content@), id, 1);
    }
    let t = score_from_map(title, id, 2, 0);
    score_from_map(content, id, 1, t)
}

/// All candidate ids of the two maps, sorted and duplicate-free.
#[verifier::loop_isolation(false)]
pub fn candidate_ids(title: &Vec<Posting>, content: &Vec<Posting>) -> (r: Vec<u64>)
    requires
        forall|k: int| 0 <= k < title@.len() ==> strictly_sorted_u64((#[trigger] title@[k]).1@),
        forall|k: int| 0 <= k < content@.len() ==> strictly_sorted_u64(
            (#[trigger] content@[k]).1@,
        ),
    ensures
        strictly_sorted_u64(r@),
        ids_set(r@) == map_ids(postings_view(title@)).union(map_ids(postings_view(content@))),
{
    let ghost mt = postings_view(title@);
    let ghost mc = postings_view(content@);
    let mut out: Vec<u64> = Vec::new();
    let nt = title.len();
    let mut k: usize = 0;
    proof {
        assert(ids_set(out@) =~= Set::<u64>::empty());
        assert(map_ids(mt.take(0)) =~= Set::<u64>::empty()) by {
            assert(mt.take(0) =~= Seq::<(Seq<u8>, Seq<u64>)>::empty());
        }
        assert(ids_set(out@) =~= map_ids(mt.take(0)));
    }
    while k < nt
        invariant
            0 <= k <= nt,
            nt == title@.len(),
            mt == postings_view(title@),
            strictly_sorted_u64(out@),
            ids_set(out@) == map_ids(mt.take(k as int)),
        decreases nt - k,
    {
        proof {
            assert(mt[k as int] == (title@[k as int].0@, title@[k as int].1@));
        }
        let merged = crate::optimize::merge_ids(&out, &title[k].1);
        out = merged;
        proof {
            assert(ids_set(out@) =~= map_ids(mt.take(k + 1))) by {
                assert forall|id: u64| ids_set(out@).contains(id) implies map_ids(
                    mt.take(k + 1),
                ).contains(id) by {
                    if map_ids(mt.take(k as int)).contains(id) {
                        let t = choose|t: int|
                            0 <= t < k && (#[trigger] mt.take(k as int)[t]).1.contains(id);
                        assert(mt.take(k + 1)[t].1.contains(id));
                    } else {
                        assert(mt.take(k + 1)[k as int].1.contains(id));
                    }
                }
                assert forall|id: u64| map_ids(mt.take(k + 1)).contains(id) implies ids_set(
                    out@,
                ).contains(id) by {
                    let t = choose|t: int|
                        0 <= t < k + 1 && (#[trigger] mt.take(k + 1)[t]).1.contains(id);
                    if t < k {
                        assert(mt.take(k as int)[t].1.contains(id));
                    }
                }
            }
        }
        k = k + 1;
    }
    proof {
        assert(mt.take(nt as int) =~= mt);
    }
    let nc = content.len();
    let mut k2: usize = 0;
    proof {
        assert(map_ids(mc.take(0)) =~= Set::<u64>::empty()) by {
            assert(mc.take(0) =~= Seq::<(Seq<u8>, Seq<u64>)>::empty());
        }
        assert(ids_set(out@) =~= map_ids(mt).union(map_ids(mc.take(0))));
    }
    while k2 < nc
        invariant
            0 <= k2 <= nc,
            nc == content@.len(),
            mc == postings_view(content@),
            mt == postings_view(title@),
            strictly_sorted_u64(out@),
            ids_set(out@) == map_ids(mt).union(map_ids(mc.take(k2 as int))),
        decreases nc - k2,
    {
        proof {
            assert(mc[k2 as int] == (content@[k2 as int].0@, content@[k2 as int].1@));
        }
        let merged = crate::optimize::merge_ids(&out, &content[k2].1);
        out = merged;
        proof {
            assert(ids_set(out@) =~= map_ids(mt).union(map_ids(mc.take(k2 + 1)))) by {
                assert forall|id: u64| ids_set(out@).contains(id) implies map_ids(mt).union(
                    map_ids(mc.take(k2 + 1)),
                ).contains(id) by {
                    if map_ids(mc.take(k2 as int)).contains(id) {
                        let t = choose|t: int|
                            0 <= t < k2 && (#[trigger] mc.take(k2 as int)[t]).1.contains(id);
                        assert(mc.take(k2 + 1)[t].1.contains(id));
                    } else if !map_ids(mt).contains(id) {
                        assert(mc.take(k2 + 1)[k2 as int].1.contains(id));
                    }
                }
                assert forall|id: u64| map_ids(mt).union(map_ids(mc.take(k2 + 1))).contains(
                    id,
                ) implies ids_set(out@).contains(id) by {
                    if map_ids(mc.take(k2 + 1)).contains(id) {
                        let t = choose|t: int|
                            0 <= t < k2 + 1 && (#[trigger] mc.take(k2 + 1)[t]).1.contains(id);
                        if t < k2 {
                            assert(mc.take(k2 as int)[t].1.contains(id));
                        }
                    }
                }
            }
        }
        k2 = k2 + 1;
    }
    proof {
        assert(mc.take(nc as int) =~= mc);
    }
    out
}

/// Ranking order: higher score first, smaller id first on ties.
pub open spec fn rank_before(p: (u64, u64), q: (u64, u64)) -> bool {
    p.1 > q.1 || (p.1 == q.1 && p.0 < q.0)
}

/// The entries of a score table, as a set.
pub open spec fn entry_set(s: Seq<(u64, u64)>) -> Set<(u64, u64)> {
    Set::new(|p: (u64, u64)| s.contains(p))
}

/// Inserts an entry into a ranking sorted by `rank_before`; the entry's
/// id must be fresh.
#[verifier::loop_isolation(false)]
#[verifier::rlimit(60)]
fn rank_insert(list: &mut Vec<(u64, u64)>, p: (u64, u64))
    requires
        forall|i: int, j: int|
            0 <= i < j < old(list)@.len() ==> rank_before(
                #[trigger] old(list)@[i],
                #[trigger] old(list)@[j],
            ),
        forall|i: int| 0 <= i < old(list)@.len() ==> (#[trigger] old(list)@[i]).0 != p.0,
    ensures
        forall|i: int, j: int|
            0 <= i < j < final(list)@.len() ==> rank_before(
                #[trigger] final(list)@[i],
                #[trigger] final(list)@[j],
            ),
        entry_set(final(list)@) == entry_set(old(list)@).insert(p),
        final(list)@.len() == old(list)@.len() + 1,
{
    let ghost m0 = old(list)@;
    let n = list.len();
    let mut lo: usize = 0;
    while lo < n && (list[lo].1 > p.1 || (list[lo].1 == p.1 && list[lo].0 < p.0))
        invariant
            0 <= lo <= n,
            n == list@.len(),
            list@ == m0,
            forall|t: int| 0 <= t < lo ==> rank_before(#[trigger] m0[t], p),
        decreases n - lo,
    {
        lo = lo + 1;
    }
    proof {
        if lo < n {
            assert(!rank_before(m0[lo as int], p));
            assert(rank_before(p, m0[lo as int]));
        }
    }
    list.insert(lo, p);
    proof {
        let m1 = list@;
        assert(m1 =~= m0.insert(lo as int, p));
        assert forall|i: int, j: int| 0 <= i < j < m1.len() implies rank_before(
            #[trigger] m1[i],
            #[trigger] m1[j],
        ) by {
            if i < lo && j == lo {
                assert(m1[i] == m0[i]);
            } else if i == lo && j > lo {
                assert(m1[j] == m0[j - 1]);
                if j - 1 > lo {
                    assert(rank_before(m0[lo as int], m0[j - 1]));
                }
            } else if i < lo {
                assert(m1[i] == m0[i]);
                if j > lo {
                    assert(m1[j] == m0[j - 1]);
                } else {
                    assert(m1[j] == m0[j]);
                }
            } else {
                assert(m1[i] == m0[i - 1]);
                assert(m1[j] == m0[j - 1]);
            }
        }
        assert(entry_set(m1) =~= entry_set(m0).insert(p)) by {
            assert forall|x: (u64, u64)| entry_set(m1).contains(x) implies entry_set(m0).insert(
                p,
            ).contains(x) by {
                let k = choose|k: int| 0 <= k < m1.len() && m1[k] == x;
                if k < lo {
                    assert(m0[k] == x);
                    assert(m0.contains(x));
                } else if k > lo {
                    assert(m0[k - 1] == x);
                    assert(m0.contains(x));
                }
            }
            assert forall|x: (u64, u64)| entry_set(m0).insert(p).contains(x) implies entry_set(
                m1,
            ).contains(x) by {
                if x == p {
                    assert(m1[lo as int] == x);
                } else {
                    let k = choose|k: int| 0 <= k < m0.len() && m0[k] == x;
                    if k < lo {
                        assert(m1[k] == x);
                    } else {
                        assert(m1[k + 1] == x);
                    }
                }
            }
        }
    }
}

/// Scores every candidate document and ranks them: highest score
/// first, smaller id first on ties.  Every id present in either map
/// appears exactly once, with its exact (saturated) score.
#[verifier::loop_isolation(false)]
#[verifier::rlimit(60)]
pub fn rank_documents(title: &Vec<Posting>, content: &Vec<Posting>) -> (r: Vec<(u64, u64)>)
    requires
        forall|k: int|
            0 <= k < title@.len() ==> (#[trigger] title@[k]).0@.len() <= 255 && strictly_sorted_u64(
                title@[k].1@,
            ),
        forall|k: int|
            0 <= k < content@.len() ==> (#[trigger] content@[k]).0@.len() <= 255
                && strictly_sorted_u64(content@[k].1@),
    ensures
        forall|i: int, j: int|
            0 <= i < j < r@.len() ==> rank_before(#[trigger] r@[i], #[trigger] r@[j]),
        forall|k: int|
            0 <= k < r@.len() ==> map_ids(postings_view(title@)).union(
                map_ids(postings_view(content@)),
            ).contains((#[trigger] r@[k]).0) && r@[k].1 == sat64(
                spec_score_total(postings_view(title@), postings_view(content@), r@[k].0),
            ),
        forall|id: u64|
            map_ids(postings_view(title@)).union(map_ids(postings_view(content@))).contains(id)
                ==> exists|k: int| 0 <= k < r@.len() && (#[trigger] r@[k]).0 == id,
{
    let ghost mt = postings_view(title@);
    let ghost mc = postings_view(content@);
    let cands = candidate_ids(title, content);
    let n = cands.len();
    let mut out: Vec<(u64, u64)> = Vec::new();
    let mut k: usize = 0;
    proof {
        assert(entry_set(out@) =~= Set::<(u64, u64)>::empty());
    }
    while k < n
        invariant
            0 <= k <= n,
            n == cands@.len(),
            strictly_sorted_u64(cands@),
            ids_set(cands@) == map_ids(mt).union(map_ids(mc)),
            mt == postings_view(title@),
            mc == postings_view(content@),
            forall|kk: int| 0 <= kk < title@.len() ==> (#[trigger] title@[kk]).0@.len() <= 255,
            forall|kk: int| 0 <= kk < content@.len() ==> (#[trigger] content@[kk]).0@.len() <= 255,
            forall|i: int, j: int|
                0 <= i < j < out@.len() ==> rank_before(#[trigger] out@[i], #[trigger] out@[j]),
            forall|t: int|
                0 <= t < out@.len() ==> cands@.take(k as int).contains((#[trigger] out@[t]).0)
                    && out@[t].1 == sat64(spec_score_total(mt, mc, out@[t].0)),
            forall|t: int|
                0 <= t < k ==> exists|u: int|
                    0 <= u < out@.len() && (#[trigger] out@[u]).0 == #[trigger] cands@[t],
            out@.len() == k,
        decreases n - k,
    {
        let id = cands[k];
        let sc = score_total(title, content, id);
        proof {
            assert forall|i: int| 0 <= i < out@.len() implies (#[trigger] out@[i]).0 != id by {
                assert(cands@.take(k as int).contains(out@[i].0));
                let t = choose|t: int|
                    0 <= t < k && #[trigger] cands@.take(k as int)[t] == out@[i].0;
                assert(cands@[t] == out@[i].0);
                assert(cands@[t] < cands@[k as int]);
            }
        }
        let ghost out0 = out@;
        rank_insert(&mut out, (id, sc));
        proof {
            assert forall|t: int|
                0 <= t < k + 1 implies exists|u: int|
                0 <= u < out@.len() && (#[trigger] out@[u]).0 == #[trigger] cands@[t] by {
                if t < k {
                    let u0 = choose|u: int|
                        0 <= u < out0.len() && (#[trigger] out0[u]).0 == cands@[t];
                    assert(entry_set(out@).contains(out0[u0]));
                    let u1 = choose|u: int| 0 <= u < out@.len() && out@[u] == out0[u0];
                    assert(out@[u1].0 == cands@[t]);
                } else {
                    assert(entry_set(out@).contains((id, sc)));
                    let u1 = choose|u: int| 0 <= u < out@.len() && out@[u] == (id, sc);
                    assert(out@[u1].0 == cands@[t]);
                }
            }
            assert forall|t: int|
                0 <= t < out@.len() implies cands@.take(k + 1).contains((#[trigger] out@[t]).0)
                && out@[t].1 == sat64(spec_score_total(mt, mc, out@[t].0)) by {
                assert(entry_set(out@).contains(out@[t]));
                if out@[t] == (id, sc) {
                    assert(cands@.take(k + 1)[k as int] == id);
                } else {
                    assert(entry_set(out0).contains(out@[t]));
                    let u0 = choose|u: int| 0 <= u < out0.len() && out0[u] == out@[t];
                    assert(cands@.take(k as int).contains(out0[u0].0));
                    let t2 = choose|t2: int|
                        0 <= t2 < k && #[trigger] cands@.take(k as int)[t2] == out0[u0].0;
                    assert(cands@.take(k + 1)[t2] == out0[u0].0);
                }
            }
        }
        k = k + 1;
    }
    proof {
        assert forall|id: u64| map_ids(mt).union(map_ids(mc)).contains(id) implies exists|u: int|
            0 <= u < out@.len() && (#[trigger] out@[u]).0 == id by {
            assert(ids_set(cands@).contains(id));
            let t = choose|t: int| 0 <= t < cands@.len() && cands@[t] == id;
        }
        assert forall|t: int|
            0 <= t < out@.len() implies map_ids(mt).union(map_ids(mc)).contains(
            (#[trigger] out@[t]).0,
        ) by {
            assert(cands@.take(n as int) =~= cands@);
            assert(cands@.contains(out@[t].0));
            assert(ids_set(cands@).contains(out@[t].0));
        }
    }
    out
}


/// Filtering a sorted posting list keeps it sorted.
pub proof fn lemma_word_filter_sub_wf(m: Seq<(Seq<u8>, Seq<u64>)>, ws: Seq<Seq<u8>>)
    requires
        crate::optimize::sub_wf(m),
    ensures
        crate::optimize::sub_wf(crate::index_shard::word_filter(m, ws)),
        forall|x: (Seq<u8>, Seq<u64>)|
            crate::index_shard::word_filter(m, ws).contains(x) ==> m.contains(x),
    decreases m.len(),
{
    reveal(Seq::filter);
    let f = crate::index_shard::word_filter(m, ws);
    if m.len() > 0 {
        let d = m.drop_last();
        assert(forall|i: int| 0 <= i < d.len() ==> #[trigger] d[i] == m[i]);
        lemma_word_filter_sub_wf(d, ws);
        let fd = crate::index_shard::word_filter(d, ws);
        if ws.contains(m.last().0) {
            assert(f == fd.push(m.last()));
        } else {
            assert(f == fd);
        }
        assert forall|x: (Seq<u8>, Seq<u64>)| f.contains(x) implies m.contains(x) by {
            let k = choose|k: int| 0 <= k < f.len() && #[trigger] f[k] == x;
            if ws.contains(m.last().0) {
                if k < fd.len() {
                    assert(fd[k] == x);
                    assert(fd.contains(x));
                    assert(d.contains(x));
                    let u = choose|u: int| 0 <= u < d.len() && #[trigger] d[u] == x;
                    assert(m[u] == x);
                } else {
                    assert(f[k] == m.last());
                    assert(m[m.len() - 1] == x);
                }
            } else {
                assert(fd[k] == x);
                assert(fd.contains(x));
                assert(d.contains(x));
                let u = choose|u: int| 0 <= u < d.len() && #[trigger] d[u] == x;
                assert(m[u] == x);
            }
        }
        assert forall|i: int, j: int| 0 <= i < j < f.len() implies lex_lt(f[i].0, f[j].0) by {
            if ws.contains(m.last().0) && j == f.len() - 1 {
                assert(f[j] == m.last());
                assert(fd[i] == f[i]);
                assert(fd.contains(f[i]));
                assert(d.contains(f[i]));
                let u = choose|u: int| 0 <= u < d.len() && #[trigger] d[u] == f[i];
                assert(m[u] == f[i]);
                assert(u < m.len() - 1);
                assert(lex_lt(m[u].0, m[m.len() - 1].0));
            } else {
                assert(f[i] == fd[i]);
                assert(f[j] == fd[j]);
            }
        }
        assert forall|i: int| 0 <= i < f.len() implies f[i].0.len() <= 255
            && strictly_sorted_u64(f[i].1) by {
            assert(f.contains(f[i]));
            assert(m.contains(f[i]));
            let u = choose|u: int| 0 <= u < m.len() && m[u] == f[i];
        }
    }
}

/// The pairs the shards of one tag hold for the queried words.
pub open spec fn tag_pairs(stores: Seq<IndexedStore>, tag: Seq<char>, qs: Seq<Seq<u8>>) -> Set<
    (Seq<u8>, u64),
>
    decreases stores.len(),
{
    if stores.len() == 0 {
        Set::empty()
    } else {
        tag_pairs(stores.drop_last(), tag, qs).union(
            if stores.last().tag@ == tag {
                pairs_of(crate::index_shard::word_filter(stores.last()@, qs))
            } else {
                Set::empty()
            },
        )
    }
}

/// Fetches and merges, across every shard of one tag, the postings of
/// the queried words.
#[verifier::loop_isolation(false)]
pub fn fetch_tag_postings(stores: &Vec<IndexedStore>, tag: &String, terms: &Vec<Vec<u8>>) -> (r:
    Vec<Posting>)
    requires
        forall|k: int| 0 <= k < stores@.len() ==> (#[trigger] stores@[k]).wf(),
        strictly_sorted_words(terms@.map_values(|w: Vec<u8>| w@)),
    ensures
        crate::optimize::sub_wf(postings_view(r@)),
        pairs_of(postings_view(r@)) == tag_pairs(
            stores@,
            tag@,
            terms@.map_values(|w: Vec<u8>| w@),
        ),
{
    let ghost qs = terms@.map_values(|w: Vec<u8>| w@);
    let n = stores.len();
    let mut cur: Vec<Posting> = Vec::new();
    let mut k: usize = 0;
    proof {
        assert(stores@.take(0) =~= Seq::<IndexedStore>::empty());
        assert(pairs_of(postings_view(cur@)) =~= tag_pairs(stores@.take(0), tag@, qs));
    }
    while k < n
        invariant
            0 <= k <= n,
            n == stores@.len(),
            qs == terms@.map_values(|w: Vec<u8>| w@),
            crate::optimize::sub_wf(postings_view(cur@)),
            pairs_of(postings_view(cur@)) == tag_pairs(stores@.take(k as int), tag@, qs),
        decreases n - k,
    {
        proof {
            assert(stores@.take(k + 1).drop_last() =~= stores@.take(k as int));
            assert(stores@.take(k + 1).last() == stores@[k as int]);
        }
        if stores[k].tag.eq(tag) {
            let fetched = stores[k].get_words(terms);
            proof {
                assert(stores@[k as int].wf());
                lemma_word_filter_sub_wf(stores@[k as int]@, qs);
                assert(crate::optimize::sub_wf(postings_view(fetched@)));
            }
            let merged = crate::optimize::merge_postings(&cur, &fetched);
            cur = merged;
            proof {
                assert(pairs_of(postings_view(cur@)) =~= tag_pairs(
                    stores@.take(k + 1),
                    tag@,
                    qs,
                ));
            }
        } else {
            proof {
                assert(pairs_of(postings_view(cur@)) =~= tag_pairs(
                    stores@.take(k + 1),
                    tag@,
                    qs,
                ));
            }
        }
        k = k + 1;
    }
    proof {
        assert(stores@.take(n as int) =~= stores@);
    }
    cur
}

/// The id set a language map holds for one language code.
pub open spec fn lang_id_set(langs: Seq<(Seq<u8>, Seq<u64>)>, code: Seq<u8>) -> Set<u64> {
    Set::new(|id: u64| pairs_of(langs).contains((code, id)))
}

/// Looks up the pre-loaded id set of one language.
#[verifier::loop_isolation(false)]
pub fn lang_ids(langs: &Vec<Posting>, lang: crate::lang::LangCode) -> (r: Vec<u64>)
    requires
        crate::store::map_wf(postings_view(langs@)),
    ensures
        strictly_sorted_u64(r@),
        ids_set(r@) == lang_id_set(postings_view(langs@), crate::lang::spec_lang_code(lang)),
{
    let ghost m = postings_view(langs@);
    let ghost code = crate::lang::spec_lang_code(lang);
    let code_bytes = crate::lang::lang_code(lang);
    let n = langs.len();
    let mut k: usize = 0;
    while k < n
        invariant
            0 <= k <= n,
            n == langs@.len(),
            m == postings_view(langs@),
            code == code_bytes@,
            forall|t: int| 0 <= t < k ==> (#[trigger] m[t]).0 != code,
        decreases n - k,
    {
        if bytes_eq(&langs[k].0, &code_bytes) {
            let r = langs[k].1.clone();
            proof {
                assert(m[k as int] == (langs@[k as int].0@, langs@[k as int].1@));
                assert(ids_set(r@) =~= lang_id_set(m, code)) by {
                    assert forall|id: u64| ids_set(r@).contains(id) implies lang_id_set(
                        m,
                        code,
                    ).contains(id) by {
                        assert(m[k as int].0 == code && m[k as int].1.contains(id));
                    }
                    assert forall|id: u64| lang_id_set(m, code).contains(id) implies ids_set(
                        r@,
                    ).contains(id) by {
                        let u = choose|u: int|
                            0 <= u < m.len() && (#[trigger] m[u]).0 == code && m[u].1.contains(
                                id,
                            );
                        if u != k {
                            if u < k {
                                assert(lex_lt(m[u].0, m[k as int].0));
                            } else {
                                assert(lex_lt(m[k as int].0, m[u].0));
                            }
                            crate::order::lemma_lex_trichotomy(m[u].0, m[k as int].0);
                        }
                    }
                }
            }
            return r;
        }
        k = k + 1;
    }
    let r: Vec<u64> = Vec::new();
    proof {
        assert(ids_set(r@) =~= lang_id_set(m, code)) by {
            assert forall|id: u64| !ids_set(r@).contains(id) implies !lang_id_set(
                m,
                code,
            ).contains(id) by {
                if lang_id_set(m, code).contains(id) {
                    let u = choose|u: int|
                        0 <= u < m.len() && (#[trigger] m[u]).0 == code && m[u].1.contains(id);
                }
            }
        }
    }
    r
}

/// Intersects every posting's id set with the language's documents.
#[verifier::loop_isolation(false)]
pub fn restrict_postings(m: &Vec<Posting>, keep: &Vec<u64>) -> (r: Vec<Posting>)
    requires
        crate::optimize::sub_wf(postings_view(m@)),
        strictly_sorted_u64(keep@),
    ensures
        crate::optimize::sub_wf(postings_view(r@)),
        r@.len() == m@.len(),
        forall|k: int|
            0 <= k < r@.len() ==> (#[trigger] postings_view(r@)[k]).0 == postings_view(m@)[k].0
                && ids_set(postings_view(r@)[k].1) == ids_set(postings_view(m@)[k].1).intersect(
                ids_set(keep@),
            ),
{
    let ghost mm = postings_view(m@);
    let n = m.len();
    let mut out: Vec<Posting> = Vec::new();
    let mut k: usize = 0;
    while k < n
        invariant
            0 <= k <= n,
            n == m@.len(),
            mm == postings_view(m@),
            out@.len() == k,
            forall|t: int|
                0 <= t < k ==> (#[trigger] postings_view(out@)[t]).0 == mm[t].0
                    && strictly_sorted_u64(postings_view(out@)[t].1) && ids_set(
                    postings_view(out@)[t].1,
                ) == ids_set(mm[t].1).intersect(ids_set(keep@)) && postings_view(
                    out@,
                )[t].0.len() <= 255,
        decreases n - k,
    {
        proof {
            assert(mm[k as int] == (m@[k as int].0@, m@[k as int].1@));
        }
        let word = m[k].0.clone();
        let ids = intersect_ids(&m[k].1, keep);
        let ghost out0 = out@;
        out.push((word, ids));
        proof {
            assert(postings_view(out@) =~= postings_view(out0).push((word@, ids@)));
            assert forall|t: int| 0 <= t < k + 1 implies (#[trigger] postings_view(out@)[t]).0
                == mm[t].0 && strictly_sorted_u64(postings_view(out@)[t].1) && ids_set(
                postings_view(out@)[t].1,
            ) == ids_set(mm[t].1).intersect(ids_set(keep@)) && postings_view(
                out@,
            )[t].0.len() <= 255 by {
                if t < k {
                    assert(postings_view(out@)[t] == postings_view(out0)[t]);
                } else {
                    assert(postings_view(out@)[t] == (word@, ids@));
                }
            }
        }
        k = k + 1;
    }
    proof {
        assert forall|i: int, j: int| 0 <= i < j < postings_view(out@).len() implies lex_lt(
            postings_view(out@)[i].0,
            postings_view(out@)[j].0,
        ) by {
            assert(postings_view(out@)[i].0 == mm[i].0);
            assert(postings_view(out@)[j].0 == mm[j].0);
        }
    }
    out
}

} // verus!
