//! The shard-merge ("optimize") core: a k-way merge of sorted posting
//! lists that unions the id sets of equal words, sorting and
//! deduplicating on the way.
use crate::index_shard::{postings_view, Posting};
use crate::order::{bytes_eq, bytes_lt, lex_lt, strictly_sorted_u64};
use crate::store::pairs_of;
use vstd::prelude::*;

verus! {

/// A posting list sorted by word, possibly with empty id sets.
pub open spec fn sub_wf(m: Seq<(Seq<u8>, Seq<u64>)>) -> bool {
    &&& forall|i: int| 0 <= i < m.len() ==> (#[trigger] m[i]).0.len() <= 255
    &&& forall|i: int| 0 <= i < m.len() ==> strictly_sorted_u64((#[trigger] m[i]).1)
    &&& forall|i: int, j: int| 0 <= i < j < m.len() ==> lex_lt(m[i].0, m[j].0)
}

/// The `(word, id)` pairs of a single posting.
pub open spec fn entry_pairs(e: (Seq<u8>, Seq<u64>)) -> Set<(Seq<u8>, u64)> {
    Set::new(|p: (Seq<u8>, u64)| p.0 == e.0 && e.1.contains(p.1))
}

/// Appending a posting adds exactly its pairs.
pub proof fn lemma_pairs_push(m: Seq<(Seq<u8>, Seq<u64>)>, e: (Seq<u8>, Seq<u64>))
    ensures
        pairs_of(m.push(e)) == pairs_of(m).union(entry_pairs(e)),
{
    let m1 = m.push(e);
    assert(pairs_of(m1) =~= pairs_of(m).union(entry_pairs(e))) by {
        assert forall|p: (Seq<u8>, u64)| pairs_of(m1).contains(p) implies pairs_of(m).union(
            entry_pairs(e),
        ).contains(p) by {
            let k = choose|k: int|
                0 <= k < m1.len() && (#[trigger] m1[k]).0 == p.0 && m1[k].1.contains(p.1);
            if k < m.len() {
                assert(m[k] == m1[k]);
                assert(pairs_of(m).contains(p));
            } else {
                assert(m1[k] == e);
            }
        }
        assert forall|p: (Seq<u8>, u64)|
            pairs_of(m).union(entry_pairs(e)).contains(p) implies pairs_of(m1).contains(p) by {
            if pairs_of(m).contains(p) {
                let k = choose|k: int|
                    0 <= k < m.len() && (#[trigger] m[k]).0 == p.0 && m[k].1.contains(p.1);
                assert(m1[k].0 == p.0 && m1[k].1.contains(p.1));
            } else {
                assert(m1[m.len() as int].0 == p.0 && m1[m.len() as int].1.contains(p.1));
            }
        }
    }
}

/// The pairs of a prefix extend to the pairs of the whole.
pub proof fn lemma_pairs_take_succ(m: Seq<(Seq<u8>, Seq<u64>)>, i: int)
    requires
        0 <= i < m.len(),
    ensures
        pairs_of(m.take(i + 1)) == pairs_of(m.take(i)).union(entry_pairs(m[i])),
{
    assert(m.take(i + 1) =~= m.take(i).push(m[i]));
    lemma_pairs_push(m.take(i), m[i]);
}

/// The set of ids in a sequence.
pub open spec fn ids_set(s: Seq<u64>) -> Set<u64> {
    Set::new(|x: u64| s.contains(x))
}

pub proof fn lemma_ids_set_push_pub(s: Seq<u64>, x: u64)
    ensures
        ids_set(s.push(x)) == ids_set(s).insert(x),
{
    assert(ids_set(s.push(x)) =~= ids_set(s).insert(x)) by {
        assert forall|y: u64| ids_set(s.push(x)).contains(y) implies ids_set(s).insert(
            x,
        ).contains(y) by {
            let k = choose|k: int| 0 <= k < s.push(x).len() && s.push(x)[k] == y;
            if k < s.len() {
                assert(s[k] == y);
            }
        }
        assert forall|y: u64| ids_set(s).insert(x).contains(y) implies ids_set(
            s.push(x),
        ).contains(y) by {
            if y == x {
                assert(s.push(x)[s.len() as int] == y);
            } else {
                let k = choose|k: int| 0 <= k < s.len() && s[k] == y;
                assert(s.push(x)[k] == y);
            }
        }
    }
}

/// Merges two strictly ascending id sequences into their sorted,
/// duplicate-free union.
#[verifier::loop_isolation(false)]
#[verifier::rlimit(60)]
pub fn merge_ids(a: &Vec<u64>, b: &Vec<u64>) -> (r: Vec<u64>)
    requires
        strictly_sorted_u64(a@),
        strictly_sorted_u64(b@),
    ensures
        strictly_sorted_u64(r@),
        ids_set(r@) == ids_set(a@).union(ids_set(b@)),
        r@.len() > 0 ==> (a@.contains(r@.last()) || b@.contains(r@.last())) && (forall|x: u64|
            ids_set(r@).contains(x) ==> x <= r@.last()),
{
    let na = a.len();
    let nb = b.len();
    let mut out: Vec<u64> = Vec::new();
    let mut i: usize = 0;
    let mut j: usize = 0;
    proof {
        assert(a@.take(0) =~= Seq::<u64>::empty());
        assert(b@.take(0) =~= Seq::<u64>::empty());
        assert(ids_set(out@) =~= ids_set(a@.take(0)).union(ids_set(b@.take(0))));
    }
    while i < na || j < nb
        invariant
            0 <= i <= na,
            0 <= j <= nb,
            na == a@.len(),
            nb == b@.len(),
            strictly_sorted_u64(out@),
            ids_set(out@) == ids_set(a@.take(i as int)).union(ids_set(b@.take(j as int))),
            out@.len() > 0 && i < na ==> out@.last() < a@[i as int],
            out@.len() > 0 && j < nb ==> out@.last() < b@[j as int],
            out@.len() > 0 ==> (a@.contains(out@.last()) || b@.contains(out@.last())) && (
            forall|x: u64| ids_set(out@).contains(x) ==> x <= out@.last()),
        decreases (na - i) + (nb - j),
    {
        let take_a = if i < na {
            if j < nb {
                a[i] <= b[j]
            } else {
                true
            }
        } else {
            false
        };
        let ghost out0 = out@;
        if take_a {
            let v = a[i];
            let also_b = j < nb && b[j] == v;
            out.push(v);
            proof {
                lemma_ids_set_push_pub(out0, v);
                assert(a@.take(i + 1) =~= a@.take(i as int).push(v));
                lemma_ids_set_push_pub(a@.take(i as int), v);
                if also_b {
                    assert(b@.take(j + 1) =~= b@.take(j as int).push(v));
                    lemma_ids_set_push_pub(b@.take(j as int), v);
                    assert(ids_set(out@) =~= ids_set(a@.take(i + 1)).union(
                        ids_set(b@.take(j + 1)),
                    ));
                } else {
                    assert(ids_set(out@) =~= ids_set(a@.take(i + 1)).union(
                        ids_set(b@.take(j as int)),
                    ));
                }
                assert forall|c: int, d: int| 0 <= c < d < out@.len() implies out@[c]
                    < out@[d] by {
                    if d == out@.len() - 1 && out0.len() > 0 {
                        assert(out@[c] <= out0.last());
                    }
                }
                assert(a@[i as int] == v);
                assert(a@.contains(v));
            }
            i = i + 1;
            if also_b {
                j = j + 1;
            }
        } else {
            let v = b[j];
            out.push(v);
            proof {
                lemma_ids_set_push_pub(out0, v);
                assert(b@.take(j + 1) =~= b@.take(j as int).push(v));
                lemma_ids_set_push_pub(b@.take(j as int), v);
                assert(ids_set(out@) =~= ids_set(a@.take(i as int)).union(
                    ids_set(b@.take(j + 1)),
                ));
                assert forall|c: int, d: int| 0 <= c < d < out@.len() implies out@[c]
                    < out@[d] by {
                    if d == out@.len() - 1 && out0.len() > 0 {
                        assert(out@[c] <= out0.last());
                    }
                }
                assert(b@[j as int] == v);
                assert(b@.contains(v));
            }
            j = j + 1;
        }
    }
    proof {
        assert(a@.take(na as int) =~= a@);
        assert(b@.take(nb as int) =~= b@);
    }
    out
}

/// Merges two sorted posting lists: the word domains are unioned and
/// the id sets of equal words merged.  The result holds exactly the
/// `(word, id)` pairs of the two inputs.
#[verifier::loop_isolation(false)]
#[verifier::rlimit(100)]
pub fn merge_postings(a: &Vec<Posting>, b: &Vec<Posting>) -> (r: Vec<Posting>)
    requires
        sub_wf(postings_view(a@)),
        sub_wf(postings_view(b@)),
    ensures
        sub_wf(postings_view(r@)),
        pairs_of(postings_view(r@)) == pairs_of(postings_view(a@)).union(
            pairs_of(postings_view(b@)),
        ),
{
    let ghost ma = postings_view(a@);
    let ghost mb = postings_view(b@);
    let na = a.len();
    let nb = b.len();
    let mut out: Vec<Posting> = Vec::new();
    let mut i: usize = 0;
    let mut j: usize = 0;
    proof {
        assert(ma.take(0) =~= Seq::<(Seq<u8>, Seq<u64>)>::empty());
        assert(mb.take(0) =~= Seq::<(Seq<u8>, Seq<u64>)>::empty());
        assert(pairs_of(postings_view(out@)) =~= pairs_of(ma.take(0)).union(
            pairs_of(mb.take(0)),
        ));
    }
    while i < na || j < nb
        invariant
            0 <= i <= na,
            0 <= j <= nb,
            na == a@.len(),
            nb == b@.len(),
            ma == postings_view(a@),
            mb == postings_view(b@),
            sub_wf(postings_view(out@)),
            pairs_of(postings_view(out@)) == pairs_of(ma.take(i as int)).union(
                pairs_of(mb.take(j as int)),
            ),
            postings_view(out@).len() > 0 && i < na ==> lex_lt(
                postings_view(out@).last().0,
                ma[i as int].0,
            ),
            postings_view(out@).len() > 0 && j < nb ==> lex_lt(
                postings_view(out@).last().0,
                mb[j as int].0,
            ),
        decreases (na - i) + (nb - j),
    {
        let ghost out0 = postings_view(out@);
        let take_a = if i < na {
            if j < nb {
                !bytes_lt(&b[j].0, &a[i].0)
            } else {
                true
            }
        } else {
            false
        };
        if take_a {
            let same = j < nb && bytes_eq(&a[i].0, &b[j].0);
            if same {
                proof {
                    assert(ma[i as int] == (a@[i as int].0@, a@[i as int].1@));
                    assert(mb[j as int] == (b@[j as int].0@, b@[j as int].1@));
                }
                let word = a[i].0.clone();
                let ids = merge_ids(&a[i].1, &b[j].1);
                out.push((word, ids));
                proof {
                    let e = (ma[i as int].0, ids@);
                    assert(postings_view(out@) =~= out0.push(e));
                    lemma_pairs_push(out0, e);
                    lemma_pairs_take_succ(ma, i as int);
                    lemma_pairs_take_succ(mb, j as int);
                    assert(entry_pairs(e) =~= entry_pairs(ma[i as int]).union(
                        entry_pairs(mb[j as int]),
                    )) by {
                        assert(ids_set(ids@) == ids_set(ma[i as int].1).union(
                            ids_set(mb[j as int].1),
                        ));
                        assert forall|p: (Seq<u8>, u64)| entry_pairs(e).contains(p) implies
                            entry_pairs(ma[i as int]).union(entry_pairs(mb[j as int])).contains(
                            p,
                        ) by {
                            assert(ids_set(ids@).contains(p.1));
                        }
                        assert forall|p: (Seq<u8>, u64)|
                            entry_pairs(ma[i as int]).union(entry_pairs(mb[j as int])).contains(
                                p,
                            ) implies entry_pairs(e).contains(p) by {
                            assert(ids_set(ids@).contains(p.1));
                        }
                    }
                    assert(pairs_of(postings_view(out@)) =~= pairs_of(ma.take(i + 1)).union(
                        pairs_of(mb.take(j + 1)),
                    ));
                    assert forall|c: int, d: int|
                        0 <= c < d < postings_view(out@).len() implies lex_lt(
                        postings_view(out@)[c].0,
                        postings_view(out@)[d].0,
                    ) by {
                        if d == postings_view(out@).len() - 1 && out0.len() > 0 {
                            if c < out0.len() - 1 {
                                crate::order::lemma_lex_trans(
                                    out0[c].0,
                                    out0.last().0,
                                    e.0,
                                );
                            }
                        }
                    }
                }
                i = i + 1;
                j = j + 1;
            } else {
                let word = a[i].0.clone();
                let ids = a[i].1.clone();
                out.push((word, ids));
                proof {
                    let e = ma[i as int];
                    assert(postings_view(out@) =~= out0.push(e));
                    lemma_pairs_push(out0, e);
                    lemma_pairs_take_succ(ma, i as int);
                    assert(pairs_of(postings_view(out@)) =~= pairs_of(ma.take(i + 1)).union(
                        pairs_of(mb.take(j as int)),
                    ));
                    if j < nb {
                        crate::order::lemma_lex_trichotomy(mb[j as int].0, ma[i as int].0);
                    }
                    assert forall|c: int, d: int|
                        0 <= c < d < postings_view(out@).len() implies lex_lt(
                        postings_view(out@)[c].0,
                        postings_view(out@)[d].0,
                    ) by {
                        if d == postings_view(out@).len() - 1 && out0.len() > 0 {
                            if c < out0.len() - 1 {
                                crate::order::lemma_lex_trans(
                                    out0[c].0,
                                    out0.last().0,
                                    e.0,
                                );
                            }
                        }
                    }
                }
                i = i + 1;
            }
        } else {
            let word = b[j].0.clone();
            let ids = b[j].1.clone();
            out.push((word, ids));
            proof {
                let e = mb[j as int];
                assert(postings_view(out@) =~= out0.push(e));
                lemma_pairs_push(out0, e);
                lemma_pairs_take_succ(mb, j as int);
                assert(pairs_of(postings_view(out@)) =~= pairs_of(ma.take(i as int)).union(
                    pairs_of(mb.take(j + 1)),
                ));
                assert forall|c: int, d: int|
                    0 <= c < d < postings_view(out@).len() implies lex_lt(
                    postings_view(out@)[c].0,
                    postings_view(out@)[d].0,
                ) by {
                    if d == postings_view(out@).len() - 1 && out0.len() > 0 {
                        if c < out0.len() - 1 {
                            crate::order::lemma_lex_trans(out0[c].0, out0.last().0, e.0);
                        }
                    }
                }
            }
            j = j + 1;
        }
    }
    proof {
        assert(ma.take(na as int) =~= ma);
        assert(mb.take(nb as int) =~= mb);
    }
    out
}

/// The union of the pairs of a list of posting lists.
pub open spec fn pairs_union(subsets: Seq<Seq<(Seq<u8>, Seq<u64>)>>) -> Set<(Seq<u8>, u64)>
    decreases subsets.len(),
{
    if subsets.len() == 0 {
        Set::empty()
    } else {
        pairs_union(subsets.drop_last()).union(pairs_of(subsets.last()))
    }
}

/// The views of a list of posting vectors.
pub open spec fn subsets_view(subsets: Seq<Vec<Posting>>) -> Seq<Seq<(Seq<u8>, Seq<u64>)>> {
    subsets.map_values(|v: Vec<Posting>| postings_view(v@))
}

/// Merges the per-shard subsets fetched for one optimize chunk into
/// one sorted, deduplicated posting list holding exactly the union of
/// their `(word, id)` pairs.
#[verifier::loop_isolation(false)]
pub fn merge_subsets(subsets: &Vec<Vec<Posting>>) -> (r: Vec<Posting>)
    requires
        forall|k: int|
            0 <= k < subsets@.len() ==> sub_wf(postings_view((#[trigger] subsets@[k])@)),
    ensures
        sub_wf(postings_view(r@)),
        pairs_of(postings_view(r@)) == pairs_union(subsets_view(subsets@)),
{
    let n = subsets.len();
    let mut out: Vec<Posting> = Vec::new();
    let mut k: usize = 0;
    proof {
        assert(subsets_view(subsets@).take(0) =~= Seq::<Seq<(Seq<u8>, Seq<u64>)>>::empty());
        assert(pairs_of(postings_view(out@)) =~= pairs_union(subsets_view(subsets@).take(0)));
    }
    while k < n
        invariant
            0 <= k <= n,
            n == subsets@.len(),
            sub_wf(postings_view(out@)),
            pairs_of(postings_view(out@)) == pairs_union(subsets_view(subsets@).take(k as int)),
        decreases n - k,
    {
        let merged = merge_postings(&out, &subsets[k]);
        out = merged;
        proof {
            assert(subsets_view(subsets@).take(k + 1).drop_last() =~= subsets_view(
                subsets@,
            ).take(k as int));
            assert(subsets_view(subsets@).take(k + 1).last() == postings_view(
                subsets@[k as int]@,
            ));
            assert(pairs_of(postings_view(out@)) =~= pairs_union(
                subsets_view(subsets@).take(k + 1),
            ));
        }
        k = k + 1;
    }
    proof {
        assert(subsets_view(subsets@).take(n as int) =~= subsets_view(subsets@));
    }
    out
}

/// Splitting a posting list splits its pairs: together with
/// `merge_subsets` and `get_subset_of_words`, this says the optimize
/// pass preserves exactly the `(word, id)` pairs of every shard it
/// merges.
pub proof fn lemma_pairs_split(m: Seq<(Seq<u8>, Seq<u64>)>, k: int)
    requires
        0 <= k <= m.len(),
    ensures
        pairs_of(m) == pairs_of(m.subrange(0, k)).union(pairs_of(m.subrange(k, m.len() as int))),
{
    let lo = m.subrange(0, k);
    let hi = m.subrange(k, m.len() as int);
    assert(pairs_of(m) =~= pairs_of(lo).union(pairs_of(hi))) by {
        assert forall|p: (Seq<u8>, u64)| pairs_of(m).contains(p) implies pairs_of(lo).union(
            pairs_of(hi),
        ).contains(p) by {
            let t = choose|t: int|
                0 <= t < m.len() && (#[trigger] m[t]).0 == p.0 && m[t].1.contains(p.1);
            if t < k {
                assert(lo[t] == m[t]);
                assert(pairs_of(lo).contains(p));
            } else {
                assert(hi[t - k] == m[t]);
                assert(pairs_of(hi).contains(p));
            }
        }
        assert forall|p: (Seq<u8>, u64)|
            pairs_of(lo).union(pairs_of(hi)).contains(p) implies pairs_of(m).contains(p) by {
            if pairs_of(lo).contains(p) {
                let t = choose|t: int|
                    0 <= t < lo.len() && (#[trigger] lo[t]).0 == p.0 && lo[t].1.contains(p.1);
                assert(m[t] == lo[t]);
            } else {
                let t = choose|t: int|
                    0 <= t < hi.len() && (#[trigger] hi[t]).0 == p.0 && hi[t].1.contains(p.1);
                assert(m[t + k] == hi[t]);
            }
        }
    }
}

} // verus!
