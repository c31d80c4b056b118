//! The indexed-shard format: postings sorted by word, preceded by a
//! header and a jump table.
//!
//! Layout, all integers little-endian:
//!
//! ```text
//! u64  num_entries                (number of postings)
//! u64  jump_table_len
//! u32  jump_stride                (= 1000)
//! repeat jump_table_len times:
//!     u8   word_byte_len, word bytes, u64 content_offset
//! repeat num_entries times:
//!     u8   word_byte_len, word bytes, u64 set_len, u64 x set_len ids
//! ```
//!
//! A jump-table entry is emitted for posting 0 and for every
//! `JUMP_STRIDE`-th posting after it, and the last posting is always
//! pinned as the final entry.
use crate::codec::{push_all, push_u32, push_u64, push_u8, take_bytes, take_u32, take_u64, take_u8};
use crate::order::{bytes_eq, bytes_lt, lex_le, lex_lt, strictly_sorted_u64, strictly_sorted_words};
use vstd::bytes::*;
use vstd::prelude::*;

verus! {

pub const JUMP_STRIDE: u64 = 1000;

/// One posting: a word and its document ids.
pub type Posting = (Vec<u8>, Vec<u64>);

/// The mathematical view of a posting list.
pub open spec fn postings_view(ps: Seq<Posting>) -> Seq<(Seq<u8>, Seq<u64>)> {
    ps.map_values(|p: Posting| (p.0@, p.1@))
}

/// The encoding of a sorted id set: each id as eight little-endian bytes.
pub open spec fn enc_ids(ids: Seq<u64>) -> Seq<u8>
    decreases ids.len(),
{
    if ids.len() == 0 {
        Seq::empty()
    } else {
        enc_ids(ids.drop_last()) + spec_u64_to_le_bytes(ids.last())
    }
}

/// The encoding of one posting.
pub open spec fn enc_posting(p: (Seq<u8>, Seq<u64>)) -> Seq<u8> {
    seq![p.0.len() as u8] + p.0 + spec_u64_to_le_bytes(p.1.len() as u64) + enc_ids(p.1)
}

/// The content region: the concatenated posting encodings.
pub open spec fn enc_postings(ps: Seq<(Seq<u8>, Seq<u64>)>) -> Seq<u8>
    decreases ps.len(),
{
    if ps.len() == 0 {
        Seq::empty()
    } else {
        enc_postings(ps.drop_last()) + enc_posting(ps.last())
    }
}

/// The byte offset of posting `i` within the content region.
pub open spec fn offset_of(ps: Seq<(Seq<u8>, Seq<u64>)>, i: int) -> int {
    enc_postings(ps.take(i)).len() as int
}

pub proof fn lemma_enc_ids_len(ids: Seq<u64>)
    ensures
        enc_ids(ids).len() == 8 * ids.len(),
    decreases ids.len(),
{
    if ids.len() > 0 {
        lemma_enc_ids_len(ids.drop_last());
        lemma_auto_spec_u64_to_from_le_bytes();
    }
}

pub proof fn lemma_enc_posting_len(p: (Seq<u8>, Seq<u64>))
    ensures
        enc_posting(p).len() == 9 + p.0.len() + 8 * p.1.len(),
{
    lemma_enc_ids_len(p.1);
    lemma_auto_spec_u64_to_from_le_bytes();
}

/// Appending one id extends the id encoding on the right.
pub proof fn lemma_enc_ids_push(ids: Seq<u64>, id: u64)
    ensures
        enc_ids(ids.push(id)) == enc_ids(ids) + spec_u64_to_le_bytes(id),
{
    assert(ids.push(id).drop_last() =~= ids);
}

/// The eight bytes of id `j` inside an id-set encoding.
pub proof fn lemma_enc_ids_at(ids: Seq<u64>, j: int)
    requires
        0 <= j < ids.len(),
    ensures
        enc_ids(ids).subrange(8 * j, 8 * j + 8) == spec_u64_to_le_bytes(ids[j]),
    decreases ids.len(),
{
    lemma_enc_ids_len(ids);
    lemma_auto_spec_u64_to_from_le_bytes();
    if j == ids.len() - 1 {
        lemma_enc_ids_len(ids.drop_last());
        assert(enc_ids(ids).subrange(8 * j, 8 * j + 8) =~= spec_u64_to_le_bytes(ids.last()));
    } else {
        lemma_enc_ids_at(ids.drop_last(), j);
        lemma_enc_ids_len(ids.drop_last());
        assert(enc_ids(ids).subrange(8 * j, 8 * j + 8) =~= enc_ids(ids.drop_last()).subrange(
            8 * j,
            8 * j + 8,
        ));
    }
}

/// Taking one more posting extends the content encoding on the right.
pub proof fn lemma_enc_postings_take_succ(ps: Seq<(Seq<u8>, Seq<u64>)>, i: int)
    requires
        0 <= i < ps.len(),
    ensures
        enc_postings(ps.take(i + 1)) == enc_postings(ps.take(i)) + enc_posting(ps[i]),
{
    assert(ps.take(i + 1).drop_last() =~= ps.take(i));
    assert(ps.take(i + 1).last() == ps[i]);
}

/// The prefix encoding is a prefix of the whole encoding.
pub proof fn lemma_enc_postings_prefix(ps: Seq<(Seq<u8>, Seq<u64>)>, i: int)
    requires
        0 <= i <= ps.len(),
    ensures
        offset_of(ps, i) <= enc_postings(ps).len(),
        enc_postings(ps).subrange(0, offset_of(ps, i)) == enc_postings(ps.take(i)),
    decreases ps.len() - i,
{
    if i == ps.len() {
        assert(ps.take(i) =~= ps);
    } else {
        lemma_enc_postings_prefix(ps, i + 1);
        lemma_enc_postings_take_succ(ps, i);
        assert(enc_postings(ps).subrange(0, offset_of(ps, i)) =~= enc_postings(
            ps.take(i + 1),
        ).subrange(0, offset_of(ps, i)));
        assert(enc_postings(ps.take(i + 1)).subrange(0, offset_of(ps, i)) =~= enc_postings(
            ps.take(i),
        ));
    }
}

/// The bytes of posting `i` inside the content region.
pub proof fn lemma_enc_postings_at(ps: Seq<(Seq<u8>, Seq<u64>)>, i: int)
    requires
        0 <= i < ps.len(),
    ensures
        offset_of(ps, i + 1) == offset_of(ps, i) + enc_posting(ps[i]).len(),
        offset_of(ps, i + 1) <= enc_postings(ps).len(),
        enc_postings(ps).subrange(offset_of(ps, i), offset_of(ps, i + 1)) == enc_posting(ps[i]),
{
    lemma_enc_postings_take_succ(ps, i);
    lemma_enc_postings_prefix(ps, i + 1);
    assert(enc_postings(ps).subrange(offset_of(ps, i), offset_of(ps, i + 1)) =~= enc_postings(
        ps.take(i + 1),
    ).subrange(offset_of(ps, i), offset_of(ps, i + 1)));
    assert(enc_postings(ps.take(i + 1)).subrange(offset_of(ps, i), offset_of(ps, i + 1)) =~=
        enc_posting(ps[i]));
}

/// The jump entries for the postings before index `n`: one for posting 0
/// and one for each later multiple of `JUMP_STRIDE`.
pub open spec fn stride_jumps(ps: Seq<(Seq<u8>, Seq<u64>)>, n: int) -> Seq<(Seq<u8>, u64)>
    decreases n,
{
    if n <= 0 {
        Seq::empty()
    } else if (n - 1) % (JUMP_STRIDE as int) == 0 {
        stride_jumps(ps, n - 1).push((ps[n - 1].0, offset_of(ps, n - 1) as u64))
    } else {
        stride_jumps(ps, n - 1)
    }
}

/// The whole jump table: the stride entries, and the last posting pinned
/// at the end.
pub open spec fn spec_jump_table(ps: Seq<(Seq<u8>, Seq<u64>)>) -> Seq<(Seq<u8>, u64)> {
    stride_jumps(ps, ps.len() as int).push(
        (ps.last().0, offset_of(ps, ps.len() - 1) as u64),
    )
}

/// The encoding of the jump table.
pub open spec fn enc_jumps(jt: Seq<(Seq<u8>, u64)>) -> Seq<u8>
    decreases jt.len(),
{
    if jt.len() == 0 {
        Seq::empty()
    } else {
        enc_jumps(jt.drop_last()) + seq![jt.last().0.len() as u8] + jt.last().0
            + spec_u64_to_le_bytes(jt.last().1)
    }
}

pub proof fn lemma_enc_jumps_push(jt: Seq<(Seq<u8>, u64)>, e: (Seq<u8>, u64))
    ensures
        enc_jumps(jt.push(e)) == enc_jumps(jt) + seq![e.0.len() as u8] + e.0
            + spec_u64_to_le_bytes(e.1),
{
    assert(jt.push(e).drop_last() =~= jt);
}

/// The shard header: posting count, jump-table length, stride.
pub open spec fn enc_header(num: u64, jt_len: u64) -> Seq<u8> {
    spec_u64_to_le_bytes(num) + spec_u64_to_le_bytes(jt_len) + spec_u32_to_le_bytes(
        JUMP_STRIDE as u32,
    )
}

/// The byte offset at which the content region starts.
pub open spec fn spec_content_offset(ps: Seq<(Seq<u8>, Seq<u64>)>) -> int {
    20 + enc_jumps(spec_jump_table(ps)).len() as int
}

/// The full shard file for a posting list.
pub open spec fn shard_bytes(ps: Seq<(Seq<u8>, Seq<u64>)>) -> Seq<u8> {
    enc_header(ps.len() as u64, spec_jump_table(ps).len() as u64) + enc_jumps(
        spec_jump_table(ps),
    ) + enc_postings(ps)
}

/// A posting list fit to be written: nonempty, strictly sorted by word,
/// word lengths within a byte, ids strictly ascending, and small enough
/// that every byte offset fits in a `u64`.
pub open spec fn wf_postings(ps: Seq<(Seq<u8>, Seq<u64>)>) -> bool {
    &&& ps.len() > 0
    &&& ps.len() <= u64::MAX
    &&& forall|i: int| 0 <= i < ps.len() ==> (#[trigger] ps[i]).0.len() <= 255
    &&& forall|i: int| 0 <= i < ps.len() ==> strictly_sorted_u64((#[trigger] ps[i]).1)
    &&& forall|i: int, j: int|
        0 <= i < j < ps.len() ==> lex_lt(ps[i].0, ps[j].0)
    &&& enc_postings(ps).len() <= u64::MAX
}

/// Monotonicity of content offsets.
pub proof fn lemma_offset_bounds(ps: Seq<(Seq<u8>, Seq<u64>)>, i: int)
    requires
        0 <= i <= ps.len(),
    ensures
        0 <= offset_of(ps, i) <= enc_postings(ps).len(),
        offset_of(ps, 0) == 0,
    decreases i,
{
    lemma_enc_postings_prefix(ps, i);
    assert(ps.take(0) =~= Seq::<(Seq<u8>, Seq<u64>)>::empty());
}

/// Builds the on-disk bytes of one indexed shard from a well-formed
/// posting list.  The postings must already be sorted by word.
pub fn store_indexed_bytes(postings: &Vec<Posting>) -> (r: Vec<u8>)
    requires
        wf_postings(postings_view(postings@)),
    ensures
        r@ == shard_bytes(postings_view(postings@)),
{
    let ghost m = postings_view(postings@);
    let n = postings.len();
    let mut content: Vec<u8> = Vec::new();
    let mut jumps: Vec<(Vec<u8>, u64)> = Vec::new();
    let mut until_stride: usize = 0;
    proof {
        assert(m.take(0) =~= Seq::<(Seq<u8>, Seq<u64>)>::empty());
    }
    let mut i: usize = 0;
    while i < n
        invariant
            0 <= i <= n,
            n == postings@.len(),
            m == postings_view(postings@),
            wf_postings(m),
            content@ == enc_postings(m.take(i as int)),
            jumps@.map_values(|e: (Vec<u8>, u64)| (e.0@, e.1)) == stride_jumps(m, i as int),
            i + until_stride == jumps@.len() * (JUMP_STRIDE as int),
            until_stride < JUMP_STRIDE as usize,
        decreases n - i,
    {
        proof {
            lemma_enc_postings_prefix(m, i as int);
            lemma_enc_postings_take_succ(m, i as int);
        }
        let word = &postings[i].0;
        let ids = &postings[i].1;
        if until_stride == 0 {
            proof {
                assert((i as int) % (JUMP_STRIDE as int) == 0) by (nonlinear_arith)
                    requires
                        i as int == jumps@.len() * (JUMP_STRIDE as int),
                        jumps@.len() >= 0,
                ;
            }
            let entry_word = word.clone();
            let off = content.len() as u64;
            jumps.push((entry_word, off));
            proof {
                assert(jumps@.map_values(|e: (Vec<u8>, u64)| (e.0@, e.1)) =~= stride_jumps(
                    m,
                    i + 1,
                ));
            }
            until_stride = JUMP_STRIDE as usize - 1;
        } else {
            proof {
                assert((i as int) % (JUMP_STRIDE as int) != 0) by (nonlinear_arith)
                    requires
                        i + until_stride == jumps@.len() * (JUMP_STRIDE as int),
                        0 < until_stride < (JUMP_STRIDE as int),
                        i >= 0,
                ;
                assert(jumps@.map_values(|e: (Vec<u8>, u64)| (e.0@, e.1)) =~= stride_jumps(
                    m,
                    i + 1,
                ));
            }
            until_stride = until_stride - 1;
        }
        // posting header: word length, word, set length
        push_u8(&mut content, word.len() as u8);
        push_all(&mut content, word);
        push_u64(&mut content, ids.len() as u64);
        let ghost ids_view = m[i as int].1;
        let k_max = ids.len();
        let mut k: usize = 0;
        proof {
            assert(ids_view.take(0) =~= Seq::<u64>::empty());
        }
        while k < k_max
            invariant
                0 <= k <= k_max,
                k_max == ids_view.len(),
                ids@ == ids_view,
                content@ == old_content_plus(m, i as int, ids_view, k as int),
            decreases k_max - k,
        {
            push_u64(&mut content, ids[k]);
            proof {
                assert(ids_view.take(k as int).push(ids_view[k as int]) =~= ids_view.take(
                    k + 1,
                ));
                lemma_enc_ids_push(ids_view.take(k as int), ids_view[k as int]);
            }
            k = k + 1;
        }
        proof {
            assert(ids_view.take(k_max as int) =~= ids_view);
            assert(content@ =~= enc_postings(m.take(i as int)) + enc_posting(m[i as int]));
            assert(content@ == enc_postings(m.take(i + 1)));
        }
        i = i + 1;
    }
    proof {
        assert(m.take(n as int) =~= m);
    }
    // pin the last posting as the final jump entry
    proof {
        lemma_enc_postings_prefix(m, n - 1);
    }
    let last_word = postings[n - 1].0.clone();
    let ghost last_off_int = offset_of(m, n - 1);
    let last_off = offset_prefix_len(postings, n - 1, Ghost(m));
    jumps.push((last_word, last_off));
    proof {
        assert(jumps@.map_values(|e: (Vec<u8>, u64)| (e.0@, e.1)) =~= spec_jump_table(m));
    }
    // assemble: header, jump table, content
    let mut out: Vec<u8> = Vec::new();
    push_u64(&mut out, n as u64);
    push_u64(&mut out, jumps.len() as u64);
    push_u32(&mut out, JUMP_STRIDE as u32);
    proof {
        assert(out@ =~= enc_header(m.len() as u64, spec_jump_table(m).len() as u64));
    }
    let ghost jt = spec_jump_table(m);
    let jn = jumps.len();
    let mut j: usize = 0;
    proof {
        assert(jt.take(0) =~= Seq::<(Seq<u8>, u64)>::empty());
    }
    while j < jn
        invariant
            0 <= j <= jn,
            jn == jumps@.len(),
            jumps@.map_values(|e: (Vec<u8>, u64)| (e.0@, e.1)) == jt,
            out@ == enc_header(m.len() as u64, jt.len() as u64) + enc_jumps(jt.take(j as int)),
            m == postings_view(postings@),
        decreases jn - j,
    {
        let jw = jumps[j].0.clone();
        let joff = jumps[j].1;
        push_u8(&mut out, jw.len() as u8);
        push_all(&mut out, &jw);
        push_u64(&mut out, joff);
        proof {
            assert(jt[j as int] == (jw@, joff));
            assert(jt.take(j + 1).drop_last() =~= jt.take(j as int));
            assert(out@ =~= enc_header(m.len() as u64, jt.len() as u64) + enc_jumps(
                jt.take(j + 1),
            ));
        }
        j = j + 1;
    }
    proof {
        assert(jt.take(jn as int) =~= jt);
    }
    let mut tail = content;
    out.append(&mut tail);
    proof {
        assert(out@ =~= shard_bytes(m));
    }
    out
}

/// The running content length written so far inside the posting loop:
/// the first `i` postings, then the partial posting `i` with `k` ids.
pub open spec fn old_content_plus(
    m: Seq<(Seq<u8>, Seq<u64>)>,
    i: int,
    ids: Seq<u64>,
    k: int,
) -> Seq<u8> {
    enc_postings(m.take(i)) + seq![m[i].0.len() as u8] + m[i].0 + spec_u64_to_le_bytes(
        ids.len() as u64,
    ) + enc_ids(ids.take(k))
}

/// The byte length of the first `i` postings' encodings, as a `u64`.
fn offset_prefix_len(postings: &Vec<Posting>, i: usize, Ghost(m): Ghost<Seq<(Seq<u8>, Seq<u64>)>>)
    -> (r: u64)
    requires
        m == postings_view(postings@),
        wf_postings(m),
        i < postings@.len(),
    ensures
        r == offset_of(m, i as int),
{
    let mut total: u64 = 0;
    let mut t: usize = 0;
    proof {
        assert(m.take(0) =~= Seq::<(Seq<u8>, Seq<u64>)>::empty());
        lemma_offset_bounds(m, i as int);
    }
    while t < i
        invariant
            0 <= t <= i,
            i < postings@.len(),
            m == postings_view(postings@),
            wf_postings(m),
            total == offset_of(m, t as int),
        decreases i - t,
    {
        proof {
            lemma_enc_postings_at(m, t as int);
            lemma_enc_posting_len(m[t as int]);
            lemma_offset_bounds(m, t as int);
            lemma_offset_bounds(m, t + 1);
            lemma_enc_postings_prefix(m, t + 1);
            assert(offset_of(m, t + 1) <= enc_postings(m).len());
        }
        let wl = postings[t].0.len() as u64;
        let il = postings[t].1.len() as u64;
        total = total + 9 + wl + 8 * il;
        t = t + 1;
    }
    total
}


/// Characterizes the stride entries: entry `k` points at posting `k * JUMP_STRIDE`.
pub proof fn lemma_stride_jumps(ps: Seq<(Seq<u8>, Seq<u64>)>, n: int)
    requires
        0 <= n <= ps.len(),
    ensures
        n == 0 ==> stride_jumps(ps, n).len() == 0,
        n > 0 ==> stride_jumps(ps, n).len() >= 1,
        n > 0 ==> (JUMP_STRIDE as int) * (stride_jumps(ps, n).len() - 1) < n <= (
        JUMP_STRIDE as int) * stride_jumps(ps, n).len(),
        forall|k: int|
            0 <= k < stride_jumps(ps, n).len() ==> (JUMP_STRIDE as int) * k < n
                && #[trigger] stride_jumps(ps, n)[k] == (
            ps[(JUMP_STRIDE as int) * k].0,
            offset_of(ps, (JUMP_STRIDE as int) * k) as u64,
            ),
    decreases n,
{
    let s = JUMP_STRIDE as int;
    if n > 0 {
        lemma_stride_jumps(ps, n - 1);
        let prev = stride_jumps(ps, n - 1);
        if (n - 1) % s == 0 {
            if n - 1 > 0 {
                // n - 1 is a positive multiple of the stride, so the previous
                // table covers exactly n - 1 postings.
                assert(s * (prev.len() - 1) < n - 1 <= s * prev.len());
                assert(n - 1 == s * prev.len()) by (nonlinear_arith)
                    requires
                        s == 1000,
                        (n - 1) % s == 0,
                        s * (prev.len() - 1) < n - 1 <= s * prev.len(),
                ;
            } else {
                assert(prev.len() == 0);
            }
        } else {
            assert(n - 1 != s * prev.len()) by (nonlinear_arith)
                requires
                    s == 1000,
                    (n - 1) % s != 0,
                ;
        }
    }
}

/// Offsets strictly grow with the posting index.
pub proof fn lemma_offset_strict_mono(ps: Seq<(Seq<u8>, Seq<u64>)>, i: int, j: int)
    requires
        0 <= i < j <= ps.len(),
    ensures
        offset_of(ps, i) < offset_of(ps, j),
    decreases j - i,
{
    lemma_enc_postings_at(ps, i);
    lemma_enc_posting_len(ps[i]);
    if i + 1 < j {
        lemma_offset_strict_mono(ps, i + 1, j);
    }
}

/// Every posting occupies at least nine bytes.
pub proof fn lemma_enc_postings_len_lower(ps: Seq<(Seq<u8>, Seq<u64>)>)
    ensures
        enc_postings(ps).len() >= 9 * ps.len(),
    decreases ps.len(),
{
    if ps.len() > 0 {
        lemma_enc_postings_len_lower(ps.drop_last());
        lemma_enc_posting_len(ps.last());
    }
}

/// Front decomposition of the content encoding.
pub proof fn lemma_enc_postings_first(ps: Seq<(Seq<u8>, Seq<u64>)>)
    requires
        ps.len() > 0,
    ensures
        enc_postings(ps) == enc_posting(ps[0]) + enc_postings(ps.drop_first()),
    decreases ps.len(),
{
    if ps.len() == 1 {
        assert(ps.drop_last() =~= Seq::<(Seq<u8>, Seq<u64>)>::empty());
        assert(ps.drop_first() =~= Seq::<(Seq<u8>, Seq<u64>)>::empty());
        assert(enc_postings(ps) =~= enc_posting(ps[0]) + enc_postings(ps.drop_first()));
    } else {
        lemma_enc_postings_first(ps.drop_last());
        assert(ps.drop_last()[0] == ps[0]);
        assert(ps.drop_last().drop_first() =~= ps.drop_first().drop_last());
        assert(ps.drop_first().last() == ps.last());
        assert(enc_postings(ps) =~= enc_posting(ps[0]) + enc_postings(ps.drop_first()));
    }
}

/// Front decomposition of the id encoding.
pub proof fn lemma_enc_ids_first(ids: Seq<u64>)
    requires
        ids.len() > 0,
    ensures
        enc_ids(ids) == spec_u64_to_le_bytes(ids[0]) + enc_ids(ids.drop_first()),
    decreases ids.len(),
{
    if ids.len() == 1 {
        assert(ids.drop_last() =~= Seq::<u64>::empty());
        assert(ids.drop_first() =~= Seq::<u64>::empty());
        assert(enc_ids(ids) =~= spec_u64_to_le_bytes(ids[0]) + enc_ids(ids.drop_first()));
    } else {
        lemma_enc_ids_first(ids.drop_last());
        assert(ids.drop_last()[0] == ids[0]);
        assert(ids.drop_last().drop_first() =~= ids.drop_first().drop_last());
        assert(ids.drop_first().last() == ids.last());
        assert(enc_ids(ids) =~= spec_u64_to_le_bytes(ids[0]) + enc_ids(ids.drop_first()));
    }
}

/// Front decomposition of the jump-table encoding.
pub proof fn lemma_enc_jumps_first(jt: Seq<(Seq<u8>, u64)>)
    requires
        jt.len() > 0,
    ensures
        enc_jumps(jt) == seq![jt[0].0.len() as u8] + jt[0].0 + spec_u64_to_le_bytes(jt[0].1)
            + enc_jumps(jt.drop_first()),
    decreases jt.len(),
{
    if jt.len() == 1 {
        assert(jt.drop_last() =~= Seq::<(Seq<u8>, u64)>::empty());
        assert(jt.drop_first() =~= Seq::<(Seq<u8>, u64)>::empty());
        assert(enc_jumps(jt) =~= seq![jt[0].0.len() as u8] + jt[0].0 + spec_u64_to_le_bytes(
            jt[0].1,
        ) + enc_jumps(jt.drop_first()));
    } else {
        lemma_enc_jumps_first(jt.drop_last());
        assert(jt.drop_last()[0] == jt[0]);
        assert(jt.drop_last().drop_first() =~= jt.drop_first().drop_last());
        assert(jt.drop_first().last() == jt.last());
        assert(enc_jumps(jt) =~= seq![jt[0].0.len() as u8] + jt[0].0 + spec_u64_to_le_bytes(
            jt[0].1,
        ) + enc_jumps(jt.drop_first()));
    }
}

/// Two equally long id sets with the same encoding are equal.
proof fn lemma_enc_ids_injective(a: Seq<u64>, b: Seq<u64>)
    requires
        a.len() == b.len(),
        enc_ids(a) == enc_ids(b),
    ensures
        a == b,
    decreases a.len(),
{
    lemma_auto_spec_u64_to_from_le_bytes();
    if a.len() > 0 {
        lemma_enc_ids_first(a);
        lemma_enc_ids_first(b);
        lemma_enc_ids_len(a.drop_first());
        lemma_enc_ids_len(b.drop_first());
        assert(spec_u64_to_le_bytes(a[0]) =~= enc_ids(a).subrange(0, 8));
        assert(spec_u64_to_le_bytes(b[0]) =~= enc_ids(b).subrange(0, 8));
        assert(a[0] == b[0]);
        assert(enc_ids(a.drop_first()) =~= enc_ids(a).subrange(8, enc_ids(a).len() as int));
        assert(enc_ids(b.drop_first()) =~= enc_ids(b).subrange(8, enc_ids(b).len() as int));
        lemma_enc_ids_injective(a.drop_first(), b.drop_first());
        assert forall|i: int| 0 <= i < a.len() implies a[i] == b[i] by {
            if i > 0 {
                assert(a.drop_first()[i - 1] == b.drop_first()[i - 1]);
            }
        }
        assert(a =~= b);
    } else {
        assert(a =~= b);
    }
}

/// Word lengths and id counts are bounded, as the format requires.
pub open spec fn wf_sizes(ps: Seq<(Seq<u8>, Seq<u64>)>) -> bool {
    forall|i: int|
        0 <= i < ps.len() ==> (#[trigger] ps[i]).0.len() <= 255 && ps[i].1.len() <= u64::MAX
}

/// Two equally long posting lists with bounded sizes and the same
/// encoding are equal.
proof fn lemma_enc_postings_injective(a: Seq<(Seq<u8>, Seq<u64>)>, b: Seq<(Seq<u8>, Seq<u64>)>)
    requires
        a.len() == b.len(),
        wf_sizes(a),
        wf_sizes(b),
        enc_postings(a) == enc_postings(b),
    ensures
        a == b,
    decreases a.len(),
{
    lemma_auto_spec_u64_to_from_le_bytes();
    if a.len() > 0 {
        lemma_enc_postings_first(a);
        lemma_enc_postings_first(b);
        let pa = enc_posting(a[0]);
        let pb = enc_posting(b[0]);
        lemma_enc_posting_len(a[0]);
        lemma_enc_posting_len(b[0]);
        let ea = enc_postings(a);
        assert(pa[0] == a[0].0.len() as u8);
        assert(pb[0] == b[0].0.len() as u8);
        assert(ea[0] == pa[0] && ea[0] == pb[0]);
        let wl = a[0].0.len() as int;
        assert(a[0].0.len() == b[0].0.len());
        assert(a[0].0 =~= ea.subrange(1, 1 + wl));
        assert(b[0].0 =~= ea.subrange(1, 1 + wl));
        lemma_enc_ids_len(a[0].1);
        lemma_enc_ids_len(b[0].1);
        assert(spec_u64_to_le_bytes(a[0].1.len() as u64) =~= ea.subrange(1 + wl, 9 + wl));
        assert(spec_u64_to_le_bytes(b[0].1.len() as u64) =~= ea.subrange(1 + wl, 9 + wl));
        assert(a[0].1.len() == b[0].1.len());
        let il = a[0].1.len() as int;
        assert(enc_ids(a[0].1) =~= ea.subrange(9 + wl, 9 + wl + 8 * il));
        assert(enc_ids(b[0].1) =~= ea.subrange(9 + wl, 9 + wl + 8 * il));
        lemma_enc_ids_injective(a[0].1, b[0].1);
        assert(a[0] == b[0]);
        assert(enc_postings(a.drop_first()) =~= ea.subrange(9 + wl + 8 * il, ea.len() as int));
        assert(enc_postings(b.drop_first()) =~= ea.subrange(9 + wl + 8 * il, ea.len() as int));
        assert(forall|i: int|
            0 <= i < a.drop_first().len() ==> #[trigger] a.drop_first()[i] == a[i + 1]);
        assert(forall|i: int|
            0 <= i < b.drop_first().len() ==> #[trigger] b.drop_first()[i] == b[i + 1]);
        lemma_enc_postings_injective(a.drop_first(), b.drop_first());
        assert forall|i: int| 0 <= i < a.len() implies a[i] == b[i] by {
            if i > 0 {
                assert(a.drop_first()[i - 1] == b.drop_first()[i - 1]);
            }
        }
        assert(a =~= b);
    } else {
        assert(a =~= b);
    }
}

/// Two equally long jump tables with bounded word lengths and equally
/// prefixed encodings occupy the same number of bytes.
proof fn lemma_enc_jumps_same_len(
    a: Seq<(Seq<u8>, u64)>,
    b: Seq<(Seq<u8>, u64)>,
    ta: Seq<u8>,
    tb: Seq<u8>,
)
    requires
        a.len() == b.len(),
        forall|i: int| 0 <= i < a.len() ==> (#[trigger] a[i]).0.len() <= 255,
        forall|i: int| 0 <= i < b.len() ==> (#[trigger] b[i]).0.len() <= 255,
        enc_jumps(a) + ta == enc_jumps(b) + tb,
    ensures
        enc_jumps(a).len() == enc_jumps(b).len(),
        enc_jumps(a) == enc_jumps(b),
        ta == tb,
    decreases a.len(),
{
    let whole = enc_jumps(a) + ta;
    if a.len() == 0 {
        assert(enc_jumps(a) =~= enc_jumps(b));
        assert(ta =~= tb);
    } else {
        lemma_enc_jumps_first(a);
        lemma_enc_jumps_first(b);
        assert(whole[0] == a[0].0.len() as u8);
        assert(whole[0] == b[0].0.len() as u8);
        assert(a[0].0.len() == b[0].0.len());
        let e = 9 + a[0].0.len() as int;
        lemma_auto_spec_u64_to_from_le_bytes();
        assert(enc_jumps(a.drop_first()) + ta =~= whole.subrange(e, whole.len() as int));
        assert(enc_jumps(b.drop_first()) + tb =~= whole.subrange(e, whole.len() as int));
        assert(forall|i: int|
            0 <= i < a.drop_first().len() ==> #[trigger] a.drop_first()[i] == a[i + 1]);
        assert(forall|i: int|
            0 <= i < b.drop_first().len() ==> #[trigger] b.drop_first()[i] == b[i + 1]);
        lemma_enc_jumps_same_len(a.drop_first(), b.drop_first(), ta, tb);
        let wl = a[0].0.len() as int;
        assert(a[0].0 =~= whole.subrange(1, 1 + wl));
        assert(b[0].0 =~= whole.subrange(1, 1 + wl));
        assert(spec_u64_to_le_bytes(a[0].1) =~= whole.subrange(1 + wl, 9 + wl));
        assert(spec_u64_to_le_bytes(b[0].1) =~= whole.subrange(1 + wl, 9 + wl));
        assert(a[0].1 == b[0].1) by {
            lemma_auto_spec_u64_to_from_le_bytes();
        }
        assert(enc_jumps(a) =~= enc_jumps(b));
    }
}

/// The jump-table words of a well-formed posting list fit in a byte.
pub proof fn lemma_jump_words_bounded(ps: Seq<(Seq<u8>, Seq<u64>)>)
    requires
        wf_postings(ps),
    ensures
        forall|k: int|
            0 <= k < spec_jump_table(ps).len() ==> (#[trigger] spec_jump_table(
                ps,
            )[k]).0.len() <= 255,
{
    lemma_stride_jumps(ps, ps.len() as int);
    let jt = spec_jump_table(ps);
    assert forall|k: int| 0 <= k < jt.len() implies (#[trigger] jt[k]).0.len() <= 255 by {
        let sj = stride_jumps(ps, ps.len() as int);
        if k < sj.len() {
            assert(jt[k] == sj[k]);
        } else {
            assert(jt[k] == (ps.last().0, offset_of(ps, ps.len() - 1) as u64));
        }
    }
}


/// A well-formed posting list has bounded field sizes.
pub proof fn lemma_wf_sizes(ps: Seq<(Seq<u8>, Seq<u64>)>)
    requires
        wf_postings(ps),
    ensures
        wf_sizes(ps),
{
    assert forall|i: int| 0 <= i < ps.len() implies (#[trigger] ps[i]).0.len() <= 255
        && ps[i].1.len() <= u64::MAX by {
        lemma_enc_postings_at(ps, i);
        lemma_enc_posting_len(ps[i]);
        lemma_offset_bounds(ps, i);
        lemma_offset_bounds(ps, i + 1);
    }
}

/// A shard file determines its posting list: the encoding is injective
/// on well-formed posting lists.  This is the heart of the round-trip
/// guarantee for indexed shards.
pub proof fn lemma_shard_bytes_injective(a: Seq<(Seq<u8>, Seq<u64>)>, b: Seq<(Seq<u8>, Seq<u64>)>)
    requires
        wf_postings(a),
        wf_postings(b),
        shard_bytes(a) == shard_bytes(b),
    ensures
        a == b,
{
    lemma_auto_spec_u64_to_from_le_bytes();
    lemma_auto_spec_u32_to_from_le_bytes();
    lemma_enc_postings_len_lower(a);
    lemma_enc_postings_len_lower(b);
    let wa = shard_bytes(a);
    let wb = shard_bytes(b);
    let jta = spec_jump_table(a);
    let jtb = spec_jump_table(b);
    assert(spec_u64_to_le_bytes(a.len() as u64) =~= wa.subrange(0, 8));
    assert(spec_u64_to_le_bytes(b.len() as u64) =~= wa.subrange(0, 8));
    assert(a.len() == b.len());
    assert(spec_u64_to_le_bytes(jta.len() as u64) =~= wa.subrange(8, 16));
    assert(spec_u64_to_le_bytes(jtb.len() as u64) =~= wa.subrange(8, 16));
    lemma_stride_jumps(a, a.len() as int);
    lemma_stride_jumps(b, b.len() as int);
    assert(jta.len() <= a.len() + 1);
    assert(jta.len() == jtb.len());
    lemma_jump_words_bounded(a);
    lemma_jump_words_bounded(b);
    let resta = enc_jumps(jta) + enc_postings(a);
    let restb = enc_jumps(jtb) + enc_postings(b);
    assert(resta =~= wa.subrange(20, wa.len() as int));
    assert(restb =~= wb.subrange(20, wb.len() as int));
    lemma_enc_jumps_same_len(jta, jtb, enc_postings(a), enc_postings(b));
    lemma_wf_sizes(a);
    lemma_wf_sizes(b);
    lemma_enc_postings_injective(a, b);
}


/// The byte offset of entry `j` within the jump-table encoding.
pub open spec fn joffset_of(jt: Seq<(Seq<u8>, u64)>, j: int) -> int {
    enc_jumps(jt.take(j)).len() as int
}

pub proof fn lemma_enc_jumps_take_succ(jt: Seq<(Seq<u8>, u64)>, j: int)
    requires
        0 <= j < jt.len(),
    ensures
        enc_jumps(jt.take(j + 1)) == enc_jumps(jt.take(j)) + seq![jt[j].0.len() as u8] + jt[j].0
            + spec_u64_to_le_bytes(jt[j].1),
{
    assert(jt.take(j + 1).drop_last() =~= jt.take(j));
    assert(jt.take(j + 1).last() == jt[j]);
}

pub proof fn lemma_enc_jumps_prefix(jt: Seq<(Seq<u8>, u64)>, j: int)
    requires
        0 <= j <= jt.len(),
    ensures
        joffset_of(jt, j) <= enc_jumps(jt).len(),
        enc_jumps(jt).subrange(0, joffset_of(jt, j)) == enc_jumps(jt.take(j)),
    decreases jt.len() - j,
{
    if j == jt.len() {
        assert(jt.take(j) =~= jt);
    } else {
        lemma_enc_jumps_prefix(jt, j + 1);
        lemma_enc_jumps_take_succ(jt, j);
        assert(enc_jumps(jt).subrange(0, joffset_of(jt, j)) =~= enc_jumps(jt.take(j + 1)).subrange(
            0,
            joffset_of(jt, j),
        ));
        assert(enc_jumps(jt.take(j + 1)).subrange(0, joffset_of(jt, j)) =~= enc_jumps(jt.take(j)));
    }
}

pub proof fn lemma_enc_jumps_at(jt: Seq<(Seq<u8>, u64)>, j: int)
    requires
        0 <= j < jt.len(),
    ensures
        joffset_of(jt, j + 1) == joffset_of(jt, j) + 9 + jt[j].0.len(),
        joffset_of(jt, j + 1) <= enc_jumps(jt).len(),
        enc_jumps(jt).subrange(joffset_of(jt, j), joffset_of(jt, j + 1)) == seq![jt[j].0.len() as u8]
            + jt[j].0 + spec_u64_to_le_bytes(jt[j].1),
{
    lemma_enc_jumps_take_succ(jt, j);
    lemma_enc_jumps_prefix(jt, j + 1);
    lemma_auto_spec_u64_to_from_le_bytes();
    assert(enc_jumps(jt).subrange(joffset_of(jt, j), joffset_of(jt, j + 1)) =~= enc_jumps(
        jt.take(j + 1),
    ).subrange(joffset_of(jt, j), joffset_of(jt, j + 1)));
    assert(enc_jumps(jt.take(j + 1)).subrange(joffset_of(jt, j), joffset_of(jt, j + 1)) =~=
        seq![jt[j].0.len() as u8] + jt[j].0 + spec_u64_to_le_bytes(jt[j].1));
}

/// The posting index a jump-table entry points at.
pub open spec fn jump_index(m: Seq<(Seq<u8>, Seq<u64>)>, k: int) -> int {
    if k < spec_jump_table(m).len() - 1 {
        k * (JUMP_STRIDE as int)
    } else {
        m.len() - 1
    }
}

/// Every jump entry names the word and offset of the posting it points at.
pub proof fn lemma_jump_entries(m: Seq<(Seq<u8>, Seq<u64>)>)
    requires
        wf_postings(m),
    ensures
        spec_jump_table(m).len() >= 2,
        forall|k: int|
            0 <= k < spec_jump_table(m).len() ==> 0 <= jump_index(m, k) < m.len()
                && #[trigger] spec_jump_table(m)[k] == (
            m[jump_index(m, k)].0,
            offset_of(m, jump_index(m, k)) as u64,
            ),
{
    lemma_stride_jumps(m, m.len() as int);
    let jt = spec_jump_table(m);
    let sj = stride_jumps(m, m.len() as int);
    assert forall|k: int| 0 <= k < jt.len() implies 0 <= jump_index(m, k) < m.len()
        && #[trigger] jt[k] == (m[jump_index(m, k)].0, offset_of(m, jump_index(m, k)) as u64) by {
        if k < sj.len() {
            assert(jt[k] == sj[k]);
        } else {
            assert(jt[k] == (m.last().0, offset_of(m, m.len() - 1) as u64));
        }
    }
}

/// A loaded indexed shard: the raw bytes, the decoded header and jump
/// table, and (as a ghost) the posting list the bytes encode.
pub struct IndexedStore {
    pub file_path: String,
    pub tag: String,
    pub bytes: Vec<u8>,
    pub num_entries: u64,
    pub jump_table: Vec<(Vec<u8>, u64)>,
    pub content_offset: usize,
    pub postings: Ghost<Seq<(Seq<u8>, Seq<u64>)>>,
}

impl View for IndexedStore {
    type V = Seq<(Seq<u8>, Seq<u64>)>;

    open spec fn view(&self) -> Seq<(Seq<u8>, Seq<u64>)> {
        self.postings@
    }
}

/// Does `bytes` encode exactly the posting list `m`?
pub open spec fn shard_encodes(bytes: Seq<u8>, m: Seq<(Seq<u8>, Seq<u64>)>, num: u64) -> bool {
    wf_postings(m) && bytes == shard_bytes(m) && num == m.len()
}

impl IndexedStore {
    /// The shard file bytes this store was loaded from.
    pub open spec fn spec_bytes(&self) -> Seq<u8> {
        self.bytes@
    }

    /// The store is internally consistent: its bytes encode its posting
    /// list and the decoded header and jump table agree with them.
    pub open spec fn wf(&self) -> bool {
        &&& wf_postings(self@)
        &&& self.bytes@ == shard_bytes(self@)
        &&& self.num_entries == self@.len()
        &&& self.jump_table@.map_values(|e: (Vec<u8>, u64)| (e.0@, e.1)) == spec_jump_table(self@)
        &&& self.content_offset == spec_content_offset(self@)
    }

    /// The number of postings in this shard.
    pub fn num_entries(&self) -> (r: u64)
        requires
            self.wf(),
        ensures
            r == self@.len(),
    {
        self.num_entries
    }

    proof fn region(&self)
        requires
            self.wf(),
        ensures
            self.content_offset + enc_postings(self@).len() == self.bytes@.len(),
            self.bytes@.subrange(self.content_offset as int, self.bytes@.len() as int)
                == enc_postings(self@),
            self.content_offset == spec_content_offset(self@),
    {
        lemma_auto_spec_u64_to_from_le_bytes();
        lemma_auto_spec_u32_to_from_le_bytes();
        assert(self.bytes@.subrange(self.content_offset as int, self.bytes@.len() as int) =~=
            enc_postings(self@));
    }
}

/// Reads the posting at index `i`, whose encoding starts at `pos`.
#[verifier::loop_isolation(false)]
fn read_posting_at(
    bytes: &Vec<u8>,
    pos: usize,
    Ghost(m): Ghost<Seq<(Seq<u8>, Seq<u64>)>>,
    Ghost(cs): Ghost<int>,
    Ghost(i): Ghost<int>,
) -> (r: (Vec<u8>, Vec<u64>, usize))
    requires
        0 <= cs,
        cs + enc_postings(m).len() == bytes@.len(),
        bytes@.subrange(cs, bytes@.len() as int) == enc_postings(m),
        wf_sizes(m),
        0 <= i < m.len(),
        pos == cs + offset_of(m, i),
    ensures
        r.0@ == m[i].0,
        r.1@ == m[i].1,
        r.2 == cs + offset_of(m, i + 1),
{
    let total = bytes.len();
    let ghost p = m[i];
    let ghost pe = enc_posting(p);
    let ghost wl = p.0.len() as int;
    let ghost pb = bytes@.subrange(cs + offset_of(m, i), cs + offset_of(m, i + 1));
    proof {
        lemma_enc_postings_at(m, i);
        lemma_enc_posting_len(m[i]);
        lemma_offset_bounds(m, i);
        lemma_auto_spec_u64_to_from_le_bytes();
        assert(pb =~= enc_postings(m).subrange(offset_of(m, i), offset_of(m, i + 1)));
        assert(pb == pe);
        assert(pe.subrange(1, 1 + wl) =~= p.0);
        assert(pe.subrange(1 + wl, 9 + wl) =~= spec_u64_to_le_bytes(p.1.len() as u64));
        assert(pe.subrange(9 + wl, pe.len() as int) =~= enc_ids(p.1));
        lemma_enc_ids_len(p.1);
    }
    let s = bytes.as_slice();
    let wlen_byte = take_u8(s, pos);
    proof {
        assert(bytes@[pos as int] == pb[0]);
        assert(pe[0] == p.0.len() as u8);
    }
    let wlen = wlen_byte as usize;
    let word = take_bytes(s, pos + 1, wlen);
    proof {
        assert(word@ =~= pb.subrange(1, 1 + wl));
    }
    let set_len = take_u64(s, pos + 1 + wlen);
    proof {
        assert(bytes@.subrange(pos + 1 + wlen, pos + 9 + wlen) =~= pb.subrange(1 + wl, 9 + wl));
        assert(set_len == p.1.len());
    }
    let base = pos + 9 + wlen;
    let count = set_len as usize;
    let mut ids: Vec<u64> = Vec::new();
    let mut k: usize = 0;
    while k < count
        invariant
            0 <= k <= count,
            ids@ == p.1.take(k as int),
        decreases count - k,
    {
        proof {
            lemma_enc_ids_at(p.1, k as int);
            assert(bytes@.subrange(base + 8 * k, base + 8 * k + 8) =~= pb.subrange(
                9 + wl + 8 * k,
                9 + wl + 8 * k + 8,
            ));
            assert(pe.subrange(9 + wl + 8 * k, 9 + wl + 8 * k + 8) =~= pe.subrange(
                9 + wl,
                pe.len() as int,
            ).subrange(8 * (k as int), 8 * (k as int) + 8));
        }
        let id = take_u64(s, base + 8 * k);
        proof {
            assert(id == p.1[k as int]);
        }
        ids.push(id);
        proof {
            assert(ids@ =~= p.1.take(k + 1));
        }
        k = k + 1;
    }
    proof {
        assert(p.1.take(count as int) =~= p.1);
    }
    (word, ids, base + 8 * count)
}

/// Builds the jump table of a well-formed posting list.
fn build_jump_table(postings: &Vec<Posting>) -> (r: Vec<(Vec<u8>, u64)>)
    requires
        wf_postings(postings_view(postings@)),
    ensures
        r@.map_values(|e: (Vec<u8>, u64)| (e.0@, e.1)) == spec_jump_table(postings_view(postings@)),
{
    let ghost m = postings_view(postings@);
    let n = postings.len();
    let mut jumps: Vec<(Vec<u8>, u64)> = Vec::new();
    let mut until_stride: usize = 0;
    let mut off: u64 = 0;
    proof {
        assert(m.take(0) =~= Seq::<(Seq<u8>, Seq<u64>)>::empty());
    }
    let mut i: usize = 0;
    while i < n
        invariant
            0 <= i <= n,
            n == postings@.len(),
            m == postings_view(postings@),
            wf_postings(m),
            off == offset_of(m, i as int),
            jumps@.map_values(|e: (Vec<u8>, u64)| (e.0@, e.1)) == stride_jumps(m, i as int),
            i + until_stride == jumps@.len() * (JUMP_STRIDE as int),
            until_stride < JUMP_STRIDE as usize,
        decreases n - i,
    {
        proof {
            lemma_enc_postings_at(m, i as int);
            lemma_enc_posting_len(m[i as int]);
            lemma_offset_bounds(m, i as int);
            lemma_offset_bounds(m, i + 1);
        }
        if until_stride == 0 {
            proof {
                assert((i as int) % (JUMP_STRIDE as int) == 0) by (nonlinear_arith)
                    requires
                        i as int == jumps@.len() * (JUMP_STRIDE as int),
                        jumps@.len() >= 0,
                ;
            }
            jumps.push((postings[i].0.clone(), off));
            proof {
                assert(jumps@.map_values(|e: (Vec<u8>, u64)| (e.0@, e.1)) =~= stride_jumps(
                    m,
                    i + 1,
                ));
            }
            until_stride = JUMP_STRIDE as usize - 1;
        } else {
            proof {
                assert((i as int) % (JUMP_STRIDE as int) != 0) by (nonlinear_arith)
                    requires
                        i + until_stride == jumps@.len() * (JUMP_STRIDE as int),
                        0 < until_stride < (JUMP_STRIDE as int),
                        i >= 0,
                ;
                assert(jumps@.map_values(|e: (Vec<u8>, u64)| (e.0@, e.1)) =~= stride_jumps(
                    m,
                    i + 1,
                ));
            }
            until_stride = until_stride - 1;
        }
        let wl = postings[i].0.len() as u64;
        let il = postings[i].1.len() as u64;
        off = off + 9 + wl + 8 * il;
        i = i + 1;
    }
    proof {
        assert(m.take(n as int) =~= m);
        lemma_enc_postings_prefix(m, n - 1);
    }
    let last_word = postings[n - 1].0.clone();
    let last_off = offset_prefix_len(postings, n - 1, Ghost(m));
    jumps.push((last_word, last_off));
    proof {
        assert(jumps@.map_values(|e: (Vec<u8>, u64)| (e.0@, e.1)) =~= spec_jump_table(m));
    }
    jumps
}

impl IndexedStore {
    /// Loads and fully validates one indexed shard file.  `num_entries`
    /// is the posting count recorded for this shard in the catalog; a
    /// disagreement with the file is a malformed shard.
    pub fn load(file_path: String, tag: String, num_entries: u64, bytes: Vec<u8>) -> (r: Result<
        IndexedStore,
        crate::errors::StrError,
    >)
        ensures
            r matches Ok(s) ==> s.wf() && s.spec_bytes() == bytes@ && s@.len() == num_entries
                && s.tag@ == tag@ && s.file_path@ == file_path@,
            forall|m: Seq<(Seq<u8>, Seq<u64>)>|
                shard_encodes(bytes@, m, num_entries) ==> r is Ok,
    {
        let ghost gm = choose|m: Seq<(Seq<u8>, Seq<u64>)>| shard_encodes(bytes@, m, num_entries);
        Self::load_inner(file_path, tag, num_entries, bytes, Ghost(gm))
    }

    #[verifier::loop_isolation(false)]
    #[verifier::rlimit(80)]
    fn load_inner(
        file_path: String,
        tag: String,
        num_entries: u64,
        bytes: Vec<u8>,
        Ghost(gm): Ghost<Seq<(Seq<u8>, Seq<u64>)>>,
    ) -> (r: Result<IndexedStore, crate::errors::StrError>)
        ensures
            r matches Ok(s) ==> s.wf() && s.spec_bytes() == bytes@ && s@.len() == num_entries
                && s.tag@ == tag@ && s.file_path@ == file_path@,
            shard_encodes(bytes@, gm, num_entries) ==> r is Ok,
    {
        let ghost hyp = shard_encodes(bytes@, gm, num_entries);
        let ghost jt = spec_jump_table(gm);
        proof {
            lemma_auto_spec_u64_to_from_le_bytes();
            lemma_auto_spec_u32_to_from_le_bytes();
            if hyp {
                lemma_enc_postings_len_lower(gm);
                lemma_stride_jumps(gm, gm.len() as int);
                assert(spec_u64_to_le_bytes(gm.len() as u64) =~= bytes@.subrange(0, 8));
                assert(spec_u64_to_le_bytes(jt.len() as u64) =~= bytes@.subrange(8, 16));
                assert(spec_u32_to_le_bytes(JUMP_STRIDE as u32) =~= bytes@.subrange(16, 20));
            }
        }
        let total = bytes.len();
        if total < 20 {
            proof {
                if hyp {
                    assert(false);
                }
            }
            return Err(crate::errors::StrError::new("malformed indexed shard"));
        }
        let s = bytes.as_slice();
        let num = take_u64(s, 0);
        let jt_len = take_u64(s, 8);
        let stride = take_u32(s, 16);
        if num != num_entries || stride != JUMP_STRIDE as u32 {
            proof {
                if hyp {
                    assert(false);
                }
            }
            return Err(crate::errors::StrError::new("malformed indexed shard"));
        }
        let skipped = match skip_jump_region(&bytes, jt_len, Ghost(gm), Ghost(hyp)) {
            Ok(v) => v,
            Err(e) => {
                return Err(e);
            },
        };
        let content_offset = skipped.0;
        let ghost jt_acc = skipped.1@;
        let parsed = match parse_content(&bytes, content_offset, Ghost(gm), Ghost(hyp)) {
            Ok(v) => v,
            Err(e) => {
                return Err(e);
            },
        };
        if parsed.is_empty() {
            proof {
                if hyp {
                    assert(false);
                }
            }
            return Err(crate::errors::StrError::new("malformed indexed shard"));
        }
        let parsed_len = parsed.len() as u64;
        if parsed_len != num_entries {
            proof {
                if hyp {
                    assert(false);
                }
            }
            return Err(crate::errors::StrError::new("malformed indexed shard"));
        }
        let ghost pm = postings_view(parsed@);
        proof {
            assert(enc_postings(pm).len() <= total);
        }
        let reencoded = store_indexed_bytes(&parsed);
        let same = crate::order::bytes_eq(&reencoded, &bytes);
        if !same {
            proof {
                if hyp {
                    assert(pm == gm);
                    assert(reencoded@ == shard_bytes(gm));
                    assert(false);
                }
            }
            return Err(crate::errors::StrError::new("malformed indexed shard"));
        }
        // with bytes == shard_bytes(pm), the skipped region must be its jump table
        proof {
            lemma_jump_words_bounded(pm);
            lemma_stride_jumps(pm, pm.len() as int);
            assert(spec_u64_to_le_bytes(pm.len() as u64) =~= bytes@.subrange(0, 8));
            assert(spec_u64_to_le_bytes(spec_jump_table(pm).len() as u64) =~= bytes@.subrange(
                8,
                16,
            ));
            assert(jt_acc.len() == spec_jump_table(pm).len());
            assert(bytes@.subrange(20, 20 + enc_jumps(spec_jump_table(pm)).len() as int) =~=
                enc_jumps(spec_jump_table(pm)));
            assert(enc_jumps(jt_acc) + bytes@.subrange(content_offset as int, total as int) =~=
                enc_jumps(spec_jump_table(pm)) + enc_postings(pm));
            lemma_enc_jumps_same_len(
                jt_acc,
                spec_jump_table(pm),
                bytes@.subrange(content_offset as int, total as int),
                enc_postings(pm),
            );
        }
        let jump_table = build_jump_table(&parsed);
        Ok(IndexedStore {
            file_path,
            tag,
            bytes,
            num_entries,
            jump_table,
            content_offset,
            postings: Ghost(pm),
        })
    }
}

/// Walks over the jump-table region without interpreting it, returning
/// where the content region starts together with what the region spells.
#[verifier::loop_isolation(false)]
#[verifier::rlimit(80)]
fn skip_jump_region(
    bytes: &Vec<u8>,
    jt_len: u64,
    Ghost(gm): Ghost<Seq<(Seq<u8>, Seq<u64>)>>,
    Ghost(active): Ghost<bool>,
) -> (r: Result<(usize, Ghost<Seq<(Seq<u8>, u64)>>), crate::errors::StrError>)
    requires
        bytes@.len() >= 20,
        active ==> wf_postings(gm) && bytes@ == shard_bytes(gm) && jt_len == spec_jump_table(
            gm,
        ).len(),
    ensures
        r matches Ok(v) ==> {
            &&& 20 <= v.0 <= bytes@.len()
            &&& v.1@.len() == jt_len
            &&& (forall|t: int| 0 <= t < v.1@.len() ==> (#[trigger] v.1@[t]).0.len() <= 255)
            &&& enc_jumps(v.1@) == bytes@.subrange(20, v.0 as int)
        },
        active ==> (r matches Ok(v) && v.0 == spec_content_offset(gm) && v.1@ == spec_jump_table(
            gm,
        )),
{
    let ghost jt = spec_jump_table(gm);
    proof {
        lemma_auto_spec_u64_to_from_le_bytes();
        lemma_auto_spec_u32_to_from_le_bytes();
        if active {
            lemma_jump_words_bounded(gm);
            lemma_enc_jumps_prefix(jt, jt.len() as int);
            assert(jt.take(jt.len() as int) =~= jt);
            assert(spec_u64_to_le_bytes(gm.len() as u64).len() == 8);
            assert(spec_u64_to_le_bytes(jt.len() as u64).len() == 8);
            assert(spec_u32_to_le_bytes(JUMP_STRIDE as u32).len() == 4);
            assert(enc_header(gm.len() as u64, jt.len() as u64).len() == 20);
            assert(bytes@.len() == 20 + enc_jumps(jt).len() + enc_postings(gm).len());
            assert(bytes@.subrange(20, 20 + enc_jumps(jt).len() as int) =~= enc_jumps(jt));
            assert(jt.take(0) =~= Seq::<(Seq<u8>, u64)>::empty());
        }
    }
    let total = bytes.len();
    let s = bytes.as_slice();
    let mut pos: usize = 20;
    let mut j: u64 = 0;
    let ghost mut jt_acc: Seq<(Seq<u8>, u64)> = Seq::empty();
    proof {
        assert(enc_jumps(jt_acc) =~= bytes@.subrange(20, 20));
    }
    while j < jt_len
        invariant
            20 <= pos <= total,
            0 <= j <= jt_len,
            jt_acc.len() == j,
            forall|t: int| 0 <= t < jt_acc.len() ==> (#[trigger] jt_acc[t]).0.len() <= 255,
            enc_jumps(jt_acc) == bytes@.subrange(20, pos as int),
            active ==> jt_acc == jt.take(j as int) && pos == 20 + joffset_of(jt, j as int),
        decreases jt_len - j,
    {
        proof {
            if active {
                lemma_enc_jumps_at(jt, j as int);
                assert(bytes@.subrange(
                    20 + joffset_of(jt, j as int),
                    20 + joffset_of(jt, j + 1),
                ) =~= enc_jumps(jt).subrange(joffset_of(jt, j as int), joffset_of(jt, j + 1)));
            }
        }
        if pos >= total {
            proof {
                if active {
                    assert(bytes@.len() == 20 + enc_jumps(jt).len() + enc_postings(gm).len());
                    lemma_enc_jumps_at(jt, j as int);
                    assert(joffset_of(jt, j + 1) <= enc_jumps(jt).len());
                    assert(pos + 9 <= 20 + joffset_of(jt, j + 1));
                    assert(false);
                }
            }
            return Err(crate::errors::StrError::new("malformed indexed shard"));
        }
        let wlen = take_u8(s, pos) as usize;
        proof {
            if active {
                lemma_enc_jumps_at(jt, j as int);
                let ewl = jt[j as int].0.len() as int;
                let eb = bytes@.subrange(20 + joffset_of(jt, j as int), 20 + joffset_of(jt, j + 1));
                let ee = seq![jt[j as int].0.len() as u8] + jt[j as int].0 + spec_u64_to_le_bytes(
                    jt[j as int].1,
                );
                assert(eb == ee);
                assert(bytes@[pos as int] == eb[0]);
                assert(ee[0] == jt[j as int].0.len() as u8);
                assert(wlen == ewl);
                assert(bytes@.len() == 20 + enc_jumps(jt).len() + enc_postings(gm).len());
                assert(pos + 9 + wlen == 20 + joffset_of(jt, j + 1));
                assert(joffset_of(jt, j + 1) <= enc_jumps(jt).len());
            }
        }
        if total - pos < 9 + wlen {
            proof {
                if active {
                    assert(false);
                }
            }
            return Err(crate::errors::StrError::new("malformed indexed shard"));
        }
        let ghost word = bytes@.subrange(pos + 1, pos + 1 + wlen);
        let ghost joff = spec_u64_from_le_bytes(bytes@.subrange(pos + 1 + wlen, pos + 9 + wlen));
        proof {
            lemma_enc_jumps_push(jt_acc, (word, joff));
            assert(enc_jumps(jt_acc.push((word, joff))) =~= bytes@.subrange(20, pos + 9 + wlen));
            if active {
                let ewl = jt[j as int].0.len() as int;
                let eb = bytes@.subrange(20 + joffset_of(jt, j as int), 20 + joffset_of(jt, j + 1));
                let ee = seq![jt[j as int].0.len() as u8] + jt[j as int].0 + spec_u64_to_le_bytes(
                    jt[j as int].1,
                );
                assert(eb == ee);
                assert(bytes@[pos as int] == eb[0]);
                assert(ee[0] == jt[j as int].0.len() as u8);
                assert(wlen == ewl);
                assert(ee.subrange(1, 1 + ewl) =~= jt[j as int].0);
                assert(word =~= eb.subrange(1, 1 + ewl));
                assert(ee.subrange(1 + ewl, 9 + ewl) =~= spec_u64_to_le_bytes(jt[j as int].1));
                assert(bytes@.subrange(pos + 1 + wlen, pos + 9 + wlen) =~= eb.subrange(
                    1 + ewl,
                    9 + ewl,
                ));
                assert(joff == jt[j as int].1);
            }
            jt_acc = jt_acc.push((word, joff));
            if active {
                assert(jt_acc =~= jt.take(j + 1));
            }
        }
        pos = pos + 9 + wlen;
        j = j + 1;
    }
    proof {
        if active {
            assert(jt_acc =~= jt);
        }
    }
    Ok((pos, Ghost(jt_acc)))
}


/// The byte-level anatomy of posting `gi` inside a whole shard file.
proof fn lemma_posting_fields(gm: Seq<(Seq<u8>, Seq<u64>)>, bytes: Seq<u8>, gi: int)
    requires
        wf_postings(gm),
        bytes == shard_bytes(gm),
        0 <= gi < gm.len(),
    ensures
        ({
            let cs = spec_content_offset(gm);
            let po = cs + offset_of(gm, gi);
            let gwl = gm[gi].0.len() as int;
            &&& cs + enc_postings(gm).len() == bytes.len()
            &&& offset_of(gm, gi + 1) == offset_of(gm, gi) + 9 + gwl + 8 * gm[gi].1.len()
            &&& 0 <= offset_of(gm, gi) < offset_of(gm, gi + 1) <= enc_postings(gm).len()
            &&& gwl <= 255
            &&& gm[gi].1.len() <= u64::MAX
            &&& bytes[po] == gm[gi].0.len() as u8
            &&& bytes.subrange(po + 1, po + 1 + gwl) == gm[gi].0
            &&& bytes.subrange(po + 1 + gwl, po + 9 + gwl) == spec_u64_to_le_bytes(
                gm[gi].1.len() as u64,
            )
            &&& forall|tt: int|
                0 <= tt < gm[gi].1.len() ==> bytes.subrange(
                    po + 9 + gwl + 8 * tt,
                    po + 9 + gwl + 8 * tt + 8,
                ) == spec_u64_to_le_bytes(gm[gi].1[tt])
        }),
{
    let cs = spec_content_offset(gm);
    let po = cs + offset_of(gm, gi);
    let gwl = gm[gi].0.len() as int;
    lemma_auto_spec_u64_to_from_le_bytes();
    lemma_auto_spec_u32_to_from_le_bytes();
    lemma_enc_postings_at(gm, gi);
    lemma_enc_posting_len(gm[gi]);
    lemma_offset_bounds(gm, gi);
    lemma_wf_sizes(gm);
    lemma_enc_ids_len(gm[gi].1);
    let pe = enc_posting(gm[gi]);
    let pb = bytes.subrange(po, cs + offset_of(gm, gi + 1));
    assert(pb =~= enc_postings(gm).subrange(offset_of(gm, gi), offset_of(gm, gi + 1)));
    assert(pb == pe);
    assert(pe[0] == gm[gi].0.len() as u8);
    assert(bytes[po] == pb[0]);
    assert(pe.subrange(1, 1 + gwl) =~= gm[gi].0);
    assert(bytes.subrange(po + 1, po + 1 + gwl) =~= pb.subrange(1, 1 + gwl));
    assert(pe.subrange(1 + gwl, 9 + gwl) =~= spec_u64_to_le_bytes(gm[gi].1.len() as u64));
    assert(bytes.subrange(po + 1 + gwl, po + 9 + gwl) =~= pb.subrange(1 + gwl, 9 + gwl));
    assert(pe.subrange(9 + gwl, pe.len() as int) =~= enc_ids(gm[gi].1));
    assert forall|tt: int| 0 <= tt < gm[gi].1.len() implies bytes.subrange(
        po + 9 + gwl + 8 * tt,
        po + 9 + gwl + 8 * tt + 8,
    ) == spec_u64_to_le_bytes(gm[gi].1[tt]) by {
        lemma_enc_ids_at(gm[gi].1, tt);
        assert(bytes.subrange(po + 9 + gwl + 8 * tt, po + 9 + gwl + 8 * tt + 8) =~= pb.subrange(
            9 + gwl + 8 * tt,
            9 + gwl + 8 * tt + 8,
        ));
        assert(pe.subrange(9 + gwl + 8 * tt, 9 + gwl + 8 * tt + 8) =~= pe.subrange(
            9 + gwl,
            pe.len() as int,
        ).subrange(8 * tt, 8 * tt + 8));
    }
}

/// Decodes and validates the content region: every posting in order,
/// words strictly ascending, ids strictly ascending.
#[verifier::loop_isolation(false)]
#[verifier::rlimit(100)]
fn parse_content(
    bytes: &Vec<u8>,
    content_offset: usize,
    Ghost(gm): Ghost<Seq<(Seq<u8>, Seq<u64>)>>,
    Ghost(active): Ghost<bool>,
) -> (r: Result<Vec<Posting>, crate::errors::StrError>)
    requires
        20 <= content_offset <= bytes@.len(),
        active ==> wf_postings(gm) && bytes@ == shard_bytes(gm) && content_offset
            == spec_content_offset(gm),
    ensures
        r matches Ok(parsed) ==> {
            &&& forall|t: int| 0 <= t < parsed@.len() ==> (#[trigger] parsed@[t]).0@.len() <= 255
            &&& forall|t: int|
                0 <= t < parsed@.len() ==> strictly_sorted_u64((#[trigger] parsed@[t]).1@)
            &&& forall|t1: int, t2: int|
                0 <= t1 < t2 < parsed@.len() ==> lex_lt(parsed@[t1].0@, parsed@[t2].0@)
            &&& enc_postings(postings_view(parsed@)) == bytes@.subrange(
                content_offset as int,
                bytes@.len() as int,
            )
        },
        active ==> (r matches Ok(parsed) && postings_view(parsed@) == gm),
{
    proof {
        lemma_auto_spec_u64_to_from_le_bytes();
        lemma_auto_spec_u32_to_from_le_bytes();
        if active {
            lemma_wf_sizes(gm);
            assert(bytes@.subrange(
                spec_content_offset(gm),
                spec_content_offset(gm) + enc_postings(gm).len(),
            ) =~= enc_postings(gm));
            assert(gm.take(0) =~= Seq::<(Seq<u8>, Seq<u64>)>::empty());
        }
    }
    let total = bytes.len();
    let s = bytes.as_slice();
    let mut pos = content_offset;
    let mut parsed: Vec<Posting> = Vec::new();
    let ghost mut gi: int = 0;
    proof {
        assert(postings_view(parsed@) =~= Seq::<(Seq<u8>, Seq<u64>)>::empty());
        assert(enc_postings(postings_view(parsed@)) =~= bytes@.subrange(
            content_offset as int,
            content_offset as int,
        ));
    }
    while pos < total
        invariant
            20 <= content_offset <= pos <= total,
            postings_view(parsed@).len() == parsed@.len(),
            forall|t: int| 0 <= t < parsed@.len() ==> (#[trigger] parsed@[t]).0@.len() <= 255,
            forall|t: int|
                0 <= t < parsed@.len() ==> strictly_sorted_u64((#[trigger] parsed@[t]).1@),
            forall|t1: int, t2: int|
                0 <= t1 < t2 < parsed@.len() ==> lex_lt(parsed@[t1].0@, parsed@[t2].0@),
            enc_postings(postings_view(parsed@)) == bytes@.subrange(
                content_offset as int,
                pos as int,
            ),
            active ==> gi == parsed@.len() && 0 <= gi <= gm.len() && postings_view(parsed@)
                == gm.take(gi) && pos == spec_content_offset(gm) + offset_of(gm, gi),
        decreases total - pos,
    {
        let ghost pm0 = postings_view(parsed@);
        proof {
            if active {
                lemma_offset_bounds(gm, gi);
                if gi == gm.len() {
                    assert(gm.take(gi) =~= gm);
                    assert(offset_of(gm, gi) == enc_postings(gm).len());
                    assert(false);
                }
                lemma_posting_fields(gm, bytes@, gi);
            }
        }
        let wlen = take_u8(s, pos) as usize;
        if total - pos < 9 + wlen {
            proof {
                if active {
                    assert(false);
                }
            }
            return Err(crate::errors::StrError::new("malformed indexed shard"));
        }
        let word = take_bytes(s, pos + 1, wlen);
        let set_len = take_u64(s, pos + 1 + wlen);
        let after_header = pos + 9 + wlen;
        let remaining = total - after_header;
        proof {
            if active {
                assert(word@ == gm[gi].0);
                assert(set_len == gm[gi].1.len());
                assert(after_header + 8 * set_len <= total);
            }
        }
        if set_len > (remaining / 8) as u64 {
            proof {
                if active {
                    assert(8 * set_len <= remaining);
                    assert(set_len <= remaining as u64 / 8);
                    assert(false);
                }
            }
            return Err(crate::errors::StrError::new("malformed indexed shard"));
        }
        let count = set_len as usize;
        proof {
            assert(8 * (remaining as int / 8) <= remaining);
        }
        // read and check the id set
        let mut ids: Vec<u64> = Vec::new();
        let mut k: usize = 0;
        let ghost idsrc = Seq::new(
            count as nat,
            |tt: int|
                spec_u64_from_le_bytes(
                    bytes@.subrange(after_header + 8 * tt, after_header + 8 * tt + 8),
                ),
        );
        proof {
            if active {
                assert forall|tt: int| 0 <= tt < count implies idsrc[tt] == gm[gi].1[tt] by {
                    assert(bytes@.subrange(after_header + 8 * tt, after_header + 8 * tt + 8)
                        == spec_u64_to_le_bytes(gm[gi].1[tt]));
                }
                assert(idsrc =~= gm[gi].1);
            }
        }
        while k < count
            invariant
                0 <= k <= count,
                after_header + 8 * count <= total,
                ids@.len() == k,
                strictly_sorted_u64(ids@),
                ids@ == idsrc.take(k as int),
                enc_ids(ids@) == bytes@.subrange(after_header as int, after_header + 8 * k),
            decreases count - k,
        {
            let id = take_u64(s, after_header + 8 * k);
            proof {
                assert(id == idsrc[k as int]);
            }
            if k > 0 && ids[k - 1] >= id {
                proof {
                    if active {
                        assert(ids@[k - 1] == gm[gi].1[k - 1]);
                        assert(gm[gi].1[k - 1] < gm[gi].1[k as int]);
                        assert(false);
                    }
                }
                return Err(crate::errors::StrError::new("malformed indexed shard"));
            }
            proof {
                let pushed = ids@.push(id);
                assert forall|a: int, b: int| 0 <= a < b < pushed.len() implies pushed[a]
                    < pushed[b] by {
                    if b < k {
                        assert(ids@[a] < ids@[b]);
                    } else {
                        if a < k - 1 {
                            assert(ids@[a] < ids@[k - 1]);
                        }
                    }
                }
                assert(pushed =~= idsrc.take(k + 1));
                lemma_enc_ids_push(ids@, id);
                assert(spec_u64_to_le_bytes(id) =~= bytes@.subrange(
                    after_header + 8 * k,
                    after_header + 8 * k + 8,
                ));
                assert(enc_ids(pushed) =~= bytes@.subrange(
                    after_header as int,
                    after_header + 8 * (k + 1),
                ));
            }
            ids.push(id);
            k = k + 1;
        }
        proof {
            assert(ids@ =~= idsrc);
            if active {
                assert(ids@ =~= gm[gi].1);
            }
        }
        // check word order against the previous posting
        if parsed.len() > 0 {
            let prev_lt = crate::order::bytes_lt(&parsed[parsed.len() - 1].0, &word);
            if !prev_lt {
                proof {
                    if active {
                        assert(parsed@[gi - 1].0@ == gm[gi - 1].0);
                        assert(lex_lt(gm[gi - 1].0, gm[gi].0));
                        assert(false);
                    }
                }
                return Err(crate::errors::StrError::new("malformed indexed shard"));
            }
        }
        let ghost new_posting = (word@, ids@);
        proof {
            assert(enc_posting(new_posting) =~= bytes@.subrange(
                pos as int,
                after_header + 8 * count,
            ));
            assert(postings_view(parsed@.push((word, ids))) =~= pm0.push(new_posting));
            assert(pm0.push(new_posting).drop_last() =~= pm0);
            assert(enc_postings(pm0.push(new_posting)) =~= bytes@.subrange(
                content_offset as int,
                after_header + 8 * count,
            ));
            assert forall|t: int| 0 <= t < parsed@.len() implies lex_lt(
                parsed@[t].0@,
                word@,
            ) by {
                if t < parsed@.len() - 1 {
                    crate::order::lemma_lex_trans(
                        parsed@[t].0@,
                        parsed@[parsed@.len() - 1].0@,
                        word@,
                    );
                }
            }
            if active {
                assert(pm0.push(new_posting) =~= gm.take(gi + 1));
            }
        }
        parsed.push((word, ids));
        proof {
            if active {
                gi = gi + 1;
            }
        }
        pos = after_header + 8 * count;
    }
    proof {
        if active {
            lemma_offset_bounds(gm, gi);
            if gi < gm.len() {
                lemma_offset_strict_mono(gm, gi, gm.len() as int);
                assert(gm.take(gm.len() as int) =~= gm);
                assert(false);
            }
            assert(gm.take(gi) =~= gm);
        }
    }
    Ok(parsed)
}

/// The postings of `m` whose word is in `ws`, in shard order.
pub open spec fn word_filter(m: Seq<(Seq<u8>, Seq<u64>)>, ws: Seq<Seq<u8>>) -> Seq<
    (Seq<u8>, Seq<u64>),
> {
    m.filter(|p: (Seq<u8>, Seq<u64>)| ws.contains(p.0))
}

/// Filtering by word sets that agree on every word of `m` is the same.
proof fn lemma_word_filter_agree(m: Seq<(Seq<u8>, Seq<u64>)>, ws1: Seq<Seq<u8>>, ws2: Seq<Seq<u8>>)
    requires
        forall|t: int|
            0 <= t < m.len() ==> ws1.contains((#[trigger] m[t]).0) == ws2.contains(m[t].0),
    ensures
        word_filter(m, ws1) == word_filter(m, ws2),
    decreases m.len(),
{
    reveal(Seq::filter);
    if m.len() > 0 {
        assert(forall|t: int| 0 <= t < m.drop_last().len() ==> #[trigger] m.drop_last()[t] == m[t]);
        lemma_word_filter_agree(m.drop_last(), ws1, ws2);
        assert(m.last() == m[m.len() - 1]);
    }
}

/// Adding a word that no posting carries does not change the filter.
proof fn lemma_word_filter_absent(m: Seq<(Seq<u8>, Seq<u64>)>, ws: Seq<Seq<u8>>, w: Seq<u8>)
    requires
        forall|t: int| 0 <= t < m.len() ==> (#[trigger] m[t]).0 != w,
    ensures
        word_filter(m, ws.push(w)) == word_filter(m, ws),
{
    assert forall|t: int| 0 <= t < m.len() implies ws.push(w).contains((#[trigger] m[t]).0)
        == ws.contains(m[t].0) by {
        if ws.push(w).contains(m[t].0) {
            let j = choose|j: int| 0 <= j < ws.push(w).len() && ws.push(w)[j] == m[t].0;
            if j < ws.len() {
                assert(ws[j] == m[t].0);
            }
        }
        if ws.contains(m[t].0) {
            let j = choose|j: int| 0 <= j < ws.len() && ws[j] == m[t].0;
            assert(ws.push(w)[j] == m[t].0);
        }
    }
    lemma_word_filter_agree(m, ws.push(w), ws);
}

/// Adding the word of posting `f` appends that posting to the filter,
/// provided every already-included posting sits before `f` and no other
/// posting carries the word.
proof fn lemma_word_filter_found(
    m: Seq<(Seq<u8>, Seq<u64>)>,
    ws: Seq<Seq<u8>>,
    w: Seq<u8>,
    f: int,
)
    requires
        0 <= f < m.len(),
        m[f].0 == w,
        !ws.contains(w),
        forall|t: int| 0 <= t < m.len() && ws.contains((#[trigger] m[t]).0) ==> t < f,
        forall|t: int| 0 <= t < m.len() && t != f ==> (#[trigger] m[t]).0 != w,
    ensures
        word_filter(m, ws.push(w)) == word_filter(m, ws).push(m[f]),
    decreases m.len(),
{
    reveal(Seq::filter);
    let p2w = ws.push(w);
    if f == m.len() - 1 {
        assert(p2w.contains(w)) by {
            assert(p2w[ws.len() as int] == w);
        }
        assert(!ws.contains(m.last().0));
        assert forall|t: int| 0 <= t < m.drop_last().len() implies ws.contains(
            (#[trigger] m.drop_last()[t]).0,
        ) == p2w.contains(m.drop_last()[t].0) by {
            assert(m.drop_last()[t] == m[t]);
            if p2w.contains(m[t].0) {
                let j = choose|j: int| 0 <= j < p2w.len() && p2w[j] == m[t].0;
                if j < ws.len() {
                    assert(ws[j] == m[t].0);
                } else {
                    assert(m[t].0 == w);
                }
            }
            if ws.contains(m[t].0) {
                let j = choose|j: int| 0 <= j < ws.len() && ws[j] == m[t].0;
                assert(p2w[j] == m[t].0);
            }
        }
        lemma_word_filter_agree(m.drop_last(), ws, p2w);
        assert(word_filter(m, ws) == word_filter(m.drop_last(), ws));
    } else {
        assert(m.last().0 != w);
        assert(!ws.contains(m.last().0));
        assert(!p2w.contains(m.last().0)) by {
            if p2w.contains(m.last().0) {
                let j = choose|j: int| 0 <= j < p2w.len() && p2w[j] == m.last().0;
                if j < ws.len() {
                    assert(ws[j] == m.last().0);
                }
            }
        }
        assert(forall|t: int| 0 <= t < m.drop_last().len() ==> #[trigger] m.drop_last()[t] == m[t]);
        lemma_word_filter_found(m.drop_last(), ws, w, f);
    }
}

/// Filtering by all of a posting list's own words keeps every posting.
pub proof fn lemma_word_filter_all(m: Seq<(Seq<u8>, Seq<u64>)>)
    ensures
        word_filter(m, m.map_values(|p: (Seq<u8>, Seq<u64>)| p.0)) == m,
    decreases m.len(),
{
    reveal(Seq::filter);
    let ws = m.map_values(|p: (Seq<u8>, Seq<u64>)| p.0);
    if m.len() > 0 {
        let d = m.drop_last();
        let wsd = d.map_values(|p: (Seq<u8>, Seq<u64>)| p.0);
        assert(ws.contains(m.last().0)) by {
            assert(ws[m.len() - 1] == m.last().0);
        }
        assert(forall|t: int| 0 <= t < d.len() ==> #[trigger] d[t] == m[t]);
        assert forall|t: int| 0 <= t < d.len() implies ws.contains((#[trigger] d[t]).0)
            == wsd.contains(d[t].0) by {
            assert(ws[t] == d[t].0);
            assert(wsd[t] == d[t].0);
        }
        lemma_word_filter_agree(d, ws, wsd);
        lemma_word_filter_all(d);
    }
}

impl IndexedStore {
    /// Fetches the postings of the requested words, which must be given
    /// in strictly ascending order.  Words absent from the shard are
    /// silently skipped; present words come back in shard order with
    /// their full id sets.  The jump table bounds the scan: the cursor
    /// seeks to the latest jump entry not past the requested word.
    #[verifier::loop_isolation(false)]
    #[verifier::rlimit(60)]
    pub fn get_words(&self, words: &Vec<Vec<u8>>) -> (r: Vec<Posting>)
        requires
            self.wf(),
            strictly_sorted_words(words@.map_values(|w: Vec<u8>| w@)),
        ensures
            postings_view(r@) == word_filter(self@, words@.map_values(|w: Vec<u8>| w@)),
    {
        let ghost m = self@;
        let ghost qs = words@.map_values(|w: Vec<u8>| w@);
        let ghost jt = spec_jump_table(m);
        let ghost cs = self.content_offset as int;
        proof {
            self.region();
            lemma_jump_entries(m);
            lemma_wf_sizes(m);
            assert(qs.take(0) =~= Seq::<Seq<u8>>::empty());
            assert forall|t: int|
                0 <= t < m.len() implies !Seq::<Seq<u8>>::empty().contains(
                (#[trigger] m[t]).0,
            ) by {}
            lemma_word_filter_agree(m, qs.take(0), Seq::<Seq<u8>>::empty());
            reveal(Seq::filter);
            assert(word_filter(m, Seq::<Seq<u8>>::empty()).len() == 0) by {
                lemma_word_filter_empty(m);
            }
            assert(m.take(0) =~= Seq::<(Seq<u8>, Seq<u64>)>::empty());
        }
        let mut results: Vec<Posting> = Vec::new();
        let mut pos: usize = self.content_offset;
        let ghost mut i: int = 0;
        let mut jidx: usize = 0;
        let jt_count = self.jump_table.len();
        let total = self.bytes.len();
        let n_words = words.len();
        let mut wi: usize = 0;
        proof {
            assert(postings_view(results@) =~= word_filter(m, qs.take(0)));
        }
        while wi < n_words
            invariant
                0 <= wi <= n_words,
                0 <= i <= m.len(),
                pos == cs + offset_of(m, i),
                jidx < jt_count,
                postings_view(results@) == word_filter(m, qs.take(wi as int)),
                forall|t: int|
                    0 <= t < m.len() && qs.take(wi as int).contains((#[trigger] m[t]).0) ==> t < i,
                wi < n_words ==> forall|t: int| 0 <= t < i ==> lex_lt((#[trigger] m[t]).0, qs[wi as int]),
                wi < n_words && jidx > 0 ==> lex_le(jt[jidx as int].0, qs[wi as int]),
            decreases n_words - wi,
        {
            let w = &words[wi];
            proof {
                assert(w@ == qs[wi as int]);
            }
            while jidx + 1 < jt_count && !bytes_lt(w, &self.jump_table[jidx + 1].0)
                invariant
                    jidx < jt_count,
                    jidx > 0 ==> lex_le(jt[jidx as int].0, w@),
                decreases jt_count - jidx,
            {
                proof {
                    crate::order::lemma_lex_trichotomy(w@, self.jump_table@[jidx + 1].0@);
                }
                jidx = jidx + 1;
            }
            if jidx > 0 {
                let entry_off = self.jump_table[jidx].1;
                let cur_off = pos - self.content_offset;
                proof {
                    let e = jump_index(m, jidx as int);
                    lemma_offset_bounds(m, e);
                }
                if (entry_off as usize) > cur_off {
                    pos = self.content_offset + (entry_off as usize);
                    proof {
                        let e = jump_index(m, jidx as int);
                        if e < i {
                            lemma_offset_strict_mono(m, e, i);
                            assert(false);
                        } else if e == i {
                            assert(false);
                        }
                        assert forall|t: int| 0 <= t < e implies lex_lt(
                            (#[trigger] m[t]).0,
                            qs[wi as int],
                        ) by {
                            assert(lex_lt(m[t].0, m[e].0));
                            if lex_lt(m[e].0, qs[wi as int]) {
                                crate::order::lemma_lex_trans(m[t].0, m[e].0, qs[wi as int]);
                            }
                        }
                        i = e;
                    }
                }
            }
            // linear scan inside the current window
            let mut done = false;
            while !done
                invariant
                    0 <= i <= m.len(),
                    pos == cs + offset_of(m, i),
                    !done ==> postings_view(results@) == word_filter(m, qs.take(wi as int)),
                    !done ==> forall|t: int|
                        0 <= t < m.len() && qs.take(wi as int).contains((#[trigger] m[t]).0)
                            ==> t < i,
                    !done ==> forall|t: int|
                        0 <= t < i ==> lex_lt((#[trigger] m[t]).0, w@),
                    done ==> postings_view(results@) == word_filter(m, qs.take(wi + 1)),
                    done ==> forall|t: int|
                        0 <= t < m.len() && qs.take(wi + 1).contains((#[trigger] m[t]).0) ==> t
                            < i,
                    done ==> forall|t: int| 0 <= t < i ==> lex_le((#[trigger] m[t]).0, w@),
                decreases m.len() - i + (if done {
                    0int
                } else {
                    1int
                }),
            {
                proof {
                    assert(qs.take(wi + 1) =~= qs.take(wi as int).push(qs[wi as int]));
                    assert(!qs.take(wi as int).contains(w@)) by {
                        if qs.take(wi as int).contains(w@) {
                            let j = choose|j: int|
                                0 <= j < wi && qs.take(wi as int)[j] == w@;
                            assert(lex_lt(qs[j], qs[wi as int]));
                            crate::order::lemma_lex_trichotomy(qs[j], qs[wi as int]);
                        }
                    }
                }
                if pos >= total {
                    proof {
                        lemma_offset_bounds(m, i);
                        if i < m.len() {
                            lemma_offset_strict_mono(m, i, m.len() as int);
                            assert(m.take(m.len() as int) =~= m);
                            assert(false);
                        }
                        assert forall|t: int| 0 <= t < m.len() implies (#[trigger] m[t]).0
                            != w@ by {
                            crate::order::lemma_lex_trichotomy(m[t].0, w@);
                        }
                        lemma_word_filter_absent(m, qs.take(wi as int), w@);
                    }
                    done = true;
                } else {
                    proof {
                        lemma_offset_bounds(m, i);
                        if i == m.len() {
                            assert(m.take(m.len() as int) =~= m);
                            assert(false);
                        }
                    }
                    let scanned = read_posting_at(&self.bytes, pos, Ghost(m), Ghost(cs), Ghost(i));
                    let pword = scanned.0;
                    let pids = scanned.1;
                    let npos = scanned.2;
                    if bytes_lt(&pword, w) {
                        pos = npos;
                        proof {
                            i = i + 1;
                        }
                    } else {
                        if bytes_eq(&pword, w) {
                            proof {
                                assert forall|t: int|
                                    0 <= t < m.len() && t != i implies (#[trigger] m[t]).0
                                    != w@ by {
                                    if t < i {
                                        crate::order::lemma_lex_trichotomy(m[t].0, w@);
                                    } else {
                                        assert(lex_lt(m[i as int].0, m[t].0));
                                        crate::order::lemma_lex_trichotomy(w@, m[t].0);
                                    }
                                }
                                lemma_word_filter_found(m, qs.take(wi as int), w@, i);
                            }
                            results.push((pword, pids));
                            pos = npos;
                            proof {
                                assert(postings_view(results@) =~= word_filter(
                                    m,
                                    qs.take(wi as int),
                                ).push(m[i as int]));
                                i = i + 1;
                                assert forall|t: int|
                                    0 <= t < m.len() && qs.take(wi + 1).contains(
                                        (#[trigger] m[t]).0,
                                    ) implies t < i by {
                                    if qs.take(wi as int).contains(m[t].0) {
                                    } else {
                                        assert(m[t].0 == w@);
                                    }
                                }
                            }
                            done = true;
                        } else {
                            proof {
                                crate::order::lemma_lex_trichotomy(pword@, w@);
                                assert(lex_lt(w@, m[i as int].0));
                                assert forall|t: int|
                                    0 <= t < m.len() implies (#[trigger] m[t]).0 != w@ by {
                                    if t < i {
                                        crate::order::lemma_lex_trichotomy(m[t].0, w@);
                                    } else {
                                        if t > i {
                                            assert(lex_lt(m[i as int].0, m[t].0));
                                            crate::order::lemma_lex_trans(
                                                w@,
                                                m[i as int].0,
                                                m[t].0,
                                            );
                                        }
                                        crate::order::lemma_lex_trichotomy(w@, m[t].0);
                                    }
                                }
                                lemma_word_filter_absent(m, qs.take(wi as int), w@);
                            }
                            done = true;
                        }
                    }
                }
            }
            proof {
                if wi + 1 < n_words {
                    assert(lex_lt(qs[wi as int], qs[wi + 1]));
                    assert forall|t: int| 0 <= t < i implies lex_lt(
                        (#[trigger] m[t]).0,
                        qs[wi + 1],
                    ) by {
                        if m[t].0 == qs[wi as int] {
                        } else {
                            crate::order::lemma_lex_trans(m[t].0, qs[wi as int], qs[wi + 1]);
                        }
                    }
                    if jidx > 0 {
                        if jt[jidx as int].0 == qs[wi as int] {
                        } else {
                            crate::order::lemma_lex_trans(
                                jt[jidx as int].0,
                                qs[wi as int],
                                qs[wi + 1],
                            );
                        }
                    }
                }
            }
            wi = wi + 1;
        }
        proof {
            assert(qs.take(n_words as int) =~= qs);
        }
        results
    }
}

/// Filtering by no words keeps nothing.
proof fn lemma_word_filter_empty(m: Seq<(Seq<u8>, Seq<u64>)>)
    ensures
        word_filter(m, Seq::<Seq<u8>>::empty()) == Seq::<(Seq<u8>, Seq<u64>)>::empty(),
    decreases m.len(),
{
    reveal(Seq::filter);
    if m.len() > 0 {
        lemma_word_filter_empty(m.drop_last());
    }
}


impl IndexedStore {
    /// Returns every posting of the shard, in order.
    #[verifier::loop_isolation(false)]
    pub fn get_all_words(&self) -> (r: Vec<Posting>)
        requires
            self.wf(),
        ensures
            postings_view(r@) == self@,
    {
        let ghost m = self@;
        let ghost cs = self.content_offset as int;
        proof {
            self.region();
            lemma_wf_sizes(m);
            assert(m.take(0) =~= Seq::<(Seq<u8>, Seq<u64>)>::empty());
            assert(postings_view(Seq::<Posting>::empty()) =~= Seq::<(Seq<u8>, Seq<u64>)>::empty());
        }
        let total = self.bytes.len();
        let mut out: Vec<Posting> = Vec::new();
        let mut pos: usize = self.content_offset;
        let ghost mut i: int = 0;
        while pos < total
            invariant
                0 <= i <= m.len(),
                pos == cs + offset_of(m, i),
                postings_view(out@) == m.take(i),
            decreases total - pos,
        {
            proof {
                lemma_offset_bounds(m, i);
                if i == m.len() {
                    assert(m.take(m.len() as int) =~= m);
                    assert(false);
                }
            }
            let scanned = read_posting_at(&self.bytes, pos, Ghost(m), Ghost(cs), Ghost(i));
            out.push((scanned.0, scanned.1));
            pos = scanned.2;
            proof {
                lemma_enc_postings_at(m, i);
                lemma_enc_posting_len(m[i]);
                assert(postings_view(out@) =~= m.take(i + 1));
                i = i + 1;
            }
        }
        proof {
            lemma_offset_bounds(m, i);
            if i < m.len() {
                lemma_offset_strict_mono(m, i, m.len() as int);
                assert(m.take(m.len() as int) =~= m);
                assert(false);
            }
            assert(m.take(i) =~= m);
        }
        out
    }

    /// Returns up to `len` postings starting at word index `start`,
    /// seeking into the nearest preceding jump window and walking from
    /// there.  Requests past the end return what remains.
    #[verifier::loop_isolation(false)]
    #[verifier::rlimit(60)]
    pub fn get_subset_of_words(&self, start: u64, len: usize) -> (r: Vec<Posting>)
        requires
            self.wf(),
        ensures
            postings_view(r@) == self@.subrange(
                vstd::math::min(start as int, self@.len() as int),
                vstd::math::min(start as int + len as int, self@.len() as int),
            ),
    {
        let ghost m = self@;
        let ghost cs = self.content_offset as int;
        let ghost jt = spec_jump_table(m);
        let ghost lo = vstd::math::min(start as int, m.len() as int);
        let ghost hi = vstd::math::min(start as int + len as int, m.len() as int);
        proof {
            self.region();
            lemma_wf_sizes(m);
            lemma_jump_entries(m);
            lemma_stride_jumps(m, m.len() as int);
        }
        let total = self.bytes.len();
        let sc = self.jump_table.len() - 1;
        let k0_u64 = start / JUMP_STRIDE;
        let k0: usize = if k0_u64 >= sc as u64 {
            sc - 1
        } else {
            k0_u64 as usize
        };
        proof {
            assert((start / JUMP_STRIDE) * JUMP_STRIDE <= start) by (nonlinear_arith);
            assert(k0 < jt.len() - 1);
            assert(jump_index(m, k0 as int) == (k0 as int) * (JUMP_STRIDE as int));
            assert((k0 as int) * (JUMP_STRIDE as int) <= start) by (nonlinear_arith)
                requires
                    k0 as int <= start as int / (JUMP_STRIDE as int),
                    (start as int / (JUMP_STRIDE as int)) * (JUMP_STRIDE as int) <= start as int,
                    JUMP_STRIDE as int == 1000,
                    k0 >= 0,
            ;
            lemma_offset_bounds(m, jump_index(m, k0 as int));
        }
        let entry_off = self.jump_table[k0].1;
        proof {
            assert(jt[k0 as int] == (self.jump_table@[k0 as int].0@, self.jump_table@[k0 as int].1));
            assert(entry_off == offset_of(m, jump_index(m, k0 as int)));
        }
        let mut pos: usize = self.content_offset + (entry_off as usize);
        let ghost mut i: int = jump_index(m, k0 as int);
        let mut cur: u64 = k0 as u64 * JUMP_STRIDE;
        // skip forward to the requested start index
        while cur < start && pos < total
            invariant
                0 <= i <= m.len(),
                i == cur,
                cur <= start,
                pos == cs + offset_of(m, i),
            decreases start - cur,
        {
            proof {
                lemma_offset_bounds(m, i);
                if i == m.len() {
                    assert(m.take(m.len() as int) =~= m);
                    assert(false);
                }
            }
            let scanned = read_posting_at(&self.bytes, pos, Ghost(m), Ghost(cs), Ghost(i));
            pos = scanned.2;
            cur = cur + 1;
            proof {
                i = i + 1;
            }
        }
        proof {
            lemma_offset_bounds(m, i);
            if pos >= total && i < m.len() {
                lemma_offset_strict_mono(m, i, m.len() as int);
                assert(m.take(m.len() as int) =~= m);
                assert(false);
            }
            assert(i == lo);
            assert(m.subrange(lo, lo) =~= Seq::<(Seq<u8>, Seq<u64>)>::empty());
            assert(postings_view(Seq::<Posting>::empty()) =~= Seq::<(Seq<u8>, Seq<u64>)>::empty());
        }
        // collect up to `len` postings
        let mut out: Vec<Posting> = Vec::new();
        while out.len() < len && pos < total
            invariant
                lo <= i <= m.len(),
                pos == cs + offset_of(m, i),
                out@.len() == i - lo,
                i - lo <= len,
                postings_view(out@) == m.subrange(lo, i),
            decreases len - out@.len(),
        {
            proof {
                lemma_offset_bounds(m, i);
                if i == m.len() {
                    assert(m.take(m.len() as int) =~= m);
                    assert(false);
                }
            }
            let scanned = read_posting_at(&self.bytes, pos, Ghost(m), Ghost(cs), Ghost(i));
            out.push((scanned.0, scanned.1));
            pos = scanned.2;
            proof {
                assert(postings_view(out@) =~= m.subrange(lo, i + 1));
                i = i + 1;
            }
        }
        proof {
            lemma_offset_bounds(m, i);
            if pos >= total && i < m.len() {
                lemma_offset_strict_mono(m, i, m.len() as int);
                assert(m.take(m.len() as int) =~= m);
                assert(false);
            }
            assert(i == hi);
        }
        out
    }
}

/// Round trip for indexed shards: a shard file written from a
/// well-formed posting list loads back to exactly that posting list,
/// and fetching every word returns each posting verbatim.
pub proof fn lemma_indexed_round_trip(ps: Seq<(Seq<u8>, Seq<u64>)>, s: IndexedStore)
    requires
        wf_postings(ps),
        s.wf(),
        s.spec_bytes() == shard_bytes(ps),
    ensures
        s@ == ps,
        word_filter(s@, ps.map_values(|p: (Seq<u8>, Seq<u64>)| p.0)) == ps,
{
    lemma_shard_bytes_injective(s@, ps);
    lemma_word_filter_all(ps);
}

/// Jump-table correctness: for every entry `(w, off)` of a written
/// shard's jump table, the bytes at `content_start + off` spell a
/// posting header whose word is exactly `w`.
pub proof fn lemma_jump_table_correct(ps: Seq<(Seq<u8>, Seq<u64>)>, k: int)
    requires
        wf_postings(ps),
        0 <= k < spec_jump_table(ps).len(),
    ensures
        ({
            let b = shard_bytes(ps);
            let cs = spec_content_offset(ps);
            let w = spec_jump_table(ps)[k].0;
            let off = spec_jump_table(ps)[k].1 as int;
            &&& cs + off + 1 + w.len() <= b.len()
            &&& b[cs + off] == w.len() as u8
            &&& b.subrange(cs + off + 1, cs + off + 1 + w.len() as int) == w
        }),
{
    let b = shard_bytes(ps);
    let cs = spec_content_offset(ps);
    let w = spec_jump_table(ps)[k].0;
    let off = spec_jump_table(ps)[k].1 as int;
    lemma_jump_entries(ps);
    let e = jump_index(ps, k);
    lemma_enc_postings_at(ps, e);
    lemma_enc_posting_len(ps[e]);
    lemma_offset_bounds(ps, e);
    lemma_auto_spec_u64_to_from_le_bytes();
    lemma_auto_spec_u32_to_from_le_bytes();
    assert(off == offset_of(ps, e));
    assert(b.subrange(cs + off, cs + offset_of(ps, e + 1)) =~= enc_postings(ps).subrange(
        offset_of(ps, e),
        offset_of(ps, e + 1),
    ));
    let pe = enc_posting(ps[e]);
    assert(pe[0] == w.len() as u8);
    assert(b[cs + off] == pe[0]);
    assert(b.subrange(cs + off + 1, cs + off + 1 + w.len() as int) =~= pe.subrange(
        1,
        1 + w.len() as int,
    ));
    assert(pe.subrange(1, 1 + w.len() as int) =~= w);
}

} // verus!
