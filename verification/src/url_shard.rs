//! The URL-shard format: a dense range of document ids mapped to URL
//! strings, preceded by a header and a jump table of byte offsets.
//!
//! Layout, all integers little-endian:
//!
//! ```text
//! u64  jump_table_len
//! u32  jump_stride               (= 1000)
//! u64 x jump_table_len           offsets into the content region
//! repeat num_entries times:
//!     u16  url_byte_len, u64 document_id, url bytes
//! ```
//!
//! Entry `i` carries id `first_index + i`; a jump-table offset is
//! emitted for every `JUMP_STRIDE`-th entry after the first.
use crate::codec::{push_all, push_u16, push_u32, push_u64, take_bytes, take_u16, take_u32,
    take_u64};
use crate::index_shard::JUMP_STRIDE;
use vstd::bytes::*;
use vstd::prelude::*;

verus! {

/// The encoding of one entry.
pub open spec fn enc_url_entry(id: u64, url: Seq<u8>) -> Seq<u8> {
    spec_u16_to_le_bytes(url.len() as u16) + spec_u64_to_le_bytes(id) + url
}

/// The content region: entry `i` carries id `first + i`.
pub open spec fn enc_url_entries(first: u64, urls: Seq<Seq<u8>>) -> Seq<u8>
    decreases urls.len(),
{
    if urls.len() == 0 {
        Seq::empty()
    } else {
        enc_url_entries(first, urls.drop_last()) + enc_url_entry(
            (first + urls.len() - 1) as u64,
            urls.last(),
        )
    }
}

/// The byte offset of entry `i` within the content region.
pub open spec fn url_offset_of(first: u64, urls: Seq<Seq<u8>>, i: int) -> int {
    enc_url_entries(first, urls.take(i)).len() as int
}

/// The jump table: the offset of every `JUMP_STRIDE`-th entry, the
/// first excluded.
pub open spec fn url_stride_jumps(first: u64, urls: Seq<Seq<u8>>, n: int) -> Seq<u64>
    decreases n,
{
    if n <= 0 {
        Seq::empty()
    } else if (n - 1) % (JUMP_STRIDE as int) == 0 && n - 1 != 0 {
        url_stride_jumps(first, urls, n - 1).push(url_offset_of(first, urls, n - 1) as u64)
    } else {
        url_stride_jumps(first, urls, n - 1)
    }
}

pub open spec fn spec_url_jump_table(first: u64, urls: Seq<Seq<u8>>) -> Seq<u64> {
    url_stride_jumps(first, urls, urls.len() as int)
}

/// The full shard file.
pub open spec fn url_shard_bytes(first: u64, urls: Seq<Seq<u8>>) -> Seq<u8> {
    spec_u64_to_le_bytes(spec_url_jump_table(first, urls).len() as u64) + spec_u32_to_le_bytes(
        JUMP_STRIDE as u32,
    ) + crate::index_shard::enc_ids(spec_url_jump_table(first, urls)) + enc_url_entries(first, urls)
}

/// The byte offset at which the content region starts.
pub open spec fn spec_url_content_offset(first: u64, urls: Seq<Seq<u8>>) -> int {
    12 + 8 * spec_url_jump_table(first, urls).len() as int
}

/// A URL list fit to be written: nonempty, URLs within the length
/// field, valid UTF-8, ids within `u64`, offsets within `u64`.
pub open spec fn wf_urls(first: u64, urls: Seq<Seq<u8>>) -> bool {
    &&& urls.len() > 0
    &&& first + urls.len() <= u64::MAX
    &&& forall|i: int| 0 <= i < urls.len() ==> (#[trigger] urls[i]).len() <= 65535
    &&& forall|i: int| 0 <= i < urls.len() ==> vstd::utf8::valid_utf8(#[trigger] urls[i])
    &&& enc_url_entries(first, urls).len() <= u64::MAX
}

pub proof fn lemma_enc_url_entry_len(id: u64, url: Seq<u8>)
    ensures
        enc_url_entry(id, url).len() == 10 + url.len(),
{
    lemma_auto_spec_u16_to_from_le_bytes();
    lemma_auto_spec_u64_to_from_le_bytes();
}

/// Taking one more entry extends the content encoding on the right.
pub proof fn lemma_enc_url_entries_take_succ(first: u64, urls: Seq<Seq<u8>>, i: int)
    requires
        0 <= i < urls.len(),
    ensures
        enc_url_entries(first, urls.take(i + 1)) == enc_url_entries(first, urls.take(i))
            + enc_url_entry((first + i) as u64, urls[i]),
{
    assert(urls.take(i + 1).drop_last() =~= urls.take(i));
    assert(urls.take(i + 1).last() == urls[i]);
}

/// The prefix encoding is a prefix of the whole encoding.
pub proof fn lemma_enc_url_entries_prefix(first: u64, urls: Seq<Seq<u8>>, i: int)
    requires
        0 <= i <= urls.len(),
    ensures
        url_offset_of(first, urls, i) <= enc_url_entries(first, urls).len(),
        enc_url_entries(first, urls).subrange(0, url_offset_of(first, urls, i))
            == enc_url_entries(first, urls.take(i)),
    decreases urls.len() - i,
{
    if i == urls.len() {
        assert(urls.take(i) =~= urls);
    } else {
        lemma_enc_url_entries_prefix(first, urls, i + 1);
        lemma_enc_url_entries_take_succ(first, urls, i);
        assert(enc_url_entries(first, urls).subrange(0, url_offset_of(first, urls, i)) =~=
            enc_url_entries(first, urls.take(i + 1)).subrange(0, url_offset_of(first, urls, i)));
        assert(enc_url_entries(first, urls.take(i + 1)).subrange(
            0,
            url_offset_of(first, urls, i),
        ) =~= enc_url_entries(first, urls.take(i)));
    }
}

/// The bytes of entry `i` inside the content region.
pub proof fn lemma_enc_url_entries_at(first: u64, urls: Seq<Seq<u8>>, i: int)
    requires
        0 <= i < urls.len(),
    ensures
        url_offset_of(first, urls, i + 1) == url_offset_of(first, urls, i) + 10 + urls[i].len(),
        url_offset_of(first, urls, i + 1) <= enc_url_entries(first, urls).len(),
        enc_url_entries(first, urls).subrange(
            url_offset_of(first, urls, i),
            url_offset_of(first, urls, i + 1),
        ) == enc_url_entry((first + i) as u64, urls[i]),
{
    lemma_enc_url_entries_take_succ(first, urls, i);
    lemma_enc_url_entries_prefix(first, urls, i + 1);
    lemma_enc_url_entry_len((first + i) as u64, urls[i]);
    assert(enc_url_entries(first, urls).subrange(
        url_offset_of(first, urls, i),
        url_offset_of(first, urls, i + 1),
    ) =~= enc_url_entries(first, urls.take(i + 1)).subrange(
        url_offset_of(first, urls, i),
        url_offset_of(first, urls, i + 1),
    ));
    assert(enc_url_entries(first, urls.take(i + 1)).subrange(
        url_offset_of(first, urls, i),
        url_offset_of(first, urls, i + 1),
    ) =~= enc_url_entry((first + i) as u64, urls[i]));
}

pub proof fn lemma_url_offset_bounds(first: u64, urls: Seq<Seq<u8>>, i: int)
    requires
        0 <= i <= urls.len(),
    ensures
        0 <= url_offset_of(first, urls, i) <= enc_url_entries(first, urls).len(),
        url_offset_of(first, urls, 0) == 0,
{
    lemma_enc_url_entries_prefix(first, urls, i);
    assert(urls.take(0) =~= Seq::<Seq<u8>>::empty());
}

pub proof fn lemma_url_offset_strict_mono(first: u64, urls: Seq<Seq<u8>>, i: int, j: int)
    requires
        0 <= i < j <= urls.len(),
    ensures
        url_offset_of(first, urls, i) < url_offset_of(first, urls, j),
    decreases j - i,
{
    lemma_enc_url_entries_at(first, urls, i);
    if i + 1 < j {
        lemma_url_offset_strict_mono(first, urls, i + 1, j);
    }
}

/// Every entry occupies at least ten bytes.
pub proof fn lemma_enc_url_entries_len_lower(first: u64, urls: Seq<Seq<u8>>)
    ensures
        enc_url_entries(first, urls).len() >= 10 * urls.len(),
    decreases urls.len(),
{
    if urls.len() > 0 {
        lemma_enc_url_entries_len_lower(first, urls.drop_last());
        lemma_enc_url_entry_len((first + urls.len() - 1) as u64, urls.last());
    }
}

/// Characterizes the jump table: entry `k` is the offset of shard entry
/// `(k + 1) * JUMP_STRIDE`.
pub proof fn lemma_url_stride_jumps(first: u64, urls: Seq<Seq<u8>>, n: int)
    requires
        0 <= n <= urls.len(),
    ensures
        (JUMP_STRIDE as int) * (url_stride_jumps(first, urls, n).len() + 1) >= n,
        url_stride_jumps(first, urls, n).len() > 0 ==> (JUMP_STRIDE as int) * url_stride_jumps(
            first,
            urls,
            n,
        ).len() < n,
        forall|k: int|
            0 <= k < url_stride_jumps(first, urls, n).len() ==> (JUMP_STRIDE as int) * (k + 1) < n
                && #[trigger] url_stride_jumps(first, urls, n)[k] == url_offset_of(
                first,
                urls,
                (JUMP_STRIDE as int) * (k + 1),
            ) as u64,
    decreases n,
{
    let s = JUMP_STRIDE as int;
    if n > 0 {
        lemma_url_stride_jumps(first, urls, n - 1);
        let prev = url_stride_jumps(first, urls, n - 1);
        let pl = prev.len() as int;
        assert(s * (pl + 1) >= n - 1);
        if pl > 0 {
            assert(s * pl < n - 1);
        }
        if (n - 1) % s == 0 && n - 1 != 0 {
            vstd::arithmetic::div_mod::lemma_fundamental_div_mod(n - 1, s);
            let q = (n - 1) / s;
            assert(n - 1 == s * q);
            assert(n - 1 > 0);
            if pl == 0 {
                assert(q == 1) by (nonlinear_arith)
                    requires
                        n - 1 == s * q,
                        s == 1000,
                        0 < n - 1 <= s,
                ;
            } else {
                assert(q == pl + 1) by (nonlinear_arith)
                    requires
                        n - 1 == s * q,
                        s == 1000,
                        s * pl < n - 1,
                        n - 1 <= s * (pl + 1),
                        pl >= 1,
                ;
            }
            assert(n - 1 == s * (pl + 1));
        } else {
            if n - 1 != 0 {
                assert(s * (pl + 1) != n - 1) by (nonlinear_arith)
                    requires
                        s == 1000,
                        (n - 1) % s != 0,
                ;
            } else {
                assert(s * (pl + 1) >= s) by (nonlinear_arith)
                    requires
                        s == 1000,
                        pl >= 0,
                ;
            }
        }
    }
}

/// Builds the on-disk bytes of one URL shard.  Entry `i` of `urls` must
/// carry id `first + i`, where `first` is the id of the first entry.
#[verifier::loop_isolation(false)]
#[verifier::rlimit(100)]
pub fn store_urls_bytes(urls: &Vec<(u64, Vec<u8>)>) -> (r: Vec<u8>)
    requires
        urls@.len() > 0,
        wf_urls(urls@[0].0, urls@.map_values(|p: (u64, Vec<u8>)| p.1@)),
        forall|i: int| 0 <= i < urls@.len() ==> (#[trigger] urls@[i]).0 == urls@[0].0 + i,
    ensures
        r@ == url_shard_bytes(urls@[0].0, urls@.map_values(|p: (u64, Vec<u8>)| p.1@)),
{
    let first = urls[0].0;
    let ghost m = urls@.map_values(|p: (u64, Vec<u8>)| p.1@);
    let n = urls.len();
    let mut content: Vec<u8> = Vec::new();
    let mut jumps: Vec<u64> = Vec::new();
    let mut until_stride: usize = JUMP_STRIDE as usize;
    proof {
        assert(m.take(0) =~= Seq::<Seq<u8>>::empty());
        lemma_auto_spec_u16_to_from_le_bytes();
        lemma_auto_spec_u64_to_from_le_bytes();
        lemma_auto_spec_u32_to_from_le_bytes();
    }
    let mut i: usize = 0;
    while i < n
        invariant
            0 <= i <= n,
            n == urls@.len(),
            m == urls@.map_values(|p: (u64, Vec<u8>)| p.1@),
            first == urls@[0].0,
            wf_urls(first, m),
            content@ == enc_url_entries(first, m.take(i as int)),
            jumps@ == url_stride_jumps(first, m, i as int),
            i + until_stride == (jumps@.len() + 1) * (JUMP_STRIDE as int),
            until_stride < JUMP_STRIDE as usize || (i == 0 && until_stride == JUMP_STRIDE as usize),
        decreases n - i,
    {
        proof {
            lemma_enc_url_entries_prefix(first, m, i as int);
            lemma_enc_url_entries_take_succ(first, m, i as int);
            lemma_enc_url_entry_len((first + i) as u64, m[i as int]);
        }
        if until_stride == 0 {
            proof {
                assert((i as int) % (JUMP_STRIDE as int) == 0 && i != 0) by (nonlinear_arith)
                    requires
                        i as int == (jumps@.len() + 1) * (JUMP_STRIDE as int),
                        jumps@.len() >= 0,
                        JUMP_STRIDE as int == 1000,
                ;
            }
            jumps.push(content.len() as u64);
            proof {
                assert(jumps@ =~= url_stride_jumps(first, m, i + 1));
            }
            until_stride = JUMP_STRIDE as usize - 1;
        } else {
            proof {
                if i != 0 {
                    assert((i as int) % (JUMP_STRIDE as int) != 0) by (nonlinear_arith)
                        requires
                            i + until_stride == (jumps@.len() + 1) * (JUMP_STRIDE as int),
                            0 < until_stride < (JUMP_STRIDE as int),
                            i > 0,
                            jumps@.len() >= 0,
                            JUMP_STRIDE as int == 1000,
                    ;
                }
                assert(jumps@ =~= url_stride_jumps(first, m, i + 1));
            }
            until_stride = until_stride - 1;
        }
        let url = &urls[i].1;
        push_u16(&mut content, url.len() as u16);
        push_u64(&mut content, urls[i].0);
        push_all(&mut content, url);
        proof {
            assert(content@ =~= enc_url_entries(first, m.take(i + 1)));
        }
        i = i + 1;
    }
    proof {
        assert(m.take(n as int) =~= m);
    }
    let mut out: Vec<u8> = Vec::new();
    push_u64(&mut out, jumps.len() as u64);
    push_u32(&mut out, JUMP_STRIDE as u32);
    proof {
        assert(out@ =~= spec_u64_to_le_bytes(spec_url_jump_table(first, m).len() as u64)
            + spec_u32_to_le_bytes(JUMP_STRIDE as u32));
        assert(spec_url_jump_table(first, m).take(0) =~= Seq::<u64>::empty());
    }
    let ghost jt = spec_url_jump_table(first, m);
    let jn = jumps.len();
    let mut j: usize = 0;
    while j < jn
        invariant
            0 <= j <= jn,
            jn == jumps@.len(),
            jumps@ == jt,
            out@ == spec_u64_to_le_bytes(jt.len() as u64) + spec_u32_to_le_bytes(
                JUMP_STRIDE as u32,
            ) + crate::index_shard::enc_ids(jt.take(j as int)),
        decreases jn - j,
    {
        push_u64(&mut out, jumps[j]);
        proof {
            crate::index_shard::lemma_enc_ids_push(jt.take(j as int), jt[j as int]);
            assert(jt.take(j + 1).drop_last() =~= jt.take(j as int));
            assert(jt.take(j as int).push(jt[j as int]) =~= jt.take(j + 1));
            assert(out@ =~= spec_u64_to_le_bytes(jt.len() as u64) + spec_u32_to_le_bytes(
                JUMP_STRIDE as u32,
            ) + crate::index_shard::enc_ids(jt.take(j + 1)));
        }
        j = j + 1;
    }
    proof {
        assert(jt.take(jn as int) =~= jt);
    }
    let mut tail = content;
    out.append(&mut tail);
    proof {
        assert(out@ =~= url_shard_bytes(first, m));
    }
    out
}


/// Front decomposition of the content encoding.
pub proof fn lemma_enc_url_entries_first(first: u64, urls: Seq<Seq<u8>>)
    requires
        urls.len() > 0,
        first + urls.len() <= u64::MAX,
    ensures
        enc_url_entries(first, urls) == enc_url_entry(first, urls[0]) + enc_url_entries(
            (first + 1) as u64,
            urls.drop_first(),
        ),
    decreases urls.len(),
{
    if urls.len() == 1 {
        assert(urls.drop_last() =~= Seq::<Seq<u8>>::empty());
        assert(urls.drop_first() =~= Seq::<Seq<u8>>::empty());
        assert(enc_url_entries(first, urls.drop_last()) == Seq::<u8>::empty());
        assert(enc_url_entries((first + 1) as u64, urls.drop_first()) == Seq::<u8>::empty());
        assert((first + urls.len() - 1) as u64 == first);
        assert(urls.last() == urls[0]);
        assert(enc_url_entries(first, urls) == Seq::<u8>::empty() + enc_url_entry(
            first,
            urls[0],
        ));
        assert(Seq::<u8>::empty() + enc_url_entry(first, urls[0]) =~= enc_url_entry(
            first,
            urls[0],
        ) + Seq::<u8>::empty());
        assert(enc_url_entries(first, urls) =~= enc_url_entry(first, urls[0]) + enc_url_entries(
            (first + 1) as u64,
            urls.drop_first(),
        ));
    } else {
        lemma_enc_url_entries_first(first, urls.drop_last());
        assert(urls.drop_last()[0] == urls[0]);
        assert(urls.drop_last().drop_first() =~= urls.drop_first().drop_last());
        assert(urls.drop_first().last() == urls.last());
        let f1 = (first + 1) as u64;
        assert(urls.drop_first().len() == urls.len() - 1);
        assert(enc_url_entries(f1, urls.drop_first()) == enc_url_entries(
            f1,
            urls.drop_first().drop_last(),
        ) + enc_url_entry((f1 + urls.drop_first().len() - 1) as u64, urls.drop_first().last()));
        assert((f1 + urls.drop_first().len() - 1) as u64 == (first + urls.len() - 1) as u64);
        assert(enc_url_entries(first, urls) =~= enc_url_entry(first, urls[0]) + enc_url_entries(
            (first + 1) as u64,
            urls.drop_first(),
        ));
    }
}

/// Two equally long URL lists with the same encoding are equal.
proof fn lemma_enc_url_entries_injective(first: u64, a: Seq<Seq<u8>>, b: Seq<Seq<u8>>)
    requires
        a.len() == b.len(),
        first + a.len() <= u64::MAX,
        forall|i: int| 0 <= i < a.len() ==> (#[trigger] a[i]).len() <= 65535,
        forall|i: int| 0 <= i < b.len() ==> (#[trigger] b[i]).len() <= 65535,
        enc_url_entries(first, a) == enc_url_entries(first, b),
    ensures
        a == b,
    decreases a.len(),
{
    lemma_auto_spec_u16_to_from_le_bytes();
    lemma_auto_spec_u64_to_from_le_bytes();
    if a.len() > 0 {
        lemma_enc_url_entries_first(first, a);
        lemma_enc_url_entries_first(first, b);
        let ea = enc_url_entries(first, a);
        assert(spec_u16_to_le_bytes(a[0].len() as u16) =~= ea.subrange(0, 2));
        assert(spec_u16_to_le_bytes(b[0].len() as u16) =~= ea.subrange(0, 2));
        assert(a[0].len() == b[0].len());
        let ul = a[0].len() as int;
        assert(a[0] =~= ea.subrange(10, 10 + ul));
        assert(b[0] =~= ea.subrange(10, 10 + ul));
        assert(enc_url_entries((first + 1) as u64, a.drop_first()) =~= ea.subrange(
            10 + ul,
            ea.len() as int,
        ));
        assert(enc_url_entries((first + 1) as u64, b.drop_first()) =~= ea.subrange(
            10 + ul,
            ea.len() as int,
        ));
        assert(forall|i: int|
            0 <= i < a.drop_first().len() ==> #[trigger] a.drop_first()[i] == a[i + 1]);
        assert(forall|i: int|
            0 <= i < b.drop_first().len() ==> #[trigger] b.drop_first()[i] == b[i + 1]);
        lemma_enc_url_entries_injective((first + 1) as u64, a.drop_first(), b.drop_first());
        assert forall|i: int| 0 <= i < a.len() implies a[i] == b[i] by {
            if i > 0 {
                assert(a.drop_first()[i - 1] == b.drop_first()[i - 1]);
            }
        }
        assert(a =~= b);
    } else {
        assert(a =~= b);
    }
}

/// A URL shard file with a known first id and entry count determines
/// its URL list.
pub proof fn lemma_url_shard_bytes_injective(first: u64, a: Seq<Seq<u8>>, b: Seq<Seq<u8>>)
    requires
        wf_urls(first, a),
        wf_urls(first, b),
        a.len() == b.len(),
        url_shard_bytes(first, a) == url_shard_bytes(first, b),
    ensures
        a == b,
{
    lemma_auto_spec_u64_to_from_le_bytes();
    lemma_auto_spec_u32_to_from_le_bytes();
    let wa = url_shard_bytes(first, a);
    let jta = spec_url_jump_table(first, a);
    let jtb = spec_url_jump_table(first, b);
    lemma_url_stride_jumps(first, a, a.len() as int);
    lemma_url_stride_jumps(first, b, b.len() as int);
    assert(spec_u64_to_le_bytes(jta.len() as u64) =~= wa.subrange(0, 8));
    assert(spec_u64_to_le_bytes(jtb.len() as u64) =~= wa.subrange(0, 8));
    assert(jta.len() == jtb.len());
    crate::index_shard::lemma_enc_ids_len(jta);
    crate::index_shard::lemma_enc_ids_len(jtb);
    let cs = 12 + 8 * jta.len() as int;
    assert(enc_url_entries(first, a) =~= wa.subrange(cs, wa.len() as int));
    assert(enc_url_entries(first, b) =~= wa.subrange(cs, wa.len() as int));
    lemma_enc_url_entries_injective(first, a, b);
}

/// Does `bytes` encode exactly the URL list `m` starting at id `first`?
pub open spec fn url_shard_encodes(bytes: Seq<u8>, first: u64, m: Seq<Seq<u8>>, num: u64) -> bool {
    wf_urls(first, m) && bytes == url_shard_bytes(first, m) && num == m.len()
}

/// A loaded URL shard: the raw bytes, decoded jump table, and (as a
/// ghost) the URL list the bytes encode.
pub struct UrlStore {
    pub file_path: String,
    pub first_index: u64,
    pub num_entries: u64,
    pub jump_table: Vec<u64>,
    pub bytes: Vec<u8>,
    pub urls: Ghost<Seq<Seq<u8>>>,
}

impl UrlStore {
    pub open spec fn spec_bytes(&self) -> Seq<u8> {
        self.bytes@
    }

    /// The store is internally consistent: its bytes encode its URL
    /// list and the decoded jump table agrees with them.
    pub open spec fn wf(&self) -> bool {
        &&& wf_urls(self.first_index, self.urls@)
        &&& self.bytes@ == url_shard_bytes(self.first_index, self.urls@)
        &&& self.num_entries == self.urls@.len()
        &&& self.jump_table@ == spec_url_jump_table(self.first_index, self.urls@)
    }

    proof fn region(&self)
        requires
            self.wf(),
        ensures
            spec_url_content_offset(self.first_index, self.urls@) + enc_url_entries(
                self.first_index,
                self.urls@,
            ).len() == self.bytes@.len(),
            self.bytes@.subrange(
                spec_url_content_offset(self.first_index, self.urls@),
                self.bytes@.len() as int,
            ) == enc_url_entries(self.first_index, self.urls@),
    {
        lemma_auto_spec_u64_to_from_le_bytes();
        lemma_auto_spec_u32_to_from_le_bytes();
        crate::index_shard::lemma_enc_ids_len(spec_url_jump_table(self.first_index, self.urls@));
        assert(self.bytes@.subrange(
            spec_url_content_offset(self.first_index, self.urls@),
            self.bytes@.len() as int,
        ) =~= enc_url_entries(self.first_index, self.urls@));
    }
}

/// Reads the entry at index `i`, whose encoding starts at `pos`.
#[verifier::loop_isolation(false)]
fn read_url_entry_at(
    bytes: &Vec<u8>,
    pos: usize,
    Ghost(first): Ghost<u64>,
    Ghost(m): Ghost<Seq<Seq<u8>>>,
    Ghost(cs): Ghost<int>,
    Ghost(i): Ghost<int>,
) -> (r: (u64, Vec<u8>, usize))
    requires
        0 <= cs,
        cs + enc_url_entries(first, m).len() == bytes@.len(),
        bytes@.subrange(cs, bytes@.len() as int) == enc_url_entries(first, m),
        first + m.len() <= u64::MAX,
        forall|t: int| 0 <= t < m.len() ==> (#[trigger] m[t]).len() <= 65535,
        0 <= i < m.len(),
        pos == cs + url_offset_of(first, m, i),
    ensures
        r.0 == first + i,
        r.1@ == m[i],
        r.2 == cs + url_offset_of(first, m, i + 1),
{
    let total = bytes.len();
    let ghost u = m[i];
    let ghost pe = enc_url_entry((first + i) as u64, u);
    let ghost pb = bytes@.subrange(cs + url_offset_of(first, m, i), cs + url_offset_of(
        first,
        m,
        i + 1,
    ));
    proof {
        lemma_enc_url_entries_at(first, m, i);
        lemma_enc_url_entry_len((first + i) as u64, u);
        lemma_url_offset_bounds(first, m, i);
        lemma_auto_spec_u16_to_from_le_bytes();
        lemma_auto_spec_u64_to_from_le_bytes();
        assert(pb =~= enc_url_entries(first, m).subrange(
            url_offset_of(first, m, i),
            url_offset_of(first, m, i + 1),
        ));
        assert(pb == pe);
        assert(pe.subrange(0, 2) =~= spec_u16_to_le_bytes(u.len() as u16));
        assert(pe.subrange(2, 10) =~= spec_u64_to_le_bytes((first + i) as u64));
        assert(pe.subrange(10, pe.len() as int) =~= u);
    }
    let s = bytes.as_slice();
    let url_len = take_u16(s, pos);
    proof {
        assert(bytes@.subrange(pos as int, pos + 2) =~= pb.subrange(0, 2));
        assert(url_len == u.len());
    }
    let id = take_u64(s, pos + 2);
    proof {
        assert(bytes@.subrange(pos + 2, pos + 10) =~= pb.subrange(2, 10));
        assert(id == first + i);
    }
    let url = take_bytes(s, pos + 10, url_len as usize);
    proof {
        assert(url@ =~= pb.subrange(10, pb.len() as int));
    }
    (id, url, pos + 10 + url_len as usize)
}

impl UrlStore {
    /// Loads and fully validates one URL shard file.  `first_index` and
    /// `num_entries` are this shard's catalog entry; the ids inside the
    /// file must be dense from `first_index`.
    pub fn load(file_path: String, first_index: u64, num_entries: u64, bytes: Vec<u8>) -> (r:
        Result<UrlStore, crate::errors::StrError>)
        ensures
            r matches Ok(s) ==> s.wf() && s.spec_bytes() == bytes@ && s.urls@.len() == num_entries
                && s.first_index == first_index && s.file_path@ == file_path@,
            forall|m: Seq<Seq<u8>>|
                url_shard_encodes(bytes@, first_index, m, num_entries) ==> r is Ok,
    {
        let ghost gm = choose|m: Seq<Seq<u8>>|
            url_shard_encodes(bytes@, first_index, m, num_entries);
        Self::load_inner(file_path, first_index, num_entries, bytes, Ghost(gm))
    }

    #[verifier::loop_isolation(false)]
    #[verifier::rlimit(100)]
    fn load_inner(
        file_path: String,
        first_index: u64,
        num_entries: u64,
        bytes: Vec<u8>,
        Ghost(gm): Ghost<Seq<Seq<u8>>>,
    ) -> (r: Result<UrlStore, crate::errors::StrError>)
        ensures
            r matches Ok(s) ==> s.wf() && s.spec_bytes() == bytes@ && s.urls@.len() == num_entries
                && s.first_index == first_index && s.file_path@ == file_path@,
            url_shard_encodes(bytes@, first_index, gm, num_entries) ==> r is Ok,
    {
        let ghost hyp = url_shard_encodes(bytes@, first_index, gm, num_entries);
        let ghost jt = spec_url_jump_table(first_index, gm);
        proof {
            lemma_auto_spec_u16_to_from_le_bytes();
            lemma_auto_spec_u64_to_from_le_bytes();
            lemma_auto_spec_u32_to_from_le_bytes();
            if hyp {
                lemma_url_stride_jumps(first_index, gm, gm.len() as int);
                lemma_enc_url_entries_len_lower(first_index, gm);
                crate::index_shard::lemma_enc_ids_len(jt);
                assert(spec_u64_to_le_bytes(jt.len() as u64) =~= bytes@.subrange(0, 8));
                assert(spec_u32_to_le_bytes(JUMP_STRIDE as u32) =~= bytes@.subrange(8, 12));
                assert(bytes@.subrange(12, 12 + 8 * jt.len() as int) =~= crate::index_shard::enc_ids(
                    jt,
                ));
                assert(bytes@.subrange(
                    12 + 8 * jt.len() as int,
                    bytes@.len() as int,
                ) =~= enc_url_entries(first_index, gm));
            }
        }
        let total = bytes.len();
        if total < 12 {
            proof {
                if hyp {
                    assert(false);
                }
            }
            return Err(crate::errors::StrError::new("malformed url shard"));
        }
        let s = bytes.as_slice();
        let jt_len = take_u64(s, 0);
        let stride = take_u32(s, 8);
        if stride != JUMP_STRIDE as u32 || jt_len > ((total - 12) / 8) as u64 {
            proof {
                if hyp {
                    assert(8 * (((total - 12) as int) / 8) <= total - 12);
                    assert(false);
                }
            }
            return Err(crate::errors::StrError::new("malformed url shard"));
        }
        let jn = jt_len as usize;
        let content_offset = 12 + 8 * jn;
        // read the jump table
        let mut jumps: Vec<u64> = Vec::new();
        let mut j: usize = 0;
        while j < jn
            invariant
                0 <= j <= jn,
                12 + 8 * jn <= total,
                jumps@.len() == j,
                forall|t: int|
                    0 <= t < j ==> #[trigger] jumps@[t] == spec_u64_from_le_bytes(
                        bytes@.subrange(12 + 8 * t, 12 + 8 * t + 8),
                    ),
            decreases jn - j,
        {
            let off = take_u64(s, 12 + 8 * j);
            jumps.push(off);
            j = j + 1;
        }
        proof {
            if hyp {
                assert forall|t: int| 0 <= t < jn implies jumps@[t] == jt[t] by {
                    crate::index_shard::lemma_enc_ids_at(jt, t);
                    assert(bytes@.subrange(12 + 8 * t, 12 + 8 * t + 8) =~=
                        crate::index_shard::enc_ids(jt).subrange(8 * t, 8 * t + 8));
                }
                assert(jumps@ =~= jt);
            }
        }
        // parse the content region
        let mut parsed: Vec<(u64, Vec<u8>)> = Vec::new();
        let mut pos = content_offset;
        let ghost mut gi: int = 0;
        proof {
            assert(parsed@.map_values(|p: (u64, Vec<u8>)| p.1@) =~= Seq::<Seq<u8>>::empty());
            assert(enc_url_entries(first_index, Seq::<Seq<u8>>::empty()) =~= bytes@.subrange(
                content_offset as int,
                content_offset as int,
            ));
            if hyp {
                assert(gm.take(0) =~= Seq::<Seq<u8>>::empty());
                assert(content_offset == spec_url_content_offset(first_index, gm));
            }
        }
        while pos < total
            invariant
                12 <= content_offset <= pos <= total,
                parsed@.len() <= (total - content_offset) / 10,
                forall|t: int| 0 <= t < parsed@.len() ==> (#[trigger] parsed@[t]).0
                    == first_index + t,
                forall|t: int| 0 <= t < parsed@.len() ==> (#[trigger] parsed@[t]).1@.len() <= 65535,
                forall|t: int|
                    0 <= t < parsed@.len() ==> vstd::utf8::valid_utf8((#[trigger] parsed@[t]).1@),
                first_index + parsed@.len() <= u64::MAX,
                enc_url_entries(first_index, parsed@.map_values(|p: (u64, Vec<u8>)| p.1@))
                    == bytes@.subrange(content_offset as int, pos as int),
                hyp ==> gi == parsed@.len() && 0 <= gi <= gm.len() && parsed@.map_values(
                    |p: (u64, Vec<u8>)| p.1@,
                ) == gm.take(gi) && pos == spec_url_content_offset(first_index, gm)
                    + url_offset_of(first_index, gm, gi),
            decreases total - pos,
        {
            let ghost pm0 = parsed@.map_values(|p: (u64, Vec<u8>)| p.1@);
            proof {
                if hyp {
                    lemma_url_offset_bounds(first_index, gm, gi);
                    if gi == gm.len() {
                        assert(gm.take(gi) =~= gm);
                        assert(false);
                    }
                    lemma_enc_url_entries_at(first_index, gm, gi);
                    lemma_enc_url_entry_len((first_index + gi) as u64, gm[gi]);
                    assert(bytes@.subrange(
                        spec_url_content_offset(first_index, gm) + url_offset_of(
                            first_index,
                            gm,
                            gi,
                        ),
                        spec_url_content_offset(first_index, gm) + url_offset_of(
                            first_index,
                            gm,
                            gi + 1,
                        ),
                    ) =~= enc_url_entries(first_index, gm).subrange(
                        url_offset_of(first_index, gm, gi),
                        url_offset_of(first_index, gm, gi + 1),
                    ));
                }
            }
            if total - pos < 10 {
                proof {
                    if hyp {
                        assert(false);
                    }
                }
                return Err(crate::errors::StrError::new("malformed url shard"));
            }
            let ghost epe = enc_url_entry((first_index + gi) as u64, gm[gi]);
            let url_len = take_u16(s, pos);
            let id = take_u64(s, pos + 2);
            proof {
                if hyp {
                    let gpb = bytes@.subrange(
                        pos as int,
                        pos + 10 + gm[gi].len() as int,
                    );
                    assert(gpb == epe);
                    assert(bytes@.subrange(pos as int, pos + 2) =~= gpb.subrange(0, 2));
                    assert(epe.subrange(0, 2) =~= spec_u16_to_le_bytes(gm[gi].len() as u16));
                    assert(url_len == gm[gi].len());
                    assert(bytes@.subrange(pos + 2, pos + 10) =~= gpb.subrange(2, 10));
                    assert(epe.subrange(2, 10) =~= spec_u64_to_le_bytes((first_index + gi) as u64));
                    assert(id == first_index + gi);
                }
            }
            if total - pos < 10 + url_len as usize {
                proof {
                    if hyp {
                        assert(false);
                    }
                }
                return Err(crate::errors::StrError::new("malformed url shard"));
            }
            let expected_count = parsed.len() as u64;
            if expected_count == u64::MAX || first_index > u64::MAX - expected_count - 1 || id
                != first_index + expected_count {
                proof {
                    if hyp {
                        assert(false);
                    }
                }
                return Err(crate::errors::StrError::new("malformed url shard"));
            }
            let url = take_bytes(s, pos + 10, url_len as usize);
            proof {
                if hyp {
                    let gpb = bytes@.subrange(
                        pos as int,
                        pos + 10 + gm[gi].len() as int,
                    );
                    assert(url@ =~= gpb.subrange(10, gpb.len() as int));
                    assert(epe.subrange(10, epe.len() as int) =~= gm[gi]);
                    assert(url@ == gm[gi]);
                }
            }
            let checked = crate::canon::string_from_utf8(url.clone());
            let url_ok = match checked {
                Some(_) => true,
                None => false,
            };
            if !url_ok {
                proof {
                    if hyp {
                        assert(vstd::utf8::valid_utf8(gm[gi]));
                        assert(false);
                    }
                }
                return Err(crate::errors::StrError::new("malformed url shard"));
            }
            proof {
                match checked {
                    Some(cs_str) => {
                        vstd::utf8::encode_utf8_valid_utf8(cs_str@);
                    },
                    None => {},
                }
            }
            let ghost new_url = url@;
            proof {
                lemma_enc_url_entry_len(id, new_url);
                assert(enc_url_entry(id, new_url) =~= bytes@.subrange(
                    pos as int,
                    pos + 10 + url_len as int,
                ));
                let pm1 = parsed@.push((id, url)).map_values(|p: (u64, Vec<u8>)| p.1@);
                assert(pm1 =~= pm0.push(new_url));
                assert(pm0.push(new_url).drop_last() =~= pm0);
                assert(enc_url_entries(first_index, pm0.push(new_url)) =~= bytes@.subrange(
                    content_offset as int,
                    pos + 10 + url_len as int,
                ));
                lemma_enc_url_entries_len_lower(first_index, pm0.push(new_url));
                if hyp {
                    assert(pm0.push(new_url) =~= gm.take(gi + 1));
                }
            }
            parsed.push((id, url));
            proof {
                if hyp {
                    gi = gi + 1;
                }
            }
            pos = pos + 10 + url_len as usize;
        }
        if parsed.is_empty() {
            proof {
                if hyp {
                    lemma_url_offset_strict_mono(first_index, gm, 0, gm.len() as int);
                    assert(gm.take(gm.len() as int) =~= gm);
                    assert(false);
                }
            }
            return Err(crate::errors::StrError::new("malformed url shard"));
        }
        let parsed_count = parsed.len() as u64;
        if parsed_count != num_entries {
            proof {
                if hyp {
                    lemma_url_offset_bounds(first_index, gm, gi);
                    if gi < gm.len() {
                        lemma_url_offset_strict_mono(first_index, gm, gi, gm.len() as int);
                        assert(gm.take(gm.len() as int) =~= gm);
                        assert(false);
                    }
                    assert(gm.take(gi) =~= gm);
                    assert(false);
                }
            }
            return Err(crate::errors::StrError::new("malformed url shard"));
        }
        let ghost pm = parsed@.map_values(|p: (u64, Vec<u8>)| p.1@);
        proof {
            if hyp {
                lemma_url_offset_bounds(first_index, gm, gi);
                if gi < gm.len() {
                    lemma_url_offset_strict_mono(first_index, gm, gi, gm.len() as int);
                    assert(gm.take(gm.len() as int) =~= gm);
                    assert(false);
                }
                assert(gm.take(gi) =~= gm);
                assert(pm == gm);
            }
            assert(enc_url_entries(first_index, pm).len() <= total);
            assert(parsed@[0].0 == first_index);
        }
        let reencoded = store_urls_bytes(&parsed);
        let same = crate::order::bytes_eq(&reencoded, &bytes);
        if !same {
            proof {
                if hyp {
                    assert(reencoded@ == url_shard_bytes(first_index, gm));
                    assert(false);
                }
            }
            return Err(crate::errors::StrError::new("malformed url shard"));
        }
        // the decoded jump table must be the one the parsed list implies
        proof {
            lemma_url_stride_jumps(first_index, pm, pm.len() as int);
            crate::index_shard::lemma_enc_ids_len(spec_url_jump_table(first_index, pm));
            assert(spec_u64_to_le_bytes(spec_url_jump_table(first_index, pm).len() as u64) =~=
                bytes@.subrange(0, 8));
            assert(jt_len == spec_url_jump_table(first_index, pm).len());
            assert forall|t: int| 0 <= t < jn implies jumps@[t] == spec_url_jump_table(
                first_index,
                pm,
            )[t] by {
                crate::index_shard::lemma_enc_ids_at(spec_url_jump_table(first_index, pm), t);
                assert(bytes@.subrange(12 + 8 * t, 12 + 8 * t + 8) =~=
                    crate::index_shard::enc_ids(spec_url_jump_table(first_index, pm)).subrange(
                    8 * t,
                    8 * t + 8,
                ));
            }
            assert(jumps@ =~= spec_url_jump_table(first_index, pm));
        }
        Ok(UrlStore {
            file_path,
            first_index,
            num_entries,
            jump_table: jumps,
            bytes,
            urls: Ghost(pm),
        })
    }
}

/// Round trip for URL shards: a shard file written from a well-formed
/// URL list loads back to exactly that list.
pub proof fn lemma_url_round_trip(first: u64, urls: Seq<Seq<u8>>, s: UrlStore)
    requires
        wf_urls(first, urls),
        s.wf(),
        s.first_index == first,
        s.num_entries == urls.len(),
        s.spec_bytes() == url_shard_bytes(first, urls),
    ensures
        s.urls@ == urls,
{
    lemma_url_shard_bytes_injective(first, s.urls@, urls);
}


impl UrlStore {
    /// Fetches the URLs of the requested ids, which must be strictly
    /// ascending and inside this shard's range.  The jump table bounds
    /// the scan: the cursor seeks to the latest jump entry not past the
    /// requested id.
    #[verifier::loop_isolation(false)]
    #[verifier::rlimit(60)]
    pub fn get_urls(&self, url_idxs: &Vec<u64>) -> (r: Vec<(u64, String)>)
        requires
            self.wf(),
            crate::order::strictly_sorted_u64(url_idxs@),
            forall|k: int|
                0 <= k < url_idxs@.len() ==> self.first_index <= #[trigger] url_idxs@[k]
                    < self.first_index + self.num_entries,
        ensures
            r@.len() == url_idxs@.len(),
            forall|k: int|
                0 <= k < r@.len() ==> (#[trigger] r@[k]).0 == url_idxs@[k]
                    && vstd::utf8::encode_utf8(r@[k].1@) == self.urls@[url_idxs@[k]
                    - self.first_index],
    {
        let first = self.first_index;
        let ghost m = self.urls@;
        let ghost cs = spec_url_content_offset(first, m);
        let ghost jt = spec_url_jump_table(first, m);
        let total = self.bytes.len();
        proof {
            self.region();
            lemma_url_stride_jumps(first, m, m.len() as int);
            lemma_enc_url_entries_len_lower(first, m);
            lemma_url_offset_bounds(first, m, 0);
            crate::index_shard::lemma_enc_ids_len(jt);
            assert(cs <= total);
        }
        let content_offset = 12 + 8 * self.jump_table.len();
        proof {
            assert(content_offset == cs);
        }
        let mut out: Vec<(u64, String)> = Vec::new();
        let mut pos: usize = content_offset;
        let ghost mut i: int = 0;
        let mut cur: u64 = first;
        let n_req = url_idxs.len();
        let mut k: usize = 0;
        while k < n_req
            invariant
                0 <= k <= n_req,
                0 <= i <= m.len(),
                pos == cs + url_offset_of(first, m, i),
                out@.len() == k,
                forall|t: int|
                    0 <= t < k ==> (#[trigger] out@[t]).0 == url_idxs@[t] && vstd::utf8::encode_utf8(
                        out@[t].1@,
                    ) == m[url_idxs@[t] - first],
                cur == first + i,
                k < n_req ==> i <= url_idxs@[k as int] - first,
            decreases n_req - k,
        {
            let id = url_idxs[k];
            let ghost t_target = id - first;
            // consult the jump table
            let k0 = (id - first) / JUMP_STRIDE;
            if k0 >= 1 {
                proof {
                    assert((JUMP_STRIDE as int) * (jt.len() + 1) >= m.len());
                    assert((k0 as int) * (JUMP_STRIDE as int) <= t_target) by (nonlinear_arith)
                        requires
                            k0 == (id - first) as u64 / JUMP_STRIDE,
                            t_target == id - first,
                            JUMP_STRIDE == 1000u64,
                            id >= first,
                    ;
                    assert(k0 as int - 1 < jt.len()) by (nonlinear_arith)
                        requires
                            (JUMP_STRIDE as int) * (jt.len() + 1) >= m.len(),
                            (k0 as int) * (JUMP_STRIDE as int) <= t_target,
                            t_target < m.len(),
                            JUMP_STRIDE as int == 1000,
                            k0 >= 1,
                    ;
                    assert(jt[k0 as int - 1] == url_offset_of(
                        first,
                        m,
                        (JUMP_STRIDE as int) * (k0 as int),
                    ) as u64);
                    lemma_url_offset_bounds(first, m, (JUMP_STRIDE as int) * (k0 as int));
                }
                let jump_off = self.jump_table[(k0 - 1) as usize];
                let cur_off = pos - content_offset;
                if (jump_off as usize) > cur_off {
                    pos = content_offset + jump_off as usize;
                    cur = first + k0 * JUMP_STRIDE;
                    proof {
                        let e = (JUMP_STRIDE as int) * (k0 as int);
                        if e < i {
                            lemma_url_offset_strict_mono(first, m, e, i);
                            assert(false);
                        } else if e == i {
                            assert(false);
                        }
                        i = e;
                    }
                }
            }
            // walk to the requested entry
            while pos < total && cur < id
                invariant
                    0 <= i <= t_target < m.len(),
                    cur == first + i,
                    pos == cs + url_offset_of(first, m, i),
                decreases m.len() - i,
            {
                let entry = read_url_entry_at(&self.bytes, pos, Ghost(first), Ghost(m), Ghost(cs),
                    Ghost(i));
                pos = entry.2;
                cur = cur + 1;
                proof {
                    lemma_enc_url_entries_at(first, m, i);
                    i = i + 1;
                }
            }
            proof {
                lemma_url_offset_bounds(first, m, i);
                if i < t_target {
                    lemma_url_offset_strict_mono(first, m, i, m.len() as int);
                    assert(m.take(m.len() as int) =~= m);
                    assert(false);
                }
                assert(i == t_target);
            }
            let entry = read_url_entry_at(&self.bytes, pos, Ghost(first), Ghost(m), Ghost(cs),
                Ghost(i));
            pos = entry.2;
            cur = cur + 1;
            proof {
                lemma_enc_url_entries_at(first, m, i);
                i = i + 1;
            }
            let url_string = match crate::canon::string_from_utf8(entry.1) {
                Some(sv) => sv,
                None => {
                    proof {
                        assert(vstd::utf8::valid_utf8(m[t_target]));
                        assert(false);
                    }
                    String::new()
                },
            };
            out.push((entry.0, url_string));
            proof {
                if k + 1 < n_req {
                    assert(url_idxs@[k as int] < url_idxs@[k + 1]);
                }
            }
            k = k + 1;
        }
        out
    }
}

} // verus!
