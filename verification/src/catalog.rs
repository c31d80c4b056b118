//! The two append-only catalog files that enumerate shards.
//!
//! A URL-catalog record is `first_index:u64, num_entries:u64,
//! path_len:u16, path`; an indexed-catalog record is `tag_len:u8, tag,
//! num_entries:u64, path_len:u16, path`.  Loading scans to end of file;
//! a partial trailing record (a crash during an append) is dropped and
//! everything before it is kept.
use crate::canon::string_from_utf8;
use crate::codec::{push_all, push_u16, push_u64, push_u8, take_bytes, take_u16, take_u64,
    take_u8};
use vstd::bytes::*;
use vstd::prelude::*;
use vstd::utf8::{encode_utf8, valid_utf8};

verus! {

/// One URL-catalog record: a URL shard holding `num_entries` ids
/// starting at `first_index`, stored in the file named by `path`.
pub struct UrlCatEntry {
    pub first_index: u64,
    pub num_entries: u64,
    pub path: String,
}

/// The mathematical view of a URL-catalog record.
pub open spec fn url_cat_view(e: UrlCatEntry) -> (u64, u64, Seq<u8>) {
    (e.first_index, e.num_entries, encode_utf8(e.path@))
}

pub open spec fn enc_url_cat_entry(e: (u64, u64, Seq<u8>)) -> Seq<u8> {
    spec_u64_to_le_bytes(e.0) + spec_u64_to_le_bytes(e.1) + spec_u16_to_le_bytes(e.2.len() as u16)
        + e.2
}

pub open spec fn enc_url_catalog(es: Seq<(u64, u64, Seq<u8>)>) -> Seq<u8>
    decreases es.len(),
{
    if es.len() == 0 {
        Seq::empty()
    } else {
        enc_url_catalog(es.drop_last()) + enc_url_cat_entry(es.last())
    }
}

/// Catalog records that fit their length fields and carry UTF-8 paths.
pub open spec fn wf_url_cat(es: Seq<(u64, u64, Seq<u8>)>) -> bool {
    forall|i: int|
        0 <= i < es.len() ==> (#[trigger] es[i]).2.len() <= 65535 && valid_utf8(es[i].2)
}

/// A byte sequence too short to hold even the record its own length
/// field promises: what a crash mid-append leaves behind.
pub open spec fn url_cat_incomplete(b: Seq<u8>) -> bool {
    b.len() < 18 || b.len() < 18 + spec_u16_from_le_bytes(b.subrange(16, 18))
}

/// Does `bytes` spell the records `es` followed by at most one partial
/// record?
pub open spec fn url_cat_encodes(bytes: Seq<u8>, es: Seq<(u64, u64, Seq<u8>)>, tail: Seq<u8>)
    -> bool {
    wf_url_cat(es) && bytes == enc_url_catalog(es) + tail && url_cat_incomplete(tail)
}

pub proof fn lemma_enc_url_cat_push(es: Seq<(u64, u64, Seq<u8>)>, e: (u64, u64, Seq<u8>))
    ensures
        enc_url_catalog(es.push(e)) == enc_url_catalog(es) + enc_url_cat_entry(e),
{
    assert(es.push(e).drop_last() =~= es);
}

/// Front decomposition.
pub proof fn lemma_enc_url_cat_first(es: Seq<(u64, u64, Seq<u8>)>)
    requires
        es.len() > 0,
    ensures
        enc_url_catalog(es) == enc_url_cat_entry(es[0]) + enc_url_catalog(es.drop_first()),
    decreases es.len(),
{
    if es.len() == 1 {
        assert(es.drop_last() =~= Seq::<(u64, u64, Seq<u8>)>::empty());
        assert(es.drop_first() =~= Seq::<(u64, u64, Seq<u8>)>::empty());
        assert(enc_url_catalog(es) =~= enc_url_cat_entry(es[0]) + enc_url_catalog(
            es.drop_first(),
        ));
    } else {
        lemma_enc_url_cat_first(es.drop_last());
        assert(es.drop_last()[0] == es[0]);
        assert(es.drop_last().drop_first() =~= es.drop_first().drop_last());
        assert(es.drop_first().last() == es.last());
        assert(enc_url_catalog(es) =~= enc_url_cat_entry(es[0]) + enc_url_catalog(
            es.drop_first(),
        ));
    }
}

/// A catalog byte stream determines its records and its partial tail.
pub proof fn lemma_url_cat_unique(
    bytes: Seq<u8>,
    es1: Seq<(u64, u64, Seq<u8>)>,
    t1: Seq<u8>,
    es2: Seq<(u64, u64, Seq<u8>)>,
    t2: Seq<u8>,
)
    requires
        url_cat_encodes(bytes, es1, t1),
        url_cat_encodes(bytes, es2, t2),
    ensures
        es1 == es2,
        t1 == t2,
    decreases es1.len(),
{
    lemma_auto_spec_u16_to_from_le_bytes();
    lemma_auto_spec_u64_to_from_le_bytes();
    if es1.len() == 0 && es2.len() == 0 {
        assert(enc_url_catalog(es1) =~= Seq::<u8>::empty());
        assert(enc_url_catalog(es2) =~= Seq::<u8>::empty());
        assert(t1 =~= bytes);
        assert(t2 =~= bytes);
        assert(es1 =~= es2);
    } else if es1.len() == 0 || es2.len() == 0 {
        // one side claims the bytes begin with a complete record, the
        // other that they are a partial tail: impossible.
        let (full, tail) = if es1.len() == 0 {
            (es2, t1)
        } else {
            (es1, t2)
        };
        lemma_enc_url_cat_first(full);
        let e = full[0];
        assert(tail =~= bytes);
        assert(bytes.subrange(16, 18) =~= spec_u16_to_le_bytes(e.2.len() as u16));
        assert(bytes.len() >= 18 + e.2.len());
        assert(false);
    } else {
        lemma_enc_url_cat_first(es1);
        lemma_enc_url_cat_first(es2);
        let a = es1[0];
        let b = es2[0];
        assert(bytes.subrange(0, 8) =~= spec_u64_to_le_bytes(a.0));
        assert(bytes.subrange(0, 8) =~= spec_u64_to_le_bytes(b.0));
        assert(bytes.subrange(8, 16) =~= spec_u64_to_le_bytes(a.1));
        assert(bytes.subrange(8, 16) =~= spec_u64_to_le_bytes(b.1));
        assert(bytes.subrange(16, 18) =~= spec_u16_to_le_bytes(a.2.len() as u16));
        assert(bytes.subrange(16, 18) =~= spec_u16_to_le_bytes(b.2.len() as u16));
        assert(a.2.len() == b.2.len());
        let pl = a.2.len() as int;
        assert(a.2 =~= bytes.subrange(18, 18 + pl));
        assert(b.2 =~= bytes.subrange(18, 18 + pl));
        assert(a == b);
        let rest = bytes.subrange(18 + pl, bytes.len() as int);
        assert(enc_url_catalog(es1.drop_first()) + t1 =~= rest);
        assert(enc_url_catalog(es2.drop_first()) + t2 =~= rest);
        assert(forall|i: int|
            0 <= i < es1.drop_first().len() ==> #[trigger] es1.drop_first()[i] == es1[i + 1]);
        assert(forall|i: int|
            0 <= i < es2.drop_first().len() ==> #[trigger] es2.drop_first()[i] == es2[i + 1]);
        lemma_url_cat_unique(rest, es1.drop_first(), t1, es2.drop_first(), t2);
        assert forall|i: int| 0 <= i < es1.len() implies es1[i] == es2[i] by {
            if i > 0 {
                assert(es1.drop_first()[i - 1] == es2.drop_first()[i - 1]);
            }
        }
        assert(es1 =~= es2);
    }
}

/// Truncating an append-only catalog by one byte drops exactly the last
/// record: the crash-safety guarantee for catalog files.
pub proof fn lemma_url_cat_truncation(es: Seq<(u64, u64, Seq<u8>)>)
    requires
        wf_url_cat(es),
        es.len() > 0,
    ensures
        url_cat_encodes(
            enc_url_catalog(es).take(enc_url_catalog(es).len() - 1),
            es.drop_last(),
            enc_url_cat_entry(es.last()).drop_last(),
        ),
{
    lemma_auto_spec_u16_to_from_le_bytes();
    lemma_auto_spec_u64_to_from_le_bytes();
    let whole = enc_url_catalog(es);
    let last_enc = enc_url_cat_entry(es.last());
    let cut = last_enc.drop_last();
    assert(whole =~= enc_url_catalog(es.drop_last()) + last_enc);
    assert(last_enc.len() == 18 + es.last().2.len());
    assert(whole.take(whole.len() - 1) =~= enc_url_catalog(es.drop_last()) + cut);
    assert(wf_url_cat(es.drop_last())) by {
        assert(forall|i: int|
            0 <= i < es.drop_last().len() ==> #[trigger] es.drop_last()[i] == es[i]);
    }
    if cut.len() >= 18 {
        assert(cut.subrange(16, 18) =~= spec_u16_to_le_bytes(es.last().2.len() as u16));
        assert(cut.len() == 17 + es.last().2.len());
    }
}

/// Encodes one URL-catalog record, as appended after writing a shard.
pub fn append_url_catalog(first_index: u64, num_entries: u64, path: &String) -> (r: Vec<u8>)
    requires
        path@.len() <= 65535,
        encode_utf8(path@).len() <= 65535,
    ensures
        r@ == enc_url_cat_entry((first_index, num_entries, encode_utf8(path@))),
{
    let mut out: Vec<u8> = Vec::new();
    push_u64(&mut out, first_index);
    push_u64(&mut out, num_entries);
    let path_bytes = path.as_str().as_bytes_vec();
    push_u16(&mut out, path_bytes.len() as u16);
    push_all(&mut out, &path_bytes);
    proof {
        assert(out@ =~= enc_url_cat_entry((first_index, num_entries, encode_utf8(path@))));
    }
    out
}

/// The views of a decoded record list.
pub open spec fn url_cat_views(es: Seq<UrlCatEntry>) -> Seq<(u64, u64, Seq<u8>)> {
    es.map_values(|e: UrlCatEntry| url_cat_view(e))
}

/// The records of `es` from position `i` on.
pub open spec fn url_cat_suffix(es: Seq<(u64, u64, Seq<u8>)>, i: int) -> Seq<(u64, u64, Seq<u8>)> {
    es.skip(i)
}

/// Decodes a URL-catalog file.  A partial trailing record is dropped;
/// a path that is not UTF-8 is a fatal error.
#[verifier::loop_isolation(false)]
#[verifier::rlimit(60)]
pub fn load_url_catalog(bytes: &Vec<u8>) -> (r: Result<Vec<UrlCatEntry>, crate::errors::StrError>)
    ensures
        r matches Ok(es) ==> url_cat_encodes(
            bytes@,
            url_cat_views(es@),
            bytes@.skip(enc_url_catalog(url_cat_views(es@)).len() as int),
        ),
        forall|m: Seq<(u64, u64, Seq<u8>)>, tail: Seq<u8>|
            url_cat_encodes(bytes@, m, tail) ==> r is Ok,
{
    let ghost picked: (Seq<(u64, u64, Seq<u8>)>, Seq<u8>) = choose|p: (
        Seq<(u64, u64, Seq<u8>)>,
        Seq<u8>,
    )| url_cat_encodes(bytes@, p.0, p.1);
    let ghost gm = picked.0;
    let ghost gt = picked.1;
    let ghost hyp = url_cat_encodes(bytes@, gm, gt);
    proof {
        assert forall|m: Seq<(u64, u64, Seq<u8>)>, tail: Seq<u8>|
            url_cat_encodes(bytes@, m, tail) implies hyp by {
            let p = (m, tail);
            assert(url_cat_encodes(bytes@, p.0, p.1));
        }
        lemma_auto_spec_u16_to_from_le_bytes();
        lemma_auto_spec_u64_to_from_le_bytes();
        if hyp {
            assert(gm.take(0) =~= Seq::<(u64, u64, Seq<u8>)>::empty());
            assert(gm.skip(0) =~= gm);
        }
    }
    let total = bytes.len();
    let s = bytes.as_slice();
    let mut out: Vec<UrlCatEntry> = Vec::new();
    let mut pos: usize = 0;
    let ghost mut gi: int = 0;
    let mut done = false;
    proof {
        assert(enc_url_catalog(out@.map_values(|e: UrlCatEntry| url_cat_view(e))) =~=
            bytes@.subrange(0, 0));
    }
    while !done
        invariant
            0 <= pos <= total,
            enc_url_catalog(out@.map_values(|e: UrlCatEntry| url_cat_view(e))) == bytes@.subrange(
                0,
                pos as int,
            ),
            forall|t: int|
                0 <= t < out@.len() ==> encode_utf8((#[trigger] out@[t]).path@).len() <= 65535,
            done ==> url_cat_incomplete(bytes@.subrange(pos as int, total as int)),
            hyp ==> gi == out@.len() && 0 <= gi <= gm.len() && out@.map_values(
                |e: UrlCatEntry| url_cat_view(e),
            ) == gm.take(gi) && bytes@.subrange(pos as int, total as int) == enc_url_catalog(
                gm.skip(gi),
            ) + gt,
            hyp && done ==> gi == gm.len(),
        decreases (total - pos) + (if done {
            0int
        } else {
            1int
        }),
    {
        let ghost rem = bytes@.subrange(pos as int, total as int);
        proof {
            if hyp && gi < gm.len() {
                assert(forall|i: int|
                    0 <= i < gm.skip(gi).len() ==> #[trigger] gm.skip(gi)[i] == gm[gi + i]);
                lemma_enc_url_cat_first(gm.skip(gi));
                let e = gm[gi];
                assert(gm.skip(gi)[0] == e);
                assert(rem.subrange(0, 8) =~= spec_u64_to_le_bytes(e.0));
                assert(rem.subrange(8, 16) =~= spec_u64_to_le_bytes(e.1));
                assert(rem.subrange(16, 18) =~= spec_u16_to_le_bytes(e.2.len() as u16));
                assert(rem.subrange(18, 18 + e.2.len() as int) =~= e.2);
                assert(rem.len() >= 18 + e.2.len());
            }
        }
        if total - pos < 18 {
            proof {
                if hyp && gi < gm.len() {
                    assert(false);
                }
                if hyp && gi == gm.len() {
                    assert(gm.skip(gi) =~= Seq::<(u64, u64, Seq<u8>)>::empty());
                    assert(enc_url_catalog(gm.skip(gi)) =~= Seq::<u8>::empty());
                    assert(rem =~= gt);
                }
            }
            done = true;
        } else {
            let plen = take_u16(s, pos + 16) as usize;
            proof {
                assert(bytes@.subrange(pos + 16, pos + 18) =~= rem.subrange(16, 18));
            }
            if total - pos < 18 + plen {
                proof {
                    if hyp && gi < gm.len() {
                        assert(false);
                    }
                    if hyp && gi == gm.len() {
                        assert(gm.skip(gi) =~= Seq::<(u64, u64, Seq<u8>)>::empty());
                        assert(enc_url_catalog(gm.skip(gi)) =~= Seq::<u8>::empty());
                        assert(rem =~= gt);
                    }
                }
                done = true;
            } else {
                proof {
                    if hyp && gi == gm.len() {
                        assert(gm.skip(gi) =~= Seq::<(u64, u64, Seq<u8>)>::empty());
                        assert(enc_url_catalog(gm.skip(gi)) =~= Seq::<u8>::empty());
                        assert(rem =~= gt);
                        assert(false);
                    }
                }
                let ghost pm0 = out@.map_values(|e: UrlCatEntry| url_cat_view(e));
                let first_index = take_u64(s, pos);
                let num_entries = take_u64(s, pos + 8);
                let path_bytes = take_bytes(s, pos + 18, plen);
                let ghost new_view = (first_index, num_entries, path_bytes@);
                proof {
                    assert(bytes@.subrange(pos as int, pos + 8) =~= rem.subrange(0, 8));
                    assert(bytes@.subrange(pos + 8, pos + 16) =~= rem.subrange(8, 16));
                    assert(path_bytes@ =~= rem.subrange(18, 18 + plen as int));
                    lemma_enc_url_cat_push(pm0, new_view);
                    assert(enc_url_cat_entry(new_view) =~= bytes@.subrange(
                        pos as int,
                        pos + 18 + plen,
                    ));
                    assert(enc_url_catalog(pm0.push(new_view)) =~= bytes@.subrange(
                        0,
                        pos + 18 + plen,
                    ));
                    if hyp {
                        assert(new_view == gm[gi]);
                    }
                }
                let path = match string_from_utf8(path_bytes) {
                    Some(p) => p,
                    None => {
                        proof {
                            if hyp {
                                assert(valid_utf8(gm[gi].2));
                                assert(false);
                            }
                        }
                        return Err(crate::errors::StrError::new("malformed catalog"));
                    },
                };
                let entry = UrlCatEntry { first_index, num_entries, path };
                proof {
                    assert(url_cat_view(entry) == new_view);
                    let pm1 = out@.push(entry).map_values(|e: UrlCatEntry| url_cat_view(e));
                    assert(pm1 =~= pm0.push(new_view));
                    if hyp {
                        assert(pm0.push(new_view) =~= gm.take(gi + 1));
                        assert(gm.skip(gi).drop_first() =~= gm.skip(gi + 1));
                        assert(enc_url_catalog(gm.skip(gi)) == enc_url_cat_entry(gm[gi])
                            + enc_url_catalog(gm.skip(gi + 1)));
                        assert(enc_url_cat_entry(gm[gi]).len() == 18 + plen);
                        assert(bytes@.subrange(pos + 18 + plen, total as int) =~= rem.subrange(
                            18 + plen as int,
                            rem.len() as int,
                        ));
                        assert(rem.subrange(18 + plen as int, rem.len() as int) =~=
                            enc_url_catalog(gm.skip(gi + 1)) + gt);
                        assert(bytes@.subrange(pos + 18 + plen, total as int) == enc_url_catalog(
                            gm.skip(gi + 1),
                        ) + gt);
                    }
                }
                out.push(entry);
                proof {
                    if hyp {
                        gi = gi + 1;
                    }
                }
                pos = pos + 18 + plen;
            }
        }
    }
    proof {
        let ghost tail_w = bytes@.subrange(pos as int, total as int);
        assert(wf_url_cat(url_cat_views(out@))) by {
            assert forall|t: int| 0 <= t < url_cat_views(out@).len() implies (#[trigger]
            url_cat_views(out@)[t]).2.len() <= 65535 && valid_utf8(url_cat_views(out@)[t].2) by {
                assert(url_cat_views(out@)[t].2 == encode_utf8(out@[t].path@));
                vstd::utf8::encode_utf8_valid_utf8(out@[t].path@);
            }
        }
        assert(bytes@ =~= enc_url_catalog(url_cat_views(out@)) + tail_w);
        assert(enc_url_catalog(url_cat_views(out@)).len() == pos);
        assert(tail_w =~= bytes@.skip(pos as int));
        assert(url_cat_encodes(
            bytes@,
            url_cat_views(out@),
            bytes@.skip(enc_url_catalog(url_cat_views(out@)).len() as int),
        ));
    }
    Ok(out)
}


/// One indexed-catalog record: a shard of postings for `tag`, holding
/// `num_entries` postings, stored in the file named by `path`.
pub struct IndexCatEntry {
    pub tag: String,
    pub num_entries: u64,
    pub path: String,
}

/// The mathematical view of an indexed-catalog record.
pub open spec fn idx_cat_view(e: IndexCatEntry) -> (Seq<u8>, u64, Seq<u8>) {
    (encode_utf8(e.tag@), e.num_entries, encode_utf8(e.path@))
}

pub open spec fn idx_cat_views(es: Seq<IndexCatEntry>) -> Seq<(Seq<u8>, u64, Seq<u8>)> {
    es.map_values(|e: IndexCatEntry| idx_cat_view(e))
}

pub open spec fn enc_idx_cat_entry(e: (Seq<u8>, u64, Seq<u8>)) -> Seq<u8> {
    seq![e.0.len() as u8] + e.0 + spec_u64_to_le_bytes(e.1) + spec_u16_to_le_bytes(
        e.2.len() as u16,
    ) + e.2
}

pub open spec fn enc_idx_catalog(es: Seq<(Seq<u8>, u64, Seq<u8>)>) -> Seq<u8>
    decreases es.len(),
{
    if es.len() == 0 {
        Seq::empty()
    } else {
        enc_idx_catalog(es.drop_last()) + enc_idx_cat_entry(es.last())
    }
}

pub open spec fn wf_idx_cat(es: Seq<(Seq<u8>, u64, Seq<u8>)>) -> bool {
    forall|i: int|
        0 <= i < es.len() ==> (#[trigger] es[i]).0.len() <= 255 && valid_utf8(es[i].0)
            && es[i].2.len() <= 65535 && valid_utf8(es[i].2)
}

/// A byte sequence too short to hold the record its own length fields
/// promise.
pub open spec fn idx_cat_incomplete(b: Seq<u8>) -> bool {
    if b.len() < 1 {
        true
    } else {
        let tl = b[0] as int;
        if b.len() < 11 + tl {
            true
        } else {
            b.len() < 11 + tl + spec_u16_from_le_bytes(b.subrange(9 + tl, 11 + tl))
        }
    }
}

pub open spec fn idx_cat_encodes(bytes: Seq<u8>, es: Seq<(Seq<u8>, u64, Seq<u8>)>, tail: Seq<u8>)
    -> bool {
    wf_idx_cat(es) && bytes == enc_idx_catalog(es) + tail && idx_cat_incomplete(tail)
}

pub proof fn lemma_enc_idx_cat_push(es: Seq<(Seq<u8>, u64, Seq<u8>)>, e: (Seq<u8>, u64, Seq<u8>))
    ensures
        enc_idx_catalog(es.push(e)) == enc_idx_catalog(es) + enc_idx_cat_entry(e),
{
    assert(es.push(e).drop_last() =~= es);
}

/// Front decomposition.
pub proof fn lemma_enc_idx_cat_first(es: Seq<(Seq<u8>, u64, Seq<u8>)>)
    requires
        es.len() > 0,
    ensures
        enc_idx_catalog(es) == enc_idx_cat_entry(es[0]) + enc_idx_catalog(es.drop_first()),
    decreases es.len(),
{
    if es.len() == 1 {
        assert(es.drop_last() =~= Seq::<(Seq<u8>, u64, Seq<u8>)>::empty());
        assert(es.drop_first() =~= Seq::<(Seq<u8>, u64, Seq<u8>)>::empty());
        assert(enc_idx_catalog(es) =~= enc_idx_cat_entry(es[0]) + enc_idx_catalog(
            es.drop_first(),
        ));
    } else {
        lemma_enc_idx_cat_first(es.drop_last());
        assert(es.drop_last()[0] == es[0]);
        assert(es.drop_last().drop_first() =~= es.drop_first().drop_last());
        assert(es.drop_first().last() == es.last());
        assert(enc_idx_catalog(es) =~= enc_idx_cat_entry(es[0]) + enc_idx_catalog(
            es.drop_first(),
        ));
    }
}

/// A catalog byte stream determines its records and its partial tail.
#[verifier::rlimit(100)]
#[verifier::spinoff_prover]
pub proof fn lemma_idx_cat_unique(
    bytes: Seq<u8>,
    es1: Seq<(Seq<u8>, u64, Seq<u8>)>,
    t1: Seq<u8>,
    es2: Seq<(Seq<u8>, u64, Seq<u8>)>,
    t2: Seq<u8>,
)
    requires
        idx_cat_encodes(bytes, es1, t1),
        idx_cat_encodes(bytes, es2, t2),
    ensures
        es1 == es2,
        t1 == t2,
    decreases es1.len(),
{
    lemma_auto_spec_u16_to_from_le_bytes();
    lemma_auto_spec_u64_to_from_le_bytes();
    if es1.len() == 0 && es2.len() == 0 {
        assert(enc_idx_catalog(es1) =~= Seq::<u8>::empty());
        assert(enc_idx_catalog(es2) =~= Seq::<u8>::empty());
        assert(t1 =~= bytes);
        assert(t2 =~= bytes);
        assert(es1 =~= es2);
    } else if es1.len() == 0 || es2.len() == 0 {
        let (full, tail) = if es1.len() == 0 {
            (es2, t1)
        } else {
            (es1, t2)
        };
        lemma_enc_idx_cat_first(full);
        let e = full[0];
        let tl = e.0.len() as int;
        assert(tail =~= bytes);
        assert(bytes[0] == e.0.len() as u8);
        assert(bytes.subrange(9 + tl, 11 + tl) =~= spec_u16_to_le_bytes(e.2.len() as u16));
        assert(bytes.len() >= 11 + tl + e.2.len());
        assert(false);
    } else {
        lemma_enc_idx_cat_first(es1);
        lemma_enc_idx_cat_first(es2);
        let a = es1[0];
        let b = es2[0];
        assert(bytes[0] == a.0.len() as u8);
        assert(bytes[0] == b.0.len() as u8);
        assert(a.0.len() == b.0.len());
        let tl = a.0.len() as int;
        assert(a.0 =~= bytes.subrange(1, 1 + tl));
        assert(b.0 =~= bytes.subrange(1, 1 + tl));
        assert(bytes.subrange(1 + tl, 9 + tl) =~= spec_u64_to_le_bytes(a.1));
        assert(bytes.subrange(1 + tl, 9 + tl) =~= spec_u64_to_le_bytes(b.1));
        assert(bytes.subrange(9 + tl, 11 + tl) =~= spec_u16_to_le_bytes(a.2.len() as u16));
        assert(bytes.subrange(9 + tl, 11 + tl) =~= spec_u16_to_le_bytes(b.2.len() as u16));
        assert(a.2.len() == b.2.len());
        let pl = a.2.len() as int;
        assert(a.2 =~= bytes.subrange(11 + tl, 11 + tl + pl));
        assert(b.2 =~= bytes.subrange(11 + tl, 11 + tl + pl));
        assert(a == b);
        let rest = bytes.subrange(11 + tl + pl, bytes.len() as int);
        assert(enc_idx_catalog(es1.drop_first()) + t1 =~= rest);
        assert(enc_idx_catalog(es2.drop_first()) + t2 =~= rest);
        assert(forall|i: int|
            0 <= i < es1.drop_first().len() ==> #[trigger] es1.drop_first()[i] == es1[i + 1]);
        assert(forall|i: int|
            0 <= i < es2.drop_first().len() ==> #[trigger] es2.drop_first()[i] == es2[i + 1]);
        lemma_idx_cat_unique(rest, es1.drop_first(), t1, es2.drop_first(), t2);
        assert forall|i: int| 0 <= i < es1.len() implies es1[i] == es2[i] by {
            if i > 0 {
                assert(es1.drop_first()[i - 1] == es2.drop_first()[i - 1]);
            }
        }
        assert(es1 =~= es2);
    }
}


/// The byte-level anatomy of the first record of a catalog stream.
proof fn lemma_idx_entry_fields(rem: Seq<u8>, es: Seq<(Seq<u8>, u64, Seq<u8>)>, gt: Seq<u8>)
    requires
        es.len() > 0,
        wf_idx_cat(es),
        rem == enc_idx_catalog(es) + gt,
    ensures
        ({
            let e = es[0];
            let tl = e.0.len() as int;
            let pl = e.2.len() as int;
            &&& rem.len() >= 11 + tl + pl
            &&& rem[0] == e.0.len() as u8
            &&& rem.subrange(1, 1 + tl) == e.0
            &&& rem.subrange(1 + tl, 9 + tl) == spec_u64_to_le_bytes(e.1)
            &&& rem.subrange(9 + tl, 11 + tl) == spec_u16_to_le_bytes(e.2.len() as u16)
            &&& rem.subrange(11 + tl, 11 + tl + pl) == e.2
            &&& enc_idx_cat_entry(e).len() == 11 + tl + pl
            &&& rem.subrange(11 + tl + pl, rem.len() as int) == enc_idx_catalog(es.drop_first())
                + gt
        }),
{
    lemma_auto_spec_u16_to_from_le_bytes();
    lemma_auto_spec_u64_to_from_le_bytes();
    lemma_enc_idx_cat_first(es);
    let e = es[0];
    let tl = e.0.len() as int;
    let pl = e.2.len() as int;
    assert(rem[0] == e.0.len() as u8);
    assert(rem.subrange(1, 1 + tl) =~= e.0);
    assert(rem.subrange(1 + tl, 9 + tl) =~= spec_u64_to_le_bytes(e.1));
    assert(rem.subrange(9 + tl, 11 + tl) =~= spec_u16_to_le_bytes(e.2.len() as u16));
    assert(rem.subrange(11 + tl, 11 + tl + pl) =~= e.2);
    assert(rem.subrange(11 + tl + pl, rem.len() as int) =~= enc_idx_catalog(es.drop_first()) + gt);
}

/// Truncating the indexed catalog by one byte drops exactly its last
/// record and nothing else: reloading after a crash during an append
/// yields every fully written record.
pub proof fn lemma_idx_cat_truncation(es: Seq<(Seq<u8>, u64, Seq<u8>)>)
    requires
        wf_idx_cat(es),
        es.len() > 0,
    ensures
        idx_cat_encodes(
            enc_idx_catalog(es).take(enc_idx_catalog(es).len() - 1),
            es.drop_last(),
            enc_idx_cat_entry(es.last()).drop_last(),
        ),
{
    lemma_auto_spec_u16_to_from_le_bytes();
    lemma_auto_spec_u64_to_from_le_bytes();
    let whole = enc_idx_catalog(es);
    let e = es.last();
    let tl = e.0.len() as int;
    let pl = e.2.len() as int;
    let last_enc = enc_idx_cat_entry(e);
    let cut = last_enc.drop_last();
    assert(whole =~= enc_idx_catalog(es.drop_last()) + last_enc);
    assert(last_enc.len() == 11 + tl + pl);
    assert(whole.take(whole.len() - 1) =~= enc_idx_catalog(es.drop_last()) + cut);
    assert(wf_idx_cat(es.drop_last())) by {
        assert(forall|i: int|
            0 <= i < es.drop_last().len() ==> #[trigger] es.drop_last()[i] == es[i]);
    }
    assert(cut.len() == 10 + tl + pl);
    if pl > 0 {
        assert(cut[0] == e.0.len() as u8);
        assert(cut.subrange(9 + tl, 11 + tl) =~= spec_u16_to_le_bytes(e.2.len() as u16));
    } else {
        assert(cut[0] == e.0.len() as u8);
        assert(cut.len() < 11 + tl);
    }
}

/// Encodes one indexed-catalog record, as appended after writing a
/// shard.
pub fn append_index_catalog(tag: &String, num_entries: u64, path: &String) -> (r: Vec<u8>)
    requires
        encode_utf8(tag@).len() <= 255,
        encode_utf8(path@).len() <= 65535,
    ensures
        r@ == enc_idx_cat_entry((encode_utf8(tag@), num_entries, encode_utf8(path@))),
{
    let mut out: Vec<u8> = Vec::new();
    let tag_bytes = tag.as_str().as_bytes_vec();
    push_u8(&mut out, tag_bytes.len() as u8);
    push_all(&mut out, &tag_bytes);
    push_u64(&mut out, num_entries);
    let path_bytes = path.as_str().as_bytes_vec();
    push_u16(&mut out, path_bytes.len() as u16);
    push_all(&mut out, &path_bytes);
    proof {
        assert(out@ =~= enc_idx_cat_entry((encode_utf8(tag@), num_entries, encode_utf8(path@))));
    }
    out
}

/// Decodes an indexed-catalog file.  A partial trailing record is
/// dropped; a tag or path that is not UTF-8 is a fatal error.
#[verifier::loop_isolation(false)]
#[verifier::rlimit(100)]
pub fn load_index_catalog(bytes: &Vec<u8>) -> (r: Result<
    Vec<IndexCatEntry>,
    crate::errors::StrError,
>)
    ensures
        r matches Ok(es) ==> idx_cat_encodes(
            bytes@,
            idx_cat_views(es@),
            bytes@.skip(enc_idx_catalog(idx_cat_views(es@)).len() as int),
        ),
        forall|m: Seq<(Seq<u8>, u64, Seq<u8>)>, tail: Seq<u8>|
            idx_cat_encodes(bytes@, m, tail) ==> r is Ok,
{
    let ghost picked: (Seq<(Seq<u8>, u64, Seq<u8>)>, Seq<u8>) = choose|p: (
        Seq<(Seq<u8>, u64, Seq<u8>)>,
        Seq<u8>,
    )| idx_cat_encodes(bytes@, p.0, p.1);
    let ghost gm = picked.0;
    let ghost gt = picked.1;
    let ghost hyp = idx_cat_encodes(bytes@, gm, gt);
    proof {
        assert forall|m: Seq<(Seq<u8>, u64, Seq<u8>)>, tail: Seq<u8>|
            idx_cat_encodes(bytes@, m, tail) implies hyp by {
            let p = (m, tail);
            assert(idx_cat_encodes(bytes@, p.0, p.1));
        }
        lemma_auto_spec_u16_to_from_le_bytes();
        lemma_auto_spec_u64_to_from_le_bytes();
        if hyp {
            assert(gm.take(0) =~= Seq::<(Seq<u8>, u64, Seq<u8>)>::empty());
            assert(gm.skip(0) =~= gm);
        }
    }
    let total = bytes.len();
    let s = bytes.as_slice();
    let mut out: Vec<IndexCatEntry> = Vec::new();
    let mut pos: usize = 0;
    let ghost mut gi: int = 0;
    let mut done = false;
    proof {
        assert(enc_idx_catalog(idx_cat_views(out@)) =~= bytes@.subrange(0, 0));
    }
    while !done
        invariant
            0 <= pos <= total,
            enc_idx_catalog(idx_cat_views(out@)) == bytes@.subrange(0, pos as int),
            forall|t: int|
                0 <= t < out@.len() ==> encode_utf8((#[trigger] out@[t]).path@).len() <= 65535
                    && encode_utf8(out@[t].tag@).len() <= 255,
            done ==> idx_cat_incomplete(bytes@.subrange(pos as int, total as int)),
            hyp ==> gi == out@.len() && 0 <= gi <= gm.len() && idx_cat_views(out@) == gm.take(gi)
                && bytes@.subrange(pos as int, total as int) == enc_idx_catalog(gm.skip(gi)) + gt,
            hyp && done ==> gi == gm.len(),
        decreases (total - pos) + (if done {
            0int
        } else {
            1int
        }),
    {
        let ghost rem = bytes@.subrange(pos as int, total as int);
        proof {
            if hyp && gi < gm.len() {
                assert(forall|i: int|
                    0 <= i < gm.skip(gi).len() ==> #[trigger] gm.skip(gi)[i] == gm[gi + i]);
                assert(wf_idx_cat(gm.skip(gi)));
                lemma_idx_entry_fields(rem, gm.skip(gi), gt);
                assert(gm.skip(gi)[0] == gm[gi]);
            }
            if hyp && gi == gm.len() {
                assert(gm.skip(gi) =~= Seq::<(Seq<u8>, u64, Seq<u8>)>::empty());
                assert(enc_idx_catalog(gm.skip(gi)) =~= Seq::<u8>::empty());
                assert(rem =~= gt);
            }
        }
        if total - pos < 1 {
            proof {
                if hyp && gi < gm.len() {
                    assert(false);
                }
            }
            done = true;
        } else {
            let tl = take_u8(s, pos) as usize;
            proof {
                assert(bytes@[pos as int] == rem[0]);
            }
            if total - pos < 11 + tl {
                proof {
                    if hyp && gi < gm.len() {
                        assert(false);
                    }
                }
                done = true;
            } else {
                let plen = take_u16(s, pos + 9 + tl) as usize;
                proof {
                    assert(bytes@.subrange(pos + 9 + tl, pos + 11 + tl) =~= rem.subrange(
                        9 + tl as int,
                        11 + tl as int,
                    ));
                }
                if total - pos < 11 + tl + plen {
                    proof {
                        if hyp && gi < gm.len() {
                            assert(false);
                        }
                    }
                    done = true;
                } else {
                    proof {
                        if hyp && gi == gm.len() {
                            assert(false);
                        }
                    }
                    let ghost pm0 = idx_cat_views(out@);
                    let tag_bytes = take_bytes(s, pos + 1, tl);
                    let num_entries = take_u64(s, pos + 1 + tl);
                    let path_bytes = take_bytes(s, pos + 11 + tl, plen);
                    let ghost new_view = (tag_bytes@, num_entries, path_bytes@);
                    proof {
                        assert(tag_bytes@ =~= rem.subrange(1, 1 + tl as int));
                        assert(bytes@.subrange(pos + 1 + tl, pos + 9 + tl) =~= rem.subrange(
                            1 + tl as int,
                            9 + tl as int,
                        ));
                        assert(path_bytes@ =~= rem.subrange(11 + tl as int, 11 + tl + plen as int));
                        lemma_enc_idx_cat_push(pm0, new_view);
                        assert(enc_idx_cat_entry(new_view) =~= bytes@.subrange(
                            pos as int,
                            pos + 11 + tl + plen,
                        ));
                        assert(enc_idx_catalog(pm0.push(new_view)) =~= bytes@.subrange(
                            0,
                            pos + 11 + tl + plen,
                        ));
                        if hyp {
                            assert(new_view == gm[gi]);
                        }
                    }
                    let tag = match string_from_utf8(tag_bytes) {
                        Some(p) => p,
                        None => {
                            proof {
                                if hyp {
                                    assert(valid_utf8(gm[gi].0));
                                    assert(false);
                                }
                            }
                            return Err(crate::errors::StrError::new("malformed catalog"));
                        },
                    };
                    let path = match string_from_utf8(path_bytes) {
                        Some(p) => p,
                        None => {
                            proof {
                                if hyp {
                                    assert(valid_utf8(gm[gi].2));
                                    assert(false);
                                }
                            }
                            return Err(crate::errors::StrError::new("malformed catalog"));
                        },
                    };
                    let entry = IndexCatEntry { tag, num_entries, path };
                    proof {
                        assert(idx_cat_view(entry) == new_view);
                        let pm1 = out@.push(entry).map_values(|e: IndexCatEntry| idx_cat_view(e));
                        assert(pm1 =~= pm0.push(new_view));
                        if hyp {
                            assert(pm0.push(new_view) =~= gm.take(gi + 1));
                            assert(gm.skip(gi).drop_first() =~= gm.skip(gi + 1));
                            assert(bytes@.subrange(pos + 11 + tl + plen, total as int) =~=
                                rem.subrange(11 + tl + plen as int, rem.len() as int));
                            assert(bytes@.subrange(pos + 11 + tl + plen, total as int)
                                == enc_idx_catalog(gm.skip(gi + 1)) + gt);
                        }
                    }
                    out.push(entry);
                    proof {
                        if hyp {
                            gi = gi + 1;
                        }
                    }
                    pos = pos + 11 + tl + plen;
                }
            }
        }
    }
    proof {
        let ghost tail_w = bytes@.subrange(pos as int, total as int);
        assert(wf_idx_cat(idx_cat_views(out@))) by {
            assert forall|t: int| 0 <= t < idx_cat_views(out@).len() implies (#[trigger]
            idx_cat_views(out@)[t]).0.len() <= 255 && valid_utf8(idx_cat_views(out@)[t].0)
                && idx_cat_views(out@)[t].2.len() <= 65535 && valid_utf8(
                idx_cat_views(out@)[t].2,
            ) by {
                assert(idx_cat_views(out@)[t].0 == encode_utf8(out@[t].tag@));
                assert(idx_cat_views(out@)[t].2 == encode_utf8(out@[t].path@));
                vstd::utf8::encode_utf8_valid_utf8(out@[t].tag@);
                vstd::utf8::encode_utf8_valid_utf8(out@[t].path@);
            }
        }
        assert(bytes@ =~= enc_idx_catalog(idx_cat_views(out@)) + tail_w);
        assert(enc_idx_catalog(idx_cat_views(out@)).len() == pos);
        assert(tail_w =~= bytes@.skip(pos as int));
        assert(idx_cat_encodes(
            bytes@,
            idx_cat_views(out@),
            bytes@.skip(enc_idx_catalog(idx_cat_views(out@)).len() as int),
        ));
    }
    Ok(out)
}


/// The four bytes of the `_tmp` marker.
pub open spec fn tmp_marker() -> Seq<u8> {
    encode_utf8("_tmp"@)
}

/// The name with every `_tmp` occurrence removed.
pub open spec fn spec_remove_tmp(b: Seq<u8>) -> Seq<u8>
    decreases b.len(),
{
    if b.len() < 4 {
        b
    } else if b.take(4) == tmp_marker() {
        spec_remove_tmp(b.skip(4))
    } else {
        seq![b[0]] + spec_remove_tmp(b.drop_first())
    }
}

/// Whether the bytes hold a `_tmp` marker anywhere.
pub open spec fn spec_contains_tmp(b: Seq<u8>) -> bool {
    exists|k: int| 0 <= k <= b.len() - 4 && #[trigger] b.subrange(k, k + 4) == tmp_marker()
}

/// Scans for a `_tmp` marker.
#[verifier::loop_isolation(false)]
pub fn contains_tmp_marker(b: &Vec<u8>) -> (r: bool)
    ensures
        r == spec_contains_tmp(b@),
{
    let n = b.len();
    if n < 4 {
        proof {
            assert(!spec_contains_tmp(b@));
        }
        return false;
    }
    let marker = ("_tmp").as_bytes_vec();
    let mut k: usize = 0;
    while k <= n - 4
        invariant
            0 <= k <= n - 4 + 1,
            n == b@.len(),
            n >= 4,
            marker@ == tmp_marker(),
            forall|t: int| 0 <= t < k ==> #[trigger] b@.subrange(t, t + 4) != tmp_marker(),
        decreases n - k,
    {
        let window = crate::codec::take_bytes(b.as_slice(), k, 4);
        if crate::order::bytes_eq(&window, &marker) {
            proof {
                assert(b@.subrange(k as int, k + 4) == tmp_marker());
            }
            return true;
        }
        k = k + 1;
    }
    proof {
        assert(!spec_contains_tmp(b@)) by {
            if spec_contains_tmp(b@) {
                let t = choose|t: int|
                    0 <= t <= b@.len() - 4 && #[trigger] b@.subrange(t, t + 4) == tmp_marker();
                assert(b@.subrange(t, t + 4) != tmp_marker());
            }
        }
    }
    false
}

/// Removes every `_tmp` occurrence, scanning from position `pos`.
#[verifier::loop_isolation(false)]
fn remove_tmp_from(bytes: &Vec<u8>, pos: usize) -> (r: Vec<u8>)
    requires
        pos <= bytes@.len(),
    ensures
        r@ == spec_remove_tmp(bytes@.skip(pos as int)),
    decreases bytes@.len() - pos,
{
    let ghost sub = bytes@.skip(pos as int);
    let total = bytes.len();
    if total - pos < 4 {
        let r = crate::codec::take_bytes(bytes.as_slice(), pos, total - pos);
        proof {
            assert(r@ =~= sub);
        }
        return r;
    }
    let marker = ("_tmp").as_bytes_vec();
    let head = crate::codec::take_bytes(bytes.as_slice(), pos, 4);
    proof {
        assert(head@ =~= sub.take(4));
    }
    if crate::order::bytes_eq(&head, &marker) {
        let r = remove_tmp_from(bytes, pos + 4);
        proof {
            assert(bytes@.skip(pos + 4) =~= sub.skip(4));
        }
        r
    } else {
        let mut r: Vec<u8> = Vec::new();
        r.push(bytes[pos]);
        let mut rest = remove_tmp_from(bytes, pos + 1);
        proof {
            assert(bytes@.skip(pos + 1) =~= sub.drop_first());
        }
        r.append(&mut rest);
        proof {
            assert(r@ =~= seq![sub[0]] + spec_remove_tmp(sub.drop_first()));
        }
        r
    }
}

pub open spec fn is_ascii_digit_byte(c: u8) -> bool {
    48 <= c <= 57
}

/// The number of leading non-digit bytes.
pub open spec fn until_digit(b: Seq<u8>) -> int
    decreases b.len(),
{
    if b.len() == 0 {
        0
    } else if is_ascii_digit_byte(b[0]) {
        0
    } else {
        1 + until_digit(b.drop_first())
    }
}

proof fn lemma_until_digit(b: Seq<u8>)
    ensures
        0 <= until_digit(b) <= b.len(),
        forall|t: int| 0 <= t < until_digit(b) ==> !is_ascii_digit_byte(#[trigger] b[t]),
        until_digit(b) < b.len() ==> is_ascii_digit_byte(b[until_digit(b)]),
    decreases b.len(),
{
    if b.len() > 0 && !is_ascii_digit_byte(b[0]) {
        lemma_until_digit(b.drop_first());
        assert forall|t: int| 0 <= t < until_digit(b) implies !is_ascii_digit_byte(
            #[trigger] b[t],
        ) by {
            if t > 0 {
                assert(b[t] == b.drop_first()[t - 1]);
            }
        }
        if until_digit(b) < b.len() {
            assert(b[until_digit(b)] == b.drop_first()[until_digit(b.drop_first())]);
        }
    }
}

/// The tag embedded in a promoted shard file name: the bytes after
/// `indexed_` up to the first digit, less a trailing underscore.
pub open spec fn spec_tag_of(promoted: Seq<u8>) -> Seq<u8> {
    if promoted.len() < 8 {
        Seq::empty()
    } else {
        let after = promoted.skip(8);
        let raw = after.take(until_digit(after));
        if raw.len() > 0 && raw.last() == 95 {
            raw.drop_last()
        } else {
            raw
        }
    }
}

/// Whether a file name is an indexed shard's: `indexed_` before,
/// `.xraystore` behind.
pub open spec fn spec_is_shard_name(b: Seq<u8>) -> bool {
    b.len() >= 18 && b.take(8) == encode_utf8("indexed_"@) && b.skip(b.len() - 10) == encode_utf8(
        ".xraystore"@,
    )
}

/// Decides what the rebuild pass does with one file name: for an
/// indexed shard name, the promoted name (with `_tmp` removed) and its
/// tag; for anything else, nothing.  A name whose promoted form or tag
/// is not UTF-8 is also passed over.
#[verifier::loop_isolation(false)]
#[verifier::rlimit(60)]
pub fn rebuild_entry_for(file_name: &String) -> (r: Option<(String, String)>)
    ensures
        r matches Some(v) ==> spec_is_shard_name(encode_utf8(file_name@)) && encode_utf8(v.0@)
            == spec_remove_tmp(encode_utf8(file_name@)) && encode_utf8(v.1@) == spec_tag_of(
            spec_remove_tmp(encode_utf8(file_name@)),
        ),
        r is None ==> !spec_is_shard_name(encode_utf8(file_name@)) || !valid_utf8(
            spec_remove_tmp(encode_utf8(file_name@)),
        ) || !valid_utf8(spec_tag_of(spec_remove_tmp(encode_utf8(file_name@))))
            || spec_remove_tmp(encode_utf8(file_name@)).len() < 8,
{
    let nb = file_name.as_str().as_bytes_vec();
    let n = nb.len();
    if n < 18 {
        return None;
    }
    let prefix = ("indexed_").as_bytes_vec();
    let suffix = (".xraystore").as_bytes_vec();
    let head = crate::codec::take_bytes(nb.as_slice(), 0, 8);
    let tail = crate::codec::take_bytes(nb.as_slice(), n - 10, 10);
    proof {
        assert(head@ =~= nb@.take(8));
        assert(tail@ =~= nb@.skip(n - 10));
    }
    if !crate::order::bytes_eq(&head, &prefix) || !crate::order::bytes_eq(&tail, &suffix) {
        return None;
    }
    let promoted_bytes = remove_tmp_from(&nb, 0);
    proof {
        assert(nb@.skip(0) =~= nb@);
    }
    let promoted = match string_from_utf8(promoted_bytes.clone()) {
        Some(p) => p,
        None => {
            return None;
        },
    };
    proof {
        vstd::utf8::encode_utf8_valid_utf8(promoted@);
    }
    // derive the tag from the promoted name
    let pn = promoted_bytes.len();
    let ghost after = promoted_bytes@.skip(8);
    if pn < 8 {
        return None;
    }
    proof {
        lemma_until_digit(after);
    }
    let mut d: usize = 8;
    while d < pn && !(promoted_bytes[d] >= 48 && promoted_bytes[d] <= 57)
        invariant
            8 <= d <= pn,
            pn == promoted_bytes@.len(),
            forall|t: int| 8 <= t < d ==> !is_ascii_digit_byte(#[trigger] promoted_bytes@[t]),
        decreases pn - d,
    {
        d = d + 1;
    }
    proof {
        assert(forall|t: int| 0 <= t < after.len() ==> after[t] == promoted_bytes@[8 + t]);
        assert(until_digit(after) == d - 8) by {
            if until_digit(after) < d - 8 {
                assert(!is_ascii_digit_byte(promoted_bytes@[8 + until_digit(after)]));
                assert(is_ascii_digit_byte(after[until_digit(after)]));
            } else if until_digit(after) > d - 8 {
                assert(!is_ascii_digit_byte(after[d - 8]));
                assert(d < pn && is_ascii_digit_byte(promoted_bytes@[d as int]));
            }
        }
    }
    let raw_end = if d > 8 && promoted_bytes[d - 1] == 95 {
        d - 1
    } else {
        d
    };
    let tag_bytes = crate::codec::take_bytes(promoted_bytes.as_slice(), 8, raw_end - 8);
    proof {
        let raw = after.take(until_digit(after));
        assert(raw =~= promoted_bytes@.subrange(8, d as int));
        if d > 8 && promoted_bytes@[d - 1] == 95 {
            assert(raw.len() > 0 && raw.last() == 95);
            assert(tag_bytes@ =~= raw.drop_last());
        } else {
            if raw.len() > 0 {
                assert(raw.last() == promoted_bytes@[d - 1]);
            }
            assert(tag_bytes@ =~= raw);
        }
        assert(tag_bytes@ == spec_tag_of(promoted_bytes@));
    }
    let tag = match string_from_utf8(tag_bytes) {
        Some(tg) => tg,
        None => {
            return None;
        },
    };
    proof {
        vstd::utf8::encode_utf8_valid_utf8(tag@);
    }
    Some((promoted, tag))
}


} // verus!
