//! The in-memory ingest accumulator: the per-chunk URL map and the
//! three posting maps, with the persist step that turns them into
//! shard files and catalog records.
use crate::index_shard::{postings_view, wf_postings, Posting};
use crate::order::{bytes_eq, bytes_lt, lex_lt, strictly_sorted_u64};
use vstd::prelude::*;
use vstd::utf8::encode_utf8;

verus! {

/// The set of `(word, id)` pairs an accumulator map holds: the
/// abstract content of the inverted index.
pub open spec fn pairs_of(m: Seq<(Seq<u8>, Seq<u64>)>) -> Set<(Seq<u8>, u64)> {
    Set::new(
        |p: (Seq<u8>, u64)|
            exists|k: int| 0 <= k < m.len() && (#[trigger] m[k]).0 == p.0 && m[k].1.contains(p.1),
    )
}

/// A well-formed accumulator map: keys strictly sorted and at most 255
/// bytes, id sets strictly ascending.
pub open spec fn map_wf(m: Seq<(Seq<u8>, Seq<u64>)>) -> bool {
    &&& forall|i: int| 0 <= i < m.len() ==> (#[trigger] m[i]).0.len() <= 255
    &&& forall|i: int| 0 <= i < m.len() ==> strictly_sorted_u64((#[trigger] m[i]).1)
    &&& forall|i: int, j: int| 0 <= i < j < m.len() ==> lex_lt(m[i].0, m[j].0)
    &&& forall|i: int| 0 <= i < m.len() ==> (#[trigger] m[i]).1.len() > 0
}

/// Every id in the map is below `bound`.
pub open spec fn map_ids_below(m: Seq<(Seq<u8>, Seq<u64>)>, bound: u64) -> bool {
    forall|i: int, j: int|
        0 <= i < m.len() && 0 <= j < m[i].1.len() ==> #[trigger] m[i].1[j] < bound
}

/// Inserts `id` under `key`, keeping the map sorted; a pair already
/// present is left alone.  Every id already present must be at most
/// `id`: the accumulator only ever sees ids in ascending order.
#[verifier::loop_isolation(false)]
#[verifier::rlimit(60)]
fn assoc_insert(map: &mut Vec<Posting>, key: &Vec<u8>, id: u64)
    requires
        map_wf(postings_view(old(map)@)),
        map_ids_below(postings_view(old(map)@), (id + 1) as u64),
        id < u64::MAX,
        key@.len() <= 255,
    ensures
        map_wf(postings_view(final(map)@)),
        map_ids_below(postings_view(final(map)@), (id + 1) as u64),
        pairs_of(postings_view(final(map)@)) == pairs_of(postings_view(old(map)@)).insert(
            (key@, id),
        ),
{
    let ghost m0 = postings_view(old(map)@);
    let n = map.len();
    let mut lo: usize = 0;
    // find the first entry whose word is not below `key`
    while lo < n && bytes_lt(&map[lo].0, key)
        invariant
            0 <= lo <= n,
            n == map@.len(),
            map@ == old(map)@,
            forall|t: int| 0 <= t < lo ==> lex_lt((#[trigger] m0[t]).0, key@),
        decreases n - lo,
    {
        lo = lo + 1;
    }
    if lo < n && bytes_eq(&map[lo].0, key) {
        // existing word: append the id unless it is already the last
        let last_idx = map[lo].1.len() - 1;
        let last = map[lo].1[last_idx];
        proof {
            assert(m0[lo as int].1.last() == last);
        }
        if last == id {
            proof {
                assert(pairs_of(m0).insert((key@, id)) =~= pairs_of(m0)) by {
                    assert(m0[lo as int].0 == key@ && m0[lo as int].1.contains(id));
                    assert(pairs_of(m0).contains((key@, id)));
                }
            }
            return ;
        }
        let mut entry = map.remove(lo);
        entry.1.push(id);
        proof {
            let ids0 = m0[lo as int].1;
            assert forall|a: int, b: int|
                0 <= a < b < ids0.push(id).len() implies ids0.push(id)[a] < ids0.push(
                id,
            )[b] by {
                if b < ids0.len() {
                } else {
                    assert(ids0.push(id)[b] == id);
                    assert(ids0[a] < id + 1);
                    assert(ids0[a] != id) by {
                        if ids0[a] == id {
                            if a < ids0.len() - 1 {
                                assert(ids0[a] < ids0[ids0.len() - 1]);
                            }
                        }
                    }
                }
            }
        }
        map.insert(lo, entry);
        proof {
            let m1 = postings_view(map@);
            assert(m1 =~= m0.update(lo as int, (key@, m0[lo as int].1.push(id))));
            assert(pairs_of(m1) =~= pairs_of(m0).insert((key@, id))) by {
                assert forall|p: (Seq<u8>, u64)| pairs_of(m1).contains(p) implies pairs_of(
                    m0,
                ).insert((key@, id)).contains(p) by {
                    let k = choose|k: int|
                        0 <= k < m1.len() && (#[trigger] m1[k]).0 == p.0 && m1[k].1.contains(p.1);
                    if k == lo {
                        if p.1 == id {
                        } else {
                            let j = choose|j: int|
                                0 <= j < m1[k].1.len() && (#[trigger] m1[k].1[j]) == p.1;
                            assert(m0[k].1[j] == p.1);
                            assert(m0[k].1.contains(p.1));
                            assert(pairs_of(m0).contains(p));
                        }
                    } else {
                        assert(m0[k].0 == p.0 && m0[k].1.contains(p.1));
                        assert(pairs_of(m0).contains(p));
                    }
                }
                assert forall|p: (Seq<u8>, u64)|
                    pairs_of(m0).insert((key@, id)).contains(p) implies pairs_of(m1).contains(
                    p,
                ) by {
                    if p == (key@, id) {
                        assert(m1[lo as int].0 == p.0);
                        assert(m1[lo as int].1.last() == id);
                        assert(m1[lo as int].1.contains(p.1));
                    } else {
                        let k = choose|k: int|
                            0 <= k < m0.len() && (#[trigger] m0[k]).0 == p.0 && m0[k].1.contains(
                                p.1,
                            );
                        if k == lo {
                            let j = choose|j: int|
                                0 <= j < m0[k].1.len() && (#[trigger] m0[k].1[j]) == p.1;
                            assert(m1[k].1[j] == p.1);
                            assert(m1[k].1.contains(p.1));
                        } else {
                            assert(m1[k].0 == p.0 && m1[k].1.contains(p.1));
                        }
                    }
                }
            }
        }
    } else {
        // new word: insert a fresh singleton entry at the right place
        let mut ids: Vec<u64> = Vec::new();
        ids.push(id);
        let word = key.clone();
        proof {
            if lo < n {
                crate::order::lemma_lex_trichotomy(m0[lo as int].0, key@);
            }
        }
        map.insert(lo, (word, ids));
        proof {
            let m1 = postings_view(map@);
            assert(m1 =~= m0.insert(lo as int, (key@, seq![id])));
            assert forall|i: int, j: int| 0 <= i < j < m1.len() implies lex_lt(
                m1[i].0,
                m1[j].0,
            ) by {
                if i < lo && j == lo {
                    assert(m1[i].0 == m0[i].0);
                } else if i == lo && j > lo {
                    assert(m1[j].0 == m0[j - 1].0);
                    if lo < n {
                        if lo <= j - 1 - 1 + 1 && j - 1 > lo - 1 {
                            if j - 1 == lo {
                                assert(lex_lt(key@, m0[lo as int].0));
                            } else {
                                assert(lex_lt(m0[lo as int].0, m0[j - 1].0));
                                crate::order::lemma_lex_trans(
                                    key@,
                                    m0[lo as int].0,
                                    m0[j - 1].0,
                                );
                            }
                        }
                    }
                } else if i < lo && j > lo {
                    assert(m1[i].0 == m0[i].0);
                    assert(m1[j].0 == m0[j - 1].0);
                    if j - 1 == i {
                    } else {
                        assert(lex_lt(m0[i].0, m0[j - 1].0));
                    }
                } else if i < lo && j < lo {
                    assert(m1[i].0 == m0[i].0);
                    assert(m1[j].0 == m0[j].0);
                } else {
                    assert(m1[i].0 == m0[i - 1].0);
                    assert(m1[j].0 == m0[j - 1].0);
                }
            }
            assert(pairs_of(m1) =~= pairs_of(m0).insert((key@, id))) by {
                assert forall|p: (Seq<u8>, u64)| pairs_of(m1).contains(p) implies pairs_of(
                    m0,
                ).insert((key@, id)).contains(p) by {
                    let k = choose|k: int|
                        0 <= k < m1.len() && (#[trigger] m1[k]).0 == p.0 && m1[k].1.contains(p.1);
                    if k == lo {
                        assert(m1[k].1 =~= seq![id]);
                        assert(p.1 == id);
                    } else if k < lo {
                        assert(m0[k].0 == p.0 && m0[k].1.contains(p.1));
                        assert(pairs_of(m0).contains(p));
                    } else {
                        assert(m0[k - 1].0 == p.0 && m0[k - 1].1.contains(p.1));
                        assert(pairs_of(m0).contains(p));
                    }
                }
                assert forall|p: (Seq<u8>, u64)|
                    pairs_of(m0).insert((key@, id)).contains(p) implies pairs_of(m1).contains(
                    p,
                ) by {
                    if p == (key@, id) {
                        assert(m1[lo as int].0 == key@);
                        assert(m1[lo as int].1[0] == id);
                        assert(m1[lo as int].1.contains(id));
                    } else {
                        let k = choose|k: int|
                            0 <= k < m0.len() && (#[trigger] m0[k]).0 == p.0 && m0[k].1.contains(
                                p.1,
                            );
                        if k < lo {
                            assert(m1[k].0 == p.0 && m1[k].1.contains(p.1));
                        } else {
                            assert(m1[k + 1].0 == p.0 && m1[k + 1].1.contains(p.1));
                        }
                    }
                }
            }
        }
    }
}

/// The in-memory state accumulated while importing one chunk.
pub struct Storage {
    pub num_pages: u64,
    pub urls: Vec<(u64, String)>,
    pub by_language: Vec<Posting>,
    pub by_word: Vec<Posting>,
    pub by_title_word: Vec<Posting>,
}

impl Storage {
    /// Internal consistency: the URL map is dense ending at
    /// `num_pages`, URLs fit the shard format, and the three posting
    /// maps are well-formed with ids below `num_pages`.
    pub open spec fn wf(&self) -> bool {
        &&& self.urls@.len() <= self.num_pages
        &&& forall|i: int|
            0 <= i < self.urls@.len() ==> (#[trigger] self.urls@[i]).0 == self.num_pages
                - self.urls@.len() + i
        &&& forall|i: int|
            0 <= i < self.urls@.len() ==> encode_utf8((#[trigger] self.urls@[i]).1@).len() <= 65535
        &&& map_wf(postings_view(self.by_language@))
        &&& map_wf(postings_view(self.by_word@))
        &&& map_wf(postings_view(self.by_title_word@))
        &&& map_ids_below(postings_view(self.by_language@), self.num_pages)
        &&& map_ids_below(postings_view(self.by_word@), self.num_pages)
        &&& map_ids_below(postings_view(self.by_title_word@), self.num_pages)
    }

    /// A fresh accumulator for a store already holding `num_pages`
    /// documents.
    pub fn new(num_pages: u64) -> (r: Storage)
        ensures
            r.wf(),
            r.num_pages == num_pages,
            r.urls@.len() == 0,
            r.by_language@.len() == 0,
            r.by_word@.len() == 0,
            r.by_title_word@.len() == 0,
    {
        Storage {
            num_pages,
            urls: Vec::new(),
            by_language: Vec::new(),
            by_word: Vec::new(),
            by_title_word: Vec::new(),
        }
    }

    /// Assigns the next document id to `url` and records it.  Ids are
    /// handed out strictly in order with no gaps.
    pub fn insert_url(&mut self, url: String) -> (id: u64)
        requires
            old(self).wf(),
            old(self).num_pages < u64::MAX,
            encode_utf8(url@).len() <= 65535,
        ensures
            final(self).wf(),
            id == old(self).num_pages,
            final(self).num_pages == old(self).num_pages + 1,
            final(self).urls@ == old(self).urls@.push((id, url)),
            final(self).by_language == old(self).by_language,
            final(self).by_word == old(self).by_word,
            final(self).by_title_word == old(self).by_title_word,
    {
        let id = self.num_pages;
        self.urls.push((id, url));
        self.num_pages = self.num_pages + 1;
        proof {
            assert forall|i: int, j: int|
                0 <= i < postings_view(self.by_word@).len() && 0 <= j < postings_view(
                    self.by_word@,
                )[i].1.len() implies #[trigger] postings_view(self.by_word@)[i].1[j]
                < self.num_pages by {
                assert(postings_view(self.by_word@)[i].1[j] < old(self).num_pages);
            }
            assert forall|i: int, j: int|
                0 <= i < postings_view(self.by_title_word@).len() && 0 <= j < postings_view(
                    self.by_title_word@,
                )[i].1.len() implies #[trigger] postings_view(self.by_title_word@)[i].1[j]
                < self.num_pages by {
                assert(postings_view(self.by_title_word@)[i].1[j] < old(self).num_pages);
            }
            assert forall|i: int, j: int|
                0 <= i < postings_view(self.by_language@).len() && 0 <= j < postings_view(
                    self.by_language@,
                )[i].1.len() implies #[trigger] postings_view(self.by_language@)[i].1[j]
                < self.num_pages by {
                assert(postings_view(self.by_language@)[i].1[j] < old(self).num_pages);
            }
        }
        id
    }

    /// Records that document `url_id` is in language `lang`.
    pub fn insert_lang(&mut self, url_id: u64, lang: crate::lang::LangCode)
        requires
            old(self).wf(),
            url_id < old(self).num_pages,
            crate::lang::spec_supported(lang),
            map_ids_below(postings_view(old(self).by_language@), (url_id + 1) as u64),
        ensures
            final(self).wf(),
            final(self).num_pages == old(self).num_pages,
            final(self).urls == old(self).urls,
            final(self).by_word == old(self).by_word,
            final(self).by_title_word == old(self).by_title_word,
            map_ids_below(postings_view(final(self).by_language@), (url_id + 1) as u64),
            pairs_of(postings_view(final(self).by_language@)) == pairs_of(
                postings_view(old(self).by_language@),
            ).insert((crate::lang::spec_lang_code(lang), url_id)),
    {
        let code = crate::lang::lang_code(lang);
        assoc_insert(&mut self.by_language, &code, url_id);
    }

    /// Records that document `url_id` carries `word`, in its title if
    /// `in_title`, in its body otherwise.
    pub fn insert_word(&mut self, url_id: u64, in_title: bool, word: &Vec<u8>)
        requires
            old(self).wf(),
            url_id < old(self).num_pages,
            word@.len() <= 255,
            in_title ==> map_ids_below(postings_view(old(self).by_title_word@), (url_id + 1) as u64),
            !in_title ==> map_ids_below(postings_view(old(self).by_word@), (url_id + 1) as u64),
        ensures
            final(self).wf(),
            final(self).num_pages == old(self).num_pages,
            final(self).urls == old(self).urls,
            final(self).by_language == old(self).by_language,
            in_title ==> final(self).by_word == old(self).by_word && map_ids_below(
                postings_view(final(self).by_title_word@),
                (url_id + 1) as u64,
            ) && pairs_of(postings_view(final(self).by_title_word@)) == pairs_of(
                postings_view(old(self).by_title_word@),
            ).insert((word@, url_id)),
            !in_title ==> final(self).by_title_word == old(self).by_title_word && map_ids_below(
                postings_view(final(self).by_word@),
                (url_id + 1) as u64,
            ) && pairs_of(postings_view(final(self).by_word@)) == pairs_of(
                postings_view(old(self).by_word@),
            ).insert((word@, url_id)),
    {
        if in_title {
            assoc_insert(&mut self.by_title_word, word, url_id);
        } else {
            assoc_insert(&mut self.by_word, word, url_id);
        }
    }
}

/// Within one accumulator, assigned ids are strictly increasing and
/// dense: the id of entry `j` exceeds that of entry `i` by exactly
/// `j - i`, leaving no gaps.
pub proof fn lemma_ids_dense(s: Storage, i: int, j: int)
    requires
        s.wf(),
        0 <= i < j < s.urls@.len(),
    ensures
        s.urls@[i].0 < s.urls@[j].0,
        s.urls@[j].0 - s.urls@[i].0 == j - i,
{
}


/// The decimal digits of `n`, most significant first.
pub open spec fn spec_dec_digits(n: u64) -> Seq<char>
    decreases n,
{
    if n < 10 {
        seq![((48 + n) as u8) as char]
    } else {
        spec_dec_digits(n / 10).push(((48 + n % 10) as u8) as char)
    }
}

/// Powers of ten.
pub open spec fn pow10(k: nat) -> int
    decreases k,
{
    if k == 0 {
        1
    } else {
        10 * pow10((k - 1) as nat)
    }
}

proof fn lemma_dec_len(n: u64, k: nat)
    requires
        k >= 1,
        n < pow10(k),
    ensures
        spec_dec_digits(n).len() <= k,
    decreases k,
{
    if n >= 10 {
        if k == 1 {
            assert(pow10(1) == 10) by {
                reveal_with_fuel(pow10, 3);
            }
            assert(false);
        }
        vstd::arithmetic::div_mod::lemma_fundamental_div_mod(n as int, 10);
        assert(n / 10 < pow10((k - 1) as nat)) by (nonlinear_arith)
            requires
                n as int == 10 * ((n as int) / 10) + (n as int) % 10,
                0 <= (n as int) % 10 < 10,
                n < pow10(k),
                pow10(k as nat) == 10 * pow10((k - 1) as nat),
                n as int / 10 == (n / 10) as int,
        ;
        lemma_dec_len(n / 10, (k - 1) as nat);
    }
}

/// Decimal renderings are short and ASCII.
pub proof fn lemma_dec_digits_bounds(n: u64)
    ensures
        1 <= spec_dec_digits(n).len() <= 20,
        vstd::utf8::is_ascii_chars(spec_dec_digits(n)),
    decreases n,
{
    reveal_with_fuel(pow10, 25);
    assert(pow10(20) == 100000000000000000000);
    lemma_dec_len(n, 20);
    if n < 10 {
        assert(vstd::utf8::is_ascii_chars(spec_dec_digits(n)));
    } else {
        lemma_dec_digits_bounds(n / 10);
        assert(spec_dec_digits(n).last() as u32 == 48 + n % 10);
        assert forall|i: int|
            0 <= i < spec_dec_digits(n).len() implies (spec_dec_digits(n)[i] as u32)
            < 128 by {
            if i < spec_dec_digits(n).len() - 1 {
                assert(spec_dec_digits(n)[i] == spec_dec_digits(n / 10)[i]);
            }
        }
    }
}

/// Renders `n` in decimal.
pub fn u64_digits(n: u64) -> (r: Vec<char>)
    ensures
        r@ == spec_dec_digits(n),
    decreases n,
{
    if n < 10 {
        let mut out: Vec<char> = Vec::new();
        out.push(((48 + n) as u8) as char);
        proof {
            assert(out@ =~= spec_dec_digits(n));
        }
        out
    } else {
        let mut out = u64_digits(n / 10);
        out.push(((48 + n % 10) as u8) as char);
        out
    }
}

/// The file name of the URL shard whose first id is `first`.
pub open spec fn spec_url_file_name(first: u64) -> Seq<char> {
    "urls_"@ + spec_dec_digits(first) + ".xraystore"@
}

/// The file name of an indexed shard for `tag` with counter `unique`.
pub open spec fn spec_indexed_file_name(tag: Seq<char>, unique: u64) -> Seq<char> {
    "indexed_"@ + tag + "_"@ + spec_dec_digits(unique) + ".xraystore"@
}

fn push_str_chars(out: &mut Vec<char>, s: &str)
    ensures
        final(out)@ == old(out)@ + s@,
{
    let n = s.unicode_len();
    let mut i: usize = 0;
    proof {
        assert(out@ =~= old(out)@ + s@.take(0));
    }
    while i < n
        invariant
            0 <= i <= n,
            n == s@.len(),
            out@ == old(out)@ + s@.take(i as int),
        decreases n - i,
    {
        out.push(s.get_char(i));
        proof {
            assert(s@.take(i as int).push(s@[i as int]) =~= s@.take(i + 1));
            assert(out@ =~= old(out)@ + s@.take(i + 1));
        }
        i = i + 1;
    }
    proof {
        assert(s@.take(n as int) =~= s@);
    }
}

/// Builds `urls_{first}.xraystore`.
pub fn url_file_name(first: u64) -> (r: String)
    ensures
        r@ == spec_url_file_name(first),
        r@.len() <= 65535,
        vstd::utf8::encode_utf8(r@).len() <= 65535,
{
    let mut chars: Vec<char> = Vec::new();
    push_str_chars(&mut chars, "urls_");
    let mut digits = u64_digits(first);
    chars.append(&mut digits);
    push_str_chars(&mut chars, ".xraystore");
    proof {
        assert(chars@ =~= spec_url_file_name(first));
        lemma_dec_digits_bounds(first);
        reveal_strlit("urls_");
        reveal_strlit(".xraystore");
        assert(vstd::utf8::is_ascii_chars(chars@)) by {
            assert forall|i: int| 0 <= i < chars@.len() implies (chars@[i] as u32) < 128 by {
                if i < 5 {
                    assert(chars@[i] == "urls_"@[i]);
                } else if i < 5 + spec_dec_digits(first).len() {
                    assert(chars@[i] == spec_dec_digits(first)[i - 5]);
                } else {
                    assert(chars@[i] == ".xraystore"@[i - 5 - spec_dec_digits(first).len()]);
                }
            }
        }
        vstd::utf8::is_ascii_chars_encode_utf8(chars@);
    }
    crate::canon::chars_to_string(&chars)
}

/// Builds `indexed_{tag}_{unique}.xraystore`.
pub fn indexed_file_name(tag: &String, unique: u64) -> (r: String)
    requires
        vstd::utf8::is_ascii_chars(tag@),
        tag@.len() <= 255,
    ensures
        r@ == spec_indexed_file_name(tag@, unique),
        r@.len() <= 65535,
        vstd::utf8::encode_utf8(r@).len() <= 65535,
{
    let mut chars: Vec<char> = Vec::new();
    push_str_chars(&mut chars, "indexed_");
    push_str_chars(&mut chars, tag.as_str());
    push_str_chars(&mut chars, "_");
    let mut digits = u64_digits(unique);
    chars.append(&mut digits);
    push_str_chars(&mut chars, ".xraystore");
    proof {
        assert(chars@ =~= spec_indexed_file_name(tag@, unique));
        lemma_dec_digits_bounds(unique);
        reveal_strlit("indexed_");
        reveal_strlit("_");
        reveal_strlit(".xraystore");
        let dl = spec_dec_digits(unique).len() as int;
        let tl = tag@.len() as int;
        assert(vstd::utf8::is_ascii_chars(chars@)) by {
            assert forall|i: int| 0 <= i < chars@.len() implies (chars@[i] as u32) < 128 by {
                if i < 8 {
                    assert(chars@[i] == "indexed_"@[i]);
                } else if i < 8 + tl {
                    assert(chars@[i] == tag@[i - 8]);
                } else if i < 9 + tl {
                    assert(chars@[i] == "_"@[i - 8 - tl]);
                } else if i < 9 + tl + dl {
                    assert(chars@[i] == spec_dec_digits(unique)[i - 9 - tl]);
                } else {
                    assert(chars@[i] == ".xraystore"@[i - 9 - tl - dl]);
                }
            }
        }
        vstd::utf8::is_ascii_chars_encode_utf8(chars@);
    }
    crate::canon::chars_to_string(&chars)
}

/// Computes the encoded size of a posting list, or `None` when it
/// cannot fit the format's 64-bit offsets.
#[verifier::loop_isolation(false)]
fn postings_size_checked(data: &Vec<Posting>) -> (r: Option<u64>)
    ensures
        r matches Some(t) ==> t == crate::index_shard::enc_postings(postings_view(data@)).len(),
        r is None ==> crate::index_shard::enc_postings(postings_view(data@)).len() > u64::MAX,
{
    let ghost m = postings_view(data@);
    let n = data.len();
    let mut total: u64 = 0;
    let mut i: usize = 0;
    proof {
        assert(m.take(0) =~= Seq::<(Seq<u8>, Seq<u64>)>::empty());
    }
    while i < n
        invariant
            0 <= i <= n,
            n == data@.len(),
            m == postings_view(data@),
            total == crate::index_shard::offset_of(m, i as int),
        decreases n - i,
    {
        proof {
            crate::index_shard::lemma_enc_postings_at(m, i as int);
            crate::index_shard::lemma_enc_posting_len(m[i as int]);
        }
        let wl = data[i].0.len() as u64;
        let il = data[i].1.len() as u64;
        if wl > u64::MAX - 9 || il > (u64::MAX - 9 - wl) / 8 || total > u64::MAX - (9 + wl + 8
            * il) {
            proof {
                let k = i as int;
                crate::index_shard::lemma_enc_postings_prefix(m, k + 1);
                assert(crate::index_shard::offset_of(m, k + 1) <= crate::index_shard::enc_postings(
                    m,
                ).len());
                assert(8 * ((u64::MAX - 9 - wl) as int / 8) <= u64::MAX - 9 - wl);
            }
            return None;
        }
        total = total + 9 + wl + 8 * il;
        i = i + 1;
    }
    proof {
        assert(m.take(n as int) =~= m);
    }
    Some(total)
}

/// The catalog record one persisted shard carries: none for a `_tmp`
/// shard, which stays unregistered until the rebuild pass promotes it.
pub open spec fn spec_catalog_record(tag: Seq<char>, n: u64, unique: u64) -> Seq<u8> {
    if crate::catalog::spec_contains_tmp(encode_utf8(tag)) {
        Seq::empty()
    } else {
        crate::catalog::enc_idx_cat_entry(
            (encode_utf8(tag), n, encode_utf8(spec_indexed_file_name(tag, unique))),
        )
    }
}

/// Encodes one accumulator map as an indexed shard plus its catalog
/// record: the shard bytes, the file name, and the catalog-append
/// bytes (empty for a `_tmp` tag, which is not registered).  Returns
/// `None` exactly for an empty map, and for one too large for the
/// format's 64-bit offsets.
pub fn persist_indexed(tag: &String, unique: u64, data: Vec<Posting>) -> (r: Option<
    (String, Vec<u8>, Vec<u8>),
>)
    requires
        crate::optimize::sub_wf(postings_view(data@)),
        vstd::utf8::is_ascii_chars(tag@),
        1 <= tag@.len() <= 255,
    ensures
        data@.len() == 0 ==> r is None,
        r matches Some(v) ==> {
            &&& data@.len() > 0
            &&& wf_postings(postings_view(data@))
            &&& v.0@ == spec_indexed_file_name(tag@, unique)
            &&& v.1@ == crate::index_shard::shard_bytes(postings_view(data@))
            &&& v.2@ == spec_catalog_record(tag@, data@.len() as u64, unique)
        },
        r is None && data@.len() > 0 ==> crate::index_shard::enc_postings(
            postings_view(data@),
        ).len() > u64::MAX,
{
    if data.is_empty() {
        return None;
    }
    let total = match postings_size_checked(&data) {
        Some(t) => t,
        None => {
            return None;
        },
    };
    proof {
        crate::index_shard::lemma_enc_postings_len_lower(postings_view(data@));
        assert(wf_postings(postings_view(data@)));
    }
    let bytes = crate::index_shard::store_indexed_bytes(&data);
    let name = indexed_file_name(tag, unique);
    proof {
        vstd::utf8::is_ascii_chars_encode_utf8(tag@);
    }
    let tag_bytes = tag.as_str().as_bytes_vec();
    let cat = if crate::catalog::contains_tmp_marker(&tag_bytes) {
        Vec::new()
    } else {
        crate::catalog::append_index_catalog(tag, data.len() as u64, &name)
    };
    proof {
        assert(cat@ == spec_catalog_record(tag@, data@.len() as u64, unique));
    }
    Some((name, bytes, cat))
}

impl Storage {
    /// Writes the chunk's URL map out as one URL shard: returns the
    /// first id, the file name, the shard bytes and the catalog-append
    /// bytes, then clears the map.  Returns `None` when the map is
    /// empty or exceeds the format's 64-bit offsets.
    #[verifier::loop_isolation(false)]
    pub fn persist_urls(&mut self) -> (r: Option<(u64, String, Vec<u8>, Vec<u8>)>)
        requires
            old(self).wf(),
        ensures
            final(self).wf(),
            final(self).num_pages == old(self).num_pages,
            final(self).urls@.len() == 0,
            final(self).by_language == old(self).by_language,
            final(self).by_word == old(self).by_word,
            final(self).by_title_word == old(self).by_title_word,
            old(self).urls@.len() == 0 ==> r is None,
            r is None ==> old(self).urls@.len() == 0 || crate::url_shard::enc_url_entries(
                (old(self).num_pages - old(self).urls@.len()) as u64,
                old(self).urls@.map_values(|p: (u64, String)| encode_utf8(p.1@)),
            ).len() > u64::MAX,
            r matches Some(v) ==> {
                let first = (old(self).num_pages - old(self).urls@.len()) as u64;
                let m = old(self).urls@.map_values(|p: (u64, String)| encode_utf8(p.1@));
                &&& old(self).urls@.len() > 0
                &&& crate::url_shard::wf_urls(first, m)
                &&& v.0 == first
                &&& v.1@ == spec_url_file_name(first)
                &&& v.2@ == crate::url_shard::url_shard_bytes(first, m)
                &&& v.3@ == crate::catalog::enc_url_cat_entry(
                    (first, old(self).urls@.len() as u64, encode_utf8(v.1@)),
                )
            },
    {
        let ghost m = self.urls@.map_values(|p: (u64, String)| encode_utf8(p.1@));
        if self.urls.is_empty() {
            self.urls = Vec::new();
            return None;
        }
        let first = self.num_pages - self.urls.len() as u64;
        // convert to byte form, and total the encoded size
        let n = self.urls.len();
        let mut total: u64 = 0;
        let mut bytes_urls: Vec<(u64, Vec<u8>)> = Vec::new();
        let mut i: usize = 0;
        proof {
            assert(m.take(0) =~= Seq::<Seq<u8>>::empty());
        }
        while i < n
            invariant
                0 <= i <= n,
                n == self.urls@.len(),
                self == old(self),
                m == self.urls@.map_values(|p: (u64, String)| encode_utf8(p.1@)),
                first == self.num_pages - n,
                total == crate::url_shard::url_offset_of(first, m, i as int),
                bytes_urls@.len() == i,
                bytes_urls@.map_values(|p: (u64, Vec<u8>)| p.1@) == m.take(i as int),
                forall|t: int|
                    0 <= t < i ==> (#[trigger] bytes_urls@[t]).0 == first + t,
            decreases n - i,
        {
            proof {
                crate::url_shard::lemma_enc_url_entries_at(first, m, i as int);
                crate::url_shard::lemma_enc_url_entry_len(
                    (first + i) as u64,
                    m[i as int],
                );
            }
            let url_b = self.urls[i].1.as_str().as_bytes_vec();
            let cost = 10 + url_b.len() as u64;
            if total > u64::MAX - cost {
                proof {
                    crate::url_shard::lemma_enc_url_entries_at(first, m, i as int);
                    crate::url_shard::lemma_enc_url_entries_prefix(first, m, i + 1);
                    assert(crate::url_shard::url_offset_of(first, m, i + 1) > u64::MAX);
                    assert(crate::url_shard::enc_url_entries(first, m).len() > u64::MAX);
                }
                self.urls = Vec::new();
                return None;
            }
            total = total + cost;
            bytes_urls.push((self.urls[i].0, url_b));
            proof {
                assert(bytes_urls@.map_values(|p: (u64, Vec<u8>)| p.1@) =~= m.take(i + 1));
            }
            i = i + 1;
        }
        proof {
            assert(m.take(n as int) =~= m);
            assert forall|t: int| 0 <= t < m.len() implies vstd::utf8::valid_utf8(
                #[trigger] m[t],
            ) by {
                vstd::utf8::encode_utf8_valid_utf8(self.urls@[t].1@);
            }
            assert(crate::url_shard::wf_urls(first, m));
        }
        let shard = crate::url_shard::store_urls_bytes(&bytes_urls);
        let name = url_file_name(first);
        let cat = crate::catalog::append_url_catalog(first, n as u64, &name);
        self.urls = Vec::new();
        Some((first, name, shard, cat))
    }
}



/// Whether one of the emitted shards carries exactly these bytes under
/// this file name.
/// Whether a posting map yields a shard when persisted: it must be
/// nonempty and fit the format's 64-bit offsets.
pub open spec fn spec_emits(m: Seq<(Seq<u8>, Seq<u64>)>) -> bool {
    m.len() > 0 && crate::index_shard::enc_postings(m).len() <= u64::MAX
}

/// One emitted shard, exactly: its file name, its file bytes, and its
/// catalog record.
pub open spec fn shard_entry_matches(
    e: (String, Vec<u8>, Vec<u8>),
    tag: Seq<char>,
    m: Seq<(Seq<u8>, Seq<u64>)>,
    unique: u64,
) -> bool {
    &&& e.0@ == spec_indexed_file_name(tag, unique)
    &&& e.1@ == crate::index_shard::shard_bytes(m)
    &&& e.2@ == spec_catalog_record(tag, m.len() as u64, unique)
}

/// What one persist step emits: for the chunk's URL map and for each
/// posting map, the file to write and the catalog record to append.
pub struct PersistOutput {
    pub urls: Option<(u64, String, Vec<u8>, Vec<u8>)>,
    pub shards: Vec<(String, Vec<u8>, Vec<u8>)>,
}

impl Storage {
    /// Persists the whole chunk: the URL shard first, then one indexed
    /// shard per nonempty posting map, tagged with `unique`; all maps
    /// are left empty.  The per-map outputs come in the order
    /// `by_language`, `by_title_word`, `by_word`; an empty map emits
    /// nothing.
    pub fn persist(&mut self, unique: u64) -> (r: PersistOutput)
        requires
            old(self).wf(),
        ensures
            final(self).wf(),
            final(self).num_pages == old(self).num_pages,
            final(self).urls@.len() == 0,
            final(self).by_language@.len() == 0,
            final(self).by_word@.len() == 0,
            final(self).by_title_word@.len() == 0,
            old(self).urls@.len() == 0 ==> r.urls is None,
            r.urls is None ==> old(self).urls@.len() == 0 || crate::url_shard::enc_url_entries(
                (old(self).num_pages - old(self).urls@.len()) as u64,
                old(self).urls@.map_values(|p: (u64, String)| encode_utf8(p.1@)),
            ).len() > u64::MAX,
            r.urls matches Some(v) ==> {
                let first = (old(self).num_pages - old(self).urls@.len()) as u64;
                let m = old(self).urls@.map_values(|p: (u64, String)| encode_utf8(p.1@));
                &&& old(self).urls@.len() > 0
                &&& crate::url_shard::wf_urls(first, m)
                &&& v.0 == first
                &&& v.1@ == spec_url_file_name(first)
                &&& v.2@ == crate::url_shard::url_shard_bytes(first, m)
                &&& v.3@ == crate::catalog::enc_url_cat_entry(
                    (first, old(self).urls@.len() as u64, encode_utf8(v.1@)),
                )
            },
            r.shards@.len() == emit_count(postings_view(old(self).by_language@)) + emit_count(
                postings_view(old(self).by_title_word@),
            ) + emit_count(postings_view(old(self).by_word@)),
            spec_emits(postings_view(old(self).by_language@)) ==> shard_entry_matches(
                r.shards@[0],
                "by_language"@,
                postings_view(old(self).by_language@),
                unique,
            ),
            spec_emits(postings_view(old(self).by_title_word@)) ==> shard_entry_matches(
                r.shards@[emit_count(postings_view(old(self).by_language@))],
                "by_title_word"@,
                postings_view(old(self).by_title_word@),
                unique,
            ),
            spec_emits(postings_view(old(self).by_word@)) ==> shard_entry_matches(
                r.shards@[emit_count(postings_view(old(self).by_language@)) + emit_count(
                    postings_view(old(self).by_title_word@),
                )],
                "by_word"@,
                postings_view(old(self).by_word@),
                unique,
            ),
    {
        let urls_out = self.persist_urls();
        let mut shards: Vec<(String, Vec<u8>, Vec<u8>)> = Vec::new();
        let mut by_language: Vec<Posting> = Vec::new();
        let mut by_title_word: Vec<Posting> = Vec::new();
        let mut by_word: Vec<Posting> = Vec::new();
        core::mem::swap(&mut by_language, &mut self.by_language);
        core::mem::swap(&mut by_title_word, &mut self.by_title_word);
        core::mem::swap(&mut by_word, &mut self.by_word);
        let tag_lang = lang_tag_string();
        let tag_title = title_tag_string();
        let tag_word = word_tag_string();
        let ghost lang0 = postings_view(old(self).by_language@);
        let ghost title0 = postings_view(old(self).by_title_word@);
        let ghost word0 = postings_view(old(self).by_word@);
        proof {
            assert(postings_view(by_language@) == lang0);
            assert(postings_view(by_title_word@) == title0);
            assert(postings_view(by_word@) == word0);
            if lang0.len() > 0 {
                crate::index_shard::lemma_enc_postings_len_lower(lang0);
            }
            if title0.len() > 0 {
                crate::index_shard::lemma_enc_postings_len_lower(title0);
            }
            if word0.len() > 0 {
                crate::index_shard::lemma_enc_postings_len_lower(word0);
            }
        }
        if let Some(v) = persist_indexed(&tag_lang, unique, by_language) {
            shards.push(v);
            proof {
                assert(spec_emits(lang0));
                assert(shard_entry_matches(shards@[0], "by_language"@, lang0, unique));
            }
        } else {
            proof {
                assert(!spec_emits(lang0));
            }
        }
        let ghost after_lang = shards@;
        proof {
            assert(after_lang.len() == emit_count(lang0));
        }
        if let Some(v) = persist_indexed(&tag_title, unique, by_title_word) {
            shards.push(v);
            proof {
                assert(spec_emits(title0));
                assert(shard_entry_matches(
                    shards@[after_lang.len() as int],
                    "by_title_word"@,
                    title0,
                    unique,
                ));
            }
        } else {
            proof {
                assert(!spec_emits(title0));
            }
        }
        let ghost after_title = shards@;
        proof {
            assert(after_title.len() == emit_count(lang0) + emit_count(title0));
        }
        if let Some(v) = persist_indexed(&tag_word, unique, by_word) {
            shards.push(v);
            proof {
                assert(spec_emits(word0));
                assert(shard_entry_matches(
                    shards@[after_title.len() as int],
                    "by_word"@,
                    word0,
                    unique,
                ));
            }
        } else {
            proof {
                assert(!spec_emits(word0));
            }
        }
        proof {
            assert(forall|k: int|
                0 <= k < after_lang.len() ==> #[trigger] shards@[k] == after_lang[k]);
            assert(forall|k: int|
                0 <= k < after_title.len() ==> #[trigger] shards@[k] == after_title[k]);
        }
        PersistOutput { urls: urls_out, shards }
    }
}

/// One when the map emits a shard, zero when it does not.
pub open spec fn emit_count(m: Seq<(Seq<u8>, Seq<u64>)>) -> int {
    if spec_emits(m) {
        1
    } else {
        0
    }
}

/// The `by_language` tag.
pub fn lang_tag_string() -> (r: String)
    ensures
        r@ == "by_language"@,
        vstd::utf8::is_ascii_chars(r@),
        1 <= r@.len() <= 255,
{
    let r: &str = "by_language";
    proof {
        reveal_strlit("by_language");
    }
    r.to_owned()
}

/// The `by_title_word` tag.
pub fn title_tag_string() -> (r: String)
    ensures
        r@ == "by_title_word"@,
        vstd::utf8::is_ascii_chars(r@),
        1 <= r@.len() <= 255,
{
    let r: &str = "by_title_word";
    proof {
        reveal_strlit("by_title_word");
    }
    r.to_owned()
}

/// The `by_word` tag.
pub fn word_tag_string() -> (r: String)
    ensures
        r@ == "by_word"@,
        vstd::utf8::is_ascii_chars(r@),
        1 <= r@.len() <= 255,
{
    let r: &str = "by_word";
    proof {
        reveal_strlit("by_word");
    }
    r.to_owned()
}

} // verus!
